//! Choosing the network interface to capture on, from the list the
//! embedding program read off the machine.

use vstd::prelude::*;

verus! {

/// One network interface, as plain values: its name, its IPv4 addresses,
/// and whether it is a loopback or up.
#[derive(Clone, Debug)]
pub struct Interface {
    /// The system name of the interface.
    pub name: String,
    /// Its IPv4 addresses.
    pub ip_addrs: Vec<u32>,
    /// Whether it is a loopback interface.
    pub is_loopback: bool,
    /// Whether it is up.
    pub is_up: bool,
}

/// The interfaces that are not loopbacks, in order.
pub open spec fn non_loopback(s: Seq<Interface>) -> Seq<Interface>
    decreases s.len(),
{
    if s.len() == 0 {
        Seq::empty()
    } else {
        non_loopback(s.drop_last()) + if !s.last().is_loopback {
            seq![s.last()]
        } else {
            Seq::empty()
        }
    }
}

/// The interfaces that carry a specified (non-zero) first address, in order.
pub open spec fn with_address(s: Seq<Interface>) -> Seq<Interface>
    decreases s.len(),
{
    if s.len() == 0 {
        Seq::empty()
    } else {
        with_address(s.drop_last()) + if s.last().ip_addrs@.len() > 0 && s.last().ip_addrs@[0]
            != 0 {
            seq![s.last()]
        } else {
            Seq::empty()
        }
    }
}

/// The interfaces that are up, in order.
pub open spec fn only_up(s: Seq<Interface>) -> Seq<Interface>
    decreases s.len(),
{
    if s.len() == 0 {
        Seq::empty()
    } else {
        only_up(s.drop_last()) + if s.last().is_up {
            seq![s.last()]
        } else {
            Seq::empty()
        }
    }
}

/// The usable interfaces of the machine: every one that is not a loopback.
pub fn interfaces(inters: Vec<Interface>) -> (r: Vec<Interface>)
    ensures
        r@ == non_loopback(inters@),
{
    let mut out: Vec<Interface> = Vec::new();
    let mut rest = inters;
    let total = rest.len();
    let ghost orig = rest@;
    proof {
        assert(orig.len() == total);
    }
    let mut i: usize = 0;
    proof {
        assert(non_loopback(orig.take(0)) =~= Seq::<Interface>::empty());
    }
    while rest.len() > 0
        invariant
            rest@.len() + i == orig.len(),
            i <= orig.len() <= usize::MAX,
            rest@ == orig.skip(i as int),
            out@ == non_loopback(orig.take(i as int)),
        decreases rest@.len(),
    {
        let it = rest.remove(0);
        proof {
            assert(it == orig[i as int]);
            assert(orig.take(i + 1).drop_last() =~= orig.take(i as int));
            assert(orig.take(i + 1).last() == orig[i as int]);
            assert(rest@ =~= orig.skip(i + 1));
        }
        if !it.is_loopback {
            out.push(it);
            proof {
                assert(out@ =~= non_loopback(orig.take(i + 1)));
            }
        } else {
            proof {
                assert(out@ =~= non_loopback(orig.take(i + 1)));
            }
        }
        i = i + 1;
    }
    proof {
        assert(orig.take(i as int) =~= orig);
    }
    out
}

/// The interfaces a capture could sensibly default to: those with a
/// specified address, narrowed to the ones that are up when several remain.
fn auto_interfaces(inters: Vec<Interface>) -> (r: Vec<Interface>)
    ensures
        ({
            let addressed = with_address(non_loopback(inters@));
            r@ == if addressed.len() > 1 {
                only_up(addressed)
            } else {
                addressed
            }
        }),
{
    let usable = interfaces(inters);
    let mut addressed: Vec<Interface> = Vec::new();
    let mut rest = usable;
    let total = rest.len();
    let ghost orig = rest@;
    proof {
        assert(orig.len() == total);
    }
    let mut i: usize = 0;
    while rest.len() > 0
        invariant
            rest@.len() + i == orig.len(),
            i <= orig.len() <= usize::MAX,
            rest@ == orig.skip(i as int),
            addressed@ == with_address(orig.take(i as int)),
        decreases rest@.len(),
    {
        let it = rest.remove(0);
        proof {
            assert(it == orig[i as int]);
            assert(orig.take(i + 1).drop_last() =~= orig.take(i as int));
            assert(orig.take(i + 1).last() == orig[i as int]);
            assert(rest@ =~= orig.skip(i + 1));
        }
        if it.ip_addrs.len() > 0 && it.ip_addrs[0] != 0 {
            addressed.push(it);
        }
        proof {
            assert(addressed@ =~= with_address(orig.take(i + 1)));
        }
        i = i + 1;
    }
    proof {
        assert(orig.take(i as int) =~= orig);
    }
    if addressed.len() <= 1 {
        return addressed;
    }
    let mut up: Vec<Interface> = Vec::new();
    let mut rest = addressed;
    let total2 = rest.len();
    let ghost orig2 = rest@;
    proof {
        assert(orig2.len() == total2);
    }
    let mut i: usize = 0;
    while rest.len() > 0
        invariant
            rest@.len() + i == orig2.len(),
            i <= orig2.len() <= usize::MAX,
            rest@ == orig2.skip(i as int),
            up@ == only_up(orig2.take(i as int)),
        decreases rest@.len(),
    {
        let it = rest.remove(0);
        proof {
            assert(it == orig2[i as int]);
            assert(orig2.take(i + 1).drop_last() =~= orig2.take(i as int));
            assert(orig2.take(i + 1).last() == orig2[i as int]);
            assert(rest@ =~= orig2.skip(i + 1));
        }
        if it.is_up {
            up.push(it);
        }
        proof {
            assert(up@ =~= only_up(orig2.take(i + 1)));
        }
        i = i + 1;
    }
    proof {
        assert(orig2.take(i as int) =~= orig2);
    }
    up
}

proof fn lemma_non_loopback_prop(s: Seq<Interface>)
    ensures
        forall|j: int| 0 <= j < non_loopback(s).len() ==> !(#[trigger] non_loopback(s)[j]).is_loopback,
    decreases s.len(),
{
    if s.len() > 0 {
        lemma_non_loopback_prop(s.drop_last());
        assert forall|j: int|
            0 <= j < non_loopback(s).len() implies !(#[trigger] non_loopback(s)[j]).is_loopback by {
            if j < non_loopback(s.drop_last()).len() {
                assert(non_loopback(s)[j] == non_loopback(s.drop_last())[j]);
            } else {
                assert(non_loopback(s)[j] == s.last());
            }
        }
    }
}

proof fn lemma_with_address_prop(s: Seq<Interface>)
    requires
        forall|j: int| 0 <= j < s.len() ==> !(#[trigger] s[j]).is_loopback,
    ensures
        forall|j: int|
            0 <= j < with_address(s).len() ==> !(#[trigger] with_address(s)[j]).is_loopback,
    decreases s.len(),
{
    if s.len() > 0 {
        assert forall|j: int| 0 <= j < s.drop_last().len() implies !(#[trigger] s.drop_last()[j]).is_loopback by {
            assert(s.drop_last()[j] == s[j]);
        }
        lemma_with_address_prop(s.drop_last());
        assert forall|j: int|
            0 <= j < with_address(s).len() implies !(#[trigger] with_address(s)[j]).is_loopback by {
            if j < with_address(s.drop_last()).len() {
                assert(with_address(s)[j] == with_address(s.drop_last())[j]);
            } else {
                assert(with_address(s)[j] == s.last());
            }
        }
    }
}

proof fn lemma_only_up_prop(s: Seq<Interface>)
    requires
        forall|j: int| 0 <= j < s.len() ==> !(#[trigger] s[j]).is_loopback,
    ensures
        forall|j: int| 0 <= j < only_up(s).len() ==> !(#[trigger] only_up(s)[j]).is_loopback,
    decreases s.len(),
{
    if s.len() > 0 {
        assert forall|j: int| 0 <= j < s.drop_last().len() implies !(#[trigger] s.drop_last()[j]).is_loopback by {
            assert(s.drop_last()[j] == s[j]);
        }
        lemma_only_up_prop(s.drop_last());
        assert forall|j: int|
            0 <= j < only_up(s).len() implies !(#[trigger] only_up(s)[j]).is_loopback by {
            if j < only_up(s.drop_last()).len() {
                assert(only_up(s)[j] == only_up(s.drop_last())[j]);
            } else {
                assert(only_up(s)[j] == s.last());
            }
        }
    }
}

/// The usable interfaces whose name is exactly `wanted`, in order.
pub open spec fn with_name(s: Seq<Interface>, wanted: Seq<char>) -> Seq<Interface>
    decreases s.len(),
{
    if s.len() == 0 {
        Seq::empty()
    } else {
        with_name(s.drop_last(), wanted) + if s.last().name@ == wanted {
            seq![s.last()]
        } else {
            Seq::empty()
        }
    }
}

/// The candidates `interface` chooses among: the usable interfaces of the
/// given name, or the sensible defaults when no name is given.
pub open spec fn spec_candidates(inters: Seq<Interface>, name: Option<String>) -> Seq<Interface> {
    match name {
        Some(w) => with_name(non_loopback(inters), w@),
        None => {
            let addressed = with_address(non_loopback(inters));
            if addressed.len() > 1 {
                only_up(addressed)
            } else {
                addressed
            }
        },
    }
}

/// Picks the capture interface: the uniquely named usable one when a name is
/// given, else the unique sensible default; `None` whenever the choice is
/// not unique.
pub fn interface(inters: Vec<Interface>, name: Option<String>) -> (r: Option<Interface>)
    ensures
        r is Some <==> spec_candidates(inters@, name).len() == 1,
        r is Some ==> r->0 == spec_candidates(inters@, name)[0] && !r->0.is_loopback,
{
    let candidates: Vec<Interface> = match name {
        Some(wanted) => {
            let usable = interfaces(inters);
            proof {
                lemma_non_loopback_prop(inters@);
            }
            let mut kept: Vec<Interface> = Vec::new();
            let mut rest = usable;
            let total = rest.len();
            let ghost orig = rest@;
            proof {
                assert(orig.len() == total);
                assert(with_name(orig.take(0), wanted@) =~= Seq::<Interface>::empty());
            }
            let mut i: usize = 0;
            while rest.len() > 0
                invariant
                    rest@.len() + i == orig.len(),
                    i <= orig.len() <= usize::MAX,
                    rest@ == orig.skip(i as int),
                    kept@ == with_name(orig.take(i as int), wanted@),
                    forall|j: int| 0 <= j < kept@.len() ==> !(#[trigger] kept@[j]).is_loopback,
                    forall|j: int| 0 <= j < orig.len() ==> !(#[trigger] orig[j]).is_loopback,
                decreases rest@.len(),
            {
                let it = rest.remove(0);
                proof {
                    assert(it == orig[i as int]);
                    assert(rest@ =~= orig.skip(i + 1));
                    assert(orig.take(i + 1).drop_last() =~= orig.take(i as int));
                    assert(orig.take(i + 1).last() == orig[i as int]);
                }
                if it.name == wanted {
                    kept.push(it);
                }
                proof {
                    assert(kept@ =~= with_name(orig.take(i + 1), wanted@));
                }
                i = i + 1;
            }
            proof {
                assert(orig.take(i as int) =~= orig);
            }
            kept
        },
        None => {
            let auto = auto_interfaces(inters);
            proof {
                lemma_non_loopback_prop(inters@);
                lemma_with_address_prop(non_loopback(inters@));
                if with_address(non_loopback(inters@)).len() > 1 {
                    lemma_only_up_prop(with_address(non_loopback(inters@)));
                }
            }
            auto
        },
    };
    proof {
        assert(forall|j: int|
            0 <= j < candidates@.len() ==> !(#[trigger] candidates@[j]).is_loopback);
        assert(candidates@ == spec_candidates(inters@, name));
    }
    if candidates.len() != 1 {
        None
    } else {
        let mut c = candidates;
        let it = c.remove(0);
        Some(it)
    }
}

} // verus!
