//! The bounded UDP NAT table: at most [`crate::PORT_COUNT`] locally bound
//! ports, each mapped to the client source port that currently uses it, with
//! least-recently-used eviction when a new source port needs a binding.
//!
//! The recency order lives in an `lru::LruCache` of the outside `lru` crate,
//! held behind trusted wrappers whose contracts state what the crate's source
//! shows over the named entry list.

use vstd::prelude::*;

use crate::PORT_COUNT;

verus! {

#[verifier::external_type_specification]
#[verifier::external_body]
#[verifier::reject_recursive_types(K)]
#[verifier::reject_recursive_types(V)]
#[verifier::reject_recursive_types(S)]
pub struct ExLruCache<K, V, S>(lru::LruCache<K, V, S>);

/// The entries of a port cache, most recently used first, as (local port,
/// source port) pairs.
pub uninterp spec fn lru_entries(
    c: lru::LruCache<u16, u16, std::collections::hash_map::RandomState>,
) -> Seq<(u16, u16)>;

/// The capacity a port cache was created with.
pub uninterp spec fn lru_capacity(
    c: lru::LruCache<u16, u16, std::collections::hash_map::RandomState>,
) -> int;

/// No local port appears twice among the entries.
pub open spec fn lru_keys_distinct(es: Seq<(u16, u16)>) -> bool {
    forall|i: int, j: int|
        0 <= i < j < es.len() ==> (#[trigger] es[i]).0 != (#[trigger] es[j]).0
}

/// Whether some entry carries the local port `k`.
pub open spec fn lru_has_key(es: Seq<(u16, u16)>, k: u16) -> bool {
    exists|i: int| 0 <= i < es.len() && (#[trigger] es[i]).0 == k
}

/// Relies on `lru::LruCache::new`: a cache created with capacity `cap`
/// holds no entry.
#[verifier::external_body]
fn lru_new(cap: usize) -> (c: lru::LruCache<u16, u16, std::collections::hash_map::RandomState>)
    requires
        cap >= 1,
    ensures
        lru_entries(c) == Seq::<(u16, u16)>::empty(),
        lru_capacity(c) == cap,
{
    lru::LruCache::new(core::num::NonZeroUsize::new(cap).unwrap())
}

/// Relies on `lru::LruCache::len`: the number of stored entries.
#[verifier::external_body]
fn lru_len(c: &lru::LruCache<u16, u16, std::collections::hash_map::RandomState>) -> (n: usize)
    ensures
        n == lru_entries(*c).len(),
{
    c.len()
}

/// Relies on `lru::LruCache::cap`: the capacity the cache was created with.
#[verifier::external_body]
fn lru_cap(c: &lru::LruCache<u16, u16, std::collections::hash_map::RandomState>) -> (n: usize)
    ensures
        n == lru_capacity(*c),
{
    c.cap().get()
}

/// Relies on `lru::LruCache::put` on a cache that has room and does not hold
/// `k`: the new entry becomes the most recently used, everything else keeps
/// its place, and nothing is evicted.
#[verifier::external_body]
fn lru_put_fresh(
    c: &mut lru::LruCache<u16, u16, std::collections::hash_map::RandomState>,
    k: u16,
    v: u16,
)
    requires
        !lru_has_key(lru_entries(*old(c)), k),
        lru_entries(*old(c)).len() < lru_capacity(*old(c)),
    ensures
        lru_entries(*final(c)) == seq![(k, v)] + lru_entries(*old(c)),
        lru_capacity(*final(c)) == lru_capacity(*old(c)),
{
    c.put(k, v);
}

/// Relies on `lru::LruCache::pop_lru`: removes and returns the least
/// recently used entry, the last of the entry list; `None` exactly when the
/// cache is empty.
#[verifier::external_body]
fn lru_pop_lru(c: &mut lru::LruCache<u16, u16, std::collections::hash_map::RandomState>) -> (r:
    Option<(u16, u16)>)
    ensures
        match r {
            Some(e) => lru_entries(*old(c)).len() > 0 && e == lru_entries(*old(c)).last()
                && lru_entries(*final(c)) == lru_entries(*old(c)).drop_last(),
            None => lru_entries(*old(c)).len() == 0 && lru_entries(*final(c)) == lru_entries(
                *old(c),
            ),
        },
        lru_capacity(*final(c)) == lru_capacity(*old(c)),
{
    c.pop_lru()
}

/// Relies on `lru::LruCache::promote`: the entry of `k`, if one exists,
/// moves to the front of the recency order with its value kept; everything
/// else keeps its relative order.
#[verifier::external_body]
fn lru_promote(c: &mut lru::LruCache<u16, u16, std::collections::hash_map::RandomState>, k: u16)
    ensures
        lru_capacity(*final(c)) == lru_capacity(*old(c)),
        lru_entries(*final(c)).len() == lru_entries(*old(c)).len(),
        lru_keys_distinct(lru_entries(*old(c))) ==> lru_keys_distinct(lru_entries(*final(c))),
        lru_has_key(lru_entries(*old(c)), k) ==> exists|i: int|
            0 <= i < lru_entries(*old(c)).len() && (#[trigger] lru_entries(*old(c))[i]).0 == k
                && lru_entries(*final(c)) == seq![lru_entries(*old(c))[i]] + lru_entries(
                *old(c),
            ).remove(i),
        !lru_has_key(lru_entries(*old(c)), k) ==> lru_entries(*final(c)) == lru_entries(*old(c)),
{
    c.promote(&k);
}

/// Relies on `lru::LruCache::contains`: whether the key is present, without
/// touching the recency order.
#[verifier::external_body]
fn lru_contains(
    c: &lru::LruCache<u16, u16, std::collections::hash_map::RandomState>,
    k: u16,
) -> (r: bool)
    ensures
        r == lru_has_key(lru_entries(*c), k),
{
    c.contains(&k)
}

proof fn lemma_distinct_cons(es: Seq<(u16, u16)>, k: u16, v: u16)
    requires
        lru_keys_distinct(es),
        !lru_has_key(es, k),
    ensures
        lru_keys_distinct(seq![(k, v)] + es),
{
    let es2 = seq![(k, v)] + es;
    assert forall|i: int, j: int|
        0 <= i < j < es2.len() implies (#[trigger] es2[i]).0 != (#[trigger] es2[j]).0 by {
        if i == 0 {
            assert(es2[j] == es[j - 1]);
        } else {
            assert(es2[i] == es[i - 1] && es2[j] == es[j - 1]);
        }
    }
}

/// What binding a source port requires of the caller.
pub enum PortDecision {
    /// The port is already bound to this local port; the datagram can go.
    Bound(u16),
    /// No binding exists and the table has room: bind a fresh local port,
    /// then record it with [`PortMap::record_binding`].
    NeedsFresh,
    /// The table is full: the returned local port was reclaimed from the
    /// returned previous source port, whose mapping is gone, and is now
    /// bound to the new source port.
    Reused(u16, u16),
}

/// The bounded mapping between client source ports and locally bound ports.
pub struct PortMap {
    /// `by_src[src_port]` is the bound local port, or 0 when unbound.
    by_src: Vec<u16>,
    lru: lru::LruCache<u16, u16, std::collections::hash_map::RandomState>,
}

impl PortMap {
    /// The direct table covers every port; the recency list stays within
    /// its capacity with each local port at most once.
    pub closed spec fn wf(self) -> bool {
        &&& self.by_src@.len() == 0x10000
        &&& lru_capacity(self.lru) == PORT_COUNT
        &&& lru_entries(self.lru).len() <= PORT_COUNT
        &&& lru_keys_distinct(lru_entries(self.lru))
        &&& forall|i: int| 0 <= i < lru_entries(self.lru).len() ==> (#[trigger] lru_entries(
            self.lru,
        )[i]).0 != 0
    }

    /// The bound local port of each source port (0 when unbound).
    pub closed spec fn bindings(self) -> Seq<u16> {
        self.by_src@
    }

    /// The recency list: (local port, source port), most recent first.
    pub closed spec fn recency(self) -> Seq<(u16, u16)> {
        lru_entries(self.lru)
    }

    /// An empty table.
    pub fn new() -> (t: PortMap)
        ensures
            t.wf(),
            t.recency() == Seq::<(u16, u16)>::empty(),
            forall|p: int| 0 <= p < 0x10000 ==> t.bindings()[p] == 0,
    {
        let mut by_src: Vec<u16> = Vec::new();
        let mut i: usize = 0;
        while i < 0x10000
            invariant
                by_src@.len() == i,
                i <= 0x10000,
                forall|p: int| 0 <= p < i ==> by_src@[p] == 0,
            decreases 0x10000 - i,
        {
            by_src.push(0);
            i = i + 1;
        }
        PortMap { by_src, lru: lru_new(PORT_COUNT) }
    }

    /// The local port bound for `src_port`, or 0.
    pub fn lookup(&self, src_port: u16) -> (r: u16)
        requires
            self.wf(),
        ensures
            r == self.bindings()[src_port as int],
    {
        self.by_src[src_port as usize]
    }

    /// Decides how a datagram from `src_port` reaches a local port: an
    /// existing binding is touched and reused; with room left the caller
    /// binds a fresh port; at capacity the least recently used binding is
    /// evicted and its local port reassigned to `src_port`.
    pub fn get_or_bind(&mut self, src_port: u16) -> (r: PortDecision)
        requires
            old(self).wf(),
        ensures
            final(self).wf(),
            match r {
                PortDecision::Bound(local) => {
                    &&& local == old(self).bindings()[src_port as int]
                    &&& local != 0
                    &&& final(self).bindings() == old(self).bindings()
                    &&& (lru_has_key(old(self).recency(), local) ==> exists|i: int|
                        0 <= i < old(self).recency().len() && (#[trigger] old(
                            self,
                        ).recency()[i]).0 == local && final(self).recency() == seq![
                            old(self).recency()[i],
                        ] + old(self).recency().remove(i))
                    &&& (!lru_has_key(old(self).recency(), local) ==> final(self).recency() == old(
                        self,
                    ).recency())
                },
                PortDecision::NeedsFresh => {
                    &&& old(self).bindings()[src_port as int] == 0
                    &&& old(self).recency().len() < PORT_COUNT
                    &&& final(self).bindings() == old(self).bindings()
                    &&& final(self).recency() == old(self).recency()
                },
                PortDecision::Reused(local, prev_src) => {
                    &&& old(self).bindings()[src_port as int] == 0
                    &&& local != 0
                    &&& old(self).recency().len() == PORT_COUNT
                    &&& (local, prev_src) == old(self).recency().last()
                    &&& final(self).bindings()[src_port as int] == local
                    &&& (prev_src != src_port ==> final(self).bindings()[prev_src as int] == 0)
                    &&& final(self).recency() == seq![(local, src_port)] + old(
                        self,
                    ).recency().drop_last()
                    &&& forall|p: int|
                        0 <= p < 0x10000 && p != src_port && p != prev_src
                            ==> final(self).bindings()[p] == old(self).bindings()[p]
                },
            },
    {
        let local = self.by_src[src_port as usize];
        if local != 0 {
            lru_promote(&mut self.lru, local);
            return PortDecision::Bound(local);
        }
        let len = lru_len(&self.lru);
        let cap = lru_cap(&self.lru);
        if len < cap {
            return PortDecision::NeedsFresh;
        }
        let popped = lru_pop_lru(&mut self.lru);
        let (local, prev_src) = match popped {
            Some(e) => e,
            None => {
                return PortDecision::NeedsFresh;
            },
        };
        if prev_src != src_port {
            self.by_src.set(prev_src as usize, 0);
        }
        self.by_src.set(src_port as usize, local);
        proof {
            assert(!lru_has_key(lru_entries(self.lru), local)) by {
                assert forall|i: int|
                    0 <= i < lru_entries(self.lru).len() implies (#[trigger] lru_entries(
                    self.lru,
                )[i]).0 != local by {
                    assert(lru_entries(self.lru)[i] == old(self).recency()[i]);
                    assert(old(self).recency().last() == old(self).recency()[old(
                        self,
                    ).recency().len() - 1]);
                }
            }
        }
        proof {
            lemma_distinct_cons(lru_entries(self.lru), local, src_port);
        }
        lru_put_fresh(&mut self.lru, local, src_port);
        PortDecision::Reused(local, prev_src)
    }

    /// Records a fresh binding after the caller bound `local_port` for
    /// `src_port`.
    pub fn record_binding(&mut self, src_port: u16, local_port: u16)
        requires
            old(self).wf(),
            local_port != 0,
            old(self).recency().len() < PORT_COUNT,
            !lru_has_key(old(self).recency(), local_port),
        ensures
            final(self).wf(),
            final(self).bindings() == old(self).bindings().update(src_port as int, local_port),
            final(self).recency() == seq![(local_port, src_port)] + old(self).recency(),
    {
        self.by_src.set(src_port as usize, local_port);
        proof {
            lemma_distinct_cons(lru_entries(self.lru), local_port, src_port);
        }
        lru_put_fresh(&mut self.lru, local_port, src_port);
    }

    /// Whether `local_port` is already bound in the recency list.
    pub fn has_local(&self, local_port: u16) -> (r: bool)
        requires
            self.wf(),
        ensures
            r == lru_has_key(self.recency(), local_port),
            r == lru_has_key(self.recency(), local_port) && self.recency().len() <= PORT_COUNT,
    {
        lru_contains(&self.lru, local_port)
    }

    /// How many bindings the table holds.
    pub fn len(&self) -> (n: usize)
        requires
            self.wf(),
        ensures
            n == self.recency().len(),
    {
        lru_len(&self.lru)
    }
}

} // verus!
