//! Wrap-safe arithmetic on 32-bit TCP sequence numbers.
//!
//! Sequence numbers live in the ring of integers modulo 2^32. Two numbers are
//! treated as ordered only when their unsigned difference is at most
//! [`MAX_U32_WINDOW_SIZE`]; a larger difference is read as a wrap in the
//! opposite direction.

use vstd::prelude::*;

verus! {

/// Largest unsigned distance between two sequence numbers that is still read
/// as a forward step (the plausibility window): 16 MiB.
pub const MAX_U32_WINDOW_SIZE: usize = 16 * 1024 * 1024;

/// The modulus of the sequence-number ring.
pub open spec fn seq_mod() -> int {
    0x1_0000_0000
}

/// Mathematical sum of `a` and `b` in the sequence ring.
pub open spec fn spec_seq_add(a: u32, b: u32) -> u32 {
    ((a + b) % seq_mod()) as u32
}

/// Mathematical difference `a - b` in the sequence ring: the unique `d` with
/// `b + d == a` modulo 2^32.
pub open spec fn spec_seq_sub(a: u32, b: u32) -> u32 {
    ((a - b + seq_mod()) % seq_mod()) as u32
}

/// Adds `b` to the sequence number `a`, wrapping modulo 2^32.
pub fn seq_add(a: u32, b: u32) -> (r: u32)
    ensures
        r == spec_seq_add(a, b),
{
    let r = if a <= u32::MAX - b {
        a + b
    } else {
        b - 1 - (u32::MAX - a)
    };
    proof {
        assert(r == spec_seq_add(a, b)) by {
            assert(0 <= a + b < 2 * seq_mod());
            if a + b < seq_mod() {
                assert((a + b) % seq_mod() == a + b);
            } else {
                assert((a + b) % seq_mod() == a + b - seq_mod());
            }
        }
    }
    r
}

/// Subtracts `b` from the sequence number `a`, wrapping modulo 2^32: the
/// distance travelled forward from `b` to reach `a`.
pub fn seq_sub(a: u32, b: u32) -> (r: u32)
    ensures
        r == spec_seq_sub(a, b),
{
    let r = if a >= b {
        a - b
    } else {
        a + 1 + (u32::MAX - b)
    };
    proof {
        assert(r == spec_seq_sub(a, b)) by {
            assert(0 <= a - b + seq_mod() < 2 * seq_mod());
            if a >= b {
                assert((a - b + seq_mod()) % seq_mod() == a - b);
            } else {
                assert((a - b + seq_mod()) % seq_mod() == a - b + seq_mod());
            }
        }
    }
    r
}

/// Subtraction undoes addition in the sequence ring.
pub proof fn lemma_seq_sub_add(a: u32, b: u32)
    ensures
        spec_seq_sub(spec_seq_add(a, b), a) == b,
        spec_seq_add(spec_seq_sub(a, b), b) == a,
{
    assert(spec_seq_sub(spec_seq_add(a, b), a) == b) by {
        if a + b < seq_mod() {
            assert((a + b) % seq_mod() == a + b);
        } else {
            assert((a + b) % seq_mod() == a + b - seq_mod());
        }
    }
    assert(spec_seq_add(spec_seq_sub(a, b), b) == a) by {
        if a >= b {
            assert((a - b + seq_mod()) % seq_mod() == a - b);
        } else {
            assert((a - b + seq_mod()) % seq_mod() == a - b + seq_mod());
        }
    }
}

/// Two additions in a row add up: stepping by `b` and then by `c` lands
/// where one step of `b + c` does.
pub proof fn lemma_seq_add_chain(a: u32, b: u32, c: u32)
    requires
        b + c <= u32::MAX,
    ensures
        spec_seq_add(spec_seq_add(a, b), c) == spec_seq_add(a, (b + c) as u32),
{
    let md = seq_mod();
    assert(0 <= a + b < 2 * md);
    if a + b < md {
        assert((a + b) % md == a + b);
    } else {
        assert((a + b) % md == a + b - md);
    }
    let ab = spec_seq_add(a, b) as int;
    assert(0 <= ab + c < 2 * md);
    if ab + c < md {
        assert((ab + c) % md == ab + c);
    } else {
        assert((ab + c) % md == ab + c - md);
    }
    assert(0 <= a + b + c < 3 * md);
    if a + b + c < md {
        assert((a + b + c) % md == a + b + c);
    } else if a + b + c < 2 * md {
        assert((a + b + c) % md == a + b + c - md);
    } else {
        assert((a + b + c) % md == a + b + c - 2 * md);
    }
}

/// Adding a multiple of the modulus does not change a remainder.
pub proof fn lemma_mod_shift(x: int, q: int, m: int)
    requires
        m > 0,
    ensures
        (x + q * m) % m == x % m,
{
    vstd::arithmetic::div_mod::lemma_mod_multiples_vanish(q, x, m);
}

/// A sequence number `x` lies in the half-open window `[a, b)` when the
/// forward distance from `a` to `x` is smaller than the forward distance from
/// `a` to `b`.
pub open spec fn seq_in_range(x: u32, a: u32, b: u32) -> bool {
    spec_seq_sub(x, a) < spec_seq_sub(b, a)
}

/// Closed form of the ring difference: `x - p`, shifted by the modulus when
/// `x` is below `p`.
pub proof fn lemma_sub_val(x: u32, p: u32)
    ensures
        spec_seq_sub(x, p) == if x >= p {
            x - p
        } else {
            x - p + seq_mod()
        },
{
    assert(0 <= x - p + seq_mod() < 2 * seq_mod());
    if x >= p {
        assert((x - p + seq_mod()) % seq_mod() == x - p);
    } else {
        assert((x - p + seq_mod()) % seq_mod() == x - p + seq_mod());
    }
}

/// Differences relative to a common base compose: the distance from `v` to
/// `u` is the difference of their offsets from any base `p`, wrapped.
pub proof fn lemma_offset_diff(p: u32, u: u32, v: u32)
    ensures
        spec_seq_sub(u, v) == if spec_seq_sub(u, p) >= spec_seq_sub(v, p) {
            spec_seq_sub(u, p) - spec_seq_sub(v, p)
        } else {
            spec_seq_sub(u, p) - spec_seq_sub(v, p) + seq_mod()
        },
{
    lemma_sub_val(u, p);
    lemma_sub_val(v, p);
    lemma_sub_val(u, v);
}

/// Offsets relative to a common base add: walking from `p` to `q` and then
/// from `q` to `r` covers the distance from `p` to `r`, wrapped.
pub proof fn lemma_offset_add(p: u32, q: u32, r: u32)
    ensures
        spec_seq_sub(r, p) == if spec_seq_sub(r, q) + spec_seq_sub(q, p) < seq_mod() {
            spec_seq_sub(r, q) + spec_seq_sub(q, p)
        } else {
            spec_seq_sub(r, q) + spec_seq_sub(q, p) - seq_mod()
        },
{
    lemma_sub_val(r, q);
    lemma_sub_val(q, p);
    lemma_sub_val(r, p);
}

/// The half-open range `r` of sequence numbers contains `x`.
pub open spec fn range_covers(r: (u32, u32), x: u32) -> bool {
    seq_in_range(x, r.0, r.1)
}

/// Some range of `rs` contains `x`.
pub open spec fn ranges_cover(rs: Seq<(u32, u32)>, x: u32) -> bool {
    exists|i: int| 0 <= i < rs.len() && range_covers(rs[i], x)
}

/// The ranges that remain of `main` once `sub` is taken out, as the
/// plausibility-window heuristic reads the two ranges' relative position.
pub open spec fn spec_disjoint_u32_range(main: (u32, u32), sub: (u32, u32)) -> Seq<(u32, u32)> {
    let size_main = spec_seq_sub(main.1, main.0) as usize;
    let diff_first = spec_seq_sub(sub.0, main.0) as usize;
    let diff_second = spec_seq_sub(sub.1, main.1) as usize;
    if diff_first <= MAX_U32_WINDOW_SIZE {
        if diff_second > MAX_U32_WINDOW_SIZE {
            // sub is inside main
            seq![(main.0, sub.0), (sub.1, main.1)]
        } else if diff_first >= size_main {
            // sub is to the right of main
            seq![(main.0, main.1)]
        } else {
            // sub overlaps the right part of main
            seq![(main.0, sub.0)]
        }
    } else {
        if diff_second > MAX_U32_WINDOW_SIZE {
            if spec_seq_sub(sub.1, main.0) as usize > MAX_U32_WINDOW_SIZE {
                // sub is to the left of main
                seq![(main.0, main.1)]
            } else {
                // sub overlaps the left part of main
                seq![(sub.1, main.1)]
            }
        } else {
            // sub covers main
            Seq::empty()
        }
    }
}

/// Splits `main` into the half-open ranges not covered by `sub`, reading both
/// ranges in the 32-bit sequence ring with the plausibility-window heuristic.
pub fn disjoint_u32_range(main: (u32, u32), sub: (u32, u32)) -> (r: Vec<(u32, u32)>)
    ensures
        r@ == spec_disjoint_u32_range(main, sub),
{
    let size_main = seq_sub(main.1, main.0) as usize;
    let diff_first = seq_sub(sub.0, main.0) as usize;
    let diff_second = seq_sub(sub.1, main.1) as usize;
    let mut vector: Vec<(u32, u32)> = Vec::with_capacity(2);

    if diff_first <= MAX_U32_WINDOW_SIZE {
        if diff_second > MAX_U32_WINDOW_SIZE {
            // sub is inside main
            vector.push((main.0, sub.0));
            vector.push((sub.1, main.1));
        } else {
            if diff_first >= size_main {
                // sub is to the right of main
                vector.push((main.0, main.1));
            } else {
                // sub overlaps the right part of main
                vector.push((main.0, sub.0));
            }
        }
    } else {
        if diff_second > MAX_U32_WINDOW_SIZE {
            let diff = seq_sub(sub.1, main.0) as usize;
            if diff > MAX_U32_WINDOW_SIZE {
                // sub is to the left of main
                vector.push((main.0, main.1));
            } else {
                // sub overlaps the left part of main
                vector.push((sub.1, main.1));
            }
        } else {
            // sub covers main
        }
    }

    proof {
        assert(vector@ =~= spec_disjoint_u32_range(main, sub));
    }
    vector
}

/// `sub` is a plausible range to take out of `main`: `main` spans at most the
/// plausibility window, `sub` is at most that long, and each edge of `sub`
/// sits at most one window ahead of `main`'s left edge or at most two windows
/// behind it.
pub open spec fn plausible_sub(main: (u32, u32), sub: (u32, u32)) -> bool {
    &&& spec_seq_sub(main.1, main.0) <= MAX_U32_WINDOW_SIZE
    &&& spec_seq_sub(sub.1, sub.0) <= MAX_U32_WINDOW_SIZE
    &&& (spec_seq_sub(sub.0, main.0) <= MAX_U32_WINDOW_SIZE || spec_seq_sub(sub.0, main.0)
        >= seq_mod() - 2 * MAX_U32_WINDOW_SIZE)
    &&& (spec_seq_sub(sub.1, main.0) <= MAX_U32_WINDOW_SIZE || spec_seq_sub(sub.1, main.0)
        >= seq_mod() - 2 * MAX_U32_WINDOW_SIZE)
}

/// Pointwise exactness of the range subtraction on plausible inputs: one
/// sequence number at a time.
proof fn lemma_disjoint_u32_range_covers(main: (u32, u32), sub: (u32, u32), x: u32)
    requires
        plausible_sub(main, sub),
    ensures
        ranges_cover(spec_disjoint_u32_range(main, sub), x) <==> (range_covers(main, x)
            && !range_covers(sub, x)),
{
    let m0 = main.0;
    let m1 = main.1;
    let s0 = sub.0;
    let s1 = sub.1;
    let md = seq_mod();
    let w = MAX_U32_WINDOW_SIZE as int;
    let mm = spec_seq_sub(m1, m0) as int;
    let a = spec_seq_sub(s0, m0) as int;
    let b = spec_seq_sub(s1, m0) as int;
    let ll = spec_seq_sub(s1, s0) as int;
    let o = spec_seq_sub(x, m0) as int;
    let ds2 = spec_seq_sub(s1, m1) as int;
    let dxs0 = spec_seq_sub(x, s0) as int;
    let dxs1 = spec_seq_sub(x, s1) as int;
    let dm1s1 = spec_seq_sub(m1, s1) as int;
    lemma_offset_add(m0, s0, s1);
    lemma_offset_diff(m0, s1, m1);
    lemma_offset_diff(m0, x, s0);
    lemma_offset_diff(m0, x, s1);
    lemma_offset_diff(m0, m1, s1);
    lemma_sub_val(m0, m0);
    let out = spec_disjoint_u32_range(main, sub);
    assert(range_covers(main, x) == (o < mm));
    assert(range_covers(sub, x) == (dxs0 < ll));
    if a <= w {
        assert(b == a + ll);
        assert(b <= w);
        if ds2 > w {
            // sub sits inside main: b < mm and the two flanks remain
            assert(b < mm);
            assert(out =~= seq![(m0, s0), (s1, m1)]);
            assert(range_covers(out[0], x) == (o < a));
            assert(range_covers(out[1], x) == (dxs1 < dm1s1));
            assert(dm1s1 == mm - b);
            assert(ranges_cover(out, x) <==> (o < a || dxs1 < dm1s1)) by {
                if o < a {
                    assert(range_covers(out[0], x));
                }
                if dxs1 < dm1s1 {
                    assert(range_covers(out[1], x));
                }
            }
            assert((o < a || dxs1 < dm1s1) <==> (o < mm && !(dxs0 < ll)));
        } else if a >= mm {
            // sub lies at or beyond main's right edge: main survives whole
            assert(out =~= seq![(m0, m1)]);
            assert(range_covers(out[0], x) == (o < mm));
            assert(ranges_cover(out, x) <==> o < mm) by {
                if o < mm {
                    assert(range_covers(out[0], x));
                }
            }
            assert(o < mm ==> !(dxs0 < ll));
        } else {
            // sub swallows main's right part: the left flank remains
            assert(b >= mm);
            assert(out =~= seq![(m0, s0)]);
            assert(range_covers(out[0], x) == (o < a));
            assert(ranges_cover(out, x) <==> o < a) by {
                if o < a {
                    assert(range_covers(out[0], x));
                }
            }
            assert((o < a) <==> (o < mm && !(dxs0 < ll)));
        }
    } else {
        assert(a >= md - 2 * w);
        if ds2 > w {
            if b > w {
                // sub lies wholly behind main: main survives whole
                assert(b >= md - 2 * w);
                assert(b == a + ll);
                assert(out =~= seq![(m0, m1)]);
                assert(range_covers(out[0], x) == (o < mm));
                assert(ranges_cover(out, x) <==> o < mm) by {
                    if o < mm {
                        assert(range_covers(out[0], x));
                    }
                }
                assert(o < mm ==> !(dxs0 < ll));
            } else {
                // sub wraps across main's left edge: the right tail remains
                assert(b < mm);
                assert(b == a + ll - md);
                assert(ll == b + md - a);
                assert(out =~= seq![(s1, m1)]);
                assert(range_covers(out[0], x) == (dxs1 < dm1s1));
                assert(dm1s1 == mm - b);
                assert(ranges_cover(out, x) <==> dxs1 < dm1s1) by {
                    if dxs1 < dm1s1 {
                        assert(range_covers(out[0], x));
                    }
                }
                assert((dxs1 < dm1s1) <==> (b <= o < mm));
                assert((b <= o < mm) <==> (o < mm && !(dxs0 < ll)));
            }
        } else {
            // sub covers all of main: nothing remains
            assert(b <= w) by {
                if b >= md - 2 * w {
                    assert(ds2 == b - mm);
                }
            }
            assert(b >= mm);
            assert(b == a + ll - md);
            assert(ll == b + md - a);
            assert(out =~= Seq::<(u32, u32)>::empty());
            assert(!ranges_cover(out, x));
            assert(o < mm ==> dxs0 < ll);
        }
    }
}

/// On plausible inputs every output range of the subtraction lies inside
/// `main`'s extent, left edge before right edge.
proof fn lemma_disjoint_u32_range_extent(main: (u32, u32), sub: (u32, u32))
    requires
        plausible_sub(main, sub),
    ensures
        forall|i: int|
            0 <= i < spec_disjoint_u32_range(main, sub).len() ==> {
                let r = #[trigger] spec_disjoint_u32_range(main, sub)[i];
                spec_seq_sub(r.0, main.0) <= spec_seq_sub(r.1, main.0) <= spec_seq_sub(
                    main.1,
                    main.0,
                )
            },
{
    let m0 = main.0;
    let m1 = main.1;
    let s0 = sub.0;
    let s1 = sub.1;
    let md = seq_mod();
    let w = MAX_U32_WINDOW_SIZE as int;
    let mm = spec_seq_sub(m1, m0) as int;
    let a = spec_seq_sub(s0, m0) as int;
    let b = spec_seq_sub(s1, m0) as int;
    let ll = spec_seq_sub(s1, s0) as int;
    let ds2 = spec_seq_sub(s1, m1) as int;
    lemma_offset_add(m0, s0, s1);
    lemma_offset_diff(m0, s1, m1);
    lemma_sub_val(m0, m0);
    if a <= w {
        assert(b == a + ll);
        assert(b <= w);
        if ds2 > w {
            assert(b < mm);
        } else if a >= mm {
        } else {
            assert(b >= mm);
        }
    } else {
        assert(a >= md - 2 * w);
        if ds2 > w {
            if b > w {
            } else {
                assert(b < mm);
            }
        } else {
        }
    }
}

/// On plausible inputs, the range subtraction is exact: the output ranges
/// cover a sequence number if and only if `main` covers it and `sub` does
/// not, and every output range stays inside `main`'s extent.
pub proof fn lemma_disjoint_u32_range_exact(main: (u32, u32), sub: (u32, u32))
    requires
        plausible_sub(main, sub),
    ensures
        forall|x: u32|
            ranges_cover(spec_disjoint_u32_range(main, sub), x) <==> (range_covers(main, x)
                && !range_covers(sub, x)),
        forall|i: int|
            0 <= i < spec_disjoint_u32_range(main, sub).len() ==> {
                let r = #[trigger] spec_disjoint_u32_range(main, sub)[i];
                spec_seq_sub(r.0, main.0) <= spec_seq_sub(r.1, main.0) <= spec_seq_sub(
                    main.1,
                    main.0,
                )
            },
{
    let out = spec_disjoint_u32_range(main, sub);
    assert forall|x: u32| ranges_cover(out, x) <==> (range_covers(main, x) && !range_covers(
        sub,
        x,
    )) by {
        lemma_disjoint_u32_range_covers(main, sub, x);
    }
    lemma_disjoint_u32_range_extent(main, sub);
}

/// `s` lies inside `main`'s extent: both edges of `s`, read as forward
/// offsets from `main`'s left edge, stay in order and within `main`.
pub open spec fn sub_within_extent(main: (u32, u32), s: (u32, u32)) -> bool {
    spec_seq_sub(s.0, main.0) <= spec_seq_sub(s.1, main.0) <= spec_seq_sub(main.1, main.0)
}

/// Takes `sub` out of every range of `rs`, concatenating the leftovers.
pub open spec fn spec_apply_sub(rs: Seq<(u32, u32)>, sub: (u32, u32)) -> Seq<(u32, u32)>
    decreases rs.len(),
{
    if rs.len() == 0 {
        Seq::empty()
    } else {
        spec_disjoint_u32_range(rs[0], sub) + spec_apply_sub(rs.drop_first(), sub)
    }
}

/// Takes every range of `subs` out of every range of `rs`, in order.
pub open spec fn spec_subtract_ranges(rs: Seq<(u32, u32)>, subs: Seq<(u32, u32)>) -> Seq<
    (u32, u32),
>
    decreases subs.len(),
{
    if subs.len() == 0 {
        rs
    } else {
        spec_subtract_ranges(spec_apply_sub(rs, subs[0]), subs.drop_first())
    }
}

proof fn lemma_apply_sub_push(rs: Seq<(u32, u32)>, r: (u32, u32), sub: (u32, u32))
    ensures
        spec_apply_sub(rs.push(r), sub) == spec_apply_sub(rs, sub) + spec_disjoint_u32_range(
            r,
            sub,
        ),
    decreases rs.len(),
{
    if rs.len() == 0 {
        assert(rs.push(r).drop_first() =~= Seq::<(u32, u32)>::empty());
        assert(rs.push(r)[0] == r);
        assert(spec_apply_sub(rs.push(r).drop_first(), sub) == Seq::<(u32, u32)>::empty());
        assert(spec_apply_sub(rs.push(r), sub) =~= spec_apply_sub(rs, sub)
            + spec_disjoint_u32_range(r, sub));
    } else {
        assert(rs.push(r).drop_first() =~= rs.drop_first().push(r));
        assert(rs.push(r)[0] == rs[0]);
        lemma_apply_sub_push(rs.drop_first(), r, sub);
        assert(spec_apply_sub(rs.push(r), sub) =~= spec_apply_sub(rs, sub)
            + spec_disjoint_u32_range(r, sub));
    }
}

proof fn lemma_subtract_ranges_push(rs: Seq<(u32, u32)>, subs: Seq<(u32, u32)>, s: (u32, u32))
    ensures
        spec_subtract_ranges(rs, subs.push(s)) == spec_apply_sub(
            spec_subtract_ranges(rs, subs),
            s,
        ),
    decreases subs.len(),
{
    if subs.len() == 0 {
        assert(subs.push(s).drop_first() =~= Seq::<(u32, u32)>::empty());
        assert(subs.push(s)[0] == s);
        assert(spec_subtract_ranges(rs, subs.push(s)) == spec_subtract_ranges(
            spec_apply_sub(rs, s),
            Seq::<(u32, u32)>::empty(),
        ));
        assert(spec_subtract_ranges(spec_apply_sub(rs, s), Seq::<(u32, u32)>::empty())
            == spec_apply_sub(rs, s));
        assert(spec_subtract_ranges(rs, subs) == rs);
    } else {
        assert(subs.push(s).drop_first() =~= subs.drop_first().push(s));
        assert(subs.push(s)[0] == subs[0]);
        lemma_subtract_ranges_push(spec_apply_sub(rs, subs[0]), subs.drop_first(), s);
        assert(spec_subtract_ranges(rs, subs.push(s)) == spec_subtract_ranges(
            spec_apply_sub(rs, subs[0]),
            subs.drop_first().push(s),
        ));
        assert(spec_subtract_ranges(rs, subs) == spec_subtract_ranges(
            spec_apply_sub(rs, subs[0]),
            subs.drop_first(),
        ));
    }
}

/// Splits `main` into the ranges not covered by any range of `subs`: the
/// selective-retransmission planner. Each range of `subs` is taken out of
/// each range found so far, in order.
pub fn subtract_ranges(main: (u32, u32), subs: &Vec<(u32, u32)>) -> (r: Vec<(u32, u32)>)
    ensures
        r@ == spec_subtract_ranges(seq![main], subs@),
{
    let mut ranges: Vec<(u32, u32)> = Vec::new();
    ranges.push(main);
    assert(ranges@ =~= seq![main]);
    assert(subs@.take(0) =~= Seq::<(u32, u32)>::empty());
    let n = subs.len();
    for i in 0..n
        invariant
            n == subs.len(),
            ranges@ == spec_subtract_ranges(seq![main], subs@.take(i as int)),
    {
        let sub = subs[i];
        let mut temp: Vec<(u32, u32)> = Vec::new();
        assert(ranges@.take(0) =~= Seq::<(u32, u32)>::empty());
        let m = ranges.len();
        for j in 0..m
            invariant
                m == ranges.len(),
                sub == subs@[i as int],
                temp@ == spec_apply_sub(ranges@.take(j as int), sub),
        {
            let mut parts = disjoint_u32_range(ranges[j], sub);
            proof {
                lemma_apply_sub_push(ranges@.take(j as int), ranges@[j as int], sub);
                assert(ranges@.take(j + 1 as int) =~= ranges@.take(j as int).push(
                    ranges@[j as int],
                ));
            }
            temp.append(&mut parts);
        }
        proof {
            assert(ranges@.take(m as int) =~= ranges@);
            lemma_subtract_ranges_push(seq![main], subs@.take(i as int), sub);
            assert(subs@.take(i + 1 as int) =~= subs@.take(i as int).push(sub));
        }
        ranges = temp;
    }
    proof {
        assert(subs@.take(n as int) =~= subs@);
    }
    ranges
}

proof fn lemma_plausible_of_extents(main: (u32, u32), r: (u32, u32), s: (u32, u32))
    requires
        spec_seq_sub(main.1, main.0) <= MAX_U32_WINDOW_SIZE,
        sub_within_extent(main, r),
        sub_within_extent(main, s),
    ensures
        plausible_sub(r, s),
{
    lemma_offset_diff(main.0, r.1, r.0);
    lemma_offset_diff(main.0, s.1, s.0);
    lemma_offset_diff(main.0, s.0, r.0);
    lemma_offset_diff(main.0, s.1, r.0);
}

proof fn lemma_extent_translate(main: (u32, u32), r: (u32, u32), q: (u32, u32))
    requires
        spec_seq_sub(main.1, main.0) <= MAX_U32_WINDOW_SIZE,
        sub_within_extent(main, r),
        spec_seq_sub(q.0, r.0) <= spec_seq_sub(q.1, r.0) <= spec_seq_sub(r.1, r.0),
    ensures
        sub_within_extent(main, q),
{
    lemma_offset_diff(main.0, r.1, r.0);
    lemma_offset_add(main.0, r.0, q.0);
    lemma_offset_add(main.0, r.0, q.1);
}

#[verifier::rlimit(100)]
proof fn lemma_apply_sub_extent(main: (u32, u32), rs: Seq<(u32, u32)>, s: (u32, u32))
    requires
        spec_seq_sub(main.1, main.0) <= MAX_U32_WINDOW_SIZE,
        forall|i: int| 0 <= i < rs.len() ==> sub_within_extent(main, #[trigger] rs[i]),
        sub_within_extent(main, s),
    ensures
        forall|i: int|
            0 <= i < spec_apply_sub(rs, s).len() ==> sub_within_extent(
                main,
                #[trigger] spec_apply_sub(rs, s)[i],
            ),
    decreases rs.len(),
{
    let out = spec_apply_sub(rs, s);
    if rs.len() == 0 {
    } else {
        let head = rs[0];
        let tail = rs.drop_first();
        let head_out = spec_disjoint_u32_range(head, s);
        let tail_out = spec_apply_sub(tail, s);
        lemma_plausible_of_extents(main, head, s);
        lemma_disjoint_u32_range_exact(head, s);
        assert forall|i: int| 0 <= i < tail.len() implies sub_within_extent(
            main,
            #[trigger] tail[i],
        ) by {
            assert(tail[i] == rs[i + 1]);
        }
        lemma_apply_sub_extent(main, tail, s);
        assert forall|i: int| 0 <= i < out.len() implies sub_within_extent(
            main,
            #[trigger] out[i],
        ) by {
            if i < head_out.len() {
                assert(out[i] == head_out[i]);
                lemma_extent_translate(main, head, head_out[i]);
            } else {
                assert(out[i] == tail_out[i - head_out.len()]);
            }
        }
    }
}

#[verifier::rlimit(100)]
#[verifier::spinoff_prover]
proof fn lemma_apply_sub_exact(main: (u32, u32), rs: Seq<(u32, u32)>, s: (u32, u32))
    requires
        spec_seq_sub(main.1, main.0) <= MAX_U32_WINDOW_SIZE,
        forall|i: int| 0 <= i < rs.len() ==> sub_within_extent(main, #[trigger] rs[i]),
        sub_within_extent(main, s),
    ensures
        forall|x: u32|
            #[trigger] ranges_cover(spec_apply_sub(rs, s), x) <==> (ranges_cover(rs, x)
                && !range_covers(s, x)),
        forall|i: int|
            0 <= i < spec_apply_sub(rs, s).len() ==> sub_within_extent(
                main,
                #[trigger] spec_apply_sub(rs, s)[i],
            ),
    decreases rs.len(),
{
    lemma_apply_sub_extent(main, rs, s);
    let out = spec_apply_sub(rs, s);
    if rs.len() == 0 {
        assert forall|x: u32| #[trigger] ranges_cover(out, x) <==> (ranges_cover(rs, x)
            && !range_covers(s, x)) by {
            assert(!ranges_cover(out, x));
            assert(!ranges_cover(rs, x));
        }
    } else {
        let head = rs[0];
        let tail = rs.drop_first();
        let head_out = spec_disjoint_u32_range(head, s);
        let tail_out = spec_apply_sub(tail, s);
        lemma_plausible_of_extents(main, head, s);
        lemma_disjoint_u32_range_exact(head, s);
        assert forall|i: int| 0 <= i < tail.len() implies sub_within_extent(
            main,
            #[trigger] tail[i],
        ) by {
            assert(tail[i] == rs[i + 1]);
        }
        lemma_apply_sub_exact(main, tail, s);
        assert forall|x: u32| #[trigger] ranges_cover(out, x) <==> (ranges_cover(rs, x)
            && !range_covers(s, x)) by {
            // coverage of a concatenation is coverage of either part
            if ranges_cover(out, x) {
                let i = choose|i: int| 0 <= i < out.len() && range_covers(out[i], x);
                if i < head_out.len() {
                    assert(range_covers(head_out[i], x));
                    assert(ranges_cover(head_out, x));
                    assert(range_covers(head, x) && !range_covers(s, x));
                    assert(range_covers(rs[0], x));
                    assert(ranges_cover(rs, x));
                } else {
                    assert(range_covers(tail_out[i - head_out.len()], x));
                    assert(ranges_cover(tail_out, x));
                    assert(ranges_cover(tail, x) && !range_covers(s, x));
                    let j = choose|j: int| 0 <= j < tail.len() && range_covers(tail[j], x);
                    assert(range_covers(rs[j + 1], x));
                    assert(ranges_cover(rs, x));
                }
            }
            if ranges_cover(rs, x) && !range_covers(s, x) {
                let i = choose|i: int| 0 <= i < rs.len() && range_covers(rs[i], x);
                if i == 0 {
                    assert(ranges_cover(head_out, x));
                    let j = choose|j: int| 0 <= j < head_out.len() && range_covers(head_out[j], x);
                    assert(out[j] == head_out[j]);
                    assert(ranges_cover(out, x));
                } else {
                    assert(range_covers(tail[i - 1], x));
                    assert(ranges_cover(tail, x));
                    assert(ranges_cover(tail_out, x));
                    let j = choose|j: int| 0 <= j < tail_out.len() && range_covers(tail_out[j], x);
                    assert(out[j + head_out.len()] == tail_out[j]);
                    assert(ranges_cover(out, x));
                }
            }
        }
    }
}

#[verifier::rlimit(50)]
proof fn lemma_subtract_ranges_pointwise(main: (u32, u32), rs: Seq<(u32, u32)>, subs: Seq<(u32, u32)>)
    requires
        spec_seq_sub(main.1, main.0) <= MAX_U32_WINDOW_SIZE,
        forall|i: int| 0 <= i < rs.len() ==> sub_within_extent(main, #[trigger] rs[i]),
        forall|k: int| 0 <= k < subs.len() ==> sub_within_extent(main, #[trigger] subs[k]),
    ensures
        forall|x: u32|
            #[trigger] ranges_cover(spec_subtract_ranges(rs, subs), x) <==> (ranges_cover(rs, x)
                && forall|k: int| 0 <= k < subs.len() ==> !range_covers(#[trigger] subs[k], x)),
        forall|i: int|
            0 <= i < spec_subtract_ranges(rs, subs).len() ==> sub_within_extent(
                main,
                #[trigger] spec_subtract_ranges(rs, subs)[i],
            ),
    decreases subs.len(),
{
    if subs.len() == 0 {
    } else {
        let s = subs[0];
        let rs2 = spec_apply_sub(rs, s);
        lemma_apply_sub_exact(main, rs, s);
        let tail = subs.drop_first();
        assert forall|k: int| 0 <= k < tail.len() implies sub_within_extent(
            main,
            #[trigger] tail[k],
        ) by {
            assert(tail[k] == subs[k + 1]);
        }
        lemma_subtract_ranges_pointwise(main, rs2, tail);
        assert(spec_subtract_ranges(rs, subs) == spec_subtract_ranges(rs2, tail));
        assert forall|x: u32| #[trigger] ranges_cover(spec_subtract_ranges(rs, subs), x) <==> (
        ranges_cover(rs, x) && forall|k: int|
            0 <= k < subs.len() ==> !range_covers(#[trigger] subs[k], x)) by {
            if ranges_cover(spec_subtract_ranges(rs, subs), x) {
                assert(ranges_cover(rs2, x));
                assert forall|k: int| 0 <= k < subs.len() implies !range_covers(
                    #[trigger] subs[k],
                    x,
                ) by {
                    if k > 0 {
                        assert(tail[k - 1] == subs[k]);
                    }
                }
            }
            if ranges_cover(rs, x) && (forall|k: int|
                0 <= k < subs.len() ==> !range_covers(#[trigger] subs[k], x)) {
                assert(!range_covers(subs[0], x));
                assert(ranges_cover(rs2, x));
                assert forall|k: int| 0 <= k < tail.len() implies !range_covers(
                    #[trigger] tail[k],
                    x,
                ) by {
                    assert(tail[k] == subs[k + 1]);
                }
            }
        }
    }
}

/// Exactness of selective-retransmission planning: for any `main` range that
/// spans at most the plausibility window and any list of ranges inside its
/// extent, the ranges that `spec_subtract_ranges` keeps cover exactly the
/// sequence numbers of `main` not covered by any of the subtracted ranges,
/// and each kept range stays inside `main`'s extent.
pub proof fn lemma_subtract_ranges_exact(main: (u32, u32), subs: Seq<(u32, u32)>)
    requires
        spec_seq_sub(main.1, main.0) <= MAX_U32_WINDOW_SIZE,
        forall|k: int| 0 <= k < subs.len() ==> sub_within_extent(main, #[trigger] subs[k]),
    ensures
        forall|x: u32|
            #[trigger] ranges_cover(spec_subtract_ranges(seq![main], subs), x) <==> (range_covers(
                main,
                x,
            ) && forall|k: int| 0 <= k < subs.len() ==> !range_covers(#[trigger] subs[k], x)),
        forall|i: int|
            0 <= i < spec_subtract_ranges(seq![main], subs).len() ==> sub_within_extent(
                main,
                #[trigger] spec_subtract_ranges(seq![main], subs)[i],
            ),
{
    let rs = seq![main];
    assert(sub_within_extent(main, main)) by {
        lemma_sub_val(main.0, main.0);
    }
    assert forall|i: int| 0 <= i < rs.len() implies sub_within_extent(main, #[trigger] rs[i]) by {
        assert(rs[i] == main);
    }
    lemma_subtract_ranges_pointwise(main, rs, subs);
    assert forall|x: u32| #[trigger] ranges_cover(spec_subtract_ranges(rs, subs), x) <==> (
    range_covers(main, x) && forall|k: int|
        0 <= k < subs.len() ==> !range_covers(#[trigger] subs[k], x)) by {
        assert(ranges_cover(rs, x) == range_covers(main, x)) by {
            if range_covers(main, x) {
                assert(range_covers(rs[0], x));
            }
        }
    }
}

} // verus!
