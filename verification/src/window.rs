//! The receive-side reassembly window: a sparse byte window of fixed
//! capacity anchored at the sequence number of its left edge.
//!
//! Bytes may arrive out of order and are stored at their offset from the
//! anchor. The next expected sequence number is always the anchor plus the
//! length of the contiguous filled prefix; when a write closes the gap at
//! that position, the newly contiguous bytes are handed out for delivery and
//! the expected sequence number advances past them.

use vstd::prelude::*;

use crate::seq_space::{seq_add, seq_sub, spec_seq_add, spec_seq_sub, MAX_U32_WINDOW_SIZE};
use crate::ProtocolError;

verus! {

/// Length of the contiguous filled prefix of a window's content.
pub open spec fn prefix_len(c: Seq<Option<u8>>) -> nat
    decreases c.len(),
{
    if c.len() == 0 || c[0] is None {
        0
    } else {
        1 + prefix_len(c.drop_first())
    }
}

/// The window has no byte waiting beyond its delivered prefix.
pub open spec fn spec_drained(w: Window) -> bool {
    forall|i: int| w.spec_delivered() <= i < w.spec_capacity() ==> w.content()[i] is None
}

/// `c` overwritten with `pl` starting at offset `off`.
pub open spec fn spec_write(c: Seq<Option<u8>>, off: int, pl: Seq<u8>) -> Seq<Option<u8>> {
    Seq::new(c.len(), |i: int| if off <= i < off + pl.len() {
        Some(pl[i - off])
    } else {
        c[i]
    })
}

/// The receive-side reassembly window of one TCP flow.
pub struct Window {
    capacity: usize,
    base: u32,
    delivered: usize,
    filled: Vec<bool>,
    data: Vec<u8>,
}

impl Window {
    /// The window is consistent: storage matches the capacity, the capacity
    /// keeps modular positions unambiguous, everything before the delivery
    /// point is filled, and the slot at the delivery point is not.
    pub closed spec fn wf(self) -> bool {
        &&& self.filled@.len() == self.capacity
        &&& self.data@.len() == self.capacity
        &&& self.capacity <= MAX_U32_WINDOW_SIZE
        &&& self.delivered <= self.capacity
        &&& forall|i: int| 0 <= i < self.delivered ==> self.filled@[i]
        &&& self.delivered < self.capacity ==> !self.filled@[self.delivered as int]
    }

    /// The window's content: one slot per byte of capacity, counted from the
    /// anchor, holding the byte where one has arrived.
    pub closed spec fn content(self) -> Seq<Option<u8>> {
        Seq::new(self.capacity as nat, |i: int| if self.filled@[i] {
            Some(self.data@[i])
        } else {
            None
        })
    }

    /// The anchoring sequence number of the window's left edge.
    pub closed spec fn spec_base(self) -> u32 {
        self.base
    }

    /// How many bytes of the contiguous prefix have been handed out.
    pub closed spec fn spec_delivered(self) -> int {
        self.delivered as int
    }

    /// The capacity in bytes.
    pub closed spec fn spec_capacity(self) -> usize {
        self.capacity
    }

    /// The next expected sequence number: the anchor plus the delivered
    /// contiguous prefix.
    pub open spec fn spec_recv_next(self) -> u32 {
        spec_seq_add(self.spec_base(), self.spec_delivered() as u32)
    }

    /// Creates an empty window anchored at `recv_next`.
    pub fn with_capacity(capacity: usize, recv_next: u32) -> (w: Window)
        requires
            capacity <= MAX_U32_WINDOW_SIZE,
        ensures
            w.wf(),
            w.spec_base() == recv_next,
            w.spec_delivered() == 0,
            w.spec_capacity() == capacity,
            forall|i: int| 0 <= i < capacity ==> w.content()[i] is None,
    {
        let mut filled: Vec<bool> = Vec::new();
        let mut data: Vec<u8> = Vec::new();
        for i in 0..capacity
            invariant
                filled@.len() == i,
                data@.len() == i,
                forall|j: int| 0 <= j < i ==> !filled@[j],
        {
            filled.push(false);
            data.push(0);
        }
        Window { capacity, base: recv_next, delivered: 0, filled, data }
    }

    /// The next expected sequence number.
    pub fn recv_next(&self) -> (r: u32)
        requires
            self.wf(),
        ensures
            r == self.spec_recv_next(),
    {
        seq_add(self.base, self.delivered as u32)
    }

    /// How many bytes the window can still accept to the right of the next
    /// expected sequence number.
    pub fn remaining_size(&self) -> (r: usize)
        requires
            self.wf(),
        ensures
            r == self.spec_capacity() - self.spec_delivered(),
    {
        self.capacity - self.delivered
    }

    /// Whether no byte beyond the delivered prefix is waiting.
    pub fn is_empty(&self) -> (e: bool)
        requires
            self.wf(),
        ensures
            e == spec_drained(*self),
    {
        let mut i: usize = self.delivered;
        let n = self.capacity;
        while i < n
            invariant
                self.wf(),
                n == self.capacity,
                self.delivered <= i <= n,
                forall|j: int| self.spec_delivered() <= j < i ==> self.content()[j] is None,
            decreases n - i,
        {
            if self.filled[i] {
                assert(self.content()[i as int] is Some);
                return false;
            }
            i = i + 1;
        }
        true
    }

    /// The write position and remaining bytes of a payload at `sequence`,
    /// after the parts before the anchor and before the delivery point are
    /// dropped: out-of-date bytes are ignored rather than rewritten.
    pub open spec fn spec_clip(self, sequence: u32, pl: Seq<u8>) -> (int, Seq<u8>) {
        let d = spec_seq_sub(sequence, self.spec_base()) as int;
        let front = if d > MAX_U32_WINDOW_SIZE {
            let h = spec_seq_sub(self.spec_base(), sequence) as int;
            if h >= pl.len() {
                (0, Seq::<u8>::empty())
            } else {
                (0, pl.skip(h))
            }
        } else {
            (d, pl)
        };
        if front.0 < self.spec_delivered() {
            if self.spec_delivered() - front.0 >= front.1.len() {
                (self.spec_delivered(), Seq::<u8>::empty())
            } else {
                (self.spec_delivered(), front.1.skip(self.spec_delivered() - front.0))
            }
        } else {
            front
        }
    }

    /// Writes `payload` at `sequence`. Bytes before the next expected
    /// sequence number are ignored; a write past the window's capacity fails
    /// without change. When the write closes the gap at the delivery point,
    /// the newly contiguous bytes are returned and the next expected
    /// sequence number advances past them.
    pub fn append(&mut self, sequence: u32, payload: &[u8]) -> (r: Result<
        Option<Vec<u8>>,
        ProtocolError,
    >)
        requires
            old(self).wf(),
        ensures
            final(self).wf(),
            final(self).spec_base() == old(self).spec_base(),
            final(self).spec_capacity() == old(self).spec_capacity(),
            ({
                let off = old(self).spec_clip(sequence, payload@).0;
                let pl = old(self).spec_clip(sequence, payload@).1;
                let w1 = spec_write(old(self).content(), off, pl);
                match r {
                    Ok(delivered) => {
                        &&& off + pl.len() <= old(self).spec_capacity()
                        &&& final(self).content() == w1
                        &&& final(self).spec_delivered() == prefix_len(w1)
                        &&& match delivered {
                            Some(v) => {
                                &&& prefix_len(w1) > old(self).spec_delivered()
                                &&& v@ == Seq::new(
                                    (prefix_len(w1) - old(self).spec_delivered()) as nat,
                                    |i: int| w1[old(self).spec_delivered() + i]->0,
                                )
                            },
                            None => prefix_len(w1) == old(self).spec_delivered(),
                        }
                    },
                    Err(e) => {
                        &&& e == ProtocolError::OutOfCapacity
                        &&& off + pl.len() > old(self).spec_capacity()
                        &&& *final(self) == *old(self)
                    },
                }
            }),
    {
        let ghost clip = old(self).spec_clip(sequence, payload@);
        // clip the payload against the anchor and the delivery point
        let d_raw = seq_sub(sequence, self.base) as usize;
        let mut off: usize;
        let mut skip: usize;
        let have: usize = payload.len();
        if d_raw > MAX_U32_WINDOW_SIZE {
            let h = seq_sub(self.base, sequence) as usize;
            off = 0;
            skip = if h >= have {
                have
            } else {
                h
            };
        } else {
            off = d_raw;
            skip = 0;
        }
        if off < self.delivered {
            let gap = self.delivered - off;
            let rest = have - skip;
            skip = if gap >= rest {
                have
            } else {
                skip + gap
            };
            off = self.delivered;
        }
        proof {
            assert(clip.0 == off as int && clip.1 =~= payload@.skip(skip as int));
        }
        let n = have - skip;
        if n > self.capacity || off > self.capacity - n {
            return Err(ProtocolError::OutOfCapacity);
        }
        // write the clipped bytes at their offsets
        let ghost before = self.content();
        let ghost pl = clip.1;
        proof {
            assert(self.content() =~= spec_write(before, off as int, pl.take(0)));
        }
        for i in 0..n
            invariant
                n == have - skip,
                skip + n == have,
                have == payload@.len(),
                off + n <= self.capacity,
                self.capacity == old(self).spec_capacity(),
                self.base == old(self).spec_base(),
                self.delivered == old(self).delivered,
                self.filled@.len() == self.capacity,
                self.data@.len() == self.capacity,
                self.delivered <= off,
                pl == payload@.skip(skip as int),
                before == old(self).content(),
                self.content() == spec_write(before, off as int, pl.take(i as int)),
            decreases n - i,
        {
            let ghost pre = *self;
            self.filled.set(off + i, true);
            self.data.set(off + i, payload[skip + i]);
            proof {
                assert(self.filled@ == pre.filled@.update(off + i, true));
                assert(self.data@ == pre.data@.update(off + i, payload@[skip + i]));
                assert forall|x: int|
                    0 <= x < self.capacity implies self.content()[x] == spec_write(
                    before,
                    off as int,
                    pl.take(i + 1),
                )[x] by {
                    if x == off + i {
                        assert(self.filled@[x]);
                        assert(self.data@[x] == payload@[skip + i]);
                        assert(pl.take(i + 1)[x - off] == payload@[skip + i]);
                    } else {
                        assert(self.filled@[x] == pre.filled@[x]);
                        assert(self.data@[x] == pre.data@[x]);
                        assert(self.content()[x] == pre.content()[x]);
                        assert(pre.content()[x] == spec_write(
                            before,
                            off as int,
                            pl.take(i as int),
                        )[x]);
                    }
                }
                assert(self.content() =~= spec_write(before, off as int, pl.take(i + 1)));
            }
        }
        proof {
            assert(pl.take(n as int) =~= pl);
            assert(self.content() =~= spec_write(before, off as int, pl));
        }
        let ghost w1 = spec_write(before, off as int, pl);
        // advance the delivery point across the now-contiguous prefix
        let prev = self.delivered;
        proof {
            assert forall|i: int| 0 <= i < prev implies self.filled@[i] by {
                assert(old(self).filled@[i]);
                assert(before[i] is Some);
                assert(self.content()[i] == spec_write(before, off as int, pl)[i]);
            }
        }
        let mut j: usize = self.delivered;
        while j < self.capacity && self.filled[j]
            invariant
                self.filled@.len() == self.capacity,
                self.data@.len() == self.capacity,
                prev <= j <= self.capacity,
                self.content() == w1,
                forall|i: int| 0 <= i < prev ==> self.filled@[i],
                forall|i: int| prev <= i < j ==> self.filled@[i],
            decreases self.capacity - j,
        {
            j = j + 1;
        }
        proof {
            assert forall|i: int| 0 <= i < j implies w1[i] is Some by {
                assert(self.filled@[i]);
            }
            assert(j < self.capacity ==> w1[j as int] is None);
            lemma_prefix_len_characterize(w1, j as nat);
        }
        if j > prev {
            let mut out: Vec<u8> = Vec::new();
            let mut i: usize = prev;
            while i < j
                invariant
                    prev <= i <= j <= self.capacity,
                    self.data@.len() == self.capacity,
                    self.filled@.len() == self.capacity,
                    self.content() == w1,
                    forall|k: int| 0 <= k < j ==> w1[k] is Some,
                    out@ =~= Seq::new(
                        (i - prev) as nat,
                        |k: int| w1[prev + k]->0,
                    ),
                decreases j - i,
            {
                proof {
                    assert(w1[i as int] is Some);
                    assert(self.filled@[i as int]);
                }
                out.push(self.data[i]);
                proof {
                    assert(w1[i as int]->0 == self.data@[i as int]);
                    assert(out@ =~= Seq::new(
                        (i + 1 - prev) as nat,
                        |k: int| w1[prev + k]->0,
                    ));
                }
                i = i + 1;
            }
            self.delivered = j;
            Ok(Some(out))
        } else {
            self.delivered = j;
            Ok(None)
        }
    }

    /// The filled ranges strictly to the right of the next expected sequence
    /// number, in sequence order, at most four: the ranges announced as
    /// selective acknowledgements. Each returned pair `(b, e)` is a maximal
    /// run of received bytes.
    pub fn filled(&self) -> (r: Vec<(u32, u32)>)
        requires
            self.wf(),
        ensures
            r@.len() <= 4,
            forall|k: int|
                0 <= k < r@.len() ==> {
                    let s = spec_seq_sub(#[trigger] r@[k].0, self.spec_base()) as int;
                    let e = spec_seq_sub(r@[k].1, self.spec_base()) as int;
                    &&& self.spec_delivered() < s < e <= self.spec_capacity()
                    &&& forall|i: int| s <= i < e ==> self.content()[i] is Some
                    &&& self.content()[s - 1] is None
                    &&& (e == self.spec_capacity() || self.content()[e as int] is None)
                },
    {
        let mut out: Vec<(u32, u32)> = Vec::new();
        let mut i: usize = self.delivered;
        let n = self.capacity;
        while i < n && out.len() < 4
            invariant
                self.wf(),
                n == self.capacity,
                self.delivered <= i <= n,
                out@.len() <= 4,
                i == self.delivered || i == n || !self.filled@[i as int] || !self.filled@[i - 1],
                forall|k: int|
                    0 <= k < out@.len() ==> {
                        let s = spec_seq_sub(#[trigger] out@[k].0, self.spec_base()) as int;
                        let e = spec_seq_sub(out@[k].1, self.spec_base()) as int;
                        &&& self.spec_delivered() < s < e <= i
                        &&& forall|j: int| s <= j < e ==> self.content()[j] is Some
                        &&& self.content()[s - 1] is None
                        &&& (e == self.spec_capacity() || self.content()[e] is None)
                    },
            decreases n - i,
        {
            if !self.filled[i] {
                i = i + 1;
                continue;
            }
            // a run starts at i; find its end
            let start = i;
            let mut end = i;
            while end < n && self.filled[end]
                invariant
                    self.wf(),
                    n == self.capacity,
                    start <= end <= n,
                    start < n,
                    self.filled@[start as int],
                    forall|j: int| start <= j < end ==> self.filled@[j],
                decreases n - end,
            {
                end = end + 1;
            }
            out.push((seq_add(self.base, start as u32), seq_add(self.base, end as u32)));
            proof {
                crate::seq_space::lemma_seq_sub_add(self.base, start as u32);
                crate::seq_space::lemma_seq_sub_add(self.base, end as u32);
                assert(self.spec_delivered() < start as int) by {
                    if start == self.delivered {
                        assert(self.delivered < self.capacity);
                        assert(!self.filled@[self.delivered as int]);
                    }
                }
                assert(self.content()[start - 1] is None) by {
                    if start > self.delivered {
                        if start - 1 > self.delivered || start - 1 == self.delivered {
                            assert(!self.filled@[start - 1]);
                        }
                    }
                }
            }
            i = end;
        }
        out
    }
}

/// A content whose first `k` slots are filled and whose `k`-th is not has a
/// contiguous prefix of exactly `k`.
pub proof fn lemma_prefix_len_characterize(c: Seq<Option<u8>>, k: nat)
    requires
        k <= c.len(),
        forall|i: int| 0 <= i < k ==> c[i] is Some,
        k < c.len() ==> c[k as int] is None,
    ensures
        prefix_len(c) == k,
    decreases c.len(),
{
    if c.len() == 0 {
    } else if k == 0 {
    } else {
        assert(c[0] is Some);
        assert forall|i: int| 0 <= i < k - 1 implies c.drop_first()[i] is Some by {
            assert(c.drop_first()[i] == c[i + 1]);
        }
        assert(k - 1 < c.drop_first().len() ==> c.drop_first()[k - 1] is None);
        lemma_prefix_len_characterize(c.drop_first(), (k - 1) as nat);
    }
}

/// What a consistent window guarantees its callers: the delivered prefix
/// stays within the capacity, which stays within the plausibility window,
/// and the content covers the capacity.
pub proof fn lemma_window_bounds(w: Window)
    requires
        w.wf(),
    ensures
        0 <= w.spec_delivered() <= w.spec_capacity(),
        w.spec_capacity() <= MAX_U32_WINDOW_SIZE,
        w.content().len() == w.spec_capacity(),
{
}

/// Everything before a consistent window's delivery point has arrived.
pub proof fn lemma_prefix_filled(w: Window)
    requires
        w.wf(),
    ensures
        forall|i: int| 0 <= i < w.spec_delivered() ==> w.content()[i] is Some,
{
}

/// The contiguous filled prefix never reaches past the content itself.
pub proof fn lemma_prefix_len_le(c: Seq<Option<u8>>)
    ensures
        prefix_len(c) <= c.len(),
    decreases c.len(),
{
    if c.len() == 0 || c[0] is None {
    } else {
        lemma_prefix_len_le(c.drop_first());
    }
}

/// The next expected sequence number equals the window's left edge plus the
/// length of the contiguous filled prefix of its content.
pub proof fn lemma_recv_next_is_prefix(w: Window)
    requires
        w.wf(),
    ensures
        w.spec_recv_next() == spec_seq_add(w.spec_base(), prefix_len(w.content()) as u32),
        spec_seq_sub(w.spec_recv_next(), w.spec_base()) == prefix_len(w.content()),
{
    assert forall|i: int| 0 <= i < w.spec_delivered() implies w.content()[i] is Some by {}
    assert(w.spec_delivered() < w.spec_capacity() ==> w.content()[w.spec_delivered()] is None);
    lemma_prefix_len_characterize(w.content(), w.spec_delivered() as nat);
    crate::seq_space::lemma_seq_sub_add(w.spec_base(), w.spec_delivered() as u32);
}

/// Two to the power `k`.
pub open spec fn spec_pow2(k: int) -> int
    decreases k,
{
    if k <= 0 {
        1
    } else {
        2 * spec_pow2(k - 1)
    }
}

/// The window scale actually applied: scales above eight are clamped.
pub open spec fn spec_clamped_scale(wscale: u8) -> int {
    if wscale <= 8 {
        wscale as int
    } else {
        8
    }
}

/// The reassembly capacity for a negotiated window scale: the largest
/// window the scale can express, within the plausibility window.
pub fn window_capacity(wscale: u8) -> (c: usize)
    ensures
        c == 0xffff * spec_pow2(spec_clamped_scale(wscale)),
        1 <= c <= MAX_U32_WINDOW_SIZE,
{
    let k: u8 = if wscale <= 8 {
        wscale
    } else {
        8
    };
    let unit: usize = if k == 0 {
        1
    } else if k == 1 {
        2
    } else if k == 2 {
        4
    } else if k == 3 {
        8
    } else if k == 4 {
        16
    } else if k == 5 {
        32
    } else if k == 6 {
        64
    } else if k == 7 {
        128
    } else {
        256
    };
    proof {
        reveal_with_fuel(spec_pow2, 10);
    }
    0xffff * unit
}

/// The window field advertising `remaining` bytes under the announced
/// scale: the scaled-down value, saturated at the field's width.
pub open spec fn spec_window_field(remaining: int, wscale: u8) -> u16 {
    let scaled = remaining / spec_pow2(spec_clamped_scale(wscale));
    if scaled > 0xffff {
        0xffff
    } else {
        scaled as u16
    }
}

/// The window field advertising `remaining` bytes under the announced
/// scale: the scaled-down value, saturated at the field's width.
pub fn scaled_window_field(remaining: usize, wscale: u8) -> (w: u16)
    ensures
        w == spec_window_field(remaining as int, wscale),
{
    let k: u8 = if wscale <= 8 {
        wscale
    } else {
        8
    };
    let unit: usize = if k == 0 {
        1
    } else if k == 1 {
        2
    } else if k == 2 {
        4
    } else if k == 3 {
        8
    } else if k == 4 {
        16
    } else if k == 5 {
        32
    } else if k == 6 {
        64
    } else if k == 7 {
        128
    } else {
        256
    };
    proof {
        reveal_with_fuel(spec_pow2, 10);
    }
    let shifted = remaining / unit;
    if shifted > 0xffff {
        0xffff
    } else {
        shifted as u16
    }
}

} // verus!
