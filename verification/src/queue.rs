//! The send-side retransmission cache: a bounded window of transmitted but
//! unacknowledged bytes whose left edge carries a 32-bit sequence number.
//!
//! Every byte is stamped with the instant (in milliseconds) at which it was
//! appended. A stamp is refreshed only when the byte is acknowledged away or
//! returned by [`Queue::get_timed_out`], so a segment is retransmitted on
//! timeout at most once per retransmission timeout.

use vstd::prelude::*;

use crate::seq_space::{
    seq_add, seq_sub, spec_seq_add, spec_seq_sub, MAX_U32_WINDOW_SIZE,
};
use crate::ProtocolError;

verus! {

/// A byte stamped `st` has timed out at `now` under the timeout `rto`.
pub open spec fn stamp_timed_out(st: u64, now: u64, rto: u64) -> bool {
    st + rto <= now
}

/// Length of the contiguous prefix of `stamps` that has timed out.
pub open spec fn timed_out_prefix(stamps: Seq<u64>, now: u64, rto: u64) -> nat
    decreases stamps.len(),
{
    if stamps.len() == 0 || !stamp_timed_out(stamps[0], now, rto) {
        0
    } else {
        1 + timed_out_prefix(stamps.drop_first(), now, rto)
    }
}

/// How many bytes an acknowledgement of `sequence` drops from the left of a
/// cache anchored at `left` holding `len` bytes: a `sequence` at or behind
/// the left edge, or implausibly far ahead, drops nothing; one beyond the
/// right edge drops everything.
pub open spec fn spec_acked_len(left: u32, len: int, sequence: u32) -> int {
    let d = spec_seq_sub(sequence, left) as int;
    if d > MAX_U32_WINDOW_SIZE {
        0
    } else if d > len {
        len
    } else {
        d
    }
}

/// The bytes a cache keeps after its left edge advances to `sequence`.
pub open spec fn spec_invalidated_bytes(q: Queue, sequence: u32) -> Seq<u8> {
    q.bytes().skip(spec_acked_len(q.seq_left(), q.bytes().len() as int, sequence))
}

/// The left edge of a cache after it advances to `sequence`.
pub open spec fn spec_invalidated_left(q: Queue, sequence: u32) -> u32 {
    spec_seq_add(
        q.seq_left(),
        spec_acked_len(q.seq_left(), q.bytes().len() as int, sequence) as u32,
    )
}

/// `q2` is `q1` with its left edge advanced to `sequence`: acknowledged
/// bytes dropped, nothing else changed.
pub open spec fn invalidated_to(q1: Queue, sequence: u32, q2: Queue) -> bool {
    let d = spec_seq_sub(sequence, q1.seq_left()) as int;
    let k = spec_acked_len(q1.seq_left(), q1.bytes().len() as int, sequence);
    &&& q2.bytes() == spec_invalidated_bytes(q1, sequence)
    &&& q2.spec_stamps() == q1.spec_stamps().skip(k)
    &&& q2.seq_left() == spec_invalidated_left(q1, sequence)
    &&& q2.spec_capacity() == q1.spec_capacity()
    &&& (0 < d <= q1.bytes().len() ==> q2.seq_left() == sequence)
    &&& q2.right_edge() == q1.right_edge()
}

/// What a consistent cache guarantees its callers: contents within the
/// capacity, and the capacity within the plausibility window.
pub proof fn lemma_queue_bounds(q: Queue)
    requires
        q.wf(),
    ensures
        q.bytes().len() <= q.spec_capacity(),
        q.spec_capacity() <= MAX_U32_WINDOW_SIZE,
        q.bytes().len() == q.spec_stamps().len(),
{
}

/// The timed-out prefix never reaches past the stamps themselves.
pub proof fn lemma_timed_out_prefix_le(stamps: Seq<u64>, now: u64, rto: u64)
    ensures
        timed_out_prefix(stamps, now, rto) <= stamps.len(),
    decreases stamps.len(),
{
    if stamps.len() == 0 || !stamp_timed_out(stamps[0], now, rto) {
    } else {
        lemma_timed_out_prefix_le(stamps.drop_first(), now, rto);
    }
}

/// The send-side retransmission cache of one TCP flow.
pub struct Queue {
    capacity: usize,
    left: u32,
    buffer: Vec<u8>,
    stamps: Vec<u64>,
}

impl Queue {
    /// The cache is consistent: one stamp per byte, within capacity, and the
    /// capacity small enough that modular positions are unambiguous.
    pub closed spec fn wf(self) -> bool {
        &&& self.buffer@.len() == self.stamps@.len()
        &&& self.buffer@.len() <= self.capacity
        &&& self.capacity <= MAX_U32_WINDOW_SIZE
    }

    /// The unacknowledged bytes, left edge first.
    pub closed spec fn bytes(self) -> Seq<u8> {
        self.buffer@
    }

    /// The stamp (in ms) of each unacknowledged byte.
    pub closed spec fn spec_stamps(self) -> Seq<u64> {
        self.stamps@
    }

    /// The sequence number of the left edge.
    pub closed spec fn seq_left(self) -> u32 {
        self.left
    }

    /// The capacity in bytes.
    pub closed spec fn spec_capacity(self) -> usize {
        self.capacity
    }

    /// The sequence number one past the cached bytes.
    pub open spec fn right_edge(self) -> u32 {
        spec_seq_add(self.seq_left(), self.bytes().len() as u32)
    }

    /// Creates an empty cache whose left edge starts at `sequence`.
    pub fn with_capacity(capacity: usize, sequence: u32) -> (q: Queue)
        requires
            capacity <= MAX_U32_WINDOW_SIZE,
        ensures
            q.wf(),
            q.bytes() =~= Seq::<u8>::empty(),
            q.spec_stamps() =~= Seq::<u64>::empty(),
            q.seq_left() == sequence,
            q.spec_capacity() == capacity,
    {
        Queue { capacity, left: sequence, buffer: Vec::new(), stamps: Vec::new() }
    }

    /// Number of cached bytes.
    pub fn len(&self) -> (n: usize)
        ensures
            n == self.bytes().len(),
    {
        self.buffer.len()
    }

    /// Whether the cache holds no byte.
    pub fn is_empty(&self) -> (e: bool)
        ensures
            e == (self.bytes().len() == 0),
    {
        self.buffer.len() == 0
    }

    /// The sequence number of the left edge.
    pub fn sequence(&self) -> (s: u32)
        ensures
            s == self.seq_left(),
    {
        self.left
    }

    /// The capacity in bytes.
    pub fn capacity(&self) -> (c: usize)
        ensures
            c == self.spec_capacity(),
    {
        self.capacity
    }

    /// Appends freshly transmitted bytes at the right edge, stamped `now_ms`.
    /// Fails without change when the bytes do not fit.
    pub fn append(&mut self, payload: &[u8], now_ms: u64) -> (r: Result<(), ProtocolError>)
        requires
            old(self).wf(),
        ensures
            final(self).wf(),
            final(self).seq_left() == old(self).seq_left(),
            final(self).spec_capacity() == old(self).spec_capacity(),
            match r {
                Ok(()) => {
                    &&& old(self).bytes().len() + payload@.len() <= old(self).spec_capacity()
                    &&& final(self).bytes() == old(self).bytes() + payload@
                    &&& final(self).spec_stamps() == old(self).spec_stamps() + Seq::new(
                        payload@.len(),
                        |i: int| now_ms,
                    )
                },
                Err(e) => {
                    &&& e == ProtocolError::OutOfCapacity
                    &&& old(self).bytes().len() + payload@.len() > old(self).spec_capacity()
                    &&& *final(self) == *old(self)
                },
            },
    {
        if payload.len() > self.capacity - self.buffer.len() {
            return Err(ProtocolError::OutOfCapacity);
        }
        let n = payload.len();
        let ghost prev = self.buffer@;
        let ghost prev_stamps = self.stamps@;
        for i in 0..n
            invariant
                n == payload@.len(),
                self.buffer@ == prev + payload@.take(i as int),
                self.stamps@ == prev_stamps + Seq::new(i as nat, |j: int| now_ms),
                self.capacity == old(self).spec_capacity(),
                self.left == old(self).seq_left(),
                prev.len() + n <= self.capacity,
        {
            self.buffer.push(payload[i]);
            self.stamps.push(now_ms);
            proof {
                assert(payload@.take(i + 1) =~= payload@.take(i as int).push(payload@[i as int]));
                assert(self.stamps@ =~= prev_stamps + Seq::new((i + 1) as nat, |j: int| now_ms));
            }
        }
        proof {
            assert(payload@.take(n as int) =~= payload@);
        }
        Ok(())
    }

    /// Returns every cached byte, left edge first, without changing a stamp.
    pub fn get_all(&self) -> (r: Vec<u8>)
        ensures
            r@ == self.bytes(),
    {
        let mut out: Vec<u8> = Vec::new();
        let n = self.buffer.len();
        for i in 0..n
            invariant
                n == self.buffer@.len(),
                out@ == self.buffer@.take(i as int),
        {
            out.push(self.buffer[i]);
            proof {
                assert(self.buffer@.take(i + 1) =~= self.buffer@.take(i as int).push(
                    self.buffer@[i as int],
                ));
            }
        }
        proof {
            assert(self.buffer@.take(n as int) =~= self.buffer@);
        }
        out
    }

    /// Returns `len` bytes starting at the sequence number `sequence`. Fails
    /// when the requested slice is not wholly inside the cached window.
    pub fn get(&self, sequence: u32, len: usize) -> (r: Result<Vec<u8>, ProtocolError>)
        requires
            self.wf(),
        ensures
            match r {
                Ok(v) => {
                    &&& spec_seq_sub(sequence, self.seq_left()) + len <= self.bytes().len()
                    &&& v@ == self.bytes().subrange(
                        spec_seq_sub(sequence, self.seq_left()) as int,
                        spec_seq_sub(sequence, self.seq_left()) + len,
                    )
                },
                Err(e) => {
                    &&& e == ProtocolError::OutOfRange
                    &&& spec_seq_sub(sequence, self.seq_left()) + len > self.bytes().len()
                },
            },
    {
        let d = seq_sub(sequence, self.left) as usize;
        if d > self.buffer.len() || len > self.buffer.len() - d {
            return Err(ProtocolError::OutOfRange);
        }
        let end = d + len;
        let mut out: Vec<u8> = Vec::new();
        for j in d..end
            invariant
                end == d + len,
                end <= self.buffer@.len(),
                d == spec_seq_sub(sequence, self.seq_left()),
                out@ == self.buffer@.subrange(d as int, j as int),
        {
            out.push(self.buffer[j]);
            proof {
                assert(self.buffer@.subrange(d as int, j + 1) =~= self.buffer@.subrange(
                    d as int,
                    j as int,
                ).push(self.buffer@[j as int]));
            }
        }
        Ok(out)
    }

    /// Returns the contiguous left-edge run of bytes whose stamps are at
    /// least `rto` milliseconds old at `now_ms`, refreshing those stamps to
    /// `now_ms` so the run times out again only one full `rto` later.
    pub fn get_timed_out(&mut self, rto: u64, now_ms: u64) -> (r: Vec<u8>)
        requires
            old(self).wf(),
        ensures
            final(self).wf(),
            final(self).seq_left() == old(self).seq_left(),
            final(self).spec_capacity() == old(self).spec_capacity(),
            final(self).bytes() == old(self).bytes(),
            r@ == old(self).bytes().take(
                timed_out_prefix(old(self).spec_stamps(), now_ms, rto) as int,
            ),
            final(self).spec_stamps() == Seq::new(
                timed_out_prefix(old(self).spec_stamps(), now_ms, rto),
                |i: int| now_ms,
            ) + old(self).spec_stamps().skip(
                timed_out_prefix(old(self).spec_stamps(), now_ms, rto) as int,
            ),
    {
        let ghost k_spec = timed_out_prefix(old(self).spec_stamps(), now_ms, rto);
        let n = self.stamps.len();
        let mut k: usize = 0;
        while k < n && self.stamps[k] <= now_ms && now_ms - self.stamps[k] >= rto
            invariant
                n == self.stamps@.len(),
                self == old(self),
                k <= n,
                forall|i: int|
                    0 <= i < k ==> stamp_timed_out(#[trigger] self.stamps@[i], now_ms, rto),
            decreases n - k,
        {
            k = k + 1;
        }
        proof {
            assert(k == k_spec) by {
                if k < n {
                    assert(!stamp_timed_out(self.stamps@[k as int], now_ms, rto));
                }
                lemma_timed_out_prefix_characterize(self.stamps@, now_ms, rto, k as nat);
            }
        }
        let mut out: Vec<u8> = Vec::new();
        for i in 0..k
            invariant
                k <= self.buffer@.len(),
                self == old(self),
                out@ == self.buffer@.take(i as int),
        {
            out.push(self.buffer[i]);
            proof {
                assert(self.buffer@.take(i + 1) =~= self.buffer@.take(i as int).push(
                    self.buffer@[i as int],
                ));
            }
        }
        let ghost mid_stamps = self.stamps@;
        for i in 0..k
            invariant
                k <= self.stamps@.len(),
                self.stamps@.len() == mid_stamps.len(),
                self.buffer@ == old(self).bytes(),
                self.capacity == old(self).spec_capacity(),
                self.left == old(self).seq_left(),
                self.stamps@ == Seq::new(i as nat, |j: int| now_ms) + mid_stamps.skip(i as int),
        {
            self.stamps.set(i, now_ms);
            proof {
                assert(self.stamps@ =~= Seq::new((i + 1) as nat, |j: int| now_ms)
                    + mid_stamps.skip(i + 1));
            }
        }
        proof {
            assert(mid_stamps == old(self).spec_stamps());
            assert(self.stamps@ =~= Seq::new(k as nat, |j: int| now_ms) + mid_stamps.skip(
                k as int,
            ));
        }
        out
    }

    /// Advances the left edge to `sequence`, dropping every acknowledged
    /// byte. A `sequence` at or behind the left edge, or implausibly far
    /// ahead, changes nothing; one beyond the right edge empties the cache.
    pub fn invalidate_to(&mut self, sequence: u32)
        requires
            old(self).wf(),
        ensures
            final(self).wf(),
            invalidated_to(*old(self), sequence, *final(self)),
    {
        let d = seq_sub(sequence, self.left) as usize;
        let k: usize = if d > MAX_U32_WINDOW_SIZE {
            0
        } else if d > self.buffer.len() {
            self.buffer.len()
        } else {
            d
        };
        proof {
            if 0 < d <= old(self).bytes().len() {
                crate::seq_space::lemma_seq_sub_add(sequence, self.left);
            }
        }
        let mut new_buffer: Vec<u8> = Vec::new();
        let mut new_stamps: Vec<u64> = Vec::new();
        let n = self.buffer.len();
        let mut i: usize = k;
        while i < n
            invariant
                n == self.buffer@.len(),
                self == old(self),
                self.buffer@.len() == self.stamps@.len(),
                k <= i <= n,
                new_buffer@ == self.buffer@.subrange(k as int, i as int),
                new_stamps@ == self.stamps@.subrange(k as int, i as int),
            decreases n - i,
        {
            new_buffer.push(self.buffer[i]);
            new_stamps.push(self.stamps[i]);
            proof {
                assert(self.buffer@.subrange(k as int, i + 1) =~= self.buffer@.subrange(
                    k as int,
                    i as int,
                ).push(self.buffer@[i as int]));
                assert(self.stamps@.subrange(k as int, i + 1) =~= self.stamps@.subrange(
                    k as int,
                    i as int,
                ).push(self.stamps@[i as int]));
            }
            i = i + 1;
        }
        proof {
            assert(self.buffer@.subrange(k as int, n as int) =~= self.buffer@.skip(k as int));
            assert(self.stamps@.subrange(k as int, n as int) =~= self.stamps@.skip(k as int));
        }
        self.left = seq_add(self.left, k as u32);
        self.buffer = new_buffer;
        self.stamps = new_stamps;
        proof {
            crate::seq_space::lemma_seq_add_chain(
                old(self).seq_left(),
                k as u32,
                (old(self).bytes().len() - k) as u32,
            );
        }
    }
}

proof fn lemma_timed_out_prefix_characterize(stamps: Seq<u64>, now: u64, rto: u64, k: nat)
    requires
        k <= stamps.len(),
        forall|i: int| 0 <= i < k ==> stamp_timed_out(#[trigger] stamps[i], now, rto),
        k < stamps.len() ==> !stamp_timed_out(stamps[k as int], now, rto),
    ensures
        timed_out_prefix(stamps, now, rto) == k,
    decreases stamps.len(),
{
    if stamps.len() == 0 {
    } else if k == 0 {
    } else {
        assert(stamp_timed_out(stamps[0], now, rto));
        assert forall|i: int|
            0 <= i < k - 1 implies stamp_timed_out(#[trigger] stamps.drop_first()[i], now, rto) by {
            assert(stamps.drop_first()[i] == stamps[i + 1]);
        }
        assert(k - 1 < stamps.drop_first().len() ==> !stamp_timed_out(
            stamps.drop_first()[k - 1],
            now,
            rto,
        ));
        lemma_timed_out_prefix_characterize(stamps.drop_first(), now, rto, (k - 1) as nat);
    }
}

/// Once the left edge has been advanced to a peer acknowledgement, no byte
/// the cache can hand out for retransmission lies before that
/// acknowledgement: every cached sequence number sits at a forward distance
/// from it smaller than the plausibility window.
pub proof fn lemma_no_retransmit_before_ack(q: Queue, ack: u32, x: u32)
    requires
        q.wf(),
        q.seq_left() == ack,
        crate::seq_space::seq_in_range(x, q.seq_left(), q.right_edge()),
    ensures
        spec_seq_sub(x, ack) < MAX_U32_WINDOW_SIZE,
{
    crate::seq_space::lemma_sub_val(ack, ack);
    crate::seq_space::lemma_seq_sub_add(ack, q.bytes().len() as u32);
}

} // verus!
