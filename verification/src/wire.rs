//! Big-endian field encoding and the ones-complement checksum used by the
//! packet builders and parsers.

use vstd::prelude::*;

verus! {

/// The two big-endian bytes of `x`.
pub open spec fn be16(x: u16) -> Seq<u8> {
    seq![(x / 256) as u8, (x % 256) as u8]
}

/// The four big-endian bytes of `x`.
pub open spec fn be32(x: u32) -> Seq<u8> {
    seq![
        (x / 0x1000000) as u8,
        ((x / 0x10000) % 256) as u8,
        ((x / 256) % 256) as u8,
        (x % 256) as u8,
    ]
}

/// The 16-bit value of the two big-endian bytes at `i`.
pub open spec fn spec_read16(s: Seq<u8>, i: int) -> u16 {
    (s[i] * 256 + s[i + 1]) as u16
}

/// The 32-bit value of the four big-endian bytes at `i`.
pub open spec fn spec_read32(s: Seq<u8>, i: int) -> u32 {
    (s[i] * 0x1000000 + s[i + 1] * 0x10000 + s[i + 2] * 256 + s[i + 3]) as u32
}

/// Appends the two big-endian bytes of `x`.
pub fn push_be16(v: &mut Vec<u8>, x: u16)
    ensures
        final(v)@ == old(v)@ + be16(x),
{
    v.push((x / 256) as u8);
    v.push((x % 256) as u8);
    proof {
        assert(v@ =~= old(v)@ + be16(x));
    }
}

/// Appends the four big-endian bytes of `x`.
pub fn push_be32(v: &mut Vec<u8>, x: u32)
    ensures
        final(v)@ == old(v)@ + be32(x),
{
    v.push((x / 0x1000000) as u8);
    v.push(((x / 0x10000) % 256) as u8);
    v.push(((x / 256) % 256) as u8);
    v.push((x % 256) as u8);
    proof {
        assert(v@ =~= old(v)@ + be32(x));
    }
}

/// Reads the 16-bit big-endian value at `i`.
pub fn read16(s: &[u8], i: usize) -> (r: u16)
    requires
        i + 2 <= s@.len(),
    ensures
        r == spec_read16(s@, i as int),
{
    (s[i] as u16) * 256 + (s[i + 1] as u16)
}

/// Reads the 32-bit big-endian value at `i`.
pub fn read32(s: &[u8], i: usize) -> (r: u32)
    requires
        i + 4 <= s@.len(),
    ensures
        r == spec_read32(s@, i as int),
{
    (s[i] as u32) * 0x1000000 + (s[i + 1] as u32) * 0x10000 + (s[i + 2] as u32) * 256 + (s[i
        + 3] as u32)
}

/// Reading back the two bytes of `be16` yields the value.
pub proof fn lemma_be16_read(x: u16)
    ensures
        spec_read16(be16(x), 0) == x,
{
}

/// Reading back the four bytes of `be32` yields the value.
pub proof fn lemma_be32_read(x: u32)
    ensures
        spec_read32(be32(x), 0) == x,
{
}

/// Sum of the 16-bit big-endian words of `s`; a trailing lone byte counts as
/// the high byte of a final word.
pub open spec fn sum16(s: Seq<u8>) -> int
    decreases s.len(),
{
    if s.len() == 0 {
        0
    } else if s.len() == 1 {
        s[0] * 256
    } else {
        s[0] * 256 + s[1] + sum16(s.skip(2))
    }
}

/// One step of end-around carry folding.
pub open spec fn fold1(s: int) -> int {
    s % 0x10000 + s / 0x10000
}

/// The ones-complement checksum of `s`: the word sum folded back into 16
/// bits, complemented.
pub open spec fn spec_checksum(s: Seq<u8>) -> u16 {
    (0xffff - fold1(fold1(fold1(sum16(s))))) as u16
}

/// The word sum grows at most linearly with the length.
pub proof fn lemma_sum16_bound(s: Seq<u8>)
    ensures
        0 <= sum16(s) <= s.len() * 0x10000,
    decreases s.len(),
{
    if s.len() == 0 {
    } else if s.len() == 1 {
    } else {
        lemma_sum16_bound(s.skip(2));
    }
}

/// Computes the ones-complement checksum of `s`.
pub fn checksum(s: &[u8]) -> (r: u16)
    requires
        s@.len() <= 0x20000,
    ensures
        r == spec_checksum(s@),
{
    proof {
        lemma_sum16_bound(s@);
        assert(s@.skip(0) =~= s@);
    }
    let n = s.len();
    let mut sum: u64 = 0;
    let mut i: usize = 0;
    while i < n
        invariant
            n == s@.len(),
            n <= 0x20000,
            i <= n,
            i % 2 == 0 || i == n,
            sum + sum16(s@.skip(i as int)) == sum16(s@),
            sum <= i * 0x10000,
        decreases n - i,
    {
        proof {
            lemma_sum16_bound(s@.skip(i as int));
        }
        if i + 1 < n {
            sum = sum + (s[i] as u64) * 256 + (s[i + 1] as u64);
            proof {
                assert(s@.skip(i as int)[0] == s@[i as int]);
                assert(s@.skip(i as int)[1] == s@[i + 1]);
                assert(s@.skip(i as int).skip(2) =~= s@.skip(i + 2));
            }
            i = i + 2;
        } else {
            sum = sum + (s[i] as u64) * 256;
            proof {
                assert(s@.skip(i as int)[0] == s@[i as int]);
                assert(s@.skip(i as int).len() == 1);
            }
            i = i + 1;
        }
    }
    proof {
        assert(s@.skip(n as int) =~= Seq::<u8>::empty());
    }
    let f1 = sum % 0x10000 + sum / 0x10000;
    let f2 = f1 % 0x10000 + f1 / 0x10000;
    let f3 = f2 % 0x10000 + f2 / 0x10000;
    proof {
        assert(f3 <= 0xffff);
    }
    0xffffu16 - (f3 as u16)
}

} // verus!
