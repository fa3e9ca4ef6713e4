//! IPv4 defragmentation: fragments that share a source, destination,
//! protocol and identification are collected into one buffer, eight-byte
//! unit by unit, until the last fragment has arrived and no unit is missing.
//!
//! Partially assembled datagrams are dropped under capacity pressure rather
//! than kept forever.

use vstd::prelude::*;

use crate::packet::Ipv4;

verus! {

/// How many datagrams may be under assembly at once.
pub const MAX_PARTIAL: usize = 16;

/// The number of eight-byte units a datagram may span.
pub const UNIT_COUNT: usize = 8192;

/// One datagram under assembly.
pub struct Partial {
    /// Source address of its fragments.
    pub src: u32,
    /// Destination address of its fragments.
    pub dst: u32,
    /// Protocol of its fragments.
    pub protocol: u8,
    /// Identification shared by its fragments.
    pub identification: u16,
    /// The bytes written so far, at their final offsets.
    buffer: Vec<u8>,
    /// Which eight-byte units have been written.
    units: Vec<bool>,
    /// The datagram's body length, once the last fragment has arrived.
    total: Option<usize>,
}

impl Partial {
    /// Storage covers the whole possible datagram; a known total fits it.
    pub closed spec fn wf(self) -> bool {
        &&& self.buffer@.len() == 8 * UNIT_COUNT
        &&& self.units@.len() == UNIT_COUNT
        &&& match self.total {
            Some(t) => t <= 8 * UNIT_COUNT,
            None => true,
        }
    }
}

/// Collects fragments into whole datagrams.
pub struct Defraggler {
    partials: Vec<Partial>,
}

impl Defraggler {
    /// Every datagram under assembly is consistent, and there are not too
    /// many of them.
    pub closed spec fn wf(self) -> bool {
        &&& self.partials@.len() <= MAX_PARTIAL
        &&& forall|i: int| 0 <= i < self.partials@.len() ==> (#[trigger] self.partials@[i]).wf()
    }

    /// An empty defragmenter.
    pub fn new() -> (d: Defraggler)
        ensures
            d.wf(),
    {
        Defraggler { partials: Vec::new() }
    }

    /// Adds one fragment. When it completes its datagram, returns the
    /// reassembled header (fragmentation cleared) and body; the partial
    /// state is dropped. An implausible fragment, or one that arrives under
    /// capacity pressure, is discarded.
    pub fn add(&mut self, ip: &Ipv4, payload: &[u8]) -> (r: Option<(Ipv4, Vec<u8>)>)
        requires
            old(self).wf(),
            ip.wf(),
        ensures
            final(self).wf(),
            match r {
                Some(d) => {
                    &&& d.0 == (Ipv4 {
                        identification: ip.identification,
                        more_fragments: false,
                        fragment_offset: 0,
                        protocol: ip.protocol,
                        src: ip.src,
                        dst: ip.dst,
                    })
                    &&& d.1@.len() <= 8 * UNIT_COUNT
                    // a last fragment that completes its datagram ends it,
                    // with its own bytes at its offset
                    &&& (!ip.more_fragments ==> {
                        &&& d.1@.len() == ip.fragment_offset as int * 8 + payload@.len()
                        &&& d.1@.subrange(ip.fragment_offset as int * 8, d.1@.len() as int)
                            == payload@
                    })
                },
                None => true,
            },
    {
        let offset = (ip.fragment_offset as usize) * 8;
        if payload.len() == 0 || payload.len() > 8 * UNIT_COUNT || offset > 8 * UNIT_COUNT
            - payload.len() {
            return None;
        }
        if ip.more_fragments && payload.len() % 8 != 0 {
            // every fragment but the last covers whole units
            return None;
        }
        // find the datagram this fragment belongs to, or start one
        let mut idx: usize = 0;
        let mut found = false;
        let n = self.partials.len();
        while idx < n && !found
            invariant
                self.wf(),
                n == self.partials@.len(),
                idx <= n,
                found ==> idx < n,
            decreases n - idx, if found { 0int } else { 1int },
        {
            let p = &self.partials[idx];
            if p.src == ip.src && p.dst == ip.dst && p.protocol == ip.protocol
                && p.identification == ip.identification {
                found = true;
            } else {
                idx = idx + 1;
            }
        }
        if !found {
            if self.partials.len() >= MAX_PARTIAL {
                // capacity pressure: drop the oldest partial datagram
                let ghost pv = self.partials@;
                self.partials.remove(0);
                proof {
                    assert forall|i: int|
                        0 <= i < self.partials@.len() implies (#[trigger] self.partials@[i]).wf()
                        by {
                        assert(self.partials@[i] == pv[i + 1]);
                    }
                }
            }
            let mut buffer: Vec<u8> = Vec::new();
            let mut units: Vec<bool> = Vec::new();
            let mut i: usize = 0;
            while i < UNIT_COUNT
                invariant
                    buffer@.len() == 8 * i,
                    units@.len() == i,
                    i <= UNIT_COUNT,
                decreases UNIT_COUNT - i,
            {
                buffer.push(0);
                buffer.push(0);
                buffer.push(0);
                buffer.push(0);
                buffer.push(0);
                buffer.push(0);
                buffer.push(0);
                buffer.push(0);
                units.push(false);
                i = i + 1;
            }
            idx = self.partials.len();
            let ghost pv2 = self.partials@;
            self.partials.push(
                Partial {
                    src: ip.src,
                    dst: ip.dst,
                    protocol: ip.protocol,
                    identification: ip.identification,
                    buffer,
                    units,
                    total: None,
                },
            );
            proof {
                assert forall|i: int|
                    0 <= i < self.partials@.len() implies (#[trigger] self.partials@[i]).wf() by {
                    if i < pv2.len() {
                        assert(self.partials@[i] == pv2[i]);
                    } else {
                        assert(self.partials@[i] == self.partials@.last());
                    }
                }
            }
        }
        // write the fragment's bytes and mark its units
        proof {
            assert(self.partials@[idx as int].wf());
        }
        let ghost pv = self.partials@;
        let mut p = self.partials.remove(idx);
        proof {
            assert(p.wf());
            assert forall|i: int|
                0 <= i < self.partials@.len() implies (#[trigger] self.partials@[i]).wf() by {
                if i < idx {
                    assert(self.partials@[i] == pv[i]);
                } else {
                    assert(self.partials@[i] == pv[i + 1]);
                }
            }
        }
        let ghost t0 = p.total;
        let m = payload.len();
        let mut i: usize = 0;
        while i < m
            invariant
                m == payload@.len(),
                offset == (ip.fragment_offset as int) * 8,
                offset + m <= 8 * UNIT_COUNT,
                i <= m,
                p.buffer@.len() == 8 * UNIT_COUNT,
                p.units@.len() == UNIT_COUNT,
                p.total == t0,
                p.buffer@.subrange(offset as int, offset + i) == payload@.take(i as int),
            decreases m - i,
        {
            p.buffer.set(offset + i, payload[i]);
            proof {
                assert(p.buffer@.subrange(offset as int, offset + i + 1) =~= payload@.take(i + 1));
            }
            i = i + 1;
        }
        proof {
            assert(payload@.take(m as int) =~= payload@);
        }
        let first_unit = offset / 8;
        let unit_end = (offset + m + 7) / 8;
        let mut u: usize = first_unit;
        while u < unit_end
            invariant
                unit_end <= UNIT_COUNT,
                u <= unit_end,
                m == payload@.len(),
                offset + m <= 8 * UNIT_COUNT,
                p.buffer@.len() == 8 * UNIT_COUNT,
                p.units@.len() == UNIT_COUNT,
                p.total == t0,
                p.buffer@.subrange(offset as int, offset + m) == payload@,
            decreases unit_end - u,
        {
            p.units.set(u, true);
            u = u + 1;
        }
        if !ip.more_fragments {
            p.total = Some(offset + m);
        }
        // hand the datagram out once every unit up to the total is here
        let total = match p.total {
            Some(t) => t,
            None => {
                proof {
                    assert(p.wf());
                }
                let ghost pv3 = self.partials@;
                self.partials.push(p);
                proof {
                    assert forall|i: int|
                        0 <= i < self.partials@.len() implies (#[trigger] self.partials@[i]).wf()
                        by {
                        if i < pv3.len() {
                            assert(self.partials@[i] == pv3[i]);
                        } else {
                            assert(self.partials@[i] == self.partials@.last());
                        }
                    }
                }
                return None;
            },
        };
        let need = (total + 7) / 8;
        let mut u: usize = 0;
        while u < need
            invariant
                need <= UNIT_COUNT,
                u <= need,
                m == payload@.len(),
                offset + m <= 8 * UNIT_COUNT,
                p.buffer@.len() == 8 * UNIT_COUNT,
                p.units@.len() == UNIT_COUNT,
                p.total is Some && p.total->0 == total,
                total <= 8 * UNIT_COUNT,
                !ip.more_fragments ==> total == offset + m,
                p.buffer@.subrange(offset as int, offset + m) == payload@,
                self.wf(),
                self.partials@.len() < MAX_PARTIAL,
                p.wf(),
            decreases need - u,
        {
            if !p.units[u] {
                proof {
                    assert(p.wf());
                }
                let ghost pv4 = self.partials@;
                self.partials.push(p);
                proof {
                    assert forall|i: int|
                        0 <= i < self.partials@.len() implies (#[trigger] self.partials@[i]).wf()
                        by {
                        if i < pv4.len() {
                            assert(self.partials@[i] == pv4[i]);
                        } else {
                            assert(self.partials@[i] == self.partials@.last());
                        }
                    }
                }
                return None;
            }
            u = u + 1;
        }
        let mut body: Vec<u8> = Vec::new();
        let mut i: usize = 0;
        while i < total
            invariant
                total <= 8 * UNIT_COUNT,
                i <= total,
                m == payload@.len(),
                offset + m <= 8 * UNIT_COUNT,
                !ip.more_fragments ==> total == offset + m,
                p.buffer@.len() == 8 * UNIT_COUNT,
                p.buffer@.subrange(offset as int, offset + m) == payload@,
                body@ == p.buffer@.take(i as int),
            decreases total - i,
        {
            body.push(p.buffer[i]);
            proof {
                assert(p.buffer@.take(i + 1) =~= p.buffer@.take(i as int).push(
                    p.buffer@[i as int],
                ));
            }
            i = i + 1;
        }
        proof {
            if !ip.more_fragments {
                assert(body@.subrange(offset as int, total as int) =~= payload@);
            }
        }
        let header = Ipv4 {
            identification: ip.identification,
            more_fragments: false,
            fragment_offset: 0,
            protocol: ip.protocol,
            src: ip.src,
            dst: ip.dst,
        };
        Some((header, body))
    }
}

} // verus!
