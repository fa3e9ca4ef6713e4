//! Parsing captured frames back into the packet model, and the proof that
//! parsing undoes serialization.

use vstd::prelude::*;

use crate::packet::{
    Arp, Ethernet, Indicator, IndicatorS, Ipv4, Network, Tcp, TcpS, Transport, TransportS,
    ETHERTYPE_ARP, ETHERTYPE_IPV4, PROTOCOL_TCP, PROTOCOL_UDP, Udp,
};
use crate::wire::{read16, read32, spec_read16, spec_read32};

verus! {

/// A hardware address read from the six big-endian bytes at `i`.
pub open spec fn spec_read_mac(s: Seq<u8>, i: int) -> u64 {
    (s[i] * 0x10000000000 + s[i + 1] * 0x100000000 + s[i + 2] * 0x1000000 + s[i + 3] * 0x10000
        + s[i + 4] * 256 + s[i + 5]) as u64
}

/// Reads the hardware address at `i`.
pub fn read_mac(s: &[u8], i: usize) -> (r: u64)
    requires
        i + 6 <= s@.len(),
    ensures
        r == spec_read_mac(s@, i as int),
{
    (s[i] as u64) * 0x10000000000 + (s[i + 1] as u64) * 0x100000000 + (s[i + 2] as u64) * 0x1000000
        + (s[i + 3] as u64) * 0x10000 + (s[i + 4] as u64) * 256 + (s[i + 5] as u64)
}

/// The TCP options gathered while parsing.
pub struct TcpOpts {
    /// Maximum segment size.
    pub mss: Option<u16>,
    /// Window scale.
    pub wscale: Option<u8>,
    /// SACK permitted.
    pub sack_perm: bool,
    /// SACK blocks.
    pub sacks: Seq<(u32, u32)>,
    /// Timestamp value and echo reply.
    pub ts: Option<(u32, u32)>,
}

/// No options seen yet.
pub open spec fn empty_opts() -> TcpOpts {
    TcpOpts { mss: None, wscale: None, sack_perm: false, sacks: Seq::empty(), ts: None }
}

/// `n` SACK blocks read from the bytes at `i`.
pub open spec fn spec_parse_sack_blocks(o: Seq<u8>, i: int, n: int) -> Seq<(u32, u32)>
    decreases n,
{
    if n <= 0 {
        Seq::empty()
    } else {
        seq![(spec_read32(o, i), spec_read32(o, i + 4))] + spec_parse_sack_blocks(o, i + 8, n - 1)
    }
}

/// The options of a TCP header, read from the option bytes `o` starting at
/// `i` with the options `acc` already gathered. Unknown options are skipped
/// by their length; a truncated or malformed option fails the parse.
pub open spec fn spec_parse_opts(o: Seq<u8>, i: int, acc: TcpOpts) -> Option<TcpOpts>
    decreases o.len() - i,
{
    if i < 0 || i >= o.len() {
        Some(acc)
    } else {
        let k = o[i];
        if k == 0 {
            Some(acc)
        } else if k == 1 {
            spec_parse_opts(o, i + 1, acc)
        } else if i + 1 >= o.len() {
            None
        } else {
            let l = o[i + 1] as int;
            if l < 2 || i + l > o.len() {
                None
            } else if k == 2 {
                if l == 4 {
                    spec_parse_opts(
                        o,
                        i + l,
                        TcpOpts { mss: Some(spec_read16(o, i + 2)), ..acc },
                    )
                } else {
                    None
                }
            } else if k == 3 {
                if l == 3 {
                    spec_parse_opts(o, i + l, TcpOpts { wscale: Some(o[i + 2]), ..acc })
                } else {
                    None
                }
            } else if k == 4 {
                if l == 2 {
                    spec_parse_opts(o, i + l, TcpOpts { sack_perm: true, ..acc })
                } else {
                    None
                }
            } else if k == 5 {
                if (l - 2) % 8 == 0 {
                    spec_parse_opts(
                        o,
                        i + l,
                        TcpOpts { sacks: spec_parse_sack_blocks(o, i + 2, (l - 2) / 8), ..acc },
                    )
                } else {
                    None
                }
            } else if k == 8 {
                if l == 10 {
                    spec_parse_opts(
                        o,
                        i + l,
                        TcpOpts { ts: Some((spec_read32(o, i + 2), spec_read32(o, i + 6))), ..acc },
                    )
                } else {
                    None
                }
            } else {
                spec_parse_opts(o, i + l, acc)
            }
        }
    }
}

/// A TCP header and its payload, read from the bytes of an IPv4 datagram's
/// body. The checksum field is not verified.
pub open spec fn spec_parse_tcp(b: Seq<u8>) -> Option<(TcpS, Seq<u8>)> {
    if b.len() < 20 {
        None
    } else {
        let hl = (b[12] / 16) as int * 4;
        if hl < 20 || hl > b.len() {
            None
        } else {
            match spec_parse_opts(b.subrange(20, hl), 0, empty_opts()) {
                None => None,
                Some(opts) => Some(
                    (
                        TcpS {
                            src: spec_read16(b, 0),
                            dst: spec_read16(b, 2),
                            sequence: spec_read32(b, 4),
                            acknowledgement: spec_read32(b, 8),
                            fin: b[13] % 2 == 1,
                            syn: (b[13] / 2) % 2 == 1,
                            rst: (b[13] / 4) % 2 == 1,
                            psh: (b[13] / 8) % 2 == 1,
                            ack: (b[13] / 16) % 2 == 1,
                            window: spec_read16(b, 14),
                            mss: opts.mss,
                            wscale: opts.wscale,
                            sack_perm: opts.sack_perm,
                            sacks: opts.sacks,
                            ts: opts.ts,
                        },
                        b.skip(hl),
                    ),
                ),
            }
        }
    }
}

/// A frame read from its bytes: Ethernet, then ARP or IPv4, then TCP or UDP
/// unless the datagram is a fragment. Trailing padding beyond the IPv4 total
/// length is ignored; checksums are not verified.
pub open spec fn spec_parse_frame(s: Seq<u8>) -> Option<IndicatorS> {
    if s.len() < 14 {
        None
    } else {
        let eth = Ethernet {
            dst: spec_read_mac(s, 0),
            src: spec_read_mac(s, 6),
            kind: spec_read16(s, 12),
        };
        if eth.kind == ETHERTYPE_ARP {
            if s.len() < 42 {
                None
            } else if spec_read16(s, 14) == 1 && spec_read16(s, 16) == ETHERTYPE_IPV4 && s[18]
                == 6 && s[19] == 4 {
                Some(
                    IndicatorS {
                        ethernet: eth,
                        network: Network::Arp(
                            Arp {
                                op: spec_read16(s, 20),
                                sha: spec_read_mac(s, 22),
                                spa: spec_read32(s, 28),
                                tha: spec_read_mac(s, 32),
                                tpa: spec_read32(s, 38),
                            },
                        ),
                        transport: TransportS::Raw,
                        payload: Seq::empty(),
                    },
                )
            } else {
                None
            }
        } else if eth.kind == ETHERTYPE_IPV4 {
            if s.len() < 34 {
                None
            } else if s[14] != 0x45 {
                None
            } else {
                let total = spec_read16(s, 16) as int;
                if total < 20 || 14 + total > s.len() {
                    None
                } else {
                    let flags16 = spec_read16(s, 20);
                    let ip = Ipv4 {
                        identification: spec_read16(s, 18),
                        more_fragments: (flags16 / 0x2000) % 2 == 1,
                        fragment_offset: (flags16 % 0x2000) as u16,
                        protocol: s[23],
                        src: spec_read32(s, 26),
                        dst: spec_read32(s, 30),
                    };
                    let body = s.subrange(34, 14 + total);
                    if ip.spec_is_fragment() || (ip.protocol != PROTOCOL_TCP && ip.protocol
                        != PROTOCOL_UDP) {
                        Some(
                            IndicatorS {
                                ethernet: eth,
                                network: Network::Ipv4(ip),
                                transport: TransportS::Raw,
                                payload: body,
                            },
                        )
                    } else if ip.protocol == PROTOCOL_TCP {
                        match spec_parse_tcp(body) {
                            None => None,
                            Some((t, pl)) => Some(
                                IndicatorS {
                                    ethernet: eth,
                                    network: Network::Ipv4(ip),
                                    transport: TransportS::Tcp(t),
                                    payload: pl,
                                },
                            ),
                        }
                    } else {
                        if body.len() < 8 || spec_read16(body, 4) != body.len() {
                            None
                        } else {
                            Some(
                                IndicatorS {
                                    ethernet: eth,
                                    network: Network::Ipv4(ip),
                                    transport: TransportS::Udp(
                                        Udp { src: spec_read16(body, 0), dst: spec_read16(body, 2) },
                                    ),
                                    payload: body.skip(8),
                                },
                            )
                        }
                    }
                }
            }
        } else {
            None
        }
    }
}

/// Copies the bytes of `s` between `a` and `b`.
fn copy_range(s: &[u8], a: usize, b: usize) -> (r: Vec<u8>)
    requires
        a <= b <= s@.len(),
    ensures
        r@ == s@.subrange(a as int, b as int),
{
    let mut out: Vec<u8> = Vec::new();
    for j in a..b
        invariant
            a <= j <= b <= s@.len(),
            out@ == s@.subrange(a as int, j as int),
    {
        out.push(s[j]);
        proof {
            assert(s@.subrange(a as int, j + 1) =~= s@.subrange(a as int, j as int).push(
                s@[j as int],
            ));
        }
    }
    out
}

/// The gathered options as one value, for stating the loop's progress.
pub open spec fn mk_opts(
    mss: Option<u16>,
    wscale: Option<u8>,
    sack_perm: bool,
    sacks: Seq<(u32, u32)>,
    ts: Option<(u32, u32)>,
) -> TcpOpts {
    TcpOpts { mss, wscale, sack_perm, sacks, ts }
}

/// Reads the options of a TCP header from its option bytes. Returns the
/// exact result of [`spec_parse_opts`] from the start of `o`.
#[verifier::rlimit(100)]
fn parse_opts(o: &[u8]) -> (r: Option<(Option<u16>, Option<u8>, bool, Vec<(u32, u32)>, Option<
    (u32, u32),
>)>)
    ensures
        match r {
            Some((mss, wscale, sack_perm, sacks, ts)) => spec_parse_opts(o@, 0, empty_opts())
                == Some(mk_opts(mss, wscale, sack_perm, sacks@, ts)),
            None => spec_parse_opts(o@, 0, empty_opts()) is None,
        },
{
    let n = o.len();
    let mut i: usize = 0;
    let mut mss: Option<u16> = None;
    let mut wscale: Option<u8> = None;
    let mut sack_perm: bool = false;
    let mut sacks: Vec<(u32, u32)> = Vec::new();
    let mut ts: Option<(u32, u32)> = None;
    while i < n
        invariant
            n == o@.len(),
            i <= n,
            spec_parse_opts(o@, 0, empty_opts()) == spec_parse_opts(
                o@,
                i as int,
                mk_opts(mss, wscale, sack_perm, sacks@, ts),
            ),
        decreases n - i,
    {
        let ghost acc = mk_opts(mss, wscale, sack_perm, sacks@, ts);
        let k = o[i];
        if k == 0 {
            return Some((mss, wscale, sack_perm, sacks, ts));
        } else if k == 1 {
            i = i + 1;
        } else if i + 1 >= n {
            return None;
        } else {
            let l = o[i + 1] as usize;
            if l < 2 || l > n - i {
                return None;
            }
            if k == 2 {
                if l == 4 {
                    mss = Some(read16(o, i + 2));
                } else {
                    return None;
                }
            } else if k == 3 {
                if l == 3 {
                    wscale = Some(o[i + 2]);
                } else {
                    return None;
                }
            } else if k == 4 {
                if l == 2 {
                    sack_perm = true;
                } else {
                    return None;
                }
            } else if k == 5 {
                if (l - 2) % 8 == 0 {
                    let cnt = (l - 2) / 8;
                    let mut blocks: Vec<(u32, u32)> = Vec::new();
                    let mut j: usize = 0;
                    while j < cnt
                        invariant
                            n == o@.len(),
                            i + 2 + 8 * cnt <= n,
                            j <= cnt,
                            blocks@ == spec_parse_sack_blocks(o@, i + 2, j as int),
                        decreases cnt - j,
                    {
                        let b0 = read32(o, i + 2 + 8 * j);
                        let b1 = read32(o, i + 2 + 8 * j + 4);
                        blocks.push((b0, b1));
                        proof {
                            lemma_parse_sack_blocks_push(o@, i + 2, j as int);
                        }
                        j = j + 1;
                    }
                    sacks = blocks;
                } else {
                    return None;
                }
            } else if k == 8 {
                if l == 10 {
                    ts = Some((read32(o, i + 2), read32(o, i + 6)));
                } else {
                    return None;
                }
            }
            i = i + l;
        }
        proof {
            assert(spec_parse_opts(o@, 0, empty_opts()) == spec_parse_opts(
                o@,
                i as int,
                mk_opts(mss, wscale, sack_perm, sacks@, ts),
            ));
        }
    }
    Some((mss, wscale, sack_perm, sacks, ts))
}


/// Reads a TCP header and payload from an IPv4 datagram's body. Returns
/// exactly what [`spec_parse_tcp`] reads from the same bytes.
pub fn parse_tcp_body(body: &[u8]) -> (r: Option<(Tcp, Vec<u8>)>)
    ensures
        match r {
            Some((tcp, payload)) => spec_parse_tcp(body@) == Some((tcp@, payload@)),
            None => spec_parse_tcp(body@) is None,
        },
{
    if body.len() < 20 {
        return None;
    }
    let hl = (body[12] / 16) as usize * 4;
    if hl < 20 || hl > body.len() {
        return None;
    }
    let opts_bytes = copy_range(body, 20, hl);
    let parsed = parse_opts(opts_bytes.as_slice());
    match parsed {
        None => None,
        Some((mss, wscale, sack_perm, sacks, ts)) => {
            let b13 = body[13];
            let tcp = Tcp {
                src: read16(body, 0),
                dst: read16(body, 2),
                sequence: read32(body, 4),
                acknowledgement: read32(body, 8),
                fin: b13 % 2 == 1,
                syn: (b13 / 2) % 2 == 1,
                rst: (b13 / 4) % 2 == 1,
                psh: (b13 / 8) % 2 == 1,
                ack: (b13 / 16) % 2 == 1,
                window: read16(body, 14),
                mss,
                wscale,
                sack_perm,
                sacks,
                ts,
            };
            let payload = copy_range(body, hl, body.len());
            proof {
                assert(payload@ =~= body@.skip(hl as int));
            }
            Some((tcp, payload))
        },
    }
}

/// Reads a UDP header and payload from an IPv4 datagram's body, checking the
/// length field.
pub fn parse_udp_body(body: &[u8]) -> (r: Option<(Udp, Vec<u8>)>)
    ensures
        match r {
            Some((udp, payload)) => body@.len() >= 8 && spec_read16(body@, 4) == body@.len()
                && udp.src == spec_read16(body@, 0) && udp.dst == spec_read16(body@, 2)
                && payload@ == body@.skip(8),
            None => body@.len() < 8 || spec_read16(body@, 4) != body@.len(),
        },
{
    if body.len() < 8 {
        return None;
    }
    if read16(body, 4) as usize != body.len() {
        return None;
    }
    let udp = Udp { src: read16(body, 0), dst: read16(body, 2) };
    let payload = copy_range(body, 8, body.len());
    proof {
        assert(payload@ =~= body@.skip(8));
    }
    Some((udp, payload))
}

proof fn lemma_parse_sack_blocks_push(o: Seq<u8>, base: int, j: int)
    requires
        j >= 0,
    ensures
        spec_parse_sack_blocks(o, base, j + 1) == spec_parse_sack_blocks(o, base, j).push(
            (spec_read32(o, base + 8 * j), spec_read32(o, base + 8 * j + 4)),
        ),
    decreases j,
{
    if j == 0 {
        assert(spec_parse_sack_blocks(o, base + 8, 0) =~= Seq::<(u32, u32)>::empty());
        assert(spec_parse_sack_blocks(o, base, 0) =~= Seq::<(u32, u32)>::empty());
        assert(spec_parse_sack_blocks(o, base, 1) =~= spec_parse_sack_blocks(o, base, 0).push(
            (spec_read32(o, base), spec_read32(o, base + 4)),
        ));
    } else {
        lemma_parse_sack_blocks_push(o, base + 8, j - 1);
        assert(spec_parse_sack_blocks(o, base, j + 1) =~= spec_parse_sack_blocks(o, base, j).push(
            (spec_read32(o, base + 8 * j), spec_read32(o, base + 8 * j + 4)),
        ));
    }
}

/// Reads one frame. Returns exactly what [`spec_parse_frame`] reads from the
/// same bytes.
#[verifier::rlimit(100)]
pub fn parse_frame(s: &[u8]) -> (r: Option<Indicator>)
    ensures
        match r {
            Some(ind) => spec_parse_frame(s@) == Some(ind@),
            None => spec_parse_frame(s@) is None,
        },
{
    if s.len() < 14 {
        return None;
    }
    let eth = Ethernet { dst: read_mac(s, 0), src: read_mac(s, 6), kind: read16(s, 12) };
    if eth.kind == ETHERTYPE_ARP {
        if s.len() < 42 {
            return None;
        }
        if !(read16(s, 14) == 1 && read16(s, 16) == ETHERTYPE_IPV4 && s[18] == 6 && s[19] == 4) {
            return None;
        }
        let arp = Arp {
            op: read16(s, 20),
            sha: read_mac(s, 22),
            spa: read32(s, 28),
            tha: read_mac(s, 32),
            tpa: read32(s, 38),
        };
        let ind = Indicator {
            ethernet: eth,
            network: Network::Arp(arp),
            transport: Transport::Raw,
            payload: Vec::new(),
        };
        proof {
            assert(ind@.payload =~= Seq::<u8>::empty());
        }
        Some(ind)
    } else if eth.kind == ETHERTYPE_IPV4 {
        if s.len() < 34 {
            return None;
        }
        if s[14] != 0x45 {
            return None;
        }
        let total = read16(s, 16) as usize;
        if total < 20 || 14 + total > s.len() {
            return None;
        }
        let flags16 = read16(s, 20);
        let ip = Ipv4 {
            identification: read16(s, 18),
            more_fragments: (flags16 / 0x2000) % 2 == 1,
            fragment_offset: flags16 % 0x2000,
            protocol: s[23],
            src: read32(s, 26),
            dst: read32(s, 30),
        };
        let body = copy_range(s, 34, 14 + total);
        if ip.is_fragment() || (ip.protocol != PROTOCOL_TCP && ip.protocol != PROTOCOL_UDP) {
            Some(
                Indicator {
                    ethernet: eth,
                    network: Network::Ipv4(ip),
                    transport: Transport::Raw,
                    payload: body,
                },
            )
        } else if ip.protocol == PROTOCOL_TCP {
            match parse_tcp_body(body.as_slice()) {
                None => None,
                Some((tcp, payload)) => Some(
                    Indicator {
                        ethernet: eth,
                        network: Network::Ipv4(ip),
                        transport: Transport::Tcp(tcp),
                        payload,
                    },
                ),
            }
        } else {
            match parse_udp_body(body.as_slice()) {
                None => None,
                Some((udp, payload)) => Some(
                    Indicator {
                        ethernet: eth,
                        network: Network::Ipv4(ip),
                        transport: Transport::Udp(udp),
                        payload,
                    },
                ),
            }
        }
    } else {
        None
    }
}

proof fn lemma_be16_read_at(s: Seq<u8>, i: int, x: u16)
    requires
        0 <= i,
        i + 2 <= s.len(),
        s.subrange(i, i + 2) == crate::wire::be16(x),
    ensures
        spec_read16(s, i) == x,
{
    assert(s[i] == crate::wire::be16(x)[0]);
    assert(s[i + 1] == crate::wire::be16(x)[1]);
}

proof fn lemma_be32_read_at(s: Seq<u8>, i: int, x: u32)
    requires
        0 <= i,
        i + 4 <= s.len(),
        s.subrange(i, i + 4) == crate::wire::be32(x),
    ensures
        spec_read32(s, i) == x,
{
    assert(s[i] == crate::wire::be32(x)[0]);
    assert(s[i + 1] == crate::wire::be32(x)[1]);
    assert(s[i + 2] == crate::wire::be32(x)[2]);
    assert(s[i + 3] == crate::wire::be32(x)[3]);
    assert((x / 0x1000000) * 0x1000000 + ((x / 0x10000) % 256) * 0x10000 + ((x / 256) % 256) * 256
        + (x % 256) == x) by (bit_vector);
}

proof fn lemma_mac_read_at(s: Seq<u8>, i: int, m: u64)
    requires
        0 <= i,
        i + 6 <= s.len(),
        crate::packet::mac_wf(m),
        s.subrange(i, i + 6) == crate::packet::mac_bytes(m),
    ensures
        spec_read_mac(s, i) == m,
{
    assert(s[i] == crate::packet::mac_bytes(m)[0]);
    assert(s[i + 1] == crate::packet::mac_bytes(m)[1]);
    assert(s[i + 2] == crate::packet::mac_bytes(m)[2]);
    assert(s[i + 3] == crate::packet::mac_bytes(m)[3]);
    assert(s[i + 4] == crate::packet::mac_bytes(m)[4]);
    assert(s[i + 5] == crate::packet::mac_bytes(m)[5]);
    assert(m < 0x1000000000000 ==> (m / 0x10000000000) % 256 == m / 0x10000000000) by (bit_vector);
    assert(m < 0x1000000000000 ==> ((m / 0x10000000000) % 256) * 0x10000000000 + ((m
        / 0x100000000) % 256) * 0x100000000 + ((m / 0x1000000) % 256) * 0x1000000 + ((m / 0x10000)
        % 256) * 0x10000 + ((m / 256) % 256) * 256 + (m % 256) == m) by (bit_vector);
}

proof fn lemma_sack_blocks_read(o: Seq<u8>, base: int, blocks: Seq<(u32, u32)>)
    requires
        0 <= base,
        base + 8 * blocks.len() <= o.len(),
        o.subrange(base, base + 8 * blocks.len()) == crate::packet::sack_blocks_bytes(blocks),
    ensures
        spec_parse_sack_blocks(o, base, blocks.len() as int) == blocks,
    decreases blocks.len(),
{
    crate::packet::lemma_sack_blocks_len(blocks);
    if blocks.len() == 0 {
        assert(spec_parse_sack_blocks(o, base, 0) =~= blocks);
    } else {
        let tail = blocks.drop_first();
        let bb = crate::packet::sack_blocks_bytes(blocks);
        let n = blocks.len() as int;
        crate::packet::lemma_sack_blocks_len(tail);
        assert(bb =~= crate::wire::be32(blocks[0].0) + crate::wire::be32(blocks[0].1)
            + crate::packet::sack_blocks_bytes(tail));
        assert(o.subrange(base, base + 4) =~= crate::wire::be32(blocks[0].0)) by {
            assert forall|k: int|
                0 <= k < 4 implies o.subrange(base, base + 4)[k] == crate::wire::be32(
                blocks[0].0,
            )[k] by {
                assert(o.subrange(base, base + 8 * n)[k] == bb[k]);
            }
        }
        assert(o.subrange(base + 4, base + 8) =~= crate::wire::be32(blocks[0].1)) by {
            assert forall|k: int|
                0 <= k < 4 implies o.subrange(base + 4, base + 8)[k] == crate::wire::be32(
                blocks[0].1,
            )[k] by {
                assert(o.subrange(base, base + 8 * n)[4 + k] == bb[4 + k]);
                assert(o.subrange(base + 4, base + 8)[k] == o[base + 4 + k]);
            }
        }
        lemma_be32_read_at(o, base, blocks[0].0);
        lemma_be32_read_at(o, base + 4, blocks[0].1);
        assert(o.subrange(base + 8, base + 8 + 8 * tail.len())
            =~= crate::packet::sack_blocks_bytes(tail)) by {
            assert forall|k: int|
                0 <= k < 8 * tail.len() implies o.subrange(base + 8, base + 8 + 8 * tail.len())[k]
                == crate::packet::sack_blocks_bytes(tail)[k] by {
                assert(o.subrange(base, base + 8 * n)[8 + k] == bb[8 + k]);
                assert(o.subrange(base + 8, base + 8 + 8 * tail.len())[k] == o[base + 8 + k]);
            }
        }
        lemma_sack_blocks_read(o, base + 8, tail);
        assert(spec_parse_sack_blocks(o, base, blocks.len() as int) =~= blocks);
    }
}

proof fn lemma_opt_nop(o: Seq<u8>, i: int, acc: TcpOpts)
    requires
        0 <= i < o.len(),
        o[i] == 1,
    ensures
        spec_parse_opts(o, i, acc) == spec_parse_opts(o, i + 1, acc),
{
}

proof fn lemma_opt_mss(o: Seq<u8>, i: int, acc: TcpOpts, m: u16)
    requires
        0 <= i,
        i + 4 <= o.len(),
        o[i] == 2,
        o[i + 1] == 4,
        o.subrange(i + 2, i + 4) == crate::wire::be16(m),
    ensures
        spec_parse_opts(o, i, acc) == spec_parse_opts(o, i + 4, TcpOpts { mss: Some(m), ..acc }),
{
    lemma_be16_read_at(o, i + 2, m);
}

proof fn lemma_opt_ws(o: Seq<u8>, i: int, acc: TcpOpts, w: u8)
    requires
        0 <= i,
        i + 3 <= o.len(),
        o[i] == 3,
        o[i + 1] == 3,
        o[i + 2] == w,
    ensures
        spec_parse_opts(o, i, acc) == spec_parse_opts(
            o,
            i + 3,
            TcpOpts { wscale: Some(w), ..acc },
        ),
{
}

proof fn lemma_opt_sp(o: Seq<u8>, i: int, acc: TcpOpts)
    requires
        0 <= i,
        i + 2 <= o.len(),
        o[i] == 4,
        o[i + 1] == 2,
    ensures
        spec_parse_opts(o, i, acc) == spec_parse_opts(o, i + 2, TcpOpts { sack_perm: true, ..acc }),
{
}

proof fn lemma_opt_sack(o: Seq<u8>, i: int, acc: TcpOpts, blocks: Seq<(u32, u32)>)
    requires
        0 <= i,
        1 <= blocks.len() <= 4,
        i + 2 + 8 * blocks.len() <= o.len(),
        o[i] == 5,
        o[i + 1] == (2 + 8 * blocks.len()) as u8,
        o.subrange(i + 2, i + 2 + 8 * blocks.len()) == crate::packet::sack_blocks_bytes(blocks),
    ensures
        spec_parse_opts(o, i, acc) == spec_parse_opts(
            o,
            i + 2 + 8 * blocks.len(),
            TcpOpts { sacks: blocks, ..acc },
        ),
{
    let n = blocks.len() as int;
    assert((2 + 8 * n) as u8 as int == 2 + 8 * n);
    assert((2 + 8 * n - 2) % 8 == 0);
    assert((2 + 8 * n - 2) / 8 == n);
    lemma_sack_blocks_read(o, i + 2, blocks);
}

proof fn lemma_opt_ts(o: Seq<u8>, i: int, acc: TcpOpts, tv: u32, te: u32)
    requires
        0 <= i,
        i + 10 <= o.len(),
        o[i] == 8,
        o[i + 1] == 10,
        o.subrange(i + 2, i + 6) == crate::wire::be32(tv),
        o.subrange(i + 6, i + 10) == crate::wire::be32(te),
    ensures
        spec_parse_opts(o, i, acc) == spec_parse_opts(
            o,
            i + 10,
            TcpOpts { ts: Some((tv, te)), ..acc },
        ),
{
    lemma_be32_read_at(o, i + 2, tv);
    lemma_be32_read_at(o, i + 6, te);
}

/// Offset of the window-scale option inside the canonical option bytes.
spec fn opts_i1(t: TcpS) -> int {
    crate::packet::mss_bytes(t.mss).len() as int
}

/// Offset of the SACK-permitted option inside the canonical option bytes.
spec fn opts_i2(t: TcpS) -> int {
    opts_i1(t) + crate::packet::wscale_bytes(t.wscale).len()
}

/// Offset of the SACK option inside the canonical option bytes.
spec fn opts_i3(t: TcpS) -> int {
    opts_i2(t) + crate::packet::sack_perm_bytes(t.sack_perm).len()
}

/// Offset of the timestamp option inside the canonical option bytes.
spec fn opts_i4(t: TcpS) -> int {
    opts_i3(t) + crate::packet::sack_opt_bytes(t.sacks).len()
}

#[verifier::rlimit(100)]
proof fn lemma_opts_stage_mss(t: TcpS, acc: TcpOpts)
    requires
        t.wf(),
        acc.mss is None,
    ensures
        spec_parse_opts(t.opts_bytes(), 0, acc) == spec_parse_opts(
            t.opts_bytes(),
            opts_i1(t),
            TcpOpts { mss: t.mss, ..acc },
        ),
{
    let o = t.opts_bytes();
    match t.mss {
        Some(m) => {
            let pa = crate::packet::mss_bytes(t.mss);
            assert(o.subrange(0, 4) =~= pa);
            assert(o[0] == 2 && o[1] == 4);
            assert(o.subrange(2, 4) =~= crate::wire::be16(m));
            lemma_opt_mss(o, 0, acc, m);
        },
        None => {
            assert(TcpOpts { mss: t.mss, ..acc } == acc);
        },
    }
}

#[verifier::rlimit(100)]
proof fn lemma_opts_stage_ws(t: TcpS, acc: TcpOpts)
    requires
        t.wf(),
        acc.wscale is None,
    ensures
        spec_parse_opts(t.opts_bytes(), opts_i1(t), acc) == spec_parse_opts(
            t.opts_bytes(),
            opts_i2(t),
            TcpOpts { wscale: t.wscale, ..acc },
        ),
{
    let o = t.opts_bytes();
    let i1 = opts_i1(t);
    match t.wscale {
        Some(w) => {
            let pb = crate::packet::wscale_bytes(t.wscale);
            assert(o.subrange(i1, i1 + 4) =~= pb);
            assert(o[i1] == 3 && o[i1 + 1] == 3 && o[i1 + 2] == w && o[i1 + 3] == 1) by {
                assert(o.subrange(i1, i1 + 4)[0] == o[i1]);
                assert(o.subrange(i1, i1 + 4)[1] == o[i1 + 1]);
                assert(o.subrange(i1, i1 + 4)[2] == o[i1 + 2]);
                assert(o.subrange(i1, i1 + 4)[3] == o[i1 + 3]);
            }
            lemma_opt_ws(o, i1, acc, w);
            lemma_opt_nop(o, i1 + 3, TcpOpts { wscale: Some(w), ..acc });
        },
        None => {
            assert(TcpOpts { wscale: t.wscale, ..acc } == acc);
        },
    }
}

#[verifier::rlimit(100)]
proof fn lemma_opts_stage_sp(t: TcpS, acc: TcpOpts)
    requires
        t.wf(),
    ensures
        spec_parse_opts(t.opts_bytes(), opts_i2(t), acc) == spec_parse_opts(
            t.opts_bytes(),
            opts_i3(t),
            TcpOpts { sack_perm: t.sack_perm || acc.sack_perm, ..acc },
        ),
{
    let o = t.opts_bytes();
    let i2 = opts_i2(t);
    if t.sack_perm {
        let pc = crate::packet::sack_perm_bytes(t.sack_perm);
        assert(o.subrange(i2, i2 + 4) =~= pc);
        assert(o[i2] == 4 && o[i2 + 1] == 2 && o[i2 + 2] == 1 && o[i2 + 3] == 1) by {
            assert(o.subrange(i2, i2 + 4)[0] == o[i2]);
            assert(o.subrange(i2, i2 + 4)[1] == o[i2 + 1]);
            assert(o.subrange(i2, i2 + 4)[2] == o[i2 + 2]);
            assert(o.subrange(i2, i2 + 4)[3] == o[i2 + 3]);
        }
        lemma_opt_sp(o, i2, acc);
        lemma_opt_nop(o, i2 + 2, TcpOpts { sack_perm: true, ..acc });
        lemma_opt_nop(o, i2 + 3, TcpOpts { sack_perm: true, ..acc });
    } else {
        assert(TcpOpts { sack_perm: t.sack_perm || acc.sack_perm, ..acc } == acc);
    }
}

#[verifier::rlimit(100)]
proof fn lemma_opts_stage_sack(t: TcpS, acc: TcpOpts)
    requires
        t.wf(),
        acc.sacks == Seq::<(u32, u32)>::empty(),
    ensures
        spec_parse_opts(t.opts_bytes(), opts_i3(t), acc) == spec_parse_opts(
            t.opts_bytes(),
            opts_i4(t),
            TcpOpts { sacks: t.sacks, ..acc },
        ),
{
    let o = t.opts_bytes();
    let i3 = opts_i3(t);
    crate::packet::lemma_sack_blocks_len(t.sacks);
    if t.sacks.len() > 0 {
        let n = t.sacks.len() as int;
        let pd = crate::packet::sack_opt_bytes(t.sacks);
        assert(o.subrange(i3, i3 + 4 + 8 * n) =~= pd);
        assert(o[i3] == 1 && o[i3 + 1] == 1 && o[i3 + 2] == 5 && o[i3 + 3] == (2 + 8 * n) as u8)
            by {
            assert(o.subrange(i3, i3 + 4 + 8 * n)[0] == o[i3]);
            assert(o.subrange(i3, i3 + 4 + 8 * n)[1] == o[i3 + 1]);
            assert(o.subrange(i3, i3 + 4 + 8 * n)[2] == o[i3 + 2]);
            assert(o.subrange(i3, i3 + 4 + 8 * n)[3] == o[i3 + 3]);
        }
        assert(o.subrange(i3 + 4, i3 + 4 + 8 * n) =~= crate::packet::sack_blocks_bytes(t.sacks))
            by {
            assert forall|k: int|
                0 <= k < 8 * n implies o.subrange(i3 + 4, i3 + 4 + 8 * n)[k]
                == crate::packet::sack_blocks_bytes(t.sacks)[k] by {
                assert(o.subrange(i3, i3 + 4 + 8 * n)[4 + k] == pd[4 + k]);
                assert(o.subrange(i3 + 4, i3 + 4 + 8 * n)[k] == o[i3 + 4 + k]);
            }
        }
        lemma_opt_nop(o, i3, acc);
        lemma_opt_nop(o, i3 + 1, acc);
        lemma_opt_sack(o, i3 + 2, acc, t.sacks);
    } else {
        assert(TcpOpts { sacks: t.sacks, ..acc } == acc) by {
            assert(t.sacks =~= acc.sacks);
        }
    }
}

#[verifier::rlimit(100)]
proof fn lemma_opts_stage_ts(t: TcpS, acc: TcpOpts)
    requires
        t.wf(),
        acc.ts is None,
    ensures
        spec_parse_opts(t.opts_bytes(), opts_i4(t), acc) == spec_parse_opts(
            t.opts_bytes(),
            t.opts_bytes().len() as int,
            TcpOpts { ts: t.ts, ..acc },
        ),
{
    let o = t.opts_bytes();
    let i4 = opts_i4(t);
    match t.ts {
        Some((tv, te)) => {
            let pe = crate::packet::ts_bytes(t.ts);
            assert(o.subrange(i4, i4 + 12) =~= pe);
            assert(o[i4] == 1 && o[i4 + 1] == 1 && o[i4 + 2] == 8 && o[i4 + 3] == 10) by {
                assert(o.subrange(i4, i4 + 12)[0] == o[i4]);
                assert(o.subrange(i4, i4 + 12)[1] == o[i4 + 1]);
                assert(o.subrange(i4, i4 + 12)[2] == o[i4 + 2]);
                assert(o.subrange(i4, i4 + 12)[3] == o[i4 + 3]);
            }
            assert(o.subrange(i4 + 4, i4 + 8) =~= crate::wire::be32(tv)) by {
                assert forall|k: int|
                    0 <= k < 4 implies o.subrange(i4 + 4, i4 + 8)[k] == crate::wire::be32(tv)[k] by {
                    assert(o.subrange(i4, i4 + 12)[4 + k] == pe[4 + k]);
                    assert(o.subrange(i4 + 4, i4 + 8)[k] == o[i4 + 4 + k]);
                }
            }
            assert(o.subrange(i4 + 8, i4 + 12) =~= crate::wire::be32(te)) by {
                assert forall|k: int|
                    0 <= k < 4 implies o.subrange(i4 + 8, i4 + 12)[k] == crate::wire::be32(te)[k]
                    by {
                    assert(o.subrange(i4, i4 + 12)[8 + k] == pe[8 + k]);
                    assert(o.subrange(i4 + 8, i4 + 12)[k] == o[i4 + 8 + k]);
                }
            }
            lemma_opt_nop(o, i4, acc);
            lemma_opt_nop(o, i4 + 1, acc);
            lemma_opt_ts(o, i4 + 2, acc, tv, te);
        },
        None => {
            assert(TcpOpts { ts: t.ts, ..acc } == acc);
        },
    }
}

/// Parsing the canonical option bytes recovers exactly the options.
#[verifier::rlimit(100)]
proof fn lemma_parse_opts_serialize(t: TcpS)
    requires
        t.wf(),
    ensures
        spec_parse_opts(t.opts_bytes(), 0, empty_opts()) == Some(
            TcpOpts {
                mss: t.mss,
                wscale: t.wscale,
                sack_perm: t.sack_perm,
                sacks: t.sacks,
                ts: t.ts,
            },
        ),
{
    let o = t.opts_bytes();
    let acc0 = empty_opts();
    let acc1 = TcpOpts { mss: t.mss, ..acc0 };
    let acc2 = TcpOpts { wscale: t.wscale, ..acc1 };
    let acc3 = TcpOpts { sack_perm: t.sack_perm, ..acc2 };
    let acc4 = TcpOpts { sacks: t.sacks, ..acc3 };
    let acc5 = TcpOpts { ts: t.ts, ..acc4 };
    lemma_opts_stage_mss(t, acc0);
    lemma_opts_stage_ws(t, acc1);
    lemma_opts_stage_sp(t, acc2);
    assert(TcpOpts { sack_perm: t.sack_perm || acc2.sack_perm, ..acc2 } == acc3);
    lemma_opts_stage_sack(t, acc3);
    lemma_opts_stage_ts(t, acc4);
    assert(spec_parse_opts(o, o.len() as int, acc5) == Some(acc5));
}

/// The canonical option bytes have a length divisible by four.
proof fn lemma_opts_len_mod4(t: TcpS)
    ensures
        t.opts_bytes().len() % 4 == 0,
{
    crate::packet::lemma_sack_blocks_len(t.sacks);
}

proof fn lemma_tcp_bytes_fields(t: TcpS, ck: u16)
    requires
        t.wf(),
    ensures
        ({
            let hdr = t.bytes(ck);
            let hl = t.header_len();
            &&& hdr.len() == hl
            &&& hdr.subrange(0, 2) == crate::wire::be16(t.src)
            &&& hdr.subrange(2, 4) == crate::wire::be16(t.dst)
            &&& hdr.subrange(4, 8) == crate::wire::be32(t.sequence)
            &&& hdr.subrange(8, 12) == crate::wire::be32(t.acknowledgement)
            &&& hdr[12] == ((hl / 4) * 16) as u8
            &&& hdr[13] == t.flags_byte()
            &&& hdr.subrange(14, 16) == crate::wire::be16(t.window)
            &&& hdr.subrange(20, hl) == t.opts_bytes()
        }),
{
    let hdr = t.bytes(ck);
    let hl = t.header_len();
    assert(hdr.len() == hl);
    assert(hdr.subrange(0, 2) =~= crate::wire::be16(t.src));
    assert(hdr.subrange(2, 4) =~= crate::wire::be16(t.dst));
    assert(hdr.subrange(4, 8) =~= crate::wire::be32(t.sequence));
    assert(hdr.subrange(8, 12) =~= crate::wire::be32(t.acknowledgement));
    assert(hdr.subrange(14, 16) =~= crate::wire::be16(t.window));
    assert(hdr.subrange(20, hl) =~= t.opts_bytes());
}

proof fn lemma_flags_byte_read(t: TcpS)
    ensures
        t.flags_byte() % 2 == 1 <==> t.fin,
        (t.flags_byte() / 2) % 2 == 1 <==> t.syn,
        (t.flags_byte() / 4) % 2 == 1 <==> t.rst,
        (t.flags_byte() / 8) % 2 == 1 <==> t.psh,
        (t.flags_byte() / 16) % 2 == 1 <==> t.ack,
{
}

/// Parsing a serialized TCP header with its payload recovers both, whatever
/// checksum was written.
#[verifier::rlimit(100)]
proof fn lemma_parse_tcp_serialize(t: TcpS, payload: Seq<u8>, ck: u16)
    requires
        t.wf(),
    ensures
        spec_parse_tcp(t.bytes(ck) + payload) == Some((t, payload)),
{
    let hdr = t.bytes(ck);
    let b = hdr + payload;
    let hl = t.header_len();
    lemma_tcp_bytes_fields(t, ck);
    lemma_opts_len_mod4(t);
    assert(20 <= hl <= 60);
    assert(b[12] == hdr[12]);
    assert(b[13] == hdr[13]);
    assert(((hl / 4) * 16) as u8 / 16 == hl / 4) by {
        assert(hl / 4 <= 15);
    }
    assert((b[12] / 16) as int * 4 == hl);
    assert(b.subrange(0, 2) =~= hdr.subrange(0, 2));
    lemma_be16_read_at(b, 0, t.src);
    assert(b.subrange(2, 4) =~= hdr.subrange(2, 4));
    lemma_be16_read_at(b, 2, t.dst);
    assert(b.subrange(4, 8) =~= hdr.subrange(4, 8));
    lemma_be32_read_at(b, 4, t.sequence);
    assert(b.subrange(8, 12) =~= hdr.subrange(8, 12));
    lemma_be32_read_at(b, 8, t.acknowledgement);
    assert(b.subrange(14, 16) =~= hdr.subrange(14, 16));
    lemma_be16_read_at(b, 14, t.window);
    assert(b.subrange(20, hl) =~= hdr.subrange(20, hl));
    lemma_parse_opts_serialize(t);
    lemma_flags_byte_read(t);
    assert(b.skip(hl) =~= payload);
    let r = spec_parse_tcp(b);
    assert(r is Some);
    assert((r->0).0 == t);
    assert((r->0).1 == payload);
}

proof fn lemma_ipv4_bytes_fields(ip: Ipv4, total: u16, ck: u16)
    requires
        ip.wf(),
    ensures
        ({
            let ih = ip.bytes(total, ck);
            &&& ih.len() == 20
            &&& ih[0] == 0x45
            &&& ih.subrange(2, 4) == crate::wire::be16(total)
            &&& ih.subrange(4, 6) == crate::wire::be16(ip.identification)
            &&& ih.subrange(6, 8) == crate::wire::be16(ip.flags_field())
            &&& ih[9] == ip.protocol
            &&& ih.subrange(12, 16) == crate::wire::be32(ip.src)
            &&& ih.subrange(16, 20) == crate::wire::be32(ip.dst)
        }),
{
    let ih = ip.bytes(total, ck);
    assert(ih.subrange(2, 4) =~= crate::wire::be16(total));
    assert(ih.subrange(4, 6) =~= crate::wire::be16(ip.identification));
    assert(ih.subrange(6, 8) =~= crate::wire::be16(ip.flags_field()));
    assert(ih.subrange(12, 16) =~= crate::wire::be32(ip.src));
    assert(ih.subrange(16, 20) =~= crate::wire::be32(ip.dst));
}

/// Parsing undoes serialization: reading back the bytes of any constructible
/// frame, trailing padding allowed, yields that frame.
#[verifier::rlimit(100)]
pub proof fn lemma_parse_serialize(ind: IndicatorS, s: Seq<u8>)
    requires
        ind.wf(),
        s.len() >= ind.frame_bytes().len(),
        s.subrange(0, ind.frame_bytes().len() as int) == ind.frame_bytes(),
    ensures
        spec_parse_frame(s) == Some(ind),
{
    let fb = ind.frame_bytes();
    assert forall|k: int| 0 <= k < fb.len() implies s[k] == fb[k] by {
        assert(s.subrange(0, fb.len() as int)[k] == fb[k]);
    }
    let eth = ind.ethernet;
    assert(eth.bytes().len() == 14);
    assert(s.subrange(0, 6) =~= crate::packet::mac_bytes(eth.dst));
    lemma_mac_read_at(s, 0, eth.dst);
    assert(s.subrange(6, 12) =~= crate::packet::mac_bytes(eth.src));
    lemma_mac_read_at(s, 6, eth.src);
    assert(s.subrange(12, 14) =~= crate::wire::be16(eth.kind));
    lemma_be16_read_at(s, 12, eth.kind);
    match ind.network {
        Network::Arp(a) => {
            lemma_parse_serialize_arp(ind, s, a);
        },
        Network::Ipv4(ip) => {
            lemma_parse_serialize_ipv4(ind, s, ip);
        },
    }
}

#[verifier::rlimit(100)]
proof fn lemma_parse_serialize_arp(ind: IndicatorS, s: Seq<u8>, a: Arp)
    requires
        ind.wf(),
        ind.network == Network::Arp(a),
        s.len() >= ind.frame_bytes().len(),
        s.subrange(0, ind.frame_bytes().len() as int) == ind.frame_bytes(),
        spec_read_mac(s, 0) == ind.ethernet.dst,
        spec_read_mac(s, 6) == ind.ethernet.src,
        spec_read16(s, 12) == ind.ethernet.kind,
    ensures
        spec_parse_frame(s) == Some(ind),
{
    let fb = ind.frame_bytes();
    assert forall|k: int| 0 <= k < fb.len() implies s[k] == fb[k] by {
        assert(s.subrange(0, fb.len() as int)[k] == fb[k]);
    }
    assert(a.bytes().len() == 28);
    assert(fb.len() == 42);
    assert(s.subrange(14, 16) =~= crate::wire::be16(1));
    lemma_be16_read_at(s, 14, 1);
    assert(s.subrange(16, 18) =~= crate::wire::be16(ETHERTYPE_IPV4));
    lemma_be16_read_at(s, 16, ETHERTYPE_IPV4);
    assert(s[18] == 6 && s[19] == 4);
    assert(s.subrange(20, 22) =~= crate::wire::be16(a.op));
    lemma_be16_read_at(s, 20, a.op);
    assert(s.subrange(22, 28) =~= crate::packet::mac_bytes(a.sha));
    lemma_mac_read_at(s, 22, a.sha);
    assert(s.subrange(28, 32) =~= crate::wire::be32(a.spa));
    lemma_be32_read_at(s, 28, a.spa);
    assert(s.subrange(32, 38) =~= crate::packet::mac_bytes(a.tha));
    lemma_mac_read_at(s, 32, a.tha);
    assert(s.subrange(38, 42) =~= crate::wire::be32(a.tpa));
    lemma_be32_read_at(s, 38, a.tpa);
    assert(ind.payload =~= Seq::<u8>::empty());
    assert(spec_parse_frame(s) == Some(ind));
}

/// The facts a parse of the bytes `s` of the IPv4 frame `ind` reads off the
/// Ethernet and IPv4 headers.
spec fn ipv4_ctx(ind: IndicatorS, s: Seq<u8>, ip: Ipv4) -> bool {
    let total = ind.ipv4_total_len();
    &&& ind.wf()
    &&& ind.network == Network::Ipv4(ip)
    &&& s.len() >= 14 + total
    &&& spec_read_mac(s, 0) == ind.ethernet.dst
    &&& spec_read_mac(s, 6) == ind.ethernet.src
    &&& spec_read16(s, 12) == ind.ethernet.kind
    &&& s[14] == 0x45
    &&& spec_read16(s, 16) == total as u16
    &&& spec_read16(s, 18) == ip.identification
    &&& spec_read16(s, 20) == ip.flags_field()
    &&& s[23] == ip.protocol
    &&& spec_read32(s, 26) == ip.src
    &&& spec_read32(s, 30) == ip.dst
    &&& s.subrange(34, 14 + total) == ind.transport_bytes()
}

#[verifier::rlimit(100)]
proof fn lemma_parse_serialize_ipv4(ind: IndicatorS, s: Seq<u8>, ip: Ipv4)
    requires
        ind.wf(),
        ind.network == Network::Ipv4(ip),
        s.len() >= ind.frame_bytes().len(),
        s.subrange(0, ind.frame_bytes().len() as int) == ind.frame_bytes(),
        spec_read_mac(s, 0) == ind.ethernet.dst,
        spec_read_mac(s, 6) == ind.ethernet.src,
        spec_read16(s, 12) == ind.ethernet.kind,
    ensures
        spec_parse_frame(s) == Some(ind),
{
    let fb = ind.frame_bytes();
    assert forall|k: int| 0 <= k < fb.len() implies s[k] == fb[k] by {
        assert(s.subrange(0, fb.len() as int)[k] == fb[k]);
    }
    let total = ind.ipv4_total_len();
    let hck = ip.header_checksum(total as u16);
    let ih = ip.bytes(total as u16, hck);
    let tb = ind.transport_bytes();
    lemma_ipv4_bytes_fields(ip, total as u16, hck);
    lemma_transport_bytes_len(ind, ip);
    assert(fb.len() == 14 + total);
    assert(fb == ind.ethernet.bytes() + ih + tb);
    assert forall|k: int| 0 <= k < 20 implies s[14 + k] == ih[k] by {
        assert(fb[14 + k] == ih[k]);
    }
    assert(s[14] == 0x45);
    assert(s.subrange(16, 18) =~= ih.subrange(2, 4));
    lemma_be16_read_at(s, 16, total as u16);
    assert(s.subrange(18, 20) =~= ih.subrange(4, 6));
    lemma_be16_read_at(s, 18, ip.identification);
    assert(s.subrange(20, 22) =~= ih.subrange(6, 8));
    lemma_be16_read_at(s, 20, ip.flags_field());
    assert(s[23] == ip.protocol);
    assert(s.subrange(26, 30) =~= ih.subrange(12, 16));
    lemma_be32_read_at(s, 26, ip.src);
    assert(s.subrange(30, 34) =~= ih.subrange(16, 20));
    lemma_be32_read_at(s, 30, ip.dst);
    assert forall|k: int| 0 <= k < tb.len() implies s[34 + k] == tb[k] by {
        assert(fb[34 + k] == tb[k]);
    }
    assert(s.subrange(34, 14 + total) =~= tb);
    assert(ipv4_ctx(ind, s, ip));
    match ind.transport {
        TransportS::Tcp(t) => {
            lemma_parse_serialize_ipv4_tcp(ind, s, ip, t);
        },
        TransportS::Udp(u) => {
            lemma_parse_serialize_ipv4_udp(ind, s, ip, u);
        },
        TransportS::Raw => {
            lemma_parse_serialize_ipv4_raw(ind, s, ip);
        },
    }
}

proof fn lemma_transport_bytes_len(ind: IndicatorS, ip: Ipv4)
    requires
        ind.wf(),
        ind.network == Network::Ipv4(ip),
    ensures
        ind.transport_bytes().len() == ind.ipv4_total_len() - 20,
{
    match ind.transport {
        TransportS::Tcp(t) => {
            assert(t.bytes(crate::wire::spec_checksum(
                crate::packet::pseudo_header(
                    ip.src,
                    ip.dst,
                    PROTOCOL_TCP,
                    (t.header_len() + ind.payload.len()) as u16,
                ) + t.bytes(0) + ind.payload,
            )).len() == t.header_len());
        },
        TransportS::Udp(_) => {},
        TransportS::Raw => {},
    }
}

#[verifier::rlimit(100)]
proof fn lemma_parse_serialize_ipv4_tcp(ind: IndicatorS, s: Seq<u8>, ip: Ipv4, t: TcpS)
    requires
        ipv4_ctx(ind, s, ip),
        ind.transport == TransportS::Tcp(t),
    ensures
        spec_parse_frame(s) == Some(ind),
{
    let total = ind.ipv4_total_len();
    assert((ip.flags_field() / 0x2000) % 2 == 1 <==> ip.more_fragments);
    assert(ip.flags_field() % 0x2000 == ip.fragment_offset);
    let body = s.subrange(34, 14 + total);
    let tl = (t.header_len() + ind.payload.len()) as u16;
    let tck = crate::wire::spec_checksum(
        crate::packet::pseudo_header(ip.src, ip.dst, PROTOCOL_TCP, tl) + t.bytes(0) + ind.payload,
    );
    assert(body == t.bytes(tck) + ind.payload);
    lemma_parse_tcp_serialize(t, ind.payload, tck);
    assert(spec_parse_frame(s) == Some(ind));
}

#[verifier::rlimit(100)]
proof fn lemma_parse_serialize_ipv4_udp(ind: IndicatorS, s: Seq<u8>, ip: Ipv4, u: Udp)
    requires
        ipv4_ctx(ind, s, ip),
        ind.transport == TransportS::Udp(u),
    ensures
        spec_parse_frame(s) == Some(ind),
{
    let total = ind.ipv4_total_len();
    assert((ip.flags_field() / 0x2000) % 2 == 1 <==> ip.more_fragments);
    assert(ip.flags_field() % 0x2000 == ip.fragment_offset);
    let body = s.subrange(34, 14 + total);
    let ulen = (8 + ind.payload.len()) as u16;
    let uck = crate::wire::spec_checksum(
        crate::packet::pseudo_header(ip.src, ip.dst, PROTOCOL_UDP, ulen) + u.bytes(ulen, 0)
            + ind.payload,
    );
    assert(body == u.bytes(ulen, uck) + ind.payload);
    assert(u.bytes(ulen, uck).len() == 8);
    assert(body.len() == 8 + ind.payload.len());
    assert(body.subrange(0, 2) =~= crate::wire::be16(u.src));
    lemma_be16_read_at(body, 0, u.src);
    assert(body.subrange(2, 4) =~= crate::wire::be16(u.dst));
    lemma_be16_read_at(body, 2, u.dst);
    assert(body.subrange(4, 6) =~= crate::wire::be16(ulen));
    lemma_be16_read_at(body, 4, ulen);
    assert(body.skip(8) =~= ind.payload);
    assert(spec_parse_frame(s) == Some(ind));
}

#[verifier::rlimit(100)]
proof fn lemma_parse_serialize_ipv4_raw(ind: IndicatorS, s: Seq<u8>, ip: Ipv4)
    requires
        ipv4_ctx(ind, s, ip),
        ind.transport == TransportS::Raw,
    ensures
        spec_parse_frame(s) == Some(ind),
{
    let total = ind.ipv4_total_len();
    assert((ip.flags_field() / 0x2000) % 2 == 1 <==> ip.more_fragments);
    assert(ip.flags_field() % 0x2000 == ip.fragment_offset);
    let body = s.subrange(34, 14 + total);
    assert(body == ind.payload);
    assert(spec_parse_frame(s) == Some(ind));
}

/// Parsing undoes serialization, for the exact frame bytes and for the
/// padded frame alike.
pub proof fn lemma_parse_frame_roundtrip(ind: IndicatorS)
    requires
        ind.wf(),
    ensures
        spec_parse_frame(ind.frame_bytes()) == Some(ind),
        spec_parse_frame(ind.padded_bytes()) == Some(ind),
{
    assert(ind.frame_bytes().subrange(0, ind.frame_bytes().len() as int) =~= ind.frame_bytes());
    lemma_parse_serialize(ind, ind.frame_bytes());
    assert(ind.padded_bytes().subrange(0, ind.frame_bytes().len() as int) =~= ind.frame_bytes());
    lemma_parse_serialize(ind, ind.padded_bytes());
}


} // verus!
