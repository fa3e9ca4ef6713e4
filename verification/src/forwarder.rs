//! The send side of the engine: per-flow TCP transmit state, segmentation,
//! retransmission and frame construction.
//!
//! The forwarder owns every flow's sequence number, send window, options and
//! retransmission cache, builds outgoing frames layer by layer, and appends
//! them to an outbox from which the embedding program injects them onto the
//! wire. Every frame in the outbox is the exact padded serialization of its
//! indicator and is at least the minimum frame size long.

use std::collections::HashMap;

use vstd::prelude::*;

use crate::packet::{
    mac_wf, Arp, Ethernet, Indicator, Ipv4, Network, Tcp, Transport, ETHERTYPE_ARP,
    ETHERTYPE_IPV4, PROTOCOL_TCP, PROTOCOL_UDP, Udp,
};
use crate::queue::Queue;
use crate::seq_space::{seq_add, spec_seq_add, spec_seq_sub, MAX_U32_WINDOW_SIZE};
use crate::{flow_id, spec_flow_id, ProtocolError, SocketV4, ENABLE_TIMESTAMP, MINIMUM_PACKET_SIZE,
    PREFER_SEND_MSS, TIMESTAMP_RATE};

verus! {

broadcast use vstd::std_specs::hash::group_hash_axioms;

/// The largest payload one emitted TCP segment may carry, so that the
/// datagram's total length always fits its 16-bit field with the header and
/// any options.
pub const MAX_SEGMENT_PAYLOAD: usize = 65400;

/// One emitted frame: the layers it was built from and its exact bytes.
pub struct Emitted {
    /// The frame, layer by layer.
    pub indicator: Indicator,
    /// The serialized frame, padded to the minimum frame size.
    pub frame: Vec<u8>,
}

impl Emitted {
    /// The frame bytes are the padded serialization of the indicator.
    #[verifier::opaque]
    pub open spec fn wf(self) -> bool {
        &&& self.indicator@.wf()
        &&& self.frame@ == self.indicator@.padded_bytes()
        &&& self.frame@.len() >= MINIMUM_PACKET_SIZE
    }
}

/// What the well-formedness of an outbox entry gives a reader: the frame is
/// the exact padded serialization of its layers and meets the minimum frame
/// size.
pub proof fn lemma_emitted_wf(e: Emitted)
    requires
        e.wf(),
    ensures
        e.indicator@.wf(),
        e.frame@ == e.indicator@.padded_bytes(),
        e.frame@.len() >= MINIMUM_PACKET_SIZE,
{
    reveal(Emitted::wf);
}

/// The identification after one datagram: stepped by one, wrapping.
pub open spec fn spec_next_ident(cur: u16) -> u16 {
    if cur == 0xffff {
        0
    } else {
        (cur + 1) as u16
    }
}

/// The identification after `j` datagrams from `start`, wrapping.
pub open spec fn spec_ident_n(start: u16, j: int) -> u16 {
    ((start + j) % 0x10000) as u16
}

proof fn lemma_ident_step(start: u16, j: int)
    requires
        j >= 0,
    ensures
        spec_next_ident(spec_ident_n(start, j)) == spec_ident_n(start, j + 1),
{
    let a = (start + j) % 0x10000;
    assert(0 <= a < 0x10000);
    assert((start + j + 1) % 0x10000 == (a + 1) % 0x10000) by {
        assert(start + j == 0x10000 * ((start + j) / 0x10000) + a);
    }
    if a == 0xffff {
        assert((a + 1) % 0x10000 == 0);
    } else {
        assert((a + 1) % 0x10000 == a + 1);
    }
}

/// The payload of one call cut into wire segments: each chunk carries at
/// most `m` bytes and the sequence number where it starts.
pub open spec fn spec_tcp_chunks(payload: Seq<u8>, m: int, seq0: u32) -> Seq<(u32, Seq<u8>)>
    decreases payload.len(),
    when m >= 1
{
    if payload.len() == 0 {
        Seq::empty()
    } else if payload.len() <= m {
        seq![(seq0, payload)]
    } else {
        seq![(seq0, payload.take(m))] + spec_tcp_chunks(
            payload.skip(m),
            m,
            spec_seq_add(seq0, m as u32),
        )
    }
}

/// The cached bytes of one kept range: the slice of the cache's contents at
/// the range's offset from the cache's left edge.
pub open spec fn range_bytes(bytes: Seq<u8>, left: u32, r: (u32, u32)) -> Seq<u8> {
    bytes.subrange(
        spec_seq_sub(r.0, left) as int,
        spec_seq_sub(r.0, left) + spec_seq_sub(r.1, r.0),
    )
}

/// The segments of a run of kept ranges, each range cut into chunks at its
/// own starting sequence number, concatenated in order.
pub open spec fn spec_ranges_chunks(
    bytes: Seq<u8>,
    left: u32,
    rgs: Seq<(u32, u32)>,
    m: int,
) -> Seq<(u32, Seq<u8>)>
    decreases rgs.len(),
{
    if rgs.len() == 0 {
        Seq::empty()
    } else {
        spec_tcp_chunks(range_bytes(bytes, left, rgs[0]), m, rgs[0].0) + spec_ranges_chunks(
            bytes,
            left,
            rgs.drop_first(),
            m,
        )
    }
}

proof fn lemma_ranges_chunks_push(
    bytes: Seq<u8>,
    left: u32,
    rgs: Seq<(u32, u32)>,
    r: (u32, u32),
    m: int,
)
    ensures
        spec_ranges_chunks(bytes, left, rgs.push(r), m) == spec_ranges_chunks(bytes, left, rgs, m)
            + spec_tcp_chunks(range_bytes(bytes, left, r), m, r.0),
    decreases rgs.len(),
{
    if rgs.len() == 0 {
        assert(rgs.push(r).drop_first() =~= Seq::<(u32, u32)>::empty());
        assert(rgs.push(r)[0] == r);
        assert(spec_ranges_chunks(bytes, left, rgs.push(r).drop_first(), m) == Seq::<
            (u32, Seq<u8>),
        >::empty());
        assert(spec_ranges_chunks(bytes, left, rgs.push(r), m) =~= spec_ranges_chunks(
            bytes,
            left,
            rgs,
            m,
        ) + spec_tcp_chunks(range_bytes(bytes, left, r), m, r.0));
    } else {
        assert(rgs.push(r).drop_first() =~= rgs.drop_first().push(r));
        assert(rgs.push(r)[0] == rgs[0]);
        lemma_ranges_chunks_push(bytes, left, rgs.drop_first(), r, m);
        assert(spec_ranges_chunks(bytes, left, rgs.push(r), m) =~= spec_ranges_chunks(
            bytes,
            left,
            rgs,
            m,
        ) + spec_tcp_chunks(range_bytes(bytes, left, r), m, r.0));
    }
}

proof fn lemma_ident_n_add(start: u16, a: int, b: int)
    requires
        a >= 0,
        b >= 0,
    ensures
        spec_ident_n(spec_ident_n(start, a), b) == spec_ident_n(start, a + b),
{
    let x = (start + a) % 0x10000;
    assert(start + a == 0x10000 * ((start + a) / 0x10000) + x);
    assert((x + b) % 0x10000 == (start + a + b) % 0x10000) by {
        crate::seq_space::lemma_mod_shift(x + b, (start + a) / 0x10000, 0x10000);
    }
}

/// One outbox entry is the TCP segment of one chunk: an acknowledged data
/// segment toward the client carrying exactly the chunk's bytes at the
/// chunk's sequence number, under the given datagram identification.
pub open spec fn tcp_chunk_entry(
    e: Emitted,
    chunk: (u32, Seq<u8>),
    ident: u16,
    dst: SocketV4,
    src_port: u16,
    src_ip: u32,
) -> bool {
    match e.indicator@.transport {
        crate::packet::TransportS::Tcp(t) => {
            &&& t.sequence == chunk.0
            &&& e.indicator@.payload == chunk.1
            &&& t.ack && !t.syn && !t.rst && !t.fin
            &&& t.src == dst.port && t.dst == src_port
            &&& e.indicator@.network == Network::Ipv4(
                Ipv4 {
                    identification: ident,
                    more_fragments: false,
                    fragment_offset: 0,
                    protocol: PROTOCOL_TCP,
                    src: dst.ip,
                    dst: src_ip,
                },
            )
        },
        _ => false,
    }
}

/// Every chunk carries at least one byte and at most `m`.
pub proof fn lemma_chunks_bound(payload: Seq<u8>, m: int, seq0: u32)
    requires
        m >= 1,
    ensures
        forall|j: int|
            0 <= j < spec_tcp_chunks(payload, m, seq0).len() ==> {
                let c = #[trigger] spec_tcp_chunks(payload, m, seq0)[j];
                1 <= c.1.len() <= m
            },
        spec_tcp_chunks(payload, m, seq0).len() <= payload.len(),
    decreases payload.len(),
{
    if payload.len() == 0 {
    } else if payload.len() <= m {
    } else {
        lemma_chunks_bound(payload.skip(m), m, spec_seq_add(seq0, m as u32));
        assert forall|j: int|
            0 <= j < spec_tcp_chunks(payload, m, seq0).len() implies {
            let c = #[trigger] spec_tcp_chunks(payload, m, seq0)[j];
            1 <= c.1.len() <= m
        } by {
            if j > 0 {
                assert(spec_tcp_chunks(payload, m, seq0)[j] == spec_tcp_chunks(
                    payload.skip(m),
                    m,
                    spec_seq_add(seq0, m as u32),
                )[j - 1]);
            }
        }
    }
}

/// Every chunk lies inside the payload's extent: its offset from the start
/// plus its length never passes the end.
pub proof fn lemma_chunks_within(payload: Seq<u8>, m: int, seq0: u32)
    requires
        m >= 1,
        payload.len() <= crate::seq_space::MAX_U32_WINDOW_SIZE,
    ensures
        forall|j: int|
            0 <= j < spec_tcp_chunks(payload, m, seq0).len() ==> {
                let c = #[trigger] spec_tcp_chunks(payload, m, seq0)[j];
                spec_seq_sub(c.0, seq0) + c.1.len() <= payload.len()
            },
    decreases payload.len(),
{
    crate::seq_space::lemma_sub_val(seq0, seq0);
    if payload.len() == 0 {
    } else if payload.len() <= m {
    } else {
        let s1 = spec_seq_add(seq0, m as u32);
        lemma_chunks_within(payload.skip(m), m, s1);
        crate::seq_space::lemma_seq_sub_add(seq0, m as u32);
        assert forall|j: int|
            0 <= j < spec_tcp_chunks(payload, m, seq0).len() implies {
            let c = #[trigger] spec_tcp_chunks(payload, m, seq0)[j];
            spec_seq_sub(c.0, seq0) + c.1.len() <= payload.len()
        } by {
            if j > 0 {
                let c = spec_tcp_chunks(payload, m, seq0)[j];
                assert(c == spec_tcp_chunks(payload.skip(m), m, s1)[j - 1]);
                assert(spec_seq_sub(c.0, s1) + c.1.len() <= payload.len() - m);
                crate::seq_space::lemma_offset_add(seq0, s1, c.0);
                assert(spec_seq_sub(s1, seq0) == m);
            }
        }
    }
}

proof fn lemma_chunk_step(
    payload: Seq<u8>,
    m: int,
    seq0: u32,
    off: int,
    j: int,
    seg_seq: u32,
)
    requires
        m >= 1,
        0 <= off < payload.len(),
        0 <= j <= spec_tcp_chunks(payload, m, seq0).len(),
        spec_tcp_chunks(payload.skip(off), m, seg_seq) == spec_tcp_chunks(payload, m, seq0).skip(
            j,
        ),
    ensures
        ({
            let chunks = spec_tcp_chunks(payload, m, seq0);
            let cl = if m < payload.len() - off {
                m
            } else {
                payload.len() - off
            };
            &&& j < chunks.len()
            &&& chunks[j] == (seg_seq, payload.subrange(off, off + cl))
            &&& spec_tcp_chunks(payload.skip(off + cl), m, spec_seq_add(seg_seq, cl as u32))
                == chunks.skip(j + 1)
        }),
{
    let chunks = spec_tcp_chunks(payload, m, seq0);
    let rest = payload.skip(off);
    let cl = if m < payload.len() - off {
        m
    } else {
        payload.len() - off
    };
    assert(rest.len() == payload.len() - off);
    assert(chunks.skip(j).len() == chunks.len() - j);
    assert(j < chunks.len());
    assert(chunks[j] == chunks.skip(j)[0]);
    assert(chunks.skip(j + 1) =~= chunks.skip(j).skip(1));
    if rest.len() <= m {
        assert(rest =~= payload.subrange(off, off + cl));
        assert(chunks.skip(j)[0] == (seg_seq, rest));
        assert(payload.skip(off + cl) =~= Seq::<u8>::empty());
        assert(spec_tcp_chunks(
            payload.skip(off + cl),
            m,
            spec_seq_add(seg_seq, cl as u32),
        ) =~= chunks.skip(j).skip(1));
    } else {
        assert(rest.take(m) =~= payload.subrange(off, off + cl));
        assert(chunks.skip(j)[0] == (seg_seq, rest.take(m)));
        assert(payload.skip(off + cl) =~= rest.skip(m));
        assert(spec_tcp_chunks(rest, m, seg_seq).skip(1) =~= spec_tcp_chunks(
            rest.skip(m),
            m,
            spec_seq_add(seg_seq, m as u32),
        ));
    }
}

/// Appends all of `s` to `v`.
fn push_bytes_vec(v: &mut Vec<u8>, s: &[u8])
    ensures
        final(v)@ == old(v)@ + s@,
{
    let n = s.len();
    for i in 0..n
        invariant
            n == s@.len(),
            v@ == old(v)@ + s@.take(i as int),
    {
        v.push(s[i]);
        proof {
            assert(s@.take(i + 1) =~= s@.take(i as int).push(s@[i as int]));
            assert(v@ =~= old(v)@ + s@.take(i + 1));
        }
    }
    proof {
        assert(s@.take(n as int) =~= s@);
    }
}

/// Copies the bytes of `s` between `a` and `b`.
fn copy_slice(s: &[u8], a: usize, b: usize) -> (r: Vec<u8>)
    requires
        a <= b <= s@.len(),
    ensures
        r@ == s@.subrange(a as int, b as int),
{
    let mut out: Vec<u8> = Vec::new();
    for x in a..b
        invariant
            a <= x <= b <= s@.len(),
            out@ == s@.subrange(a as int, x as int),
    {
        out.push(s[x]);
        proof {
            assert(s@.subrange(a as int, x + 1) =~= s@.subrange(a as int, x as int).push(
                s@[x as int],
            ));
        }
    }
    out
}

use crate::window::spec_pow2;

/// The capacity of a flow's retransmission cache: what it was created with,
/// or what it will be created with, the highest window the scale allows.
pub open spec fn spec_cache_capacity(f: FlowSend) -> int {
    match f.cache {
        Some(c) => c.spec_capacity() as int,
        None => 0xffff * spec_pow2(if f.wscale <= 8 {
            f.wscale as int
        } else {
            8
        }),
    }
}

/// How many queued bytes one pump of a flow moves onto the wire: bounded by
/// the peer's window above what is already in flight, by one window field,
/// by the queue, and by the cache's remaining room.
pub open spec fn spec_drain_size(f: FlowSend) -> int {
    if f.send_window == 0 {
        0
    } else {
        let cached = match f.cache {
            Some(c) => c.bytes().len() as int,
            None => 0int,
        };
        let room = spec_cache_capacity(f) - cached;
        let remain = if f.send_window > cached {
            f.send_window - cached
        } else {
            0int
        };
        let remain = if remain > 0xffff {
            0xffffint
        } else {
            remain
        };
        let remain = if remain > f.queue@.len() {
            f.queue@.len() as int
        } else {
            remain
        };
        if remain > room {
            room
        } else {
            remain
        }
    }
}

/// A FIN is owed as soon as the flow is pumped: a close was requested, the
/// one-shot FIN is still unsent, and queue and cache have drained.
pub open spec fn spec_fin_due(f1: FlowSend, f2: FlowSend) -> bool {
    &&& f1.fin is Some
    &&& !f1.fin_sent
    &&& f1.queue@.len() == spec_drain_size(f1)
    &&& match f2.cache {
        Some(c) => c.bytes().len() == 0,
        None => true,
    }
}

/// One pump of a flow: the drained bytes leave the queue for the cache and
/// the wire as chunks, the sequence advances past them, and the one-shot FIN
/// follows once everything has drained. `f1` is the flow before, `f2` after;
/// the new frames stand at the end of `emitted_new`.
pub open spec fn pump_result(
    f1: FlowSend,
    f2: FlowSend,
    emitted_old: Seq<Emitted>,
    emitted_new: Seq<Emitted>,
    dst: SocketV4,
    src_port: u16,
    src_ip: u32,
    start_id: u16,
    m: int,
) -> bool {
    let ds = spec_drain_size(f1);
    let sent = f1.queue@.take(ds);
    let chunks = spec_tcp_chunks(sent, m, f1.sequence);
    let n0 = emitted_old.len() as int;
    let fin_due = spec_fin_due(f1, f2);
    &&& f2.queue@ == f1.queue@.skip(ds)
    &&& f2.sequence == spec_seq_add(f1.sequence, ds as u32)
    &&& f2.acknowledgement == f1.acknowledgement
    &&& f2.window == f1.window
    &&& f2.wscale == f1.wscale
    &&& f2.send_window == f1.send_window
    &&& f2.send_mss == f1.send_mss
    &&& f2.fin == f1.fin
    &&& f2.ts == f1.ts
    &&& f2.sacks@ == f1.sacks@
    &&& (f1.send_window > 0 ==> f2.cache is Some && f2.cache->0.bytes() == (match f1.cache {
        Some(c) => c.bytes(),
        None => Seq::<u8>::empty(),
    }) + sent && f2.cache->0.seq_left() == (match f1.cache {
        Some(c) => c.seq_left(),
        None => f1.sequence,
    }))
    &&& (f1.send_window == 0 ==> f2.cache == f1.cache && ds == 0)
    &&& emitted_new.subrange(0, n0) == emitted_old
    &&& forall|j: int|
        0 <= j < chunks.len() ==> tcp_chunk_entry(
            #[trigger] emitted_new[n0 + j],
            chunks[j],
            spec_ident_n(start_id, j),
            dst,
            src_port,
            src_ip,
        )
    &&& (fin_due ==> {
        &&& emitted_new.len() == n0 + chunks.len() + 1
        &&& f2.fin_sent
        &&& match emitted_new.last().indicator@.transport {
            crate::packet::TransportS::Tcp(t) => t.fin && t.ack && !t.syn && !t.rst
                && t.sequence == f2.sequence && emitted_new.last().indicator@.payload
                == Seq::<u8>::empty(),
            _ => false,
        }
    })
    &&& (!fin_due ==> emitted_new.len() == n0 + chunks.len() && f2.fin_sent == f1.fin_sent)
}

/// The transport payloads of a run of outbox entries, in order.
pub open spec fn frag_payloads(es: Seq<Emitted>) -> Seq<u8>
    decreases es.len(),
{
    if es.len() == 0 {
        Seq::empty()
    } else {
        frag_payloads(es.drop_last()) + es.last().indicator@.payload
    }
}

/// The send-side state of one TCP flow.
pub struct FlowSend {
    /// When a close was requested (ms), if one was: a FIN is owed once the
    /// queue and the cache drain.
    pub fin: Option<u64>,
    /// Whether the one-shot FIN has been emitted.
    pub fin_sent: bool,
    /// The peer's advertised window, already scaled.
    pub send_window: usize,
    /// The peer's maximum-segment-size option.
    pub send_mss: Option<u16>,
    /// The next sequence number to transmit.
    pub sequence: u32,
    /// The next byte expected from the peer, echoed in emitted segments.
    pub acknowledgement: u32,
    /// Our advertised receive window (not scaled).
    pub window: u16,
    /// The peer's window-scale option.
    pub wscale: u8,
    /// The selective-acknowledgement blocks we announce (at most four).
    pub sacks: Vec<(u32, u32)>,
    /// The peer's last timestamp, to echo.
    pub ts: Option<u32>,
    /// Transmitted but unacknowledged bytes.
    pub cache: Option<Queue>,
    /// Bytes accepted from the proxy side but not yet on the wire.
    pub queue: Vec<u8>,
}

/// A flow's send state is consistent: few enough announced blocks, and the
/// cache's right edge is exactly the next sequence number to transmit.
pub open spec fn flow_wf(f: FlowSend) -> bool {
    &&& f.sacks@.len() <= 4
    &&& match f.cache {
        Some(c) => c.wf() && c.right_edge() == f.sequence,
        None => true,
    }
}

/// A fresh flow: everything at its defaults.
pub open spec fn flow_default(f: FlowSend) -> bool {
    &&& f.fin is None
    &&& !f.fin_sent
    &&& f.send_window == 0
    &&& f.send_mss is None
    &&& f.sequence == 0
    &&& f.acknowledgement == 0
    &&& f.window == 0xffff
    &&& f.wscale == 0
    &&& f.sacks@ == Seq::<(u32, u32)>::empty()
    &&& f.ts is None
    &&& f.cache is None
    &&& f.queue@ == Seq::<u8>::empty()
}

/// The channel that forwards traffic back to the captured client: per-flow
/// TCP send state and the outbox of built frames.
pub struct Forwarder {
    mtu: u16,
    src_hardware_addr: u64,
    local_hardware_addr: u64,
    src_ip_addr: u32,
    local_ip_addr: u32,
    ipv4_identification: HashMap<u32, u16>,
    flows: HashMap<u64, FlowSend>,
    outbox: Vec<Emitted>,
}

impl Forwarder {
    /// The per-flow send states, by packed flow identity.
    pub closed spec fn spec_flows(self) -> Map<u64, FlowSend> {
        self.flows@
    }

    /// The per-destination datagram identification counters.
    pub closed spec fn idents(self) -> Map<u32, u16> {
        self.ipv4_identification@
    }

    /// The frames built so far, oldest first.
    pub closed spec fn emitted(self) -> Seq<Emitted> {
        self.outbox@
    }

    /// The interface's maximum transmission unit.
    pub closed spec fn spec_mtu(self) -> u16 {
        self.mtu
    }

    /// The client's hardware address, as learned.
    pub closed spec fn spec_src_hardware_addr(self) -> u64 {
        self.src_hardware_addr
    }

    /// The hardware address frames are sent from.
    pub closed spec fn spec_local_hardware_addr(self) -> u64 {
        self.local_hardware_addr
    }

    /// The client's IPv4 address.
    pub closed spec fn spec_src_ip_addr(self) -> u32 {
        self.src_ip_addr
    }

    /// The impersonated gateway's IPv4 address.
    pub closed spec fn spec_local_ip_addr(self) -> u32 {
        self.local_ip_addr
    }

    /// The identification the next datagram toward `ip` will carry.
    pub open spec fn ident_of(self, ip: u32) -> u16 {
        if self.idents().contains_key(ip) {
            self.idents()[ip]
        } else {
            0
        }
    }

    /// The whole forwarder is consistent: addresses fit their fields, every
    /// flow's state is consistent, and every frame in the outbox is the
    /// padded serialization of its layers.
    pub closed spec fn wf(self) -> bool {
        &&& mac_wf(self.src_hardware_addr)
        &&& mac_wf(self.local_hardware_addr)
        &&& self.mtu >= 128
        &&& forall|k: u64|
            self.flows@.contains_key(k) ==> flow_wf(#[trigger] self.flows@[k])
        &&& forall|i: int| 0 <= i < self.outbox@.len() ==> (#[trigger] self.outbox@[i]).wf()
    }

    /// Creates a forwarder for one captured client.
    pub fn new(mtu: u16, local_hardware_addr: u64, src_ip_addr: u32, local_ip_addr: u32) -> (f:
        Forwarder)
        requires
            mtu >= 128,
            mac_wf(local_hardware_addr),
        ensures
            f.wf(),
            f.spec_flows() == Map::<u64, FlowSend>::empty(),
            f.emitted() == Seq::<Emitted>::empty(),
            f.spec_mtu() == mtu,
            f.spec_src_hardware_addr() == 0,
            f.spec_local_hardware_addr() == local_hardware_addr,
            f.spec_src_ip_addr() == src_ip_addr,
            f.spec_local_ip_addr() == local_ip_addr,
    {
        let f = Forwarder {
            mtu,
            src_hardware_addr: 0,
            local_hardware_addr,
            src_ip_addr,
            local_ip_addr,
            ipv4_identification: HashMap::new(),
            flows: HashMap::new(),
            outbox: Vec::new(),
        };
        proof {
            assert(f.flows@ =~= Map::<u64, FlowSend>::empty());
        }
        f
    }

    /// Hands out the frames built so far and empties the outbox.
    pub fn take_outbox(&mut self) -> (r: Vec<Emitted>)
        requires
            old(self).wf(),
        ensures
            final(self).wf(),
            r@ == old(self).emitted(),
            final(self).emitted() == Seq::<Emitted>::empty(),
            final(self).spec_flows() == old(self).spec_flows(),
            final(self).idents() == old(self).idents(),
            final(self).spec_mtu() == old(self).spec_mtu(),
            final(self).spec_src_hardware_addr() == old(self).spec_src_hardware_addr(),
            final(self).spec_src_ip_addr() == old(self).spec_src_ip_addr(),
            final(self).spec_local_ip_addr() == old(self).spec_local_ip_addr(),
    {
        let mut out: Vec<Emitted> = Vec::new();
        core::mem::swap(&mut out, &mut self.outbox);
        out
    }

    /// Sets the client's hardware address, once learned from a frame.
    pub fn set_src_hardware_addr(&mut self, hardware_addr: u64)
        requires
            old(self).wf(),
            mac_wf(hardware_addr),
        ensures
            final(self).wf(),
            final(self).spec_src_hardware_addr() == hardware_addr,
            final(self).spec_flows() == old(self).spec_flows(),
            final(self).emitted() == old(self).emitted(),
            final(self).idents() == old(self).idents(),
            final(self).spec_mtu() == old(self).spec_mtu(),
            final(self).spec_local_hardware_addr() == old(self).spec_local_hardware_addr(),
            final(self).spec_src_ip_addr() == old(self).spec_src_ip_addr(),
            final(self).spec_local_ip_addr() == old(self).spec_local_ip_addr(),
    {
        self.src_hardware_addr = hardware_addr;
    }

    /// Sets the impersonated gateway's IPv4 address.
    pub fn set_local_ip_addr(&mut self, ip_addr: u32)
        requires
            old(self).wf(),
        ensures
            final(self).wf(),
            final(self).spec_local_ip_addr() == ip_addr,
            final(self).spec_flows() == old(self).spec_flows(),
            final(self).emitted() == old(self).emitted(),
            final(self).idents() == old(self).idents(),
            final(self).spec_mtu() == old(self).spec_mtu(),
            final(self).spec_src_hardware_addr() == old(self).spec_src_hardware_addr(),
            final(self).spec_local_hardware_addr() == old(self).spec_local_hardware_addr(),
            final(self).spec_src_ip_addr() == old(self).spec_src_ip_addr(),
    {
        self.local_ip_addr = ip_addr;
    }

    /// Takes the flow's state out of the table, or a fresh default state.
    fn take_flow(&mut self, id: u64) -> (f: FlowSend)
        requires
            old(self).wf(),
        ensures
            final(self).wf(),
            final(self).spec_flows() == old(self).spec_flows().remove(id),
            final(self).emitted() == old(self).emitted(),
            final(self).idents() == old(self).idents(),
            final(self).spec_mtu() == old(self).spec_mtu(),
            final(self).spec_src_hardware_addr() == old(self).spec_src_hardware_addr(),
            final(self).spec_src_ip_addr() == old(self).spec_src_ip_addr(),
            final(self).spec_local_hardware_addr() == old(self).spec_local_hardware_addr(),
            final(self).spec_local_ip_addr() == old(self).spec_local_ip_addr(),
            if old(self).spec_flows().contains_key(id) {
                f == old(self).spec_flows()[id]
            } else {
                flow_default(f)
            },
            flow_wf(f),
    {
        match self.flows.remove(&id) {
            Some(f) => f,
            None => FlowSend {
                fin: None,
                fin_sent: false,
                send_window: 0,
                send_mss: None,
                sequence: 0,
                acknowledgement: 0,
                window: 0xffff,
                wscale: 0,
                sacks: Vec::new(),
                ts: None,
                cache: None,
                queue: Vec::new(),
            },
        }
    }

    /// Puts a flow's state back into the table.
    fn put_flow(&mut self, id: u64, f: FlowSend)
        requires
            old(self).wf(),
            flow_wf(f),
        ensures
            final(self).wf(),
            final(self).spec_flows() == old(self).spec_flows().insert(id, f),
            final(self).emitted() == old(self).emitted(),
            final(self).idents() == old(self).idents(),
            final(self).spec_mtu() == old(self).spec_mtu(),
            final(self).spec_src_hardware_addr() == old(self).spec_src_hardware_addr(),
            final(self).spec_src_ip_addr() == old(self).spec_src_ip_addr(),
            final(self).spec_local_hardware_addr() == old(self).spec_local_hardware_addr(),
            final(self).spec_local_ip_addr() == old(self).spec_local_ip_addr(),
    {
        self.flows.insert(id, f);
    }

    /// Sets the peer's advertised send window (already scaled) of a flow.
    pub fn set_tcp_send_window(&mut self, dst: SocketV4, src_port: u16, window: usize)
        requires
            old(self).wf(),
        ensures
            final(self).wf(),
            final(self).emitted() == old(self).emitted(),
            final(self).spec_mtu() == old(self).spec_mtu(),
            final(self).spec_src_hardware_addr() == old(self).spec_src_hardware_addr(),
            final(self).spec_local_hardware_addr() == old(self).spec_local_hardware_addr(),
            final(self).spec_src_ip_addr() == old(self).spec_src_ip_addr(),
            final(self).spec_local_ip_addr() == old(self).spec_local_ip_addr(),
            final(self).idents() == old(self).idents(),
            ({
                let id = spec_flow_id(dst, src_port);
                &&& final(self).spec_flows().contains_key(id)
                &&& final(self).spec_flows()[id].send_window == window
                &&& final(self).spec_flows() == old(self).spec_flows().insert(
                    id,
                    final(self).spec_flows()[id],
                )
                &&& !old(self).spec_flows().contains_key(id) ==> {
                    let f = final(self).spec_flows()[id];
                    f.cache is None && f.fin is None && !f.fin_sent && f.queue@.len() == 0
                }
                &&& old(self).spec_flows().contains_key(id) ==> final(self).spec_flows()[id]
                    == (FlowSend { send_window: window, ..old(self).spec_flows()[id] })
            }),
    {
        let id = flow_id(dst, src_port);
        let mut f = self.take_flow(id);
        f.send_window = window;
        self.put_flow(id, f);
        proof {
            assert(final(self).spec_flows() =~= old(self).spec_flows().insert(
                spec_flow_id(dst, src_port),
                final(self).spec_flows()[spec_flow_id(dst, src_port)],
            ));
        }
    }

    /// Sets the peer's maximum-segment-size option of a flow.
    pub fn set_tcp_send_mss(&mut self, dst: SocketV4, src_port: u16, mss: u16)
        requires
            old(self).wf(),
        ensures
            final(self).wf(),
            final(self).emitted() == old(self).emitted(),
            final(self).spec_mtu() == old(self).spec_mtu(),
            final(self).spec_src_hardware_addr() == old(self).spec_src_hardware_addr(),
            final(self).spec_local_hardware_addr() == old(self).spec_local_hardware_addr(),
            final(self).spec_src_ip_addr() == old(self).spec_src_ip_addr(),
            final(self).spec_local_ip_addr() == old(self).spec_local_ip_addr(),
            final(self).idents() == old(self).idents(),
            ({
                let id = spec_flow_id(dst, src_port);
                &&& final(self).spec_flows().contains_key(id)
                &&& final(self).spec_flows()[id].send_mss == Some(mss)
                &&& final(self).spec_flows() == old(self).spec_flows().insert(
                    id,
                    final(self).spec_flows()[id],
                )
                &&& !old(self).spec_flows().contains_key(id) ==> {
                    let f = final(self).spec_flows()[id];
                    f.cache is None && f.fin is None && !f.fin_sent && f.queue@.len() == 0
                        && f.send_window == 0
                }
                &&& old(self).spec_flows().contains_key(id) ==> final(self).spec_flows()[id]
                    == (FlowSend { send_mss: Some(mss), ..old(self).spec_flows()[id] })
            }),
    {
        let id = flow_id(dst, src_port);
        let mut f = self.take_flow(id);
        f.send_mss = Some(mss);
        self.put_flow(id, f);
        proof {
            assert(final(self).spec_flows() =~= old(self).spec_flows().insert(
                spec_flow_id(dst, src_port),
                final(self).spec_flows()[spec_flow_id(dst, src_port)],
            ));
        }
    }

    /// Sets the next sequence number of a flow. Only meaningful before any
    /// byte is cached: the flow, if it exists, must have no cache yet.
    pub fn set_tcp_sequence(&mut self, dst: SocketV4, src_port: u16, sequence: u32)
        requires
            old(self).wf(),
            old(self).spec_flows().contains_key(spec_flow_id(dst, src_port)) ==> old(
                self,
            ).spec_flows()[spec_flow_id(dst, src_port)].cache is None,
        ensures
            final(self).wf(),
            final(self).emitted() == old(self).emitted(),
            final(self).spec_mtu() == old(self).spec_mtu(),
            final(self).spec_src_hardware_addr() == old(self).spec_src_hardware_addr(),
            final(self).spec_local_hardware_addr() == old(self).spec_local_hardware_addr(),
            final(self).spec_src_ip_addr() == old(self).spec_src_ip_addr(),
            final(self).spec_local_ip_addr() == old(self).spec_local_ip_addr(),
            final(self).idents() == old(self).idents(),
            ({
                let id = spec_flow_id(dst, src_port);
                &&& final(self).spec_flows().contains_key(id)
                &&& final(self).spec_flows()[id].sequence == sequence
                &&& final(self).spec_flows() == old(self).spec_flows().insert(
                    id,
                    final(self).spec_flows()[id],
                )
                &&& !old(self).spec_flows().contains_key(id) ==> {
                    let f = final(self).spec_flows()[id];
                    f.cache is None && f.fin is None && !f.fin_sent && f.queue@.len() == 0
                        && f.send_window == 0
                }
                &&& old(self).spec_flows().contains_key(id) ==> final(self).spec_flows()[id]
                    == (FlowSend { sequence, ..old(self).spec_flows()[id] })
            }),
    {
        let id = flow_id(dst, src_port);
        let mut f = self.take_flow(id);
        f.sequence = sequence;
        self.put_flow(id, f);
        proof {
            assert(final(self).spec_flows() =~= old(self).spec_flows().insert(
                spec_flow_id(dst, src_port),
                final(self).spec_flows()[spec_flow_id(dst, src_port)],
            ));
        }
    }

    /// Sets the acknowledgement a flow echoes: the next byte expected from
    /// the peer.
    pub fn set_tcp_acknowledgement(&mut self, dst: SocketV4, src_port: u16, sequence: u32)
        requires
            old(self).wf(),
        ensures
            final(self).wf(),
            final(self).emitted() == old(self).emitted(),
            final(self).spec_mtu() == old(self).spec_mtu(),
            final(self).spec_src_hardware_addr() == old(self).spec_src_hardware_addr(),
            final(self).spec_local_hardware_addr() == old(self).spec_local_hardware_addr(),
            final(self).spec_src_ip_addr() == old(self).spec_src_ip_addr(),
            final(self).spec_local_ip_addr() == old(self).spec_local_ip_addr(),
            final(self).idents() == old(self).idents(),
            ({
                let id = spec_flow_id(dst, src_port);
                &&& final(self).spec_flows().contains_key(id)
                &&& final(self).spec_flows()[id].acknowledgement == sequence
                &&& final(self).spec_flows() == old(self).spec_flows().insert(
                    id,
                    final(self).spec_flows()[id],
                )
                &&& !old(self).spec_flows().contains_key(id) ==> {
                    let f = final(self).spec_flows()[id];
                    f.cache is None && f.fin is None && !f.fin_sent && f.queue@.len() == 0
                        && f.send_window == 0
                }
                &&& old(self).spec_flows().contains_key(id) ==> final(self).spec_flows()[id]
                    == (FlowSend { acknowledgement: sequence, ..old(self).spec_flows()[id] })
            }),
    {
        let id = flow_id(dst, src_port);
        let mut f = self.take_flow(id);
        f.acknowledgement = sequence;
        self.put_flow(id, f);
        proof {
            assert(final(self).spec_flows() =~= old(self).spec_flows().insert(
                spec_flow_id(dst, src_port),
                final(self).spec_flows()[spec_flow_id(dst, src_port)],
            ));
        }
    }

    /// Advances the acknowledgement a flow echoes by `n`, wrapping.
    pub fn add_tcp_acknowledgement(&mut self, dst: SocketV4, src_port: u16, n: u32)
        requires
            old(self).wf(),
        ensures
            final(self).wf(),
            final(self).emitted() == old(self).emitted(),
            final(self).spec_mtu() == old(self).spec_mtu(),
            final(self).spec_src_hardware_addr() == old(self).spec_src_hardware_addr(),
            final(self).spec_local_hardware_addr() == old(self).spec_local_hardware_addr(),
            final(self).spec_src_ip_addr() == old(self).spec_src_ip_addr(),
            final(self).spec_local_ip_addr() == old(self).spec_local_ip_addr(),
            final(self).idents() == old(self).idents(),
            ({
                let id = spec_flow_id(dst, src_port);
                let prev = if old(self).spec_flows().contains_key(id) {
                    old(self).spec_flows()[id].acknowledgement
                } else {
                    0
                };
                &&& final(self).spec_flows().contains_key(id)
                &&& final(self).spec_flows()[id].acknowledgement == spec_seq_add(prev, n)
                &&& final(self).spec_flows() == old(self).spec_flows().insert(
                    id,
                    final(self).spec_flows()[id],
                )
                &&& !old(self).spec_flows().contains_key(id) ==> {
                    let f = final(self).spec_flows()[id];
                    f.cache is None && f.fin is None && !f.fin_sent && f.queue@.len() == 0
                        && f.send_window == 0
                }
                &&& old(self).spec_flows().contains_key(id) ==> final(self).spec_flows()[id]
                    == (FlowSend {
                    acknowledgement: spec_seq_add(prev, n),
                    ..old(self).spec_flows()[id]
                })
            }),
    {
        let id = flow_id(dst, src_port);
        let mut f = self.take_flow(id);
        f.acknowledgement = seq_add(f.acknowledgement, n);
        self.put_flow(id, f);
        proof {
            assert(final(self).spec_flows() =~= old(self).spec_flows().insert(
                spec_flow_id(dst, src_port),
                final(self).spec_flows()[spec_flow_id(dst, src_port)],
            ));
        }
    }

    /// Sets the receive window a flow advertises (not scaled).
    pub fn set_tcp_window(&mut self, dst: SocketV4, src_port: u16, window: u16)
        requires
            old(self).wf(),
        ensures
            final(self).wf(),
            final(self).emitted() == old(self).emitted(),
            final(self).spec_mtu() == old(self).spec_mtu(),
            final(self).spec_src_hardware_addr() == old(self).spec_src_hardware_addr(),
            final(self).spec_local_hardware_addr() == old(self).spec_local_hardware_addr(),
            final(self).spec_src_ip_addr() == old(self).spec_src_ip_addr(),
            final(self).spec_local_ip_addr() == old(self).spec_local_ip_addr(),
            final(self).idents() == old(self).idents(),
            ({
                let id = spec_flow_id(dst, src_port);
                &&& final(self).spec_flows().contains_key(id)
                &&& final(self).spec_flows()[id].window == window
                &&& final(self).spec_flows() == old(self).spec_flows().insert(
                    id,
                    final(self).spec_flows()[id],
                )
                &&& !old(self).spec_flows().contains_key(id) ==> {
                    let f = final(self).spec_flows()[id];
                    f.cache is None && f.fin is None && !f.fin_sent && f.queue@.len() == 0
                        && f.send_window == 0 && f.acknowledgement == 0 && f.sequence == 0
                }
                &&& old(self).spec_flows().contains_key(id) ==> final(self).spec_flows()[id]
                    == (FlowSend { window, ..old(self).spec_flows()[id] })
            }),
    {
        let id = flow_id(dst, src_port);
        let mut f = self.take_flow(id);
        f.window = window;
        self.put_flow(id, f);
        proof {
            assert(final(self).spec_flows() =~= old(self).spec_flows().insert(
                spec_flow_id(dst, src_port),
                final(self).spec_flows()[spec_flow_id(dst, src_port)],
            ));
        }
    }

    /// Sets the peer's window scale of a flow.
    pub fn set_tcp_wscale(&mut self, dst: SocketV4, src_port: u16, wscale: u8)
        requires
            old(self).wf(),
        ensures
            final(self).wf(),
            final(self).emitted() == old(self).emitted(),
            final(self).spec_mtu() == old(self).spec_mtu(),
            final(self).spec_src_hardware_addr() == old(self).spec_src_hardware_addr(),
            final(self).spec_local_hardware_addr() == old(self).spec_local_hardware_addr(),
            final(self).spec_src_ip_addr() == old(self).spec_src_ip_addr(),
            final(self).spec_local_ip_addr() == old(self).spec_local_ip_addr(),
            final(self).idents() == old(self).idents(),
            ({
                let id = spec_flow_id(dst, src_port);
                &&& final(self).spec_flows().contains_key(id)
                &&& final(self).spec_flows()[id].wscale == wscale
                &&& final(self).spec_flows() == old(self).spec_flows().insert(
                    id,
                    final(self).spec_flows()[id],
                )
                &&& !old(self).spec_flows().contains_key(id) ==> {
                    let f = final(self).spec_flows()[id];
                    f.cache is None && f.fin is None && !f.fin_sent && f.queue@.len() == 0
                        && f.send_window == 0
                }
                &&& old(self).spec_flows().contains_key(id) ==> final(self).spec_flows()[id]
                    == (FlowSend { wscale, ..old(self).spec_flows()[id] })
            }),
    {
        let id = flow_id(dst, src_port);
        let mut f = self.take_flow(id);
        f.wscale = wscale;
        self.put_flow(id, f);
        proof {
            assert(final(self).spec_flows() =~= old(self).spec_flows().insert(
                spec_flow_id(dst, src_port),
                final(self).spec_flows()[spec_flow_id(dst, src_port)],
            ));
        }
    }

    /// Sets the selective-acknowledgement blocks a flow announces: at most
    /// the first four of `sacks`; an empty list clears them.
    pub fn set_tcp_sacks(&mut self, dst: SocketV4, src_port: u16, sacks: &Vec<(u32, u32)>)
        requires
            old(self).wf(),
        ensures
            final(self).wf(),
            final(self).emitted() == old(self).emitted(),
            final(self).spec_mtu() == old(self).spec_mtu(),
            final(self).spec_src_hardware_addr() == old(self).spec_src_hardware_addr(),
            final(self).spec_local_hardware_addr() == old(self).spec_local_hardware_addr(),
            final(self).spec_src_ip_addr() == old(self).spec_src_ip_addr(),
            final(self).spec_local_ip_addr() == old(self).spec_local_ip_addr(),
            final(self).idents() == old(self).idents(),
            ({
                let id = spec_flow_id(dst, src_port);
                let kept = if sacks@.len() <= 4 {
                    sacks@
                } else {
                    sacks@.take(4)
                };
                &&& final(self).spec_flows().contains_key(id)
                &&& final(self).spec_flows()[id].sacks@ == kept
                &&& final(self).spec_flows() == old(self).spec_flows().insert(
                    id,
                    final(self).spec_flows()[id],
                )
                &&& old(self).spec_flows().contains_key(id) ==> final(self).spec_flows()[id]
                    == (FlowSend {
                    sacks: final(self).spec_flows()[id].sacks,
                    ..old(self).spec_flows()[id]
                })
            }),
    {
        let id = flow_id(dst, src_port);
        let mut f = self.take_flow(id);
        let size = if sacks.len() < 4 {
            sacks.len()
        } else {
            4
        };
        let mut kept: Vec<(u32, u32)> = Vec::new();
        for i in 0..size
            invariant
                size <= sacks@.len(),
                size <= 4,
                kept@ == sacks@.take(i as int),
        {
            kept.push(sacks[i]);
            proof {
                assert(sacks@.take(i + 1) =~= sacks@.take(i as int).push(sacks@[i as int]));
            }
        }
        proof {
            if sacks@.len() <= 4 {
                assert(sacks@.take(size as int) =~= sacks@);
            }
        }
        f.sacks = kept;
        self.put_flow(id, f);
        proof {
            assert(final(self).spec_flows() =~= old(self).spec_flows().insert(
                spec_flow_id(dst, src_port),
                final(self).spec_flows()[spec_flow_id(dst, src_port)],
            ));
        }
    }

    /// Sets the peer timestamp a flow echoes.
    pub fn set_tcp_ts(&mut self, dst: SocketV4, src_port: u16, ts: u32)
        requires
            old(self).wf(),
        ensures
            final(self).wf(),
            final(self).emitted() == old(self).emitted(),
            final(self).spec_mtu() == old(self).spec_mtu(),
            final(self).spec_src_hardware_addr() == old(self).spec_src_hardware_addr(),
            final(self).spec_local_hardware_addr() == old(self).spec_local_hardware_addr(),
            final(self).spec_src_ip_addr() == old(self).spec_src_ip_addr(),
            final(self).spec_local_ip_addr() == old(self).spec_local_ip_addr(),
            final(self).idents() == old(self).idents(),
            ({
                let id = spec_flow_id(dst, src_port);
                &&& final(self).spec_flows().contains_key(id)
                &&& final(self).spec_flows()[id].ts == Some(ts)
                &&& final(self).spec_flows() == old(self).spec_flows().insert(
                    id,
                    final(self).spec_flows()[id],
                )
                &&& !old(self).spec_flows().contains_key(id) ==> {
                    let f = final(self).spec_flows()[id];
                    f.cache is None && f.fin is None && !f.fin_sent && f.queue@.len() == 0
                        && f.send_window == 0
                }
                &&& old(self).spec_flows().contains_key(id) ==> final(self).spec_flows()[id]
                    == (FlowSend { ts: Some(ts), ..old(self).spec_flows()[id] })
            }),
    {
        let id = flow_id(dst, src_port);
        let mut f = self.take_flow(id);
        f.ts = Some(ts);
        self.put_flow(id, f);
        proof {
            assert(final(self).spec_flows() =~= old(self).spec_flows().insert(
                spec_flow_id(dst, src_port),
                final(self).spec_flows()[spec_flow_id(dst, src_port)],
            ));
        }
    }

    /// The timestamp option an emitted segment carries: the clock reading
    /// and the peer's timestamp to echo, when the timestamp option is
    /// enabled and a peer timestamp is known.
    fn generate_ts(&self, dst: SocketV4, src_port: u16, now_ms: u64) -> (r: Option<(u32, u32)>)
        requires
            self.wf(),
        ensures
            !ENABLE_TIMESTAMP ==> r is None,
    {
        if ENABLE_TIMESTAMP {
            let id = flow_id(dst, src_port);
            match self.flows.get(&id) {
                Some(f) => match f.ts {
                    Some(ts) => Some(((now_ms / TIMESTAMP_RATE) as u32, ts)),
                    None => None,
                },
                None => None,
            }
        } else {
            None
        }
    }

    /// Advances a flow's cache past every byte the peer acknowledgement
    /// covers. A missing flow or cache is left alone.
    pub fn invalidate_cache_to(&mut self, dst: SocketV4, src_port: u16, sequence: u32)
        requires
            old(self).wf(),
        ensures
            final(self).wf(),
            final(self).emitted() == old(self).emitted(),
            final(self).spec_mtu() == old(self).spec_mtu(),
            final(self).spec_src_hardware_addr() == old(self).spec_src_hardware_addr(),
            final(self).spec_local_hardware_addr() == old(self).spec_local_hardware_addr(),
            final(self).spec_src_ip_addr() == old(self).spec_src_ip_addr(),
            final(self).spec_local_ip_addr() == old(self).spec_local_ip_addr(),
            final(self).idents() == old(self).idents(),
            ({
                let id = spec_flow_id(dst, src_port);
                if old(self).spec_flows().contains_key(id) && old(
                    self,
                ).spec_flows()[id].cache is Some {
                    {
                        let old_f = old(self).spec_flows()[id];
                        &&& final(self).spec_flows().contains_key(id)
                        &&& final(self).spec_flows()[id].cache is Some
                        &&& crate::queue::invalidated_to(
                            old_f.cache->0,
                            sequence,
                            final(self).spec_flows()[id].cache->0,
                        )
                        &&& final(self).spec_flows()[id] == (FlowSend {
                            cache: final(self).spec_flows()[id].cache,
                            ..old_f
                        })
                        &&& final(self).spec_flows() == old(self).spec_flows().insert(
                            id,
                            final(self).spec_flows()[id],
                        )
                    }
                } else {
                    final(self).spec_flows() == old(self).spec_flows()
                }
            }),
    {
        let id = flow_id(dst, src_port);
        if !self.flows.contains_key(&id) {
            return ;
        }
        let mut f = self.take_flow(id);
        match &mut f.cache {
            Some(c) => {
                c.invalidate_to(sequence);
            },
            None => {},
        }
        self.put_flow(id, f);
        proof {
            if old(self).spec_flows().contains_key(spec_flow_id(dst, src_port)) && old(
                self,
            ).spec_flows()[spec_flow_id(dst, src_port)].cache is Some {
                assert(final(self).spec_flows() =~= old(self).spec_flows().insert(
                    spec_flow_id(dst, src_port),
                    final(self).spec_flows()[spec_flow_id(dst, src_port)],
                ));
            } else {
                assert(final(self).spec_flows() =~= old(self).spec_flows());
            }
        }
    }

    /// Forgets every piece of send-side state of a flow. The identification
    /// counters are untouched.
    pub fn remove(&mut self, dst: SocketV4, src_port: u16)
        requires
            old(self).wf(),
        ensures
            final(self).wf(),
            final(self).emitted() == old(self).emitted(),
            final(self).idents() == old(self).idents(),
            final(self).spec_flows() == old(self).spec_flows().remove(spec_flow_id(dst, src_port)),
            final(self).spec_mtu() == old(self).spec_mtu(),
            final(self).spec_src_hardware_addr() == old(self).spec_src_hardware_addr(),
            final(self).spec_local_hardware_addr() == old(self).spec_local_hardware_addr(),
            final(self).spec_src_ip_addr() == old(self).spec_src_ip_addr(),
            final(self).spec_local_ip_addr() == old(self).spec_local_ip_addr(),
    {
        let id = flow_id(dst, src_port);
        self.flows.remove(&id);
    }

    /// The bytes a flow still owes the peer: cached unacknowledged bytes
    /// plus queued bytes not yet on the wire.
    pub fn get_cache_size(&self, dst: SocketV4, src_port: u16) -> (n: usize)
        requires
            self.wf(),
        ensures
            ({
                let id = spec_flow_id(dst, src_port);
                if self.spec_flows().contains_key(id) {
                    {
                        let f = self.spec_flows()[id];
                        let total = (match f.cache {
                            Some(c) => c.bytes().len() as int,
                            None => 0int,
                        }) + f.queue@.len();
                        n == if total <= usize::MAX {
                            total
                        } else {
                            usize::MAX as int
                        }
                    }
                } else {
                    n == 0
                }
            }),
    {
        let id = flow_id(dst, src_port);
        match self.flows.get(&id) {
            Some(f) => {
                let cached = match &f.cache {
                    Some(c) => c.len(),
                    None => 0,
                };
                if cached <= usize::MAX - f.queue.len() {
                    cached + f.queue.len()
                } else {
                    usize::MAX
                }
            },
            None => 0,
        }
    }

    /// Steps the identification counter of datagrams toward `ip`.
    fn increase_ipv4_identification(&mut self, ip: u32)
        requires
            old(self).wf(),
        ensures
            final(self).wf(),
            final(self).idents() == old(self).idents().insert(
                ip,
                crate::forwarder::spec_next_ident(old(self).ident_of(ip)),
            ),
            final(self).emitted() == old(self).emitted(),
            final(self).spec_flows() == old(self).spec_flows(),
            final(self).spec_mtu() == old(self).spec_mtu(),
            final(self).spec_src_hardware_addr() == old(self).spec_src_hardware_addr(),
            final(self).spec_local_hardware_addr() == old(self).spec_local_hardware_addr(),
            final(self).spec_src_ip_addr() == old(self).spec_src_ip_addr(),
            final(self).spec_local_ip_addr() == old(self).spec_local_ip_addr(),
    {
        let cur = match self.ipv4_identification.get(&ip) {
            Some(v) => *v,
            None => 0,
        };
        let next = if cur == 0xffff {
            0
        } else {
            cur + 1
        };
        self.ipv4_identification.insert(ip, next);
    }

    /// The current identification for datagrams toward `ip`.
    fn current_identification(&self, ip: u32) -> (r: u16)
        ensures
            r == self.ident_of(ip),
    {
        match self.ipv4_identification.get(&ip) {
            Some(v) => *v,
            None => 0,
        }
    }

    /// Serializes one frame and appends it to the outbox.
    fn push_frame(&mut self, indicator: Indicator)
        requires
            old(self).wf(),
            indicator@.wf(),
        ensures
            final(self).wf(),
            final(self).emitted().len() == old(self).emitted().len() + 1,
            final(self).emitted() == old(self).emitted().push(
                final(self).emitted().last(),
            ),
            final(self).emitted().last().indicator@ == indicator@,
            final(self).emitted().last().wf(),
            final(self).spec_flows() == old(self).spec_flows(),
            final(self).idents() == old(self).idents(),
            final(self).spec_mtu() == old(self).spec_mtu(),
            final(self).spec_src_hardware_addr() == old(self).spec_src_hardware_addr(),
            final(self).spec_local_hardware_addr() == old(self).spec_local_hardware_addr(),
            final(self).spec_src_ip_addr() == old(self).spec_src_ip_addr(),
            final(self).spec_local_ip_addr() == old(self).spec_local_ip_addr(),
    {
        let frame = indicator.emit();
        self.outbox.push(Emitted { indicator, frame });
        proof {
            reveal(Emitted::wf);
            assert(final(self).emitted() =~= old(self).emitted().push(
                final(self).emitted().last(),
            ));
        }
    }

    /// Builds and emits one TCP segment toward the client, stepping the
    /// destination's identification counter.
    fn emit_tcp(&mut self, dst: SocketV4, src_port: u16, tcp: Tcp, payload: Vec<u8>)
        requires
            old(self).wf(),
            tcp@.wf(),
            20 + tcp@.header_len() + payload@.len() <= 0xffff,
        ensures
            final(self).wf(),
            final(self).emitted().len() == old(self).emitted().len() + 1,
            final(self).emitted() == old(self).emitted().push(final(self).emitted().last()),
            ({
                let e = final(self).emitted().last();
                &&& e.indicator@.transport == crate::packet::TransportS::Tcp(tcp@)
                &&& e.indicator@.payload == payload@
                &&& e.indicator@.network == Network::Ipv4(
                    Ipv4 {
                        identification: old(self).ident_of(dst.ip),
                        more_fragments: false,
                        fragment_offset: 0,
                        protocol: PROTOCOL_TCP,
                        src: dst.ip,
                        dst: old(self).spec_src_ip_addr(),
                    },
                )
                &&& e.indicator@.ethernet == Ethernet {
                    dst: old(self).spec_src_hardware_addr(),
                    src: old(self).spec_local_hardware_addr(),
                    kind: ETHERTYPE_IPV4,
                }
            }),
            final(self).idents() == old(self).idents().insert(
                dst.ip,
                spec_next_ident(old(self).ident_of(dst.ip)),
            ),
            final(self).spec_flows() == old(self).spec_flows(),
            final(self).spec_mtu() == old(self).spec_mtu(),
            final(self).spec_src_hardware_addr() == old(self).spec_src_hardware_addr(),
            final(self).spec_local_hardware_addr() == old(self).spec_local_hardware_addr(),
            final(self).spec_src_ip_addr() == old(self).spec_src_ip_addr(),
            final(self).spec_local_ip_addr() == old(self).spec_local_ip_addr(),
    {
        let ip = Ipv4 {
            identification: self.current_identification(dst.ip),
            more_fragments: false,
            fragment_offset: 0,
            protocol: PROTOCOL_TCP,
            src: dst.ip,
            dst: self.src_ip_addr,
        };
        let ethernet = Ethernet {
            dst: self.src_hardware_addr,
            src: self.local_hardware_addr,
            kind: ETHERTYPE_IPV4,
        };
        let indicator = Indicator {
            ethernet,
            network: Network::Ipv4(ip),
            transport: Transport::Tcp(tcp),
            payload,
        };
        self.push_frame(indicator);
        self.increase_ipv4_identification(dst.ip);
    }

    /// The send-side fields of a flow that every emitted segment echoes:
    /// sequence, acknowledgement, window and announced blocks, at their
    /// defaults when the flow is unknown.
    fn flow_echo(&self, dst: SocketV4, src_port: u16) -> (r: (u32, u32, u16, Vec<(u32, u32)>))
        requires
            self.wf(),
        ensures
            r.3@.len() <= 4,
            ({
                let id = spec_flow_id(dst, src_port);
                if self.spec_flows().contains_key(id) {
                    {
                        let f = self.spec_flows()[id];
                        r.0 == f.sequence && r.1 == f.acknowledgement && r.2 == f.window && r.3@
                            == f.sacks@
                    }
                } else {
                    r.0 == 0 && r.1 == 0 && r.2 == 0xffff && r.3@ == Seq::<(u32, u32)>::empty()
                }
            }),
    {
        let id = flow_id(dst, src_port);
        match self.flows.get(&id) {
            Some(f) => {
                let mut sacks: Vec<(u32, u32)> = Vec::new();
                let n = f.sacks.len();
                for i in 0..n
                    invariant
                        n == f.sacks@.len(),
                        sacks@ == f.sacks@.take(i as int),
                {
                    sacks.push(f.sacks[i]);
                    proof {
                        assert(f.sacks@.take(i + 1) =~= f.sacks@.take(i as int).push(
                            f.sacks@[i as int],
                        ));
                    }
                }
                proof {
                    assert(f.sacks@.take(n as int) =~= f.sacks@);
                    assert(flow_wf(self.spec_flows()[spec_flow_id(dst, src_port)]));
                }
                (f.sequence, f.acknowledgement, f.window, sacks)
            },
            None => (0, 0, 0xffff, Vec::new()),
        }
    }

    /// Emits an ARP reply claiming the impersonated gateway's address,
    /// toward the learned client hardware address.
    pub fn send_arp_reply(&mut self) -> (r: Result<(), ProtocolError>)
        requires
            old(self).wf(),
        ensures
            final(self).wf(),
            r is Ok,
            final(self).spec_mtu() == old(self).spec_mtu(),
            final(self).spec_src_hardware_addr() == old(self).spec_src_hardware_addr(),
            final(self).spec_local_hardware_addr() == old(self).spec_local_hardware_addr(),
            final(self).spec_src_ip_addr() == old(self).spec_src_ip_addr(),
            final(self).spec_local_ip_addr() == old(self).spec_local_ip_addr(),
            final(self).emitted().len() == old(self).emitted().len() + 1,
            final(self).emitted() == old(self).emitted().push(final(self).emitted().last()),
            ({
                let e = final(self).emitted().last();
                &&& e.indicator@.network == Network::Arp(
                    Arp {
                        op: crate::packet::ARP_OP_REPLY,
                        sha: old(self).spec_local_hardware_addr(),
                        spa: old(self).spec_local_ip_addr(),
                        tha: old(self).spec_src_hardware_addr(),
                        tpa: old(self).spec_src_ip_addr(),
                    },
                )
                &&& e.indicator@.ethernet == Ethernet {
                    dst: old(self).spec_src_hardware_addr(),
                    src: old(self).spec_local_hardware_addr(),
                    kind: ETHERTYPE_ARP,
                }
            }),
            final(self).spec_flows() == old(self).spec_flows(),
            final(self).idents() == old(self).idents(),
            final(self).spec_src_hardware_addr() == old(self).spec_src_hardware_addr(),
    {
        let arp = Arp::new_reply(
            self.local_hardware_addr,
            self.local_ip_addr,
            self.src_hardware_addr,
            self.src_ip_addr,
        );
        let ethernet = Ethernet {
            dst: self.src_hardware_addr,
            src: self.local_hardware_addr,
            kind: ETHERTYPE_ARP,
        };
        let indicator = Indicator {
            ethernet,
            network: Network::Arp(arp),
            transport: Transport::Raw,
            payload: Vec::new(),
        };
        proof {
            assert(indicator@.payload =~= Seq::<u8>::empty());
        }
        self.push_frame(indicator);
        Ok(())
    }

    /// Emits a bare acknowledgement: no payload, current sequence,
    /// acknowledgement, window and announced blocks.
    pub fn send_tcp_ack_0(&mut self, dst: SocketV4, src_port: u16, now_ms: u64) -> (r: Result<
        (),
        ProtocolError,
    >)
        requires
            old(self).wf(),
        ensures
            final(self).wf(),
            r is Ok,
            final(self).spec_mtu() == old(self).spec_mtu(),
            final(self).spec_src_hardware_addr() == old(self).spec_src_hardware_addr(),
            final(self).spec_local_hardware_addr() == old(self).spec_local_hardware_addr(),
            final(self).spec_src_ip_addr() == old(self).spec_src_ip_addr(),
            final(self).spec_local_ip_addr() == old(self).spec_local_ip_addr(),
            final(self).spec_flows() == old(self).spec_flows(),
            final(self).idents() == old(self).idents().insert(
                dst.ip,
                spec_next_ident(old(self).ident_of(dst.ip)),
            ),
            final(self).emitted().len() == old(self).emitted().len() + 1,
            final(self).emitted() == old(self).emitted().push(final(self).emitted().last()),
            ({
                let e = final(self).emitted().last();
                let id = spec_flow_id(dst, src_port);
                let f = old(self).spec_flows()[id];
                let known = old(self).spec_flows().contains_key(id);
                match e.indicator@.transport {
                    crate::packet::TransportS::Tcp(t) => {
                        &&& t.sequence == if known {
                            f.sequence
                        } else {
                            0
                        }
                        &&& t.acknowledgement == if known {
                            f.acknowledgement
                        } else {
                            0
                        }
                        &&& t.window == if known {
                            f.window
                        } else {
                            0xffff
                        }
                        &&& t.sacks == if known {
                            f.sacks@
                        } else {
                            Seq::<(u32, u32)>::empty()
                        }
                        &&& t.ack && !t.syn && !t.rst && !t.fin
                        &&& t.src == dst.port && t.dst == src_port
                        &&& e.indicator@.payload == Seq::<u8>::empty()
                    },
                    _ => false,
                }
            }),
    {
        let (sequence, acknowledgement, window, sacks) = self.flow_echo(dst, src_port);
        let ts = self.generate_ts(dst, src_port, now_ms);
        let tcp = Tcp {
            src: dst.port,
            dst: src_port,
            sequence,
            acknowledgement,
            syn: false,
            ack: true,
            rst: false,
            fin: false,
            psh: false,
            window,
            mss: None,
            wscale: None,
            sack_perm: false,
            sacks,
            ts,
        };
        proof {
            crate::packet::lemma_sack_blocks_len(tcp@.sacks);
        }
        self.emit_tcp(dst, src_port, tcp, Vec::new());
        Ok(())
    }

    /// Emits the SYN+ACK of the handshake with our options, then steps the
    /// flow's sequence past the phantom SYN byte. The flow must not have
    /// cached bytes yet.
    pub fn send_tcp_ack_syn(
        &mut self,
        dst: SocketV4,
        src_port: u16,
        mss: Option<u16>,
        wscale: Option<u8>,
        sack_perm: bool,
        now_ms: u64,
    ) -> (r: Result<(), ProtocolError>)
        requires
            old(self).wf(),
            old(self).spec_flows().contains_key(spec_flow_id(dst, src_port)) ==> old(
                self,
            ).spec_flows()[spec_flow_id(dst, src_port)].cache is None,
        ensures
            final(self).wf(),
            r is Ok,
            final(self).spec_mtu() == old(self).spec_mtu(),
            final(self).spec_src_hardware_addr() == old(self).spec_src_hardware_addr(),
            final(self).spec_local_hardware_addr() == old(self).spec_local_hardware_addr(),
            final(self).spec_src_ip_addr() == old(self).spec_src_ip_addr(),
            final(self).spec_local_ip_addr() == old(self).spec_local_ip_addr(),
            final(self).emitted().len() == old(self).emitted().len() + 1,
            final(self).idents() == old(self).idents().insert(
                dst.ip,
                spec_next_ident(old(self).ident_of(dst.ip)),
            ),
            final(self).emitted() == old(self).emitted().push(final(self).emitted().last()),
            ({
                let e = final(self).emitted().last();
                let id = spec_flow_id(dst, src_port);
                let f = old(self).spec_flows()[id];
                let known = old(self).spec_flows().contains_key(id);
                match e.indicator@.transport {
                    crate::packet::TransportS::Tcp(t) => {
                        &&& t.sequence == if known {
                            f.sequence
                        } else {
                            0
                        }
                        &&& t.acknowledgement == if known {
                            f.acknowledgement
                        } else {
                            0
                        }
                        &&& t.window == if known {
                            f.window
                        } else {
                            0xffff
                        }
                        &&& t.syn && t.ack && !t.rst && !t.fin
                        &&& t.mss == mss && t.wscale == wscale && t.sack_perm == sack_perm
                        &&& t.sacks == Seq::<(u32, u32)>::empty()
                        &&& t.src == dst.port && t.dst == src_port
                        &&& e.indicator@.payload == Seq::<u8>::empty()
                    },
                    _ => false,
                }
            }),
            ({
                let id = spec_flow_id(dst, src_port);
                let prev = if old(self).spec_flows().contains_key(id) {
                    old(self).spec_flows()[id].sequence
                } else {
                    0
                };
                &&& final(self).spec_flows().contains_key(id)
                &&& final(self).spec_flows()[id].sequence == spec_seq_add(prev, 1)
                &&& final(self).spec_flows() == old(self).spec_flows().insert(
                    id,
                    final(self).spec_flows()[id],
                )
                &&& !old(self).spec_flows().contains_key(id) ==> {
                    let f = final(self).spec_flows()[id];
                    f.cache is None && f.fin is None && !f.fin_sent && f.queue@.len() == 0
                        && f.send_window == 0
                }
                &&& old(self).spec_flows().contains_key(id) ==> final(self).spec_flows()[id]
                    == (FlowSend { sequence: spec_seq_add(prev, 1), ..old(self).spec_flows()[id] })
            }),
    {
        let (sequence, acknowledgement, window, _) = self.flow_echo(dst, src_port);
        let ts = self.generate_ts(dst, src_port, now_ms);
        let tcp = Tcp {
            src: dst.port,
            dst: src_port,
            sequence,
            acknowledgement,
            syn: true,
            ack: true,
            rst: false,
            fin: false,
            psh: false,
            window,
            mss,
            wscale,
            sack_perm,
            sacks: Vec::new(),
            ts,
        };
        proof {
            crate::packet::lemma_sack_blocks_len(tcp@.sacks);
        }
        self.emit_tcp(dst, src_port, tcp, Vec::new());
        let id = flow_id(dst, src_port);
        let mut f = self.take_flow(id);
        f.sequence = seq_add(f.sequence, 1);
        self.put_flow(id, f);
        proof {
            assert(final(self).spec_flows() =~= old(self).spec_flows().insert(
                spec_flow_id(dst, src_port),
                final(self).spec_flows()[spec_flow_id(dst, src_port)],
            ));
        }
        Ok(())
    }

    /// Emits an acknowledged reset, aborting the flow toward the client.
    pub fn send_tcp_ack_rst(&mut self, dst: SocketV4, src_port: u16, now_ms: u64) -> (r: Result<
        (),
        ProtocolError,
    >)
        requires
            old(self).wf(),
        ensures
            final(self).wf(),
            r is Ok,
            final(self).spec_mtu() == old(self).spec_mtu(),
            final(self).spec_src_hardware_addr() == old(self).spec_src_hardware_addr(),
            final(self).spec_local_hardware_addr() == old(self).spec_local_hardware_addr(),
            final(self).spec_src_ip_addr() == old(self).spec_src_ip_addr(),
            final(self).spec_local_ip_addr() == old(self).spec_local_ip_addr(),
            final(self).spec_flows() == old(self).spec_flows(),
            final(self).idents() == old(self).idents().insert(
                dst.ip,
                spec_next_ident(old(self).ident_of(dst.ip)),
            ),
            final(self).emitted().len() == old(self).emitted().len() + 1,
            final(self).emitted() == old(self).emitted().push(final(self).emitted().last()),
            ({
                let e = final(self).emitted().last();
                let id = spec_flow_id(dst, src_port);
                let known = old(self).spec_flows().contains_key(id);
                match e.indicator@.transport {
                    crate::packet::TransportS::Tcp(t) => {
                        &&& t.ack && t.rst && !t.syn && !t.fin
                        &&& t.src == dst.port && t.dst == src_port
                        &&& t.sequence == if known {
                            old(self).spec_flows()[id].sequence
                        } else {
                            0
                        }
                        &&& t.acknowledgement == if known {
                            old(self).spec_flows()[id].acknowledgement
                        } else {
                            0
                        }
                        &&& e.indicator@.payload == Seq::<u8>::empty()
                    },
                    _ => false,
                }
            }),
    {
        let (sequence, acknowledgement, window, _) = self.flow_echo(dst, src_port);
        let ts = self.generate_ts(dst, src_port, now_ms);
        let tcp = Tcp {
            src: dst.port,
            dst: src_port,
            sequence,
            acknowledgement,
            syn: false,
            ack: true,
            rst: true,
            fin: false,
            psh: false,
            window,
            mss: None,
            wscale: None,
            sack_perm: false,
            sacks: Vec::new(),
            ts,
        };
        proof {
            crate::packet::lemma_sack_blocks_len(tcp@.sacks);
        }
        self.emit_tcp(dst, src_port, tcp, Vec::new());
        Ok(())
    }

    /// Emits an acknowledged FIN toward the client.
    pub fn send_tcp_ack_fin(&mut self, dst: SocketV4, src_port: u16, now_ms: u64) -> (r: Result<
        (),
        ProtocolError,
    >)
        requires
            old(self).wf(),
        ensures
            final(self).wf(),
            r is Ok,
            final(self).spec_mtu() == old(self).spec_mtu(),
            final(self).spec_src_hardware_addr() == old(self).spec_src_hardware_addr(),
            final(self).spec_local_hardware_addr() == old(self).spec_local_hardware_addr(),
            final(self).spec_src_ip_addr() == old(self).spec_src_ip_addr(),
            final(self).spec_local_ip_addr() == old(self).spec_local_ip_addr(),
            final(self).spec_flows() == old(self).spec_flows(),
            final(self).idents() == old(self).idents().insert(
                dst.ip,
                spec_next_ident(old(self).ident_of(dst.ip)),
            ),
            final(self).emitted().len() == old(self).emitted().len() + 1,
            final(self).emitted() == old(self).emitted().push(final(self).emitted().last()),
            ({
                let e = final(self).emitted().last();
                let id = spec_flow_id(dst, src_port);
                let known = old(self).spec_flows().contains_key(id);
                match e.indicator@.transport {
                    crate::packet::TransportS::Tcp(t) => {
                        &&& t.ack && t.fin && !t.syn && !t.rst
                        &&& t.src == dst.port && t.dst == src_port
                        &&& t.sequence == if known {
                            old(self).spec_flows()[id].sequence
                        } else {
                            0
                        }
                        &&& t.acknowledgement == if known {
                            old(self).spec_flows()[id].acknowledgement
                        } else {
                            0
                        }
                        &&& e.indicator@.payload == Seq::<u8>::empty()
                    },
                    _ => false,
                }
            }),
    {
        let (sequence, acknowledgement, window, _) = self.flow_echo(dst, src_port);
        let ts = self.generate_ts(dst, src_port, now_ms);
        let tcp = Tcp {
            src: dst.port,
            dst: src_port,
            sequence,
            acknowledgement,
            syn: false,
            ack: true,
            rst: false,
            fin: true,
            psh: false,
            window,
            mss: None,
            wscale: None,
            sack_perm: false,
            sacks: Vec::new(),
            ts,
        };
        proof {
            crate::packet::lemma_sack_blocks_len(tcp@.sacks);
        }
        self.emit_tcp(dst, src_port, tcp, Vec::new());
        Ok(())
    }

    /// Emits a stateless reset: the answer to traffic of an unknown flow.
    pub fn send_tcp_rst(&mut self, dst: SocketV4, src_port: u16, ts: Option<u32>) -> (r: Result<
        (),
        ProtocolError,
    >)
        requires
            old(self).wf(),
        ensures
            final(self).wf(),
            r is Ok,
            final(self).spec_mtu() == old(self).spec_mtu(),
            final(self).spec_src_hardware_addr() == old(self).spec_src_hardware_addr(),
            final(self).spec_local_hardware_addr() == old(self).spec_local_hardware_addr(),
            final(self).spec_src_ip_addr() == old(self).spec_src_ip_addr(),
            final(self).spec_local_ip_addr() == old(self).spec_local_ip_addr(),
            final(self).spec_flows() == old(self).spec_flows(),
            final(self).idents() == old(self).idents().insert(
                dst.ip,
                spec_next_ident(old(self).ident_of(dst.ip)),
            ),
            final(self).emitted().len() == old(self).emitted().len() + 1,
            final(self).emitted() == old(self).emitted().push(final(self).emitted().last()),
            ({
                let e = final(self).emitted().last();
                match e.indicator@.transport {
                    crate::packet::TransportS::Tcp(t) => {
                        &&& t.rst && !t.ack && !t.syn && !t.fin
                        &&& t.acknowledgement == 0
                        &&& t.src == dst.port && t.dst == src_port
                        &&& e.indicator@.payload == Seq::<u8>::empty()
                    },
                    _ => false,
                }
            }),
    {
        let (sequence, _, window, _) = self.flow_echo(dst, src_port);
        let ts_echo = match ts {
            Some(t) => Some((t, 0u32)),
            None => None,
        };
        let tcp = Tcp {
            src: dst.port,
            dst: src_port,
            sequence,
            acknowledgement: 0,
            syn: false,
            ack: false,
            rst: true,
            fin: false,
            psh: false,
            window,
            mss: None,
            wscale: None,
            sack_perm: false,
            sacks: Vec::new(),
            ts: ts_echo,
        };
        proof {
            crate::packet::lemma_sack_blocks_len(tcp@.sacks);
        }
        self.emit_tcp(dst, src_port, tcp, Vec::new());
        Ok(())
    }

    /// Emits the flow's FIN toward the client.
    fn send_tcp_fin(&mut self, dst: SocketV4, src_port: u16, now_ms: u64) -> (r: Result<
        (),
        ProtocolError,
    >)
        requires
            old(self).wf(),
        ensures
            final(self).wf(),
            r is Ok,
            final(self).spec_mtu() == old(self).spec_mtu(),
            final(self).spec_src_hardware_addr() == old(self).spec_src_hardware_addr(),
            final(self).spec_local_hardware_addr() == old(self).spec_local_hardware_addr(),
            final(self).spec_src_ip_addr() == old(self).spec_src_ip_addr(),
            final(self).spec_local_ip_addr() == old(self).spec_local_ip_addr(),
            final(self).spec_flows() == old(self).spec_flows(),
            final(self).idents() == old(self).idents().insert(
                dst.ip,
                spec_next_ident(old(self).ident_of(dst.ip)),
            ),
            final(self).emitted().len() == old(self).emitted().len() + 1,
            final(self).emitted() == old(self).emitted().push(final(self).emitted().last()),
            ({
                let e = final(self).emitted().last();
                let id = spec_flow_id(dst, src_port);
                let f = old(self).spec_flows()[id];
                let known = old(self).spec_flows().contains_key(id);
                match e.indicator@.transport {
                    crate::packet::TransportS::Tcp(t) => {
                        &&& t.ack && t.fin && !t.syn && !t.rst
                        &&& t.sequence == if known {
                            f.sequence
                        } else {
                            0
                        }
                        &&& t.acknowledgement == if known {
                            f.acknowledgement
                        } else {
                            0
                        }
                        &&& t.src == dst.port && t.dst == src_port
                        &&& e.indicator@.payload == Seq::<u8>::empty()
                    },
                    _ => false,
                }
            }),
    {
        let (sequence, acknowledgement, window, _) = self.flow_echo(dst, src_port);
        let ts = self.generate_ts(dst, src_port, now_ms);
        let tcp = Tcp {
            src: dst.port,
            dst: src_port,
            sequence,
            acknowledgement,
            syn: false,
            ack: true,
            rst: false,
            fin: true,
            psh: false,
            window,
            mss: None,
            wscale: None,
            sack_perm: false,
            sacks: Vec::new(),
            ts,
        };
        proof {
            crate::packet::lemma_sack_blocks_len(tcp@.sacks);
        }
        self.emit_tcp(dst, src_port, tcp, Vec::new());
        Ok(())
    }

    /// The payload limit of one emitted segment of a flow: the peer's
    /// maximum segment size when one is preferred and known, else what the
    /// interface's maximum transmission unit leaves after the headers,
    /// clamped to what the length fields can carry.
    pub open spec fn spec_effective_mss(self, dst: SocketV4, src_port: u16) -> int {
        let id = spec_flow_id(dst, src_port);
        let raw = if PREFER_SEND_MSS && self.spec_flows().contains_key(id)
            && self.spec_flows()[id].send_mss is Some && self.spec_flows()[id].send_mss->0 >= 1 {
            self.spec_flows()[id].send_mss->0 as int
        } else {
            self.spec_mtu() - 40
        };
        if raw < 1 {
            1
        } else if raw > MAX_SEGMENT_PAYLOAD {
            MAX_SEGMENT_PAYLOAD as int
        } else {
            raw
        }
    }

    /// The payload limit of one emitted segment of a flow.
    fn effective_mss(&self, dst: SocketV4, src_port: u16) -> (m: usize)
        requires
            self.wf(),
        ensures
            m == self.spec_effective_mss(dst, src_port),
            1 <= m <= MAX_SEGMENT_PAYLOAD,
    {
        let id = flow_id(dst, src_port);
        let mut raw: usize = (self.mtu - 40) as usize;
        if PREFER_SEND_MSS {
            if let Some(f) = self.flows.get(&id) {
                if let Some(ms) = f.send_mss {
                    if ms >= 1 {
                        raw = ms as usize;
                    }
                }
            }
        }
        if raw < 1 {
            1
        } else if raw > MAX_SEGMENT_PAYLOAD {
            MAX_SEGMENT_PAYLOAD
        } else {
            raw
        }
    }

    /// Builds and emits one data segment: chunk bytes at `seg_seq`, under
    /// the destination's current identification, which is then stepped.
    fn emit_chunk(
        &mut self,
        dst: SocketV4,
        src_port: u16,
        seg_seq: u32,
        chunk: Vec<u8>,
        now_ms: u64,
    )
        requires
            old(self).wf(),
            chunk@.len() <= MAX_SEGMENT_PAYLOAD,
        ensures
            final(self).wf(),
            final(self).spec_flows() == old(self).spec_flows(),
            final(self).spec_mtu() == old(self).spec_mtu(),
            final(self).spec_src_hardware_addr() == old(self).spec_src_hardware_addr(),
            final(self).spec_local_hardware_addr() == old(self).spec_local_hardware_addr(),
            final(self).spec_src_ip_addr() == old(self).spec_src_ip_addr(),
            final(self).spec_local_ip_addr() == old(self).spec_local_ip_addr(),
            final(self).emitted() == old(self).emitted().push(final(self).emitted().last()),
            final(self).emitted().len() == old(self).emitted().len() + 1,
            forall|i: int|
                0 <= i < old(self).emitted().len() ==> #[trigger] final(self).emitted()[i] == old(
                    self,
                ).emitted()[i],
            tcp_chunk_entry(
                final(self).emitted().last(),
                (seg_seq, chunk@),
                old(self).ident_of(dst.ip),
                dst,
                src_port,
                old(self).spec_src_ip_addr(),
            ),
            final(self).idents() == old(self).idents().insert(
                dst.ip,
                spec_next_ident(old(self).ident_of(dst.ip)),
            ),
    {
        let (_, acknowledgement, window, sacks) = self.flow_echo(dst, src_port);
        let ts = self.generate_ts(dst, src_port, now_ms);
        let tcp = Tcp {
            src: dst.port,
            dst: src_port,
            sequence: seg_seq,
            acknowledgement,
            syn: false,
            ack: true,
            rst: false,
            fin: false,
            psh: false,
            window,
            mss: None,
            wscale: None,
            sack_perm: false,
            sacks,
            ts,
        };
        proof {
            crate::packet::lemma_sack_blocks_len(tcp@.sacks);
        }
        self.emit_tcp(dst, src_port, tcp, chunk);
    }

    /// Emits `payload` as one or more TCP segments starting at `sequence`,
    /// each at most the flow's effective maximum segment size, stepping the
    /// destination's identification once per segment. Per-flow state is not
    /// touched: the caller accounts for what was sent.
    #[verifier::rlimit(100)]
    fn send_tcp_ack_raw(
        &mut self,
        dst: SocketV4,
        src_port: u16,
        sequence: u32,
        payload: &[u8],
        now_ms: u64,
    ) -> (r: Result<(), ProtocolError>)
        requires
            old(self).wf(),
        ensures
            final(self).wf(),
            r is Ok,
            final(self).spec_mtu() == old(self).spec_mtu(),
            final(self).spec_src_hardware_addr() == old(self).spec_src_hardware_addr(),
            final(self).spec_local_hardware_addr() == old(self).spec_local_hardware_addr(),
            final(self).spec_src_ip_addr() == old(self).spec_src_ip_addr(),
            final(self).spec_local_ip_addr() == old(self).spec_local_ip_addr(),
            final(self).spec_flows() == old(self).spec_flows(),
            final(self).spec_mtu() == old(self).spec_mtu(),
            final(self).spec_src_hardware_addr() == old(self).spec_src_hardware_addr(),
            final(self).spec_local_hardware_addr() == old(self).spec_local_hardware_addr(),
            final(self).spec_src_ip_addr() == old(self).spec_src_ip_addr(),
            final(self).spec_local_ip_addr() == old(self).spec_local_ip_addr(),
            ({
                let m = old(self).spec_effective_mss(dst, src_port);
                let chunks = spec_tcp_chunks(payload@, m, sequence);
                let n0 = old(self).emitted().len() as int;
                &&& final(self).emitted().len() == n0 + chunks.len()
                &&& final(self).emitted().subrange(0, n0) == old(self).emitted()
                &&& forall|j: int|
                    0 <= j < chunks.len() ==> tcp_chunk_entry(
                        #[trigger] final(self).emitted()[n0 + j],
                        chunks[j],
                        spec_ident_n(old(self).ident_of(dst.ip), j),
                        dst,
                        src_port,
                        old(self).spec_src_ip_addr(),
                    ) && chunks[j].1.len() <= m
                &&& (chunks.len() == 0 ==> final(self).idents() == old(self).idents())
                &&& (chunks.len() > 0 ==> final(self).idents() == old(self).idents().insert(
                    dst.ip,
                    spec_ident_n(old(self).ident_of(dst.ip), chunks.len() as int),
                ))
            }),
    {
        let m = self.effective_mss(dst, src_port);
        let ghost chunks = spec_tcp_chunks(payload@, m as int, sequence);
        let ghost n0 = self.emitted().len() as int;
        let ghost start_id = self.ident_of(dst.ip);
        let len = payload.len();
        proof {
            assert(payload@.skip(0) =~= payload@);
            assert(chunks.skip(0) =~= chunks);
            lemma_chunks_bound(payload@, m as int, sequence);
        }
        // cut the payload into chunks first
        let mut pieces: Vec<(u32, Vec<u8>)> = Vec::new();
        let mut off: usize = 0;
        let mut seg_seq: u32 = sequence;
        while off < len
            invariant
                len == payload@.len(),
                1 <= m <= MAX_SEGMENT_PAYLOAD,
                off <= len,
                pieces@.len() <= chunks.len(),
                chunks.len() <= len,
                chunks == spec_tcp_chunks(payload@, m as int, sequence),
                spec_tcp_chunks(payload@.skip(off as int), m as int, seg_seq) == chunks.skip(
                    pieces@.len() as int,
                ),
                off < len <==> pieces@.len() < chunks.len(),
                forall|jj: int|
                    0 <= jj < pieces@.len() ==> (#[trigger] pieces@[jj]).0 == chunks[jj].0
                        && pieces@[jj].1@ == chunks[jj].1,
            decreases len - off,
        {
            let chunk_len = if m < len - off {
                m
            } else {
                len - off
            };
            proof {
                lemma_chunk_step(
                    payload@,
                    m as int,
                    sequence,
                    off as int,
                    pieces@.len() as int,
                    seg_seq,
                );
            }
            let chunk = copy_slice(payload, off, off + chunk_len);
            pieces.push((seg_seq, chunk));
            off = off + chunk_len;
            seg_seq = seq_add(seg_seq, chunk_len as u32);
            proof {
                if off < len {
                    assert(payload@.skip(off as int).len() > 0);
                    assert(spec_tcp_chunks(payload@.skip(off as int), m as int, seg_seq).len()
                        >= 1);
                } else {
                    assert(payload@.skip(off as int) =~= Seq::<u8>::empty());
                }
            }
        }
        proof {
            assert(payload@.skip(off as int) =~= Seq::<u8>::empty());
            assert(chunks.skip(pieces@.len() as int).len() == 0);
            assert(pieces@.len() == chunks.len());
        }
        // emit the chunks in order
        let ghost total = pieces@.len() as int;
        let mut k: usize = 0;
        let mut rest = pieces;
        while rest.len() > 0
            invariant
                self.wf(),
                k + rest@.len() == total,
                total == chunks.len(),
                total <= len,
                len == payload@.len(),
                forall|jj: int|
                    0 <= jj < rest@.len() ==> (#[trigger] rest@[jj]).0 == chunks[k + jj].0
                        && rest@[jj].1@ == chunks[k + jj].1,
                forall|jj: int|
                    0 <= jj < rest@.len() ==> (#[trigger] rest@[jj]).1@.len()
                        <= MAX_SEGMENT_PAYLOAD,
                self.emitted().len() == n0 + k,
                n0 == old(self).emitted().len(),
                self.emitted().subrange(0, n0) == old(self).emitted(),
                self.spec_flows() == old(self).spec_flows(),
                self.spec_mtu() == old(self).spec_mtu(),
                self.spec_src_hardware_addr() == old(self).spec_src_hardware_addr(),
                self.spec_local_hardware_addr() == old(self).spec_local_hardware_addr(),
                self.spec_src_ip_addr() == old(self).spec_src_ip_addr(),
                self.spec_local_ip_addr() == old(self).spec_local_ip_addr(),
                start_id == old(self).ident_of(dst.ip),
                self.ident_of(dst.ip) == spec_ident_n(start_id, k as int),
                k == 0 ==> self.idents() == old(self).idents(),
                k > 0 ==> self.idents() == old(self).idents().insert(
                    dst.ip,
                    spec_ident_n(start_id, k as int),
                ),
                forall|jj: int|
                    0 <= jj < k ==> tcp_chunk_entry(
                        #[trigger] self.emitted()[n0 + jj],
                        chunks[jj],
                        spec_ident_n(start_id, jj),
                        dst,
                        src_port,
                        old(self).spec_src_ip_addr(),
                    ),
            decreases rest@.len(),
        {
            let piece = rest.remove(0);
            self.emit_chunk(dst, src_port, piece.0, piece.1, now_ms);
            proof {
                lemma_ident_step(start_id, k as int);
                assert(self.emitted().subrange(0, n0) =~= old(self).emitted());
                assert(self.emitted()[n0 + k] == self.emitted().last());
                assert(self.idents() =~= old(self).idents().insert(
                    dst.ip,
                    spec_ident_n(start_id, k + 1),
                ));
            }
            k = k + 1;
        }
        proof {
            if chunks.len() > 0 {
                lemma_chunks_bound(payload@, m as int, sequence);
            }
            assert(self.emitted().subrange(0, n0) =~= old(self).emitted());
        }
        Ok(())
    }

    /// Pumps a flow: moves queued bytes the peer's window allows into the
    /// cache, emits them as segments, and emits the one-shot FIN once a
    /// requested close finds queue and cache drained. A missing flow is left
    /// alone.
    #[verifier::rlimit(100)]
    pub fn send_tcp_ack(&mut self, dst: SocketV4, src_port: u16, now_ms: u64) -> (r: Result<
        (),
        ProtocolError,
    >)
        requires
            old(self).wf(),
        ensures
            final(self).wf(),
            r is Ok,
            final(self).spec_mtu() == old(self).spec_mtu(),
            final(self).spec_src_hardware_addr() == old(self).spec_src_hardware_addr(),
            final(self).spec_local_hardware_addr() == old(self).spec_local_hardware_addr(),
            final(self).spec_src_ip_addr() == old(self).spec_src_ip_addr(),
            final(self).spec_local_ip_addr() == old(self).spec_local_ip_addr(),
            ({
                let id = spec_flow_id(dst, src_port);
                if old(self).spec_flows().contains_key(id) {
                    {
                        let f1 = old(self).spec_flows()[id];
                        &&& final(self).spec_flows().contains_key(id)
                        &&& final(self).spec_flows() == old(self).spec_flows().insert(
                            id,
                            final(self).spec_flows()[id],
                        )
                        &&& pump_result(
                            f1,
                            final(self).spec_flows()[id],
                            old(self).emitted(),
                            final(self).emitted(),
                            dst,
                            src_port,
                            old(self).spec_src_ip_addr(),
                            old(self).ident_of(dst.ip),
                            old(self).spec_effective_mss(dst, src_port),
                        )
                    }
                } else {
                    final(self).spec_flows() == old(self).spec_flows() && final(self).emitted()
                        == old(self).emitted()
                }
            }),
    {
        let id = flow_id(dst, src_port);
        if !self.flows.contains_key(&id) {
            return Ok(());
        }
        let m = self.effective_mss(dst, src_port);
        let ghost start_id = self.ident_of(dst.ip);
        let mut f = self.take_flow(id);
        let ghost f1 = f;
        let sequence = f.sequence;
        // drain what the window and the cache allow
        let mut ds: usize = 0;
        if f.send_window > 0 {
            // the cache is created on first use, sized by the window scale
            if f.cache.is_none() {
                let k: u8 = if f.wscale <= 8 {
                    f.wscale
                } else {
                    8
                };
                let unit: usize = if k == 0 {
                    1
                } else if k == 1 {
                    2
                } else if k == 2 {
                    4
                } else if k == 3 {
                    8
                } else if k == 4 {
                    16
                } else if k == 5 {
                    32
                } else if k == 6 {
                    64
                } else if k == 7 {
                    128
                } else {
                    256
                };
                let cap = 0xffff * unit;
                proof {
                    reveal_with_fuel(spec_pow2, 10);
                    assert(cap == spec_cache_capacity(f1));
                    assert(cap <= MAX_U32_WINDOW_SIZE);
                }
                f.cache = Some(Queue::with_capacity(cap, f.sequence));
            }
            let cache = f.cache.as_ref().unwrap();
            proof {
                assert(f.cache->0.wf());
                crate::queue::lemma_queue_bounds(f.cache->0);
            }
            let cached = cache.len();
            let room = cache.capacity() - cached;
            let mut remain: usize = if f.send_window > cached {
                f.send_window - cached
            } else {
                0
            };
            if remain > 0xffff {
                remain = 0xffff;
            }
            if remain > f.queue.len() {
                remain = f.queue.len();
            }
            if remain > room {
                remain = room;
            }
            ds = remain;
            proof {
                assert(spec_cache_capacity(f1) == cache.spec_capacity()) by {
                    if f1.cache is Some {
                    } else {
                        assert(cache.spec_capacity() == spec_cache_capacity(f1));
                    }
                }
                assert(ds == spec_drain_size(f1));
            }
        } else {
            proof {
                assert(ds == spec_drain_size(f1));
            }
        }
        // move the drained bytes into the cache and advance the sequence
        let payload = copy_slice(f.queue.as_slice(), 0, ds);
        let rest_queue = copy_slice(f.queue.as_slice(), ds, f.queue.len());
        proof {
            assert(rest_queue@ =~= f1.queue@.skip(ds as int));
            assert(payload@ =~= f1.queue@.take(ds as int));
        }
        f.queue = rest_queue;
        if f.send_window > 0 {
            let cache = f.cache.as_mut().unwrap();
            let appended = cache.append(payload.as_slice(), now_ms);
            proof {
                assert(appended is Ok);
            }
            if appended.is_err() {
                return Err(ProtocolError::OutOfCapacity);
            }
            f.sequence = seq_add(sequence, ds as u32);
            proof {
                crate::seq_space::lemma_seq_add_chain(
                    f.cache->0.seq_left(),
                    (f.cache->0.bytes().len() - ds) as u32,
                    ds as u32,
                );
            }
        }
        self.put_flow(id, f);
        let _ = self.send_tcp_ack_raw(dst, src_port, sequence, payload.as_slice(), now_ms);
        // the one-shot FIN once everything has drained
        let mut f = self.take_flow(id);
        let fin_due = f.fin.is_some() && !f.fin_sent && f.queue.len() == 0 && (match &f.cache {
            Some(c) => c.is_empty(),
            None => true,
        });
        if fin_due {
            f.fin_sent = true;
        }
        self.put_flow(id, f);
        if fin_due {
            let _ = self.send_tcp_fin(dst, src_port, now_ms);
        }
        proof {
            assert(final(self).spec_flows() =~= old(self).spec_flows().insert(
                id,
                final(self).spec_flows()[id as u64],
            ));
            assert(final(self).emitted().subrange(0, old(self).emitted().len() as int)
                =~= old(self).emitted());
        }
        Ok(())
    }

    /// Accepts bytes from the proxy side: appends them to the flow's queue
    /// and pumps the flow.
    pub fn append_to_queue(
        &mut self,
        dst: SocketV4,
        src_port: u16,
        payload: &[u8],
        now_ms: u64,
    ) -> (r: Result<(), ProtocolError>)
        requires
            old(self).wf(),
        ensures
            final(self).wf(),
            r is Ok,
            final(self).spec_mtu() == old(self).spec_mtu(),
            final(self).spec_src_hardware_addr() == old(self).spec_src_hardware_addr(),
            final(self).spec_local_hardware_addr() == old(self).spec_local_hardware_addr(),
            final(self).spec_src_ip_addr() == old(self).spec_src_ip_addr(),
            final(self).spec_local_ip_addr() == old(self).spec_local_ip_addr(),
            ({
                let id = spec_flow_id(dst, src_port);
                let f0 = final(self).spec_flows()[id];
                &&& final(self).spec_flows().contains_key(id)
                &&& final(self).spec_flows() == old(self).spec_flows().insert(id, f0)
                &&& exists|f1: FlowSend|
                    {
                        &&& f1.queue@ == (if old(self).spec_flows().contains_key(id) {
                            old(self).spec_flows()[id].queue@
                        } else {
                            Seq::<u8>::empty()
                        }) + payload@
                        &&& (old(self).spec_flows().contains_key(id) ==> f1 == (FlowSend {
                            queue: f1.queue,
                            ..old(self).spec_flows()[id]
                        }))
                        &&& (!old(self).spec_flows().contains_key(id) ==> f1.sequence == 0
                            && f1.cache is None && !f1.fin_sent && f1.fin is None
                            && f1.send_window == 0 && f1.send_mss is None
                            && f1.acknowledgement == 0 && f1.window == 0xffff && f1.wscale == 0
                            && f1.sacks@ == Seq::<(u32, u32)>::empty() && f1.ts is None)
                        &&& #[trigger] pump_result(
                            f1,
                            f0,
                            old(self).emitted(),
                            final(self).emitted(),
                            dst,
                            src_port,
                            old(self).spec_src_ip_addr(),
                            old(self).ident_of(dst.ip),
                            final(self).spec_effective_mss(dst, src_port),
                        )
                    }
            }),
    {
        let id = flow_id(dst, src_port);
        let mut f = self.take_flow(id);
        let n = payload.len();
        let ghost qprev = f.queue@;
        let ghost fpre = f;
        for i in 0..n
            invariant
                n == payload@.len(),
                f.queue@ == qprev + payload@.take(i as int),
                flow_wf(f),
                f.sequence == fpre.sequence,
                f.cache == fpre.cache,
                f.fin == fpre.fin,
                f.fin_sent == fpre.fin_sent,
                f.send_window == fpre.send_window,
                f.send_mss == fpre.send_mss,
                f.acknowledgement == fpre.acknowledgement,
                f.window == fpre.window,
                f.wscale == fpre.wscale,
                f.sacks == fpre.sacks,
                f.ts == fpre.ts,
        {
            f.queue.push(payload[i]);
            proof {
                assert(payload@.take(i + 1) =~= payload@.take(i as int).push(payload@[i as int]));
            }
        }
        proof {
            assert(payload@.take(n as int) =~= payload@);
        }
        let ghost f1 = f;
        self.put_flow(id, f);
        let ghost mid = *self;
        let r = self.send_tcp_ack(dst, src_port, now_ms);
        proof {
            let idg = spec_flow_id(dst, src_port);
            assert(final(self).spec_flows() =~= old(self).spec_flows().insert(
                idg,
                final(self).spec_flows()[idg],
            ));
            assert(mid.spec_flows().contains_key(idg) && mid.spec_flows()[idg] == f1);
            assert(final(self).spec_flows()[idg].send_mss == f1.send_mss);
            assert(mid.spec_effective_mss(dst, src_port) == final(self).spec_effective_mss(
                dst,
                src_port,
            ));
            assert(mid.ident_of(dst.ip) == old(self).ident_of(dst.ip));
            assert(mid.emitted() == old(self).emitted());
            assert(mid.spec_src_ip_addr() == old(self).spec_src_ip_addr());
            assert(pump_result(
                f1,
                final(self).spec_flows()[idg],
                old(self).emitted(),
                final(self).emitted(),
                dst,
                src_port,
                old(self).spec_src_ip_addr(),
                old(self).ident_of(dst.ip),
                final(self).spec_effective_mss(dst, src_port),
            ));
            assert(f1.queue@ == (if old(self).spec_flows().contains_key(idg) {
                old(self).spec_flows()[idg].queue@
            } else {
                Seq::<u8>::empty()
            }) + payload@);
            assert(old(self).spec_flows().contains_key(idg) ==> f1 == (FlowSend {
                queue: f1.queue,
                ..old(self).spec_flows()[idg]
            }));
            assert(!old(self).spec_flows().contains_key(idg) ==> f1.sequence == 0
                && f1.cache is None && !f1.fin_sent && f1.fin is None && f1.send_window == 0
                && f1.send_mss is None && f1.acknowledgement == 0 && f1.window == 0xffff
                && f1.wscale == 0 && f1.sacks@ == Seq::<(u32, u32)>::empty() && f1.ts is None);
        }
        r
    }

    /// Requests a graceful close of a flow: records the instant and pumps
    /// the flow so the FIN goes out as soon as everything drains.
    pub fn close(&mut self, dst: SocketV4, src_port: u16, now_ms: u64) -> (r: Result<
        (),
        ProtocolError,
    >)
        requires
            old(self).wf(),
        ensures
            final(self).wf(),
            r is Ok,
            final(self).spec_mtu() == old(self).spec_mtu(),
            final(self).spec_src_hardware_addr() == old(self).spec_src_hardware_addr(),
            final(self).spec_local_hardware_addr() == old(self).spec_local_hardware_addr(),
            final(self).spec_src_ip_addr() == old(self).spec_src_ip_addr(),
            final(self).spec_local_ip_addr() == old(self).spec_local_ip_addr(),
            ({
                let id = spec_flow_id(dst, src_port);
                let f0 = final(self).spec_flows()[id];
                &&& final(self).spec_flows().contains_key(id)
                &&& f0.fin == Some(now_ms)
                &&& final(self).spec_flows() == old(self).spec_flows().insert(id, f0)
                &&& exists|f1: FlowSend|
                    {
                        &&& f1.fin == Some(now_ms)
                        &&& (old(self).spec_flows().contains_key(id) ==> f1 == (FlowSend {
                            fin: Some(now_ms),
                            ..old(self).spec_flows()[id]
                        }))
                        &&& (!old(self).spec_flows().contains_key(id) ==> f1.sequence == 0
                            && f1.cache is None && !f1.fin_sent && f1.queue@.len() == 0
                            && f1.send_window == 0 && f1.send_mss is None
                            && f1.acknowledgement == 0 && f1.window == 0xffff && f1.wscale == 0
                            && f1.sacks@ == Seq::<(u32, u32)>::empty() && f1.ts is None)
                        &&& #[trigger] pump_result(
                            f1,
                            f0,
                            old(self).emitted(),
                            final(self).emitted(),
                            dst,
                            src_port,
                            old(self).spec_src_ip_addr(),
                            old(self).ident_of(dst.ip),
                            final(self).spec_effective_mss(dst, src_port),
                        )
                    }
            }),
    {
        let id = flow_id(dst, src_port);
        let mut f = self.take_flow(id);
        f.fin = Some(now_ms);
        let ghost f1 = f;
        self.put_flow(id, f);
        let ghost mid = *self;
        let r = self.send_tcp_ack(dst, src_port, now_ms);
        proof {
            let idg = spec_flow_id(dst, src_port);
            assert(final(self).spec_flows() =~= old(self).spec_flows().insert(
                idg,
                final(self).spec_flows()[idg],
            ));
            assert(mid.spec_flows().contains_key(idg) && mid.spec_flows()[idg] == f1);
            assert(final(self).spec_flows()[idg].send_mss == f1.send_mss);
            assert(mid.spec_effective_mss(dst, src_port) == final(self).spec_effective_mss(
                dst,
                src_port,
            ));
            assert(mid.ident_of(dst.ip) == old(self).ident_of(dst.ip));
            assert(mid.emitted() == old(self).emitted());
            assert(mid.spec_src_ip_addr() == old(self).spec_src_ip_addr());
            assert(pump_result(
                f1,
                final(self).spec_flows()[idg],
                old(self).emitted(),
                final(self).emitted(),
                dst,
                src_port,
                old(self).spec_src_ip_addr(),
                old(self).ident_of(dst.ip),
                final(self).spec_effective_mss(dst, src_port),
            ));
            assert(old(self).spec_flows().contains_key(idg) ==> f1 == (FlowSend {
                fin: Some(now_ms),
                ..old(self).spec_flows()[idg]
            }));
        }
        r
    }

    /// Go-back-N: re-emits every cached byte from the cache's left edge as
    /// fresh segments. Stamps and per-flow state stay untouched.
    pub fn retransmit_tcp_ack(&mut self, dst: SocketV4, src_port: u16, now_ms: u64) -> (r: Result<
        (),
        ProtocolError,
    >)
        requires
            old(self).wf(),
        ensures
            final(self).wf(),
            r is Ok,
            final(self).spec_flows() == old(self).spec_flows(),
            final(self).spec_mtu() == old(self).spec_mtu(),
            final(self).spec_src_hardware_addr() == old(self).spec_src_hardware_addr(),
            final(self).spec_local_hardware_addr() == old(self).spec_local_hardware_addr(),
            final(self).spec_src_ip_addr() == old(self).spec_src_ip_addr(),
            final(self).spec_local_ip_addr() == old(self).spec_local_ip_addr(),
            ({
                let id = spec_flow_id(dst, src_port);
                if old(self).spec_flows().contains_key(id) && old(
                    self,
                ).spec_flows()[id].cache is Some && old(
                    self,
                ).spec_flows()[id].cache->0.bytes().len() > 0 {
                    {
                        let c = old(self).spec_flows()[id].cache->0;
                        let m = old(self).spec_effective_mss(dst, src_port);
                        let chunks = spec_tcp_chunks(c.bytes(), m, c.seq_left());
                        let n0 = old(self).emitted().len() as int;
                        &&& final(self).emitted().len() == n0 + chunks.len()
                        &&& final(self).emitted().subrange(0, n0) == old(self).emitted()
                        &&& forall|j: int|
                            0 <= j < chunks.len() ==> tcp_chunk_entry(
                                #[trigger] final(self).emitted()[n0 + j],
                                chunks[j],
                                spec_ident_n(old(self).ident_of(dst.ip), j),
                                dst,
                                src_port,
                                old(self).spec_src_ip_addr(),
                            ) && chunks[j].1.len() <= m
                    }
                } else {
                    final(self).emitted() == old(self).emitted()
                }
            }),
    {
        let id = flow_id(dst, src_port);
        let mut payload: Vec<u8> = Vec::new();
        let mut sequence: u32 = 0;
        let mut have = false;
        match self.flows.get(&id) {
            Some(f) => match &f.cache {
                Some(c) => {
                    payload = c.get_all();
                    sequence = c.sequence();
                    have = true;
                },
                None => {},
            },
            None => {},
        }
        if have && payload.len() > 0 {
            let _ = self.send_tcp_ack_raw(dst, src_port, sequence, payload.as_slice(), now_ms);
        }
        Ok(())
    }

    /// Selective retransmission: re-emits exactly the parts of the cached
    /// window that no peer-announced SACK block covers, each kept range cut
    /// into segments at its own starting sequence number, in order. When the
    /// blocks cover the whole extent, nothing is emitted. A block that puts
    /// a kept range outside the cache fails the call without emitting.
    #[verifier::rlimit(100)]
    pub fn retransmit_tcp_ack_without(
        &mut self,
        dst: SocketV4,
        src_port: u16,
        sacks: Vec<(u32, u32)>,
        now_ms: u64,
    ) -> (r: Result<(), ProtocolError>)
        requires
            old(self).wf(),
        ensures
            final(self).wf(),
            final(self).spec_flows() == old(self).spec_flows(),
            final(self).spec_mtu() == old(self).spec_mtu(),
            final(self).spec_src_hardware_addr() == old(self).spec_src_hardware_addr(),
            final(self).spec_local_hardware_addr() == old(self).spec_local_hardware_addr(),
            final(self).spec_src_ip_addr() == old(self).spec_src_ip_addr(),
            final(self).spec_local_ip_addr() == old(self).spec_local_ip_addr(),
            r is Err ==> final(self).emitted() == old(self).emitted() && final(self).idents()
                == old(self).idents(),
            ({
                let id = spec_flow_id(dst, src_port);
                let known = old(self).spec_flows().contains_key(id) && old(
                    self,
                ).spec_flows()[id].cache is Some;
                &&& (r is Err && r->Err_0 == ProtocolError::MissingFlow <==> !known)
                &&& (known ==> {
                    let c = old(self).spec_flows()[id].cache->0;
                    let main = (c.seq_left(), c.right_edge());
                    let rgs = crate::seq_space::spec_subtract_ranges(seq![main], sacks@);
                    let m = old(self).spec_effective_mss(dst, src_port);
                    let chunks = spec_ranges_chunks(c.bytes(), c.seq_left(), rgs, m);
                    let n0 = old(self).emitted().len() as int;
                    &&& (r is Ok <==> forall|k: int|
                        0 <= k < rgs.len() ==> spec_seq_sub(
                            (#[trigger] rgs[k]).0,
                            c.seq_left(),
                        ) + spec_seq_sub(rgs[k].1, rgs[k].0) <= c.bytes().len())
                    &&& (r is Ok ==> {
                        &&& final(self).emitted().len() == n0 + chunks.len()
                        &&& final(self).emitted().subrange(0, n0) == old(self).emitted()
                        &&& forall|j: int|
                            0 <= j < chunks.len() ==> tcp_chunk_entry(
                                #[trigger] final(self).emitted()[n0 + j],
                                chunks[j],
                                spec_ident_n(old(self).ident_of(dst.ip), j),
                                dst,
                                src_port,
                                old(self).spec_src_ip_addr(),
                            )
                        &&& (chunks.len() == 0 ==> final(self).idents() == old(self).idents())
                        &&& (chunks.len() > 0 ==> final(self).idents() == old(
                            self,
                        ).idents().insert(
                            dst.ip,
                            spec_ident_n(old(self).ident_of(dst.ip), chunks.len() as int),
                        ))
                    })
                })
            }),
    {
        let id = flow_id(dst, src_port);
        let m = self.effective_mss(dst, src_port);
        let ghost n0 = self.emitted().len() as int;
        let ghost start_id = self.ident_of(dst.ip);
        // gather each kept range's bytes while the cache is borrowed;
        // fail before emitting anything if a range falls outside the cache
        let mut left: u32 = 0;
        let mut parts: Vec<(u32, Vec<u8>)> = Vec::new();
        let ghost mut rgs: Seq<(u32, u32)> = Seq::empty();
        match self.flows.get(&id) {
            Some(f) => match &f.cache {
                Some(c) => {
                    proof {
                        crate::queue::lemma_queue_bounds(*c);
                    }
                    left = c.sequence();
                    let right = seq_add(left, c.len() as u32);
                    let ranges = crate::seq_space::subtract_ranges((left, right), &sacks);
                    proof {
                        rgs = ranges@;
                    }
                    let nr = ranges.len();
                    for k in 0..nr
                        invariant
                            self == old(self),
                            old(self).wf(),
                            old(self).spec_flows().contains_key(spec_flow_id(dst, src_port)),
                            old(self).spec_flows()[spec_flow_id(dst, src_port)].cache is Some,
                            rgs == crate::seq_space::spec_subtract_ranges(
                                seq![
                                    (
                                        old(self).spec_flows()[spec_flow_id(dst, src_port)].cache->0.seq_left(),
                                        old(self).spec_flows()[spec_flow_id(dst, src_port)].cache->0.right_edge(),
                                    ),
                                ],
                                sacks@,
                            ),
                            nr == ranges@.len(),
                            ranges@ == rgs,
                            c.wf(),
                            c == old(self).spec_flows()[spec_flow_id(dst, src_port)].cache->0,
                            left == c.seq_left(),
                            parts@.len() == k,
                            forall|p: int|
                                0 <= p < k ==> (#[trigger] parts@[p]).0 == rgs[p].0
                                    && parts@[p].1@ == range_bytes(c.bytes(), c.seq_left(), rgs[p]),
                            forall|p: int|
                                0 <= p < k ==> spec_seq_sub((#[trigger] rgs[p]).0, c.seq_left())
                                    + spec_seq_sub(rgs[p].1, rgs[p].0) <= c.bytes().len(),
                    {
                        let rg = ranges[k];
                        let rsize = crate::seq_space::seq_sub(rg.1, rg.0) as usize;
                        let ghost parts_pre = parts@;
                        match c.get(rg.0, rsize) {
                            Ok(pl) => {
                                parts.push((rg.0, pl));
                                proof {
                                    assert forall|p: int|
                                        0 <= p < parts@.len() implies (#[trigger] parts@[p]).0
                                        == rgs[p].0 && parts@[p].1@ == range_bytes(
                                        c.bytes(),
                                        c.seq_left(),
                                        rgs[p],
                                    ) by {
                                        if p < parts@.len() - 1 {
                                            assert(parts@[p] == parts_pre[p]);
                                        } else {
                                            assert(parts@[p] == parts@.last());
                                        }
                                    }
                                }
                            },
                            Err(_) => {
                                proof {
                                    assert(spec_seq_sub(rgs[k as int].0, c.seq_left())
                                        + spec_seq_sub(rgs[k as int].1, rgs[k as int].0)
                                        > c.bytes().len());
                                }
                                return Err(ProtocolError::OutOfRange);
                            },
                        }
                    }
                },
                None => {
                    return Err(ProtocolError::MissingFlow);
                },
            },
            None => {
                return Err(ProtocolError::MissingFlow);
            },
        }
        let ghost c = old(self).spec_flows()[spec_flow_id(dst, src_port)].cache->0;
        let ghost chunks = spec_ranges_chunks(c.bytes(), c.seq_left(), rgs, m as int);
        // emit the kept ranges in order
        proof {
            assert(self.emitted().subrange(0, n0) =~= old(self).emitted());
            assert(rgs.take(0) =~= Seq::<(u32, u32)>::empty());
        }
        let ghost total_ranges = rgs.len() as int;
        let mut k: usize = 0;
        let mut rest = parts;
        while rest.len() > 0
            invariant
                self.wf(),
                self.spec_flows() == old(self).spec_flows(),
                self.spec_mtu() == old(self).spec_mtu(),
                self.spec_src_hardware_addr() == old(self).spec_src_hardware_addr(),
                self.spec_local_hardware_addr() == old(self).spec_local_hardware_addr(),
                self.spec_src_ip_addr() == old(self).spec_src_ip_addr(),
                self.spec_local_ip_addr() == old(self).spec_local_ip_addr(),
                self.spec_effective_mss(dst, src_port) == m,
                m == old(self).spec_effective_mss(dst, src_port),
                1 <= m <= MAX_SEGMENT_PAYLOAD,
                k + rest@.len() == total_ranges,
                total_ranges == rgs.len(),
                total_ranges <= usize::MAX,
                chunks == spec_ranges_chunks(c.bytes(), c.seq_left(), rgs, m as int),
                forall|p: int|
                    0 <= p < rest@.len() ==> (#[trigger] rest@[p]).0 == rgs[k + p].0
                        && rest@[p].1@ == range_bytes(c.bytes(), c.seq_left(), rgs[k + p]),
                n0 == old(self).emitted().len(),
                self.emitted().len() == n0 + spec_ranges_chunks(
                    c.bytes(),
                    c.seq_left(),
                    rgs.take(k as int),
                    m as int,
                ).len(),
                self.emitted().subrange(0, n0) == old(self).emitted(),
                start_id == old(self).ident_of(dst.ip),
                self.ident_of(dst.ip) == spec_ident_n(
                    start_id,
                    spec_ranges_chunks(c.bytes(), c.seq_left(), rgs.take(k as int), m as int).len() as int,
                ),
                spec_ranges_chunks(c.bytes(), c.seq_left(), rgs.take(k as int), m as int).len()
                    == 0 ==> self.idents() == old(self).idents(),
                spec_ranges_chunks(c.bytes(), c.seq_left(), rgs.take(k as int), m as int).len()
                    > 0 ==> self.idents() == old(self).idents().insert(
                    dst.ip,
                    spec_ident_n(
                        start_id,
                        spec_ranges_chunks(
                            c.bytes(),
                            c.seq_left(),
                            rgs.take(k as int),
                            m as int,
                        ).len() as int,
                    ),
                ),
                forall|j: int|
                    0 <= j < spec_ranges_chunks(
                        c.bytes(),
                        c.seq_left(),
                        rgs.take(k as int),
                        m as int,
                    ).len() ==> tcp_chunk_entry(
                        #[trigger] self.emitted()[n0 + j],
                        spec_ranges_chunks(c.bytes(), c.seq_left(), rgs.take(k as int), m as int)[j],
                        spec_ident_n(start_id, j),
                        dst,
                        src_port,
                        old(self).spec_src_ip_addr(),
                    ),
            decreases rest@.len(),
        {
            let part = rest.remove(0);
            let ghost pre = *self;
            let ghost done = spec_ranges_chunks(c.bytes(), c.seq_left(), rgs.take(k as int), m as int);
            let ghost fresh = spec_tcp_chunks(part.1@, m as int, part.0);
            let _ = self.send_tcp_ack_raw(dst, src_port, part.0, part.1.as_slice(), now_ms);
            proof {
                assert(part.1@ == range_bytes(c.bytes(), c.seq_left(), rgs[k as int]));
                assert(part.0 == rgs[k as int].0);
                lemma_ranges_chunks_push(c.bytes(), c.seq_left(), rgs.take(k as int), rgs[k as int], m as int);
                assert(rgs.take(k + 1) =~= rgs.take(k as int).push(rgs[k as int]));
                let done2 = spec_ranges_chunks(c.bytes(), c.seq_left(), rgs.take(k + 1), m as int);
                assert(done2 == done + fresh);
                assert(self.emitted().subrange(0, n0) =~= old(self).emitted());
                // existing entries keep their place and facts
                assert forall|j: int| 0 <= j < done.len() implies #[trigger] self.emitted()[n0 + j]
                    == pre.emitted()[n0 + j] by {
                    assert(self.emitted()[n0 + j] == self.emitted().subrange(
                        0,
                        pre.emitted().len() as int,
                    )[n0 + j]);
                }
                // fresh entries carry the composed identification counter
                assert forall|j: int| 0 <= j < done2.len() implies tcp_chunk_entry(
                    #[trigger] self.emitted()[n0 + j],
                    done2[j],
                    spec_ident_n(start_id, j),
                    dst,
                    src_port,
                    old(self).spec_src_ip_addr(),
                ) by {
                    if j < done.len() {
                        assert(done2[j] == done[j]);
                    } else {
                        let jj = j - done.len();
                        assert(done2[j] == fresh[jj]);
                        assert(n0 + j == pre.emitted().len() + jj);
                        assert(tcp_chunk_entry(
                            self.emitted()[pre.emitted().len() + jj],
                            fresh[jj],
                            spec_ident_n(pre.ident_of(dst.ip), jj),
                            dst,
                            src_port,
                            pre.spec_src_ip_addr(),
                        ));
                        lemma_ident_n_add(start_id, done.len() as int, jj);
                    }
                }
                // the identification counter composes across ranges
                if fresh.len() == 0 {
                    assert(self.idents() == pre.idents());
                } else {
                    lemma_ident_n_add(start_id, done.len() as int, fresh.len() as int);
                    assert(self.idents() =~= old(self).idents().insert(
                        dst.ip,
                        spec_ident_n(start_id, done2.len() as int),
                    ));
                }
                assert(self.ident_of(dst.ip) == spec_ident_n(start_id, done2.len() as int)) by {
                    lemma_ident_n_add(start_id, done.len() as int, fresh.len() as int);
                }
            }
            k = k + 1;
        }
        proof {
            assert(rgs.take(total_ranges) =~= rgs);
            assert(self.emitted().subrange(0, n0) =~= old(self).emitted());
        }
        Ok(())
    }

    /// Retransmits the run of cached bytes whose stamps have aged past the
    /// retransmission timeout, refreshing their stamps; once a requested
    /// close finds everything drained, retransmits the FIN instead.
    #[verifier::rlimit(100)]
    pub fn retransmit_tcp_ack_timedout(&mut self, dst: SocketV4, src_port: u16, now_ms: u64) -> (r:
        Result<(), ProtocolError>)
        requires
            old(self).wf(),
        ensures
            final(self).wf(),
            r is Ok,
            final(self).spec_mtu() == old(self).spec_mtu(),
            final(self).spec_src_hardware_addr() == old(self).spec_src_hardware_addr(),
            final(self).spec_local_hardware_addr() == old(self).spec_local_hardware_addr(),
            final(self).spec_src_ip_addr() == old(self).spec_src_ip_addr(),
            final(self).spec_local_ip_addr() == old(self).spec_local_ip_addr(),
            ({
                let id = spec_flow_id(dst, src_port);
                if old(self).spec_flows().contains_key(id) {
                    {
                        let f1 = old(self).spec_flows()[id];
                        let f2 = final(self).spec_flows()[id];
                        let k = match f1.cache {
                            Some(c) => crate::queue::timed_out_prefix(
                                c.spec_stamps(),
                                now_ms,
                                crate::RTO,
                            ) as int,
                            None => 0int,
                        };
                        let fin_due = k == 0 && f1.fin is Some && f1.queue@.len() == 0 && (match f1.cache {
                            Some(c) => c.bytes().len() == 0,
                            None => true,
                        });
                        let n0 = old(self).emitted().len() as int;
                        &&& final(self).spec_flows().contains_key(id)
                        &&& final(self).spec_flows() == old(self).spec_flows().insert(id, f2)
                        &&& f2.queue@ == f1.queue@
                        &&& f2.sequence == f1.sequence
                        &&& (f1.cache is Some <==> f2.cache is Some)
                        &&& (f1.cache is Some ==> f2.cache->0.bytes() == f1.cache->0.bytes()
                            && f2.cache->0.seq_left() == f1.cache->0.seq_left()
                            && f2.cache->0.spec_stamps() == Seq::new(
                            k as nat,
                            |i: int| now_ms,
                        ) + f1.cache->0.spec_stamps().skip(k))
                        &&& final(self).emitted().subrange(0, n0) == old(self).emitted()
                        &&& (k > 0 ==> {
                            let c = f1.cache->0;
                            let m = old(self).spec_effective_mss(dst, src_port);
                            let chunks = spec_tcp_chunks(c.bytes().take(k), m, c.seq_left());
                            &&& final(self).emitted().len() == n0 + chunks.len()
                            &&& forall|j: int|
                                0 <= j < chunks.len() ==> tcp_chunk_entry(
                                    #[trigger] final(self).emitted()[n0 + j],
                                    chunks[j],
                                    spec_ident_n(old(self).ident_of(dst.ip), j),
                                    dst,
                                    src_port,
                                    old(self).spec_src_ip_addr(),
                                )
                        })
                        &&& (fin_due ==> final(self).emitted().len() == n0 + 1 && f2.fin_sent
                            && match final(self).emitted().last().indicator@.transport {
                            crate::packet::TransportS::Tcp(t) => t.fin && t.ack,
                            _ => false,
                        })
                        &&& (!fin_due && k == 0 ==> final(self).emitted() == old(self).emitted())
                    }
                } else {
                    final(self).spec_flows() == old(self).spec_flows() && final(self).emitted()
                        == old(self).emitted()
                }
            }),
    {
        let id = flow_id(dst, src_port);
        if !self.flows.contains_key(&id) {
            return Ok(());
        }
        let m = self.effective_mss(dst, src_port);
        let mut f = self.take_flow(id);
        let mut payload: Vec<u8> = Vec::new();
        let mut left: u32 = 0;
        match &mut f.cache {
            Some(c) => {
                payload = c.get_timed_out(crate::RTO, now_ms);
                left = c.sequence();
            },
            None => {},
        }
        let fin_due = payload.len() == 0 && f.fin.is_some() && f.queue.len() == 0 && (match &f.cache {
            Some(c) => c.is_empty(),
            None => true,
        });
        if fin_due {
            f.fin_sent = true;
        }
        self.put_flow(id, f);
        let ghost mid = *self;
        if payload.len() > 0 {
            let _ = self.send_tcp_ack_raw(dst, src_port, left, payload.as_slice(), now_ms);
        } else if fin_due {
            let _ = self.send_tcp_fin(dst, src_port, now_ms);
        }
        proof {
            assert(final(self).spec_flows() =~= old(self).spec_flows().insert(
                id,
                final(self).spec_flows()[id as u64],
            ));
            assert(mid.emitted() == old(self).emitted());
            assert(mid.ident_of(dst.ip) == old(self).ident_of(dst.ip));
            assert(mid.spec_src_ip_addr() == old(self).spec_src_ip_addr());
            assert(mid.spec_effective_mss(dst, src_port) == old(self).spec_effective_mss(
                dst,
                src_port,
            ));
            if old(self).spec_flows()[id as u64].cache is Some {
                crate::queue::lemma_timed_out_prefix_le(
                    old(self).spec_flows()[id as u64].cache->0.spec_stamps(),
                    now_ms,
                    crate::RTO,
                );
                crate::queue::lemma_queue_bounds(old(self).spec_flows()[id as u64].cache->0);
            }
            assert(final(self).emitted().subrange(0, old(self).emitted().len() as int)
                =~= old(self).emitted());
        }
        Ok(())
    }

    /// Sends one UDP datagram toward the client, fragmenting it when it does
    /// not fit the maximum transmission unit: every fragment carries the
    /// same identification, aligned to eight-byte units, and the counter
    /// steps exactly once for the whole datagram.
    #[verifier::rlimit(100)]
    pub fn send_udp(&mut self, dst: SocketV4, src_port: u16, payload: &[u8]) -> (r: Result<
        (),
        ProtocolError,
    >)
        requires
            old(self).wf(),
            payload@.len() <= 65507,
        ensures
            final(self).wf(),
            r is Ok,
            final(self).spec_flows() == old(self).spec_flows(),
            final(self).spec_mtu() == old(self).spec_mtu(),
            final(self).spec_src_hardware_addr() == old(self).spec_src_hardware_addr(),
            final(self).spec_local_hardware_addr() == old(self).spec_local_hardware_addr(),
            final(self).spec_src_ip_addr() == old(self).spec_src_ip_addr(),
            final(self).spec_local_ip_addr() == old(self).spec_local_ip_addr(),
            final(self).idents() == old(self).idents().insert(
                dst.ip,
                spec_next_ident(old(self).ident_of(dst.ip)),
            ),
            ({
                let n0 = old(self).emitted().len() as int;
                &&& final(self).emitted().len() > n0
                &&& final(self).emitted().subrange(0, n0) == old(self).emitted()
                &&& forall|i: int|
                    n0 <= i < final(self).emitted().len() ==> {
                        let e = #[trigger] final(self).emitted()[i];
                        match e.indicator@.network {
                            Network::Ipv4(ip) => ip.identification == old(self).ident_of(dst.ip)
                                && ip.protocol == PROTOCOL_UDP && ip.src == dst.ip && ip.dst == old(
                                self,
                            ).spec_src_ip_addr(),
                            _ => false,
                        }
                    }
            }),
            ({
                let n0 = old(self).emitted().len() as int;
                let u = Udp { src: dst.port, dst: src_port };
                let ulen = (8 + payload@.len()) as u16;
                if 8 + payload@.len() <= old(self).spec_mtu() - 20 {
                    {
                        &&& final(self).emitted().len() == n0 + 1
                        &&& final(self).emitted().last().indicator@.transport
                            == crate::packet::TransportS::Udp(u)
                        &&& final(self).emitted().last().indicator@.payload == payload@
                    }
                } else {
                    {
                        &&& frag_payloads(final(self).emitted().skip(n0)) == u.bytes(ulen, 0)
                            + payload@
                        &&& forall|i: int|
                            n0 <= i < final(self).emitted().len() ==> {
                                let e = #[trigger] final(self).emitted()[i];
                                e.indicator@.transport is Raw
                            }
                        // every fragment sits at its eight-byte offset in the
                        // datagram and, but for the last, covers whole units
                        &&& forall|i: int|
                            n0 <= i < final(self).emitted().len() ==> {
                                let e = #[trigger] final(self).emitted()[i];
                                match e.indicator@.network {
                                    Network::Ipv4(ipx) => {
                                        &&& ipx.fragment_offset as int * 8
                                            + e.indicator@.payload.len() <= (u.bytes(ulen, 0)
                                            + payload@).len()
                                        &&& e.indicator@.payload == (u.bytes(ulen, 0)
                                            + payload@).subrange(
                                            ipx.fragment_offset as int * 8,
                                            ipx.fragment_offset as int * 8
                                                + e.indicator@.payload.len(),
                                        )
                                        &&& (ipx.more_fragments ==> e.indicator@.payload.len() % 8
                                            == 0 && e.indicator@.payload.len() >= 8)
                                        &&& (!ipx.more_fragments ==> e.indicator@.payload.len()
                                            >= 1)
                                    },
                                    _ => false,
                                }
                            }
                        &&& forall|i: int|
                            n0 <= i < final(self).emitted().len() - 1 ==> {
                                let e = #[trigger] final(self).emitted()[i];
                                match e.indicator@.network {
                                    Network::Ipv4(ip) => ip.more_fragments,
                                    _ => false,
                                }
                            }
                        &&& match final(self).emitted().last().indicator@.network {
                            Network::Ipv4(ip) => !ip.more_fragments,
                            _ => false,
                        }
                    }
                }
            }),
    {
        let udp_total = 8 + payload.len();
        let limit = (self.mtu - 20) as usize;
        let ident = self.current_identification(dst.ip);
        let eth = Ethernet {
            dst: self.src_hardware_addr,
            src: self.local_hardware_addr,
            kind: ETHERTYPE_IPV4,
        };
        if udp_total <= limit {
            let ip = Ipv4 {
                identification: ident,
                more_fragments: false,
                fragment_offset: 0,
                protocol: PROTOCOL_UDP,
                src: dst.ip,
                dst: self.src_ip_addr,
            };
            let body = copy_slice(payload, 0, payload.len());
            proof {
                assert(body@ =~= payload@);
            }
            let indicator = Indicator {
                ethernet: eth,
                network: Network::Ipv4(ip),
                transport: Transport::Udp(Udp { src: dst.port, dst: src_port }),
                payload: body,
            };
            self.push_frame(indicator);
            self.increase_ipv4_identification(dst.ip);
            proof {
                assert(final(self).emitted().subrange(0, old(self).emitted().len() as int)
                    =~= old(self).emitted());
            }
            return Ok(());
        }
        // build the whole datagram, header first, and cut it at the MTU on
        // eight-byte boundaries
        let u = Udp { src: dst.port, dst: src_port };
        let ulen: u16 = udp_total as u16;
        let mut stream: Vec<u8> = Vec::new();
        crate::wire::push_be16(&mut stream, u.src);
        crate::wire::push_be16(&mut stream, u.dst);
        crate::wire::push_be16(&mut stream, ulen);
        crate::wire::push_be16(&mut stream, 0);
        push_bytes_vec(&mut stream, payload);
        proof {
            assert(stream@ =~= u.bytes(ulen, 0) + payload@);
        }
        let slen = stream.len();
        let ghost sseq = stream@;
        let ghost n0 = self.emitted().len() as int;
        let mut n: usize = 0;
        proof {
            assert(frag_payloads(self.emitted().skip(n0)) =~= sseq.take(0));
        }
        while n < slen
            invariant
                self.wf(),
                slen == sseq.len(),
                sseq == stream@,
                8 <= slen <= 65515,
                108 <= limit,
                limit == old(self).spec_mtu() - 20,
                n <= slen,
                n % 8 == 0 || n == slen,
                slen > limit,
                self.spec_flows() == old(self).spec_flows(),
                self.spec_mtu() == old(self).spec_mtu(),
                self.spec_src_hardware_addr() == old(self).spec_src_hardware_addr(),
                self.spec_local_hardware_addr() == old(self).spec_local_hardware_addr(),
                self.spec_src_ip_addr() == old(self).spec_src_ip_addr(),
                self.spec_local_ip_addr() == old(self).spec_local_ip_addr(),
                self.idents() == old(self).idents(),
                ident == old(self).ident_of(dst.ip),
                eth == (Ethernet {
                    dst: old(self).spec_src_hardware_addr(),
                    src: old(self).spec_local_hardware_addr(),
                    kind: ETHERTYPE_IPV4,
                }),
                n0 == old(self).emitted().len(),
                self.emitted().len() >= n0,
                n > 0 ==> self.emitted().len() > n0,
                n == 0 ==> self.emitted().len() == n0,
                self.emitted().subrange(0, n0) == old(self).emitted(),
                frag_payloads(self.emitted().skip(n0)) == sseq.take(n as int),
                forall|i: int|
                    n0 <= i < self.emitted().len() ==> {
                        let e = #[trigger] self.emitted()[i];
                        match e.indicator@.network {
                            Network::Ipv4(ip) => ip.identification == ident && ip.protocol
                                == PROTOCOL_UDP && ip.src == dst.ip && ip.dst == old(
                                self,
                            ).spec_src_ip_addr() && (i < self.emitted().len() - 1
                                ==> ip.more_fragments) && (i == self.emitted().len() - 1
                                ==> ip.more_fragments == (n < slen))
                                && ip.fragment_offset as int * 8 + e.indicator@.payload.len()
                                <= sseq.len() && e.indicator@.payload == sseq.subrange(
                                ip.fragment_offset as int * 8,
                                ip.fragment_offset as int * 8 + e.indicator@.payload.len(),
                            ) && (ip.more_fragments ==> e.indicator@.payload.len() % 8 == 0
                                && e.indicator@.payload.len() >= 8) && (!ip.more_fragments
                                ==> e.indicator@.payload.len() >= 1),
                            _ => false,
                        }
                    },
                forall|i: int|
                    n0 <= i < self.emitted().len() ==> (#[trigger] self.emitted()[i]).indicator@.transport is Raw,
            decreases slen - n,
        {
            let mut length = if slen - n < limit {
                slen - n
            } else {
                limit
            };
            let mut remain = slen - n - length;
            if remain > 0 {
                length = (length / 8) * 8;
                remain = slen - n - length;
            }
            if remain > 0 && remain < 8 {
                length = length - 8;
                remain = slen - n - length;
            }
            let chunk = copy_slice(stream.as_slice(), n, n + length);
            let ip = Ipv4 {
                identification: ident,
                more_fragments: remain > 0,
                fragment_offset: (n / 8) as u16,
                protocol: PROTOCOL_UDP,
                src: dst.ip,
                dst: self.src_ip_addr,
            };
            proof {
                if n == 0 {
                    assert(remain > 0);
                }
                assert(ip.spec_is_fragment());
            }
            let indicator = Indicator {
                ethernet: eth,
                network: Network::Ipv4(ip),
                transport: Transport::Raw,
                payload: chunk,
            };
            let ghost pre = *self;
            self.push_frame(indicator);
            proof {
                assert(self.emitted().subrange(0, n0) =~= old(self).emitted());
                assert(self.emitted().skip(n0).drop_last() =~= pre.emitted().skip(n0));
                assert(self.emitted().skip(n0).last() == self.emitted().last());
                assert(frag_payloads(self.emitted().skip(n0)) =~= sseq.take(n + length)) by {
                    assert(frag_payloads(pre.emitted().skip(n0)) == sseq.take(n as int));
                    assert(self.emitted().last().indicator@.payload =~= sseq.subrange(
                        n as int,
                        n + length,
                    ));
                    assert(sseq.take(n + length) =~= sseq.take(n as int) + sseq.subrange(
                        n as int,
                        n + length,
                    ));
                }
                assert forall|i: int|
                    n0 <= i < self.emitted().len() implies {
                    let e = #[trigger] self.emitted()[i];
                    match e.indicator@.network {
                        Network::Ipv4(ipx) => ipx.identification == ident && ipx.protocol
                            == PROTOCOL_UDP && ipx.src == dst.ip && ipx.dst == old(
                            self,
                        ).spec_src_ip_addr() && (i < self.emitted().len() - 1
                            ==> ipx.more_fragments) && (i == self.emitted().len() - 1
                            ==> ipx.more_fragments == (n + length < slen))
                            && ipx.fragment_offset as int * 8 + e.indicator@.payload.len()
                            <= sseq.len() && e.indicator@.payload == sseq.subrange(
                            ipx.fragment_offset as int * 8,
                            ipx.fragment_offset as int * 8 + e.indicator@.payload.len(),
                        ) && (ipx.more_fragments ==> e.indicator@.payload.len() % 8 == 0
                            && e.indicator@.payload.len() >= 8) && (!ipx.more_fragments
                            ==> e.indicator@.payload.len() >= 1),
                        _ => false,
                    }
                } by {
                    if i < pre.emitted().len() {
                        assert(self.emitted()[i] == pre.emitted()[i]);
                    } else {
                        assert((n / 8) as int * 8 == n as int);
                    }
                }
            }
            n = n + length;
        }
        self.increase_ipv4_identification(dst.ip);
        proof {
            assert(final(self).emitted().subrange(0, n0) =~= old(self).emitted());
            assert(sseq.take(slen as int) =~= sseq);
            assert(final(self).emitted().skip(n0) =~= self.emitted().skip(n0));
        }
        Ok(())
    }

    /// The next sequence number of a flow, when the flow exists.
    pub fn tcp_sequence(&self, dst: SocketV4, src_port: u16) -> (r: Option<u32>)
        requires
            self.wf(),
        ensures
            ({
                let id = spec_flow_id(dst, src_port);
                match r {
                    Some(v) => self.spec_flows().contains_key(id) && v
                        == self.spec_flows()[id].sequence,
                    None => !self.spec_flows().contains_key(id),
                }
            }),
    {
        let id = flow_id(dst, src_port);
        match self.flows.get(&id) {
            Some(f) => Some(f.sequence),
            None => None,
        }
    }

    /// The acknowledgement a flow echoes, when the flow exists.
    pub fn tcp_acknowledgement(&self, dst: SocketV4, src_port: u16) -> (r: Option<u32>)
        requires
            self.wf(),
        ensures
            ({
                let id = spec_flow_id(dst, src_port);
                match r {
                    Some(v) => self.spec_flows().contains_key(id) && v
                        == self.spec_flows()[id].acknowledgement,
                    None => !self.spec_flows().contains_key(id),
                }
            }),
    {
        let id = flow_id(dst, src_port);
        match self.flows.get(&id) {
            Some(f) => Some(f.acknowledgement),
            None => None,
        }
    }

    /// The left edge and length of a flow's retransmission cache, when the
    /// flow has one.
    pub fn tcp_cache_span(&self, dst: SocketV4, src_port: u16) -> (r: Option<(u32, usize)>)
        requires
            self.wf(),
        ensures
            ({
                let id = spec_flow_id(dst, src_port);
                match r {
                    Some(v) => self.spec_flows().contains_key(id)
                        && self.spec_flows()[id].cache is Some && v.0
                        == self.spec_flows()[id].cache->0.seq_left() && v.1
                        == self.spec_flows()[id].cache->0.bytes().len(),
                    None => !self.spec_flows().contains_key(id)
                        || self.spec_flows()[id].cache is None,
                }
            }),
    {
        let id = flow_id(dst, src_port);
        match self.flows.get(&id) {
            Some(f) => match &f.cache {
                Some(c) => Some((c.sequence(), c.len())),
                None => None,
            },
            None => None,
        }
    }
}

/// Every frame in a consistent forwarder's outbox is the exact padded
/// serialization of its layers and meets the minimum frame size.
pub proof fn lemma_outbox_entry(f: Forwarder, i: int)
    requires
        f.wf(),
        0 <= i < f.emitted().len(),
    ensures
        f.emitted()[i].indicator@.wf(),
        f.emitted()[i].frame@ == f.emitted()[i].indicator@.padded_bytes(),
        f.emitted()[i].frame@.len() >= MINIMUM_PACKET_SIZE,
{
    assert(f.emitted()[i].wf());
    lemma_emitted_wf(f.emitted()[i]);
}

/// Every flow's retransmission cache stays within its capacity, which stays
/// within the plausibility window.
pub proof fn lemma_flow_cache_bounds(f: Forwarder, id: u64)
    requires
        f.wf(),
        f.spec_flows().contains_key(id),
        f.spec_flows()[id].cache is Some,
    ensures
        f.spec_flows()[id].cache->0.bytes().len() <= f.spec_flows()[id].cache->0.spec_capacity(),
        f.spec_flows()[id].cache->0.spec_capacity() <= crate::seq_space::MAX_U32_WINDOW_SIZE,
{
    crate::queue::lemma_queue_bounds(f.spec_flows()[id].cache->0);
}

/// Per flow, the next sequence number to transmit never falls behind the
/// cache's left edge and leads it by at most the cached length: it is
/// exactly the cache's right edge.
pub proof fn lemma_sequence_within_cache(f: Forwarder, id: u64)
    requires
        f.wf(),
        f.spec_flows().contains_key(id),
        f.spec_flows()[id].cache is Some,
    ensures
        ({
            let fl = f.spec_flows()[id];
            let c = fl.cache->0;
            &&& spec_seq_sub(fl.sequence, c.seq_left()) == c.bytes().len()
            &&& spec_seq_sub(fl.sequence, c.seq_left()) <= c.bytes().len()
        }),
{
    let fl = f.spec_flows()[id];
    let c = fl.cache->0;
    crate::queue::lemma_queue_bounds(c);
    crate::seq_space::lemma_seq_sub_add(c.seq_left(), c.bytes().len() as u32);
}

/// The callback contract a proxy stream worker drives: pushing proxy bytes
/// toward the client, periodic retransmission checks, and half-close.
pub trait ForwardStream {
    /// The state the channel must keep consistent across calls.
    spec fn stream_wf(&self) -> bool;

    /// Pushes proxy-to-client bytes onto the flow's send queue.
    fn forward(&mut self, dst: SocketV4, src_port: u16, payload: &[u8], now_ms: u64) -> (r: Result<
        (),
        ProtocolError,
    >)
        requires
            old(self).stream_wf(),
        ensures
            final(self).stream_wf(),
    ;

    /// Retransmits whatever has waited past the retransmission timeout.
    fn tick(&mut self, dst: SocketV4, src_port: u16, now_ms: u64) -> (r: Result<
        (),
        ProtocolError,
    >)
        requires
            old(self).stream_wf(),
        ensures
            final(self).stream_wf(),
    ;

    /// Requests a graceful close of the flow toward the client.
    fn close(&mut self, dst: SocketV4, src_port: u16, now_ms: u64) -> (r: Result<
        (),
        ProtocolError,
    >)
        requires
            old(self).stream_wf(),
        ensures
            final(self).stream_wf(),
    ;
}

impl ForwardStream for Forwarder {
    open spec fn stream_wf(&self) -> bool {
        self.wf()
    }

    fn forward(&mut self, dst: SocketV4, src_port: u16, payload: &[u8], now_ms: u64) -> (r: Result<
        (),
        ProtocolError,
    >) {
        self.append_to_queue(dst, src_port, payload, now_ms)
    }

    fn tick(&mut self, dst: SocketV4, src_port: u16, now_ms: u64) -> (r: Result<
        (),
        ProtocolError,
    >) {
        self.retransmit_tcp_ack_timedout(dst, src_port, now_ms)
    }

    fn close(&mut self, dst: SocketV4, src_port: u16, now_ms: u64) -> (r: Result<
        (),
        ProtocolError,
    >) {
        Forwarder::close(self, dst, src_port, now_ms)
    }
}

/// The callback contract a proxy datagram worker drives: pushing
/// proxy-to-client datagrams back onto the wire.
pub trait ForwardDatagram {
    /// The state the channel must keep consistent across calls.
    spec fn datagram_wf(&self) -> bool;

    /// Sends one datagram toward the client.
    fn forward_datagram(&mut self, dst: SocketV4, src_port: u16, payload: &[u8]) -> (r: Result<
        (),
        ProtocolError,
    >)
        requires
            old(self).datagram_wf(),
            payload@.len() <= 65507,
        ensures
            final(self).datagram_wf(),
    ;
}

impl ForwardDatagram for Forwarder {
    open spec fn datagram_wf(&self) -> bool {
        self.wf()
    }

    fn forward_datagram(&mut self, dst: SocketV4, src_port: u16, payload: &[u8]) -> (r: Result<
        (),
        ProtocolError,
    >) {
        self.send_udp(dst, src_port, payload)
    }
}

} // verus!
