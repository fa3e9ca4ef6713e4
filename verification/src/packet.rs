//! The packet model: Ethernet II frames carrying ARP or IPv4, and TCP or UDP
//! inside IPv4, together with their wire encodings.
//!
//! An [`Indicator`] is one frame described layer by layer as plain values.
//! [`Indicator::serialize`] produces the exact bytes of the frame;
//! the parser in [`crate::parse`] reads bytes back into an `Indicator`.

use vstd::prelude::*;

use crate::wire::{
    be16, be32, push_be16, push_be32, spec_checksum, checksum,
};

verus! {

/// EtherType of ARP.
pub const ETHERTYPE_ARP: u16 = 0x0806;

/// EtherType of IPv4.
pub const ETHERTYPE_IPV4: u16 = 0x0800;

/// IPv4 protocol number of TCP.
pub const PROTOCOL_TCP: u8 = 6;

/// IPv4 protocol number of UDP.
pub const PROTOCOL_UDP: u8 = 17;

/// ARP operation code of a request.
pub const ARP_OP_REQUEST: u16 = 1;

/// ARP operation code of a reply.
pub const ARP_OP_REPLY: u16 = 2;

/// A hardware address is carried as the low 48 bits of a word.
pub open spec fn mac_wf(m: u64) -> bool {
    m < 0x1000000000000
}

/// The six big-endian bytes of a hardware address.
pub open spec fn mac_bytes(m: u64) -> Seq<u8> {
    seq![
        (m / 0x10000000000) as u8,
        ((m / 0x100000000) % 256) as u8,
        ((m / 0x1000000) % 256) as u8,
        ((m / 0x10000) % 256) as u8,
        ((m / 256) % 256) as u8,
        (m % 256) as u8,
    ]
}

/// Appends the six big-endian bytes of a hardware address.
pub fn push_mac(v: &mut Vec<u8>, m: u64)
    requires
        mac_wf(m),
    ensures
        final(v)@ == old(v)@ + mac_bytes(m),
{
    v.push((m / 0x10000000000) as u8);
    v.push(((m / 0x100000000) % 256) as u8);
    v.push(((m / 0x1000000) % 256) as u8);
    v.push(((m / 0x10000) % 256) as u8);
    v.push(((m / 256) % 256) as u8);
    v.push((m % 256) as u8);
    proof {
        assert(v@ =~= old(v)@ + mac_bytes(m));
    }
}

/// The Ethernet II header.
#[derive(Clone, Copy, Debug, PartialEq, Eq, Structural)]
pub struct Ethernet {
    /// Destination hardware address (low 48 bits).
    pub dst: u64,
    /// Source hardware address (low 48 bits).
    pub src: u64,
    /// EtherType of the carried network layer.
    pub kind: u16,
}

impl Ethernet {
    /// Both addresses fit in 48 bits.
    pub open spec fn wf(self) -> bool {
        mac_wf(self.dst) && mac_wf(self.src)
    }

    /// The 14 header bytes.
    pub open spec fn bytes(self) -> Seq<u8> {
        mac_bytes(self.dst) + mac_bytes(self.src) + be16(self.kind)
    }
}

/// An ARP packet over Ethernet and IPv4 addresses.
#[derive(Clone, Copy, Debug, PartialEq, Eq, Structural)]
pub struct Arp {
    /// Operation: request or reply.
    pub op: u16,
    /// Sender hardware address.
    pub sha: u64,
    /// Sender protocol (IPv4) address.
    pub spa: u32,
    /// Target hardware address.
    pub tha: u64,
    /// Target protocol (IPv4) address.
    pub tpa: u32,
}

impl Arp {
    /// Both hardware addresses fit in 48 bits.
    pub open spec fn wf(self) -> bool {
        mac_wf(self.sha) && mac_wf(self.tha)
    }

    /// The 28 packet bytes.
    pub open spec fn bytes(self) -> Seq<u8> {
        be16(1) + be16(ETHERTYPE_IPV4) + seq![6u8, 4u8] + be16(self.op) + mac_bytes(self.sha)
            + be32(self.spa) + mac_bytes(self.tha) + be32(self.tpa)
    }

    /// An ARP reply claiming `spa` is at `sha`, addressed to `tha`/`tpa`.
    pub fn new_reply(sha: u64, spa: u32, tha: u64, tpa: u32) -> (a: Arp)
        ensures
            a == (Arp { op: ARP_OP_REPLY, sha, spa, tha, tpa }),
    {
        Arp { op: ARP_OP_REPLY, sha, spa, tha, tpa }
    }

    /// Whether this is a request asking for `target_ip`, sent from
    /// `sender_ip`.
    pub fn is_request_of(&self, sender_ip: u32, target_ip: u32) -> (r: bool)
        ensures
            r == (self.op == ARP_OP_REQUEST && self.spa == sender_ip && self.tpa == target_ip),
    {
        self.op == ARP_OP_REQUEST && self.spa == sender_ip && self.tpa == target_ip
    }
}

/// The IPv4 header (no options; type of service 0, time to live 64).
#[derive(Clone, Copy, Debug, PartialEq, Eq, Structural)]
pub struct Ipv4 {
    /// Identification shared by the fragments of one datagram.
    pub identification: u16,
    /// More-fragments flag.
    pub more_fragments: bool,
    /// Fragment offset in units of eight bytes (13 bits).
    pub fragment_offset: u16,
    /// Protocol number of the carried transport layer.
    pub protocol: u8,
    /// Source address.
    pub src: u32,
    /// Destination address.
    pub dst: u32,
}

impl Ipv4 {
    /// The fragment offset fits its 13-bit field.
    pub open spec fn wf(self) -> bool {
        self.fragment_offset <= 0x1fff
    }

    /// Whether the datagram is one fragment of a larger one.
    pub open spec fn spec_is_fragment(self) -> bool {
        self.more_fragments || self.fragment_offset > 0
    }

    /// Whether the datagram is one fragment of a larger one.
    pub fn is_fragment(&self) -> (r: bool)
        ensures
            r == self.spec_is_fragment(),
    {
        self.more_fragments || self.fragment_offset > 0
    }

    /// The flags-and-offset field: the more-fragments bit over the offset.
    pub open spec fn flags_field(self) -> u16 {
        ((if self.more_fragments {
            0x2000int
        } else {
            0int
        }) + self.fragment_offset) as u16
    }

    /// The 20 header bytes, given the datagram's total length and the header
    /// checksum to write.
    pub open spec fn bytes(self, total_len: u16, ck: u16) -> Seq<u8> {
        seq![0x45u8, 0u8] + be16(total_len) + be16(self.identification) + be16(self.flags_field())
            + seq![64u8, self.protocol] + be16(ck) + be32(self.src) + be32(self.dst)
    }

    /// The header checksum: the ones-complement checksum of the header with
    /// a zero checksum field.
    pub open spec fn header_checksum(self, total_len: u16) -> u16 {
        spec_checksum(self.bytes(total_len, 0))
    }

    /// The header bytes with their checksum filled in.
    pub open spec fn bytes_checksummed(self, total_len: u16) -> Seq<u8> {
        self.bytes(total_len, self.header_checksum(total_len))
    }
}

/// The TCP header, options included.
#[derive(Clone, Debug, PartialEq, Eq)]
pub struct Tcp {
    /// Source port.
    pub src: u16,
    /// Destination port.
    pub dst: u16,
    /// Sequence number.
    pub sequence: u32,
    /// Acknowledgement number.
    pub acknowledgement: u32,
    /// SYN flag.
    pub syn: bool,
    /// ACK flag.
    pub ack: bool,
    /// RST flag.
    pub rst: bool,
    /// FIN flag.
    pub fin: bool,
    /// PSH flag.
    pub psh: bool,
    /// Advertised receive window (not scaled).
    pub window: u16,
    /// Maximum segment size option.
    pub mss: Option<u16>,
    /// Window scale option.
    pub wscale: Option<u8>,
    /// SACK-permitted option.
    pub sack_perm: bool,
    /// Selective acknowledgement blocks, as (begin, end) sequence numbers.
    pub sacks: Vec<(u32, u32)>,
    /// Timestamp option: value and echo reply.
    pub ts: Option<(u32, u32)>,
}

/// The mathematical view of a TCP header.
pub struct TcpS {
    /// Source port.
    pub src: u16,
    /// Destination port.
    pub dst: u16,
    /// Sequence number.
    pub sequence: u32,
    /// Acknowledgement number.
    pub acknowledgement: u32,
    /// SYN flag.
    pub syn: bool,
    /// ACK flag.
    pub ack: bool,
    /// RST flag.
    pub rst: bool,
    /// FIN flag.
    pub fin: bool,
    /// PSH flag.
    pub psh: bool,
    /// Advertised receive window (not scaled).
    pub window: u16,
    /// Maximum segment size option.
    pub mss: Option<u16>,
    /// Window scale option.
    pub wscale: Option<u8>,
    /// SACK-permitted option.
    pub sack_perm: bool,
    /// Selective acknowledgement blocks.
    pub sacks: Seq<(u32, u32)>,
    /// Timestamp option: value and echo reply.
    pub ts: Option<(u32, u32)>,
}

impl View for Tcp {
    type V = TcpS;

    open spec fn view(&self) -> TcpS {
        TcpS {
            src: self.src,
            dst: self.dst,
            sequence: self.sequence,
            acknowledgement: self.acknowledgement,
            syn: self.syn,
            ack: self.ack,
            rst: self.rst,
            fin: self.fin,
            psh: self.psh,
            window: self.window,
            mss: self.mss,
            wscale: self.wscale,
            sack_perm: self.sack_perm,
            sacks: self.sacks@,
            ts: self.ts,
        }
    }
}

/// The bytes of a run of SACK blocks.
pub open spec fn sack_blocks_bytes(blocks: Seq<(u32, u32)>) -> Seq<u8>
    decreases blocks.len(),
{
    if blocks.len() == 0 {
        Seq::empty()
    } else {
        be32(blocks[0].0) + be32(blocks[0].1) + sack_blocks_bytes(blocks.drop_first())
    }
}

/// Each run of SACK blocks takes eight bytes per block.
pub proof fn lemma_sack_blocks_len(blocks: Seq<(u32, u32)>)
    ensures
        sack_blocks_bytes(blocks).len() == 8 * blocks.len(),
    decreases blocks.len(),
{
    if blocks.len() > 0 {
        lemma_sack_blocks_len(blocks.drop_first());
    }
}

/// The bytes of the maximum-segment-size option.
pub open spec fn mss_bytes(mss: Option<u16>) -> Seq<u8> {
    match mss {
        Some(m) => seq![2u8, 4u8] + be16(m),
        None => Seq::empty(),
    }
}

/// The bytes of the window-scale option, padded with one no-operation byte.
pub open spec fn wscale_bytes(wscale: Option<u8>) -> Seq<u8> {
    match wscale {
        Some(w) => seq![3u8, 3u8, w, 1u8],
        None => Seq::empty(),
    }
}

/// The bytes of the SACK-permitted option, padded with two no-operation
/// bytes.
pub open spec fn sack_perm_bytes(sack_perm: bool) -> Seq<u8> {
    if sack_perm {
        seq![4u8, 2u8, 1u8, 1u8]
    } else {
        Seq::empty()
    }
}

/// The bytes of the SACK option, led by two no-operation bytes.
pub open spec fn sack_opt_bytes(sacks: Seq<(u32, u32)>) -> Seq<u8> {
    if sacks.len() > 0 {
        seq![1u8, 1u8, 5u8, (2 + 8 * sacks.len()) as u8] + sack_blocks_bytes(sacks)
    } else {
        Seq::empty()
    }
}

/// The bytes of the timestamp option, led by two no-operation bytes.
pub open spec fn ts_bytes(ts: Option<(u32, u32)>) -> Seq<u8> {
    match ts {
        Some((tv, te)) => seq![1u8, 1u8, 8u8, 10u8] + be32(tv) + be32(te),
        None => Seq::empty(),
    }
}

impl TcpS {
    /// The canonical bytes of the options: maximum segment size, window
    /// scale, SACK permission, SACK blocks and timestamps, in that order,
    /// each padded with no-operation bytes to a multiple of four.
    pub open spec fn opts_bytes(self) -> Seq<u8> {
        mss_bytes(self.mss) + wscale_bytes(self.wscale) + sack_perm_bytes(self.sack_perm)
            + sack_opt_bytes(self.sacks) + ts_bytes(self.ts)
    }

    /// The header length in bytes: 20 plus the options.
    pub open spec fn header_len(self) -> int {
        20 + self.opts_bytes().len() as int
    }

    /// The options fit the 4-bit data-offset field and the SACK blocks fit
    /// their length byte.
    pub open spec fn wf(self) -> bool {
        &&& self.sacks.len() <= 4
        &&& self.opts_bytes().len() <= 40
    }

    /// The flags byte.
    pub open spec fn flags_byte(self) -> u8 {
        ((if self.fin {
            1int
        } else {
            0int
        }) + (if self.syn {
            2int
        } else {
            0int
        }) + (if self.rst {
            4int
        } else {
            0int
        }) + (if self.psh {
            8int
        } else {
            0int
        }) + (if self.ack {
            16int
        } else {
            0int
        })) as u8
    }

    /// The header bytes, options included, with the given checksum field.
    pub open spec fn bytes(self, ck: u16) -> Seq<u8> {
        be16(self.src) + be16(self.dst) + be32(self.sequence) + be32(self.acknowledgement) + seq![
            ((self.header_len() / 4) * 16) as u8,
            self.flags_byte(),
        ] + be16(self.window) + be16(ck) + be16(0) + self.opts_bytes()
    }
}

/// The pseudo-header over which TCP and UDP checksums are computed.
pub open spec fn pseudo_header(src: u32, dst: u32, protocol: u8, len: u16) -> Seq<u8> {
    be32(src) + be32(dst) + seq![0u8, protocol] + be16(len)
}

/// The UDP header.
#[derive(Clone, Copy, Debug, PartialEq, Eq, Structural)]
pub struct Udp {
    /// Source port.
    pub src: u16,
    /// Destination port.
    pub dst: u16,
}

impl Udp {
    /// The 8 header bytes, given the length of header plus payload and the
    /// checksum to write.
    pub open spec fn bytes(self, len: u16, ck: u16) -> Seq<u8> {
        be16(self.src) + be16(self.dst) + be16(len) + be16(ck)
    }
}

/// The transport layer of one frame.
#[derive(Clone, Debug, PartialEq, Eq)]
pub enum Transport {
    /// A TCP segment.
    Tcp(Tcp),
    /// A UDP datagram.
    Udp(Udp),
    /// No transport header: a later fragment, or an unhandled protocol.
    Raw,
}

/// The mathematical view of a transport layer.
pub enum TransportS {
    /// A TCP segment.
    Tcp(TcpS),
    /// A UDP datagram.
    Udp(Udp),
    /// No transport header.
    Raw,
}

impl View for Transport {
    type V = TransportS;

    open spec fn view(&self) -> TransportS {
        match self {
            Transport::Tcp(t) => TransportS::Tcp(t@),
            Transport::Udp(u) => TransportS::Udp(*u),
            Transport::Raw => TransportS::Raw,
        }
    }
}

/// The network layer of one frame.
#[derive(Clone, Copy, Debug, PartialEq, Eq, Structural)]
pub enum Network {
    /// An ARP packet.
    Arp(Arp),
    /// An IPv4 datagram.
    Ipv4(Ipv4),
}

/// One frame, described layer by layer.
#[derive(Clone, Debug, PartialEq, Eq)]
pub struct Indicator {
    /// The Ethernet header.
    pub ethernet: Ethernet,
    /// The network layer.
    pub network: Network,
    /// The transport layer.
    pub transport: Transport,
    /// The transport payload (or the raw fragment bytes).
    pub payload: Vec<u8>,
}

/// The mathematical view of one frame.
pub struct IndicatorS {
    /// The Ethernet header.
    pub ethernet: Ethernet,
    /// The network layer.
    pub network: Network,
    /// The transport layer.
    pub transport: TransportS,
    /// The transport payload (or the raw fragment bytes).
    pub payload: Seq<u8>,
}

impl View for Indicator {
    type V = IndicatorS;

    open spec fn view(&self) -> IndicatorS {
        IndicatorS {
            ethernet: self.ethernet,
            network: self.network,
            transport: self.transport@,
            payload: self.payload@,
        }
    }
}

impl IndicatorS {
    /// The length of the IPv4 datagram: header, transport header, payload.
    pub open spec fn ipv4_total_len(self) -> int {
        20 + match self.transport {
            TransportS::Tcp(t) => t.header_len() + self.payload.len(),
            TransportS::Udp(_) => 8 + self.payload.len() as int,
            TransportS::Raw => self.payload.len() as int,
        }
    }

    /// A constructible frame: the layers fit together and every length fits
    /// its field.
    pub open spec fn wf(self) -> bool {
        &&& self.ethernet.wf()
        &&& match self.network {
            Network::Arp(a) => {
                &&& self.ethernet.kind == ETHERTYPE_ARP
                &&& a.wf()
                &&& self.transport is Raw
                &&& self.payload.len() == 0
            },
            Network::Ipv4(ip) => {
                &&& self.ethernet.kind == ETHERTYPE_IPV4
                &&& ip.wf()
                &&& self.ipv4_total_len() <= 0xffff
                &&& match self.transport {
                    TransportS::Tcp(t) => {
                        &&& !ip.spec_is_fragment()
                        &&& ip.protocol == PROTOCOL_TCP
                        &&& t.wf()
                    },
                    TransportS::Udp(_) => {
                        &&& !ip.spec_is_fragment()
                        &&& ip.protocol == PROTOCOL_UDP
                    },
                    TransportS::Raw => {
                        ip.spec_is_fragment() || (ip.protocol != PROTOCOL_TCP && ip.protocol
                            != PROTOCOL_UDP)
                    },
                }
            },
        }
    }

    /// The bytes of the transport header (checksummed) and payload inside
    /// the IPv4 datagram.
    pub open spec fn transport_bytes(self) -> Seq<u8> {
        match self.network {
            Network::Arp(_) => Seq::empty(),
            Network::Ipv4(ip) => match self.transport {
                TransportS::Tcp(t) => {
                    let len = (t.header_len() + self.payload.len()) as u16;
                    let ck = spec_checksum(
                        pseudo_header(ip.src, ip.dst, PROTOCOL_TCP, len) + t.bytes(0)
                            + self.payload,
                    );
                    t.bytes(ck) + self.payload
                },
                TransportS::Udp(u) => {
                    let len = (8 + self.payload.len()) as u16;
                    let ck = spec_checksum(
                        pseudo_header(ip.src, ip.dst, PROTOCOL_UDP, len) + u.bytes(len, 0)
                            + self.payload,
                    );
                    u.bytes(len, ck) + self.payload
                },
                TransportS::Raw => self.payload,
            },
        }
    }

    /// The exact bytes of the frame.
    pub open spec fn frame_bytes(self) -> Seq<u8> {
        self.ethernet.bytes() + match self.network {
            Network::Arp(a) => a.bytes(),
            Network::Ipv4(ip) => ip.bytes_checksummed(self.ipv4_total_len() as u16)
                + self.transport_bytes(),
        }
    }

    /// The frame bytes padded with zeroes to the minimum frame size.
    pub open spec fn padded_bytes(self) -> Seq<u8> {
        if self.frame_bytes().len() >= crate::MINIMUM_PACKET_SIZE {
            self.frame_bytes()
        } else {
            self.frame_bytes() + Seq::new(
                (crate::MINIMUM_PACKET_SIZE - self.frame_bytes().len()) as nat,
                |i: int| 0u8,
            )
        }
    }
}

/// Appends all of `s`.
fn push_bytes(v: &mut Vec<u8>, s: &[u8])
    ensures
        final(v)@ == old(v)@ + s@,
{
    let n = s.len();
    for i in 0..n
        invariant
            n == s@.len(),
            v@ == old(v)@ + s@.take(i as int),
    {
        v.push(s[i]);
        proof {
            assert(s@.take(i + 1) =~= s@.take(i as int).push(s@[i as int]));
            assert(v@ =~= old(v)@ + s@.take(i + 1));
        }
    }
    proof {
        assert(s@.take(n as int) =~= s@);
    }
}

proof fn lemma_sack_blocks_push(blocks: Seq<(u32, u32)>, b: (u32, u32))
    ensures
        sack_blocks_bytes(blocks.push(b)) == sack_blocks_bytes(blocks) + be32(b.0) + be32(b.1),
    decreases blocks.len(),
{
    if blocks.len() == 0 {
        assert(blocks.push(b).drop_first() =~= Seq::<(u32, u32)>::empty());
        assert(blocks.push(b)[0] == b);
        assert(sack_blocks_bytes(Seq::<(u32, u32)>::empty()) =~= Seq::<u8>::empty());
        assert(sack_blocks_bytes(blocks) =~= Seq::<u8>::empty());
        assert(sack_blocks_bytes(blocks.push(b)) =~= sack_blocks_bytes(blocks) + be32(b.0) + be32(
            b.1,
        ));
    } else {
        assert(blocks.push(b).drop_first() =~= blocks.drop_first().push(b));
        assert(blocks.push(b)[0] == blocks[0]);
        lemma_sack_blocks_push(blocks.drop_first(), b);
        assert(sack_blocks_bytes(blocks.push(b)) =~= sack_blocks_bytes(blocks) + be32(b.0) + be32(
            b.1,
        ));
    }
}

impl Tcp {
    /// The length in bytes of the options this header will carry.
    pub fn opts_len(&self) -> (n: usize)
        requires
            self@.wf(),
        ensures
            n == self@.opts_bytes().len(),
            n <= 40,
    {
        proof {
            lemma_sack_blocks_len(self@.sacks);
        }
        let mut n: usize = 0;
        if self.mss.is_some() {
            n = n + 4;
        }
        if self.wscale.is_some() {
            n = n + 4;
        }
        if self.sack_perm {
            n = n + 4;
        }
        if self.sacks.len() > 0 {
            n = n + 4 + 8 * self.sacks.len();
        }
        if self.ts.is_some() {
            n = n + 12;
        }
        n
    }

    /// Appends the canonical bytes of the options.
    #[verifier::rlimit(100)]
    fn write_opts(&self, v: &mut Vec<u8>)
        requires
            self@.wf(),
        ensures
            final(v)@ == old(v)@ + self@.opts_bytes(),
    {
        let ghost start = v@;
        write_mss(v, &self.mss);
        write_wscale(v, &self.wscale);
        write_sack_perm(v, self.sack_perm);
        write_sacks(v, &self.sacks);
        write_ts(v, &self.ts);
        proof {
            assert(v@ =~= start + self@.opts_bytes());
        }
    }

    /// Appends the header bytes, options included, writing `ck` into the
    /// checksum field.
    fn write_header(&self, v: &mut Vec<u8>, ck: u16)
        requires
            self@.wf(),
        ensures
            final(v)@ == old(v)@ + self@.bytes(ck),
    {
        let ghost start = v@;
        push_be16(v, self.src);
        push_be16(v, self.dst);
        push_be32(v, self.sequence);
        push_be32(v, self.acknowledgement);
        let opts_len = self.opts_len();
        v.push((((20 + opts_len) / 4) * 16) as u8);
        let flags: u8 = (if self.fin {
            1u8
        } else {
            0u8
        }) + (if self.syn {
            2u8
        } else {
            0u8
        }) + (if self.rst {
            4u8
        } else {
            0u8
        }) + (if self.psh {
            8u8
        } else {
            0u8
        }) + (if self.ack {
            16u8
        } else {
            0u8
        });
        v.push(flags);
        push_be16(v, self.window);
        push_be16(v, ck);
        push_be16(v, 0);
        let ghost fixed = be16(self.src) + be16(self.dst) + be32(self.sequence) + be32(
            self.acknowledgement,
        ) + seq![((self@.header_len() / 4) * 16) as u8, self@.flags_byte()] + be16(self.window)
            + be16(ck) + be16(0);
        proof {
            assert(flags == self@.flags_byte());
            assert((((20 + opts_len) / 4) * 16) as u8 == ((self@.header_len() / 4) * 16) as u8);
            assert(v@ =~= start + fixed);
        }
        self.write_opts(v);
        proof {
            assert(self@.bytes(ck) =~= fixed + self@.opts_bytes());
            assert(v@ =~= start + self@.bytes(ck));
        }
    }
}


/// Appends the maximum-segment-size option.
fn write_mss(v: &mut Vec<u8>, mss: &Option<u16>)
    ensures
        final(v)@ == old(v)@ + mss_bytes(*mss),
{
    if let Some(m) = mss {
        v.push(2);
        v.push(4);
        push_be16(v, *m);
        proof {
            assert(v@ =~= old(v)@ + mss_bytes(*mss));
        }
    }
}

/// Appends the window-scale option.
fn write_wscale(v: &mut Vec<u8>, wscale: &Option<u8>)
    ensures
        final(v)@ == old(v)@ + wscale_bytes(*wscale),
{
    if let Some(w) = wscale {
        v.push(3);
        v.push(3);
        v.push(*w);
        v.push(1);
        proof {
            assert(v@ =~= old(v)@ + wscale_bytes(*wscale));
        }
    }
}

/// Appends the SACK-permitted option.
fn write_sack_perm(v: &mut Vec<u8>, sack_perm: bool)
    ensures
        final(v)@ == old(v)@ + sack_perm_bytes(sack_perm),
{
    if sack_perm {
        v.push(4);
        v.push(2);
        v.push(1);
        v.push(1);
        proof {
            assert(v@ =~= old(v)@ + sack_perm_bytes(sack_perm));
        }
    }
}

/// Appends the SACK option with its blocks.
fn write_sacks(v: &mut Vec<u8>, sacks: &Vec<(u32, u32)>)
    requires
        sacks@.len() <= 4,
    ensures
        final(v)@ == old(v)@ + sack_opt_bytes(sacks@),
{
    if sacks.len() > 0 {
        v.push(1);
        v.push(1);
        v.push(5);
        v.push((2 + 8 * sacks.len()) as u8);
        let ghost head = v@;
        let n = sacks.len();
        for i in 0..n
            invariant
                n == sacks@.len(),
                n <= 4,
                v@ == head + sack_blocks_bytes(sacks@.take(i as int)),
        {
            let b = sacks[i];
            push_be32(v, b.0);
            push_be32(v, b.1);
            proof {
                lemma_sack_blocks_push(sacks@.take(i as int), sacks@[i as int]);
                assert(sacks@.take(i + 1) =~= sacks@.take(i as int).push(sacks@[i as int]));
                assert(v@ =~= head + sack_blocks_bytes(sacks@.take(i + 1)));
            }
        }
        proof {
            assert(sacks@.take(n as int) =~= sacks@);
            assert(v@ =~= old(v)@ + sack_opt_bytes(sacks@));
        }
    }
}

/// Appends the timestamp option.
fn write_ts(v: &mut Vec<u8>, ts: &Option<(u32, u32)>)
    ensures
        final(v)@ == old(v)@ + ts_bytes(*ts),
{
    if let Some((tv, te)) = ts {
        v.push(1);
        v.push(1);
        v.push(8);
        v.push(10);
        push_be32(v, *tv);
        push_be32(v, *te);
        proof {
            assert(v@ =~= old(v)@ + ts_bytes(*ts));
        }
    }
}

impl Indicator {
    /// The exact bytes of the frame, checksums computed.
    #[verifier::rlimit(100)]
    #[verifier::spinoff_prover]
    pub fn serialize(&self) -> (r: Vec<u8>)
        requires
            self@.wf(),
        ensures
            r@ == self@.frame_bytes(),
    {
        let mut v: Vec<u8> = Vec::new();
        push_mac(&mut v, self.ethernet.dst);
        push_mac(&mut v, self.ethernet.src);
        push_be16(&mut v, self.ethernet.kind);
        proof {
            assert(v@ =~= self@.ethernet.bytes());
        }
        let ghost after_eth = v@;
        match &self.network {
            Network::Arp(a) => {
                push_be16(&mut v, 1);
                push_be16(&mut v, ETHERTYPE_IPV4);
                v.push(6);
                v.push(4);
                push_be16(&mut v, a.op);
                push_mac(&mut v, a.sha);
                push_be32(&mut v, a.spa);
                push_mac(&mut v, a.tha);
                push_be32(&mut v, a.tpa);
                proof {
                    assert(v@ =~= after_eth + a.bytes());
                    assert(v@ =~= self@.frame_bytes());
                }
            },
            Network::Ipv4(ip) => {
                let transport_len: usize = match &self.transport {
                    Transport::Tcp(t) => 20 + t.opts_len() + self.payload.len(),
                    Transport::Udp(_) => 8 + self.payload.len(),
                    Transport::Raw => self.payload.len(),
                };
                let total: u16 = (20 + transport_len) as u16;
                proof {
                    assert(total == self@.ipv4_total_len());
                }
                // the IPv4 header, checksummed over itself with a zero field
                let mut h: Vec<u8> = Vec::new();
                write_ipv4_fields(&mut h, ip, total, 0);
                let ck = checksum(h.as_slice());
                write_ipv4_fields(&mut v, ip, total, ck);
                proof {
                    assert(v@ =~= after_eth + ip.bytes_checksummed(total));
                }
                let ghost after_ip = v@;
                match &self.transport {
                    Transport::Tcp(t) => {
                        let tlen: u16 = (20 + t.opts_len() + self.payload.len()) as u16;
                        let mut tmp: Vec<u8> = Vec::new();
                        push_be32(&mut tmp, ip.src);
                        push_be32(&mut tmp, ip.dst);
                        tmp.push(0);
                        tmp.push(PROTOCOL_TCP);
                        push_be16(&mut tmp, tlen);
                        proof {
                            assert(tmp@ =~= pseudo_header(ip.src, ip.dst, PROTOCOL_TCP, tlen));
                        }
                        let ghost after_pseudo = tmp@;
                        t.write_header(&mut tmp, 0);
                        push_bytes(&mut tmp, self.payload.as_slice());
                        proof {
                            assert(tmp@ =~= pseudo_header(ip.src, ip.dst, PROTOCOL_TCP, tlen)
                                + t@.bytes(0) + self@.payload);
                        }
                        let tck = checksum(tmp.as_slice());
                        t.write_header(&mut v, tck);
                        push_bytes(&mut v, self.payload.as_slice());
                        proof {
                            assert(v@ =~= after_ip + self@.transport_bytes());
                            assert(v@ =~= self@.frame_bytes());
                        }
                    },
                    Transport::Udp(u) => {
                        let ulen: u16 = (8 + self.payload.len()) as u16;
                        let mut tmp: Vec<u8> = Vec::new();
                        push_be32(&mut tmp, ip.src);
                        push_be32(&mut tmp, ip.dst);
                        tmp.push(0);
                        tmp.push(PROTOCOL_UDP);
                        push_be16(&mut tmp, ulen);
                        push_be16(&mut tmp, u.src);
                        push_be16(&mut tmp, u.dst);
                        push_be16(&mut tmp, ulen);
                        push_be16(&mut tmp, 0);
                        push_bytes(&mut tmp, self.payload.as_slice());
                        proof {
                            assert(tmp@ =~= pseudo_header(ip.src, ip.dst, PROTOCOL_UDP, ulen)
                                + u.bytes(ulen, 0) + self@.payload);
                        }
                        let uck = checksum(tmp.as_slice());
                        push_be16(&mut v, u.src);
                        push_be16(&mut v, u.dst);
                        push_be16(&mut v, ulen);
                        push_be16(&mut v, uck);
                        push_bytes(&mut v, self.payload.as_slice());
                        proof {
                            assert(v@ =~= after_ip + u.bytes(ulen, uck) + self@.payload);
                            assert(v@ =~= after_ip + self@.transport_bytes());
                            assert(v@ =~= self@.frame_bytes());
                        }
                    },
                    Transport::Raw => {
                        push_bytes(&mut v, self.payload.as_slice());
                        proof {
                            assert(v@ =~= after_ip + self@.transport_bytes());
                            assert(v@ =~= self@.frame_bytes());
                        }
                    },
                }
            },
        }
        v
    }

    /// The frame bytes padded with zeroes to the minimum frame size.
    pub fn emit(&self) -> (r: Vec<u8>)
        requires
            self@.wf(),
        ensures
            r@ == self@.padded_bytes(),
            r@.len() >= crate::MINIMUM_PACKET_SIZE,
    {
        let mut v = self.serialize();
        let ghost frame = v@;
        proof {
            assert(v@ =~= frame + Seq::new(0nat, |i: int| 0u8));
        }
        while v.len() < crate::MINIMUM_PACKET_SIZE
            invariant
                frame == self@.frame_bytes(),
                v@.len() >= frame.len(),
                frame.len() >= crate::MINIMUM_PACKET_SIZE ==> v@.len() == frame.len(),
                frame.len() < crate::MINIMUM_PACKET_SIZE ==> v@.len()
                    <= crate::MINIMUM_PACKET_SIZE,
                v@ == frame + Seq::new((v@.len() - frame.len()) as nat, |i: int| 0u8),
            decreases crate::MINIMUM_PACKET_SIZE - v@.len(),
        {
            v.push(0);
            proof {
                assert(v@ =~= frame + Seq::new((v@.len() - frame.len()) as nat, |i: int| 0u8));
            }
        }
        proof {
            if frame.len() >= crate::MINIMUM_PACKET_SIZE {
                assert(v@ =~= frame);
                assert(v@ =~= self@.padded_bytes());
            } else {
                assert(v@ =~= self@.padded_bytes());
            }
        }
        v
    }
}

/// Appends the 20 IPv4 header bytes with the given total length and
/// checksum field.
fn write_ipv4_fields(v: &mut Vec<u8>, ip: &Ipv4, total: u16, ck: u16)
    requires
        ip.wf(),
    ensures
        final(v)@ == old(v)@ + ip.bytes(total, ck),
{
    let ghost start = v@;
    v.push(0x45);
    v.push(0);
    push_be16(v, total);
    push_be16(v, ip.identification);
    let flags: u16 = (if ip.more_fragments {
        0x2000u16
    } else {
        0u16
    }) + ip.fragment_offset;
    push_be16(v, flags);
    v.push(64);
    v.push(ip.protocol);
    push_be16(v, ck);
    push_be32(v, ip.src);
    push_be32(v, ip.dst);
    proof {
        assert(flags == ip.flags_field());
        assert(v@ =~= start + ip.bytes(total, ck));
    }
}

} // verus!
