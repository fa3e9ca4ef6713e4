//! A userspace TCP/UDP protocol engine that terminates client flows captured
//! from a link-layer interface and relays them toward a SOCKS proxy.
//!
//! The crate owns the protocol logic: wrap-safe 32-bit sequence arithmetic,
//! the send-side retransmission cache, the receive-side reassembly window,
//! IPv4 defragmentation, the bounded UDP NAT table, frame construction, and
//! the per-flow TCP state machine. Capture, injection and SOCKS I/O are left
//! to the embedding program, which hands frames in and carries actions out.

use vstd::prelude::*;

pub mod defrag;
pub mod forwarder;
pub mod iface;
pub mod packet;
pub mod parse;
pub mod port_map;
pub mod queue;
pub mod redirector;
pub mod seq_space;
pub mod window;
pub mod wire;

verus! {

/// An IPv4 endpoint: address and port, as plain values.
#[derive(Clone, Copy, Debug, PartialEq, Eq, Structural)]
pub struct SocketV4 {
    /// The IPv4 address.
    pub ip: u32,
    /// The port.
    pub port: u16,
}

/// The identity of one flow, `(src_port, dst)`, packed into one word:
/// the source port in the top 16 bits, then the destination address, then
/// the destination port.
pub open spec fn spec_flow_id(dst: SocketV4, src_port: u16) -> u64 {
    (src_port * 0x1000000000000 + dst.ip * 0x10000 + dst.port) as u64
}

/// Packs a flow's identity into one word.
pub fn flow_id(dst: SocketV4, src_port: u16) -> (r: u64)
    ensures
        r == spec_flow_id(dst, src_port),
{
    (src_port as u64) * 0x1000000000000 + (dst.ip as u64) * 0x10000 + (dst.port as u64)
}

/// The packing of flow identities into words loses nothing.
pub proof fn lemma_flow_id_injective(dst1: SocketV4, src1: u16, dst2: SocketV4, src2: u16)
    requires
        spec_flow_id(dst1, src1) == spec_flow_id(dst2, src2),
    ensures
        dst1 == dst2 && src1 == src2,
{
    let a = spec_flow_id(dst1, src1);
    assert(src1 == a / 0x1000000000000 && dst1.ip == (a / 0x10000) % 0x100000000 && dst1.port == a
        % 0x10000) by (nonlinear_arith)
        requires
            a == src1 * 0x1000000000000 + dst1.ip * 0x10000 + dst1.port,
    ;
    assert(src2 == a / 0x1000000000000 && dst2.ip == (a / 0x10000) % 0x100000000 && dst2.port == a
        % 0x10000) by (nonlinear_arith)
        requires
            a == src2 * 0x1000000000000 + dst2.ip * 0x10000 + dst2.port,
    ;
}

/// Recoverable faults of the protocol engine.
#[derive(Clone, Copy, Debug, PartialEq, Eq, Structural)]
pub enum ProtocolError {
    /// A cache or window was asked to hold more bytes than its capacity.
    OutOfCapacity,
    /// A requested slice lies outside the bytes a cache holds.
    OutOfRange,
    /// A per-flow operation named a flow that does not exist.
    MissingFlow,
}

/// Wait (in ms) after a capture timeout before polling again.
pub const TIMEDOUT_WAIT: u64 = 20;

/// Retransmission timeout in milliseconds.
pub const RTO: u64 = 3000;

/// Minimum length of an emitted Ethernet frame (without FCS).
pub const MINIMUM_PACKET_SIZE: usize = 60;

/// Duplicate ACKs required before a fast retransmission.
pub const DUPLICATES_BEFORE_FAST_RETRANSMISSION: usize = 3;

/// Cool-down (in ms) between two retransmissions on one flow.
pub const RETRANSMISSION_COOL_DOWN: u64 = 200;

/// Whether the TCP timestamp option is echoed on emitted segments.
pub const ENABLE_TIMESTAMP: bool = false;

/// Milliseconds per tick of the timestamp clock.
pub const TIMESTAMP_RATE: u64 = 1;

/// Whether the peer's MSS option bounds outgoing segments instead of the MTU.
pub const PREFER_SEND_MSS: bool = true;

/// Whether the window scale option is negotiated.
pub const ENABLE_WSCALE: bool = true;

/// Largest window scale announced for the receive window.
pub const MAX_RECV_WSCALE: u8 = 8;

/// Whether selective acknowledgements are negotiated.
pub const ENABLE_SACK: bool = true;

/// Capacity of the UDP NAT table (local ports bound at once).
pub const PORT_COUNT: usize = 64;

} // verus!
