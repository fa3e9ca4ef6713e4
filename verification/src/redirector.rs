//! The receive side of the engine: the per-flow TCP state machine, duplicate
//! acknowledgement tracking, fast-retransmission gating, reassembly, ARP
//! answering and the UDP port table.
//!
//! The redirector never performs proxy I/O itself: handling a frame returns
//! the actions the embedding program must carry out (connect a stream, hand
//! it bytes, close it, bind or use a datagram socket), and the program
//! reports each outcome back through the `on_*` methods.

use std::collections::HashMap;

use vstd::prelude::*;

use crate::forwarder::Forwarder;
use crate::packet::{Ipv4, Network, Tcp, TcpS, Transport, PROTOCOL_TCP, PROTOCOL_UDP};
use crate::port_map::{lru_has_key, PortDecision, PortMap};
use crate::queue::{spec_invalidated_bytes, spec_invalidated_left};
use crate::seq_space::{seq_add, seq_sub, spec_seq_add, spec_seq_sub, MAX_U32_WINDOW_SIZE};
use crate::window::{spec_clamped_scale, spec_pow2, Window};
use crate::{flow_id, spec_flow_id, ProtocolError, SocketV4, DUPLICATES_BEFORE_FAST_RETRANSMISSION,
    ENABLE_SACK, ENABLE_TIMESTAMP, ENABLE_WSCALE, MAX_RECV_WSCALE, PREFER_SEND_MSS,
    RETRANSMISSION_COOL_DOWN};

verus! {

broadcast use vstd::std_specs::hash::group_hash_axioms;

/// Relies on `rand::random`: a sampled word. Nothing is promised of the
/// value; the initial sequence number may be anything.
#[verifier::external_body]
fn random_u32() -> u32 {
    rand::random::<u32>()
}

/// What the embedding program must do next for the engine.
pub enum Action {
    /// Establish a proxy stream for this flow (its SYN is carried along),
    /// then report through [`Redirector::on_connect_result`].
    ConnectStream { dst: SocketV4, src_port: u16, syn: Tcp },
    /// Hand received bytes to the flow's proxy stream, then report through
    /// [`Redirector::on_deliver_result`].
    DeliverToStream { dst: SocketV4, src_port: u16, payload: Vec<u8> },
    /// Half-close the flow's proxy stream toward the proxy.
    CloseStream { dst: SocketV4, src_port: u16 },
    /// Discard the flow's proxy stream.
    DropStream { dst: SocketV4, src_port: u16 },
    /// Bind a fresh local datagram socket for this source port, then report
    /// through [`Redirector::on_bind_result`] and send the payload.
    BindDatagram { src_port: u16, dst: SocketV4, payload: Vec<u8> },
    /// Send the payload through the datagram socket bound at `local_port`,
    /// rebinding its source port when it changed.
    SendDatagram { local_port: u16, src_port: u16, dst: SocketV4, payload: Vec<u8> },
}

/// The receive-side state of one TCP flow.
pub struct FlowRecv {
    /// The next in-order sequence number expected from the client.
    pub recv_next: u32,
    /// The highest acknowledgement seen, for duplicate detection.
    pub acknowledgement: u32,
    /// How many duplicate acknowledgements in a row.
    pub duplicates: usize,
    /// When the last fast retransmission happened.
    pub last_retransmission_at: Option<u64>,
    /// The window scale we announced.
    pub wscale: u8,
    /// Whether both sides permitted selective acknowledgements.
    pub sack_perm: bool,
    /// Whether the program reported the proxy stream's read side closed.
    pub read_closed: bool,
    /// Whether the program reported the proxy stream's write side closed.
    pub write_closed: bool,
    /// Out-of-order bytes received so far.
    pub cache: Option<Window>,
}

/// A receive flow is consistent: its window is, and the window's next
/// expected sequence number is the flow's.
pub open spec fn recv_wf(f: FlowRecv) -> bool {
    match f.cache {
        Some(w) => w.wf() && w.spec_recv_next() == f.recv_next,
        None => true,
    }
}

/// The duplicate-acknowledgement update rule: an unchanged acknowledgement
/// counts a duplicate; a plausible advance stores it and resets the count; an
/// implausible one changes nothing.
pub open spec fn spec_ack_update(stored: u32, dup: int, ack: u32) -> (u32, int) {
    let delta = spec_seq_sub(ack, stored) as int;
    if delta == 0 {
        (stored, if dup < usize::MAX {
            dup + 1
        } else {
            dup
        })
    } else if delta <= MAX_U32_WINDOW_SIZE {
        (ack, 0)
    } else {
        (stored, dup)
    }
}

/// The window has no byte waiting beyond its delivered prefix.
pub open spec fn window_drained(f: FlowRecv) -> bool {
    match f.cache {
        Some(w) => crate::window::spec_drained(w),
        None => true,
    }
}

/// How many bytes the flow's window can still accept, counting a window not
/// yet created at its full capacity for the announced scale.
pub open spec fn spec_window_room(f: FlowRecv) -> int {
    match f.cache {
        Some(w) => w.spec_capacity() - w.spec_delivered(),
        None => 0xffff * spec_pow2(spec_clamped_scale(f.wscale)),
    }
}

/// The peer's advertised window under the flow's announced scale.
pub open spec fn spec_shifted_window(window: u16, wscale: u8) -> int {
    window * spec_pow2(spec_clamped_scale(wscale))
}

/// The fast-retransmission cool-down has elapsed (or never started).
pub open spec fn spec_cooled_down(last: Option<u64>, now_ms: u64) -> bool {
    match last {
        Some(t) => t <= now_ms && now_ms - t >= RETRANSMISSION_COOL_DOWN,
        None => true,
    }
}

/// The bytes a flow still owes the peer on the send side once an
/// acknowledgement has trimmed its cache: what would remain cached plus what
/// is still queued.
pub open spec fn spec_fwd_backlog(fwd: Forwarder, id: u64, ack: u32) -> int {
    if fwd.spec_flows().contains_key(id) {
        let fl = fwd.spec_flows()[id];
        (match fl.cache {
            Some(c) => spec_invalidated_bytes(c, ack).len() as int,
            None => 0int,
        }) + fl.queue@.len()
    } else {
        0
    }
}

/// The outbox entry `e` is a bare control segment toward `src_port` with the
/// given flags.
pub open spec fn bare_seg(
    e: crate::forwarder::Emitted,
    dst: SocketV4,
    src_port: u16,
    ackf: bool,
    rst: bool,
    fin: bool,
) -> bool {
    match e.indicator@.transport {
        crate::packet::TransportS::Tcp(t) => {
            &&& t.ack == ackf && t.rst == rst && t.fin == fin && !t.syn
            &&& t.src == dst.port && t.dst == src_port
            &&& e.indicator@.payload == Seq::<u8>::empty()
        },
        _ => false,
    }
}

/// The receive half of the engine.
pub struct Redirector {
    src_ip_addr: u32,
    local_ip_addr: Option<u32>,
    is_src_hardware_addr_set: bool,
    flows: HashMap<u64, FlowRecv>,
    ports: PortMap,
    defrag: crate::defrag::Defraggler,
}

impl Redirector {
    /// The per-flow receive states, by packed flow identity.
    pub closed spec fn spec_flows(self) -> Map<u64, FlowRecv> {
        self.flows@
    }

    /// The UDP port table.
    pub closed spec fn spec_ports(self) -> PortMap {
        self.ports
    }

    /// The captured client's IPv4 address.
    pub closed spec fn spec_src_ip_addr(self) -> u32 {
        self.src_ip_addr
    }

    /// The impersonated gateway's address, when known.
    pub closed spec fn spec_local_ip_addr(self) -> Option<u32> {
        self.local_ip_addr
    }

    /// Whether the client's hardware address has been learned.
    pub closed spec fn spec_hw_learned(self) -> bool {
        self.is_src_hardware_addr_set
    }

    /// Every flow and table is consistent.
    pub closed spec fn wf(self) -> bool {
        &&& forall|k: u64|
            self.flows@.contains_key(k) ==> recv_wf(#[trigger] self.flows@[k])
        &&& self.ports.wf()
        &&& self.defrag.wf()
    }

    /// A redirector for one captured client.
    pub fn new(src_ip_addr: u32, local_ip_addr: Option<u32>) -> (r: Redirector)
        ensures
            r.wf(),
            r.spec_flows() == Map::<u64, FlowRecv>::empty(),
            r.spec_src_ip_addr() == src_ip_addr,
            r.spec_local_ip_addr() == local_ip_addr,
            !r.spec_hw_learned(),
    {
        let r = Redirector {
            src_ip_addr,
            local_ip_addr,
            is_src_hardware_addr_set: false,
            flows: HashMap::new(),
            ports: PortMap::new(),
            defrag: crate::defrag::Defraggler::new(),
        };
        proof {
            assert(r.flows@ =~= Map::<u64, FlowRecv>::empty());
        }
        r
    }

    /// Forgets the receive state of one flow.
    pub fn remove(&mut self, dst: SocketV4, src_port: u16)
        requires
            old(self).wf(),
        ensures
            final(self).wf(),
            final(self).spec_flows() == old(self).spec_flows().remove(spec_flow_id(dst, src_port)),
            final(self).spec_ports() == old(self).spec_ports(),
            final(self).spec_hw_learned() == old(self).spec_hw_learned(),
            final(self).spec_src_ip_addr() == old(self).spec_src_ip_addr(),
            final(self).spec_local_ip_addr() == old(self).spec_local_ip_addr(),
    {
        let id = flow_id(dst, src_port);
        self.flows.remove(&id);
    }

    /// Records what the program knows of a flow's proxy stream.
    pub fn note_stream_state(
        &mut self,
        dst: SocketV4,
        src_port: u16,
        read_closed: bool,
        write_closed: bool,
    )
        requires
            old(self).wf(),
        ensures
            final(self).wf(),
            final(self).spec_ports() == old(self).spec_ports(),
            final(self).spec_hw_learned() == old(self).spec_hw_learned(),
            final(self).spec_src_ip_addr() == old(self).spec_src_ip_addr(),
            final(self).spec_local_ip_addr() == old(self).spec_local_ip_addr(),
            ({
                let id = spec_flow_id(dst, src_port);
                if old(self).spec_flows().contains_key(id) {
                    final(self).spec_flows() == old(self).spec_flows().insert(
                        id,
                        FlowRecv { read_closed, write_closed, ..old(self).spec_flows()[id] },
                    )
                } else {
                    final(self).spec_flows() == old(self).spec_flows()
                }
            }),
    {
        let id = flow_id(dst, src_port);
        match self.flows.remove(&id) {
            Some(mut f) => {
                f.read_closed = read_closed;
                f.write_closed = write_closed;
                self.flows.insert(id, f);
                proof {
                    assert(final(self).spec_flows() =~= old(self).spec_flows().insert(
                        spec_flow_id(dst, src_port),
                        FlowRecv {
                            read_closed,
                            write_closed,
                            ..old(self).spec_flows()[spec_flow_id(dst, src_port)]
                        },
                    ));
                }
            },
            None => {
                proof {
                    assert(final(self).spec_flows() =~= old(self).spec_flows());
                }
            },
        }
    }

    /// Stores a peer acknowledgement: counts duplicates and resets the count
    /// on any plausible advance.
    fn update_tcp_acknowledgement(&mut self, dst: SocketV4, src_port: u16, ack: u32)
        requires
            old(self).wf(),
        ensures
            final(self).wf(),
            final(self).spec_ports() == old(self).spec_ports(),
            final(self).spec_hw_learned() == old(self).spec_hw_learned(),
            final(self).spec_src_ip_addr() == old(self).spec_src_ip_addr(),
            final(self).spec_local_ip_addr() == old(self).spec_local_ip_addr(),
            ({
                let id = spec_flow_id(dst, src_port);
                if old(self).spec_flows().contains_key(id) {
                    {
                        let f1 = old(self).spec_flows()[id];
                        let f2 = final(self).spec_flows()[id];
                        let upd = spec_ack_update(f1.acknowledgement, f1.duplicates as int, ack);
                        &&& final(self).spec_flows().contains_key(id)
                        &&& final(self).spec_flows() == old(self).spec_flows().insert(id, f2)
                        &&& f2.acknowledgement == upd.0
                        &&& f2.duplicates == upd.1
                        &&& f2 == (FlowRecv {
                            acknowledgement: f2.acknowledgement,
                            duplicates: f2.duplicates,
                            ..f1
                        })
                    }
                } else {
                    final(self).spec_flows() == old(self).spec_flows()
                }
            }),
    {
        let id = flow_id(dst, src_port);
        match self.flows.remove(&id) {
            Some(mut f) => {
                let delta = seq_sub(ack, f.acknowledgement);
                if delta == 0 {
                    if f.duplicates < usize::MAX {
                        f.duplicates = f.duplicates + 1;
                    }
                } else if delta as usize <= MAX_U32_WINDOW_SIZE {
                    f.acknowledgement = ack;
                    f.duplicates = 0;
                }
                self.flows.insert(id, f);
                proof {
                    assert(final(self).spec_flows() =~= old(self).spec_flows().insert(
                        spec_flow_id(dst, src_port),
                        final(self).spec_flows()[spec_flow_id(dst, src_port)],
                    ));
                }
            },
            None => {
                proof {
                    assert(final(self).spec_flows() =~= old(self).spec_flows());
                }
            },
        }
    }

    /// Answers an ARP request for the impersonated gateway, learning the
    /// client's hardware address from it. Anything else changes nothing.
    pub fn handle_arp(
        &mut self,
        fwd: &mut Forwarder,
        sha: u64,
        spa: u32,
        tpa: u32,
        is_request: bool,
    ) -> (r: Result<(), ProtocolError>)
        requires
            old(self).wf(),
            old(fwd).wf(),
        ensures
            final(self).wf(),
            final(fwd).wf(),
            r is Ok,
            final(self).spec_flows() == old(self).spec_flows(),
            final(self).spec_ports() == old(self).spec_ports(),
            final(fwd).spec_flows() == old(fwd).spec_flows(),
            ({
                let matches = old(self).spec_local_ip_addr() is Some && is_request && spa == old(
                    self,
                ).spec_src_ip_addr() && tpa == old(self).spec_local_ip_addr()->0 && sha
                    < 0x1000000000000;
                if matches {
                    {
                        &&& final(fwd).emitted().len() == old(fwd).emitted().len() + 1
                        &&& match final(fwd).emitted().last().indicator@.network {
                            Network::Arp(a) => {
                                &&& a.op == crate::packet::ARP_OP_REPLY
                                &&& a.sha == old(fwd).spec_local_hardware_addr()
                                &&& a.spa == old(fwd).spec_local_ip_addr()
                                &&& a.tpa == old(fwd).spec_src_ip_addr()
                                &&& (!old(self).spec_hw_learned() ==> a.tha == sha)
                            },
                            _ => false,
                        }
                        &&& (!old(self).spec_hw_learned() ==> final(fwd).spec_src_hardware_addr() == sha && final(self).spec_hw_learned())
                    }
                } else {
                    final(fwd).emitted() == old(fwd).emitted() && final(fwd).spec_src_hardware_addr() == old(fwd).spec_src_hardware_addr()
                }
            }),
    {
        if let Some(local_ip) = self.local_ip_addr {
            if is_request && spa == self.src_ip_addr && tpa == local_ip && sha < 0x1000000000000 {
                if !self.is_src_hardware_addr_set {
                    fwd.set_src_hardware_addr(sha);
                    self.is_src_hardware_addr_set = true;
                }
                let _ = fwd.send_arp_reply();
            }
        }
        Ok(())
    }

    /// Handles one captured frame end to end: parses it, answers ARP,
    /// reassembles fragments and advances the TCP or UDP state, returning
    /// the actions the program must carry out. Malformed frames are dropped.
    pub fn handle_frame(&mut self, fwd: &mut Forwarder, frame: &[u8], now_ms: u64) -> (r: Result<
        Vec<Action>,
        ProtocolError,
    >)
        requires
            old(self).wf(),
            old(fwd).wf(),
        ensures
            final(self).wf(),
            final(fwd).wf(),
            crate::parse::spec_parse_frame(frame@) is None ==> *final(self) == *old(self) && *final(fwd) == *old(fwd) && r is Ok && r->Ok_0@.len() == 0,
            ({
                match crate::parse::spec_parse_frame(frame@) {
                    Some(ind) => {
                        // an ARP frame answers at most a gateway request and
                        // never touches flow state
                        &&& (ind.network is Arp ==> final(self).spec_flows() == old(
                            self,
                        ).spec_flows() && final(self).spec_ports() == old(self).spec_ports() && r is Ok
                            && r->Ok_0@.len() == 0)
                        // traffic that is not the captured client's is dropped
                        &&& (match ind.network {
                            Network::Ipv4(ip) => ip.src != old(self).spec_src_ip_addr()
                                ==> *final(self) == *old(self) && *final(fwd) == *old(fwd)
                                && r is Ok && r->Ok_0@.len() == 0,
                            _ => true,
                        })
                    },
                    None => true,
                }
            }),
    {
        let parsed = crate::parse::parse_frame(frame);
        let ind = match parsed {
            Some(ind) => ind,
            None => {
                return Ok(Vec::new());
            },
        };
        match ind.network {
            Network::Arp(a) => {
                let _ = self.handle_arp(
                    fwd,
                    a.sha,
                    a.spa,
                    a.tpa,
                    a.op == crate::packet::ARP_OP_REQUEST,
                );
                Ok(Vec::new())
            },
            Network::Ipv4(ip) => self.handle_ipv4(
                fwd,
                ip,
                ind.ethernet.src,
                ind.transport,
                ind.payload,
                now_ms,
            ),
        }
    }

    /// Handles one IPv4 datagram: anything not from the captured client is
    /// dropped; the client's hardware address is learned from the first
    /// frame; fragments go through the defragmenter; whole datagrams are
    /// dispatched by protocol.
    pub fn handle_ipv4(
        &mut self,
        fwd: &mut Forwarder,
        ip: Ipv4,
        eth_src: u64,
        transport: Transport,
        payload: Vec<u8>,
        now_ms: u64,
    ) -> (r: Result<Vec<Action>, ProtocolError>)
        requires
            old(self).wf(),
            old(fwd).wf(),
        ensures
            final(self).wf(),
            final(fwd).wf(),
            ip.src != old(self).spec_src_ip_addr() ==> *final(self) == *old(self) && *final(fwd)
                == *old(fwd) && r is Ok && r->Ok_0@.len() == 0,
            ip.src == old(self).spec_src_ip_addr() && !old(self).spec_hw_learned() && eth_src
                < 0x1000000000000 ==> final(fwd).spec_src_hardware_addr() == eth_src && final(self).spec_hw_learned(),
            ip.src == old(self).spec_src_ip_addr() && !ip.spec_is_fragment() && transport is Raw
                ==> final(self).spec_flows() == old(self).spec_flows() && final(fwd).emitted()
                == old(fwd).emitted() && r is Ok && r->Ok_0@.len() == 0,
    {
        if ip.src != self.src_ip_addr {
            return Ok(Vec::new());
        }
        if !self.is_src_hardware_addr_set && eth_src < 0x1000000000000 {
            fwd.set_src_hardware_addr(eth_src);
            self.is_src_hardware_addr_set = true;
        }
        if ip.is_fragment() {
            if ip.fragment_offset > 0x1fff {
                return Ok(Vec::new());
            }
            let done = self.defrag.add(&ip, payload.as_slice());
            match done {
                Some((whole, body)) => {
                    if whole.protocol == PROTOCOL_TCP {
                        match crate::parse::parse_tcp_body(body.as_slice()) {
                            Some((tcp, pl)) => self.handle_tcp(fwd, whole, tcp, pl, now_ms),
                            None => Ok(Vec::new()),
                        }
                    } else if whole.protocol == PROTOCOL_UDP {
                        match crate::parse::parse_udp_body(body.as_slice()) {
                            Some((udp, pl)) => self.handle_udp(whole, udp.src, udp.dst, pl),
                            None => Ok(Vec::new()),
                        }
                    } else {
                        Ok(Vec::new())
                    }
                },
                None => Ok(Vec::new()),
            }
        } else {
            match transport {
                Transport::Tcp(tcp) => self.handle_tcp(fwd, ip, tcp, payload, now_ms),
                Transport::Udp(udp) => self.handle_udp(ip, udp.src, udp.dst, payload),
                Transport::Raw => Ok(Vec::new()),
            }
        }
    }

    /// Advances one flow's TCP state machine by one received segment: resets
    /// tear the flow down, acknowledged segments run the data and duplicate
    /// machinery, a first SYN asks for a proxy stream, a FIN closes.
    pub fn handle_tcp(
        &mut self,
        fwd: &mut Forwarder,
        ip: Ipv4,
        tcp: Tcp,
        payload: Vec<u8>,
        now_ms: u64,
    ) -> (r: Result<Vec<Action>, ProtocolError>)
        requires
            old(self).wf(),
            old(fwd).wf(),
        ensures
            final(self).wf(),
            final(fwd).wf(),
            final(fwd).spec_src_hardware_addr() == old(fwd).spec_src_hardware_addr(),
            final(self).spec_hw_learned() == old(self).spec_hw_learned(),
            tcp.rst ==> final(self).spec_flows() == old(self).spec_flows().remove(
                spec_flow_id(SocketV4 { ip: ip.dst, port: tcp.dst }, tcp.src),
            ) && final(fwd).emitted() == old(fwd).emitted(),
            !tcp.rst && !tcp.ack && tcp.syn ==> syn_step(
                *old(self),
                *final(self),
                SocketV4 { ip: ip.dst, port: tcp.dst },
                tcp@,
                r->Ok_0@,
            ) && r is Ok && *final(fwd) == *old(fwd),
            !tcp.rst && tcp.ack ==> ack_gate(
                *old(self),
                *final(self),
                SocketV4 { ip: ip.dst, port: tcp.dst },
                tcp@,
                now_ms,
            ),
            !tcp.rst && !tcp.ack && !tcp.syn && tcp.fin ==> fin_outcome(
                *old(self),
                *final(self),
                *old(fwd),
                *final(fwd),
                SocketV4 { ip: ip.dst, port: tcp.dst },
                tcp.src,
                tcp.sequence,
                payload@.len() as int,
                r,
            ),
    {
        let dst = SocketV4 { ip: ip.dst, port: tcp.dst };
        if tcp.rst {
            self.handle_tcp_rst(fwd, dst, tcp.src, now_ms);
            Ok(Vec::new())
        } else if tcp.ack {
            self.handle_tcp_ack(fwd, dst, tcp, payload, now_ms)
        } else if tcp.syn {
            Ok(self.handle_tcp_syn(dst, tcp))
        } else if tcp.fin {
            self.handle_tcp_fin(fwd, dst, tcp.src, tcp.sequence, payload.len(), now_ms)
        } else {
            Ok(Vec::new())
        }
    }

    /// A reset from the client tears the flow down on both sides; no frame
    /// goes out.
    pub fn handle_tcp_rst(&mut self, fwd: &mut Forwarder, dst: SocketV4, src_port: u16, now_ms: u64)
        requires
            old(self).wf(),
            old(fwd).wf(),
        ensures
            final(self).wf(),
            final(fwd).wf(),
            final(self).spec_flows() == old(self).spec_flows().remove(spec_flow_id(dst, src_port)),
            final(self).spec_ports() == old(self).spec_ports(),
            final(self).spec_hw_learned() == old(self).spec_hw_learned(),
            final(fwd).emitted() == old(fwd).emitted(),
            final(fwd).spec_src_hardware_addr() == old(fwd).spec_src_hardware_addr(),
            old(self).spec_flows().contains_key(spec_flow_id(dst, src_port)) ==> final(fwd).spec_flows() == old(fwd).spec_flows().remove(spec_flow_id(dst, src_port)),
            !old(self).spec_flows().contains_key(spec_flow_id(dst, src_port)) ==> *final(fwd)
                == *old(fwd),
    {
        let id = flow_id(dst, src_port);
        if self.flows.contains_key(&id) {
            self.flows.remove(&id);
            fwd.remove(dst, src_port);
        } else {
            proof {
                assert(final(self).spec_flows() =~= old(self).spec_flows().remove(
                    spec_flow_id(dst, src_port),
                ));
            }
        }
        let _ = now_ms;
    }

    /// A SYN opens a flow: for an unknown flow the program is asked to
    /// connect a proxy stream; a SYN on an established flow is dropped.
    pub fn handle_tcp_syn(&mut self, dst: SocketV4, tcp: Tcp) -> (r: Vec<Action>)
        requires
            old(self).wf(),
        ensures
            final(self).wf(),
            final(self).spec_hw_learned() == old(self).spec_hw_learned(),
            syn_step(*old(self), *final(self), dst, tcp@, r@),
    {
        let id = flow_id(dst, tcp.src);
        if self.flows.contains_key(&id) {
            return Vec::new();
        }
        let src_port = tcp.src;
        let mut actions: Vec<Action> = Vec::new();
        actions.push(Action::ConnectStream { dst, src_port, syn: tcp });
        actions
    }

    /// Finishes the handshake once the program has tried to connect the
    /// proxy stream: on success the flow is seeded with a random sequence
    /// number and a SYN+ACK answers with our options; on failure the client
    /// gets an acknowledged reset and everything is forgotten.
    pub fn on_connect_result(
        &mut self,
        fwd: &mut Forwarder,
        dst: SocketV4,
        src_port: u16,
        syn: &Tcp,
        connected: bool,
        now_ms: u64,
    ) -> (r: Result<(), ProtocolError>)
        requires
            old(self).wf(),
            old(fwd).wf(),
        ensures
            final(self).wf(),
            final(fwd).wf(),
            r is Ok,
            final(self).spec_ports() == old(self).spec_ports(),
            connected ==> {
                let id = spec_flow_id(dst, src_port);
                let fl = final(self).spec_flows()[id];
                let recv_wscale = match (if ENABLE_WSCALE {
                    syn.wscale
                } else {
                    None
                }) {
                    Some(w) => Some(
                        if w < MAX_RECV_WSCALE {
                            w
                        } else {
                            MAX_RECV_WSCALE
                        },
                    ),
                    None => None,
                };
                &&& final(self).spec_flows().contains_key(id)
                &&& fl.recv_next == spec_seq_add(syn.sequence, 1)
                &&& fl.sack_perm == (ENABLE_SACK && syn.sack_perm)
                &&& fl.duplicates == 0
                &&& fl.last_retransmission_at is None
                &&& fl.cache is None
                &&& fl.wscale == (match recv_wscale {
                    Some(w) => w,
                    None => 0,
                })
                // exactly one SYN+ACK goes out, echoing our options
                &&& final(fwd).emitted().len() == old(fwd).emitted().len() + 1
                &&& match final(fwd).emitted().last().indicator@.transport {
                    crate::packet::TransportS::Tcp(t) => {
                        &&& t.syn && t.ack && !t.rst && !t.fin
                        &&& t.acknowledgement == spec_seq_add(syn.sequence, 1)
                        &&& t.wscale == recv_wscale
                        &&& t.sack_perm == (ENABLE_SACK && syn.sack_perm)
                        &&& t.src == dst.port && t.dst == src_port
                        // the send side ends one past the SYN+ACK's sequence
                        &&& final(fwd).spec_flows().contains_key(id)
                        &&& final(fwd).spec_flows()[id].sequence == spec_seq_add(t.sequence, 1)
                    },
                    _ => false,
                }
                // the forwarder is seeded for the flow
                &&& final(fwd).spec_flows()[id].acknowledgement == spec_seq_add(syn.sequence, 1)
                &&& final(fwd).spec_flows()[id].cache is None
                &&& (PREFER_SEND_MSS && syn.mss is Some ==> final(fwd).spec_flows()[id].send_mss
                    == syn.mss)
                &&& (ENABLE_WSCALE && syn.wscale is Some ==> final(fwd).spec_flows()[id].wscale
                    == syn.wscale->0)
            },
            !connected ==> {
                &&& !final(self).spec_flows().contains_key(spec_flow_id(dst, src_port))
                &&& !final(fwd).spec_flows().contains_key(spec_flow_id(dst, src_port))
                &&& final(fwd).emitted().len() == old(fwd).emitted().len() + 1
                &&& bare_seg(final(fwd).emitted().last(), dst, src_port, true, true, false)
                &&& match final(fwd).emitted().last().indicator@.transport {
                    crate::packet::TransportS::Tcp(t) => t.acknowledgement == spec_seq_add(
                        syn.sequence,
                        1,
                    ),
                    _ => false,
                }
            },
    {
        let id = flow_id(dst, src_port);
        if connected {
            fwd.remove(dst, src_port);
            let sequence = random_u32();
            fwd.set_tcp_sequence(dst, src_port, sequence);
            fwd.set_tcp_acknowledgement(dst, src_port, seq_add(syn.sequence, 1));
            if PREFER_SEND_MSS {
                if let Some(mss) = syn.mss {
                    fwd.set_tcp_send_mss(dst, src_port, mss);
                }
            }
            let wscale = if ENABLE_WSCALE {
                syn.wscale
            } else {
                None
            };
            if let Some(w) = wscale {
                fwd.set_tcp_wscale(dst, src_port, w);
            }
            let sack_perm = ENABLE_SACK && syn.sack_perm;
            if ENABLE_TIMESTAMP {
                if let Some((ts, _)) = syn.ts {
                    fwd.set_tcp_ts(dst, src_port, ts);
                }
            }
            let recv_wscale = match wscale {
                Some(w) => Some(
                    if w < MAX_RECV_WSCALE {
                        w
                    } else {
                        MAX_RECV_WSCALE
                    },
                ),
                None => None,
            };
            let _ = fwd.send_tcp_ack_syn(dst, src_port, None, recv_wscale, sack_perm, now_ms);
            let flow = FlowRecv {
                recv_next: seq_add(syn.sequence, 1),
                acknowledgement: seq_sub(sequence, 1),
                duplicates: 0,
                last_retransmission_at: None,
                wscale: match recv_wscale {
                    Some(w) => w,
                    None => 0,
                },
                sack_perm,
                read_closed: false,
                write_closed: false,
                cache: None,
            };
            self.flows.insert(id, flow);
        } else {
            self.flows.remove(&id);
            fwd.set_tcp_acknowledgement(dst, src_port, seq_add(syn.sequence, 1));
            if let Some((ts, _)) = syn.ts {
                fwd.set_tcp_ts(dst, src_port, ts);
            }
            let _ = fwd.send_tcp_ack_rst(dst, src_port, now_ms);
            fwd.remove(dst, src_port);
        }
        Ok(())
    }

    /// Handles an acknowledged segment: stores the acknowledgement, trims
    /// the send cache and adopts the peer window, reassembles any payload
    /// into a delivery action, tears the flow down on the close handshake's
    /// final acknowledgement, and fires the gated fast retransmission.
    #[verifier::rlimit(100)]
    pub fn handle_tcp_ack(
        &mut self,
        fwd: &mut Forwarder,
        dst: SocketV4,
        tcp: Tcp,
        payload: Vec<u8>,
        now_ms: u64,
    ) -> (r: Result<Vec<Action>, ProtocolError>)
        requires
            old(self).wf(),
            old(fwd).wf(),
        ensures
            final(self).wf(),
            final(fwd).wf(),
            final(fwd).spec_src_hardware_addr() == old(fwd).spec_src_hardware_addr(),
            final(self).spec_hw_learned() == old(self).spec_hw_learned(),
            final(self).spec_ports() == old(self).spec_ports(),
            ack_gate(*old(self), *final(self), dst, tcp@, now_ms),
            ({
                let id = spec_flow_id(dst, tcp.src);
                let known = old(self).spec_flows().contains_key(id);
                &&& (!known ==> {
                    &&& *final(self) == *old(self)
                    &&& final(fwd).spec_flows() == old(fwd).spec_flows()
                    &&& final(fwd).emitted().len() == old(fwd).emitted().len() + 1
                    &&& bare_seg(final(fwd).emitted().last(), dst, tcp.src, false, true, false)
                    &&& r is Ok && r->Ok_0@.len() == 0
                })
                &&& (known ==> {
                    let f1 = old(self).spec_flows()[id];
                    let upd = spec_ack_update(
                        f1.acknowledgement,
                        f1.duplicates as int,
                        tcp.acknowledgement,
                    );
                    let teardown = payload@.len() == 0 && f1.write_closed && spec_fwd_backlog(
                        *old(fwd),
                        id,
                        tcp.acknowledgement,
                    ) == 0;
                    let fires = payload@.len() == 0 && !teardown && upd.1
                        >= DUPLICATES_BEFORE_FAST_RETRANSMISSION && tcp.window != 0
                        && spec_cooled_down(f1.last_retransmission_at, now_ms);
                    &&& (teardown ==> {
                        &&& final(self).spec_flows() == old(self).spec_flows().remove(id)
                        &&& !final(fwd).spec_flows().contains_key(id)
                        &&& final(fwd).emitted() == old(fwd).emitted()
                        &&& r is Ok && r->Ok_0@.len() == 1 && match r->Ok_0@[0] {
                            Action::DropStream { dst: d, src_port: s } => d == dst && s == tcp.src,
                            _ => false,
                        }
                    })
                    &&& (!teardown && !tcp.fin ==> {
                        let f2 = final(self).spec_flows()[id];
                        // the peer window is adopted under the announced scale
                        &&& final(fwd).spec_flows().contains_key(id)
                        &&& final(fwd).spec_flows()[id].send_window == spec_shifted_window(
                            tcp.window,
                            f1.wscale,
                        )
                        // the acknowledgement trimmed the send cache
                        &&& (old(fwd).spec_flows().contains_key(id) && old(
                            fwd,
                        ).spec_flows()[id].cache is Some ==> final(fwd).spec_flows()[id].cache is Some && final(fwd).spec_flows()[id].cache->0.seq_left() == spec_invalidated_left(
                            old(fwd).spec_flows()[id].cache->0,
                            tcp.acknowledgement,
                        ))
                        &&& final(self).spec_flows().contains_key(id)
                        &&& f2.acknowledgement == upd.0
                        &&& f2.sack_perm == f1.sack_perm && f2.wscale == f1.wscale
                            && f2.read_closed == f1.read_closed && f2.write_closed
                            == f1.write_closed
                        // a fast retransmission fires exactly when gated
                        &&& (payload@.len() == 0 ==> {
                            &&& f2.cache == f1.cache && f2.recv_next == f1.recv_next
                            &&& (fires ==> f2.last_retransmission_at == Some(now_ms)
                                && f2.duplicates == 0)
                            &&& (!fires ==> f2.last_retransmission_at
                                == f1.last_retransmission_at && f2.duplicates == upd.1)
                        })
                        // a go-back-N retransmission re-emits the trimmed cache
                        &&& (fires && !(f1.sack_perm && tcp.sacks@.len() > 0) && old(
                            fwd,
                        ).spec_flows().contains_key(id) && old(
                            fwd,
                        ).spec_flows()[id].cache is Some ==> {
                            let c1 = old(fwd).spec_flows()[id].cache->0;
                            let rb = spec_invalidated_bytes(c1, tcp.acknowledgement);
                            let rl = spec_invalidated_left(c1, tcp.acknowledgement);
                            let m = old(fwd).spec_effective_mss(dst, tcp.src);
                            let chunks = crate::forwarder::spec_tcp_chunks(rb, m, rl);
                            let n0 = old(fwd).emitted().len() as int;
                            &&& final(fwd).emitted().len() >= n0 + chunks.len()
                            &&& final(fwd).emitted().subrange(0, n0) == old(fwd).emitted()
                            &&& forall|j: int|
                                0 <= j < chunks.len() ==> crate::forwarder::tcp_chunk_entry(
                                    #[trigger] final(fwd).emitted()[n0 + j],
                                    chunks[j],
                                    crate::forwarder::spec_ident_n(old(fwd).ident_of(dst.ip), j),
                                    dst,
                                    tcp.src,
                                    old(fwd).spec_src_ip_addr(),
                                )
                        })
                        // payload goes to the window and onward as an action
                        &&& (payload@.len() > 0 && r is Ok ==> {
                            let acts = r->Ok_0@;
                            &&& f2.duplicates == upd.1 && f2.last_retransmission_at
                                == f1.last_retransmission_at
                            &&& (acts.len() > 0 && acts[0] is DeliverToStream ==> match acts[0] {
                                Action::DeliverToStream { dst: d, src_port: s, payload: b } => {
                                    &&& d == dst && s == tcp.src
                                    &&& f2.recv_next == spec_seq_add(
                                        f1.recv_next,
                                        b@.len() as u32,
                                    )
                                },
                                _ => false,
                            })
                            &&& (!(acts.len() > 0 && acts[0] is DeliverToStream) ==> f2.recv_next
                                == f1.recv_next)
                            // an in-order segment into a drained window is
                            // delivered whole
                            &&& (tcp.sequence == f1.recv_next && window_drained(f1)
                                && payload@.len() <= spec_window_room(f1) ==> acts.len() > 0
                                && match acts[0] {
                                Action::DeliverToStream { dst: d, src_port: s, payload: b } => b@
                                    == payload@,
                                _ => false,
                            })
                        })
                    })
                })
            }),
    {
        let src_port = tcp.src;
        let id = flow_id(dst, src_port);
        if !self.flows.contains_key(&id) {
            let _ = fwd.send_tcp_rst(dst, src_port, None);
            return Ok(Vec::new());
        }
        let ghost f1 = self.spec_flows()[id as u64];
        self.update_tcp_acknowledgement(dst, src_port, tcp.acknowledgement);
        let mut f = match self.flows.remove(&id) {
            Some(f) => f,
            None => {
                return Err(ProtocolError::MissingFlow);
            },
        };
        let wscale = f.wscale;
        fwd.invalidate_cache_to(dst, src_port, tcp.acknowledgement);
        let k: u8 = if wscale <= 8 {
            wscale
        } else {
            8
        };
        let unit: usize = if k == 0 {
            1
        } else if k == 1 {
            2
        } else if k == 2 {
            4
        } else if k == 3 {
            8
        } else if k == 4 {
            16
        } else if k == 5 {
            32
        } else if k == 6 {
            64
        } else if k == 7 {
            128
        } else {
            256
        };
        proof {
            reveal_with_fuel(crate::window::spec_pow2, 10);
        }
        let shifted: usize = (tcp.window as usize) * unit;
        fwd.set_tcp_send_window(dst, src_port, shifted);
        let ghost f_mid = f;
        let mut actions: Vec<Action> = Vec::new();
        if payload.len() > 0 {
            // data: write it into the reassembly window
            let stepped = ack_payload_step(fwd, dst, src_port, tcp.sequence, f, payload.as_slice(), now_ms);
            f = stepped.0;
            actions = stepped.1;
        } else {
            // a bare acknowledgement
            if f.write_closed && fwd.get_cache_size(dst, src_port) == 0 {
                // the final acknowledgement of the close handshake
                self.flows.insert(id, f);
                self.remove(dst, src_port);
                fwd.remove(dst, src_port);
                let mut acts: Vec<Action> = Vec::new();
                acts.push(Action::DropStream { dst, src_port });
                proof {
                    assert(final(self).spec_flows() =~= old(self).spec_flows().remove(id as u64));
                }
                return Ok(acts);
            }
            f = ack_bare_step(fwd, dst, src_port, tcp.window, tcp.sacks, f, now_ms);
        }
        let ghost fwd_after_step = *fwd;
        let ghost f_done = f;
        // a piggybacked FIN is handled once the window has drained
        let fin_ready = tcp.fin && (match &f.cache {
            Some(c) => c.is_empty(),
            None => true,
        });
        self.flows.insert(id, f);
        if fin_ready {
            let mut fin_actions = self.handle_tcp_fin(
                fwd,
                dst,
                src_port,
                tcp.sequence,
                payload.len(),
                now_ms,
            )?;
            actions.append(&mut fin_actions);
        }
        // pump anything the wider window now allows
        let _ = fwd.send_tcp_ack(dst, src_port, now_ms);
        proof {
            let idg = spec_flow_id(dst, tcp.src);
            if !tcp.fin {
                assert(final(self).spec_flows().contains_key(idg));
                assert(final(self).spec_flows()[idg] == f_done);
                assert(final(fwd).emitted().len() >= fwd_after_step.emitted().len());
                assert forall|i: int|
                    0 <= i < fwd_after_step.emitted().len() implies #[trigger] final(fwd).emitted()[i] == fwd_after_step.emitted()[i] by {
                    assert(final(fwd).emitted().subrange(
                        0,
                        fwd_after_step.emitted().len() as int,
                    )[i] == fwd_after_step.emitted()[i]);
                }
                let f1g = old(self).spec_flows()[idg];
                if payload@.len() > 0 {
                    assert(f_mid.cache == f1g.cache && f_mid.recv_next == f1g.recv_next
                        && f_mid.wscale == f1g.wscale);
                    assert(spec_window_room(f_mid) == spec_window_room(f1g));
                    assert(window_drained(f_mid) == window_drained(f1g));
                }
                assert(final(fwd).emitted().subrange(
                    0,
                    old(fwd).emitted().len() as int,
                ) =~= old(fwd).emitted()) by {
                    assert(fwd_after_step.emitted().subrange(
                        0,
                        old(fwd).emitted().len() as int,
                    ) =~= old(fwd).emitted());
                    assert forall|i: int|
                        0 <= i < old(fwd).emitted().len() implies #[trigger] final(fwd).emitted()[i] == old(fwd).emitted()[i] by {
                        assert(final(fwd).emitted().subrange(
                            0,
                            fwd_after_step.emitted().len() as int,
                        )[i] == fwd_after_step.emitted()[i]);
                        assert(fwd_after_step.emitted().subrange(
                            0,
                            old(fwd).emitted().len() as int,
                        )[i] == fwd_after_step.emitted()[i]);
                    }
                }
            }
        }
        Ok(actions)
    }

    /// Finishes a delivery the program made to the proxy stream: on success
    /// the acknowledgement advances past the delivered bytes, the window
    /// reopens, and a bare acknowledgement goes out; on failure the flow is
    /// torn down with an acknowledged reset.
    pub fn on_deliver_result(
        &mut self,
        fwd: &mut Forwarder,
        dst: SocketV4,
        src_port: u16,
        delivered: usize,
        ok: bool,
        now_ms: u64,
    ) -> (r: Result<Vec<Action>, ProtocolError>)
        requires
            old(self).wf(),
            old(fwd).wf(),
            delivered <= MAX_U32_WINDOW_SIZE,
        ensures
            final(self).wf(),
            final(fwd).wf(),
            r is Ok,
            final(self).spec_ports() == old(self).spec_ports(),
            !ok ==> {
                &&& !final(self).spec_flows().contains_key(spec_flow_id(dst, src_port))
                &&& !final(fwd).spec_flows().contains_key(spec_flow_id(dst, src_port))
                &&& final(fwd).emitted().len() == old(fwd).emitted().len() + 1
                &&& bare_seg(final(fwd).emitted().last(), dst, src_port, true, true, false)
                &&& r->Ok_0@.len() == 1 && r->Ok_0@[0] is DropStream
            },
            ok && old(self).spec_flows().contains_key(spec_flow_id(dst, src_port)) ==> {
                let id = spec_flow_id(dst, src_port);
                let f1 = old(self).spec_flows()[id];
                let prev_ack = if old(fwd).spec_flows().contains_key(id) {
                    old(fwd).spec_flows()[id].acknowledgement
                } else {
                    0
                };
                &&& final(self).spec_flows() == old(self).spec_flows()
                // the acknowledgement advances past the delivered bytes
                &&& final(fwd).spec_flows().contains_key(id)
                &&& final(fwd).spec_flows()[id].acknowledgement == spec_seq_add(
                    prev_ack,
                    delivered as u32,
                )
                // the advertised window reflects the window's remaining room
                &&& (f1.cache is Some ==> final(fwd).spec_flows()[id].window
                    == crate::window::spec_window_field(
                    f1.cache->0.spec_capacity() - f1.cache->0.spec_delivered(),
                    f1.wscale,
                ))
                // one bare acknowledgement goes out with the new value
                &&& final(fwd).emitted().len() == old(fwd).emitted().len() + 1
                &&& bare_seg(final(fwd).emitted().last(), dst, src_port, true, false, false)
                &&& match final(fwd).emitted().last().indicator@.transport {
                    crate::packet::TransportS::Tcp(t) => t.acknowledgement == spec_seq_add(
                        prev_ack,
                        delivered as u32,
                    ),
                    _ => false,
                }
                &&& r->Ok_0@.len() == 0
            },
    {
        let id = flow_id(dst, src_port);
        if !ok {
            self.flows.remove(&id);
            let _ = fwd.send_tcp_ack_rst(dst, src_port, now_ms);
            fwd.remove(dst, src_port);
            let mut actions: Vec<Action> = Vec::new();
            actions.push(Action::DropStream { dst, src_port });
            return Ok(actions);
        }
        match self.flows.get(&id) {
            Some(f) => {
                let wscale = f.wscale;
                match &f.cache {
                    Some(c) => {
                        let remaining = c.remaining_size();
                        let win = crate::window::scaled_window_field(remaining, wscale);
                        fwd.set_tcp_window(dst, src_port, win);
                    },
                    None => {},
                }
                fwd.add_tcp_acknowledgement(dst, src_port, delivered as u32);
                let _ = fwd.send_tcp_ack_0(dst, src_port, now_ms);
            },
            None => {},
        }
        Ok(Vec::new())
    }

    /// Handles a FIN: in order and with the window drained, it is
    /// acknowledged past the phantom byte and the proxy stream is
    /// half-closed (or the flow torn down when the proxy side already
    /// finished); otherwise the current state is just re-acknowledged.
    pub fn handle_tcp_fin(
        &mut self,
        fwd: &mut Forwarder,
        dst: SocketV4,
        src_port: u16,
        sequence: u32,
        payload_len: usize,
        now_ms: u64,
    ) -> (r: Result<Vec<Action>, ProtocolError>)
        requires
            old(self).wf(),
            old(fwd).wf(),
        ensures
            final(self).wf(),
            final(fwd).wf(),
            final(fwd).spec_src_hardware_addr() == old(fwd).spec_src_hardware_addr(),
            final(self).spec_hw_learned() == old(self).spec_hw_learned(),
            fin_outcome(
                *old(self),
                *final(self),
                *old(fwd),
                *final(fwd),
                dst,
                src_port,
                sequence,
                payload_len as int,
                r,
            ),
    {
        let id = flow_id(dst, src_port);
        let mut actions: Vec<Action> = Vec::new();
        if !self.flows.contains_key(&id) {
            let _ = fwd.send_tcp_rst(dst, src_port, None);
            return Ok(actions);
        }
        if payload_len > MAX_U32_WINDOW_SIZE {
            let _ = fwd.send_tcp_ack_0(dst, src_port, now_ms);
            return Ok(actions);
        }
        let mut f = match self.flows.remove(&id) {
            Some(f) => f,
            None => {
                return Err(ProtocolError::MissingFlow);
            },
        };
        let fin_seq = seq_add(sequence, payload_len as u32);
        let in_order = fin_seq == f.recv_next;
        let cache_empty = match &f.cache {
            Some(c) => c.is_empty(),
            None => true,
        };
        if in_order && cache_empty {
            fwd.set_tcp_acknowledgement(dst, src_port, seq_add(fin_seq, 1));
            f.recv_next = seq_add(f.recv_next, 1);
            // the window has served its purpose: no more data follows the FIN
            f.cache = None;
            let _ = fwd.send_tcp_ack_0(dst, src_port, now_ms);
            if !f.read_closed {
                // the proxy side is still open: half-close toward it
                self.flows.insert(id, f);
                actions.push(Action::CloseStream { dst, src_port });
                proof {
                    assert(final(self).spec_flows() =~= old(self).spec_flows().insert(
                        id as u64,
                        FlowRecv {
                            recv_next: spec_seq_add(old(self).spec_flows()[id as u64].recv_next, 1),
                            cache: None,
                            ..old(self).spec_flows()[id as u64]
                        },
                    ));
                }
            } else {
                // the proxy side already finished: full teardown
                fwd.remove(dst, src_port);
                actions.push(Action::DropStream { dst, src_port });
                proof {
                    assert(final(self).spec_flows() =~= old(self).spec_flows().remove(id as u64));
                }
            }
        } else {
            // out of order, or bytes still missing: just acknowledge
            self.flows.insert(id, f);
            let _ = fwd.send_tcp_ack_0(dst, src_port, now_ms);
            proof {
                assert(final(self).spec_flows() =~= old(self).spec_flows());
            }
        }
        Ok(actions)
    }

    /// Routes one UDP datagram: an existing binding is reused; otherwise the
    /// program binds a fresh local port, or the least recently used binding
    /// is evicted and its port reused. The returned action carries the
    /// datagram and mirrors the table's decision.
    pub fn handle_udp(&mut self, ip: Ipv4, src_port: u16, dst_port: u16, payload: Vec<u8>) -> (r:
        Result<Vec<Action>, ProtocolError>)
        requires
            old(self).wf(),
        ensures
            final(self).wf(),
            final(self).spec_flows() == old(self).spec_flows(),
            final(self).spec_hw_learned() == old(self).spec_hw_learned(),
            final(self).spec_src_ip_addr() == old(self).spec_src_ip_addr(),
            final(self).spec_local_ip_addr() == old(self).spec_local_ip_addr(),
            r is Ok,
            ({
                let dst = SocketV4 { ip: ip.dst, port: dst_port };
                let acts = r->Ok_0@;
                &&& acts.len() == 1
                &&& match acts[0] {
                    Action::SendDatagram { local_port, src_port: s, dst: d, payload: b } => {
                        &&& s == src_port && d == dst && b@ == payload@
                        &&& local_port != 0
                        &&& (old(self).spec_ports().bindings()[src_port as int] != 0 ==> local_port
                            == old(self).spec_ports().bindings()[src_port as int] && final(self).spec_ports().bindings() == old(self).spec_ports().bindings())
                        &&& (old(self).spec_ports().bindings()[src_port as int] == 0 ==> {
                            // the table was full: the oldest binding was evicted
                            &&& old(self).spec_ports().recency().len() == crate::PORT_COUNT
                            &&& (local_port, old(self).spec_ports().recency().last().1) == old(
                                self,
                            ).spec_ports().recency().last()
                            &&& final(self).spec_ports().bindings()[src_port as int] == local_port
                            &&& final(self).spec_ports().recency() == seq![
                                (local_port, src_port),
                            ] + old(self).spec_ports().recency().drop_last()
                        })
                    },
                    Action::BindDatagram { src_port: s, dst: d, payload: b } => {
                        &&& s == src_port && d == dst && b@ == payload@
                        &&& old(self).spec_ports().bindings()[src_port as int] == 0
                        &&& old(self).spec_ports().recency().len() < crate::PORT_COUNT
                        &&& final(self).spec_ports().bindings() == old(
                            self,
                        ).spec_ports().bindings()
                        &&& final(self).spec_ports().recency() == old(self).spec_ports().recency()
                    },
                    _ => false,
                }
            }),
    {
        let dst = SocketV4 { ip: ip.dst, port: dst_port };
        let decision = self.ports.get_or_bind(src_port);
        let mut actions: Vec<Action> = Vec::new();
        match decision {
            PortDecision::Bound(local_port) => {
                actions.push(Action::SendDatagram { local_port, src_port, dst, payload });
            },
            PortDecision::NeedsFresh => {
                actions.push(Action::BindDatagram { src_port, dst, payload });
            },
            PortDecision::Reused(local_port, _prev_src) => {
                actions.push(Action::SendDatagram { local_port, src_port, dst, payload });
            },
        }
        Ok(actions)
    }

    /// Records the local port the program bound for `src_port`: the binding
    /// is stored as the most recent when the table has room and the port is
    /// usable; otherwise nothing changes.
    pub fn on_bind_result(&mut self, src_port: u16, local_port: u16)
        requires
            old(self).wf(),
        ensures
            final(self).wf(),
            final(self).spec_flows() == old(self).spec_flows(),
            ({
                let usable = local_port != 0 && old(self).spec_ports().recency().len()
                    < crate::PORT_COUNT && !lru_has_key(
                    old(self).spec_ports().recency(),
                    local_port,
                );
                if usable {
                    final(self).spec_ports().bindings() == old(
                        self,
                    ).spec_ports().bindings().update(src_port as int, local_port) && final(self).spec_ports().recency() == seq![(local_port, src_port)] + old(
                        self,
                    ).spec_ports().recency()
                } else {
                    final(self).spec_ports() == old(self).spec_ports()
                }
            }),
    {
        if local_port != 0 && self.ports.len() < crate::PORT_COUNT && !self.ports.has_local(
            local_port,
        ) {
            self.ports.record_binding(src_port, local_port);
        }
    }

    /// The next in-order sequence number expected of a flow, when it exists.
    pub fn tcp_recv_next(&self, dst: SocketV4, src_port: u16) -> (r: Option<u32>)
        requires
            self.wf(),
        ensures
            ({
                let id = spec_flow_id(dst, src_port);
                match r {
                    Some(v) => self.spec_flows().contains_key(id) && v
                        == self.spec_flows()[id].recv_next,
                    None => !self.spec_flows().contains_key(id),
                }
            }),
    {
        let id = flow_id(dst, src_port);
        match self.flows.get(&id) {
            Some(f) => Some(f.recv_next),
            None => None,
        }
    }

    /// The duplicate-acknowledgement count of a flow, when it exists.
    pub fn tcp_duplicates(&self, dst: SocketV4, src_port: u16) -> (r: Option<usize>)
        requires
            self.wf(),
        ensures
            ({
                let id = spec_flow_id(dst, src_port);
                match r {
                    Some(v) => self.spec_flows().contains_key(id) && v
                        == self.spec_flows()[id].duplicates,
                    None => !self.spec_flows().contains_key(id),
                }
            }),
    {
        let id = flow_id(dst, src_port);
        match self.flows.get(&id) {
            Some(f) => Some(f.duplicates),
            None => None,
        }
    }

    /// When a flow last fast-retransmitted, if it exists and ever has.
    pub fn tcp_last_retransmission(&self, dst: SocketV4, src_port: u16) -> (r: Option<u64>)
        requires
            self.wf(),
        ensures
            ({
                let id = spec_flow_id(dst, src_port);
                match r {
                    Some(v) => self.spec_flows().contains_key(id)
                        && self.spec_flows()[id].last_retransmission_at == Some(v),
                    None => !self.spec_flows().contains_key(id)
                        || self.spec_flows()[id].last_retransmission_at is None,
                }
            }),
    {
        let id = flow_id(dst, src_port);
        match self.flows.get(&id) {
            Some(f) => f.last_retransmission_at,
            None => None,
        }
    }
}


/// Writes an acknowledged segment's payload into the flow's reassembly
/// window (creating it at the flow's expected sequence number on first use)
/// and turns newly contiguous bytes into a delivery action. Out-of-order or
/// unusable writes announce the current state with a bare acknowledgement.
#[verifier::rlimit(100)]
fn ack_payload_step(
    fwd: &mut Forwarder,
    dst: SocketV4,
    src_port: u16,
    sequence: u32,
    f: FlowRecv,
    payload: &[u8],
    now_ms: u64,
) -> (res: (FlowRecv, Vec<Action>))
    requires
        old(fwd).wf(),
        recv_wf(f),
        payload@.len() > 0,
    ensures
        final(fwd).wf(),
        recv_wf(res.0),
        final(fwd).spec_src_hardware_addr() == old(fwd).spec_src_hardware_addr(),
        final(fwd).emitted().len() >= old(fwd).emitted().len(),
        final(fwd).emitted().subrange(0, old(fwd).emitted().len() as int) == old(fwd).emitted(),
        res.0 == (FlowRecv { recv_next: res.0.recv_next, cache: res.0.cache, ..f }),
        res.0.cache is Some,
        // the forwarder's per-flow send state survives (only the announced
        // window and blocks may change)
        ({
            let id = spec_flow_id(dst, src_port);
            old(fwd).spec_flows().contains_key(id) ==> {
                &&& final(fwd).spec_flows().contains_key(id)
                &&& final(fwd).spec_flows()[id].send_window == old(
                    fwd,
                ).spec_flows()[id].send_window
                &&& final(fwd).spec_flows()[id].cache == old(fwd).spec_flows()[id].cache
                &&& final(fwd).spec_flows()[id].send_mss == old(fwd).spec_flows()[id].send_mss
            }
        }),
        ({
            let acts = res.1@;
            &&& (acts.len() > 0 && acts[0] is DeliverToStream ==> match acts[0] {
                Action::DeliverToStream { dst: d, src_port: s, payload: b } => {
                    &&& d == dst && s == src_port
                    &&& res.0.recv_next == spec_seq_add(f.recv_next, b@.len() as u32)
                },
                _ => false,
            })
            &&& (!(acts.len() > 0 && acts[0] is DeliverToStream) ==> res.0.recv_next
                == f.recv_next)
            &&& (sequence == f.recv_next && window_drained(f) && payload@.len()
                <= spec_window_room(f) ==> acts.len() > 0 && match acts[0] {
                Action::DeliverToStream { dst: d, src_port: s, payload: b } => b@ == payload@,
                _ => false,
            })
        }),
{
    let mut f = f;
    if f.cache.is_none() {
        let cap = crate::window::window_capacity(f.wscale);
        f.cache = Some(Window::with_capacity(cap, f.recv_next));
    }
    let ghost w0 = f.cache->0;
    proof {
        crate::window::lemma_window_bounds(w0);
    }
    let mut actions: Vec<Action> = Vec::new();
    let cache = f.cache.as_mut().unwrap();
    let appended = cache.append(sequence, payload);
    match appended {
        Ok(delivered) => {
            if f.sack_perm {
                let sacks = cache.filled();
                fwd.set_tcp_sacks(dst, src_port, &sacks);
            }
            match delivered {
                Some(bytes) => {
                    // advance past what the proxy stream will get
                    proof {
                        crate::window::lemma_window_bounds(f.cache->0);
                        crate::window::lemma_prefix_len_le(
                            crate::window::spec_write(
                                w0.content(),
                                w0.spec_clip(sequence, payload@).0,
                                w0.spec_clip(sequence, payload@).1,
                            ),
                        );
                        crate::seq_space::lemma_seq_add_chain(
                            w0.spec_base(),
                            w0.spec_delivered() as u32,
                            bytes@.len() as u32,
                        );
                    }
                    f.recv_next = seq_add(f.recv_next, bytes.len() as u32);
                    actions.push(Action::DeliverToStream { dst, src_port, payload: bytes });
                },
                None => {
                    // out of order or duplicate: announce and ack
                    let remaining = cache.remaining_size();
                    let win = crate::window::scaled_window_field(remaining, f.wscale);
                    fwd.set_tcp_window(dst, src_port, win);
                    let _ = fwd.send_tcp_ack_0(dst, src_port, now_ms);
                },
            }
        },
        Err(_) => {
            // a write past the window: a protocol anomaly; the flow stays up
            // and the current state is acknowledged
            let _ = fwd.send_tcp_ack_0(dst, src_port, now_ms);
        },
    }
    proof {
        lemma_in_order_delivery(w0, sequence, payload@);
        assert(final(fwd).emitted().subrange(0, old(fwd).emitted().len() as int) =~= old(
            fwd,
        ).emitted());
    }
    (f, actions)
}

/// An in-order write into a drained window fits, closes no gap but its own,
/// and comes straight back out.
proof fn lemma_in_order_delivery(w0: Window, sequence: u32, payload: Seq<u8>)
    requires
        w0.wf(),
        payload.len() > 0,
    ensures
        sequence == w0.spec_recv_next() && (forall|i: int|
            w0.spec_delivered() <= i < w0.spec_capacity() ==> w0.content()[i] is None)
            && payload.len() <= w0.spec_capacity() - w0.spec_delivered() ==> {
            let clip = w0.spec_clip(sequence, payload);
            let w1 = crate::window::spec_write(w0.content(), clip.0, clip.1);
            &&& clip.0 == w0.spec_delivered() && clip.1 == payload
            &&& clip.0 + clip.1.len() <= w0.spec_capacity()
            &&& crate::window::prefix_len(w1) == w0.spec_delivered() + payload.len()
            &&& Seq::new(
                (crate::window::prefix_len(w1) - w0.spec_delivered()) as nat,
                |i: int| w1[w0.spec_delivered() + i]->0,
            ) == payload
        },
{
    crate::window::lemma_window_bounds(w0);
    if sequence == w0.spec_recv_next() && (forall|i: int|
        w0.spec_delivered() <= i < w0.spec_capacity() ==> w0.content()[i] is None) && payload.len()
        <= w0.spec_capacity() - w0.spec_delivered() {
        crate::seq_space::lemma_seq_sub_add(w0.spec_base(), w0.spec_delivered() as u32);
        let clip = w0.spec_clip(sequence, payload);
        assert(clip.0 == w0.spec_delivered() && clip.1 == payload);
        let w1 = crate::window::spec_write(w0.content(), clip.0, clip.1);
        let d = w0.spec_delivered();
        crate::window::lemma_prefix_filled(w0);
        assert forall|i: int| 0 <= i < d + payload.len() implies w1[i] is Some by {
            if i < d {
                assert(w0.content()[i] is Some);
            }
        }
        assert(d + payload.len() < w0.spec_capacity() ==> w1[d + payload.len()] is None);
        crate::window::lemma_prefix_len_characterize(w1, (d + payload.len()) as nat);
        assert(Seq::new(
            (crate::window::prefix_len(w1) - d) as nat,
            |i: int| w1[d + i]->0,
        ) =~= payload);
    }
}

/// The duplicate-gate of a bare acknowledgement: once the threshold, a live
/// window and the cool-down are all met, the cache is retransmitted
/// (selectively when the peer offered blocks), the stamp is set and the
/// duplicate count resets; otherwise nothing moves.
#[verifier::rlimit(100)]
fn ack_bare_step(
    fwd: &mut Forwarder,
    dst: SocketV4,
    src_port: u16,
    window: u16,
    sacks: Vec<(u32, u32)>,
    f: FlowRecv,
    now_ms: u64,
) -> (res: FlowRecv)
    requires
        old(fwd).wf(),
        recv_wf(f),
    ensures
        final(fwd).wf(),
        recv_wf(res),
        final(fwd).spec_src_hardware_addr() == old(fwd).spec_src_hardware_addr(),
        final(fwd).spec_flows() == old(fwd).spec_flows(),
        final(fwd).emitted().len() >= old(fwd).emitted().len(),
        final(fwd).emitted().subrange(0, old(fwd).emitted().len() as int) == old(fwd).emitted(),
        res == (FlowRecv {
            duplicates: res.duplicates,
            last_retransmission_at: res.last_retransmission_at,
            ..f
        }),
        ({
            let fires = f.duplicates >= DUPLICATES_BEFORE_FAST_RETRANSMISSION && window != 0
                && spec_cooled_down(f.last_retransmission_at, now_ms);
            &&& (fires ==> res.last_retransmission_at == Some(now_ms) && res.duplicates == 0)
            &&& (!fires ==> res == f)
            &&& (!fires ==> final(fwd).emitted() == old(fwd).emitted())
            &&& (fires && !(f.sack_perm && sacks@.len() > 0) && old(
                fwd,
            ).spec_flows().contains_key(spec_flow_id(dst, src_port)) && old(fwd).spec_flows()[
                spec_flow_id(dst, src_port)
            ].cache is Some ==> {
                let c = old(fwd).spec_flows()[spec_flow_id(dst, src_port)].cache->0;
                let m = old(fwd).spec_effective_mss(dst, src_port);
                let chunks = crate::forwarder::spec_tcp_chunks(c.bytes(), m, c.seq_left());
                let n0 = old(fwd).emitted().len() as int;
                &&& final(fwd).emitted().len() >= n0 + chunks.len()
                &&& final(fwd).emitted().subrange(0, n0) == old(fwd).emitted()
                &&& forall|j: int|
                    0 <= j < chunks.len() ==> crate::forwarder::tcp_chunk_entry(
                        #[trigger] final(fwd).emitted()[n0 + j],
                        chunks[j],
                        crate::forwarder::spec_ident_n(old(fwd).ident_of(dst.ip), j),
                        dst,
                        src_port,
                        old(fwd).spec_src_ip_addr(),
                    )
            })
        }),
{
    let mut f = f;
    if f.duplicates >= DUPLICATES_BEFORE_FAST_RETRANSMISSION && window != 0 {
        let cooled = match f.last_retransmission_at {
            Some(t) => t <= now_ms && now_ms - t >= RETRANSMISSION_COOL_DOWN,
            None => true,
        };
        if cooled {
            // fast retransmission: selective when the peer offered blocks,
            // go-back-N otherwise
            if f.sack_perm && sacks.len() > 0 {
                let _ = fwd.retransmit_tcp_ack_without(dst, src_port, sacks, now_ms);
            } else {
                let _ = fwd.retransmit_tcp_ack(dst, src_port, now_ms);
            }
            f.duplicates = 0;
            f.last_retransmission_at = Some(now_ms);
        }
    }
    proof {
        assert(final(fwd).emitted().subrange(0, old(fwd).emitted().len() as int) =~= old(
            fwd,
        ).emitted());
    }
    f
}

/// What a SYN does: an unknown flow asks the program for exactly one proxy
/// connection carrying the SYN; a known flow is left untouched with no
/// action.
pub open spec fn syn_step(
    r1: Redirector,
    r2: Redirector,
    dst: SocketV4,
    tcp: TcpS,
    actions: Seq<Action>,
) -> bool {
    let id = spec_flow_id(dst, tcp.src);
    &&& r2.spec_flows() == r1.spec_flows()
    &&& r2.spec_ports() == r1.spec_ports()
    &&& (r1.spec_flows().contains_key(id) ==> actions.len() == 0)
    &&& (!r1.spec_flows().contains_key(id) ==> actions.len() == 1 && match actions[0] {
        Action::ConnectStream { dst: d, src_port: s, syn: y } => d == dst && s == tcp.src && y@
            == tcp,
        _ => false,
    })
}

/// The duplicate-tracking and fast-retransmission gate of one acknowledged
/// segment, on the receive-side state: the stamp moves exactly when the
/// duplicate threshold, a live peer window and the cool-down all hold, and
/// then the duplicate count resets.
pub open spec fn ack_gate(
    r1: Redirector,
    r2: Redirector,
    dst: SocketV4,
    tcp: TcpS,
    now_ms: u64,
) -> bool {
    let id = spec_flow_id(dst, tcp.src);
    r1.spec_flows().contains_key(id) && r2.spec_flows().contains_key(id) ==> {
        let f1 = r1.spec_flows()[id];
        let f2 = r2.spec_flows()[id];
        let upd = spec_ack_update(f1.acknowledgement, f1.duplicates as int, tcp.acknowledgement);
        f2.last_retransmission_at != f1.last_retransmission_at ==> {
            &&& f2.last_retransmission_at == Some(now_ms)
            &&& upd.1 >= DUPLICATES_BEFORE_FAST_RETRANSMISSION
            &&& tcp.window != 0
            &&& spec_cooled_down(f1.last_retransmission_at, now_ms)
            &&& f2.duplicates == 0
        }
    }
}

/// What a FIN does. For an unknown flow, one stateless reset. Out of order,
/// oversized, or with bytes still waiting in the window, one bare
/// acknowledgement of the current state. In order with a drained window, the
/// acknowledgement steps past the phantom byte, one bare acknowledgement
/// carries it, the window is dropped, and the program is told to half-close
/// the proxy stream — or, when the proxy side already finished, both sides
/// forget the flow.
pub open spec fn fin_outcome(
    r1: Redirector,
    r2: Redirector,
    f1: Forwarder,
    f2: Forwarder,
    dst: SocketV4,
    src_port: u16,
    sequence: u32,
    payload_len: int,
    r: Result<Vec<Action>, ProtocolError>,
) -> bool {
    let id = spec_flow_id(dst, src_port);
    let fin_seq = spec_seq_add(sequence, payload_len as u32);
    &&& r2.spec_ports() == r1.spec_ports()
    &&& r is Ok
    &&& (!r1.spec_flows().contains_key(id) ==> {
        &&& r2.spec_flows() == r1.spec_flows()
        &&& f2.spec_flows() == f1.spec_flows()
        &&& f2.emitted().len() == f1.emitted().len() + 1
        &&& bare_seg(f2.emitted().last(), dst, src_port, false, true, false)
        &&& r->Ok_0@.len() == 0
    })
    &&& (r1.spec_flows().contains_key(id) ==> {
        let fl = r1.spec_flows()[id];
        let in_order = payload_len <= MAX_U32_WINDOW_SIZE && fin_seq == fl.recv_next;
        &&& (!(in_order && window_drained(fl)) ==> {
            &&& r2.spec_flows() == r1.spec_flows()
            &&& f2.emitted().len() == f1.emitted().len() + 1
            &&& bare_seg(f2.emitted().last(), dst, src_port, true, false, false)
            &&& r->Ok_0@.len() == 0
        })
        &&& (in_order && window_drained(fl) ==> {
            &&& f2.emitted().len() == f1.emitted().len() + 1
            &&& bare_seg(f2.emitted().last(), dst, src_port, true, false, false)
            &&& match f2.emitted().last().indicator@.transport {
                crate::packet::TransportS::Tcp(t) => t.acknowledgement == spec_seq_add(fin_seq, 1),
                _ => false,
            }
            &&& (!fl.read_closed ==> {
                &&& r2.spec_flows() == r1.spec_flows().insert(
                    id,
                    FlowRecv {
                        recv_next: spec_seq_add(fl.recv_next, 1),
                        cache: None,
                        ..fl
                    },
                )
                &&& f2.spec_flows().contains_key(id)
                &&& f2.spec_flows()[id].acknowledgement == spec_seq_add(fin_seq, 1)
                &&& r->Ok_0@.len() == 1 && match r->Ok_0@[0] {
                    Action::CloseStream { dst: d, src_port: s } => d == dst && s == src_port,
                    _ => false,
                }
            })
            &&& (fl.read_closed ==> {
                &&& r2.spec_flows() == r1.spec_flows().remove(id)
                &&& !f2.spec_flows().contains_key(id)
                &&& r->Ok_0@.len() == 1 && match r->Ok_0@[0] {
                    Action::DropStream { dst: d, src_port: s } => d == dst && s == src_port,
                    _ => false,
                }
            })
        })
    })
}

} // verus!
