//! End-to-end tests of the protocol engine: handshake, data transfer,
//! go-back-N and selective retransmission, graceful close, and the frame
//! invariants along the way.

use pcap2socks::forwarder::{Emitted, Forwarder};
use pcap2socks::packet::{Ipv4, Network, Tcp, Transport};
use pcap2socks::redirector::{Action, Redirector};
use pcap2socks::SocketV4;

const CLIENT_IP: u32 = 0xC0A8_0002;
const GATEWAY_IP: u32 = 0xC0A8_0001;
const REMOTE_IP: u32 = 0x0808_0808;
const LOCAL_MAC: u64 = 0x0a0b0c0d0e0f;
const SRC_PORT: u16 = 50000;

fn remote() -> SocketV4 {
    SocketV4 { ip: REMOTE_IP, port: 80 }
}

fn engine() -> (Forwarder, Redirector) {
    (
        Forwarder::new(1500, LOCAL_MAC, CLIENT_IP, GATEWAY_IP),
        Redirector::new(CLIENT_IP, Some(GATEWAY_IP)),
    )
}

fn client_ip_header(protocol: u8) -> Ipv4 {
    Ipv4 {
        identification: 1,
        more_fragments: false,
        fragment_offset: 0,
        protocol,
        src: CLIENT_IP,
        dst: REMOTE_IP,
    }
}

fn bare_tcp(dst: SocketV4) -> Tcp {
    Tcp {
        src: SRC_PORT,
        dst: dst.port,
        sequence: 0,
        acknowledgement: 0,
        syn: false,
        ack: false,
        rst: false,
        fin: false,
        psh: false,
        window: 512,
        mss: None,
        wscale: None,
        sack_perm: false,
        sacks: vec![],
        ts: None,
    }
}

fn tcp_of(e: &Emitted) -> Tcp {
    match &e.indicator.transport {
        Transport::Tcp(t) => t.clone(),
        _ => panic!("expected a TCP segment"),
    }
}

fn ipv4_of(e: &Emitted) -> Ipv4 {
    match &e.indicator.network {
        Network::Ipv4(ip) => *ip,
        _ => panic!("expected an IPv4 frame"),
    }
}

/// Runs the handshake of the literal scenario: SYN seq=1000, MSS given,
/// WSCALE=7, SACK permitted; the proxy connect succeeds. Returns our random
/// initial sequence number.
fn handshake(fwd: &mut Forwarder, rd: &mut Redirector, mss: u16, now: u64) -> u32 {
    let dst = remote();
    let mut syn = bare_tcp(dst);
    syn.syn = true;
    syn.sequence = 1000;
    syn.mss = Some(mss);
    syn.wscale = Some(7);
    syn.sack_perm = true;
    let actions = rd
        .handle_tcp(fwd, client_ip_header(6), syn.clone(), vec![], now)
        .expect("the SYN must be handled");
    assert!(matches!(actions[0], Action::ConnectStream { .. }));
    rd.on_connect_result(fwd, dst, SRC_PORT, &syn, true, now).expect("the handshake completes");
    let out = fwd.take_outbox();
    let synack = tcp_of(out.last().expect("a SYN+ACK went out"));
    assert!(synack.syn && synack.ack);
    assert_eq!(synack.acknowledgement, 1001);
    assert_eq!(synack.wscale, Some(7));
    assert!(synack.sack_perm);
    assert_eq!(rd.tcp_recv_next(dst, SRC_PORT), Some(1001));
    let r = synack.sequence;
    assert_eq!(fwd.tcp_sequence(dst, SRC_PORT), Some(r.wrapping_add(1)));
    // every emitted frame meets the minimum frame size
    for e in &out {
        assert!(e.frame.len() >= 60);
    }
    r
}

#[test]
fn handshake_seeds_the_flow() {
    let (mut fwd, mut rd) = engine();
    handshake(&mut fwd, &mut rd, 1460, 0);
}

#[test]
fn failed_connect_resets_the_client() {
    let (mut fwd, mut rd) = engine();
    let dst = remote();
    let mut syn = bare_tcp(dst);
    syn.syn = true;
    syn.sequence = 1000;
    let _ = rd.handle_tcp(&mut fwd, client_ip_header(6), syn.clone(), vec![], 0).unwrap();
    rd.on_connect_result(&mut fwd, dst, SRC_PORT, &syn, false, 0).unwrap();
    let out = fwd.take_outbox();
    let rst = tcp_of(out.last().expect("an ACK+RST went out"));
    assert!(rst.rst && rst.ack);
    assert_eq!(rst.acknowledgement, 1001);
    assert_eq!(rd.tcp_recv_next(dst, SRC_PORT), None);
}

#[test]
fn data_in_acknowledged_back() {
    let (mut fwd, mut rd) = engine();
    let dst = remote();
    let r = handshake(&mut fwd, &mut rd, 1460, 0);
    let mut data = bare_tcp(dst);
    data.ack = true;
    data.sequence = 1001;
    data.acknowledgement = r.wrapping_add(1);
    let payload = vec![0x61u8; 500];
    let actions = rd
        .handle_tcp(&mut fwd, client_ip_header(6), data, payload.clone(), 10)
        .expect("the data segment must be handled");
    match &actions[0] {
        Action::DeliverToStream { payload: delivered, .. } => assert_eq!(*delivered, payload),
        _ => panic!("expected a delivery"),
    }
    rd.on_deliver_result(&mut fwd, dst, SRC_PORT, 500, true, 10).unwrap();
    let out = fwd.take_outbox();
    let ack = tcp_of(out.last().expect("a bare acknowledgement went out"));
    assert!(ack.ack && !ack.syn && !ack.fin && !ack.rst);
    assert_eq!(ack.acknowledgement, 1501);
    // the advertised window shrank by the 500 undelivered-to-us bytes, scaled
    let capacity = 0xFFFFusize * 128;
    assert_eq!(ack.window as usize, (capacity - 500) >> 7);
    assert_eq!(rd.tcp_recv_next(dst, SRC_PORT), Some(1501));
}

/// Opens a flow, gives the peer a usable window, and pushes 3000 proxy bytes
/// so that three 1000-byte segments go out. Returns our initial sequence.
fn three_segments(fwd: &mut Forwarder, rd: &mut Redirector) -> u32 {
    let dst = remote();
    let r = handshake(fwd, rd, 1000, 0);
    // the client's first window update opens 512 << 7 bytes
    let mut ack = bare_tcp(dst);
    ack.ack = true;
    ack.sequence = 1001;
    ack.acknowledgement = r.wrapping_add(1);
    rd.handle_tcp(fwd, client_ip_header(6), ack, vec![], 1).unwrap();
    let _ = fwd.take_outbox();
    fwd.append_to_queue(dst, SRC_PORT, &[0x62u8; 3000], 2).unwrap();
    let out = fwd.take_outbox();
    let segs: Vec<Tcp> = out.iter().filter(|e| !e.indicator.payload.is_empty()).map(tcp_of).collect();
    assert_eq!(segs.len(), 3);
    assert_eq!(segs[0].sequence, r.wrapping_add(1));
    assert_eq!(segs[1].sequence, r.wrapping_add(1001));
    assert_eq!(segs[2].sequence, r.wrapping_add(2001));
    // each segment is bounded by the peer's maximum segment size
    for e in out.iter().filter(|e| !e.indicator.payload.is_empty()) {
        assert!(e.indicator.payload.len() <= 1000);
    }
    r
}

fn dup_ack(dst: SocketV4, ack: u32) -> Tcp {
    let mut t = bare_tcp(dst);
    t.ack = true;
    t.sequence = 1001;
    t.acknowledgement = ack;
    t
}

#[test]
fn go_back_n_fast_retransmit_with_cool_down() {
    let (mut fwd, mut rd) = engine();
    let dst = remote();
    let r = three_segments(&mut fwd, &mut rd);
    // the client acknowledges only the first segment, four times
    let acked = r.wrapping_add(1001);
    for _ in 0..3 {
        rd.handle_tcp(&mut fwd, client_ip_header(6), dup_ack(dst, acked), vec![], 10).unwrap();
    }
    assert_eq!(rd.tcp_duplicates(dst, SRC_PORT), Some(2));
    let _ = fwd.take_outbox();
    rd.handle_tcp(&mut fwd, client_ip_header(6), dup_ack(dst, acked), vec![], 10).unwrap();
    // go-back-N: everything from the acknowledgement on is resent
    let out = fwd.take_outbox();
    let segs: Vec<Tcp> = out.iter().filter(|e| !e.indicator.payload.is_empty()).map(tcp_of).collect();
    assert_eq!(segs.len(), 2);
    assert_eq!(segs[0].sequence, r.wrapping_add(1001));
    assert_eq!(segs[1].sequence, r.wrapping_add(2001));
    assert_eq!(rd.tcp_duplicates(dst, SRC_PORT), Some(0));
    assert_eq!(rd.tcp_last_retransmission(dst, SRC_PORT), Some(10));
    // within the cool-down, further duplicates do not retransmit
    for _ in 0..4 {
        rd.handle_tcp(&mut fwd, client_ip_header(6), dup_ack(dst, acked), vec![], 100).unwrap();
    }
    let out = fwd.take_outbox();
    assert!(out.iter().all(|e| e.indicator.payload.is_empty()));
    assert_eq!(rd.tcp_last_retransmission(dst, SRC_PORT), Some(10));
    // after the cool-down has elapsed, they do again
    rd.handle_tcp(&mut fwd, client_ip_header(6), dup_ack(dst, acked), vec![], 10 + 200).unwrap();
    let out = fwd.take_outbox();
    assert!(out.iter().any(|e| !e.indicator.payload.is_empty()));
    assert_eq!(rd.tcp_last_retransmission(dst, SRC_PORT), Some(210));
}

#[test]
fn selective_retransmit_skips_sacked_bytes() {
    let (mut fwd, mut rd) = engine();
    let dst = remote();
    let r = three_segments(&mut fwd, &mut rd);
    // the client acknowledges the first segment and SACKs the third
    let acked = r.wrapping_add(1001);
    for _ in 0..3 {
        rd.handle_tcp(&mut fwd, client_ip_header(6), dup_ack(dst, acked), vec![], 10).unwrap();
    }
    let _ = fwd.take_outbox();
    let mut t = dup_ack(dst, acked);
    t.sacks = vec![(r.wrapping_add(2001), r.wrapping_add(3001))];
    rd.handle_tcp(&mut fwd, client_ip_header(6), t, vec![], 10).unwrap();
    let out = fwd.take_outbox();
    let segs: Vec<Tcp> = out.iter().filter(|e| !e.indicator.payload.is_empty()).map(tcp_of).collect();
    assert_eq!(segs.len(), 1);
    assert_eq!(segs[0].sequence, r.wrapping_add(1001));
    for e in out.iter().filter(|e| !e.indicator.payload.is_empty()) {
        assert_eq!(e.indicator.payload.len(), 1000);
    }
}

#[test]
fn sack_covering_everything_retransmits_nothing() {
    let (mut fwd, mut rd) = engine();
    let dst = remote();
    let r = three_segments(&mut fwd, &mut rd);
    let acked = r.wrapping_add(1001);
    for _ in 0..3 {
        rd.handle_tcp(&mut fwd, client_ip_header(6), dup_ack(dst, acked), vec![], 10).unwrap();
    }
    let _ = fwd.take_outbox();
    // the SACK covers the cache's whole extent
    let mut t = dup_ack(dst, acked);
    t.sacks = vec![(r.wrapping_add(1001), r.wrapping_add(3001))];
    rd.handle_tcp(&mut fwd, client_ip_header(6), t, vec![], 10).unwrap();
    let out = fwd.take_outbox();
    assert!(out.iter().all(|e| e.indicator.payload.is_empty()));
}

#[test]
fn regressed_acknowledgement_is_ignored() {
    let (mut fwd, mut rd) = engine();
    let dst = remote();
    let r = three_segments(&mut fwd, &mut rd);
    let acked = r.wrapping_add(1001);
    rd.handle_tcp(&mut fwd, client_ip_header(6), dup_ack(dst, acked), vec![], 10).unwrap();
    assert_eq!(rd.tcp_duplicates(dst, SRC_PORT), Some(0));
    // an acknowledgement far behind the stored one is stale: not a duplicate,
    // not an advance
    let regressed = acked.wrapping_sub(0x2000000);
    rd.handle_tcp(&mut fwd, client_ip_header(6), dup_ack(dst, regressed), vec![], 10).unwrap();
    assert_eq!(rd.tcp_duplicates(dst, SRC_PORT), Some(0));
    // the stored acknowledgement is still the old one: repeating it counts
    rd.handle_tcp(&mut fwd, client_ip_header(6), dup_ack(dst, acked), vec![], 10).unwrap();
    assert_eq!(rd.tcp_duplicates(dst, SRC_PORT), Some(1));
}

#[test]
fn zero_window_blocks_fast_retransmit() {
    let (mut fwd, mut rd) = engine();
    let dst = remote();
    let r = three_segments(&mut fwd, &mut rd);
    let acked = r.wrapping_add(1001);
    for _ in 0..5 {
        let mut t = dup_ack(dst, acked);
        t.window = 0;
        rd.handle_tcp(&mut fwd, client_ip_header(6), t, vec![], 10).unwrap();
    }
    assert_eq!(rd.tcp_last_retransmission(dst, SRC_PORT), None);
}

#[test]
fn graceful_close_walks_both_sides_down() {
    let (mut fwd, mut rd) = engine();
    let dst = remote();
    let r = handshake(&mut fwd, &mut rd, 1460, 0);
    // client data so the flow is live, delivered to the proxy
    let mut data = bare_tcp(dst);
    data.ack = true;
    data.sequence = 1001;
    data.acknowledgement = r.wrapping_add(1);
    rd.handle_tcp(&mut fwd, client_ip_header(6), data, vec![0x61; 500], 5).unwrap();
    rd.on_deliver_result(&mut fwd, dst, SRC_PORT, 500, true, 5).unwrap();
    let _ = fwd.take_outbox();
    // the client closes: FIN at the next expected sequence number
    let mut fin = bare_tcp(dst);
    fin.fin = true;
    fin.sequence = 1501;
    let actions = rd.handle_tcp(&mut fwd, client_ip_header(6), fin, vec![], 6).unwrap();
    assert!(matches!(actions[0], Action::CloseStream { .. }));
    let out = fwd.take_outbox();
    let ack = tcp_of(out.last().expect("the FIN is acknowledged"));
    assert!(ack.ack && !ack.fin);
    assert_eq!(ack.acknowledgement, 1502);
    assert_eq!(rd.tcp_recv_next(dst, SRC_PORT), Some(1502));
    // the proxy side finishes too: our one-shot FIN goes out once drained
    fwd.close(dst, SRC_PORT, 7).unwrap();
    let out = fwd.take_outbox();
    let fins: Vec<Tcp> = out.iter().map(tcp_of).filter(|t| t.fin).collect();
    assert_eq!(fins.len(), 1);
    assert_eq!(fins[0].sequence, r.wrapping_add(1));
    // pumping again does not emit a second FIN
    fwd.send_tcp_ack(dst, SRC_PORT, 8).unwrap();
    let out = fwd.take_outbox();
    assert!(out.iter().map(tcp_of).all(|t| !t.fin));
    // the client's final acknowledgement tears the flow down
    rd.note_stream_state(dst, SRC_PORT, true, true);
    let mut last = bare_tcp(dst);
    last.ack = true;
    last.sequence = 1502;
    last.acknowledgement = r.wrapping_add(2);
    let actions = rd.handle_tcp(&mut fwd, client_ip_header(6), last, vec![], 9).unwrap();
    assert!(matches!(actions[0], Action::DropStream { .. }));
    assert_eq!(rd.tcp_recv_next(dst, SRC_PORT), None);
}

#[test]
fn unknown_flow_gets_a_stateless_reset() {
    let (mut fwd, mut rd) = engine();
    let dst = remote();
    let mut t = bare_tcp(dst);
    t.ack = true;
    t.sequence = 5000;
    rd.handle_tcp(&mut fwd, client_ip_header(6), t, vec![], 0).unwrap();
    let out = fwd.take_outbox();
    let rst = tcp_of(out.last().expect("a reset went out"));
    assert!(rst.rst && !rst.ack);
    assert_eq!(rst.acknowledgement, 0);
}

#[test]
fn identification_steps_once_per_datagram() {
    let (mut fwd, _) = engine();
    let dst = remote();
    // a small datagram: one frame, one step
    fwd.send_udp(dst, SRC_PORT, &[1, 2, 3]).unwrap();
    let out = fwd.take_outbox();
    assert_eq!(out.len(), 1);
    let first_id = ipv4_of(&out[0]).identification;
    // a large datagram: several fragments, all sharing the next value
    fwd.send_udp(dst, SRC_PORT, &[7u8; 4000]).unwrap();
    let out = fwd.take_outbox();
    assert!(out.len() > 1);
    for e in &out {
        let ip = ipv4_of(e);
        assert_eq!(ip.identification, first_id.wrapping_add(1));
        assert!(e.frame.len() >= 60);
    }
    // all but the last fragment announce more to come
    for e in &out[..out.len() - 1] {
        assert!(ipv4_of(e).more_fragments);
    }
    assert!(!ipv4_of(out.last().unwrap()).more_fragments);
    // the next datagram takes the next value
    fwd.send_udp(dst, SRC_PORT, &[9]).unwrap();
    let out = fwd.take_outbox();
    assert_eq!(ipv4_of(&out[0]).identification, first_id.wrapping_add(2));
}

#[test]
fn fragments_carry_the_whole_datagram() {
    let (mut fwd, _) = engine();
    let dst = remote();
    let payload: Vec<u8> = (0..4000u32).map(|i| (i % 251) as u8).collect();
    fwd.send_udp(dst, SRC_PORT, &payload).unwrap();
    let out = fwd.take_outbox();
    let mut stream: Vec<u8> = Vec::new();
    for e in &out {
        stream.extend_from_slice(&e.indicator.payload);
    }
    // the first eight bytes are the datagram's header; the rest is the payload
    assert_eq!(stream.len(), 8 + payload.len());
    assert_eq!(&stream[8..], &payload[..]);
    let total = 8 + payload.len();
    assert_eq!(stream[4] as usize * 256 + stream[5] as usize, total);
}

#[test]
fn missing_flow_refuses_selective_retransmit() {
    let (mut fwd, _) = engine();
    let dst = remote();
    assert_eq!(
        fwd.retransmit_tcp_ack_without(dst, SRC_PORT, vec![(0, 1)], 0),
        Err(pcap2socks::ProtocolError::MissingFlow)
    );
}

#[test]
fn sequence_wrap_retransmits_correctly() {
    let (mut fwd, _) = engine();
    let dst = remote();
    // seed a flow whose window spans the wrap of the sequence space
    fwd.set_tcp_sequence(dst, SRC_PORT, 0xFFFF_FC00);
    fwd.set_tcp_send_window(dst, SRC_PORT, 100_000);
    fwd.set_tcp_send_mss(dst, SRC_PORT, 1000);
    fwd.append_to_queue(dst, SRC_PORT, &[5u8; 2048], 0).unwrap();
    let out = fwd.take_outbox();
    let segs: Vec<Tcp> = out.iter().filter(|e| !e.indicator.payload.is_empty()).map(tcp_of).collect();
    assert_eq!(segs.len(), 3);
    assert_eq!(segs[0].sequence, 0xFFFF_FC00);
    assert_eq!(segs[1].sequence, 0xFFFF_FFE8);
    assert_eq!(segs[2].sequence, 0x0000_03D0);
    assert_eq!(fwd.tcp_sequence(dst, SRC_PORT), Some(0xFFFF_FC00u32.wrapping_add(2048)));
    // the peer acknowledges across the wrap; the rest is retransmittable
    fwd.invalidate_cache_to(dst, SRC_PORT, 0x0000_03D0);
    assert_eq!(fwd.tcp_cache_span(dst, SRC_PORT), Some((0x0000_03D0, 48)));
    fwd.retransmit_tcp_ack(dst, SRC_PORT, 10).unwrap();
    let out = fwd.take_outbox();
    let segs: Vec<Tcp> = out.iter().filter(|e| !e.indicator.payload.is_empty()).map(tcp_of).collect();
    assert_eq!(segs.len(), 1);
    assert_eq!(segs[0].sequence, 0x0000_03D0);
    assert_eq!(out[0].indicator.payload.len(), 48);
}

#[test]
fn udp_actions_follow_the_port_table() {
    let (mut fwd, mut rd) = engine();
    let ip = client_ip_header(17);
    // a first datagram needs a fresh binding
    let actions = rd.handle_udp(ip, 40000, 53, vec![1, 2, 3]).unwrap();
    match &actions[0] {
        Action::BindDatagram { src_port, payload, .. } => {
            assert_eq!(*src_port, 40000);
            assert_eq!(*payload, vec![1, 2, 3]);
        },
        _ => panic!("expected a bind"),
    }
    rd.on_bind_result(40000, 10000);
    // the next datagram from the same port reuses the binding
    let actions = rd.handle_udp(ip, 40000, 53, vec![4]).unwrap();
    match &actions[0] {
        Action::SendDatagram { local_port, .. } => assert_eq!(*local_port, 10000),
        _ => panic!("expected a send"),
    }
    let _ = fwd.take_outbox();
}

#[test]
fn arp_request_is_answered() {
    let (mut fwd, mut rd) = engine();
    rd.handle_arp(&mut fwd, 0x1112_1314_1516, CLIENT_IP, GATEWAY_IP, true).unwrap();
    let out = fwd.take_outbox();
    assert_eq!(out.len(), 1);
    match &out[0].indicator.network {
        Network::Arp(a) => {
            assert_eq!(a.op, 2);
            assert_eq!(a.sha, LOCAL_MAC);
            assert_eq!(a.spa, GATEWAY_IP);
            assert_eq!(a.tha, 0x1112_1314_1516);
            assert_eq!(a.tpa, CLIENT_IP);
        },
        _ => panic!("expected an ARP reply"),
    }
    assert!(out[0].frame.len() >= 60);
}

#[test]
fn whole_frames_round_through_the_engine() {
    // a client SYN built as real bytes drives the same state machine
    let (mut fwd, mut rd) = engine();
    let dst = remote();
    let mut syn = bare_tcp(dst);
    syn.syn = true;
    syn.sequence = 1000;
    syn.mss = Some(1460);
    let frame = pcap2socks::packet::Indicator {
        ethernet: pcap2socks::packet::Ethernet {
            dst: LOCAL_MAC,
            src: 0x1112_1314_1516,
            kind: 0x0800,
        },
        network: Network::Ipv4(client_ip_header(6)),
        transport: Transport::Tcp(syn.clone()),
        payload: vec![],
    }
    .emit();
    let actions = rd.handle_frame(&mut fwd, &frame, 0).unwrap();
    assert!(matches!(actions[0], Action::ConnectStream { .. }));
}

#[test]
fn out_of_order_first_segment_reassembles() {
    // the reassembly window anchors at the expected sequence number, so a
    // flow whose very first data segment arrives out of order still
    // delivers everything once the gap closes
    let (mut fwd, mut rd) = engine();
    let dst = remote();
    let r = handshake(&mut fwd, &mut rd, 1460, 0);
    let mut late = bare_tcp(dst);
    late.ack = true;
    late.sequence = 1101;
    late.acknowledgement = r.wrapping_add(1);
    let actions = rd
        .handle_tcp(&mut fwd, client_ip_header(6), late, vec![0x62u8; 100], 5)
        .unwrap();
    // nothing contiguous yet: no delivery, the gap is announced instead
    assert!(actions.is_empty());
    assert_eq!(rd.tcp_recv_next(dst, SRC_PORT), Some(1001));
    let out = fwd.take_outbox();
    let ack = tcp_of(out.last().expect("the out-of-order bytes are acknowledged"));
    assert_eq!(ack.acknowledgement, 1001);
    assert_eq!(ack.sacks, vec![(1101, 1201)]);
    // the gap closes: both runs come out in order, as one delivery
    let mut first = bare_tcp(dst);
    first.ack = true;
    first.sequence = 1001;
    first.acknowledgement = r.wrapping_add(1);
    let actions = rd
        .handle_tcp(&mut fwd, client_ip_header(6), first, vec![0x61u8; 100], 6)
        .unwrap();
    match &actions[0] {
        Action::DeliverToStream { payload, .. } => {
            assert_eq!(payload.len(), 200);
            assert_eq!(&payload[..100], &[0x61u8; 100][..]);
            assert_eq!(&payload[100..], &[0x62u8; 100][..]);
        },
        _ => panic!("expected the closed gap to deliver"),
    }
    assert_eq!(rd.tcp_recv_next(dst, SRC_PORT), Some(1201));
}
