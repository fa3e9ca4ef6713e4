//! Tests of the retransmission cache, the reassembly window, the
//! defragmenter and the port table.

use pcap2socks::defrag::Defraggler;
use pcap2socks::iface::{interface, interfaces, Interface};
use pcap2socks::packet::Ipv4;
use pcap2socks::port_map::{PortDecision, PortMap};
use pcap2socks::queue::Queue;
use pcap2socks::window::Window;
use pcap2socks::ProtocolError;

#[test]
fn queue_append_and_get() {
    let mut q = Queue::with_capacity(100, 1000);
    assert!(q.is_empty());
    q.append(&[1, 2, 3, 4, 5], 0).unwrap();
    assert_eq!(q.len(), 5);
    assert_eq!(q.sequence(), 1000);
    assert_eq!(q.get_all(), vec![1, 2, 3, 4, 5]);
    assert_eq!(q.get(1001, 3).unwrap(), vec![2, 3, 4]);
    assert_eq!(q.get(1003, 5), Err(ProtocolError::OutOfRange));
}

#[test]
fn queue_rejects_overflow() {
    let mut q = Queue::with_capacity(4, 0);
    assert_eq!(q.append(&[0; 5], 0), Err(ProtocolError::OutOfCapacity));
    assert!(q.is_empty());
    q.append(&[0; 4], 0).unwrap();
    assert_eq!(q.append(&[1], 0), Err(ProtocolError::OutOfCapacity));
}

#[test]
fn queue_invalidate_drops_acknowledged_bytes() {
    let mut q = Queue::with_capacity(100, 1000);
    q.append(&[1, 2, 3, 4, 5, 6, 7, 8, 9, 10], 0).unwrap();
    q.invalidate_to(1005);
    assert_eq!(q.sequence(), 1005);
    assert_eq!(q.len(), 5);
    // nothing before the acknowledgement can be fetched for retransmission
    assert!(q.get(1000, 1).is_err());
    assert_eq!(q.get(1005, 5).unwrap(), vec![6, 7, 8, 9, 10]);
    // an acknowledgement behind the left edge changes nothing
    q.invalidate_to(900);
    assert_eq!(q.sequence(), 1005);
    // one beyond the right edge empties the cache
    q.invalidate_to(2000);
    assert!(q.is_empty());
}

#[test]
fn queue_timed_out_refreshes_stamps() {
    let mut q = Queue::with_capacity(100, 0);
    q.append(&[1, 2, 3], 0).unwrap();
    q.append(&[4, 5], 2000).unwrap();
    // at 3000 ms only the first run has aged past a 3000 ms timeout
    assert_eq!(q.get_timed_out(3000, 3000), vec![1, 2, 3]);
    // its stamps were refreshed: the same instant returns nothing more
    assert_eq!(q.get_timed_out(3000, 3000), Vec::<u8>::new());
    // much later everything has aged again
    assert_eq!(q.get_timed_out(3000, 10000), vec![1, 2, 3, 4, 5]);
}

#[test]
fn queue_wraps_across_sequence_space() {
    let mut q = Queue::with_capacity(4096, 0xFFFF_FF00);
    q.append(&[7; 0x200], 0).unwrap();
    assert_eq!(q.sequence(), 0xFFFF_FF00);
    // a slice that crosses the wrap
    assert_eq!(q.get(0xFFFF_FFF0, 0x20).unwrap(), vec![7; 0x20]);
    q.invalidate_to(0x80);
    assert_eq!(q.sequence(), 0x80);
    assert_eq!(q.len(), 0x80);
}

#[test]
fn window_delivers_contiguous_prefix() {
    let mut w = Window::with_capacity(1000, 100);
    assert_eq!(w.recv_next(), 100);
    // out of order: nothing deliverable yet
    assert_eq!(w.append(105, &[5, 6, 7, 8]).unwrap(), None);
    assert_eq!(w.recv_next(), 100);
    let ranges = w.filled();
    assert_eq!(ranges, vec![(105, 109)]);
    // the gap closes: everything through 109 comes out at once
    let out = w.append(100, &[0, 1, 2, 3, 4]).unwrap().expect("the gap closed");
    assert_eq!(out, vec![0, 1, 2, 3, 4, 5, 6, 7, 8]);
    assert_eq!(w.recv_next(), 109);
    assert!(w.is_empty());
    assert_eq!(w.remaining_size(), 1000 - 9);
}

#[test]
fn window_ignores_stale_bytes() {
    let mut w = Window::with_capacity(1000, 100);
    let out = w.append(100, &[1, 2, 3]).unwrap().unwrap();
    assert_eq!(out, vec![1, 2, 3]);
    // bytes entirely before the delivery point are ignored
    assert_eq!(w.append(100, &[9, 9, 9]).unwrap(), None);
    assert_eq!(w.recv_next(), 103);
    // a straddling write only contributes its new tail
    let out = w.append(101, &[2, 3, 4, 5]).unwrap().unwrap();
    assert_eq!(out, vec![4, 5]);
    assert_eq!(w.recv_next(), 105);
}

#[test]
fn window_rejects_writes_past_capacity() {
    let mut w = Window::with_capacity(10, 0);
    assert_eq!(w.append(8, &[1, 2, 3]), Err(ProtocolError::OutOfCapacity));
}

#[test]
fn defragmenter_reassembles_two_fragments() {
    let mut d = Defraggler::new();
    let first = Ipv4 {
        identification: 77,
        more_fragments: true,
        fragment_offset: 0,
        protocol: 17,
        src: 0xC0A8_0002,
        dst: 0x0808_0808,
    };
    assert!(d.add(&first, &[1; 16]).is_none());
    let last = Ipv4 { more_fragments: false, fragment_offset: 2, ..first };
    let (whole, body) = d.add(&last, &[2; 4]).expect("the datagram completed");
    assert_eq!(whole.identification, 77);
    assert!(!whole.more_fragments);
    assert_eq!(whole.fragment_offset, 0);
    assert_eq!(body.len(), 20);
    assert_eq!(&body[..16], &[1; 16]);
    assert_eq!(&body[16..], &[2; 4]);
}

#[test]
fn port_table_reuses_the_oldest_binding() {
    let mut t = PortMap::new();
    // 64 distinct source ports each get a fresh local port
    for i in 0..64u16 {
        match t.get_or_bind(2000 + i) {
            PortDecision::NeedsFresh => t.record_binding(2000 + i, 10000 + i),
            other => panic!("expected a fresh binding, got {:?}", discriminant_name(&other)),
        }
    }
    for i in 0..64u16 {
        assert_eq!(t.lookup(2000 + i), 10000 + i);
    }
    // the 65th evicts the least recently used: the very first binding
    match t.get_or_bind(3000) {
        PortDecision::Reused(local, prev) => {
            assert_eq!(local, 10000);
            assert_eq!(prev, 2000);
        },
        other => panic!("expected a reuse, got {:?}", discriminant_name(&other)),
    }
    assert_eq!(t.lookup(3000), 10000);
    // the previous source port is unmapped
    assert_eq!(t.lookup(2000), 0);
}

#[test]
fn port_table_touch_protects_recent_bindings() {
    let mut t = PortMap::new();
    for i in 0..64u16 {
        match t.get_or_bind(2000 + i) {
            PortDecision::NeedsFresh => t.record_binding(2000 + i, 10000 + i),
            _ => panic!("expected a fresh binding"),
        }
    }
    // touching the oldest binding makes the second-oldest the victim
    match t.get_or_bind(2000) {
        PortDecision::Bound(local) => assert_eq!(local, 10000),
        _ => panic!("expected the existing binding"),
    }
    match t.get_or_bind(4000) {
        PortDecision::Reused(local, prev) => {
            assert_eq!(local, 10001);
            assert_eq!(prev, 2001);
        },
        _ => panic!("expected a reuse"),
    }
}

fn discriminant_name(d: &PortDecision) -> &'static str {
    match d {
        PortDecision::Bound(_) => "Bound",
        PortDecision::NeedsFresh => "NeedsFresh",
        PortDecision::Reused(_, _) => "Reused",
    }
}

fn iface(name: &str, first_ip: u32, loopback: bool, up: bool) -> Interface {
    Interface {
        name: name.to_string(),
        ip_addrs: vec![first_ip],
        is_loopback: loopback,
        is_up: up,
    }
}

#[test]
fn interfaces_drop_loopbacks() {
    let all = vec![iface("lo", 0x7F000001, true, true), iface("eth0", 0xC0A80001, false, true)];
    let usable = interfaces(all);
    assert_eq!(usable.len(), 1);
    assert_eq!(usable[0].name, "eth0");
}

#[test]
fn interface_picks_by_name_or_unique_default() {
    let all = vec![
        iface("lo", 0x7F000001, true, true),
        iface("eth0", 0xC0A80001, false, true),
        iface("eth1", 0, false, true),
    ];
    let chosen = interface(all.clone(), Some("eth1".to_string())).expect("named pick");
    assert_eq!(chosen.name, "eth1");
    // without a name, only eth0 has a specified address and is up
    let chosen = interface(all.clone(), None).expect("unique default");
    assert_eq!(chosen.name, "eth0");
    // an unknown name matches nothing
    assert!(interface(all, Some("wlan0".to_string())).is_none());
}
