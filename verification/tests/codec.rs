//! Wire-level tests: sequence arithmetic, range subtraction, checksums, and
//! the parse/serialize round trip.

use pcap2socks::packet::{Arp, Ethernet, Indicator, Ipv4, Network, Tcp, Transport, Udp};
use pcap2socks::parse::parse_frame;
use pcap2socks::seq_space::{disjoint_u32_range, seq_add, seq_sub, subtract_ranges};
use pcap2socks::wire::checksum;
use pcap2socks::{flow_id, SocketV4};

#[test]
fn seq_arithmetic_wraps() {
    assert_eq!(seq_add(0xFFFF_FFFF, 1), 0);
    assert_eq!(seq_add(0xFFFF_FF00, 0x200), 0x100);
    assert_eq!(seq_sub(0, 1), 0xFFFF_FFFF);
    assert_eq!(seq_sub(0x100, 0xFFFF_FF00), 0x200);
    assert_eq!(seq_add(1000, 500), 1500);
    assert_eq!(seq_sub(1500, 1000), 500);
}

#[test]
fn flow_identity_packs_all_fields() {
    let a = flow_id(SocketV4 { ip: 0x0808_0808, port: 443 }, 50000);
    let b = flow_id(SocketV4 { ip: 0x0808_0808, port: 443 }, 50001);
    let c = flow_id(SocketV4 { ip: 0x0808_0809, port: 443 }, 50000);
    let d = flow_id(SocketV4 { ip: 0x0808_0808, port: 444 }, 50000);
    assert_ne!(a, b);
    assert_ne!(a, c);
    assert_ne!(a, d);
    assert_eq!(a, 50000u64 * 0x1_0000_0000_0000 + 0x0808_0808u64 * 0x10000 + 443);
}

#[test]
fn checksum_of_known_words() {
    // 0x4500 + 0x0028 = 0x4528; its ones complement is 0xBAD7
    assert_eq!(checksum(&[0x45, 0x00, 0x00, 0x28]), 0xBAD7);
    // a lone trailing byte counts as the high byte of a final word
    assert_eq!(checksum(&[0x45]), 0xFFFF - 0x4500);
    assert_eq!(checksum(&[]), 0xFFFF);
}

#[test]
fn range_subtraction_middle() {
    let r = disjoint_u32_range((1000, 4000), (2000, 3000));
    assert_eq!(r, vec![(1000, 2000), (3000, 4000)]);
}

#[test]
fn range_subtraction_whole() {
    // an exact cover leaves only an empty range, which contains nothing
    let r = disjoint_u32_range((1000, 4000), (1000, 4000));
    assert_eq!(r, vec![(1000, 1000)]);
    // a strict cover leaves nothing at all
    let r = disjoint_u32_range((1000, 4000), (900, 4100));
    assert_eq!(r, Vec::<(u32, u32)>::new());
}

#[test]
fn range_subtraction_outside() {
    let r = disjoint_u32_range((1000, 4000), (4000, 5000));
    assert_eq!(r, vec![(1000, 4000)]);
}

#[test]
fn range_subtraction_left_overlap() {
    let r = disjoint_u32_range((1000, 4000), (500, 1500));
    assert_eq!(r, vec![(1500, 4000)]);
}

#[test]
fn range_subtraction_across_wrap() {
    // a window that crosses the sequence wrap
    let main = (0xFFFF_FF00u32, 0x100u32);
    let r = disjoint_u32_range(main, (0xFFFF_FF80, 0x80));
    assert_eq!(r, vec![(0xFFFF_FF00, 0xFFFF_FF80), (0x80, 0x100)]);
}

#[test]
fn range_subtraction_fold() {
    let subs = vec![(1500u32, 2000u32), (2500u32, 3000u32)];
    let r = subtract_ranges((1000, 4000), &subs);
    assert_eq!(r, vec![(1000, 1500), (2000, 2500), (3000, 4000)]);
}

fn tcp_indicator() -> Indicator {
    let tcp = Tcp {
        src: 443,
        dst: 50000,
        sequence: 123_456_789,
        acknowledgement: 987_654_321,
        syn: false,
        ack: true,
        rst: false,
        fin: false,
        psh: false,
        window: 64240,
        mss: None,
        wscale: None,
        sack_perm: false,
        sacks: vec![(1000, 2000), (3000, 4000)],
        ts: Some((7, 9)),
    };
    Indicator {
        ethernet: Ethernet { dst: 0x0a0b0c0d0e0f, src: 0x111213141516, kind: 0x0800 },
        network: Network::Ipv4(Ipv4 {
            identification: 42,
            more_fragments: false,
            fragment_offset: 0,
            protocol: 6,
            src: 0xC0A8_0002,
            dst: 0x0808_0808,
        }),
        transport: Transport::Tcp(tcp),
        payload: vec![1, 2, 3, 4, 5],
    }
}

#[test]
fn parse_undoes_serialize_for_tcp() {
    let ind = tcp_indicator();
    let bytes = ind.serialize();
    let back = parse_frame(&bytes).expect("the serialized frame must parse");
    assert_eq!(back, ind);
}

#[test]
fn parse_undoes_serialize_for_padded_tcp() {
    let ind = tcp_indicator();
    let bytes = ind.emit();
    assert!(bytes.len() >= 60);
    let back = parse_frame(&bytes).expect("the padded frame must parse");
    assert_eq!(back, ind);
}

#[test]
fn parse_undoes_serialize_for_syn_options() {
    let tcp = Tcp {
        src: 50000,
        dst: 443,
        sequence: 1000,
        acknowledgement: 0,
        syn: true,
        ack: false,
        rst: false,
        fin: false,
        psh: false,
        window: 64240,
        mss: Some(1460),
        wscale: Some(7),
        sack_perm: true,
        sacks: vec![],
        ts: None,
    };
    let ind = Indicator {
        ethernet: Ethernet { dst: 0x111213141516, src: 0x0a0b0c0d0e0f, kind: 0x0800 },
        network: Network::Ipv4(Ipv4 {
            identification: 1,
            more_fragments: false,
            fragment_offset: 0,
            protocol: 6,
            src: 0x0808_0808,
            dst: 0xC0A8_0002,
        }),
        transport: Transport::Tcp(tcp),
        payload: vec![],
    };
    let back = parse_frame(&ind.emit()).expect("the SYN frame must parse");
    assert_eq!(back, ind);
}

#[test]
fn parse_undoes_serialize_for_udp() {
    let ind = Indicator {
        ethernet: Ethernet { dst: 1, src: 2, kind: 0x0800 },
        network: Network::Ipv4(Ipv4 {
            identification: 7,
            more_fragments: false,
            fragment_offset: 0,
            protocol: 17,
            src: 0x0808_0808,
            dst: 0xC0A8_0002,
        }),
        transport: Transport::Udp(Udp { src: 53, dst: 40000 }),
        payload: vec![9, 8, 7],
    };
    let back = parse_frame(&ind.emit()).expect("the UDP frame must parse");
    assert_eq!(back, ind);
}

#[test]
fn parse_undoes_serialize_for_arp() {
    let ind = Indicator {
        ethernet: Ethernet { dst: 0xFFFF_FFFF_FFFF, src: 0x111213141516, kind: 0x0806 },
        network: Network::Arp(Arp {
            op: 1,
            sha: 0x111213141516,
            spa: 0xC0A8_0002,
            tha: 0,
            tpa: 0xC0A8_0001,
        }),
        transport: Transport::Raw,
        payload: vec![],
    };
    let back = parse_frame(&ind.emit()).expect("the ARP frame must parse");
    assert_eq!(back, ind);
}

#[test]
fn parse_rejects_short_frames() {
    assert!(parse_frame(&[0u8; 13]).is_none());
    assert!(parse_frame(&[0u8; 20]).is_none());
}
