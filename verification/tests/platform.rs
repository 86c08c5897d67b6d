use muster_net::addr::IpAddr;
use muster_net::mac::MacAddr;
use muster_net::platform::{
    adapter_interface, adapter_kind, checksum, echo_request, forward_route, if_flags,
    is_echo_reply, link_kind, merge_nodes, neighbour_row, neighbour_state, Adapter, Node,
    NodeAddr,
};
use muster_net::sysinfo::{IfFlags, LinkKind, NeighbourState};

fn ip(s: &str) -> IpAddr {
    s.parse().unwrap()
}

#[test]
fn neighbour_states_map_onto_evidence() {
    assert_eq!(neighbour_state(1), NeighbourState::Incomplete);
    assert_eq!(neighbour_state(0), NeighbourState::Incomplete);
    assert_eq!(neighbour_state(5), NeighbourState::Reachable);
    assert_eq!(neighbour_state(6), NeighbourState::Static);
    for mid in [2, 3, 4] {
        assert_eq!(neighbour_state(mid), NeighbourState::Stale);
    }
    assert!(!neighbour_state(1).is_evidence());
    assert!(neighbour_state(4).is_evidence());
}

#[test]
fn adapter_types_are_told_apart() {
    assert_eq!(adapter_kind(6), LinkKind::Ethernet);
    assert_eq!(adapter_kind(71), LinkKind::Wireless);
    assert_eq!(adapter_kind(24), LinkKind::Loopback);
    assert_eq!(adapter_kind(131), LinkKind::Tunnel);
    assert_eq!(adapter_kind(23), LinkKind::Tunnel);
    assert_eq!(adapter_kind(1), LinkKind::Unknown);
}

#[test]
fn an_adapter_becomes_an_interface() {
    let a = Adapter {
        name: "{GUID}".to_string(),
        friendly: "Wi-Fi".to_string(),
        index: 12,
        physical: vec![0x3c, 0x22, 0xfb, 1, 2, 3],
        unicast: vec![(ip("192.168.1.42"), 24), (ip("10.0.0.1"), 40)],
        dns: vec![ip("192.168.1.1")],
        if_type: 71,
        oper_status: 1,
        mtu: 1500,
        dhcp_server: Some(ip("192.168.1.1")),
    };
    let i = adapter_interface(a);
    assert_eq!(i.name, "{GUID}");
    assert_eq!(i.friendly, "Wi-Fi");
    assert_eq!(i.mac, Some(MacAddr::new([0x3c, 0x22, 0xfb, 1, 2, 3])));
    assert_eq!(i.addresses.len(), 1, "a prefix longer than the family is dropped");
    assert_eq!(i.addresses[0].prefix.to_string(), "192.168.1.0/24");
    assert_eq!(i.kind, LinkKind::Wireless);
    assert_eq!(i.flags, IfFlags { up: true, loopback: false, point_to_point: false });
    assert_eq!(i.dns, vec![ip("192.168.1.1")]);
    assert_eq!(i.dhcp_server, Some(ip("192.168.1.1")));
}

#[test]
fn a_route_with_an_unspecified_next_hop_is_on_link() {
    let r = forward_route(ip("192.168.1.0"), 24, Some(ip("0.0.0.0")), 3, 25).unwrap();
    assert_eq!(r.gateway, None);
    assert_eq!(r.destination.to_string(), "192.168.1.0/24");
    assert_eq!(r.metric, 25);
    let d = forward_route(ip("0.0.0.0"), 0, Some(ip("192.168.1.1")), 3, 25).unwrap();
    assert!(d.is_default());
    assert_eq!(d.gateway, Some(ip("192.168.1.1")));
    assert!(forward_route(ip("10.0.0.0"), 33, None, 3, 1).is_none());
}

#[test]
fn only_six_byte_neighbours_are_kept() {
    let n = neighbour_row(ip("192.168.1.1"), &[1, 2, 3, 4, 5, 6], 2, 5).unwrap();
    assert_eq!(n.mac, MacAddr::new([1, 2, 3, 4, 5, 6]));
    assert_eq!(n.state, NeighbourState::Reachable);
    assert!(neighbour_row(ip("192.168.1.1"), &[1, 2, 3, 4], 2, 5).is_none());
}

#[test]
fn linux_flags_and_link_kinds() {
    assert_eq!(if_flags(1 | 8), IfFlags { up: true, loopback: true, point_to_point: false });
    assert_eq!(if_flags(16), IfFlags { up: false, loopback: false, point_to_point: true });
    assert_eq!(link_kind(8, false, Some(1)), LinkKind::Loopback);
    assert_eq!(link_kind(1, true, Some(1)), LinkKind::Wireless);
    assert_eq!(link_kind(16, false, None), LinkKind::Tunnel);
    assert_eq!(link_kind(1, false, Some(1)), LinkKind::Ethernet);
    assert_eq!(link_kind(1, false, Some(772)), LinkKind::Loopback);
    assert_eq!(link_kind(1, false, Some(65534)), LinkKind::Unknown);
}

fn node(name: &str, addr: NodeAddr) -> Node {
    Node { name: name.to_string(), flags: 1, index: 2, mtu: 1500, wireless: false, sys_type: Some(1), addr }
}

#[test]
fn records_of_one_name_make_one_interface() {
    let nodes = vec![
        node("eth0", NodeAddr::Hardware(MacAddr::new([0x3c, 0x22, 0xfb, 0, 0, 1]))),
        node("lo", NodeAddr::Ip(ip("127.0.0.1"), Some(8))),
        node("eth0", NodeAddr::Ip(ip("192.168.1.42"), Some(24))),
        node("eth0", NodeAddr::Ip(ip("fe80::1"), None)),
        node("eth0", NodeAddr::Other),
    ];
    let merged = merge_nodes(&nodes);
    assert_eq!(merged.len(), 2);
    assert_eq!(merged[0].name, "eth0");
    assert_eq!(merged[0].friendly, "eth0");
    assert_eq!(merged[0].mac, Some(MacAddr::new([0x3c, 0x22, 0xfb, 0, 0, 1])));
    assert_eq!(merged[0].addresses.len(), 2);
    assert_eq!(merged[0].addresses[1].prefix.to_string(), "fe80::1/128");
    assert_eq!(merged[1].name, "lo");
    assert_eq!(merged[1].mac, None);
}

#[test]
fn a_zero_hardware_address_is_no_hardware_address() {
    let merged = merge_nodes(&vec![node("tun0", NodeAddr::Hardware(MacAddr::zero()))]);
    assert_eq!(merged[0].mac, None);
}

#[test]
fn the_checksum_matches_the_worked_example() {
    assert_eq!(checksum(&[0x00, 0x01, 0xf2, 0x03, 0xf4, 0xf5, 0xf6, 0xf7]), 0x220d);
    assert_eq!(checksum(&[]), 0xffff);
    assert_eq!(checksum(&[0x01]), 0xfeff, "an odd byte is padded with zero");
}

#[test]
fn the_echo_request_checks_out() {
    let p = echo_request();
    assert_eq!(p.len(), 40);
    assert_eq!(p[0], 8);
    assert_eq!(&p[4..8], &[0, 0, 0, 1]);
    assert!(p[8..].iter().all(|&b| b == 0x61));
    assert_eq!(checksum(&p), 0, "a packet with its checksum sums to nothing");
}

#[test]
fn only_an_echo_reply_is_the_host_answering() {
    assert!(is_echo_reply(&[0, 0, 0, 0, 0, 0, 0, 1]));
    assert!(!is_echo_reply(&[3, 1, 0, 0, 0, 0, 0, 0]), "an unreachable is a router talking");
    assert!(!is_echo_reply(&[0, 0, 0]));
}
