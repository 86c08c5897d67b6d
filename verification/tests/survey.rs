use muster_net::addr::IpAddr;
use muster_net::mac::MacAddr;
use muster_net::prefix::Prefix;
use muster_net::survey::{Reading, Survey};
use muster_net::sysinfo::{IfAddr, IfFlags, Interface, LinkKind, Neighbour, NeighbourState, Recorded, Route};

fn ip(s: &str) -> IpAddr {
    s.parse().unwrap()
}

fn prefix(s: &str) -> Prefix {
    s.parse().unwrap()
}

fn wired(index: u32, addr: &str, net: &str) -> Interface {
    Interface {
        name: format!("eth{index}"),
        friendly: format!("Ethernet {index}"),
        index,
        mac: Some("3c:22:fb:00:11:22".parse().unwrap()),
        addresses: vec![IfAddr { address: ip(addr), prefix: prefix(net) }],
        kind: LinkKind::Ethernet,
        flags: IfFlags { up: true, loopback: false, point_to_point: false },
        mtu: 1500,
        dns: Vec::new(),
        dhcp_server: None,
    }
}

fn loopback() -> Interface {
    Interface {
        name: "lo".into(),
        friendly: "Loopback".into(),
        index: 1,
        mac: None,
        addresses: vec![IfAddr { address: ip("127.0.0.1"), prefix: prefix("127.0.0.0/8") }],
        kind: LinkKind::Loopback,
        flags: IfFlags { up: true, loopback: true, point_to_point: false },
        mtu: 65536,
        dns: Vec::new(),
        dhcp_server: None,
    }
}

fn default_route(gateway: &str, index: u32, metric: u32) -> Route {
    Route {
        destination: prefix("0.0.0.0/0"),
        gateway: Some(ip(gateway)),
        interface_index: index,
        metric,
    }
}

fn home() -> Recorded {
    let mut eth = wired(2, "192.168.1.42", "192.168.1.0/24");
    eth.dns = vec![ip("192.168.1.1")];
    eth.dhcp_server = Some(ip("192.168.1.1"));
    Recorded {
        interfaces: vec![loopback(), eth],
        routes: vec![
            default_route("192.168.1.1", 2, 10),
            Route {
                destination: prefix("192.168.1.0/24"),
                gateway: None,
                interface_index: 2,
                metric: 10,
            },
        ],
        neighbours: vec![Neighbour {
            address: ip("192.168.1.1"),
            mac: "3c:22:fb:aa:bb:cc".parse().unwrap(),
            interface_index: 2,
            state: NeighbourState::Reachable,
        }],
        resolvers: vec![ip("192.168.1.1")],
        broken: false,
    }
}

#[test]
fn finds_the_gateway_the_interface_and_the_prefix() {
    let s = Survey::take(home());
    assert_eq!(s.gateways.len(), 1);
    assert_eq!(s.gateways[0].address, ip("192.168.1.1"));
    assert_eq!(s.primary().unwrap().name, "eth2");
    assert_eq!(s.default_targets(), vec![prefix("192.168.1.0/24")]);
    assert_eq!(s.dhcp_servers, vec![ip("192.168.1.1")]);
    assert!(s.gaps.is_empty());
}

#[test]
fn loopback_is_never_the_primary_interface() {
    let mut r = home();
    r.routes.clear();
    let s = Survey::take(r);
    assert_eq!(s.primary().unwrap().name, "eth2");
    assert!(!loopback().is_scannable());
}

#[test]
fn the_best_default_route_wins_and_only_one_per_family() {
    let mut r = home();
    r.interfaces.push(wired(3, "10.8.0.2", "10.8.0.0/24"));
    r.routes.push(default_route("10.8.0.1", 3, 1));
    r.routes.push(Route {
        destination: prefix("::/0"),
        gateway: Some(ip("fe80::1")),
        interface_index: 2,
        metric: 20,
    });

    let s = Survey::take(r);
    let v4: Vec<_> = s.gateways.iter().filter(|g| g.address.is_ipv4()).collect();
    assert_eq!(v4.len(), 1, "one v4 gateway, the best one");
    assert_eq!(v4[0].address, ip("10.8.0.1"));
    assert_eq!(s.gateways.len(), 2, "and the v6 one beside it");
    assert_eq!(s.primary().unwrap().name, "eth3");
}

#[test]
fn a_failed_reading_is_a_gap_and_not_an_empty_answer() {
    let s = Survey::take(Recorded { broken: true, ..home() });
    assert!(s.gateways.is_empty());
    assert!(!s.has(Reading::Routes));
    assert!(!s.has(Reading::Interfaces));
    assert_eq!(s.gaps.len(), 4, "every reading failed and every one is named");
    assert!(s.gaps.iter().all(|g| !g.because.is_empty()));
}

#[test]
fn a_good_survey_claims_every_reading() {
    let s = Survey::take(home());
    for reading in [
        Reading::Interfaces,
        Reading::Routes,
        Reading::Neighbours,
        Reading::Resolvers,
    ] {
        assert!(s.has(reading), "{} should have been read", reading.label());
    }
}

#[test]
fn resolvers_are_unioned_without_duplicates() {
    let mut r = home();
    r.resolvers = vec![ip("1.1.1.1")];
    r.interfaces[1].dns = vec![ip("1.1.1.1"), ip("192.168.1.1")];
    let s = Survey::take(r);
    assert_eq!(s.resolvers, vec![ip("1.1.1.1"), ip("192.168.1.1")]);
}

#[test]
fn host_routes_are_not_swept() {
    let mut r = home();
    r.interfaces[1].addresses.push(IfAddr { address: ip("10.8.0.2"), prefix: prefix("10.8.0.2/32") });
    let s = Survey::take(r);
    assert_eq!(s.default_targets(), vec![prefix("192.168.1.0/24")]);
}

#[test]
fn an_over_broad_prefix_is_not_a_default_target() {
    let mut r = home();
    r.interfaces[1].addresses = vec![IfAddr { address: ip("10.1.2.3"), prefix: prefix("10.0.0.0/8") }];
    r.routes = vec![default_route("10.0.0.1", 2, 10)];
    let s = Survey::take(r);
    assert!(s.primary().is_some());
    assert!(s.default_targets().is_empty(), "a /8 needs asking, not defaulting");
}

#[test]
fn incomplete_neighbours_are_not_devices() {
    let mut r = home();
    r.neighbours.push(Neighbour {
        address: ip("192.168.1.99"),
        mac: MacAddr::zero(),
        interface_index: 2,
        state: NeighbourState::Incomplete,
    });
    r.neighbours.push(Neighbour {
        address: ip("224.0.0.251"),
        mac: "01:00:5e:00:00:fb".parse().unwrap(),
        interface_index: 2,
        state: NeighbourState::Static,
    });
    let s = Survey::take(r);
    let found: Vec<_> = s.known_devices().iter().map(|n| n.address).collect();
    assert_eq!(found, vec![ip("192.168.1.1")]);
}

#[test]
fn a_network_with_no_gateway_still_has_a_target() {
    let r = Recorded {
        interfaces: vec![loopback(), wired(2, "172.16.5.9", "172.16.5.0/24")],
        routes: Vec::new(),
        ..Default::default()
    };
    let s = Survey::take(r);
    assert!(s.gateways.is_empty());
    assert_eq!(s.default_targets(), vec![prefix("172.16.5.0/24")]);
}

#[test]
fn the_interface_is_found_by_its_index() {
    let s = Survey::take(home());
    assert_eq!(s.interface(2).unwrap().name, "eth2");
    assert!(s.interface(9).is_none());
}

#[test]
fn a_gap_names_its_reading() {
    let s = Survey::take(Recorded { broken: true, ..home() });
    assert_eq!(s.gaps[0].reading, Reading::Interfaces);
    assert_eq!(s.gaps[0].because, "recorded probe is broken");
    assert_eq!(Reading::Routes.to_string(), "the routing table");
}
