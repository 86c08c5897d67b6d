use muster_net::addr::IpAddr;
use muster_net::procfs::{lease_server, mask_len_v4, neighbours_v4, resolvers, routes_v4, routes_v6};
use muster_net::sysinfo::NeighbourState;

const ROUTE: &str = "\
Iface\tDestination\tGateway \tFlags\tRefCnt\tUse\tMetric\tMask\t\tMTU\tWindow\tIRTT
eth0\t00000000\t0101A8C0\t0003\t0\t0\t100\t00000000\t0\t0\t0
eth0\t0001A8C0\t00000000\t0001\t0\t0\t100\t00FFFFFF\t0\t0\t0
tun0\t00000000\t0100080A\t0003\t0\t0\t50\t00000000\t0\t0\t0
eth0\t0000FEA9\t00000000\t0001\t0\t0\t1000\t0000FFFF\t0\t0\t0
";

fn ip(s: &str) -> IpAddr {
    s.parse::<IpAddr>().unwrap()
}

#[test]
fn route_addresses_are_little_endian() {
    let routes = routes_v4(ROUTE);
    let (iface, default) = &routes[0];
    assert_eq!(iface, "eth0");
    assert!(default.is_default());
    assert_eq!(default.gateway, Some(ip("192.168.1.1")));
    assert_eq!(default.metric, 100);
}

#[test]
fn masks_become_prefix_lengths() {
    let routes = routes_v4(ROUTE);
    assert_eq!(routes[1].1.destination.to_string(), "192.168.1.0/24");
    assert_eq!(routes[1].1.gateway, None, "an on-link route has no gateway");
    assert_eq!(routes[3].1.destination.to_string(), "169.254.0.0/16");
}

#[test]
fn a_mask_is_counted_by_its_bits() {
    assert_eq!(mask_len_v4(0x00FF_FFFF), 24);
    assert_eq!(mask_len_v4(0), 0);
    assert_eq!(mask_len_v4(0xFFFF_FFFF), 32);
}

#[test]
fn both_default_routes_survive_for_the_survey_to_choose_between() {
    let routes = routes_v4(ROUTE);
    let defaults: Vec<_> = routes.iter().filter(|(_, r)| r.is_default()).collect();
    assert_eq!(defaults.len(), 2);
    assert_eq!(defaults[1].0, "tun0");
    assert_eq!(defaults[1].1.metric, 50, "the VPN's better metric is preserved");
}

#[test]
fn a_route_that_is_not_up_is_skipped() {
    let down = "Iface\tDestination\tGateway\tFlags\tRefCnt\tUse\tMetric\tMask\tMTU\tWindow\tIRTT
eth0\t0001A8C0\t00000000\t0000\t0\t0\t100\t00FFFFFF\t0\t0\t0
";
    assert!(routes_v4(down).is_empty());
}

#[test]
fn rubbish_lines_are_skipped_rather_than_panicking() {
    assert!(routes_v4("Iface Destination\nnonsense\n\n").is_empty());
    assert!(routes_v6("nonsense\n").is_empty());
    assert!(neighbours_v4("IP address\ngarbage here\n").is_empty());
}

const IPV6_ROUTE: &str = "\
fe800000000000000000000000000000 40 00000000000000000000000000000000 00 \
00000000000000000000000000000000 00000100 00000000 00000000 00000001 eth0
00000000000000000000000000000000 00 00000000000000000000000000000000 00 \
fe800000000000000000000000000001 00000400 00000000 00000000 00000003 eth0
";

#[test]
fn ipv6_routes_read_the_unpunctuated_form() {
    let routes = routes_v6(IPV6_ROUTE);
    assert_eq!(routes.len(), 2);
    assert_eq!(routes[0].1.destination.to_string(), "fe80::/64");
    assert_eq!(routes[0].1.gateway, None);

    assert!(routes[1].1.is_default());
    assert_eq!(routes[1].1.gateway, Some(ip("fe80::1")));
    assert_eq!(routes[1].1.metric, 0x400);
}

const ARP: &str = "\
IP address       HW type     Flags       HW address            Mask     Device
192.168.1.1      0x1         0x2         3c:22:fb:aa:bb:cc     *        eth0
192.168.1.50     0x1         0x0         00:00:00:00:00:00     *        eth0
192.168.1.60     0x1         0x6         aa:bb:cc:dd:ee:ff     *        eth0
";

#[test]
fn incomplete_arp_entries_are_not_devices() {
    let found = neighbours_v4(ARP);
    assert_eq!(found.len(), 3, "all three are parsed");

    let evidence: Vec<_> = found
        .iter()
        .filter(|(_, n)| n.state.is_evidence())
        .map(|(_, n)| n.address.to_string())
        .collect();
    assert_eq!(evidence, ["192.168.1.1", "192.168.1.60"]);

    assert_eq!(found[1].1.state, NeighbourState::Incomplete);
    assert!(found[1].1.mac.is_zero());
    assert_eq!(found[2].1.state, NeighbourState::Static, "ATF_PERM");
    assert_eq!(found[0].0, "eth0");
}

#[test]
fn resolvers_ignore_comments_options_and_scopes() {
    let text = "\
# Generated by NetworkManager
nameserver 192.168.1.1
nameserver 1.1.1.1  # the fallback
options edns0 trust-ad
search lan
nameserver fe80::1%eth0
nameserver 192.168.1.1
nameserver not-an-address
";
    assert_eq!(resolvers(text), vec![ip("192.168.1.1"), ip("1.1.1.1"), ip("fe80::1")]);
}

#[test]
fn the_stub_resolver_is_reported_rather_than_hidden() {
    assert_eq!(resolvers("nameserver 127.0.0.53\n"), vec![ip("127.0.0.53")]);
}

#[test]
fn a_lease_file_gives_the_dhcp_server() {
    let lease = "\
# This is private data. Do not parse.
ADDRESS=192.168.1.42
NETMASK=255.255.255.0
ROUTER=192.168.1.1
SERVER_ADDRESS=192.168.1.1
NEXT_SERVER=192.168.1.1
";
    assert_eq!(lease_server(lease), Some(ip("192.168.1.1")));
    assert_eq!(lease_server("ADDRESS=1.2.3.4\n"), None);
}
