use muster_net::addr::IpAddr;
use muster_net::prefix::{HostIter, Prefix, PrefixError};

fn p(s: &str) -> Prefix {
    s.parse().unwrap()
}

fn ip(s: &str) -> IpAddr {
    s.parse::<IpAddr>().unwrap()
}

/// Every address a host walk hands out, in order.
fn all(mut walk: HostIter) -> Vec<IpAddr> {
    let mut out = Vec::new();
    while let Some(a) = walk.next() {
        out.push(a);
    }
    out
}

#[test]
fn masks_the_address_down_to_its_network() {
    assert_eq!(p("192.168.1.37/24").to_string(), "192.168.1.0/24");
    assert_eq!(p("10.11.12.13/8").to_string(), "10.0.0.0/8");
    assert_eq!(p("2001:db8::dead:beef/32").to_string(), "2001:db8::/32");
}

#[test]
fn rejects_a_length_the_family_cannot_hold() {
    assert!("192.168.1.0/33".parse::<Prefix>().is_err());
    assert!("::/129".parse::<Prefix>().is_err());
    assert!("192.168.1.0".parse::<Prefix>().is_err());
}

#[test]
fn each_refusal_says_why() {
    assert_eq!(Prefix::parse("192.168.1.0/33"), Err(PrefixError::TooLong { len: 33, max: 32 }));
    assert_eq!(Prefix::parse("192.168.1.0"), Err(PrefixError::Malformed));
    assert_eq!(Prefix::parse("192.168.1.0/x"), Err(PrefixError::Malformed));
    assert_eq!(
        PrefixError::TooLong { len: 33, max: 32 }.to_string(),
        "prefix /33 is longer than /32"
    );
    assert_eq!(Prefix::new(ip("::1"), 200), Err(PrefixError::TooLong { len: 200, max: 128 }));
}

#[test]
fn membership_does_not_cross_families() {
    let net = p("192.168.1.0/24");
    assert!(net.contains(ip("192.168.1.1")));
    assert!(net.contains(ip("192.168.1.255")));
    assert!(!net.contains(ip("192.168.2.1")));
    assert!(!net.contains(ip("::1")));
}

#[test]
fn a_slash_24_sweeps_254_addresses() {
    let hosts = all(p("192.168.1.0/24").hosts().unwrap());
    assert_eq!(hosts.len(), 254);
    assert_eq!(hosts[0], ip("192.168.1.1"));
    assert_eq!(hosts[253], ip("192.168.1.254"));
}

#[test]
fn short_prefixes_have_no_network_or_broadcast_to_skip() {
    let pair = all(p("10.0.0.4/31").hosts().unwrap());
    assert_eq!(pair.len(), 2);
    assert_eq!(pair[0], ip("10.0.0.4"));

    let one = all(p("10.0.0.7/32").hosts().unwrap());
    assert_eq!(one, vec![ip("10.0.0.7")]);
}

#[test]
fn ipv6_prefixes_refuse_to_be_enumerated() {
    assert!(p("fe80::/64").hosts().is_none());
    assert!(p("2001:db8::/32").hosts().is_none());
    assert_eq!(p("fe80::/64").host_count(), 0);
}

#[test]
fn over_broad_v4_prefixes_refuse_too() {
    assert!(p("192.168.0.0/16").hosts().is_some(), "/16 is the limit, inclusive");
    assert!(p("10.0.0.0/8").hosts().is_none());
}

#[test]
fn the_last_address_of_the_family_terminates_the_walk() {
    let top = all(p("255.255.255.254/31").hosts().unwrap());
    assert_eq!(top.len(), 2);
    assert_eq!(top[1], ip("255.255.255.255"));

    let v6 = all(p("ffff:ffff:ffff:ffff:ffff:ffff:ffff:fffe/127").hosts().unwrap());
    assert_eq!(v6.len(), 2);
    assert_eq!(v6[1], ip("ffff:ffff:ffff:ffff:ffff:ffff:ffff:ffff"));
}

#[test]
fn size_saturates_rather_than_overflowing() {
    assert_eq!(p("192.168.1.0/24").size(), 256);
    assert_eq!(p("0.0.0.0/0").size(), 1 << 32);
    assert_eq!(p("::/0").size(), u64::MAX);
    assert_eq!(p("2001:db8::/64").size(), u64::MAX);
}

#[test]
fn host_count_agrees_with_the_iterator() {
    for text in ["192.168.1.0/24", "10.0.0.4/31", "10.0.0.7/32", "172.16.0.0/20"] {
        let net = p(text);
        assert_eq!(net.host_count() as usize, all(net.hosts().unwrap()).len(), "{text}");
    }
}

#[test]
fn the_walk_knows_how_much_is_left() {
    let mut walk = p("10.0.0.0/30").hosts().unwrap();
    assert_eq!(walk.len(), 2);
    assert_eq!(walk.next(), Some(ip("10.0.0.1")));
    assert_eq!(walk.len(), 1);
    assert_eq!(walk.next(), Some(ip("10.0.0.2")));
    assert_eq!(walk.len(), 0);
    assert_eq!(walk.next(), None);
    assert_eq!(walk.next(), None);
}

#[test]
fn the_parts_of_a_prefix_read_back() {
    let net = p("172.16.5.9/20");
    assert_eq!(net.network(), ip("172.16.0.0"));
    assert_eq!(net.len(), 20);
    assert!(net.is_ipv4());
    assert!(!p("fe80::/64").is_ipv4());
    assert!(net.same(&p("172.16.0.0/20")));
    assert!(!net.same(&p("172.16.0.0/21")));
}

#[test]
fn prefix_text_round_trips_through_parse() {
    for text in ["0.0.0.0/0", "192.168.1.0/24", "fe80::/10", "2001:db8::/32", "::1/128"] {
        assert_eq!(p(text).to_string(), text);
        assert!(p(&p(text).to_string()).same(&p(text)));
    }
}

#[test]
fn every_address_walked_is_inside_the_prefix() {
    for text in ["10.0.0.0/28", "192.168.1.0/24", "10.0.0.6/31", "fe80::/120"] {
        let net = p(text);
        for a in all(net.hosts().unwrap()) {
            assert!(net.contains(a), "{} outside {text}", a.to_string());
        }
    }
}
