use muster_net::addr::IpAddr;
use muster_net::portscan::{assemble, host_ports, Cookie, Method, PortState, Ports, PortsError};

fn ip(s: &str) -> IpAddr {
    IpAddr::parse(s).unwrap()
}

#[test]
fn a_cookie_validates_only_its_own_probe() {
    let c = Cookie::with_key(0xdead_beef, 0xfeed_face);
    let src = ip("192.168.0.150");
    let dst = ip("192.168.0.1");

    let isn = c.for_probe(src, dst, 443);
    assert!(c.validates(src, dst, 443, isn.wrapping_add(1)));
    assert!(!c.validates(src, dst, 80, isn.wrapping_add(1)));
    assert!(!c.validates(src, ip("192.168.0.2"), 443, isn.wrapping_add(1)));
    assert!(!c.validates(ip("192.168.0.9"), dst, 443, isn.wrapping_add(1)));
    assert!(!c.validates(src, dst, 443, isn));
}

#[test]
fn a_cookie_at_the_end_of_the_range_wraps() {
    let c = Cookie::with_key(1, 2);
    let src = ip("10.0.0.1");
    for port in 1..=u16::MAX {
        let dst = ip("10.0.0.2");
        let isn = c.for_probe(src, dst, port);
        if isn == u32::MAX {
            assert!(c.validates(src, dst, port, 0), "wrapped acknowledgement");
            return;
        }
    }
    assert_eq!(u32::MAX.wrapping_add(1), 0);
}

#[test]
fn two_runs_do_not_share_cookies() {
    let a = Cookie::with_key(1, 2);
    let b = Cookie::with_key(3, 4);
    let (src, dst) = (ip("10.0.0.1"), ip("10.0.0.2"));
    let differing = (1..=1000u16)
        .filter(|&p| a.for_probe(src, dst, p) != b.for_probe(src, dst, p))
        .count();
    assert_eq!(differing, 1000, "a different secret must give different cookies");
}

#[test]
fn cookies_differ_across_ports_and_hosts() {
    let c = Cookie::with_key(9, 9);
    let src = ip("10.0.0.1");
    let mut seen = std::collections::BTreeSet::new();
    for port in 1..=500u16 {
        seen.insert(c.for_probe(src, ip("10.0.0.2"), port));
    }
    assert_eq!(seen.len(), 500, "no two ports share a cookie");

    let mut hosts = std::collections::BTreeSet::new();
    for n in 1..=200u8 {
        hosts.insert(c.for_probe(src, ip(&format!("10.0.0.{n}")), 443));
    }
    assert_eq!(hosts.len(), 200);
}

#[test]
fn a_new_cookie_is_not_a_fixed_one() {
    let (src, dst) = (ip("10.0.0.1"), ip("10.0.0.2"));
    let a = Cookie::new().for_probe(src, dst, 443);
    let b = Cookie::new().for_probe(src, dst, 443);
    assert_ne!(a, b);
}

#[test]
fn a_cookie_is_the_same_for_the_same_probe() {
    let c = Cookie::with_key(5, 6);
    let (src, dst) = (ip("10.0.0.1"), ip("fe80::1"));
    assert_eq!(c.for_probe(src, dst, 22), c.for_probe(src, dst, 22));
}

#[test]
fn parses_lists_and_ranges() {
    let p: Ports = "80,443,8080".parse().unwrap();
    assert_eq!(p.as_slice(), &[80, 443, 8080]);

    let p: Ports = "20-25".parse().unwrap();
    assert_eq!(p.as_slice(), &[20, 21, 22, 23, 24, 25]);

    let p: Ports = "443, 80, 79-81".parse().unwrap();
    assert_eq!(p.as_slice(), &[79, 80, 81, 443]);
}

#[test]
fn refuses_nonsense_rather_than_scanning_something_unintended() {
    assert!("".parse::<Ports>().is_err());
    assert!("http".parse::<Ports>().is_err());
    assert!("70000".parse::<Ports>().is_err(), "beyond a u16");
    assert_eq!("100-50".parse::<Ports>(), Err(PortsError::Backwards(100, 50)));
}

#[test]
fn each_port_list_refusal_says_why() {
    assert_eq!(Ports::parse(" , "), Err(PortsError::Empty));
    assert_eq!(Ports::parse("http"), Err(PortsError::NotAPort("http".to_string())));
    assert_eq!(Ports::parse("1-x"), Err(PortsError::NotAPort("x".to_string())));
    assert_eq!(PortsError::Backwards(100, 50).to_string(), "the range 100-50 runs backwards");
    assert_eq!(PortsError::NotAPort("http".to_string()).to_string(), "'http' is not a port number");
}

#[test]
fn the_whole_range_is_expressible() {
    let p: Ports = "1-65535".parse().unwrap();
    assert_eq!(p.len(), 65535);
    assert!(!p.is_empty());
}

#[test]
fn the_common_list_is_sorted_and_free_of_duplicates() {
    let common = Ports::common();
    let mut sorted = common.as_slice().to_vec();
    sorted.sort_unstable();
    sorted.dedup();
    assert_eq!(sorted.as_slice(), common.as_slice());
    assert!(common.as_slice().contains(&443));
    assert!(common.as_slice().contains(&22));
}

#[test]
fn finds_open_ports_and_keeps_them_in_order() {
    let target = ip("192.168.0.6");
    let answers = vec![
        (443, PortState::Open),
        (22, PortState::Open),
        (8080, PortState::Filtered),
        (80, PortState::Open),
    ];
    let s = assemble(&vec![target], &vec![answers], Method::Connect, 4, 4, false);
    assert_eq!(s.hosts[0].open(), vec![22, 80, 443]);
    assert_eq!(s.probed, 4);
    assert_eq!(s.total, 4);
}

#[test]
fn silence_is_not_reported_as_closed() {
    let target = ip("10.0.0.1");
    let answers = vec![
        (80, PortState::Closed),
        (443, PortState::Filtered),
        (8080, PortState::Filtered),
    ];
    let s = assemble(&vec![target], &vec![answers], Method::Connect, 3, 3, false);
    assert_eq!(s.hosts[0].closed(), 1, "only the RST counts as closed");
    assert_eq!(s.hosts[0].filtered, 2);
    assert_eq!(s.hosts[0].open().len(), 0);

    let caveats = s.caveats().join("; ");
    assert!(caveats.contains("did not answer"), "{caveats}");
    assert!(caveats.contains("not the same as being closed"), "{caveats}");
    assert!(caveats.contains("2 ports did not answer"), "{caveats}");
}

#[test]
fn the_method_is_reported_with_its_limits() {
    let s = assemble(
        &vec![ip("10.0.0.1")],
        &vec![vec![(80, PortState::Filtered)]],
        Method::Connect,
        1,
        1,
        false,
    );
    assert_eq!(s.method, Method::Connect);
    assert_eq!(s.method.label(), "connect()");
    assert!(s.caveats().iter().any(|c| c.contains("connect()")));
    assert_eq!(Method::Syn.caveat(), None, "the fast path has nothing to apologise for");
}

#[test]
fn cancelling_stops_and_says_so() {
    let s = assemble(&vec![ip("10.0.0.1")], &vec![vec![]], Method::Syn, 10, 2000, true);
    assert!(s.cancelled);
    assert!(s.probed < s.total);
    assert!(s.caveats().iter().any(|c| c.contains("stopped early")));
}

#[test]
fn a_clean_syn_scan_has_nothing_to_say() {
    let s = assemble(
        &vec![ip("10.0.0.1")],
        &vec![vec![(22, PortState::Open)]],
        Method::Syn,
        1,
        1,
        false,
    );
    assert!(s.caveats().is_empty());
}

#[test]
fn one_host_keeps_its_answers_by_port() {
    let h = host_ports(
        ip("10.0.0.3"),
        &vec![(9, PortState::Closed), (7, PortState::Open), (8, PortState::Filtered)],
    );
    assert_eq!(h.answered, vec![(7, PortState::Open), (9, PortState::Closed)]);
    assert_eq!(h.filtered, 1);
}

#[test]
fn port_states_have_labels() {
    assert_eq!(PortState::Open.label(), "open");
    assert_eq!(PortState::Closed.label(), "closed");
    assert_eq!(PortState::Filtered.label(), "no reply");
}
