use std::collections::BTreeMap;
use std::time::Duration;

use muster_net::addr::{IpAddr, Ipv4Addr};
use muster_net::discover::{
    finish_sweep, knock_port, sweep_opening, too_large, Capabilities, Evidence, Found, Options,
    Outcome, Prober, Step, Sweep,
};
use muster_net::mac::MacAddr;
use muster_net::prefix::Prefix;

/// A network held in maps, and a record of every probe sent to it.
struct Fake {
    caps: Capabilities,
    arp: BTreeMap<Ipv4Addr, MacAddr>,
    arp_broken: bool,
    pings: Vec<IpAddr>,
    tcp: BTreeMap<IpAddr, BTreeMap<u16, Outcome>>,
    sent: Vec<String>,
    /// Stop is pressed while the first ping is in flight.
    stop_on_ping: bool,
    cancelled: bool,
}

impl Fake {
    fn new() -> Fake {
        Fake {
            caps: Capabilities::unprivileged(),
            arp: BTreeMap::new(),
            arp_broken: false,
            pings: Vec::new(),
            tcp: BTreeMap::new(),
            sent: Vec::new(),
            stop_on_ping: false,
            cancelled: false,
        }
    }

    fn count(&self, needle: &str) -> usize {
        self.sent.iter().filter(|s| s.starts_with(needle)).count()
    }

    /// Runs one address's conversation to its end.
    fn probe(&mut self, address: IpAddr, opts: &Options) -> Prober {
        let mut p = Prober::new(address, self.caps, opts);
        loop {
            if self.cancelled && p.step() != Step::Done {
                p.stop();
            }
            match p.step() {
                Step::Arp(a) => {
                    self.sent.push(format!("arp {}", a.to_string()));
                    let answer = if self.arp_broken {
                        Err("the ARP mechanism is broken".to_string())
                    } else {
                        Ok(self.arp.get(&a).copied())
                    };
                    p.on_arp(answer);
                }
                Step::Ping => {
                    self.sent.push(format!("ping {}", address.to_string()));
                    if self.stop_on_ping {
                        self.cancelled = true;
                    }
                    let answer = if address.is_ipv6() {
                        Err("IPv6 echo is not implemented".to_string())
                    } else {
                        Ok(self.pings.contains(&address).then_some(Duration::from_millis(3)))
                    };
                    p.on_ping(answer);
                }
                Step::Knock(port) => {
                    self.sent.push(format!("tcp {}:{port}", address.to_string()));
                    let outcome = self
                        .tcp
                        .get(&address)
                        .and_then(|m| m.get(&port))
                        .copied()
                        .unwrap_or(Outcome::NoAnswer);
                    p.on_knock(outcome);
                }
                Step::Done => return p,
            }
        }
    }

    /// The sweep of a prefix, one address after another.
    fn sweep(&mut self, prefix: &str, opts: Options) -> Sweep {
        let prefix: Prefix = prefix.parse().unwrap();
        let Some(mut walk) = prefix.hosts() else {
            return too_large(&prefix);
        };
        let total = walk.len() as u64;
        let mut found: Vec<Found> = Vec::new();
        let mut gaps: Vec<String> = Vec::new();
        let mut probed = 0;
        let mut arp_silent = 0;
        while let Some(address) = walk.next() {
            if self.cancelled {
                break;
            }
            let p = self.probe(address, &opts);
            probed += 1;
            if p.settled_by_silence {
                arp_silent += 1;
            }
            gaps.extend(p.gaps.iter().cloned());
            if let Some(f) = p.found() {
                found.push(f);
            }
        }
        let opening = sweep_opening(self.caps, &opts);
        finish_sweep(found, probed, total, opening, &gaps, self.cancelled, arp_silent, &opts)
    }
}

fn v4(s: &str) -> Ipv4Addr {
    Ipv4Addr::parse(s).unwrap()
}

fn ip(s: &str) -> IpAddr {
    s.parse().unwrap()
}

fn hw(s: &str) -> MacAddr {
    s.parse().unwrap()
}

#[test]
fn finds_a_host_by_arp_and_keeps_its_hardware_address() {
    let mut fake = Fake::new();
    fake.arp.insert(v4("192.168.1.1"), hw("3c:22:fb:aa:bb:cc"));

    let s = fake.sweep("192.168.1.0/24", Options::on_link());
    assert_eq!(s.found.len(), 1);
    assert_eq!(s.found[0].address, ip("192.168.1.1"));
    assert_eq!(s.found[0].mac, Some(hw("3c:22:fb:aa:bb:cc")));
    assert_eq!(s.found[0].evidence[0].reason(), "answered ARP");
    assert_eq!(s.probed, 254);
    assert!(s.is_complete());
}

#[test]
fn a_refused_connection_proves_a_host() {
    let mut fake = Fake::new();
    fake.tcp.insert(
        ip("192.168.1.7"),
        BTreeMap::from([(80, Outcome::NoAnswer), (443, Outcome::Refused)]),
    );

    let s = fake.sweep("192.168.1.0/24", Options::default());
    assert_eq!(s.found.len(), 1);
    assert_eq!(s.found[0].address, ip("192.168.1.7"));
    assert_eq!(s.found[0].evidence, vec![Evidence::TcpRefused(443)]);
    assert_eq!(s.found[0].evidence[0].reason(), "port 443 refused");
}

#[test]
fn silence_finds_nothing() {
    let mut fake = Fake::new();
    let s = fake.sweep("192.168.1.0/24", Options::default());
    assert!(s.found.is_empty());
    assert_eq!(s.probed, 254);
    assert!(s.is_complete(), "a sweep that found nothing still did its job");
}

#[test]
fn a_host_that_answered_is_not_knocked_on() {
    let mut fake = Fake::new();
    fake.pings.push(ip("192.168.1.5"));

    fake.sweep("192.168.1.0/28", Options::default());
    assert_eq!(fake.count("tcp 192.168.1.5:"), 0, "it already answered");
    assert!(fake.count("tcp 192.168.1.6:") > 0, "the silent one is knocked on");
}

#[test]
fn the_knock_stops_at_a_refusal() {
    let mut fake = Fake::new();
    fake.tcp.insert(ip("192.168.1.3"), BTreeMap::from([(80, Outcome::Refused)]));
    fake.tcp.insert(
        ip("192.168.1.4"),
        BTreeMap::from([(80, Outcome::Open), (443, Outcome::Open)]),
    );

    let s = fake.sweep("192.168.1.0/29", Options::default());
    assert_eq!(fake.count("tcp 192.168.1.3:"), 1, "stopped at the RST");
    assert_eq!(fake.count("tcp 192.168.1.4:"), 4);

    let open = s.found.iter().find(|f| f.address == ip("192.168.1.4")).unwrap();
    assert_eq!(open.open_ports(), vec![80, 443]);
}

#[test]
fn on_link_silence_from_arp_ends_the_probe() {
    let mut fake = Fake::new();
    fake.arp.insert(v4("192.168.1.1"), hw("3c:22:fb:aa:bb:cc"));

    let s = fake.sweep("192.168.1.0/29", Options::on_link());
    assert_eq!(s.found.len(), 1);
    assert_eq!(fake.count("arp"), 6, "every address is still asked");
    assert_eq!(fake.count("tcp"), 0, "and none of the silent ones is knocked on");
    assert_eq!(fake.count("ping"), 1, "only the host that answered is pinged");
}

#[test]
fn off_link_silence_from_arp_settles_nothing() {
    let mut fake = Fake::new();
    fake.tcp.insert(ip("192.168.1.3"), BTreeMap::from([(80, Outcome::Open)]));

    let s = fake.sweep("192.168.1.0/29", Options::default());
    assert_eq!(s.found.len(), 1, "found through the knock alone");
    assert_eq!(s.found[0].evidence, vec![Evidence::TcpOpen(80)]);
    assert!(fake.count("tcp") > 0);
}

#[test]
fn arp_is_not_asked_off_link_at_all() {
    let mut fake = Fake::new();
    fake.arp.insert(v4("192.168.1.3"), hw("3c:22:fb:aa:bb:cc"));

    let s = fake.sweep("192.168.1.0/29", Options::default());
    assert_eq!(fake.count("arp"), 0, "not one request went out");
    assert!(s.found.is_empty(), "and no hardware address was invented");
    assert!(s.not_done.is_empty(), "nor is a technique that does not apply reported as missing");
}

#[test]
fn a_broken_arp_does_not_settle_an_address_even_on_link() {
    let mut fake = Fake::new();
    fake.arp_broken = true;
    fake.pings.push(ip("192.168.1.2"));

    let s = fake.sweep("192.168.1.0/29", Options::on_link());
    assert_eq!(s.found.len(), 1, "the pinging host survives a broken ARP");
    assert_eq!(s.found[0].address, ip("192.168.1.2"));
    assert!(!s.is_complete(), "a broken mechanism is an incomplete sweep");
    assert_eq!(s.not_done.len(), 1, "{:?}", s.not_done);
    assert!(s.not_done[0].contains("hardware address lookups failed"), "{:?}", s.not_done);
}

#[test]
fn a_family_the_transport_cannot_ping_is_a_stated_gap() {
    let mut fake = Fake::new();
    let s = fake.sweep("2001:db8::/126", Options::default());

    assert!(s.found.is_empty());
    assert_eq!(s.probed, 4, "the addresses were walked");
    assert_eq!(fake.count("arp"), 0, "there is no ARP for IPv6");
    assert!(!s.is_complete(), "so this is not a network with nothing on it");
    assert_eq!(s.not_done.len(), 1, "{:?}", s.not_done);
    assert!(s.not_done[0].contains("could not send an ICMP echo"), "{:?}", s.not_done);
    assert!(s.not_done[0].contains("IPv6 echo is not implemented"), "{:?}", s.not_done);
}

#[test]
fn a_link_that_filters_arp_is_not_reported_as_an_empty_network() {
    let mut fake = Fake::new();
    let s = fake.sweep("192.168.1.0/24", Options::on_link());

    assert!(s.found.is_empty());
    assert_eq!(s.probed, 254);
    assert_eq!(fake.count("ping"), 0, "the shortcut did take effect");
    assert!(!s.is_complete(), "but nothing found by ARP alone is not an answer");
    assert!(s.not_done.iter().any(|l| l.contains("filters ARP")), "{:?}", s.not_done);
}

#[test]
fn one_answer_is_enough_to_trust_the_shortcut() {
    let mut fake = Fake::new();
    fake.arp.insert(v4("192.168.1.1"), hw("3c:22:fb:aa:bb:cc"));

    let s = fake.sweep("192.168.1.0/24", Options::on_link());
    assert_eq!(s.found.len(), 1);
    assert!(s.is_complete(), "{:?}", s.not_done);
}

#[test]
fn a_sweep_that_could_not_arp_says_what_it_missed() {
    let mut fake = Fake::new();
    fake.caps = Capabilities { arp: false, icmp: true, tcp: true };
    fake.pings.push(ip("192.168.1.9"));

    let s = fake.sweep("192.168.1.0/24", Options::on_link());
    assert_eq!(s.found.len(), 1, "the pinging host is still found");
    assert!(!s.is_complete(), "but the sweep is not complete");
    assert_eq!(s.not_done.len(), 1);
    assert!(s.not_done[0].contains("ARP"), "{:?}", s.not_done);
    assert_eq!(fake.count("arp"), 0, "and it did not pretend to try");
}

#[test]
fn an_unenumerable_prefix_is_a_stated_gap() {
    let mut fake = Fake::new();
    let s = fake.sweep("fe80::/64", Options::default());
    assert!(s.found.is_empty());
    assert!(!s.is_complete());
    assert_eq!(s.not_done.len(), 1);
    assert!(s.not_done[0].contains("too large"), "{:?}", s.not_done);
    assert_eq!(fake.count("ping"), 0);
}

#[test]
fn results_come_back_in_address_order_whatever_the_threads_did() {
    let mut found = Vec::new();
    for last in [9u8, 2, 200, 1] {
        found.push(Found {
            address: IpAddr::V4(Ipv4Addr::new(10, 0, 0, last)),
            mac: None,
            evidence: vec![Evidence::Ping],
            rtt: None,
        });
    }
    let s = finish_sweep(found, 4, 4, Vec::new(), &Vec::new(), false, 0, &Options::default());
    let order: Vec<String> = s.found.iter().map(|f| f.address.to_string()).collect();
    assert_eq!(order, ["10.0.0.1", "10.0.0.2", "10.0.0.9", "10.0.0.200"]);
}

#[test]
fn cancelling_stops_early_and_the_result_admits_it() {
    let s = finish_sweep(Vec::new(), 10, 254, Vec::new(), &Vec::new(), true, 10, &Options::on_link());
    assert!(s.cancelled);
    assert!(s.probed < s.total);
    assert!(!s.is_complete());
    assert!(s.not_done.is_empty(), "a cancelled sweep is not read as a filtering link");
}

#[test]
fn a_stopped_prober_sends_nothing_more_and_keeps_what_answered() {
    let opts = Options::default();
    let mut p = Prober::new(ip("10.0.0.5"), Capabilities::unprivileged(), &opts);
    assert_eq!(p.step(), Step::Ping);
    p.on_ping(Ok(Some(Duration::from_millis(2))));
    p.stop();
    assert_eq!(p.step(), Step::Done);
    let f = p.found().unwrap();
    assert_eq!(f.evidence, vec![Evidence::Ping]);
    assert_eq!(f.rtt, Some(Duration::from_millis(2)));
}

#[test]
fn the_same_gap_from_many_addresses_is_said_once() {
    let gaps = vec!["b".to_string(), "a".to_string(), "b".to_string()];
    let s = finish_sweep(Vec::new(), 3, 3, vec!["first".to_string()], &gaps, false, 0, &Options::default());
    assert_eq!(s.not_done, vec!["first", "a", "b"]);
}

#[test]
fn the_knock_ports_are_the_web_ssh_and_smb() {
    assert_eq!([knock_port(0), knock_port(1), knock_port(2), knock_port(3)], [80, 443, 22, 445]);
}

#[test]
fn each_reason_reads_as_a_phrase() {
    assert_eq!(Evidence::Ping.reason(), "answered ping");
    assert_eq!(Evidence::TcpOpen(22).reason(), "port 22 open");
}

#[test]
fn cancelling_takes_effect_at_the_next_probe_and_not_the_next_address() {
    let mut fake = Fake::new();
    fake.stop_on_ping = true;
    let s = fake.sweep("192.168.1.0/29", Options::default());
    assert_eq!(fake.sent.len(), 1, "the four knocks behind the cancelled ping must not go out");
    assert!(s.cancelled);
    assert!(!s.is_complete());
}
