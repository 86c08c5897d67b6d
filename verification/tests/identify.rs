use muster_net::addr::{IpAddr, Ipv4Addr};
use muster_net::dns;
use muster_net::identify::{questions, service_type, Identity, Question, Source};
use muster_net::mac::MacAddr;
use muster_net::netbios;
use std::collections::BTreeMap;

/// Recorded replies, keyed by where the question went.
#[derive(Default)]
struct Fake {
    replies: BTreeMap<(IpAddr, u16), Vec<u8>>,
    asked: Vec<(IpAddr, u16)>,
}

/// The conversation with one device, against recorded replies.
fn one(fake: &mut Fake, address: IpAddr, resolver: Option<IpAddr>, id: u16) -> Identity {
    let mut found = Identity::default();
    for q in questions(address, resolver, true, true, id) {
        fake.asked.push((q.to, q.port));
        if let Some(reply) = fake.replies.get(&(q.to, q.port)) {
            found.take(q.question, reply);
        }
    }
    found
}

fn ptr_reply(question: &str, answer: &str) -> Vec<u8> {
    let mut m = Vec::new();
    m.extend_from_slice(&0u16.to_be_bytes());
    m.extend_from_slice(&0x8180u16.to_be_bytes());
    m.extend_from_slice(&1u16.to_be_bytes());
    m.extend_from_slice(&1u16.to_be_bytes());
    m.extend_from_slice(&[0, 0, 0, 0]);
    let q = dns::query(0, question, dns::TYPE_PTR, false);
    m.extend_from_slice(&q[12..]);
    m.extend_from_slice(&[0xc0, 12]);
    m.extend_from_slice(&dns::TYPE_PTR.to_be_bytes());
    m.extend_from_slice(&dns::CLASS_IN.to_be_bytes());
    m.extend_from_slice(&60u32.to_be_bytes());
    let mut target = Vec::new();
    for label in answer.split('.') {
        target.push(label.len() as u8);
        target.extend_from_slice(label.as_bytes());
    }
    target.push(0);
    m.extend_from_slice(&(target.len() as u16).to_be_bytes());
    m.extend_from_slice(&target);
    m
}

fn ip(s: &str) -> IpAddr {
    s.parse().unwrap()
}

#[test]
fn reverse_dns_finds_a_name_through_the_resolver() {
    let mut fake = Fake::default();
    fake.replies.insert(
        (ip("192.168.0.1"), 53),
        ptr_reply("9.0.168.192.in-addr.arpa", "kitchen-pi.lan"),
    );
    let found = one(&mut fake, ip("192.168.0.9"), Some(ip("192.168.0.1")), 1);
    assert_eq!(found.best().unwrap().value, "kitchen-pi.lan");
    assert_eq!(found.best().unwrap().source, Source::ReverseDns);
}

#[test]
fn a_device_speaking_for_itself_outranks_the_resolver() {
    let mut fake = Fake::default();
    fake.replies.insert(
        (ip("192.168.0.1"), 53),
        ptr_reply("9.0.168.192.in-addr.arpa", "old-name.lan"),
    );
    fake.replies.insert(
        (ip("192.168.0.9"), 5353),
        ptr_reply("9.0.168.192.in-addr.arpa", "living-room.local"),
    );
    let found = one(&mut fake, ip("192.168.0.9"), Some(ip("192.168.0.1")), 1);
    assert_eq!(found.best().unwrap().source, Source::Mdns);
    assert_eq!(found.best().unwrap().value, "living-room.local");
    assert_eq!(found.names.len(), 2);
    assert!(found.disputed(), "two genuinely different names");
}

#[test]
fn a_netbios_name_does_not_dispute_its_own_mdns_name() {
    let mut found = Identity::default();
    found.add("truenas.local".into(), Source::Mdns);
    found.add("TRUENAS".into(), Source::NetBios);
    assert!(!found.disputed(), "{:?}", found.names);
    assert_eq!(found.other_names(), Vec::<&str>::new());
    assert_eq!(found.best().unwrap().value, "truenas.local");
}

#[test]
fn genuinely_different_names_are_reported_with_both() {
    let mut found = Identity::default();
    found.add("living-room.local".into(), Source::Mdns);
    found.add("old-tenant.lan".into(), Source::ReverseDns);
    assert!(found.disputed());
    assert_eq!(found.other_names(), vec!["old-tenant.lan"]);
}

#[test]
fn the_same_name_with_and_without_a_suffix_is_not_a_dispute() {
    let mut fake = Fake::default();
    fake.replies.insert(
        (ip("192.168.0.1"), 53),
        ptr_reply("9.0.168.192.in-addr.arpa", "printer.lan"),
    );
    fake.replies.insert(
        (ip("192.168.0.9"), 5353),
        ptr_reply("9.0.168.192.in-addr.arpa", "printer.local"),
    );
    let found = one(&mut fake, ip("192.168.0.9"), Some(ip("192.168.0.1")), 1);
    assert_eq!(found.names.len(), 2);
    assert!(!found.disputed());
}

#[test]
fn netbios_gives_a_windows_machine_its_name_and_workgroup() {
    let mut m = Vec::new();
    m.extend_from_slice(&1u16.to_be_bytes());
    m.extend_from_slice(&0x8400u16.to_be_bytes());
    m.extend_from_slice(&0u16.to_be_bytes());
    m.extend_from_slice(&1u16.to_be_bytes());
    m.extend_from_slice(&[0, 0, 0, 0]);
    let q = netbios::node_status_query(1);
    m.extend_from_slice(&q[12..46]);
    m.extend_from_slice(&[0x00, 0x21, 0x00, 0x01]);
    m.extend_from_slice(&0u32.to_be_bytes());
    let mut body = vec![2u8];
    for (name, suffix, group) in [("DESKTOP-7F3A", 0x00u8, false), ("WORKGROUP", 0x00, true)] {
        let mut padded = format!("{name:<15}").into_bytes();
        padded.truncate(15);
        body.extend_from_slice(&padded);
        body.push(suffix);
        body.extend_from_slice(&(if group { 0x8000u16 } else { 0x0400 }).to_be_bytes());
    }
    body.extend_from_slice(&[0x4c, 0xed, 0xfb, 0xb8, 0x1f, 0x75]);
    body.extend_from_slice(&[0u8; 40]);
    m.extend_from_slice(&(body.len() as u16).to_be_bytes());
    m.extend_from_slice(&body);

    let mut fake = Fake::default();
    fake.replies.insert((ip("192.168.0.20"), 137), m);
    let found = one(&mut fake, ip("192.168.0.20"), None, 1);
    assert_eq!(found.best().unwrap().value, "DESKTOP-7F3A");
    assert_eq!(found.best().unwrap().source, Source::NetBios);
    assert_eq!(found.workgroup.as_deref(), Some("WORKGROUP"));
    assert_eq!(found.mac, Some("4c:ed:fb:b8:1f:75".parse::<MacAddr>().unwrap()));
}

#[test]
fn a_device_that_answers_nothing_gets_an_empty_identity_not_an_error() {
    let mut fake = Fake::default();
    let found = one(&mut fake, ip("192.168.0.9"), Some(ip("192.168.0.1")), 1);
    assert!(found.is_empty());
    assert_eq!(found.best(), None);
    assert!(!found.disputed());
}

#[test]
fn no_resolver_means_no_reverse_lookup_rather_than_a_guess() {
    let mut fake = Fake::default();
    one(&mut fake, ip("192.168.0.9"), None, 1);
    assert!(
        !fake.asked.iter().any(|a| a.1 == 53),
        "asked something: {:?}",
        fake.asked
    );
    assert!(fake.asked.iter().any(|a| a.1 == 5353));
    assert!(fake.asked.iter().any(|a| a.1 == 137));
}

#[test]
fn service_types_are_read_out_of_mdns_names() {
    assert_eq!(
        service_type("brother._ipp._tcp.local").as_deref(),
        Some("_ipp._tcp")
    );
    assert_eq!(
        service_type("Living Room._googlecast._tcp.local.").as_deref(),
        Some("_googlecast._tcp")
    );
    assert_eq!(service_type("host.local"), None);
    assert_eq!(service_type("_services._dns-sd._udp.local"), None);
}

#[test]
fn the_questions_go_where_they_should_in_order() {
    let qs = questions(ip("192.168.0.9"), Some(ip("192.168.0.1")), true, true, 7);
    let shape: Vec<(Question, IpAddr, u16)> = qs.iter().map(|q| (q.question, q.to, q.port)).collect();
    assert_eq!(
        shape,
        vec![
            (Question::Reverse, ip("192.168.0.1"), 53),
            (Question::Mdns, ip("192.168.0.9"), 5353),
            (Question::NetBios, ip("192.168.0.9"), 137),
        ]
    );
    assert_eq!(
        qs[0].payload,
        dns::query(7, "9.0.168.192.in-addr.arpa", dns::TYPE_PTR, false)
    );
    assert_eq!(
        qs[1].payload,
        dns::query(0, "9.0.168.192.in-addr.arpa", dns::TYPE_PTR, true)
    );
    assert_eq!(qs[2].payload, netbios::node_status_query(7));
}

#[test]
fn an_ipv6_device_is_asked_only_for_netbios() {
    let qs = questions(ip("fe80::1"), Some(ip("192.168.0.1")), true, true, 7);
    assert_eq!(qs.len(), 1);
    assert_eq!(qs[0].question, Question::NetBios);
}

#[test]
fn trailing_dots_are_trimmed_and_repeats_ignored() {
    let mut found = Identity::default();
    found.add("router.lan.".into(), Source::ReverseDns);
    found.add("router.lan".into(), Source::ReverseDns);
    found.add("...".into(), Source::Mdns);
    assert_eq!(found.names.len(), 1);
    assert_eq!(found.names[0].value, "router.lan");
    let _ = Ipv4Addr::new(0, 0, 0, 0);
}

#[test]
fn names_stay_in_priority_order_whatever_the_arrival() {
    let mut found = Identity::default();
    found.add("c".into(), Source::ReverseDns);
    found.add("b".into(), Source::NetBios);
    found.add("a".into(), Source::Mdns);
    found.add("d".into(), Source::NetBios);
    let order: Vec<(&str, Source)> = found.names.iter().map(|n| (n.value.as_str(), n.source)).collect();
    assert_eq!(
        order,
        vec![
            ("a", Source::Mdns),
            ("b", Source::NetBios),
            ("d", Source::NetBios),
            ("c", Source::ReverseDns),
        ]
    );
    assert_eq!(Source::ReverseDns.label(), "reverse DNS");
}
