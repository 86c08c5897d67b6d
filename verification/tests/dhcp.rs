use muster_net::addr::Ipv4Addr;
use muster_net::dhcp::{
    discover_message, parse_offer, probe, Broadcaster, DHCP_DISCOVER, DHCP_OFFER, HEADER,
    HLEN_ETHERNET, HTYPE_ETHERNET, OPT_DNS, OPT_END, OPT_LEASE, OPT_ROUTER, OPT_SERVER_ID,
    OPT_SUBNET_MASK, OPT_TYPE, OP_REPLY, OP_REQUEST,
};
use muster_net::mac::MacAddr;
use std::time::Duration;

const MAC: MacAddr = MacAddr([0x3c, 0x22, 0xfb, 0x1a, 0x0c, 0x4e]);
const XID: u32 = 0x1234_5678;
const MAGIC: [u8; 4] = [99, 130, 83, 99];

/// Build an OFFER the way a server would.
fn offer_bytes(server: [u8; 4], offered: [u8; 4], xid: u32) -> Vec<u8> {
    let mut m = vec![0u8; HEADER];
    m[0] = OP_REPLY;
    m[1] = HTYPE_ETHERNET;
    m[2] = HLEN_ETHERNET;
    m[4..8].copy_from_slice(&xid.to_be_bytes());
    m[16..20].copy_from_slice(&offered);
    m[28..34].copy_from_slice(&MAC.0);
    m.extend_from_slice(&MAGIC);
    m.extend_from_slice(&[OPT_TYPE, 1, DHCP_OFFER]);
    m.extend_from_slice(&[OPT_SERVER_ID, 4]);
    m.extend_from_slice(&server);
    m.extend_from_slice(&[OPT_SUBNET_MASK, 4, 255, 255, 255, 0]);
    m.extend_from_slice(&[OPT_ROUTER, 4]);
    m.extend_from_slice(&server);
    m.extend_from_slice(&[OPT_LEASE, 4, 0, 0, 0x0e, 0x10]); // 3600 s
    m.push(OPT_END);
    m
}

struct Recorded(Vec<Vec<u8>>);

impl Broadcaster for Recorded {
    fn broadcast(&self, _payload: &[u8], _window: Duration) -> Result<Vec<Vec<u8>>, String> {
        Ok(self.0.clone())
    }
}

struct Refused;

impl Broadcaster for Refused {
    fn broadcast(&self, _payload: &[u8], _window: Duration) -> Result<Vec<Vec<u8>>, String> {
        Err("permission denied".to_string())
    }
}

#[test]
fn a_discover_is_shaped_the_way_a_server_expects() {
    let m = discover_message(MAC, XID);
    assert_eq!(m[0], OP_REQUEST);
    assert_eq!(m[1], HTYPE_ETHERNET);
    assert_eq!(m[2], HLEN_ETHERNET);
    assert_eq!(&m[4..8], &XID.to_be_bytes());
    assert_eq!(m[10] & 0x80, 0x80, "the broadcast flag must be set");
    assert_eq!(&m[28..34], &MAC.0, "our hardware address identifies us");
    assert_eq!(&m[HEADER..HEADER + 4], &MAGIC);
    assert!(
        m.windows(3).any(|w| w == [OPT_TYPE, 1, DHCP_DISCOVER]),
        "it must say it is a DISCOVER"
    );
    assert_eq!(*m.last().expect("a message"), OPT_END);
}

#[test]
fn there_is_no_way_to_build_a_request() {
    let m = discover_message(MAC, XID);
    let kind = m
        .windows(3)
        .find(|w| w[0] == OPT_TYPE && w[1] == 1)
        .map(|w| w[2]);
    assert_eq!(kind, Some(DHCP_DISCOVER));
}

#[test]
fn an_offer_is_read_field_by_field() {
    let bytes = offer_bytes([192, 0, 2, 1], [192, 0, 2, 50], XID);
    let offer = parse_offer(&bytes, XID).expect("an offer");
    assert_eq!(offer.server, Ipv4Addr::new(192, 0, 2, 1));
    assert_eq!(offer.offered, Ipv4Addr::new(192, 0, 2, 50));
    assert_eq!(offer.mask, Some(Ipv4Addr::new(255, 255, 255, 0)));
    assert_eq!(offer.router, Some(Ipv4Addr::new(192, 0, 2, 1)));
    assert_eq!(offer.lease, Some(Duration::from_secs(3600)));
}

#[test]
fn two_servers_answering_is_the_fault_this_exists_to_find() {
    let probe = probe(
        &Recorded(vec![
            offer_bytes([192, 0, 2, 1], [192, 0, 2, 50], XID),
            offer_bytes([192, 0, 2, 77], [10, 0, 0, 5], XID),
        ]),
        MAC,
        XID,
        Duration::from_secs(1),
    );
    assert_eq!(probe.offers.len(), 2);
    assert!(probe.is_contested());
    assert!(
        probe.verdict().contains("Only one should"),
        "{}",
        probe.verdict()
    );
}

#[test]
fn one_server_answering_twice_is_still_one_server() {
    let probe = probe(
        &Recorded(vec![
            offer_bytes([192, 0, 2, 1], [192, 0, 2, 50], XID),
            offer_bytes([192, 0, 2, 1], [192, 0, 2, 50], XID),
        ]),
        MAC,
        XID,
        Duration::from_secs(1),
    );
    assert_eq!(probe.offers.len(), 2);
    assert!(!probe.is_contested());
    assert_eq!(probe.servers().len(), 1);
}

#[test]
fn somebody_elses_negotiation_is_not_ours() {
    let probe = probe(
        &Recorded(vec![offer_bytes([192, 0, 2, 1], [192, 0, 2, 50], 0xdead)]),
        MAC,
        XID,
        Duration::from_secs(1),
    );
    assert!(
        probe.offers.is_empty(),
        "a different xid is a different client"
    );
}

#[test]
fn a_probe_that_could_not_run_says_so_rather_than_reporting_none() {
    let probe = probe(&Refused, MAC, XID, Duration::from_secs(1));
    assert!(probe.not_done.is_some());
    assert!(!probe.is_contested());
    assert!(probe.verdict().contains("port 68"), "{}", probe.verdict());
}

#[test]
fn a_truncated_or_lying_packet_is_refused_rather_than_believed() {
    assert_eq!(parse_offer(&[], XID), None);
    assert_eq!(parse_offer(&[0u8; 10], XID), None);
    assert_eq!(parse_offer(&[0u8; HEADER + 8], XID), None);

    let mut bytes = offer_bytes([192, 0, 2, 1], [192, 0, 2, 50], XID);
    bytes.pop();
    bytes.extend_from_slice(&[OPT_DNS, 40, 1, 2, 3]);
    let offer = parse_offer(&bytes, XID).expect("the good options still read");
    assert!(offer.dns.is_empty(), "a lying length yields no addresses");
}

#[test]
fn an_offer_with_no_server_identifier_is_not_usable() {
    let mut m = vec![0u8; HEADER];
    m[0] = OP_REPLY;
    m[1] = HTYPE_ETHERNET;
    m[4..8].copy_from_slice(&XID.to_be_bytes());
    m.extend_from_slice(&MAGIC);
    m.extend_from_slice(&[OPT_TYPE, 1, DHCP_OFFER]);
    m.push(OPT_END);
    assert_eq!(parse_offer(&m, XID), None);
}

#[test]
fn nothing_answering_is_reported_as_nothing_answering() {
    let probe = probe(&Recorded(Vec::new()), MAC, XID, Duration::from_secs(1));
    assert!(!probe.is_contested());
    assert_eq!(probe.verdict(), "No DHCP server answered.");
}

#[test]
fn the_refusal_carries_the_reason_the_transport_gave() {
    let probe = probe(&Refused, MAC, XID, Duration::from_secs(1));
    assert_eq!(
        probe.not_done.as_deref(),
        Some(
            "Could not ask for DHCP offers: permission denied. On Linux this needs permission \
             to use port 68; on Windows the DHCP Client service may already hold it."
        )
    );
    assert!(probe.offers.is_empty());
}
