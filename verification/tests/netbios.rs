use muster_net::mac::MacAddr;
use muster_net::netbios::{node_status_query, parse_node_status, CLASS_IN, TYPE_NBSTAT};

#[test]
fn the_wildcard_query_is_encoded_exactly() {
    let q = node_status_query(0x1234);
    assert_eq!(&q[0..2], &[0x12, 0x34], "transaction id");
    assert_eq!(&q[2..4], &[0x00, 0x00], "a query, no flags set");
    assert_eq!(&q[4..6], &[0x00, 0x01], "one question");

    assert_eq!(q[12], 32, "the encoded name is thirty-two bytes");
    let name = std::str::from_utf8(&q[13..45]).unwrap();
    assert_eq!(name, "CKAAAAAAAAAAAAAAAAAAAAAAAAAAAAAA");
    assert_eq!(q[45], 0, "name terminator");
    assert_eq!(&q[46..48], &[0x00, 0x21], "NBSTAT");
    assert_eq!(&q[48..50], &[0x00, 0x01], "class IN");
    assert_eq!(q.len(), 50);
}

/// The first-level encoding of the wildcard name: `*` is 0x2A, so `C` then
/// `K`; fifteen NULs are thirty `A`s.
fn wildcard_encoded() -> Vec<u8> {
    let mut e = vec![b'C', b'K'];
    e.extend_from_slice(&[b'A'; 30]);
    e
}

/// A reply from a Windows machine, built to the shape one really has.
fn reply(names: &[(&str, u8, bool)], mac: Option<[u8; 6]>) -> Vec<u8> {
    let mut m = Vec::new();
    m.extend_from_slice(&0x1234u16.to_be_bytes());
    m.extend_from_slice(&0x8400u16.to_be_bytes());
    m.extend_from_slice(&0u16.to_be_bytes());
    m.extend_from_slice(&1u16.to_be_bytes());
    m.extend_from_slice(&[0, 0, 0, 0]);

    let encoded = wildcard_encoded();
    m.push(encoded.len() as u8);
    m.extend_from_slice(&encoded);
    m.push(0);
    m.extend_from_slice(&TYPE_NBSTAT.to_be_bytes());
    m.extend_from_slice(&CLASS_IN.to_be_bytes());
    m.extend_from_slice(&0u32.to_be_bytes());

    let mut body = Vec::new();
    body.push(names.len() as u8);
    for (name, suffix, group) in names {
        let mut padded = format!("{name:<15}").into_bytes();
        padded.truncate(15);
        body.extend_from_slice(&padded);
        body.push(*suffix);
        body.extend_from_slice(&(if *group { 0x8000u16 } else { 0x0400 }).to_be_bytes());
    }
    if let Some(mac) = mac {
        body.extend_from_slice(&mac);
        body.extend_from_slice(&[0u8; 40]);
    }

    m.extend_from_slice(&(body.len() as u16).to_be_bytes());
    m.extend_from_slice(&body);
    m
}

#[test]
fn the_query_names_the_wildcard() {
    let q = node_status_query(7);
    assert_eq!(&q[13..45], &wildcard_encoded()[..]);
}

#[test]
fn reads_the_hostname_workgroup_and_hardware_address() {
    let buf = reply(
        &[
            ("DESKTOP-7F3A", 0x00, false),
            ("DESKTOP-7F3A", 0x20, false),
            ("WORKGROUP", 0x00, true),
        ],
        Some([0x4c, 0xed, 0xfb, 0xb8, 0x1f, 0x75]),
    );
    let s = parse_node_status(&buf).expect("should decode");
    assert_eq!(s.hostname(), Some("DESKTOP-7F3A"));
    assert_eq!(s.workgroup(), Some("WORKGROUP"));
    assert_eq!(s.mac, Some("4c:ed:fb:b8:1f:75".parse::<MacAddr>().unwrap()));
    assert_eq!(s.names.len(), 3);
}

#[test]
fn the_workgroup_is_not_mistaken_for_the_hostname() {
    let buf = reply(&[("WORKGROUP", 0x00, true), ("LAPTOP", 0x00, false)], None);
    let s = parse_node_status(&buf).unwrap();
    assert_eq!(s.hostname(), Some("LAPTOP"));
    assert_eq!(s.workgroup(), Some("WORKGROUP"));
    assert_eq!(s.mac, None, "a reply with no statistics block has no MAC");
}

#[test]
fn a_name_count_larger_than_the_record_invents_no_names() {
    let mut buf = reply(&[("REAL", 0x00, false)], None);
    let count_at = buf.len() - 19;
    assert_eq!(buf[count_at], 1, "the fixture's name count");
    buf[count_at] = 10;
    buf.extend_from_slice(&[b'X'; 200]);

    let s = parse_node_status(&buf).expect("the good names survive");
    assert_eq!(
        s.names.iter().map(|n| n.name.as_str()).collect::<Vec<_>>(),
        ["REAL"],
        "nothing beyond the record is a name"
    );
}

#[test]
fn a_truncated_record_keeps_the_names_that_decoded() {
    let full = reply(
        &[("LAPTOP", 0x00, false), ("WORKGROUP", 0x00, true)],
        Some([1, 2, 3, 4, 5, 6]),
    );
    let cut = full.len() - 46 - 9;
    let s = parse_node_status(&full[..cut]).expect("the first name survives");
    assert_eq!(s.hostname(), Some("LAPTOP"));
    assert_eq!(s.workgroup(), None, "the name that did not arrive is absent");
    assert_eq!(s.mac, None);
}

#[test]
fn a_reply_with_no_answers_is_not_a_node() {
    let mut m = vec![0u8; 12];
    m[2..4].copy_from_slice(&0x8400u16.to_be_bytes());
    assert_eq!(parse_node_status(&m), None);
}

#[test]
fn truncated_and_random_input_is_refused_rather_than_panicking() {
    let full = reply(&[("BOX", 0x00, false)], Some([1, 2, 3, 4, 5, 6]));
    for cut in 0..full.len() {
        let _ = parse_node_status(&full[..cut]);
    }

    let mut seed = 0x9e37_79b9_7f4a_7c15u64;
    let mut next = move || {
        seed ^= seed << 13;
        seed ^= seed >> 7;
        seed ^= seed << 17;
        seed
    };
    for _ in 0..3000 {
        let len = (next() % 200) as usize;
        let buf: Vec<u8> = (0..len).map(|_| (next() & 0xff) as u8).collect();
        let _ = parse_node_status(&buf);
    }
}
