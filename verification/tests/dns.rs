use muster_net::addr::Ipv4Addr;
use muster_net::dns::{
    be16, parse, query, reverse_name, write_name, RData, CLASS_IN, QU_BIT, TYPE_A, TYPE_PTR,
    TYPE_SRV, TYPE_TXT,
};

#[test]
fn builds_a_reverse_name() {
    assert_eq!(
        reverse_name("192.168.0.1".parse().unwrap()),
        "1.0.168.192.in-addr.arpa"
    );
    assert_eq!(
        reverse_name(Ipv4Addr::new(10, 0, 0, 255)),
        "255.0.0.10.in-addr.arpa"
    );
}

#[test]
fn a_query_round_trips_through_the_parser() {
    let q = query(0x1234, "1.0.168.192.in-addr.arpa", TYPE_PTR, false);
    let m = parse(&q).expect("our own query must parse");
    assert_eq!(m.id, 0x1234);
    assert_eq!(
        m.questions,
        vec![("1.0.168.192.in-addr.arpa".to_string(), TYPE_PTR)]
    );
}

/// Labels that are not ASCII go out as their UTF-8 bytes and read back
/// as the same characters.
#[test]
fn a_query_for_a_utf8_name_round_trips() {
    let q = query(7, "kaffeemaschine-küche.local", TYPE_A, true);
    let m = parse(&q).expect("our own query must parse");
    assert_eq!(m.id, 7);
    assert_eq!(m.flags, 0x0100);
    assert_eq!(
        m.questions,
        vec![("kaffeemaschine-küche.local".to_string(), TYPE_A)]
    );
    assert!(m.answers.is_empty());
    assert!(m.extra.is_empty());
}

/// The mDNS bit goes in the class, and must not be set for ordinary DNS —
/// a resolver asked for class 32769 answers nothing.
#[test]
fn the_unicast_bit_is_only_set_when_asked_for() {
    let plain = query(1, "x.local", TYPE_PTR, false);
    let mdns = query(1, "x.local", TYPE_PTR, true);
    let class_at = plain.len() - 2;
    assert_eq!(be16(&plain, class_at), Some(CLASS_IN));
    assert_eq!(be16(&mdns, class_at), Some(CLASS_IN | QU_BIT));
}

/// A real reverse-lookup reply, built by hand: the answer's name is a
/// pointer back to the question, which is what every resolver does and what
/// a naive decoder gets wrong.
#[test]
fn decodes_a_ptr_answer_that_uses_compression() {
    let mut m = Vec::new();
    m.extend_from_slice(&0xbeefu16.to_be_bytes());
    m.extend_from_slice(&0x8180u16.to_be_bytes()); // response, no error
    m.extend_from_slice(&1u16.to_be_bytes()); // questions
    m.extend_from_slice(&1u16.to_be_bytes()); // answers
    m.extend_from_slice(&[0, 0, 0, 0]);
    write_name(&mut m, "1.0.168.192.in-addr.arpa");
    m.extend_from_slice(&TYPE_PTR.to_be_bytes());
    m.extend_from_slice(&CLASS_IN.to_be_bytes());

    // Answer: name is a pointer to offset 12, the question's name.
    m.extend_from_slice(&[0xc0, 12]);
    m.extend_from_slice(&TYPE_PTR.to_be_bytes());
    m.extend_from_slice(&CLASS_IN.to_be_bytes());
    m.extend_from_slice(&300u32.to_be_bytes());
    let mut target = Vec::new();
    write_name(&mut target, "router.lan");
    m.extend_from_slice(&(target.len() as u16).to_be_bytes());
    m.extend_from_slice(&target);

    let parsed = parse(&m).expect("should decode");
    assert_eq!(parsed.answers.len(), 1);
    assert_eq!(parsed.answers[0].name, "1.0.168.192.in-addr.arpa");
    assert_eq!(parsed.first_ptr(), Some("router.lan"));
}

/// The bound that keeps a malformed packet from hanging the scan. A pointer
/// to itself is the smallest version of the attack.
#[test]
fn a_pointer_loop_is_refused_rather_than_followed() {
    let mut m = vec![0u8; 12];
    m[4..6].copy_from_slice(&1u16.to_be_bytes()); // one question
    // At offset 12: a pointer to offset 12.
    m.extend_from_slice(&[0xc0, 12]);
    assert_eq!(parse(&m), None);

    // And a two-step loop, which a decoder guarding only self-reference
    // would still follow for ever.
    let mut m = vec![0u8; 12];
    m[4..6].copy_from_slice(&1u16.to_be_bytes());
    m.extend_from_slice(&[0xc0, 14, 0xc0, 12]);
    assert_eq!(parse(&m), None);
}

#[test]
fn truncated_messages_are_refused_rather_than_guessed() {
    let full = query(1, "host.local", TYPE_A, false);
    for cut in 0..full.len() {
        // Any prefix must either parse or be refused; never panic.
        let _ = parse(&full[..cut]);
    }
    assert_eq!(parse(&[]), None);
    assert_eq!(parse(&[0; 11]), None);
}

/// A record whose length field claims more than the packet holds.
#[test]
fn a_lying_length_field_is_refused() {
    let mut m = Vec::new();
    m.extend_from_slice(&1u16.to_be_bytes());
    m.extend_from_slice(&0x8180u16.to_be_bytes());
    m.extend_from_slice(&[0, 0]); // no questions
    m.extend_from_slice(&1u16.to_be_bytes()); // one answer
    m.extend_from_slice(&[0, 0, 0, 0]);
    write_name(&mut m, "a.b");
    m.extend_from_slice(&TYPE_A.to_be_bytes());
    m.extend_from_slice(&CLASS_IN.to_be_bytes());
    m.extend_from_slice(&0u32.to_be_bytes());
    m.extend_from_slice(&9999u16.to_be_bytes()); // rdlength, a lie
    m.extend_from_slice(&[1, 2, 3, 4]);
    assert_eq!(parse(&m), None);
}

#[test]
fn reads_the_record_types_identification_needs() {
    let mut m = Vec::new();
    m.extend_from_slice(&0u16.to_be_bytes());
    m.extend_from_slice(&0x8400u16.to_be_bytes());
    m.extend_from_slice(&[0, 0]);
    m.extend_from_slice(&3u16.to_be_bytes()); // three answers
    m.extend_from_slice(&[0, 0, 0, 0]);

    let push = |name: &str, kind: u16, body: &[u8], m: &mut Vec<u8>| {
        write_name(m, name);
        m.extend_from_slice(&kind.to_be_bytes());
        m.extend_from_slice(&CLASS_IN.to_be_bytes());
        m.extend_from_slice(&120u32.to_be_bytes());
        m.extend_from_slice(&(body.len() as u16).to_be_bytes());
        m.extend_from_slice(body);
    };

    push("box.local", TYPE_A, &[192, 168, 0, 9], &mut m);

    let mut txt = Vec::new();
    for s in ["model=J9V80B", "usb_MDL=OfficeJet"] {
        txt.push(s.len() as u8);
        txt.extend_from_slice(s.as_bytes());
    }
    push("box._ipp._tcp.local", TYPE_TXT, &txt, &mut m);

    let mut srv = Vec::new();
    srv.extend_from_slice(&0u16.to_be_bytes()); // priority
    srv.extend_from_slice(&0u16.to_be_bytes()); // weight
    srv.extend_from_slice(&631u16.to_be_bytes());
    write_name(&mut srv, "box.local");
    push("box._ipp._tcp.local", TYPE_SRV, &srv, &mut m);

    let parsed = parse(&m).expect("should decode");
    assert_eq!(parsed.answers.len(), 3);
    assert_eq!(
        parsed.answers[0].data,
        RData::A("192.168.0.9".parse().unwrap())
    );
    assert_eq!(
        parsed.answers[1].data,
        RData::Txt(vec!["model=J9V80B".into(), "usb_MDL=OfficeJet".into()])
    );
    assert_eq!(
        parsed.answers[2].data,
        RData::Srv {
            port: 631,
            target: "box.local".into()
        }
    );
}

/// Fuzzing in the small: no input may panic. The parser is fed bytes from
/// whatever is on the network, so this is the property that matters most.
#[test]
fn no_input_panics() {
    let mut seed = 0x2545_f491_4f6c_dd1du64;
    let mut next = move || {
        seed ^= seed << 13;
        seed ^= seed >> 7;
        seed ^= seed << 17;
        seed
    };
    for _ in 0..4000 {
        let len = (next() % 300) as usize;
        let buf: Vec<u8> = (0..len).map(|_| (next() & 0xff) as u8).collect();
        let _ = parse(&buf);
    }
}

#[test]
fn a_query_carries_its_id_and_one_question() {
    let q = query(0xabcd, "printer.local", TYPE_PTR, false);
    assert_eq!(&q[0..2], &[0xab, 0xcd]);
    assert_eq!(be16(&q, 4), Some(1), "one question");
    let m = parse(&q).expect("our own query must parse");
    assert_eq!(m.questions, vec![("printer.local".to_string(), TYPE_PTR)]);
    assert!(m.answers.is_empty());
}
