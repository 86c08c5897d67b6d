use muster_net::mac::MacAddr;

#[test]
fn displays_lower_case_and_colon_separated() {
    let mac = MacAddr::new([0x00, 0x1a, 0x2b, 0x3c, 0x4d, 0x5e]);
    assert_eq!(mac.to_string(), "00:1a:2b:3c:4d:5e");
}

#[test]
fn parses_every_separator_the_platforms_use() {
    let want = MacAddr::new([0x00, 0x1a, 0x2b, 0x3c, 0x4d, 0x5e]);
    for text in [
        "00:1a:2b:3c:4d:5e",
        "00-1A-2B-3C-4D-5E",
        "001a2b3c4d5e",
        "001a.2b3c.4d5e",
    ] {
        assert_eq!(text.parse::<MacAddr>(), Ok(want), "parsing {text}");
    }
}

#[test]
fn rejects_the_wrong_number_of_digits() {
    for text in ["00:1a:2b:3c:4d", "00:1a:2b:3c:4d:5e:6f", "", "zz:zz"] {
        assert!(text.parse::<MacAddr>().is_err(), "accepting {text}");
    }
}

#[test]
fn randomised_addresses_are_told_from_registered_ones() {
    let apple: MacAddr = "3c:22:fb:11:22:33".parse().unwrap();
    assert!(!apple.is_randomised());
    assert_eq!(apple.oui(), 0x3c22fb);

    for text in [
        "02:11:22:33:44:55",
        "06:11:22:33:44:55",
        "3e:22:fb:11:22:33",
    ] {
        let mac: MacAddr = text.parse().unwrap();
        assert!(mac.is_randomised(), "{text} should read as randomised");
    }
}

#[test]
fn broadcast_and_multicast_are_not_randomised_devices() {
    assert!(MacAddr::broadcast().is_multicast());
    assert!(!MacAddr::broadcast().is_randomised());
    assert!(!MacAddr::zero().is_randomised());

    let mcast: MacAddr = "01:00:5e:00:00:fb".parse().unwrap();
    assert!(mcast.is_multicast());
    assert!(!mcast.is_randomised());
}

#[test]
fn text_round_trips_through_parse() {
    for octets in [[0u8; 6], [0xff; 6], [0x3c, 0x22, 0xfb, 0x01, 0x0a, 0xf0]] {
        let mac = MacAddr::new(octets);
        assert_eq!(MacAddr::parse(&mac.to_string()), Ok(mac));
    }
}

#[test]
fn zero_and_broadcast_are_what_they_say() {
    assert!(MacAddr::zero().is_zero());
    assert!(MacAddr::broadcast().is_broadcast());
    assert!(!MacAddr::zero().is_broadcast());
    assert_eq!(MacAddr::zero().octets(), [0; 6]);
    assert!(MacAddr::new([0x02, 0, 0, 0, 0, 1]).is_locally_administered());
}

#[test]
fn a_stray_character_is_refused() {
    assert!(MacAddr::parse("00:1a:2b:3c:4d:5g").is_err());
    assert_eq!(
        muster_net::mac::ParseMacError.to_string(),
        "not a hardware address"
    );
}
