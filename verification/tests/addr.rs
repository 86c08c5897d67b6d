use muster_net::addr::{IpAddr, Ipv4Addr, Ipv6Addr};

#[test]
fn dotted_quads_read_and_write() {
    let a = Ipv4Addr::parse("192.168.1.42").unwrap();
    assert_eq!(a.octets(), [192, 168, 1, 42]);
    assert_eq!(a.to_string(), "192.168.1.42");
    assert_eq!(a.to_bits(), 0xc0a8_012a);
    assert_eq!(Ipv4Addr::from_bits(0xc0a8_012a), a);
    for bad in ["", "1.2.3", "1.2.3.4.5", "256.0.0.1", "1.2.3.x", "01.2.3.4", " 1.2.3.4"] {
        assert!(Ipv4Addr::parse(bad).is_none(), "accepting {bad:?}");
    }
}

#[test]
fn ipv6_text_is_the_shortest_form() {
    for (text, canonical) in [
        ("::", "::"),
        ("::1", "::1"),
        ("fe80::1", "fe80::1"),
        ("2001:DB8:0:0:0:0:0:1", "2001:db8::1"),
        ("2001:db8:0:1:0:0:0:1", "2001:db8:0:1::1"),
        ("1:0:0:2:0:0:0:3", "1:0:0:2::3"),
        ("::ffff:192.168.1.1", "::ffff:192.168.1.1"),
        ("1:2:3:4:5:6:7:8", "1:2:3:4:5:6:7:8"),
        ("1:0:3:4:5:6:7:8", "1:0:3:4:5:6:7:8"),
    ] {
        let a = Ipv6Addr::parse(text).unwrap_or_else(|| panic!("refusing {text}"));
        assert_eq!(a.to_string(), canonical, "{text}");
    }
    for bad in ["", ":", "1::2::3", "12345::", "1:2:3:4:5:6:7:8:9", "g::", "::1%eth0"] {
        assert!(Ipv6Addr::parse(bad).is_none(), "accepting {bad:?}");
    }
}

#[test]
fn the_family_decides_the_form() {
    let a = IpAddr::parse("10.0.0.1").unwrap();
    let b = IpAddr::parse("fe80::1").unwrap();
    assert!(a.is_ipv4() && !a.is_ipv6());
    assert!(b.is_ipv6() && !b.is_ipv4());
    assert_eq!(a.to_string(), "10.0.0.1");
    assert_eq!(b.to_string(), "fe80::1");
    assert!(IpAddr::parse("::").unwrap().is_unspecified());
    assert!(IpAddr::parse("0.0.0.0").unwrap().is_unspecified());
    assert!(!a.is_unspecified());
}

#[test]
fn addresses_sort_v4_before_v6_and_by_value() {
    let a = IpAddr::parse("10.0.0.2").unwrap();
    let b = IpAddr::parse("10.0.0.10").unwrap();
    let c = IpAddr::parse("::1").unwrap();
    assert!(a.sorts_before(&b));
    assert!(!b.sorts_before(&a));
    assert!(b.sorts_before(&c));
    assert!(a.same(&IpAddr::V4(Ipv4Addr::new(10, 0, 0, 2))));
    assert_eq!(b.to_u128(), 0x0a00_000a);
}

#[test]
fn ipv6_bits_round_trip() {
    let a = Ipv6Addr::parse("2001:db8::ff").unwrap();
    assert_eq!(Ipv6Addr::from_bits(a.to_bits()), a);
    assert_eq!(a.to_bits() & 0xffff, 0xff);
    assert!(Ipv6Addr::from_bits(0).is_unspecified());
}

#[test]
fn ipv6_text_round_trips_for_many_addresses() {
    let mut seed = 0x2545_f491_4f6c_dd1du64;
    for _ in 0..2000 {
        seed ^= seed << 13;
        seed ^= seed >> 7;
        seed ^= seed << 17;
        let hi = seed & if seed & 8 == 0 { 0xffff_0000_0000_ffff } else { u64::MAX };
        let lo = seed.rotate_left(17) & if seed & 1 == 0 { 0xffff_0000_ffff } else { u64::MAX };
        let bits = (hi as u128) << 64 | lo as u128;
        let text = Ipv6Addr::from_bits(bits).to_string();
        assert!(!text.contains(":::"), "{text}");
        assert_eq!(Ipv6Addr::parse(&text).map(|a| a.to_bits()), Some(bits), "{text}");
    }
}

#[test]
fn every_dotted_quad_reads_back() {
    for a in [0u8, 1, 9, 10, 99, 100, 199, 200, 255] {
        for b in [0u8, 7, 42, 255] {
            let addr = Ipv4Addr::new(a, b, 255 - b, a);
            assert_eq!(Ipv4Addr::parse(&addr.to_string()), Some(addr));
        }
    }
}
