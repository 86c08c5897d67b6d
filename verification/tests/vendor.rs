use muster_net::mac::MacAddr;
use muster_net::vendor::{lookup, Origin, Registry, Table, MAGIC};

/// Compiles a registry table: the 24-bit, 28-bit and 36-bit assignments, each
/// list in increasing order of prefix.
fn compile(mal: &[(u32, &str)], mam: &[(u32, &str)], mas: &[(u64, &str)]) -> Vec<u8> {
    let mut bytes = Vec::new();
    bytes.extend_from_slice(&MAGIC.to_le_bytes());
    for n in [mal.len(), mam.len(), mas.len()] {
        bytes.extend_from_slice(&(n as u32).to_le_bytes());
    }
    bytes.extend_from_slice(&0u32.to_le_bytes());
    let mut blob = Vec::new();
    let mut name = |blob: &mut Vec<u8>, text: &str| -> u32 {
        let at = blob.len() as u32;
        blob.extend_from_slice(&(text.len() as u16).to_le_bytes());
        blob.extend_from_slice(text.as_bytes());
        at
    };
    for section in [mal, mam] {
        let mut offsets = Vec::new();
        for (prefix, text) in section {
            bytes.extend_from_slice(&prefix.to_le_bytes());
            offsets.push(name(&mut blob, text));
        }
        for off in offsets {
            bytes.extend_from_slice(&off.to_le_bytes());
        }
    }
    let mut offsets = Vec::new();
    for (prefix, text) in mas {
        bytes.extend_from_slice(&prefix.to_le_bytes());
        offsets.push(name(&mut blob, text));
    }
    for off in offsets {
        bytes.extend_from_slice(&off.to_le_bytes());
    }
    bytes.extend_from_slice(&blob);
    bytes
}

const MAL: [(u32, &str); 4] = [
    (0x00_0000, "XEROX CORPORATION"),
    (0x3c_22fb, "Apple, Inc."),
    (0x70_b3d5, "IEEE Registration Authority"),
    (0xfc_ecda, "Ubiquiti Inc"),
];
const MAM: [(u32, &str); 1] = [(0x70b_3d51, "Small Radio Works")];
const MAS: [(u64, &str); 2] = [
    (0x70b_3d5_00a, "Tiny Sensors Ltd"),
    (0x70b_3d5_f01, "Tinier Sensors GmbH"),
];

fn table() -> Table {
    Table::new(compile(&MAL, &MAM, &MAS)).expect("a well-formed table")
}

fn mac(s: &str) -> MacAddr {
    s.parse().unwrap()
}

/// The address whose leading `bits` bits are `prefix` and whose rest is zero.
fn address_in(prefix: u64, bits: u32) -> MacAddr {
    let full = prefix << (48 - bits);
    MacAddr::new([
        (full >> 40) as u8,
        (full >> 32) as u8,
        (full >> 24) as u8,
        (full >> 16) as u8,
        (full >> 8) as u8,
        full as u8,
    ])
}

#[test]
fn a_randomised_address_is_never_an_unknown_vendor() {
    let t = table();
    for text in [
        "36:d6:0f:80:3e:8a",
        "02:11:22:33:44:55",
        "46:67:e7:4a:6d:a4",
    ] {
        assert_eq!(lookup(&t, mac(text)), Origin::Randomised, "{text}");
        assert_eq!(lookup(&t, mac(text)).name(), None);
        assert_eq!(lookup(&t, mac(text)).label(), "randomised address");
    }
}

#[test]
fn a_registered_address_finds_its_organisation() {
    let found = lookup(&table(), mac("3c:22:fb:11:22:33"));
    let Origin::Registered { name, registry } = found else {
        panic!("expected a registration, got {found:?}");
    };
    assert!(name.contains("Apple"), "got {name}");
    assert_eq!(registry, Registry::MaL);
}

#[test]
fn the_most_specific_registry_wins() {
    let t = table();
    let mut checked = 0;
    for (prefix, _) in MAS {
        let m = address_in(prefix, 36);
        if m.is_randomised() || m.is_multicast() {
            continue;
        }
        let Origin::Registered { registry, .. } = lookup(&t, m) else {
            panic!("an address from the MA-S table must be registered: {}", m.to_string());
        };
        assert_eq!(registry, Registry::MaS, "{} resolved to the wrong registry", m.to_string());
        checked += 1;
    }
    assert!(checked > 0, "no usable MA-S rows to check");

    let Origin::Registered { name, registry } = lookup(&t, mac("70:b3:d5:1f:00:01")) else {
        panic!("the MA-M block is registered");
    };
    assert_eq!(registry, Registry::MaM);
    assert_eq!(name, "Small Radio Works");

    let Origin::Registered { registry, .. } = lookup(&t, mac("70:b3:d5:90:00:01")) else {
        panic!("the MA-L block is registered");
    };
    assert_eq!(registry, Registry::MaL);
}

#[test]
fn every_assignment_can_be_found() {
    let t = table();
    for (prefix, text) in MAL {
        if prefix == 0 {
            // Its first address is the all-zero one, which has no vendor.
            continue;
        }
        match lookup(&t, address_in(prefix as u64, 24)) {
            Origin::Registered { name, registry } => {
                assert_eq!(name, text);
                assert_eq!(registry, Registry::MaL);
            }
            other => panic!("{prefix:x} not found: {other:?}"),
        }
    }
    for (prefix, text) in MAM {
        assert_eq!(
            lookup(&t, address_in(prefix as u64, 28)),
            Origin::Registered { name: text.to_string(), registry: Registry::MaM }
        );
    }
    for (prefix, text) in MAS {
        assert_eq!(
            lookup(&t, address_in(prefix, 36)),
            Origin::Registered { name: text.to_string(), registry: Registry::MaS }
        );
    }
}

#[test]
fn an_unassigned_address_is_unknown_rather_than_wrong() {
    let t = table();
    assert_eq!(lookup(&t, mac("00:08:33:11:22:33")).label(), "not in the registry");
    assert_eq!(lookup(&t, mac("00:08:33:11:22:33")), Origin::Unknown);
    assert!(lookup(&t, mac("00:00:00:11:22:33"))
        .name()
        .is_some_and(|n| n.contains("XEROX")));
}

#[test]
fn multicast_and_zero_are_not_given_a_vendor() {
    let t = table();
    assert_eq!(lookup(&t, MacAddr::zero()), Origin::Unknown);
    assert_eq!(lookup(&t, mac("01:00:5e:00:00:fb")), Origin::Unknown);
    assert_eq!(lookup(&t, MacAddr::broadcast()), Origin::Unknown);
}

#[test]
fn an_empty_table_knows_nobody() {
    let t = Table::new(compile(&[], &[], &[])).expect("an empty table is still a table");
    assert_eq!(lookup(&t, mac("3c:22:fb:11:22:33")), Origin::Unknown);
}

#[test]
fn bytes_that_are_not_a_table_are_refused() {
    assert!(Table::new(Vec::new()).is_none());
    let mut wrong_magic = compile(&MAL, &MAM, &MAS);
    wrong_magic[0] ^= 1;
    assert!(Table::new(wrong_magic).is_none());
    let mut cut = compile(&MAL, &MAM, &MAS);
    cut.truncate(cut.len() - 3);
    assert!(Table::new(cut).is_none(), "a name runs past the end");
    let unsorted = compile(&[(0x3c_22fb, "B"), (0x00_0000, "A")], &[], &[]);
    assert!(Table::new(unsorted).is_none(), "prefixes out of order");
}

#[test]
fn the_registry_says_how_many_bits_it_assigns() {
    assert_eq!(Registry::MaL.bits(), 24);
    assert_eq!(Registry::MaM.bits(), 28);
    assert_eq!(Registry::MaS.bits(), 36);
}
