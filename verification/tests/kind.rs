use muster_net::addr::{IpAddr, Ipv4Addr};
use muster_net::discover::{Evidence, Found};
use muster_net::identify::{Identity, Name, Source};
use muster_net::kind::{identify, kind_of, Clue, Kind};
use muster_net::mac::MacAddr;
use muster_net::vendor::{Table, MAGIC};

/// A compiled registry table holding only 24-bit assignments, in order.
fn table(assignments: &[(u32, &str)]) -> Table {
    let mut bytes = Vec::new();
    bytes.extend_from_slice(&MAGIC.to_le_bytes());
    bytes.extend_from_slice(&(assignments.len() as u32).to_le_bytes());
    bytes.extend_from_slice(&0u32.to_le_bytes());
    bytes.extend_from_slice(&0u32.to_le_bytes());
    bytes.extend_from_slice(&0u32.to_le_bytes());
    let mut blob = Vec::new();
    let mut offsets = Vec::new();
    for (prefix, name) in assignments {
        bytes.extend_from_slice(&prefix.to_le_bytes());
        offsets.push(blob.len() as u32);
        blob.extend_from_slice(&(name.len() as u16).to_le_bytes());
        blob.extend_from_slice(name.as_bytes());
    }
    for off in offsets {
        bytes.extend_from_slice(&off.to_le_bytes());
    }
    bytes.extend_from_slice(&blob);
    Table::new(bytes).expect("a well-formed table")
}

fn registry() -> Table {
    table(&[
        (0x00_0e58, "Sonos, Inc."),
        (0x00_1132, "Synology Incorporated"),
        (0x44_d9e7, "Ubiquiti Inc"),
    ])
}

fn host(ports: &[u16], mac: Option<[u8; 6]>) -> Found {
    Found {
        address: IpAddr::V4(Ipv4Addr::new(192, 0, 2, 5)),
        mac: mac.map(MacAddr::new),
        evidence: ports.iter().map(|p| Evidence::TcpOpen(*p)).collect(),
        rtt: None,
    }
}

fn advertising(services: &[&str]) -> Identity {
    Identity {
        names: Vec::new(),
        workgroup: None,
        mac: None,
        services: services.iter().map(|s| (*s).to_string()).collect(),
    }
}

#[test]
fn the_gateway_is_not_a_guess() {
    let guess =
        identify(&host(&[], None), &Identity::default(), true, &registry()).expect("a guess");
    assert_eq!(guess.kind, Kind::Router);
    assert_eq!(guess.clue, Clue::Gateway);
}

#[test]
fn a_device_that_says_what_it_is_is_believed_over_its_ports() {
    let guess = identify(
        &host(&[80, 5000], None),
        &advertising(&["_ipp._tcp.local"]),
        false,
        &registry(),
    )
    .expect("a guess");
    assert_eq!(guess.kind, Kind::Printer);
    assert_eq!(guess.clue, Clue::Service);
}

#[test]
fn a_port_beats_a_vendor() {
    let ubiquiti = [0x44, 0xd9, 0xe7, 0x00, 0x00, 0x01];
    let guess = identify(&host(&[554], Some(ubiquiti)), &Identity::default(), false, &registry())
        .expect("a guess");
    assert_eq!(guess.kind, Kind::Camera);
    assert_eq!(guess.clue, Clue::Port);
}

#[test]
fn a_vendor_that_makes_one_thing_is_enough_on_its_own() {
    let sonos = [0x00, 0x0e, 0x58, 0x00, 0x00, 0x01];
    let guess = identify(&host(&[], Some(sonos)), &Identity::default(), false, &registry())
        .expect("a guess");
    assert_eq!(guess.kind, Kind::Speaker);
    assert_eq!(guess.clue, Clue::Vendor);
}

#[test]
fn nothing_learned_is_reported_as_nothing_learned() {
    assert_eq!(
        identify(&host(&[], None), &Identity::default(), false, &registry()),
        None
    );
    assert_eq!(
        kind_of(&host(&[], None), &Identity::default(), false, &registry()),
        Kind::Unknown
    );
}

#[test]
fn a_randomised_address_yields_no_vendor_guess() {
    let randomised = [0x7a, 0x0e, 0x58, 0x00, 0x00, 0x01];
    assert_eq!(
        identify(&host(&[], Some(randomised)), &Identity::default(), false, &registry()),
        None,
        "a made-up address must not be read as its accidental OUI"
    );
}

#[test]
fn a_service_that_names_nothing_names_nothing() {
    assert_eq!(
        identify(
            &host(&[], None),
            &advertising(&["_device-info._tcp.local"]),
            false,
            &registry()
        ),
        None
    );
}

#[test]
fn a_workgroup_makes_it_a_computer() {
    let identity = Identity {
        workgroup: Some("WORKGROUP".to_string()),
        ..Identity::default()
    };
    let guess = identify(&host(&[], None), &identity, false, &registry()).expect("a guess");
    assert_eq!(guess.kind, Kind::Computer);
    assert_eq!(guess.clue, Clue::Workgroup);
}

#[test]
fn a_nas_that_speaks_smb_is_still_a_nas() {
    let synology = [0x00, 0x11, 0x32, 0x00, 0x00, 0x01];
    let identity = Identity {
        workgroup: Some("WORKGROUP".to_string()),
        ..Identity::default()
    };
    let guess =
        identify(&host(&[], Some(synology)), &identity, false, &registry()).expect("a guess");
    assert_eq!(guess.kind, Kind::Server);
    assert_eq!(guess.clue, Clue::Vendor);
}

#[test]
fn advertising_ssh_makes_it_a_computer() {
    let guess = identify(&host(&[], None), &advertising(&["_ssh._tcp.local"]), false, &registry())
        .expect("a guess");
    assert_eq!(guess.kind, Kind::Computer);
}

#[test]
fn a_hostname_is_never_a_clue() {
    let identity = Identity {
        names: vec![Name {
            value: "HP-Printer".to_string(),
            source: Source::Mdns,
        }],
        ..Identity::default()
    };
    assert_eq!(identify(&host(&[], None), &identity, false, &registry()), None);
}

#[test]
fn the_clue_order_is_the_priority_order() {
    assert!(Clue::Gateway < Clue::Service);
    assert!(Clue::Service < Clue::Port);
    assert!(Clue::Port < Clue::Vendor);
    assert!(Clue::Vendor < Clue::Workgroup);
}

#[test]
fn every_kind_has_a_label() {
    for kind in [
        Kind::Router,
        Kind::NetworkGear,
        Kind::Computer,
        Kind::Server,
        Kind::Printer,
        Kind::Phone,
        Kind::Television,
        Kind::Speaker,
        Kind::Camera,
        Kind::GameConsole,
        Kind::SmartHome,
        Kind::Unknown,
    ] {
        assert!(!kind.label().is_empty());
    }
}

#[test]
fn a_known_port_alone_names_the_device() {
    let guess = identify(&host(&[631], None), &Identity::default(), false, &registry())
        .expect("a guess");
    assert_eq!(guess.kind, Kind::Printer);
    assert_eq!(guess.clue, Clue::Port);
}

#[test]
fn the_kind_labels_read_as_words() {
    assert_eq!(Kind::Router.label(), "Router");
    assert_eq!(Kind::Television.label(), "TV");
    assert_eq!(Kind::Unknown.label(), "Unknown");
}
