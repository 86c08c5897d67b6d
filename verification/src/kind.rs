//! What kind of thing a device is.
//!
//! ## Every guess carries its reason
//!
//! [`Kind`] never travels alone: [`Guess`] pairs it with the [`Clue`] that
//! produced it, so "probably an iPhone" with nothing behind it is not
//! representable.
//!
//! ## The clues are ranked, and the ranking is the design
//!
//! [`Clue`] is ordered from strongest to weakest, and [`identify`] takes the
//! best clue that fires rather than the first one it happens to check: the
//! gateway is not an opinion; a service the device advertises is the device
//! describing itself; an open port is strong but not conclusive; a vendor is
//! the weakest, and only vendors that make one kind of thing are listed. A
//! NetBIOS workgroup ranks last: it says only "speaks SMB". A hostname is
//! never a clue.

use vstd::prelude::*;
use crate::discover::{open_ports_of, Found};
use crate::identify::{strings_view, Identity};
use crate::text::{chars_of, lower, lowered, starts_with};
use crate::vendor::{lookup, spec_lookup, Origin, OriginView, Table};

verus! {

/// What a device appears to be. Deliberately coarse.
#[derive(Clone, Copy, Debug, Default, PartialEq, Eq, Structural, PartialOrd, Ord, Hash)]
pub enum Kind {
    /// The way off this network.
    Router,
    /// An access point or switch that is not the gateway.
    NetworkGear,
    /// A general purpose machine: desktop, laptop, workstation.
    Computer,
    /// Something that exists to serve: a NAS, a home server, a hypervisor.
    Server,
    Printer,
    Phone,
    /// A television, a set-top box, or a streaming stick.
    Television,
    Speaker,
    Camera,
    GameConsole,
    /// A light, a plug, a thermostat, a sensor.
    SmartHome,
    /// Nothing said anything. **Not a failure.**
    #[default]
    Unknown,
}

impl Kind {
    /// A short label for the interface.
    pub fn label(self) -> (s: &'static str)
        ensures
            s@ == kind_label(self),
            s@.len() > 0,
    {
        proof {
            reveal_strlit("Router");
            reveal_strlit("Network");
            reveal_strlit("Computer");
            reveal_strlit("Server");
            reveal_strlit("Printer");
            reveal_strlit("Phone");
            reveal_strlit("TV");
            reveal_strlit("Speaker");
            reveal_strlit("Camera");
            reveal_strlit("Console");
            reveal_strlit("Smart home");
            reveal_strlit("Unknown");
        }
        match self {
            Kind::Router => "Router",
            Kind::NetworkGear => "Network",
            Kind::Computer => "Computer",
            Kind::Server => "Server",
            Kind::Printer => "Printer",
            Kind::Phone => "Phone",
            Kind::Television => "TV",
            Kind::Speaker => "Speaker",
            Kind::Camera => "Camera",
            Kind::GameConsole => "Console",
            Kind::SmartHome => "Smart home",
            Kind::Unknown => "Unknown",
        }
    }
}

pub open spec fn kind_label(k: Kind) -> Seq<char> {
    match k {
        Kind::Router => "Router"@,
        Kind::NetworkGear => "Network"@,
        Kind::Computer => "Computer"@,
        Kind::Server => "Server"@,
        Kind::Printer => "Printer"@,
        Kind::Phone => "Phone"@,
        Kind::Television => "TV"@,
        Kind::Speaker => "Speaker"@,
        Kind::Camera => "Camera"@,
        Kind::GameConsole => "Console"@,
        Kind::SmartHome => "Smart home"@,
        Kind::Unknown => "Unknown"@,
    }
}

/// Why a device was taken for what it was taken for. Ordered strongest
/// first: the order is the priority.
#[derive(Clone, Copy, Debug, PartialEq, Eq, Structural, PartialOrd, Ord, Hash)]
pub enum Clue {
    /// It is the default gateway. Not an inference.
    Gateway,
    /// It advertised a service that says what it is.
    Service,
    /// A port that only one kind of thing listens on.
    Port,
    /// Its hardware vendor makes one kind of thing.
    Vendor,
    /// It answered NetBIOS with a workgroup: only "speaks SMB", so last.
    Workgroup,
}

/// The strength of a clue: lower is stronger.
pub open spec fn rank(c: Clue) -> int {
    match c {
        Clue::Gateway => 0,
        Clue::Service => 1,
        Clue::Port => 2,
        Clue::Vendor => 3,
        Clue::Workgroup => 4,
    }
}

impl Clue {
    pub fn rank_of(self) -> (r: u8)
        ensures
            r == rank(self),
    {
        match self {
            Clue::Gateway => 0,
            Clue::Service => 1,
            Clue::Port => 2,
            Clue::Vendor => 3,
            Clue::Workgroup => 4,
        }
    }

    /// How the interface explains the guess.
    pub fn reason(self) -> (s: &'static str)
        ensures
            s@ == (match self {
                Clue::Gateway => "it is this network's gateway"@,
                Clue::Service => "it advertises a service only this kind offers"@,
                Clue::Port => "a port only this kind listens on is open"@,
                Clue::Vendor => "its hardware vendor makes only this kind"@,
                Clue::Workgroup => "it answers NetBIOS with a workgroup, as Windows machines do"@,
            }),
    {
        match self {
            Clue::Gateway => "it is this network's gateway",
            Clue::Service => "it advertises a service only this kind offers",
            Clue::Port => "a port only this kind listens on is open",
            Clue::Vendor => "its hardware vendor makes only this kind",
            Clue::Workgroup => "it answers NetBIOS with a workgroup, as Windows machines do",
        }
    }
}

/// A kind and the reason for it.
#[derive(Clone, Copy, Debug, PartialEq, Eq, Structural)]
pub struct Guess {
    pub kind: Kind,
    pub clue: Clue,
}

/// Services that name a kind outright, matched as a prefix of the
/// advertised type. `_device-info` names nothing and is listed as such.
pub open spec fn services() -> Seq<(&'static str, Kind)> {
    seq![
        ("_ipp.", Kind::Printer),
        ("_ipps.", Kind::Printer),
        ("_printer.", Kind::Printer),
        ("_pdl-datastream.", Kind::Printer),
        ("_scanner.", Kind::Printer),
        ("_uscan.", Kind::Printer),
        ("_googlecast.", Kind::Television),
        ("_androidtvremote.", Kind::Television),
        ("_airplay.", Kind::Television),
        ("_roku.", Kind::Television),
        ("_raop.", Kind::Speaker),
        ("_spotify-connect.", Kind::Speaker),
        ("_sonos.", Kind::Speaker),
        ("_hap.", Kind::SmartHome),
        ("_homekit.", Kind::SmartHome),
        ("_hue.", Kind::SmartHome),
        ("_matter.", Kind::SmartHome),
        ("_home-assistant.", Kind::Server),
        ("_plexmediasvr.", Kind::Server),
        ("_smb.", Kind::Server),
        ("_afpovertcp.", Kind::Server),
        ("_nfs.", Kind::Server),
        ("_rfb.", Kind::Computer),
        ("_ssh.", Kind::Computer),
        ("_sftp-ssh.", Kind::Computer),
        ("_workstation.", Kind::Computer),
        ("_companion-link.", Kind::Computer),
        ("_apple-mobdev2.", Kind::Phone),
        ("_amzn-wplay.", Kind::Television),
        ("_device-info.", Kind::Unknown),
    ]
}

/// Ports that only one kind of thing listens on.
pub open spec fn ports() -> Seq<(u16, Kind)> {
    seq![
        (631u16, Kind::Printer),
        (515u16, Kind::Printer),
        (9100u16, Kind::Printer),
        (8009u16, Kind::Television),
        (32400u16, Kind::Server),
        (5000u16, Kind::Server),
        (548u16, Kind::Server),
        (2049u16, Kind::Server),
        (554u16, Kind::Camera),
        (37777u16, Kind::Camera),
        (1935u16, Kind::Camera),
        (8123u16, Kind::Server),
        (3389u16, Kind::Computer),
        (5900u16, Kind::Computer),
    ]
}

/// Vendors that make one kind of thing, and only one, matched as a
/// substring of the registry's organisation name in lower case.
pub open spec fn vendors() -> Seq<(&'static str, Kind)> {
    seq![
        ("sonos", Kind::Speaker),
        ("bose", Kind::Speaker),
        ("sonance", Kind::Speaker),
        ("brother", Kind::Printer),
        ("lexmark", Kind::Printer),
        ("zebra tech", Kind::Printer),
        ("kyocera", Kind::Printer),
        ("axis communications", Kind::Camera),
        ("hikvision", Kind::Camera),
        ("dahua", Kind::Camera),
        ("reolink", Kind::Camera),
        ("ubiquiti", Kind::NetworkGear),
        ("mikrotik", Kind::NetworkGear),
        ("aruba", Kind::NetworkGear),
        ("cisco systems", Kind::NetworkGear),
        ("netgear", Kind::NetworkGear),
        ("tp-link", Kind::NetworkGear),
        ("synology", Kind::Server),
        ("qnap", Kind::Server),
        ("nintendo", Kind::GameConsole),
        ("sony interactive", Kind::GameConsole),
        ("signify", Kind::SmartHome),
        ("philips lighting", Kind::SmartHome),
        ("tuya", Kind::SmartHome),
        ("shelly", Kind::SmartHome),
        ("espressif", Kind::SmartHome),
        ("nest labs", Kind::SmartHome),
        ("ecobee", Kind::SmartHome),
        ("raspberry pi", Kind::Computer),
    ]
}

/// Does `needle` occur in `hay`?
pub open spec fn contains_text(hay: Seq<char>, needle: Seq<char>) -> bool {
    exists|i: int| 0 <= i <= hay.len() - needle.len() && #[trigger] hay.subrange(i, i + needle.len()) == needle
}

pub open spec fn service_at(service: Seq<char>) -> spec_fn(int) -> bool {
    |i: int| starts_with(lower(service), services()[i].0@)
}

pub open spec fn port_at(port: u16) -> spec_fn(int) -> bool {
    |i: int| ports()[i].0 == port
}

pub open spec fn vendor_at(name: Seq<char>) -> spec_fn(int) -> bool {
    |i: int| contains_text(lower(name), vendors()[i].0@)
}

/// The kind of the first service entry that `service` begins with.
pub open spec fn service_kind(service: Seq<char>) -> Option<Kind> {
    match crate::search::first_index(services().len() as int, service_at(service)) {
        Some(i) => Some(services()[i].1),
        None => None,
    }
}

/// The kind of the first port entry for `port`.
pub open spec fn port_kind(port: u16) -> Option<Kind> {
    match crate::search::first_index(ports().len() as int, port_at(port)) {
        Some(i) => Some(ports()[i].1),
        None => None,
    }
}

/// The kind of the first vendor entry found in `name`.
pub open spec fn vendor_kind(name: Seq<char>) -> Option<Kind> {
    match crate::search::first_index(vendors().len() as int, vendor_at(name)) {
        Some(i) => Some(vendors()[i].1),
        None => None,
    }
}

/// Every clue that fires, in the order they are considered: the gateway,
/// the workgroup, each service, each open port, the vendor.
pub open spec fn clues(
    open: Seq<u16>,
    workgroup: bool,
    services: Seq<Seq<char>>,
    vendor: Option<Seq<char>>,
    is_gateway: bool,
) -> Seq<Guess> {
    let g = if is_gateway {
        seq![Guess { kind: Kind::Router, clue: Clue::Gateway }]
    } else {
        Seq::empty()
    };
    let w = if workgroup {
        g.push(Guess { kind: Kind::Computer, clue: Clue::Workgroup })
    } else {
        g
    };
    let s = w + service_clues(services);
    let p = s + port_clues(open);
    match vendor {
        Some(name) => match vendor_kind(name) {
            Some(k) => p.push(Guess { kind: k, clue: Clue::Vendor }),
            None => p,
        },
        None => p,
    }
}

pub open spec fn service_clues(services: Seq<Seq<char>>) -> Seq<Guess>
    decreases services.len(),
{
    if services.len() == 0 {
        Seq::empty()
    } else {
        match service_kind(services.last()) {
            Some(k) => service_clues(services.drop_last()).push(Guess { kind: k, clue: Clue::Service }),
            None => service_clues(services.drop_last()),
        }
    }
}

pub open spec fn port_clues(open: Seq<u16>) -> Seq<Guess>
    decreases open.len(),
{
    if open.len() == 0 {
        Seq::empty()
    } else {
        match port_kind(open.last()) {
            Some(k) => port_clues(open.drop_last()).push(Guess { kind: k, clue: Clue::Port }),
            None => port_clues(open.drop_last()),
        }
    }
}

/// The strongest clue that names a kind, the first of equals.
pub open spec fn best(cs: Seq<Guess>) -> Option<Guess>
    decreases cs.len(),
{
    if cs.len() == 0 {
        None
    } else {
        let b = best(cs.drop_last());
        let g = cs.last();
        if g.kind == Kind::Unknown {
            b
        } else {
            match b {
                None => Some(g),
                Some(x) => if rank(g.clue) < rank(x.clue) {
                    Some(g)
                } else {
                    Some(x)
                },
            }
        }
    }
}

/// The name of the registered vendor of a hardware address, if any.
pub open spec fn vendor_name(t: Seq<u8>, mac: Option<crate::mac::MacAddr>) -> Option<Seq<char>> {
    match mac {
        Some(m) => match spec_lookup(t, m) {
            OriginView::Registered { name, .. } => Some(name),
            _ => None,
        },
        None => None,
    }
}

/// What a device appears to be, and why.
pub open spec fn spec_identify(
    found: Found,
    identity: Identity,
    is_gateway: bool,
    t: Seq<u8>,
) -> Option<Guess> {
    best(
        clues(
            open_ports_of(found.evidence@),
            identity.workgroup is Some,
            strings_view(identity.services@),
            vendor_name(t, found.mac),
            is_gateway,
        ),
    )
}

fn service_table() -> (v: Vec<(&'static str, Kind)>)
    ensures
        v@ == services(),
{
    let v = vec![
        ("_ipp.", Kind::Printer),
        ("_ipps.", Kind::Printer),
        ("_printer.", Kind::Printer),
        ("_pdl-datastream.", Kind::Printer),
        ("_scanner.", Kind::Printer),
        ("_uscan.", Kind::Printer),
        ("_googlecast.", Kind::Television),
        ("_androidtvremote.", Kind::Television),
        ("_airplay.", Kind::Television),
        ("_roku.", Kind::Television),
        ("_raop.", Kind::Speaker),
        ("_spotify-connect.", Kind::Speaker),
        ("_sonos.", Kind::Speaker),
        ("_hap.", Kind::SmartHome),
        ("_homekit.", Kind::SmartHome),
        ("_hue.", Kind::SmartHome),
        ("_matter.", Kind::SmartHome),
        ("_home-assistant.", Kind::Server),
        ("_plexmediasvr.", Kind::Server),
        ("_smb.", Kind::Server),
        ("_afpovertcp.", Kind::Server),
        ("_nfs.", Kind::Server),
        ("_rfb.", Kind::Computer),
        ("_ssh.", Kind::Computer),
        ("_sftp-ssh.", Kind::Computer),
        ("_workstation.", Kind::Computer),
        ("_companion-link.", Kind::Computer),
        ("_apple-mobdev2.", Kind::Phone),
        ("_amzn-wplay.", Kind::Television),
        ("_device-info.", Kind::Unknown),
    ];
    assert(v@ =~= services());
    v
}

fn port_table() -> (v: Vec<(u16, Kind)>)
    ensures
        v@ == ports(),
{
    let v = vec![
        (631u16, Kind::Printer),
        (515u16, Kind::Printer),
        (9100u16, Kind::Printer),
        (8009u16, Kind::Television),
        (32400u16, Kind::Server),
        (5000u16, Kind::Server),
        (548u16, Kind::Server),
        (2049u16, Kind::Server),
        (554u16, Kind::Camera),
        (37777u16, Kind::Camera),
        (1935u16, Kind::Camera),
        (8123u16, Kind::Server),
        (3389u16, Kind::Computer),
        (5900u16, Kind::Computer),
    ];
    assert(v@ =~= ports());
    v
}

fn vendor_table() -> (v: Vec<(&'static str, Kind)>)
    ensures
        v@ == vendors(),
{
    let v = vec![
        ("sonos", Kind::Speaker),
        ("bose", Kind::Speaker),
        ("sonance", Kind::Speaker),
        ("brother", Kind::Printer),
        ("lexmark", Kind::Printer),
        ("zebra tech", Kind::Printer),
        ("kyocera", Kind::Printer),
        ("axis communications", Kind::Camera),
        ("hikvision", Kind::Camera),
        ("dahua", Kind::Camera),
        ("reolink", Kind::Camera),
        ("ubiquiti", Kind::NetworkGear),
        ("mikrotik", Kind::NetworkGear),
        ("aruba", Kind::NetworkGear),
        ("cisco systems", Kind::NetworkGear),
        ("netgear", Kind::NetworkGear),
        ("tp-link", Kind::NetworkGear),
        ("synology", Kind::Server),
        ("qnap", Kind::Server),
        ("nintendo", Kind::GameConsole),
        ("sony interactive", Kind::GameConsole),
        ("signify", Kind::SmartHome),
        ("philips lighting", Kind::SmartHome),
        ("tuya", Kind::SmartHome),
        ("shelly", Kind::SmartHome),
        ("espressif", Kind::SmartHome),
        ("nest labs", Kind::SmartHome),
        ("ecobee", Kind::SmartHome),
        ("raspberry pi", Kind::Computer),
    ];
    assert(v@ =~= vendors());
    v
}

/// Does `needle` occur in `hay`?
fn find_text(hay: &[char], needle: &[char]) -> (b: bool)
    ensures
        b == contains_text(hay@, needle@),
{
    let n = hay.len();
    let m = needle.len();
    if m > n {
        return false;
    }
    if m == 0 {
        assert(hay@.subrange(0int, 0int + needle@.len()) =~= needle@);
        return true;
    }
    let mut i: usize = 0;
    while i <= n - m
        invariant
            1 <= m <= n,
            n == hay@.len(),
            m == needle@.len(),
            i <= n - m + 1,
            forall|j: int| 0 <= j < i ==> #[trigger] hay@.subrange(j, j + m) != needle@,
        decreases n - m + 1 - i,
    {
        let window = vstd::slice::slice_subrange(hay, i, i + m);
        if crate::text::same_chars(window, needle) {
            assert(hay@.subrange(i as int, i + m) == needle@);
            return true;
        }
        i += 1;
    }
    false
}

fn service_kind_of(service: &str) -> (r: Option<Kind>)
    ensures
        r == service_kind(service@),
{
    let low = lowered(chars_of(service).as_slice());
    let table = service_table();
    let ghost p = service_at(service@);
    let mut i: usize = 0;
    while i < table.len()
        invariant
            i <= table@.len(),
            table@ == services(),
            low@ == lower(service@),
            p == service_at(service@),
            forall|j: int| 0 <= j < i ==> !#[trigger] p(j),
        decreases table@.len() - i,
    {
        let entry = chars_of(table[i].0);
        if crate::text::has_prefix(low.as_slice(), entry.as_slice()) {
            proof {
                crate::search::lemma_first_index_at(services().len() as int, p, i as int);
            }
            return Some(table[i].1);
        }
        i += 1;
    }
    proof {
        crate::search::lemma_first_index_none(services().len() as int, p);
    }
    None
}

fn port_kind_of(port: u16) -> (r: Option<Kind>)
    ensures
        r == port_kind(port),
{
    let table = port_table();
    let ghost p = port_at(port);
    let mut i: usize = 0;
    while i < table.len()
        invariant
            i <= table@.len(),
            table@ == ports(),
            p == port_at(port),
            forall|j: int| 0 <= j < i ==> !#[trigger] p(j),
        decreases table@.len() - i,
    {
        if table[i].0 == port {
            proof {
                crate::search::lemma_first_index_at(ports().len() as int, p, i as int);
            }
            return Some(table[i].1);
        }
        i += 1;
    }
    proof {
        crate::search::lemma_first_index_none(ports().len() as int, p);
    }
    None
}

fn vendor_kind_of(name: &str) -> (r: Option<Kind>)
    ensures
        r == vendor_kind(name@),
{
    let low = lowered(chars_of(name).as_slice());
    let table = vendor_table();
    let ghost p = vendor_at(name@);
    let mut i: usize = 0;
    while i < table.len()
        invariant
            i <= table@.len(),
            table@ == vendors(),
            low@ == lower(name@),
            p == vendor_at(name@),
            forall|j: int| 0 <= j < i ==> !#[trigger] p(j),
        decreases table@.len() - i,
    {
        let needle = chars_of(table[i].0);
        if find_text(low.as_slice(), needle.as_slice()) {
            proof {
                crate::search::lemma_first_index_at(vendors().len() as int, p, i as int);
            }
            return Some(table[i].1);
        }
        i += 1;
    }
    proof {
        crate::search::lemma_first_index_none(vendors().len() as int, p);
    }
    None
}

/// Considers one clue: kept if it names a kind and is stronger than the
/// best so far.
fn consider(best_so_far: Option<Guess>, g: Guess) -> (r: Option<Guess>)
    ensures
        r == (if g.kind == Kind::Unknown {
            best_so_far
        } else {
            match best_so_far {
                None => Some(g),
                Some(x) => if rank(g.clue) < rank(x.clue) {
                    Some(g)
                } else {
                    Some(x)
                },
            }
        }),
{
    if g.kind == Kind::Unknown {
        return best_so_far;
    }
    match best_so_far {
        None => Some(g),
        Some(x) => if g.clue.rank_of() < x.clue.rank_of() {
            Some(g)
        } else {
            Some(x)
        },
    }
}

proof fn lemma_best_push(cs: Seq<Guess>, g: Guess)
    ensures
        best(cs.push(g)) == (if g.kind == Kind::Unknown {
            best(cs)
        } else {
            match best(cs) {
                None => Some(g),
                Some(x) => if rank(g.clue) < rank(x.clue) {
                    Some(g)
                } else {
                    Some(x)
                },
            }
        }),
{
    assert(cs.push(g).drop_last() =~= cs);
}

/// What this device appears to be, and why. `is_gateway` is the caller's,
/// because only the survey knows the routing table; the vendor comes from
/// `table`.
pub fn identify(found: &Found, identity: &Identity, is_gateway: bool, table: &Table) -> (r: Option<Guess>)
    ensures
        r == spec_identify(*found, *identity, is_gateway, table.bytes()),
{
    let ghost open = open_ports_of(found.evidence@);
    let ghost svcs = strings_view(identity.services@);
    let ghost vname = vendor_name(table.bytes(), found.mac);
    let ghost cs0 = if is_gateway {
        seq![Guess { kind: Kind::Router, clue: Clue::Gateway }]
    } else {
        Seq::<Guess>::empty()
    };
    let mut b: Option<Guess> = None;
    if is_gateway {
        b = consider(b, Guess { kind: Kind::Router, clue: Clue::Gateway });
        proof {
            lemma_best_push(Seq::empty(), Guess { kind: Kind::Router, clue: Clue::Gateway });
            assert(Seq::<Guess>::empty().push(Guess { kind: Kind::Router, clue: Clue::Gateway }) =~= cs0);
        }
    }
    assert(b == best(cs0));
    let ghost cs1 = if identity.workgroup is Some {
        cs0.push(Guess { kind: Kind::Computer, clue: Clue::Workgroup })
    } else {
        cs0
    };
    if identity.workgroup.is_some() {
        b = consider(b, Guess { kind: Kind::Computer, clue: Clue::Workgroup });
        proof {
            lemma_best_push(cs0, Guess { kind: Kind::Computer, clue: Clue::Workgroup });
        }
    }
    assert(b == best(cs1));
    let mut i: usize = 0;
    while i < identity.services.len()
        invariant
            i <= identity.services@.len(),
            svcs == strings_view(identity.services@),
            b == best(cs1 + service_clues(svcs.take(i as int))),
        decreases identity.services@.len() - i,
    {
        proof {
            assert(svcs.take(i + 1).drop_last() =~= svcs.take(i as int));
            assert(svcs.take(i + 1).last() == identity.services@[i as int]@);
        }
        let k = service_kind_of(identity.services[i].as_str());
        if let Some(kind) = k {
            let g = Guess { kind, clue: Clue::Service };
            b = consider(b, g);
            proof {
                lemma_best_push(cs1 + service_clues(svcs.take(i as int)), g);
                assert(cs1 + service_clues(svcs.take(i + 1)) =~= (cs1 + service_clues(svcs.take(i as int))).push(g));
            }
        } else {
            proof {
                assert(cs1 + service_clues(svcs.take(i + 1)) =~= cs1 + service_clues(svcs.take(i as int)));
            }
        }
        i += 1;
    }
    proof {
        assert(svcs.take(identity.services@.len() as int) =~= svcs);
    }
    let ghost cs2 = cs1 + service_clues(svcs);
    let ports = found.open_ports();
    let mut j: usize = 0;
    while j < ports.len()
        invariant
            j <= ports@.len(),
            ports@ == open,
            b == best(cs2 + port_clues(open.take(j as int))),
        decreases ports@.len() - j,
    {
        proof {
            assert(open.take(j + 1).drop_last() =~= open.take(j as int));
        }
        if let Some(kind) = port_kind_of(ports[j]) {
            let g = Guess { kind, clue: Clue::Port };
            b = consider(b, g);
            proof {
                lemma_best_push(cs2 + port_clues(open.take(j as int)), g);
                assert(cs2 + port_clues(open.take(j + 1)) =~= (cs2 + port_clues(open.take(j as int))).push(g));
            }
        } else {
            proof {
                assert(cs2 + port_clues(open.take(j + 1)) =~= cs2 + port_clues(open.take(j as int)));
            }
        }
        j += 1;
    }
    proof {
        assert(open.take(ports@.len() as int) =~= open);
    }
    let ghost cs3 = cs2 + port_clues(open);
    if let Some(mac) = found.mac {
        let origin = lookup(table, mac);
        if let Origin::Registered { name, .. } = origin {
            if let Some(kind) = vendor_kind_of(name.as_str()) {
                let g = Guess { kind, clue: Clue::Vendor };
                b = consider(b, g);
                proof {
                    lemma_best_push(cs3, g);
                }
            }
        }
    }
    b
}

/// The kind alone, `Unknown` where nothing was learned.
pub fn kind_of(found: &Found, identity: &Identity, is_gateway: bool, table: &Table) -> (k: Kind)
    ensures
        k == (match spec_identify(*found, *identity, is_gateway, table.bytes()) {
            Some(g) => g.kind,
            None => Kind::Unknown,
        }),
{
    match identify(found, identity, is_gateway, table) {
        Some(g) => g.kind,
        None => Kind::Unknown,
    }
}


/// The clue order is the priority order: the guess is a clue that names a
/// kind, and no clue that names one is stronger; there is no guess only
/// where no clue names a kind.
pub proof fn lemma_best_is_strongest(cs: Seq<Guess>)
    ensures
        match best(cs) {
            Some(g) => cs.contains(g) && g.kind != Kind::Unknown && forall|i: int|
                0 <= i < cs.len() && (#[trigger] cs[i]).kind != Kind::Unknown ==> rank(g.clue) <= rank(
                    cs[i].clue,
                ),
            None => forall|i: int| 0 <= i < cs.len() ==> (#[trigger] cs[i]).kind == Kind::Unknown,
        },
    decreases cs.len(),
{
    if cs.len() > 0 {
        let p = cs.drop_last();
        lemma_best_is_strongest(p);
        lemma_best_push(p, cs.last());
        assert(p.push(cs.last()) =~= cs);
        assert forall|i: int| 0 <= i < p.len() implies #[trigger] p[i] == cs[i] by {}
        let last = cs.len() - 1;
        assert(cs[last] == cs.last());
        match best(cs) {
            Some(g) => {
                if g == cs.last() && best(p) != Some(g) {
                    assert(cs.contains(g));
                } else {
                    let x = best(p)->0;
                    let w = choose|w: int| 0 <= w < p.len() && p[w] == x;
                    assert(cs[w] == x);
                }
                assert forall|i: int| 0 <= i < cs.len() && (#[trigger] cs[i]).kind != Kind::Unknown
                    implies rank(g.clue) <= rank(cs[i].clue) by {
                    if i < p.len() {
                        assert(p[i] == cs[i]);
                    }
                }
            },
            None => {
                assert forall|i: int| 0 <= i < cs.len() implies (#[trigger] cs[i]).kind == Kind::Unknown by {
                    if i < p.len() {
                        assert(p[i] == cs[i]);
                    }
                }
            },
        }
    }
}


/// A hostname is never a clue: two identities that differ only in the names
/// learned get the same guess.
pub proof fn lemma_names_are_never_clues(
    found: Found,
    identity: Identity,
    names: Vec<crate::identify::Name>,
    is_gateway: bool,
    t: Seq<u8>,
)
    ensures
        spec_identify(found, Identity { names, ..identity }, is_gateway, t) == spec_identify(
            found,
            identity,
            is_gateway,
            t,
        ),
{
}

/// A randomised hardware address names no vendor, so it is never a vendor
/// clue.
pub proof fn lemma_randomised_names_no_vendor(t: Seq<u8>, m: crate::mac::MacAddr)
    requires
        m.spec_is_randomised(),
    ensures
        vendor_name(t, Some(m)) is None,
{
}


proof fn lemma_service_clues(services: Seq<Seq<char>>)
    ensures
        forall|k: int| 0 <= k < service_clues(services).len() ==> (#[trigger] service_clues(services)[k]).clue
            == Clue::Service,
    decreases services.len(),
{
    if services.len() > 0 {
        lemma_service_clues(services.drop_last());
    }
}

proof fn lemma_port_clues(open: Seq<u16>)
    ensures
        forall|k: int| 0 <= k < port_clues(open).len() ==> (#[trigger] port_clues(open)[k]).clue == Clue::Port,
    decreases open.len(),
{
    if open.len() > 0 {
        lemma_port_clues(open.drop_last());
    }
}

/// The gateway is not a guess: whatever else is known of it, the default
/// gateway is a router, because it is the gateway.
pub proof fn lemma_the_gateway_is_not_a_guess(found: Found, identity: Identity, t: Seq<u8>)
    ensures
        spec_identify(found, identity, true, t) == Some(Guess { kind: Kind::Router, clue: Clue::Gateway }),
{
    let open = open_ports_of(found.evidence@);
    let workgroup = identity.workgroup is Some;
    let services = strings_view(identity.services@);
    let vendor = vendor_name(t, found.mac);
    let cs = clues(open, workgroup, services, vendor, true);
    let gw = Guess { kind: Kind::Router, clue: Clue::Gateway };
    lemma_service_clues(services);
    lemma_port_clues(open);
    let g = seq![gw];
    let w = if workgroup { g.push(Guess { kind: Kind::Computer, clue: Clue::Workgroup }) } else { g };
    let sv = w + service_clues(services);
    let p = sv + port_clues(open);
    assert(cs[0] == gw);
    assert forall|k: int| 0 <= k < cs.len() && (#[trigger] cs[k]).clue == Clue::Gateway implies cs[k] == gw by {
        if k >= p.len() {
        } else if k >= sv.len() {
            assert(cs[k] == p[k]);
            assert(p[k] == port_clues(open)[k - sv.len()]);
        } else if k >= w.len() {
            assert(cs[k] == p[k]);
            assert(p[k] == sv[k]);
            assert(sv[k] == service_clues(services)[k - w.len()]);
        } else {
            assert(cs[k] == w[k]);
        }
    }
    lemma_best_is_strongest(cs);
    let b = best(cs)->0;
    assert(rank(b.clue) <= rank(cs[0].clue));
    assert(b.clue == Clue::Gateway);
}


/// A vendor's needle found anywhere in the lower-cased organisation name,
/// at its start or inside it, gives that vendor's kind, unless the needle
/// of an earlier vendor is found there too.
pub proof fn lemma_vendor_is_found_anywhere_in_the_name(name: Seq<char>, k: int, i: int)
    requires
        0 <= k < vendors().len(),
        0 <= i,
        i + vendors()[k].0@.len() <= lower(name).len(),
        lower(name).subrange(i, i + vendors()[k].0@.len()) == vendors()[k].0@,
        forall|j: int, p: int|
            0 <= j < k && 0 <= p && p + vendors()[j].0@.len() <= lower(name).len()
                ==> #[trigger] lower(name).subrange(p, p + vendors()[j].0@.len()) != vendors()[j].0@,
    ensures
        vendor_kind(name) == Some(vendors()[k].1),
{
    let hay = lower(name);
    let at = vendor_at(name);
    assert(at(k)) by {
        assert(hay.subrange(i, i + vendors()[k].0@.len()) == vendors()[k].0@);
    }
    assert forall|j: int| 0 <= j < k implies !#[trigger] at(j) by {
        if contains_text(hay, vendors()[j].0@) {
            let p = choose|p: int|
                0 <= p <= hay.len() - vendors()[j].0@.len() && #[trigger] hay.subrange(
                    p,
                    p + vendors()[j].0@.len(),
                ) == vendors()[j].0@;
            assert(hay.subrange(p, p + vendors()[j].0@.len()) != vendors()[j].0@);
        }
    }
    crate::search::lemma_first_index_at(vendors().len() as int, at, k);
}

/// A vendor clue always comes from a needle found in the lower-cased
/// organisation name, the first vendor whose needle is found there; and
/// where no needle is found anywhere, there is no vendor clue.
pub proof fn lemma_vendor_clue_has_a_needle(name: Seq<char>)
    ensures
        match vendor_kind(name) {
            Some(kd) => exists|k: int, i: int|
                0 <= k < vendors().len() && 0 <= i && i + vendors()[k].0@.len() <= lower(name).len()
                    && #[trigger] lower(name).subrange(i, i + vendors()[k].0@.len()) == vendors()[k].0@
                    && vendors()[k].1 == kd,
            None => forall|k: int, i: int|
                0 <= k < vendors().len() && 0 <= i && i + vendors()[k].0@.len() <= lower(name).len()
                    ==> #[trigger] lower(name).subrange(i, i + vendors()[k].0@.len()) != vendors()[k].0@,
        },
{
    let hay = lower(name);
    let at = vendor_at(name);
    crate::search::lemma_first_index(vendors().len() as int, at);
    match crate::search::first_index(vendors().len() as int, at) {
        Some(k) => {
            assert(at(k));
            let i = choose|i: int|
                0 <= i <= hay.len() - vendors()[k].0@.len() && #[trigger] hay.subrange(
                    i,
                    i + vendors()[k].0@.len(),
                ) == vendors()[k].0@;
            assert(hay.subrange(i, i + vendors()[k].0@.len()) == vendors()[k].0@);
        },
        None => {
            assert forall|k: int, i: int|
                0 <= k < vendors().len() && 0 <= i && i + vendors()[k].0@.len() <= hay.len()
                    implies #[trigger] hay.subrange(i, i + vendors()[k].0@.len()) != vendors()[k].0@ by {
                assert(!at(k));
            }
        },
    }
}

} // verus!
