//! What the operating system already knows, and the seam it comes through.
//!
//! Every reading arrives through [`SystemProbe`], and nothing in this crate
//! calls an operating system function: a scanner whose tests need a network
//! interface has no tests at all. [`Recorded`] is a set of readings held in
//! memory, which is what the tests run against; the real probe lives with the
//! program around this crate.
//!
//! A reading that fails fails with its reason, and the survey reports it as a
//! gap rather than as an empty network.

use vstd::prelude::*;
use crate::addr::IpAddr;
use crate::mac::MacAddr;
use crate::prefix::Prefix;

verus! {

/// A network interface as the OS describes it.
#[derive(Clone, Debug, PartialEq, Eq)]
pub struct Interface {
    /// The kernel's name for it: `eth0`, `wlan0`, or on Windows the adapter
    /// GUID.
    pub name: String,
    /// What the user would recognise; `name` again where there is nothing
    /// better.
    pub friendly: String,
    /// The interface index, which is how routes and neighbours refer to it.
    pub index: u32,
    /// The hardware address; `None` for interfaces that have none, which is
    /// different from an all-zero one.
    pub mac: Option<MacAddr>,
    /// Every address configured on the interface, with its prefix.
    pub addresses: Vec<IfAddr>,
    pub kind: LinkKind,
    pub flags: IfFlags,
    /// Bytes, or `0` where the platform did not say.
    pub mtu: u32,
    /// Resolvers configured for this interface specifically.
    pub dns: Vec<IpAddr>,
    /// The DHCP server the current lease came from, where recorded.
    pub dhcp_server: Option<IpAddr>,
}

/// An interface as a value: its strings as characters and its lists as
/// sequences.
pub struct InterfaceView {
    pub name: Seq<char>,
    pub friendly: Seq<char>,
    pub index: u32,
    pub mac: Option<MacAddr>,
    pub addresses: Seq<IfAddr>,
    pub kind: LinkKind,
    pub flags: IfFlags,
    pub mtu: u32,
    pub dns: Seq<IpAddr>,
    pub dhcp_server: Option<IpAddr>,
}

impl View for Interface {
    type V = InterfaceView;

    open spec fn view(&self) -> InterfaceView {
        InterfaceView {
            name: self.name@,
            friendly: self.friendly@,
            index: self.index,
            mac: self.mac,
            addresses: self.addresses@,
            kind: self.kind,
            flags: self.flags,
            mtu: self.mtu,
            dns: self.dns@,
            dhcp_server: self.dhcp_server,
        }
    }
}

pub open spec fn interface_views(v: Seq<Interface>) -> Seq<InterfaceView> {
    Seq::new(v.len(), |i: int| v[i]@)
}

/// The addresses of the IPv4 entries, in order: what can be swept.
pub open spec fn v4_prefixes_of(a: Seq<IfAddr>) -> Seq<Prefix>
    decreases a.len(),
{
    if a.len() == 0 {
        Seq::empty()
    } else if a.last().address is V4 {
        v4_prefixes_of(a.drop_last()).push(a.last().prefix)
    } else {
        v4_prefixes_of(a.drop_last())
    }
}

impl Interface {
    pub open spec fn spec_is_scannable(&self) -> bool {
        self.flags.up && !self.flags.loopback && self.addresses@.len() > 0
    }

    /// Up, not loopback, and carrying at least one address.
    pub fn is_scannable(&self) -> (b: bool)
        ensures
            b == self.spec_is_scannable(),
    {
        self.flags.up && !self.flags.loopback && self.addresses.len() > 0
    }

    /// The IPv4 prefixes configured here, in order.
    pub fn v4_prefixes(&self) -> (r: Vec<Prefix>)
        ensures
            r@ == v4_prefixes_of(self.addresses@),
    {
        let mut out: Vec<Prefix> = Vec::new();
        let mut i: usize = 0;
        while i < self.addresses.len()
            invariant
                i <= self.addresses@.len(),
                out@ == v4_prefixes_of(self.addresses@.take(i as int)),
            decreases self.addresses@.len() - i,
        {
            proof {
                assert(self.addresses@.take(i + 1).drop_last() =~= self.addresses@.take(i as int));
            }
            if self.addresses[i].address.is_ipv4() {
                out.push(self.addresses[i].prefix);
            }
            i += 1;
        }
        proof {
            assert(self.addresses@.take(self.addresses@.len() as int) =~= self.addresses@);
        }
        out
    }
}

/// One address on an interface, and the network it implies.
#[derive(Clone, Copy, Debug, PartialEq, Eq)]
pub struct IfAddr {
    pub address: IpAddr,
    pub prefix: Prefix,
}

#[derive(Clone, Copy, Debug, Default, PartialEq, Eq, Structural)]
pub struct IfFlags {
    pub up: bool,
    pub loopback: bool,
    /// No broadcast domain, so no ARP sweep: a VPN or a PPP link.
    pub point_to_point: bool,
}

/// What kind of link this is, as far as the platform will say.
#[derive(Clone, Copy, Debug, Default, PartialEq, Eq, Structural)]
pub enum LinkKind {
    Ethernet,
    Wireless,
    Loopback,
    Tunnel,
    #[default]
    Unknown,
}

/// A routing table entry.
#[derive(Clone, Copy, Debug, PartialEq, Eq)]
pub struct Route {
    pub destination: Prefix,
    /// `None` for a route onto a directly attached link.
    pub gateway: Option<IpAddr>,
    pub interface_index: u32,
    pub metric: u32,
}

impl Route {
    pub open spec fn spec_is_default(&self) -> bool {
        self.destination@.len == 0
    }

    /// A default route: `0.0.0.0/0` or `::/0`.
    pub fn is_default(&self) -> (b: bool)
        ensures
            b == self.spec_is_default(),
    {
        self.destination.len() == 0
    }
}

/// A neighbour (ARP or NDP) table entry.
#[derive(Clone, Copy, Debug, PartialEq, Eq)]
pub struct Neighbour {
    pub address: IpAddr,
    pub mac: MacAddr,
    pub interface_index: u32,
    pub state: NeighbourState,
}

/// How much a neighbour entry is worth believing.
#[derive(Clone, Copy, Debug, PartialEq, Eq, Structural)]
pub enum NeighbourState {
    /// Confirmed recently. A device is there.
    Reachable,
    /// Was confirmed, may have gone. Still evidence of a device.
    Stale,
    /// Asked, nothing answered. Not evidence of anything.
    Incomplete,
    /// Configured by hand, never verified.
    Static,
}

impl NeighbourState {
    pub open spec fn spec_is_evidence(self) -> bool {
        !(self is Incomplete)
    }

    /// Does this entry attest to a device being present?
    pub fn is_evidence(self) -> (b: bool)
        ensures
            b == self.spec_is_evidence(),
    {
        match self {
            NeighbourState::Incomplete => false,
            _ => true,
        }
    }
}

/// Everything the engine reads from the operating system. Implementors do no
/// interpretation: they hand over what the platform said, or why it could
/// not be read.
pub trait SystemProbe {
    fn interfaces(&self) -> Result<Vec<Interface>, String>;

    fn routes(&self) -> Result<Vec<Route>, String>;

    fn neighbours(&self) -> Result<Vec<Neighbour>, String>;

    /// The machine-wide resolver list.
    fn resolvers(&self) -> Result<Vec<IpAddr>, String>;
}

/// Readings held in memory, for tests and for rehearsal.
#[derive(Clone, Debug)]
pub struct Recorded {
    pub interfaces: Vec<Interface>,
    pub routes: Vec<Route>,
    pub neighbours: Vec<Neighbour>,
    pub resolvers: Vec<IpAddr>,
    /// Set to make every reading fail.
    pub broken: bool,
}

impl Recorded {
    /// Nothing recorded, and nothing broken.
    pub fn new() -> (r: Recorded)
        ensures
            r.interfaces@.len() == 0,
            r.routes@.len() == 0,
            r.neighbours@.len() == 0,
            r.resolvers@.len() == 0,
            !r.broken,
    {
        Recorded {
            interfaces: Vec::new(),
            routes: Vec::new(),
            neighbours: Vec::new(),
            resolvers: Vec::new(),
            broken: false,
        }
    }

    fn check(&self) -> (r: Result<(), String>)
        ensures
            r is Err <==> self.broken,
            r matches Err(e) ==> e@ == "recorded probe is broken"@,
    {
        if self.broken {
            Err(crate::text::string_of(crate::text::chars_of("recorded probe is broken").as_slice()))
        } else {
            Ok(())
        }
    }
}

impl Default for Recorded {
    fn default() -> (r: Recorded)
        ensures
            r.interfaces@.len() == 0,
            r.routes@.len() == 0,
            r.neighbours@.len() == 0,
            r.resolvers@.len() == 0,
            !r.broken,
    {
        Recorded::new()
    }
}

impl SystemProbe for Recorded {
    fn interfaces(&self) -> (r: Result<Vec<Interface>, String>)
        ensures
            r is Err <==> self.broken,
            r matches Ok(v) ==> interface_views(v@) == interface_views(self.interfaces@),
    {
        match self.check() {
            Err(e) => Err(e),
            Ok(()) => Ok(clone_interfaces(&self.interfaces)),
        }
    }

    fn routes(&self) -> (r: Result<Vec<Route>, String>)
        ensures
            r is Err <==> self.broken,
            r matches Ok(v) ==> v@ == self.routes@,
    {
        match self.check() {
            Err(e) => Err(e),
            Ok(()) => {
                let mut out: Vec<Route> = Vec::new();
                let mut i: usize = 0;
                while i < self.routes.len()
                    invariant
                        i <= self.routes@.len(),
                        out@ == self.routes@.take(i as int),
                    decreases self.routes@.len() - i,
                {
                    out.push(self.routes[i]);
                    proof {
                        assert(out@ =~= self.routes@.take(i + 1));
                    }
                    i += 1;
                }
                proof {
                    assert(out@ =~= self.routes@);
                }
                Ok(out)
            },
        }
    }

    fn neighbours(&self) -> (r: Result<Vec<Neighbour>, String>)
        ensures
            r is Err <==> self.broken,
            r matches Ok(v) ==> v@ == self.neighbours@,
    {
        match self.check() {
            Err(e) => Err(e),
            Ok(()) => {
                let mut out: Vec<Neighbour> = Vec::new();
                let mut i: usize = 0;
                while i < self.neighbours.len()
                    invariant
                        i <= self.neighbours@.len(),
                        out@ == self.neighbours@.take(i as int),
                    decreases self.neighbours@.len() - i,
                {
                    out.push(self.neighbours[i]);
                    proof {
                        assert(out@ =~= self.neighbours@.take(i + 1));
                    }
                    i += 1;
                }
                proof {
                    assert(out@ =~= self.neighbours@);
                }
                Ok(out)
            },
        }
    }

    fn resolvers(&self) -> (r: Result<Vec<IpAddr>, String>)
        ensures
            r is Err <==> self.broken,
            r matches Ok(v) ==> v@ == self.resolvers@,
    {
        match self.check() {
            Err(e) => Err(e),
            Ok(()) => {
                let mut out: Vec<IpAddr> = Vec::new();
                let mut i: usize = 0;
                while i < self.resolvers.len()
                    invariant
                        i <= self.resolvers@.len(),
                        out@ == self.resolvers@.take(i as int),
                    decreases self.resolvers@.len() - i,
                {
                    out.push(self.resolvers[i]);
                    proof {
                        assert(out@ =~= self.resolvers@.take(i + 1));
                    }
                    i += 1;
                }
                proof {
                    assert(out@ =~= self.resolvers@);
                }
                Ok(out)
            },
        }
    }
}

/// A copy of an interface, field by field.
pub fn clone_interface(i: &Interface) -> (r: Interface)
    ensures
        r@ == i@,
{
    let name = crate::text::string_of(crate::text::chars_of(i.name.as_str()).as_slice());
    let friendly = crate::text::string_of(crate::text::chars_of(i.friendly.as_str()).as_slice());
    let mut addresses: Vec<IfAddr> = Vec::new();
    let mut k: usize = 0;
    while k < i.addresses.len()
        invariant
            k <= i.addresses@.len(),
            addresses@ == i.addresses@.take(k as int),
        decreases i.addresses@.len() - k,
    {
        addresses.push(i.addresses[k]);
        proof {
            assert(addresses@ =~= i.addresses@.take(k + 1));
        }
        k += 1;
    }
    let mut dns: Vec<IpAddr> = Vec::new();
    let mut d: usize = 0;
    while d < i.dns.len()
        invariant
            d <= i.dns@.len(),
            dns@ == i.dns@.take(d as int),
        decreases i.dns@.len() - d,
    {
        dns.push(i.dns[d]);
        proof {
            assert(dns@ =~= i.dns@.take(d + 1));
        }
        d += 1;
    }
    proof {
        assert(addresses@ =~= i.addresses@);
        assert(dns@ =~= i.dns@);
    }
    Interface {
        name,
        friendly,
        index: i.index,
        mac: i.mac,
        addresses,
        kind: i.kind,
        flags: i.flags,
        mtu: i.mtu,
        dns,
        dhcp_server: i.dhcp_server,
    }
}

/// A copy of a list of interfaces.
pub fn clone_interfaces(v: &Vec<Interface>) -> (r: Vec<Interface>)
    ensures
        interface_views(r@) == interface_views(v@),
{
    let mut out: Vec<Interface> = Vec::new();
    let mut i: usize = 0;
    while i < v.len()
        invariant
            i <= v@.len(),
            out@.len() == i,
            forall|k: int| 0 <= k < i ==> #[trigger] out@[k]@ == v@[k]@,
        decreases v@.len() - i,
    {
        out.push(clone_interface(&v[i]));
        i += 1;
    }
    proof {
        assert(interface_views(out@) =~= interface_views(v@));
    }
    out
}

} // verus!
