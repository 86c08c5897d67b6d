//! What the platform readers decide, apart from the reading.
//!
//! Walking `getifaddrs` or the IP Helper tables, opening sockets and reading
//! files happen in the program around this crate. What they hand over is
//! plain values, and the decisions made of them are here: how a link is
//! classified, how a neighbour state is weighed, how per-address records
//! merge into interfaces, and the ICMP echo that the Linux ping socket sends.

use vstd::prelude::*;
use crate::addr::{is_unspecified_addr, IpAddr};
use crate::mac::MacAddr;
use crate::prefix::{spec_new, Prefix, PrefixView};
use crate::sysinfo::{IfAddr, IfFlags, Interface, InterfaceView, LinkKind, Neighbour, NeighbourState, Route};
use crate::text::{chars_of, string_of};

verus! {

// ------------------------------------------------------------ Windows

/// `NL_NEIGHBOR_STATE`, collapsed onto what changes what the engine does.
/// `Probe` and `Delay` are entries being re-checked after being reachable,
/// so they count as stale; unreachable and anything unknown count as
/// incomplete.
pub open spec fn spec_neighbour_state(state: i32) -> NeighbourState {
    if state == 5 {
        NeighbourState::Reachable
    } else if state == 6 {
        NeighbourState::Static
    } else if 2 <= state <= 4 {
        NeighbourState::Stale
    } else {
        NeighbourState::Incomplete
    }
}

pub fn neighbour_state(state: i32) -> (s: NeighbourState)
    ensures
        s == spec_neighbour_state(state),
{
    if state == 1 {
        NeighbourState::Incomplete
    } else if state == 5 {
        NeighbourState::Reachable
    } else if state == 6 {
        NeighbourState::Static
    } else if 2 <= state && state <= 4 {
        NeighbourState::Stale
    } else {
        NeighbourState::Incomplete
    }
}

/// `IfType` values worth telling apart, from `ipifcons.h`.
pub open spec fn spec_adapter_kind(if_type: u32) -> LinkKind {
    if if_type == 6 {
        LinkKind::Ethernet
    } else if if_type == 71 {
        LinkKind::Wireless
    } else if if_type == 24 {
        LinkKind::Loopback
    } else if if_type == 131 || if_type == 23 {
        LinkKind::Tunnel
    } else {
        LinkKind::Unknown
    }
}

pub fn adapter_kind(if_type: u32) -> (k: LinkKind)
    ensures
        k == spec_adapter_kind(if_type),
{
    if if_type == 6 {
        LinkKind::Ethernet
    } else if if_type == 71 {
        LinkKind::Wireless
    } else if if_type == 24 {
        LinkKind::Loopback
    } else if if_type == 131 || if_type == 23 {
        LinkKind::Tunnel
    } else {
        LinkKind::Unknown
    }
}

/// One adapter of a `GetAdaptersAddresses` reply, as plain values.
pub struct Adapter {
    pub name: String,
    pub friendly: String,
    pub index: u32,
    /// The physical address, of whatever length the adapter reported.
    pub physical: Vec<u8>,
    /// Each unicast address with its on-link prefix length.
    pub unicast: Vec<(IpAddr, u8)>,
    pub dns: Vec<IpAddr>,
    pub if_type: u32,
    pub oper_status: i32,
    pub mtu: u32,
    pub dhcp_server: Option<IpAddr>,
}

/// The addresses whose prefix is one, in order.
pub open spec fn if_addrs(u: Seq<(IpAddr, u8)>) -> Seq<(IpAddr, PrefixView)>
    decreases u.len(),
{
    if u.len() == 0 {
        Seq::empty()
    } else {
        match spec_new(u.last().0, u.last().1 as nat) {
            Ok(p) => if_addrs(u.drop_last()).push((u.last().0, p)),
            Err(_) => if_addrs(u.drop_last()),
        }
    }
}

pub open spec fn addr_views(a: Seq<IfAddr>) -> Seq<(IpAddr, PrefixView)> {
    Seq::new(a.len(), |i: int| (a[i].address, a[i].prefix@))
}

/// The interface an adapter is: a hardware address only where it has six
/// bytes, up when its operational status is up, point to point for PPP and
/// tunnels.
pub open spec fn spec_adapter_interface(a: Adapter, i: InterfaceView) -> bool {
    &&& i.name == a.name@
    &&& i.friendly == a.friendly@
    &&& i.index == a.index
    &&& i.mac == (if a.physical@.len() == 6 {
        Some(
            MacAddr(
                [
                    a.physical@[0],
                    a.physical@[1],
                    a.physical@[2],
                    a.physical@[3],
                    a.physical@[4],
                    a.physical@[5],
                ],
            ),
        )
    } else {
        None
    })
    &&& addr_views(i.addresses) == if_addrs(a.unicast@)
    &&& i.kind == spec_adapter_kind(a.if_type)
    &&& i.flags == IfFlags {
        up: a.oper_status == 1,
        loopback: a.if_type == 24,
        point_to_point: a.if_type == 23 || a.if_type == 131,
    }
    &&& i.mtu == a.mtu
    &&& i.dns == a.dns@
    &&& i.dhcp_server == a.dhcp_server
}

fn addresses_of(u: &Vec<(IpAddr, u8)>) -> (r: Vec<IfAddr>)
    ensures
        addr_views(r@) == if_addrs(u@),
{
    let mut out: Vec<IfAddr> = Vec::new();
    let mut i: usize = 0;
    while i < u.len()
        invariant
            i <= u@.len(),
            addr_views(out@) == if_addrs(u@.take(i as int)),
        decreases u@.len() - i,
    {
        proof {
            assert(u@.take(i + 1).drop_last() =~= u@.take(i as int));
        }
        let (address, len) = u[i];
        match Prefix::new(address, len) {
            Ok(prefix) => {
                let ghost before = addr_views(out@);
                out.push(IfAddr { address, prefix });
                proof {
                    assert(addr_views(out@) =~= before.push((address, prefix@)));
                }
            },
            Err(_) => {},
        }
        i += 1;
    }
    proof {
        assert(u@.take(u@.len() as int) =~= u@);
    }
    out
}

/// The interface an adapter reading describes.
pub fn adapter_interface(a: Adapter) -> (i: Interface)
    ensures
        spec_adapter_interface(a, i@),
{
    let mac = if a.physical.len() == 6 {
        Some(
            MacAddr(
                [a.physical[0], a.physical[1], a.physical[2], a.physical[3], a.physical[4], a.physical[5]],
            ),
        )
    } else {
        None
    };
    let addresses = addresses_of(&a.unicast);
    let kind = adapter_kind(a.if_type);
    let flags = IfFlags {
        up: a.oper_status == 1,
        loopback: a.if_type == 24,
        point_to_point: a.if_type == 23 || a.if_type == 131,
    };
    Interface {
        name: a.name,
        friendly: a.friendly,
        index: a.index,
        mac,
        addresses,
        kind,
        flags,
        mtu: a.mtu,
        dns: a.dns,
        dhcp_server: a.dhcp_server,
    }
}

/// A forwarding table row: a route where the destination is a prefix. An
/// on-link route reports the unspecified address as its next hop, which is
/// no gateway.
pub fn forward_route(destination: IpAddr, prefix_len: u8, next_hop: Option<IpAddr>, interface_index: u32, metric: u32) -> (r: Option<Route>)
    ensures
        match spec_new(destination, prefix_len as nat) {
            Err(_) => r is None,
            Ok(p) => r is Some && r->0.destination@ == p && r->0.interface_index == interface_index
                && r->0.metric == metric && r->0.gateway == (match next_hop {
                Some(h) => if is_unspecified_addr(h) {
                    None
                } else {
                    Some(h)
                },
                None => None,
            }),
        },
{
    let destination = match Prefix::new(destination, prefix_len) {
        Ok(p) => p,
        Err(_) => return None,
    };
    let gateway = match next_hop {
        Some(h) => if h.is_unspecified() {
            None
        } else {
            Some(h)
        },
        None => None,
    };
    Some(Route { destination, gateway, interface_index, metric })
}

/// A neighbour table row: only six-byte hardware addresses are kept.
pub fn neighbour_row(address: IpAddr, physical: &[u8], interface_index: u32, state: i32) -> (r: Option<Neighbour>)
    ensures
        physical@.len() != 6 ==> r is None,
        physical@.len() == 6 ==> r == Some(
            Neighbour {
                address,
                mac: MacAddr([physical@[0], physical@[1], physical@[2], physical@[3], physical@[4], physical@[5]]),
                interface_index,
                state: spec_neighbour_state(state),
            },
        ),
{
    if physical.len() != 6 {
        return None;
    }
    Some(
        Neighbour {
            address,
            mac: MacAddr([physical[0], physical[1], physical[2], physical[3], physical[4], physical[5]]),
            interface_index,
            state: neighbour_state(state),
        },
    )
}

// ------------------------------------------------------------ Linux

/// `IFF_UP`, `IFF_LOOPBACK` and `IFF_POINTOPOINT`.
pub open spec fn spec_if_flags(flags: u32) -> IfFlags {
    IfFlags { up: flags & 1 != 0, loopback: flags & 8 != 0, point_to_point: flags & 16 != 0 }
}

pub fn if_flags(flags: u32) -> (f: IfFlags)
    ensures
        f == spec_if_flags(flags),
{
    IfFlags { up: flags & 1 != 0, loopback: flags & 8 != 0, point_to_point: flags & 16 != 0 }
}

/// A Linux link: loopback by its flag; wireless where `/sys` has a
/// `phy80211` link, which works for every driver; a tunnel by the
/// point-to-point flag; else by the `ARPHRD` type in `/sys`.
pub open spec fn spec_link_kind(flags: u32, wireless: bool, sys_type: Option<u64>) -> LinkKind {
    if flags & 8 != 0 {
        LinkKind::Loopback
    } else if wireless {
        LinkKind::Wireless
    } else if flags & 16 != 0 {
        LinkKind::Tunnel
    } else {
        match sys_type {
            Some(1) => LinkKind::Ethernet,
            Some(772) => LinkKind::Loopback,
            _ => LinkKind::Unknown,
        }
    }
}

pub fn link_kind(flags: u32, wireless: bool, sys_type: Option<u64>) -> (k: LinkKind)
    ensures
        k == spec_link_kind(flags, wireless, sys_type),
{
    if flags & 8 != 0 {
        return LinkKind::Loopback;
    }
    if wireless {
        return LinkKind::Wireless;
    }
    if flags & 16 != 0 {
        return LinkKind::Tunnel;
    }
    match sys_type {
        Some(1) => LinkKind::Ethernet,
        Some(772) => LinkKind::Loopback,
        _ => LinkKind::Unknown,
    }
}

/// What one `getifaddrs` record carries.
pub enum NodeAddr {
    /// An `AF_PACKET` record: the interface's own hardware address.
    Hardware(MacAddr),
    /// An address on the interface, with the length of its netmask where
    /// there was one.
    Ip(IpAddr, Option<u8>),
    /// Anything else.
    Other,
}

/// One `getifaddrs` record, with what the platform says of its interface.
pub struct Node {
    pub name: String,
    pub flags: u32,
    pub index: u32,
    pub mtu: u32,
    pub wireless: bool,
    pub sys_type: Option<u64>,
    pub addr: NodeAddr,
}

/// An interface as the records of its name build it.
pub struct Merged {
    pub name: Seq<char>,
    pub index: u32,
    pub mac: Option<MacAddr>,
    pub addresses: Seq<(IpAddr, PrefixView)>,
    pub kind: LinkKind,
    pub flags: IfFlags,
    pub mtu: u32,
}

/// The interface a first record of a name opens.
pub open spec fn opened(n: Node) -> Merged {
    Merged {
        name: n.name@,
        index: n.index,
        mac: None,
        addresses: Seq::empty(),
        kind: spec_link_kind(n.flags, n.wireless, n.sys_type),
        flags: spec_if_flags(n.flags),
        mtu: n.mtu,
    }
}

/// What a record adds to its interface: a non-zero hardware address, or an
/// address whose prefix, by its netmask or else the full length, is one.
pub open spec fn absorbed(m: Merged, a: NodeAddr) -> Merged {
    match a {
        NodeAddr::Hardware(h) => if h.spec_is_zero() {
            m
        } else {
            Merged { mac: Some(h), ..m }
        },
        NodeAddr::Ip(address, mask) => {
            let len = match mask {
                Some(l) => l as nat,
                None => if address is V4 {
                    32nat
                } else {
                    128nat
                },
            };
            match spec_new(address, len) {
                Ok(p) => Merged { addresses: m.addresses.push((address, p)), ..m },
                Err(_) => m,
            }
        },
        NodeAddr::Other => m,
    }
}

/// The interfaces a list of records describes: one per name, in the order
/// names first appear, each built from its records in order.
pub open spec fn merged(nodes: Seq<Node>) -> Seq<Merged>
    decreases nodes.len(),
{
    if nodes.len() == 0 {
        Seq::empty()
    } else {
        let acc = merged(nodes.drop_last());
        let n = nodes.last();
        match crate::search::first_index(acc.len() as int, named(acc, n.name@)) {
            Some(k) => acc.update(k, absorbed(acc[k], n.addr)),
            None => acc.push(absorbed(opened(n), n.addr)),
        }
    }
}

pub open spec fn named(acc: Seq<Merged>, name: Seq<char>) -> spec_fn(int) -> bool {
    |k: int| acc[k].name == name
}

pub open spec fn merged_view(i: Interface) -> Merged {
    Merged {
        name: i.name@,
        index: i.index,
        mac: i.mac,
        addresses: addr_views(i.addresses@),
        kind: i.kind,
        flags: i.flags,
        mtu: i.mtu,
    }
}

pub open spec fn merged_views(v: Seq<Interface>) -> Seq<Merged> {
    Seq::new(v.len(), |i: int| merged_view(v[i]))
}

fn absorb(iface: &mut Interface, a: &NodeAddr)
    ensures
        merged_view(*final(iface)) == absorbed(merged_view(*old(iface)), *a),
        final(iface).name@ == old(iface).name@,
        final(iface).friendly@ == old(iface).friendly@,
        final(iface).dns@ == old(iface).dns@,
        final(iface).dhcp_server == old(iface).dhcp_server,
{
    match a {
        NodeAddr::Hardware(h) => {
            if !h.is_zero() {
                iface.mac = Some(*h);
            }
        },
        NodeAddr::Ip(address, mask) => {
            let len: u8 = match mask {
                Some(l) => *l,
                None => if address.is_ipv4() {
                    32
                } else {
                    128
                },
            };
            match Prefix::new(*address, len) {
                Ok(prefix) => {
                    let ghost before = addr_views(iface.addresses@);
                    iface.addresses.push(IfAddr { address: *address, prefix });
                    proof {
                        assert(addr_views(iface.addresses@) =~= before.push((*address, prefix@)));
                    }
                },
                Err(_) => {},
            }
        },
        NodeAddr::Other => {},
    }
}

/// Merges `getifaddrs` records, one per address, into interfaces.
pub fn merge_nodes(nodes: &Vec<Node>) -> (r: Vec<Interface>)
    ensures
        merged_views(r@) == merged(nodes@),
        forall|k: int| 0 <= k < r@.len() ==> (#[trigger] r@[k]).friendly@ == r@[k].name@ && r@[k].dns@.len() == 0 && r@[k].dhcp_server is None,
{
    let mut out: Vec<Interface> = Vec::new();
    let mut i: usize = 0;
    while i < nodes.len()
        invariant
            i <= nodes@.len(),
            merged_views(out@) == merged(nodes@.take(i as int)),
            forall|k: int| 0 <= k < out@.len() ==> (#[trigger] out@[k]).friendly@ == out@[k].name@ && out@[k].dns@.len() == 0 && out@[k].dhcp_server is None,
        decreases nodes@.len() - i,
    {
        proof {
            assert(nodes@.take(i + 1).drop_last() =~= nodes@.take(i as int));
        }
        let n = &nodes[i];
        let ghost acc = merged_views(out@);
        let ghost p = named(acc, n.name@);
        let mut k: usize = 0;
        let name = chars_of(n.name.as_str());
        while k < out.len()
            invariant
                k <= out@.len(),
                acc == merged_views(out@),
                p == named(acc, n.name@),
                name@ == n.name@,
                forall|j: int| 0 <= j < k ==> !#[trigger] p(j),
            ensures
                k <= out@.len(),
                acc == merged_views(out@),
                forall|j: int| 0 <= j < k ==> !#[trigger] p(j),
                k < out@.len() ==> p(k as int),
            decreases out@.len() - k,
        {
            let other = chars_of(out[k].name.as_str());
            if crate::text::same_chars(other.as_slice(), name.as_slice()) {
                proof {
                    assert(acc[k as int].name == out@[k as int].name@);
                }
                break;
            }
            k += 1;
        }
        if k < out.len() {
            proof {
                crate::search::lemma_first_index_at(acc.len() as int, p, k as int);
            }
            let mut iface = out.remove(k);
            absorb(&mut iface, &n.addr);
            out.insert(k, iface);
            proof {
                assert(merged_views(out@) =~= acc.update(k as int, absorbed(acc[k as int], n.addr)));
            }
        } else {
            proof {
                crate::search::lemma_first_index_none(acc.len() as int, p);
            }
            let mut iface = Interface {
                name: string_of(name.as_slice()),
                friendly: string_of(name.as_slice()),
                index: n.index,
                mac: None,
                addresses: Vec::new(),
                kind: link_kind(n.flags, n.wireless, n.sys_type),
                flags: if_flags(n.flags),
                mtu: n.mtu,
                dns: Vec::new(),
                dhcp_server: None,
            };
            proof {
                assert(merged_view(iface) == opened(*n)) by {
                    assert(addr_views(iface.addresses@) =~= Seq::<(IpAddr, PrefixView)>::empty());
                }
            }
            absorb(&mut iface, &n.addr);
            out.push(iface);
            proof {
                assert(merged_views(out@) =~= acc.push(absorbed(opened(*n), n.addr)));
            }
        }
        i += 1;
    }
    proof {
        assert(nodes@.take(nodes@.len() as int) =~= nodes@);
    }
    out
}

/// The internet checksum's sum folded into sixteen bits: the carries added
/// back in until there are none.
pub open spec fn fold(s: nat) -> nat
    decreases s,
{
    if s < 65536 {
        s
    } else {
        fold(s % 65536 + s / 65536)
    }
}

/// The sum of the big-endian sixteen-bit words of `data`, an odd last byte
/// taken as the high byte of a word.
pub open spec fn word_sum(data: Seq<u8>) -> nat
    decreases data.len(),
{
    if data.len() == 0 {
        0
    } else if data.len() == 1 {
        (data[0] as nat) * 256
    } else {
        (data[0] as nat) * 256 + data[1] as nat + word_sum(data.skip(2))
    }
}

/// The internet checksum: the one's complement of the one's complement sum.
pub open spec fn spec_checksum(data: Seq<u8>) -> u16 {
    (65535 - fold(word_sum(data))) as u16
}

proof fn lemma_word_sum_bound(data: Seq<u8>)
    ensures
        word_sum(data) <= 65536 * (data.len() + 1) / 2,
    decreases data.len(),
{
    if data.len() >= 2 {
        lemma_word_sum_bound(data.skip(2));
    }
}

proof fn lemma_word_sum_split(data: Seq<u8>, k: int)
    requires
        0 <= k,
        2 * k <= data.len(),
    ensures
        word_sum(data) == prefix_sum(data, k) + word_sum(data.skip(2 * k)),
    decreases k,
{
    if k > 0 {
        lemma_word_sum_split(data.skip(2), k - 1);
        assert(data.skip(2).skip(2 * (k - 1)) =~= data.skip(2 * k));
        assert(prefix_sum(data, k) == (data[0] as nat) * 256 + data[1] as nat + prefix_sum(data.skip(2), k - 1)) by {
            lemma_prefix_sum_first(data, k);
        }
    } else {
        assert(data.skip(0) =~= data);
    }
}

/// The sum of the first `k` words.
pub open spec fn prefix_sum(data: Seq<u8>, k: int) -> nat
    decreases k,
{
    if k <= 0 {
        0
    } else {
        prefix_sum(data, k - 1) + (data[2 * k - 2] as nat) * 256 + data[2 * k - 1] as nat
    }
}

proof fn lemma_prefix_sum_first(data: Seq<u8>, k: int)
    requires
        1 <= k,
        2 * k <= data.len(),
    ensures
        prefix_sum(data, k) == (data[0] as nat) * 256 + data[1] as nat + prefix_sum(data.skip(2), k - 1),
    decreases k,
{
    let t = data.skip(2);
    if k > 1 {
        lemma_prefix_sum_first(data, k - 1);
        assert(t[2 * (k - 1) - 2] == data[2 * k - 2]);
        assert(t[2 * (k - 1) - 1] == data[2 * k - 1]);
        assert(prefix_sum(t, k - 1) == prefix_sum(t, k - 2) + (t[2 * (k - 1) - 2] as nat) * 256
            + t[2 * (k - 1) - 1] as nat);
        assert(prefix_sum(data, k) == prefix_sum(data, k - 1) + (data[2 * k - 2] as nat) * 256
            + data[2 * k - 1] as nat);
    } else {
        assert(prefix_sum(t, 0) == 0);
        assert(prefix_sum(data, 0) == 0);
        assert(prefix_sum(data, 1) == prefix_sum(data, 0) + (data[0] as nat) * 256 + data[1] as nat);
    }
}

proof fn lemma_fold_step(s: u32)
    requires
        s >= 65536,
    ensures
        fold(s as nat) == fold(((s & 0xffff) + (s >> 16)) as nat),
        ((s & 0xffff) + (s >> 16)) < s,
{
    assert((s & 0xffff) == s % 65536 && (s >> 16) == s / 65536) by (bit_vector);
}

/// The internet checksum of a datagram no larger than an IPv4 packet.
pub fn checksum(data: &[u8]) -> (c: u16)
    requires
        data@.len() <= 65536,
    ensures
        c == spec_checksum(data@),
{
    let n = data.len();
    let mut sum: u32 = 0;
    let mut k: usize = 0;
    proof {
        lemma_word_sum_bound(data@);
    }
    while 2 * k + 1 < n
        invariant
            n == data@.len(),
            n <= 65536,
            2 * k <= n,
            sum == prefix_sum(data@, k as int),
            sum <= 131072 * k,
        decreases n - 2 * k,
    {
        sum = sum + (data[2 * k] as u32) * 256 + data[2 * k + 1] as u32;
        k += 1;
    }
    if 2 * k < n {
        sum = sum + (data[2 * k] as u32) * 256;
    }
    proof {
        lemma_word_sum_split(data@, k as int);
        let rest = data@.skip(2 * k);
        if rest.len() == 1 {
            assert(rest[0] == data@[2 * k as int]);
        } else {
            assert(rest.len() == 0);
        }
    }
    while sum >= 65536
        invariant
            fold(sum as nat) == fold(word_sum(data@)),
        decreases sum,
    {
        proof {
            lemma_fold_step(sum);
        }
        sum = (sum & 0xffff) + (sum >> 16);
    }
    (65535 - sum) as u16
}

/// The echo request the ping socket sends: type 8, code 0, the checksum,
/// identifier 0, sequence 1, then the 32 bytes `ping` sends.
pub open spec fn spec_echo_request() -> Seq<u8> {
    let body = seq![8u8, 0u8, 0u8, 0u8, 0u8, 0u8, 0u8, 1u8] + Seq::new(32, |i: int| 0x61u8);
    let sum = spec_checksum(body);
    body.update(2, (sum / 256) as u8).update(3, (sum % 256) as u8)
}

pub fn echo_request() -> (p: Vec<u8>)
    ensures
        p@ == spec_echo_request(),
{
    let mut p: Vec<u8> = vec![8u8, 0u8, 0u8, 0u8, 0u8, 0u8, 0u8, 1u8];
    let mut i: usize = 0;
    while i < 32
        invariant
            i <= 32,
            p@ == seq![8u8, 0u8, 0u8, 0u8, 0u8, 0u8, 0u8, 1u8] + Seq::new(i as nat, |j: int| 0x61u8),
        decreases 32 - i,
    {
        p.push(0x61);
        proof {
            assert(p@ =~= seq![8u8, 0u8, 0u8, 0u8, 0u8, 0u8, 0u8, 1u8] + Seq::new((i + 1) as nat, |j: int| 0x61u8));
        }
        i += 1;
    }
    let sum = checksum(p.as_slice());
    p.set(2, (sum / 256) as u8);
    p.set(3, (sum % 256) as u8);
    p
}

/// Is what came back on the ping socket the host's echo reply? Type 0; a
/// router talking about the probe is not the host answering.
pub fn is_echo_reply(reply: &[u8]) -> (b: bool)
    ensures
        b == (reply@.len() >= 8 && reply@[0] == 0),
{
    reply.len() >= 8 && reply[0] == 0
}


/// Folding keeps the sum modulo 65535, lands at most at 65535, and is zero
/// only for zero.
proof fn lemma_fold(x: nat)
    ensures
        fold(x) % 65535 == x % 65535,
        fold(x) <= 65535,
        x > 0 ==> fold(x) > 0,
    decreases x,
{
    if x >= 65536 {
        let q = x / 65536;
        let r = x % 65536;
        assert(x == 65536 * q + r);
        assert((q + r) % 65535 == x % 65535) by (nonlinear_arith)
            requires
                x == 65536 * q + r,
                q >= 1,
                0 <= r < 65536,
        ;
        assert(q + r < x) by (nonlinear_arith)
            requires
                x == 65536 * q + r,
                q >= 1,
                0 <= r,
        ;
        lemma_fold((r + q) as nat);
    }
}

/// The words of `d` with the word at offset 2 replaced.
proof fn lemma_word_sum_second(d: Seq<u8>, a: u8, b: u8)
    requires
        d.len() >= 4,
    ensures
        word_sum(d.update(2, a).update(3, b)) + (d[2] as nat) * 256 + d[3] as nat == word_sum(d)
            + (a as nat) * 256 + b as nat,
{
    let e = d.update(2, a).update(3, b);
    assert(e.skip(2).skip(2) =~= d.skip(2).skip(2));
    assert(word_sum(e.skip(2)) == (a as nat) * 256 + b as nat + word_sum(e.skip(2).skip(2)));
    assert(word_sum(d.skip(2)) == (d[2] as nat) * 256 + d[3] as nat + word_sum(d.skip(2).skip(2)));
}

/// A checksum verifies: written into a datagram's checksum field, which was
/// zero when it was computed, the datagram's checksum comes out zero.
pub proof fn lemma_checksum_verifies(d: Seq<u8>)
    requires
        d.len() >= 4,
        d[2] == 0,
        d[3] == 0,
    ensures
        spec_checksum(
            d.update(2, (spec_checksum(d) / 256) as u8).update(3, (spec_checksum(d) % 256) as u8),
        ) == 0,
{
    let s = word_sum(d);
    let f = fold(s);
    lemma_fold(s);
    let c = spec_checksum(d);
    assert(c == 65535 - f);
    let a = (c / 256) as u8;
    let b = (c % 256) as u8;
    assert((a as nat) * 256 + b as nat == c);
    lemma_word_sum_second(d, a, b);
    let t = word_sum(d.update(2, a).update(3, b));
    assert(t == s + c);
    lemma_fold(t);
    assert(t % 65535 == 0) by (nonlinear_arith)
        requires
            t == s + 65535 - f,
            f % 65535 == s % 65535,
            f <= 65535,
    ;
    assert(t > 0);
    assert(fold(t) == 65535);
}

/// The echo request carries a correct checksum.
pub proof fn lemma_echo_request_verifies()
    ensures
        spec_checksum(spec_echo_request()) == 0,
{
    let body = seq![8u8, 0u8, 0u8, 0u8, 0u8, 0u8, 0u8, 1u8] + Seq::new(32, |i: int| 0x61u8);
    assert(body[2] == 0 && body[3] == 0);
    lemma_checksum_verifies(body);
}

} // verus!
