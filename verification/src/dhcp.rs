//! Asking the network who hands out addresses, and noticing when two do.
//!
//! All offers are collected, not the first: two offers is a rogue DHCP server,
//! and detecting that is a feature rather than an error case. A DISCOVER asks
//! every server on the link to reserve an address for a few seconds; nothing
//! here ever builds a REQUEST, so no lease is ever taken. That is why
//! [`discover_message`] is the only message this module can build.
//!
//! The exchange itself, a broadcast and whatever answers, happens outside this
//! crate; [`Probe::from_replies`] and [`Probe::refused`] turn its outcome into
//! the result.

use vstd::prelude::*;
use vstd::utf8::*;
use crate::addr::Ipv4Addr;
use crate::mac::MacAddr;
use crate::text::{decimal, push_char, push_decimal, push_str};
use crate::vendor::utf8_name;
use core::time::Duration;

verus! {

/// The four bytes that mark a BOOTP packet as carrying DHCP options.
pub open spec fn magic() -> Seq<u8> {
    seq![0x63u8, 0x82u8, 0x53u8, 0x63u8]
}

pub const OP_REQUEST: u8 = 1;

pub const OP_REPLY: u8 = 2;

/// Ethernet, and the only hardware type spoken here.
pub const HTYPE_ETHERNET: u8 = 1;

pub const HLEN_ETHERNET: u8 = 6;

/// The fixed part of a BOOTP message, before the options.
pub const HEADER: usize = 236;

pub const OPT_SUBNET_MASK: u8 = 1;

pub const OPT_ROUTER: u8 = 3;

pub const OPT_DNS: u8 = 6;

pub const OPT_DOMAIN: u8 = 15;

pub const OPT_LEASE: u8 = 51;

pub const OPT_TYPE: u8 = 53;

pub const OPT_SERVER_ID: u8 = 54;

pub const OPT_PARAMS: u8 = 55;

pub const OPT_END: u8 = 255;

pub const DHCP_DISCOVER: u8 = 1;

pub const DHCP_OFFER: u8 = 2;

/// A span of whole seconds.
pub uninterp spec fn duration_from_secs(secs: u64) -> Duration;

/// Calls `Duration::from_secs`; the contract claims only that the span is a
/// function of the seconds given.
#[verifier::external_body]
fn seconds(secs: u64) -> (d: Duration)
    ensures
        d == duration_from_secs(secs),
{
    Duration::from_secs(secs)
}

/// One server's answer to a DISCOVER.
#[derive(Clone, Debug, PartialEq, Eq)]
pub struct Offer {
    /// Who answered, from option 54: what a client would address its REQUEST
    /// to, so the honest answer to "who is offering".
    pub server: Ipv4Addr,
    /// The address being offered.
    pub offered: Ipv4Addr,
    pub mask: Option<Ipv4Addr>,
    pub router: Option<Ipv4Addr>,
    pub dns: Vec<Ipv4Addr>,
    pub domain: Option<String>,
    pub lease: Option<Duration>,
}

/// What a DISCOVER turned up.
#[derive(Clone, Debug, PartialEq, Eq)]
pub struct Probe {
    /// Every offer that came back, in arrival order.
    pub offers: Vec<Offer>,
    /// Why the probe could not be made, where it could not. A machine that
    /// cannot bind port 68 has learned nothing, and "no rogue server found"
    /// would be an answer to a question that was never asked.
    pub not_done: Option<String>,
}

/// The DISCOVER for `mac` and `xid`: a BOOTP request over Ethernet with the
/// transaction id, the broadcast flag and the hardware address, then the
/// magic cookie, the message type, the parameters asked for (mask, router,
/// resolvers, domain) and the end marker.
pub open spec fn spec_discover(mac: MacAddr, xid: u32) -> Seq<u8> {
    Seq::new(
        HEADER as nat,
        |i: int|
            if i == 0 {
                OP_REQUEST
            } else if i == 1 {
                HTYPE_ETHERNET
            } else if i == 2 {
                HLEN_ETHERNET
            } else if i == 4 {
                (xid / 0x100_0000) as u8
            } else if i == 5 {
                (xid / 0x1_0000 % 256) as u8
            } else if i == 6 {
                (xid / 0x100 % 256) as u8
            } else if i == 7 {
                (xid % 256) as u8
            } else if i == 10 {
                0x80u8
            } else if 28 <= i < 34 {
                mac.0[i - 28]
            } else {
                0u8
            },
    ) + magic() + seq![OPT_TYPE, 1u8, DHCP_DISCOVER] + seq![
        OPT_PARAMS,
        4u8,
        OPT_SUBNET_MASK,
        OPT_ROUTER,
        OPT_DNS,
        OPT_DOMAIN,
    ] + seq![OPT_END]
}

/// Build a DISCOVER from `mac`, tagged with `xid`.
///
/// The broadcast flag is set, because a unicast reply to an unconfigured
/// address is dropped by most stacks.
pub fn discover_message(mac: MacAddr, xid: u32) -> (m: Vec<u8>)
    ensures
        m@ == spec_discover(mac, xid),
{
    let mut m: Vec<u8> = Vec::new();
    let mut i: usize = 0;
    while i < HEADER
        invariant
            i <= HEADER,
            m@.len() == i,
            forall|k: int| 0 <= k < i ==> #[trigger] m@[k] == spec_discover(mac, xid)[k],
        decreases HEADER - i,
    {
        let b: u8 = if i == 0 {
            OP_REQUEST
        } else if i == 1 {
            HTYPE_ETHERNET
        } else if i == 2 {
            HLEN_ETHERNET
        } else if i == 4 {
            (xid / 0x100_0000) as u8
        } else if i == 5 {
            (xid / 0x1_0000 % 256) as u8
        } else if i == 6 {
            (xid / 0x100 % 256) as u8
        } else if i == 7 {
            (xid % 256) as u8
        } else if i == 10 {
            0x80u8
        } else if 28 <= i && i < 34 {
            mac.0[i - 28]
        } else {
            0u8
        };
        m.push(b);
        i += 1;
    }
    let tail: [u8; 14] = [
        0x63,
        0x82,
        0x53,
        0x63,
        OPT_TYPE,
        1,
        DHCP_DISCOVER,
        OPT_PARAMS,
        4,
        OPT_SUBNET_MASK,
        OPT_ROUTER,
        OPT_DNS,
        OPT_DOMAIN,
        OPT_END,
    ];
    let ghost head = m@;
    let mut j: usize = 0;
    while j < 14
        invariant
            j <= 14,
            m@ == head + tail@.take(j as int),
        decreases 14 - j,
    {
        m.push(tail[j]);
        j += 1;
        assert(m@ =~= head + tail@.take(j as int));
    }
    proof {
        assert(tail@.take(14) =~= tail@);
        assert(m@ =~= spec_discover(mac, xid));
    }
    m
}

/// The options from `rest`: stopping at the end marker or at a length that
/// runs off the end of the buffer, and skipping padding, which carries no
/// length byte.
pub open spec fn spec_options(rest: Seq<u8>) -> Seq<(u8, Seq<u8>)>
    decreases rest.len(),
{
    if rest.len() == 0 {
        Seq::empty()
    } else {
        let code = rest[0];
        if code == OPT_END {
            Seq::empty()
        } else if code == 0 {
            spec_options(rest.drop_first())
        } else if rest.len() < 2 {
            Seq::empty()
        } else {
            let len = rest[1] as int;
            let tail = rest.skip(2);
            if tail.len() < len {
                Seq::empty()
            } else {
                seq![(code, tail.take(len))] + spec_options(tail.skip(len))
            }
        }
    }
}

pub open spec fn option_views(v: Seq<(u8, Vec<u8>)>) -> Seq<(u8, Seq<u8>)> {
    Seq::new(v.len(), |i: int| (v[i].0, v[i].1@))
}

/// Walk the option list.
fn options(bytes: &[u8]) -> (out: Vec<(u8, Vec<u8>)>)
    ensures
        option_views(out@) == spec_options(bytes@),
{
    let mut out: Vec<(u8, Vec<u8>)> = Vec::new();
    let mut at: usize = 0;
    let n = bytes.len();
    proof {
        assert(bytes@.skip(0) =~= bytes@);
        assert(option_views(out@) + spec_options(bytes@) =~= spec_options(bytes@));
    }
    while at < n
        invariant
            n == bytes@.len(),
            at <= n,
            option_views(out@) + spec_options(bytes@.skip(at as int)) == spec_options(bytes@),
        decreases n - at,
    {
        let ghost rest = bytes@.skip(at as int);
        let code = bytes[at];
        if code == OPT_END {
            proof {
                assert(option_views(out@) + Seq::<(u8, Seq<u8>)>::empty() =~= option_views(out@));
            }
            return out;
        }
        if code == 0 {
            proof {
                assert(rest.drop_first() =~= bytes@.skip(at + 1));
            }
            at += 1;
        } else {
            if n - at < 2 {
                proof {
                    assert(option_views(out@) + Seq::<(u8, Seq<u8>)>::empty() =~= option_views(
                        out@,
                    ));
                }
                return out;
            }
            let len = bytes[at + 1] as usize;
            if n - at - 2 < len {
                proof {
                    assert(rest.skip(2).len() < len);
                    assert(option_views(out@) + Seq::<(u8, Seq<u8>)>::empty() =~= option_views(
                        out@,
                    ));
                }
                return out;
            }
            let value = vstd::slice::slice_to_vec(
                vstd::slice::slice_subrange(bytes, at + 2, at + 2 + len),
            );
            let ghost before = option_views(out@);
            out.push((code, value));
            proof {
                assert(rest.skip(2).take(len as int) =~= value@);
                assert(rest.skip(2).skip(len as int) =~= bytes@.skip((at + 2 + len) as int));
                assert(option_views(out@) =~= before.push((code, value@)));
                assert(before + (seq![(code, value@)] + spec_options(
                    bytes@.skip((at + 2 + len) as int),
                )) =~= before.push((code, value@)) + spec_options(
                    bytes@.skip((at + 2 + len) as int),
                ));
            }
            at = at + 2 + len;
        }
    }
    proof {
        assert(bytes@.skip(at as int) =~= Seq::<u8>::empty());
        assert(option_views(out@) + Seq::<(u8, Seq<u8>)>::empty() =~= option_views(out@));
    }
    out
}

/// An address from the first four bytes of an option, where it has four.
pub open spec fn spec_ipv4(v: Seq<u8>) -> Option<Ipv4Addr> {
    if v.len() >= 4 {
        Some(Ipv4Addr([v[0], v[1], v[2], v[3]]))
    } else {
        None
    }
}

fn ipv4(v: &[u8]) -> (r: Option<Ipv4Addr>)
    ensures
        r == spec_ipv4(v@),
{
    if v.len() >= 4 {
        Some(Ipv4Addr([v[0], v[1], v[2], v[3]]))
    } else {
        None
    }
}

/// Every whole four-byte address in `v`, in order.
pub open spec fn spec_ipv4s(v: Seq<u8>) -> Seq<Ipv4Addr> {
    Seq::new(v.len() / 4, |i: int| Ipv4Addr([v[4 * i], v[4 * i + 1], v[4 * i + 2], v[4 * i + 3]]))
}

fn ipv4s(v: &[u8]) -> (r: Vec<Ipv4Addr>)
    ensures
        r@ == spec_ipv4s(v@),
{
    let mut r: Vec<Ipv4Addr> = Vec::new();
    let mut i: usize = 0;
    let len = v.len();
    let n = len / 4;
    assert(4 * n <= v@.len());
    while i < n
        invariant
            len == v@.len(),
            n == v@.len() / 4,
            4 * n <= v@.len(),
            i <= n,
            r@ == spec_ipv4s(v@).take(i as int),
        decreases n - i,
    {
        r.push(Ipv4Addr([v[4 * i], v[4 * i + 1], v[4 * i + 2], v[4 * i + 3]]));
        i += 1;
        assert(r@ =~= spec_ipv4s(v@).take(i as int));
    }
    assert(spec_ipv4s(v@).take(n as int) =~= spec_ipv4s(v@));
    r
}

/// The big-endian number in exactly four bytes.
pub open spec fn spec_lease(v: Seq<u8>) -> Option<Duration> {
    if v.len() == 4 {
        Some(duration_from_secs((v[0] * 0x100_0000 + v[1] * 0x1_0000 + v[2] * 0x100 + v[3]) as u64))
    } else {
        None
    }
}

/// The UTF-8 text of an option, where it is UTF-8.
pub open spec fn spec_text(v: Seq<u8>) -> Option<Seq<char>> {
    if valid_utf8(v) {
        Some(decode_utf8(v))
    } else {
        None
    }
}

/// What the options say, each read from the last option of its code.
pub struct Fields {
    pub kind: Option<u8>,
    pub server: Option<Ipv4Addr>,
    pub mask: Option<Ipv4Addr>,
    pub router: Option<Ipv4Addr>,
    pub dns: Seq<Ipv4Addr>,
    pub domain: Option<Seq<char>>,
    pub lease: Option<Duration>,
}

pub open spec fn no_fields() -> Fields {
    Fields {
        kind: None,
        server: None,
        mask: None,
        router: None,
        dns: Seq::empty(),
        domain: None,
        lease: None,
    }
}

/// One option read into the fields: a later option of a code replaces an
/// earlier one, and codes not read here change nothing.
pub open spec fn apply(f: Fields, code: u8, v: Seq<u8>) -> Fields {
    if code == OPT_TYPE {
        Fields {
            kind: if v.len() > 0 {
                Some(v[0])
            } else {
                None
            },
            ..f
        }
    } else if code == OPT_SERVER_ID {
        Fields { server: spec_ipv4(v), ..f }
    } else if code == OPT_SUBNET_MASK {
        Fields { mask: spec_ipv4(v), ..f }
    } else if code == OPT_ROUTER {
        Fields { router: spec_ipv4(v), ..f }
    } else if code == OPT_DNS {
        Fields { dns: spec_ipv4s(v), ..f }
    } else if code == OPT_DOMAIN {
        Fields { domain: spec_text(v), ..f }
    } else if code == OPT_LEASE {
        Fields { lease: spec_lease(v), ..f }
    } else {
        f
    }
}

pub open spec fn fields_of(opts: Seq<(u8, Seq<u8>)>) -> Fields
    decreases opts.len(),
{
    if opts.len() == 0 {
        no_fields()
    } else {
        let last = opts.last();
        apply(fields_of(opts.drop_last()), last.0, last.1)
    }
}

pub struct OfferView {
    pub server: Ipv4Addr,
    pub offered: Ipv4Addr,
    pub mask: Option<Ipv4Addr>,
    pub router: Option<Ipv4Addr>,
    pub dns: Seq<Ipv4Addr>,
    pub domain: Option<Seq<char>>,
    pub lease: Option<Duration>,
}

impl View for Offer {
    type V = OfferView;

    open spec fn view(&self) -> OfferView {
        OfferView {
            server: self.server,
            offered: self.offered,
            mask: self.mask,
            router: self.router,
            dns: self.dns@,
            domain: match self.domain {
                Some(d) => Some(d@),
                None => None,
            },
            lease: self.lease,
        }
    }
}

/// An OFFER for transaction `xid`: a BOOTP reply over Ethernet, the
/// transaction id, the magic cookie, message type 2 and a server identifier.
pub open spec fn spec_parse_offer(bytes: Seq<u8>, xid: u32) -> Option<OfferView> {
    if bytes.len() < HEADER + 4 {
        None
    } else if bytes[0] != OP_REPLY || bytes[1] != HTYPE_ETHERNET {
        None
    } else if bytes[4] * 0x100_0000 + bytes[5] * 0x1_0000 + bytes[6] * 0x100 + bytes[7] != xid {
        None
    } else if bytes.subrange(HEADER as int, HEADER + 4) != magic() {
        None
    } else {
        let f = fields_of(spec_options(bytes.skip(HEADER + 4)));
        if f.kind != Some(DHCP_OFFER) {
            None
        } else {
            match f.server {
                None => None,
                Some(server) => Some(
                    OfferView {
                        server,
                        offered: Ipv4Addr([bytes[16], bytes[17], bytes[18], bytes[19]]),
                        mask: f.mask,
                        router: f.router,
                        dns: f.dns,
                        domain: f.domain,
                        lease: f.lease,
                    },
                ),
            }
        }
    }
}

/// Read an OFFER, or `None` for anything that is not one of ours: a short
/// message, a missing cookie, a reply to somebody else's transaction, or an
/// offer from a server that does not identify itself.
pub fn parse_offer(bytes: &[u8], xid: u32) -> (r: Option<Offer>)
    ensures
        match r {
            Some(o) => spec_parse_offer(bytes@, xid) == Some(o@),
            None => spec_parse_offer(bytes@, xid) is None,
        },
{
    if bytes.len() < HEADER + 4 {
        return None;
    }
    if bytes[0] != OP_REPLY || bytes[1] != HTYPE_ETHERNET {
        return None;
    }
    let got = (bytes[4] as u32) * 0x100_0000 + (bytes[5] as u32) * 0x1_0000 + (bytes[6] as u32)
        * 0x100 + bytes[7] as u32;
    if got != xid {
        return None;
    }
    if !(bytes[HEADER] == 0x63 && bytes[HEADER + 1] == 0x82 && bytes[HEADER + 2] == 0x53
        && bytes[HEADER + 3] == 0x63) {
        proof {
            if bytes@.subrange(HEADER as int, HEADER + 4) == magic() {
                assert(bytes@.subrange(HEADER as int, HEADER + 4)[0] == 0x63);
                assert(bytes@.subrange(HEADER as int, HEADER + 4)[1] == 0x82);
                assert(bytes@.subrange(HEADER as int, HEADER + 4)[2] == 0x53);
                assert(bytes@.subrange(HEADER as int, HEADER + 4)[3] == 0x63);
            }
        }
        return None;
    }
    proof {
        assert(bytes@.subrange(HEADER as int, HEADER + 4) =~= magic());
    }
    let offered = Ipv4Addr([bytes[16], bytes[17], bytes[18], bytes[19]]);
    let rest = vstd::slice::slice_subrange(bytes, HEADER + 4, bytes.len());
    assert(rest@ =~= bytes@.skip(HEADER + 4));
    let opts = options(rest);
    let mut kind: Option<u8> = None;
    let mut server: Option<Ipv4Addr> = None;
    let mut mask: Option<Ipv4Addr> = None;
    let mut router: Option<Ipv4Addr> = None;
    let mut dns: Vec<Ipv4Addr> = Vec::new();
    let mut domain: Option<String> = None;
    let mut lease: Option<Duration> = None;
    let mut i: usize = 0;
    proof {
        assert(option_views(opts@).take(0) =~= Seq::<(u8, Seq<u8>)>::empty());
    }
    while i < opts.len()
        invariant
            i <= opts@.len(),
            ({
                let f = fields_of(option_views(opts@).take(i as int));
                &&& kind == f.kind
                &&& server == f.server
                &&& mask == f.mask
                &&& router == f.router
                &&& dns@ == f.dns
                &&& (match domain {
                    Some(d) => Some(d@),
                    None => None,
                }) == f.domain
                &&& lease == f.lease
            }),
        decreases opts@.len() - i,
    {
        let code = opts[i].0;
        let value = opts[i].1.as_slice();
        proof {
            assert(option_views(opts@).take(i + 1).drop_last() =~= option_views(opts@).take(
                i as int,
            ));
            assert(option_views(opts@).take(i + 1).last() == (code, value@));
        }
        if code == OPT_TYPE {
            kind = if value.len() > 0 { Some(value[0]) } else { None };
        } else if code == OPT_SERVER_ID {
            server = ipv4(value);
        } else if code == OPT_SUBNET_MASK {
            mask = ipv4(value);
        } else if code == OPT_ROUTER {
            router = ipv4(value);
        } else if code == OPT_DNS {
            dns = ipv4s(value);
        } else if code == OPT_DOMAIN {
            domain = utf8_name(value);
        } else if code == OPT_LEASE {
            lease = if value.len() == 4 {
                Some(
                    seconds(
                        ((value[0] as u32) * 0x100_0000 + (value[1] as u32) * 0x1_0000 + (
                        value[2] as u32) * 0x100 + value[3] as u32) as u64,
                    ),
                )
            } else {
                None
            };
        }
        i += 1;
    }
    proof {
        assert(option_views(opts@).take(opts@.len() as int) =~= option_views(opts@));
    }
    if kind != Some(DHCP_OFFER) {
        return None;
    }
    match server {
        None => None,
        Some(server) => Some(Offer { server, offered, mask, router, dns, domain, lease }),
    }
}

/// `s` with later repeats removed, first occurrences kept in order.
pub open spec fn dedup(s: Seq<Ipv4Addr>) -> Seq<Ipv4Addr>
    decreases s.len(),
{
    if s.len() == 0 {
        Seq::empty()
    } else {
        let d = dedup(s.drop_last());
        if d.contains(s.last()) {
            d
        } else {
            d.push(s.last())
        }
    }
}

/// Removing repeats keeps every server once: nothing is lost and nothing
/// is counted twice, so a server that answered twice is one server, and the
/// probe is contested exactly when two different servers answered.
pub proof fn lemma_servers_counted_once(s: Seq<Ipv4Addr>)
    ensures
        dedup(s).no_duplicates(),
        forall|x: Ipv4Addr| #[trigger] dedup(s).contains(x) <==> s.contains(x),
        dedup(s).len() > 1 <==> exists|i: int, j: int|
            0 <= i < s.len() && 0 <= j < s.len() && #[trigger] s[i] != #[trigger] s[j],
    decreases s.len(),
{
    if s.len() > 0 {
        let p = s.drop_last();
        lemma_servers_counted_once(p);
        let d = dedup(p);
        assert forall|x: Ipv4Addr| #[trigger] dedup(s).contains(x) <==> s.contains(x) by {
            if p.contains(x) {
                let w = choose|w: int| 0 <= w < p.len() && p[w] == x;
                assert(s[w] == x);
            }
            if s.contains(x) && x != s.last() {
                let w = choose|w: int| 0 <= w < s.len() && s[w] == x;
                assert(w < s.len() - 1);
                assert(p[w] == x);
            }
            if s.contains(x) && x == s.last() {
                assert(s[s.len() - 1] == x);
            }
            if !d.contains(s.last()) {
                if d.push(s.last()).contains(x) && x != s.last() {
                    let w = choose|w: int| 0 <= w < d.len() + 1 && d.push(s.last())[w] == x;
                    assert(d[w] == x);
                }
                if x == s.last() {
                    assert(d.push(s.last())[d.len() as int] == x);
                }
                if d.contains(x) {
                    let w = choose|w: int| 0 <= w < d.len() && d[w] == x;
                    assert(d.push(s.last())[w] == x);
                }
            }
        }
    }
    let ds = dedup(s);
    if ds.len() > 1 {
        assert(ds.contains(ds[0]) && ds.contains(ds[1]));
        assert(ds[0] != ds[1]);
        let i = choose|i: int| 0 <= i < s.len() && s[i] == ds[0];
        let j = choose|j: int| 0 <= j < s.len() && s[j] == ds[1];
        assert(s[i] != s[j]);
    }
    if exists|i: int, j: int| 0 <= i < s.len() && 0 <= j < s.len() && #[trigger] s[i] != #[trigger] s[j] {
        let (i, j) = choose|i: int, j: int| 0 <= i < s.len() && 0 <= j < s.len() && #[trigger] s[i] != #[trigger] s[j];
        assert(s.contains(s[i]) && s.contains(s[j]));
        assert(ds.contains(s[i]) && ds.contains(s[j]));
        let a = choose|a: int| 0 <= a < ds.len() && ds[a] == s[i];
        let b = choose|b: int| 0 <= b < ds.len() && ds[b] == s[j];
        assert(a != b);
    }
}

/// An offer is only ever taken for the transaction it answers: somebody
/// else's negotiation is not read as ours.
pub proof fn lemma_offer_is_for_our_transaction(bytes: Seq<u8>, xid: u32)
    ensures
        spec_parse_offer(bytes, xid) is Some ==> bytes.len() >= 8 && bytes[4] * 0x100_0000 + bytes[5]
            * 0x1_0000 + bytes[6] * 0x100 + bytes[7] == xid,
{
}

/// The DNS servers the fields hold come from the last DNS option alone.
proof fn lemma_fields_dns(opts: Seq<(u8, Seq<u8>)>, k: int)
    requires
        0 <= k < opts.len(),
        opts[k].0 == 6u8,
        forall|j: int| k < j < opts.len() ==> (#[trigger] opts[j]).0 != 6u8,
    ensures
        fields_of(opts).dns == spec_ipv4s(opts[k].1),
    decreases opts.len(),
{
    let d = opts.drop_last();
    if k < opts.len() - 1 {
        assert(opts.last() == opts[opts.len() - 1]);
        assert forall|j: int| k < j < d.len() implies (#[trigger] d[j]).0 != 6u8 by {
            assert(d[j] == opts[j]);
        }
        assert(d[k] == opts[k]);
        lemma_fields_dns(d, k);
    } else {
        assert(opts.last() == opts[k]);
    }
}

proof fn lemma_fields_no_dns(opts: Seq<(u8, Seq<u8>)>)
    requires
        forall|j: int| 0 <= j < opts.len() ==> (#[trigger] opts[j]).0 != 6u8,
    ensures
        fields_of(opts).dns.len() == 0,
    decreases opts.len(),
{
    if opts.len() > 0 {
        let d = opts.drop_last();
        assert forall|j: int| 0 <= j < d.len() implies (#[trigger] d[j]).0 != 6u8 by {
            assert(d[j] == opts[j]);
        }
        assert(opts.last() == opts[opts.len() - 1]);
        lemma_fields_no_dns(d);
    }
}

/// An offer names every DNS server its last DNS option (code 6) lists, in
/// order: one address for each whole group of four bytes, each address the
/// four bytes of its group.
pub proof fn lemma_offer_lists_every_dns_server(bytes: Seq<u8>, xid: u32, k: int)
    requires
        spec_parse_offer(bytes, xid) is Some,
        0 <= k < spec_options(bytes.skip(HEADER + 4)).len(),
        spec_options(bytes.skip(HEADER + 4))[k].0 == 6u8,
        forall|j: int|
            k < j < spec_options(bytes.skip(HEADER + 4)).len() ==> (#[trigger] spec_options(
                bytes.skip(HEADER + 4),
            )[j]).0 != 6u8,
    ensures
        ({
            let v = spec_options(bytes.skip(HEADER + 4))[k].1;
            let o = spec_parse_offer(bytes, xid)->0;
            &&& o.dns.len() == v.len() / 4
            &&& forall|i: int|
                0 <= i < o.dns.len() ==> #[trigger] o.dns[i] == Ipv4Addr(
                    [v[4 * i], v[4 * i + 1], v[4 * i + 2], v[4 * i + 3]],
                )
        }),
{
    lemma_fields_dns(spec_options(bytes.skip(HEADER + 4)), k);
}

/// An offer with no DNS option names no DNS server.
pub proof fn lemma_offer_without_dns_option(bytes: Seq<u8>, xid: u32)
    requires
        spec_parse_offer(bytes, xid) is Some,
        forall|j: int|
            0 <= j < spec_options(bytes.skip(HEADER + 4)).len() ==> (#[trigger] spec_options(
                bytes.skip(HEADER + 4),
            )[j]).0 != 6u8,
    ensures
        spec_parse_offer(bytes, xid)->0.dns.len() == 0,
{
    lemma_fields_no_dns(spec_options(bytes.skip(HEADER + 4)));
}

pub open spec fn byte_views(v: Seq<Vec<u8>>) -> Seq<Seq<u8>> {
    Seq::new(v.len(), |i: int| v[i]@)
}

pub open spec fn offer_views(v: Seq<Offer>) -> Seq<OfferView> {
    Seq::new(v.len(), |i: int| v[i]@)
}

/// The offers for `xid` among `replies`, in order.
pub open spec fn offers_of(replies: Seq<Seq<u8>>, xid: u32) -> Seq<OfferView>
    decreases replies.len(),
{
    if replies.len() == 0 {
        Seq::empty()
    } else {
        let before = offers_of(replies.drop_last(), xid);
        match spec_parse_offer(replies.last(), xid) {
            Some(o) => before.push(o),
            None => before,
        }
    }
}

pub open spec fn offer_servers(offers: Seq<Offer>) -> Seq<Ipv4Addr> {
    Seq::new(offers.len(), |i: int| offers[i].server)
}

/// The closing words of a refused probe.
pub open spec fn refused_advice() -> Seq<char> {
    ". On Linux this needs permission to use port 68; on Windows the DHCP Client service may already hold it."@
}

impl Probe {
    /// The probe made from the datagrams that came back: every one that is an
    /// offer for `xid`, in arrival order.
    pub fn from_replies(replies: &Vec<Vec<u8>>, xid: u32) -> (p: Probe)
        ensures
            p.not_done is None,
            offer_views(p.offers@) == offers_of(byte_views(replies@), xid),
    {
        let mut offers: Vec<Offer> = Vec::new();
        let mut i: usize = 0;
        while i < replies.len()
            invariant
                i <= replies@.len(),
                offer_views(offers@) == offers_of(byte_views(replies@).take(i as int), xid),
            decreases replies@.len() - i,
        {
            proof {
                assert(byte_views(replies@).take(i + 1).drop_last() =~= byte_views(replies@).take(
                    i as int,
                ));
                assert(byte_views(replies@).take(i + 1).last() == replies@[i as int]@);
            }
            let ghost before = offer_views(offers@);
            if let Some(o) = parse_offer(replies[i].as_slice(), xid) {
                offers.push(o);
                proof {
                    assert(offer_views(offers@) =~= before.push(o@));
                }
            }
            i += 1;
        }
        proof {
            assert(byte_views(replies@).take(replies@.len() as int) =~= byte_views(replies@));
        }
        Probe { offers, not_done: None }
    }

    /// The probe that could not be made, with the reason the exchange gave.
    pub fn refused(reason: &str) -> (p: Probe)
        ensures
            p.offers@.len() == 0,
            p.not_done matches Some(s) && s@ == "Could not ask for DHCP offers: "@ + reason@
                + refused_advice(),
    {
        let mut s = String::new();
        push_str(&mut s, "Could not ask for DHCP offers: ");
        push_str(&mut s, reason);
        push_str(
            &mut s,
            ". On Linux this needs permission to use port 68; on Windows the DHCP Client service may already hold it.",
        );
        Probe { offers: Vec::new(), not_done: Some(s) }
    }

    /// The distinct servers that offered, in the order they first answered.
    /// Counted by server identifier, so a server that answers twice, which is
    /// ordinary on a lossy link, is one server.
    pub fn servers(&self) -> (r: Vec<Ipv4Addr>)
        ensures
            r@ == dedup(offer_servers(self.offers@)),
    {
        let mut seen: Vec<Ipv4Addr> = Vec::new();
        let mut i: usize = 0;
        while i < self.offers.len()
            invariant
                i <= self.offers@.len(),
                seen@ == dedup(offer_servers(self.offers@).take(i as int)),
            decreases self.offers@.len() - i,
        {
            let s = self.offers[i].server;
            proof {
                assert(offer_servers(self.offers@).take(i + 1).drop_last() =~= offer_servers(
                    self.offers@,
                ).take(i as int));
            }
            let mut j: usize = 0;
            let mut found = false;
            while j < seen.len()
                invariant
                    j <= seen@.len(),
                    found <==> exists|k: int| 0 <= k < j && seen@[k] == s,
                decreases seen@.len() - j,
            {
                if seen[j].0[0] == s.0[0] && seen[j].0[1] == s.0[1] && seen[j].0[2] == s.0[2]
                    && seen[j].0[3] == s.0[3] {
                    assert(seen@[j as int].0 =~= s.0);
                    found = true;
                }
                j += 1;
            }
            if !found {
                seen.push(s);
            }
            i += 1;
        }
        proof {
            assert(offer_servers(self.offers@).take(self.offers@.len() as int) =~= offer_servers(
                self.offers@,
            ));
        }
        seen
    }

    /// True when more than one distinct server answered.
    pub fn is_contested(&self) -> (b: bool)
        ensures
            b == (dedup(offer_servers(self.offers@)).len() > 1),
    {
        self.servers().len() > 1
    }

    /// The sentence the interface shows: the reason a probe could not be
    /// made, or how many servers answered and which.
    pub fn verdict(&self) -> (s: String)
        ensures
            self.not_done matches Some(why) ==> s@ == why@,
            self.not_done is None ==> s@ == verdict_text(dedup(offer_servers(self.offers@))),
    {
        if let Some(why) = &self.not_done {
            return why.clone();
        }
        let servers = self.servers();
        let mut s = String::new();
        if servers.len() == 0 {
            push_str(&mut s, "No DHCP server answered.");
        } else if servers.len() == 1 {
            push_str(&mut s, "One DHCP server: ");
            let one = servers[0].to_string();
            push_str(&mut s, one.as_str());
            push_char(&mut s, '.');
        } else {
            push_decimal(&mut s, servers.len() as u64);
            push_str(&mut s, " DHCP servers answered: ");
            let mut i: usize = 0;
            let ghost head = s@;
            while i < servers.len()
                invariant
                    i <= servers@.len(),
                    s@ == head + joined(servers@.take(i as int)),
                decreases servers@.len() - i,
            {
                proof {
                    assert(servers@.take(i + 1).drop_last() =~= servers@.take(i as int));
                }
                if i > 0 {
                    push_str(&mut s, ", ");
                }
                let t = servers[i].to_string();
                push_str(&mut s, t.as_str());
                i += 1;
                proof {
                    assert(s@ =~= head + joined(servers@.take(i as int)));
                }
            }
            push_str(&mut s, ". Only one should.");
            proof {
                assert(servers@.take(servers@.len() as int) =~= servers@);
            }
        }
        s
    }
}

/// Addresses in dotted decimal, separated by a comma and a space.
pub open spec fn joined(a: Seq<Ipv4Addr>) -> Seq<char>
    decreases a.len(),
{
    if a.len() == 0 {
        Seq::empty()
    } else if a.len() == 1 {
        crate::addr::dotted(a[0].0)
    } else {
        joined(a.drop_last()) + ", "@ + crate::addr::dotted(a.last().0)
    }
}

/// The verdict over the distinct servers that answered.
pub open spec fn verdict_text(servers: Seq<Ipv4Addr>) -> Seq<char> {
    if servers.len() == 0 {
        "No DHCP server answered."@
    } else if servers.len() == 1 {
        "One DHCP server: "@ + crate::addr::dotted(servers[0].0) + seq!['.']
    } else {
        decimal(servers.len()) + " DHCP servers answered: "@ + joined(servers)
            + ". Only one should."@
    }
}

/// Sending a broadcast and collecting whatever answers: the whole platform
/// surface of the DHCP probe.
pub trait Broadcaster {
    /// Broadcast `payload` to the DHCP server port and gather replies for
    /// `window`: every datagram received, in arrival order, or why the
    /// broadcast could not be made.
    fn broadcast(&self, payload: &[u8], window: Duration) -> Result<Vec<Vec<u8>>, String>;
}

/// Asks the link who offers addresses. `xid` is the caller's: it is what
/// tells our replies from another client's. What comes back is the
/// transport's; the probe is the offers for `xid` among the replies, or the
/// reason nothing could be asked.
pub fn probe<B: Broadcaster>(transport: &B, mac: MacAddr, xid: u32, window: Duration) -> (p: Probe)
    ensures
        (exists|replies: Seq<Seq<u8>>|
            p.not_done is None && offer_views(p.offers@) == offers_of(replies, xid)) || (exists|
            reason: Seq<char>,
        |
            p.offers@.len() == 0 && p.not_done is Some && p.not_done->0@ == "Could not ask for DHCP offers: "@
                + reason + refused_advice()),
{
    let message = discover_message(mac, xid);
    match transport.broadcast(message.as_slice(), window) {
        Ok(replies) => Probe::from_replies(&replies, xid),
        Err(e) => Probe::refused(e.as_str()),
    }
}

} // verus!
