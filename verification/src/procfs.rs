//! Reading the text Linux publishes about its network.
//!
//! Every function takes the text and returns values; nothing here opens a
//! file, which is what lets the Linux answers be checked anywhere. Each
//! format has a trap:
//!
//! * **`/proc/net/route` is little-endian hex**, so `0101A8C0` is
//!   `192.168.1.1`, and the mask is a mask rather than a length.
//! * **`/proc/net/arp` reports incomplete entries** with flags `0x0`: probes
//!   nothing answered, which are not devices.
//! * **`/proc/net/ipv6_route` has no header line**, and its addresses are
//!   unpunctuated hex in network order.

use vstd::prelude::*;
use crate::addr::{ip_from_text, ipv4_from_text, IpAddr, Ipv4Addr, Ipv6Addr};
use crate::mac::{mac_from_text, MacAddr};
use crate::prefix::{spec_new, Prefix, PrefixView};
use crate::sysinfo::{Neighbour, NeighbourState, Route};
use crate::text::{
    bounded_from_text, chars_of, hex_from_text, lines, lines_of, parse_bounded, parse_hex,
    split, split_chars, string_of, strip_prefix, strip_prefix_of, trim, trimmed, views, words,
    words_of,
};

verus! {

/// The number of bits set in the low `n` bits of `x`.
pub open spec fn ones(x: nat, n: nat) -> nat
    decreases n,
{
    if n == 0 {
        0
    } else {
        ones(x / 2, (n - 1) as nat) + x % 2
    }
}

/// A contiguous netmask as a prefix length: the bits it sets, wherever
/// they are, which is the reading that survives a mask with holes in it.
pub fn mask_len_v4(mask: u32) -> (n: u8)
    ensures
        n == ones(mask as nat, 32),
{
    let mut v: u32 = mask;
    let mut count: u8 = 0;
    let mut i: u32 = 0;
    proof {
        vstd::arithmetic::power2::lemma2_to64();
    }
    while i < 32
        invariant
            i <= 32,
            count <= i,
            v as nat == (mask as nat) / vstd::arithmetic::power2::pow2(i as nat),
            count + ones(v as nat, (32 - i) as nat) == ones(mask as nat, 32),
        decreases 32 - i,
    {
        let bit = v % 2;
        proof {
            vstd::arithmetic::power2::lemma_pow2_adds(i as nat, 1);
            vstd::arithmetic::power2::lemma2_to64();
            vstd::arithmetic::power2::lemma_pow2_pos(i as nat);
            vstd::arithmetic::div_mod::lemma_div_denominator(
                mask as int,
                vstd::arithmetic::power2::pow2(i as nat) as int,
                2,
            );
        }
        count = count + (bit as u8);
        v = v / 2;
        i += 1;
    }
    count
}

/// The IPv4 address of a little-endian word: the low byte is the first
/// octet.
pub open spec fn le_address(w: u32) -> Ipv4Addr {
    Ipv4Addr([(w % 256) as u8, ((w / 256) % 256) as u8, ((w / 65536) % 256) as u8, (w / 16777216) as u8])
}

fn le_addr(w: u32) -> (a: Ipv4Addr)
    ensures
        a == le_address(w),
{
    Ipv4Addr([(w % 256) as u8, ((w / 256) % 256) as u8, ((w / 65536) % 256) as u8, (w / 16777216) as u8])
}

/// One line of `/proc/net/route`: the interface name and the route, where
/// the line is one and the route is up.
pub open spec fn route_v4_line(line: Seq<char>) -> Option<(Seq<char>, PrefixView, Option<IpAddr>, u32)> {
    let f = words(line);
    if f.len() < 11 {
        None
    } else {
        match (
            hex_from_text(f[1], u32::MAX as nat),
            hex_from_text(f[2], u32::MAX as nat),
            hex_from_text(f[3], u32::MAX as nat),
            bounded_from_text(f[6], u32::MAX as nat),
            hex_from_text(f[7], u32::MAX as nat),
        ) {
            (Some(dest), Some(gw), Some(flags), Some(metric), Some(mask)) => {
                if (flags as u32) & 1 == 0 {
                    None
                } else {
                    match spec_new(
                        IpAddr::V4(le_address(dest as u32)),
                        ones(mask, 32),
                    ) {
                        Err(_) => None,
                        Ok(p) => Some(
                            (
                                f[0],
                                p,
                                if (flags as u32) & 2 != 0 && gw != 0 {
                                    Some(IpAddr::V4(le_address(gw as u32)))
                                } else {
                                    None
                                },
                                metric as u32,
                            ),
                        ),
                    }
                }
            },
            _ => None,
        }
    }
}

/// What a list of routes says, with the names of their interfaces.
pub open spec fn named_routes(r: Seq<(String, Route)>) -> Seq<(Seq<char>, PrefixView, Option<IpAddr>, u32, u32)> {
    Seq::new(
        r.len(),
        |i: int|
            (r[i].0@, r[i].1.destination@, r[i].1.gateway, r[i].1.interface_index, r[i].1.metric),
    )
}

/// The routes a sequence of lines holds, in order.
pub open spec fn routes_of(ls: Seq<Seq<char>>, v6: bool) -> Seq<(Seq<char>, PrefixView, Option<IpAddr>, u32, u32)>
    decreases ls.len(),
{
    if ls.len() == 0 {
        Seq::empty()
    } else {
        let rest = routes_of(ls.drop_last(), v6);
        let r = if v6 {
            route_v6_line(ls.last())
        } else {
            route_v4_line(ls.last())
        };
        match r {
            Some((name, p, gw, metric)) => rest.push((name, p, gw, 0u32, metric)),
            None => rest,
        }
    }
}

fn word_u32_hex(w: &Vec<char>) -> (r: Option<u32>)
    ensures
        match hex_from_text(w@, u32::MAX as nat) {
            Some(n) => r == Some(n as u32),
            None => r is None,
        },
{
    match parse_hex(w.as_slice(), 0xffff_ffff) {
        Some(x) => Some(x as u32),
        None => None,
    }
}

fn word_u32_dec(w: &Vec<char>) -> (r: Option<u32>)
    ensures
        match bounded_from_text(w@, u32::MAX as nat) {
            Some(n) => r == Some(n as u32),
            None => r is None,
        },
{
    match parse_bounded(w.as_slice(), 0xffff_ffff) {
        Some(x) => Some(x as u32),
        None => None,
    }
}

fn route_v4(line: &Vec<char>) -> (r: Option<(String, Route)>)
    ensures
        match route_v4_line(line@) {
            Some((name, p, gw, metric)) => r is Some && (r->0).0@ == name && (r->0).1.destination@ == p
                && (r->0).1.gateway == gw && (r->0).1.interface_index == 0 && (r->0).1.metric == metric,
            None => r is None,
        },
{
    let f = words_of(line.as_slice());
    if f.len() < 11 {
        return None;
    }
    proof {
        assert(views(f@)[1] == f@[1]@);
        assert(views(f@)[2] == f@[2]@);
        assert(views(f@)[3] == f@[3]@);
        assert(views(f@)[6] == f@[6]@);
        assert(views(f@)[7] == f@[7]@);
        assert(views(f@)[0] == f@[0]@);
    }
    let dest = word_u32_hex(&f[1]);
    let gw = word_u32_hex(&f[2]);
    let flags = word_u32_hex(&f[3]);
    let metric = word_u32_dec(&f[6]);
    let mask = word_u32_hex(&f[7]);
    match (dest, gw, flags, metric, mask) {
        (Some(dest), Some(gw), Some(flags), Some(metric), Some(mask)) => {
            if flags & 1 == 0 {
                return None;
            }
            let prefix = match Prefix::new(IpAddr::V4(le_addr(dest)), mask_len_v4(mask)) {
                Ok(p) => p,
                Err(_) => return None,
            };
            let gateway = if flags & 2 != 0 && gw != 0 {
                Some(IpAddr::V4(le_addr(gw)))
            } else {
                None
            };
            Some(
                (
                    string_of(f[0].as_slice()),
                    Route { destination: prefix, gateway, interface_index: 0, metric },
                ),
            )
        },
        _ => None,
    }
}

/// The lines after the first.
pub open spec fn after_header(ls: Seq<Seq<char>>) -> Seq<Seq<char>> {
    if ls.len() == 0 {
        ls
    } else {
        ls.skip(1)
    }
}

/// Parses `/proc/net/route`: the routes that are up, each with the name of
/// its interface, the header line skipped.
pub fn routes_v4(text: &str) -> (r: Vec<(String, Route)>)
    ensures
        named_routes(r@) == routes_of(after_header(lines(text@)), false),
{
    let ls = lines_of(chars_of(text).as_slice());
    let ghost body = after_header(lines(text@));
    let mut out: Vec<(String, Route)> = Vec::new();
    let mut i: usize = 1;
    proof {
        assert(body.take(0) =~= Seq::<Seq<char>>::empty());
        assert(named_routes(out@) =~= Seq::empty());
    }
    if ls.len() == 0 {
        proof {
            assert(body =~= Seq::<Seq<char>>::empty());
        }
        return out;
    }
    while i < ls.len()
        invariant
            1 <= i <= ls@.len(),
            views(ls@) == lines(text@),
            body == after_header(lines(text@)),
            named_routes(out@) == routes_of(body.take(i - 1), false),
        decreases ls@.len() - i,
    {
        proof {
            assert(body.take(i as int).drop_last() =~= body.take(i - 1));
            assert(body.take(i as int).last() == ls@[i as int]@);
        }
        match route_v4(&ls[i]) {
            Some(x) => {
                let ghost before = named_routes(out@);
                out.push(x);
                proof {
                    assert(named_routes(out@) =~= before.push(named_routes(out@).last()));
                }
            },
            None => {},
        }
        i += 1;
    }
    proof {
        assert(body.take(ls@.len() - 1) =~= body);
    }
    out
}

/// Sixteen octets written as 32 hex digits, in network order.
pub open spec fn hex_v6_text(s: Seq<char>) -> Option<Ipv6Addr> {
    if s.len() == 32 && (forall|i: int| 0 <= i < 32 ==> (#[trigger] s[i] as u32) < 128) && (forall|
        k: int,
    | 0 <= k < 16 ==> #[trigger] hex_from_text(s.subrange(2 * k, 2 * k + 2), 255) is Some) {
        Some(
            Ipv6Addr(
                [
                    pair(s, 0),
                    pair(s, 1),
                    pair(s, 2),
                    pair(s, 3),
                    pair(s, 4),
                    pair(s, 5),
                    pair(s, 6),
                    pair(s, 7),
                    pair(s, 8),
                    pair(s, 9),
                    pair(s, 10),
                    pair(s, 11),
                    pair(s, 12),
                    pair(s, 13),
                    pair(s, 14),
                    pair(s, 15),
                ],
            ),
        )
    } else {
        None
    }
}

pub open spec fn pair(s: Seq<char>, k: int) -> u8 {
    hex_from_text(s.subrange(2 * k, 2 * k + 2), 255)->0 as u8
}

/// Reads 32 hex digits as an IPv6 address.
pub fn hex_v6(s: &Vec<char>) -> (r: Option<Ipv6Addr>)
    ensures
        r == hex_v6_text(s@),
{
    if s.len() != 32 {
        return None;
    }
    let mut j: usize = 0;
    while j < 32
        invariant
            j <= 32,
            s@.len() == 32,
            forall|i: int| 0 <= i < j ==> (#[trigger] s@[i] as u32) < 128,
        decreases 32 - j,
    {
        if (s[j] as u32) >= 128 {
            return None;
        }
        j += 1;
    }
    let mut o: [u8; 16] = [0u8; 16];
    let mut k: usize = 0;
    while k < 16
        invariant
            k <= 16,
            s@.len() == 32,
            forall|t: int| 0 <= t < k ==> #[trigger] hex_from_text(s@.subrange(2 * t, 2 * t + 2), 255) is Some && o[t] == pair(s@, t),
        decreases 16 - k,
    {
        let piece = vstd::slice::slice_subrange(s.as_slice(), 2 * k, 2 * k + 2);
        match parse_hex(piece, 255) {
            Some(x) => {
                o[k] = x as u8;
            },
            None => {
                return None;
            },
        }
        k += 1;
    }
    let a = Ipv6Addr(o);
    proof {
        let want = hex_v6_text(s@)->0;
        assert(a.0 =~= want.0);
    }
    Some(a)
}

/// One line of `/proc/net/ipv6_route`.
pub open spec fn route_v6_line(line: Seq<char>) -> Option<(Seq<char>, PrefixView, Option<IpAddr>, u32)> {
    let f = words(line);
    if f.len() < 10 {
        None
    } else {
        match (
            hex_v6_text(f[0]),
            hex_from_text(f[1], 255),
            hex_v6_text(f[4]),
            hex_from_text(f[5], u32::MAX as nat),
        ) {
            (Some(dest), Some(len), Some(hop), Some(metric)) => match spec_new(
                IpAddr::V6(dest),
                len,
            ) {
                Err(_) => None,
                Ok(p) => Some(
                    (
                        f[9],
                        p,
                        if forall|i: int| 0 <= i < 16 ==> #[trigger] hop.0[i] == 0 {
                            None
                        } else {
                            Some(IpAddr::V6(hop))
                        },
                        metric as u32,
                    ),
                ),
            },
            _ => None,
        }
    }
}

fn route_v6(line: &Vec<char>) -> (r: Option<(String, Route)>)
    ensures
        match route_v6_line(line@) {
            Some((name, p, gw, metric)) => r is Some && (r->0).0@ == name && (r->0).1.destination@ == p
                && (r->0).1.gateway == gw && (r->0).1.interface_index == 0 && (r->0).1.metric == metric,
            None => r is None,
        },
{
    let f = words_of(line.as_slice());
    if f.len() < 10 {
        return None;
    }
    proof {
        assert(views(f@)[0] == f@[0]@);
        assert(views(f@)[1] == f@[1]@);
        assert(views(f@)[4] == f@[4]@);
        assert(views(f@)[5] == f@[5]@);
        assert(views(f@)[9] == f@[9]@);
    }
    let dest = hex_v6(&f[0]);
    let len = parse_hex(f[1].as_slice(), 255);
    let hop = hex_v6(&f[4]);
    let metric = word_u32_hex(&f[5]);
    match (dest, len, hop, metric) {
        (Some(dest), Some(len), Some(hop), Some(metric)) => {
            let prefix = match Prefix::new(IpAddr::V6(dest), len as u8) {
                Ok(p) => p,
                Err(_) => return None,
            };
            let gateway = if hop.is_unspecified() {
                None
            } else {
                Some(IpAddr::V6(hop))
            };
            Some(
                (
                    string_of(f[9].as_slice()),
                    Route { destination: prefix, gateway, interface_index: 0, metric },
                ),
            )
        },
        _ => None,
    }
}

/// Parses `/proc/net/ipv6_route`, which has no header line.
pub fn routes_v6(text: &str) -> (r: Vec<(String, Route)>)
    ensures
        named_routes(r@) == routes_of(lines(text@), true),
{
    let ls = lines_of(chars_of(text).as_slice());
    let ghost all = lines(text@);
    let mut out: Vec<(String, Route)> = Vec::new();
    let mut i: usize = 0;
    proof {
        assert(named_routes(out@) =~= Seq::empty());
    }
    while i < ls.len()
        invariant
            i <= ls@.len(),
            views(ls@) == all,
            all == lines(text@),
            named_routes(out@) == routes_of(all.take(i as int), true),
        decreases ls@.len() - i,
    {
        proof {
            assert(all.take(i + 1).drop_last() =~= all.take(i as int));
            assert(all.take(i + 1).last() == ls@[i as int]@);
        }
        match route_v6(&ls[i]) {
            Some(x) => {
                let ghost before = named_routes(out@);
                out.push(x);
                proof {
                    assert(named_routes(out@) =~= before.push(named_routes(out@).last()));
                }
            },
            None => {},
        }
        i += 1;
    }
    proof {
        assert(all.take(ls@.len() as int) =~= all);
    }
    out
}

/// `s` with every leading `p` removed, as `str::trim_start_matches` does.
pub open spec fn trim_start_matches(s: Seq<char>, p: Seq<char>) -> Seq<char>
    decreases s.len(),
{
    if p.len() > 0 && crate::text::starts_with(s, p) {
        trim_start_matches(s.skip(p.len() as int), p)
    } else {
        s
    }
}

fn trim_start_of(v: &Vec<char>, p: &str) -> (r: Vec<char>)
    ensures
        r@ == trim_start_matches(v@, p@),
{
    let pc = chars_of(p);
    let mut cur: Vec<char> = Vec::new();
    let mut i: usize = 0;
    while i < v.len()
        invariant
            i <= v@.len(),
            cur@ == v@.take(i as int),
        decreases v@.len() - i,
    {
        cur.push(v[i]);
        proof {
            assert(cur@ =~= v@.take(i + 1));
        }
        i += 1;
    }
    proof {
        assert(cur@ =~= v@);
    }
    if pc.len() == 0 {
        return cur;
    }
    loop
        invariant
            pc@ == p@,
            pc@.len() > 0,
            trim_start_matches(cur@, p@) == trim_start_matches(v@, p@),
        decreases cur@.len(),
    {
        match strip_prefix_of(cur.as_slice(), p) {
            Some(rest) => {
                cur = rest;
            },
            None => {
                return cur;
            },
        }
    }
}

/// What a neighbour table line says: the address, the flags, the hardware
/// address, and the device the entry is on. `ATF_PERM` (0x04) is a static
/// entry, `ATF_COM` (0x02) a completed one; anything else is a probe that
/// went unanswered.
pub open spec fn neighbour_line(line: Seq<char>) -> Option<(Seq<char>, Neighbour)> {
    let f = words(line);
    if f.len() < 6 {
        None
    } else {
        match (
            ipv4_from_text(f[0]),
            hex_from_text(trim_start_matches(f[2], "0x"@), u32::MAX as nat),
            mac_from_text(f[3]),
        ) {
            (Some(a), Some(flags), Some(mac)) => Some(
                (
                    f[5],
                    Neighbour {
                        address: IpAddr::V4(a),
                        mac,
                        interface_index: 0,
                        state: if (flags as u32) & 4 != 0 {
                            NeighbourState::Static
                        } else if (flags as u32) & 2 != 0 {
                            NeighbourState::Reachable
                        } else {
                            NeighbourState::Incomplete
                        },
                    },
                ),
            ),
            _ => None,
        }
    }
}

pub open spec fn neighbours_of(ls: Seq<Seq<char>>) -> Seq<(Seq<char>, Neighbour)>
    decreases ls.len(),
{
    if ls.len() == 0 {
        Seq::empty()
    } else {
        match neighbour_line(ls.last()) {
            Some(n) => neighbours_of(ls.drop_last()).push(n),
            None => neighbours_of(ls.drop_last()),
        }
    }
}

pub open spec fn named_neighbours(r: Seq<(String, Neighbour)>) -> Seq<(Seq<char>, Neighbour)> {
    Seq::new(r.len(), |i: int| (r[i].0@, r[i].1))
}

fn neighbour(line: &Vec<char>) -> (r: Option<(String, Neighbour)>)
    ensures
        match neighbour_line(line@) {
            Some((name, n)) => r is Some && (r->0).0@ == name && (r->0).1 == n,
            None => r is None,
        },
{
    let f = words_of(line.as_slice());
    if f.len() < 6 {
        return None;
    }
    proof {
        assert(views(f@)[0] == f@[0]@);
        assert(views(f@)[2] == f@[2]@);
        assert(views(f@)[3] == f@[3]@);
        assert(views(f@)[5] == f@[5]@);
    }
    let address = Ipv4Addr::parse(string_of(f[0].as_slice()).as_str());
    let flags = word_u32_hex(&trim_start_of(&f[2], "0x"));
    let mac = MacAddr::parse(string_of(f[3].as_slice()).as_str());
    match (address, flags, mac) {
        (Some(a), Some(flags), Ok(mac)) => {
            let state = if flags & 4 != 0 {
                NeighbourState::Static
            } else if flags & 2 != 0 {
                NeighbourState::Reachable
            } else {
                NeighbourState::Incomplete
            };
            Some(
                (
                    string_of(f[5].as_slice()),
                    Neighbour { address: IpAddr::V4(a), mac, interface_index: 0, state },
                ),
            )
        },
        _ => None,
    }
}

/// `/proc/net/arp`, the header line skipped. Incomplete entries are kept
/// and marked as such.
pub fn neighbours_v4(text: &str) -> (r: Vec<(String, Neighbour)>)
    ensures
        named_neighbours(r@) == neighbours_of(after_header(lines(text@))),
{
    let ls = lines_of(chars_of(text).as_slice());
    let ghost body = after_header(lines(text@));
    let mut out: Vec<(String, Neighbour)> = Vec::new();
    proof {
        assert(named_neighbours(out@) =~= Seq::empty());
    }
    if ls.len() == 0 {
        return out;
    }
    let mut i: usize = 1;
    proof {
        assert(body.take(0) =~= Seq::<Seq<char>>::empty());
    }
    while i < ls.len()
        invariant
            1 <= i <= ls@.len(),
            views(ls@) == lines(text@),
            body == after_header(lines(text@)),
            named_neighbours(out@) == neighbours_of(body.take(i - 1)),
        decreases ls@.len() - i,
    {
        proof {
            assert(body.take(i as int).drop_last() =~= body.take(i - 1));
            assert(body.take(i as int).last() == ls@[i as int]@);
        }
        match neighbour(&ls[i]) {
            Some(x) => {
                let ghost before = named_neighbours(out@);
                out.push(x);
                proof {
                    assert(named_neighbours(out@) =~= before.push(named_neighbours(out@).last()));
                }
            },
            None => {},
        }
        i += 1;
    }
    proof {
        assert(body.take(ls@.len() - 1) =~= body);
    }
    out
}

/// The resolver a `resolv.conf` line names, if any: the comment cut off,
/// the line trimmed, `nameserver` and then the first word, less any scope
/// suffix after `%`.
pub open spec fn resolver_line(line: Seq<char>) -> Option<IpAddr> {
    let l = trim(split(line, '#')[0]);
    match strip_prefix(l, "nameserver"@) {
        None => None,
        Some(rest) => {
            let w = words(rest);
            let word = if w.len() > 0 {
                w[0]
            } else {
                Seq::empty()
            };
            ip_from_text(split(word, '%')[0])
        },
    }
}

/// The resolvers a sequence of lines names, each once, in order.
pub open spec fn resolvers_of(ls: Seq<Seq<char>>) -> Seq<IpAddr>
    decreases ls.len(),
{
    if ls.len() == 0 {
        Seq::empty()
    } else {
        let acc = resolvers_of(ls.drop_last());
        match resolver_line(ls.last()) {
            Some(a) => if acc.contains(a) {
                acc
            } else {
                acc.push(a)
            },
            None => acc,
        }
    }
}

fn resolver(line: &Vec<char>) -> (r: Option<IpAddr>)
    ensures
        r == resolver_line(line@),
{
    let pieces = split_chars(line.as_slice(), '#');
    proof {
        crate::text::lemma_split_nonempty(line@, '#');
        assert(views(pieces@)[0] == pieces@[0]@);
    }
    let l = trimmed(pieces[0].as_slice());
    let rest = match strip_prefix_of(l.as_slice(), "nameserver") {
        Some(r) => r,
        None => return None,
    };
    let w = words_of(rest.as_slice());
    let word: Vec<char> = if w.len() > 0 {
        proof {
            assert(views(w@)[0] == w@[0]@);
        }
        let mut c: Vec<char> = Vec::new();
        let mut k: usize = 0;
        while k < w[0].len()
            invariant
                w@.len() > 0,
                k <= w@[0]@.len(),
                c@ == w@[0]@.take(k as int),
            decreases w@[0]@.len() - k,
        {
            c.push(w[0][k]);
            proof {
                assert(c@ =~= w@[0]@.take(k + 1));
            }
            k += 1;
        }
        proof {
            assert(c@ =~= w@[0]@);
        }
        c
    } else {
        Vec::new()
    };
    let scoped = split_chars(word.as_slice(), '%');
    proof {
        crate::text::lemma_split_nonempty(word@, '%');
        assert(views(scoped@)[0] == scoped@[0]@);
    }
    IpAddr::parse(string_of(scoped[0].as_slice()).as_str())
}

fn contains_ip(v: &Vec<IpAddr>, x: &IpAddr) -> (b: bool)
    ensures
        b == v@.contains(*x),
{
    let mut i: usize = 0;
    while i < v.len()
        invariant
            i <= v@.len(),
            forall|j: int| 0 <= j < i ==> v@[j] != *x,
        decreases v@.len() - i,
    {
        if v[i].same(x) {
            assert(v@[i as int] == *x);
            return true;
        }
        i += 1;
    }
    false
}

/// `/etc/resolv.conf`, or what `resolvectl` writes into it. The stub
/// resolver is kept: it is genuinely the resolver the machine uses.
pub fn resolvers(text: &str) -> (r: Vec<IpAddr>)
    ensures
        r@ == resolvers_of(lines(text@)),
{
    let ls = lines_of(chars_of(text).as_slice());
    let ghost all = lines(text@);
    let mut out: Vec<IpAddr> = Vec::new();
    let mut i: usize = 0;
    while i < ls.len()
        invariant
            i <= ls@.len(),
            views(ls@) == all,
            all == lines(text@),
            out@ == resolvers_of(all.take(i as int)),
        decreases ls@.len() - i,
    {
        proof {
            assert(all.take(i + 1).drop_last() =~= all.take(i as int));
            assert(all.take(i + 1).last() == ls@[i as int]@);
        }
        if let Some(a) = resolver(&ls[i]) {
            if !contains_ip(&out, &a) {
                out.push(a);
            }
        }
        i += 1;
    }
    proof {
        assert(all.take(ls@.len() as int) =~= all);
    }
    out
}

/// The server a lease line names: `SERVER_ADDRESS=` after trimming, then
/// an address after trimming again.
pub open spec fn lease_line(line: Seq<char>) -> Option<IpAddr> {
    match strip_prefix(trim(line), "SERVER_ADDRESS="@) {
        Some(v) => ip_from_text(trim(v)),
        None => None,
    }
}

pub open spec fn lease_at(ls: Seq<Seq<char>>) -> spec_fn(int) -> bool {
    |i: int| lease_line(ls[i]) is Some
}

/// The DHCP server of a `systemd-networkd` lease file: the first line that
/// names one.
pub open spec fn spec_lease_server(text: Seq<char>) -> Option<IpAddr> {
    let ls = lines(text);
    match crate::search::first_index(ls.len() as int, lease_at(ls)) {
        Some(i) => lease_line(ls[i]),
        None => None,
    }
}

fn lease(line: &Vec<char>) -> (r: Option<IpAddr>)
    ensures
        r == lease_line(line@),
{
    let t = trimmed(line.as_slice());
    match strip_prefix_of(t.as_slice(), "SERVER_ADDRESS=") {
        Some(v) => {
            let w = trimmed(v.as_slice());
            IpAddr::parse(string_of(w.as_slice()).as_str())
        },
        None => None,
    }
}

/// The DHCP server the current lease came from, where the file says.
pub fn lease_server(text: &str) -> (r: Option<IpAddr>)
    ensures
        r == spec_lease_server(text@),
{
    let ls = lines_of(chars_of(text).as_slice());
    let ghost all = lines(text@);
    let ghost p = lease_at(all);
    let mut i: usize = 0;
    while i < ls.len()
        invariant
            i <= ls@.len(),
            views(ls@) == all,
            all == lines(text@),
            p == lease_at(all),
            forall|j: int| 0 <= j < i ==> !#[trigger] p(j),
        decreases ls@.len() - i,
    {
        proof {
            assert(views(ls@)[i as int] == ls@[i as int]@);
        }
        if let Some(a) = lease(&ls[i]) {
            proof {
                crate::search::lemma_first_index_at(all.len() as int, p, i as int);
            }
            return Some(a);
        }
        i += 1;
    }
    proof {
        crate::search::lemma_first_index_none(all.len() as int, p);
    }
    None
}

} // verus!
