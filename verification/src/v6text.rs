//! IPv6 addresses as text, written and read the way the standard library
//! writes and reads them.
//!
//! Written: eight groups of lower-case hex with no leading zeros, the first
//! longest run of two or more zero groups folded into `::`, and an
//! IPv4-mapped address spelled `::ffff:a.b.c.d`. Read: one to four hex digits
//! a group, at most one `::` standing for at least one zero group, and a
//! dotted quad allowed in the last two groups.

use vstd::prelude::*;
use crate::addr::{digits_value, dotted, is_digit, Ipv4Addr, Ipv6Addr};
use crate::text::{decimal, hex_char, hex_digit, push_char, push_decimal};

verus! {

/// Group `i` of the address, most significant first.
pub open spec fn segment(o: [u8; 16], i: int) -> u16 {
    ((o[2 * i] as int) * 256 + (o[2 * i + 1] as int)) as u16
}

pub open spec fn segments(o: [u8; 16]) -> Seq<u16> {
    Seq::new(8, |i: int| segment(o, i))
}

/// `n` in lower-case hexadecimal, with no leading zeros.
pub open spec fn hex_text(n: nat) -> Seq<char>
    decreases n,
{
    if n < 16 {
        seq![hex_char(n as int)]
    } else {
        hex_text(n / 16).push(hex_char((n % 16) as int))
    }
}

/// Groups in hex, separated by `:`.
pub open spec fn joined(s: Seq<u16>) -> Seq<char>
    decreases s.len(),
{
    if s.len() == 0 {
        Seq::empty()
    } else if s.len() == 1 {
        hex_text(s[0] as nat)
    } else {
        joined(s.drop_last()) + seq![':'] + hex_text(s.last() as nat)
    }
}

/// Walking the groups in order: the zero run in progress and the longest one
/// seen, each as `(start, length)`. A later run replaces the longest only if
/// it is strictly longer, so of equal runs the first is kept.
pub open spec fn zero_scan(s: Seq<u16>) -> (int, int, int, int)
    decreases s.len(),
{
    if s.len() == 0 {
        (0, 0, 0, 0)
    } else {
        let (cs, cl, bs, bl) = zero_scan(s.drop_last());
        let i = s.len() - 1;
        if s.last() == 0 {
            let ncs = if cl == 0 {
                i
            } else {
                cs
            };
            if cl + 1 > bl {
                (ncs, cl + 1, ncs, cl + 1)
            } else {
                (ncs, cl + 1, bs, bl)
            }
        } else {
            (0, 0, bs, bl)
        }
    }
}

proof fn lemma_zero_scan(s: Seq<u16>)
    ensures
        ({
            let (cs, cl, bs, bl) = zero_scan(s);
            &&& 0 <= cl <= s.len()
            &&& cl > 0 ==> 0 <= cs && cs + cl == s.len()
            &&& 0 <= bl
            &&& 0 <= bs
            &&& bs + bl <= s.len()
        }),
    decreases s.len(),
{
    if s.len() > 0 {
        lemma_zero_scan(s.drop_last());
    }
}

/// `::ffff:a.b.c.d`: an IPv4 address carried in IPv6.
pub open spec fn is_mapped(o: [u8; 16]) -> bool {
    &&& forall|i: int| 0 <= i < 10 ==> #[trigger] o[i] == 0
    &&& o[10] == 255
    &&& o[11] == 255
}

/// The text of an IPv6 address.
pub open spec fn ipv6_text(o: [u8; 16]) -> Seq<char> {
    if is_mapped(o) {
        seq![':', ':', 'f', 'f', 'f', 'f', ':'] + dotted([o[12], o[13], o[14], o[15]])
    } else {
        let g = segments(o);
        let (_, _, bs, bl) = zero_scan(g);
        if bl > 1 {
            joined(g.take(bs)) + seq![':', ':'] + joined(g.skip(bs + bl))
        } else {
            joined(g)
        }
    }
}

/// Appends `n` in lower-case hex.
fn push_hex(s: &mut String, n: u16)
    ensures
        final(s)@ == old(s)@ + hex_text(n as nat),
    decreases n,
{
    if n >= 16 {
        push_hex(s, n / 16);
    }
    push_char(s, hex_digit((n % 16) as u8));
    proof {
        assert(final(s)@ =~= old(s)@ + hex_text(n as nat));
    }
}

/// Appends groups `lo..hi` of `g`, separated by `:`.
fn push_joined(s: &mut String, g: &[u16; 8], lo: usize, hi: usize)
    requires
        lo <= hi <= 8,
    ensures
        final(s)@ == old(s)@ + joined(g@.subrange(lo as int, hi as int)),
{
    let ghost s0 = s@;
    let mut i: usize = lo;
    while i < hi
        invariant
            lo <= i <= hi <= 8,
            s@ == s0 + joined(g@.subrange(lo as int, i as int)),
        decreases hi - i,
    {
        let ghost before = g@.subrange(lo as int, i as int);
        proof {
            assert(g@.subrange(lo as int, i + 1).drop_last() =~= before);
        }
        if i > lo {
            push_char(s, ':');
        }
        push_hex(s, g[i]);
        proof {
            if i > lo {
                assert(s@ =~= s0 + joined(g@.subrange(lo as int, i + 1)));
            } else {
                assert(before.len() == 0);
                assert(s@ =~= s0 + joined(g@.subrange(lo as int, i + 1)));
            }
        }
        i += 1;
    }
}

/// Writes an IPv6 address.
pub fn ipv6_to_string(a: &Ipv6Addr) -> (s: String)
    ensures
        s@ == ipv6_text(a.0),
{
    let o = a.0;
    let mut s = String::new();
    let mut mapped = o[10] == 255 && o[11] == 255;
    let mut k: usize = 0;
    while k < 10
        invariant
            k <= 10,
            o == a.0,
            mapped == (o[10] == 255 && o[11] == 255 && forall|j: int|
                0 <= j < k ==> #[trigger] o[j] == 0),
        decreases 10 - k,
    {
        if o[k] != 0 {
            mapped = false;
        }
        k += 1;
    }
    if mapped {
        push_char(&mut s, ':');
        push_char(&mut s, ':');
        push_char(&mut s, 'f');
        push_char(&mut s, 'f');
        push_char(&mut s, 'f');
        push_char(&mut s, 'f');
        push_char(&mut s, ':');
        push_decimal(&mut s, o[12] as u64);
        push_char(&mut s, '.');
        push_decimal(&mut s, o[13] as u64);
        push_char(&mut s, '.');
        push_decimal(&mut s, o[14] as u64);
        push_char(&mut s, '.');
        push_decimal(&mut s, o[15] as u64);
        proof {
            assert(s@ =~= ipv6_text(a.0));
        }
        return s;
    }
    let mut g: [u16; 8] = [0u16; 8];
    let mut i: usize = 0;
    while i < 8
        invariant
            i <= 8,
            o == a.0,
            forall|j: int| 0 <= j < i ==> #[trigger] g[j] == segment(o, j),
        decreases 8 - i,
    {
        g.set(i, (o[2 * i] as u16) * 256 + (o[2 * i + 1] as u16));
        i += 1;
    }
    let ghost segs = segments(o);
    assert(g@ =~= segs);
    let mut cs: usize = 0;
    let mut cl: usize = 0;
    let mut bs: usize = 0;
    let mut bl: usize = 0;
    let mut j: usize = 0;
    while j < 8
        invariant
            j <= 8,
            g@ == segs,
            (cs as int, cl as int, bs as int, bl as int) == zero_scan(segs.take(j as int)),
            cl <= j,
            bs + bl <= j,
        decreases 8 - j,
    {
        proof {
            assert(segs.take(j + 1).drop_last() =~= segs.take(j as int));
            lemma_zero_scan(segs.take(j as int));
            lemma_zero_scan(segs.take(j + 1));
        }
        if g[j] == 0 {
            if cl == 0 {
                cs = j;
            }
            cl = cl + 1;
            if cl > bl {
                bs = cs;
                bl = cl;
            }
        } else {
            cs = 0;
            cl = 0;
        }
        j += 1;
    }
    proof {
        assert(segs.take(8) =~= segs);
    }
    if bl > 1 {
        push_joined(&mut s, &g, 0, bs);
        push_char(&mut s, ':');
        push_char(&mut s, ':');
        push_joined(&mut s, &g, bs + bl, 8);
        proof {
            assert(segs.subrange(0, bs as int) =~= segs.take(bs as int));
            assert(segs.subrange((bs + bl) as int, 8) =~= segs.skip((bs + bl) as int));
            assert(s@ =~= ipv6_text(a.0));
        }
    } else {
        push_joined(&mut s, &g, 0, 8);
        proof {
            assert(segs.subrange(0, 8) =~= segs);
        }
    }
    s
}

// ---------------------------------------------------------------- reading

pub open spec fn is_hex(c: char) -> bool {
    ('0' <= c && c <= '9') || ('a' <= c && c <= 'f') || ('A' <= c && c <= 'F')
}

pub open spec fn hex_val(c: char) -> int {
    if '0' <= c && c <= '9' {
        c as int - '0' as int
    } else if 'a' <= c && c <= 'f' {
        c as int - 'a' as int + 10
    } else {
        c as int - 'A' as int + 10
    }
}

/// The value of a run of hex digits.
pub open spec fn hex_value(s: Seq<char>) -> nat
    decreases s.len(),
{
    if s.len() == 0 {
        0
    } else {
        hex_value(s.drop_last()) * 16 + hex_val(s.last()) as nat
    }
}

/// How many hex digits follow from `at`.
pub open spec fn hex_run(s: Seq<char>, at: int) -> int
    decreases s.len() - at,
{
    if at < 0 || at >= s.len() || !is_hex(s[at]) {
        0
    } else {
        1 + hex_run(s, at + 1)
    }
}

/// How many decimal digits follow from `at`.
pub open spec fn dec_run(s: Seq<char>, at: int) -> int
    decreases s.len() - at,
{
    if at < 0 || at >= s.len() || !is_digit(s[at]) {
        0
    } else {
        1 + dec_run(s, at + 1)
    }
}

/// A group at `at`: the whole run of hex digits there, one to four of them.
/// The value and where the text goes on.
pub open spec fn group_at(s: Seq<char>, at: int) -> Option<(u16, int)> {
    let n = hex_run(s, at);
    if 1 <= n <= 4 {
        Some((hex_value(s.subrange(at, at + n)) as u16, at + n))
    } else {
        None
    }
}

/// An octet of a dotted quad at `at`: the whole run of decimal digits there,
/// one to three, no leading zero, at most 255.
pub open spec fn octet_at(s: Seq<char>, at: int) -> Option<(u8, int)> {
    let n = dec_run(s, at);
    if 1 <= n <= 3 && !(n > 1 && s[at] == '0') && digits_value(s.subrange(at, at + n)) <= 255 {
        Some((digits_value(s.subrange(at, at + n)) as u8, at + n))
    } else {
        None
    }
}

pub open spec fn dot_at(s: Seq<char>, at: int) -> bool {
    0 <= at < s.len() && s[at] == '.'
}

pub open spec fn colon_at(s: Seq<char>, at: int) -> bool {
    0 <= at < s.len() && s[at] == ':'
}

/// A dotted quad at `at`, and where the text goes on.
pub open spec fn quad_at(s: Seq<char>, at: int) -> Option<([u8; 4], int)> {
    match octet_at(s, at) {
        None => None,
        Some((a, p1)) => if !dot_at(s, p1) {
            None
        } else {
            match octet_at(s, p1 + 1) {
                None => None,
                Some((b, p2)) => if !dot_at(s, p2) {
                    None
                } else {
                    match octet_at(s, p2 + 1) {
                        None => None,
                        Some((c, p3)) => if !dot_at(s, p3) {
                            None
                        } else {
                            match octet_at(s, p3 + 1) {
                                None => None,
                                Some((d, p4)) => Some(([a, b, c, d], p4)),
                            }
                        },
                    }
                },
            }
        },
    }
}

/// Groups read from `at`, the `i`th of at most `limit`, each after a `:` but
/// the first: the groups, where the text goes on, and whether the last two
/// were a dotted quad. A dotted quad is tried first wherever two groups are
/// still free.
pub open spec fn groups_at(s: Seq<char>, at: int, i: int, limit: int) -> (Seq<u16>, int, bool)
    decreases limit - i,
{
    if i >= limit {
        (Seq::empty(), at, false)
    } else {
        let sep = i == 0 || colon_at(s, at);
        let p = if i == 0 {
            at
        } else {
            at + 1
        };
        if sep && i < limit - 1 && quad_at(s, p) is Some {
            let (q, next) = quad_at(s, p)->0;
            (
                seq![
                    ((q[0] as int) * 256 + q[1] as int) as u16,
                    ((q[2] as int) * 256 + q[3] as int) as u16,
                ],
                next,
                true,
            )
        } else if sep && group_at(s, p) is Some {
            let (g, next) = group_at(s, p)->0;
            let (rest, end, quad) = groups_at(s, next, i + 1, limit);
            (seq![g] + rest, end, quad)
        } else {
            (Seq::empty(), at, false)
        }
    }
}

/// The groups an IPv6 text spells, if it spells one.
pub open spec fn ipv6_groups(s: Seq<char>) -> Option<Seq<u16>> {
    let (head, p, quad) = groups_at(s, 0, 0, 8);
    if head.len() == 8 {
        if p == s.len() {
            Some(head)
        } else {
            None
        }
    } else if quad {
        None
    } else if colon_at(s, p) && colon_at(s, p + 1) {
        let (tail, q, _) = groups_at(s, p + 2, 0, 8 - (head.len() + 1));
        if q == s.len() {
            Some(head + Seq::new((8 - head.len() - tail.len()) as nat, |i: int| 0u16) + tail)
        } else {
            None
        }
    } else {
        None
    }
}

/// The octets of eight groups.
pub open spec fn octets_of(g: Seq<u16>) -> [u8; 16] {
    [
        (g[0] / 256) as u8, (g[0] % 256) as u8, (g[1] / 256) as u8, (g[1] % 256) as u8,
        (g[2] / 256) as u8, (g[2] % 256) as u8, (g[3] / 256) as u8, (g[3] % 256) as u8,
        (g[4] / 256) as u8, (g[4] % 256) as u8, (g[5] / 256) as u8, (g[5] % 256) as u8,
        (g[6] / 256) as u8, (g[6] % 256) as u8, (g[7] / 256) as u8, (g[7] % 256) as u8,
    ]
}

/// The address an IPv6 text spells, if it spells one.
pub open spec fn ipv6_from_text(s: Seq<char>) -> Option<Ipv6Addr> {
    match ipv6_groups(s) {
        Some(g) => Some(Ipv6Addr(octets_of(g))),
        None => None,
    }
}

fn hex_run_of(s: &[char], at: usize) -> (n: usize)
    requires
        at <= s@.len(),
    ensures
        n == hex_run(s@, at as int),
        at + n <= s@.len(),
        at + n <= usize::MAX,
{
    let mut i: usize = at;
    while i < s.len() && (('0' <= s[i] && s[i] <= '9') || ('a' <= s[i] && s[i] <= 'f') || ('A'
        <= s[i] && s[i] <= 'F'))
        invariant
            at <= i <= s@.len(),
            hex_run(s@, at as int) == (i - at) + hex_run(s@, i as int),
        decreases s@.len() - i,
    {
        i += 1;
    }
    i - at
}

fn dec_run_of(s: &[char], at: usize) -> (n: usize)
    requires
        at <= s@.len(),
    ensures
        n == dec_run(s@, at as int),
        at + n <= s@.len(),
        at + n <= usize::MAX,
{
    let mut i: usize = at;
    while i < s.len() && '0' <= s[i] && s[i] <= '9'
        invariant
            at <= i <= s@.len(),
            dec_run(s@, at as int) == (i - at) + dec_run(s@, i as int),
        decreases s@.len() - i,
    {
        i += 1;
    }
    i - at
}

fn hex_val_of(c: char) -> (v: u32)
    requires
        is_hex(c),
    ensures
        v == hex_val(c),
        v < 16,
{
    if '0' <= c && c <= '9' {
        (c as u32) - ('0' as u32)
    } else if 'a' <= c && c <= 'f' {
        (c as u32) - ('a' as u32) + 10
    } else {
        (c as u32) - ('A' as u32) + 10
    }
}

fn group_of(s: &[char], at: usize) -> (r: Option<(u16, usize)>)
    requires
        at <= s@.len(),
    ensures
        match group_at(s@, at as int) {
            Some((g, p)) => r == Some((g, p as usize)) && at <= p <= s@.len(),
            None => r is None,
        },
{
    let n = hex_run_of(s, at);
    if n < 1 || n > 4 {
        return None;
    }
    let mut v: u32 = 0;
    let mut i: usize = 0;
    while i < n
        invariant
            1 <= n <= 4,
            at + n <= s@.len(),
            at + n <= usize::MAX,
            n == hex_run(s@, at as int),
            i <= n,
            v == hex_value(s@.subrange(at as int, (at + i) as int)),
            i == 0 ==> v == 0,
            i == 1 ==> v < 16,
            i == 2 ==> v < 256,
            i == 3 ==> v < 4096,
            i == 4 ==> v < 65536,
        decreases n - i,
    {
        proof {
            lemma_hex_run_digit(s@, at as int, (at + i) as int);
            assert(s@.subrange(at as int, (at + i + 1) as int).drop_last() =~= s@.subrange(
                at as int,
                (at + i) as int,
            ));
        }
        let d = hex_val_of(s[at + i]);
        v = v * 16 + d;
        i += 1;
    }
    Some((v as u16, at + n))
}

proof fn lemma_hex_run_digit(s: Seq<char>, at: int, k: int)
    requires
        0 <= at <= k < at + hex_run(s, at),
    ensures
        is_hex(s[k]),
        k < s.len(),
    decreases k - at,
{
    if k > at {
        lemma_hex_run_digit(s, at + 1, k);
    }
}

proof fn lemma_dec_run_digit(s: Seq<char>, at: int, k: int)
    requires
        0 <= at <= k < at + dec_run(s, at),
    ensures
        is_digit(s[k]),
        k < s.len(),
    decreases k - at,
{
    if k > at {
        lemma_dec_run_digit(s, at + 1, k);
    }
}

fn octet_of_text(s: &[char], at: usize) -> (r: Option<(u8, usize)>)
    requires
        at <= s@.len(),
    ensures
        match octet_at(s@, at as int) {
            Some((o, p)) => r == Some((o, p as usize)) && at <= p <= s@.len(),
            None => r is None,
        },
{
    let n = dec_run_of(s, at);
    if n < 1 || n > 3 {
        return None;
    }
    if n > 1 && s[at] == '0' {
        return None;
    }
    let mut v: u32 = 0;
    let mut i: usize = 0;
    while i < n
        invariant
            1 <= n <= 3,
            at + n <= s@.len(),
            at + n <= usize::MAX,
            n == dec_run(s@, at as int),
            i <= n,
            v == digits_value(s@.subrange(at as int, (at + i) as int)),
            i == 0 ==> v == 0,
            i == 1 ==> v < 10,
            i == 2 ==> v < 100,
            i == 3 ==> v < 1000,
        decreases n - i,
    {
        proof {
            lemma_dec_run_digit(s@, at as int, (at + i) as int);
            assert(s@.subrange(at as int, (at + i + 1) as int).drop_last() =~= s@.subrange(
                at as int,
                (at + i) as int,
            ));
        }
        let c = s[at + i];
        v = v * 10 + ((c as u32) - ('0' as u32));
        i += 1;
    }
    if v > 255 {
        return None;
    }
    Some((v as u8, at + n))
}

fn quad_of(s: &[char], at: usize) -> (r: Option<([u8; 4], usize)>)
    requires
        at <= s@.len(),
    ensures
        match quad_at(s@, at as int) {
            Some((q, p)) => r == Some((q, p as usize)) && at <= p <= s@.len(),
            None => r is None,
        },
{
    let (a, p1) = match octet_of_text(s, at) {
        Some(x) => x,
        None => return None,
    };
    if !(p1 < s.len() && s[p1] == '.') {
        return None;
    }
    let (b, p2) = match octet_of_text(s, p1 + 1) {
        Some(x) => x,
        None => return None,
    };
    if !(p2 < s.len() && s[p2] == '.') {
        return None;
    }
    let (c, p3) = match octet_of_text(s, p2 + 1) {
        Some(x) => x,
        None => return None,
    };
    if !(p3 < s.len() && s[p3] == '.') {
        return None;
    }
    let (d, p4) = match octet_of_text(s, p3 + 1) {
        Some(x) => x,
        None => return None,
    };
    Some(([a, b, c, d], p4))
}

proof fn lemma_groups_len(s: Seq<char>, at: int, i: int, limit: int)
    requires
        i <= limit,
    ensures
        groups_at(s, at, i, limit).0.len() <= limit - i,
    decreases limit - i,
{
    if i < limit {
        let p = if i == 0 {
            at
        } else {
            at + 1
        };
        if group_at(s, p) is Some {
            let (g, next) = group_at(s, p)->0;
            lemma_groups_len(s, next, i + 1, limit);
        }
    }
}

/// Reads groups as `groups_at` says, onto the end of `out`.
fn groups_from(s: &[char], at: usize, i: usize, limit: usize, out: &mut Vec<u16>) -> (r: (
    usize,
    bool,
))
    requires
        at <= s@.len(),
        i <= limit <= 8,
    ensures
        ({
            let (g, p, q) = groups_at(s@, at as int, i as int, limit as int);
            final(out)@ == old(out)@ + g && r.0 as int == p && r.1 == q && r.0 <= s@.len()
        }),
    decreases limit - i,
{
    let len = s.len();
    if i >= limit {
        proof {
            assert(old(out)@ + Seq::<u16>::empty() =~= old(out)@);
        }
        return (at, false);
    }
    let sep = i == 0 || (at < s.len() && s[at] == ':');
    let p = if i == 0 {
        at
    } else if sep {
        at + 1
    } else {
        at
    };
    if sep && i + 1 < limit {
        match quad_of(s, p) {
            Some((q, next)) => {
                let ghost before = out@;
                out.push((q[0] as u16) * 256 + (q[1] as u16));
                out.push((q[2] as u16) * 256 + (q[3] as u16));
                proof {
                    let g = seq![
                        ((q[0] as int) * 256 + q[1] as int) as u16,
                        ((q[2] as int) * 256 + q[3] as int) as u16,
                    ];
                    assert(quad_at(s@, p as int) == Some((q, next as int)));
                    assert(groups_at(s@, at as int, i as int, limit as int) == (g, next as int, true));
                    assert(out@ =~= before + g);
                }
                return (next, true);
            },
            None => {},
        }
    }
    if sep {
        match group_of(s, p) {
            Some((g, next)) => {
                let ghost before = out@;
                out.push(g);
                let r = groups_from(s, next, i + 1, limit, out);
                proof {
                    let (rest, e, qq) = groups_at(s@, next as int, i + 1, limit as int);
                    assert(group_at(s@, p as int) == Some((g, next as int)));
                    if i + 1 < limit {
                        assert(quad_at(s@, p as int) is None);
                    }
                    assert(groups_at(s@, at as int, i as int, limit as int) == (seq![g] + rest, e, qq));
                    assert(out@ =~= before + (seq![g] + rest));
                }
                return r;
            },
            None => {},
        }
    }
    proof {
        assert(old(out)@ + Seq::<u16>::empty() =~= old(out)@);
    }
    (at, false)
}

/// Reads an IPv6 address.
pub fn ipv6_parse(s: &str) -> (r: Option<Ipv6Addr>)
    ensures
        r == ipv6_from_text(s@),
{
    let v = crate::text::chars_of(s);
    let t = v.as_slice();
    let mut head: Vec<u16> = Vec::new();
    let (p, quad) = groups_from(t, 0, 0, 8, &mut head);
    proof {
        lemma_groups_len(t@, 0, 0, 8);
        assert(Seq::<u16>::empty() + groups_at(t@, 0, 0, 8).0 =~= groups_at(t@, 0, 0, 8).0);
    }
    let mut all: Vec<u16> = Vec::new();
    if head.len() == 8 {
        if p != t.len() {
            return None;
        }
        all = head;
    } else if quad {
        return None;
    } else if p < t.len() && p + 1 < t.len() && t[p] == ':' && t[p + 1] == ':' {
        let limit = 8 - (head.len() + 1);
        let mut tail: Vec<u16> = Vec::new();
        let (q, _) = groups_from(t, p + 2, 0, limit, &mut tail);
        proof {
            lemma_groups_len(t@, (p + 2) as int, 0, limit as int);
            assert(Seq::<u16>::empty() + groups_at(t@, (p + 2) as int, 0, limit as int).0
                =~= groups_at(t@, (p + 2) as int, 0, limit as int).0);
        }
        if q != t.len() {
            return None;
        }
        let zeros = 8 - head.len() - tail.len();
        let ghost want = head@ + Seq::new(zeros as nat, |i: int| 0u16) + tail@;
        let mut k: usize = 0;
        while k < head.len()
            invariant
                k <= head@.len(),
                all@ == head@.take(k as int),
            decreases head@.len() - k,
        {
            all.push(head[k]);
            proof {
                assert(all@ =~= head@.take(k + 1));
            }
            k += 1;
        }
        let mut z: usize = 0;
        while z < zeros
            invariant
                z <= zeros,
                head@.len() + zeros + tail@.len() == 8,
                all@ == head@ + Seq::new(z as nat, |i: int| 0u16),
            decreases zeros - z,
        {
            all.push(0);
            proof {
                assert(all@ =~= head@ + Seq::new((z + 1) as nat, |i: int| 0u16));
            }
            z += 1;
        }
        let mut m: usize = 0;
        while m < tail.len()
            invariant
                m <= tail@.len(),
                all@ == head@ + Seq::new(zeros as nat, |i: int| 0u16) + tail@.take(m as int),
            decreases tail@.len() - m,
        {
            all.push(tail[m]);
            proof {
                assert(all@ =~= head@ + Seq::new(zeros as nat, |i: int| 0u16) + tail@.take(
                    m + 1,
                ));
            }
            m += 1;
        }
        proof {
            assert(tail@.take(tail@.len() as int) =~= tail@);
        }
    } else {
        return None;
    }
    assert(all@.len() == 8);
    let g = all.as_slice();
    Some(
        Ipv6Addr(
            [
                (g[0] / 256) as u8,
                (g[0] % 256) as u8,
                (g[1] / 256) as u8,
                (g[1] % 256) as u8,
                (g[2] / 256) as u8,
                (g[2] % 256) as u8,
                (g[3] / 256) as u8,
                (g[3] % 256) as u8,
                (g[4] / 256) as u8,
                (g[4] % 256) as u8,
                (g[5] / 256) as u8,
                (g[5] % 256) as u8,
                (g[6] / 256) as u8,
                (g[6] % 256) as u8,
                (g[7] / 256) as u8,
                (g[7] % 256) as u8,
            ],
        ),
    )
}


// ---------------------------------------------------------------- round trip

proof fn lemma_hex_char(d: int)
    requires
        0 <= d < 16,
    ensures
        is_hex(hex_char(d)),
        hex_val(hex_char(d)) == d,
        hex_char(d) != ':',
        hex_char(d) != '.',
        is_digit(hex_char(d)) <==> d < 10,
{
}

/// A group in hex is one to four hex digits, and reads back as itself.
proof fn lemma_hex_text(n: nat)
    requires
        n < 65536,
    ensures
        1 <= hex_text(n).len() <= 4,
        hex_value(hex_text(n)) == n,
        forall|k: int| 0 <= k < hex_text(n).len() ==> is_hex(#[trigger] hex_text(n)[k]) && hex_text(n)[k] != ':'
            && hex_text(n)[k] != '.',
    decreases n,
{
    let t = hex_text(n);
    if n < 16 {
        lemma_hex_char(n as int);
        assert(t.drop_last() =~= Seq::<char>::empty());
        assert(hex_value(t) == hex_value(t.drop_last()) * 16 + hex_val(t.last()) as nat);
    } else {
        lemma_hex_text(n / 16);
        lemma_hex_char((n % 16) as int);
        let h = hex_text(n / 16);
        assert(t == h.push(hex_char((n % 16) as int)));
        assert(t.drop_last() =~= h);
        assert(h.len() <= 3) by {
            if n / 16 < 16 {
            } else if n / 256 < 16 {
                assert(n / 16 / 16 == n / 256);
                assert(hex_text(n / 256).len() == 1);
            } else {
                assert(n / 16 / 16 == n / 256);
                assert(n / 256 / 16 == n / 4096);
                assert(n / 4096 < 16);
                assert(hex_text(n / 4096).len() == 1);
                assert(hex_text(n / 256).len() == 2);
            }
        }
        assert forall|k: int| 0 <= k < t.len() implies is_hex(#[trigger] t[k]) && t[k] != ':' && t[k] != '.' by {
            if k < h.len() {
                assert(t[k] == h[k]);
            }
        }
    }
}


/// The groups written front first: the first group, then `:` and the rest.
proof fn lemma_joined_front(gs: Seq<u16>)
    requires
        gs.len() >= 1,
    ensures
        joined(gs) == hex_text(gs[0] as nat) + (if gs.len() == 1 {
            Seq::<char>::empty()
        } else {
            seq![':'] + joined(gs.skip(1))
        }),
    decreases gs.len(),
{
    if gs.len() == 1 {
        assert(hex_text(gs[0] as nat) + Seq::<char>::empty() =~= hex_text(gs[0] as nat));
    } else if gs.len() == 2 {
        let d = gs.drop_last();
        assert(d.len() == 1);
        assert(d[0] == gs[0]);
        assert(joined(d) == hex_text(d[0] as nat));
        assert(gs.last() == gs[1]);
        assert(joined(gs) == joined(d) + seq![':'] + hex_text(gs.last() as nat));
        assert(gs.skip(1) =~= seq![gs[1]]);
        assert(joined(gs.skip(1)) == hex_text(gs[1] as nat));
        assert(joined(gs) =~= hex_text(gs[0] as nat) + (seq![':'] + joined(gs.skip(1))));
    } else {
        let d = gs.drop_last();
        lemma_joined_front(d);
        assert(d[0] == gs[0]);
        assert(d.skip(1) =~= gs.skip(1).drop_last());
        assert(gs.skip(1).last() == gs.last());
        let a = hex_text(gs[0] as nat);
        let b = joined(d.skip(1));
        let c = hex_text(gs.last() as nat);
        assert(joined(d) == a + (seq![':'] + b));
        assert(joined(gs) == joined(d) + seq![':'] + c);
        assert(joined(gs.skip(1)) == joined(gs.skip(1).drop_last()) + seq![':'] + hex_text(gs.skip(1).last() as nat));
        assert(joined(gs.skip(1)) == b + seq![':'] + c);
        assert(joined(gs) =~= a + (seq![':'] + (b + seq![':'] + c)));
    }
}

/// Does a run of `n` hex digits at `at` end there, at the end of the text
/// or at a `:`?
pub open spec fn hex_group_there(s: Seq<char>, at: int, n: int) -> bool {
    &&& 0 <= at
    &&& 0 <= n
    &&& at + n <= s.len()
    &&& forall|k: int| at <= k < at + n ==> is_hex(#[trigger] s[k]) && s[k] != '.'
    &&& (at + n == s.len() || s[at + n] == ':')
}

proof fn lemma_hex_run_exact(s: Seq<char>, at: int, n: int)
    requires
        hex_group_there(s, at, n),
    ensures
        hex_run(s, at) == n,
    decreases n,
{
    if n > 0 {
        assert(is_hex(s[at]));
        lemma_hex_run_exact(s, at + 1, n - 1);
    }
}

proof fn lemma_dec_run_in_group(s: Seq<char>, at: int, n: int)
    requires
        hex_group_there(s, at, n),
    ensures
        dec_run(s, at) <= n,
        !dot_at(s, at + dec_run(s, at)),
    decreases n,
{
    if n > 0 {
        assert(is_hex(s[at]) && s[at] != '.');
        if is_digit(s[at]) {
            lemma_dec_run_in_group(s, at + 1, n - 1);
        }
    }
}

/// No dotted quad begins at a hex group.
proof fn lemma_quad_fails(s: Seq<char>, at: int, n: int)
    requires
        hex_group_there(s, at, n),
    ensures
        quad_at(s, at) is None,
{
    lemma_dec_run_in_group(s, at, n);
}

/// A group written in hex reads back as itself.
proof fn lemma_group_at(s: Seq<char>, at: int, g: u16)
    requires
        at + hex_text(g as nat).len() <= s.len(),
        0 <= at,
        s.subrange(at, at + hex_text(g as nat).len()) == hex_text(g as nat),
        at + hex_text(g as nat).len() == s.len() || s[at + hex_text(g as nat).len()] == ':',
    ensures
        hex_group_there(s, at, hex_text(g as nat).len() as int),
        group_at(s, at) == Some((g, at + hex_text(g as nat).len())),
{
    let h = hex_text(g as nat);
    lemma_hex_text(g as nat);
    assert forall|k: int| at <= k < at + h.len() implies is_hex(#[trigger] s[k]) && s[k] != '.' by {
        assert(s[k] == s.subrange(at, at + h.len())[k - at]);
        assert(s[k] == h[k - at]);
    }
    lemma_hex_run_exact(s, at, h.len() as int);
}

/// Groups written front first and separated by `:` read back as
/// themselves, up to where they end: the end of the text, a `::`, or the
/// limit.
proof fn lemma_groups_joined(s: Seq<char>, at: int, gs: Seq<u16>, i: int, limit: int)
    requires
        gs.len() >= 1,
        0 <= i,
        i + gs.len() <= limit,
        0 <= at,
        i == 0 || colon_at(s, at),
        (if i == 0 { at } else { at + 1 }) + joined(gs).len() <= s.len(),
        s.subrange(
            if i == 0 { at } else { at + 1 },
            (if i == 0 { at } else { at + 1 }) + joined(gs).len(),
        ) == joined(gs),
        ({
            let e = (if i == 0 { at } else { at + 1 }) + joined(gs).len();
            e == s.len() || (colon_at(s, e) && (i + gs.len() == limit || colon_at(s, e + 1)))
        }),
    ensures
        groups_at(s, at, i, limit) == (gs, (if i == 0 { at } else { at + 1 }) + joined(gs).len(), false),
    decreases gs.len(),
{
    let p = if i == 0 { at } else { at + 1 };
    let t = joined(gs);
    let e = p + t.len();
    let h = hex_text(gs[0] as nat);
    let n = h.len() as int;
    lemma_joined_front(gs);
    lemma_hex_text(gs[0] as nat);
    assert(s.subrange(p, p + n) =~= h) by {
        assert forall|k: int| 0 <= k < n implies s.subrange(p, p + n)[k] == h[k] by {
            assert(s.subrange(p, p + n)[k] == s[p + k]);
            assert(s[p + k] == s.subrange(p, e)[k]);
            assert(t[k] == h[k]);
        }
    }
    if gs.len() > 1 {
        assert(s[p + n] == ':') by {
            assert(s[p + n] == s.subrange(p, e)[n]);
            assert(t[n] == ':');
        }
    } else {
        assert(t =~= h);
    }
    lemma_group_at(s, p, gs[0]);
    if i < limit - 1 {
        lemma_quad_fails(s, p, n);
    }
    if gs.len() > 1 {
        let rest = gs.skip(1);
        let rt = joined(rest);
        assert(t =~= h + (seq![':'] + rt));
        assert(s.subrange(p + n + 1, p + n + 1 + rt.len()) =~= rt) by {
            assert forall|k: int| 0 <= k < rt.len() implies s.subrange(p + n + 1, p + n + 1 + rt.len())[k] == rt[k] by {
                assert(s.subrange(p + n + 1, p + n + 1 + rt.len())[k] == s[p + n + 1 + k]);
                assert(s[p + n + 1 + k] == s.subrange(p, e)[n + 1 + k]);
                assert(t[n + 1 + k] == rt[k]);
            }
        }
        assert(colon_at(s, p + n));
        lemma_groups_joined(s, p + n, rest, i + 1, limit);
        assert(seq![gs[0]] + rest =~= gs);
    } else {
        let r = groups_at(s, e, i + 1, limit);
        if i + 1 < limit && e < s.len() {
            assert(colon_at(s, e + 1));
            assert(dec_run(s, e + 1) == 0);
            assert(hex_run(s, e + 1) == 0);
            assert(quad_at(s, e + 1) is None);
            assert(group_at(s, e + 1) is None);
        }
        assert(r == (Seq::<u16>::empty(), e, false));
        assert(seq![gs[0]] + Seq::<u16>::empty() =~= gs);
    }
}


proof fn lemma_zero_run(s: Seq<u16>)
    ensures
        ({
            let (cs, cl, bs, bl) = zero_scan(s);
            &&& forall|k: int| bs <= k < bs + bl ==> #[trigger] s[k] == 0
            &&& forall|k: int| cs <= k < cs + cl ==> #[trigger] s[k] == 0
        }),
    decreases s.len(),
{
    if s.len() > 0 {
        let d = s.drop_last();
        lemma_zero_run(d);
        lemma_zero_scan(d);
        let (cs, cl, bs, bl) = zero_scan(d);
        let i = s.len() - 1;
        assert forall|k: int| 0 <= k < d.len() implies #[trigger] d[k] == s[k] by {}
        let (ncs2, ncl2, nbs2, nbl2) = zero_scan(s);
        if s.last() == 0 {
            let ncs = if cl == 0 { i } else { cs };
            assert(ncs2 == ncs && ncl2 == cl + 1);
            assert forall|k: int| ncs <= k < ncs + cl + 1 implies #[trigger] s[k] == 0 by {
                if k < i {
                    assert(d[k] == 0);
                } else {
                    assert(s[i] == 0);
                }
            }
            assert forall|k: int| nbs2 <= k < nbs2 + nbl2 implies #[trigger] s[k] == 0 by {
                if cl + 1 > bl {
                    if k < i {
                        assert(d[k] == 0);
                    } else {
                        assert(s[i] == 0);
                    }
                } else {
                    assert(d[k] == 0);
                }
            }
        } else {
            assert forall|k: int| nbs2 <= k < nbs2 + nbl2 implies #[trigger] s[k] == 0 by {
                assert(d[k] == 0);
            }
        }
    }
}

proof fn lemma_dec_run_exact(s: Seq<char>, at: int, n: int)
    requires
        0 <= at,
        0 <= n,
        at + n <= s.len(),
        forall|k: int| at <= k < at + n ==> is_digit(#[trigger] s[k]),
        at + n == s.len() || !is_digit(s[at + n]),
    ensures
        dec_run(s, at) == n,
    decreases n,
{
    if n > 0 {
        assert(is_digit(s[at]));
        lemma_dec_run_exact(s, at + 1, n - 1);
    }
}

/// An octet in decimal, ended by a dot or by the end, reads back as itself.
proof fn lemma_octet_at(s: Seq<char>, at: int, v: u8)
    requires
        0 <= at,
        at + decimal(v as nat).len() <= s.len(),
        s.subrange(at, at + decimal(v as nat).len()) == decimal(v as nat),
        at + decimal(v as nat).len() == s.len() || s[at + decimal(v as nat).len()] == '.',
    ensures
        octet_at(s, at) == Some((v, at + decimal(v as nat).len())),
{
    let d = decimal(v as nat);
    crate::addr::lemma_octet_text(v as nat);
    assert forall|k: int| at <= k < at + d.len() implies is_digit(#[trigger] s[k]) by {
        assert(s[k] == s.subrange(at, at + d.len())[k - at]);
    }
    lemma_dec_run_exact(s, at, d.len() as int);
    assert(s[at] == d[0]) by {
        assert(s[at] == s.subrange(at, at + d.len())[0]);
    }
}

/// A dotted quad running to the end of the text reads back as itself.
proof fn lemma_quad_at_dotted(s: Seq<char>, p: int, q: [u8; 4])
    requires
        0 <= p <= s.len(),
        s.skip(p) == dotted(q),
    ensures
        quad_at(s, p) == Some((q, s.len() as int)),
{
    let d0 = decimal(q[0] as nat);
    let d1 = decimal(q[1] as nat);
    let d2 = decimal(q[2] as nat);
    let d3 = decimal(q[3] as nat);
    let t = dotted(q);
    assert(t =~= d0 + seq!['.'] + d1 + seq!['.'] + d2 + seq!['.'] + d3);
    let p1 = p + d0.len();
    let p2 = p1 + 1 + d1.len();
    let p3 = p2 + 1 + d2.len();
    assert(s.len() == p3 + 1 + d3.len());
    assert forall|k: int| 0 <= k < t.len() implies s[p + k] == #[trigger] t[k] by {
        assert(s.skip(p)[k] == s[p + k]);
    }
    assert(s.subrange(p, p1) =~= d0) by {
        assert forall|k: int| 0 <= k < d0.len() implies s.subrange(p, p1)[k] == d0[k] by {
            assert(t[k] == d0[k]);
        }
    }
    assert(s[p1] == '.') by {
        assert(t[d0.len() as int] == '.');
    }
    assert(s.subrange(p1 + 1, p2) =~= d1) by {
        assert forall|k: int| 0 <= k < d1.len() implies s.subrange(p1 + 1, p2)[k] == d1[k] by {
            assert(t[d0.len() + 1 + k] == d1[k]);
        }
    }
    assert(s[p2] == '.') by {
        assert(t[(p2 - p) as int] == '.');
    }
    assert(s.subrange(p2 + 1, p3) =~= d2) by {
        assert forall|k: int| 0 <= k < d2.len() implies s.subrange(p2 + 1, p3)[k] == d2[k] by {
            assert(t[p2 - p + 1 + k] == d2[k]);
        }
    }
    assert(s[p3] == '.') by {
        assert(t[(p3 - p) as int] == '.');
    }
    assert(s.subrange(p3 + 1, s.len() as int) =~= d3) by {
        assert forall|k: int| 0 <= k < d3.len() implies s.subrange(p3 + 1, s.len() as int)[k] == d3[k] by {
            assert(t[p3 - p + 1 + k] == d3[k]);
        }
    }
    lemma_octet_at(s, p, q[0]);
    lemma_octet_at(s, p1 + 1, q[1]);
    lemma_octet_at(s, p2 + 1, q[2]);
    lemma_octet_at(s, p3 + 1, q[3]);
    assert(dot_at(s, p1) && dot_at(s, p2) && dot_at(s, p3));
    let r = [q[0], q[1], q[2], q[3]];
    assert(r@ =~= q@);
}

/// The eight groups of an address give its octets back.
proof fn lemma_octets_of_segments(o: [u8; 16])
    ensures
        octets_of(segments(o)) == o,
{
    let g = segments(o);
    assert forall|i: int| 0 <= i < 8 implies (#[trigger] g[i]) / 256 == o[2 * i] && g[i] % 256 == o[2 * i + 1] by {
        assert(g[i] == segment(o, i));
    }
    assert(octets_of(g)@ =~= o@);
}


/// A text that begins with `::` has no groups before it.
proof fn lemma_no_head(s: Seq<char>)
    requires
        s.len() >= 2,
        s[0] == ':',
        s[1] == ':',
    ensures
        groups_at(s, 0, 0, 8) == (Seq::<u16>::empty(), 0int, false),
{
    assert(dec_run(s, 0) == 0);
    assert(hex_run(s, 0) == 0);
    assert(quad_at(s, 0) is None);
    assert(group_at(s, 0) is None);
}

/// Nothing is read at the end of the text.
proof fn lemma_no_tail(s: Seq<char>, limit: int)
    requires
        limit >= 1,
    ensures
        groups_at(s, s.len() as int, 0, limit) == (Seq::<u16>::empty(), s.len() as int, false),
{
    assert(dec_run(s, s.len() as int) == 0);
    assert(hex_run(s, s.len() as int) == 0);
    assert(quad_at(s, s.len() as int) is None);
    assert(group_at(s, s.len() as int) is None);
}

proof fn lemma_hex_ffff()
    ensures
        hex_text(65535) == seq!['f', 'f', 'f', 'f'],
{
    assert(hex_text(15) == seq!['f']);
    assert(hex_text(255) == hex_text(15).push('f'));
    assert(hex_text(4095) == hex_text(255).push('f'));
    assert(hex_text(65535) == hex_text(4095).push('f'));
    assert(hex_text(65535) =~= seq!['f', 'f', 'f', 'f']);
}

proof fn lemma_mapped_rest(s: Seq<char>, q: [u8; 4])
    requires
        s.len() >= 7,
        s[6] == ':',
        s.skip(7) == dotted(q),
    ensures
        groups_at(s, 6, 1, 7) == (
            seq![((q[0] as int) * 256 + q[1] as int) as u16, ((q[2] as int) * 256 + q[3] as int) as u16],
            s.len() as int,
            true,
        ),
{
    lemma_quad_at_dotted(s, 7, q);
    assert(colon_at(s, 6));
}

proof fn lemma_mapped_tail(s: Seq<char>, q: [u8; 4])
    requires
        s.len() >= 7,
        s.subrange(0, 7) == seq![':', ':', 'f', 'f', 'f', 'f', ':'],
        s.skip(7) == dotted(q),
    ensures
        groups_at(s, 2, 0, 7) == (
            seq![
                65535u16,
                ((q[0] as int) * 256 + q[1] as int) as u16,
                ((q[2] as int) * 256 + q[3] as int) as u16,
            ],
            s.len() as int,
            true,
        ),
{
    assert(s[6] == s.subrange(0, 7)[6]);
    lemma_mapped_rest(s, q);
    lemma_hex_ffff();
    assert(s.subrange(2, 6) =~= hex_text(65535)) by {
        assert forall|k: int| 0 <= k < 4 implies s.subrange(2, 6)[k] == hex_text(65535)[k] by {
            assert(s.subrange(2, 6)[k] == s.subrange(0, 7)[k + 2]);
        }
    }
    lemma_group_at(s, 2, 65535u16);
    lemma_quad_fails(s, 2, 4);
    let rest = groups_at(s, 6, 1, 7);
    assert(groups_at(s, 2, 0, 7) == (seq![65535u16] + rest.0, rest.1, rest.2));
    assert(seq![65535u16] + rest.0 =~= seq![
        65535u16,
        ((q[0] as int) * 256 + q[1] as int) as u16,
        ((q[2] as int) * 256 + q[3] as int) as u16,
    ]);
}

proof fn lemma_round_trip_mapped(o: [u8; 16])
    requires
        is_mapped(o),
    ensures
        ipv6_groups(ipv6_text(o)) matches Some(g) && octets_of(g) == o,
{
    let s = ipv6_text(o);
    let q = [o[12], o[13], o[14], o[15]];
    let pre = seq![':', ':', 'f', 'f', 'f', 'f', ':'];
    assert(s == pre + dotted(q));
    assert(s.subrange(0, 7) =~= pre);
    assert(s.skip(7) =~= dotted(q));
    lemma_no_head(s);
    lemma_mapped_tail(s, q);
    let tail = groups_at(s, 2, 0, 7).0;
    let g = Seq::<u16>::empty() + Seq::new(5, |i: int| 0u16) + tail;
    assert(ipv6_groups(s) == Some(g));
    assert(octets_of(g)@ =~= o@);
}

#[verifier::rlimit(40)]
proof fn lemma_round_trip_folded(o: [u8; 16])
    requires
        !is_mapped(o),
        zero_scan(segments(o)).3 > 1,
    ensures
        ipv6_groups(ipv6_text(o)) == Some(segments(o)),
{
    let s = ipv6_text(o);
    let g = segments(o);
    lemma_zero_scan(g);
    lemma_zero_run(g);
    let (_, _, bs, bl) = zero_scan(g);
    let head = g.take(bs);
    let tail = g.skip(bs + bl);
    let ht = joined(head);
    let tt = joined(tail);
    assert(s == ht + seq![':', ':'] + tt);
    let p = ht.len() as int;
    assert(s[p] == ':' && s[p + 1] == ':');
    if bs == 0 {
        assert(ht.len() == 0);
        lemma_no_head(s);
    } else {
        assert(s.subrange(0, p) =~= ht);
        lemma_groups_joined(s, 0, head, 0, 8);
    }
    let limit = 8 - (bs + 1);
    if tail.len() == 0 {
        assert(s.len() == p + 2);
        lemma_no_tail(s, limit);
    } else {
        assert(s.subrange(p + 2, s.len() as int) =~= tt);
        lemma_groups_joined(s, p + 2, tail, 0, limit);
    }
    let r = head + Seq::new((8 - head.len() - tail.len()) as nat, |i: int| 0u16) + tail;
    assert(r =~= g) by {
        assert forall|k: int| 0 <= k < 8 implies r[k] == g[k] by {
            if bs <= k < bs + bl {
                assert(g[k] == 0);
            }
        }
    }
}

proof fn lemma_round_trip_plain(o: [u8; 16])
    requires
        !is_mapped(o),
        zero_scan(segments(o)).3 <= 1,
    ensures
        ipv6_groups(ipv6_text(o)) == Some(segments(o)),
{
    let s = ipv6_text(o);
    let g = segments(o);
    assert(s == joined(g));
    assert(s.subrange(0, s.len() as int) =~= s);
    lemma_groups_joined(s, 0, g, 0, 8);
}

/// An IPv6 address written out reads back as itself, in every form the
/// writing takes: eight groups, a folded run of zeros, and the IPv4-mapped
/// form.
pub proof fn lemma_ipv6_text_round_trip(a: Ipv6Addr)
    ensures
        ipv6_from_text(ipv6_text(a.0)) == Some(a),
{
    let o = a.0;
    if is_mapped(o) {
        lemma_round_trip_mapped(o);
    } else {
        if zero_scan(segments(o)).3 > 1 {
            lemma_round_trip_folded(o);
        } else {
            lemma_round_trip_plain(o);
        }
        lemma_octets_of_segments(o);
    }
    let g = ipv6_groups(ipv6_text(o))->0;
    assert(Ipv6Addr(octets_of(g)) == a);
}


proof fn lemma_joined_chars(gs: Seq<u16>)
    ensures
        forall|k: int| 0 <= k < joined(gs).len() ==> is_hex(#[trigger] joined(gs)[k]) || joined(gs)[k] == ':',
    decreases gs.len(),
{
    if gs.len() == 1 {
        lemma_hex_text(gs[0] as nat);
    } else if gs.len() > 1 {
        let d = gs.drop_last();
        lemma_joined_chars(d);
        lemma_hex_text(gs.last() as nat);
        let a = joined(d);
        let h = hex_text(gs.last() as nat);
        let t = joined(gs);
        assert(t == a + seq![':'] + h);
        assert forall|k: int| 0 <= k < t.len() implies is_hex(#[trigger] t[k]) || t[k] == ':' by {
            if k < a.len() {
                assert(t[k] == a[k]);
            } else if k == a.len() {
                assert(t[k] == ':');
            } else {
                assert(t[k] == h[k - a.len() - 1]);
            }
        }
    }
}

/// The characters of an IPv6 text: hex digits, colons, and the dots of a
/// mapped address; at least two of them.
pub proof fn lemma_ipv6_text_chars(o: [u8; 16])
    ensures
        ipv6_text(o).len() >= 2,
        forall|k: int| 0 <= k < ipv6_text(o).len() ==> is_hex(#[trigger] ipv6_text(o)[k])
            || ipv6_text(o)[k] == ':' || ipv6_text(o)[k] == '.',
        !is_mapped(o) ==> forall|k: int| 0 <= k < ipv6_text(o).len() ==> #[trigger] ipv6_text(o)[k] != '.',
{
    let t = ipv6_text(o);
    if is_mapped(o) {
        let q = [o[12], o[13], o[14], o[15]];
        let pre = seq![':', ':', 'f', 'f', 'f', 'f', ':'];
        let d = dotted(q);
        crate::addr::lemma_dotted_chars(q);
        assert(t == pre + d);
        assert forall|k: int| 0 <= k < t.len() implies is_hex(#[trigger] t[k]) || t[k] == ':' || t[k] == '.' by {
            if k >= 7 {
                assert(t[k] == d[k - 7]);
                assert(is_digit(d[k - 7]) || d[k - 7] == '.');
            }
        }
    } else {
        let g = segments(o);
        lemma_zero_scan(g);
        let (_, _, bs, bl) = zero_scan(g);
        if bl > 1 {
            let a = joined(g.take(bs));
            let b = joined(g.skip(bs + bl));
            lemma_joined_chars(g.take(bs));
            lemma_joined_chars(g.skip(bs + bl));
            assert(t == a + seq![':', ':'] + b);
            assert forall|k: int| 0 <= k < t.len() implies (is_hex(#[trigger] t[k]) || t[k] == ':') && t[k] != '.' by {
                if k < a.len() {
                    assert(t[k] == a[k]);
                } else if k < a.len() + 2 {
                    assert(t[k] == ':');
                } else {
                    assert(t[k] == b[k - a.len() - 2]);
                }
            }
        } else {
            lemma_joined_chars(g);
            assert(g.len() == 8);
            lemma_joined_front(g);
            lemma_hex_text(g[0] as nat);
            assert(t.len() >= 2);
            assert forall|k: int| 0 <= k < t.len() implies #[trigger] t[k] != '.' by {
                assert(is_hex(t[k]) || t[k] == ':');
            }
        }
    }
}

} // verus!
