//! Hardware addresses, and the two bits of one that carry meaning.
//!
//! Bit 0 of the first octet is the group bit (multicast); bit 1 is the local
//! bit (assigned by the user of the address rather than by the IEEE). A
//! device that randomises its address sets the local bit, so the vendor
//! lookup asks [`MacAddr::is_randomised`] before it asks the registry.

use vstd::prelude::*;
use crate::text::{chars_of, hex_char, hex_digit, push_char};
use crate::v6text::{hex_val, is_hex};

verus! {

/// A six-byte hardware address.
#[derive(Clone, Copy, PartialEq, Eq, PartialOrd, Ord, Hash, Debug)]
pub struct MacAddr(pub [u8; 6]);

/// The error of a text that is not a hardware address.
#[derive(Debug, Clone, Copy, PartialEq, Eq, Structural)]
pub struct ParseMacError;

impl MacAddr {
    /// The all-zero address, which an unresolved neighbour entry and an
    /// interface with no hardware address both report.
    pub fn zero() -> (m: MacAddr)
        ensures
            m.spec_is_zero(),
    {
        MacAddr([0u8, 0u8, 0u8, 0u8, 0u8, 0u8])
    }

    /// The broadcast address, the destination of an ARP request.
    pub fn broadcast() -> (m: MacAddr)
        ensures
            m.spec_is_broadcast(),
    {
        MacAddr([0xffu8, 0xffu8, 0xffu8, 0xffu8, 0xffu8, 0xffu8])
    }

    pub open spec fn octet(self, i: int) -> u8 {
        self.0@[i]
    }

    pub open spec fn spec_is_zero(self) -> bool {
        forall|i: int| 0 <= i < 6 ==> #[trigger] self.0@[i] == 0
    }

    pub open spec fn spec_is_broadcast(self) -> bool {
        forall|i: int| 0 <= i < 6 ==> #[trigger] self.0@[i] == 0xff
    }

    /// The group bit: bit 0 of the first octet.
    pub open spec fn spec_is_multicast(self) -> bool {
        self.0@[0] & 1 != 0
    }

    /// The local bit: bit 1 of the first octet.
    pub open spec fn spec_is_local(self) -> bool {
        self.0@[0] & 2 != 0
    }

    /// A device address that was not assigned by a manufacturer.
    pub open spec fn spec_is_randomised(self) -> bool {
        self.spec_is_local() && !self.spec_is_multicast() && !self.spec_is_zero()
    }

    /// The 24-bit organisationally unique identifier.
    pub open spec fn spec_oui(self) -> int {
        (self.0@[0] as u32) * 65536 + (self.0@[1] as u32) * 256 + self.0@[2] as u32
    }

    pub fn new(octets: [u8; 6]) -> (m: MacAddr)
        ensures
            m.0 == octets,
    {
        MacAddr(octets)
    }

    pub fn octets(self) -> (o: [u8; 6])
        ensures
            o == self.0,
    {
        self.0
    }

    pub fn is_zero(self) -> (b: bool)
        ensures
            b == self.spec_is_zero(),
    {
        let o = self.0;
        o[0] == 0 && o[1] == 0 && o[2] == 0 && o[3] == 0 && o[4] == 0 && o[5] == 0
    }

    pub fn is_broadcast(self) -> (b: bool)
        ensures
            b == self.spec_is_broadcast(),
    {
        let o = self.0;
        o[0] == 0xff && o[1] == 0xff && o[2] == 0xff && o[3] == 0xff && o[4] == 0xff
            && o[5] == 0xff
    }

    /// Group bit: this address names a set of receivers, not one device.
    pub fn is_multicast(self) -> (b: bool)
        ensures
            b == self.spec_is_multicast(),
    {
        self.0[0] & 0x01 != 0
    }

    /// Local bit: assigned by the user of the address rather than by the IEEE.
    pub fn is_locally_administered(self) -> (b: bool)
        ensures
            b == self.spec_is_local(),
    {
        self.0[0] & 0x02 != 0
    }

    /// A device address that was not assigned by a manufacturer: the local bit
    /// set, and neither multicast nor all zero.
    pub fn is_randomised(self) -> (b: bool)
        ensures
            b == self.spec_is_randomised(),
    {
        self.is_locally_administered() && !self.is_multicast() && !self.is_zero()
    }

    /// The 24-bit OUI, for the vendor table.
    pub fn oui(self) -> (v: u32)
        ensures
            v == self.spec_oui(),
    {
        (self.0[0] as u32) * 65536 + (self.0[1] as u32) * 256 + self.0[2] as u32
    }
}

/// The two lower-case hex digits of an octet.
pub open spec fn hex2(b: u8) -> Seq<char> {
    seq![hex_char((b / 16) as int), hex_char((b % 16) as int)]
}

/// `00:1a:2b:3c:4d:5e`.
pub open spec fn mac_text(m: MacAddr) -> Seq<char> {
    hex2(m.0[0]) + seq![':'] + hex2(m.0[1]) + seq![':'] + hex2(m.0[2]) + seq![':'] + hex2(m.0[3])
        + seq![':'] + hex2(m.0[4]) + seq![':'] + hex2(m.0[5])
}

pub open spec fn is_separator(c: char) -> bool {
    c == ':' || c == '-' || c == '.'
}

/// The characters of a text other than the separators the platforms use.
pub open spec fn mac_digits(s: Seq<char>) -> Seq<char>
    decreases s.len(),
{
    if s.len() == 0 {
        Seq::empty()
    } else if is_separator(s.last()) {
        mac_digits(s.drop_last())
    } else {
        mac_digits(s.drop_last()).push(s.last())
    }
}

/// The octet two hex digits spell.
pub open spec fn octet_of(d: Seq<char>, i: int) -> u8 {
    (hex_val(d[2 * i]) * 16 + hex_val(d[2 * i + 1])) as u8
}

/// The hardware address a text spells: twelve hex digits, with any of
/// `:`, `-` and `.` between them anywhere.
pub open spec fn mac_from_text(s: Seq<char>) -> Option<MacAddr> {
    let d = mac_digits(s);
    if d.len() == 12 && forall|i: int| 0 <= i < 12 ==> #[trigger] is_hex(d[i]) {
        Some(
            MacAddr(
                [
                    octet_of(d, 0),
                    octet_of(d, 1),
                    octet_of(d, 2),
                    octet_of(d, 3),
                    octet_of(d, 4),
                    octet_of(d, 5),
                ],
            ),
        )
    } else {
        None
    }
}

fn push_hex2(s: &mut String, b: u8)
    ensures
        final(s)@ == old(s)@ + hex2(b),
{
    push_char(s, hex_digit(b / 16));
    push_char(s, hex_digit(b % 16));
    proof {
        assert(final(s)@ =~= old(s)@ + hex2(b));
    }
}

fn hex_value_of(c: char) -> (r: Option<u8>)
    ensures
        match r {
            Some(v) => is_hex(c) && v == hex_val(c) && v < 16,
            None => !is_hex(c),
        },
{
    if '0' <= c && c <= '9' {
        Some(((c as u32) - ('0' as u32)) as u8)
    } else if 'a' <= c && c <= 'f' {
        Some(((c as u32) - ('a' as u32) + 10) as u8)
    } else if 'A' <= c && c <= 'F' {
        Some(((c as u32) - ('A' as u32) + 10) as u8)
    } else {
        None
    }
}

impl MacAddr {
    /// Lower case and colon separated: `00:1a:2b:3c:4d:5e`.
    pub fn to_string(&self) -> (s: String)
        ensures
            s@ == mac_text(*self),
    {
        let mut s = String::new();
        push_hex2(&mut s, self.0[0]);
        push_char(&mut s, ':');
        push_hex2(&mut s, self.0[1]);
        push_char(&mut s, ':');
        push_hex2(&mut s, self.0[2]);
        push_char(&mut s, ':');
        push_hex2(&mut s, self.0[3]);
        push_char(&mut s, ':');
        push_hex2(&mut s, self.0[4]);
        push_char(&mut s, ':');
        push_hex2(&mut s, self.0[5]);
        proof {
            assert(s@ =~= mac_text(*self));
        }
        s
    }

    /// Reads twelve hex digits with any of the separators the platforms
    /// use: `00:1a:…`, `00-1A-…`, `001a.2b3c.4d5e`, or none.
    pub fn parse(text: &str) -> (r: Result<MacAddr, ParseMacError>)
        ensures
            match mac_from_text(text@) {
                Some(m) => r == Ok::<MacAddr, ParseMacError>(m),
                None => r is Err,
            },
    {
        let v = chars_of(text);
        let mut hexes: Vec<char> = Vec::new();
        let mut i: usize = 0;
        while i < v.len()
            invariant
                i <= v@.len(),
                v@ == text@,
                hexes@.len() <= 12,
                hexes@ == mac_digits(v@.take(i as int)),
                forall|k: int| 0 <= k < hexes@.len() ==> #[trigger] is_hex(hexes@[k]),
            decreases v@.len() - i,
        {
            proof {
                assert(v@.take(i + 1).drop_last() =~= v@.take(i as int));
            }
            let c = v[i];
            if !(c == ':' || c == '-' || c == '.') {
                if hex_value_of(c).is_none() {
                    proof {
                        lemma_digits_prefix(v@, i as int + 1);
                        let ds = mac_digits(v@.take(i + 1));
                        assert(ds[ds.len() - 1] == c);
                        lemma_digits_extend(v@, i as int + 1, ds.len() - 1);
                    }
                    return Err(ParseMacError);
                }
                if hexes.len() >= 12 {
                    proof {
                        lemma_digits_grow(v@, i as int + 1);
                    }
                    return Err(ParseMacError);
                }
                hexes.push(c);
            }
            i += 1;
        }
        proof {
            assert(v@.take(v@.len() as int) =~= v@);
        }
        if hexes.len() != 12 {
            return Err(ParseMacError);
        }
        let mut octets: [u8; 6] = [0u8; 6];
        let mut k: usize = 0;
        while k < 6
            invariant
                k <= 6,
                hexes@.len() == 12,
                forall|t: int| 0 <= t < 12 ==> #[trigger] is_hex(hexes@[t]),
                forall|t: int| 0 <= t < k ==> #[trigger] octets[t] == octet_of(hexes@, t),
            decreases 6 - k,
        {
            assert(is_hex(hexes@[2 * k as int]));
            assert(is_hex(hexes@[2 * k + 1]));
            let hi = hex_value_of(hexes[2 * k]).unwrap();
            let lo = hex_value_of(hexes[2 * k + 1]).unwrap();
            octets[k] = hi * 16 + lo;
            k += 1;
        }
        proof {
            assert(forall|t: int| 0 <= t < 12 ==> #[trigger] is_hex(mac_digits(text@)[t]));
        }
        let m = MacAddr(octets);
        proof {
            let want = mac_from_text(text@)->0;
            assert(m.0 =~= want.0);
        }
        Ok(m)
    }
}

/// The separator-free characters of a prefix are a prefix of those of the
/// whole.
proof fn lemma_digits_prefix(s: Seq<char>, n: int)
    requires
        0 <= n <= s.len(),
    ensures
        mac_digits(s.take(n)).len() <= mac_digits(s).len(),
        forall|k: int| 0 <= k < mac_digits(s.take(n)).len() ==> #[trigger] mac_digits(s.take(n))[k] == mac_digits(s)[k],
    decreases s.len() - n,
{
    if n < s.len() {
        lemma_digits_prefix(s, n + 1);
        assert(s.take(n + 1).drop_last() =~= s.take(n));
        let a = mac_digits(s.take(n));
        let b = mac_digits(s.take(n + 1));
        assert(b == a || b == a.push(s[n]));
        assert forall|k: int| 0 <= k < a.len() implies #[trigger] a[k] == mac_digits(s)[k] by {
            assert(b[k] == a[k]);
        }
    } else {
        assert(s.take(n) =~= s);
    }
}

/// A character that is neither a separator nor a hex digit, found in a
/// prefix, is found in the whole.
proof fn lemma_digits_extend(s: Seq<char>, n: int, k: int)
    requires
        0 <= n <= s.len(),
        0 <= k < mac_digits(s.take(n)).len(),
        !is_hex(mac_digits(s.take(n))[k]),
    ensures
        mac_from_text(s) is None,
{
    lemma_digits_prefix(s, n);
    let d = mac_digits(s);
    if d.len() == 12 && k < 12 {
        assert(!is_hex(d[k]));
    }
}

/// A thirteenth digit in a prefix is one too many for the whole.
proof fn lemma_digits_grow(s: Seq<char>, n: int)
    requires
        0 <= n <= s.len(),
        mac_digits(s.take(n)).len() > 12,
    ensures
        mac_from_text(s) is None,
{
    lemma_digits_prefix(s, n);
}

impl ParseMacError {
    pub fn to_string(&self) -> (s: String)
        ensures
            s@ == "not a hardware address"@,
    {
        crate::text::string_of(chars_of("not a hardware address").as_slice())
    }
}

impl core::str::FromStr for MacAddr {
    type Err = ParseMacError;

    fn from_str(s: &str) -> (r: Result<MacAddr, ParseMacError>)
        ensures
            match mac_from_text(s@) {
                Some(m) => r == Ok::<MacAddr, ParseMacError>(m),
                None => r == Err::<MacAddr, ParseMacError>(ParseMacError),
            },
    {
        match MacAddr::parse(s) {
            Ok(m) => Ok(m),
            Err(_) => Err(ParseMacError),
        }
    }
}

proof fn lemma_digits_concat(a: Seq<char>, b: Seq<char>)
    ensures
        mac_digits(a + b) == mac_digits(a) + mac_digits(b),
    decreases b.len(),
{
    if b.len() == 0 {
        assert(a + b =~= a);
        assert(mac_digits(a) + mac_digits(b) =~= mac_digits(a));
    } else {
        lemma_digits_concat(a, b.drop_last());
        assert((a + b).drop_last() =~= a + b.drop_last());
        if is_separator(b.last()) {
        } else {
            assert(mac_digits(a) + mac_digits(b.drop_last()).push(b.last()) =~= (mac_digits(a)
                + mac_digits(b.drop_last())).push(b.last()));
        }
    }
}

proof fn lemma_hex_char(d: int)
    requires
        0 <= d < 16,
    ensures
        is_hex(hex_char(d)),
        hex_val(hex_char(d)) == d,
        !is_separator(hex_char(d)),
{
}

proof fn lemma_hex2(b: u8)
    ensures
        mac_digits(hex2(b)) == hex2(b),
        is_hex(hex2(b)[0]) && is_hex(hex2(b)[1]),
        (hex_val(hex2(b)[0]) * 16 + hex_val(hex2(b)[1])) as u8 == b,
{
    lemma_hex_char((b / 16) as int);
    lemma_hex_char((b % 16) as int);
    let h = hex2(b);
    assert(h[0] == hex_char((b / 16) as int));
    assert(h[1] == hex_char((b % 16) as int));
    assert(h.drop_last() =~= seq![h[0]]);
    assert(seq![h[0]].drop_last() =~= Seq::<char>::empty());
    assert(mac_digits(Seq::<char>::empty()) =~= Seq::<char>::empty());
    assert(seq![h[0]].last() == h[0]);
    assert(mac_digits(seq![h[0]]) =~= Seq::<char>::empty().push(h[0]));
    assert(mac_digits(seq![h[0]]) =~= seq![h[0]]);
    assert(mac_digits(h) =~= h);
}

proof fn lemma_digits_step(a: Seq<char>, h: Seq<char>)
    requires
        mac_digits(h) == h,
    ensures
        mac_digits(a + seq![':'] + h) == mac_digits(a) + h,
{
    let c = seq![':'];
    assert(mac_digits(c) =~= Seq::<char>::empty()) by {
        assert(c.drop_last() =~= Seq::<char>::empty());
        assert(mac_digits(Seq::<char>::empty()) =~= Seq::<char>::empty());
        assert(c.last() == ':');
    }
    lemma_digits_concat(a, c);
    lemma_digits_concat(a + c, h);
    assert(mac_digits(a) + Seq::<char>::empty() =~= mac_digits(a));
}

/// What is written reads back: the text of a hardware address parses to
/// that address.
pub proof fn lemma_mac_text_round_trip(m: MacAddr)
    ensures
        mac_from_text(mac_text(m)) == Some(m),
{
    let c = seq![':'];
    let h0 = hex2(m.0[0]);
    let h1 = hex2(m.0[1]);
    let h2 = hex2(m.0[2]);
    let h3 = hex2(m.0[3]);
    let h4 = hex2(m.0[4]);
    let h5 = hex2(m.0[5]);
    lemma_hex2(m.0[0]);
    lemma_hex2(m.0[1]);
    lemma_hex2(m.0[2]);
    lemma_hex2(m.0[3]);
    lemma_hex2(m.0[4]);
    lemma_hex2(m.0[5]);
    let t1 = h0 + c + h1;
    let t2 = t1 + c + h2;
    let t3 = t2 + c + h3;
    let t4 = t3 + c + h4;
    let t5 = t4 + c + h5;
    lemma_digits_step(h0, h1);
    lemma_digits_step(t1, h2);
    lemma_digits_step(t2, h3);
    lemma_digits_step(t3, h4);
    lemma_digits_step(t4, h5);
    assert(mac_text(m) == t5);
    let d = mac_digits(t5);
    assert(d == h0 + h1 + h2 + h3 + h4 + h5);
    assert forall|i: int| 0 <= i < 12 implies #[trigger] is_hex(d[i]) by {
        if i < 2 {
            assert(d[i] == h0[i]);
        } else if i < 4 {
            assert(d[i] == h1[i - 2]);
        } else if i < 6 {
            assert(d[i] == h2[i - 4]);
        } else if i < 8 {
            assert(d[i] == h3[i - 6]);
        } else if i < 10 {
            assert(d[i] == h4[i - 8]);
        } else {
            assert(d[i] == h5[i - 10]);
        }
    }
    assert(d[0] == h0[0] && d[1] == h0[1] && d[2] == h1[0] && d[3] == h1[1]);
    assert(d[4] == h2[0] && d[5] == h2[1] && d[6] == h3[0] && d[7] == h3[1]);
    assert(d[8] == h4[0] && d[9] == h4[1] && d[10] == h5[0] && d[11] == h5[1]);
    let r = mac_from_text(t5)->0;
    assert(r.0 =~= m.0);
}

} // verus!
