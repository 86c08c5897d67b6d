//! Internet addresses of both families, as plain bytes.
//!
//! The octets are what every wire format in this crate reads and writes; the
//! big-endian number they spell is what the prefix arithmetic works on. An
//! IPv4 address is written and read in dotted decimal here, and IPv6 text in
//! `v6text`.

use vstd::prelude::*;
use crate::text::{chars_of, decimal, push_char, push_decimal, split, split_chars};
use crate::v6text::{ipv6_from_text, ipv6_parse, ipv6_text, ipv6_to_string};

verus! {

/// An IPv4 address, most significant octet first.
#[derive(Clone, Copy, PartialEq, Eq, PartialOrd, Ord, Hash, Debug)]
pub struct Ipv4Addr(pub [u8; 4]);

/// An IPv6 address, most significant octet first.
#[derive(Clone, Copy, PartialEq, Eq, PartialOrd, Ord, Hash, Debug)]
pub struct Ipv6Addr(pub [u8; 16]);

/// An address of either family.
#[derive(Clone, Copy, PartialEq, Eq, PartialOrd, Ord, Hash, Debug)]
pub enum IpAddr {
    V4(Ipv4Addr),
    V6(Ipv6Addr),
}

/// The error of a text that is not an address.
#[derive(Clone, Copy, Debug, PartialEq, Eq, Structural)]
pub struct AddrParseError;

pub open spec fn bits4(o: [u8; 4]) -> u32 {
    ((o[0] as u32) << 24u32) | ((o[1] as u32) << 16u32) | ((o[2] as u32) << 8u32) | (o[3] as u32)
}

pub open spec fn bits16(o: [u8; 16]) -> u128 {
    ((o[0] as u128) << 120u128) | ((o[1] as u128) << 112u128) | ((o[2] as u128) << 104u128) | ((
    o[3] as u128) << 96u128) | ((o[4] as u128) << 88u128) | ((o[5] as u128) << 80u128) | ((
    o[6] as u128) << 72u128) | ((o[7] as u128) << 64u128) | ((o[8] as u128) << 56u128) | ((
    o[9] as u128) << 48u128) | ((o[10] as u128) << 40u128) | ((o[11] as u128) << 32u128) | ((
    o[12] as u128) << 24u128) | ((o[13] as u128) << 16u128) | ((o[14] as u128) << 8u128) | (
    o[15] as u128)
}

/// The IPv4 address whose number is `v`.
pub open spec fn ipv4_of_bits(v: u32) -> Ipv4Addr {
    Ipv4Addr([(v >> 24u32) as u8, (v >> 16u32) as u8, (v >> 8u32) as u8, v as u8])
}

/// The IPv6 address whose number is `v`.
pub open spec fn ipv6_of_bits(v: u128) -> Ipv6Addr {
    Ipv6Addr(
        [
            (v >> 120u128) as u8,
            (v >> 112u128) as u8,
            (v >> 104u128) as u8,
            (v >> 96u128) as u8,
            (v >> 88u128) as u8,
            (v >> 80u128) as u8,
            (v >> 72u128) as u8,
            (v >> 64u128) as u8,
            (v >> 56u128) as u8,
            (v >> 48u128) as u8,
            (v >> 40u128) as u8,
            (v >> 32u128) as u8,
            (v >> 24u128) as u8,
            (v >> 16u128) as u8,
            (v >> 8u128) as u8,
            v as u8,
        ],
    )
}

/// The dotted-decimal text of four octets.
pub open spec fn dotted(o: [u8; 4]) -> Seq<char> {
    decimal(o[0] as nat) + seq!['.'] + decimal(o[1] as nat) + seq!['.'] + decimal(o[2] as nat)
        + seq!['.'] + decimal(o[3] as nat)
}

/// Is `c` an ASCII decimal digit?
pub open spec fn is_digit(c: char) -> bool {
    '0' <= c && c <= '9'
}

/// The value of a run of decimal digits.
pub open spec fn digits_value(s: Seq<char>) -> nat
    decreases s.len(),
{
    if s.len() == 0 {
        0
    } else {
        digits_value(s.drop_last()) * 10 + (s.last() as nat - '0' as nat) as nat
    }
}

pub open spec fn all_digits(s: Seq<char>) -> bool {
    forall|i: int| 0 <= i < s.len() ==> #[trigger] is_digit(s[i])
}

/// One group of a dotted quad as the standard library reads it: one to three
/// digits, no leading zero unless the group is `0`, at most 255.
pub open spec fn octet_text(g: Seq<char>) -> bool {
    &&& 1 <= g.len() <= 3
    &&& all_digits(g)
    &&& !(g.len() > 1 && g[0] == '0')
    &&& digits_value(g) <= 255
}

/// The address a dotted quad spells, if it is one: exactly four groups.
pub open spec fn ipv4_from_text(s: Seq<char>) -> Option<Ipv4Addr> {
    let g = split(s, '.');
    if g.len() == 4 && octet_text(g[0]) && octet_text(g[1]) && octet_text(g[2]) && octet_text(
        g[3],
    ) {
        Some(
            Ipv4Addr(
                [
                    digits_value(g[0]) as u8,
                    digits_value(g[1]) as u8,
                    digits_value(g[2]) as u8,
                    digits_value(g[3]) as u8,
                ],
            ),
        )
    } else {
        None
    }
}

/// The value of one group of digits, and whether it is an octet.
fn octet_of(g: &Vec<char>) -> (r: Option<u8>)
    ensures
        match r {
            Some(v) => octet_text(g@) && v == digits_value(g@),
            None => !octet_text(g@),
        },
{
    let n = g.len();
    if n < 1 || n > 3 {
        return None;
    }
    if n > 1 && g[0] == '0' {
        return None;
    }
    let mut v: u32 = 0;
    let mut i: usize = 0;
    while i < n
        invariant
            n == g@.len(),
            1 <= n <= 3,
            i <= n,
            all_digits(g@.take(i as int)),
            v == digits_value(g@.take(i as int)),
            i == 0 ==> v == 0,
            i == 1 ==> v < 10,
            i == 2 ==> v < 100,
            i == 3 ==> v < 1000,
        decreases n - i,
    {
        let c = g[i];
        if !('0' <= c && c <= '9') {
            assert(!is_digit(g@[i as int]));
            return None;
        }
        proof {
            assert(g@.take(i + 1).drop_last() =~= g@.take(i as int));
        }
        v = v * 10 + (c as u32 - '0' as u32);
        i += 1;
    }
    proof {
        assert(g@.take(n as int) =~= g@);
    }
    if v > 255 {
        return None;
    }
    Some(v as u8)
}

impl Ipv4Addr {
    pub open spec fn bits(self) -> u32 {
        bits4(self.0)
    }

    pub fn new(a: u8, b: u8, c: u8, d: u8) -> (r: Ipv4Addr)
        ensures
            r.0 == [a, b, c, d],
    {
        Ipv4Addr([a, b, c, d])
    }

    pub fn octets(self) -> (o: [u8; 4])
        ensures
            o == self.0,
    {
        self.0
    }

    pub fn to_bits(self) -> (v: u32)
        ensures
            v == self.bits(),
    {
        ((self.0[0] as u32) << 24u32) | ((self.0[1] as u32) << 16u32) | ((self.0[2] as u32)
            << 8u32) | (self.0[3] as u32)
    }

    pub fn from_bits(v: u32) -> (r: Ipv4Addr)
        ensures
            r == ipv4_of_bits(v),
            r.bits() == v,
    {
        let a = (v >> 24u32) as u8;
        let b = (v >> 16u32) as u8;
        let c = (v >> 8u32) as u8;
        let d = v as u8;
        assert((((a as u32) << 24u32) | ((b as u32) << 16u32) | ((c as u32) << 8u32) | (d as u32))
            == v) by (bit_vector)
            requires
                a == (v >> 24u32) as u8,
                b == (v >> 16u32) as u8,
                c == (v >> 8u32) as u8,
                d == v as u8,
        ;
        Ipv4Addr([a, b, c, d])
    }

    /// Dotted decimal: `192.168.0.1`.
    pub fn to_string(&self) -> (s: String)
        ensures
            s@ == dotted(self.0),
    {
        let mut s = String::new();
        push_decimal(&mut s, self.0[0] as u64);
        push_char(&mut s, '.');
        push_decimal(&mut s, self.0[1] as u64);
        push_char(&mut s, '.');
        push_decimal(&mut s, self.0[2] as u64);
        push_char(&mut s, '.');
        push_decimal(&mut s, self.0[3] as u64);
        proof {
            assert(s@ =~= dotted(self.0));
        }
        s
    }

    /// Reads a dotted quad the way the standard library does.
    pub fn parse(s: &str) -> (r: Option<Ipv4Addr>)
        ensures
            r == ipv4_from_text(s@),
    {
        let v = chars_of(s);
        let g = split_chars(v.as_slice(), '.');
        if g.len() != 4 {
            return None;
        }
        proof {
            assert(g@[0]@ == split(s@, '.')[0]);
            assert(g@[1]@ == split(s@, '.')[1]);
            assert(g@[2]@ == split(s@, '.')[2]);
            assert(g@[3]@ == split(s@, '.')[3]);
        }
        let a = match octet_of(&g[0]) {
            Some(x) => x,
            None => return None,
        };
        let b = match octet_of(&g[1]) {
            Some(x) => x,
            None => return None,
        };
        let c = match octet_of(&g[2]) {
            Some(x) => x,
            None => return None,
        };
        let d = match octet_of(&g[3]) {
            Some(x) => x,
            None => return None,
        };
        Some(Ipv4Addr([a, b, c, d]))
    }
}

impl Ipv6Addr {
    pub open spec fn bits(self) -> u128 {
        bits16(self.0)
    }

    pub fn octets(self) -> (o: [u8; 16])
        ensures
            o == self.0,
    {
        self.0
    }

    pub fn to_bits(self) -> (v: u128)
        ensures
            v == self.bits(),
    {
        let o = self.0;
        ((o[0] as u128) << 120u128) | ((o[1] as u128) << 112u128) | ((o[2] as u128) << 104u128)
            | ((o[3] as u128) << 96u128) | ((o[4] as u128) << 88u128) | ((o[5] as u128) << 80u128)
            | ((o[6] as u128) << 72u128) | ((o[7] as u128) << 64u128) | ((o[8] as u128) << 56u128)
            | ((o[9] as u128) << 48u128) | ((o[10] as u128) << 40u128) | ((o[11] as u128)
            << 32u128) | ((o[12] as u128) << 24u128) | ((o[13] as u128) << 16u128) | ((
        o[14] as u128) << 8u128) | (o[15] as u128)
    }

    pub fn from_bits(v: u128) -> (r: Ipv6Addr)
        ensures
            r == ipv6_of_bits(v),
            r.bits() == v,
    {
        let x0 = (v >> 120u128) as u8;
        let x1 = (v >> 112u128) as u8;
        let x2 = (v >> 104u128) as u8;
        let x3 = (v >> 96u128) as u8;
        let x4 = (v >> 88u128) as u8;
        let x5 = (v >> 80u128) as u8;
        let x6 = (v >> 72u128) as u8;
        let x7 = (v >> 64u128) as u8;
        let x8 = (v >> 56u128) as u8;
        let x9 = (v >> 48u128) as u8;
        let x10 = (v >> 40u128) as u8;
        let x11 = (v >> 32u128) as u8;
        let x12 = (v >> 24u128) as u8;
        let x13 = (v >> 16u128) as u8;
        let x14 = (v >> 8u128) as u8;
        let x15 = v as u8;
        assert((((x0 as u128) << 120u128) | ((x1 as u128) << 112u128) | ((x2 as u128) << 104u128) | ((x3 as u128) << 96u128) | ((x4 as u128) << 88u128) | ((x5 as u128) << 80u128) | ((x6 as u128) << 72u128) | ((x7 as u128) << 64u128) | ((x8 as u128) << 56u128) | ((x9 as u128) << 48u128) | ((x10 as u128) << 40u128) | ((x11 as u128) << 32u128) | ((x12 as u128) << 24u128) | ((x13 as u128) << 16u128) | ((x14 as u128) << 8u128) | (x15 as u128)) == v) by (bit_vector)
            requires
                x0 == (v >> 120u128) as u8,
                x1 == (v >> 112u128) as u8,
                x2 == (v >> 104u128) as u8,
                x3 == (v >> 96u128) as u8,
                x4 == (v >> 88u128) as u8,
                x5 == (v >> 80u128) as u8,
                x6 == (v >> 72u128) as u8,
                x7 == (v >> 64u128) as u8,
                x8 == (v >> 56u128) as u8,
                x9 == (v >> 48u128) as u8,
                x10 == (v >> 40u128) as u8,
                x11 == (v >> 32u128) as u8,
                x12 == (v >> 24u128) as u8,
                x13 == (v >> 16u128) as u8,
                x14 == (v >> 8u128) as u8,
                x15 == v as u8,
        ;
        Ipv6Addr([x0, x1, x2, x3, x4, x5, x6, x7, x8, x9, x10, x11, x12, x13, x14, x15])
    }

    /// `::`, the address of nobody.
    pub fn is_unspecified(self) -> (b: bool)
        ensures
            b == (forall|i: int| 0 <= i < 16 ==> #[trigger] self.0[i] == 0),
    {
        let mut i: usize = 0;
        while i < 16
            invariant
                i <= 16,
                forall|j: int| 0 <= j < i ==> #[trigger] self.0[j] == 0,
            decreases 16 - i,
        {
            if self.0[i] != 0 {
                return false;
            }
            i += 1;
        }
        true
    }

}

impl IpAddr {
    pub fn is_ipv4(&self) -> (b: bool)
        ensures
            b == (*self is V4),
    {
        match self {
            IpAddr::V4(_) => true,
            IpAddr::V6(_) => false,
        }
    }

    pub fn is_ipv6(&self) -> (b: bool)
        ensures
            b == (*self is V6),
    {
        match self {
            IpAddr::V4(_) => false,
            IpAddr::V6(_) => true,
        }
    }

}

/// The text of an address of either family.
pub open spec fn ip_text(a: IpAddr) -> Seq<char> {
    match a {
        IpAddr::V4(x) => dotted(x.0),
        IpAddr::V6(x) => ipv6_text(x.0),
    }
}

/// The address a text spells: a dotted quad, or else IPv6.
pub open spec fn ip_from_text(s: Seq<char>) -> Option<IpAddr> {
    match ipv4_from_text(s) {
        Some(a) => Some(IpAddr::V4(a)),
        None => match ipv6_from_text(s) {
            Some(b) => Some(IpAddr::V6(b)),
            None => None,
        },
    }
}

/// The all-zero address of its family.
pub open spec fn is_unspecified_addr(a: IpAddr) -> bool {
    match a {
        IpAddr::V4(x) => forall|i: int| 0 <= i < 4 ==> #[trigger] x.0[i] == 0,
        IpAddr::V6(x) => forall|i: int| 0 <= i < 16 ==> #[trigger] x.0[i] == 0,
    }
}

/// The order addresses sort in: IPv4 before IPv6, then by value.
pub open spec fn ip_key(a: IpAddr) -> (int, int) {
    match a {
        IpAddr::V4(x) => (0, x.bits() as int),
        IpAddr::V6(x) => (1, x.bits() as int),
    }
}

pub open spec fn key_less(a: (int, int), b: (int, int)) -> bool {
    a.0 < b.0 || (a.0 == b.0 && a.1 < b.1)
}

impl Ipv6Addr {
    /// The standard notation: `fe80::1`, `::ffff:192.0.2.1`.
    pub fn to_string(&self) -> (s: String)
        ensures
            s@ == ipv6_text(self.0),
    {
        ipv6_to_string(self)
    }

    pub fn parse(s: &str) -> (r: Option<Ipv6Addr>)
        ensures
            r == ipv6_from_text(s@),
    {
        ipv6_parse(s)
    }
}

impl IpAddr {
    pub fn to_string(&self) -> (s: String)
        ensures
            s@ == ip_text(*self),
    {
        match self {
            IpAddr::V4(a) => a.to_string(),
            IpAddr::V6(a) => a.to_string(),
        }
    }

    /// Reads either family, as the standard library does.
    pub fn parse(s: &str) -> (r: Option<IpAddr>)
        ensures
            r == ip_from_text(s@),
    {
        match Ipv4Addr::parse(s) {
            Some(a) => Some(IpAddr::V4(a)),
            None => match Ipv6Addr::parse(s) {
                Some(b) => Some(IpAddr::V6(b)),
                None => None,
            },
        }
    }

    /// The address as a number of its family's width.
    pub fn to_u128(&self) -> (v: u128)
        ensures
            v == ip_key(*self).1,
    {
        match self {
            IpAddr::V4(a) => a.to_bits() as u128,
            IpAddr::V6(a) => a.to_bits(),
        }
    }

    /// The all-zero address of its family.
    pub fn is_unspecified(&self) -> (b: bool)
        ensures
            b == is_unspecified_addr(*self),
    {
        match self {
            IpAddr::V4(a) => a.0[0] == 0 && a.0[1] == 0 && a.0[2] == 0 && a.0[3] == 0,
            IpAddr::V6(a) => a.is_unspecified(),
        }
    }

    /// The same address?
    pub fn same(&self, other: &IpAddr) -> (b: bool)
        ensures
            b == (*self == *other),
    {
        match *self {
            IpAddr::V4(a) => match *other {
                IpAddr::V4(b) => {
                    let mut i: usize = 0;
                    while i < 4
                        invariant
                            i <= 4,
                            *self == IpAddr::V4(a),
                            *other == IpAddr::V4(b),
                            forall|j: int| 0 <= j < i ==> #[trigger] a.0[j] == b.0[j],
                        decreases 4 - i,
                    {
                        if a.0[i] != b.0[i] {
                            assert(a.0[i as int] != b.0[i as int]);
                            return false;
                        }
                        i += 1;
                    }
                    assert(a.0 =~= b.0);
                    true
                },
                IpAddr::V6(_) => false,
            },
            IpAddr::V6(a) => match *other {
                IpAddr::V6(b) => {
                    let mut i: usize = 0;
                    while i < 16
                        invariant
                            i <= 16,
                            *self == IpAddr::V6(a),
                            *other == IpAddr::V6(b),
                            forall|j: int| 0 <= j < i ==> #[trigger] a.0[j] == b.0[j],
                        decreases 16 - i,
                    {
                        if a.0[i] != b.0[i] {
                            assert(a.0[i as int] != b.0[i as int]);
                            return false;
                        }
                        i += 1;
                    }
                    assert(a.0 =~= b.0);
                    true
                },
                IpAddr::V4(_) => false,
            },
        }
    }

    /// Does `self` sort before `other`?
    pub fn sorts_before(&self, other: &IpAddr) -> (b: bool)
        ensures
            b == key_less(ip_key(*self), ip_key(*other)),
    {
        let a = self.to_u128();
        let b = other.to_u128();
        match (self, other) {
            (IpAddr::V4(_), IpAddr::V6(_)) => true,
            (IpAddr::V6(_), IpAddr::V4(_)) => false,
            _ => a < b,
        }
    }
}

impl core::str::FromStr for Ipv6Addr {
    type Err = AddrParseError;

    fn from_str(s: &str) -> (r: Result<Ipv6Addr, AddrParseError>)
        ensures
            match ipv6_from_text(s@) {
                Some(a) => r == Ok::<Ipv6Addr, AddrParseError>(a),
                None => r == Err::<Ipv6Addr, AddrParseError>(AddrParseError),
            },
    {
        match Ipv6Addr::parse(s) {
            Some(a) => Ok(a),
            None => Err(AddrParseError),
        }
    }
}

impl core::str::FromStr for IpAddr {
    type Err = AddrParseError;

    fn from_str(s: &str) -> (r: Result<IpAddr, AddrParseError>)
        ensures
            match ip_from_text(s@) {
                Some(a) => r == Ok::<IpAddr, AddrParseError>(a),
                None => r == Err::<IpAddr, AddrParseError>(AddrParseError),
            },
    {
        match IpAddr::parse(s) {
            Some(a) => Ok(a),
            None => Err(AddrParseError),
        }
    }
}

impl core::str::FromStr for Ipv4Addr {
    type Err = AddrParseError;

    fn from_str(s: &str) -> (r: Result<Ipv4Addr, AddrParseError>)
        ensures
            match ipv4_from_text(s@) {
                Some(a) => r == Ok::<Ipv4Addr, AddrParseError>(a),
                None => r == Err::<Ipv4Addr, AddrParseError>(AddrParseError),
            },
    {
        match Ipv4Addr::parse(s) {
            Some(a) => Ok(a),
            None => Err(AddrParseError),
        }
    }
}


proof fn lemma_digit_char(d: int)
    requires
        0 <= d < 10,
    ensures
        is_digit(crate::text::digit_char(d)),
        crate::text::digit_char(d) as nat - '0' as nat == d,
        crate::text::digit_char(d) != '.',
        d > 0 ==> crate::text::digit_char(d) != '0',
{
}

/// An octet in decimal is a group a dotted quad accepts, of that value, and
/// holds no dot.
pub(crate) proof fn lemma_octet_text(n: nat)
    requires
        n <= 255,
    ensures
        octet_text(decimal(n)),
        digits_value(decimal(n)) == n,
        forall|i: int| 0 <= i < decimal(n).len() ==> decimal(n)[i] != '.',
{
    let d = decimal(n);
    if n < 10 {
        lemma_digit_char(n as int);
        assert(d == seq![crate::text::digit_char(n as int)]);
        assert(d.drop_last() =~= Seq::<char>::empty());
        assert(digits_value(d) == digits_value(d.drop_last()) * 10 + (d.last() as nat - '0' as nat) as nat);
    } else if n < 100 {
        let c1 = crate::text::digit_char((n / 10) as int);
        let c0 = crate::text::digit_char((n % 10) as int);
        lemma_digit_char((n / 10) as int);
        lemma_digit_char((n % 10) as int);
        let hi = decimal(n / 10);
        assert(hi == seq![c1]);
        assert(d == hi.push(c0));
        assert(d =~= seq![c1, c0]);
        assert(d.drop_last() =~= hi);
        assert(hi.drop_last() =~= Seq::<char>::empty());
        assert(hi.last() == c1);
        assert(digits_value(Seq::<char>::empty()) == 0);
        assert(digits_value(hi) == digits_value(hi.drop_last()) * 10 + (hi.last() as nat - '0' as nat) as nat);
        assert(digits_value(hi) == n / 10);
        assert(digits_value(d) == (n / 10) * 10 + n % 10);
    } else {
        let c2 = crate::text::digit_char((n / 100) as int);
        let c1 = crate::text::digit_char((n / 10 % 10) as int);
        let c0 = crate::text::digit_char((n % 10) as int);
        lemma_digit_char((n / 100) as int);
        lemma_digit_char((n / 10 % 10) as int);
        lemma_digit_char((n % 10) as int);
        let top = decimal(n / 100);
        assert(n / 10 / 10 == n / 100);
        assert(top == seq![c2]);
        let hi = decimal(n / 10);
        assert(hi == top.push(c1));
        assert(d == hi.push(c0));
        assert(d =~= seq![c2, c1, c0]);
        assert(d.drop_last() =~= hi);
        assert(hi.drop_last() =~= top);
        assert(top.drop_last() =~= Seq::<char>::empty());
        assert(top.last() == c2);
        assert(digits_value(Seq::<char>::empty()) == 0);
        assert(digits_value(top) == digits_value(top.drop_last()) * 10 + (top.last() as nat - '0' as nat) as nat);
        assert(digits_value(top) == n / 100);
        assert(digits_value(hi) == (n / 100) * 10 + n / 10 % 10);
        assert(digits_value(d) == ((n / 100) * 10 + n / 10 % 10) * 10 + n % 10);
    }
}

/// A dotted quad reads back as the address it was written from.
pub proof fn lemma_dotted_round_trip(a: Ipv4Addr)
    ensures
        ipv4_from_text(dotted(a.0)) == Some(a),
{
    let o = a.0;
    let d0 = decimal(o[0] as nat);
    let d1 = decimal(o[1] as nat);
    let d2 = decimal(o[2] as nat);
    let d3 = decimal(o[3] as nat);
    lemma_octet_text(o[0] as nat);
    lemma_octet_text(o[1] as nat);
    lemma_octet_text(o[2] as nat);
    lemma_octet_text(o[3] as nat);
    crate::text::lemma_split_whole(d0, '.');
    crate::text::lemma_split_whole(d1, '.');
    crate::text::lemma_split_whole(d2, '.');
    crate::text::lemma_split_whole(d3, '.');
    let a1 = d0 + seq!['.'] + d1;
    let a2 = a1 + seq!['.'] + d2;
    crate::text::lemma_split_join(d0, d1, '.');
    crate::text::lemma_split_join(a1, d2, '.');
    crate::text::lemma_split_join(a2, d3, '.');
    assert(split(a1, '.') =~= seq![d0, d1]);
    assert(split(a2, '.') =~= seq![d0, d1, d2]);
    assert(dotted(o) =~= a2 + seq!['.'] + d3);
    let g = split(dotted(o), '.');
    assert(g =~= seq![d0, d1, d2, d3]);
    assert(g.len() == 4);
    assert(octet_text(g[0]) && octet_text(g[1]) && octet_text(g[2]) && octet_text(g[3]));
    let b = Ipv4Addr(
        [
            digits_value(g[0]) as u8,
            digits_value(g[1]) as u8,
            digits_value(g[2]) as u8,
            digits_value(g[3]) as u8,
        ],
    );
    assert(b.0@ =~= a.0@);
    assert(b.0 == a.0);
    assert(ipv4_from_text(dotted(a.0)) == Some(b));
}


/// A dotted quad is digits and dots, beginning and ending with a digit.
pub(crate) proof fn lemma_dotted_chars(o: [u8; 4])
    ensures
        dotted(o).len() > 0,
        is_digit(dotted(o)[0]),
        is_digit(dotted(o).last()),
        forall|i: int| 0 <= i < dotted(o).len() ==> is_digit(#[trigger] dotted(o)[i]) || dotted(o)[i] == '.',
{
    let d0 = decimal(o[0] as nat);
    let d1 = decimal(o[1] as nat);
    let d2 = decimal(o[2] as nat);
    let d3 = decimal(o[3] as nat);
    lemma_octet_text(o[0] as nat);
    lemma_octet_text(o[1] as nat);
    lemma_octet_text(o[2] as nat);
    lemma_octet_text(o[3] as nat);
    let t = dotted(o);
    let dot = seq!['.'];
    assert(t =~= d0 + dot + d1 + dot + d2 + dot + d3);
    assert(t[0] == d0[0]);
    assert(t.last() == d3[d3.len() - 1]);
    assert forall|i: int| 0 <= i < t.len() implies is_digit(#[trigger] t[i]) || t[i] == '.' by {
        let a = d0.len() as int;
        let b = a + 1 + d1.len();
        let c = b + 1 + d2.len();
        if i < a {
            assert(t[i] == d0[i]);
        } else if i == a {
            assert(t[i] == '.');
        } else if i < b {
            assert(t[i] == d1[i - a - 1]);
        } else if i == b {
            assert(t[i] == '.');
        } else if i < c {
            assert(t[i] == d2[i - b - 1]);
        } else if i == c {
            assert(t[i] == '.');
        } else {
            assert(t[i] == d3[i - c - 1]);
        }
    }
}


/// No IPv6 text is a dotted quad.
proof fn lemma_v6_text_is_not_dotted(o: [u8; 16])
    ensures
        ipv4_from_text(ipv6_text(o)) is None,
{
    let t = ipv6_text(o);
    crate::v6text::lemma_ipv6_text_chars(o);
    if crate::v6text::is_mapped(o) {
        let q = [o[12], o[13], o[14], o[15]];
        let pre = seq![':', ':', 'f', 'f', 'f', 'f', ':'];
        let d0 = decimal(q[0] as nat);
        let d1 = decimal(q[1] as nat);
        let d2 = decimal(q[2] as nat);
        let d3 = decimal(q[3] as nat);
        lemma_octet_text(q[0] as nat);
        let a1 = pre + d0;
        let y = d1 + seq!['.'] + d2 + seq!['.'] + d3;
        assert(t == pre + dotted(q));
        assert(t =~= a1 + seq!['.'] + y);
        assert forall|k: int| 0 <= k < a1.len() implies a1[k] != '.' by {
            if k >= 7 {
                assert(a1[k] == d0[k - 7]);
            }
        }
        crate::text::lemma_split_whole(a1, '.');
        crate::text::lemma_split_join(a1, y, '.');
        let g = split(t, '.');
        assert(g[0] == a1);
        assert(!is_digit(a1[0]));
        assert(!octet_text(g[0]));
    } else {
        crate::text::lemma_split_whole(t, '.');
        assert(split(t, '.').len() == 1);
    }
}

/// An address written out reads back as itself, in either family.
pub proof fn lemma_ip_text_round_trip(a: IpAddr)
    ensures
        ip_from_text(ip_text(a)) == Some(a),
{
    match a {
        IpAddr::V4(x) => {
            lemma_dotted_round_trip(x);
        },
        IpAddr::V6(x) => {
            lemma_v6_text_is_not_dotted(x.0);
            crate::v6text::lemma_ipv6_text_round_trip(x);
        },
    }
}

} // verus!
