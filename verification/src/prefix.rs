//! Networks, and the addresses in them.
//!
//! One type over both families. The interesting asymmetry is not the width
//! but that **a v4 prefix can be enumerated and a v6 one cannot**: a /64 is
//! eighteen quintillion addresses. So [`Prefix::hosts`] answers `None` for
//! anything larger than [`ENUMERABLE_LIMIT`], and the sweep is written against
//! that answer rather than against the address family. The same guard
//! catches an over-broad v4 prefix such as a /8.

use vstd::prelude::*;
use vstd::arithmetic::power2::pow2;
use crate::addr::{
    ip_from_text, ip_key, ip_text, ipv4_of_bits, ipv6_of_bits, IpAddr, Ipv4Addr, Ipv6Addr,
};
use crate::text::{chars_of, decimal, push_char, push_decimal, string_of, trim, trimmed};

verus! {

/// The largest prefix [`Prefix::hosts`] will enumerate: 65 536 addresses, a
/// v4 /16.
pub const ENUMERABLE_LIMIT: u64 = 65536;

/// The widest prefix length of the address's family.
pub open spec fn max_len(a: IpAddr) -> nat {
    match a {
        IpAddr::V4(_) => 32,
        IpAddr::V6(_) => 128,
    }
}

/// The network bits of a v4 prefix of length `len`.
pub open spec fn mask4(len: nat) -> u32 {
    if len == 0 {
        0
    } else {
        0xffff_ffffu32 << ((32 - len) as u32)
    }
}

/// The network bits of a v6 prefix of length `len`.
pub open spec fn mask16(len: nat) -> u128 {
    if len == 0 {
        0
    } else {
        0xffff_ffff_ffff_ffff_ffff_ffff_ffff_ffffu128 << ((128 - len) as u128)
    }
}

/// `a` with every host bit of a prefix of length `len` cleared.
pub open spec fn masked(a: IpAddr, len: nat) -> IpAddr {
    match a {
        IpAddr::V4(x) => IpAddr::V4(ipv4_of_bits(x.bits() & mask4(len))),
        IpAddr::V6(x) => IpAddr::V6(ipv6_of_bits(x.bits() & mask16(len))),
    }
}

/// What a prefix is: its network address and its length.
pub struct PrefixView {
    pub base: IpAddr,
    pub len: nat,
}

/// How many addresses a prefix holds, saturating at `u64::MAX`.
pub open spec fn spec_size(p: PrefixView) -> nat {
    let host_bits = max_len(p.base) - p.len;
    if host_bits >= 64 {
        u64::MAX as nat
    } else {
        pow2(host_bits as nat)
    }
}

/// The numbers of the first and last address a sweep probes, and the family,
/// where the prefix is small enough to sweep. A v4 prefix shorter than /31
/// leaves out its network and broadcast addresses.
pub open spec fn spec_host_range(p: PrefixView) -> Option<(int, int, bool)> {
    if spec_size(p) > ENUMERABLE_LIMIT {
        None
    } else {
        match p.base {
            IpAddr::V4(b) => {
                let first = b.bits();
                let last = first | !mask4(p.len);
                if p.len >= 31 {
                    Some((first as int, last as int, true))
                } else {
                    Some((first + 1, last - 1, true))
                }
            },
            IpAddr::V6(b) => {
                let first = b.bits();
                let last = first | !mask16(p.len);
                Some((first as int, last as int, false))
            },
        }
    }
}

/// The address numbered `n` in a family.
pub open spec fn address_of(v4: bool, n: int) -> IpAddr {
    if v4 {
        IpAddr::V4(ipv4_of_bits(n as u32))
    } else {
        IpAddr::V6(ipv6_of_bits(n as u128))
    }
}

/// An address with a prefix length: `192.168.1.0/24`, `fe80::/64`.
#[derive(Clone, Copy, PartialEq, Eq, Hash, Debug)]
pub struct Prefix {
    base: IpAddr,
    len: u8,
}

impl View for Prefix {
    type V = PrefixView;

    closed spec fn view(&self) -> PrefixView {
        PrefixView { base: self.base, len: self.len as nat }
    }
}

/// Why a text or a length is not a prefix.
#[derive(Debug, Clone, Copy, PartialEq, Eq, Structural)]
pub enum PrefixError {
    Malformed,
    TooLong { len: u8, max: u8 },
}

/// What [`Prefix::new`] gives for an address and a length.
pub open spec fn spec_new(addr: IpAddr, len: nat) -> Result<PrefixView, PrefixError> {
    if len > max_len(addr) {
        Err(PrefixError::TooLong { len: len as u8, max: max_len(addr) as u8 })
    } else {
        Ok(PrefixView { base: masked(addr, len), len })
    }
}

fn mask_bits_v4(len: u8) -> (m: u32)
    requires
        len <= 32,
    ensures
        m == mask4(len as nat),
{
    if len == 0 {
        0
    } else {
        0xffff_ffffu32 << ((32 - len) as u32)
    }
}

fn mask_bits_v6(len: u8) -> (m: u128)
    requires
        len <= 128,
    ensures
        m == mask16(len as nat),
{
    if len == 0 {
        0
    } else {
        0xffff_ffff_ffff_ffff_ffff_ffff_ffff_ffffu128 << ((128 - len) as u128)
    }
}

fn mask(addr: IpAddr, len: u8) -> (r: IpAddr)
    requires
        len <= max_len(addr),
    ensures
        r == masked(addr, len as nat),
{
    match addr {
        IpAddr::V4(a) => IpAddr::V4(Ipv4Addr::from_bits(a.to_bits() & mask_bits_v4(len))),
        IpAddr::V6(a) => IpAddr::V6(Ipv6Addr::from_bits(a.to_bits() & mask_bits_v6(len))),
    }
}

proof fn lemma_mask4_idem(v: u32, m: u32)
    ensures
        (v & m) & m == v & m,
{
    assert((v & m) & m == v & m) by (bit_vector);
}

proof fn lemma_mask16_idem(v: u128, m: u128)
    ensures
        (v & m) & m == v & m,
{
    assert((v & m) & m == v & m) by (bit_vector);
}

proof fn lemma_bits4_of(v: u32)
    ensures
        ipv4_of_bits(v).bits() == v,
{
    let a = (v >> 24u32) as u8;
    let b = (v >> 16u32) as u8;
    let c = (v >> 8u32) as u8;
    let d = v as u8;
    assert((((a as u32) << 24u32) | ((b as u32) << 16u32) | ((c as u32) << 8u32) | (d as u32))
        == v) by (bit_vector)
        requires
            a == (v >> 24u32) as u8,
            b == (v >> 16u32) as u8,
            c == (v >> 8u32) as u8,
            d == v as u8,
    ;
}

proof fn lemma_bits16_of(v: u128)
    ensures
        ipv6_of_bits(v).bits() == v,
{
    let x0 = (v >> 120u128) as u8;
    let x1 = (v >> 112u128) as u8;
    let x2 = (v >> 104u128) as u8;
    let x3 = (v >> 96u128) as u8;
    let x4 = (v >> 88u128) as u8;
    let x5 = (v >> 80u128) as u8;
    let x6 = (v >> 72u128) as u8;
    let x7 = (v >> 64u128) as u8;
    let x8 = (v >> 56u128) as u8;
    let x9 = (v >> 48u128) as u8;
    let x10 = (v >> 40u128) as u8;
    let x11 = (v >> 32u128) as u8;
    let x12 = (v >> 24u128) as u8;
    let x13 = (v >> 16u128) as u8;
    let x14 = (v >> 8u128) as u8;
    let x15 = v as u8;
    assert((((x0 as u128) << 120u128) | ((x1 as u128) << 112u128) | ((x2 as u128) << 104u128) | ((x3 as u128) << 96u128) | ((x4 as u128) << 88u128) | ((x5 as u128) << 80u128) | ((x6 as u128) << 72u128) | ((x7 as u128) << 64u128) | ((x8 as u128) << 56u128) | ((x9 as u128) << 48u128) | ((x10 as u128) << 40u128) | ((x11 as u128) << 32u128) | ((x12 as u128) << 24u128) | ((x13 as u128) << 16u128) | ((x14 as u128) << 8u128) | (x15 as u128)) == v) by (bit_vector)
        requires
            x0 == (v >> 120u128) as u8,
            x1 == (v >> 112u128) as u8,
            x2 == (v >> 104u128) as u8,
            x3 == (v >> 96u128) as u8,
            x4 == (v >> 88u128) as u8,
            x5 == (v >> 80u128) as u8,
            x6 == (v >> 72u128) as u8,
            x7 == (v >> 64u128) as u8,
            x8 == (v >> 56u128) as u8,
            x9 == (v >> 48u128) as u8,
            x10 == (v >> 40u128) as u8,
            x11 == (v >> 32u128) as u8,
            x12 == (v >> 24u128) as u8,
            x13 == (v >> 16u128) as u8,
            x14 == (v >> 8u128) as u8,
            x15 == v as u8,
    ;
}

/// Masking twice is masking once.
pub proof fn lemma_masked_idem(a: IpAddr, len: nat)
    ensures
        masked(masked(a, len), len) == masked(a, len),
{
    match a {
        IpAddr::V4(x) => {
            lemma_bits4_of(x.bits() & mask4(len));
            lemma_mask4_idem(x.bits(), mask4(len));
        },
        IpAddr::V6(x) => {
            lemma_bits16_of(x.bits() & mask16(len));
            lemma_mask16_idem(x.bits(), mask16(len));
        },
    }
}

impl Prefix {
    #[verifier::type_invariant]
    spec fn wf(self) -> bool {
        &&& self.len <= max_len(self.base)
        &&& self.base == masked(self.base, self.len as nat)
    }

    /// Builds a prefix, masking the address down to its network. Fails if the
    /// length is wider than the family allows.
    pub fn new(addr: IpAddr, len: u8) -> (r: Result<Prefix, PrefixError>)
        ensures
            match r {
                Ok(p) => spec_new(addr, len as nat) == Ok::<PrefixView, PrefixError>(p@),
                Err(e) => spec_new(addr, len as nat) == Err::<PrefixView, PrefixError>(e),
            },
    {
        let max: u8 = Self::max_len(&addr);
        if len > max {
            return Err(PrefixError::TooLong { len, max });
        }
        let base = mask(addr, len);
        proof {
            lemma_masked_idem(addr, len as nat);
        }
        Ok(Prefix { base, len })
    }

    fn max_len(addr: &IpAddr) -> (m: u8)
        ensures
            m == max_len(*addr),
    {
        match addr {
            IpAddr::V4(_) => 32,
            IpAddr::V6(_) => 128,
        }
    }

    /// The network address, with the host bits cleared.
    pub fn network(&self) -> (a: IpAddr)
        ensures
            a == self@.base,
            a == masked(a, self@.len),
            self@.len <= max_len(a),
    {
        proof {
            use_type_invariant(self);
        }
        self.base
    }

    /// The prefix length: the 24 of a /24.
    pub fn len(&self) -> (n: u8)
        ensures
            n == self@.len,
            self@.len <= max_len(self@.base),
    {
        proof {
            use_type_invariant(self);
        }
        self.len
    }

    /// The same network?
    pub fn same(&self, other: &Prefix) -> (b: bool)
        ensures
            b == (self@ == other@),
    {
        self.len == other.len && self.base.same(&other.base)
    }

    pub fn is_ipv4(&self) -> (b: bool)
        ensures
            b == (self@.base is V4),
    {
        match self.base {
            IpAddr::V4(_) => true,
            IpAddr::V6(_) => false,
        }
    }

    /// Is this address inside the prefix? Never across families.
    pub fn contains(&self, addr: IpAddr) -> (b: bool)
        ensures
            b == ((self@.base is V4) == (addr is V4) && masked(addr, self@.len) == self@.base),
    {
        proof {
            use_type_invariant(self);
        }
        match (self.base, addr) {
            (IpAddr::V4(_), IpAddr::V4(_)) => mask(addr, self.len).same(&self.base),
            (IpAddr::V6(_), IpAddr::V6(_)) => mask(addr, self.len).same(&self.base),
            _ => false,
        }
    }

    /// How many addresses the prefix holds, saturating at `u64::MAX`.
    pub fn size(&self) -> (n: u64)
        ensures
            n == spec_size(self@),
    {
        proof {
            use_type_invariant(self);
        }
        let host_bits: u8 = Self::max_len(&self.base) - self.len;
        if host_bits >= 64 {
            u64::MAX
        } else {
            proof {
                vstd::bits::lemma_u64_pow2_no_overflow(host_bits as nat);
                vstd::bits::lemma_u64_shl_is_mul(1, host_bits as u64);
            }
            1u64 << (host_bits as u64)
        }
    }

    /// The addresses a sweep would probe, or `None` where the prefix is too
    /// large for that.
    pub fn hosts(&self) -> (r: Option<HostIter>)
        ensures
            match spec_host_range(self@) {
                None => r is None,
                Some((first, last, v4)) => r is Some && first <= last < first + 65536
                    && r->0.remaining() == Seq::new(
                    (last - first + 1) as nat,
                    |i: int| address_of(v4, first + i),
                ),
            },
    {
        proof {
            use_type_invariant(self);
        }
        if self.size() > ENUMERABLE_LIMIT {
            return None;
        }
        let host_bits: u8 = Self::max_len(&self.base) - self.len;
        assert(host_bits <= 16) by {
            if host_bits > 16 {
                if host_bits < 64 {
                    vstd::arithmetic::power2::lemma_pow2_strictly_increases(16, host_bits as nat);
                    vstd::arithmetic::power2::lemma2_to64();
                }
            }
        }
        match self.base {
            IpAddr::V4(base) => {
                let first = base.to_bits();
                let m = mask_bits_v4(self.len);
                let last = first | !m;
                proof {
                    lemma_bits4_of(base.bits() & mask4(self.len as nat));
                    lemma_host_span4(first, self.len as nat);
                }
                let (from, to) = if self.len >= 31 {
                    (first, last)
                } else {
                    (first + 1, last - 1)
                };
                let it = HostIter { next: from as u128, last: to as u128, v4: true, done: false };
                proof {
                    assert(it.remaining() =~= Seq::new(
                        (to - from + 1) as nat,
                        |i: int| address_of(true, from + i),
                    ));
                }
                Some(it)
            },
            IpAddr::V6(base) => {
                let first = base.to_bits();
                let m = mask_bits_v6(self.len);
                let last = first | !m;
                proof {
                    lemma_bits16_of(base.bits() & mask16(self.len as nat));
                    lemma_host_span16(first, self.len as nat);
                }
                let it = HostIter { next: first, last, v4: false, done: false };
                proof {
                    assert(it.remaining() =~= Seq::new(
                        (last - first + 1) as nat,
                        |i: int| address_of(false, first + i),
                    ));
                }
                Some(it)
            },
        }
    }

    /// How many addresses [`Prefix::hosts`] would yield; `0` where the prefix
    /// is not enumerable.
    pub fn host_count(&self) -> (n: u64)
        ensures
            match spec_host_range(self@) {
                None => n == 0,
                Some((first, last, _)) => n == last - first + 1,
            },
    {
        match self.hosts() {
            None => 0,
            Some(iter) => iter.len() as u64,
        }
    }

    /// `192.168.1.0/24`.
    pub fn to_string(&self) -> (s: String)
        ensures
            s@ == prefix_text(self@),
    {
        let mut s = self.base.to_string();
        push_char(&mut s, '/');
        push_decimal(&mut s, self.len as u64);
        s
    }

    /// Reads `address/length`, with space allowed around either half.
    pub fn parse(s: &str) -> (r: Result<Prefix, PrefixError>)
        ensures
            match r {
                Ok(p) => prefix_from_text(s@) == Ok::<PrefixView, PrefixError>(p@),
                Err(e) => prefix_from_text(s@) == Err::<PrefixView, PrefixError>(e),
            },
    {
        let v = chars_of(s);
        let mut at: usize = 0;
        while at < v.len() && v[at] != '/'
            invariant
                at <= v@.len(),
                v@ == s@,
                forall|j: int| 0 <= j < at ==> #[trigger] v@[j] != '/',
            decreases v@.len() - at,
        {
            at += 1;
        }
        if at == v.len() {
            proof {
                assert(first_slash(s@) is None) by {
                    lemma_first_slash_none(s@);
                }
            }
            return Err(PrefixError::Malformed);
        }
        proof {
            lemma_first_slash_some(s@, at as int);
        }
        let a = trimmed(vstd::slice::slice_subrange(v.as_slice(), 0, at));
        let l = trimmed(vstd::slice::slice_subrange(v.as_slice(), at + 1, v.len()));
        proof {
            assert(v@.subrange(0, at as int) =~= s@.take(at as int));
            assert(v@.subrange(at + 1, v@.len() as int) =~= s@.skip(at + 1));
        }
        let a_text = string_of(a.as_slice());
        let addr = match IpAddr::parse(a_text.as_str()) {
            Some(x) => x,
            None => return Err(PrefixError::Malformed),
        };
        let len = match crate::text::parse_u8(l.as_slice()) {
            Some(n) => n,
            None => return Err(PrefixError::Malformed),
        };
        Self::new(addr, len)
    }
}

/// The text of a prefix.
pub open spec fn prefix_text(p: PrefixView) -> Seq<char> {
    ip_text(p.base) + seq!['/'] + decimal(p.len)
}

/// Where the first `/` is.
pub open spec fn first_slash(s: Seq<char>) -> Option<int> {
    if exists|i: int| 0 <= i < s.len() && s[i] == '/' {
        Some(choose|i: int| 0 <= i < s.len() && s[i] == '/' && forall|j: int| 0 <= j < i ==> s[j] != '/')
    } else {
        None
    }
}

proof fn lemma_first_slash_none(s: Seq<char>)
    requires
        forall|j: int| 0 <= j < s.len() ==> #[trigger] s[j] != '/',
    ensures
        first_slash(s) is None,
{
}

proof fn lemma_first_slash_some(s: Seq<char>, at: int)
    requires
        0 <= at < s.len(),
        s[at] == '/',
        forall|j: int| 0 <= j < at ==> #[trigger] s[j] != '/',
    ensures
        first_slash(s) == Some(at),
{
    let i = choose|i: int| 0 <= i < s.len() && s[i] == '/' && forall|j: int| 0 <= j < i ==> s[j] != '/';
    assert(0 <= i < s.len() && s[i] == '/' && forall|j: int| 0 <= j < i ==> s[j] != '/');
    if i < at {
        assert(s[i] != '/');
    }
    if at < i {
        assert(s[at] != '/');
    }
}

/// What `address/length` reads as: split at the first `/`, each half
/// trimmed, an address and a decimal `u8`, then [`Prefix::new`].
pub open spec fn prefix_from_text(s: Seq<char>) -> Result<PrefixView, PrefixError> {
    match first_slash(s) {
        None => Err(PrefixError::Malformed),
        Some(at) => match ip_from_text(trim(s.take(at))) {
            None => Err(PrefixError::Malformed),
            Some(addr) => match crate::text::u8_from_text(trim(s.skip(at + 1))) {
                None => Err(PrefixError::Malformed),
                Some(len) => spec_new(addr, len as nat),
            },
        },
    }
}

proof fn lemma_host_span4(first: u32, len: nat)
    requires
        len <= 32,
        32 - len <= 16,
        first & mask4(len) == first,
    ensures
        first <= (first | !mask4(len)),
        (first | !mask4(len)) - first < 65536,
        len < 31 ==> first + 2 <= (first | !mask4(len)),
{
    let s = (32 - len) as u32;
    if len == 0 {
    } else {
        assert(first & (0xffff_ffffu32 << s) == first ==> first <= (first | !(0xffff_ffffu32 << s))
            && (first | !(0xffff_ffffu32 << s)) - first < 65536 && (s > 1 ==> first + 2 <= (
            first | !(0xffff_ffffu32 << s)))) by (bit_vector)
            requires
                s <= 16,
        ;
    }
}

proof fn lemma_host_span16(first: u128, len: nat)
    requires
        len <= 128,
        128 - len <= 16,
        first & mask16(len) == first,
    ensures
        first <= (first | !mask16(len)),
        (first | !mask16(len)) - first < 65536,
{
    let s = (128 - len) as u128;
    assert(first & (0xffff_ffff_ffff_ffff_ffff_ffff_ffff_ffffu128 << s) == first ==> first <= (
    first | !(0xffff_ffff_ffff_ffff_ffff_ffff_ffff_ffffu128 << s)) && (first | !(
    0xffff_ffff_ffff_ffff_ffff_ffff_ffff_ffffu128 << s)) - first < 65536) by (bit_vector)
        requires
            s <= 16,
    ;
}

/// A prefix small enough to walk has at most sixteen host bits.
proof fn lemma_walkable_host_bits(p: PrefixView)
    requires
        p.len <= max_len(p.base),
        spec_size(p) <= ENUMERABLE_LIMIT,
    ensures
        max_len(p.base) - p.len <= 16,
{
    let host_bits = max_len(p.base) - p.len;
    if host_bits > 16 {
        if host_bits < 64 {
            vstd::arithmetic::power2::lemma_pow2_strictly_increases(16, host_bits as nat);
            vstd::arithmetic::power2::lemma2_to64();
        }
    }
}

/// The sweep never leaves the network: every address [`Prefix::hosts`]
/// walks is of the prefix's family and masks down to its network address,
/// so the prefix contains it.
pub proof fn lemma_hosts_stay_inside(p: PrefixView, i: int)
    requires
        p.len <= max_len(p.base),
        p.base == masked(p.base, p.len),
    ensures
        spec_host_range(p) matches Some((first, last, v4)) ==> (0 <= i <= last - first ==> {
            &&& (address_of(v4, first + i) is V4) == (p.base is V4)
            &&& masked(address_of(v4, first + i), p.len) == p.base
        }),
{
    if let Some((first, last, v4)) = spec_host_range(p) {
        if 0 <= i <= last - first {
            lemma_walkable_host_bits(p);
            match p.base {
                IpAddr::V4(b) => {
                    let bb = b.bits();
                    let m = mask4(p.len);
                    lemma_bits4_of(bb & m);
                    let lo = bb as int;
                    let hi = (bb | !m) as int;
                    let x = (first + i) as u32;
                    let s = (32 - p.len) as u32;
                    assert(m == 0xffff_ffffu32 << s);
                    assert(bb & m == bb);
                    lemma_host_span4(bb, p.len);
                    assert(lo <= first + i <= hi);
                    assert(bb & (0xffff_ffffu32 << s) == bb && bb <= x && x <= (bb | !(
                    0xffff_ffffu32 << s)) ==> x & (0xffff_ffffu32 << s) == bb) by (bit_vector)
                        requires
                            s <= 16,
                    ;
                    lemma_bits4_of(x);
                    lemma_bits4_of(x & m);
                },
                IpAddr::V6(b) => {
                    let bb = b.bits();
                    let m = mask16(p.len);
                    lemma_bits16_of(bb & m);
                    let x = (first + i) as u128;
                    let s = (128 - p.len) as u128;
                    assert(m == 0xffff_ffff_ffff_ffff_ffff_ffff_ffff_ffffu128 << s);
                    assert(bb & m == bb);
                    lemma_host_span16(bb, p.len);
                    assert(bb & (0xffff_ffff_ffff_ffff_ffff_ffff_ffff_ffffu128 << s) == bb && bb <= x
                        && x <= (bb | !(0xffff_ffff_ffff_ffff_ffff_ffff_ffff_ffffu128 << s)) ==> x & (
                    0xffff_ffff_ffff_ffff_ffff_ffff_ffff_ffffu128 << s) == bb) by (bit_vector)
                        requires
                            s <= 16,
                    ;
                    lemma_bits16_of(x);
                    lemma_bits16_of(x & m);
                },
            }
        }
    }
}

/// [`Prefix::host_count`] is the number of addresses [`Prefix::hosts`]
/// walks: the count its contract gives is the length of the walk its
/// contract gives.
pub proof fn lemma_host_count_is_the_walk(p: PrefixView)
    requires
        p.len <= max_len(p.base),
        p.base == masked(p.base, p.len),
    ensures
        spec_host_range(p) matches Some((first, last, v4)) ==> first <= last && Seq::new(
            (last - first + 1) as nat,
            |i: int| address_of(v4, first + i),
        ).len() == last - first + 1,
{
    if let Some((first, last, v4)) = spec_host_range(p) {
        lemma_walkable_host_bits(p);
        match p.base {
            IpAddr::V4(b) => {
                lemma_bits4_of(b.bits() & mask4(p.len));
                lemma_host_span4(b.bits(), p.len);
            },
            IpAddr::V6(b) => {
                lemma_bits16_of(b.bits() & mask16(p.len));
                lemma_host_span16(b.bits(), p.len);
            },
        }
    }
}

/// Walks the addresses of a prefix. Held as `u128` for both families so
/// there is one loop; `v4` says which way to spell the result.
#[derive(Debug)]
pub struct HostIter {
    next: u128,
    last: u128,
    v4: bool,
    done: bool,
}

impl HostIter {
    #[verifier::type_invariant]
    spec fn wf(self) -> bool {
        &&& self.v4 ==> self.last <= u32::MAX
        &&& !self.done ==> self.next <= self.last
        &&& self.last - self.next < 65536
    }

    /// The addresses still to come.
    pub closed spec fn remaining(self) -> Seq<IpAddr> {
        if self.done || self.next > self.last {
            Seq::empty()
        } else {
            Seq::new(
                (self.last - self.next + 1) as nat,
                |i: int| address_of(self.v4, self.next + i),
            )
        }
    }

    /// The next address, or `None` once every one has been given.
    pub fn next(&mut self) -> (r: Option<IpAddr>)
        ensures
            old(self).remaining().len() == 0 ==> r is None && final(self).remaining().len() == 0,
            old(self).remaining().len() > 0 ==> r == Some(old(self).remaining()[0])
                && final(self).remaining() == old(self).remaining().drop_first(),
    {
        proof {
            use_type_invariant(&*self);
        }
        if self.done || self.next > self.last {
            return None;
        }
        let value = self.next;
        let ghost before = self.remaining();
        // The last address of the family would overflow the increment, so
        // the end is a flag rather than a comparison.
        if self.next == self.last {
            self.done = true;
        } else {
            self.next = self.next + 1;
        }
        proof {
            assert(self.remaining() =~= before.drop_first());
        }
        if self.v4 {
            Some(IpAddr::V4(Ipv4Addr::from_bits(value as u32)))
        } else {
            Some(IpAddr::V6(Ipv6Addr::from_bits(value)))
        }
    }

    /// How many addresses are left.
    pub fn len(&self) -> (n: usize)
        ensures
            n == self.remaining().len(),
    {
        proof {
            use_type_invariant(self);
        }
        if self.done || self.next > self.last {
            0
        } else {
            (self.last - self.next + 1) as usize
        }
    }
}

impl core::str::FromStr for Prefix {
    type Err = PrefixError;

    fn from_str(s: &str) -> (r: Result<Prefix, PrefixError>)
        ensures
            match r {
                Ok(p) => prefix_from_text(s@) == Ok::<PrefixView, PrefixError>(p@),
                Err(e) => prefix_from_text(s@) == Err::<PrefixView, PrefixError>(e),
            },
    {
        Prefix::parse(s)
    }
}

impl PrefixError {
    /// What went wrong, in words.
    pub fn to_string(&self) -> (s: String)
        ensures
            s@ == (match *self {
                PrefixError::Malformed => "not an address and prefix length"@,
                PrefixError::TooLong { len, max } => "prefix /"@ + decimal(len as nat)
                    + " is longer than /"@ + decimal(max as nat),
            }),
    {
        match *self {
            PrefixError::Malformed => string_of(chars_of("not an address and prefix length").as_slice()),
            PrefixError::TooLong { len, max } => {
                let mut s = string_of(chars_of("prefix /").as_slice());
                push_decimal(&mut s, len as u64);
                crate::text::push_str(&mut s, " is longer than /");
                push_decimal(&mut s, max as u64);
                s
            },
        }
    }
}


proof fn lemma_trim_unpadded(t: Seq<char>)
    requires
        t.len() > 0,
        !crate::text::is_ws(t[0]),
        !crate::text::is_ws(t.last()),
    ensures
        trim(t) == t,
{
    assert(crate::text::trim_start(t) == t);
    assert(crate::text::trim_end(t) == t);
}

/// The text of an address: no slash in it, and no space at either end.
proof fn lemma_ip_text_shape(a: IpAddr)
    ensures
        ip_text(a).len() > 0,
        !crate::text::is_ws(ip_text(a)[0]),
        !crate::text::is_ws(ip_text(a).last()),
        forall|j: int| 0 <= j < ip_text(a).len() ==> #[trigger] ip_text(a)[j] != '/',
{
    let t = ip_text(a);
    match a {
        IpAddr::V4(x) => {
            crate::addr::lemma_dotted_chars(x.0);
            assert forall|j: int| 0 <= j < t.len() implies #[trigger] t[j] != '/' by {
                assert(crate::addr::is_digit(t[j]) || t[j] == '.');
            }
        },
        IpAddr::V6(x) => {
            crate::v6text::lemma_ipv6_text_chars(x.0);
            assert(crate::v6text::is_hex(t[0]) || t[0] == ':' || t[0] == '.');
            assert(crate::v6text::is_hex(t[t.len() - 1]) || t[t.len() - 1] == ':' || t[t.len() - 1] == '.');
            assert forall|j: int| 0 <= j < t.len() implies #[trigger] t[j] != '/' by {
                assert(crate::v6text::is_hex(t[j]) || t[j] == ':' || t[j] == '.');
            }
        },
    }
}

/// A prefix written out reads back as itself.
pub proof fn lemma_prefix_text_round_trip(p: PrefixView)
    requires
        p.len <= max_len(p.base),
        p.base == masked(p.base, p.len),
    ensures
        prefix_from_text(prefix_text(p)) == Ok::<PrefixView, PrefixError>(p),
{
    let d = ip_text(p.base);
    let n = decimal(p.len);
    let s = prefix_text(p);
    lemma_ip_text_shape(p.base);
    crate::addr::lemma_ip_text_round_trip(p.base);
    crate::addr::lemma_octet_text(p.len);
    let at = d.len() as int;
    assert(s =~= d + seq!['/'] + n);
    assert(s[at] == '/');
    assert forall|j: int| 0 <= j < at implies #[trigger] s[j] != '/' by {
        assert(s[j] == d[j]);
    }
    lemma_first_slash_some(s, at);
    assert(s.take(at) =~= d);
    assert(s.skip(at + 1) =~= n);
    lemma_trim_unpadded(d);
    assert(crate::addr::is_digit(n[0]));
    assert(crate::addr::is_digit(n[n.len() - 1]));
    lemma_trim_unpadded(n);
    assert(n[0] != '+');
    assert(crate::text::unsigned_digits(n) == Some(n));
    assert(crate::text::u8_from_text(n) == Some(p.len as u8));
}

} // verus!
