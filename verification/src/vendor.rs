//! Who made the hardware, according to the IEEE.
//!
//! The registry is a compiled table of bytes, handed to [`Table::new`], which
//! checks it once; [`lookup`] then answers from it. Nothing is fetched and
//! nothing is looked up remotely.
//!
//! ## Three answers, not two
//!
//! A randomised address is reported as randomised, never as an unknown
//! vendor: "unknown" says the lookup failed, "randomised" says the device
//! declined to identify itself. So [`Origin`] has three cases.
//!
//! ## Most specific wins
//!
//! A 24-bit block can be subdivided and resold, so the lookup asks the longest
//! registry first (36 bits, then 28, then 24) and the first hit is the answer.
//!
//! ## Layout
//!
//! Little-endian throughout, no alignment assumed:
//!
//! ```text
//! magic u32, then three counts u32, then the blob length u32
//! MA-L: n × u32 prefix (sorted), then n × u32 name offset
//! MA-M: the same
//! MA-S: n × u64 prefix (sorted), then n × u32 name offset
//! names: u16 length then that many UTF-8 bytes, repeatedly
//! ```

use vstd::prelude::*;
use vstd::utf8::*;
use crate::mac::MacAddr;

verus! {

/// "MOUI", so a truncated or stale table fails loudly rather than being
/// searched as though it were one.
pub const MAGIC: u32 = 0x4d4f_5549;

/// Which registry an assignment came from, which is also how large a block it
/// is.
#[derive(Clone, Copy, Debug, PartialEq, Eq)]
pub enum Registry {
    /// 24-bit block, sixteen million addresses. The common case.
    MaL,
    /// 28-bit block, one million addresses.
    MaM,
    /// 36-bit block, four thousand addresses. A small manufacturer.
    MaS,
}

impl Registry {
    pub open spec fn spec_bits(self) -> u8 {
        match self {
            Registry::MaL => 24,
            Registry::MaM => 28,
            Registry::MaS => 36,
        }
    }

    /// The table section that holds this registry's assignments.
    pub open spec fn section(self) -> int {
        match self {
            Registry::MaL => 0,
            Registry::MaM => 1,
            Registry::MaS => 2,
        }
    }

    pub fn bits(self) -> (b: u8)
        ensures
            b == self.spec_bits(),
    {
        match self {
            Registry::MaL => 24,
            Registry::MaM => 28,
            Registry::MaS => 36,
        }
    }

    pub fn name(self) -> (s: &'static str)
        ensures
            s@ == (match self {
                Registry::MaL => "MA-L"@,
                Registry::MaM => "MA-M"@,
                Registry::MaS => "MA-S"@,
            }),
    {
        match self {
            Registry::MaL => "MA-L",
            Registry::MaM => "MA-M",
            Registry::MaS => "MA-S",
        }
    }
}

/// What can be said about where an address came from.
#[derive(Clone, Debug, PartialEq, Eq)]
pub enum Origin {
    /// The device generated this address itself. There is no manufacturer to
    /// look up and its absence is not a gap in the table.
    Randomised,
    /// Found in the registry.
    Registered { name: String, registry: Registry },
    /// A globally unique address that is not in the table.
    Unknown,
}

/// [`Origin`] with the name as its characters.
pub enum OriginView {
    Randomised,
    Registered { name: Seq<char>, registry: Registry },
    Unknown,
}

impl View for Origin {
    type V = OriginView;

    open spec fn view(&self) -> OriginView {
        match self {
            Origin::Randomised => OriginView::Randomised,
            Origin::Registered { name, registry } => OriginView::Registered {
                name: name@,
                registry: *registry,
            },
            Origin::Unknown => OriginView::Unknown,
        }
    }
}

impl Origin {
    /// The name to show, or `None` where there is no name to show.
    pub fn name(&self) -> (r: Option<&str>)
        ensures
            match self@ {
                OriginView::Registered { name, .. } => r is Some && r->0@ == name,
                _ => r is None,
            },
    {
        match self {
            Origin::Registered { name, .. } => Some(name.as_str()),
            _ => None,
        }
    }

    /// A short phrase fit for a table cell, in every case.
    pub fn label(&self) -> (r: &str)
        ensures
            r@ == (match self@ {
                OriginView::Randomised => "randomised address"@,
                OriginView::Registered { name, .. } => name,
                OriginView::Unknown => "not in the registry"@,
            }),
    {
        match self {
            Origin::Randomised => "randomised address",
            Origin::Registered { name, .. } => name.as_str(),
            Origin::Unknown => "not in the registry",
        }
    }
}

// ---- the layout, stated over the bytes ----

pub open spec fn le16(t: Seq<u8>, at: int) -> int {
    t[at] + t[at + 1] * 256
}

pub open spec fn le32(t: Seq<u8>, at: int) -> int {
    t[at] + t[at + 1] * 256 + t[at + 2] * 65536 + t[at + 3] * 16777216
}

pub open spec fn le64(t: Seq<u8>, at: int) -> int {
    le32(t, at) + le32(t, at + 4) * 4294967296
}

/// How many assignments section `i` holds.
pub open spec fn count(t: Seq<u8>, i: int) -> int {
    le32(t, 4 + 4 * i)
}

/// The bytes of the prefixes of section `i`.
pub open spec fn prefixes_len(t: Seq<u8>, i: int) -> int {
    if i == 2 {
        8 * count(t, i)
    } else {
        4 * count(t, i)
    }
}

/// The bytes of section `i`: its prefixes and its name offsets.
pub open spec fn span(t: Seq<u8>, i: int) -> int {
    prefixes_len(t, i) + 4 * count(t, i)
}

/// Where section `i` begins.
pub open spec fn start(t: Seq<u8>, i: int) -> int
    decreases i,
{
    if i <= 0 {
        20
    } else {
        start(t, i - 1) + span(t, i - 1)
    }
}

/// Where the name blob begins.
pub open spec fn blob_at(t: Seq<u8>) -> int {
    start(t, 3)
}

/// Prefix `k` of section `i`.
pub open spec fn prefix(t: Seq<u8>, i: int, k: int) -> int {
    if i == 2 {
        le64(t, start(t, i) + 8 * k)
    } else {
        le32(t, start(t, i) + 4 * k)
    }
}

/// Where the name of assignment `k` of section `i` is stored.
pub open spec fn name_at(t: Seq<u8>, i: int, k: int) -> int {
    blob_at(t) + le32(t, start(t, i) + prefixes_len(t, i) + 4 * k)
}

/// The bytes of the name of assignment `k` of section `i`.
pub open spec fn name_bytes(t: Seq<u8>, i: int, k: int) -> Seq<u8> {
    let at = name_at(t, i, k);
    t.subrange(at + 2, at + 2 + le16(t, at))
}

pub open spec fn entry_in_bounds(t: Seq<u8>, i: int, k: int) -> bool {
    let at = name_at(t, i, k);
    at + 2 <= t.len() && at + 2 + le16(t, at) <= t.len()
}

pub open spec fn section_sorted(t: Seq<u8>, i: int) -> bool {
    forall|k: int| 0 < k < count(t, i) ==> #[trigger] prefix(t, i, k) > prefix(t, i, k - 1)
}

/// A table that can be searched without reading outside it: the header, three
/// sections that end before the end of the bytes, every name inside the
/// bytes, and every section's prefixes strictly increasing.
pub open spec fn table_wf(t: Seq<u8>) -> bool {
    &&& t.len() >= 20
    &&& le32(t, 0) == MAGIC
    &&& blob_at(t) <= t.len()
    &&& forall|i: int, k: int|
        0 <= i < 3 && 0 <= k < count(t, i) ==> #[trigger] entry_in_bounds(t, i, k)
    &&& forall|i: int| 0 <= i < 3 ==> #[trigger] section_sorted(t, i)
}

/// The name stored for `key` in section `i`, where the section holds the key
/// and its name is UTF-8.
pub open spec fn spec_search(t: Seq<u8>, i: int, key: int) -> Option<Seq<char>> {
    if exists|k: int| 0 <= k < count(t, i) && prefix(t, i, k) == key {
        let k = choose|k: int| 0 <= k < count(t, i) && prefix(t, i, k) == key;
        let bytes = name_bytes(t, i, k);
        if valid_utf8(bytes) {
            Some(decode_utf8(bytes))
        } else {
            None
        }
    } else {
        None
    }
}

/// The 48 bits of an address as one number, first octet highest.
pub open spec fn wide(m: MacAddr) -> int {
    m.0@[0] * 0x100_0000_0000 + m.0@[1] * 0x1_0000_0000 + m.0@[2] * 0x100_0000 + m.0@[3]
        * 0x1_0000 + m.0@[4] * 0x100 + m.0@[5]
}

/// The leading `registry.spec_bits()` bits of an address.
pub open spec fn key_of(m: MacAddr, registry: Registry) -> int {
    match registry {
        Registry::MaS => wide(m) / 0x1000,
        Registry::MaM => wide(m) / 0x10_0000,
        Registry::MaL => wide(m) / 0x100_0000,
    }
}

/// What the registry says of a globally unique address: the 36-bit registry
/// first, then 28, then 24.
pub open spec fn spec_registered(t: Seq<u8>, m: MacAddr) -> OriginView {
    match spec_search(t, 2, key_of(m, Registry::MaS)) {
        Some(name) => OriginView::Registered { name, registry: Registry::MaS },
        None => match spec_search(t, 1, key_of(m, Registry::MaM)) {
            Some(name) => OriginView::Registered { name, registry: Registry::MaM },
            None => match spec_search(t, 0, key_of(m, Registry::MaL)) {
                Some(name) => OriginView::Registered { name, registry: Registry::MaL },
                None => OriginView::Unknown,
            },
        },
    }
}

/// The whole lookup: randomised addresses first, then multicast and zero,
/// which have no vendor, then the registry.
pub open spec fn spec_lookup(t: Seq<u8>, m: MacAddr) -> OriginView {
    if m.spec_is_randomised() {
        OriginView::Randomised
    } else if m.spec_is_multicast() || m.spec_is_zero() {
        OriginView::Unknown
    } else {
        spec_registered(t, m)
    }
}

/// A checked registry table.
pub struct Table {
    bytes: Vec<u8>,
}

impl Table {
    #[verifier::type_invariant]
    spec fn inv(self) -> bool {
        table_wf(self.bytes@)
    }

    pub closed spec fn bytes(self) -> Seq<u8> {
        self.bytes@
    }

    /// Checks a compiled table and keeps it, or answers `None` for bytes that
    /// are not one: a wrong magic number, a section or a name that runs past
    /// the end, or a section whose prefixes are not strictly increasing.
    pub fn new(bytes: Vec<u8>) -> (r: Option<Table>)
        ensures
            r is Some <==> table_wf(bytes@),
            r matches Some(t) ==> t.bytes() == bytes@,
    {
        let len = bytes.len();
        if len < 20 {
            return None;
        }
        if u32(&bytes, 0) != MAGIC {
            return None;
        }
        let c0 = u32(&bytes, 4) as u64;
        let c1 = u32(&bytes, 8) as u64;
        let c2 = u32(&bytes, 12) as u64;
        let s1 = 20 + c0 * 8;
        let s2 = s1 + c1 * 8;
        let blob = s2 + c2 * 12;
        let ghost t = bytes@;
        proof {
            assert(start(t, 0) == 20);
            assert(start(t, 1) == s1);
            assert(start(t, 2) == s2);
            assert(start(t, 3) == blob);
        }
        if blob > len as u64 {
            return None;
        }
        let blob = blob as usize;
        if !check_section(&bytes, 0, 20, c0 as usize, blob) {
            return None;
        }
        if !check_section(&bytes, 1, s1 as usize, c1 as usize, blob) {
            return None;
        }
        if !check_section(&bytes, 2, s2 as usize, c2 as usize, blob) {
            return None;
        }
        proof {
            assert forall|i: int| 0 <= i < 3 implies #[trigger] section_sorted(t, i) by {}
        }
        Some(Table { bytes })
    }
}

/// Checks the names and the order of one section.
fn check_section(t: &Vec<u8>, i: usize, st: usize, n: usize, blob: usize) -> (ok: bool)
    requires
        i < 3,
        t@.len() >= 20,
        st == start(t@, i as int),
        n == count(t@, i as int),
        blob == blob_at(t@),
        blob <= t@.len(),
        st + span(t@, i as int) <= blob,
    ensures
        ok <==> (section_sorted(t@, i as int) && forall|k: int|
            0 <= k < n ==> #[trigger] entry_in_bounds(t@, i as int, k)),
{
    let len = t.len();
    let offsets = if i == 2 { st + 8 * n } else { st + 4 * n };
    let mut k: usize = 0;
    while k < n
        invariant
            len == t@.len(),
            i < 3,
            st == start(t@, i as int),
            n == count(t@, i as int),
            blob == blob_at(t@),
            blob <= len,
            offsets == st + prefixes_len(t@, i as int),
            st + span(t@, i as int) <= blob,
            k <= n,
            forall|j: int| 0 <= j < k ==> #[trigger] entry_in_bounds(t@, i as int, j),
            forall|j: int| 0 < j < k ==> #[trigger] prefix(t@, i as int, j) > prefix(
                t@,
                i as int,
                j - 1,
            ),
        decreases n - k,
    {
        let off = u32(t, offsets + 4 * k) as usize;
        if off > len - blob || len - blob - off < 2 {
            assert(!entry_in_bounds(t@, i as int, k as int));
            return false;
        }
        let at = blob + off;
        let nl = u16le(t, at) as usize;
        if nl > len - at - 2 {
            assert(!entry_in_bounds(t@, i as int, k as int));
            return false;
        }
        if k > 0 {
            let here = prefix_at(t, i, st, k);
            let before = prefix_at(t, i, st, k - 1);
            if here <= before {
                assert(!(prefix(t@, i as int, k as int) > prefix(t@, i as int, k - 1)));
                return false;
            }
        }
        k += 1;
    }
    true
}

/// Prefix `k` of section `i`, read from the bytes.
fn prefix_at(t: &[u8], i: usize, st: usize, k: usize) -> (p: u64)
    requires
        i < 3,
        st == start(t@, i as int),
        k < count(t@, i as int),
        st + span(t@, i as int) <= t@.len(),
    ensures
        p == prefix(t@, i as int, k as int),
{
    let _len = t.len();
    if i == 2 {
        u64le(t, st + 8 * k)
    } else {
        u32(t, st + 4 * k) as u64
    }
}

/// Strictly increasing neighbours make a strictly increasing section.
proof fn lemma_sorted_pair(t: Seq<u8>, i: int, a: int, b: int)
    requires
        section_sorted(t, i),
        0 <= a < b < count(t, i),
    ensures
        prefix(t, i, a) < prefix(t, i, b),
    decreases b - a,
{
    assert(prefix(t, i, b) > prefix(t, i, b - 1));
    if b - 1 > a {
        lemma_sorted_pair(t, i, a, b - 1);
    }
}

/// Decodes the bytes of a name. Calls `std::str::from_utf8`, which the
/// standard library documents as succeeding exactly on valid UTF-8; the
/// contract claims that, and that the characters are the ones the bytes
/// encode.
#[verifier::external_body]
pub(crate) fn utf8_name(bytes: &[u8]) -> (r: Option<String>)
    ensures
        match r {
            Some(s) => valid_utf8(bytes@) && s@ == decode_utf8(bytes@),
            None => !valid_utf8(bytes@),
        },
{
    std::str::from_utf8(bytes).ok().map(|s| s.to_string())
}

/// The index of `key` among the prefixes of section `i`, by binary search.
fn find_index(t: &[u8], i: usize, st: usize, n: usize, key: u64) -> (r: Option<usize>)
    requires
        i < 3,
        st == start(t@, i as int),
        n == count(t@, i as int),
        st + span(t@, i as int) <= t@.len(),
        section_sorted(t@, i as int),
    ensures
        match r {
            Some(k) => k < n && prefix(t@, i as int, k as int) == key,
            None => forall|k: int| 0 <= k < n ==> prefix(t@, i as int, k) != key,
        },
{
    let mut lo: usize = 0;
    let mut hi: usize = n;
    while lo < hi
        invariant
            i < 3,
            st == start(t@, i as int),
            n == count(t@, i as int),
            st + span(t@, i as int) <= t@.len(),
            section_sorted(t@, i as int),
            lo <= hi <= n,
            forall|k: int| 0 <= k < lo ==> #[trigger] prefix(t@, i as int, k) < key,
            forall|k: int| hi <= k < n ==> #[trigger] prefix(t@, i as int, k) > key,
        decreases hi - lo,
    {
        let mid = lo + (hi - lo) / 2;
        let p = prefix_at(t, i, st, mid);
        if p < key {
            proof {
                assert forall|k: int| 0 <= k < mid + 1 implies #[trigger] prefix(t@, i as int, k)
                    < key by {
                    if k < mid {
                        lemma_sorted_pair(t@, i as int, k, mid as int);
                    }
                }
            }
            lo = mid + 1;
        } else if p > key {
            proof {
                assert forall|k: int| mid <= k < n implies #[trigger] prefix(t@, i as int, k)
                    > key by {
                    if k > mid {
                        lemma_sorted_pair(t@, i as int, mid as int, k);
                    }
                }
            }
            hi = mid;
        } else {
            return Some(mid);
        }
    }
    proof {
        assert forall|k: int| 0 <= k < n implies prefix(t@, i as int, k) != key by {
            if k < lo {
                assert(prefix(t@, i as int, k) < key);
            } else {
                assert(prefix(t@, i as int, k) > key);
            }
        }
    }
    None
}

/// Looks `key` up in section `section`.
fn search(table: &Table, section: usize, key: u64) -> (r: Option<String>)
    requires
        section < 3,
    ensures
        match r {
            Some(s) => spec_search(table.bytes(), section as int, key as int) == Some(s@),
            None => spec_search(table.bytes(), section as int, key as int) is None,
        },
{
    proof {
        use_type_invariant(table);
    }
    let t = &table.bytes;
    let ghost tb = t@;
    let ghost i = section as int;
    let _len = t.len();
    let c0 = u32(t, 4) as usize;
    let c1 = u32(t, 8) as usize;
    let c2 = u32(t, 12) as usize;
    proof {
        assert(start(tb, 0) == 20);
        assert(start(tb, 1) == 20 + c0 * 8);
        assert(start(tb, 2) == 20 + c0 * 8 + c1 * 8);
        assert(start(tb, 3) == 20 + c0 * 8 + c1 * 8 + c2 * 12);
    }
    let blob = 20 + c0 * 8 + c1 * 8 + c2 * 12;
    let (st, n, offsets) = if section == 0 {
        (20, c0, 20 + 4 * c0)
    } else if section == 1 {
        (20 + c0 * 8, c1, 20 + c0 * 8 + 4 * c1)
    } else {
        (20 + c0 * 8 + c1 * 8, c2, 20 + c0 * 8 + c1 * 8 + 8 * c2)
    };
    assert(section_sorted(tb, i));
    match find_index(t.as_slice(), section, st, n, key) {
        None => None,
        Some(k) => {
            proof {
                let c = choose|j: int| 0 <= j < count(tb, i) && prefix(tb, i, j) == key;
                if c < k {
                    lemma_sorted_pair(tb, i, c, k as int);
                } else if c > k {
                    lemma_sorted_pair(tb, i, k as int, c);
                }
                assert(entry_in_bounds(tb, i, k as int));
            }
            let off = u32(t, offsets + 4 * k) as usize;
            let at = blob + off;
            let nl = u16le(t, at) as usize;
            let bytes = vstd::slice::slice_subrange(t.as_slice(), at + 2, at + 2 + nl);
            assert(bytes@ == name_bytes(tb, i, k as int));
            utf8_name(bytes)
        },
    }
}

/// Looks an address up.
///
/// A randomised address answers [`Origin::Randomised`]; multicast and
/// all-zero addresses answer [`Origin::Unknown`] rather than being looked up,
/// because neither is a device's own address. Otherwise the longest registry
/// that holds the address names its maker.
pub fn lookup(table: &Table, mac: MacAddr) -> (r: Origin)
    ensures
        r@ == spec_lookup(table.bytes(), mac),
{
    if mac.is_randomised() {
        return Origin::Randomised;
    }
    if mac.is_multicast() || mac.is_zero() {
        return Origin::Unknown;
    }
    let o = mac.octets();
    let wide = (o[0] as u64) * 0x100_0000_0000 + (o[1] as u64) * 0x1_0000_0000 + (o[2] as u64)
        * 0x100_0000 + (o[3] as u64) * 0x1_0000 + (o[4] as u64) * 0x100 + o[5] as u64;
    if let Some(name) = search(table, 2, wide / 0x1000) {
        return Origin::Registered { name, registry: Registry::MaS };
    }
    if let Some(name) = search(table, 1, wide / 0x10_0000) {
        return Origin::Registered { name, registry: Registry::MaM };
    }
    if let Some(name) = search(table, 0, wide / 0x100_0000) {
        return Origin::Registered { name, registry: Registry::MaL };
    }
    Origin::Unknown
}

fn u32(b: &[u8], at: usize) -> (v: u32)
    requires
        at + 4 <= b@.len(),
    ensures
        v == le32(b@, at as int),
{
    (b[at] as u32) + (b[at + 1] as u32) * 256 + (b[at + 2] as u32) * 65536 + (b[at + 3] as u32)
        * 16777216
}

fn u64le(b: &[u8], at: usize) -> (v: u64)
    requires
        at + 8 <= b@.len(),
    ensures
        v == le64(b@, at as int),
{
    let _len = b.len();
    let lo = u32(b, at) as u64;
    let hi = u32(b, at + 4) as u64;
    assert(hi * 4294967296 <= 18446744069414584320) by (nonlinear_arith)
        requires
            hi <= 4294967295,
    ;
    lo + hi * 4294967296
}

fn u16le(b: &[u8], at: usize) -> (v: u16)
    requires
        at + 2 <= b@.len(),
    ensures
        v == le16(b@, at as int),
{
    (b[at] as u16) + (b[at + 1] as u16) * 256
}


/// A randomised address is reported as randomised, whatever the table
/// holds: never as an unknown vendor, and never as a registered one.
pub proof fn lemma_randomised_is_never_a_vendor(t: Seq<u8>, m: MacAddr)
    requires
        m.spec_is_randomised(),
    ensures
        spec_lookup(t, m) == OriginView::Randomised,
{
}

/// The most specific registry wins: an address inside a 36-bit assignment
/// is credited to it, and inside a 28-bit one to that, whoever holds the
/// block above.
pub proof fn lemma_most_specific_registry_wins(t: Seq<u8>, m: MacAddr)
    requires
        !m.spec_is_randomised(),
        !m.spec_is_multicast(),
        !m.spec_is_zero(),
    ensures
        spec_search(t, 2, key_of(m, Registry::MaS)) matches Some(name) ==> spec_lookup(t, m)
            == (OriginView::Registered { name, registry: Registry::MaS }),
        spec_search(t, 2, key_of(m, Registry::MaS)) is None ==> (spec_search(t, 1, key_of(m, Registry::MaM)) matches Some(name) ==> spec_lookup(t, m) == (OriginView::Registered {
            name,
            registry: Registry::MaM,
        })),
{
}

} // verus!
