//! Phase three: which ports are open.
//!
//! ## The stateless design
//!
//! The scan keeps **no per-probe record**. A probe's identity is encoded in
//! the packet it sends: a keyed hash of source, destination, port and a
//! per-run secret, written into the TCP initial sequence number, so a reply
//! identifies itself. A SYN-ACK is ours when its acknowledgement minus one
//! is that cookie. [`Cookie`] is that check.
//!
//! ## Absence of a reply is never "closed"
//!
//! A SYN-ACK means open; a RST means closed; **nothing** means
//! [`PortState::Filtered`], which is not evidence that the port is shut.

use vstd::prelude::*;
use core::time::Duration;
use crate::addr::IpAddr;
use crate::discover::{duration_from_millis, millis, strings};
use crate::siphash::{siphash24, SipHasher};
use crate::text::{chars_of, decimal, push_decimal, push_str, string_of, trim};

verus! {

/// The bytes a probe's cookie is the hash of: the source address, the
/// target address, and the port, big-endian.
pub open spec fn probe_message(source: IpAddr, target: IpAddr, port: u16) -> Seq<u8> {
    addr_bytes(source) + addr_bytes(target) + seq![(port / 256) as u8, (port % 256) as u8]
}

pub open spec fn addr_bytes(a: IpAddr) -> Seq<u8> {
    match a {
        IpAddr::V4(x) => x.0@,
        IpAddr::V6(x) => x.0@,
    }
}

/// The cookie of a probe under a key: the low 32 bits of the keyed hash of
/// its message.
pub open spec fn cookie_of(key: (u64, u64), source: IpAddr, target: IpAddr, port: u16) -> u32 {
    siphash24(key.0, key.1, probe_message(source, target, port)) as u32
}

/// The sequence number after `isn`, modulo 2^32: what a SYN-ACK
/// acknowledges.
pub open spec fn following(isn: u32) -> u32 {
    if isn == u32::MAX {
        0
    } else {
        (isn + 1) as u32
    }
}

/// The per-run secret and the cookie derived from it.
pub struct Cookie {
    hasher: SipHasher,
}

/// Calls `RandomState::new`, which the operating system seeds. Nothing is
/// claimed of the state it gives.
#[verifier::external_body]
fn random_state() -> std::hash::RandomState {
    std::hash::RandomState::new()
}

/// Calls `BuildHasher::hash_one` on a random state. The word depends on the
/// seed the process was given, so nothing is claimed of it.
#[verifier::external_body]
fn random_word(state: &std::hash::RandomState, salt: u64) -> u64 {
    std::hash::BuildHasher::hash_one(state, salt)
}

impl Cookie {
    pub closed spec fn key(self) -> (u64, u64) {
        (self.hasher.key0(), self.hasher.key1())
    }

    /// A cookie keyed by the operating system's randomness: two independent
    /// random states give the two words of the key.
    pub fn new() -> (c: Cookie) {
        let k0 = random_word(&random_state(), 0x6d75_7374_6572u64);
        let k1 = random_word(&random_state(), 0x7363_616e_6e65u64);
        Cookie { hasher: SipHasher::new(k0, k1) }
    }

    /// A cookie with a stated key, for tests and for reproducing a run.
    pub fn with_key(k0: u64, k1: u64) -> (c: Cookie)
        ensures
            c.key() == (k0, k1),
    {
        Cookie { hasher: SipHasher::new(k0, k1) }
    }

    /// The initial sequence number to send for this probe: the low 32 bits
    /// of the keyed hash of every field that tells probes apart.
    pub fn for_probe(&self, source: IpAddr, target: IpAddr, port: u16) -> (isn: u32)
        ensures
            isn == cookie_of(self.key(), source, target, port),
    {
        let mut msg: Vec<u8> = Vec::new();
        push_addr(&mut msg, source);
        push_addr(&mut msg, target);
        msg.push((port / 256) as u8);
        msg.push((port % 256) as u8);
        proof {
            assert(msg@ =~= probe_message(source, target, port));
        }
        self.hasher.hash(msg.as_slice()) as u32
    }

    /// Is this SYN-ACK a reply to a probe we sent? Its acknowledgement is
    /// our sequence number plus one, modulo 2^32.
    pub fn validates(&self, source: IpAddr, target: IpAddr, port: u16, ack: u32) -> (b: bool)
        ensures
            b == (ack == following(cookie_of(self.key(), source, target, port))),
    {
        ack == self.for_probe(source, target, port).wrapping_add(1)
    }
}

fn push_addr(out: &mut Vec<u8>, addr: IpAddr)
    ensures
        final(out)@ == old(out)@ + addr_bytes(addr),
{
    let ghost start = out@;
    match addr {
        IpAddr::V4(a) => {
            let o = a.octets();
            let mut i: usize = 0;
            while i < 4
                invariant
                    i <= 4,
                    o == a.0,
                    out@ == start + o@.take(i as int),
                decreases 4 - i,
            {
                out.push(o[i]);
                proof {
                    assert(out@ =~= start + o@.take(i + 1));
                }
                i += 1;
            }
            proof {
                assert(o@.take(4) =~= o@);
            }
        },
        IpAddr::V6(a) => {
            let o = a.octets();
            let mut i: usize = 0;
            while i < 16
                invariant
                    i <= 16,
                    o == a.0,
                    out@ == start + o@.take(i as int),
                decreases 16 - i,
            {
                out.push(o[i]);
                proof {
                    assert(out@ =~= start + o@.take(i + 1));
                }
                i += 1;
            }
            proof {
                assert(o@.take(16) =~= o@);
            }
        },
    }
}

/// What was learned about one port.
#[derive(Clone, Copy, Debug, PartialEq, Eq, Structural)]
pub enum PortState {
    /// A SYN-ACK, or an accepted connection. Something is listening.
    Open,
    /// A RST. There is a host and nothing is listening on this port.
    Closed,
    /// No answer. **Not** closed: dropped, filtered, or lost.
    Filtered,
}

impl PortState {
    pub fn label(self) -> (s: &'static str)
        ensures
            s@ == (match self {
                PortState::Open => "open"@,
                PortState::Closed => "closed"@,
                PortState::Filtered => "no reply"@,
            }),
    {
        match self {
            PortState::Open => "open",
            PortState::Closed => "closed",
            // Named for what was observed rather than for a conclusion.
            PortState::Filtered => "no reply",
        }
    }
}

/// How the answer was obtained.
#[derive(Clone, Copy, Debug, PartialEq, Eq, Structural)]
pub enum Method {
    /// Stateless SYN probes over a raw socket. Fast, needs privileges.
    Syn,
    /// A full connection per port, through the OS. Unprivileged and slow.
    Connect,
}

pub open spec fn connect_caveat() -> Seq<char> {
    "used connect(), which is slower and completes the handshake, so the far end may log it"@
}

impl Method {
    pub fn label(self) -> (s: &'static str)
        ensures
            s@ == (match self {
                Method::Syn => "SYN"@,
                Method::Connect => "connect()"@,
            }),
    {
        match self {
            Method::Syn => "SYN",
            Method::Connect => "connect()",
        }
    }

    /// What the user needs to know about this method's limits, if anything.
    pub fn caveat(self) -> (c: Option<&'static str>)
        ensures
            match self {
                Method::Syn => c is None,
                Method::Connect => c is Some && c->0@ == connect_caveat(),
            },
    {
        match self {
            Method::Syn => None,
            Method::Connect => Some(
                "used connect(), which is slower and completes the handshake, so the far end may log it",
            ),
        }
    }
}

/// A set of ports to scan: sorted, each once.
#[derive(Debug, PartialEq, Eq)]
pub struct Ports(Vec<u16>);

impl Clone for Ports {
    fn clone(&self) -> (r: Ports)
        ensures
            r.view_seq() == self.view_seq(),
    {
        proof {
            use_type_invariant(self);
        }
        let mut v: Vec<u16> = Vec::new();
        let mut i: usize = 0;
        while i < self.0.len()
            invariant
                i <= self.0@.len(),
                v@ == self.0@.take(i as int),
            decreases self.0@.len() - i,
        {
            v.push(self.0[i]);
            proof {
                assert(v@ =~= self.0@.take(i + 1));
            }
            i += 1;
        }
        proof {
            assert(v@ =~= self.0@);
        }
        Ports(v)
    }
}

/// Strictly increasing: sorted, each once.
pub open spec fn increasing(s: Seq<u16>) -> bool {
    forall|i: int, j: int| 0 <= i < j < s.len() ==> #[trigger] s[i] < #[trigger] s[j]
}

pub open spec fn common_ports() -> Seq<u16> {
    seq![
        21u16, 22, 23, 25, 53, 80, 110, 111, 135, 139, 143, 443, 445, 465, 515, 548, 587, 631, 993,
        995, 1080, 1433, 1723, 1883, 2049, 3000, 3306, 3389, 4444, 5000, 5060, 5432, 5555, 5900,
        5901, 6379, 7000, 8000, 8006, 8080, 8081, 8123, 8443, 8888, 9000, 9090, 9100, 27017, 32400,
        51820,
    ]
}

impl Ports {
    pub closed spec fn view_seq(self) -> Seq<u16> {
        self.0@
    }

    #[verifier::type_invariant]
    spec fn wf(self) -> bool {
        increasing(self.0@)
    }

    /// The ports worth trying when nobody said which: what is serving, what
    /// is remotely administrable, and what is exposed that should not be.
    pub fn common() -> (p: Ports)
        ensures
            p.view_seq() == common_ports(),
    {
        let v: Vec<u16> = vec![
            21, 22, 23, 25, 53, 80, 110, 111, 135, 139, 143, 443, 445, 465, 515, 548, 587, 631,
            993, 995, 1080, 1433, 1723, 1883, 2049, 3000, 3306, 3389, 4444, 5000, 5060, 5432, 5555,
            5900, 5901, 6379, 7000, 8000, 8006, 8080, 8081, 8123, 8443, 8888, 9000, 9090, 9100,
            27017, 32400, 51820,
        ];
        assert(v@ =~= common_ports());
        assert(increasing(v@)) by {
            assert forall|i: int, j: int| 0 <= i < j < v@.len() implies #[trigger] v@[i] < #[trigger] v@[j] by {
                assert(forall|k: int| 0 <= k < 49 ==> #[trigger] common_ports()[k] < common_ports()[k + 1]);
                lemma_chain(common_ports(), i, j);
            }
        }
        Ports(v)
    }

    pub fn as_slice(&self) -> (s: &[u16])
        ensures
            s@ == self.view_seq(),
            increasing(s@),
    {
        proof {
            use_type_invariant(self);
        }
        self.0.as_slice()
    }

    pub fn len(&self) -> (n: usize)
        ensures
            n == self.view_seq().len(),
    {
        self.0.len()
    }

    pub fn is_empty(&self) -> (b: bool)
        ensures
            b == (self.view_seq().len() == 0),
    {
        self.0.len() == 0
    }

    /// Accepts `80`, `80,443`, `1-1024`, and any mixture of those; the set
    /// they name, sorted.
    pub fn parse(s: &str) -> (r: Result<Ports, PortsError>)
        ensures
            match ports_from_text(s@) {
                Ok(values) => r is Ok && increasing(r->Ok_0.view_seq()) && r->Ok_0.view_seq().to_set()
                    == values.to_set(),
                Err(e) => r is Err && error_view(r->Err_0) == e,
            },
    {
        let v = chars_of(s);
        let parts = crate::text::split_chars(v.as_slice(), ',');
        let mut present: Vec<bool> = Vec::new();
        let mut k: usize = 0;
        while k < 65536
            invariant
                k <= 65536,
                present@.len() == k,
                forall|j: int| 0 <= j < k ==> !#[trigger] present@[j],
            decreases 65536 - k,
        {
            present.push(false);
            k += 1;
        }
        let ghost texts = crate::text::views(parts@);
        let mut any = false;
        let mut i: usize = 0;
        while i < parts.len()
            invariant
                i <= parts@.len(),
                texts == crate::text::views(parts@),
                texts == crate::text::split(s@, ','),
                present@.len() == 65536,
                parts_values(texts.take(i as int)) is Ok,
                forall|p: int| 0 <= p < 65536 ==> (#[trigger] present@[p] <==> parts_values(texts.take(i as int))->Ok_0.contains(p as u16)),
                any == (parts_values(texts.take(i as int))->Ok_0.len() > 0),
            decreases parts@.len() - i,
        {
            proof {
                assert(texts.take(i + 1).drop_last() =~= texts.take(i as int));
            }
            let part = crate::text::trimmed(parts[i].as_slice());
            if part.len() > 0 {
                match part_range(&part) {
                    Err(e) => {
                        proof {
                            lemma_parts_error(texts, i as int);
                        }
                        return Err(e);
                    },
                    Ok((from, to)) => {
                        let ghost before = parts_values(texts.take(i as int))->Ok_0;
                        let mut p: u32 = from as u32;
                        while p <= to as u32
                            invariant
                                from <= p <= to as u32 + 1,
                                present@.len() == 65536,
                                forall|q: int| 0 <= q < 65536 ==> (#[trigger] present@[q] <==> (before.contains(q as u16) || (from <= q < p))),
                            decreases to as u32 + 1 - p,
                        {
                            present.set(p as usize, true);
                            p += 1;
                        }
                        any = true;
                        proof {
                            let now = before + range_seq(from, to);
                            assert(parts_values(texts.take(i + 1)) == Ok::<Seq<u16>, PortsErrorView>(now));
                            assert forall|q: int| 0 <= q < 65536 implies (#[trigger] present@[q] <==> now.contains(q as u16)) by {
                                lemma_range_contains(from, to, q);
                                lemma_concat_contains(before, range_seq(from, to), q as u16);
                            }
                            assert(range_seq(from, to).len() > 0);
                        }
                    },
                }
            } else {
                proof {
                    assert(parts_values(texts.take(i + 1)) == parts_values(texts.take(i as int)));
                }
            }
            i += 1;
        }
        proof {
            assert(texts.take(parts@.len() as int) =~= texts);
        }
        if !any {
            return Err(PortsError::Empty);
        }
        let mut out: Vec<u16> = Vec::new();
        let mut q: usize = 0;
        let ghost values = parts_values(texts)->Ok_0;
        while q < 65536
            invariant
                q <= 65536,
                present@.len() == 65536,
                forall|p: int| 0 <= p < 65536 ==> (#[trigger] present@[p] <==> values.contains(p as u16)),
                increasing(out@),
                forall|t: int| 0 <= t < out@.len() ==> #[trigger] out@[t] < q,
                forall|x: u16| (#[trigger] out@.contains(x)) <==> (x < q && values.contains(x)),
            decreases 65536 - q,
        {
            if present[q] {
                let ghost before = out@;
                out.push(q as u16);
                proof {
                    assert(present@[q as int]);
                    assert forall|x: u16| (#[trigger] out@.contains(x)) <==> (x < q + 1 && values.contains(x)) by {
                        lemma_concat_contains(before, seq![q as u16], x);
                        assert(out@ =~= before + seq![q as u16]);
                        if x == q as u16 {
                            assert(seq![q as u16][0] == x);
                        }
                        if seq![q as u16].contains(x) {
                            assert(x == q as u16);
                        }
                    }
                }
            } else {
                proof {
                    assert forall|x: u16| (#[trigger] out@.contains(x)) <==> (x < q + 1 && values.contains(x)) by {
                        if x == q as u16 {
                            assert(!present@[q as int]);
                        }
                    }
                }
            }
            q += 1;
        }
        proof {
            assert(out@.to_set() =~= values.to_set());
        }
        Ok(Ports(out))
    }
}

proof fn lemma_chain(s: Seq<u16>, i: int, j: int)
    requires
        0 <= i < j < s.len(),
        forall|k: int| 0 <= k < s.len() - 1 ==> #[trigger] s[k] < s[k + 1],
    ensures
        s[i] < s[j],
    decreases j - i,
{
    if j > i + 1 {
        lemma_chain(s, i, j - 1);
        assert(s[j - 1] < s[j]);
    }
}

/// The ports `from..=to`, in order.
pub open spec fn range_seq(from: u16, to: u16) -> Seq<u16> {
    Seq::new((to - from + 1) as nat, |i: int| (from + i) as u16)
}

proof fn lemma_range_contains(from: u16, to: u16, q: int)
    requires
        from <= to,
        0 <= q < 65536,
    ensures
        range_seq(from, to).contains(q as u16) <==> from <= q <= to,
{
    if from <= q <= to {
        assert(range_seq(from, to)[q - from] == q as u16);
    }
}

/// Why a port list is not one.
#[derive(Clone, Debug, PartialEq, Eq)]
pub enum PortsError {
    NotAPort(String),
    Backwards(u16, u16),
    Empty,
}

pub enum PortsErrorView {
    NotAPort(Seq<char>),
    Backwards(u16, u16),
    Empty,
}

pub open spec fn error_view(e: PortsError) -> PortsErrorView {
    match e {
        PortsError::NotAPort(s) => PortsErrorView::NotAPort(s@),
        PortsError::Backwards(a, b) => PortsErrorView::Backwards(a, b),
        PortsError::Empty => PortsErrorView::Empty,
    }
}

pub open spec fn u16_from_text(s: Seq<char>) -> Option<u16> {
    match crate::text::bounded_from_text(s, 65535) {
        Some(n) => Some(n as u16),
        None => None,
    }
}

/// The first `-` of a part, if any.
pub open spec fn first_dash(s: Seq<char>) -> Option<int> {
    crate::search::first_index(s.len() as int, |i: int| s[i] == '-')
}

/// What one trimmed, non-empty part names: a port, or a range of them.
pub open spec fn part_value(part: Seq<char>) -> Result<(u16, u16), PortsErrorView> {
    match first_dash(part) {
        None => match u16_from_text(part) {
            Some(p) => Ok((p, p)),
            None => Err(PortsErrorView::NotAPort(part)),
        },
        Some(d) => {
            let from = part.take(d);
            let to = part.skip(d + 1);
            match u16_from_text(trim(from)) {
                None => Err(PortsErrorView::NotAPort(from)),
                Some(a) => match u16_from_text(trim(to)) {
                    None => Err(PortsErrorView::NotAPort(to)),
                    Some(b) => if a > b {
                        Err(PortsErrorView::Backwards(a, b))
                    } else {
                        Ok((a, b))
                    },
                },
            }
        },
    }
}

/// The ports named by comma-separated parts, each trimmed and the empty
/// ones skipped, in the order named; or the first part's error.
pub open spec fn parts_values(parts: Seq<Seq<char>>) -> Result<Seq<u16>, PortsErrorView>
    decreases parts.len(),
{
    if parts.len() == 0 {
        Ok(Seq::empty())
    } else {
        match parts_values(parts.drop_last()) {
            Err(e) => Err(e),
            Ok(v) => {
                let part = trim(parts.last());
                if part.len() == 0 {
                    Ok(v)
                } else {
                    match part_value(part) {
                        Err(e) => Err(e),
                        Ok((a, b)) => Ok(v + range_seq(a, b)),
                    }
                }
            },
        }
    }
}

/// What a port list names: the ports, or why it names none.
pub open spec fn ports_from_text(s: Seq<char>) -> Result<Seq<u16>, PortsErrorView> {
    match parts_values(crate::text::split(s, ',')) {
        Err(e) => Err(e),
        Ok(v) => if v.len() == 0 {
            Err(PortsErrorView::Empty)
        } else {
            Ok(v)
        },
    }
}

proof fn lemma_parts_error(texts: Seq<Seq<char>>, i: int)
    requires
        0 <= i < texts.len(),
        parts_values(texts.take(i)) is Ok,
        trim(texts[i]).len() > 0,
        part_value(trim(texts[i])) is Err,
    ensures
        parts_values(texts) == Err::<Seq<u16>, PortsErrorView>(part_value(trim(texts[i]))->Err_0),
{
    lemma_parts_error_from(texts, i, texts.len() as int);
    assert(texts.take(texts.len() as int) =~= texts);
}

proof fn lemma_parts_error_from(texts: Seq<Seq<char>>, i: int, n: int)
    requires
        0 <= i < n <= texts.len(),
        parts_values(texts.take(i)) is Ok,
        trim(texts[i]).len() > 0,
        part_value(trim(texts[i])) is Err,
    ensures
        parts_values(texts.take(n)) == Err::<Seq<u16>, PortsErrorView>(part_value(trim(texts[i]))->Err_0),
    decreases n - i,
{
    assert(texts.take(n).drop_last() =~= texts.take(n - 1));
    if n > i + 1 {
        lemma_parts_error_from(texts, i, n - 1);
    } else {
        assert(texts.take(n).last() == texts[i]);
    }
}

proof fn lemma_concat_contains(a: Seq<u16>, b: Seq<u16>, x: u16)
    ensures
        (a + b).contains(x) <==> (a.contains(x) || b.contains(x)),
{
    if a.contains(x) {
        let w = choose|w: int| 0 <= w < a.len() && a[w] == x;
        assert((a + b)[w] == x);
    }
    if b.contains(x) {
        let w = choose|w: int| 0 <= w < b.len() && b[w] == x;
        assert((a + b)[a.len() + w] == x);
    }
    if (a + b).contains(x) {
        let w = choose|w: int| 0 <= w < (a + b).len() && (a + b)[w] == x;
        if w < a.len() {
            assert(a[w] == x);
        } else {
            assert(b[w - a.len()] == x);
        }
    }
}

/// One trimmed, non-empty part read: a port as a range of one, or a range.
fn part_range(part: &Vec<char>) -> (r: Result<(u16, u16), PortsError>)
    requires
        part@.len() > 0,
    ensures
        match part_value(part@) {
            Ok(x) => r == Ok::<(u16, u16), PortsError>(x),
            Err(e) => r is Err && error_view(r->Err_0) == e,
        },
{
    let n = part.len();
    let mut d: usize = 0;
    while d < n && part[d] != '-'
        invariant
            d <= n,
            n == part@.len(),
            forall|j: int| 0 <= j < d ==> part@[j] != '-',
        decreases n - d,
    {
        d += 1;
    }
    if d == n {
        proof {
            crate::search::lemma_first_index_none(part@.len() as int, |i: int| part@[i] == '-');
        }
        return match crate::text::parse_bounded(part.as_slice(), 65535) {
            Some(p) => Ok((p as u16, p as u16)),
            None => Err(PortsError::NotAPort(string_of(part.as_slice()))),
        };
    }
    proof {
        crate::search::lemma_first_index_at(part@.len() as int, |i: int| part@[i] == '-', d as int);
    }
    let from = vstd::slice::slice_subrange(part.as_slice(), 0, d);
    let to = vstd::slice::slice_subrange(part.as_slice(), d + 1, n);
    proof {
        assert(from@ =~= part@.take(d as int));
        assert(to@ =~= part@.skip(d + 1));
    }
    let ft = crate::text::trimmed(from);
    let a = match crate::text::parse_bounded(ft.as_slice(), 65535) {
        Some(x) => x as u16,
        None => return Err(PortsError::NotAPort(string_of(from))),
    };
    let tt = crate::text::trimmed(to);
    let b = match crate::text::parse_bounded(tt.as_slice(), 65535) {
        Some(x) => x as u16,
        None => return Err(PortsError::NotAPort(string_of(to))),
    };
    if a > b {
        return Err(PortsError::Backwards(a, b));
    }
    Ok((a, b))
}

impl core::str::FromStr for Ports {
    type Err = PortsError;

    fn from_str(s: &str) -> (r: Result<Ports, PortsError>)
        ensures
            match ports_from_text(s@) {
                Ok(values) => r is Ok && increasing(r->Ok_0.view_seq()) && r->Ok_0.view_seq().to_set()
                    == values.to_set(),
                Err(e) => r is Err && error_view(r->Err_0) == e,
            },
    {
        Ports::parse(s)
    }
}

impl PortsError {
    /// What went wrong, in words.
    pub fn to_string(&self) -> (s: String)
        ensures
            s@ == (match error_view(*self) {
                PortsErrorView::NotAPort(t) => "'"@ + t + "' is not a port number"@,
                PortsErrorView::Backwards(a, b) => "the range "@ + decimal(a as nat) + "-"@ + decimal(
                    b as nat,
                ) + " runs backwards"@,
                PortsErrorView::Empty => "no ports given"@,
            }),
    {
        match self {
            PortsError::NotAPort(t) => {
                let mut s = string_of(chars_of("'").as_slice());
                push_str(&mut s, t.as_str());
                push_str(&mut s, "' is not a port number");
                s
            },
            PortsError::Backwards(a, b) => {
                let mut s = string_of(chars_of("the range ").as_slice());
                push_decimal(&mut s, *a as u64);
                push_str(&mut s, "-");
                push_decimal(&mut s, *b as u64);
                push_str(&mut s, " runs backwards");
                s
            },
            PortsError::Empty => string_of(chars_of("no ports given").as_slice()),
        }
    }
}

#[derive(Clone, Copy, Debug)]
pub struct Options {
    pub timeout: Duration,
    pub workers: usize,
}

impl Default for Options {
    fn default() -> (o: Options)
        ensures
            o.timeout == duration_from_millis(700),
            o.workers == 256,
    {
        Options { timeout: millis(700), workers: 256 }
    }
}

/// One host's answers.
#[derive(Clone, Debug, PartialEq, Eq)]
pub struct HostPorts {
    pub address: IpAddr,
    /// Ports that answered, with how, in port order. Filtered ports are
    /// counted rather than listed.
    pub answered: Vec<(u16, PortState)>,
    pub filtered: usize,
}

/// The ports in `a` with state `s`, in order.
pub open spec fn with_state(a: Seq<(u16, PortState)>, s: PortState) -> Seq<u16>
    decreases a.len(),
{
    if a.len() == 0 {
        Seq::empty()
    } else if a.last().1 == s {
        with_state(a.drop_last(), s).push(a.last().0)
    } else {
        with_state(a.drop_last(), s)
    }
}

impl HostPorts {
    /// The open ports, in order.
    pub fn open(&self) -> (r: Vec<u16>)
        ensures
            r@ == with_state(self.answered@, PortState::Open),
    {
        let mut out: Vec<u16> = Vec::new();
        let mut i: usize = 0;
        while i < self.answered.len()
            invariant
                i <= self.answered@.len(),
                out@ == with_state(self.answered@.take(i as int), PortState::Open),
            decreases self.answered@.len() - i,
        {
            proof {
                assert(self.answered@.take(i + 1).drop_last() =~= self.answered@.take(i as int));
            }
            if self.answered[i].1 == PortState::Open {
                out.push(self.answered[i].0);
            }
            i += 1;
        }
        proof {
            assert(self.answered@.take(self.answered@.len() as int) =~= self.answered@);
        }
        out
    }

    /// How many ports refused.
    pub fn closed(&self) -> (n: usize)
        ensures
            n == with_state(self.answered@, PortState::Closed).len(),
    {
        let mut n: usize = 0;
        let mut i: usize = 0;
        while i < self.answered.len()
            invariant
                i <= self.answered@.len(),
                n == with_state(self.answered@.take(i as int), PortState::Closed).len(),
                n <= i,
            decreases self.answered@.len() - i,
        {
            proof {
                assert(self.answered@.take(i + 1).drop_last() =~= self.answered@.take(i as int));
            }
            if self.answered[i].1 == PortState::Closed {
                n += 1;
            }
            i += 1;
        }
        proof {
            assert(self.answered@.take(self.answered@.len() as int) =~= self.answered@);
        }
        n
    }
}

/// The result of scanning some hosts.
#[derive(Clone, Debug)]
pub struct Scan {
    pub hosts: Vec<HostPorts>,
    pub method: Method,
    pub probed: u64,
    pub total: u64,
    pub cancelled: bool,
}

pub open spec fn filtered_total(h: Seq<HostPorts>) -> int
    decreases h.len(),
{
    if h.len() == 0 {
        0
    } else {
        filtered_total(h.drop_last()) + h.last().filtered
    }
}

/// What the interface must say alongside a result.
pub open spec fn spec_caveats(method: Method, cancelled: bool, filtered: int) -> Seq<Seq<char>> {
    let a = match method {
        Method::Connect => seq![connect_caveat()],
        Method::Syn => Seq::empty(),
    };
    let b = if cancelled {
        a.push("stopped early, so this is not every port"@)
    } else {
        a
    };
    if filtered > 0 {
        b.push(
            decimal(filtered as nat) + " port"@ + (if filtered == 1 {
                Seq::<char>::empty()
            } else {
                seq!['s']
            }) + " did not answer, which is not the same as being closed"@,
        )
    } else {
        b
    }
}

impl Scan {
    /// What the interface must say alongside the result, if anything.
    pub fn caveats(&self) -> (r: Vec<String>)
        requires
            filtered_total(self.hosts@) <= u64::MAX,
        ensures
            strings(r@) == spec_caveats(self.method, self.cancelled, filtered_total(self.hosts@)),
    {
        let mut out: Vec<String> = Vec::new();
        if let Some(c) = self.method.caveat() {
            out.push(string_of(chars_of(c).as_slice()));
        }
        let ghost a = strings(out@);
        assert(a =~= match self.method {
            Method::Connect => seq![connect_caveat()],
            Method::Syn => Seq::<Seq<char>>::empty(),
        });
        if self.cancelled {
            out.push(string_of(chars_of("stopped early, so this is not every port").as_slice()));
        }
        let ghost b = strings(out@);
        assert(b =~= if self.cancelled {
            a.push("stopped early, so this is not every port"@)
        } else {
            a
        });
        let mut filtered: u64 = 0;
        let mut i: usize = 0;
        while i < self.hosts.len()
            invariant
                i <= self.hosts@.len(),
                filtered == filtered_total(self.hosts@.take(i as int)),
                filtered_total(self.hosts@) <= u64::MAX,
            decreases self.hosts@.len() - i,
        {
            proof {
                assert(self.hosts@.take(i + 1).drop_last() =~= self.hosts@.take(i as int));
                lemma_filtered_prefix(self.hosts@, i + 1);
            }
            filtered = filtered + self.hosts[i].filtered as u64;
            i += 1;
        }
        proof {
            assert(self.hosts@.take(self.hosts@.len() as int) =~= self.hosts@);
        }
        if filtered > 0 {
            let mut line = String::new();
            push_decimal(&mut line, filtered);
            push_str(&mut line, " port");
            if filtered != 1 {
                crate::text::push_char(&mut line, 's');
            }
            push_str(&mut line, " did not answer, which is not the same as being closed");
            proof {
                assert(line@ =~= decimal(filtered as nat) + " port"@ + (if filtered == 1 {
                    Seq::<char>::empty()
                } else {
                    seq!['s']
                }) + " did not answer, which is not the same as being closed"@);
            }
            out.push(line);
        }
        proof {
            assert(strings(out@) =~= spec_caveats(self.method, self.cancelled, filtered_total(self.hosts@)));
        }
        out
    }
}

proof fn lemma_filtered_prefix(h: Seq<HostPorts>, k: int)
    requires
        0 <= k <= h.len(),
    ensures
        0 <= filtered_total(h.take(k)) <= filtered_total(h),
    decreases h.len() - k,
{
    if k < h.len() {
        lemma_filtered_prefix(h, k + 1);
        assert(h.take(k + 1).drop_last() =~= h.take(k));
    } else {
        assert(h.take(k) =~= h);
    }
    lemma_filtered_nonneg(h.take(k));
}

proof fn lemma_filtered_nonneg(h: Seq<HostPorts>)
    ensures
        filtered_total(h) >= 0,
    decreases h.len(),
{
    if h.len() > 0 {
        lemma_filtered_nonneg(h.drop_last());
    }
}

/// The answers that were not silence, in the order given.
pub open spec fn answered_of(a: Seq<(u16, PortState)>) -> Seq<(u16, PortState)>
    decreases a.len(),
{
    if a.len() == 0 {
        Seq::empty()
    } else if a.last().1 == PortState::Filtered {
        answered_of(a.drop_last())
    } else {
        answered_of(a.drop_last()).push(a.last())
    }
}

/// How many answers were silence.
pub open spec fn silent_count(a: Seq<(u16, PortState)>) -> nat
    decreases a.len(),
{
    if a.len() == 0 {
        0
    } else if a.last().1 == PortState::Filtered {
        silent_count(a.drop_last()) + 1
    } else {
        silent_count(a.drop_last())
    }
}

/// Silence is never reported as closed: every answer is either kept, as
/// the open or closed port it was, or counted as silent, and none of the
/// kept ones is silence.
pub proof fn lemma_silence_is_not_closed(a: Seq<(u16, PortState)>)
    ensures
        answered_of(a).len() + silent_count(a) == a.len(),
        forall|k: int| 0 <= k < answered_of(a).len() ==> (#[trigger] answered_of(a)[k]).1 != PortState::Filtered,
        forall|x: (u16, PortState)| x.1 != PortState::Filtered ==> (#[trigger] answered_of(a).contains(x) <==> a.contains(x)),
    decreases a.len(),
{
    if a.len() > 0 {
        let p = a.drop_last();
        lemma_silence_is_not_closed(p);
        let r = answered_of(p);
        assert forall|x: (u16, PortState)| x.1 != PortState::Filtered implies (#[trigger] answered_of(a).contains(x) <==> a.contains(x)) by {
            if p.contains(x) {
                let w = choose|w: int| 0 <= w < p.len() && p[w] == x;
                assert(a[w] == x);
            }
            if a.contains(x) && x != a.last() {
                let w = choose|w: int| 0 <= w < a.len() && a[w] == x;
                assert(w < a.len() - 1);
                assert(p[w] == x);
            }
            if a.contains(x) && x == a.last() {
                assert(a[a.len() - 1] == x);
            }
            if a.last().1 != PortState::Filtered {
                if r.push(a.last()).contains(x) && x != a.last() {
                    let w = choose|w: int| 0 <= w < r.len() + 1 && r.push(a.last())[w] == x;
                    assert(r[w] == x);
                }
                if x == a.last() {
                    assert(r.push(a.last())[r.len() as int] == x);
                }
                if r.contains(x) {
                    let w = choose|w: int| 0 <= w < r.len() && r[w] == x;
                    assert(r.push(a.last())[w] == x);
                }
            }
        }
    }
}

/// In port order.
pub open spec fn by_port(a: Seq<(u16, PortState)>) -> bool {
    forall|i: int, j: int| 0 <= i < j < a.len() ==> (#[trigger] a[i]).0 <= (#[trigger] a[j]).0
}

/// One host's answers as the scan reports them: the ones that were not
/// silence, in port order, and a count of the silent ones.
pub fn host_ports(address: IpAddr, found: &Vec<(u16, PortState)>) -> (h: HostPorts)
    ensures
        h.address == address,
        h.filtered == silent_count(found@),
        h.answered@.to_multiset() == answered_of(found@).to_multiset(),
        by_port(h.answered@),
{
    broadcast use vstd::multiset::group_multiset_axioms;
    broadcast use vstd::seq_lib::group_to_multiset_ensures;

    let mut out: Vec<(u16, PortState)> = Vec::new();
    let mut filtered: usize = 0;
    let mut i: usize = 0;
    proof {
        assert(found@.take(0) =~= Seq::<(u16, PortState)>::empty());
        assert(out@.to_multiset() =~= vstd::multiset::Multiset::empty());
    }
    while i < found.len()
        invariant
            i <= found@.len(),
            filtered == silent_count(found@.take(i as int)),
            filtered <= i,
            out@.to_multiset() == answered_of(found@.take(i as int)).to_multiset(),
            by_port(out@),
        decreases found@.len() - i,
    {
        proof {
            assert(found@.take(i + 1).drop_last() =~= found@.take(i as int));
        }
        let x = found[i];
        if x.1 == PortState::Filtered {
            filtered += 1;
        } else {
            // After every answer on a port no higher, which for answers that
            // arrive in order is the end.
            let mut k: usize = out.len();
            while k > 0 && out[k - 1].0 > x.0
                invariant
                    k <= out@.len(),
                    forall|t: int| k <= t < out@.len() ==> (#[trigger] out@[t]).0 > x.0,
                decreases k,
            {
                k -= 1;
            }
            let ghost before = out@;
            out.insert(k, x);
            proof {
                vstd::seq_lib::to_multiset_insert(before, k as int, x);
                vstd::seq_lib::to_multiset_build(answered_of(found@.take(i as int)), x);
                assert(answered_of(found@.take(i + 1)) == answered_of(found@.take(i as int)).push(x));
                let now = out@;
                assert forall|a: int, b: int| 0 <= a < b < now.len() implies (#[trigger] now[a]).0 <= (#[trigger] now[b]).0 by {
                    if a == k as int {
                        assert(now[b] == before[b - 1]);
                    } else if b == k as int {
                        assert(now[a] == before[a]);
                        if a < k - 1 {
                            assert(before[a].0 <= before[k - 1].0);
                        }
                    } else {
                        let a0 = if a < k { a } else { a - 1 };
                        let b0 = if b < k { b } else { b - 1 };
                        assert(now[a] == before[a0]);
                        assert(now[b] == before[b0]);
                    }
                }
            }
        }
        i += 1;
    }
    proof {
        assert(found@.take(found@.len() as int) =~= found@);
    }
    HostPorts { address, answered: out, filtered }
}

/// The scan a set of per-host answers makes: one entry per target, in the
/// order given.
pub fn assemble(
    targets: &Vec<IpAddr>,
    per_host: &Vec<Vec<(u16, PortState)>>,
    method: Method,
    probed: u64,
    total: u64,
    cancelled: bool,
) -> (s: Scan)
    requires
        per_host@.len() == targets@.len(),
    ensures
        s.hosts@.len() == targets@.len(),
        forall|i: int|
            0 <= i < targets@.len() ==> {
                let h = #[trigger] s.hosts@[i];
                &&& h.address == targets@[i]
                &&& h.filtered == silent_count(per_host@[i]@)
                &&& h.answered@.to_multiset() == answered_of(per_host@[i]@).to_multiset()
                &&& by_port(h.answered@)
            },
        s.method == method,
        s.probed == probed,
        s.total == total,
        s.cancelled == cancelled,
{
    let mut hosts: Vec<HostPorts> = Vec::new();
    let mut i: usize = 0;
    while i < targets.len()
        invariant
            i <= targets@.len(),
            per_host@.len() == targets@.len(),
            hosts@.len() == i,
            forall|k: int|
                0 <= k < i ==> {
                    let h = #[trigger] hosts@[k];
                    &&& h.address == targets@[k]
                    &&& h.filtered == silent_count(per_host@[k]@)
                    &&& h.answered@.to_multiset() == answered_of(per_host@[k]@).to_multiset()
                    &&& by_port(h.answered@)
                },
        decreases targets@.len() - i,
    {
        hosts.push(host_ports(targets[i], &per_host[i]));
        i += 1;
    }
    Scan { hosts, method, probed, total, cancelled }
}


/// A reply validates exactly when it acknowledges the cookie of the probe it
/// claims to answer: the acknowledgement that follows the cookie of its own
/// source, target and port, and no other number.
pub proof fn lemma_cookie_validates_only_its_own_probe(
    key: (u64, u64),
    source: IpAddr,
    target: IpAddr,
    port: u16,
    ack: u32,
)
    ensures
        (ack == following(cookie_of(key, source, target, port))) <==> ack as int == (cookie_of(
            key,
            source,
            target,
            port,
        ) as int + 1) % 0x1_0000_0000,
{
}

} // verus!
