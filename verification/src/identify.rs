//! Phase four: asking a device what it is.
//!
//! Three questions: reverse DNS to the machine's own resolver, mDNS to the
//! device, and NetBIOS to port 137. Every one is a datagram out and a datagram
//! back; sending them happens outside this crate, and the replies are read
//! into an [`Identity`] here, by [`Identity::take_reverse`],
//! [`Identity::take_mdns`] and [`Identity::take_netbios`].
//!
//! ## Sources are merged with a priority, never raced
//!
//! Identity is a merge of independent sources with a priority, and where
//! sources disagree both are kept. The order is self-reported first: mDNS and
//! NetBIOS are the device speaking about itself, while reverse DNS is what the
//! router was told once, possibly by a previous occupant of the address.

use vstd::prelude::*;
use crate::dns;
use crate::dns::{first_ptr_from, spec_parse, MessageView, RDataView, RecordView};
use crate::addr::{IpAddr, Ipv4Addr};
use crate::mac::MacAddr;
use crate::netbios;
use crate::netbios::{first_with, spec_parse_node_status};
use crate::text::{
    decimal,
    chars_of, has_prefix, lower, lowered, same_chars, split, split_chars, starts_with,
    string_of, trim_end_matches, without_suffixes,
};

verus! {

/// Where a name came from. The order of the variants is the priority order.
#[derive(Clone, Copy, Debug, PartialEq, Eq, Structural, PartialOrd, Ord)]
pub enum Source {
    /// The device answered mDNS about itself.
    Mdns,
    /// The device answered NetBIOS about itself.
    NetBios,
    /// The resolver had a `PTR` record. Second-hand, and sometimes stale.
    ReverseDns,
}

impl Source {
    /// The priority: lower is better.
    pub open spec fn rank(self) -> int {
        match self {
            Source::Mdns => 0,
            Source::NetBios => 1,
            Source::ReverseDns => 2,
        }
    }

    fn rank_of(self) -> (r: u8)
        ensures
            r == self.rank(),
    {
        match self {
            Source::Mdns => 0,
            Source::NetBios => 1,
            Source::ReverseDns => 2,
        }
    }

    pub fn label(self) -> (s: &'static str)
        ensures
            s@ == (match self {
                Source::Mdns => "mDNS"@,
                Source::NetBios => "NetBIOS"@,
                Source::ReverseDns => "reverse DNS"@,
            }),
    {
        match self {
            Source::Mdns => "mDNS",
            Source::NetBios => "NetBIOS",
            Source::ReverseDns => "reverse DNS",
        }
    }
}

/// A name, and who said so.
#[derive(Clone, Debug, PartialEq, Eq)]
pub struct Name {
    pub value: String,
    pub source: Source,
}

/// What was learned about one device.
#[derive(Clone, Debug, PartialEq, Eq)]
pub struct Identity {
    /// Every name learned, best source first. Disagreement is preserved
    /// rather than resolved away.
    pub names: Vec<Name>,
    /// The Windows workgroup or domain, where one answered.
    pub workgroup: Option<String>,
    /// A hardware address reported by NetBIOS.
    pub mac: Option<MacAddr>,
    /// mDNS service types seen, such as `_ipp._tcp` for a printer.
    pub services: Vec<String>,
}

pub struct NameView {
    pub value: Seq<char>,
    pub source: Source,
}

pub struct IdentityView {
    pub names: Seq<NameView>,
    pub workgroup: Option<Seq<char>>,
    pub mac: Option<MacAddr>,
    pub services: Seq<Seq<char>>,
}

pub open spec fn names_view(v: Seq<Name>) -> Seq<NameView> {
    Seq::new(v.len(), |i: int| NameView { value: v[i].value@, source: v[i].source })
}

pub open spec fn strings_view(v: Seq<String>) -> Seq<Seq<char>> {
    Seq::new(v.len(), |i: int| v[i]@)
}

impl View for Identity {
    type V = IdentityView;

    open spec fn view(&self) -> IdentityView {
        IdentityView {
            names: names_view(self.names@),
            workgroup: match self.workgroup {
                Some(w) => Some(w@),
                None => None,
            },
            mac: self.mac,
            services: strings_view(self.services@),
        }
    }
}

/// The form two names are compared in, so that one device is not reported as
/// disagreeing with itself: trailing dots, then the local suffixes `.local`,
/// `.lan` and `.home`, removed, and ASCII letters lower-cased. `printer.local`,
/// `printer.lan` and `PRINTER` are one name.
pub open spec fn canon(name: Seq<char>) -> Seq<char> {
    lower(
        trim_end_matches(
            trim_end_matches(
                trim_end_matches(trim_end_matches(name, "."@), ".local"@),
                ".lan"@,
            ),
            ".home"@,
        ),
    )
}

fn canonical(name: &str) -> (r: Vec<char>)
    ensures
        r@ == canon(name@),
{
    let v = chars_of(name);
    let dot = chars_of(".");
    let local = chars_of(".local");
    let lan = chars_of(".lan");
    let home = chars_of(".home");
    let a = without_suffixes(v.as_slice(), dot.as_slice());
    let b = without_suffixes(a.as_slice(), local.as_slice());
    let c = without_suffixes(b.as_slice(), lan.as_slice());
    let d = without_suffixes(c.as_slice(), home.as_slice());
    lowered(d.as_slice())
}

/// The index of the best name: the first of the highest priority.
pub open spec fn best_idx(ns: Seq<NameView>) -> int
    decreases ns.len(),
{
    if ns.len() <= 1 {
        0
    } else {
        let b = best_idx(ns.drop_last());
        if ns.last().source.rank() < ns[b].source.rank() {
            ns.len() - 1
        } else {
            b
        }
    }
}

proof fn lemma_best_idx(ns: Seq<NameView>)
    requires
        ns.len() > 0,
    ensures
        0 <= best_idx(ns) < ns.len(),
        forall|i: int| 0 <= i < ns.len() ==> ns[best_idx(ns)].source.rank() <= #[trigger] ns[i].source.rank(),
        forall|i: int| 0 <= i < best_idx(ns) ==> ns[best_idx(ns)].source.rank() < #[trigger] ns[i].source.rank(),
    decreases ns.len(),
{
    if ns.len() > 1 {
        let p = ns.drop_last();
        lemma_best_idx(p);
        assert(p[best_idx(p)] == ns[best_idx(p)]);
        assert forall|i: int| 0 <= i < ns.len() implies ns[best_idx(ns)].source.rank()
            <= #[trigger] ns[i].source.rank() by {
            if i < p.len() {
                assert(p[i] == ns[i]);
            }
        }
        assert forall|i: int| 0 <= i < best_idx(ns) implies ns[best_idx(ns)].source.rank()
            < #[trigger] ns[i].source.rank() by {
            assert(p[i] == ns[i]);
        }
    }
}

/// The names other than the best one, by value, each once, in order.
pub open spec fn others(ns: Seq<NameView>, key: Seq<char>) -> Seq<Seq<char>>
    decreases ns.len(),
{
    if ns.len() == 0 {
        Seq::empty()
    } else {
        let o = others(ns.drop_last(), key);
        let v = ns.last().value;
        if canon(v) != key && !o.contains(v) {
            o.push(v)
        } else {
            o
        }
    }
}

/// The names of `ns` whose source has rank `r`, in order.
pub open spec fn of_rank(ns: Seq<NameView>, r: int) -> Seq<NameView>
    decreases ns.len(),
{
    if ns.len() == 0 {
        Seq::empty()
    } else if ns.last().source.rank() == r {
        of_rank(ns.drop_last(), r).push(ns.last())
    } else {
        of_rank(ns.drop_last(), r)
    }
}

/// `ns` sorted by source, stably: the order `sort_by_key` gives.
pub open spec fn by_source(ns: Seq<NameView>) -> Seq<NameView> {
    of_rank(ns, 0) + of_rank(ns, 1) + of_rank(ns, 2)
}

/// A name learned: trailing dots removed; nothing added where that leaves it
/// empty or the same name from the same source is already there; otherwise
/// added and the names kept in priority order.
pub open spec fn spec_add(id: IdentityView, value: Seq<char>, source: Source) -> IdentityView {
    let v = trim_end_matches(value, "."@);
    if v.len() == 0 || exists|i: int|
        0 <= i < id.names.len() && #[trigger] id.names[i].value == v && id.names[i].source
            == source {
        id
    } else {
        IdentityView { names: by_source(id.names.push(NameView { value: v, source })), ..id }
    }
}

/// The `_ipp._tcp` out of `printer._ipp._tcp.local`, where there is one: two
/// labels after the first `._`, the first beginning `_` and the second `_tcp`
/// or `_udp`. The enumeration meta-query `_services._dns-sd._udp` is not a
/// service anything offers.
pub open spec fn spec_service_type(name: Seq<char>) -> Option<Seq<char>> {
    let t = trim_end_matches(trim_end_matches(name, "."@), ".local"@);
    if starts_with(t, "_services."@) {
        None
    } else {
        match find_dot_underscore(t, 0) {
            None => None,
            Some(at) => {
                let service = t.skip(at + 1);
                let parts = split(service, '.');
                if parts.len() == 2 && starts_with(parts[0], "_"@) && (parts[1] == "_tcp"@
                    || parts[1] == "_udp"@) {
                    Some(service)
                } else {
                    None
                }
            },
        }
    }
}

/// The first `i` from `from` at which `._` begins.
pub open spec fn find_dot_underscore(t: Seq<char>, from: int) -> Option<int>
    decreases t.len() - from,
{
    if from < 0 || from + 1 >= t.len() {
        None
    } else if t[from] == '.' && t[from + 1] == '_' {
        Some(from)
    } else {
        find_dot_underscore(t, from + 1)
    }
}

proof fn lemma_find_dot_underscore(t: Seq<char>, from: int)
    requires
        0 <= from,
    ensures
        match find_dot_underscore(t, from) {
            Some(a) => from <= a && a + 1 < t.len(),
            None => true,
        },
    decreases t.len() - from,
{
    if from + 1 < t.len() && !(t[from] == '.' && t[from + 1] == '_') {
        lemma_find_dot_underscore(t, from + 1);
    }
}

/// Where `._` first begins in `t`.
fn find_dot_under(t: &[char]) -> (r: Option<usize>)
    ensures
        match r {
            Some(a) => find_dot_underscore(t@, 0) == Some(a as int),
            None => find_dot_underscore(t@, 0) is None,
        },
{
    let n = t.len();
    let mut i: usize = 0;
    while i < n
        invariant
            n == t@.len(),
            i <= n,
            find_dot_underscore(t@, i as int) == find_dot_underscore(t@, 0),
        decreases n - i,
    {
        if i + 1 < n && t[i] == '.' && t[i + 1] == '_' {
            return Some(i);
        }
        i += 1;
    }
    None
}

/// The service type named by a record name, if any.
pub fn service_type(name: &str) -> (r: Option<String>)
    ensures
        match spec_service_type(name@) {
            Some(s) => r is Some && r->0@ == s,
            None => r is None,
        },
{
    let v = chars_of(name);
    let dot = chars_of(".");
    let local = chars_of(".local");
    let a = without_suffixes(v.as_slice(), dot.as_slice());
    let t = without_suffixes(a.as_slice(), local.as_slice());
    let meta = chars_of("_services.");
    if has_prefix(t.as_slice(), meta.as_slice()) {
        return None;
    }
    let at = match find_dot_under(t.as_slice()) {
        Some(a) => a,
        None => return None,
    };
    proof {
        lemma_find_dot_underscore(t@, 0);
    }
    let service = vstd::slice::slice_subrange(t.as_slice(), at + 1, t.len());
    assert(service@ =~= t@.skip(at + 1));
    let parts = split_chars(service, '.');
    if parts.len() != 2 {
        return None;
    }
    let under = chars_of("_");
    let tcp = chars_of("_tcp");
    let udp = chars_of("_udp");
    proof {
        assert(parts@[0]@ == split(service@, '.')[0]);
        assert(parts@[1]@ == split(service@, '.')[1]);
    }
    if has_prefix(parts[0].as_slice(), under.as_slice()) && (same_chars(
        parts[1].as_slice(),
        tcp.as_slice(),
    ) || same_chars(parts[1].as_slice(), udp.as_slice())) {
        Some(string_of(service))
    } else {
        None
    }
}

/// The identity as a reverse-DNS reply leaves it: the first `PTR` target
/// added as a second-hand name.
pub open spec fn spec_take_reverse(id: IdentityView, reply: Seq<u8>) -> IdentityView {
    match spec_parse(reply) {
        None => id,
        Some(m) => match first_ptr_from(m.answers + m.extra, 0) {
            Some(n) => spec_add(id, n, Source::ReverseDns),
            None => id,
        },
    }
}

/// One record of an mDNS reply read: an `SRV` target is the device's own
/// name, and a service type in the record name is a service it offers,
/// recorded once.
pub open spec fn mdns_record(id: IdentityView, r: RecordView) -> IdentityView {
    let id2 = match r.data {
        RDataView::Srv { target, .. } => spec_add(id, target, Source::Mdns),
        _ => id,
    };
    match spec_service_type(r.name) {
        Some(s) => if id2.services.contains(s) {
            id2
        } else {
            IdentityView { services: id2.services.push(s), ..id2 }
        },
        None => id2,
    }
}

pub open spec fn mdns_records(id: IdentityView, rs: Seq<RecordView>) -> IdentityView
    decreases rs.len(),
{
    if rs.len() == 0 {
        id
    } else {
        mdns_record(mdns_records(id, rs.drop_last()), rs.last())
    }
}

/// The identity as an mDNS reply leaves it: the first `PTR` target added as
/// the device's own name, then every record read.
pub open spec fn spec_take_mdns(id: IdentityView, reply: Seq<u8>) -> IdentityView {
    match spec_parse(reply) {
        None => id,
        Some(m) => {
            let id2 = match first_ptr_from(m.answers + m.extra, 0) {
                Some(n) => spec_add(id, n, Source::Mdns),
                None => id,
            };
            mdns_records(id2, m.answers + m.extra)
        },
    }
}

/// The identity as a NetBIOS node status reply leaves it: the hostname added,
/// and the workgroup and the adapter address taken from the reply.
pub open spec fn spec_take_netbios(id: IdentityView, reply: Seq<u8>) -> IdentityView {
    match spec_parse_node_status(reply) {
        None => id,
        Some(s) => {
            let id2 = match first_with(s.names, false, 0) {
                Some(n) => spec_add(id, n, Source::NetBios),
                None => id,
            };
            IdentityView { workgroup: first_with(s.names, true, 0), mac: s.mac, ..id2 }
        },
    }
}

impl Default for Identity {
    fn default() -> (r: Identity)
        ensures
            r@.names.len() == 0,
            r@.workgroup is None,
            r@.mac is None,
            r@.services.len() == 0,
    {
        Identity::new()
    }
}

impl Identity {
    /// Nothing learned.
    pub fn new() -> (r: Identity)
        ensures
            r@.names.len() == 0,
            r@.workgroup is None,
            r@.mac is None,
            r@.services.len() == 0,
    {
        Identity { names: Vec::new(), workgroup: None, mac: None, services: Vec::new() }
    }

    pub fn is_empty(&self) -> (b: bool)
        ensures
            b == (self.names@.len() == 0 && self.workgroup is None && self.services@.len() == 0),
    {
        self.names.len() == 0 && self.workgroup.is_none() && self.services.len() == 0
    }

    /// The name to show. The highest-priority source wins; ties keep the
    /// first.
    pub fn best(&self) -> (r: Option<&Name>)
        ensures
            self.names@.len() == 0 ==> r is None,
            self.names@.len() > 0 ==> r == Some(&self.names@[best_idx(self@.names)]),
    {
        if self.names.len() == 0 {
            return None;
        }
        let ghost ns = self@.names;
        let mut b: usize = 0;
        let mut i: usize = 1;
        while i < self.names.len()
            invariant
                ns == names_view(self.names@),
                1 <= i <= self.names@.len(),
                b < i,
                b == best_idx(ns.take(i as int)),
            decreases self.names@.len() - i,
        {
            proof {
                assert(ns.take(i + 1).drop_last() =~= ns.take(i as int));
                lemma_best_idx(ns.take(i as int));
            }
            if self.names[i].source.rank_of() < self.names[b].source.rank_of() {
                b = i;
            }
            i += 1;
        }
        proof {
            assert(ns.take(self.names@.len() as int) =~= ns);
        }
        Some(&self.names[b])
    }

    /// Do the sources disagree about what this device is called, once names
    /// are compared in their canonical form?
    pub fn disputed(&self) -> (b: bool)
        ensures
            b == exists|i: int, j: int|
                0 <= i < self.names@.len() && 0 <= j < self.names@.len() && canon(
                    #[trigger] self.names@[i].value@,
                ) != canon(#[trigger] self.names@[j].value@),
    {
        if self.names.len() == 0 {
            return false;
        }
        let first = canonical(self.names[0].value.as_str());
        let mut i: usize = 1;
        while i < self.names.len()
            invariant
                1 <= i <= self.names@.len(),
                first@ == canon(self.names@[0].value@),
                forall|k: int| 0 <= k < i ==> canon(#[trigger] self.names@[k].value@) == first@,
            decreases self.names@.len() - i,
        {
            let c = canonical(self.names[i].value.as_str());
            if !same_chars(c.as_slice(), first.as_slice()) {
                return true;
            }
            i += 1;
        }
        false
    }

    /// The names other than the best one, for saying what else it is called.
    /// Empty unless the sources genuinely disagree.
    pub fn other_names(&self) -> (r: Vec<&str>)
        ensures
            self.names@.len() == 0 ==> r@.len() == 0,
            self.names@.len() > 0 ==> r@.len() == others(
                self@.names,
                canon(self.names@[best_idx(self@.names)].value@),
            ).len(),
            self.names@.len() > 0 ==> forall|k: int|
                0 <= k < r@.len() ==> #[trigger] r@[k]@ == others(
                    self@.names,
                    canon(self.names@[best_idx(self@.names)].value@),
                )[k],
    {
        let best = match self.best() {
            None => return Vec::new(),
            Some(b) => b,
        };
        let ghost ns = self@.names;
        let key = canonical(best.value.as_str());
        let mut out: Vec<&str> = Vec::new();
        let mut i: usize = 0;
        while i < self.names.len()
            invariant
                ns == names_view(self.names@),
                i <= self.names@.len(),
                out@.len() == others(ns.take(i as int), key@).len(),
                forall|k: int| 0 <= k < out@.len() ==> #[trigger] out@[k]@ == others(
                    ns.take(i as int),
                    key@,
                )[k],
            decreases self.names@.len() - i,
        {
            proof {
                assert(ns.take(i + 1).drop_last() =~= ns.take(i as int));
            }
            let value = self.names[i].value.as_str();
            let c = canonical(value);
            if !same_chars(c.as_slice(), key.as_slice()) {
                let vc = chars_of(value);
                let mut seen = false;
                let mut k: usize = 0;
                while k < out.len()
                    invariant
                        k <= out@.len(),
                        seen <==> exists|j: int| 0 <= j < k && out@[j]@ == vc@,
                    decreases out@.len() - k,
                {
                    let oc = chars_of(out[k]);
                    if same_chars(oc.as_slice(), vc.as_slice()) {
                        seen = true;
                    }
                    k += 1;
                }
                proof {
                    let o = others(ns.take(i as int), key@);
                    if o.contains(vc@) {
                        let j = choose|j: int| 0 <= j < o.len() && o[j] == vc@;
                        assert(out@[j]@ == vc@);
                    }
                    if seen {
                        let j = choose|j: int| 0 <= j < out@.len() && out@[j]@ == vc@;
                        assert(o[j] == vc@);
                    }
                }
                if !seen {
                    out.push(value);
                }
            }
            i += 1;
        }
        proof {
            assert(ns.take(self.names@.len() as int) =~= ns);
        }
        out
    }

    /// Adds a name learned from `source`. Trailing dots are removed; an empty
    /// name, or the same name from the same source twice, adds nothing; the
    /// names stay in priority order.
    pub fn add(&mut self, value: String, source: Source)
        ensures
            final(self)@ == spec_add(old(self)@, value@, source),
    {
        let vc = chars_of(value.as_str());
        let dot = chars_of(".");
        let trimmed = without_suffixes(vc.as_slice(), dot.as_slice());
        if trimmed.len() == 0 {
            return;
        }
        let ghost ns = self@.names;
        let mut i: usize = 0;
        while i < self.names.len()
            invariant
                ns == names_view(self.names@),
                i <= self.names@.len(),
                trimmed@ == trim_end_matches(value@, "."@),
                forall|k: int| 0 <= k < i ==> !(#[trigger] ns[k].value == trimmed@ && ns[k].source == source),
            decreases self.names@.len() - i,
        {
            let nc = chars_of(self.names[i].value.as_str());
            if same_chars(nc.as_slice(), trimmed.as_slice()) && self.names[i].source == source {
                proof {
                    let id = old(self)@;
                    assert(id.names[i as int].value == trimmed@);
                    assert(id.names[i as int].source == source);
                    assert(trim_end_matches(value@, "."@) == trimmed@);
                }
                return;
            }
            i += 1;
        }
        let name = Name { value: string_of(trimmed.as_slice()), source };
        let ghost all = ns.push(NameView { value: trimmed@, source });
        let mut pool: Vec<Name> = Vec::new();
        std::mem::swap(&mut pool, &mut self.names);
        pool.push(name);
        assert(names_view(pool@) =~= all);
        let mut sorted: Vec<Name> = Vec::new();
        let mut r: u8 = 0;
        while r < 3
            invariant
                names_view(pool@) == all,
                r <= 3,
                names_view(sorted@) == (if r == 0 {
                    Seq::<NameView>::empty()
                } else if r == 1 {
                    of_rank(all, 0)
                } else if r == 2 {
                    of_rank(all, 0) + of_rank(all, 1)
                } else {
                    by_source(all)
                }),
            decreases 3 - r,
        {
            let ghost start = names_view(sorted@);
            let mut k: usize = 0;
            while k < pool.len()
                invariant
                    names_view(pool@) == all,
                    r < 3,
                    k <= pool@.len(),
                    names_view(sorted@) == start + of_rank(all.take(k as int), r as int),
                decreases pool@.len() - k,
            {
                proof {
                    assert(all.take(k + 1).drop_last() =~= all.take(k as int));
                }
                if pool[k].source.rank_of() == r {
                    let copy = Name { value: pool[k].value.clone(), source: pool[k].source };
                    let ghost before = names_view(sorted@);
                    sorted.push(copy);
                    proof {
                        assert(names_view(sorted@) =~= before.push(all[k as int]));
                    }
                }
                k += 1;
            }
            proof {
                assert(all.take(pool@.len() as int) =~= all);
            }
            r += 1;
        }
        self.names = sorted;
    }

    /// Reads a reverse-DNS reply.
    pub fn take_reverse(&mut self, reply: &[u8])
        requires
            reply@.len() <= isize::MAX,
        ensures
            final(self)@ == spec_take_reverse(old(self)@, reply@),
    {
        if let Some(msg) = dns::parse(reply) {
            if let Some(n) = msg.first_ptr() {
                let s = string_of(chars_of(n).as_slice());
                self.add(s, Source::ReverseDns);
            }
        }
    }

    /// Reads an mDNS reply from the device itself.
    pub fn take_mdns(&mut self, reply: &[u8])
        requires
            reply@.len() <= isize::MAX,
        ensures
            final(self)@ == spec_take_mdns(old(self)@, reply@),
    {
        let msg = match dns::parse(reply) {
            Some(m) => m,
            None => return,
        };
        if let Some(n) = msg.first_ptr() {
            let s = string_of(chars_of(n).as_slice());
            self.add(s, Source::Mdns);
        }
        let rs = msg.records();
        let ghost all = msg.all_records();
        let ghost start = self@;
        let mut i: usize = 0;
        while i < rs.len()
            invariant
                i <= rs@.len(),
                rs@.len() == all.len(),
                forall|k: int| 0 <= k < rs@.len() ==> #[trigger] rs@[k]@ == all[k],
                self@ == mdns_records(start, all.take(i as int)),
            decreases rs@.len() - i,
        {
            proof {
                assert(all.take(i + 1).drop_last() =~= all.take(i as int));
            }
            let ghost prev = self@;
            let rec: &dns::Record = rs[i];
            proof {
                assert(rec@ == all[i as int]);
            }
            if let dns::RData::Srv { target, .. } = &rec.data {
                let s = string_of(chars_of(target.as_str()).as_slice());
                self.add(s, Source::Mdns);
            }
            let ghost id2 = self@;
            assert(id2 == match rec@.data {
                RDataView::Srv { target, .. } => spec_add(prev, target, Source::Mdns),
                _ => prev,
            });
            if let Some(service) = service_type(rec.name.as_str()) {
                let sc = chars_of(service.as_str());
                let mut seen = false;
                let mut k: usize = 0;
                while k < self.services.len()
                    invariant
                        k <= self.services@.len(),
                        seen <==> exists|j: int| 0 <= j < k && self.services@[j]@ == sc@,
                    decreases self.services@.len() - k,
                {
                    let c = chars_of(self.services[k].as_str());
                    if same_chars(c.as_slice(), sc.as_slice()) {
                        seen = true;
                    }
                    k += 1;
                }
                proof {
                    let sv = self@.services;
                    if sv.contains(service@) {
                        let j = choose|j: int| 0 <= j < sv.len() && sv[j] == service@;
                        assert(self.services@[j]@ == sc@);
                    }
                    if seen {
                        let j = choose|j: int| 0 <= j < self.services@.len() && self.services@[j]@ == sc@;
                        assert(sv[j] == service@);
                    }
                }
                if !seen {
                    let ghost before = self@.services;
                    self.services.push(service);
                    proof {
                        assert(self@.services =~= before.push(sc@));
                    }
                }
            }
            assert(self@ == mdns_record(prev, rec@));
            i += 1;
        }
        proof {
            assert(all.take(rs@.len() as int) =~= all);
        }
    }

    /// Reads a NetBIOS node status reply.
    pub fn take_netbios(&mut self, reply: &[u8])
        requires
            reply@.len() <= isize::MAX,
        ensures
            final(self)@ == spec_take_netbios(old(self)@, reply@),
    {
        let status = match netbios::parse_node_status(reply) {
            Some(s) => s,
            None => return,
        };
        if let Some(n) = status.hostname() {
            let s = string_of(chars_of(n).as_slice());
            self.add(s, Source::NetBios);
        }
        self.workgroup = match status.workgroup() {
            Some(w) => Some(string_of(chars_of(w).as_slice())),
            None => None,
        };
        self.mac = status.mac;
    }
}

/// The three questions asked of a device.
#[derive(Clone, Copy, Debug, PartialEq, Eq, Structural)]
pub enum Question {
    /// Reverse DNS to the machine's own resolver.
    Reverse,
    /// mDNS to the device itself.
    Mdns,
    /// NetBIOS node status to port 137.
    NetBios,
}

/// A question, where it goes, and the datagram that asks it.
pub struct Asking {
    pub question: Question,
    pub to: IpAddr,
    pub port: u16,
    pub payload: Vec<u8>,
}

/// The name a reverse lookup asks about.
pub open spec fn reverse_text(a: Ipv4Addr) -> Seq<char> {
    decimal(a.0[3] as nat) + seq!['.'] + decimal(a.0[2] as nat) + seq!['.'] + decimal(a.0[1] as nat)
        + seq!['.'] + decimal(a.0[0] as nat) + ".in-addr.arpa"@
}

/// The reverse question for an address: to the resolver with `id`, or to
/// the device with id 0 and the unicast-response bit.
pub open spec fn reverse_query(id: u16, a: Ipv4Addr, unicast: bool) -> Seq<u8> {
    dns::spec_query(id, vstd::utf8::encode_utf8(reverse_text(a)), dns::TYPE_PTR, unicast)
}

/// What to ask of a device, in order: the resolver where there is one and
/// the address is IPv4; mDNS where asked for and the address is IPv4; NetBIOS
/// where asked for. A machine whose resolver could not be read is not asked
/// at a guessed address.
pub open spec fn spec_questions(
    address: IpAddr,
    resolver: Option<IpAddr>,
    mdns: bool,
    netbios: bool,
    id: u16,
) -> Seq<(Question, IpAddr, u16, Seq<u8>)> {
    let a = match (resolver, address) {
        (Some(r), IpAddr::V4(v4)) => seq![(Question::Reverse, r, 53u16, reverse_query(id, v4, false))],
        _ => Seq::empty(),
    };
    let b = match address {
        IpAddr::V4(v4) => if mdns {
            a.push((Question::Mdns, address, 5353u16, reverse_query(0, v4, true)))
        } else {
            a
        },
        IpAddr::V6(_) => a,
    };
    if netbios {
        b.push((Question::NetBios, address, 137u16, netbios::spec_node_status_query(id)))
    } else {
        b
    }
}

pub open spec fn asking_views(v: Seq<Asking>) -> Seq<(Question, IpAddr, u16, Seq<u8>)> {
    Seq::new(v.len(), |i: int| (v[i].question, v[i].to, v[i].port, v[i].payload@))
}

fn reverse_payload(id: u16, a: Ipv4Addr, unicast: bool) -> (q: Vec<u8>)
    ensures
        q@ == reverse_query(id, a, unicast),
{
    let name = dns::reverse_name(a);
    proof {
        assert(name@ =~= reverse_text(a));
    }
    dns::query(id, name.as_str(), dns::TYPE_PTR, unicast)
}

/// The questions to ask of one device.
pub fn questions(address: IpAddr, resolver: Option<IpAddr>, mdns: bool, netbios: bool, id: u16) -> (r: Vec<Asking>)
    ensures
        asking_views(r@) == spec_questions(address, resolver, mdns, netbios, id),
{
    let mut out: Vec<Asking> = Vec::new();
    if let (Some(r), IpAddr::V4(v4)) = (resolver, address) {
        out.push(Asking { question: Question::Reverse, to: r, port: 53, payload: reverse_payload(id, v4, false) });
    }
    let ghost a = asking_views(out@);
    assert(a =~= match (resolver, address) {
        (Some(r), IpAddr::V4(v4)) => seq![(Question::Reverse, r, 53u16, reverse_query(id, v4, false))],
        _ => Seq::<(Question, IpAddr, u16, Seq<u8>)>::empty(),
    });
    if mdns {
        if let IpAddr::V4(v4) = address {
            out.push(Asking { question: Question::Mdns, to: address, port: 5353, payload: reverse_payload(0, v4, true) });
        }
    }
    let ghost b = asking_views(out@);
    assert(b =~= match address {
        IpAddr::V4(v4) => if mdns {
            a.push((Question::Mdns, address, 5353u16, reverse_query(0, v4, true)))
        } else {
            a
        },
        IpAddr::V6(_) => a,
    });
    if netbios {
        out.push(Asking { question: Question::NetBios, to: address, port: 137, payload: netbios::node_status_query(id) });
    }
    assert(asking_views(out@) =~= spec_questions(address, resolver, mdns, netbios, id));
    out
}

impl Identity {
    /// Reads the reply to one of the questions.
    pub fn take(&mut self, question: Question, reply: &[u8])
        requires
            reply@.len() <= isize::MAX,
        ensures
            final(self)@ == (match question {
                Question::Reverse => spec_take_reverse(old(self)@, reply@),
                Question::Mdns => spec_take_mdns(old(self)@, reply@),
                Question::NetBios => spec_take_netbios(old(self)@, reply@),
            }),
    {
        match question {
            Question::Reverse => self.take_reverse(reply),
            Question::Mdns => self.take_mdns(reply),
            Question::NetBios => self.take_netbios(reply),
        }
    }
}


/// Are the names best source first?
pub open spec fn in_priority_order(ns: Seq<NameView>) -> bool {
    forall|i: int, j: int| 0 <= i < j < ns.len() ==> ns[i].source.rank() <= ns[j].source.rank()
}

proof fn lemma_of_rank(ns: Seq<NameView>, r: int)
    ensures
        forall|k: int| 0 <= k < of_rank(ns, r).len() ==> (#[trigger] of_rank(ns, r)[k]).source.rank() == r,
        forall|x: NameView| #[trigger] of_rank(ns, r).contains(x) <==> ns.contains(x) && x.source.rank() == r,
    decreases ns.len(),
{
    if ns.len() > 0 {
        let p = ns.drop_last();
        lemma_of_rank(p, r);
        let o = of_rank(p, r);
        assert forall|x: NameView| #[trigger] of_rank(ns, r).contains(x) <==> ns.contains(x)
            && x.source.rank() == r by {
            if p.contains(x) {
                let w = choose|w: int| 0 <= w < p.len() && p[w] == x;
                assert(ns[w] == x);
            }
            if ns.contains(x) && x != ns.last() {
                let w = choose|w: int| 0 <= w < ns.len() && ns[w] == x;
                assert(w < ns.len() - 1);
                assert(p[w] == x);
            }
            if ns.last().source.rank() == r {
                if o.push(ns.last()).contains(x) && x != ns.last() {
                    let w = choose|w: int| 0 <= w < o.len() + 1 && o.push(ns.last())[w] == x;
                    assert(o[w] == x);
                }
                if x == ns.last() {
                    assert(o.push(ns.last())[o.len() as int] == x);
                }
                if o.contains(x) {
                    let w = choose|w: int| 0 <= w < o.len() && o[w] == x;
                    assert(o.push(ns.last())[w] == x);
                }
            }
            if ns.contains(x) && x == ns.last() {
                assert(ns[ns.len() - 1] == x);
            }
        }
    }
}

/// Sorting by source keeps every name and puts the best sources first.
pub proof fn lemma_by_source(ns: Seq<NameView>)
    ensures
        in_priority_order(by_source(ns)),
        forall|x: NameView| #[trigger] by_source(ns).contains(x) <==> ns.contains(x),
{
    lemma_of_rank(ns, 0);
    lemma_of_rank(ns, 1);
    lemma_of_rank(ns, 2);
    let a = of_rank(ns, 0);
    let b = of_rank(ns, 1);
    let c = of_rank(ns, 2);
    let all = a + b + c;
    assert forall|i: int| 0 <= i < all.len() implies #[trigger] all[i].source.rank() == (if i < a.len() {
        0int
    } else if i < a.len() + b.len() {
        1int
    } else {
        2int
    }) by {
        if i < a.len() {
            assert(all[i] == a[i]);
        } else if i < a.len() + b.len() {
            assert(all[i] == b[i - a.len()]);
        } else {
            assert(all[i] == c[i - a.len() - b.len()]);
        }
    }
    assert forall|x: NameView| #[trigger] all.contains(x) <==> ns.contains(x) by {
        if all.contains(x) {
            let w = choose|w: int| 0 <= w < all.len() && all[w] == x;
            if w < a.len() {
                assert(a[w] == x);
                assert(of_rank(ns, 0).contains(x));
            } else if w < a.len() + b.len() {
                assert(b[w - a.len()] == x);
                assert(of_rank(ns, 1).contains(x));
            } else {
                assert(c[w - a.len() - b.len()] == x);
                assert(of_rank(ns, 2).contains(x));
            }
        }
        if ns.contains(x) {
            let r = x.source.rank();
            if r == 0 {
                assert(of_rank(ns, 0).contains(x));
                let w = choose|w: int| 0 <= w < a.len() && a[w] == x;
                assert(all[w] == x);
            } else if r == 1 {
                assert(of_rank(ns, 1).contains(x));
                let w = choose|w: int| 0 <= w < b.len() && b[w] == x;
                assert(all[a.len() + w] == x);
            } else {
                assert(of_rank(ns, 2).contains(x));
                let w = choose|w: int| 0 <= w < c.len() && c[w] == x;
                assert(all[a.len() + b.len() + w] == x);
            }
        }
    }
}

/// What adding a name does to an identity: every name already learned
/// stays, the names stay best source first, and adding the same name from
/// the same source again changes nothing.
pub proof fn lemma_add_keeps_every_name(id: IdentityView, value: Seq<char>, source: Source)
    requires
        in_priority_order(id.names),
    ensures
        in_priority_order(spec_add(id, value, source).names),
        forall|x: NameView| id.names.contains(x) ==> #[trigger] spec_add(id, value, source).names.contains(x),
        spec_add(spec_add(id, value, source), value, source) == spec_add(id, value, source),
{
    let v = trim_end_matches(value, "."@);
    let n = NameView { value: v, source };
    let pushed = id.names.push(n);
    lemma_by_source(pushed);
    let once = spec_add(id, value, source);
    if v.len() == 0 || exists|i: int|
        0 <= i < id.names.len() && #[trigger] id.names[i].value == v && id.names[i].source
            == source {
    } else {
        assert forall|x: NameView| id.names.contains(x) implies #[trigger] once.names.contains(x) by {
            let w = choose|w: int| 0 <= w < id.names.len() && id.names[w] == x;
            assert(pushed[w] == x);
        }
        assert(pushed[id.names.len() as int] == n);
        assert(once.names.contains(n));
        let w = choose|w: int| 0 <= w < once.names.len() && once.names[w] == n;
        assert(once.names[w].value == v && once.names[w].source == source);
    }
}


/// A device is not reported as disagreeing with itself: the name it gives
/// over mDNS, with `.local`, is the same name as the bare one NetBIOS gives.
pub proof fn lemma_local_name_is_the_same_name(n: Seq<char>)
    requires
        !crate::text::ends_with(n, "."@),
    ensures
        canon(n + ".local"@) == canon(n),
{
    let x = n + ".local"@;
    let dot = "."@;
    let local = ".local"@;
    assert(dot.len() == 1 && dot[0] == '.') by {
        reveal_strlit(".");
    }
    assert(local.len() == 6) by {
        reveal_strlit(".local");
    }
    assert(x.len() == n.len() + 6);
    assert(x.skip(x.len() - 1) =~= seq![x[x.len() - 1]]);
    assert(x[x.len() - 1] == local[5]);
    assert(local[5] == 'l') by {
        reveal_strlit(".local");
    }
    assert(!crate::text::ends_with(x, dot)) by {
        assert(x.skip(x.len() - 1)[0] == 'l');
    }
    assert(crate::text::trim_end_matches(x, dot) == x);
    assert(crate::text::trim_end_matches(n, dot) == n);
    assert(x.skip(x.len() - 6) =~= local);
    assert(x.take(x.len() - 6) =~= n);
    assert(crate::text::trim_end_matches(x, local) == crate::text::trim_end_matches(n, local));
}


/// Text that does not end in the last character of a suffix does not end in
/// the suffix, and trimming the suffix leaves it as it is.
proof fn lemma_last_differs(x: Seq<char>, suf: Seq<char>)
    requires
        suf.len() > 0,
        x.len() > 0,
        x.last() != suf.last(),
    ensures
        !crate::text::ends_with(x, suf),
        trim_end_matches(x, suf) == x,
{
    if crate::text::ends_with(x, suf) {
        assert(x.skip(x.len() - suf.len())[suf.len() - 1] == x.last());
    }
}

/// A suffix added to text is trimmed off again, with whatever copies of it
/// the text already ended in.
proof fn lemma_suffix_trimmed(n: Seq<char>, suf: Seq<char>)
    requires
        suf.len() > 0,
    ensures
        trim_end_matches(n + suf, suf) == trim_end_matches(n, suf),
{
    let x = n + suf;
    assert(x.skip(x.len() - suf.len()) =~= suf);
    assert(x.take(x.len() - suf.len()) =~= n);
}

proof fn lemma_suffix_texts()
    ensures
        "."@ == seq!['.'],
        ".local"@ == seq!['.', 'l', 'o', 'c', 'a', 'l'],
        ".lan"@ == seq!['.', 'l', 'a', 'n'],
        ".home"@ == seq!['.', 'h', 'o', 'm', 'e'],
{
    reveal_strlit(".");
    reveal_strlit(".local");
    reveal_strlit(".lan");
    reveal_strlit(".home");
}

/// The name a router's DNS gives with `.lan` is the same name as the bare
/// one, where the bare one does not itself end in a dot or `.local`.
pub proof fn lemma_lan_name_is_the_same_name(n: Seq<char>)
    requires
        !crate::text::ends_with(n, "."@),
        !crate::text::ends_with(n, ".local"@),
    ensures
        canon(n + ".lan"@) == canon(n),
{
    lemma_suffix_texts();
    let x = n + ".lan"@;
    assert(x.last() == 'n');
    lemma_last_differs(x, "."@);
    lemma_last_differs(x, ".local"@);
    lemma_suffix_trimmed(n, ".lan"@);
}

/// The name a home router's DNS gives with `.home` is the same name as the
/// bare one, where the bare one does not itself end in a dot, `.local` or
/// `.lan`.
pub proof fn lemma_home_name_is_the_same_name(n: Seq<char>)
    requires
        !crate::text::ends_with(n, "."@),
        !crate::text::ends_with(n, ".local"@),
        !crate::text::ends_with(n, ".lan"@),
    ensures
        canon(n + ".home"@) == canon(n),
{
    lemma_suffix_texts();
    let x = n + ".home"@;
    assert(x.last() == 'e');
    lemma_last_differs(x, "."@);
    lemma_last_differs(x, ".local"@);
    lemma_last_differs(x, ".lan"@);
    lemma_suffix_trimmed(n, ".home"@);
}

/// A name with none of the suffixes is its own lower case.
proof fn lemma_bare_canon(n: Seq<char>)
    requires
        !crate::text::ends_with(n, "."@),
        !crate::text::ends_with(n, ".local"@),
        !crate::text::ends_with(n, ".lan"@),
        !crate::text::ends_with(n, ".home"@),
    ensures
        canon(n) == lower(n),
{
    lemma_suffix_texts();
}

/// Two names that differ only in the case of their letters and in one
/// local-network suffix (`.local`, `.lan` or `.home`) are one name, and so
/// never make a device look as if it disagreed with itself: `nas.home`
/// from reverse DNS and `NAS` from NetBIOS name the same device.
pub proof fn lemma_suffix_and_case_are_one_name(a: Seq<char>, b: Seq<char>)
    requires
        lower(a) == lower(b),
        !crate::text::ends_with(a, "."@),
        !crate::text::ends_with(a, ".local"@),
        !crate::text::ends_with(a, ".lan"@),
        !crate::text::ends_with(a, ".home"@),
        !crate::text::ends_with(b, "."@),
        !crate::text::ends_with(b, ".local"@),
        !crate::text::ends_with(b, ".lan"@),
        !crate::text::ends_with(b, ".home"@),
    ensures
        canon(a + ".local"@) == lower(b),
        canon(a + ".lan"@) == lower(b),
        canon(a + ".home"@) == lower(b),
        canon(a) == canon(b),
{
    lemma_bare_canon(a);
    lemma_bare_canon(b);
    lemma_local_name_is_the_same_name(a);
    lemma_lan_name_is_the_same_name(a);
    lemma_home_name_is_the_same_name(a);
}

} // verus!
