//! Phase one: what the machine already knows about the network it is on.
//!
//! No packets are sent here. Every answer comes from a [`SystemProbe`], and
//! the whole phase is a function of its readings.
//!
//! ## Gaps are results
//!
//! A reading that failed is recorded in [`Survey::gaps`] and never flattened
//! into an empty list: "no devices found" from an engine that could not look
//! is the worst answer this application can give, because it looks like an
//! answer.

use vstd::prelude::*;
use crate::addr::IpAddr;
use crate::prefix::{spec_host_range, Prefix, PrefixView};
use crate::search::{first_index, lemma_first_index_at, lemma_first_index_none};
use crate::sysinfo::{
    clone_interfaces, interface_views, v4_prefixes_of, Interface, InterfaceView, Neighbour, Route,
    SystemProbe,
};
use crate::text::{chars_of, string_of};

verus! {

/// A reading that could not be taken, and why.
#[derive(Clone, Debug, PartialEq, Eq)]
pub struct Gap {
    pub reading: Reading,
    pub because: String,
}

#[derive(Clone, Copy, Debug, PartialEq, Eq, Structural)]
pub enum Reading {
    Interfaces,
    Routes,
    Neighbours,
    Resolvers,
}

/// What a reading is, in words.
pub open spec fn reading_text(r: Reading) -> Seq<char> {
    match r {
        Reading::Interfaces => "the interface list"@,
        Reading::Routes => "the routing table"@,
        Reading::Neighbours => "the neighbour table"@,
        Reading::Resolvers => "the resolver configuration"@,
    }
}

impl Reading {
    /// What the reading is, in words.
    pub fn label(self) -> (s: &'static str)
        ensures
            s@ == reading_text(self),
    {
        match self {
            Reading::Interfaces => "the interface list",
            Reading::Routes => "the routing table",
            Reading::Neighbours => "the neighbour table",
            Reading::Resolvers => "the resolver configuration",
        }
    }

    pub fn to_string(self) -> (s: String)
        ensures
            s@ == reading_text(self),
    {
        string_of(chars_of(self.label()).as_slice())
    }
}

/// A router this machine sends through.
#[derive(Clone, Copy, Debug, PartialEq, Eq)]
pub struct Gateway {
    pub address: IpAddr,
    pub interface_index: u32,
    pub metric: u32,
}

/// The picture phase one builds.
#[derive(Clone, Debug)]
pub struct Survey {
    pub interfaces: Vec<Interface>,
    pub routes: Vec<Route>,
    pub neighbours: Vec<Neighbour>,
    /// The machine-wide resolver list, unioned with the per-interface ones.
    pub resolvers: Vec<IpAddr>,
    /// Default-route gateways, best first, at most one per family.
    pub gateways: Vec<Gateway>,
    /// DHCP servers as recorded in the current leases.
    pub dhcp_servers: Vec<IpAddr>,
    pub gaps: Vec<Gap>,
}

pub struct GapView {
    pub reading: Reading,
    pub because: Seq<char>,
}

pub struct SurveyView {
    pub interfaces: Seq<InterfaceView>,
    pub routes: Seq<Route>,
    pub neighbours: Seq<Neighbour>,
    pub resolvers: Seq<IpAddr>,
    pub gateways: Seq<Gateway>,
    pub dhcp_servers: Seq<IpAddr>,
    pub gaps: Seq<GapView>,
}

pub open spec fn gap_views(v: Seq<Gap>) -> Seq<GapView> {
    Seq::new(v.len(), |i: int| GapView { reading: v[i].reading, because: v[i].because@ })
}

impl View for Survey {
    type V = SurveyView;

    open spec fn view(&self) -> SurveyView {
        SurveyView {
            interfaces: interface_views(self.interfaces@),
            routes: self.routes@,
            neighbours: self.neighbours@,
            resolvers: self.resolvers@,
            gateways: self.gateways@,
            dhcp_servers: self.dhcp_servers@,
            gaps: gap_views(self.gaps@),
        }
    }
}

/// `x` added to `acc` unless it is there already.
pub open spec fn add_new(acc: Seq<IpAddr>, x: IpAddr) -> Seq<IpAddr> {
    if acc.contains(x) {
        acc
    } else {
        acc.push(x)
    }
}

/// Each of `xs` added in turn.
pub open spec fn add_all(acc: Seq<IpAddr>, xs: Seq<IpAddr>) -> Seq<IpAddr>
    decreases xs.len(),
{
    if xs.len() == 0 {
        acc
    } else {
        add_new(add_all(acc, xs.drop_last()), xs.last())
    }
}

/// Every per-interface resolver, interface by interface.
pub open spec fn all_dns(ifs: Seq<InterfaceView>) -> Seq<IpAddr>
    decreases ifs.len(),
{
    if ifs.len() == 0 {
        Seq::empty()
    } else {
        all_dns(ifs.drop_last()) + ifs.last().dns
    }
}

/// Every recorded DHCP server, interface by interface.
pub open spec fn all_dhcp(ifs: Seq<InterfaceView>) -> Seq<IpAddr>
    decreases ifs.len(),
{
    if ifs.len() == 0 {
        Seq::empty()
    } else {
        match ifs.last().dhcp_server {
            Some(s) => all_dhcp(ifs.drop_last()).push(s),
            None => all_dhcp(ifs.drop_last()),
        }
    }
}

/// A default route with a gateway of the family asked for.
pub open spec fn is_candidate(r: Route, v4: bool) -> bool {
    r.spec_is_default() && r.gateway is Some && (r.gateway->0 is V4) == v4
}

/// The best candidate of a family: the lowest metric, the first of equals.
pub open spec fn best_route(rs: Seq<Route>, v4: bool) -> Option<int>
    decreases rs.len(),
{
    if rs.len() == 0 {
        None
    } else {
        let b = best_route(rs.drop_last(), v4);
        let i = rs.len() - 1;
        if is_candidate(rs[i], v4) && (b is None || rs[i].metric < rs[b->0].metric) {
            Some(i)
        } else {
            b
        }
    }
}

pub open spec fn gateway_of(r: Route) -> Gateway {
    Gateway { address: r.gateway->0, interface_index: r.interface_index, metric: r.metric }
}

/// The gateways of the best default route per family, in the order of
/// their metrics, the earlier route first of equals.
pub open spec fn spec_gateways(rs: Seq<Route>) -> Seq<Gateway> {
    match (best_route(rs, true), best_route(rs, false)) {
        (None, None) => Seq::empty(),
        (Some(a), None) => seq![gateway_of(rs[a])],
        (None, Some(b)) => seq![gateway_of(rs[b])],
        (Some(a), Some(b)) => if rs[a].metric < rs[b].metric || (rs[a].metric == rs[b].metric
            && a < b) {
            seq![gateway_of(rs[a]), gateway_of(rs[b])]
        } else {
            seq![gateway_of(rs[b]), gateway_of(rs[a])]
        },
    }
}

/// A survey's derived lists filled in from its readings.
pub open spec fn spec_derive(s: SurveyView) -> SurveyView {
    SurveyView {
        gateways: s.gateways + spec_gateways(s.routes),
        resolvers: add_all(s.resolvers, all_dns(s.interfaces)),
        dhcp_servers: add_all(s.dhcp_servers, all_dhcp(s.interfaces)),
        ..s
    }
}

/// The survey of a set of readings, each either taken or failed with a
/// reason.
pub open spec fn spec_survey(
    interfaces: Result<Seq<InterfaceView>, Seq<char>>,
    routes: Result<Seq<Route>, Seq<char>>,
    neighbours: Result<Seq<Neighbour>, Seq<char>>,
    resolvers: Result<Seq<IpAddr>, Seq<char>>,
) -> SurveyView {
    let g1 = match interfaces {
        Ok(_) => Seq::<GapView>::empty(),
        Err(e) => seq![GapView { reading: Reading::Interfaces, because: e }],
    };
    let g2 = match routes {
        Ok(_) => g1,
        Err(e) => g1.push(GapView { reading: Reading::Routes, because: e }),
    };
    let g3 = match neighbours {
        Ok(_) => g2,
        Err(e) => g2.push(GapView { reading: Reading::Neighbours, because: e }),
    };
    let g4 = match resolvers {
        Ok(_) => g3,
        Err(e) => g3.push(GapView { reading: Reading::Resolvers, because: e }),
    };
    spec_derive(
        SurveyView {
            interfaces: match interfaces {
                Ok(v) => v,
                Err(_) => Seq::empty(),
            },
            routes: match routes {
                Ok(v) => v,
                Err(_) => Seq::empty(),
            },
            neighbours: match neighbours {
                Ok(v) => v,
                Err(_) => Seq::empty(),
            },
            resolvers: match resolvers {
                Ok(v) => v,
                Err(_) => Seq::empty(),
            },
            gateways: Seq::empty(),
            dhcp_servers: Seq::empty(),
            gaps: g4,
        },
    )
}

pub open spec fn result_view<T, V>(r: Result<T, String>, f: spec_fn(T) -> V) -> Result<V, Seq<char>> {
    match r {
        Ok(v) => Ok(f(v)),
        Err(e) => Err(e@),
    }
}

pub open spec fn is_scannable_view(i: InterfaceView) -> bool {
    i.flags.up && !i.flags.loopback && i.addresses.len() > 0
}

/// The first interface with this index.
pub open spec fn index_of(ifs: Seq<InterfaceView>, index: u32) -> Option<int> {
    first_index(ifs.len() as int, |k: int| ifs[k].index == index)
}

/// The interface of the first gateway whose interface is known.
pub open spec fn gateway_interface(s: SurveyView) -> Option<int> {
    match first_index(
        s.gateways.len() as int,
        |g: int| index_of(s.interfaces, s.gateways[g].interface_index) is Some,
    ) {
        Some(g) => index_of(s.interfaces, s.gateways[g].interface_index),
        None => None,
    }
}

/// The interface a scan runs on by default: the one carrying the best
/// default route if it is scannable, else the first scannable one with an
/// IPv4 prefix.
#[verifier::opaque]
pub open spec fn spec_primary(s: SurveyView) -> Option<int> {
    match gateway_interface(s) {
        Some(i) if is_scannable_view(s.interfaces[i]) => Some(i),
        _ => first_index(
            s.interfaces.len() as int,
            |k: int|
                is_scannable_view(s.interfaces[k]) && v4_prefixes_of(s.interfaces[k].addresses).len()
                    > 0,
        ),
    }
}

/// The prefixes worth sweeping by default, each once, in order: not a host
/// route and small enough to walk.
pub open spec fn sweepable(ps: Seq<Prefix>) -> Seq<PrefixView>
    decreases ps.len(),
{
    if ps.len() == 0 {
        Seq::empty()
    } else {
        let acc = sweepable(ps.drop_last());
        let p = ps.last()@;
        if p.len == 32 || spec_host_range(p) is None || acc.contains(p) {
            acc
        } else {
            acc.push(p)
        }
    }
}

pub open spec fn prefix_views(v: Seq<Prefix>) -> Seq<PrefixView> {
    Seq::new(v.len(), |i: int| v[i]@)
}

/// Neighbour entries that attest to a device, in order.
pub open spec fn devices(ns: Seq<Neighbour>) -> Seq<Neighbour>
    decreases ns.len(),
{
    if ns.len() == 0 {
        Seq::empty()
    } else {
        let n = ns.last();
        if n.state.spec_is_evidence() && !n.mac.spec_is_zero() && !n.mac.spec_is_multicast() {
            devices(ns.drop_last()).push(n)
        } else {
            devices(ns.drop_last())
        }
    }
}

fn contains_addr(v: &Vec<IpAddr>, x: &IpAddr) -> (b: bool)
    ensures
        b == v@.contains(*x),
{
    let mut i: usize = 0;
    while i < v.len()
        invariant
            i <= v@.len(),
            forall|j: int| 0 <= j < i ==> v@[j] != *x,
        decreases v@.len() - i,
    {
        if v[i].same(x) {
            assert(v@[i as int] == *x);
            return true;
        }
        i += 1;
    }
    false
}

fn push_new(v: &mut Vec<IpAddr>, x: IpAddr)
    ensures
        final(v)@ == add_new(old(v)@, x),
{
    if !contains_addr(v, &x) {
        v.push(x);
    }
}

impl Survey {
    /// Takes the survey. Never fails: a probe that cannot answer produces
    /// gaps. What the probe answered is the probe's; the survey is the one
    /// [`Survey::from_readings`] makes of it.
    pub fn take<P: SystemProbe>(probe: P) -> (r: Survey)
        ensures
            exists|
                a: Result<Seq<InterfaceView>, Seq<char>>,
                b: Result<Seq<Route>, Seq<char>>,
                c: Result<Seq<Neighbour>, Seq<char>>,
                d: Result<Seq<IpAddr>, Seq<char>>,
            | r@ == spec_survey(a, b, c, d),
    {
        let a = probe.interfaces();
        let b = probe.routes();
        let c = probe.neighbours();
        let d = probe.resolvers();
        let ghost ga = result_view(a, |v: Vec<Interface>| interface_views(v@));
        let ghost gb = result_view(b, |v: Vec<Route>| v@);
        let ghost gc = result_view(c, |v: Vec<Neighbour>| v@);
        let ghost gd = result_view(d, |v: Vec<IpAddr>| v@);
        let r = Self::from_readings(a, b, c, d);
        assert(r@ == spec_survey(ga, gb, gc, gd));
        r
    }

    /// The survey of a set of readings.
    pub fn from_readings(
        interfaces: Result<Vec<Interface>, String>,
        routes: Result<Vec<Route>, String>,
        neighbours: Result<Vec<Neighbour>, String>,
        resolvers: Result<Vec<IpAddr>, String>,
    ) -> (r: Survey)
        ensures
            r@ == spec_survey(
                result_view(interfaces, |v: Vec<Interface>| interface_views(v@)),
                result_view(routes, |v: Vec<Route>| v@),
                result_view(neighbours, |v: Vec<Neighbour>| v@),
                result_view(resolvers, |v: Vec<IpAddr>| v@),
            ),
    {
        let mut survey = Survey {
            interfaces: Vec::new(),
            routes: Vec::new(),
            neighbours: Vec::new(),
            resolvers: Vec::new(),
            gateways: Vec::new(),
            dhcp_servers: Vec::new(),
            gaps: Vec::new(),
        };
        let ghost g0 = gap_views(survey.gaps@);
        match interfaces {
            Ok(v) => survey.interfaces = v,
            Err(e) => survey.gaps.push(Gap { reading: Reading::Interfaces, because: e }),
        }
        match routes {
            Ok(v) => survey.routes = v,
            Err(e) => survey.gaps.push(Gap { reading: Reading::Routes, because: e }),
        }
        match neighbours {
            Ok(v) => survey.neighbours = v,
            Err(e) => survey.gaps.push(Gap { reading: Reading::Neighbours, because: e }),
        }
        match resolvers {
            Ok(v) => survey.resolvers = v,
            Err(e) => survey.gaps.push(Gap { reading: Reading::Resolvers, because: e }),
        }
        let ghost before = survey@;
        proof {
            let a = result_view(interfaces, |v: Vec<Interface>| interface_views(v@));
            let b = result_view(routes, |v: Vec<Route>| v@);
            let c = result_view(neighbours, |v: Vec<Neighbour>| v@);
            let d = result_view(resolvers, |v: Vec<IpAddr>| v@);
            let g1 = match a {
                Ok(_) => Seq::<GapView>::empty(),
                Err(e) => seq![GapView { reading: Reading::Interfaces, because: e }],
            };
            let g2 = match b {
                Ok(_) => g1,
                Err(e) => g1.push(GapView { reading: Reading::Routes, because: e }),
            };
            let g3 = match c {
                Ok(_) => g2,
                Err(e) => g2.push(GapView { reading: Reading::Neighbours, because: e }),
            };
            let g4 = match d {
                Ok(_) => g3,
                Err(e) => g3.push(GapView { reading: Reading::Resolvers, because: e }),
            };
            assert(gap_views(survey.gaps@) =~= g4);
            assert(survey@.interfaces == match a {
                Ok(v) => v,
                Err(_) => Seq::empty(),
            });
            assert(survey@.routes == match b {
                Ok(v) => v,
                Err(_) => Seq::empty(),
            });
            assert(survey@.neighbours == match c {
                Ok(v) => v,
                Err(_) => Seq::empty(),
            });
            assert(survey@.resolvers == match d {
                Ok(v) => v,
                Err(_) => Seq::empty(),
            });
        }
        survey.derive();
        survey
    }

    /// Fills in the gateways, the resolver union and the DHCP servers from
    /// the raw readings.
    fn derive(&mut self)
        ensures
            final(self)@ == spec_derive(old(self)@),
    {
        let found = gateways_of(&self.routes);
        let mut gateways: Vec<Gateway> = Vec::new();
        std::mem::swap(&mut gateways, &mut self.gateways);
        let ghost g0 = gateways@;
        let mut k: usize = 0;
        while k < found.len()
            invariant
                k <= found@.len(),
                gateways@ == g0 + found@.take(k as int),
            decreases found@.len() - k,
        {
            gateways.push(found[k]);
            proof {
                assert(gateways@ =~= g0 + found@.take(k + 1));
            }
            k += 1;
        }
        proof {
            assert(found@.take(found@.len() as int) =~= found@);
        }
        self.gateways = gateways;
        let mut resolvers: Vec<IpAddr> = Vec::new();
        std::mem::swap(&mut resolvers, &mut self.resolvers);
        union_dns(&mut resolvers, &self.interfaces);
        self.resolvers = resolvers;
        let mut servers: Vec<IpAddr> = Vec::new();
        std::mem::swap(&mut servers, &mut self.dhcp_servers);
        union_dhcp(&mut servers, &self.interfaces);
        self.dhcp_servers = servers;
    }

    /// The interface a scan should run on by default.
    pub fn primary(&self) -> (r: Option<&Interface>)
        ensures
            match spec_primary(self@) {
                Some(i) => 0 <= i < self.interfaces@.len() && r == Some(&self.interfaces@[i]),
                None => r is None,
            },
    {
        proof {
            reveal(spec_primary);
        }
        if let Some(i) = self.gateway_interface() {
            if self.interfaces[i].is_scannable() {
                return Some(&self.interfaces[i]);
            }
        }
        match self.first_sweepable() {
            Some(k) => Some(&self.interfaces[k]),
            None => None,
        }
    }

    fn gateway_interface(&self) -> (r: Option<usize>)
        ensures
            match r {
                Some(i) => gateway_interface(self@) == Some(i as int) && i < self.interfaces@.len(),
                None => gateway_interface(self@) is None,
            },
    {
        let ghost s = self@;
        let ghost p = |gg: int| index_of(s.interfaces, s.gateways[gg].interface_index) is Some;
        let mut g: usize = 0;
        while g < self.gateways.len()
            invariant
                g <= self.gateways@.len(),
                s == self@,
                p == (|gg: int| index_of(s.interfaces, s.gateways[gg].interface_index) is Some),
                forall|j: int| 0 <= j < g ==> !#[trigger] p(j),
            decreases self.gateways@.len() - g,
        {
            if let Some(i) = self.find_index(self.gateways[g].interface_index) {
                proof {
                    lemma_first_index_at(s.gateways.len() as int, p, g as int);
                }
                return Some(i);
            }
            g += 1;
        }
        proof {
            lemma_first_index_none(s.gateways.len() as int, p);
        }
        None
    }

    fn first_sweepable(&self) -> (r: Option<usize>)
        ensures
            match r {
                Some(i) => first_index(
                    self@.interfaces.len() as int,
                    |kk: int| is_scannable_view(self@.interfaces[kk]) && v4_prefixes_of(self@.interfaces[kk].addresses).len() > 0,
                ) == Some(i as int) && i < self.interfaces@.len(),
                None => first_index(
                    self@.interfaces.len() as int,
                    |kk: int| is_scannable_view(self@.interfaces[kk]) && v4_prefixes_of(self@.interfaces[kk].addresses).len() > 0,
                ) is None,
            },
    {
        let ghost s = self@;
        let ghost p = |kk: int| is_scannable_view(s.interfaces[kk]) && v4_prefixes_of(s.interfaces[kk].addresses).len() > 0;
        let mut k: usize = 0;
        while k < self.interfaces.len()
            invariant
                k <= self.interfaces@.len(),
                s == self@,
                p == (|kk: int| is_scannable_view(s.interfaces[kk]) && v4_prefixes_of(s.interfaces[kk].addresses).len() > 0),
                forall|j: int| 0 <= j < k ==> !#[trigger] p(j),
            decreases self.interfaces@.len() - k,
        {
            let iface = &self.interfaces[k];
            if iface.is_scannable() && iface.v4_prefixes().len() > 0 {
                proof {
                    lemma_first_index_at(s.interfaces.len() as int, p, k as int);
                }
                return Some(k);
            }
            k += 1;
        }
        proof {
            lemma_first_index_none(s.interfaces.len() as int, p);
        }
        None
    }

    fn find_index(&self, index: u32) -> (r: Option<usize>)
        ensures
            match r {
                Some(i) => index_of(self@.interfaces, index) == Some(i as int) && i < self.interfaces@.len(),
                None => index_of(self@.interfaces, index) is None,
            },
    {
        let ghost ifs = self@.interfaces;
        let ghost p = |kk: int| ifs[kk].index == index;
        let mut k: usize = 0;
        while k < self.interfaces.len()
            invariant
                k <= self.interfaces@.len(),
                ifs == self@.interfaces,
                p == (|kk: int| ifs[kk].index == index),
                forall|j: int| 0 <= j < k ==> !#[trigger] p(j),
            decreases self.interfaces@.len() - k,
        {
            if self.interfaces[k].index == index {
                proof {
                    lemma_first_index_at(ifs.len() as int, p, k as int);
                }
                return Some(k);
            }
            k += 1;
        }
        proof {
            lemma_first_index_none(ifs.len() as int, p);
        }
        None
    }

    /// The first interface with this index.
    pub fn interface(&self, index: u32) -> (r: Option<&Interface>)
        ensures
            match index_of(self@.interfaces, index) {
                Some(i) => r == Some(&self.interfaces@[i]),
                None => r is None,
            },
    {
        match self.find_index(index) {
            Some(i) => Some(&self.interfaces[i]),
            None => None,
        }
    }

    /// The prefixes a default scan would sweep: the IPv4 networks of the
    /// primary interface, less host routes and anything too large to walk.
    pub fn default_targets(&self) -> (r: Vec<Prefix>)
        ensures
            match spec_primary(self@) {
                Some(i) => prefix_views(r@) == sweepable(v4_prefixes_of(self@.interfaces[i].addresses)),
                None => r@.len() == 0,
            },
    {
        let iface = match self.primary() {
            Some(i) => i,
            None => return Vec::new(),
        };
        let ps = iface.v4_prefixes();
        let r = sweepable_of(&ps);
        proof {
            let i = spec_primary(self@)->0;
            assert(self@.interfaces[i].addresses == self.interfaces@[i].addresses@);
        }
        r
    }

    /// Neighbour entries that attest to a device rather than to a failed
    /// probe.
    pub fn known_devices(&self) -> (r: Vec<&Neighbour>)
        ensures
            r@.len() == devices(self.neighbours@).len(),
            forall|k: int| 0 <= k < r@.len() ==> *#[trigger] r@[k] == devices(self.neighbours@)[k],
    {
        let mut out: Vec<&Neighbour> = Vec::new();
        let mut i: usize = 0;
        while i < self.neighbours.len()
            invariant
                i <= self.neighbours@.len(),
                out@.len() == devices(self.neighbours@.take(i as int)).len(),
                forall|k: int| 0 <= k < out@.len() ==> *#[trigger] out@[k] == devices(self.neighbours@.take(i as int))[k],
            decreases self.neighbours@.len() - i,
        {
            proof {
                assert(self.neighbours@.take(i + 1).drop_last() =~= self.neighbours@.take(i as int));
            }
            let n = &self.neighbours[i];
            if n.state.is_evidence() && !n.mac.is_zero() && !n.mac.is_multicast() {
                out.push(n);
            }
            i += 1;
        }
        proof {
            assert(self.neighbours@.take(self.neighbours@.len() as int) =~= self.neighbours@);
        }
        out
    }

    /// Was this reading taken at all?
    pub fn has(&self, reading: Reading) -> (b: bool)
        ensures
            b == !exists|k: int| 0 <= k < self.gaps@.len() && #[trigger] self.gaps@[k].reading == reading,
    {
        let mut i: usize = 0;
        while i < self.gaps.len()
            invariant
                i <= self.gaps@.len(),
                forall|k: int| 0 <= k < i ==> #[trigger] self.gaps@[k].reading != reading,
            decreases self.gaps@.len() - i,
        {
            if self.gaps[i].reading == reading {
                return false;
            }
            i += 1;
        }
        true
    }
}

proof fn lemma_index_of(ifs: Seq<InterfaceView>)
    ensures
        forall|index: u32| #[trigger] index_of(ifs, index) is Some ==> 0 <= index_of(ifs, index)->0 < ifs.len(),
{
    assert forall|index: u32| #[trigger] index_of(ifs, index) is Some implies 0 <= index_of(ifs, index)->0 < ifs.len() by {
        crate::search::lemma_first_index(ifs.len() as int, |kk: int| ifs[kk].index == index);
    }
}

/// The prefixes of `ps` worth sweeping, per [`sweepable`].
fn sweepable_of(ps: &Vec<Prefix>) -> (out: Vec<Prefix>)
    ensures
        prefix_views(out@) == sweepable(ps@),
{
    let mut out: Vec<Prefix> = Vec::new();
    let mut k: usize = 0;
    while k < ps.len()
        invariant
            k <= ps@.len(),
            prefix_views(out@) == sweepable(ps@.take(k as int)),
        decreases ps@.len() - k,
    {
        proof {
            assert(ps@.take(k + 1).drop_last() =~= ps@.take(k as int));
        }
        let p = ps[k];
        if p.len() != 32 && p.hosts().is_some() && !contains_prefix(&out, &p) {
            out.push(p);
            proof {
                assert(prefix_views(out@) =~= sweepable(ps@.take(k as int)).push(p@));
            }
        }
        k += 1;
    }
    proof {
        assert(ps@.take(ps@.len() as int) =~= ps@);
    }
    out
}

fn contains_prefix(v: &Vec<Prefix>, p: &Prefix) -> (b: bool)
    ensures
        b == prefix_views(v@).contains(p@),
{
    let mut j: usize = 0;
    while j < v.len()
        invariant
            j <= v@.len(),
            forall|t: int| 0 <= t < j ==> #[trigger] v@[t]@ != p@,
        decreases v@.len() - j,
    {
        if v[j].same(p) {
            assert(prefix_views(v@)[j as int] == p@);
            return true;
        }
        j += 1;
    }
    proof {
        if prefix_views(v@).contains(p@) {
            let t = choose|t: int| 0 <= t < prefix_views(v@).len() && prefix_views(v@)[t] == p@;
            assert(v@[t]@ == p@);
        }
    }
    false
}

/// The best candidate of a family among `rs`.
fn best_route_of(rs: &Vec<Route>, v4: bool) -> (r: Option<usize>)
    ensures
        match r {
            Some(k) => best_route(rs@, v4) == Some(k as int) && k < rs@.len() && is_candidate(rs@[k as int], v4),
            None => best_route(rs@, v4) is None,
        },
{
    let mut best: Option<usize> = None;
    let mut i: usize = 0;
    while i < rs.len()
        invariant
            i <= rs@.len(),
            match best {
                Some(k) => best_route(rs@.take(i as int), v4) == Some(k as int) && k < i && is_candidate(rs@[k as int], v4),
                None => best_route(rs@.take(i as int), v4) is None,
            },
        decreases rs@.len() - i,
    {
        proof {
            let t = rs@.take(i + 1);
            assert(t.drop_last() =~= rs@.take(i as int));
            assert(t[i as int] == rs@[i as int]);
            if let Some(k) = best {
                assert(t[k as int] == rs@[k as int]);
            }
        }
        let r = rs[i];
        if r.is_default() {
            if let Some(g) = r.gateway {
                if g.is_ipv4() == v4 {
                    let better = match best {
                        None => true,
                        Some(k) => r.metric < rs[k].metric,
                    };
                    if better {
                        best = Some(i);
                    }
                }
            }
        }
        i += 1;
    }
    proof {
        assert(rs@.take(rs@.len() as int) =~= rs@);
    }
    best
}

fn gateway_at(rs: &Vec<Route>, k: usize) -> (g: Gateway)
    requires
        k < rs@.len(),
        rs@[k as int].gateway is Some,
    ensures
        g == gateway_of(rs@[k as int]),
{
    let r = rs[k];
    Gateway { address: r.gateway.unwrap(), interface_index: r.interface_index, metric: r.metric }
}

/// The gateways of the best default routes, per [`spec_gateways`].
fn gateways_of(rs: &Vec<Route>) -> (r: Vec<Gateway>)
    ensures
        r@ == spec_gateways(rs@),
{
    let b4 = best_route_of(rs, true);
    let b6 = best_route_of(rs, false);
    let mut out: Vec<Gateway> = Vec::new();
    match (b4, b6) {
        (None, None) => {},
        (Some(a), None) => {
            out.push(gateway_at(rs, a));
        },
        (None, Some(b)) => {
            out.push(gateway_at(rs, b));
        },
        (Some(a), Some(b)) => {
            if rs[a].metric < rs[b].metric || (rs[a].metric == rs[b].metric && a < b) {
                out.push(gateway_at(rs, a));
                out.push(gateway_at(rs, b));
            } else {
                out.push(gateway_at(rs, b));
                out.push(gateway_at(rs, a));
            }
        },
    }
    assert(out@ =~= spec_gateways(rs@));
    out
}

/// Adds every per-interface resolver not already listed.
fn union_dns(acc: &mut Vec<IpAddr>, ifs: &Vec<Interface>)
    ensures
        final(acc)@ == add_all(old(acc)@, all_dns(interface_views(ifs@))),
{
    let ghost views = interface_views(ifs@);
    let ghost start = acc@;
    let mut n: usize = 0;
    while n < ifs.len()
        invariant
            n <= ifs@.len(),
            views == interface_views(ifs@),
            acc@ == add_all(start, all_dns(views.take(n as int))),
        decreases ifs@.len() - n,
    {
        proof {
            assert(views.take(n + 1).drop_last() =~= views.take(n as int));
        }
        let ghost before = acc@;
        let dns = &ifs[n].dns;
        let mut m: usize = 0;
        while m < dns.len()
            invariant
                m <= dns@.len(),
                acc@ == add_all(before, dns@.take(m as int)),
            decreases dns@.len() - m,
        {
            proof {
                assert(dns@.take(m + 1).drop_last() =~= dns@.take(m as int));
            }
            push_new(acc, dns[m]);
            m += 1;
        }
        proof {
            assert(dns@.take(dns@.len() as int) =~= dns@);
            lemma_add_all_concat(start, all_dns(views.take(n as int)), views[n as int].dns);
        }
        n += 1;
    }
    proof {
        assert(views.take(ifs@.len() as int) =~= views);
    }
}

/// Adds every recorded DHCP server not already listed.
fn union_dhcp(acc: &mut Vec<IpAddr>, ifs: &Vec<Interface>)
    ensures
        final(acc)@ == add_all(old(acc)@, all_dhcp(interface_views(ifs@))),
{
    let ghost views = interface_views(ifs@);
    let ghost start = acc@;
    let mut q: usize = 0;
    while q < ifs.len()
        invariant
            q <= ifs@.len(),
            views == interface_views(ifs@),
            acc@ == add_all(start, all_dhcp(views.take(q as int))),
        decreases ifs@.len() - q,
    {
        proof {
            assert(views.take(q + 1).drop_last() =~= views.take(q as int));
        }
        assert(views[q as int].dhcp_server == ifs@[q as int].dhcp_server);
        if let Some(server) = ifs[q].dhcp_server {
            push_new(acc, server);
            proof {
                let x = all_dhcp(views.take(q as int));
                assert(all_dhcp(views.take(q + 1)) == x.push(server));
                assert(x.push(server).drop_last() =~= x);
            }
        }
        q += 1;
    }
    proof {
        assert(views.take(ifs@.len() as int) =~= views);
    }
}

proof fn lemma_add_all_concat(acc: Seq<IpAddr>, a: Seq<IpAddr>, b: Seq<IpAddr>)
    ensures
        add_all(add_all(acc, a), b) == add_all(acc, a + b),
    decreases b.len(),
{
    if b.len() == 0 {
        assert(a + b =~= a);
    } else {
        lemma_add_all_concat(acc, a, b.drop_last());
        assert((a + b).drop_last() =~= a + b.drop_last());
    }
}


// ------------------------------------------------------------ laws

/// The primary interface is scannable: up, carrying an address, and never
/// loopback.
pub proof fn lemma_primary_is_scannable(s: SurveyView)
    ensures
        spec_primary(s) matches Some(i) ==> 0 <= i < s.interfaces.len() && is_scannable_view(
            s.interfaces[i],
        ) && !s.interfaces[i].flags.loopback,
{
    reveal(spec_primary);
    lemma_index_of(s.interfaces);
    let p = |g: int| index_of(s.interfaces, s.gateways[g].interface_index) is Some;
    crate::search::lemma_first_index(s.gateways.len() as int, p);
    let q = |k: int|
        is_scannable_view(s.interfaces[k]) && v4_prefixes_of(s.interfaces[k].addresses).len() > 0;
    crate::search::lemma_first_index(s.interfaces.len() as int, q);
    match gateway_interface(s) {
        Some(i) => {
            let g = first_index(s.gateways.len() as int, p)->0;
            assert(index_of(s.interfaces, s.gateways[g].interface_index) is Some);
        },
        None => {},
    }
}

/// The best route of a family is a candidate of that family with the lowest
/// metric, the first of equals; there is none only where no route is a
/// candidate.
pub proof fn lemma_best_route(rs: Seq<Route>, v4: bool)
    ensures
        match best_route(rs, v4) {
            Some(i) => 0 <= i < rs.len() && is_candidate(rs[i], v4) && forall|j: int|
                0 <= j < rs.len() && #[trigger] is_candidate(rs[j], v4) ==> rs[i].metric <= rs[j].metric
                    && (rs[i].metric == rs[j].metric ==> i <= j),
            None => forall|j: int| 0 <= j < rs.len() ==> !#[trigger] is_candidate(rs[j], v4),
        },
    decreases rs.len(),
{
    if rs.len() > 0 {
        lemma_best_route(rs.drop_last(), v4);
        let b = best_route(rs.drop_last(), v4);
        assert forall|j: int| 0 <= j < rs.len() - 1 implies rs.drop_last()[j] == rs[j] by {}
    }
}

/// One gateway per family, and each the gateway of that family's best
/// default route: the lowest metric, the first of equals. A family with a
/// default route through a gateway has its gateway in the list.
pub proof fn lemma_one_gateway_per_family(rs: Seq<Route>)
    ensures
        spec_gateways(rs).len() <= 2,
        forall|k: int, l: int|
            0 <= k < l < spec_gateways(rs).len() ==> (#[trigger] spec_gateways(rs)[k].address is V4)
                != (#[trigger] spec_gateways(rs)[l].address is V4),
        forall|k: int, j: int|
            0 <= k < spec_gateways(rs).len() && 0 <= j < rs.len() && #[trigger] is_candidate(
                rs[j],
                spec_gateways(rs)[k].address is V4,
            ) ==> spec_gateways(rs)[k].metric <= rs[j].metric,
        forall|j: int|
            0 <= j < rs.len() && #[trigger] rs[j].spec_is_default() && rs[j].gateway is Some
                ==> exists|k: int|
                0 <= k < spec_gateways(rs).len() && (#[trigger] spec_gateways(rs)[k].address is V4)
                    == (rs[j].gateway->0 is V4),
{
    lemma_best_route(rs, true);
    lemma_best_route(rs, false);
    let gs = spec_gateways(rs);
    assert forall|j: int|
        0 <= j < rs.len() && #[trigger] rs[j].spec_is_default() && rs[j].gateway is Some
        implies exists|k: int|
        0 <= k < gs.len() && (#[trigger] gs[k].address is V4) == (rs[j].gateway->0 is V4) by {
        let v4 = rs[j].gateway->0 is V4;
        assert(is_candidate(rs[j], v4));
        if v4 {
            let a = best_route(rs, true)->0;
            if gs[0].address is V4 {
                assert(gs[0].address is V4 == v4);
            } else {
                assert(gs[1].address is V4 == v4);
            }
        } else {
            if gs[0].address is V4 {
                assert(gs[1].address is V4 == v4);
            } else {
                assert(gs[0].address is V4 == v4);
            }
        }
    }
}

/// Adding a list keeps a list without repeats free of repeats, and holds
/// exactly what either held.
pub proof fn lemma_add_all_union(acc: Seq<IpAddr>, xs: Seq<IpAddr>)
    requires
        acc.no_duplicates(),
    ensures
        add_all(acc, xs).no_duplicates(),
        forall|x: IpAddr| #[trigger] add_all(acc, xs).contains(x) <==> acc.contains(x) || xs.contains(x),
    decreases xs.len(),
{
    if xs.len() > 0 {
        lemma_add_all_union(acc, xs.drop_last());
        let r = add_all(acc, xs.drop_last());
        assert forall|x: IpAddr| #[trigger] add_all(acc, xs).contains(x) <==> acc.contains(x) || xs.contains(x) by {
            if xs.drop_last().contains(x) {
                let w = choose|w: int| 0 <= w < xs.drop_last().len() && xs.drop_last()[w] == x;
                assert(xs[w] == x);
            }
            if xs.contains(x) && x != xs.last() {
                let w = choose|w: int| 0 <= w < xs.len() && xs[w] == x;
                assert(w != xs.len() - 1);
                assert(xs.drop_last()[w] == x);
            }
            if !r.contains(xs.last()) {
                if r.push(xs.last()).contains(x) && x != xs.last() {
                    let w = choose|w: int| 0 <= w < r.len() + 1 && r.push(xs.last())[w] == x;
                    assert(r[w] == x);
                }
                if x == xs.last() {
                    assert(r.push(xs.last())[r.len() as int] == x);
                }
                if r.contains(x) {
                    let w = choose|w: int| 0 <= w < r.len() && r[w] == x;
                    assert(r.push(xs.last())[w] == x);
                }
            }
        }
    }
}

/// The resolvers a survey reports are each reported once, and are exactly
/// those the system and the interfaces named.
pub proof fn lemma_resolvers_unioned(
    interfaces: Result<Seq<InterfaceView>, Seq<char>>,
    routes: Result<Seq<Route>, Seq<char>>,
    neighbours: Result<Seq<Neighbour>, Seq<char>>,
    resolvers: Result<Seq<IpAddr>, Seq<char>>,
    system: Seq<IpAddr>,
)
    requires
        resolvers == Ok::<Seq<IpAddr>, Seq<char>>(system),
        system.no_duplicates(),
    ensures
        spec_survey(interfaces, routes, neighbours, resolvers).resolvers.no_duplicates(),
        forall|x: IpAddr|
            #[trigger] spec_survey(interfaces, routes, neighbours, resolvers).resolvers.contains(x)
                <==> system.contains(x) || all_dns(
                match interfaces {
                    Ok(v) => v,
                    Err(_) => Seq::empty(),
                },
            ).contains(x),
{
    let ifs = match interfaces {
        Ok(v) => v,
        Err(_) => Seq::empty(),
    };
    lemma_add_all_union(system, all_dns(ifs));
}

/// Every device the neighbour table attests to answered, and has a real,
/// unicast hardware address.
pub proof fn lemma_devices_are_evidence(ns: Seq<Neighbour>)
    ensures
        forall|k: int|
            0 <= k < devices(ns).len() ==> (#[trigger] devices(ns)[k]).state.spec_is_evidence()
                && !devices(ns)[k].mac.spec_is_zero() && !devices(ns)[k].mac.spec_is_multicast(),
        devices(ns).len() <= ns.len(),
    decreases ns.len(),
{
    if ns.len() > 0 {
        lemma_devices_are_evidence(ns.drop_last());
    }
}


/// Every neighbour entry that attests to a device is kept: one that is
/// reachable, stale or configured by hand, with a hardware address that is
/// neither all zeros nor multicast, is among the devices. A stale entry,
/// the usual state of most of a neighbour table, is still a device.
pub proof fn lemma_every_attesting_entry_is_a_device(ns: Seq<Neighbour>, k: int)
    requires
        0 <= k < ns.len(),
        ns[k].state is Reachable || ns[k].state is Stale || ns[k].state is Static,
        exists|i: int| 0 <= i < 6 && ns[k].mac.0@[i] != 0,
        ns[k].mac.0@[0] & 1 == 0,
    ensures
        devices(ns).contains(ns[k]),
    decreases ns.len(),
{
    let d = ns.drop_last();
    if k == ns.len() - 1 {
        assert(ns.last() == ns[k]);
        assert(!ns[k].mac.spec_is_zero());
        assert(devices(ns) == devices(d).push(ns[k]));
        assert(devices(ns)[devices(d).len() as int] == ns[k]);
    } else {
        assert(d[k] == ns[k]);
        lemma_every_attesting_entry_is_a_device(d, k);
        let j = choose|j: int| 0 <= j < devices(d).len() && devices(d)[j] == ns[k];
        if devices(ns) != devices(d) {
            assert(devices(ns) == devices(d).push(ns.last()));
            assert(devices(ns)[j] == ns[k]);
        }
    }
}

/// Whether a reading failed, per the readings a survey was made from.
pub open spec fn reading_failed(
    reading: Reading,
    interfaces: Result<Seq<InterfaceView>, Seq<char>>,
    routes: Result<Seq<Route>, Seq<char>>,
    neighbours: Result<Seq<Neighbour>, Seq<char>>,
    resolvers: Result<Seq<IpAddr>, Seq<char>>,
) -> bool {
    match reading {
        Reading::Interfaces => interfaces is Err,
        Reading::Routes => routes is Err,
        Reading::Neighbours => neighbours is Err,
        Reading::Resolvers => resolvers is Err,
    }
}

/// A failed reading is a gap, and not an empty answer: the survey names a
/// gap for a reading exactly when that reading failed, once, with the
/// reason it failed with.
pub proof fn lemma_failed_reading_is_a_gap(
    interfaces: Result<Seq<InterfaceView>, Seq<char>>,
    routes: Result<Seq<Route>, Seq<char>>,
    neighbours: Result<Seq<Neighbour>, Seq<char>>,
    resolvers: Result<Seq<IpAddr>, Seq<char>>,
    reading: Reading,
)
    ensures
        (exists|k: int|
            0 <= k < spec_survey(interfaces, routes, neighbours, resolvers).gaps.len() && (
            #[trigger] spec_survey(interfaces, routes, neighbours, resolvers).gaps[k]).reading
                == reading) <==> reading_failed(reading, interfaces, routes, neighbours, resolvers),
        forall|k: int|
            0 <= k < spec_survey(interfaces, routes, neighbours, resolvers).gaps.len() ==> {
                let g = #[trigger] spec_survey(interfaces, routes, neighbours, resolvers).gaps[k];
                &&& reading_failed(g.reading, interfaces, routes, neighbours, resolvers)
                &&& g.because == match g.reading {
                    Reading::Interfaces => interfaces->Err_0,
                    Reading::Routes => routes->Err_0,
                    Reading::Neighbours => neighbours->Err_0,
                    Reading::Resolvers => resolvers->Err_0,
                }
                &&& forall|l: int|
                    0 <= l < spec_survey(interfaces, routes, neighbours, resolvers).gaps.len()
                        && l != k ==> spec_survey(interfaces, routes, neighbours, resolvers).gaps[l].reading
                        != g.reading
            },
{
    let g1 = match interfaces {
        Ok(_) => Seq::<GapView>::empty(),
        Err(e) => seq![GapView { reading: Reading::Interfaces, because: e }],
    };
    let g2 = match routes {
        Ok(_) => g1,
        Err(e) => g1.push(GapView { reading: Reading::Routes, because: e }),
    };
    let g3 = match neighbours {
        Ok(_) => g2,
        Err(e) => g2.push(GapView { reading: Reading::Neighbours, because: e }),
    };
    let g4 = match resolvers {
        Ok(_) => g3,
        Err(e) => g3.push(GapView { reading: Reading::Resolvers, because: e }),
    };
    let gaps = spec_survey(interfaces, routes, neighbours, resolvers).gaps;
    assert(gaps == g4);
    if reading_failed(reading, interfaces, routes, neighbours, resolvers) {
        match reading {
            Reading::Interfaces => {
                assert(g4[0].reading == reading);
            },
            Reading::Routes => {
                assert(g2[g2.len() - 1].reading == reading);
                assert(g4[g2.len() - 1] == g2[g2.len() - 1]);
            },
            Reading::Neighbours => {
                assert(g3[g3.len() - 1].reading == reading);
                assert(g4[g3.len() - 1] == g3[g3.len() - 1]);
            },
            Reading::Resolvers => {
                assert(g4[g4.len() - 1].reading == reading);
            },
        }
    }
}


/// A default target is worth sweeping: never a host route, never too large
/// to walk, and never listed twice.
pub proof fn lemma_sweepable_targets(ps: Seq<Prefix>)
    ensures
        sweepable(ps).no_duplicates(),
        forall|k: int| 0 <= k < sweepable(ps).len() ==> (#[trigger] sweepable(ps)[k]).len != 32
            && spec_host_range(sweepable(ps)[k]) is Some,
    decreases ps.len(),
{
    if ps.len() > 0 {
        lemma_sweepable_targets(ps.drop_last());
    }
}

} // verus!
