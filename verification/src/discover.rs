//! Phase two: finding the hosts.
//!
//! ## What counts as a host
//!
//! **A refused connection proves a host.** A TCP RST is a machine declining
//! a connection, which means a machine was there to decline it. Its mirror is
//! [`Outcome::NoAnswer`], which proves nothing whatsoever: silence is a host
//! that is off, a host that drops, or a probe that was rate limited.
//!
//! ## The shape
//!
//! Probing one address is a conversation: ask ARP, then ping, then knock, and
//! decide after each answer what to ask next. [`Prober`] is that decision,
//! as a state machine from answers to the next question; the program around
//! this crate sends the packets, paces them and hands the answers back. What
//! the sweep could not do is named in [`Sweep::not_done`], and
//! [`finish_sweep`] is how a set of per-address results becomes a sweep.

use vstd::prelude::*;
use core::time::Duration;
use crate::addr::{ip_key, key_less, IpAddr, Ipv4Addr};
use crate::mac::MacAddr;
use crate::prefix::{prefix_text, Prefix};
use crate::text::{chars_of, decimal, push_decimal, push_str, string_of};

verus! {

/// The ports knocked on when nothing else answered, in order: the web, SSH
/// for Linux and appliances, and SMB for Windows, which ignores ping on a
/// public profile.
pub open spec fn knock_ports() -> Seq<u16> {
    seq![80u16, 443u16, 22u16, 445u16]
}

/// The knock port at position `i`.
pub fn knock_port(i: usize) -> (p: u16)
    requires
        i < 4,
    ensures
        p == knock_ports()[i as int],
{
    if i == 0 {
        80
    } else if i == 1 {
        443
    } else if i == 2 {
        22
    } else {
        445
    }
}

pub uninterp spec fn duration_from_millis(ms: u64) -> Duration;

/// Calls `Duration::from_millis`; the contract names the result after the
/// argument and says nothing else of it.
#[verifier::external_body]
pub(crate) fn millis(ms: u64) -> (d: Duration)
    ensures
        d == duration_from_millis(ms),
{
    Duration::from_millis(ms)
}

/// What a transport is able to send.
#[derive(Clone, Copy, Debug, Default, PartialEq, Eq, Structural)]
pub struct Capabilities {
    /// Can resolve a hardware address for an on-link IPv4 address.
    pub arp: bool,
    /// Can send an ICMP echo and hear the reply.
    pub icmp: bool,
    /// Can open TCP connections.
    pub tcp: bool,
}

impl Capabilities {
    /// Everything an unprivileged engine has on a good day.
    pub fn unprivileged() -> (c: Capabilities)
        ensures
            c.arp && c.icmp && c.tcp,
    {
        Capabilities { arp: true, icmp: true, tcp: true }
    }
}

/// How a TCP probe ended.
#[derive(Clone, Copy, Debug, PartialEq, Eq, Structural)]
pub enum Outcome {
    /// The connection was accepted. There is a host and the port is open.
    Open,
    /// The connection was refused: a RST. **There is a host.**
    Refused,
    /// Nothing came back before the timeout. This proves nothing at all.
    NoAnswer,
}

/// Why a host is believed to be there.
#[derive(Clone, Copy, Debug, PartialEq, Eq)]
pub enum Evidence {
    /// It answered an ARP request, with this hardware address.
    Arp(MacAddr),
    /// It answered a ping.
    Ping,
    /// It accepted a connection on this port.
    TcpOpen(u16),
    /// It refused a connection on this port, which proves it is there.
    TcpRefused(u16),
}

/// The phrase that says why.
pub open spec fn reason_text(e: Evidence) -> Seq<char> {
    match e {
        Evidence::Arp(_) => "answered ARP"@,
        Evidence::Ping => "answered ping"@,
        Evidence::TcpOpen(p) => "port "@ + decimal(p as nat) + " open"@,
        Evidence::TcpRefused(p) => "port "@ + decimal(p as nat) + " refused"@,
    }
}

fn text(s: &str) -> (r: String)
    ensures
        r@ == s@,
{
    string_of(chars_of(s).as_slice())
}

impl Evidence {
    /// A short phrase for the interface, which shows why rather than only
    /// what.
    pub fn reason(&self) -> (s: String)
        ensures
            s@ == reason_text(*self),
    {
        match *self {
            Evidence::Arp(_) => text("answered ARP"),
            Evidence::Ping => text("answered ping"),
            Evidence::TcpOpen(p) => {
                let mut s = text("port ");
                push_decimal(&mut s, p as u64);
                push_str(&mut s, " open");
                s
            },
            Evidence::TcpRefused(p) => {
                let mut s = text("port ");
                push_decimal(&mut s, p as u64);
                push_str(&mut s, " refused");
                s
            },
        }
    }
}

/// A host that answered something.
#[derive(Clone, Debug, PartialEq, Eq)]
pub struct Found {
    pub address: IpAddr,
    pub mac: Option<MacAddr>,
    /// Every reason, in the order obtained. Never empty when built here.
    pub evidence: Vec<Evidence>,
    /// Round trip time, where something measured one.
    pub rtt: Option<Duration>,
}

/// The open ports among the evidence, in order.
pub open spec fn open_ports_of(e: Seq<Evidence>) -> Seq<u16>
    decreases e.len(),
{
    if e.len() == 0 {
        Seq::empty()
    } else {
        match e.last() {
            Evidence::TcpOpen(p) => open_ports_of(e.drop_last()).push(p),
            _ => open_ports_of(e.drop_last()),
        }
    }
}

impl Found {
    /// The open ports the sweep happened to notice while knocking.
    pub fn open_ports(&self) -> (r: Vec<u16>)
        ensures
            r@ == open_ports_of(self.evidence@),
    {
        let mut out: Vec<u16> = Vec::new();
        let mut i: usize = 0;
        while i < self.evidence.len()
            invariant
                i <= self.evidence@.len(),
                out@ == open_ports_of(self.evidence@.take(i as int)),
            decreases self.evidence@.len() - i,
        {
            proof {
                assert(self.evidence@.take(i + 1).drop_last() =~= self.evidence@.take(i as int));
            }
            match self.evidence[i] {
                Evidence::TcpOpen(p) => out.push(p),
                _ => {},
            }
            i += 1;
        }
        proof {
            assert(self.evidence@.take(self.evidence@.len() as int) =~= self.evidence@);
        }
        out
    }
}

/// How hard to look.
#[derive(Clone, Copy, Debug)]
pub struct Options {
    /// How long to wait for an ARP reply on the local wire.
    pub arp_timeout: Duration,
    pub ping_timeout: Duration,
    pub tcp_timeout: Duration,
    /// Probes in flight at once.
    pub workers: usize,
    /// Knock on the knock ports for addresses that answered nothing else.
    pub knock: bool,
    /// **The prefix is on this machine's own link.** Then ARP is asked, and
    /// silence from ARP settles an address. Off the link it must be false:
    /// ARP is not asked at all, because the answer would be the gateway's.
    pub arp_authoritative: bool,
}

impl Default for Options {
    fn default() -> (o: Options)
        ensures
            o.arp_timeout == duration_from_millis(300),
            o.ping_timeout == duration_from_millis(500),
            o.tcp_timeout == duration_from_millis(400),
            o.workers == 256,
            o.knock,
            !o.arp_authoritative,
    {
        Options {
            arp_timeout: millis(300),
            ping_timeout: millis(500),
            tcp_timeout: millis(400),
            workers: 256,
            knock: true,
            arp_authoritative: false,
        }
    }
}

impl Options {
    /// The options for sweeping a network this machine is on.
    pub fn on_link() -> (o: Options)
        ensures
            o.arp_timeout == duration_from_millis(300),
            o.ping_timeout == duration_from_millis(500),
            o.tcp_timeout == duration_from_millis(400),
            o.workers == 256,
            o.knock,
            o.arp_authoritative,
    {
        let mut o = Options::default();
        o.arp_authoritative = true;
        o
    }
}

/// Progress, reported as the sweep runs.
#[derive(Clone, Copy, Debug, PartialEq, Eq, Structural)]
pub struct Progress {
    pub probed: u64,
    pub total: u64,
    pub found: u64,
}

/// The result of a sweep.
#[derive(Clone, Debug)]
pub struct Sweep {
    pub found: Vec<Found>,
    /// Addresses actually probed.
    pub probed: u64,
    pub total: u64,
    /// Techniques that were not available, in words fit to show. Empty means
    /// the sweep did everything it knows how to do.
    pub not_done: Vec<String>,
    /// True when the sweep stopped early because it was asked to.
    pub cancelled: bool,
}

impl Sweep {
    /// Did this sweep look as hard as it knows how?
    pub fn is_complete(&self) -> (b: bool)
        ensures
            b == (self.not_done@.len() == 0 && !self.cancelled),
    {
        self.not_done.len() == 0 && !self.cancelled
    }
}

// ------------------------------------------------------------ one address

/// Where a [`Prober`] is in its conversation.
#[derive(Clone, Copy, Debug, PartialEq, Eq, Structural)]
pub enum Stage {
    Arp,
    Ping,
    /// Knocking on the knock port at this position.
    Knock(u8),
    Done,
}

/// What a [`Prober`] wants done next.
#[derive(Clone, Copy, Debug, PartialEq, Eq)]
pub enum Step {
    /// Resolve the hardware address of this on-link IPv4 address.
    Arp(Ipv4Addr),
    /// Send one ICMP echo to the address.
    Ping,
    /// Open a TCP connection to this port.
    Knock(u16),
    /// Nothing more: the answer is [`Prober::found`].
    Done,
}

/// The probes for one address, cheapest and most conclusive first: ARP on
/// the link, then a ping, then, only where nothing has answered, a knock on
/// each knock port until one is refused.
pub struct Prober {
    pub address: IpAddr,
    pub caps: Capabilities,
    pub knock: bool,
    pub arp_authoritative: bool,
    pub stage: Stage,
    pub evidence: Vec<Evidence>,
    pub mac: Option<MacAddr>,
    pub rtt: Option<Duration>,
    /// Mechanisms that failed, in words fit to show.
    pub gaps: Vec<String>,
    /// The address was settled by ARP silence alone.
    pub settled_by_silence: bool,
}

pub struct ProberView {
    pub address: IpAddr,
    pub caps: Capabilities,
    pub knock: bool,
    pub arp_authoritative: bool,
    pub stage: Stage,
    pub evidence: Seq<Evidence>,
    pub mac: Option<MacAddr>,
    pub rtt: Option<Duration>,
    pub gaps: Seq<Seq<char>>,
    pub settled_by_silence: bool,
}

pub open spec fn strings(v: Seq<String>) -> Seq<Seq<char>> {
    Seq::new(v.len(), |i: int| v[i]@)
}

impl View for Prober {
    type V = ProberView;

    open spec fn view(&self) -> ProberView {
        ProberView {
            address: self.address,
            caps: self.caps,
            knock: self.knock,
            arp_authoritative: self.arp_authoritative,
            stage: self.stage,
            evidence: self.evidence@,
            mac: self.mac,
            rtt: self.rtt,
            gaps: strings(self.gaps@),
            settled_by_silence: self.settled_by_silence,
        }
    }
}

/// The knock, where it is wanted: nothing has answered, knocking is asked
/// for, and TCP is available.
pub open spec fn knock_stage(p: ProberView) -> Stage {
    if p.evidence.len() == 0 && p.knock && p.caps.tcp {
        Stage::Knock(0)
    } else {
        Stage::Done
    }
}

/// The stage after ARP: the ping where there is ICMP, else the knock.
pub open spec fn ping_stage(p: ProberView) -> Stage {
    if p.caps.icmp {
        Stage::Ping
    } else {
        knock_stage(p)
    }
}

/// A prober that has asked nothing yet.
pub open spec fn spec_start(address: IpAddr, caps: Capabilities, opts: Options) -> ProberView {
    let p = ProberView {
        address,
        caps,
        knock: opts.knock,
        arp_authoritative: opts.arp_authoritative,
        stage: Stage::Done,
        evidence: Seq::empty(),
        mac: None,
        rtt: None,
        gaps: Seq::empty(),
        settled_by_silence: false,
    };
    if caps.arp && opts.arp_authoritative && address is V4 {
        ProberView { stage: Stage::Arp, ..p }
    } else {
        ProberView { stage: ping_stage(p), ..p }
    }
}

/// The question a prober asks in its stage.
pub open spec fn spec_step(p: ProberView) -> Step {
    match p.stage {
        Stage::Arp => match p.address {
            IpAddr::V4(a) => Step::Arp(a),
            IpAddr::V6(_) => Step::Done,
        },
        Stage::Ping => Step::Ping,
        Stage::Knock(i) => if i < 4 {
            Step::Knock(knock_ports()[i as int])
        } else {
            Step::Done
        },
        Stage::Done => Step::Done,
    }
}

pub open spec fn arp_gap(e: Seq<char>) -> Seq<char> {
    "hardware address lookups failed ("@ + e
        + "), so devices that ignore ping and refuse nothing may have been missed"@
}

pub open spec fn ping_gap(e: Seq<char>) -> Seq<char> {
    "could not send an ICMP echo ("@ + e + ")"@
}

/// ARP answered: a non-zero hardware address is a host, silence on the link
/// settles the address, and an error is the mechanism failing, which
/// settles nothing and is noted.
pub open spec fn spec_on_arp(p: ProberView, answer: Result<Option<MacAddr>, Seq<char>>) -> ProberView {
    match answer {
        Ok(Some(hw)) if !hw.spec_is_zero() => {
            let q = ProberView { mac: Some(hw), evidence: p.evidence.push(Evidence::Arp(hw)), ..p };
            ProberView { stage: ping_stage(q), ..q }
        },
        Ok(_) => ProberView { settled_by_silence: true, stage: Stage::Done, ..p },
        Err(e) => {
            let q = ProberView { gaps: p.gaps.push(arp_gap(e)), ..p };
            ProberView { stage: ping_stage(q), ..q }
        },
    }
}

/// The ping answered: a reply is a host, silence proves nothing, and an
/// error is noted. Then the knock, where it is wanted.
pub open spec fn spec_on_ping(p: ProberView, answer: Result<Option<Duration>, Seq<char>>) -> ProberView {
    let q = match answer {
        Ok(Some(t)) => ProberView { evidence: p.evidence.push(Evidence::Ping), rtt: Some(t), ..p },
        Ok(None) => p,
        Err(e) => ProberView { gaps: p.gaps.push(ping_gap(e)), ..p },
    };
    ProberView { stage: knock_stage(q), ..q }
}

/// A knock answered: an open port is noted and the knock goes on; a refusal
/// proves the host and ends it; silence goes on to the next port.
pub open spec fn spec_on_knock(p: ProberView, outcome: Outcome) -> ProberView {
    match p.stage {
        Stage::Knock(i) if i < 4 => {
            let port = knock_ports()[i as int];
            let next = if i + 1 < 4 {
                Stage::Knock((i + 1) as u8)
            } else {
                Stage::Done
            };
            match outcome {
                Outcome::Open => ProberView {
                    evidence: p.evidence.push(Evidence::TcpOpen(port)),
                    stage: next,
                    ..p
                },
                Outcome::Refused => ProberView {
                    evidence: p.evidence.push(Evidence::TcpRefused(port)),
                    stage: Stage::Done,
                    ..p
                },
                Outcome::NoAnswer => ProberView { stage: next, ..p },
            }
        },
        _ => p,
    }
}

/// How many questions a prober can still ask, at most.
pub open spec fn questions_left(stage: Stage) -> int {
    match stage {
        Stage::Arp => 6,
        Stage::Ping => 5,
        Stage::Knock(i) => if i < 4 {
            4 - i
        } else {
            0
        },
        Stage::Done => 0,
    }
}

/// A prober always finishes: every answer it reads leaves it fewer questions
/// to ask, and one with none left asks nothing.
pub proof fn lemma_prober_finishes(
    p: ProberView,
    arp: Result<Option<MacAddr>, Seq<char>>,
    ping: Result<Option<Duration>, Seq<char>>,
    outcome: Outcome,
)
    ensures
        questions_left(p.stage) == 0 ==> spec_step(p) == Step::Done,
        p.stage == Stage::Arp ==> questions_left(spec_on_arp(p, arp).stage) < questions_left(p.stage),
        p.stage == Stage::Ping ==> questions_left(spec_on_ping(p, ping).stage) < questions_left(
            p.stage,
        ),
        spec_step(p) is Knock ==> questions_left(spec_on_knock(p, outcome).stage) < questions_left(
            p.stage,
        ),
{
}

/// What answered stays answered: reading any answer only adds evidence
/// after what was there.
pub proof fn lemma_evidence_is_never_lost(
    p: ProberView,
    arp: Result<Option<MacAddr>, Seq<char>>,
    ping: Result<Option<Duration>, Seq<char>>,
    outcome: Outcome,
)
    ensures
        p.evidence.is_prefix_of(spec_on_arp(p, arp).evidence),
        p.evidence.is_prefix_of(spec_on_ping(p, ping).evidence),
        p.evidence.is_prefix_of(spec_on_knock(p, outcome).evidence),
        p.evidence.is_prefix_of(ProberView { stage: Stage::Done, ..p }.evidence),
{
    assert(p.evidence.is_prefix_of(p.evidence.push(Evidence::Ping)));
    assert(p.evidence.is_prefix_of(p.evidence));
    match arp {
        Ok(Some(hw)) => {
            assert(p.evidence.is_prefix_of(p.evidence.push(Evidence::Arp(hw))));
        },
        _ => {},
    }
    match p.stage {
        Stage::Knock(i) => {
            if i < 4 {
                let port = knock_ports()[i as int];
                assert(p.evidence.is_prefix_of(p.evidence.push(Evidence::TcpOpen(port))));
                assert(p.evidence.is_prefix_of(p.evidence.push(Evidence::TcpRefused(port))));
            }
        },
        _ => {},
    }
}

/// ARP is asked first or not at all, and only of an on-link IPv4 address
/// where the transport can send it: off the link it is never asked.
pub proof fn lemma_arp_only_on_the_link(
    address: IpAddr,
    caps: Capabilities,
    opts: Options,
    p: ProberView,
    arp: Result<Option<MacAddr>, Seq<char>>,
    ping: Result<Option<Duration>, Seq<char>>,
    outcome: Outcome,
)
    ensures
        spec_start(address, caps, opts).stage == Stage::Arp <==> (caps.arp && opts.arp_authoritative
            && address is V4),
        spec_on_arp(p, arp).stage != Stage::Arp,
        spec_on_ping(p, ping).stage != Stage::Arp,
        p.stage != Stage::Arp ==> spec_on_knock(p, outcome).stage != Stage::Arp,
{
}

/// The knock is only for addresses that have answered nothing, and a
/// refusal ends it; silence from ARP on the link ends the conversation.
pub proof fn lemma_knock_only_the_silent(
    address: IpAddr,
    caps: Capabilities,
    opts: Options,
    p: ProberView,
    arp: Result<Option<MacAddr>, Seq<char>>,
    ping: Result<Option<Duration>, Seq<char>>,
)
    ensures
        spec_start(address, caps, opts).stage is Knock ==> spec_start(
            address,
            caps,
            opts,
        ).evidence.len() == 0,
        spec_on_arp(p, arp).stage is Knock ==> spec_on_arp(p, arp).evidence.len() == 0,
        spec_on_ping(p, ping).stage is Knock ==> spec_on_ping(p, ping).evidence.len() == 0,
        spec_step(p) is Knock ==> spec_on_knock(p, Outcome::Refused).stage == Stage::Done,
        spec_on_arp(p, Ok(None)).stage == Stage::Done,
{
}

/// A refusal proves a host, and silence proves nothing: a refused knock
/// is evidence and the prober then has a host to report, and an unanswered
/// one adds no evidence.
pub proof fn lemma_refusal_proves_a_host(p: ProberView)
    requires
        spec_step(p) is Knock,
    ensures
        spec_on_knock(p, Outcome::Refused).evidence == p.evidence.push(
            Evidence::TcpRefused(spec_step(p)->Knock_0),
        ),
        spec_found(spec_on_knock(p, Outcome::Refused)) is Some,
        spec_on_knock(p, Outcome::NoAnswer).evidence == p.evidence,
        spec_on_knock(p, Outcome::Open).evidence == p.evidence.push(
            Evidence::TcpOpen(spec_step(p)->Knock_0),
        ),
{
}

pub struct FoundView {
    pub address: IpAddr,
    pub mac: Option<MacAddr>,
    pub evidence: Seq<Evidence>,
    pub rtt: Option<Duration>,
}

/// What a prober found: a host where anything answered, nothing otherwise.
pub open spec fn spec_found(p: ProberView) -> Option<FoundView> {
    if p.evidence.len() == 0 {
        None
    } else {
        Some(FoundView { address: p.address, mac: p.mac, evidence: p.evidence, rtt: p.rtt })
    }
}

impl Found {
    pub open spec fn view_of(self) -> FoundView {
        FoundView { address: self.address, mac: self.mac, evidence: self.evidence@, rtt: self.rtt }
    }
}

fn knock_stage_of(evidence_empty: bool, knock: bool, caps: Capabilities) -> (s: Stage)
    ensures
        s == (if evidence_empty && knock && caps.tcp {
            Stage::Knock(0)
        } else {
            Stage::Done
        }),
{
    if evidence_empty && knock && caps.tcp {
        Stage::Knock(0)
    } else {
        Stage::Done
    }
}

impl Prober {
    /// A prober for one address that has asked nothing yet.
    pub fn new(address: IpAddr, caps: Capabilities, opts: &Options) -> (r: Prober)
        ensures
            r@ == spec_start(address, caps, *opts),
    {
        let stage = if caps.arp && opts.arp_authoritative && address.is_ipv4() {
            Stage::Arp
        } else if caps.icmp {
            Stage::Ping
        } else {
            knock_stage_of(true, opts.knock, caps)
        };
        let r = Prober {
            address,
            caps,
            knock: opts.knock,
            arp_authoritative: opts.arp_authoritative,
            stage,
            evidence: Vec::new(),
            mac: None,
            rtt: None,
            gaps: Vec::new(),
            settled_by_silence: false,
        };
        proof {
            assert(strings(r.gaps@) =~= Seq::<Seq<char>>::empty());
        }
        r
    }

    /// What to do next.
    pub fn step(&self) -> (s: Step)
        ensures
            s == spec_step(self@),
    {
        match self.stage {
            Stage::Arp => match self.address {
                IpAddr::V4(a) => Step::Arp(a),
                IpAddr::V6(_) => Step::Done,
            },
            Stage::Ping => Step::Ping,
            Stage::Knock(i) => if i < 4 {
                Step::Knock(knock_port(i as usize))
            } else {
                Step::Done
            },
            Stage::Done => Step::Done,
        }
    }

    fn push_gap(&mut self, line: String)
        ensures
            final(self)@ == (ProberView { gaps: old(self)@.gaps.push(line@), ..old(self)@ }),
    {
        self.gaps.push(line);
        proof {
            assert(strings(self.gaps@) =~= strings(old(self).gaps@).push(line@));
        }
    }

    /// Reads the answer to [`Step::Arp`]: a hardware address, silence, or the
    /// reason the lookup failed.
    pub fn on_arp(&mut self, answer: Result<Option<MacAddr>, String>)
        requires
            old(self).stage == Stage::Arp,
        ensures
            final(self)@ == spec_on_arp(
                old(self)@,
                match answer {
                    Ok(m) => Ok(m),
                    Err(e) => Err(e@),
                },
            ),
    {
        match answer {
            Ok(Some(hw)) => {
                if !hw.is_zero() {
                    self.mac = Some(hw);
                    self.evidence.push(Evidence::Arp(hw));
                    self.stage = if self.caps.icmp {
                        Stage::Ping
                    } else {
                        knock_stage_of(false, self.knock, self.caps)
                    };
                } else {
                    self.settled_by_silence = true;
                    self.stage = Stage::Done;
                }
            },
            Ok(None) => {
                self.settled_by_silence = true;
                self.stage = Stage::Done;
            },
            Err(e) => {
                let mut line = text("hardware address lookups failed (");
                push_str(&mut line, e.as_str());
                push_str(
                    &mut line,
                    "), so devices that ignore ping and refuse nothing may have been missed",
                );
                self.push_gap(line);
                self.stage = if self.caps.icmp {
                    Stage::Ping
                } else {
                    knock_stage_of(self.evidence.len() == 0, self.knock, self.caps)
                };
            },
        }
    }

    /// Reads the answer to [`Step::Ping`]: a round trip time, silence, or the
    /// reason the echo could not be sent.
    pub fn on_ping(&mut self, answer: Result<Option<Duration>, String>)
        requires
            old(self).stage == Stage::Ping,
        ensures
            final(self)@ == spec_on_ping(
                old(self)@,
                match answer {
                    Ok(t) => Ok(t),
                    Err(e) => Err(e@),
                },
            ),
    {
        match answer {
            Ok(Some(t)) => {
                self.evidence.push(Evidence::Ping);
                self.rtt = Some(t);
            },
            Ok(None) => {},
            Err(e) => {
                let mut line = text("could not send an ICMP echo (");
                push_str(&mut line, e.as_str());
                push_str(&mut line, ")");
                self.push_gap(line);
            },
        }
        self.stage = knock_stage_of(self.evidence.len() == 0, self.knock, self.caps);
    }

    /// Reads how the knock of [`Step::Knock`] ended.
    pub fn on_knock(&mut self, outcome: Outcome)
        ensures
            final(self)@ == spec_on_knock(old(self)@, outcome),
    {
        if let Stage::Knock(i) = self.stage {
            if i < 4 {
                let port = knock_port(i as usize);
                let next = if i + 1 < 4 {
                    Stage::Knock(i + 1)
                } else {
                    Stage::Done
                };
                match outcome {
                    Outcome::Open => {
                        self.evidence.push(Evidence::TcpOpen(port));
                        self.stage = next;
                    },
                    Outcome::Refused => {
                        self.evidence.push(Evidence::TcpRefused(port));
                        self.stage = Stage::Done;
                    },
                    Outcome::NoAnswer => {
                        self.stage = next;
                    },
                }
            }
        }
    }

    /// Gives up: asked to stop, nothing more is sent, and whatever has
    /// already answered stands.
    pub fn stop(&mut self)
        ensures
            final(self)@ == (ProberView { stage: Stage::Done, ..old(self)@ }),
    {
        self.stage = Stage::Done;
    }

    /// The host, if anything answered.
    pub fn found(&self) -> (r: Option<Found>)
        ensures
            match spec_found(self@) {
                Some(f) => r is Some && r->0.view_of() == f,
                None => r is None,
            },
    {
        if self.evidence.len() == 0 {
            return None;
        }
        let mut evidence: Vec<Evidence> = Vec::new();
        let mut i: usize = 0;
        while i < self.evidence.len()
            invariant
                i <= self.evidence@.len(),
                evidence@ == self.evidence@.take(i as int),
            decreases self.evidence@.len() - i,
        {
            evidence.push(self.evidence[i]);
            proof {
                assert(evidence@ =~= self.evidence@.take(i + 1));
            }
            i += 1;
        }
        proof {
            assert(evidence@ =~= self.evidence@);
        }
        Some(Found { address: self.address, mac: self.mac, evidence, rtt: self.rtt })
    }
}

// ------------------------------------------------------------ the sweep

/// What the sweep says up front it could not do: ARP where it would have
/// been asked, and ICMP.
pub open spec fn opening_gaps(caps: Capabilities, opts: Options) -> Seq<Seq<char>> {
    let a = if !caps.arp && opts.arp_authoritative {
        seq![
            "could not send ARP requests, so devices that ignore ping and refuse nothing were missed"@,
        ]
    } else {
        Seq::empty()
    };
    if !caps.icmp {
        a.push("could not send ICMP echoes"@)
    } else {
        a
    }
}

/// The caveats of a sweep before anything is sent.
pub fn sweep_opening(caps: Capabilities, opts: &Options) -> (r: Vec<String>)
    ensures
        strings(r@) == opening_gaps(caps, *opts),
{
    let mut out: Vec<String> = Vec::new();
    if !caps.arp && opts.arp_authoritative {
        out.push(
            text(
                "could not send ARP requests, so devices that ignore ping and refuse nothing were missed",
            ),
        );
    }
    if !caps.icmp {
        out.push(text("could not send ICMP echoes"));
    }
    proof {
        assert(strings(out@) =~= opening_gaps(caps, *opts));
    }
    out
}

pub open spec fn too_large_text(p: Seq<char>) -> Seq<char> {
    p + " is too large to sweep address by address; discovery there is multicast and the neighbour table"@
}

/// The sweep of a prefix too large to walk: nothing probed, and why.
pub fn too_large(prefix: &Prefix) -> (s: Sweep)
    ensures
        s.found@.len() == 0,
        s.probed == 0,
        s.total == 0,
        strings(s.not_done@) == seq![too_large_text(prefix_text(prefix@))],
        !s.cancelled,
{
    let mut line = prefix.to_string();
    push_str(
        &mut line,
        " is too large to sweep address by address; discovery there is multicast and the neighbour table",
    );
    let mut not_done: Vec<String> = Vec::new();
    not_done.push(line);
    proof {
        assert(strings(not_done@) =~= seq![too_large_text(prefix_text(prefix@))]);
    }
    Sweep { found: Vec::new(), probed: 0, total: 0, not_done, cancelled: false }
}

pub open spec fn silence_caveat() -> Seq<char> {
    "nothing answered ARP anywhere in this network, and every address was settled by that silence alone; on a link that filters ARP between its clients, as guest Wi-Fi and client isolation do, finding nothing is not the same as there being nothing"@
}

/// The order strings sort in: by character, a prefix first.
pub open spec fn text_less(a: Seq<char>, b: Seq<char>) -> bool
    decreases a.len(),
{
    if a.len() == 0 {
        b.len() > 0
    } else if b.len() == 0 {
        false
    } else if a[0] != b[0] {
        (a[0] as u32) < (b[0] as u32)
    } else {
        text_less(a.drop_first(), b.drop_first())
    }
}

/// Does `a` sort before `b`?
pub fn sorts_before(a: &str, b: &str) -> (r: bool)
    ensures
        r == text_less(a@, b@),
{
    let x = chars_of(a);
    let y = chars_of(b);
    let mut i: usize = 0;
    proof {
        assert(a@.skip(0) =~= a@);
        assert(b@.skip(0) =~= b@);
    }
    while i < x.len() && i < y.len() && x[i] == y[i]
        invariant
            i <= x@.len(),
            i <= y@.len(),
            x@ == a@,
            y@ == b@,
            text_less(a@, b@) == text_less(a@.skip(i as int), b@.skip(i as int)),
        decreases x@.len() - i,
    {
        proof {
            assert(a@.skip(i as int).drop_first() =~= a@.skip(i + 1));
            assert(b@.skip(i as int).drop_first() =~= b@.skip(i + 1));
        }
        i += 1;
    }
    if i == x.len() {
        i < y.len()
    } else if i == y.len() {
        false
    } else {
        (x[i] as u32) < (y[i] as u32)
    }
}

/// The found hosts in address order.
pub open spec fn by_address(f: Seq<FoundView>) -> bool {
    forall|i: int, j: int|
        0 <= i < j < f.len() ==> !key_less(ip_key(#[trigger] f[j].address), ip_key(#[trigger] f[i].address))
}

pub open spec fn found_views(v: Seq<Found>) -> Seq<FoundView> {
    Seq::new(v.len(), |i: int| v[i].view_of())
}

/// Is every line of `s` distinct, and are they in sorted order?
pub open spec fn sorted_lines(s: Seq<Seq<char>>) -> bool {
    forall|i: int, j: int| 0 <= i < j < s.len() ==> text_less(#[trigger] s[i], #[trigger] s[j])
}

proof fn lemma_text_less_irreflexive(a: Seq<char>)
    ensures
        !text_less(a, a),
    decreases a.len(),
{
    if a.len() > 0 {
        lemma_text_less_irreflexive(a.drop_first());
    }
}

proof fn lemma_text_less_total(a: Seq<char>, b: Seq<char>)
    requires
        a != b,
    ensures
        text_less(a, b) || text_less(b, a),
    decreases a.len(),
{
    if a.len() > 0 && b.len() > 0 && a[0] == b[0] {
        if a.drop_first() == b.drop_first() {
            assert(a =~= seq![a[0]] + a.drop_first());
            assert(b =~= seq![b[0]] + b.drop_first());
        }
        lemma_text_less_total(a.drop_first(), b.drop_first());
    } else if a.len() == 0 && b.len() == 0 {
        assert(a =~= b);
    } else if a.len() > 0 && b.len() > 0 {
        assert(a[0] != b[0]);
        vstd::utf8::char_u32_cast(a[0], a[0] as u32);
        vstd::utf8::char_u32_cast(b[0], b[0] as u32);
    }
}

proof fn lemma_text_less_transitive(a: Seq<char>, b: Seq<char>, c: Seq<char>)
    requires
        text_less(a, b),
        text_less(b, c),
    ensures
        text_less(a, c),
    decreases a.len(),
{
    if a.len() > 0 && b.len() > 0 && c.len() > 0 && a[0] == b[0] && b[0] == c[0] {
        lemma_text_less_transitive(a.drop_first(), b.drop_first(), c.drop_first());
    }
}

/// Lines in sorted order are each said once: a mechanism that failed at
/// every address of a sweep is reported once.
pub proof fn lemma_sorted_distinct(s: Seq<Seq<char>>, i: int, j: int)
    requires
        sorted_lines(s),
        0 <= i < s.len(),
        0 <= j < s.len(),
        i != j,
    ensures
        s[i] != s[j],
{
    if i < j {
        assert(text_less(s[i], s[j]));
        lemma_text_less_irreflexive(s[i]);
    } else {
        assert(text_less(s[j], s[i]));
        lemma_text_less_irreflexive(s[j]);
    }
}

fn same_text(a: &String, b: &String) -> (r: bool)
    ensures
        r == (a@ == b@),
{
    let x = chars_of(a.as_str());
    let y = chars_of(b.as_str());
    crate::text::same_chars(x.as_slice(), y.as_slice())
}

proof fn lemma_insert_to_set(s: Seq<Seq<char>>, k: int, x: Seq<char>)
    requires
        0 <= k <= s.len(),
    ensures
        s.insert(k, x).to_set() == s.to_set().insert(x),
{
    let t = s.insert(k, x);
    assert forall|e: Seq<char>| t.to_set().contains(e) <==> s.to_set().insert(x).contains(e) by {
        if t.contains(e) {
            let w = choose|w: int| 0 <= w < t.len() && t[w] == e;
            if w < k {
                assert(s[w] == e);
            } else if w > k {
                assert(s[w - 1] == e);
            }
        }
        if s.contains(e) {
            let w = choose|w: int| 0 <= w < s.len() && s[w] == e;
            if w < k {
                assert(t[w] == e);
            } else {
                assert(t[w + 1] == e);
            }
        }
        if e == x {
            assert(t[k] == e);
        }
    }
    assert(t.to_set() =~= s.to_set().insert(x));
}

proof fn lemma_push_to_set(s: Seq<Seq<char>>, x: Seq<char>)
    ensures
        s.push(x).to_set() == s.to_set().insert(x),
{
    assert(s.push(x) =~= s.insert(s.len() as int, x));
    lemma_insert_to_set(s, s.len() as int, x);
}

proof fn lemma_insert_sorted(s: Seq<Seq<char>>, k: int, x: Seq<char>)
    requires
        0 <= k <= s.len(),
        sorted_lines(s),
        forall|j: int| 0 <= j < k ==> text_less(#[trigger] s[j], x),
        forall|j: int| k <= j < s.len() ==> text_less(x, #[trigger] s[j]),
    ensures
        sorted_lines(s.insert(k, x)),
{
    let t = s.insert(k, x);
    assert forall|a: int, b: int| 0 <= a < b < t.len() implies text_less(#[trigger] t[a], #[trigger] t[b]) by {
        if a == k {
            assert(t[b] == s[b - 1]);
        } else if b == k {
            assert(t[a] == s[a]);
        } else {
            let a0 = if a < k {
                a
            } else {
                a - 1
            };
            let b0 = if b < k {
                b
            } else {
                b - 1
            };
            assert(t[a] == s[a0]);
            assert(t[b] == s[b0]);
        }
    }
}

fn contains_text(v: &Vec<String>, x: &String) -> (b: bool)
    ensures
        b == strings(v@).contains(x@),
{
    let mut t: usize = 0;
    while t < v.len()
        invariant
            t <= v@.len(),
            forall|u: int| 0 <= u < t ==> #[trigger] strings(v@)[u] != x@,
        decreases v@.len() - t,
    {
        if same_text(&v[t], x) {
            assert(strings(v@)[t as int] == x@);
            return true;
        }
        t += 1;
    }
    false
}

/// The distinct lines of `lines`, in sorted order: the set of reasons a
/// mechanism failed, each said once however many addresses it failed at.
pub fn line_set(lines: &Vec<String>) -> (r: Vec<String>)
    ensures
        sorted_lines(strings(r@)),
        strings(r@).to_set() == strings(lines@).to_set(),
{
    let ghost src = strings(lines@);
    let mut out: Vec<String> = Vec::new();
    let mut i: usize = 0;
    while i < lines.len()
        invariant
            i <= lines@.len(),
            src == strings(lines@),
            sorted_lines(strings(out@)),
            strings(out@).to_set() == src.take(i as int).to_set(),
        decreases lines@.len() - i,
    {
        proof {
            assert(src.take(i + 1) =~= src.take(i as int).push(src[i as int]));
            lemma_push_to_set(src.take(i as int), src[i as int]);
        }
        let x = &lines[i];
        if !contains_text(&out, x) {
            // After every line that sorts before it.
            let mut k: usize = 0;
            while k < out.len() && sorts_before(out[k].as_str(), x.as_str())
                invariant
                    k <= out@.len(),
                    forall|j: int| 0 <= j < k ==> text_less(#[trigger] strings(out@)[j], x@),
                decreases out@.len() - k,
            {
                k += 1;
            }
            let ghost before = strings(out@);
            proof {
                assert forall|j: int| k <= j < before.len() implies text_less(x@, #[trigger] before[j]) by {
                    assert(!text_less(before[k as int], x@));
                    assert(before[k as int] != x@) by {
                        assert(!before.contains(x@));
                    }
                    lemma_text_less_total(before[k as int], x@);
                    if j > k {
                        lemma_text_less_transitive(x@, before[k as int], before[j]);
                    }
                }
            }
            out.insert(k, text(x.as_str()));
            proof {
                assert(strings(out@) =~= before.insert(k as int, x@));
                lemma_insert_sorted(before, k as int, x@);
                lemma_insert_to_set(before, k as int, x@);
            }
        } else {
            proof {
                assert(strings(out@).to_set().insert(x@) =~= strings(out@).to_set());
            }
        }
        i += 1;
    }
    proof {
        assert(src.take(lines@.len() as int) =~= src);
    }
    out
}

/// Sorts the hosts found by address, equal addresses in the order given.
pub fn sort_found(found: Vec<Found>) -> (r: Vec<Found>)
    ensures
        found_views(r@).to_multiset() == found_views(found@).to_multiset(),
        by_address(found_views(r@)),
{
    broadcast use vstd::multiset::group_multiset_axioms;
    broadcast use vstd::seq_lib::group_to_multiset_ensures;

    let ghost whole = found_views(found@).to_multiset();
    let mut items = found;
    let mut out: Vec<Found> = Vec::new();
    proof {
        assert(found_views(out@) =~= Seq::<FoundView>::empty());
        assert(found_views(out@).to_multiset() =~= vstd::multiset::Multiset::empty());
        assert(found_views(out@).to_multiset().add(found_views(items@).to_multiset()) =~= whole);
    }
    while items.len() > 0
        invariant
            found_views(out@).to_multiset().add(found_views(items@).to_multiset()) == whole,
            by_address(found_views(out@)),
        decreases items@.len(),
    {
        let ghost before_items = found_views(items@);
        let f = items.pop().unwrap();
        let ghost v = f.view_of();
        proof {
            assert(before_items =~= found_views(items@).push(v));
        }
        let mut k: usize = 0;
        while k < out.len() && out[k].address.sorts_before(&f.address)
            invariant
                k <= out@.len(),
                forall|t: int| 0 <= t < k ==> key_less(ip_key(#[trigger] out@[t].address), ip_key(f.address)),
            decreases out@.len() - k,
        {
            k += 1;
        }
        let ghost before_out = found_views(out@);
        out.insert(k, f);
        proof {
            assert(found_views(out@) =~= before_out.insert(k as int, v));
            let now = found_views(out@);
            assert forall|a: int, b: int| 0 <= a < b < now.len() implies !key_less(ip_key(#[trigger] now[b].address), ip_key(#[trigger] now[a].address)) by {
                if a == k as int {
                    if k < before_out.len() {
                        assert(!key_less(ip_key(before_out[k as int].address), ip_key(v.address)));
                        assert(now[b] == before_out[b - 1]);
                    }
                } else if b == k as int {
                    assert(now[a] == before_out[a]);
                    assert(key_less(ip_key(out@[a].address), ip_key(v.address)));
                } else {
                    let a0 = if a < k { a } else { a - 1 };
                    let b0 = if b < k { b } else { b - 1 };
                    assert(now[a] == before_out[a0]);
                    assert(now[b] == before_out[b0]);
                }
            }
            vstd::seq_lib::to_multiset_insert(before_out, k as int, v);
            vstd::seq_lib::to_multiset_build(found_views(items@), v);
            assert(found_views(out@).to_multiset() =~= before_out.to_multiset().insert(v));
            assert(before_items.to_multiset() =~= found_views(items@).to_multiset().insert(v));
            assert(found_views(out@).to_multiset().add(found_views(items@).to_multiset()) =~= before_out.to_multiset().add(before_items.to_multiset()));
        }
    }
    proof {
        assert(found_views(items@) =~= Seq::<FoundView>::empty());
        assert(found_views(out@).to_multiset() =~= whole);
    }
    out
}

/// Whether the shortcut's blind spot is worth a caveat: ARP silence was
/// trusted, nothing was found, and nine in ten addresses probed were settled
/// by that silence alone in a sweep that ran to the end.
pub open spec fn silence_suspect(
    opts: Options,
    found: nat,
    probed: u64,
    cancelled: bool,
    arp_silent: u64,
) -> bool {
    opts.arp_authoritative && found == 0 && probed > 0 && !cancelled && arp_silent * 10 >= probed * 9
}

/// The sweep that a set of per-address results makes: the hosts in address
/// order; the opening caveats, then each mechanism failure once, then the
/// ARP-silence caveat where it applies.
pub fn finish_sweep(
    found: Vec<Found>,
    probed: u64,
    total: u64,
    opening: Vec<String>,
    gaps: &Vec<String>,
    cancelled: bool,
    arp_silent: u64,
    opts: &Options,
) -> (s: Sweep)
    ensures
        found_views(s.found@).to_multiset() == found_views(found@).to_multiset(),
        by_address(found_views(s.found@)),
        s.probed == probed,
        s.total == total,
        s.cancelled == cancelled,
        exists|g: Seq<Seq<char>>|
            sorted_lines(g) && g.to_set() == strings(gaps@).to_set() && strings(s.not_done@) == strings(
                opening@,
            ) + g + (if silence_suspect(*opts, found@.len(), probed, cancelled, arp_silent) {
                seq![silence_caveat()]
            } else {
                Seq::empty()
            }),
{
    let suspect = opts.arp_authoritative && found.len() == 0 && probed > 0 && !cancelled && (
    arp_silent as u128) * 10 >= (probed as u128) * 9;
    let sorted = sort_found(found);
    let lines = line_set(gaps);
    let mut not_done = opening;
    let ghost o = strings(not_done@);
    let mut i: usize = 0;
    while i < lines.len()
        invariant
            i <= lines@.len(),
            strings(not_done@) == o + strings(lines@).take(i as int),
        decreases lines@.len() - i,
    {
        let line = text(lines[i].as_str());
        let ghost before = strings(not_done@);
        not_done.push(line);
        proof {
            assert(strings(not_done@) =~= before.push(strings(lines@)[i as int]));
            assert(strings(not_done@) =~= o + strings(lines@).take(i + 1));
        }
        i += 1;
    }
    proof {
        assert(strings(lines@).take(lines@.len() as int) =~= strings(lines@));
    }
    if suspect {
        let ghost before = strings(not_done@);
        not_done.push(
            text(
                "nothing answered ARP anywhere in this network, and every address was settled by that silence alone; on a link that filters ARP between its clients, as guest Wi-Fi and client isolation do, finding nothing is not the same as there being nothing",
            ),
        );
        proof {
            assert(strings(not_done@) =~= before + seq![silence_caveat()]);
        }
    } else {
        proof {
            assert(strings(not_done@) =~= strings(not_done@) + Seq::<Seq<char>>::empty());
        }
    }
    Sweep { found: sorted, probed, total, not_done, cancelled }
}

} // verus!
