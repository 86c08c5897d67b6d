//! NetBIOS node status, which is how a Windows machine says its own name.
//!
//! One UDP datagram to port 137 and the machine answers with its name, its
//! workgroup and its hardware address. The wire format is DNS-shaped but not
//! DNS: the question name is a NetBIOS name in first-level encoding, which
//! spreads each byte across two characters in the range `A`–`P`, so the
//! wildcard query (`*` and fifteen NULs) encodes to `CKAAAA...`.

use vstd::prelude::*;
use crate::dns::{lossy, utf8_lossy};
use crate::mac::MacAddr;
use crate::text::{chars_of, string_of, trim_end, trim_end_len};

verus! {

/// `NBSTAT`, the node status query type.
pub const TYPE_NBSTAT: u16 = 0x0021;

pub const CLASS_IN: u16 = 0x0001;

/// One name a node claims.
#[derive(Clone, Debug, PartialEq, Eq)]
pub struct NbName {
    pub name: String,
    /// The suffix byte, which says what the name is for. `0x00` is the
    /// workstation, `0x20` the file server, `0x1c` a domain controller.
    pub suffix: u8,
    /// A group name is a workgroup or domain rather than this machine.
    pub group: bool,
}

/// What a node answered.
#[derive(Clone, Debug, PartialEq, Eq)]
pub struct NodeStatus {
    pub names: Vec<NbName>,
    /// The adapter address from the statistics block.
    pub mac: Option<MacAddr>,
}

pub struct NbNameView {
    pub name: Seq<char>,
    pub suffix: u8,
    pub group: bool,
}

pub open spec fn name_views(v: Seq<NbName>) -> Seq<NbNameView> {
    Seq::new(v.len(), |i: int| NbNameView { name: v[i].name@, suffix: v[i].suffix, group: v[i].group })
}

/// The first name in `names` from `i` on with suffix `0x00` whose group flag
/// is `group`.
pub open spec fn first_with(names: Seq<NbNameView>, group: bool, i: int) -> Option<Seq<char>>
    decreases names.len() - i,
{
    if i < 0 || i >= names.len() {
        None
    } else if names[i].suffix == 0 && names[i].group == group {
        Some(names[i].name)
    } else {
        first_with(names, group, i + 1)
    }
}

impl NodeStatus {
    fn first_with(&self, group: bool) -> (r: Option<&str>)
        ensures
            match first_with(name_views(self.names@), group, 0) {
                Some(n) => r is Some && r->0@ == n,
                None => r is None,
            },
    {
        let mut i: usize = 0;
        while i < self.names.len()
            invariant
                i <= self.names@.len(),
                first_with(name_views(self.names@), group, i as int) == first_with(
                    name_views(self.names@),
                    group,
                    0,
                ),
            decreases self.names@.len() - i,
        {
            let n = &self.names[i];
            if n.suffix == 0 && n.group == group {
                return Some(n.name.as_str());
            }
            i += 1;
        }
        None
    }

    /// The machine's own name: the first unique name with suffix `0x00`.
    /// Taking the first name in the list instead yields the workgroup about as
    /// often as the hostname.
    pub fn hostname(&self) -> (r: Option<&str>)
        ensures
            match first_with(name_views(self.names@), false, 0) {
                Some(n) => r is Some && r->0@ == n,
                None => r is None,
            },
    {
        self.first_with(false)
    }

    /// The workgroup or domain: the first group name with suffix `0x00`.
    pub fn workgroup(&self) -> (r: Option<&str>)
        ensures
            match first_with(name_views(self.names@), true, 0) {
                Some(n) => r is Some && r->0@ == n,
                None => r is None,
            },
    {
        self.first_with(true)
    }
}

/// First-level encoding: each byte becomes two characters, the high and low
/// nibbles offset from `A`.
pub open spec fn first_level(raw: Seq<u8>) -> Seq<u8> {
    Seq::new(
        2 * raw.len(),
        |i: int|
            if i % 2 == 0 {
                (65 + raw[i / 2] / 16) as u8
            } else {
                (65 + raw[i / 2] % 16) as u8
            },
    )
}

/// The wildcard name: `*` then fifteen NULs.
pub open spec fn wildcard() -> Seq<u8> {
    seq![42u8].add(Seq::new(15, |i: int| 0u8))
}

/// The node status query: the id, no flags, one question, then the wildcard
/// name, the `NBSTAT` type and class `IN`.
pub open spec fn spec_node_status_query(id: u16) -> Seq<u8> {
    seq![(id / 256) as u8, (id % 256) as u8, 0u8, 0u8, 0u8, 1u8, 0u8, 0u8, 0u8, 0u8, 0u8, 0u8]
        + seq![32u8] + first_level(wildcard()) + seq![0u8, 0u8, 0x21u8, 0u8, 1u8]
}

fn encode_name(raw: &[u8; 16]) -> (out: Vec<u8>)
    ensures
        out@ == first_level(raw@),
{
    let mut out: Vec<u8> = Vec::new();
    let mut i: usize = 0;
    while i < 16
        invariant
            i <= 16,
            out@.len() == 2 * i,
            forall|k: int| 0 <= k < 2 * i ==> #[trigger] out@[k] == first_level(raw@)[k],
        decreases 16 - i,
    {
        let b = raw[i];
        out.push(65 + b / 16);
        out.push(65 + b % 16);
        i += 1;
    }
    assert(out@ =~= first_level(raw@));
    out
}

/// Builds the wildcard node status query.
pub fn node_status_query(id: u16) -> (q: Vec<u8>)
    ensures
        q@ == spec_node_status_query(id),
{
    let mut out: Vec<u8> = Vec::new();
    out.push((id / 256) as u8);
    out.push((id % 256) as u8);
    out.push(0);
    out.push(0);
    out.push(0);
    out.push(1);
    out.push(0);
    out.push(0);
    out.push(0);
    out.push(0);
    out.push(0);
    out.push(0);
    let raw: [u8; 16] = [42, 0, 0, 0, 0, 0, 0, 0, 0, 0, 0, 0, 0, 0, 0, 0];
    assert(raw@ =~= wildcard());
    let encoded = encode_name(&raw);
    out.push(encoded.len() as u8);
    let ghost head = out@;
    let mut i: usize = 0;
    while i < encoded.len()
        invariant
            i <= encoded@.len(),
            out@ == head + encoded@.take(i as int),
        decreases encoded@.len() - i,
    {
        out.push(encoded[i]);
        i += 1;
        assert(out@ =~= head + encoded@.take(i as int));
    }
    out.push(0);
    out.push(0x00);
    out.push(0x21);
    out.push(0x00);
    out.push(0x01);
    proof {
        assert(encoded@.take(32) =~= encoded@);
        assert(out@ =~= spec_node_status_query(id));
    }
    out
}

/// Skips the length-prefixed labels of the name at `at`, returning the
/// offset past its zero byte. A compression pointer is refused rather than
/// followed.
pub open spec fn skip_labels(buf: Seq<u8>, at: int) -> Option<int>
    decreases buf.len() - at,
{
    if at < 0 || at >= buf.len() {
        None
    } else {
        let len = buf[at] as int;
        if len == 0 {
            Some(at + 1)
        } else if buf[at] & 0xc0 != 0 {
            None
        } else if at + 1 + len > buf.len() {
            None
        } else {
            skip_labels(buf, at + 1 + len)
        }
    }
}

/// The name an entry at `at` carries: fifteen bytes decoded and stripped of
/// the padding at their end.
pub open spec fn entry_name(buf: Seq<u8>, at: int) -> Seq<char> {
    trim_end(utf8_lossy(buf.subrange(at, at + 15)))
}

pub open spec fn entry_view(buf: Seq<u8>, at: int) -> NbNameView {
    NbNameView {
        name: entry_name(buf, at),
        suffix: buf[at + 15],
        group: buf[at + 16] >= 0x80,
    }
}

/// Up to `k` eighteen-byte entries from `at`, none reaching past `end`:
/// the names that are not empty, where reading stopped, and whether all `k`
/// were there to read.
pub open spec fn entries(buf: Seq<u8>, at: int, end: int, k: nat) -> (Seq<NbNameView>, int, bool)
    decreases k,
{
    if k == 0 {
        (Seq::empty(), at, true)
    } else if at + 18 > end {
        (Seq::empty(), at, false)
    } else {
        let rest = entries(buf, at + 18, end, (k - 1) as nat);
        let here = if entry_name(buf, at).len() == 0 {
            Seq::empty()
        } else {
            seq![entry_view(buf, at)]
        };
        (here + rest.0, rest.1, rest.2)
    }
}

pub struct NodeStatusView {
    pub names: Seq<NbNameView>,
    pub mac: Option<MacAddr>,
}

/// A node status reply. Twelve bytes of header with at least one answer, the
/// answer's name, eight bytes of type, class and TTL, the record length, then
/// a name count and the names. The record is clamped to the bytes that
/// arrived, so a reply cut short keeps the names that decoded; the names are
/// bounded by the record, so a count larger than the record invents nothing;
/// and the adapter address follows the names only where every name was read.
pub open spec fn spec_parse_node_status(buf: Seq<u8>) -> Option<NodeStatusView> {
    if buf.len() < 12 || (buf[6] == 0 && buf[7] == 0) {
        None
    } else {
        match skip_labels(buf, 12) {
            None => None,
            Some(at) => {
                let at = at + 8;
                if at + 1 >= buf.len() {
                    None
                } else {
                    let rdlength = buf[at] * 256 + buf[at + 1];
                    let at = at + 2;
                    let end = if at + rdlength < buf.len() {
                        at + rdlength
                    } else {
                        buf.len() as int
                    };
                    if at >= buf.len() {
                        None
                    } else {
                        let count = buf[at] as nat;
                        let (names, pos, every) = entries(buf, at + 1, end, count);
                        let mac = if every && pos + 6 <= end {
                            let m = MacAddr(
                                [
                                    buf[pos],
                                    buf[pos + 1],
                                    buf[pos + 2],
                                    buf[pos + 3],
                                    buf[pos + 4],
                                    buf[pos + 5],
                                ],
                            );
                            if m.spec_is_zero() {
                                None
                            } else {
                                Some(m)
                            }
                        } else {
                            None
                        };
                        Some(NodeStatusView { names, mac })
                    }
                }
            },
        }
    }
}

impl View for NodeStatus {
    type V = NodeStatusView;

    open spec fn view(&self) -> NodeStatusView {
        NodeStatusView { names: name_views(self.names@), mac: self.mac }
    }
}

fn skip_name(buf: &[u8], at0: usize) -> (r: Option<usize>)
    requires
        buf@.len() <= isize::MAX,
    ensures
        match r {
            Some(a) => skip_labels(buf@, at0 as int) == Some(a as int) && a <= buf@.len(),
            None => skip_labels(buf@, at0 as int) is None,
        },
{
    let mut at = at0;
    loop
        invariant
            buf@.len() <= isize::MAX,
            skip_labels(buf@, at as int) == skip_labels(buf@, at0 as int),
        decreases buf@.len() - at,
    {
        if at >= buf.len() {
            return None;
        }
        let len = buf[at];
        if len == 0 {
            return Some(at + 1);
        }
        if len & 0xc0 != 0 {
            return None;
        }
        if len as usize > buf.len() - at - 1 {
            return None;
        }
        at = at + 1 + len as usize;
    }
}

/// Decodes a node status reply. `None` for anything malformed.
pub fn parse_node_status(buf: &[u8]) -> (r: Option<NodeStatus>)
    requires
        buf@.len() <= isize::MAX,
    ensures
        match r {
            Some(s) => spec_parse_node_status(buf@) == Some(s@),
            None => spec_parse_node_status(buf@) is None,
        },
{
    if buf.len() < 12 {
        return None;
    }
    if buf[6] == 0 && buf[7] == 0 {
        return None;
    }
    let at = match skip_name(buf, 12) {
        Some(a) => a,
        None => return None,
    };
    let at = at + 8;
    if at >= buf.len() || at + 1 >= buf.len() {
        return None;
    }
    let rdlength = (buf[at] as usize) * 256 + buf[at + 1] as usize;
    let at = at + 2;
    let end = if rdlength < buf.len() - at { at + rdlength } else { buf.len() };
    if at >= buf.len() {
        return None;
    }
    let count = buf[at] as usize;
    let first = at + 1;
    let mut pos = first;
    let mut names: Vec<NbName> = Vec::new();
    let mut every = true;
    let mut k: usize = 0;
    while every && k < count
        invariant
            buf@.len() <= isize::MAX,
            first <= pos,
            end <= buf@.len(),
            k <= count,
            !every ==> k < count && pos + 18 > end,
            ({
                let whole = entries(buf@, first as int, end as int, count as nat);
                let rest = entries(buf@, pos as int, end as int, (count - k) as nat);
                &&& name_views(names@) + rest.0 == whole.0
                &&& rest.1 == whole.1
                &&& rest.2 == whole.2
            }),
        decreases (count - k) + (if every { 1int } else { 0int }),
    {
        if pos > end || end - pos < 18 {
            every = false;
            proof {
                assert(name_views(names@) + Seq::<NbNameView>::empty() =~= name_views(names@));
            }
            continue;
        }
        let raw = vstd::slice::slice_subrange(buf, pos, pos + 15);
        let decoded = lossy(raw);
        let v = chars_of(decoded.as_str());
        let n = trim_end_len(v.as_slice());
        let ghost before = name_views(names@);
        let suffix = buf[pos + 15];
        let group = buf[pos + 16] >= 0x80;
        if n > 0 {
            let name = string_of(vstd::slice::slice_subrange(v.as_slice(), 0, n));
            names.push(NbName { name, suffix, group });
            proof {
                assert(name_views(names@) =~= before + seq![entry_view(buf@, pos as int)]);
            }
        } else {
            proof {
                assert(entry_name(buf@, pos as int).len() == 0);
            }
        }
        proof {
            let rest = entries(buf@, (pos + 18) as int, end as int, (count - k - 1) as nat);
            assert(((count - k) as nat - 1) as nat == (count - k - 1) as nat);
            if n > 0 {
                assert(before + (seq![entry_view(buf@, pos as int)] + rest.0) =~= (before
                    + seq![entry_view(buf@, pos as int)]) + rest.0);
            } else {
                assert(Seq::<NbNameView>::empty() + rest.0 =~= rest.0);
            }
        }
        pos = pos + 18;
        k += 1;
    }
    proof {
        if every {
            assert(k == count);
            assert(entries(buf@, pos as int, end as int, 0) == (Seq::<NbNameView>::empty(), pos as int, true));
            assert(name_views(names@) + Seq::<NbNameView>::empty() =~= name_views(names@));
        } else {
            assert(name_views(names@) + Seq::<NbNameView>::empty() =~= name_views(names@));
        }
    }
    let mut mac: Option<MacAddr> = None;
    if every && pos <= end && end - pos >= 6 {
        let found = MacAddr([buf[pos], buf[pos + 1], buf[pos + 2], buf[pos + 3], buf[pos + 4], buf[pos + 5]]);
        if !found.is_zero() {
            mac = Some(found);
        }
    }
    Some(NodeStatus { names, mac })
}


/// The hostname is never a group name, and the workgroup never a machine's
/// own: each is the first workstation name of its kind, whatever order the
/// names arrived in.
pub proof fn lemma_first_with_is_of_its_kind(names: Seq<NbNameView>, group: bool, i: int)
    requires
        0 <= i,
    ensures
        first_with(names, group, i) matches Some(n) ==> exists|k: int|
            i <= k < names.len() && (#[trigger] names[k]).name == n && names[k].suffix == 0
                && names[k].group == group && forall|j: int| i <= j < k ==> !(#[trigger] names[j].suffix
                == 0 && names[j].group == group),
    decreases names.len() - i,
{
    if i < names.len() && !(names[i].suffix == 0 && names[i].group == group) {
        lemma_first_with_is_of_its_kind(names, group, i + 1);
        if let Some(n) = first_with(names, group, i) {
            let k = choose|k: int|
                i + 1 <= k < names.len() && (#[trigger] names[k]).name == n && names[k].suffix == 0
                    && names[k].group == group && forall|j: int| i + 1 <= j < k ==> !(
                    #[trigger] names[j].suffix == 0 && names[j].group == group);
            assert(i <= k < names.len() && names[k].name == n && names[k].suffix == 0
                && names[k].group == group && forall|j: int| i <= j < k ==> !(
                #[trigger] names[j].suffix == 0 && names[j].group == group));
        }
    }
}

} // verus!
