//! The DNS wire format, as functions over bytes.
//!
//! One codec serves two questions, because mDNS is DNS on the wire: the
//! differences are the address it is sent to, the absence of a meaningful
//! transaction id, and one bit in the query class.
//!
//! ## Compression pointers
//!
//! A name may end with a pointer to a name earlier in the same message. A
//! pointer that points forwards, or at itself, is a loop, so [`read_name`]
//! counts its jumps and gives up after [`MAX_JUMPS`]; the names it builds are
//! also bounded at 255 bytes.

use vstd::prelude::*;
use vstd::string::*;
use vstd::utf8::*;
use crate::addr::{Ipv4Addr, Ipv6Addr};
use crate::text::{chars_of, decimal, lemma_utf8_len_concat, lemma_utf8_len_dot, push_char, push_decimal, push_str, utf8_len, utf8_len_capped};

verus! {

pub const TYPE_A: u16 = 1;

pub const TYPE_PTR: u16 = 12;

pub const TYPE_TXT: u16 = 16;

pub const TYPE_AAAA: u16 = 28;

pub const TYPE_SRV: u16 = 33;

pub const CLASS_IN: u16 = 1;

/// mDNS: ask the responder to answer to our own port rather than to the
/// multicast group. Set in the top bit of the question's class.
pub const QU_BIT: u16 = 0x8000;

/// The most compression pointers one name may follow before the decoder
/// decides the message is malformed.
pub const MAX_JUMPS: usize = 8;

/// The characters of a byte string decoded as UTF-8, with every malformed
/// sequence replaced by U+FFFD.
pub uninterp spec fn utf8_lossy(b: Seq<u8>) -> Seq<char>;

/// Decodes bytes that are meant to be text. Calls `String::from_utf8_lossy`;
/// the contract claims that the answer depends on the bytes alone and that
/// bytes which are valid UTF-8 decode to the characters they encode. What it
/// does with malformed bytes is left unsaid.
#[verifier::external_body]
pub(crate) fn lossy(b: &[u8]) -> (s: String)
    ensures
        s@ == utf8_lossy(b@),
        valid_utf8(b@) ==> s@ == decode_utf8(b@),
{
    String::from_utf8_lossy(b).into_owned()
}

/// The characters of a label: its UTF-8, and where the bytes are not UTF-8,
/// whatever the lossy decoding makes of them.
pub open spec fn label_text(b: Seq<u8>) -> Seq<char> {
    if valid_utf8(b) {
        decode_utf8(b)
    } else {
        utf8_lossy(b)
    }
}

/// A resource record, decoded far enough to be useful.
#[derive(Clone, Debug, PartialEq, Eq)]
pub struct Record {
    pub name: String,
    pub kind: u16,
    pub class: u16,
    pub ttl: u32,
    pub data: RData,
}

/// The record payloads read here. Everything else is kept as raw bytes.
#[derive(Clone, Debug, PartialEq, Eq)]
pub enum RData {
    /// A `PTR` target. Already decompressed.
    Name(String),
    A(Ipv4Addr),
    Aaaa(Ipv6Addr),
    /// `TXT` strings, each already split on its length byte.
    Txt(Vec<String>),
    /// `SRV`: the port and the target.
    Srv { port: u16, target: String },
    Other(Vec<u8>),
}

/// A decoded message.
#[derive(Clone, Debug, PartialEq, Eq)]
pub struct Message {
    pub id: u16,
    pub flags: u16,
    pub questions: Vec<(String, u16)>,
    pub answers: Vec<Record>,
    /// Authority and additional sections.
    pub extra: Vec<Record>,
}

pub enum RDataView {
    Name(Seq<char>),
    A(Ipv4Addr),
    Aaaa(Ipv6Addr),
    Txt(Seq<Seq<char>>),
    Srv { port: u16, target: Seq<char> },
    Other(Seq<u8>),
}

pub struct RecordView {
    pub name: Seq<char>,
    pub kind: u16,
    pub class: u16,
    pub ttl: u32,
    pub data: RDataView,
}

pub struct MessageView {
    pub id: u16,
    pub flags: u16,
    pub questions: Seq<(Seq<char>, u16)>,
    pub answers: Seq<RecordView>,
    pub extra: Seq<RecordView>,
}

pub open spec fn string_views(v: Seq<String>) -> Seq<Seq<char>> {
    Seq::new(v.len(), |i: int| v[i]@)
}

impl View for RData {
    type V = RDataView;

    open spec fn view(&self) -> RDataView {
        match self {
            RData::Name(n) => RDataView::Name(n@),
            RData::A(a) => RDataView::A(*a),
            RData::Aaaa(a) => RDataView::Aaaa(*a),
            RData::Txt(v) => RDataView::Txt(string_views(v@)),
            RData::Srv { port, target } => RDataView::Srv { port: *port, target: target@ },
            RData::Other(b) => RDataView::Other(b@),
        }
    }
}

impl View for Record {
    type V = RecordView;

    open spec fn view(&self) -> RecordView {
        RecordView {
            name: self.name@,
            kind: self.kind,
            class: self.class,
            ttl: self.ttl,
            data: self.data@,
        }
    }
}

pub open spec fn record_views(v: Seq<Record>) -> Seq<RecordView> {
    Seq::new(v.len(), |i: int| v[i]@)
}

pub open spec fn question_views(v: Seq<(String, u16)>) -> Seq<(Seq<char>, u16)> {
    Seq::new(v.len(), |i: int| (v[i].0@, v[i].1))
}

impl View for Message {
    type V = MessageView;

    open spec fn view(&self) -> MessageView {
        MessageView {
            id: self.id,
            flags: self.flags,
            questions: question_views(self.questions@),
            answers: record_views(self.answers@),
            extra: record_views(self.extra@),
        }
    }
}

// ---- reading ----

/// The big-endian `u16` at `at`, where both bytes are there.
pub open spec fn spec_be16(b: Seq<u8>, at: int) -> Option<u16> {
    if 0 <= at && at + 1 < b.len() {
        Some((b[at] * 256 + b[at + 1]) as u16)
    } else {
        None
    }
}

/// The big-endian `u32` at `at`, where all four bytes are there.
pub open spec fn spec_be32(b: Seq<u8>, at: int) -> Option<u32> {
    if 0 <= at && at + 3 < b.len() {
        Some((b[at] * 16777216 + b[at + 1] * 65536 + b[at + 2] * 256 + b[at + 3]) as u32)
    } else {
        None
    }
}

/// Reading a name from `at`, having taken `jumps` pointers so far and built
/// `out`. `after` is where reading continues in the record once a pointer has
/// been taken; the first pointer fixes it.
///
/// A label is a length byte below 64 and that many bytes, decoded and joined
/// to the name with a dot; a zero length ends the name. A byte with both top
/// bits set is a pointer with fourteen bits of offset. Anything else, a read
/// past the end, a pointer past the end, a ninth pointer, or a name longer
/// than 255 bytes is malformed.
pub open spec fn name_walk(buf: Seq<u8>, at: int, jumps: int, after: Option<int>, out: Seq<char>) -> Option<(Seq<char>, int)>
    decreases MAX_JUMPS - jumps, buf.len() - at,
{
    if at < 0 || at >= buf.len() || jumps < 0 || jumps > MAX_JUMPS {
        None
    } else {
        let len = buf[at];
        if len & 0xc0 == 0 {
            if len == 0 {
                Some(
                    (
                        out,
                        match after {
                            Some(a) => a,
                            None => at + 1,
                        },
                    ),
                )
            } else {
                let start = at + 1;
                let end = start + len;
                if end > buf.len() {
                    None
                } else {
                    let piece = label_text(buf.subrange(start, end));
                    let joined = if out.len() == 0 {
                        piece
                    } else {
                        out + seq!['.'] + piece
                    };
                    if utf8_len(joined) > 255 {
                        None
                    } else {
                        name_walk(buf, end, jumps, after, joined)
                    }
                }
            }
        } else if len & 0xc0 == 0xc0 {
            if jumps + 1 > MAX_JUMPS || at + 1 >= buf.len() {
                None
            } else {
                let target = (len & 0x3f) * 256 + buf[at + 1];
                let after2 = match after {
                    Some(a) => Some(a),
                    None => Some(at + 2),
                };
                if target >= buf.len() {
                    None
                } else {
                    name_walk(buf, target, jumps + 1, after2, out)
                }
            }
        } else {
            None
        }
    }
}

/// The name at `at`, and the offset just past it in the record.
pub open spec fn spec_read_name(buf: Seq<u8>, at: int) -> Option<(Seq<char>, int)> {
    name_walk(buf, at, 0, None, Seq::empty())
}

/// The strings of a `TXT` body from `i`: each a length byte and that many
/// bytes, stopping at a length that runs off the end.
pub open spec fn txt_strings(body: Seq<u8>, i: int) -> Seq<Seq<char>>
    decreases body.len() - i,
{
    if i < 0 || i >= body.len() {
        Seq::empty()
    } else {
        let n = body[i] as int;
        if i + 1 + n > body.len() {
            Seq::empty()
        } else {
            seq![utf8_lossy(body.subrange(i + 1, i + 1 + n))] + txt_strings(body, i + 1 + n)
        }
    }
}

/// The record at `at`, and the offset just past it.
pub open spec fn spec_read_record(buf: Seq<u8>, at: int) -> Option<(RecordView, int)> {
    match spec_read_name(buf, at) {
        None => None,
        Some((name, at)) => {
            if at + 10 > buf.len() {
                None
            } else {
                let kind = spec_be16(buf, at)->0;
                let class = spec_be16(buf, at + 2)->0;
                let ttl = spec_be32(buf, at + 4)->0;
                let len = spec_be16(buf, at + 8)->0 as int;
                let start = at + 10;
                let end = start + len;
                if end > buf.len() {
                    None
                } else {
                    let body = buf.subrange(start, end);
                    let data = if kind == TYPE_PTR {
                        match spec_read_name(buf, start) {
                            None => None,
                            Some((n, _)) => Some(RDataView::Name(n)),
                        }
                    } else if kind == TYPE_A && len == 4 {
                        Some(RDataView::A(Ipv4Addr([body[0], body[1], body[2], body[3]])))
                    } else if kind == TYPE_AAAA && len == 16 {
                        Some(
                            RDataView::Aaaa(
                                Ipv6Addr(
                                    [
                                        body[0],
                                        body[1],
                                        body[2],
                                        body[3],
                                        body[4],
                                        body[5],
                                        body[6],
                                        body[7],
                                        body[8],
                                        body[9],
                                        body[10],
                                        body[11],
                                        body[12],
                                        body[13],
                                        body[14],
                                        body[15],
                                    ],
                                ),
                            ),
                        )
                    } else if kind == TYPE_SRV && len >= 7 {
                        match spec_read_name(buf, start + 6) {
                            None => None,
                            Some((target, _)) => Some(
                                RDataView::Srv { port: spec_be16(buf, start + 4)->0, target },
                            ),
                        }
                    } else if kind == TYPE_TXT {
                        Some(RDataView::Txt(txt_strings(body, 0)))
                    } else {
                        Some(RDataView::Other(body))
                    };
                    match data {
                        None => None,
                        Some(data) => Some((RecordView { name, kind, class, ttl, data }, end)),
                    }
                }
            }
        }
    }
}

/// The first `n` questions from `at`: a name, a type, and a class that is
/// skipped.
pub open spec fn spec_questions(buf: Seq<u8>, at: int, n: nat) -> Option<(Seq<(Seq<char>, u16)>, int)>
    decreases n,
{
    if n == 0 {
        Some((Seq::empty(), at))
    } else {
        match spec_questions(buf, at, (n - 1) as nat) {
            None => None,
            Some((qs, at1)) => match spec_read_name(buf, at1) {
                None => None,
                Some((name, next)) => match spec_be16(buf, next) {
                    None => None,
                    Some(kind) => Some((qs.push((name, kind)), next + 4)),
                },
            },
        }
    }
}

/// The first `n` records from `at`.
pub open spec fn spec_records(buf: Seq<u8>, at: int, n: nat) -> Option<(Seq<RecordView>, int)>
    decreases n,
{
    if n == 0 {
        Some((Seq::empty(), at))
    } else {
        match spec_records(buf, at, (n - 1) as nat) {
            None => None,
            Some((rs, at1)) => match spec_read_record(buf, at1) {
                None => None,
                Some((r, next)) => Some((rs.push(r), next)),
            },
        }
    }
}

/// A whole message: the twelve-byte header, the questions, the answers, and
/// the authority and additional records together.
pub open spec fn spec_parse(buf: Seq<u8>) -> Option<MessageView> {
    if buf.len() < 12 {
        None
    } else {
        let id = spec_be16(buf, 0)->0;
        let flags = spec_be16(buf, 2)->0;
        let c0 = spec_be16(buf, 4)->0;
        let c1 = spec_be16(buf, 6)->0;
        let c2 = spec_be16(buf, 8)->0;
        let c3 = spec_be16(buf, 10)->0;
        match spec_questions(buf, 12, c0 as nat) {
            None => None,
            Some((questions, a0)) => match spec_records(buf, a0, c1 as nat) {
                None => None,
                Some((answers, a1)) => match spec_records(buf, a1, c2 as nat) {
                    None => None,
                    Some((auth, a2)) => match spec_records(buf, a2, c3 as nat) {
                        None => None,
                        Some((add, _)) => Some(
                            MessageView { id, flags, questions, answers, extra: auth + add },
                        ),
                    },
                },
            },
        }
    }
}

pub fn be16(b: &[u8], at: usize) -> (r: Option<u16>)
    ensures
        r == spec_be16(b@, at as int),
{
    if at < b.len() && b.len() - at >= 2 {
        Some((b[at] as u16) * 256 + b[at + 1] as u16)
    } else {
        None
    }
}

pub fn be32(b: &[u8], at: usize) -> (r: Option<u32>)
    ensures
        r == spec_be32(b@, at as int),
{
    if at < b.len() && b.len() - at >= 4 {
        Some(
            (b[at] as u32) * 16777216 + (b[at + 1] as u32) * 65536 + (b[at + 2] as u32) * 256
                + b[at + 3] as u32,
        )
    } else {
        None
    }
}

/// Reads a name, following compression pointers, and returns it with the
/// offset just past the name in the record, which is not where a pointer led.
pub fn read_name(buf: &[u8], at0: usize) -> (r: Option<(String, usize)>)
    requires
        buf@.len() <= isize::MAX,
    ensures
        match r {
            Some((s, next)) => spec_read_name(buf@, at0 as int) == Some((s@, next as int)),
            None => spec_read_name(buf@, at0 as int) is None,
        },
{
    let ghost b = buf@;
    let mut out = String::new();
    let mut jumps: usize = 0;
    let mut after: Option<usize> = None;
    let mut at = at0;
    let mut nbytes: usize = 0;
    loop
        invariant
            b == buf@,
            b.len() <= isize::MAX,
            jumps <= MAX_JUMPS,
            after matches Some(a) ==> a <= b.len() + 1,
            utf8_len(out@) <= 255,
            nbytes == utf8_len(out@),
            spec_read_name(b, at0 as int) == name_walk(
                b,
                at as int,
                jumps as int,
                match after {
                    Some(a) => Some(a as int),
                    None => None,
                },
                out@,
            ),
        decreases MAX_JUMPS - jumps, b.len() - at,
    {
        if at >= buf.len() {
            return None;
        }
        let len = buf[at];
        if len & 0xc0 == 0 {
            if len == 0 {
                let next = match after {
                    Some(a) => a,
                    None => at + 1,
                };
                return Some((out, next));
            }
            let start = at + 1;
            let end = start + len as usize;
            if end > buf.len() {
                return None;
            }
            let piece = lossy(vstd::slice::slice_subrange(buf, start, end));
            assert(piece@ == label_text(b.subrange(start as int, end as int)));
            let pc = chars_of(piece.as_str());
            let pn = utf8_len_capped(pc.as_slice(), 256);
            let first = out.as_str().unicode_len() == 0;
            let ghost old_out = out@;
            if !first {
                push_char(&mut out, '.');
            }
            out.append(piece.as_str());
            proof {
                if first {
                    assert(out@ =~= piece@);
                } else {
                    assert(old_out.push('.') =~= old_out + seq!['.']);
                    assert(out@ =~= old_out + seq!['.'] + piece@);
                    lemma_utf8_len_concat(old_out, seq!['.']);
                    lemma_utf8_len_concat(old_out + seq!['.'], piece@);
                    lemma_utf8_len_dot();
                }
            }
            let n = if first { pn } else { nbytes + 1 + pn };
            if n > 255 {
                return None;
            }
            nbytes = n;
            at = end;
        } else if len & 0xc0 == 0xc0 {
            if jumps + 1 > MAX_JUMPS || at + 1 >= buf.len() {
                return None;
            }
            jumps = jumps + 1;
            let target = ((len & 0x3f) as usize) * 256 + buf[at + 1] as usize;
            if after.is_none() {
                after = Some(at + 2);
            }
            if target >= buf.len() {
                return None;
            }
            at = target;
        } else {
            return None;
        }
    }
}


/// The strings of a `TXT` body.
fn txt(body: &[u8]) -> (v: Vec<String>)
    ensures
        string_views(v@) == txt_strings(body@, 0),
{
    let mut v: Vec<String> = Vec::new();
    let mut i: usize = 0;
    while i < body.len()
        invariant
            i <= body@.len(),
            string_views(v@) + txt_strings(body@, i as int) == txt_strings(body@, 0),
        decreases body@.len() - i,
    {
        let n = body[i] as usize;
        if n > body.len() - i - 1 {
            proof {
                assert(txt_strings(body@, i as int) =~= Seq::<Seq<char>>::empty());
                assert(string_views(v@) + Seq::<Seq<char>>::empty() =~= string_views(v@));
            }
            return v;
        }
        let ghost before = string_views(v@);
        let piece = lossy(vstd::slice::slice_subrange(body, i + 1, i + 1 + n));
        v.push(piece);
        proof {
            assert(string_views(v@) =~= before.push(piece@));
            assert(txt_strings(body@, i as int) =~= seq![piece@] + txt_strings(
                body@,
                (i + 1 + n) as int,
            ));
            assert(before + (seq![piece@] + txt_strings(body@, (i + 1 + n) as int)) =~= before.push(
                piece@,
            ) + txt_strings(body@, (i + 1 + n) as int));
        }
        i = i + 1 + n;
    }
    proof {
        assert(txt_strings(body@, i as int) =~= Seq::<Seq<char>>::empty());
        assert(string_views(v@) + Seq::<Seq<char>>::empty() =~= string_views(v@));
    }
    v
}

/// Reads one resource record.
pub fn read_record(buf: &[u8], at: usize) -> (r: Option<(Record, usize)>)
    requires
        buf@.len() <= isize::MAX,
    ensures
        match r {
            Some((rec, next)) => spec_read_record(buf@, at as int) == Some((rec@, next as int)),
            None => spec_read_record(buf@, at as int) is None,
        },
{
    let (name, at) = match read_name(buf, at) {
        Some(x) => x,
        None => return None,
    };
    if at > buf.len() || buf.len() - at < 10 {
        return None;
    }
    let kind = match be16(buf, at) {
        Some(v) => v,
        None => return None,
    };
    let class = match be16(buf, at + 2) {
        Some(v) => v,
        None => return None,
    };
    let ttl = match be32(buf, at + 4) {
        Some(v) => v,
        None => return None,
    };
    let len = match be16(buf, at + 8) {
        Some(v) => v as usize,
        None => return None,
    };
    let start = at + 10;
    if len > buf.len() - start {
        return None;
    }
    let end = start + len;
    let body = vstd::slice::slice_subrange(buf, start, end);
    let ghost bv = buf@.subrange(start as int, end as int);
    assert(body@ == bv);
    let data = if kind == TYPE_PTR {
        match read_name(buf, start) {
            Some((n, _)) => RData::Name(n),
            None => return None,
        }
    } else if kind == TYPE_A && len == 4 {
        RData::A(Ipv4Addr([body[0], body[1], body[2], body[3]]))
    } else if kind == TYPE_AAAA && len == 16 {
        RData::Aaaa(
            Ipv6Addr(
                [
                    body[0],
                    body[1],
                    body[2],
                    body[3],
                    body[4],
                    body[5],
                    body[6],
                    body[7],
                    body[8],
                    body[9],
                    body[10],
                    body[11],
                    body[12],
                    body[13],
                    body[14],
                    body[15],
                ],
            ),
        )
    } else if kind == TYPE_SRV && len >= 7 {
        let port = match be16(buf, start + 4) {
            Some(p) => p,
            None => return None,
        };
        match read_name(buf, start + 6) {
            Some((target, _)) => RData::Srv { port, target },
            None => return None,
        }
    } else if kind == TYPE_TXT {
        RData::Txt(txt(body))
    } else {
        RData::Other(vstd::slice::slice_to_vec(body))
    };
    Some((Record { name, kind, class, ttl, data }, end))
}

/// Reads `n` records from `at`.
fn read_records(buf: &[u8], at: usize, n: u16) -> (r: Option<(Vec<Record>, usize)>)
    requires
        buf@.len() <= isize::MAX,
    ensures
        match r {
            Some((rs, next)) => spec_records(buf@, at as int, n as nat) == Some(
                (record_views(rs@), next as int),
            ),
            None => spec_records(buf@, at as int, n as nat) is None,
        },
{
    let mut rs: Vec<Record> = Vec::new();
    let mut pos = at;
    let mut k: u16 = 0;
    while k < n
        invariant
            buf@.len() <= isize::MAX,
            k <= n,
            spec_records(buf@, at as int, k as nat) == Some((record_views(rs@), pos as int)),
        decreases n - k,
    {
        let ghost before = record_views(rs@);
        match read_record(buf, pos) {
            None => {
                proof {
                    lemma_records_fail(buf@, at as int, (k + 1) as nat, n as nat);
                }
                return None;
            },
            Some((rec, next)) => {
                rs.push(rec);
                pos = next;
                proof {
                    assert(record_views(rs@) =~= before.push(rec@));
                }
            },
        }
        k += 1;
    }
    Some((rs, pos))
}

/// Once `spec_records` fails for some count it fails for every larger one.
proof fn lemma_records_fail(buf: Seq<u8>, at: int, k: nat, n: nat)
    requires
        k <= n,
        spec_records(buf, at, k) is None,
    ensures
        spec_records(buf, at, n) is None,
    decreases n - k,
{
    if k < n {
        lemma_records_fail(buf, at, k + 1, n);
    }
}

proof fn lemma_questions_fail(buf: Seq<u8>, at: int, k: nat, n: nat)
    requires
        k <= n,
        spec_questions(buf, at, k) is None,
    ensures
        spec_questions(buf, at, n) is None,
    decreases n - k,
{
    if k < n {
        lemma_questions_fail(buf, at, k + 1, n);
    }
}

/// Decodes a message. `None` for anything malformed rather than a guess,
/// because the alternative is a device name invented out of a truncated
/// packet.
pub fn parse(buf: &[u8]) -> (r: Option<Message>)
    requires
        buf@.len() <= isize::MAX,
    ensures
        match r {
            Some(m) => spec_parse(buf@) == Some(m@),
            None => spec_parse(buf@) is None,
        },
{
    if buf.len() < 12 {
        return None;
    }
    let id = match be16(buf, 0) {
        Some(v) => v,
        None => return None,
    };
    let flags = match be16(buf, 2) {
        Some(v) => v,
        None => return None,
    };
    let c0 = match be16(buf, 4) {
        Some(v) => v,
        None => return None,
    };
    let c1 = match be16(buf, 6) {
        Some(v) => v,
        None => return None,
    };
    let c2 = match be16(buf, 8) {
        Some(v) => v,
        None => return None,
    };
    let c3 = match be16(buf, 10) {
        Some(v) => v,
        None => return None,
    };
    let mut questions: Vec<(String, u16)> = Vec::new();
    let mut at: usize = 12;
    let mut k: u16 = 0;
    while k < c0
        invariant
            buf@.len() <= isize::MAX,
            k <= c0,
            buf@.len() >= 12,
            c0 == spec_be16(buf@, 4)->0,
            spec_questions(buf@, 12, k as nat) == Some((question_views(questions@), at as int)),
        decreases c0 - k,
    {
        let ghost before = question_views(questions@);
        let (name, next) = match read_name(buf, at) {
            Some(x) => x,
            None => {
                proof {
                    let k1 = (k + 1) as nat;
                    assert((k1 - 1) as nat == k as nat);
                    assert(spec_questions(buf@, 12, k1) is None);
                    lemma_questions_fail(buf@, 12, k1, c0 as nat);
                }
                return None;
            },
        };
        let kind = match be16(buf, next) {
            Some(v) => v,
            None => {
                proof {
                    let k1 = (k + 1) as nat;
                    assert((k1 - 1) as nat == k as nat);
                    assert(spec_questions(buf@, 12, k1) is None);
                    lemma_questions_fail(buf@, 12, k1, c0 as nat);
                }
                return None;
            },
        };
        let ghost nm = name@;
        questions.push((name, kind));
        proof {
            assert(question_views(questions@) =~= before.push((nm, kind)));
        }
        at = next + 4;
        k += 1;
    }
    let (answers, a1) = match read_records(buf, at, c1) {
        Some(x) => x,
        None => return None,
    };
    let (mut extra, a2) = match read_records(buf, a1, c2) {
        Some(x) => x,
        None => return None,
    };
    let (mut add, _) = match read_records(buf, a2, c3) {
        Some(x) => x,
        None => return None,
    };
    let ghost auth_v = record_views(extra@);
    let ghost add_v = record_views(add@);
    extra.append(&mut add);
    proof {
        assert(record_views(extra@) =~= auth_v + add_v);
    }
    Some(Message { id, flags, questions, answers, extra })
}


// ---- writing ----

/// `s` cut at every `sep`, separators dropped.
pub open spec fn split_bytes(s: Seq<u8>, sep: u8) -> Seq<Seq<u8>>
    decreases s.len(),
{
    if s.len() == 0 {
        seq![Seq::<u8>::empty()]
    } else {
        let r = split_bytes(s.drop_last(), sep);
        if s.last() == sep {
            r.push(Seq::<u8>::empty())
        } else {
            r.update(r.len() - 1, r.last().push(s.last()))
        }
    }
}

proof fn lemma_split_bytes_nonempty(s: Seq<u8>, sep: u8)
    ensures
        split_bytes(s, sep).len() >= 1,
    decreases s.len(),
{
    if s.len() > 0 {
        lemma_split_bytes_nonempty(s.drop_last(), sep);
    }
}

/// One label on the wire: a length byte and at most 63 bytes. An empty label
/// is left out, because a name may not hold one.
pub open spec fn label_wire(l: Seq<u8>) -> Seq<u8> {
    if l.len() == 0 {
        Seq::empty()
    } else {
        let n = if l.len() < 63 {
            l.len() as int
        } else {
            63
        };
        seq![n as u8] + l.take(n)
    }
}

pub open spec fn labels_wire(ls: Seq<Seq<u8>>) -> Seq<u8>
    decreases ls.len(),
{
    if ls.len() == 0 {
        Seq::empty()
    } else {
        labels_wire(ls.drop_last()) + label_wire(ls.last())
    }
}

/// A name on the wire: its dot-separated labels, then the zero byte.
pub open spec fn name_wire(name: Seq<u8>) -> Seq<u8> {
    labels_wire(split_bytes(name, 46)).push(0)
}

pub open spec fn be16_bytes(v: u16) -> Seq<u8> {
    seq![(v / 256) as u8, (v % 256) as u8]
}

/// A query for one name and type: the id, a standard query with recursion
/// desired, one question and no records, then the question.
pub open spec fn spec_query(id: u16, name: Seq<u8>, kind: u16, unicast: bool) -> Seq<u8> {
    let class: u16 = if unicast {
        0x8001
    } else {
        1
    };
    be16_bytes(id) + seq![1u8, 0u8, 0u8, 1u8, 0u8, 0u8, 0u8, 0u8, 0u8, 0u8] + name_wire(name)
        + be16_bytes(kind) + be16_bytes(class)
}

fn push_be16(out: &mut Vec<u8>, v: u16)
    ensures
        final(out)@ == old(out)@ + be16_bytes(v),
{
    out.push((v / 256) as u8);
    out.push((v % 256) as u8);
    proof {
        assert(final(out)@ =~= old(out)@ + be16_bytes(v));
    }
}

/// Writes `name` as labels. A label longer than 63 bytes is cut to 63 rather
/// than refused: a slightly wrong question gets no answer, where a failure
/// would take the scan down.
pub fn write_name(out: &mut Vec<u8>, name: &str)
    ensures
        final(out)@ == old(out)@ + name_wire(name.spec_bytes()),
{
    let b = name.as_bytes();
    let ghost start = out@;
    let ghost mut done: Seq<Seq<u8>> = Seq::empty();
    let mut from: usize = 0;
    let mut i: usize = 0;
    proof {
        assert(b@.take(0) =~= Seq::<u8>::empty());
        assert(done.push(b@.subrange(0, 0)) =~= seq![Seq::<u8>::empty()]);
    }
    while i < b.len()
        invariant
            from <= i <= b@.len(),
            split_bytes(b@.take(i as int), 46) == done.push(b@.subrange(from as int, i as int)),
            out@ == start + labels_wire(done),
        decreases b@.len() - i,
    {
        proof {
            lemma_split_bytes_nonempty(b@.take(i as int), 46);
            assert(b@.take(i + 1).drop_last() =~= b@.take(i as int));
        }
        if b[i] == 46 {
            let n = i - from;
            let ghost label = b@.subrange(from as int, i as int);
            if n > 0 {
                let m = if n < 63 { n } else { 63 };
                out.push(m as u8);
                let mut j: usize = 0;
                let ghost before = out@;
                while j < m
                    invariant
                        j <= m,
                        m <= n,
                        n == i - from,
                        from <= i <= b@.len(),
                        out@ == before + b@.subrange(from as int, (from + j) as int),
                    decreases m - j,
                {
                    out.push(b[from + j]);
                    j += 1;
                    proof {
                        assert(out@ =~= before + b@.subrange(from as int, (from + j) as int));
                    }
                }
                proof {
                    assert(b@.subrange(from as int, (from + m) as int) =~= label.take(m as int));
                }
            }
            proof {
                assert(out@ =~= start + labels_wire(done) + label_wire(label));
                assert(done.push(label).drop_last() =~= done);
                done = done.push(label);
                assert(b@.subrange((i + 1) as int, (i + 1) as int) =~= Seq::<u8>::empty());
                assert(split_bytes(b@.take(i + 1), 46) =~= done.push(
                    b@.subrange((i + 1) as int, (i + 1) as int),
                ));
            }
            from = i + 1;
        } else {
            proof {
                let r = done.push(b@.subrange(from as int, i as int));
                assert(b@.subrange(from as int, i as int).push(b@[i as int]) =~= b@.subrange(
                    from as int,
                    (i + 1) as int,
                ));
                assert(r.update(r.len() - 1, r.last().push(b@[i as int])) =~= done.push(
                    b@.subrange(from as int, (i + 1) as int),
                ));
            }
        }
        i += 1;
    }
    let n = i - from;
    let ghost label = b@.subrange(from as int, i as int);
    if n > 0 {
        let m = if n < 63 { n } else { 63 };
        out.push(m as u8);
        let mut j: usize = 0;
        let ghost before = out@;
        while j < m
            invariant
                j <= m,
                m <= n,
                n == i - from,
                from <= i <= b@.len(),
                out@ == before + b@.subrange(from as int, (from + j) as int),
            decreases m - j,
        {
            out.push(b[from + j]);
            j += 1;
            proof {
                assert(out@ =~= before + b@.subrange(from as int, (from + j) as int));
            }
        }
        proof {
            assert(b@.subrange(from as int, (from + m) as int) =~= label.take(m as int));
        }
    }
    proof {
        assert(b@.take(b@.len() as int) =~= b@);
        assert(done.push(label).drop_last() =~= done);
        assert(out@ =~= start + labels_wire(done.push(label)));
    }
    out.push(0);
    proof {
        assert(final(out)@ =~= old(out)@ + name_wire(name.spec_bytes()));
    }
}

/// Builds a query for one name and type.
///
/// `unicast` sets the mDNS QU bit; it must be false for ordinary DNS, where
/// that bit is part of the class and setting it asks for class 32769.
pub fn query(id: u16, name: &str, kind: u16, unicast: bool) -> (q: Vec<u8>)
    ensures
        q@ == spec_query(id, name.spec_bytes(), kind, unicast),
{
    let mut out: Vec<u8> = Vec::new();
    push_be16(&mut out, id);
    push_be16(&mut out, 0x0100);
    push_be16(&mut out, 1);
    out.push(0);
    out.push(0);
    out.push(0);
    out.push(0);
    out.push(0);
    out.push(0);
    let ghost head = out@;
    write_name(&mut out, name);
    push_be16(&mut out, kind);
    let class: u16 = if unicast { CLASS_IN | QU_BIT } else { CLASS_IN };
    assert(class == (if unicast { 0x8001u16 } else { 1u16 })) by (bit_vector)
        requires
            class == (if unicast { 1u16 | 0x8000u16 } else { 1u16 }),
    ;
    push_be16(&mut out, class);
    proof {
        assert(head =~= be16_bytes(id) + seq![1u8, 0u8, 0u8, 1u8, 0u8, 0u8, 0u8, 0u8, 0u8, 0u8]);
        assert(out@ =~= spec_query(id, name.spec_bytes(), kind, unicast));
    }
    out
}

/// The `in-addr.arpa` name for a reverse lookup: `192.168.0.1` becomes
/// `1.0.168.192.in-addr.arpa`.
pub fn reverse_name(addr: Ipv4Addr) -> (s: String)
    ensures
        s@ == decimal(addr.0[3] as nat) + seq!['.'] + decimal(addr.0[2] as nat) + seq!['.']
            + decimal(addr.0[1] as nat) + seq!['.'] + decimal(addr.0[0] as nat)
            + ".in-addr.arpa"@,
{
    let o = addr.octets();
    let mut s = String::new();
    push_decimal(&mut s, o[3] as u64);
    push_char(&mut s, '.');
    push_decimal(&mut s, o[2] as u64);
    push_char(&mut s, '.');
    push_decimal(&mut s, o[1] as u64);
    push_char(&mut s, '.');
    push_decimal(&mut s, o[0] as u64);
    push_str(&mut s, ".in-addr.arpa");
    proof {
        assert(s@ =~= decimal(addr.0[3] as nat) + seq!['.'] + decimal(addr.0[2] as nat) + seq![
            '.',
        ] + decimal(addr.0[1] as nat) + seq!['.'] + decimal(addr.0[0] as nat)
            + ".in-addr.arpa"@);
    }
    s
}

/// The target of a `PTR` record, where it is one.
pub open spec fn ptr_of(r: RecordView) -> Option<Seq<char>> {
    match r.data {
        RDataView::Name(n) => if r.kind == TYPE_PTR {
            Some(n)
        } else {
            None
        },
        _ => None,
    }
}

/// The first `PTR` target among `rs` from `i` on.
pub open spec fn first_ptr_from(rs: Seq<RecordView>, i: int) -> Option<Seq<char>>
    decreases rs.len() - i,
{
    if i < 0 || i >= rs.len() {
        None
    } else {
        match ptr_of(rs[i]) {
            Some(n) => Some(n),
            None => first_ptr_from(rs, i + 1),
        }
    }
}

impl Message {
    /// Every record in the message, wherever it was filed: the answers, then
    /// the authority and additional records.
    pub open spec fn all_records(self) -> Seq<RecordView> {
        self@.answers + self@.extra
    }

    /// Every record, answers first.
    pub fn records(&self) -> (r: Vec<&Record>)
        ensures
            r@.len() == self.answers@.len() + self.extra@.len(),
            forall|i: int| 0 <= i < r@.len() ==> #[trigger] r@[i]@ == self.all_records()[i],
    {
        let mut r: Vec<&Record> = Vec::new();
        let mut i: usize = 0;
        while i < self.answers.len()
            invariant
                i <= self.answers@.len(),
                r@.len() == i,
                forall|k: int| 0 <= k < i ==> #[trigger] r@[k]@ == self.answers@[k]@,
            decreases self.answers@.len() - i,
        {
            r.push(&self.answers[i]);
            i += 1;
        }
        let mut j: usize = 0;
        while j < self.extra.len()
            invariant
                j <= self.extra@.len(),
                r@.len() == self.answers@.len() + j,
                forall|k: int| 0 <= k < self.answers@.len() ==> #[trigger] r@[k]@ == self.answers@[k]@,
                forall|k: int| 0 <= k < j ==> #[trigger] r@[self.answers@.len() + k]@ == self.extra@[k]@,
            decreases self.extra@.len() - j,
        {
            r.push(&self.extra[j]);
            j += 1;
        }
        proof {
            assert forall|i: int| 0 <= i < r@.len() implies #[trigger] r@[i]@ == self.all_records()[i] by {
                if i < self.answers@.len() {
                } else {
                    let k = i - self.answers@.len();
                    assert(r@[self.answers@.len() + k]@ == self.extra@[k]@);
                }
            }
        }
        r
    }

    /// The first `PTR` target, which is the answer to a reverse lookup.
    pub fn first_ptr(&self) -> (r: Option<&str>)
        ensures
            match first_ptr_from(self.all_records(), 0) {
                Some(n) => r is Some && r->0@ == n,
                None => r is None,
            },
    {
        let rs = self.records();
        let mut i: usize = 0;
        while i < rs.len()
            invariant
                i <= rs@.len(),
                rs@.len() == self.all_records().len(),
                forall|k: int| 0 <= k < rs@.len() ==> #[trigger] rs@[k]@ == self.all_records()[k],
                first_ptr_from(self.all_records(), i as int) == first_ptr_from(self.all_records(), 0),
            decreases rs@.len() - i,
        {
            let rec: &Record = rs[i];
            assert(rec@ == self.all_records()[i as int]);
            match &rec.data {
                RData::Name(n) => {
                    if rec.kind == TYPE_PTR {
                        return Some(n.as_str());
                    }
                },
                _ => {},
            }
            i += 1;
        }
        None
    }
}


// ---- a query read back ----

/// A name a query can carry whole: at most 255 bytes in UTF-8, and every
/// dot-separated label between one and 63 bytes.
pub open spec fn plain_name(name: Seq<char>) -> bool {
    &&& encode_utf8(name).len() <= 255
    &&& plain_labels(name)
}

/// Every dot-separated label of `t` takes between one and 63 bytes in UTF-8.
pub open spec fn plain_labels(t: Seq<char>) -> bool {
    forall|k: int|
        0 <= k < crate::text::split(t, '.').len() ==> 1 <= encode_utf8(
            #[trigger] crate::text::split(t, '.')[k],
        ).len() <= 63
}

/// The UTF-8 of two texts one after the other is their UTF-8 one after the
/// other.
proof fn lemma_encode_concat(a: Seq<char>, b: Seq<char>)
    ensures
        encode_utf8(a + b) == encode_utf8(a) + encode_utf8(b),
    decreases a.len(),
{
    if a.len() == 0 {
        assert(a + b =~= b);
        assert(encode_utf8(a) + encode_utf8(b) =~= encode_utf8(b));
    } else {
        lemma_encode_concat(a.drop_first(), b);
        assert((a + b).drop_first() =~= a.drop_first() + b);
        assert((a + b)[0] == a[0]);
        assert(encode_utf8(a + b) =~= encode_utf8(a) + encode_utf8(b));
    }
}

/// A character added at the end adds its own encoding at the end.
proof fn lemma_encode_push(a: Seq<char>, c: char)
    ensures
        encode_utf8(a.push(c)) == encode_utf8(a) + encode_scalar(c as u32),
{
    lemma_encode_concat(a, seq![c]);
    assert(a.push(c) =~= a + seq![c]);
    assert(seq![c].drop_first() =~= Seq::<char>::empty());
    assert(encode_utf8(Seq::<char>::empty()) =~= Seq::<u8>::empty());
    assert(encode_utf8(seq![c]) =~= encode_scalar(c as u32));
}

proof fn lemma_high_bytes(x: u8)
    by (bit_vector)
    ensures
        (0x80u8 | x) != 46u8,
        (0xC0u8 | x) != 46u8,
        (0xE0u8 | x) != 46u8,
        (0xF0u8 | x) != 46u8,
{
}

proof fn lemma_low_byte(v: u32)
    by (bit_vector)
    requires
        v <= 0x7f,
    ensures
        ((v & 0x7F) as u8) as u32 == v,
{
}

/// One character in UTF-8: as many bytes as its width, and the dot byte
/// only for a dot, and then alone.
proof fn lemma_scalar_bytes(c: char)
    ensures
        encode_scalar(c as u32).len() == crate::text::char_width(c),
        c == '.' ==> encode_scalar(c as u32) == seq![46u8],
        c != '.' ==> forall|i: int|
            0 <= i < encode_scalar(c as u32).len() ==> #[trigger] encode_scalar(c as u32)[i] != 46u8,
{
    char_is_scalar(c);
    let v = c as u32;
    char_u32_cast(c, v);
    if has_width_1_encoding(v) {
        lemma_low_byte(v);
        if v == 46 {
            assert(c == '.');
        }
    } else if has_width_2_encoding(v) {
        lemma_high_bytes(((v >> 6) & 0x1F) as u8);
        lemma_high_bytes((v & 0x3F) as u8);
    } else if has_width_3_encoding(v) {
        lemma_high_bytes(((v >> 12) & 0x0F) as u8);
        lemma_high_bytes(((v >> 6) & 0x3F) as u8);
        lemma_high_bytes((v & 0x3F) as u8);
    } else {
        lemma_high_bytes(((v >> 18) & 0x7) as u8);
        lemma_high_bytes(((v >> 12) & 0x3F) as u8);
        lemma_high_bytes(((v >> 6) & 0x3F) as u8);
        lemma_high_bytes((v & 0x3F) as u8);
    }
}

/// The UTF-8 of text takes as many bytes as its characters' widths add to.
proof fn lemma_encode_len(cs: Seq<char>)
    ensures
        encode_utf8(cs).len() == utf8_len(cs),
    decreases cs.len(),
{
    if cs.len() > 0 {
        let d = cs.drop_last();
        lemma_encode_len(d);
        assert(d.push(cs.last()) =~= cs);
        lemma_encode_push(d, cs.last());
        lemma_scalar_bytes(cs.last());
    }
}

/// Bytes that hold no separator lengthen the last piece.
proof fn lemma_split_bytes_extend(s: Seq<u8>, t: Seq<u8>, sep: u8)
    requires
        forall|i: int| 0 <= i < t.len() ==> t[i] != sep,
    ensures
        split_bytes(s + t, sep) == split_bytes(s, sep).update(
            split_bytes(s, sep).len() - 1,
            split_bytes(s, sep).last() + t,
        ),
    decreases t.len(),
{
    let r = split_bytes(s, sep);
    lemma_split_bytes_nonempty(s, sep);
    if t.len() == 0 {
        assert(s + t =~= s);
        assert(r.last() + t =~= r.last());
        assert(r.update(r.len() - 1, r.last() + t) =~= r);
    } else {
        let u = t.drop_last();
        lemma_split_bytes_extend(s, u, sep);
        assert((s + t).drop_last() =~= s + u);
        assert((s + t).last() == t[t.len() - 1]);
        let ru = split_bytes(s + u, sep);
        assert((r.last() + u).push(t.last()) =~= r.last() + t);
        assert(ru.update(ru.len() - 1, ru.last().push(t.last())) =~= r.update(
            r.len() - 1,
            r.last() + t,
        ));
    }
}

/// Cutting the UTF-8 of text at dot bytes cuts the text at dots.
proof fn lemma_split_utf8(cs: Seq<char>)
    ensures
        split_bytes(encode_utf8(cs), 46) == Seq::new(
            crate::text::split(cs, '.').len(),
            |j: int| encode_utf8(crate::text::split(cs, '.')[j]),
        ),
    decreases cs.len(),
{
    let b = encode_utf8(cs);
    let r = crate::text::split(cs, '.');
    if cs.len() == 0 {
        assert(encode_utf8(Seq::<char>::empty()) =~= Seq::<u8>::empty());
        assert(split_bytes(b, 46) =~= Seq::new(r.len(), |j: int| encode_utf8(r[j])));
    } else {
        let d = cs.drop_last();
        let c = cs.last();
        lemma_split_utf8(d);
        crate::text::lemma_split_nonempty(d, '.');
        lemma_split_bytes_nonempty(encode_utf8(d), 46);
        assert(d.push(c) =~= cs);
        lemma_encode_push(d, c);
        lemma_scalar_bytes(c);
        let rd = crate::text::split(d, '.');
        let bd = split_bytes(encode_utf8(d), 46);
        let e = encode_scalar(c as u32);
        assert(b == encode_utf8(d) + e);
        if c == '.' {
            assert(b =~= encode_utf8(d).push(46u8));
            assert(b.drop_last() =~= encode_utf8(d));
            assert(split_bytes(b, 46) == bd.push(Seq::<u8>::empty()));
            assert(r == rd.push(Seq::<char>::empty()));
            assert(encode_utf8(Seq::<char>::empty()) =~= Seq::<u8>::empty());
            assert(split_bytes(b, 46) =~= Seq::new(r.len(), |j: int| encode_utf8(r[j])));
        } else {
            lemma_split_bytes_extend(encode_utf8(d), e, 46);
            assert(r == rd.update(rd.len() - 1, rd.last().push(c)));
            lemma_encode_push(rd.last(), c);
            assert(bd.last() == encode_utf8(rd.last()));
            assert(split_bytes(b, 46) =~= Seq::new(r.len(), |j: int| encode_utf8(r[j])));
        }
    }
}

/// The labels written front first.
proof fn lemma_labels_wire_front(ls: Seq<Seq<u8>>)
    requires
        ls.len() >= 1,
    ensures
        labels_wire(ls) == label_wire(ls[0]) + labels_wire(ls.skip(1)),
    decreases ls.len(),
{
    if ls.len() == 1 {
        assert(ls.skip(1) =~= Seq::<Seq<u8>>::empty());
        assert(ls.drop_last() =~= Seq::<Seq<u8>>::empty());
        assert(labels_wire(ls) == labels_wire(ls.drop_last()) + label_wire(ls.last()));
        assert(labels_wire(ls) =~= label_wire(ls[0]) + labels_wire(ls.skip(1)));
    } else {
        let d = ls.drop_last();
        lemma_labels_wire_front(d);
        assert(d.skip(1) =~= ls.skip(1).drop_last());
        assert(ls.skip(1).last() == ls.last());
        assert(labels_wire(ls.skip(1)) == labels_wire(ls.skip(1).drop_last()) + label_wire(ls.skip(1).last()));
        assert(labels_wire(ls) =~= label_wire(ls[0]) + labels_wire(ls.skip(1)));
    }
}


/// Reading the labels of a name written by [`write_name`] gives the name
/// back, joined to what was read before it.
#[verifier::rlimit(60)]
proof fn lemma_walk(buf: Seq<u8>, at: int, t: Seq<char>, out: Seq<char>)
    requires
        plain_labels(t),
        0 <= at,
        at + name_wire(encode_utf8(t)).len() <= buf.len(),
        buf.subrange(at, at + name_wire(encode_utf8(t)).len()) == name_wire(encode_utf8(t)),
        (if out.len() == 0 { utf8_len(t) } else { utf8_len(out) + 1 + utf8_len(t) }) <= 255,
    ensures
        name_walk(buf, at, 0, None, out) == Some(
            (
                (if out.len() == 0 { t } else { out + seq!['.'] + t }),
                at + name_wire(encode_utf8(t)).len(),
            ),
        ),
    decreases t.len(),
{
    let ls = crate::text::split(t, '.');
    lemma_split_utf8(t);
    crate::text::lemma_split_nonempty(t, '.');
    let bl = Seq::new(ls.len(), |j: int| encode_utf8(ls[j]));
    assert(split_bytes(encode_utf8(t), 46) == bl);
    let w = name_wire(encode_utf8(t));
    assert(w == labels_wire(bl).push(0));
    lemma_labels_wire_front(bl);
    let is_dot = |j: int| t[j] == '.';
    let fd = crate::search::first_index(t.len() as int, is_dot);
    crate::search::lemma_first_index(t.len() as int, is_dot);
    let (rest, k): (Seq<char>, int) = match fd {
        Some(k) => (t.skip(k + 1), k),
        None => (Seq::<char>::empty(), t.len() as int),
    };
    let l = t.take(k);
    assert forall|j: int| 0 <= j < l.len() implies l[j] != '.' by {
        assert(l[j] == t[j]);
        assert(!is_dot(j));
    }
    crate::text::lemma_split_whole(l, '.');
    lemma_utf8_len_dot();
    if fd is Some {
        assert(t =~= l + seq!['.'] + rest);
        crate::text::lemma_split_join(l, rest, '.');
        assert(ls == seq![l] + crate::text::split(rest, '.'));
        lemma_utf8_len_concat(l, seq!['.']);
        lemma_utf8_len_concat(l + seq!['.'], rest);
        lemma_encode_len(rest);
    } else {
        assert(l =~= t);
        assert(ls == seq![l]);
    }
    assert(ls[0] == l);
    let lb = encode_utf8(l);
    let n0 = lb.len() as int;
    assert(1 <= n0 <= 63);
    assert(l.len() > 0) by {
        if l.len() == 0 {
            assert(encode_utf8(l) =~= Seq::<u8>::empty());
        }
    }
    encode_utf8_valid_utf8(l);
    encode_utf8_decode_utf8(l);
    assert(label_text(lb) == l);
    let rb = bl.skip(1);
    let lw = label_wire(lb);
    assert(lw =~= seq![n0 as u8] + lb) by {
        assert(lb.take(n0) =~= lb);
    }
    let tail = labels_wire(rb).push(0);
    assert(w =~= lw + tail);
    assert(lw.len() == 1 + n0);
    assert forall|j: int| 0 <= j < w.len() implies #[trigger] buf[at + j] == w[j] by {
        assert(buf[at + j] == buf.subrange(at, at + w.len())[j]);
    }
    let len = buf[at];
    assert(len == n0 as u8) by {
        assert(buf[at + 0] == w[0]);
    }
    assert(len & 0xc0 == 0) by (bit_vector)
        requires
            len < 64,
    ;
    let st = at + 1;
    let en = st + n0;
    assert(buf.subrange(st, en) =~= lb) by {
        assert forall|j: int| 0 <= j < n0 implies buf.subrange(st, en)[j] == lb[j] by {
            assert(buf[at + 1 + j] == w[1 + j]);
        }
    }
    let joined = if out.len() == 0 { l } else { out + seq!['.'] + l };
    if out.len() > 0 {
        lemma_utf8_len_concat(out, seq!['.']);
        lemma_utf8_len_concat(out + seq!['.'], l);
    }
    assert(utf8_len(joined) <= 255);
    assert(joined.len() > 0);
    assert(name_walk(buf, at, 0, None, out) == name_walk(buf, en, 0, None, joined));
    match fd {
        None => {
            assert(rb =~= Seq::<Seq<u8>>::empty());
            assert(tail =~= seq![0u8]);
            assert(buf[en] == 0) by {
                assert(buf[at + (1 + n0)] == w[1 + n0]);
            }
            assert((0u8 & 0xc0u8) == 0u8) by (bit_vector);
            assert(name_walk(buf, en, 0, None, joined) == Some((joined, en + 1)));
        },
        Some(kk) => {
            let rs = crate::text::split(rest, '.');
            lemma_split_utf8(rest);
            assert(rb =~= Seq::new(rs.len(), |j: int| encode_utf8(rs[j]))) by {
                assert forall|j: int| 0 <= j < rs.len() implies rb[j] == encode_utf8(rs[j]) by {
                    assert(ls[j + 1] == rs[j]);
                }
            }
            assert(name_wire(encode_utf8(rest)) == tail);
            assert forall|j: int| 0 <= j < rs.len() implies 1 <= encode_utf8(#[trigger] rs[j]).len() <= 63 by {
                assert(ls[j + 1] == rs[j]);
            }
            assert(buf.subrange(en, en + tail.len()) =~= tail) by {
                assert forall|j: int| 0 <= j < tail.len() implies buf.subrange(en, en + tail.len())[j] == tail[j] by {
                    assert(buf[at + (1 + n0 + j)] == w[1 + n0 + j]);
                }
            }
            lemma_walk(buf, en, rest, joined);
            if out.len() == 0 {
                assert(joined + seq!['.'] + rest =~= t);
            } else {
                assert(joined + seq!['.'] + rest =~= out + seq!['.'] + t);
            }
        },
    }
}

/// A query reads back as itself: parsing what [`query`] writes for a name
/// of at most 255 bytes whose labels each take one to 63 bytes gives its
/// id, a standard query, the one question it asked, and no records.
pub proof fn lemma_query_round_trip(id: u16, name: Seq<char>, kind: u16, unicast: bool)
    requires
        plain_name(name),
    ensures
        spec_parse(spec_query(id, encode_utf8(name), kind, unicast)) == Some(
            MessageView {
                id,
                flags: 0x0100,
                questions: seq![(name, kind)],
                answers: Seq::empty(),
                extra: Seq::empty(),
            },
        ),
{
    lemma_encode_len(name);
    let w = name_wire(encode_utf8(name));
    let class: u16 = if unicast { 0x8001 } else { 1 };
    let q = spec_query(id, encode_utf8(name), kind, unicast);
    let head = be16_bytes(id) + seq![1u8, 0u8, 0u8, 1u8, 0u8, 0u8, 0u8, 0u8, 0u8, 0u8];
    assert(q == head + w + be16_bytes(kind) + be16_bytes(class));
    assert(head.len() == 12);
    let e = 12 + w.len() as int;
    assert(q.len() == e + 4);
    assert(q.subrange(12, e) =~= w);
    lemma_walk(q, 12, name, Seq::empty());
    assert(spec_read_name(q, 12) == Some((name, e)));
    assert(q[0] == (id / 256) as u8 && q[1] == (id % 256) as u8);
    assert(spec_be16(q, 0) == Some(id));
    assert(spec_be16(q, 2) == Some(0x0100u16));
    assert(spec_be16(q, 4) == Some(1u16));
    assert(spec_be16(q, 6) == Some(0u16));
    assert(spec_be16(q, 8) == Some(0u16));
    assert(spec_be16(q, 10) == Some(0u16));
    assert(q[e] == (kind / 256) as u8 && q[e + 1] == (kind % 256) as u8);
    assert(spec_be16(q, e) == Some(kind));
    assert(spec_questions(q, 12, 0) == Some((Seq::<(Seq<char>, u16)>::empty(), 12int)));
    assert(spec_questions(q, 12, 1) == Some((seq![(name, kind)], e + 4)));
    assert(Seq::<RecordView>::empty() + Seq::<RecordView>::empty() =~= Seq::<RecordView>::empty());
}


proof fn lemma_questions_len(buf: Seq<u8>, at: int, n: nat)
    ensures
        spec_questions(buf, at, n) matches Some((qs, _)) ==> qs.len() == n,
    decreases n,
{
    if n > 0 {
        lemma_questions_len(buf, at, (n - 1) as nat);
    }
}

proof fn lemma_records_len(buf: Seq<u8>, at: int, n: nat)
    ensures
        spec_records(buf, at, n) matches Some((rs, _)) ==> rs.len() == n,
    decreases n,
{
    if n > 0 {
        lemma_records_len(buf, at, (n - 1) as nat);
    }
}

/// Every section of a message that parses is read whole: the header's id
/// and flags are kept, there are as many questions and answers as the
/// header counts, and the extra records are all the authority records and
/// all the additional ones, which mDNS fills with what is worth having.
pub proof fn lemma_every_section_is_read(buf: Seq<u8>)
    ensures
        spec_parse(buf) matches Some(m) ==> {
            &&& buf.len() >= 12
            &&& m.id == buf[0] * 256 + buf[1]
            &&& m.flags == buf[2] * 256 + buf[3]
            &&& m.questions.len() == buf[4] * 256 + buf[5]
            &&& m.answers.len() == buf[6] * 256 + buf[7]
            &&& m.extra.len() == (buf[8] * 256 + buf[9]) + (buf[10] * 256 + buf[11])
        },
{
    if buf.len() >= 12 {
        let c0 = spec_be16(buf, 4)->0;
        let c1 = spec_be16(buf, 6)->0;
        let c2 = spec_be16(buf, 8)->0;
        let c3 = spec_be16(buf, 10)->0;
        lemma_questions_len(buf, 12, c0 as nat);
        if let Some((questions, a0)) = spec_questions(buf, 12, c0 as nat) {
            lemma_records_len(buf, a0, c1 as nat);
            if let Some((answers, a1)) = spec_records(buf, a0, c1 as nat) {
                lemma_records_len(buf, a1, c2 as nat);
                if let Some((auth, a2)) = spec_records(buf, a1, c2 as nat) {
                    lemma_records_len(buf, a2, c3 as nat);
                }
            }
        }
        assert(0 <= buf[0] * 256 + buf[1] < 0x10000);
        assert(0 <= buf[2] * 256 + buf[3] < 0x10000);
        assert(0 <= buf[4] * 256 + buf[5] < 0x10000);
        assert(0 <= buf[6] * 256 + buf[7] < 0x10000);
        assert(0 <= buf[8] * 256 + buf[9] < 0x10000);
        assert(0 <= buf[10] * 256 + buf[11] < 0x10000);
    }
}

} // verus!
