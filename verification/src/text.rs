//! Characters and strings: the handful of text operations the parsers and
//! formatters in this crate share, each stated over sequences of `char`.

use vstd::prelude::*;
use vstd::string::*;
use crate::addr::{all_digits, digits_value, is_digit};

verus! {

/// Appends one character to a string. Calls `String::push`; the contract
/// claims that the string's characters gain exactly `c` at the end.
#[verifier::external_body]
pub(crate) fn push_char(s: &mut String, c: char)
    ensures
        final(s)@ == old(s)@.push(c),
{
    s.push(c);
}

/// The characters of a string slice, in order.
pub fn chars_of(s: &str) -> (v: Vec<char>)
    ensures
        v@ == s@,
{
    let n = s.unicode_len();
    let mut v: Vec<char> = Vec::new();
    let mut i: usize = 0;
    while i < n
        invariant
            n == s@.len(),
            i <= n,
            v@ == s@.take(i as int),
        decreases n - i,
    {
        let c = s.get_char(i);
        v.push(c);
        i += 1;
        assert(v@ =~= s@.take(i as int));
    }
    assert(v@ =~= s@);
    v
}

/// A string holding exactly the given characters.
pub fn string_of(v: &[char]) -> (s: String)
    ensures
        s@ == v@,
{
    let mut s = String::new();
    let mut i: usize = 0;
    while i < v.len()
        invariant
            i <= v@.len(),
            s@ == v@.take(i as int),
        decreases v@.len() - i,
    {
        push_char(&mut s, v[i]);
        i += 1;
        assert(s@ =~= v@.take(i as int));
    }
    assert(s@ =~= v@);
    s
}

} // verus!

verus! {

/// The decimal digit `d`, `0 <= d < 10`.
pub open spec fn digit_char(d: int) -> char {
    if d == 0 {
        '0'
    } else if d == 1 {
        '1'
    } else if d == 2 {
        '2'
    } else if d == 3 {
        '3'
    } else if d == 4 {
        '4'
    } else if d == 5 {
        '5'
    } else if d == 6 {
        '6'
    } else if d == 7 {
        '7'
    } else if d == 8 {
        '8'
    } else {
        '9'
    }
}

/// A natural number in decimal, with no leading zeros.
pub open spec fn decimal(n: nat) -> Seq<char>
    decreases n,
{
    if n < 10 {
        seq![digit_char(n as int)]
    } else {
        decimal(n / 10).push(digit_char((n % 10) as int))
    }
}

/// The lower-case hexadecimal digit `d`, `0 <= d < 16`.
pub open spec fn hex_char(d: int) -> char {
    if d < 10 {
        digit_char(d)
    } else if d == 10 {
        'a'
    } else if d == 11 {
        'b'
    } else if d == 12 {
        'c'
    } else if d == 13 {
        'd'
    } else if d == 14 {
        'e'
    } else {
        'f'
    }
}

pub fn digit(d: u64) -> (c: char)
    requires
        d < 10,
    ensures
        c == digit_char(d as int),
{
    if d == 0 {
        '0'
    } else if d == 1 {
        '1'
    } else if d == 2 {
        '2'
    } else if d == 3 {
        '3'
    } else if d == 4 {
        '4'
    } else if d == 5 {
        '5'
    } else if d == 6 {
        '6'
    } else if d == 7 {
        '7'
    } else if d == 8 {
        '8'
    } else {
        '9'
    }
}

pub fn hex_digit(d: u8) -> (c: char)
    requires
        d < 16,
    ensures
        c == hex_char(d as int),
{
    if d < 10 {
        digit(d as u64)
    } else if d == 10 {
        'a'
    } else if d == 11 {
        'b'
    } else if d == 12 {
        'c'
    } else if d == 13 {
        'd'
    } else if d == 14 {
        'e'
    } else {
        'f'
    }
}

/// Appends `n` in decimal.
pub fn push_decimal(s: &mut String, n: u64)
    ensures
        final(s)@ == old(s)@ + decimal(n as nat),
    decreases n,
{
    if n >= 10 {
        push_decimal(s, n / 10);
    }
    push_char(s, digit(n % 10));
    proof {
        assert(final(s)@ =~= old(s)@ + decimal(n as nat));
    }
}

/// Appends the characters of a string slice.
pub fn push_str(s: &mut String, t: &str)
    ensures
        final(s)@ == old(s)@ + t@,
{
    let v = chars_of(t);
    let mut i: usize = 0;
    let ghost s0 = s@;
    while i < v.len()
        invariant
            i <= v@.len(),
            v@ == t@,
            s@ == s0 + v@.take(i as int),
        decreases v@.len() - i,
    {
        push_char(s, v[i]);
        i += 1;
        assert(s@ =~= s0 + v@.take(i as int));
    }
    assert(v@.take(v@.len() as int) =~= v@);
}

} // verus!

verus! {

/// `s` cut at every `sep`, separators dropped: always at least one piece, and
/// one more than there are separators.
pub open spec fn split(s: Seq<char>, sep: char) -> Seq<Seq<char>>
    decreases s.len(),
{
    if s.len() == 0 {
        seq![Seq::<char>::empty()]
    } else {
        let r = split(s.drop_last(), sep);
        if s.last() == sep {
            r.push(Seq::<char>::empty())
        } else {
            r.update(r.len() - 1, r.last().push(s.last()))
        }
    }
}

pub proof fn lemma_split_nonempty(s: Seq<char>, sep: char)
    ensures
        split(s, sep).len() >= 1,
    decreases s.len(),
{
    if s.len() > 0 {
        lemma_split_nonempty(s.drop_last(), sep);
    }
}

/// A text without the separator is one piece.
pub proof fn lemma_split_whole(s: Seq<char>, sep: char)
    requires
        forall|i: int| 0 <= i < s.len() ==> s[i] != sep,
    ensures
        split(s, sep) == seq![s],
    decreases s.len(),
{
    if s.len() > 0 {
        let t = s.drop_last();
        assert forall|i: int| 0 <= i < t.len() implies t[i] != sep by {
            assert(t[i] == s[i]);
        }
        lemma_split_whole(t, sep);
        assert(s.last() != sep) by {
            assert(s[s.len() - 1] != sep);
        }
        assert(t.push(s.last()) =~= s);
        assert(seq![t].update(0, t.push(s.last())) =~= seq![s]);
    } else {
        assert(s =~= Seq::<char>::empty());
    }
}

/// Splitting at a separator splits each side.
pub proof fn lemma_split_join(a: Seq<char>, y: Seq<char>, sep: char)
    ensures
        split(a + seq![sep] + y, sep) == split(a, sep) + split(y, sep),
    decreases y.len(),
{
    let z = a + seq![sep] + y;
    if y.len() == 0 {
        assert(z =~= a.push(sep));
        assert(z.drop_last() =~= a);
        assert(split(a, sep).push(Seq::<char>::empty()) =~= split(a, sep) + seq![Seq::<char>::empty()]);
    } else {
        lemma_split_join(a, y.drop_last(), sep);
        assert(z.drop_last() =~= a + seq![sep] + y.drop_last());
        assert(z.last() == y.last());
        lemma_split_nonempty(y.drop_last(), sep);
        let l = split(a, sep);
        let r = split(y.drop_last(), sep);
        if y.last() == sep {
            assert((l + r).push(Seq::<char>::empty()) =~= l + r.push(Seq::<char>::empty()));
        } else {
            let lr = l + r;
            assert(lr.last() == r.last());
            assert(lr.update(lr.len() - 1, lr.last().push(y.last())) =~= l + r.update(
                r.len() - 1,
                r.last().push(y.last()),
            ));
        }
    }
}

/// The characters of each of a sequence of character vectors.
pub open spec fn views(v: Seq<Vec<char>>) -> Seq<Seq<char>> {
    Seq::new(v.len(), |i: int| v[i]@)
}

/// The pieces of `v` between occurrences of `sep`.
pub fn split_chars(v: &[char], sep: char) -> (r: Vec<Vec<char>>)
    ensures
        views(r@) == split(v@, sep),
{
    let mut out: Vec<Vec<char>> = Vec::new();
    let mut cur: Vec<char> = Vec::new();
    let mut i: usize = 0;
    while i < v.len()
        invariant
            i <= v@.len(),
            views(out@).push(cur@) == split(v@.take(i as int), sep),
        decreases v@.len() - i,
    {
        let c = v[i];
        proof {
            lemma_split_nonempty(v@.take(i as int), sep);
            assert(v@.take(i + 1).drop_last() =~= v@.take(i as int));
        }
        let ghost before = views(out@);
        let ghost old_cur = cur@;
        proof {
            assert(v@.take(i + 1).last() == c);
        }
        if c == sep {
            let done = cur;
            out.push(done);
            cur = Vec::new();
            proof {
                assert(views(out@) =~= before.push(old_cur));
                assert(views(out@).push(cur@) =~= split(v@.take(i + 1), sep));
            }
        } else {
            cur.push(c);
            proof {
                let r = before.push(old_cur);
                assert(r.last() == old_cur);
                assert(r.update(r.len() - 1, old_cur.push(c)) =~= before.push(cur@));
                assert(views(out@).push(cur@) =~= split(v@.take(i + 1), sep));
            }
        }
        i += 1;
    }
    proof {
        assert(v@.take(v@.len() as int) =~= v@);
    }
    let ghost before = views(out@);
    let ghost last = cur@;
    out.push(cur);
    proof {
        assert(views(out@) =~= before.push(last));
    }
    out
}

} // verus!

verus! {

/// The bytes one character takes in UTF-8.
pub open spec fn char_width(c: char) -> int {
    if c <= '\x7f' {
        1
    } else if (c as u32) < 0x800 {
        2
    } else if (c as u32) < 0x10000 {
        3
    } else {
        4
    }
}

/// The bytes a string takes in UTF-8, which is what `str::len` counts.
pub open spec fn utf8_len(s: Seq<char>) -> int
    decreases s.len(),
{
    if s.len() == 0 {
        0
    } else {
        utf8_len(s.drop_last()) + char_width(s.last())
    }
}

pub proof fn lemma_utf8_len_concat(a: Seq<char>, b: Seq<char>)
    ensures
        utf8_len(a + b) == utf8_len(a) + utf8_len(b),
    decreases b.len(),
{
    if b.len() > 0 {
        assert((a + b).drop_last() =~= a + b.drop_last());
        lemma_utf8_len_concat(a, b.drop_last());
    } else {
        assert(a + b =~= a);
    }
}

pub proof fn lemma_utf8_len_nonneg(a: Seq<char>)
    ensures
        utf8_len(a) >= a.len(),
    decreases a.len(),
{
    if a.len() > 0 {
        lemma_utf8_len_nonneg(a.drop_last());
    }
}

/// The UTF-8 length of `v`, where it is at most `cap`; something above `cap`
/// where it is not.
pub fn utf8_len_capped(v: &[char], cap: usize) -> (n: usize)
    requires
        cap <= 0xffff,
    ensures
        utf8_len(v@) <= cap ==> n == utf8_len(v@),
        utf8_len(v@) > cap ==> n > cap,
        n <= cap + 4,
{
    let mut total: usize = 0;
    let mut i: usize = 0;
    while i < v.len()
        invariant
            cap <= 0xffff,
            i <= v@.len(),
            total == utf8_len(v@.take(i as int)),
            total <= cap,
        decreases v@.len() - i,
    {
        let c = v[i];
        let w: usize = if c <= '\x7f' {
            1
        } else if (c as u32) < 0x800 {
            2
        } else if (c as u32) < 0x10000 {
            3
        } else {
            4
        };
        proof {
            assert(v@.take(i + 1).drop_last() =~= v@.take(i as int));
        }
        total = total + w;
        i += 1;
        if total > cap {
            proof {
                lemma_utf8_len_concat(v@.take(i as int), v@.skip(i as int));
                assert(v@.take(i as int) + v@.skip(i as int) =~= v@);
                lemma_utf8_len_nonneg(v@.skip(i as int));
            }
            return total;
        }
    }
    proof {
        assert(v@.take(v@.len() as int) =~= v@);
    }
    total
}

} // verus!

verus! {

pub proof fn lemma_utf8_len_dot()
    ensures
        utf8_len(seq!['.']) == 1,
{
    let s = seq!['.'];
    assert(s.drop_last() =~= Seq::<char>::empty());
    assert(utf8_len(Seq::<char>::empty()) == 0);
    assert(s.last() == '.');
    assert(char_width('.') == 1);
}

} // verus!

verus! {

/// Unicode's White_Space property, which is what `char::is_whitespace` and
/// the `trim` family of `str` test.
pub open spec fn is_ws(c: char) -> bool {
    let u = c as u32;
    (9 <= u && u <= 13) || u == 32 || u == 0x85 || u == 0xa0 || u == 0x1680 || (0x2000 <= u
        && u <= 0x200a) || u == 0x2028 || u == 0x2029 || u == 0x202f || u == 0x205f || u
        == 0x3000
}

pub fn is_whitespace(c: char) -> (b: bool)
    ensures
        b == is_ws(c),
{
    let u = c as u32;
    (9 <= u && u <= 13) || u == 32 || u == 0x85 || u == 0xa0 || u == 0x1680 || (0x2000 <= u
        && u <= 0x200a) || u == 0x2028 || u == 0x2029 || u == 0x202f || u == 0x205f || u
        == 0x3000
}

/// `s` with trailing whitespace removed.
pub open spec fn trim_end(s: Seq<char>) -> Seq<char>
    decreases s.len(),
{
    if s.len() > 0 && is_ws(s.last()) {
        trim_end(s.drop_last())
    } else {
        s
    }
}

/// `s` with leading whitespace removed.
pub open spec fn trim_start(s: Seq<char>) -> Seq<char>
    decreases s.len(),
{
    if s.len() > 0 && is_ws(s[0]) {
        trim_start(s.drop_first())
    } else {
        s
    }
}

/// `s` with whitespace removed from both ends, as `str::trim` does.
pub open spec fn trim(s: Seq<char>) -> Seq<char> {
    trim_end(trim_start(s))
}

/// How many characters survive a `trim_end` of `v`.
pub fn trim_end_len(v: &[char]) -> (n: usize)
    ensures
        n <= v@.len(),
        v@.take(n as int) == trim_end(v@),
{
    let mut n = v.len();
    proof {
        assert(v@.take(n as int) =~= v@);
    }
    while n > 0 && is_whitespace(v[n - 1])
        invariant
            n <= v@.len(),
            trim_end(v@.take(n as int)) == trim_end(v@),
        decreases n,
    {
        proof {
            assert(v@.take(n as int).drop_last() =~= v@.take(n - 1));
        }
        n -= 1;
    }
    n
}

/// How many leading characters of `v` a `trim_start` removes.
pub fn trim_start_len(v: &[char]) -> (n: usize)
    ensures
        n <= v@.len(),
        v@.skip(n as int) == trim_start(v@),
{
    let mut n: usize = 0;
    proof {
        assert(v@.skip(0) =~= v@);
    }
    while n < v.len() && is_whitespace(v[n])
        invariant
            n <= v@.len(),
            trim_start(v@.skip(n as int)) == trim_start(v@),
        decreases v@.len() - n,
    {
        proof {
            assert(v@.skip(n as int).drop_first() =~= v@.skip(n + 1));
        }
        n += 1;
    }
    n
}

/// `v` with whitespace removed from both ends.
pub fn trimmed(v: &[char]) -> (r: Vec<char>)
    ensures
        r@ == trim(v@),
{
    let a = trim_start_len(v);
    let rest = vstd::slice::slice_subrange(v, a, v.len());
    assert(rest@ =~= v@.skip(a as int));
    let b = trim_end_len(rest);
    let mut r: Vec<char> = Vec::new();
    let mut i: usize = 0;
    while i < b
        invariant
            b <= rest@.len(),
            i <= b,
            r@ == rest@.take(i as int),
        decreases b - i,
    {
        r.push(rest[i]);
        i += 1;
        assert(r@ =~= rest@.take(i as int));
    }
    r
}

} // verus!

verus! {

pub open spec fn starts_with(s: Seq<char>, pre: Seq<char>) -> bool {
    pre.len() <= s.len() && s.take(pre.len() as int) == pre
}

pub open spec fn ends_with(s: Seq<char>, suf: Seq<char>) -> bool {
    suf.len() <= s.len() && s.skip(s.len() - suf.len()) == suf
}

/// `s` with `suf` removed from its end for as long as it ends with it, as
/// `str::trim_end_matches` does with a non-empty pattern.
pub open spec fn trim_end_matches(s: Seq<char>, suf: Seq<char>) -> Seq<char>
    decreases s.len(),
{
    if suf.len() > 0 && ends_with(s, suf) {
        trim_end_matches(s.take(s.len() - suf.len()), suf)
    } else {
        s
    }
}

/// ASCII upper case letters made lower case; everything else kept.
pub open spec fn ascii_lower(c: char) -> char {
    if 'A' <= c && c <= 'Z' {
        ((c as u8) + 32) as char
    } else {
        c
    }
}

pub open spec fn lower(s: Seq<char>) -> Seq<char> {
    Seq::new(s.len(), |i: int| ascii_lower(s[i]))
}

pub fn to_lower(c: char) -> (r: char)
    ensures
        r == ascii_lower(c),
{
    if 'A' <= c && c <= 'Z' {
        ((c as u8) + 32) as char
    } else {
        c
    }
}

/// `v` with ASCII letters lower-cased.
pub fn lowered(v: &[char]) -> (r: Vec<char>)
    ensures
        r@ == lower(v@),
{
    let mut r: Vec<char> = Vec::new();
    let mut i: usize = 0;
    while i < v.len()
        invariant
            i <= v@.len(),
            r@ == lower(v@).take(i as int),
        decreases v@.len() - i,
    {
        r.push(to_lower(v[i]));
        i += 1;
        assert(r@ =~= lower(v@).take(i as int));
    }
    assert(lower(v@).take(v@.len() as int) =~= lower(v@));
    r
}

/// Does `v` begin with `pre`?
pub fn has_prefix(v: &[char], pre: &[char]) -> (b: bool)
    ensures
        b == starts_with(v@, pre@),
{
    if pre.len() > v.len() {
        return false;
    }
    let mut i: usize = 0;
    while i < pre.len()
        invariant
            pre@.len() <= v@.len(),
            i <= pre@.len(),
            forall|k: int| 0 <= k < i ==> v@[k] == pre@[k],
        decreases pre@.len() - i,
    {
        if v[i] != pre[i] {
            assert(v@.take(pre@.len() as int)[i as int] != pre@[i as int]);
            return false;
        }
        i += 1;
    }
    assert(v@.take(pre@.len() as int) =~= pre@);
    true
}

/// Does `v` end with `suf`?
pub fn has_suffix(v: &[char], suf: &[char]) -> (b: bool)
    ensures
        b == ends_with(v@, suf@),
{
    if suf.len() > v.len() {
        return false;
    }
    let len = v.len();
    let off = len - suf.len();
    let mut i: usize = 0;
    while i < suf.len()
        invariant
            len == v@.len(),
            suf@.len() <= v@.len(),
            off == v@.len() - suf@.len(),
            i <= suf@.len(),
            forall|k: int| 0 <= k < i ==> v@[off + k] == suf@[k],
        decreases suf@.len() - i,
    {
        if v[off + i] != suf[i] {
            assert(v@.skip(off as int)[i as int] != suf@[i as int]);
            return false;
        }
        i += 1;
    }
    assert(v@.skip(off as int) =~= suf@);
    true
}

/// `v` with `suf` trimmed from its end as often as it occurs there.
pub fn without_suffixes(v: &[char], suf: &[char]) -> (r: Vec<char>)
    ensures
        r@ == trim_end_matches(v@, suf@),
{
    let mut n = v.len();
    proof {
        assert(v@.take(n as int) =~= v@);
    }
    while suf.len() > 0 && has_suffix(vstd::slice::slice_subrange(v, 0, n), suf)
        invariant
            n <= v@.len(),
            trim_end_matches(v@.take(n as int), suf@) == trim_end_matches(v@, suf@),
        decreases n,
    {
        proof {
            assert(v@.take(n as int).take(n - suf@.len()) =~= v@.take(n - suf@.len()));
        }
        n = n - suf.len();
    }
    let r = vstd::slice::slice_to_vec(vstd::slice::slice_subrange(v, 0, n));
    assert(r@ =~= v@.take(n as int));
    r
}

/// Are the two sequences of characters equal?
pub fn same_chars(a: &[char], b: &[char]) -> (r: bool)
    ensures
        r == (a@ == b@),
{
    if a.len() != b.len() {
        return false;
    }
    let mut i: usize = 0;
    while i < a.len()
        invariant
            a@.len() == b@.len(),
            i <= a@.len(),
            forall|k: int| 0 <= k < i ==> a@[k] == b@[k],
        decreases a@.len() - i,
    {
        if a[i] != b[i] {
            return false;
        }
        i += 1;
    }
    assert(a@ =~= b@);
    true
}

} // verus!

verus! {

/// The digits of an unsigned decimal as `str::parse` reads them: an optional
/// leading `+`, then at least one character.
pub open spec fn unsigned_digits(s: Seq<char>) -> Option<Seq<char>> {
    if s.len() == 0 {
        None
    } else if s[0] == '+' {
        if s.len() == 1 {
            None
        } else {
            Some(s.skip(1))
        }
    } else {
        Some(s)
    }
}

/// The value of an unsigned decimal text, of any size.
pub open spec fn unsigned_from_text(s: Seq<char>) -> Option<nat> {
    match unsigned_digits(s) {
        None => None,
        Some(d) => if all_digits(d) {
            Some(digits_value(d))
        } else {
            None
        },
    }
}

/// An unsigned decimal text that fits below `max`.
pub open spec fn bounded_from_text(s: Seq<char>, max: nat) -> Option<nat> {
    match unsigned_from_text(s) {
        Some(n) => if n <= max {
            Some(n)
        } else {
            None
        },
        None => None,
    }
}

pub open spec fn u8_from_text(s: Seq<char>) -> Option<u8> {
    match bounded_from_text(s, 255) {
        Some(n) => Some(n as u8),
        None => None,
    }
}

pub proof fn lemma_digits_value_grows(s: Seq<char>, k: int)
    requires
        0 <= k <= s.len(),
    ensures
        digits_value(s.take(k)) <= digits_value(s),
    decreases s.len() - k,
{
    if k < s.len() {
        lemma_digits_value_grows(s, k + 1);
        assert(s.take(k + 1).drop_last() =~= s.take(k));
    } else {
        assert(s.take(k) =~= s);
    }
}

/// Reads an unsigned decimal no larger than `max`.
pub fn parse_bounded(v: &[char], max: u64) -> (r: Option<u64>)
    requires
        max <= u32::MAX,
    ensures
        match bounded_from_text(v@, max as nat) {
            Some(n) => r == Some(n as u64),
            None => r is None,
        },
{
    let n = v.len();
    if n == 0 {
        return None;
    }
    let start: usize = if v[0] == '+' {
        if n == 1 {
            return None;
        }
        1
    } else {
        0
    };
    let ghost d = unsigned_digits(v@)->0;
    assert(d =~= v@.skip(start as int));
    let mut value: u64 = 0;
    let mut i: usize = start;
    while i < n
        invariant
            start <= i <= n,
            n == v@.len(),
            unsigned_digits(v@) == Some(d),
            d == v@.skip(start as int),
            max <= u32::MAX,
            value <= max,
            all_digits(d.take(i - start)),
            value == digits_value(d.take(i - start)),
        decreases n - i,
    {
        let c = v[i];
        proof {
            assert(d.take(i - start + 1).drop_last() =~= d.take(i - start));
            assert(d[i - start] == c);
        }
        if !('0' <= c && c <= '9') {
            proof {
                assert(!is_digit(d[i - start]));
            }
            return None;
        }
        value = value * 10 + ((c as u32) - ('0' as u32)) as u64;
        if value > max {
            proof {
                lemma_digits_value_grows(d, i - start + 1);
            }
            return None;
        }
        i += 1;
    }
    proof {
        assert(d.take(n - start) =~= d);
    }
    Some(value)
}

pub fn parse_u8(v: &[char]) -> (r: Option<u8>)
    ensures
        r == u8_from_text(v@),
{
    match parse_bounded(v, 255) {
        Some(x) => Some(x as u8),
        None => None,
    }
}

} // verus!

verus! {

/// A line as `str::lines` gives it: a `\r` before the `\n` removed.
pub open spec fn strip_cr(x: Seq<char>) -> Seq<char> {
    if x.len() > 0 && x.last() == '\r' {
        x.drop_last()
    } else {
        x
    }
}

/// The lines of a text as `str::lines` gives them: cut at each `\n`, a
/// final line ending optional, and `\r\n` taken as one ending.
pub open spec fn lines(s: Seq<char>) -> Seq<Seq<char>> {
    let parts = split(s, '\n');
    let n = if parts.last().len() == 0 {
        parts.len() - 1
    } else {
        parts.len() as int
    };
    Seq::new(
        n as nat,
        |i: int|
            if i < parts.len() - 1 {
                strip_cr(parts[i])
            } else {
                parts[i]
            },
    )
}

/// The lines of a text.
pub fn lines_of(v: &[char]) -> (r: Vec<Vec<char>>)
    ensures
        views(r@) == lines(v@),
{
    let parts = split_chars(v, '\n');
    proof {
        lemma_split_nonempty(v@, '\n');
    }
    let total = parts.len();
    let n = if parts[total - 1].len() == 0 {
        total - 1
    } else {
        total
    };
    let mut out: Vec<Vec<char>> = Vec::new();
    let mut i: usize = 0;
    while i < n
        invariant
            i <= n <= total,
            total == parts@.len(),
            total >= 1,
            views(parts@) == split(v@, '\n'),
            n == (if split(v@, '\n').last().len() == 0 {
                total - 1
            } else {
                total as int
            }),
            views(out@) == lines(v@).take(i as int),
        decreases n - i,
    {
        let p = &parts[i];
        let mut line: Vec<char> = Vec::new();
        let keep = if i + 1 < total && p.len() > 0 && p[p.len() - 1] == '\r' {
            p.len() - 1
        } else {
            p.len()
        };
        let mut k: usize = 0;
        while k < keep
            invariant
                k <= keep <= p@.len(),
                line@ == p@.take(k as int),
            decreases keep - k,
        {
            line.push(p[k]);
            proof {
                assert(line@ =~= p@.take(k + 1));
            }
            k += 1;
        }
        proof {
            assert(views(parts@)[i as int] == p@);
            if i + 1 < total && p@.len() > 0 && p@.last() == '\r' {
                assert(line@ =~= p@.drop_last());
            } else {
                assert(line@ =~= p@);
            }
        }
        let ghost before = views(out@);
        out.push(line);
        proof {
            assert(views(out@) =~= before.push(line@));
            assert(views(out@) =~= lines(v@).take(i + 1));
        }
        i += 1;
    }
    proof {
        assert(lines(v@).take(n as int) =~= lines(v@));
    }
    out
}

/// Reading a text left to right: the words finished, and the one in
/// progress.
pub open spec fn words_scan(s: Seq<char>) -> (Seq<Seq<char>>, Seq<char>)
    decreases s.len(),
{
    if s.len() == 0 {
        (Seq::empty(), Seq::empty())
    } else {
        let (done, cur) = words_scan(s.drop_last());
        if is_ws(s.last()) {
            if cur.len() > 0 {
                (done.push(cur), Seq::empty())
            } else {
                (done, Seq::empty())
            }
        } else {
            (done, cur.push(s.last()))
        }
    }
}

/// The words of a text as `str::split_whitespace` gives them: the runs of
/// characters between runs of white space.
pub open spec fn words(s: Seq<char>) -> Seq<Seq<char>> {
    let (done, cur) = words_scan(s);
    if cur.len() > 0 {
        done.push(cur)
    } else {
        done
    }
}

/// The words of a text.
pub fn words_of(v: &[char]) -> (r: Vec<Vec<char>>)
    ensures
        views(r@) == words(v@),
{
    let mut out: Vec<Vec<char>> = Vec::new();
    let mut cur: Vec<char> = Vec::new();
    let mut i: usize = 0;
    while i < v.len()
        invariant
            i <= v@.len(),
            (views(out@), cur@) == words_scan(v@.take(i as int)),
        decreases v@.len() - i,
    {
        proof {
            assert(v@.take(i + 1).drop_last() =~= v@.take(i as int));
        }
        let c = v[i];
        let ghost before = views(out@);
        if is_whitespace(c) {
            if cur.len() > 0 {
                let done = cur;
                out.push(done);
                cur = Vec::new();
                proof {
                    assert(views(out@) =~= before.push(words_scan(v@.take(i as int)).1));
                }
            }
        } else {
            cur.push(c);
        }
        i += 1;
    }
    proof {
        assert(v@.take(v@.len() as int) =~= v@);
    }
    if cur.len() > 0 {
        let ghost before = views(out@);
        let ghost last = cur@;
        out.push(cur);
        proof {
            assert(views(out@) =~= before.push(last));
        }
    }
    out
}

pub open spec fn is_hex_digit(c: char) -> bool {
    ('0' <= c && c <= '9') || ('a' <= c && c <= 'f') || ('A' <= c && c <= 'F')
}

pub open spec fn hex_digit_value(c: char) -> nat {
    if '0' <= c && c <= '9' {
        (c as int - '0' as int) as nat
    } else if 'a' <= c && c <= 'f' {
        (c as int - 'a' as int + 10) as nat
    } else {
        (c as int - 'A' as int + 10) as nat
    }
}

/// The value of a run of hexadecimal digits.
pub open spec fn hex_digits_value(s: Seq<char>) -> nat
    decreases s.len(),
{
    if s.len() == 0 {
        0
    } else {
        hex_digits_value(s.drop_last()) * 16 + hex_digit_value(s.last())
    }
}

/// A hexadecimal text as `from_str_radix(.., 16)` reads it, no larger
/// than `max`: an optional `+`, then at least one hex digit.
pub open spec fn hex_from_text(s: Seq<char>, max: nat) -> Option<nat> {
    match unsigned_digits(s) {
        None => None,
        Some(d) => if (forall|i: int| 0 <= i < d.len() ==> #[trigger] is_hex_digit(d[i]))
            && hex_digits_value(d) <= max {
            Some(hex_digits_value(d))
        } else {
            None
        },
    }
}

pub proof fn lemma_hex_value_grows(s: Seq<char>, k: int)
    requires
        0 <= k <= s.len(),
    ensures
        hex_digits_value(s.take(k)) <= hex_digits_value(s),
    decreases s.len() - k,
{
    if k < s.len() {
        lemma_hex_value_grows(s, k + 1);
        assert(s.take(k + 1).drop_last() =~= s.take(k));
    } else {
        assert(s.take(k) =~= s);
    }
}

/// Reads a hexadecimal number no larger than `max`.
pub fn parse_hex(v: &[char], max: u64) -> (r: Option<u64>)
    requires
        max <= u32::MAX,
    ensures
        match hex_from_text(v@, max as nat) {
            Some(n) => r == Some(n as u64),
            None => r is None,
        },
{
    let n = v.len();
    if n == 0 {
        return None;
    }
    let start: usize = if v[0] == '+' {
        if n == 1 {
            return None;
        }
        1
    } else {
        0
    };
    let ghost d = unsigned_digits(v@)->0;
    assert(d =~= v@.skip(start as int));
    let mut value: u64 = 0;
    let mut i: usize = start;
    while i < n
        invariant
            start <= i <= n,
            n == v@.len(),
            unsigned_digits(v@) == Some(d),
            d == v@.skip(start as int),
            max <= u32::MAX,
            value <= max,
            forall|j: int| 0 <= j < i - start ==> #[trigger] is_hex_digit(d[j]),
            value == hex_digits_value(d.take(i - start)),
        decreases n - i,
    {
        let c = v[i];
        proof {
            assert(d.take(i - start + 1).drop_last() =~= d.take(i - start));
            assert(d[i - start] == c);
        }
        let digit: u64 = if '0' <= c && c <= '9' {
            ((c as u32) - ('0' as u32)) as u64
        } else if 'a' <= c && c <= 'f' {
            ((c as u32) - ('a' as u32) + 10) as u64
        } else if 'A' <= c && c <= 'F' {
            ((c as u32) - ('A' as u32) + 10) as u64
        } else {
            proof {
                assert(!is_hex_digit(d[i - start]));
            }
            return None;
        };
        value = value * 16 + digit;
        if value > max {
            proof {
                lemma_hex_value_grows(d, i - start + 1);
            }
            return None;
        }
        i += 1;
    }
    proof {
        assert(d.take(n - start) =~= d);
    }
    Some(value)
}

/// `s` without `pre` at its start, if it starts with it.
pub open spec fn strip_prefix(s: Seq<char>, pre: Seq<char>) -> Option<Seq<char>> {
    if starts_with(s, pre) {
        Some(s.skip(pre.len() as int))
    } else {
        None
    }
}

pub fn strip_prefix_of(v: &[char], pre: &str) -> (r: Option<Vec<char>>)
    ensures
        match strip_prefix(v@, pre@) {
            Some(x) => r is Some && r->0@ == x,
            None => r is None,
        },
{
    let p = chars_of(pre);
    if !has_prefix(v, p.as_slice()) {
        return None;
    }
    let rest = vstd::slice::slice_subrange(v, p.len(), v.len());
    let mut out: Vec<char> = Vec::new();
    let mut i: usize = 0;
    while i < rest.len()
        invariant
            i <= rest@.len(),
            out@ == rest@.take(i as int),
        decreases rest@.len() - i,
    {
        out.push(rest[i]);
        proof {
            assert(out@ =~= rest@.take(i + 1));
        }
        i += 1;
    }
    proof {
        assert(out@ =~= v@.skip(p@.len() as int));
    }
    Some(out)
}

} // verus!
