//! Character-level text helpers shared by the analyses: whitespace, trimming,
//! line splitting, prefixes and byte-range slicing of source text.

use vstd::prelude::*;
use vstd::string::StringSliceAdditionalSpecFns;
use vstd::utf8::*;

verus! {

/// The characters that Rust's `char::is_whitespace` accepts (Unicode
/// `White_Space`).
pub open spec fn is_ws(c: char) -> bool {
    ||| c == ' '
    ||| ('\u{9}' <= c && c <= '\u{d}')
    ||| c == '\u{85}'
    ||| c == '\u{a0}'
    ||| c == '\u{1680}'
    ||| ('\u{2000}' <= c && c <= '\u{200a}')
    ||| c == '\u{2028}'
    ||| c == '\u{2029}'
    ||| c == '\u{202f}'
    ||| c == '\u{205f}'
    ||| c == '\u{3000}'
}

/// Whether `c` is a whitespace character.
pub fn is_whitespace(c: char) -> (r: bool)
    ensures
        r == is_ws(c),
{
    c == ' ' || ('\u{9}' <= c && c <= '\u{d}') || c == '\u{85}' || c == '\u{a0}' || c == '\u{1680}'
        || ('\u{2000}' <= c && c <= '\u{200a}') || c == '\u{2028}' || c == '\u{2029}' || c
        == '\u{202f}' || c == '\u{205f}' || c == '\u{3000}'
}

/// The texts of a list of strings.
pub open spec fn texts(v: Seq<String>) -> Seq<Seq<char>> {
    v.map_values(|s: String| s@)
}

/// The characters of `s`, in order.
pub fn chars_of(s: &str) -> (v: Vec<char>)
    ensures
        v@ == s@,
{
    let mut v: Vec<char> = Vec::new();
    for c in it: s.chars()
        invariant
            v@ == it.seq().take(it.index() as int),
    {
        v.push(c);
    }
    v
}


/// The string made of the characters `v`, in order.
///
/// Trusted: calls std's `String::from_iter` over the characters; its
/// documentation states that collecting characters yields the string of
/// exactly those characters.
#[verifier::external_body]
pub(crate) fn string_of(v: &[char]) -> (s: String)
    ensures
        s@ == v@,
{
    String::from_iter(v)
}

/// The characters of `v` in positions `start..end`, as a string.
pub fn string_of_range(v: &Vec<char>, start: usize, end: usize) -> (s: String)
    requires
        start <= end <= v.len(),
    ensures
        s@ == v@.subrange(start as int, end as int),
{
    let mut out: Vec<char> = Vec::new();
    let mut i = start;
    while i < end
        invariant
            start <= i <= end <= v.len(),
            out@ == v@.subrange(start as int, i as int),
        decreases end - i,
    {
        out.push(v[i]);
        i = i + 1;
    }
    string_of(out.as_slice())
}

/// Whether the two strings hold the same characters.
pub fn str_eq(a: &str, b: &str) -> (r: bool)
    ensures
        r == (a@ == b@),
{
    let x = a.as_bytes();
    let y = b.as_bytes();
    proof {
        encode_utf8_decode_utf8(a@);
        encode_utf8_decode_utf8(b@);
    }
    if x.len() != y.len() {
        return false;
    }
    let mut i: usize = 0;
    while i < x.len()
        invariant
            x@ == a.spec_bytes(),
            y@ == b.spec_bytes(),
            x.len() == y.len(),
            i <= x.len(),
            forall|j: int| 0 <= j < i ==> x@[j] == y@[j],
        decreases x.len() - i,
    {
        if x[i] != y[i] {
            return false;
        }
        i = i + 1;
    }
    assert(x@ =~= y@);
    true
}

/// `s` without its leading whitespace.
pub open spec fn trim_start(s: Seq<char>) -> Seq<char>
    decreases s.len(),
{
    if s.len() > 0 && is_ws(s[0]) {
        trim_start(s.drop_first())
    } else {
        s
    }
}

/// `s` without its trailing whitespace.
pub open spec fn trim_end(s: Seq<char>) -> Seq<char>
    decreases s.len(),
{
    if s.len() > 0 && is_ws(s.last()) {
        trim_end(s.drop_last())
    } else {
        s
    }
}

/// `s` without leading or trailing whitespace (std's `str::trim`).
pub open spec fn trim(s: Seq<char>) -> Seq<char> {
    trim_end(trim_start(s))
}

/// Number of leading whitespace characters of `s[from..]`.
proof fn lemma_trim_start_skip(s: Seq<char>, from: int)
    requires
        0 <= from <= s.len(),
        forall|j: int| 0 <= j < from ==> is_ws(s[j]),
    ensures
        trim_start(s) == trim_start(s.subrange(from, s.len() as int)),
    decreases from,
{
    if from > 0 {
        assert(s.drop_first() =~= s.subrange(1, s.len() as int));
        let t = s.drop_first();
        assert forall|j: int| 0 <= j < from - 1 implies is_ws(t[j]) by {
            assert(t[j] == s[j + 1]);
        }
        lemma_trim_start_skip(t, from - 1);
        assert(t.subrange(from - 1, t.len() as int) =~= s.subrange(from, s.len() as int));
    } else {
        assert(s.subrange(0, s.len() as int) =~= s);
    }
}

proof fn lemma_trim_end_cut(s: Seq<char>, to: int)
    requires
        0 <= to <= s.len(),
        forall|j: int| to <= j < s.len() ==> is_ws(s[j]),
    ensures
        trim_end(s) == trim_end(s.subrange(0, to)),
    decreases s.len() - to,
{
    if to < s.len() {
        let t = s.drop_last();
        lemma_trim_end_cut(t, to);
        assert(t.subrange(0, to) =~= s.subrange(0, to));
    } else {
        assert(s.subrange(0, to) =~= s);
    }
}

/// Positions `(a, b)` such that `v[a..b]` is `v` with surrounding
/// whitespace removed; `leading_only` keeps trailing whitespace.
fn trim_bounds(v: &Vec<char>, leading_only: bool) -> (r: (usize, usize))
    ensures
        r.0 <= r.1 <= v.len(),
        leading_only ==> v@.subrange(r.0 as int, r.1 as int) == trim_start(v@),
        !leading_only ==> v@.subrange(r.0 as int, r.1 as int) == trim(v@),
{
    let mut a: usize = 0;
    while a < v.len() && is_whitespace(v[a])
        invariant
            a <= v.len(),
            forall|j: int| 0 <= j < a ==> is_ws(v@[j]),
        decreases v.len() - a,
    {
        a = a + 1;
    }
    proof {
        lemma_trim_start_skip(v@, a as int);
        let rest = v@.subrange(a as int, v.len() as int);
        if rest.len() > 0 {
            assert(rest[0] == v@[a as int]);
        }
        assert(trim_start(rest) == rest);
    }
    if leading_only {
        return (a, v.len());
    }
    let mut b: usize = v.len();
    while b > a && is_whitespace(v[b - 1])
        invariant
            a <= b <= v.len(),
            forall|j: int| b <= j < v.len() ==> is_ws(v@[j]),
        decreases b - a,
    {
        b = b - 1;
    }
    proof {
        let rest = v@.subrange(a as int, v.len() as int);
        assert forall|j: int| b - a <= j < rest.len() implies is_ws(rest[j]) by {
            assert(rest[j] == v@[a + j]);
        }
        lemma_trim_end_cut(rest, b - a);
        let mid = rest.subrange(0, b - a);
        assert(mid =~= v@.subrange(a as int, b as int));
        if mid.len() > 0 {
            assert(mid.last() == v@[b - 1]);
        }
        assert(trim_end(mid) == mid);
    }
    (a, b)
}

/// `s` with surrounding whitespace removed.
pub fn trim_chars(v: &Vec<char>) -> (s: String)
    ensures
        s@ == trim(v@),
{
    let (a, b) = trim_bounds(v, false);
    string_of_range(v, a, b)
}

/// `s` with leading whitespace removed.
pub fn trim_start_chars(v: &Vec<char>) -> (s: String)
    ensures
        s@ == trim_start(v@),
{
    let (a, b) = trim_bounds(v, true);
    string_of_range(v, a, b)
}

/// Whether `s` begins with `p`.
pub open spec fn has_prefix(s: Seq<char>, p: Seq<char>) -> bool {
    p.len() <= s.len() && s.subrange(0, p.len() as int) == p
}

/// Whether `v` begins with the characters of `p`.
pub fn starts_with(v: &Vec<char>, p: &str) -> (r: bool)
    ensures
        r == has_prefix(v@, p@),
{
    let pc = chars_of(p);
    if pc.len() > v.len() {
        return false;
    }
    let mut i: usize = 0;
    while i < pc.len()
        invariant
            pc@ == p@,
            pc.len() <= v.len(),
            i <= pc.len(),
            forall|j: int| 0 <= j < i ==> v@[j] == pc@[j],
        decreases pc.len() - i,
    {
        if v[i] != pc[i] {
            assert(v@.subrange(0, pc.len() as int)[i as int] != p@[i as int]);
            return false;
        }
        i = i + 1;
    }
    assert(v@.subrange(0, pc.len() as int) =~= p@);
    true
}


/// `line` without one trailing carriage return.
pub open spec fn strip_cr(line: Seq<char>) -> Seq<char> {
    if line.len() > 0 && line.last() == '\r' {
        line.drop_last()
    } else {
        line
    }
}

/// Scanning state after reading `s`: the completed lines and the line in
/// progress.
pub open spec fn line_scan(s: Seq<char>) -> (Seq<Seq<char>>, Seq<char>)
    decreases s.len(),
{
    if s.len() == 0 {
        (Seq::empty(), Seq::empty())
    } else {
        let (done, cur) = line_scan(s.drop_last());
        if s.last() == '\n' {
            (done.push(strip_cr(cur)), Seq::empty())
        } else {
            (done, cur.push(s.last()))
        }
    }
}

/// The lines of `s` as std's `str::lines` yields them: split at `\n`, a
/// `\r` before the `\n` removed, and no empty line after a final `\n`.
pub open spec fn lines(s: Seq<char>) -> Seq<Seq<char>> {
    let (done, cur) = line_scan(s);
    if cur.len() > 0 {
        done.push(cur)
    } else {
        done
    }
}

/// The lines of `v` (see [`lines`]).
pub fn lines_of(v: &Vec<char>) -> (r: Vec<Vec<char>>)
    ensures
        r@.len() == lines(v@).len(),
        forall|i: int| 0 <= i < r@.len() ==> #[trigger] r@[i]@ == lines(v@)[i],
{
    let mut done: Vec<Vec<char>> = Vec::new();
    let mut cur: Vec<char> = Vec::new();
    let mut i: usize = 0;
    while i < v.len()
        invariant
            i <= v.len(),
            done@.len() == line_scan(v@.take(i as int)).0.len(),
            forall|k: int| 0 <= k < done@.len() ==> #[trigger] done@[k]@ == line_scan(v@.take(i as int)).0[k],
            cur@ == line_scan(v@.take(i as int)).1,
        decreases v.len() - i,
    {
        let c = v[i];
        proof {
            assert(v@.take(i + 1).drop_last() =~= v@.take(i as int));
        }
        if c == '\n' {
            let mut line = cur;
            if line.len() > 0 && line[line.len() - 1] == '\r' {
                line.pop();
            }
            proof {
                assert(line@ =~= strip_cr(cur@));
            }
            done.push(line);
            cur = Vec::new();
        } else {
            cur.push(c);
        }
        i = i + 1;
    }
    assert(v@.take(v.len() as int) =~= v@);
    if cur.len() > 0 {
        done.push(cur);
    }
    done
}

/// The first line of `s`, or nothing when `s` has no line.
pub open spec fn first_line(s: Seq<char>) -> Seq<char> {
    if lines(s).len() > 0 {
        lines(s)[0]
    } else {
        Seq::empty()
    }
}

/// Whether `s` is valid UTF-8 and both `start` and `end` fall on character
/// boundaries with `start <= end <= s.len()`.
pub open spec fn valid_byte_range(s: Seq<u8>, start: int, end: int) -> bool {
    &&& 0 <= start <= end <= s.len()
    &&& is_char_boundary(s, start)
    &&& is_char_boundary(s, end)
}

/// The text of the bytes `start..end` of the string whose bytes are `s`, when
/// that range cuts `s` at character boundaries.
pub open spec fn text_at(s: Seq<u8>, start: int, end: int) -> Option<Seq<char>> {
    if valid_byte_range(s, start, end) {
        Some(decode_utf8(s.subrange(start, end)))
    } else {
        None
    }
}

/// The text of `s` between the byte offsets `start` and `end`, or `None` when
/// the range is out of bounds or splits a character.
pub fn slice_text(s: &str, start: usize, end: usize) -> (r: Option<String>)
    ensures
        r matches Some(t) ==> text_at(s.spec_bytes(), start as int, end as int) == Some(t@),
        r is None ==> text_at(s.spec_bytes(), start as int, end as int) is None,
{
    proof {
        encode_utf8_valid_utf8(s@);
    }
    let n = s.as_bytes().len();
    if !(start <= end && end <= n) {
        assert(!valid_byte_range(s.spec_bytes(), start as int, end as int));
        return None;
    }
    if !s.is_char_boundary(start) || !s.is_char_boundary(end) {
        return None;
    }
    let (head, _) = s.split_at(end);
    proof {
        valid_utf8_split(s.spec_bytes(), end as int);
        decode_utf8_encode_utf8(head.spec_bytes());
        encode_utf8_decode_utf8(head@);
        is_char_boundary_start_end_of_seq(head.spec_bytes());
        if 0 < start < end {
            is_char_boundary_iff_not_is_continuation_byte(s.spec_bytes(), start as int);
            is_char_boundary_iff_not_is_continuation_byte(head.spec_bytes(), start as int);
            assert(head.spec_bytes()[start as int] == s.spec_bytes()[start as int]);
        }
    }
    let (_, mid) = head.split_at(start);
    proof {
        assert(mid.spec_bytes() =~= s.spec_bytes().subrange(start as int, end as int));
        valid_utf8_split(head.spec_bytes(), start as int);
        decode_utf8_encode_utf8(mid.spec_bytes());
        encode_utf8_decode_utf8(mid@);
    }
    let t = mid.to_owned();
    Some(t)
}


/// The text std's `String::from_utf8_lossy` makes of `bytes`.
pub uninterp spec fn lossy_text(bytes: Seq<u8>) -> Seq<char>;

/// The text of `bytes`, with each invalid UTF-8 sequence replaced by
/// `U+FFFD`.
///
/// Trusted: calls std's `String::from_utf8_lossy`. Its result is named by
/// [`lossy_text`]; its documentation states that valid UTF-8 comes back
/// unchanged, which is the one further claim.
#[verifier::external_body]
pub(crate) fn utf8_lossy(bytes: &[u8]) -> (s: String)
    ensures
        s@ == lossy_text(bytes@),
        valid_utf8(bytes@) ==> s@ == decode_utf8(bytes@),
{
    String::from_utf8_lossy(bytes).into_owned()
}

/// Whether `a` and `b` hold the same bytes.
pub fn bytes_eq(a: &[u8], b: &[u8]) -> (r: bool)
    ensures
        r == (a@ == b@),
{
    if a.len() != b.len() {
        return false;
    }
    let mut i: usize = 0;
    while i < a.len()
        invariant
            a.len() == b.len(),
            i <= a.len(),
            forall|j: int| 0 <= j < i ==> a@[j] == b@[j],
        decreases a.len() - i,
    {
        if a[i] != b[i] {
            return false;
        }
        i = i + 1;
    }
    assert(a@ =~= b@);
    true
}

/// Whether `bytes` holds a NUL byte (the mark of a binary file).
pub fn has_nul(bytes: &[u8]) -> (r: bool)
    ensures
        r == bytes@.contains(0u8),
{
    let mut i: usize = 0;
    while i < bytes.len()
        invariant
            i <= bytes.len(),
            forall|j: int| 0 <= j < i ==> bytes@[j] != 0u8,
        decreases bytes.len() - i,
    {
        if bytes[i] == 0 {
            assert(bytes@[i as int] == 0u8);
            return true;
        }
        i = i + 1;
    }
    false
}

/// The text of `s` as a string (the bytes of its encoding).
pub open spec fn bytes_of(s: Seq<char>) -> Seq<u8> {
    encode_utf8(s)
}


/// A copy of `v`.
pub fn copy_strings(v: &Vec<String>) -> (r: Vec<String>)
    ensures
        texts(r@) == texts(v@),
{
    let mut r: Vec<String> = Vec::new();
    let mut i: usize = 0;
    while i < v.len()
        invariant
            i <= v.len(),
            texts(r@) == texts(v@).take(i as int),
        decreases v.len() - i,
    {
        let ghost before = r@;
        r.push(v[i].clone());
        proof {
            assert(texts(r@) =~= texts(before).push(v@[i as int]@));
            assert(texts(v@).take(i + 1) =~= texts(v@).take(i as int).push(v@[i as int]@));
        }
        i = i + 1;
    }
    assert(texts(v@).take(v.len() as int) =~= texts(v@));
    r
}


/// The texts `v` joined with `sep` between neighbours.
pub open spec fn joined(v: Seq<Seq<char>>, sep: Seq<char>) -> Seq<char>
    decreases v.len(),
{
    if v.len() == 0 {
        Seq::empty()
    } else if v.len() == 1 {
        v[0]
    } else {
        joined(v.drop_last(), sep) + sep + v.last()
    }
}

/// The strings `v` joined with `sep` between neighbours.
pub fn join(v: &Vec<String>, sep: &str) -> (r: String)
    ensures
        r@ == joined(texts(v@), sep@),
{
    let ghost vv = texts(v@);
    let mut r = String::new();
    let mut i: usize = 0;
    while i < v.len()
        invariant
            i <= v.len(),
            vv == texts(v@),
            r@ == joined(vv.take(i as int), sep@),
        decreases v.len() - i,
    {
        proof {
            assert(vv.take(i + 1).drop_last() =~= vv.take(i as int));
            assert(vv.take(i + 1).last() == vv[i as int]);
            if i == 0 {
                assert(vv.take(1) =~= seq![vv[0]]);
                assert(r@ =~= Seq::<char>::empty());
            }
        }
        if i > 0 {
            r.append(sep);
        }
        r.append(v[i].as_str());
        proof {
            if i == 0 {
                assert(r@ =~= vv[0]);
            }
        }
        i = i + 1;
    }
    assert(vv.take(v.len() as int) =~= vv);
    r
}


/// Among ASCII characters, the whitespace ones are exactly space, tab, line
/// feed, vertical tab, form feed and carriage return.
pub proof fn lemma_ascii_whitespace(c: char)
    requires
        (c as u32) < 128,
    ensures
        is_ws(c) <==> (c == ' ' || c == '\t' || c == '\n' || c == '\u{b}' || c == '\u{c}' || c == '\r'),
{
}
} // verus!
