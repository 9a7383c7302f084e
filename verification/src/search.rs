//! Regex search over indexed files using the ripgrep backend.

use vstd::prelude::*;

use grep_regex::RegexMatcher;
use grep_searcher::{sinks, Searcher};

use crate::index::ReadError;
use crate::order::{lemma_text_le_total_trans, text_lt, texts_strictly_sorted};
use crate::paths::PathError;
use crate::text::{lossy_text, str_eq, utf8_lossy};

verus! {

/// Errors from searching the codebase.
#[derive(Debug)]
pub enum SearchError {
    Path(PathError),
    Read(ReadError),
    /// Listing or searching the files failed; holds the reason.
    Io(String),
    /// The pattern is not a valid regex.
    InvalidRegex(String),
    /// The extension filter is malformed (empty or contains a path separator).
    InvalidExtension,
}

impl SearchError {
    /// The error's message.
    pub fn message(&self) -> (s: String)
        ensures
            s@ == match self {
                SearchError::Path(e) => crate::index::path_error_message(*e),
                SearchError::Read(e) => crate::index::read_error_message(*e),
                SearchError::Io(m) => m@,
                SearchError::InvalidRegex(m) => "invalid regex: "@ + m@,
                SearchError::InvalidExtension => "invalid extension filter"@,
            },
    {
        match self {
            SearchError::Path(e) => e.message(),
            SearchError::Read(e) => e.message(),
            SearchError::Io(m) => m.clone(),
            SearchError::InvalidRegex(m) => {
                let mut s = String::from_str("invalid regex: ");
                s.append(m.as_str());
                s
            },
            SearchError::InvalidExtension => String::from_str("invalid extension filter"),
        }
    }
}

/// A single match: file, 1-indexed line number, and the matching line text.
#[derive(Debug, Clone, PartialEq, Eq)]
pub struct SearchMatch {
    pub file: String,
    pub line: usize,
    pub text: String,
}

/// The mathematical content of a [`SearchMatch`].
pub struct SearchMatchView {
    pub file: Seq<char>,
    pub line: int,
    pub text: Seq<char>,
}

impl View for SearchMatch {
    type V = SearchMatchView;

    open spec fn view(&self) -> SearchMatchView {
        SearchMatchView { file: self.file@, line: self.line as int, text: self.text@ }
    }
}

/// grep-regex's compiled matcher, carried opaquely.
#[verifier::external_type_specification]
#[verifier::external_body]
pub struct ExRegexMatcher(RegexMatcher);

/// What grep-regex's `RegexMatcher::new` says of `pattern`: `None` when it
/// compiles, else the text of its error.
pub uninterp spec fn regex_error(pattern: Seq<char>) -> Option<Seq<char>>;

/// The matching lines that grep-searcher's default searcher reports for
/// `bytes` with the matcher compiled from `pattern`: each line's number and
/// its bytes, line terminator included, in order; `None` when the search
/// fails.
pub uninterp spec fn line_matches(pattern: Seq<char>, bytes: Seq<u8>) -> Option<Seq<(u64, Seq<u8>)>>;

/// A compiled search pattern.
pub struct Matcher {
    inner: RegexMatcher,
    pattern: String,
}

impl Matcher {
    /// The pattern this matcher was compiled from.
    pub closed spec fn pattern(&self) -> Seq<char> {
        self.pattern@
    }
}

/// Compile `pattern` into a matcher.
///
/// Trusted: calls grep-regex's `RegexMatcher::new`. What it accepts and the
/// text of its error are named by [`regex_error`].
#[verifier::external_body]
fn compile_pattern(pattern: &str) -> (r: Result<Matcher, String>)
    ensures
        match r {
            Ok(m) => regex_error(pattern@) is None && m.pattern() == pattern@,
            Err(e) => regex_error(pattern@) == Some(e@),
        },
{
    match RegexMatcher::new(pattern) {
        Ok(inner) => Ok(Matcher { inner, pattern: pattern.to_string() }),
        Err(e) => Err(e.to_string()),
    }
}

/// Record one reported line.
fn record_hit(hits: &mut Vec<(u64, Vec<u8>)>, line_number: u64, line: &[u8])
    ensures
        final(hits)@.len() == old(hits)@.len() + 1,
        forall|i: int| 0 <= i < old(hits)@.len() ==> #[trigger] final(hits)@[i] == old(hits)@[i],
        final(hits)@[old(hits)@.len() as int].0 == line_number,
        final(hits)@[old(hits)@.len() as int].1@ == line@,
{
    let mut copy: Vec<u8> = Vec::new();
    let mut i: usize = 0;
    while i < line.len()
        invariant
            i <= line.len(),
            copy@ == line@.take(i as int),
        decreases line.len() - i,
    {
        copy.push(line[i]);
        assert(line@.take(i + 1) =~= line@.take(i as int).push(line@[i as int]));
        i = i + 1;
    }
    assert(line@.take(line.len() as int) =~= line@);
    hits.push((line_number, copy));
}

/// The lines of `bytes` that `m` matches, with their line numbers.
///
/// Trusted: calls grep-searcher's `Searcher::search_slice` with a default
/// `Searcher` and its `sinks::Bytes` sink, which hands over each matching
/// line's number and bytes; the result is named by [`line_matches`] of the
/// pattern the matcher was compiled from (the only way to make a
/// [`Matcher`] is [`compile_pattern`]). The searcher walks the text forward
/// one line at a time, starting its line count at 1 and adding the line
/// terminators it passes, and reports each matching line once, never the
/// empty position after the last terminator: so the reported numbers are
/// 1-based, strictly ascending and at most the length of the text. The text
/// of an error is not stated.
#[verifier::external_body]
fn matching_lines(m: &Matcher, bytes: &[u8]) -> (r: Result<Vec<(u64, Vec<u8>)>, String>)
    ensures
        match r {
            Ok(v) => line_matches(m.pattern(), bytes@) == Some(v@.map_values(|h: (u64, Vec<u8>)| (h.0, h.1@)))
                && lines_ascending(v@.map_values(|h: (u64, Vec<u8>)| (h.0, h.1@)), bytes@.len() as int),
            Err(_) => line_matches(m.pattern(), bytes@) is None,
        },
{
    let mut hits: Vec<(u64, Vec<u8>)> = Vec::new();
    let res = Searcher::new().search_slice(&m.inner, bytes, sinks::Bytes(|n, line| {
        record_hit(&mut hits, n, line);
        Ok(true)
    }));
    match res {
        Ok(()) => Ok(hits),
        Err(e) => Err(e.to_string()),
    }
}

/// Whether the reported lines `h` of a text of `len` bytes carry 1-based line
/// numbers, strictly ascending, none past `len`.
pub open spec fn lines_ascending(h: Seq<(u64, Seq<u8>)>, len: int) -> bool {
    &&& forall|i: int| 0 <= i < h.len() ==> 1 <= (#[trigger] h[i]).0 <= len
    &&& forall|i: int, j: int| 0 <= i < j < h.len() ==> (#[trigger] h[i]).0 < (#[trigger] h[j]).0
}

/// Whether the matches `ms` come in (file, then line) order: files in std's
/// string order, lines ascending within a file.
pub open spec fn in_file_line_order(ms: Seq<SearchMatchView>) -> bool {
    forall|i: int, j: int|
        0 <= i < j < ms.len() ==> text_lt((#[trigger] ms[i]).file, (#[trigger] ms[j]).file) || (ms[i].file
            == ms[j].file && ms[i].line < ms[j].line)
}

/// `c` with an ASCII upper-case letter made lower-case.
pub open spec fn ascii_lower_char(c: char) -> char {
    if 'A' <= c <= 'Z' {
        ((c as u32) + 32) as char
    } else {
        c
    }
}

/// `s` with its ASCII upper-case letters made lower-case.
pub open spec fn ascii_lower(s: Seq<char>) -> Seq<char> {
    s.map_values(|c: char| ascii_lower_char(c))
}

/// `s` with its ASCII upper-case letters made lower-case.
pub fn to_ascii_lower(s: &str) -> (r: String)
    ensures
        r@ == ascii_lower(s@),
{
    let v = crate::text::chars_of(s);
    let mut out: Vec<char> = Vec::new();
    let mut i: usize = 0;
    while i < v.len()
        invariant
            i <= v.len(),
            v@ == s@,
            out@ == ascii_lower(s@).take(i as int),
        decreases v.len() - i,
    {
        let c = v[i];
        let l = if 'A' <= c && c <= 'Z' {
            ((c as u8) + 32) as char
        } else {
            c
        };
        proof {
            if 'A' <= c && c <= 'Z' {
                assert((c as u8) as u32 == c as u32);
            }
            assert(l == ascii_lower_char(c));
            assert(ascii_lower(s@).take(i + 1) =~= ascii_lower(s@).take(i as int).push(l));
        }
        out.push(l);
        i = i + 1;
    }
    assert(ascii_lower(s@).take(v.len() as int) =~= ascii_lower(s@));
    crate::text::string_of(out.as_slice())
}

/// The extension filter `ext` stands for: without one leading `.`, in
/// lower case; `None` when that is empty or holds a path separator.
pub open spec fn extension_filter(ext: Seq<char>) -> Option<Seq<char>> {
    let e = if ext.len() > 0 && ext[0] == '.' {
        ext.drop_first()
    } else {
        ext
    };
    if e.len() == 0 || e.contains('/') || e.contains('\\') {
        None
    } else {
        Some(ascii_lower(e))
    }
}

/// Normalize an extension filter: strip a leading dot and reject path
/// separators or empty values.
pub fn normalize_extension(ext: &str) -> (r: Result<String, SearchError>)
    ensures
        match extension_filter(ext@) {
            Some(e) => r matches Ok(s) && s@ == e,
            None => r matches Err(SearchError::InvalidExtension),
        },
{
    let v = crate::text::chars_of(ext);
    let start: usize = if v.len() > 0 && v[0] == '.' {
        1
    } else {
        0
    };
    let e = crate::text::string_of_range(&v, start, v.len());
    proof {
        if start == 1 {
            assert(e@ =~= ext@.drop_first());
        } else {
            assert(e@ =~= ext@);
        }
    }
    let ev = crate::text::chars_of(e.as_str());
    let mut i: usize = 0;
    while i < ev.len()
        invariant
            i <= ev.len(),
            ev@ == e@,
            e@ == (if ext@.len() > 0 && ext@[0] == '.' {
                ext@.drop_first()
            } else {
                ext@
            }),
            forall|j: int| 0 <= j < i ==> ev@[j] != '/' && ev@[j] != '\\',
        decreases ev.len() - i,
    {
        if ev[i] == '/' || ev[i] == '\\' {
            proof {
                assert(e@.contains(ev@[i as int]));
            }
            return Err(SearchError::InvalidExtension);
        }
        i = i + 1;
    }
    if ev.len() == 0 {
        return Err(SearchError::InvalidExtension);
    }
    Ok(to_ascii_lower(e.as_str()))
}

/// The extension of `path` as the search compares it: what follows its last
/// `.` (all of it when it has none), in lower case.
pub open spec fn path_extension(path: Seq<char>) -> Seq<char> {
    ascii_lower(path.subrange(crate::languages::after_last(path, '.'), path.len() as int))
}

/// The extension of `path` as the search compares it.
fn extension_of(path: &str) -> (r: String)
    ensures
        r@ == path_extension(path@),
{
    let v = crate::text::chars_of(path);
    let mut i = v.len();
    assert(v@.subrange(0, i as int) =~= v@);
    while i > 0 && v[i - 1] != '.'
        invariant
            i <= v.len(),
            v@ == path@,
            crate::languages::after_last(v@.subrange(0, i as int), '.') == crate::languages::after_last(path@, '.'),
        decreases i,
    {
        assert(v@.subrange(0, i as int).drop_last() =~= v@.subrange(0, i - 1));
        i = i - 1;
    }
    let tail = crate::text::string_of_range(&v, i, v.len());
    to_ascii_lower(tail.as_str())
}

/// The matches of file `path` for the reported lines `hits`.
pub open spec fn hits_of(path: Seq<char>, hits: Seq<(u64, Seq<u8>)>) -> Seq<SearchMatchView> {
    hits.map_values(|h: (u64, Seq<u8>)| SearchMatchView { file: path, line: h.0 as usize as int, text: lossy_text(h.1) })
}

/// The first `n` elements of `s`, or all of them when it has fewer.
pub open spec fn first_n<A>(s: Seq<A>, n: int) -> Seq<A> {
    if n >= s.len() {
        s
    } else {
        s.take(n)
    }
}

/// The matches gathered after offering `path` with content `bytes` to a
/// search for `pattern` restricted to extension `ext` that has gathered `acc`
/// of at most `max`: unchanged when full or filtered out, else extended by the
/// file's first matches up to `max`; `None` when searching it fails.
pub open spec fn offer_file(
    pattern: Seq<char>,
    ext: Option<Seq<char>>,
    max: int,
    acc: Seq<SearchMatchView>,
    path: Seq<char>,
    bytes: Seq<u8>,
) -> Option<Seq<SearchMatchView>> {
    if acc.len() >= max {
        Some(acc)
    } else if ext matches Some(e) && path_extension(path) != e {
        Some(acc)
    } else {
        match line_matches(pattern, bytes) {
            None => None,
            Some(h) => Some(acc + first_n(hits_of(path, h), max - acc.len())),
        }
    }
}

/// The matches gathered from the first `n` of `files`; `None` once a
/// search fails.
pub open spec fn search_upto(
    files: Seq<(String, Vec<u8>)>,
    pattern: Seq<char>,
    ext: Option<Seq<char>>,
    max: int,
    n: int,
) -> Option<Seq<SearchMatchView>>
    decreases n,
{
    if n <= 0 {
        Some(Seq::empty())
    } else {
        match search_upto(files, pattern, ext, max, n - 1) {
            None => None,
            Some(acc) => offer_file(pattern, ext, max, acc, files[n - 1].0@, files[n - 1].1@),
        }
    }
}

/// A search in progress: the compiled pattern, the extension filter, the
/// limit and the matches gathered so far.
pub struct SearchState {
    matcher: Matcher,
    ext: Option<String>,
    max: usize,
    results: Vec<SearchMatch>,
}

impl SearchState {
    /// The pattern searched for.
    pub closed spec fn pattern(&self) -> Seq<char> {
        self.matcher.pattern()
    }

    /// The extension filter, if any.
    pub closed spec fn ext(&self) -> Option<Seq<char>> {
        match self.ext {
            Some(e) => Some(e@),
            None => None,
        }
    }

    /// The most matches the search returns.
    pub closed spec fn max(&self) -> int {
        self.max as int
    }

    /// The matches gathered so far.
    pub closed spec fn results(&self) -> Seq<SearchMatchView> {
        self.results@.map_values(|m: SearchMatch| m@)
    }

    /// Start a search for `pattern`, restricted to files with extension
    /// `extension` when given, returning up to `max_results` matches. Errors
    /// when the pattern does not compile or the extension is malformed.
    pub fn start(pattern: &str, extension: Option<&str>, max_results: usize) -> (r: Result<SearchState, SearchError>)
        ensures
            match regex_error(pattern@) {
                Some(msg) => r matches Err(SearchError::InvalidRegex(m)) && m@ == msg,
                None => match extension {
                    Some(e) => match extension_filter(e@) {
                        None => r matches Err(SearchError::InvalidExtension),
                        Some(f) => r matches Ok(s) && s.pattern() == pattern@ && s.ext() == Some(f) && s.max()
                            == max_results && s.results() == Seq::<SearchMatchView>::empty(),
                    },
                    None => r matches Ok(s) && s.pattern() == pattern@ && s.ext() is None && s.max() == max_results
                        && s.results() == Seq::<SearchMatchView>::empty(),
                },
            },
    {
        let matcher = match compile_pattern(pattern) {
            Ok(m) => m,
            Err(msg) => {
                return Err(SearchError::InvalidRegex(msg));
            },
        };
        let ext = match extension {
            Some(e) => match normalize_extension(e) {
                Ok(n) => Some(n),
                Err(err) => {
                    return Err(err);
                },
            },
            None => None,
        };
        let s = SearchState { matcher, ext, max: max_results, results: Vec::new() };
        assert(s.results() =~= Seq::<SearchMatchView>::empty());
        Ok(s)
    }

    /// Whether the search still takes files: fewer than the limit gathered.
    pub fn wants_more(&self) -> (r: bool)
        ensures
            r == (self.results().len() < self.max()),
    {
        self.results.len() < self.max
    }

    /// Whether the file at `path` passes the extension filter.
    pub fn accepts(&self, path: &str) -> (r: bool)
        ensures
            r == !(self.ext() matches Some(e) && path_extension(path@) != e),
    {
        match &self.ext {
            Some(e) => {
                let pe = extension_of(path);
                str_eq(pe.as_str(), e.as_str())
            },
            None => true,
        }
    }

    /// Offer the file at `path` with content `bytes`: its first matches are
    /// gathered, up to the limit, unless the search is full or the file is
    /// filtered out. Errors when searching the file fails, leaving the
    /// matches as they were.
    pub fn feed(&mut self, path: &str, bytes: &[u8]) -> (r: Result<(), SearchError>)
        ensures
            final(self).pattern() == old(self).pattern(),
            final(self).ext() == old(self).ext(),
            final(self).max() == old(self).max(),
            match offer_file(old(self).pattern(), old(self).ext(), old(self).max(), old(self).results(), path@, bytes@) {
                None => r matches Err(SearchError::Io(_)) && final(self).results() == old(self).results(),
                Some(acc) => r is Ok && final(self).results() == acc,
            },
            r is Ok && old(self).results().len() < old(self).max() && !(old(self).ext() matches Some(e)
                && path_extension(path@) != e) ==> (line_matches(old(self).pattern(), bytes@) matches Some(h)
                && lines_ascending(h, bytes@.len() as int)),
            r is Ok ==> {
                &&& final(self).results().take(old(self).results().len() as int) == old(self).results()
                &&& forall|i: int|
                    old(self).results().len() <= i < final(self).results().len()
                        ==> (#[trigger] final(self).results()[i]).file == path@ && final(self).results()[i].line >= 1
                &&& forall|i: int, j: int|
                    old(self).results().len() <= i < j < final(self).results().len()
                        ==> (#[trigger] final(self).results()[i]).line < (#[trigger] final(self).results()[j]).line
            },
    {
        if !self.wants_more() || !self.accepts(path) {
            assert(self.results().take(self.results().len() as int) =~= self.results());
            return Ok(());
        }
        let hits = match matching_lines(&self.matcher, bytes) {
            Ok(h) => h,
            Err(msg) => {
                return Err(SearchError::Io(msg));
            },
        };
        let ghost start = self.results();
        let ghost hv = hits@.map_values(|h: (u64, Vec<u8>)| (h.0, h.1@));
        let ghost want = hits_of(path@, hv);
        proof {
            assert forall|i: int| 0 <= i < want.len() implies (#[trigger] want[i]).file == path@ && want[i].line
                == hv[i].0 && 1 <= want[i].line by {
                assert(bytes@.len() == bytes.len());
                assert(1 <= hv[i].0 <= bytes@.len());
                assert(hv[i].0 as usize == hv[i].0);
            }
        }
        let room = self.max - self.results.len();
        let mut k: usize = 0;
        while k < hits.len() && k < room
            invariant
                k <= hits.len(),
                k <= room,
                room == self.max - start.len(),
                start.len() < self.max,
                hv == hits@.map_values(|h: (u64, Vec<u8>)| (h.0, h.1@)),
                want == hits_of(path@, hv),
                self.results() == start + want.take(k as int),
                self.pattern() == old(self).pattern(),
                self.ext() == old(self).ext(),
                self.max() == old(self).max(),
            decreases hits.len() - k,
        {
            let ghost before = self.results@;
            let m = SearchMatch {
                file: String::from_str(path),
                line: hits[k].0 as usize,
                text: utf8_lossy(hits[k].1.as_slice()),
            };
            self.results.push(m);
            proof {
                assert(hv[k as int] == (hits@[k as int].0, hits@[k as int].1@));
                assert(self.results() =~= before.map_values(|m: SearchMatch| m@).push(want[k as int]));
                assert(want.take(k + 1) =~= want.take(k as int).push(want[k as int]));
            }
            k = k + 1;
        }
        proof {
            if k == hits.len() {
                assert(want.take(k as int) =~= want);
            }
            let fin = self.results();
            assert(fin.take(start.len() as int) =~= start);
            assert forall|i: int| start.len() <= i < fin.len() implies (#[trigger] fin[i]).file == path@ && fin[i].line
                >= 1 by {
                assert(fin[i] == want[i - start.len()]);
            }
            assert forall|i: int, j: int| start.len() <= i < j < fin.len() implies (#[trigger] fin[i]).line < (
            #[trigger] fin[j]).line by {
                assert(fin[i] == want[i - start.len()]);
                assert(fin[j] == want[j - start.len()]);
                assert(hv[i - start.len()].0 < hv[j - start.len()].0);
            }
        }
        Ok(())
    }

    /// The matches gathered.
    pub fn finish(self) -> (r: Vec<SearchMatch>)
        ensures
            r@.map_values(|m: SearchMatch| m@) == self.results(),
    {
        self.results
    }
}

/// Search `files` (each a root-relative path and the file's content, in
/// listing order) for `pattern`, returning up to `max_results` matches in
/// deterministic (file, then line) order. `extension` optionally restricts
/// the search to files with that extension.
pub fn search_codebase(
    files: &Vec<(String, Vec<u8>)>,
    pattern: &str,
    extension: Option<&str>,
    max_results: usize,
) -> (r: Result<Vec<SearchMatch>, SearchError>)
    ensures
        match regex_error(pattern@) {
            Some(msg) => r matches Err(SearchError::InvalidRegex(m)) && m@ == msg,
            None => match extension {
                Some(e) if extension_filter(e@) is None => r matches Err(SearchError::InvalidExtension),
                _ => {
                    let ext = match extension {
                        Some(e) => extension_filter(e@),
                        None => None,
                    };
                    match search_upto(files@, pattern@, ext, max_results as int, files@.len() as int) {
                        None => r matches Err(SearchError::Io(_)),
                        Some(ms) => r matches Ok(v) && v@.map_values(|m: SearchMatch| m@) == ms,
                    }
                },
            },
        },
        texts_strictly_sorted(files@.map_values(|f: (String, Vec<u8>)| f.0@)) ==> (r matches Ok(v)
            ==> in_file_line_order(v@.map_values(|m: SearchMatch| m@))),
{
    let ghost paths = files@.map_values(|f: (String, Vec<u8>)| f.0@);
    let mut state = match SearchState::start(pattern, extension, max_results) {
        Ok(s) => s,
        Err(e) => {
            return Err(e);
        },
    };
    let ghost ext = state.ext();
    let mut i: usize = 0;
    while i < files.len()
        invariant
            i <= files.len(),
            state.pattern() == pattern@,
            state.ext() == ext,
            state.max() == max_results,
            regex_error(pattern@) is None,
            ext == (match extension {
                Some(e) => extension_filter(e@),
                None => None,
            }),
            extension matches Some(e) ==> extension_filter(e@) is Some,
            search_upto(files@, pattern@, ext, max_results as int, i as int) == Some(state.results()),
            paths == files@.map_values(|f: (String, Vec<u8>)| f.0@),
            lines_ascending_where_searched(files@, pattern@, ext, max_results as int, i as int),
        decreases files.len() - i,
    {
        if !state.wants_more() {
            proof {
                lemma_search_full(files@, pattern@, ext, max_results as int, i as int, files@.len() as int);
                if texts_strictly_sorted(paths) {
                    lemma_search_in_order(files@, pattern@, ext, max_results as int, i as int);
                }
            }
            return Ok(state.finish());
        }
        match state.feed(files[i].0.as_str(), files[i].1.as_slice()) {
            Ok(()) => {
                proof {
                    assert forall|k: int|
                        0 <= k < i + 1 && #[trigger] searched_at(files@, pattern@, ext, max_results as int, k) implies (
                        line_matches(pattern@, files@[k].1@) matches Some(h) ==> lines_ascending(h, files@[k].1@.len() as int)) by {
                        if k == i {
                            assert(files@[k].1@ == files@[i as int].1@);
                        }
                    }
                }
            },
            Err(e) => {
                proof {
                    lemma_search_failed(files@, pattern@, ext, max_results as int, i + 1, files@.len() as int);
                }
                return Err(e);
            },
        }
        i = i + 1;
    }
    proof {
        if texts_strictly_sorted(paths) {
            lemma_search_in_order(files@, pattern@, ext, max_results as int, files@.len() as int);
        }
    }
    Ok(state.finish())
}

/// Whether the search over `files` offers the file at position `k` to the
/// searcher: the matches gathered before it are fewer than `max` and it
/// passes the extension filter.
pub open spec fn searched_at(
    files: Seq<(String, Vec<u8>)>,
    pattern: Seq<char>,
    ext: Option<Seq<char>>,
    max: int,
    k: int,
) -> bool {
    &&& search_upto(files, pattern, ext, max, k) matches Some(acc) && acc.len() < max
    &&& !(ext matches Some(e) && path_extension(files[k].0@) != e)
}

/// Whether every file among the first `n` that the search offers to the
/// searcher gets its matching lines in ascending order (as the searcher
/// reports them; see `matching_lines`).
pub open spec fn lines_ascending_where_searched(
    files: Seq<(String, Vec<u8>)>,
    pattern: Seq<char>,
    ext: Option<Seq<char>>,
    max: int,
    n: int,
) -> bool {
    forall|k: int|
        0 <= k < n && #[trigger] searched_at(files, pattern, ext, max, k) ==> (line_matches(pattern, files[k].1@) matches Some(
            h,
        ) ==> lines_ascending(h, files[k].1@.len() as int))
}

/// Search results come in (file, then line) order: over a listing in
/// strictly ascending path order, where the searcher reports each file's
/// lines in ascending order, the matches gathered from the first `n` files
/// are ordered by file, then line, carry 1-based line numbers, and all sort
/// before the files still to come.
pub proof fn lemma_search_in_order(
    files: Seq<(String, Vec<u8>)>,
    pattern: Seq<char>,
    ext: Option<Seq<char>>,
    max: int,
    n: int,
)
    requires
        0 <= n <= files.len(),
        texts_strictly_sorted(files.map_values(|f: (String, Vec<u8>)| f.0@)),
        lines_ascending_where_searched(files, pattern, ext, max, n),
    ensures
        search_upto(files, pattern, ext, max, n) matches Some(ms) ==> {
            &&& in_file_line_order(ms)
            &&& forall|a: int| 0 <= a < ms.len() ==> (#[trigger] ms[a]).line >= 1
            &&& forall|a: int, k: int|
                0 <= a < ms.len() && n <= k < files.len() ==> text_lt(
                    (#[trigger] ms[a]).file,
                    #[trigger] files[k].0@,
                )
        },
    decreases n,
{
    let paths = files.map_values(|f: (String, Vec<u8>)| f.0@);
    if n > 0 {
        lemma_search_in_order(files, pattern, ext, max, n - 1);
        if let Some(acc) = search_upto(files, pattern, ext, max, n - 1) {
            let path = files[n - 1].0@;
            let bytes = files[n - 1].1@;
            assert(paths[n - 1] == path);
            if acc.len() < max && !(ext matches Some(e) && path_extension(path) != e) {
                assert(searched_at(files, pattern, ext, max, n - 1));
                if let Some(h) = line_matches(pattern, bytes) {
                    let hs = hits_of(path, h);
                    let more = first_n(hs, max - acc.len());
                    let ms = acc + more;
                    assert(bytes.len() == files[n - 1].1.len());
                    assert forall|x: int| 0 <= x < more.len() implies (#[trigger] more[x]).file == path && more[x].line
                        == h[x].0 && more[x].line >= 1 by {
                        assert(more[x] == hs[x]);
                        assert(1 <= h[x].0 <= bytes.len());
                        assert(h[x].0 as usize == h[x].0);
                    }
                    assert forall|a: int, b: int| 0 <= a < b < ms.len() implies text_lt(
                        (#[trigger] ms[a]).file,
                        (#[trigger] ms[b]).file,
                    ) || (ms[a].file == ms[b].file && ms[a].line < ms[b].line) by {
                        if b < acc.len() {
                            assert(ms[a] == acc[a] && ms[b] == acc[b]);
                        } else if a < acc.len() {
                            assert(ms[a] == acc[a]);
                            assert(ms[b] == more[b - acc.len()]);
                            assert(text_lt(acc[a].file, files[n - 1].0@));
                        } else {
                            assert(ms[a] == more[a - acc.len()]);
                            assert(ms[b] == more[b - acc.len()]);
                            assert(h[a - acc.len()].0 < h[b - acc.len()].0);
                        }
                    }
                    assert forall|a: int| 0 <= a < ms.len() implies (#[trigger] ms[a]).line >= 1 by {
                        if a < acc.len() {
                            assert(ms[a] == acc[a]);
                        } else {
                            assert(ms[a] == more[a - acc.len()]);
                        }
                    }
                    assert forall|a: int, k: int|
                        0 <= a < ms.len() && n <= k < files.len() implies text_lt(
                        (#[trigger] ms[a]).file,
                        #[trigger] files[k].0@,
                    ) by {
                        assert(paths[k] == files[k].0@);
                        assert(text_lt(paths[n - 1], paths[k]));
                        if a < acc.len() {
                            assert(ms[a] == acc[a]);
                            assert(text_lt(acc[a].file, files[k].0@));
                        } else {
                            assert(ms[a] == more[a - acc.len()]);
                        }
                    }
                }
            } else {
                assert forall|a: int, k: int|
                    0 <= a < acc.len() && n <= k < files.len() implies text_lt(
                    (#[trigger] acc[a]).file,
                    #[trigger] files[k].0@,
                ) by {
                    assert(text_lt(acc[a].file, files[k].0@));
                }
            }
        }
    }
}

/// Once full, a search gathers nothing more.
proof fn lemma_search_full(
    files: Seq<(String, Vec<u8>)>,
    pattern: Seq<char>,
    ext: Option<Seq<char>>,
    max: int,
    i: int,
    n: int,
)
    requires
        0 <= i <= n,
        search_upto(files, pattern, ext, max, i) matches Some(acc) && acc.len() >= max,
    ensures
        search_upto(files, pattern, ext, max, n) == search_upto(files, pattern, ext, max, i),
    decreases n - i,
{
    if i < n {
        lemma_search_full(files, pattern, ext, max, i, n - 1);
    }
}

/// Once a search fails, it stays failed.
proof fn lemma_search_failed(
    files: Seq<(String, Vec<u8>)>,
    pattern: Seq<char>,
    ext: Option<Seq<char>>,
    max: int,
    i: int,
    n: int,
)
    requires
        0 <= i <= n,
        search_upto(files, pattern, ext, max, i) is None,
    ensures
        search_upto(files, pattern, ext, max, n) is None,
    decreases n - i,
{
    if i < n {
        lemma_search_failed(files, pattern, ext, max, i, n - 1);
    }
}


/// A search gathers at most `max` matches, each from a listed file that
/// passes the extension filter.
pub proof fn lemma_search_bounded(
    files: Seq<(String, Vec<u8>)>,
    pattern: Seq<char>,
    ext: Option<Seq<char>>,
    max: int,
    n: int,
)
    requires
        max >= 0,
        0 <= n <= files.len(),
    ensures
        search_upto(files, pattern, ext, max, n) matches Some(ms) ==> {
            &&& ms.len() <= max
            &&& forall|i: int| 0 <= i < ms.len() ==> exists|k: int| 0 <= k < n && (#[trigger] ms[i]).file == files[k].0@
            &&& forall|i: int| 0 <= i < ms.len() ==> (ext matches Some(e) ==> path_extension((#[trigger] ms[i]).file) == e)
        },
    decreases n,
{
    if n > 0 {
        lemma_search_bounded(files, pattern, ext, max, n - 1);
        match search_upto(files, pattern, ext, max, n - 1) {
            None => {},
            Some(acc) => {
                let path = files[n - 1].0@;
                if acc.len() < max && !(ext matches Some(e) && path_extension(path) != e) {
                    match line_matches(pattern, files[n - 1].1@) {
                        None => {},
                        Some(h) => {
                            let more = first_n(hits_of(path, h), max - acc.len());
                            let ms = acc + more;
                            assert forall|i: int| 0 <= i < ms.len() implies exists|k: int| 0 <= k < n && (#[trigger] ms[i]).file == files[k].0@ by {
                                if i >= acc.len() {
                                    assert(more[i - acc.len()].file == path);
                                } else {
                                    assert(ms[i] == acc[i]);
                                }
                            }
                            assert forall|i: int| 0 <= i < ms.len() implies (ext matches Some(e) ==> path_extension((#[trigger] ms[i]).file) == e) by {
                                if i >= acc.len() {
                                    assert(more[i - acc.len()].file == path);
                                } else {
                                    assert(ms[i] == acc[i]);
                                }
                            }
                        },
                    }
                }
            },
        }
    }
}


impl From<PathError> for SearchError {
    fn from(e: PathError) -> (r: SearchError) {
        SearchError::Path(e)
    }
}

impl vstd::std_specs::convert::FromSpecImpl<PathError> for SearchError {
    open spec fn obeys_from_spec() -> bool {
        true
    }

    open spec fn from_spec(e: PathError) -> SearchError {
        SearchError::Path(e)
    }
}


impl From<ReadError> for SearchError {
    fn from(e: ReadError) -> (r: SearchError) {
        SearchError::Read(e)
    }
}

impl vstd::std_specs::convert::FromSpecImpl<ReadError> for SearchError {
    open spec fn obeys_from_spec() -> bool {
        true
    }

    open spec fn from_spec(e: ReadError) -> SearchError {
        SearchError::Read(e)
    }
}

} // verus!
