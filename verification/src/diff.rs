//! Structural (symbol-level) diffs between two versions of a file.
//!
//! Both versions are parsed with the same grammar and their symbols are
//! paired by `(name, kind)` in document order. Formatting-only edits
//! (whitespace changes) are ignored, so only meaningful added, modified and
//! deleted declarations are reported.

use vstd::prelude::*;
use vstd::string::StringSliceAdditionalSpecFns;

use crate::ast::{parse, spans_valid, syntax_tree, symbols_of, Symbol, SymbolView};
use crate::languages::{language_of_path, Language};
use crate::order::{lemma_map_multiset, lemma_sorted_texts, sort, texts_sorted};
use crate::text::{
    bytes_eq, bytes_of, chars_of, has_nul, is_whitespace, is_ws, lines, lines_of, lossy_text, slice_text,
    str_eq, string_of, text_at, texts, utf8_lossy,
};

verus! {

/// Status of a symbol-level change.
#[derive(Debug, Clone, Copy, PartialEq, Eq, Structural)]
pub enum ChangeStatus {
    Added,
    Deleted,
    Modified,
}

/// A single symbol change with a concise summary.
#[derive(Debug, Clone, PartialEq, Eq)]
pub struct SymbolChange {
    pub status: ChangeStatus,
    pub name: String,
    pub kind: String,
    /// Root-relative file path.
    pub file: String,
    pub line_start: usize,
    pub line_end: usize,
    /// Concise human-readable summary.
    pub summary: String,
}

/// The mathematical content of a [`SymbolChange`].
pub struct SymbolChangeView {
    pub status: ChangeStatus,
    pub name: Seq<char>,
    pub kind: Seq<char>,
    pub file: Seq<char>,
    pub line_start: int,
    pub line_end: int,
    pub summary: Seq<char>,
}

impl View for SymbolChange {
    type V = SymbolChangeView;

    open spec fn view(&self) -> SymbolChangeView {
        SymbolChangeView {
            status: self.status,
            name: self.name@,
            kind: self.kind@,
            file: self.file@,
            line_start: self.line_start as int,
            line_end: self.line_end as int,
            summary: self.summary@,
        }
    }
}

/// Errors from structural diffing.
#[derive(Debug)]
pub enum DiffError {
    /// No Git or JJ repository was found at the engine root.
    NoVcs,
    /// The requested base ref does not exist.
    InvalidRef(String),
    /// A changed file is binary and cannot be parsed.
    Binary { file: String },
    /// A file could not be read.
    File(String),
    /// A VCS command failed.
    Command(String),
}

impl DiffError {
    /// The error's message.
    pub fn message(&self) -> (s: String)
        ensures
            s@ == match self {
                DiffError::NoVcs => "no Git or JJ repository found"@,
                DiffError::InvalidRef(r) => "invalid base ref: "@ + r@,
                DiffError::Binary { file } => "binary file cannot be diffed: "@ + file@,
                DiffError::File(e) => e@,
                DiffError::Command(e) => e@,
            },
    {
        match self {
            DiffError::NoVcs => String::from_str("no Git or JJ repository found"),
            DiffError::InvalidRef(r) => {
                let mut s = String::from_str("invalid base ref: ");
                s.append(r.as_str());
                s
            },
            DiffError::Binary { file } => {
                let mut s = String::from_str("binary file cannot be diffed: ");
                s.append(file.as_str());
                s
            },
            DiffError::File(e) => e.clone(),
            DiffError::Command(e) => e.clone(),
        }
    }
}

/// Which VCS backs the repository.
#[derive(Debug, Clone, Copy, PartialEq, Eq, Structural)]
pub enum Vcs {
    Git,
    Jj,
}

/// The VCS of a repository whose root holds a `.jj` marker (`has_jj`) and/or
/// a `.git` marker (`has_git`). JJ wins when both exist: a colocated repo is a
/// Git repo underneath, but its revisions are named with JJ revsets.
pub fn detect_vcs(has_jj: bool, has_git: bool) -> (r: Option<Vcs>)
    ensures
        r == (if has_jj {
            Some(Vcs::Jj)
        } else if has_git {
            Some(Vcs::Git)
        } else {
            None
        }),
{
    if has_jj {
        Some(Vcs::Jj)
    } else if has_git {
        Some(Vcs::Git)
    } else {
        None
    }
}

/// `s` with every whitespace character removed.
pub open spec fn strip_ws(s: Seq<char>) -> Seq<char>
    decreases s.len(),
{
    if s.len() == 0 {
        s
    } else if is_ws(s.last()) {
        strip_ws(s.drop_last())
    } else {
        strip_ws(s.drop_last()).push(s.last())
    }
}

/// Strip all whitespace so formatting-only edits compare equal.
pub fn normalize(src: &str) -> (r: String)
    ensures
        r@ == strip_ws(src@),
{
    let v = chars_of(src);
    let mut out: Vec<char> = Vec::new();
    let mut i: usize = 0;
    while i < v.len()
        invariant
            i <= v.len(),
            v@ == src@,
            out@ == strip_ws(v@.take(i as int)),
        decreases v.len() - i,
    {
        proof {
            assert(v@.take(i + 1).drop_last() =~= v@.take(i as int));
        }
        if !is_whitespace(v[i]) {
            out.push(v[i]);
        }
        i = i + 1;
    }
    assert(v@.take(v.len() as int) =~= v@);
    string_of(out.as_slice())
}

/// Whether two symbols pair up: same name and same kind.
pub open spec fn same_key(a: SymbolView, b: SymbolView) -> bool {
    a.name == b.name && a.kind == b.kind
}

/// How many of the first `n` symbols of `s` pair up with `x`.
pub open spec fn count_key(s: Seq<SymbolView>, x: SymbolView, n: int) -> int
    decreases n,
{
    if n <= 0 {
        0
    } else {
        count_key(s, x, n - 1) + if same_key(s[n - 1], x) {
            1int
        } else {
            0int
        }
    }
}

/// Position in `s`, at or after `j`, of the `o`-th (from 0) symbol pairing
/// up with `x`; `s.len()` when there are not that many.
pub open spec fn occurrence_from(s: Seq<SymbolView>, x: SymbolView, o: int, j: int) -> int
    decreases s.len() - j,
{
    if j < 0 || j >= s.len() {
        s.len() as int
    } else if same_key(s[j], x) {
        if o <= 0 {
            j
        } else {
            occurrence_from(s, x, o - 1, j + 1)
        }
    } else {
        occurrence_from(s, x, o, j + 1)
    }
}

/// The summary line of a change.
pub open spec fn summary_of(status: ChangeStatus, s: SymbolView) -> Seq<char> {
    let verb = match status {
        ChangeStatus::Added => "added "@,
        ChangeStatus::Deleted => "deleted "@,
        ChangeStatus::Modified => "modified "@,
    };
    verb + s.kind + " `"@ + s.name + "`"@
}

/// The change record for symbol `s` of `file`.
pub open spec fn change_of(status: ChangeStatus, s: SymbolView, file: Seq<char>) -> SymbolChangeView {
    SymbolChangeView {
        status,
        name: s.name,
        kind: s.kind,
        file,
        line_start: s.line_start,
        line_end: s.line_end,
        summary: summary_of(status, s),
    }
}

/// The deletion reported for `base[i]`: when the working version holds fewer
/// symbols pairing up with it than come up to and including it in `base`.
pub open spec fn deleted_at(
    base: Seq<SymbolView>,
    work: Seq<SymbolView>,
    file: Seq<char>,
    i: int,
) -> Option<SymbolChangeView> {
    if count_key(base, base[i], i) >= count_key(work, base[i], work.len() as int) {
        Some(change_of(ChangeStatus::Deleted, base[i], file))
    } else {
        None
    }
}

/// The whitespace-free text of symbol `s` in the text with bytes `src`.
pub open spec fn body_of(s: SymbolView, src: Seq<u8>) -> Seq<char> {
    strip_ws(text_at(src, s.start_byte, s.end_byte).unwrap())
}

/// The change reported for `work[i]`: added when `base` has no partner for
/// it (the partner of the `o`-th occurrence of a key is the `o`-th occurrence
/// in `base`), modified when its partner's text differs other than in
/// whitespace.
pub open spec fn work_change_at(
    base: Seq<SymbolView>,
    work: Seq<SymbolView>,
    base_src: Seq<u8>,
    work_src: Seq<u8>,
    file: Seq<char>,
    i: int,
) -> Option<SymbolChangeView> {
    let w = work[i];
    let o = count_key(work, w, i);
    if o >= count_key(base, w, base.len() as int) {
        Some(change_of(ChangeStatus::Added, w, file))
    } else {
        let b = base[occurrence_from(base, w, o, 0)];
        if body_of(b, base_src) != body_of(w, work_src) {
            Some(change_of(ChangeStatus::Modified, w, file))
        } else {
            None
        }
    }
}

/// The changes reported for the first `n` positions, `f` giving each
/// position's change.
pub open spec fn gather(f: spec_fn(int) -> Option<SymbolChangeView>, n: int) -> Seq<SymbolChangeView>
    decreases n,
{
    if n <= 0 {
        Seq::empty()
    } else {
        let prev = gather(f, n - 1);
        match f(n - 1) {
            Some(c) => prev.push(c),
            None => prev,
        }
    }
}

/// All changes between two symbol lists: deletions in the base version's
/// order, then additions and modifications in the working version's order.
pub open spec fn symbol_changes(
    base: Seq<SymbolView>,
    work: Seq<SymbolView>,
    base_src: Seq<u8>,
    work_src: Seq<u8>,
    file: Seq<char>,
) -> Seq<SymbolChangeView> {
    gather(|i: int| deleted_at(base, work, file, i), base.len() as int) + gather(
        |i: int| work_change_at(base, work, base_src, work_src, file, i),
        work.len() as int,
    )
}

fn same_key_exec(a: &Symbol, b: &Symbol) -> (r: bool)
    ensures
        r == same_key(a@, b@),
{
    str_eq(a.name.as_str(), b.name.as_str()) && str_eq(a.kind.as_str(), b.kind.as_str())
}

/// How many of the first `n` symbols of `s` pair up with `x`.
fn count_key_exec(s: &[Symbol], x: &Symbol, n: usize) -> (r: usize)
    requires
        n <= s.len(),
    ensures
        r == count_key(s@.map_values(|y: Symbol| y@), x@, n as int),
        r <= n,
{
    let ghost sv = s@.map_values(|y: Symbol| y@);
    let mut c: usize = 0;
    let mut j: usize = 0;
    while j < n
        invariant
            j <= n <= s.len(),
            sv == s@.map_values(|y: Symbol| y@),
            c == count_key(sv, x@, j as int),
            c <= j,
        decreases n - j,
    {
        if same_key_exec(&s[j], x) {
            c = c + 1;
        }
        j = j + 1;
    }
    c
}

proof fn lemma_occurrence_found(s: Seq<SymbolView>, x: SymbolView, o: int, j: int)
    requires
        0 <= j <= s.len(),
        0 <= o,
        o < count_key(s, x, s.len() as int) - count_key(s, x, j),
    ensures
        j <= occurrence_from(s, x, o, j) < s.len(),
        same_key(s[occurrence_from(s, x, o, j)], x),
    decreases s.len() - j,
{
    lemma_count_key_split(s, x, j);
    if j < s.len() {
        if same_key(s[j], x) {
            if o > 0 {
                lemma_occurrence_found(s, x, o - 1, j + 1);
            }
        } else {
            lemma_occurrence_found(s, x, o, j + 1);
        }
    }
}

proof fn lemma_count_key_split(s: Seq<SymbolView>, x: SymbolView, j: int)
    requires
        0 <= j <= s.len(),
    ensures
        j < s.len() ==> count_key(s, x, j + 1) == count_key(s, x, j) + if same_key(s[j], x) {
            1int
        } else {
            0int
        },
        count_key(s, x, j) <= count_key(s, x, s.len() as int),
        count_key(s, x, j) >= 0,
    decreases s.len() - j,
{
    lemma_count_key_nonneg(s, x, j);
    if j < s.len() {
        lemma_count_key_split(s, x, j + 1);
    }
}

proof fn lemma_count_key_nonneg(s: Seq<SymbolView>, x: SymbolView, j: int)
    ensures
        count_key(s, x, j) >= 0,
    decreases j,
{
    if j > 0 {
        lemma_count_key_nonneg(s, x, j - 1);
    }
}

/// Position of the `o`-th symbol of `s` that pairs up with `x`.
fn occurrence_exec(s: &[Symbol], x: &Symbol, o: usize) -> (r: usize)
    requires
        o < count_key(s@.map_values(|y: Symbol| y@), x@, s.len() as int),
    ensures
        r == occurrence_from(s@.map_values(|y: Symbol| y@), x@, o as int, 0),
        r < s.len(),
        same_key(s@[r as int]@, x@),
{
    let ghost sv = s@.map_values(|y: Symbol| y@);
    proof {
        lemma_occurrence_found(sv, x@, o as int, 0);
    }
    let mut left = o;
    let mut j: usize = 0;
    while j < s.len()
        invariant
            j <= s.len(),
            sv == s@.map_values(|y: Symbol| y@),
            occurrence_from(sv, x@, left as int, j as int) == occurrence_from(sv, x@, o as int, 0),
            occurrence_from(sv, x@, o as int, 0) < s.len(),
        decreases s.len() - j,
    {
        if same_key_exec(&s[j], x) {
            if left == 0 {
                return j;
            }
            left = left - 1;
        }
        j = j + 1;
    }
    j
}

/// The change record for symbol `s` of `file`.
fn make_change(status: ChangeStatus, s: &Symbol, file: &str) -> (c: SymbolChange)
    ensures
        c@ == change_of(status, s@, file@),
{
    let mut summary = match status {
        ChangeStatus::Added => String::from_str("added "),
        ChangeStatus::Deleted => String::from_str("deleted "),
        ChangeStatus::Modified => String::from_str("modified "),
    };
    summary.append(s.kind.as_str());
    summary.append(" `");
    summary.append(s.name.as_str());
    summary.append("`");
    SymbolChange {
        status,
        name: s.name.clone(),
        kind: s.kind.clone(),
        file: file.to_owned(),
        line_start: s.line_start,
        line_end: s.line_end,
        summary,
    }
}

/// Diff two symbol lists, pairing symbols by `(name, kind)` in document
/// order: the `o`-th occurrence of a key in one version pairs with its `o`-th
/// occurrence in the other.
pub fn diff_symbols(
    base: &[Symbol],
    work: &[Symbol],
    base_src: &str,
    work_src: &str,
    file: &str,
) -> (changes: Vec<SymbolChange>)
    requires
        spans_valid(base@.map_values(|s: Symbol| s@), base_src.spec_bytes()),
        spans_valid(work@.map_values(|s: Symbol| s@), work_src.spec_bytes()),
    ensures
        changes@.map_values(|c: SymbolChange| c@) == symbol_changes(
            base@.map_values(|s: Symbol| s@),
            work@.map_values(|s: Symbol| s@),
            base_src.spec_bytes(),
            work_src.spec_bytes(),
            file@,
        ),
{
    let ghost bv = base@.map_values(|s: Symbol| s@);
    let ghost wv = work@.map_values(|s: Symbol| s@);
    let ghost del = |i: int| deleted_at(bv, wv, file@, i);
    let ghost wch = |i: int| work_change_at(bv, wv, base_src.spec_bytes(), work_src.spec_bytes(), file@, i);
    let mut changes: Vec<SymbolChange> = Vec::new();
    // Deleted: base occurrences beyond what the working version still has.
    let mut i: usize = 0;
    while i < base.len()
        invariant
            i <= base.len(),
            bv == base@.map_values(|s: Symbol| s@),
            wv == work@.map_values(|s: Symbol| s@),
            del == (|i: int| deleted_at(bv, wv, file@, i)),
            changes@.map_values(|c: SymbolChange| c@) == gather(del, i as int),
        decreases base.len() - i,
    {
        let ghost prev = changes@;
        let before = count_key_exec(base, &base[i], i);
        let total = count_key_exec(work, &base[i], work.len());
        if before >= total {
            let c = make_change(ChangeStatus::Deleted, &base[i], file);
            changes.push(c);
            assert(changes@.map_values(|c: SymbolChange| c@) =~= prev.map_values(|c: SymbolChange| c@).push(c@));
        }
        i = i + 1;
    }
    let ghost deleted = changes@.map_values(|c: SymbolChange| c@);
    let mut added: Vec<SymbolChange> = Vec::new();
    // Added / Modified: working-version occurrences.
    let mut k: usize = 0;
    while k < work.len()
        invariant
            k <= work.len(),
            bv == base@.map_values(|s: Symbol| s@),
            wv == work@.map_values(|s: Symbol| s@),
            spans_valid(bv, base_src.spec_bytes()),
            spans_valid(wv, work_src.spec_bytes()),
            wch == (|i: int| work_change_at(bv, wv, base_src.spec_bytes(), work_src.spec_bytes(), file@, i)),
            added@.map_values(|c: SymbolChange| c@) == gather(wch, k as int),
        decreases work.len() - k,
    {
        let ghost prev = added@;
        let w = &work[k];
        let o = count_key_exec(work, w, k);
        let total = count_key_exec(base, w, base.len());
        if o >= total {
            let c = make_change(ChangeStatus::Added, w, file);
            added.push(c);
            assert(added@.map_values(|c: SymbolChange| c@) =~= prev.map_values(|c: SymbolChange| c@).push(c@));
        } else {
            let bi = occurrence_exec(base, w, o);
            let b = &base[bi];
            assert(valid_span(bv[bi as int], base_src.spec_bytes()));
            assert(valid_span(wv[k as int], work_src.spec_bytes()));
            let b_text = slice_text(base_src, b.start_byte, b.end_byte).unwrap();
            let w_text = slice_text(work_src, w.start_byte, w.end_byte).unwrap();
            let b_norm = normalize(b_text.as_str());
            let w_norm = normalize(w_text.as_str());
            if !str_eq(b_norm.as_str(), w_norm.as_str()) {
                let c = make_change(ChangeStatus::Modified, w, file);
                added.push(c);
                assert(added@.map_values(|c: SymbolChange| c@) =~= prev.map_values(|c: SymbolChange| c@).push(c@));
            }
        }
        k = k + 1;
    }
    let ghost tail = added@;
    changes.append(&mut added);
    assert(changes@.map_values(|c: SymbolChange| c@) =~= deleted + tail.map_values(|c: SymbolChange| c@));
    changes
}

/// Whether the span of `s` cuts the text with bytes `src` at character
/// boundaries.
pub open spec fn valid_span(s: SymbolView, src: Seq<u8>) -> bool {
    crate::text::valid_byte_range(src, s.start_byte, s.end_byte)
}


/// The outcome of diffing one file.
pub enum FileDiff {
    /// The changes found, possibly none.
    Changes(Seq<SymbolChangeView>),
    /// One of the versions is binary.
    Binary,
}

/// The symbols of `text` parsed as `lang`.
pub open spec fn symbols_in(lang: Language, text: Seq<char>) -> Seq<SymbolView> {
    symbols_of(syntax_tree(lang, text), bytes_of(text))
}

/// What diffing `file` between the versions with bytes `base` and `work`
/// gives: nothing for files in no supported language or unchanged files, an
/// error when either version holds a NUL byte, else the symbol changes
/// between the two texts.
pub open spec fn file_diff(file: Seq<char>, base: Seq<u8>, work: Seq<u8>) -> FileDiff {
    match language_of_path(file) {
        None => FileDiff::Changes(Seq::empty()),
        Some(lang) => if base == work {
            FileDiff::Changes(Seq::empty())
        } else if base.contains(0u8) || work.contains(0u8) {
            FileDiff::Binary
        } else {
            let b = lossy_text(base);
            let w = lossy_text(work);
            FileDiff::Changes(
                symbol_changes(symbols_in(lang, b), symbols_in(lang, w), bytes_of(b), bytes_of(w), file),
            )
        },
    }
}

/// Diff one file between its base version (`base_bytes`, empty when the file
/// is absent from the base) and its working version (`work_bytes`, empty when
/// absent from the working tree).
pub fn diff_file(file: &str, base_bytes: &[u8], work_bytes: &[u8]) -> (r: Result<
    Vec<SymbolChange>,
    DiffError,
>)
    ensures
        match file_diff(file@, base_bytes@, work_bytes@) {
            FileDiff::Changes(cs) => r matches Ok(v) && v@.map_values(|c: SymbolChange| c@) == cs,
            FileDiff::Binary => r matches Err(DiffError::Binary { file: f }) && f@ == file@,
        },
{
    let lang = match Language::from_path(file) {
        Some(l) => l,
        None => {
            let v: Vec<SymbolChange> = Vec::new();
            assert(v@.map_values(|c: SymbolChange| c@) =~= Seq::<SymbolChangeView>::empty());
            return Ok(v);
        },
    };
    if bytes_eq(base_bytes, work_bytes) {
        let v: Vec<SymbolChange> = Vec::new();
        assert(v@.map_values(|c: SymbolChange| c@) =~= Seq::<SymbolChangeView>::empty());
        return Ok(v);
    }
    if has_nul(base_bytes) || has_nul(work_bytes) {
        return Err(DiffError::Binary { file: file.to_owned() });
    }
    let base_src = utf8_lossy(base_bytes);
    let work_src = utf8_lossy(work_bytes);
    let base_syms = parse(lang, base_src.as_str());
    let work_syms = parse(lang, work_src.as_str());
    let changes = diff_symbols(
        base_syms.as_slice(),
        work_syms.as_slice(),
        base_src.as_str(),
        work_src.as_str(),
        file,
    );
    Ok(changes)
}

/// `files` followed by each element of `more` that is not already present,
/// in order.
pub open spec fn add_missing(files: Seq<Seq<char>>, more: Seq<Seq<char>>) -> Seq<Seq<char>>
    decreases more.len(),
{
    if more.len() == 0 {
        files
    } else {
        let f = add_missing(files, more.drop_last());
        if f.contains(more.last()) {
            f
        } else {
            f.push(more.last())
        }
    }
}

/// The files to compare: the union of the base version's files and the
/// working tree's files, in ascending order.
pub fn union_files(base_files: &Vec<String>, work_files: &Vec<String>) -> (files: Vec<String>)
    ensures
        texts_sorted(files@.map_values(|s: String| s@)),
        files@.map_values(|s: String| s@).to_multiset() == add_missing(
            base_files@.map_values(|s: String| s@),
            work_files@.map_values(|s: String| s@),
        ).to_multiset(),
{
    let ghost bv = base_files@.map_values(|s: String| s@);
    let ghost wv = work_files@.map_values(|s: String| s@);
    let mut files: Vec<String> = Vec::new();
    let mut i: usize = 0;
    while i < base_files.len()
        invariant
            i <= base_files.len(),
            bv == base_files@.map_values(|s: String| s@),
            files@.map_values(|s: String| s@) == bv.take(i as int),
        decreases base_files.len() - i,
    {
        files.push(base_files[i].clone());
        proof {
            assert(bv.take(i + 1) =~= bv.take(i as int).push(bv[i as int]));
            assert(files@.map_values(|s: String| s@) =~= bv.take(i + 1));
        }
        i = i + 1;
    }
    assert(bv.take(base_files.len() as int) =~= bv);
    let mut k: usize = 0;
    while k < work_files.len()
        invariant
            k <= work_files.len(),
            bv == base_files@.map_values(|s: String| s@),
            wv == work_files@.map_values(|s: String| s@),
            files@.map_values(|s: String| s@) == add_missing(bv, wv.take(k as int)),
        decreases work_files.len() - k,
    {
        let ghost fv = files@.map_values(|s: String| s@);
        proof {
            assert(wv.take(k + 1).drop_last() =~= wv.take(k as int));
        }
        if !contains_string(&files, &work_files[k]) {
            files.push(work_files[k].clone());
            assert(files@.map_values(|s: String| s@) =~= fv.push(wv[k as int]));
        }
        k = k + 1;
    }
    assert(wv.take(work_files.len() as int) =~= wv);
    let ghost unsorted = files@;
    let sorted = sort(files);
    proof {
        lemma_sorted_texts(sorted@);
        lemma_map_multiset(sorted@, unsorted);
    }
    sorted
}

/// Whether `v` holds a string equal to `x`.
pub fn contains_string(v: &Vec<String>, x: &String) -> (r: bool)
    ensures
        r == v@.map_values(|s: String| s@).contains(x@),
{
    let ghost vv = v@.map_values(|s: String| s@);
    let mut i: usize = 0;
    while i < v.len()
        invariant
            i <= v.len(),
            vv == v@.map_values(|s: String| s@),
            forall|j: int| 0 <= j < i ==> vv[j] != x@,
        decreases v.len() - i,
    {
        if str_eq(v[i].as_str(), x.as_str()) {
            assert(vv[i as int] == x@);
            return true;
        }
        i = i + 1;
    }
    false
}

/// The root-relative paths that a VCS file listing names, one per line.
pub fn parse_file_list(out: &str) -> (files: Vec<String>)
    ensures
        files@.map_values(|s: String| s@) == lines(out@),
{
    let v = chars_of(out);
    let ls = lines_of(&v);
    let mut files: Vec<String> = Vec::new();
    let mut i: usize = 0;
    while i < ls.len()
        invariant
            i <= ls.len(),
            v@ == out@,
            ls@.len() == lines(v@).len(),
            forall|j: int| 0 <= j < ls@.len() ==> #[trigger] ls@[j]@ == lines(v@)[j],
            files@.map_values(|s: String| s@) == lines(v@).take(i as int),
        decreases ls.len() - i,
    {
        files.push(string_of(ls[i].as_slice()));
        proof {
            assert(lines(v@).take(i + 1) =~= lines(v@).take(i as int).push(lines(v@)[i as int]));
            assert(files@.map_values(|s: String| s@) =~= lines(v@).take(i + 1));
        }
        i = i + 1;
    }
    assert(lines(v@).take(ls.len() as int) =~= lines(v@));
    files
}


/// What comparing `files` (each a path, its base bytes and its working
/// bytes, in order) gives after the first `n`: the changes of each file in
/// turn, or the first file found binary.
pub open spec fn diff_upto(files: Seq<(String, Vec<u8>, Vec<u8>)>, n: int) -> Result<Seq<SymbolChangeView>, Seq<char>>
    decreases n,
{
    if n <= 0 {
        Ok(Seq::empty())
    } else {
        match diff_upto(files, n - 1) {
            Err(f) => Err(f),
            Ok(acc) => match file_diff(files[n - 1].0@, files[n - 1].1@, files[n - 1].2@) {
                FileDiff::Binary => Err(files[n - 1].0@),
                FileDiff::Changes(cs) => Ok(acc + cs),
            },
        }
    }
}

/// A comparison in progress: the changes of the files compared so far.
pub struct DiffState {
    changes: Vec<SymbolChange>,
}

impl DiffState {
    /// The changes gathered so far.
    pub closed spec fn changes(&self) -> Seq<SymbolChangeView> {
        self.changes@.map_values(|c: SymbolChange| c@)
    }

    /// A comparison of no file yet.
    pub fn new() -> (s: DiffState)
        ensures
            s.changes() == Seq::<SymbolChangeView>::empty(),
    {
        let s = DiffState { changes: Vec::new() };
        assert(s.changes() =~= Seq::<SymbolChangeView>::empty());
        s
    }

    /// Compare one more file, with its base bytes (empty when absent from
    /// the base) and its working bytes (empty when absent from the working
    /// tree): its changes are added, or [`DiffError::Binary`] is returned
    /// and the changes are left as they were.
    pub fn push_file(&mut self, file: &str, base_bytes: &[u8], work_bytes: &[u8]) -> (r: Result<(), DiffError>)
        ensures
            match file_diff(file@, base_bytes@, work_bytes@) {
                FileDiff::Changes(cs) => r is Ok && final(self).changes() == old(self).changes() + cs,
                FileDiff::Binary => r matches Err(DiffError::Binary { file: f }) && f@ == file@
                    && final(self).changes() == old(self).changes(),
            },
    {
        match diff_file(file, base_bytes, work_bytes) {
            Ok(mut more) => {
                let ghost before = self.changes();
                let ghost added = more@.map_values(|c: SymbolChange| c@);
                self.changes.append(&mut more);
                assert(self.changes() =~= before + added);
                Ok(())
            },
            Err(e) => Err(e),
        }
    }

    /// The changes gathered.
    pub fn finish(self) -> (v: Vec<SymbolChange>)
        ensures
            v@.map_values(|c: SymbolChange| c@) == self.changes(),
    {
        self.changes
    }
}

/// Compare the working tree against a base revision, file by file: `files`
/// holds each file of the union of both versions, in ascending order, with
/// its base bytes (empty when absent from the base) and its working bytes
/// (empty when absent from the working tree). Returns the symbol-level
/// changes, or [`DiffError::Binary`] for the first changed file that is
/// binary.
pub fn get_ast_diff(files: &Vec<(String, Vec<u8>, Vec<u8>)>) -> (r: Result<Vec<SymbolChange>, DiffError>)
    ensures
        match diff_upto(files@, files@.len() as int) {
            Ok(cs) => r matches Ok(v) && v@.map_values(|c: SymbolChange| c@) == cs,
            Err(f) => r matches Err(DiffError::Binary { file }) && file@ == f,
        },
{
    let mut state = DiffState::new();
    let mut i: usize = 0;
    while i < files.len()
        invariant
            i <= files.len(),
            diff_upto(files@, i as int) == Ok::<Seq<SymbolChangeView>, Seq<char>>(state.changes()),
        decreases files.len() - i,
    {
        let f = &files[i];
        match state.push_file(f.0.as_str(), f.1.as_slice(), f.2.as_slice()) {
            Ok(()) => {},
            Err(e) => {
                proof {
                    lemma_diff_failed(files@, i + 1, files@.len() as int);
                }
                return Err(e);
            },
        }
        i = i + 1;
    }
    Ok(state.finish())
}

/// Once a file is found binary, the comparison stays failed on it.
proof fn lemma_diff_failed(files: Seq<(String, Vec<u8>, Vec<u8>)>, i: int, n: int)
    requires
        0 <= i <= n,
        diff_upto(files, i) is Err,
    ensures
        diff_upto(files, n) == diff_upto(files, i),
    decreases n - i,
{
    if i < n {
        lemma_diff_failed(files, i, n - 1);
    }
}

/// A VCS command to run at the repository root: a program and its
/// arguments.
pub struct VcsCommand {
    pub program: String,
    pub args: Vec<String>,
}

/// The program of a VCS.
pub open spec fn program_of(vcs: Vcs) -> Seq<char> {
    match vcs {
        Vcs::Git => "git"@,
        Vcs::Jj => "jj"@,
    }
}

/// The program of a VCS.
fn program_name(vcs: Vcs) -> (r: String)
    ensures
        r@ == program_of(vcs),
{
    match vcs {
        Vcs::Git => String::from_str("git"),
        Vcs::Jj => String::from_str("jj"),
    }
}

/// A command from its program and arguments.
fn command_of(vcs: Vcs, args: Vec<String>) -> (c: VcsCommand)
    ensures
        c.program@ == program_of(vcs),
        c.args@ == args@,
{
    VcsCommand { program: program_name(vcs), args }
}

/// The command that checks that `base_ref` names a revision: it succeeds
/// exactly when it does.
pub fn ref_check_command(vcs: Vcs, base_ref: &str) -> (c: VcsCommand)
    ensures
        c.program@ == program_of(vcs),
        texts(c.args@) == match vcs {
            Vcs::Git => seq!["rev-parse"@, "--verify"@, "--quiet"@, base_ref@],
            Vcs::Jj => seq!["log"@, "-r"@, base_ref@, "--no-graph"@],
        },
{
    let mut args: Vec<String> = Vec::new();
    match vcs {
        Vcs::Git => {
            args.push(String::from_str("rev-parse"));
            args.push(String::from_str("--verify"));
            args.push(String::from_str("--quiet"));
            args.push(String::from_str(base_ref));
        },
        Vcs::Jj => {
            args.push(String::from_str("log"));
            args.push(String::from_str("-r"));
            args.push(String::from_str(base_ref));
            args.push(String::from_str("--no-graph"));
        },
    }
    let c = command_of(vcs, args);
    assert(texts(c.args@) =~= match vcs {
        Vcs::Git => seq!["rev-parse"@, "--verify"@, "--quiet"@, base_ref@],
        Vcs::Jj => seq!["log"@, "-r"@, base_ref@, "--no-graph"@],
    });
    c
}

/// Verify that `base_ref` resolves, from whether its check command
/// succeeded (`resolved`), returning a clear error otherwise.
pub fn validate_ref(base_ref: &str, resolved: bool) -> (r: Result<(), DiffError>)
    ensures
        resolved ==> r is Ok,
        !resolved ==> (r matches Err(DiffError::InvalidRef(s)) && s@ == base_ref@),
{
    if resolved {
        Ok(())
    } else {
        Err(DiffError::InvalidRef(String::from_str(base_ref)))
    }
}

/// The command that lists the files present in `base_ref`, one
/// root-relative path per line.
pub fn base_files_command(vcs: Vcs, base_ref: &str) -> (c: VcsCommand)
    ensures
        c.program@ == program_of(vcs),
        texts(c.args@) == match vcs {
            Vcs::Git => seq!["ls-tree"@, "-r"@, "--name-only"@, base_ref@],
            Vcs::Jj => seq!["file"@, "list"@, "-r"@, base_ref@],
        },
{
    let mut args: Vec<String> = Vec::new();
    match vcs {
        Vcs::Git => {
            args.push(String::from_str("ls-tree"));
            args.push(String::from_str("-r"));
            args.push(String::from_str("--name-only"));
            args.push(String::from_str(base_ref));
        },
        Vcs::Jj => {
            args.push(String::from_str("file"));
            args.push(String::from_str("list"));
            args.push(String::from_str("-r"));
            args.push(String::from_str(base_ref));
        },
    }
    let c = command_of(vcs, args);
    assert(texts(c.args@) =~= match vcs {
        Vcs::Git => seq!["ls-tree"@, "-r"@, "--name-only"@, base_ref@],
        Vcs::Jj => seq!["file"@, "list"@, "-r"@, base_ref@],
    });
    c
}

/// The files present in the base revision, from the output `stdout` of its
/// listing command: one root-relative path per line.
pub fn list_base_files(stdout: &[u8]) -> (files: Vec<String>)
    ensures
        texts(files@) == lines(lossy_text(stdout@)),
{
    let out = utf8_lossy(stdout);
    parse_file_list(out.as_str())
}

/// The command that prints the bytes of `file` at `base_ref`.
pub fn materialize_command(vcs: Vcs, base_ref: &str, file: &str) -> (c: VcsCommand)
    ensures
        c.program@ == program_of(vcs),
        texts(c.args@) == match vcs {
            Vcs::Git => seq!["show"@, base_ref@ + ":"@ + file@],
            Vcs::Jj => seq!["file"@, "show"@, "-r"@, base_ref@, file@],
        },
{
    let mut args: Vec<String> = Vec::new();
    match vcs {
        Vcs::Git => {
            args.push(String::from_str("show"));
            let mut spec_arg = String::from_str(base_ref);
            spec_arg.append(":");
            spec_arg.append(file);
            args.push(spec_arg);
        },
        Vcs::Jj => {
            args.push(String::from_str("file"));
            args.push(String::from_str("show"));
            args.push(String::from_str("-r"));
            args.push(String::from_str(base_ref));
            args.push(String::from_str(file));
        },
    }
    let c = command_of(vcs, args);
    assert(texts(c.args@) =~= match vcs {
        Vcs::Git => seq!["show"@, base_ref@ + ":"@ + file@],
        Vcs::Jj => seq!["file"@, "show"@, "-r"@, base_ref@, file@],
    });
    c
}

/// The text a command printed (`stdout`), with invalid UTF-8 replaced.
pub fn run(stdout: &[u8]) -> (text: String)
    ensures
        text@ == lossy_text(stdout@),
{
    utf8_lossy(stdout)
}

/// The error for a command `c` that ran and failed, printing `stderr`:
/// `"<program> <args> failed: <stderr, trimmed>"`.
pub fn command_failed(c: &VcsCommand, stderr: &[u8]) -> (e: DiffError)
    ensures
        e matches DiffError::Command(m) && m@ == c.program@ + " "@ + crate::text::joined(texts(c.args@), " "@) + " failed: "@
            + crate::text::trim(lossy_text(stderr@)),
{
    let mut m = c.program.clone();
    m.append(" ");
    let joined = crate::text::join(&c.args, " ");
    m.append(joined.as_str());
    m.append(" failed: ");
    let err = utf8_lossy(stderr);
    let err_chars = chars_of(err.as_str());
    let trimmed = crate::text::trim_chars(&err_chars);
    m.append(trimmed.as_str());
    DiffError::Command(m)
}

/// The error for a program that could not be started, for the reason
/// `reason`: `"failed to run <program>: <reason>"`.
pub fn spawn_failed(program: &str, reason: &str) -> (e: DiffError)
    ensures
        e matches DiffError::Command(m) && m@ == "failed to run "@ + program@ + ": "@ + reason@,
{
    let mut m = String::from_str("failed to run ");
    m.append(program);
    m.append(": ");
    m.append(reason);
    DiffError::Command(m)
}

/// The error for a jj-backed repository when the `jj` executable is
/// missing.
pub fn jj_missing() -> (e: DiffError)
    ensures
        e matches DiffError::Command(m) && m@ == "jj executable not found; jj is required for jj-backed repositories"@,
{
    DiffError::Command(String::from_str("jj executable not found; jj is required for jj-backed repositories"))
}


proof fn lemma_count_key_mono(s: Seq<SymbolView>, x: SymbolView, i: int, j: int)
    requires
        0 <= i <= j <= s.len(),
    ensures
        count_key(s, x, i) <= count_key(s, x, j),
    decreases j - i,
{
    if i < j {
        lemma_count_key_mono(s, x, i, j - 1);
    }
}

proof fn lemma_count_key_same(a: Seq<SymbolView>, b: Seq<SymbolView>, x: SymbolView, n: int)
    requires
        0 <= n <= a.len(),
        a.len() == b.len(),
        forall|i: int| 0 <= i < a.len() ==> #[trigger] same_key(a[i], b[i]),
    ensures
        count_key(a, x, n) == count_key(b, x, n),
    decreases n,
{
    if n > 0 {
        lemma_count_key_same(a, b, x, n - 1);
        assert(same_key(a[n - 1], b[n - 1]));
    }
}

/// Symbol `s[i]` is the occurrence of its key that its count before it
/// names.
proof fn lemma_occurrence_at(s: Seq<SymbolView>, x: SymbolView, i: int, j: int)
    requires
        0 <= j <= i < s.len(),
        same_key(s[i], x),
    ensures
        occurrence_from(s, x, count_key(s, x, i) - count_key(s, x, j), j) == i,
    decreases i - j,
{
    if j < i {
        lemma_count_key_mono(s, x, j + 1, i);
        lemma_occurrence_at(s, x, i, j + 1);
    }
}

proof fn lemma_gather_none(f: spec_fn(int) -> Option<SymbolChangeView>, n: int)
    requires
        forall|i: int| 0 <= i < n ==> #[trigger] f(i) is None,
    ensures
        gather(f, n) == Seq::<SymbolChangeView>::empty(),
    decreases n,
{
    if n > 0 {
        lemma_gather_none(f, n - 1);
        assert(f(n - 1) is None);
    }
}

/// Formatting-only edits are filtered out: a working version that keeps
/// every symbol of the base version, in the same order, and changes their
/// text only in whitespace reports no change.
pub proof fn lemma_formatting_only_edits(
    base: Seq<SymbolView>,
    work: Seq<SymbolView>,
    base_src: Seq<u8>,
    work_src: Seq<u8>,
    file: Seq<char>,
)
    requires
        base.len() == work.len(),
        forall|i: int| 0 <= i < base.len() ==> #[trigger] same_key(base[i], work[i]),
        forall|i: int| 0 <= i < base.len() ==> #[trigger] body_of(base[i], base_src) == body_of(work[i], work_src),
    ensures
        symbol_changes(base, work, base_src, work_src, file) == Seq::<SymbolChangeView>::empty(),
{
    let del = |i: int| deleted_at(base, work, file, i);
    let chg = |i: int| work_change_at(base, work, base_src, work_src, file, i);
    assert forall|i: int| 0 <= i < base.len() implies #[trigger] del(i) is None by {
        let x = base[i];
        lemma_count_key_same(base, work, x, base.len() as int);
        lemma_count_key_mono(base, x, i + 1, base.len() as int);
    }
    assert forall|i: int| 0 <= i < work.len() implies #[trigger] chg(i) is None by {
        let w = work[i];
        assert(same_key(base[i], work[i]));
        lemma_count_key_same(base, work, w, i);
        lemma_count_key_same(base, work, w, base.len() as int);
        lemma_count_key_mono(base, w, i + 1, base.len() as int);
        lemma_occurrence_at(base, w, i, 0);
        assert(body_of(base[i], base_src) == body_of(work[i], work_src));
    }
    lemma_gather_none(del, base.len() as int);
    lemma_gather_none(chg, work.len() as int);
    assert(symbol_changes(base, work, base_src, work_src, file) =~= Seq::<SymbolChangeView>::empty());
}

/// A version compared with itself reports no change.
pub proof fn lemma_diff_with_itself(syms: Seq<SymbolView>, src: Seq<u8>, file: Seq<char>)
    ensures
        symbol_changes(syms, syms, src, src, file) == Seq::<SymbolChangeView>::empty(),
{
    lemma_formatting_only_edits(syms, syms, src, src, file);
}


proof fn lemma_gather_all(f: spec_fn(int) -> Option<SymbolChangeView>, g: spec_fn(int) -> SymbolChangeView, n: int)
    requires
        n >= 0,
        forall|i: int| 0 <= i < n ==> #[trigger] f(i) == Some(g(i)),
    ensures
        gather(f, n) == Seq::new(n as nat, g),
    decreases n,
{
    if n > 0 {
        lemma_gather_all(f, g, n - 1);
        assert(f(n - 1) == Some(g(n - 1)));
        assert(Seq::new(n as nat, g) =~= Seq::new((n - 1) as nat, g).push(g(n - 1)));
    } else {
        assert(Seq::new(0, g) =~= Seq::<SymbolChangeView>::empty());
    }
}

/// A file new in the working version reports each of its symbols as added,
/// in order.
pub proof fn lemma_new_file_all_added(work: Seq<SymbolView>, base_src: Seq<u8>, work_src: Seq<u8>, file: Seq<char>)
    ensures
        symbol_changes(Seq::empty(), work, base_src, work_src, file) == work.map_values(
            |s: SymbolView| change_of(ChangeStatus::Added, s, file),
        ),
{
    let base = Seq::<SymbolView>::empty();
    let chg = |i: int| work_change_at(base, work, base_src, work_src, file, i);
    let g = |i: int| change_of(ChangeStatus::Added, work[i], file);
    assert forall|i: int| 0 <= i < work.len() implies #[trigger] chg(i) == Some(g(i)) by {
        assert(count_key(base, work[i], 0) == 0);
        lemma_count_key_mono(work, work[i], 0, i);
    }
    lemma_gather_all(chg, g, work.len() as int);
    assert(symbol_changes(base, work, base_src, work_src, file) =~= work.map_values(
        |s: SymbolView| change_of(ChangeStatus::Added, s, file),
    ));
}

/// A file gone from the working version reports each of its symbols as
/// deleted, in order.
pub proof fn lemma_removed_file_all_deleted(base: Seq<SymbolView>, base_src: Seq<u8>, work_src: Seq<u8>, file: Seq<char>)
    ensures
        symbol_changes(base, Seq::empty(), base_src, work_src, file) == base.map_values(
            |s: SymbolView| change_of(ChangeStatus::Deleted, s, file),
        ),
{
    let work = Seq::<SymbolView>::empty();
    let del = |i: int| deleted_at(base, work, file, i);
    let g = |i: int| change_of(ChangeStatus::Deleted, base[i], file);
    assert forall|i: int| 0 <= i < base.len() implies #[trigger] del(i) == Some(g(i)) by {
        assert(count_key(work, base[i], 0) == 0);
        lemma_count_key_mono(base, base[i], 0, i);
    }
    lemma_gather_all(del, g, base.len() as int);
    assert(gather(|i: int| work_change_at(base, work, base_src, work_src, file, i), 0) =~= Seq::<SymbolChangeView>::empty());
    assert(symbol_changes(base, work, base_src, work_src, file) =~= base.map_values(
        |s: SymbolView| change_of(ChangeStatus::Deleted, s, file),
    ));
}


/// The files compared are those of either version, each once when the base
/// version lists each once.
pub proof fn lemma_union_files(files: Seq<Seq<char>>, more: Seq<Seq<char>>)
    ensures
        forall|x: Seq<char>| #[trigger] add_missing(files, more).contains(x) <==> (files.contains(x) || more.contains(x)),
        files.no_duplicates() ==> add_missing(files, more).no_duplicates(),
    decreases more.len(),
{
    if more.len() > 0 {
        lemma_union_files(files, more.drop_last());
        let f = add_missing(files, more.drop_last());
        assert forall|x: Seq<char>| #[trigger] add_missing(files, more).contains(x) <==> (files.contains(x) || more.contains(x)) by {
            if more.drop_last().contains(x) {
                let i = choose|i: int| 0 <= i < more.drop_last().len() && more.drop_last()[i] == x;
                assert(more[i] == x);
            }
            if more.contains(x) {
                let i = choose|i: int| 0 <= i < more.len() && more[i] == x;
                if i < more.len() - 1 {
                    assert(more.drop_last()[i] == x);
                }
            }
            if !f.contains(more.last()) {
                if f.push(more.last()).contains(x) {
                    let i = choose|i: int| 0 <= i < f.len() + 1 && f.push(more.last())[i] == x;
                    if i < f.len() {
                        assert(f[i] == x);
                    }
                }
                if f.contains(x) {
                    let i = choose|i: int| 0 <= i < f.len() && f[i] == x;
                    assert(f.push(more.last())[i] == x);
                }
                assert(f.push(more.last())[f.len() as int] == more.last());
            }
        }
        if files.no_duplicates() && !f.contains(more.last()) {
            assert forall|i: int, j: int| 0 <= i < j < f.len() + 1 implies f.push(more.last())[i] != f.push(more.last())[j] by {
                if j == f.len() {
                    assert(f.push(more.last())[i] == f[i]);
                } else {
                    assert(f.push(more.last())[i] == f[i] && f.push(more.last())[j] == f[j]);
                }
            }
        }
    }
}


/// How many of the changes `cs` have status `st` and the key (`name`, `kind`).
pub open spec fn tally(cs: Seq<SymbolChangeView>, st: ChangeStatus, name: Seq<char>, kind: Seq<char>) -> int
    decreases cs.len(),
{
    if cs.len() == 0 {
        0
    } else {
        tally(cs.drop_last(), st, name, kind) + if cs.last().status == st && cs.last().name == name
            && cs.last().kind == kind {
            1int
        } else {
            0int
        }
    }
}

/// How many of the changes `cs` have status `st`.
pub open spec fn count_status(cs: Seq<SymbolChangeView>, st: ChangeStatus) -> int
    decreases cs.len(),
{
    if cs.len() == 0 {
        0
    } else {
        count_status(cs.drop_last(), st) + if cs.last().status == st {
            1int
        } else {
            0int
        }
    }
}

/// How many of the positions below `n` satisfy `p`.
spec fn count_where(p: spec_fn(int) -> bool, n: int) -> int
    decreases n,
{
    if n <= 0 {
        0
    } else {
        count_where(p, n - 1) + if p(n - 1) {
            1int
        } else {
            0int
        }
    }
}

spec fn is_change(c: Option<SymbolChangeView>, st: ChangeStatus, name: Seq<char>, kind: Seq<char>) -> bool {
    c matches Some(x) && x.status == st && x.name == name && x.kind == kind
}

spec fn is_status(c: Option<SymbolChangeView>, st: ChangeStatus) -> bool {
    c matches Some(x) && x.status == st
}

spec fn change_pred(
    f: spec_fn(int) -> Option<SymbolChangeView>,
    st: ChangeStatus,
    name: Seq<char>,
    kind: Seq<char>,
) -> spec_fn(int) -> bool {
    |i: int| is_change(f(i), st, name, kind)
}

spec fn status_pred(f: spec_fn(int) -> Option<SymbolChangeView>, st: ChangeStatus) -> spec_fn(int) -> bool {
    |i: int| is_status(f(i), st)
}

spec fn deleted_fn(base: Seq<SymbolView>, work: Seq<SymbolView>, file: Seq<char>) -> spec_fn(int) -> Option<
    SymbolChangeView,
> {
    |i: int| deleted_at(base, work, file, i)
}

spec fn work_fn(
    base: Seq<SymbolView>,
    work: Seq<SymbolView>,
    base_src: Seq<u8>,
    work_src: Seq<u8>,
    file: Seq<char>,
) -> spec_fn(int) -> Option<SymbolChangeView> {
    |i: int| work_change_at(base, work, base_src, work_src, file, i)
}

/// Positions of `s` whose symbol has no partner in `t`.
spec fn unmatched(s: Seq<SymbolView>, t: Seq<SymbolView>) -> spec_fn(int) -> bool {
    |i: int| count_key(s, s[i], i) >= count_key(t, s[i], t.len() as int)
}

/// Positions of `s` holding the `c`-th (from 0) occurrence of `y`'s key.
spec fn nth_of_key(s: Seq<SymbolView>, y: SymbolView, c: int) -> spec_fn(int) -> bool {
    |j: int| same_key(s[j], y) && count_key(s, y, j) == c
}

/// Occurrences `o` of `x`'s key whose two partners differ other than in
/// whitespace.
spec fn differs(
    base: Seq<SymbolView>,
    work: Seq<SymbolView>,
    base_src: Seq<u8>,
    work_src: Seq<u8>,
    x: SymbolView,
) -> spec_fn(int) -> bool {
    |o: int|
        body_of(base[occurrence_from(base, x, o, 0)], base_src) != body_of(
            work[occurrence_from(work, x, o, 0)],
            work_src,
        )
}

spec fn below(b: int, d: spec_fn(int) -> bool) -> spec_fn(int) -> bool {
    |o: int| o < b && d(o)
}

proof fn lemma_tally_append(a: Seq<SymbolChangeView>, b: Seq<SymbolChangeView>, st: ChangeStatus, name: Seq<char>, kind: Seq<char>)
    ensures
        tally(a + b, st, name, kind) == tally(a, st, name, kind) + tally(b, st, name, kind),
        count_status(a + b, st) == count_status(a, st) + count_status(b, st),
    decreases b.len(),
{
    if b.len() == 0 {
        assert(a + b =~= a);
    } else {
        lemma_tally_append(a, b.drop_last(), st, name, kind);
        assert((a + b).drop_last() =~= a + b.drop_last());
        assert((a + b).last() == b.last());
    }
}

proof fn lemma_tally_gather(f: spec_fn(int) -> Option<SymbolChangeView>, n: int, st: ChangeStatus, name: Seq<char>, kind: Seq<char>)
    ensures
        tally(gather(f, n), st, name, kind) == count_where(change_pred(f, st, name, kind), n),
        count_status(gather(f, n), st) == count_where(status_pred(f, st), n),
    decreases n,
{
    if n > 0 {
        lemma_tally_gather(f, n - 1, st, name, kind);
        let prev = gather(f, n - 1);
        match f(n - 1) {
            Some(c) => {
                assert(prev.push(c).drop_last() =~= prev);
            },
            None => {},
        }
    }
}

proof fn lemma_count_where_ext(p: spec_fn(int) -> bool, q: spec_fn(int) -> bool, n: int)
    requires
        forall|i: int| 0 <= i < n ==> #[trigger] p(i) == q(i),
    ensures
        count_where(p, n) == count_where(q, n),
    decreases n,
{
    if n > 0 {
        lemma_count_where_ext(p, q, n - 1);
        assert(p(n - 1) == q(n - 1));
    }
}

proof fn lemma_count_where_none(p: spec_fn(int) -> bool, n: int)
    requires
        forall|i: int| 0 <= i < n ==> !#[trigger] p(i),
    ensures
        count_where(p, n) == 0,
    decreases n,
{
    if n > 0 {
        lemma_count_where_none(p, n - 1);
        assert(!p(n - 1));
    }
}

proof fn lemma_count_where_all(p: spec_fn(int) -> bool, n: int)
    requires
        n >= 0,
        forall|i: int| 0 <= i < n ==> #[trigger] p(i),
    ensures
        count_where(p, n) == n,
    decreases n,
{
    if n > 0 {
        lemma_count_where_all(p, n - 1);
        assert(p(n - 1));
    }
}

proof fn lemma_count_where_split(p: spec_fn(int) -> bool, q: spec_fn(int) -> bool, r: spec_fn(int) -> bool, n: int)
    requires
        forall|i: int| 0 <= i < n ==> #[trigger] p(i) == (q(i) || r(i)) && !(q(i) && r(i)),
    ensures
        count_where(p, n) == count_where(q, n) + count_where(r, n),
    decreases n,
{
    if n > 0 {
        lemma_count_where_split(p, q, r, n - 1);
        assert(p(n - 1) == (q(n - 1) || r(n - 1)) && !(q(n - 1) && r(n - 1)));
    }
}

/// Counting the positions of `d` below `b` among the first `n`.
proof fn lemma_count_below(b: int, d: spec_fn(int) -> bool, n: int)
    requires
        b >= 0,
        n >= 0,
    ensures
        count_where(below(b, d), n) == count_where(d, if b < n { b } else { n }),
    decreases n,
{
    if n > 0 {
        lemma_count_below(b, d, n - 1);
        assert(below(b, d)(n - 1) == (n - 1 < b && d(n - 1)));
    }
}

proof fn lemma_count_key_key(s: Seq<SymbolView>, x: SymbolView, y: SymbolView, n: int)
    requires
        same_key(x, y),
    ensures
        count_key(s, x, n) == count_key(s, y, n),
    decreases n,
{
    if n > 0 {
        lemma_count_key_key(s, x, y, n - 1);
    }
}

proof fn lemma_occurrence_key(s: Seq<SymbolView>, x: SymbolView, y: SymbolView, o: int, j: int)
    requires
        same_key(x, y),
    ensures
        occurrence_from(s, x, o, j) == occurrence_from(s, y, o, j),
    decreases s.len() - j,
{
    if 0 <= j < s.len() {
        lemma_occurrence_key(s, x, y, o - 1, j + 1);
        lemma_occurrence_key(s, x, y, o, j + 1);
    }
}

proof fn lemma_count_key_push(s: Seq<SymbolView>, y: SymbolView, x: SymbolView, n: int)
    requires
        n <= s.len(),
    ensures
        count_key(s.push(y), x, n) == count_key(s, x, n),
    decreases n,
{
    if n > 0 {
        lemma_count_key_push(s, y, x, n - 1);
        assert(s.push(y)[n - 1] == s[n - 1]);
    }
}

/// The additions of one direction are, key by key, the deletions of the
/// other: both come from the symbols of `work` that have no partner in
/// `base`.
proof fn lemma_added_mirrors_deleted(
    base: Seq<SymbolView>,
    work: Seq<SymbolView>,
    base_src: Seq<u8>,
    work_src: Seq<u8>,
    file: Seq<char>,
    name: Seq<char>,
    kind: Seq<char>,
)
    ensures
        tally(symbol_changes(base, work, base_src, work_src, file), ChangeStatus::Added, name, kind) == tally(
            symbol_changes(work, base, work_src, base_src, file),
            ChangeStatus::Deleted,
            name,
            kind,
        ),
{
    let del_d = deleted_fn(base, work, file);
    let chg_d = work_fn(base, work, base_src, work_src, file);
    let del_r = deleted_fn(work, base, file);
    let chg_r = work_fn(work, base, work_src, base_src, file);
    let added = ChangeStatus::Added;
    let deleted = ChangeStatus::Deleted;
    assert(symbol_changes(base, work, base_src, work_src, file) == gather(del_d, base.len() as int) + gather(
        chg_d,
        work.len() as int,
    ));
    assert(symbol_changes(work, base, work_src, base_src, file) == gather(del_r, work.len() as int) + gather(
        chg_r,
        base.len() as int,
    ));
    lemma_tally_append(gather(del_d, base.len() as int), gather(chg_d, work.len() as int), added, name, kind);
    lemma_tally_append(gather(del_r, work.len() as int), gather(chg_r, base.len() as int), deleted, name, kind);
    lemma_tally_gather(del_d, base.len() as int, added, name, kind);
    lemma_tally_gather(chg_d, work.len() as int, added, name, kind);
    lemma_tally_gather(del_r, work.len() as int, deleted, name, kind);
    lemma_tally_gather(chg_r, base.len() as int, deleted, name, kind);
    lemma_count_where_none(change_pred(del_d, added, name, kind), base.len() as int);
    lemma_count_where_none(change_pred(chg_r, deleted, name, kind), base.len() as int);
    lemma_count_where_ext(change_pred(chg_d, added, name, kind), change_pred(del_r, deleted, name, kind), work.len() as int);
}

/// The modifications of either direction, counted for the key of `x`: the
/// occurrences of the key present in both versions whose partners differ.
proof fn lemma_modified_count(
    base: Seq<SymbolView>,
    work: Seq<SymbolView>,
    base_src: Seq<u8>,
    work_src: Seq<u8>,
    file: Seq<char>,
    x: SymbolView,
    n: int,
)
    requires
        0 <= n <= work.len(),
    ensures
        count_where(change_pred(work_fn(base, work, base_src, work_src, file), ChangeStatus::Modified, x.name, x.kind), n)
            == count_where(
            below(count_key(base, x, base.len() as int), differs(base, work, base_src, work_src, x)),
            count_key(work, x, n),
        ),
    decreases n,
{
    if n > 0 {
        let i = n - 1;
        lemma_modified_count(base, work, base_src, work_src, file, x, i);
        lemma_count_key_nonneg(work, x, i);
        let b = count_key(base, x, base.len() as int);
        let pred = change_pred(work_fn(base, work, base_src, work_src, file), ChangeStatus::Modified, x.name, x.kind);
        let q = below(b, differs(base, work, base_src, work_src, x));
        let w = work[i];
        if same_key(w, x) {
            let o = count_key(work, x, i);
            lemma_count_key_key(work, w, x, i);
            lemma_count_key_key(base, w, x, base.len() as int);
            lemma_occurrence_key(base, w, x, o, 0);
            lemma_occurrence_at(work, x, i, 0);
            assert(count_key(work, x, 0) == 0);
            assert(occurrence_from(work, x, o, 0) == i);
            assert(pred(i) == q(o));
            assert(count_key(work, x, n) == o + 1);
        } else {
            assert(!pred(i));
            assert(count_key(work, x, n) == count_key(work, x, i));
        }
    }
}

/// Counting the positions of `s` holding the `c`-th occurrence of `y`'s key.
proof fn lemma_nth_of_key(s: Seq<SymbolView>, y: SymbolView, c: int, n: int)
    requires
        c >= 0,
        0 <= n <= s.len(),
    ensures
        count_where(nth_of_key(s, y, c), n) == if count_key(s, y, n) > c {
            1int
        } else {
            0int
        },
    decreases n,
{
    if n > 0 {
        lemma_nth_of_key(s, y, c, n - 1);
        lemma_count_key_nonneg(s, y, n - 1);
    }
}

/// A base symbol without a partner in `w0` loses that status once `y` is
/// appended exactly when it holds the occurrence of `y`'s key that `y` now
/// pairs with.
proof fn lemma_unmatched_step(base: Seq<SymbolView>, w0: Seq<SymbolView>, y: SymbolView, j: int)
    requires
        0 <= j < base.len(),
    ensures
        ({
            let e = nth_of_key(base, y, count_key(w0, y, w0.len() as int));
            unmatched(base, w0)(j) == (unmatched(base, w0.push(y))(j) || e(j)) && !(unmatched(base, w0.push(y))(
                j,
            ) && e(j))
        }),
{
    let work = w0.push(y);
    let bj = base[j];
    let cw = count_key(w0, y, w0.len() as int);
    let cb = count_key(base, bj, j);
    let ow = count_key(w0, bj, w0.len() as int);
    let nw = count_key(work, bj, work.len() as int);
    lemma_count_key_push(w0, y, bj, w0.len() as int);
    assert(work[w0.len() as int] == y);
    assert(nw == ow + if same_key(work[w0.len() as int], bj) {
        1int
    } else {
        0int
    });
    assert(unmatched(base, w0)(j) == (cb >= ow));
    assert(unmatched(base, work)(j) == (cb >= nw));
    let e = nth_of_key(base, y, cw);
    assert(e(j) == (same_key(bj, y) && count_key(base, y, j) == cw));
    if same_key(bj, y) {
        assert(same_key(y, bj));
        lemma_count_key_key(base, bj, y, j);
        lemma_count_key_key(w0, bj, y, w0.len() as int);
        assert(nw == ow + 1);
        assert(ow == cw);
    } else {
        assert(!same_key(y, bj));
        assert(nw == ow);
    }
}

/// The symbols of `work` without a partner in `base`, less those of `base`
/// without a partner in `work`, number `work.len() - base.len()`.
proof fn lemma_unmatched_balance(base: Seq<SymbolView>, work: Seq<SymbolView>)
    ensures
        count_where(unmatched(work, base), work.len() as int) - count_where(unmatched(base, work), base.len() as int)
            == work.len() - base.len(),
    decreases work.len(),
{
    if work.len() == 0 {
        assert forall|j: int| 0 <= j < base.len() implies #[trigger] unmatched(base, work)(j) by {
            lemma_count_key_nonneg(base, base[j], j);
        }
        lemma_count_where_all(unmatched(base, work), base.len() as int);
    } else {
        let w0 = work.drop_last();
        let y = work.last();
        assert(work =~= w0.push(y));
        lemma_unmatched_balance(base, w0);
        let cw = count_key(w0, y, w0.len() as int);
        let b = count_key(base, y, base.len() as int);
        lemma_count_key_nonneg(w0, y, w0.len() as int);
        // The added side gains exactly the last symbol, when it has no partner.
        assert forall|i: int| 0 <= i < w0.len() implies #[trigger] unmatched(work, base)(i) == unmatched(w0, base)(i) by {
            assert(work[i] == w0[i]);
            lemma_count_key_push(w0, y, w0[i], i);
        }
        lemma_count_where_ext(unmatched(work, base), unmatched(w0, base), w0.len() as int);
        lemma_count_key_push(w0, y, y, w0.len() as int);
        assert(unmatched(work, base)(w0.len() as int) == (cw >= b));
        // The deleted side loses the base symbol that the last one now pairs with.
        let e = nth_of_key(base, y, cw);
        assert forall|j: int| 0 <= j < base.len() implies #[trigger] unmatched(base, w0)(j) == (unmatched(base, work)(j)
            || e(j)) && !(unmatched(base, work)(j) && e(j)) by {
            lemma_unmatched_step(base, w0, y, j);
        }
        lemma_count_where_split(unmatched(base, w0), unmatched(base, work), e, base.len() as int);
        lemma_nth_of_key(base, y, cw, base.len() as int);
    }
}

/// Diffing in the other direction mirrors the changes: key by key, what one
/// direction reports as added the other reports as deleted and the other way
/// round, and both report the same modifications; and the additions less the
/// deletions number the growth in symbols.
pub proof fn lemma_diff_mirrored(
    base: Seq<SymbolView>,
    work: Seq<SymbolView>,
    base_src: Seq<u8>,
    work_src: Seq<u8>,
    file: Seq<char>,
)
    ensures
        ({
            let d = symbol_changes(base, work, base_src, work_src, file);
            let r = symbol_changes(work, base, work_src, base_src, file);
            &&& forall|name: Seq<char>, kind: Seq<char>|
                #[trigger] tally(d, ChangeStatus::Added, name, kind) == tally(r, ChangeStatus::Deleted, name, kind)
            &&& forall|name: Seq<char>, kind: Seq<char>|
                #[trigger] tally(d, ChangeStatus::Deleted, name, kind) == tally(r, ChangeStatus::Added, name, kind)
            &&& forall|name: Seq<char>, kind: Seq<char>|
                #[trigger] tally(d, ChangeStatus::Modified, name, kind) == tally(r, ChangeStatus::Modified, name, kind)
            &&& count_status(d, ChangeStatus::Added) - count_status(d, ChangeStatus::Deleted) == work.len() - base.len()
        }),
{
    let d = symbol_changes(base, work, base_src, work_src, file);
    let r = symbol_changes(work, base, work_src, base_src, file);
    assert forall|name: Seq<char>, kind: Seq<char>|
        #[trigger] tally(d, ChangeStatus::Added, name, kind) == tally(r, ChangeStatus::Deleted, name, kind) by {
        lemma_added_mirrors_deleted(base, work, base_src, work_src, file, name, kind);
    }
    assert forall|name: Seq<char>, kind: Seq<char>|
        #[trigger] tally(d, ChangeStatus::Deleted, name, kind) == tally(r, ChangeStatus::Added, name, kind) by {
        lemma_added_mirrors_deleted(work, base, work_src, base_src, file, name, kind);
    }
    assert forall|name: Seq<char>, kind: Seq<char>|
        #[trigger] tally(d, ChangeStatus::Modified, name, kind) == tally(r, ChangeStatus::Modified, name, kind) by {
        lemma_modified_mirrored(base, work, base_src, work_src, file, name, kind);
    }
    lemma_growth(base, work, base_src, work_src, file);
}

proof fn lemma_modified_mirrored(
    base: Seq<SymbolView>,
    work: Seq<SymbolView>,
    base_src: Seq<u8>,
    work_src: Seq<u8>,
    file: Seq<char>,
    name: Seq<char>,
    kind: Seq<char>,
)
    ensures
        tally(symbol_changes(base, work, base_src, work_src, file), ChangeStatus::Modified, name, kind) == tally(
            symbol_changes(work, base, work_src, base_src, file),
            ChangeStatus::Modified,
            name,
            kind,
        ),
{
    let x = SymbolView {
        name,
        kind,
        line_start: 0,
        line_end: 0,
        start_byte: 0,
        end_byte: 0,
        name_start_byte: 0,
        name_end_byte: 0,
    };
    let m = ChangeStatus::Modified;
    let del_d = deleted_fn(base, work, file);
    let chg_d = work_fn(base, work, base_src, work_src, file);
    let del_r = deleted_fn(work, base, file);
    let chg_r = work_fn(work, base, work_src, base_src, file);
    assert(symbol_changes(base, work, base_src, work_src, file) == gather(del_d, base.len() as int) + gather(
        chg_d,
        work.len() as int,
    ));
    assert(symbol_changes(work, base, work_src, base_src, file) == gather(del_r, work.len() as int) + gather(
        chg_r,
        base.len() as int,
    ));
    lemma_tally_append(gather(del_d, base.len() as int), gather(chg_d, work.len() as int), m, name, kind);
    lemma_tally_append(gather(del_r, work.len() as int), gather(chg_r, base.len() as int), m, name, kind);
    lemma_tally_gather(del_d, base.len() as int, m, name, kind);
    lemma_tally_gather(chg_d, work.len() as int, m, name, kind);
    lemma_tally_gather(del_r, work.len() as int, m, name, kind);
    lemma_tally_gather(chg_r, base.len() as int, m, name, kind);
    lemma_count_where_none(change_pred(del_d, m, name, kind), base.len() as int);
    lemma_count_where_none(change_pred(del_r, m, name, kind), work.len() as int);
    lemma_modified_count(base, work, base_src, work_src, file, x, work.len() as int);
    lemma_modified_count(work, base, work_src, base_src, file, x, base.len() as int);
    let b = count_key(base, x, base.len() as int);
    let w = count_key(work, x, work.len() as int);
    lemma_count_key_nonneg(base, x, base.len() as int);
    lemma_count_key_nonneg(work, x, work.len() as int);
    lemma_count_below(b, differs(base, work, base_src, work_src, x), w);
    lemma_count_below(w, differs(work, base, work_src, base_src, x), b);
    let k = if b < w { b } else { w };
    lemma_count_where_ext(differs(base, work, base_src, work_src, x), differs(work, base, work_src, base_src, x), k);
}

proof fn lemma_growth(
    base: Seq<SymbolView>,
    work: Seq<SymbolView>,
    base_src: Seq<u8>,
    work_src: Seq<u8>,
    file: Seq<char>,
)
    ensures
        ({
            let d = symbol_changes(base, work, base_src, work_src, file);
            count_status(d, ChangeStatus::Added) - count_status(d, ChangeStatus::Deleted) == work.len() - base.len()
        }),
{
    let del_d = deleted_fn(base, work, file);
    let chg_d = work_fn(base, work, base_src, work_src, file);
    let added = ChangeStatus::Added;
    let deleted = ChangeStatus::Deleted;
    let e: Seq<char> = Seq::empty();
    assert(symbol_changes(base, work, base_src, work_src, file) == gather(del_d, base.len() as int) + gather(
        chg_d,
        work.len() as int,
    ));
    lemma_tally_append(gather(del_d, base.len() as int), gather(chg_d, work.len() as int), added, e, e);
    lemma_tally_append(gather(del_d, base.len() as int), gather(chg_d, work.len() as int), deleted, e, e);
    lemma_tally_gather(del_d, base.len() as int, added, e, e);
    lemma_tally_gather(chg_d, work.len() as int, added, e, e);
    lemma_tally_gather(del_d, base.len() as int, deleted, e, e);
    lemma_tally_gather(chg_d, work.len() as int, deleted, e, e);
    lemma_count_where_none(status_pred(del_d, added), base.len() as int);
    lemma_count_where_none(status_pred(chg_d, deleted), work.len() as int);
    lemma_count_where_ext(status_pred(chg_d, added), unmatched(work, base), work.len() as int);
    lemma_count_where_ext(status_pred(del_d, deleted), unmatched(base, work), base.len() as int);
    lemma_unmatched_balance(base, work);
}


/// Stripping whitespace drops exactly the whitespace characters: what is
/// left is every other character of `s`, in order.
pub proof fn lemma_strip_ws_keeps_the_rest(s: Seq<char>)
    ensures
        strip_ws(s) == s.filter(|c: char| !is_ws(c)),
    decreases s.len(),
{
    reveal(Seq::filter);
    if s.len() > 0 {
        lemma_strip_ws_keeps_the_rest(s.drop_last());
    }
}

/// Whitespace-only edits are ignored: when every symbol of the working
/// version pairs, in order, with the symbol of the base version at the same
/// position, and their texts agree once every whitespace character (spaces,
/// tabs, newlines and the rest) is removed, no change is reported.
pub proof fn lemma_whitespace_only_edits_ignored(
    base: Seq<SymbolView>,
    work: Seq<SymbolView>,
    base_src: Seq<u8>,
    work_src: Seq<u8>,
    file: Seq<char>,
)
    requires
        base.len() == work.len(),
        forall|i: int| 0 <= i < base.len() ==> #[trigger] same_key(base[i], work[i]),
        forall|i: int|
            0 <= i < base.len() ==> (#[trigger] text_at(base_src, base[i].start_byte, base[i].end_byte)).unwrap().filter(
                |c: char| !is_ws(c),
            ) == text_at(work_src, work[i].start_byte, work[i].end_byte).unwrap().filter(|c: char| !is_ws(c)),
    ensures
        symbol_changes(base, work, base_src, work_src, file) == Seq::<SymbolChangeView>::empty(),
{
    assert forall|i: int| 0 <= i < base.len() implies #[trigger] body_of(base[i], base_src) == body_of(work[i], work_src) by {
        let tb = text_at(base_src, base[i].start_byte, base[i].end_byte).unwrap();
        let tw = text_at(work_src, work[i].start_byte, work[i].end_byte).unwrap();
        lemma_strip_ws_keeps_the_rest(tb);
        lemma_strip_ws_keeps_the_rest(tw);
    }
    lemma_formatting_only_edits(base, work, base_src, work_src, file);
}
} // verus!
