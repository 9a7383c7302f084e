//! Symbol lookup tools: file outlines and symbol definitions.

use vstd::prelude::*;
use vstd::string::StringSliceAdditionalSpecFns;

use crate::ast::{parse, spans_valid, Symbol, SymbolView};
use crate::diff::symbols_in;
use crate::index::ReadError;
use crate::languages::{language_of_path, Language};
use crate::order::{dedup, dedup_strings, lemma_dedup_sorted, lemma_map_multiset, lemma_sorted_texts, sort, texts_strictly_sorted};
use crate::paths::PathError;
use crate::text::{bytes_of, lossy_text, slice_text, str_eq, text_at, utf8_lossy, valid_byte_range};

verus! {

broadcast use vstd::seq_lib::group_to_multiset_ensures;

/// Errors from symbol lookup.
#[derive(Debug)]
pub enum SymbolError {
    Path(PathError),
    Read(ReadError),
    /// Listing the repository's files failed; holds the reason.
    Io(String),
    /// The file's language is not supported.
    Unsupported,
    /// No symbol with the requested name was found.
    NotFound,
    /// The name matched symbols in multiple files; `files` lists them.
    Ambiguous { files: Vec<String> },
}

impl SymbolError {
    /// The error's message.
    pub fn message(&self) -> (s: String)
        ensures
            s@ == match self {
                SymbolError::Path(e) => crate::index::path_error_message(*e),
                SymbolError::Read(e) => crate::index::read_error_message(*e),
                SymbolError::Io(m) => m@,
                SymbolError::Unsupported => "unsupported file type"@,
                SymbolError::NotFound => "symbol not found"@,
                SymbolError::Ambiguous { files } => "symbol found in multiple files: "@ + crate::text::joined(
                    crate::text::texts(files@),
                    ", "@,
                ),
            },
    {
        match self {
            SymbolError::Path(e) => e.message(),
            SymbolError::Read(e) => e.message(),
            SymbolError::Io(m) => m.clone(),
            SymbolError::Unsupported => String::from_str("unsupported file type"),
            SymbolError::NotFound => String::from_str("symbol not found"),
            SymbolError::Ambiguous { files } => {
                let mut s = String::from_str("symbol found in multiple files: ");
                let j = crate::text::join(files, ", ");
                s.append(j.as_str());
                s
            },
        }
    }
}

/// The outline (all symbols with kinds and line ranges) of the file at
/// root-relative path `rel` whose content is `bytes`.
pub fn get_file_outline(rel: &str, bytes: &[u8]) -> (r: Result<Vec<Symbol>, SymbolError>)
    ensures
        match language_of_path(rel@) {
            None => r matches Err(SymbolError::Unsupported),
            Some(lang) => r matches Ok(v) && v@.map_values(|s: Symbol| s@) == symbols_in(
                lang,
                lossy_text(bytes@),
            ),
        },
{
    let lang = match Language::from_path(rel) {
        Some(l) => l,
        None => return Err(SymbolError::Unsupported),
    };
    let source = utf8_lossy(bytes);
    Ok(parse(lang, source.as_str()))
}

/// A match of a symbol name: the file, the symbol, and the file's text.
pub type MatchView = (Seq<char>, SymbolView, Seq<char>);

/// The symbols named `name` in one file (path and content), in document
/// order; none for files in no supported language.
pub open spec fn file_matches(path: Seq<char>, bytes: Seq<u8>, name: Seq<char>) -> Seq<MatchView> {
    match language_of_path(path) {
        None => Seq::empty(),
        Some(lang) => {
            let text = lossy_text(bytes);
            symbols_in(lang, text).filter(|s: SymbolView| s.name == name).map_values(
                |s: SymbolView| (path, s, text),
            )
        },
    }
}

/// The symbols named `name` in the first `n` files, in order.
pub open spec fn matches_upto(files: Seq<(String, Vec<u8>)>, name: Seq<char>, n: int) -> Seq<MatchView>
    decreases n,
{
    if n <= 0 {
        Seq::empty()
    } else {
        matches_upto(files, name, n - 1) + file_matches(files[n - 1].0@, files[n - 1].1@, name)
    }
}

/// Whether position `i` of `ms` holds the first of the matches with the
/// lowest starting line.
pub open spec fn is_first_lowest(ms: Seq<MatchView>, i: int) -> bool {
    &&& 0 <= i < ms.len()
    &&& forall|j: int| 0 <= j < ms.len() ==> ms[i].1.line_start <= #[trigger] ms[j].1.line_start
    &&& forall|j: int| 0 <= j < i ==> #[trigger] ms[j].1.line_start > ms[i].1.line_start
}

/// Whether the files of the matches `ms` are exactly `files`, listed once each
/// in ascending order.
pub open spec fn files_of_matches(ms: Seq<MatchView>, files: Seq<Seq<char>>) -> bool {
    &&& texts_strictly_sorted(files)
    &&& forall|f: Seq<char>| files.contains(f) <==> exists|i: int| 0 <= i < ms.len() && #[trigger] ms[i].0 == f
}

/// The text of a match.
pub open spec fn match_text(m: MatchView) -> Seq<char> {
    text_at(bytes_of(m.2), m.1.start_byte, m.1.end_byte).unwrap()
}

/// The exact source of the symbol named `name`, searched in `files` (each a
/// root-relative path and the file's content, in listing order; files in no
/// supported language are skipped). Ambiguity is handled deterministically:
/// within a single file the first match by line is returned; a name matching
/// symbols in several files is an error listing those files.
pub fn get_symbol_definition(name: &str, files: &Vec<(String, Vec<u8>)>) -> (r: Result<String, SymbolError>)
    ensures
        ({
            let ms = matches_upto(files@, name@, files@.len() as int);
            if ms.len() == 0 {
                r matches Err(SymbolError::NotFound)
            } else if exists|i: int, j: int| 0 <= i < ms.len() && 0 <= j < ms.len() && #[trigger] ms[i].0 != #[trigger] ms[j].0 {
                r matches Err(SymbolError::Ambiguous { files: fs }) && files_of_matches(
                    ms,
                    fs@.map_values(|s: String| s@),
                )
            } else {
                r matches Ok(t) && exists|i: int| is_first_lowest(ms, i) && t@ == match_text(#[trigger] ms[i])
            }
        }),
{
    let ghost nm = name@;
    // Sources of the supported files, and the matches as (file index, symbol).
    let mut sources: Vec<String> = Vec::new();
    let mut found: Vec<(usize, Symbol)> = Vec::new();
    let mut k: usize = 0;
    while k < files.len()
        invariant
            k <= files.len(),
            nm == name@,
            sources@.len() == k,
            forall|q: int| 0 <= q < k ==> #[trigger] sources@[q]@ == lossy_text(files@[q].1@),
            forall|q: int| 0 <= q < found@.len() ==> #[trigger] found@[q].0 < k,
            forall|q: int| 0 <= q < found@.len() ==> valid_byte_range(bytes_of(sources@[found@[q].0 as int]@), (#[trigger] found@[q]).1.start_byte as int, found@[q].1.end_byte as int),
            found@.map_values(|m: (usize, Symbol)| (files@[m.0 as int].0@, m.1@, sources@[m.0 as int]@))
                == matches_upto(files@, nm, k as int),
        decreases files.len() - k,
    {
        let ghost prev_found = found@;
        let ghost prev_sources = sources@;
        let source = utf8_lossy(files[k].1.as_slice());
        let ghost text = source@;
        match Language::from_path(files[k].0.as_str()) {
            None => {
                sources.push(source);
                proof {
                    assert(file_matches(files@[k as int].0@, files@[k as int].1@, nm) =~= Seq::<MatchView>::empty());
                    assert(found@.map_values(|m: (usize, Symbol)| (files@[m.0 as int].0@, m.1@, sources@[m.0 as int]@))
                        =~= prev_found.map_values(|m: (usize, Symbol)| (files@[m.0 as int].0@, m.1@, prev_sources[m.0 as int]@)));
                }
            },
            Some(lang) => {
                let syms = parse(lang, source.as_str());
                let ghost sv = syms@.map_values(|s: Symbol| s@);
                sources.push(source);
                let ghost fm = sv.filter(|s: SymbolView| s.name == nm).map_values(|s: SymbolView| (files@[k as int].0@, s, text));
                let ghost base = prev_found.map_values(|m: (usize, Symbol)| (files@[m.0 as int].0@, m.1@, prev_sources[m.0 as int]@));
                proof {
                    assert(found@.map_values(|m: (usize, Symbol)| (files@[m.0 as int].0@, m.1@, sources@[m.0 as int]@))
                        =~= base);
                }
                let mut j: usize = 0;
                while j < syms.len()
                    invariant
                        j <= syms.len(),
                        k < files.len(),
                        nm == name@,
                        sources@.len() == k + 1,
                        sources@[k as int]@ == text,
                        text == lossy_text(files@[k as int].1@),
                        sv == syms@.map_values(|s: Symbol| s@),
                        sv == symbols_in(lang, text),
                        spans_valid(sv, bytes_of(text)),
                        language_of_path(files@[k as int].0@) == Some(lang),
                        forall|q: int| 0 <= q < found@.len() ==> #[trigger] found@[q].0 < k + 1,
                        forall|q: int| 0 <= q < found@.len() ==> valid_byte_range(bytes_of(sources@[found@[q].0 as int]@), (#[trigger] found@[q]).1.start_byte as int, found@[q].1.end_byte as int),
                        found@.map_values(|m: (usize, Symbol)| (files@[m.0 as int].0@, m.1@, sources@[m.0 as int]@))
                            == base + sv.take(j as int).filter(|s: SymbolView| s.name == nm).map_values(|s: SymbolView| (files@[k as int].0@, s, text)),
                    decreases syms.len() - j,
                {
                    let ghost before = found@;
                    proof {
                        assert(sv.take(j + 1).drop_last() =~= sv.take(j as int));
                        assert(sv.take(j + 1).last() == sv[j as int]);
                        reveal_with_fuel(Seq::filter, 1);
                    }
                    if str_eq(syms[j].name.as_str(), name) {
                        let sym = copy_symbol(&syms[j]);
                        found.push((k, sym));
                        proof {
                            assert(valid_byte_range(bytes_of(text), sv[j as int].start_byte, sv[j as int].end_byte));
                            assert(found@.map_values(|m: (usize, Symbol)| (files@[m.0 as int].0@, m.1@, sources@[m.0 as int]@))
                                =~= before.map_values(|m: (usize, Symbol)| (files@[m.0 as int].0@, m.1@, sources@[m.0 as int]@)).push((files@[k as int].0@, sv[j as int], text)));
                        }
                    }
                    j = j + 1;
                }
                proof {
                    assert(sv.take(syms.len() as int) =~= sv);
                }
            },
        }
        proof {
            assert forall|q: int| 0 <= q < k + 1 implies #[trigger] sources@[q]@ == lossy_text(files@[q].1@) by {
                if q < k {
                    assert(sources@[q] == prev_sources[q]);
                }
            }
        }
        k = k + 1;
    }
    let ghost ms = matches_upto(files@, nm, files@.len() as int);
    let ghost fmap = |m: (usize, Symbol)| (files@[m.0 as int].0@, m.1@, sources@[m.0 as int]@);
    assert(found@.map_values(fmap) == ms);
    if found.len() == 0 {
        return Err(SymbolError::NotFound);
    }
    // The distinct files holding a match, in ascending order.
    let mut names: Vec<String> = Vec::new();
    let mut q: usize = 0;
    while q < found.len()
        invariant
            q <= found.len(),
            found@.map_values(fmap) == ms,
            fmap == (|m: (usize, Symbol)| (files@[m.0 as int].0@, m.1@, sources@[m.0 as int]@)),
            forall|p: int| 0 <= p < found@.len() ==> #[trigger] found@[p].0 < files.len(),
            names@.map_values(|s: String| s@) == ms.take(q as int).map_values(|m: MatchView| m.0),
        decreases found.len() - q,
    {
        let ghost before = names@;
        assert(found@.map_values(fmap)[q as int] == fmap(found@[q as int]));
        names.push(files[found[q].0].0.clone());
        assert(names@.map_values(|s: String| s@) =~= before.map_values(|s: String| s@).push(files@[found@[q as int].0 as int].0@));
        assert(names@.map_values(|s: String| s@) =~= ms.take(q + 1).map_values(|m: MatchView| m.0)) by {
            assert(ms.take(q + 1) =~= ms.take(q as int).push(ms[q as int]));
        }
        q = q + 1;
    }
    assert(ms.take(found.len() as int) =~= ms);
    let ghost raw = names@;
    let sorted = sort(names);
    proof {
        lemma_sorted_texts(sorted@);
        lemma_map_multiset(sorted@, raw);
        lemma_dedup_sorted(sorted@.map_values(|s: String| s@));
    }
    let distinct = dedup_strings(sorted);
    let ghost dv = distinct@.map_values(|s: String| s@);
    proof {
        assert forall|f: Seq<char>| dv.contains(f) <==> exists|i: int| 0 <= i < ms.len() && #[trigger] ms[i].0 == f by {
            let rv = raw.map_values(|s: String| s@);
            let sv2 = sorted@.map_values(|s: String| s@);
            assert(sv2.contains(f) <==> rv.contains(f)) by {
                assert(sv2.to_multiset().count(f) == rv.to_multiset().count(f));
            }
            if rv.contains(f) {
                let i = choose|i: int| 0 <= i < rv.len() && rv[i] == f;
                assert(ms[i].0 == f);
            }
            if exists|i: int| 0 <= i < ms.len() && #[trigger] ms[i].0 == f {
                let i = choose|i: int| 0 <= i < ms.len() && #[trigger] ms[i].0 == f;
                assert(rv[i] == f);
            }
        }
    }
    if distinct.len() > 1 {
        proof {
            let f0 = dv[0];
            let f1 = dv[1];
            assert(dv.contains(f0) && dv.contains(f1));
            let i = choose|i: int| 0 <= i < ms.len() && #[trigger] ms[i].0 == f0;
            let j = choose|j: int| 0 <= j < ms.len() && #[trigger] ms[j].0 == f1;
            assert(crate::order::text_lt(dv[0], dv[1]));
            assert(ms[i].0 != ms[j].0);
        }
        return Err(SymbolError::Ambiguous { files: distinct });
    }
    proof {
        assert forall|i: int, j: int| 0 <= i < ms.len() && 0 <= j < ms.len() implies #[trigger] ms[i].0 == #[trigger] ms[j].0 by {
            assert(dv.contains(ms[i].0));
            assert(dv.contains(ms[j].0));
            let a = choose|a: int| 0 <= a < dv.len() && dv[a] == ms[i].0;
            let b = choose|b: int| 0 <= b < dv.len() && dv[b] == ms[j].0;
        }
    }
    // The first match with the lowest starting line.
    let mut best: usize = 0;
    let mut p: usize = 1;
    while p < found.len()
        invariant
            1 <= p <= found.len(),
            best < p,
            found@.map_values(fmap) == ms,
            fmap == (|m: (usize, Symbol)| (files@[m.0 as int].0@, m.1@, sources@[m.0 as int]@)),
            forall|j: int| 0 <= j < p ==> ms[best as int].1.line_start <= #[trigger] ms[j].1.line_start,
            forall|j: int| 0 <= j < best ==> #[trigger] ms[j].1.line_start > ms[best as int].1.line_start,
        decreases found.len() - p,
    {
        assert(found@.map_values(fmap)[p as int] == fmap(found@[p as int]));
        assert(found@.map_values(fmap)[best as int] == fmap(found@[best as int]));
        if found[p].1.line_start < found[best].1.line_start {
            best = p;
        }
        p = p + 1;
    }
    let (fi, ref sym) = found[best];
    assert(valid_byte_range(bytes_of(sources@[fi as int]@), sym.start_byte as int, sym.end_byte as int));
    let src = sources[fi].as_str();
    let text = slice_text(src, sym.start_byte, sym.end_byte).unwrap();
    proof {
        assert(found@.map_values(fmap)[best as int] == fmap(found@[best as int]));
        assert(ms[best as int].2 == src@);
        assert(is_first_lowest(ms, best as int));
        assert(text@ == match_text(ms[best as int]));
        assert(ms.len() > 0);
    }
    Ok(text)
}

/// A copy of a symbol.
pub fn copy_symbol(s: &Symbol) -> (c: Symbol)
    ensures
        c@ == s@,
{
    Symbol {
        name: s.name.clone(),
        kind: s.kind.clone(),
        line_start: s.line_start,
        line_end: s.line_end,
        start_byte: s.start_byte,
        end_byte: s.end_byte,
        name_start_byte: s.name_start_byte,
        name_end_byte: s.name_end_byte,
    }
}


impl From<PathError> for SymbolError {
    fn from(e: PathError) -> (r: SymbolError) {
        SymbolError::Path(e)
    }
}

impl vstd::std_specs::convert::FromSpecImpl<PathError> for SymbolError {
    open spec fn obeys_from_spec() -> bool {
        true
    }

    open spec fn from_spec(e: PathError) -> SymbolError {
        SymbolError::Path(e)
    }
}


impl From<ReadError> for SymbolError {
    fn from(e: ReadError) -> (r: SymbolError) {
        SymbolError::Read(e)
    }
}

impl vstd::std_specs::convert::FromSpecImpl<ReadError> for SymbolError {
    open spec fn obeys_from_spec() -> bool {
        true
    }

    open spec fn from_spec(e: ReadError) -> SymbolError {
        SymbolError::Read(e)
    }
}

} // verus!
