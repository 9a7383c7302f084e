//! Reference graph tools: upstream reference spots and downstream callers.
//!
//! Resolution is name-based (lexical): a reference is matched to a definition
//! by identifier text. This is deliberately conservative for dynamic or
//! ambiguous languages (Python, JavaScript) where precise type-based
//! resolution is not available; a name defined in multiple files yields
//! multiple candidate edges rather than a guess.

use vstd::prelude::*;

use crate::graph::{file_part, keys_with_name, spots_named, SymbolGraph};
use crate::index::ReadError;
use crate::order::texts_strictly_sorted;
use crate::text::texts;
use crate::order::{lemma_text_le_antisym, lemma_text_le_total_trans, str_le, text_le, KeyOrder};
use crate::paths::PathError;

verus! {

/// A single reference site: where a symbol name is used.
#[derive(Debug, Clone, PartialEq, Eq)]
pub struct RefSpot {
    pub file: String,
    pub line: usize,
    /// The trimmed source line at the reference site.
    pub context: String,
}

/// The mathematical content of a [`RefSpot`].
pub struct RefSpotView {
    pub file: Seq<char>,
    pub line: int,
    pub context: Seq<char>,
}

impl View for RefSpot {
    type V = RefSpotView;

    open spec fn view(&self) -> RefSpotView {
        RefSpotView { file: self.file@, line: self.line as int, context: self.context@ }
    }
}

/// The order of reference spots: by file, then by line.
pub open spec fn spot_le(a: RefSpotView, b: RefSpotView) -> bool {
    (text_le(a.file, b.file) && a.file != b.file) || (a.file == b.file && a.line <= b.line)
}

impl KeyOrder for RefSpot {
    open spec fn le(a: RefSpot, b: RefSpot) -> bool {
        spot_le(a@, b@)
    }

    proof fn lemma_preorder() {
        lemma_text_le_total_trans();
        assert forall|a: RefSpot, b: RefSpot, c: RefSpot|
            #[trigger] spot_le(a@, b@) && #[trigger] spot_le(b@, c@) implies spot_le(a@, c@) by {
            if text_le(a@.file, b@.file) && text_le(b@.file, c@.file) && a@.file == c@.file {
                lemma_text_le_antisym(a@.file, b@.file);
            }
        }
        assert forall|a: RefSpot, b: RefSpot| #[trigger] spot_le(a@, b@) || spot_le(b@, a@) by {
            if !text_le(a@.file, b@.file) {
                assert(text_le(b@.file, a@.file));
            }
        }
        assert(vstd::relations::transitive(|a: RefSpot, b: RefSpot| spot_le(a@, b@)));
        assert(vstd::relations::strongly_connected(|a: RefSpot, b: RefSpot| spot_le(a@, b@)));
    }

    fn le_exec(a: &RefSpot, b: &RefSpot) -> (r: bool) {
        if crate::text::str_eq(a.file.as_str(), b.file.as_str()) {
            a.line <= b.line
        } else {
            str_le(a.file.as_str(), b.file.as_str())
        }
    }
}

/// A copy of a reference spot.
pub fn copy_spot(s: &RefSpot) -> (r: RefSpot)
    ensures
        r@ == s@,
{
    RefSpot { file: s.file.clone(), line: s.line, context: s.context.clone() }
}

/// A caller found by downstream BFS.
#[derive(Debug, Clone, PartialEq, Eq)]
pub struct CallerRecord {
    pub symbol: String,
    pub kind: String,
    pub file: String,
    pub line_start: usize,
    pub line_end: usize,
    /// Hop distance from the queried symbol (1 = direct caller).
    pub depth: usize,
}

/// The mathematical content of a [`CallerRecord`].
pub struct CallerView {
    pub symbol: Seq<char>,
    pub kind: Seq<char>,
    pub file: Seq<char>,
    pub line_start: int,
    pub line_end: int,
    pub depth: int,
}

impl View for CallerRecord {
    type V = CallerView;

    open spec fn view(&self) -> CallerView {
        CallerView {
            symbol: self.symbol@,
            kind: self.kind@,
            file: self.file@,
            line_start: self.line_start as int,
            line_end: self.line_end as int,
            depth: self.depth as int,
        }
    }
}

/// The order of caller records: by depth, then file, then first line,
/// then symbol name.
pub open spec fn caller_le(a: CallerView, b: CallerView) -> bool {
    ||| a.depth < b.depth
    ||| a.depth == b.depth && text_le(a.file, b.file) && a.file != b.file
    ||| a.depth == b.depth && a.file == b.file && a.line_start < b.line_start
    ||| a.depth == b.depth && a.file == b.file && a.line_start == b.line_start && text_le(a.symbol, b.symbol)
}

/// `text_le` is antisymmetric.
proof fn lemma_text_le_antisym_all()
    ensures
        forall|a: Seq<char>, b: Seq<char>| #[trigger] text_le(a, b) && #[trigger] text_le(b, a) ==> a == b,
{
    assert forall|a: Seq<char>, b: Seq<char>| #[trigger] text_le(a, b) && #[trigger] text_le(b, a) implies a == b by {
        lemma_text_le_antisym(a, b);
    }
}

impl KeyOrder for CallerRecord {
    open spec fn le(a: CallerRecord, b: CallerRecord) -> bool {
        caller_le(a@, b@)
    }

    proof fn lemma_preorder() {
        lemma_text_le_total_trans();
        lemma_text_le_antisym_all();
        assert(vstd::relations::transitive(|a: CallerRecord, b: CallerRecord| caller_le(a@, b@)));
        assert(vstd::relations::strongly_connected(|a: CallerRecord, b: CallerRecord| caller_le(a@, b@)));
    }

    fn le_exec(a: &CallerRecord, b: &CallerRecord) -> (r: bool) {
        if a.depth != b.depth {
            return a.depth < b.depth;
        }
        if !crate::text::str_eq(a.file.as_str(), b.file.as_str()) {
            return str_le(a.file.as_str(), b.file.as_str());
        }
        if a.line_start != b.line_start {
            return a.line_start < b.line_start;
        }
        str_le(a.symbol.as_str(), b.symbol.as_str())
    }
}

/// Caller records that order both ways agree on depth, file, first line
/// and name.
pub proof fn lemma_caller_le_antisym(x: CallerView, y: CallerView)
    requires
        caller_le(x, y),
        caller_le(y, x),
    ensures
        x.depth == y.depth && x.file == y.file && x.line_start == y.line_start && x.symbol == y.symbol,
{
    lemma_text_le_antisym_all();
}

/// The lexicographic order of key sequences (std's order on `Vec<String>`).
pub open spec fn lex_le(a: Seq<Seq<char>>, b: Seq<Seq<char>>) -> bool
    decreases a.len(),
{
    if a.len() == 0 {
        true
    } else if b.len() == 0 {
        false
    } else if a[0] != b[0] {
        text_le(a[0], b[0])
    } else {
        lex_le(a.drop_first(), b.drop_first())
    }
}

proof fn lemma_lex_le_total(a: Seq<Seq<char>>, b: Seq<Seq<char>>)
    ensures
        lex_le(a, b) || lex_le(b, a),
    decreases a.len(),
{
    lemma_text_le_total_trans();
    if a.len() > 0 && b.len() > 0 && a[0] == b[0] {
        lemma_lex_le_total(a.drop_first(), b.drop_first());
    }
}

proof fn lemma_lex_le_trans(a: Seq<Seq<char>>, b: Seq<Seq<char>>, c: Seq<Seq<char>>)
    requires
        lex_le(a, b),
        lex_le(b, c),
    ensures
        lex_le(a, c),
    decreases a.len(),
{
    lemma_text_le_total_trans();
    lemma_text_le_antisym_all();
    if a.len() > 0 && b.len() > 0 && c.len() > 0 {
        if a[0] == b[0] && b[0] == c[0] {
            lemma_lex_le_trans(a.drop_first(), b.drop_first(), c.drop_first());
        }
    }
}

proof fn lemma_lex_le_antisym(a: Seq<Seq<char>>, b: Seq<Seq<char>>)
    requires
        lex_le(a, b),
        lex_le(b, a),
        a.len() == b.len(),
    ensures
        a == b,
    decreases a.len(),
{
    lemma_text_le_antisym_all();
    if a.len() > 0 {
        if a[0] == b[0] {
            lemma_lex_le_antisym(a.drop_first(), b.drop_first());
            assert(a =~= seq![a[0]] + a.drop_first());
            assert(b =~= seq![b[0]] + b.drop_first());
        }
    } else {
        assert(a =~= b);
    }
}

/// Impact paths that order both ways are equal.
pub proof fn lemma_path_le_antisym(a: Seq<Seq<char>>, b: Seq<Seq<char>>)
    requires
        path_le(a, b),
        path_le(b, a),
    ensures
        a == b,
{
    lemma_lex_le_antisym(a, b);
}

/// The order of impact paths: by length, then lexicographically.
pub open spec fn path_le(a: Seq<Seq<char>>, b: Seq<Seq<char>>) -> bool {
    a.len() < b.len() || (a.len() == b.len() && lex_le(a, b))
}

/// An impact path from the queried symbol outward through its callers.
#[derive(Debug, Clone, PartialEq, Eq)]
pub struct ImpactPath {
    /// Symbol keys from the root to the deepest caller, e.g.
    /// `["leaf", "mid", "root"]` means `root` calls `mid` calls `leaf`.
    pub path: Vec<String>,
}

impl View for ImpactPath {
    type V = Seq<Seq<char>>;

    open spec fn view(&self) -> Seq<Seq<char>> {
        crate::text::texts(self.path@)
    }
}

impl KeyOrder for ImpactPath {
    open spec fn le(a: ImpactPath, b: ImpactPath) -> bool {
        path_le(a@, b@)
    }

    proof fn lemma_preorder() {
        assert forall|a: ImpactPath, b: ImpactPath, c: ImpactPath|
            #[trigger] path_le(a@, b@) && #[trigger] path_le(b@, c@) implies path_le(a@, c@) by {
            if a@.len() == b@.len() && b@.len() == c@.len() {
                lemma_lex_le_trans(a@, b@, c@);
            }
        }
        assert forall|a: ImpactPath, b: ImpactPath| #[trigger] path_le(a@, b@) || path_le(b@, a@) by {
            lemma_lex_le_total(a@, b@);
        }
        assert(vstd::relations::transitive(|a: ImpactPath, b: ImpactPath| path_le(a@, b@)));
        assert(vstd::relations::strongly_connected(|a: ImpactPath, b: ImpactPath| path_le(a@, b@)));
    }

    fn le_exec(a: &ImpactPath, b: &ImpactPath) -> (r: bool) {
        if a.path.len() != b.path.len() {
            return a.path.len() < b.path.len();
        }
        let ghost av = a@;
        let ghost bv = b@;
        assert(av.skip(0) =~= av && bv.skip(0) =~= bv);
        let mut i: usize = 0;
        while i < a.path.len()
            invariant
                a.path.len() == b.path.len(),
                av == a@,
                bv == b@,
                i <= a.path.len(),
                lex_le(av, bv) == lex_le(av.skip(i as int), bv.skip(i as int)),
            decreases a.path.len() - i,
        {
            assert(av.skip(i as int)[0] == a.path@[i as int]@);
            assert(bv.skip(i as int)[0] == b.path@[i as int]@);
            assert(av.skip(i as int).drop_first() =~= av.skip(i + 1));
            assert(bv.skip(i as int).drop_first() =~= bv.skip(i + 1));
            if !crate::text::str_eq(a.path[i].as_str(), b.path[i].as_str()) {
                return str_le(a.path[i].as_str(), b.path[i].as_str());
            }
            i = i + 1;
        }
        assert(av.skip(i as int).len() == 0);
        true
    }
}

/// Result of a downstream reference query.
#[derive(Debug, Clone, PartialEq, Eq)]
pub struct DownstreamResult {
    pub callers: Vec<CallerRecord>,
    pub paths: Vec<ImpactPath>,
}

/// Errors from reference queries.
#[derive(Debug)]
pub enum RefError {
    Path(PathError),
    Read(ReadError),
    /// Listing the repository's files failed; holds the reason.
    Io(String),
    NotFound,
    Ambiguous { files: Vec<String> },
}

impl RefError {
    /// The error's message.
    pub fn message(&self) -> (s: String)
        ensures
            s@ == match self {
                RefError::Path(e) => crate::index::path_error_message(*e),
                RefError::Read(e) => crate::index::read_error_message(*e),
                RefError::Io(m) => m@,
                RefError::NotFound => "symbol not found"@,
                RefError::Ambiguous { files } => "symbol found in multiple files: "@ + crate::text::joined(
                    texts(files@),
                    ", "@,
                ),
            },
    {
        match self {
            RefError::Path(e) => e.message(),
            RefError::Read(e) => e.message(),
            RefError::Io(m) => m.clone(),
            RefError::NotFound => String::from_str("symbol not found"),
            RefError::Ambiguous { files } => {
                let mut s = String::from_str("symbol found in multiple files: ");
                let j = crate::text::join(files, ", ");
                s.append(j.as_str());
                s
            },
        }
    }
}


/// What an upstream query for `symbol_name` answers on `graph`:
/// [`RefError::NotFound`] when no definition has that name, else the spots
/// that use the name, ordered by file, then line.
pub open spec fn upstream_outcome(graph: SymbolGraph, symbol_name: Seq<char>, r: Result<Vec<RefSpot>, RefError>) -> bool {
    if exists|i: int| 0 <= i < graph.nodes().len() && (#[trigger] graph.nodes()[i]).name == symbol_name {
        r matches Ok(v) && v@.map_values(|s: RefSpot| s@).to_multiset() == spots_named(graph.spots(), symbol_name).to_multiset()
            && forall|i: int, j: int| 0 <= i < j < v@.len() ==> spot_le(#[trigger] v@[i]@, #[trigger] v@[j]@)
    } else {
        r matches Err(RefError::NotFound)
    }
}

/// Find all spots referencing `symbol_name` across the codebase of `graph`.
///
/// Returns every identifier/call site whose text matches the symbol name,
/// with file, line, and the surrounding source line as context, ordered by
/// file, then line. These are the symbol's direct dependents/callers (who
/// references, calls, or uses it). Errors with [`RefError::NotFound`] if no
/// definition with that name exists.
pub fn get_upstream_refs(graph: &SymbolGraph, symbol_name: &str) -> (r: Result<Vec<RefSpot>, RefError>)
    ensures
        upstream_outcome(*graph, symbol_name@, r),
{
    if !graph.has_name(symbol_name) {
        return Err(RefError::NotFound);
    }
    Ok(graph.upstream_spots(symbol_name))
}

/// What a downstream query for `symbol_key` up to `max_depth` hops answers
/// on `graph`: the walk from the key itself when it is a key; else from the
/// one key whose name part it is; [`RefError::NotFound`] when there is none,
/// and [`RefError::Ambiguous`] with their files in ascending order when there
/// are several.
pub open spec fn downstream_outcome(graph: SymbolGraph, symbol_key: Seq<char>, max_depth: nat, r: Result<DownstreamResult, RefError>) -> bool {
    let m = graph.key_index();
    let ms = keys_with_name(m, symbol_key);
    if m.contains_key(symbol_key) {
        r matches Ok(d) && graph.walk_sorted(symbol_key, max_depth, d.callers@, d.paths@)
    } else if ms.is_empty() {
        r matches Err(RefError::NotFound)
    } else if exists|s: Seq<char>| ms == set![s] {
        r matches Ok(d) && exists|s: Seq<char>| ms == set![s] && #[trigger] graph.walk_sorted(s, max_depth, d.callers@, d.paths@)
    } else {
        r matches Err(RefError::Ambiguous { files }) && texts_strictly_sorted(texts(files@))
            && texts(files@).to_set() == ms.map(|k: Seq<char>| file_part(k))
    }
}

/// List all downstream callers of `symbol_key` up to `max_depth` hops.
///
/// Returns the transitive callers/impact of the queried symbol: the symbols
/// and files that depend on, call, or reference it, walked up to `max_depth`
/// hops. `symbol_key` is either a bare symbol name or `file:name` to
/// disambiguate (see [`SymbolGraph::resolve_key`]). Performs a bounded BFS
/// over the reference graph following reverse edges (who references the
/// symbol), returning caller records and impact paths.
pub fn get_downstream_refs(graph: &SymbolGraph, symbol_key: &str, max_depth: usize) -> (r: Result<DownstreamResult, RefError>)
    requires
        graph.wf(),
    ensures
        downstream_outcome(*graph, symbol_key@, max_depth as nat, r),
{
    let resolved = graph.resolve_key(symbol_key);
    match resolved {
        Ok(key) => {
            let ghost ms = keys_with_name(graph.key_index(), symbol_key@);
            proof {
                if !graph.key_index().contains_key(symbol_key@) {
                    assert(ms.contains(key@));
                }
            }
            let (callers, paths) = graph.downstream(key.as_str(), max_depth);
            let r: Result<DownstreamResult, RefError> = Ok(DownstreamResult { callers, paths });
            proof {
                if !graph.key_index().contains_key(symbol_key@) {
                    match &r {
                        Ok(d) => {
                            assert(graph.walk_sorted(key@, max_depth as nat, d.callers@, d.paths@));
                            assert(ms == set![key@]);
                        },
                        Err(_) => {},
                    }
                }
            }
            r
        },
        Err(e) => Err(e),
    }
}


/// Whether two downstream answers agree: both found the same callers and
/// paths, both found nothing, or both name the same files as ambiguous.
pub open spec fn same_downstream(r1: Result<DownstreamResult, RefError>, r2: Result<DownstreamResult, RefError>) -> bool {
    match (r1, r2) {
        (Ok(a), Ok(b)) => a.callers@.map_values(|c: CallerRecord| c@) == b.callers@.map_values(|c: CallerRecord| c@)
            && a.paths@.map_values(|p: ImpactPath| p@) == b.paths@.map_values(|p: ImpactPath| p@),
        (Err(RefError::NotFound), Err(RefError::NotFound)) => true,
        (Err(RefError::Ambiguous { files: f1 }), Err(RefError::Ambiguous { files: f2 })) => texts(f1@) == texts(f2@),
        _ => false,
    }
}

/// Downstream queries are deterministic: any two answers that
/// [`get_downstream_refs`] may give for the same graph, key and depth agree,
/// the ambiguity error included (its files come in ascending order, and two
/// ascending lists of the same files are equal).
pub proof fn lemma_downstream_outcome_deterministic(
    graph: SymbolGraph,
    symbol_key: Seq<char>,
    max_depth: nat,
    r1: Result<DownstreamResult, RefError>,
    r2: Result<DownstreamResult, RefError>,
)
    requires
        graph.wf(),
        downstream_outcome(graph, symbol_key, max_depth, r1),
        downstream_outcome(graph, symbol_key, max_depth, r2),
    ensures
        same_downstream(r1, r2),
{
    let m = graph.key_index();
    let ms = keys_with_name(m, symbol_key);
    if m.contains_key(symbol_key) {
        let a = r1->Ok_0;
        let b = r2->Ok_0;
        graph.lemma_downstream_deterministic(symbol_key, max_depth, a.callers@, a.paths@, b.callers@, b.paths@);
    } else if ms.is_empty() {
    } else if exists|s: Seq<char>| ms == set![s] {
        let a = r1->Ok_0;
        let b = r2->Ok_0;
        let s1 = choose|s: Seq<char>| ms == set![s] && #[trigger] graph.walk_sorted(s, max_depth, a.callers@, a.paths@);
        let s2 = choose|s: Seq<char>| ms == set![s] && #[trigger] graph.walk_sorted(s, max_depth, b.callers@, b.paths@);
        assert(set![s1].contains(s2));
        assert(ms.contains(s1));
        graph.lemma_downstream_deterministic(s1, max_depth, a.callers@, a.paths@, b.callers@, b.paths@);
    } else {
        match (r1, r2) {
            (Err(RefError::Ambiguous { files: f1 }), Err(RefError::Ambiguous { files: f2 })) => {
                crate::order::lemma_sorted_unique(texts(f1@), texts(f2@));
            },
            _ => {},
        }
    }
}

impl From<PathError> for RefError {
    fn from(e: PathError) -> (r: RefError) {
        RefError::Path(e)
    }
}

impl vstd::std_specs::convert::FromSpecImpl<PathError> for RefError {
    open spec fn obeys_from_spec() -> bool {
        true
    }

    open spec fn from_spec(e: PathError) -> RefError {
        RefError::Path(e)
    }
}


impl From<ReadError> for RefError {
    fn from(e: ReadError) -> (r: RefError) {
        RefError::Read(e)
    }
}

impl vstd::std_specs::convert::FromSpecImpl<ReadError> for RefError {
    open spec fn obeys_from_spec() -> bool {
        true
    }

    open spec fn from_spec(e: ReadError) -> RefError {
        RefError::Read(e)
    }
}

} // verus!
