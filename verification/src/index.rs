//! The repository index: file records, the ignore list, the byte cache and
//! the file-inventory snapshot. Walking the file system and reading files
//! is the caller's part; this module decides what to keep and what to
//! reject.

use vstd::prelude::*;

use crate::cache::{cached, Cache, FileMeta, Snapshot};
use crate::graph::{edges_upto, key_map, nodes_upto, spots_upto, SymbolGraph};
use crate::refs::{downstream_outcome, upstream_outcome, DownstreamResult, RefError, RefSpot};
use crate::order::{is_sorted, lemma_text_le_total_trans, sort, text_le, KeyOrder};
use crate::paths::PathError;
use crate::text::{has_nul, str_eq};

verus! {

/// A file record: root-relative path plus metadata.
#[derive(Debug, Clone, PartialEq, Eq)]
pub struct FileRecord {
    /// Root-relative path with `/` separators.
    pub path: String,
    pub meta: FileMeta,
}

/// Errors from reading a file.
#[derive(Debug)]
pub enum ReadError {
    Path(PathError),
    /// Reading failed; holds the reason.
    Io(String),
    Binary,
}

impl ReadError {
    /// The error's message.
    pub fn message(&self) -> (s: String)
        ensures
            s@ == read_error_message(*self),
    {
        match self {
            ReadError::Path(e) => e.message(),
            ReadError::Io(m) => m.clone(),
            ReadError::Binary => String::from_str("binary file"),
        }
    }
}

/// The message of a path error.
pub open spec fn read_error_message(e: ReadError) -> Seq<char> {
    match e {
        ReadError::Path(p) => path_error_message(p),
        ReadError::Io(m) => m@,
        ReadError::Binary => "binary file"@,
    }
}

/// The message of a path error.
pub open spec fn path_error_message(e: PathError) -> Seq<char> {
    match e {
        PathError::OutsideRoot => "path escapes the repository root"@,
        PathError::NotFound => "path does not exist"@,
    }
}

/// The directory and file names that are always ignored.
pub open spec fn default_ignored_names() -> Seq<Seq<char>> {
    seq![
        ".git"@, ".jj"@, ".hg"@, ".svn"@, "node_modules"@, "target"@, "build"@, "dist"@, ".venv"@,
        "venv"@, "__pycache__"@, ".idea"@, ".vscode"@, ".opencode"@, ".DS_Store"@,
    ]
}

/// The directory and file names that are always ignored.
pub fn default_ignored() -> (r: Vec<String>)
    ensures
        r@.map_values(|s: String| s@) == default_ignored_names(),
{
    let r = vec![
        String::from_str(".git"),
        String::from_str(".jj"),
        String::from_str(".hg"),
        String::from_str(".svn"),
        String::from_str("node_modules"),
        String::from_str("target"),
        String::from_str("build"),
        String::from_str("dist"),
        String::from_str(".venv"),
        String::from_str("venv"),
        String::from_str("__pycache__"),
        String::from_str(".idea"),
        String::from_str(".vscode"),
        String::from_str(".opencode"),
        String::from_str(".DS_Store"),
    ];
    assert(r@.map_values(|s: String| s@) =~= default_ignored_names());
    r
}

/// Whether an entry with file name `name` is skipped, without descending
/// into it, because its name is on the `ignored` list.
pub fn is_ignored_name(name: &str, ignored: &Vec<String>) -> (r: bool)
    ensures
        r == ignored@.map_values(|s: String| s@).contains(name@),
{
    let ghost iv = ignored@.map_values(|s: String| s@);
    let mut i: usize = 0;
    while i < ignored.len()
        invariant
            i <= ignored.len(),
            iv == ignored@.map_values(|s: String| s@),
            forall|j: int| 0 <= j < i ==> iv[j] != name@,
        decreases ignored.len() - i,
    {
        if str_eq(ignored[i].as_str(), name) {
            assert(iv[i as int] == name@);
            return true;
        }
        i = i + 1;
    }
    false
}

impl KeyOrder for FileRecord {
    open spec fn le(a: FileRecord, b: FileRecord) -> bool {
        text_le(a.path@, b.path@)
    }

    proof fn lemma_preorder() {
        lemma_text_le_total_trans();
    }

    fn le_exec(a: &FileRecord, b: &FileRecord) -> (r: bool) {
        crate::order::str_le(a.path.as_str(), b.path.as_str())
    }
}

/// The records of a walk, in deterministic order: ascending by path.
pub fn sort_records(records: Vec<FileRecord>) -> (r: Vec<FileRecord>)
    ensures
        is_sorted(r@),
        r@.to_multiset() == records@.to_multiset(),
{
    sort(records)
}

/// Keep `bytes`, just read from the file at root-relative path `rel` with
/// metadata `meta`, unless they are binary (hold a NUL byte). Text is stored
/// in the cache and handed back; binary content is refused and the cache
/// left as it was.
pub fn store_file_bytes(cache: &mut Cache<Vec<u8>>, rel: String, meta: FileMeta, bytes: Vec<u8>) -> (r:
    Result<Vec<u8>, ReadError>)
    ensures
        bytes@.contains(0u8) ==> (r matches Err(ReadError::Binary) && final(cache)@ == old(cache)@),
        !bytes@.contains(0u8) ==> (r matches Ok(b) && b@ == bytes@ && final(cache)@ == old(cache)@.insert(
            rel@,
            (meta, bytes),
        )),
{
    if has_nul(bytes.as_slice()) {
        return Err(ReadError::Binary);
    }
    let copy = copy_bytes(&bytes);
    cache.insert(rel, meta, bytes);
    Ok(copy)
}

/// A copy of `v`.
pub fn copy_bytes(v: &Vec<u8>) -> (r: Vec<u8>)
    ensures
        r@ == v@,
{
    let mut r: Vec<u8> = Vec::new();
    let mut i: usize = 0;
    while i < v.len()
        invariant
            i <= v.len(),
            r@ == v@.take(i as int),
        decreases v.len() - i,
    {
        r.push(v[i]);
        assert(v@.take(i + 1) =~= v@.take(i as int).push(v@[i as int]));
        i = i + 1;
    }
    assert(v@.take(v.len() as int) =~= v@);
    r
}

/// The bytes a read gives: those cached for `rel` under `meta` when there are
/// any, else `fresh`.
pub fn cached_or(cache: &Cache<Vec<u8>>, rel: &str, meta: &FileMeta) -> (r: Option<Vec<u8>>)
    ensures
        match r {
            Some(b) => cached(cache@, rel@, *meta) matches Some(c) && b@ == c@,
            None => cached(cache@, rel@, *meta) is None,
        },
{
    match cache.get(rel, meta) {
        Some(b) => Some(copy_bytes(b)),
        None => None,
    }
}

/// The mathematical content of a file record.
pub open spec fn record_view(r: FileRecord) -> (Seq<char>, FileMeta) {
    (r.path@, r.meta)
}

/// Whether two inventories list the same records in the same order.
pub fn same_records(a: &Vec<FileRecord>, b: &Vec<FileRecord>) -> (r: bool)
    ensures
        r == (a@.map_values(|x: FileRecord| record_view(x)) == b@.map_values(|x: FileRecord| record_view(x))),
{
    let ghost av = a@.map_values(|x: FileRecord| record_view(x));
    let ghost bv = b@.map_values(|x: FileRecord| record_view(x));
    if a.len() != b.len() {
        assert(av.len() != bv.len());
        return false;
    }
    let mut i: usize = 0;
    while i < a.len()
        invariant
            i <= a.len(),
            a.len() == b.len(),
            av == a@.map_values(|x: FileRecord| record_view(x)),
            bv == b@.map_values(|x: FileRecord| record_view(x)),
            forall|j: int| 0 <= j < i ==> av[j] == bv[j],
        decreases a.len() - i,
    {
        if !str_eq(a[i].path.as_str(), b[i].path.as_str()) || a[i].meta != b[i].meta {
            assert(av[i as int] != bv[i as int]);
            return false;
        }
        i = i + 1;
    }
    assert(av =~= bv);
    true
}

/// A copy of a file record.
pub fn copy_record(r: &FileRecord) -> (c: FileRecord)
    ensures
        record_view(c) == record_view(*r),
{
    FileRecord { path: r.path.clone(), meta: r.meta }
}

/// A copy of an inventory.
pub fn copy_records(v: &Vec<FileRecord>) -> (r: Vec<FileRecord>)
    ensures
        r@.map_values(|x: FileRecord| record_view(x)) == v@.map_values(|x: FileRecord| record_view(x)),
{
    let mut r: Vec<FileRecord> = Vec::new();
    let mut i: usize = 0;
    while i < v.len()
        invariant
            i <= v.len(),
            r@.map_values(|x: FileRecord| record_view(x)) == v@.map_values(|x: FileRecord| record_view(x)).take(i as int),
        decreases v.len() - i,
    {
        let ghost before = r@;
        let c = copy_record(&v[i]);
        r.push(c);
        assert(r@.map_values(|x: FileRecord| record_view(x)) =~= before.map_values(|x: FileRecord| record_view(x)).push(record_view(v@[i as int])));
        assert(v@.map_values(|x: FileRecord| record_view(x)).take(i + 1) =~= v@.map_values(|x: FileRecord| record_view(x)).take(i as int).push(record_view(v@[i as int])));
        i = i + 1;
    }
    assert(v@.map_values(|x: FileRecord| record_view(x)).take(v.len() as int) =~= v@.map_values(|x: FileRecord| record_view(x)));
    r
}

/// Bring the cached inventory up to date with `fresh`, a new walk of the file
/// system. Returns whether it changed, in which case everything derived from
/// the old inventory (the symbol graph) is stale.
pub fn refresh_inventory(slot: &mut Snapshot<Vec<FileRecord>>, fresh: &Vec<FileRecord>) -> (changed: bool)
    ensures
        changed == !(old(slot)@ matches Some(v) && (v@.map_values(|x: FileRecord| record_view(x))
            == fresh@.map_values(|x: FileRecord| record_view(x)))),
        final(slot)@ matches Some(v) && (v@.map_values(|x: FileRecord| record_view(x)) == fresh@.map_values(
            |x: FileRecord| record_view(x),
        )),
        !changed ==> final(slot)@ == old(slot)@,
{
    let same = match slot.get() {
        Some(v) => same_records(v, fresh),
        None => false,
    };
    if !same {
        slot.replace(copy_records(fresh));
    }
    !same
}


/// The mathematical content of an inventory.
pub open spec fn records_view(v: Seq<FileRecord>) -> Seq<(Seq<char>, FileMeta)> {
    v.map_values(|x: FileRecord| record_view(x))
}

/// Whether `g` is the graph built from `files` (see [`SymbolGraph::build`]).
pub open spec fn built_graph(g: SymbolGraph, files: Seq<(String, Vec<u8>)>) -> bool {
    let ns = nodes_upto(files, files.len() as int);
    &&& g.wf()
    &&& g.nodes() == ns
    &&& g.key_index() == key_map(ns)
    &&& g.edges() == edges_upto(key_map(ns), files, files.len() as int)
    &&& g.spots() == spots_upto(files, files.len() as int)
}

/// The file inventory and the symbol graph built from the files it lists.
/// The graph is dropped whenever the inventory changes, so a graph that is
/// held was built from files read under the inventory held now.
pub struct GraphCache {
    files: Snapshot<Vec<FileRecord>>,
    graph: Snapshot<SymbolGraph>,
    /// The inventory under which the held graph was built.
    built_under: Ghost<Seq<(Seq<char>, FileMeta)>>,
    /// The files the held graph was built from.
    built_from: Ghost<Seq<(String, Vec<u8>)>>,
}

impl GraphCache {
    /// The inventory held, if any.
    pub closed spec fn inventory(&self) -> Option<Seq<(Seq<char>, FileMeta)>> {
        match self.files@ {
            Some(v) => Some(records_view(v@)),
            None => None,
        }
    }

    /// The graph held, if any.
    pub closed spec fn held(&self) -> Option<SymbolGraph> {
        self.graph@
    }

    /// The inventory under which the held graph was built.
    pub closed spec fn built_under(&self) -> Seq<(Seq<char>, FileMeta)> {
        self.built_under@
    }

    /// The files the held graph was built from.
    pub closed spec fn built_from(&self) -> Seq<(String, Vec<u8>)> {
        self.built_from@
    }

    /// A held graph was built, from `built_from`, under the inventory held.
    pub closed spec fn wf(&self) -> bool {
        self.graph@ matches Some(g) ==> self.inventory() == Some(self.built_under@) && built_graph(
            g,
            self.built_from@,
        )
    }

    /// An empty cache: no inventory, no graph.
    pub fn new() -> (c: GraphCache)
        ensures
            c.wf(),
            c.inventory() is None,
            c.held() is None,
    {
        GraphCache {
            files: Snapshot::new(),
            graph: Snapshot::new(),
            built_under: Ghost(Seq::empty()),
            built_from: Ghost(Seq::empty()),
        }
    }

    /// Bring the inventory up to date with `fresh`, a new walk of the file
    /// system. When it changed (a file was edited, created or removed), the
    /// graph is dropped. Returns whether it changed.
    pub fn refresh(&mut self, fresh: &Vec<FileRecord>) -> (changed: bool)
        requires
            old(self).wf(),
        ensures
            final(self).wf(),
            final(self).inventory() == Some(records_view(fresh@)),
            changed == (old(self).inventory() != Some(records_view(fresh@))),
            changed ==> final(self).held() is None,
            !changed ==> final(self).held() == old(self).held() && final(self).built_under() == old(
                self,
            ).built_under() && final(self).built_from() == old(self).built_from(),
    {
        let changed = refresh_inventory(&mut self.files, fresh);
        if changed {
            self.graph.clear();
        }
        changed
    }

    /// The graph held, if any.
    pub fn graph(&self) -> (r: Option<&SymbolGraph>)
        requires
            self.wf(),
        ensures
            match r {
                Some(g) => self.held() == Some(*g) && g.wf() && self.inventory() == Some(self.built_under())
                    && built_graph(*g, self.built_from()),
                None => self.held() is None,
            },
    {
        self.graph.get()
    }

    /// Make sure a graph is held: when none is, build one from `files`, the
    /// listed files in a supported language with their content, read under
    /// the inventory held now. Returns whether a graph is held afterwards
    /// (building fails when the graph would exceed its index limits).
    pub fn build_graph(&mut self, files: &Vec<(String, Vec<u8>)>) -> (held: bool)
        requires
            old(self).wf(),
            old(self).inventory() is Some,
        ensures
            final(self).wf(),
            final(self).inventory() == old(self).inventory(),
            held == final(self).held() is Some,
            old(self).held() is Some ==> final(self).held() == old(self).held() && final(self).built_under() == old(
                self,
            ).built_under() && final(self).built_from() == old(self).built_from(),
            old(self).held() is None ==> {
                let ns = nodes_upto(files@, files@.len() as int);
                let es = edges_upto(key_map(ns), files@, files@.len() as int);
                &&& held <==> !(ns.len() > u32::MAX || es.len() > u32::MAX)
                &&& held ==> final(self).built_from() == files@ && Some(final(self).built_under()) == old(
                    self,
                ).inventory()
            },
    {
        if self.graph.get().is_some() {
            return true;
        }
        match SymbolGraph::build(files) {
            Some(g) => {
                self.graph.replace(g);
                self.built_from = Ghost(files@);
                self.built_under = Ghost(self.inventory().unwrap());
                true
            },
            None => false,
        }
    }
}

/// Answers never come from a stale graph: a graph held was built from files
/// read under the inventory held now, and a change of inventory drops it
/// (see [`GraphCache::refresh`]).
pub proof fn lemma_graph_current(c: GraphCache)
    requires
        c.wf(),
    ensures
        c.held() matches Some(g) ==> c.inventory() == Some(c.built_under()) && built_graph(g, c.built_from()),
{
}


/// A cached graph answers as a fresh build would: a graph held by the cache
/// has the nodes, key index, edges and reference spots of any graph built
/// from the same files, so every upstream and downstream query has the same
/// answers on both. (Across a refresh that finds the inventory unchanged the
/// graph is kept; when it changed, the graph is dropped and rebuilt from the
/// files read under the new inventory.)
pub proof fn lemma_cached_graph_as_fresh(c: GraphCache, fresh: SymbolGraph)
    requires
        c.wf(),
        c.held() is Some,
        built_graph(fresh, c.built_from()),
    ensures
        ({
            let g = c.held()->Some_0;
            &&& g.nodes() == fresh.nodes()
            &&& g.key_index() == fresh.key_index()
            &&& g.edges() == fresh.edges()
            &&& g.spots() == fresh.spots()
            &&& forall|key: Seq<char>, d: nat, r: Result<DownstreamResult, RefError>|
                #[trigger] downstream_outcome(g, key, d, r) == downstream_outcome(fresh, key, d, r)
            &&& forall|name: Seq<char>, r: Result<Vec<RefSpot>, RefError>|
                #[trigger] upstream_outcome(g, name, r) == upstream_outcome(fresh, name, r)
        }),
{
    let g = c.held()->Some_0;
    assert(built_graph(g, c.built_from()));
    assert forall|key: Seq<char>, d: nat, cs: Seq<crate::refs::CallerRecord>, ps: Seq<crate::refs::ImpactPath>|
        #[trigger] g.walk_sorted(key, d, cs, ps) == fresh.walk_sorted(key, d, cs, ps) by {}
    assert forall|key: Seq<char>, d: nat, r: Result<DownstreamResult, RefError>|
        #[trigger] downstream_outcome(g, key, d, r) == downstream_outcome(fresh, key, d, r) by {
        if let Ok(a) = r {
            let ms = crate::graph::keys_with_name(g.key_index(), key);
            if exists|s: Seq<char>| ms == set![s] && #[trigger] g.walk_sorted(s, d, a.callers@, a.paths@) {
                let s = choose|s: Seq<char>| ms == set![s] && #[trigger] g.walk_sorted(s, d, a.callers@, a.paths@);
                assert(fresh.walk_sorted(s, d, a.callers@, a.paths@));
            }
            if exists|s: Seq<char>| ms == set![s] && #[trigger] fresh.walk_sorted(s, d, a.callers@, a.paths@) {
                let s = choose|s: Seq<char>| ms == set![s] && #[trigger] fresh.walk_sorted(s, d, a.callers@, a.paths@);
                assert(g.walk_sorted(s, d, a.callers@, a.paths@));
            }
        }
    }
    assert forall|name: Seq<char>, r: Result<Vec<RefSpot>, RefError>|
        #[trigger] upstream_outcome(g, name, r) == upstream_outcome(fresh, name, r) by {}
}


impl From<PathError> for ReadError {
    fn from(e: PathError) -> (r: ReadError) {
        ReadError::Path(e)
    }
}

impl vstd::std_specs::convert::FromSpecImpl<PathError> for ReadError {
    open spec fn obeys_from_spec() -> bool {
        true
    }

    open spec fn from_spec(e: PathError) -> ReadError {
        ReadError::Path(e)
    }
}

} // verus!
