//! Symbol graph construction and traversal for reference analysis.
//!
//! Builds a directed graph from the parsed files: nodes are symbol
//! definitions, and an edge `A -> B` means symbol `A` references symbol `B`
//! (e.g. `A` calls `B`). Reference sites (identifier occurrences) are kept
//! with file/line/context metadata for upstream queries.

use vstd::hash_map::StringHashMap;
use vstd::prelude::*;
use vstd::string::StringSliceAdditionalSpecFns;

use petgraph::graph::{Graph, NodeIndex};
use petgraph::{Directed, Direction};

use crate::ast::{parse_syntax, placed, syntax_tree, well_placed, Symbol, SymbolView, SyntaxNode};
use crate::diff::symbols_in;
use crate::languages::{language_of_path, Language};
use crate::order::{sort_dedup, texts_strictly_sorted, without};
use crate::refs::{
    caller_le, copy_spot, path_le, spot_le, CallerRecord, CallerView, ImpactPath, RefError, RefSpot, RefSpotView,
};
use crate::order::KeyOrder;
use crate::walk::{
    caller_ok, caller_of, expand_upto, holds_walk, lemma_incoming_in_range, lemma_walk_inv, lemma_walk_levels,
    lemma_walk_stable, level_view, reaches, visit_all, walk, within, WalkState,
};
use crate::text::{bytes_of, lines, lossy_text, slice_text, str_eq, text_at, texts, trim};

verus! {

/// A definition node in the symbol graph.
#[derive(Debug, Clone, PartialEq, Eq)]
pub struct SymbolNode {
    pub name: String,
    pub kind: String,
    pub file: String,
    pub line_start: usize,
    pub line_end: usize,
}

/// petgraph's graph type, carried opaquely.
#[verifier::external_type_specification]
#[verifier::external_body]
#[verifier::reject_recursive_types(N)]
#[verifier::reject_recursive_types(E)]
#[verifier::reject_recursive_types(Ty)]
#[verifier::reject_recursive_types(Ix)]
pub struct ExGraph<N, E, Ty, Ix>(Graph<N, E, Ty, Ix>);

/// petgraph's marker for directed graphs.
#[verifier::external_type_specification]
#[verifier::external_body]
pub struct ExDirected(Directed);

/// The nodes of a graph, by index.
pub uninterp spec fn graph_nodes(g: Graph<SymbolNode, (), Directed, u32>) -> Seq<SymbolNode>;

/// The edges of a graph, as (source, target) node indices, in the order in
/// which they were added.
pub uninterp spec fn graph_edges(g: Graph<SymbolNode, (), Directed, u32>) -> Seq<(int, int)>;

/// An empty directed graph.
///
/// Trusted: calls petgraph's `Graph::new`, which starts with no nodes and no
/// edges.
#[verifier::external_body]
fn new_graph() -> (g: Graph<SymbolNode, (), Directed, u32>)
    ensures
        graph_nodes(g) == Seq::<SymbolNode>::empty(),
        graph_edges(g) == Seq::<(int, int)>::empty(),
{
    Graph::new()
}

/// Add a node; returns its index.
///
/// Trusted: calls petgraph's `Graph::add_node`, which appends the node at
/// index `node_count()` and leaves the edges alone; it panics only when the
/// graph already holds `u32::MAX` nodes, which the precondition excludes.
#[verifier::external_body]
fn add_node(g: &mut Graph<SymbolNode, (), Directed, u32>, weight: SymbolNode) -> (i: usize)
    requires
        graph_nodes(*old(g)).len() < u32::MAX,
    ensures
        graph_nodes(*final(g)) == graph_nodes(*old(g)).push(weight),
        graph_edges(*final(g)) == graph_edges(*old(g)),
        i == graph_nodes(*old(g)).len(),
{
    g.add_node(weight).index()
}

/// Add an edge from node `a` to node `b`.
///
/// Trusted: calls petgraph's `Graph::add_edge`, which appends the edge and
/// leaves the nodes alone; it panics only on indices out of bounds or when
/// the graph already holds `u32::MAX` edges, which the precondition
/// excludes.
#[verifier::external_body]
fn add_edge(g: &mut Graph<SymbolNode, (), Directed, u32>, a: usize, b: usize)
    requires
        a < graph_nodes(*old(g)).len(),
        b < graph_nodes(*old(g)).len(),
        graph_edges(*old(g)).len() < u32::MAX,
    ensures
        graph_nodes(*final(g)) == graph_nodes(*old(g)),
        graph_edges(*final(g)) == graph_edges(*old(g)).push((a as int, b as int)),
{
    g.add_edge(NodeIndex::new(a), NodeIndex::new(b), ());
}

/// The sources of the edges into `n` among the first `k` edges, most
/// recently added first.
pub open spec fn incoming_upto(edges: Seq<(int, int)>, n: int, k: int) -> Seq<int>
    decreases k,
{
    if k <= 0 {
        Seq::empty()
    } else {
        let rest = incoming_upto(edges, n, k - 1);
        if edges[k - 1].1 == n {
            seq![edges[k - 1].0] + rest
        } else {
            rest
        }
    }
}

/// The sources of the edges into `n`, most recently added first.
pub open spec fn incoming(edges: Seq<(int, int)>, n: int) -> Seq<int> {
    incoming_upto(edges, n, edges.len() as int)
}

/// The nodes with an edge into node `n`.
///
/// Trusted: calls petgraph's `Graph::neighbors_directed` with
/// `Direction::Incoming`; its documentation states that neighbors come in
/// reverse order of the addition of their edges.
#[verifier::external_body]
fn incoming_neighbors(g: &Graph<SymbolNode, (), Directed, u32>, n: usize) -> (v: Vec<usize>)
    requires
        n < graph_nodes(*g).len(),
    ensures
        v@.map_values(|i: usize| i as int) == incoming(graph_edges(*g), n as int),
{
    let mut v = Vec::new();
    for i in g.neighbors_directed(NodeIndex::new(n), Direction::Incoming) {
        v.push(i.index());
    }
    v
}

/// The node at index `i`.
///
/// Trusted: indexes the graph (petgraph's `Index<NodeIndex>` for `Graph`),
/// which gives the weight stored by `add_node` at that index.
#[verifier::external_body]
fn node_at(g: &Graph<SymbolNode, (), Directed, u32>, i: usize) -> (w: &SymbolNode)
    requires
        i < graph_nodes(*g).len(),
    ensures
        *w == graph_nodes(*g)[i as int],
{
    &g[NodeIndex::new(i)]
}

/// The number of nodes.
///
/// Trusted: calls petgraph's `Graph::node_count`, the number of nodes added.
#[verifier::external_body]
fn node_count(g: &Graph<SymbolNode, (), Directed, u32>) -> (n: usize)
    ensures
        n == graph_nodes(*g).len(),
{
    g.node_count()
}


/// The mathematical content of a [`SymbolNode`].
pub struct NodeView {
    pub name: Seq<char>,
    pub kind: Seq<char>,
    pub file: Seq<char>,
    pub line_start: int,
    pub line_end: int,
}

impl View for SymbolNode {
    type V = NodeView;

    open spec fn view(&self) -> NodeView {
        NodeView {
            name: self.name@,
            kind: self.kind@,
            file: self.file@,
            line_start: self.line_start as int,
            line_end: self.line_end as int,
        }
    }
}

/// A raw identifier occurrence in a file.
pub struct RawSite {
    pub name: String,
    pub byte_start: usize,
    pub byte_end: usize,
    pub line: usize,
}

/// The mathematical content of a [`RawSite`].
pub struct SiteView {
    pub name: Seq<char>,
    pub byte_start: int,
    pub byte_end: int,
    pub line: int,
}

impl View for RawSite {
    type V = SiteView;

    open spec fn view(&self) -> SiteView {
        SiteView {
            name: self.name@,
            byte_start: self.byte_start as int,
            byte_end: self.byte_end as int,
            line: self.line as int,
        }
    }
}

/// Whether nodes of this kind are identifier occurrences.
pub open spec fn is_identifier_kind_spec(kind: Seq<char>) -> bool {
    kind == "identifier"@ || kind == "field_identifier"@ || kind == "type_identifier"@ || kind
        == "property_identifier"@ || kind == "shorthand_property_identifier"@ || kind
        == "variable_name"@
}

/// Whether nodes of this kind are identifier occurrences.
pub fn is_identifier_kind(kind: &str) -> (r: bool)
    ensures
        r == is_identifier_kind_spec(kind@),
{
    str_eq(kind, "identifier") || str_eq(kind, "field_identifier") || str_eq(kind, "type_identifier")
        || str_eq(kind, "property_identifier") || str_eq(kind, "shorthand_property_identifier")
        || str_eq(kind, "variable_name")
}

/// The identifier occurrence at node `i` of a tree of the text with bytes
/// `src`, if the node is one and its text can be read.
pub open spec fn site_at(nodes: Seq<SyntaxNode>, src: Seq<u8>, i: int) -> Option<SiteView> {
    if is_identifier_kind_spec(nodes[i].kind@) {
        match text_at(src, nodes[i].start_byte as int, nodes[i].end_byte as int) {
            Some(t) => Some(
                SiteView {
                    name: t,
                    byte_start: nodes[i].start_byte as int,
                    byte_end: nodes[i].end_byte as int,
                    line: nodes[i].start_row + 1,
                },
            ),
            None => None,
        }
    } else {
        None
    }
}

/// The identifier occurrences among the first `n` nodes, in document order.
pub open spec fn sites_upto(nodes: Seq<SyntaxNode>, src: Seq<u8>, n: int) -> Seq<SiteView>
    decreases n,
{
    if n <= 0 {
        Seq::empty()
    } else {
        let prev = sites_upto(nodes, src, n - 1);
        match site_at(nodes, src, n - 1) {
            Some(s) => prev.push(s),
            None => prev,
        }
    }
}

/// All identifier occurrences of `text` parsed as `lang`, in document order.
pub open spec fn sites_in(lang: Language, text: Seq<char>) -> Seq<SiteView> {
    let nodes = syntax_tree(lang, text);
    sites_upto(nodes, bytes_of(text), nodes.len() as int)
}

/// Collect all identifier-like nodes of `source` as raw reference sites.
pub fn collect_sites(lang: Language, source: &str) -> (out: Vec<RawSite>)
    ensures
        out@.map_values(|s: RawSite| s@) == sites_in(lang, source@),
{
    let nodes = parse_syntax(lang, source);
    let mut out: Vec<RawSite> = Vec::new();
    let mut i: usize = 0;
    while i < nodes.len()
        invariant
            i <= nodes.len(),
            nodes@ == syntax_tree(lang, source@),
            well_placed(nodes@, source.spec_bytes()),
            out@.map_values(|s: RawSite| s@) == sites_upto(nodes@, source.spec_bytes(), i as int),
        decreases nodes.len() - i,
    {
        let ghost prev = out@;
        let node = &nodes[i];
        if is_identifier_kind(node.kind.as_str()) {
            if let Some(name) = slice_text(source, node.start_byte, node.end_byte) {
                assert(placed(nodes@[i as int], source.spec_bytes()));
                let site = RawSite {
                    name,
                    byte_start: node.start_byte,
                    byte_end: node.end_byte,
                    line: node.start_row + 1,
                };
                out.push(site);
                assert(out@.map_values(|s: RawSite| s@) =~= prev.map_values(|s: RawSite| s@).push(site@));
            }
        }
        i = i + 1;
    }
    out
}

/// The key of a definition: `file:name`.
pub open spec fn key_spec(file: Seq<char>, name: Seq<char>) -> Seq<char> {
    file + ":"@ + name
}

/// The key of a definition: `file:name`.
pub fn node_key(file: &str, name: &str) -> (k: String)
    ensures
        k@ == key_spec(file@, name@),
{
    let mut k = String::from_str(file);
    k.append(":");
    k.append(name);
    k
}

/// The name part of a key: what follows its last `:`.
pub open spec fn name_part(key: Seq<char>) -> Seq<char> {
    key.subrange(crate::languages::after_last(key, ':'), key.len() as int)
}

/// The file part of a key: what precedes its last `:`.
pub open spec fn file_part(key: Seq<char>) -> Seq<char> {
    key.subrange(0, crate::languages::after_last(key, ':') - 1)
}

/// Whether `key` holds a `:`.
pub open spec fn has_colon(key: Seq<char>) -> bool {
    crate::languages::after_last(key, ':') > 0
}

/// The position one past the last `:` of `key`, or 0 when it has none.
fn after_last_colon(key: &str) -> (r: usize)
    ensures
        r == crate::languages::after_last(key@, ':'),
        r <= key@.len(),
{
    let v = crate::text::chars_of(key);
    let mut i = v.len();
    assert(v@.subrange(0, i as int) =~= v@);
    while i > 0 && v[i - 1] != ':'
        invariant
            i <= v.len(),
            v@ == key@,
            crate::languages::after_last(v@.subrange(0, i as int), ':') == crate::languages::after_last(key@, ':'),
        decreases i,
    {
        assert(v@.subrange(0, i as int).drop_last() =~= v@.subrange(0, i - 1));
        i = i - 1;
    }
    i
}

/// The name part of a key.
fn name_part_of(key: &str) -> (r: String)
    ensures
        r@ == name_part(key@),
{
    let v = crate::text::chars_of(key);
    let a = after_last_colon(key);
    crate::text::string_of_range(&v, a, v.len())
}

/// The file part of a key that holds a `:`.
fn file_part_of(key: &str) -> (r: String)
    requires
        has_colon(key@),
    ensures
        r@ == file_part(key@),
{
    let v = crate::text::chars_of(key);
    let a = after_last_colon(key);
    crate::text::string_of_range(&v, 0, a - 1)
}

/// The language of a file (path and content), chosen by its path.
pub open spec fn file_lang(f: (String, Vec<u8>)) -> Option<Language> {
    language_of_path(f.0@)
}

/// The text of a file (path and content).
pub open spec fn file_text(f: (String, Vec<u8>)) -> Seq<char> {
    lossy_text(f.1@)
}

/// The symbols of a file; none when its language is not supported.
pub open spec fn file_syms(f: (String, Vec<u8>)) -> Seq<SymbolView> {
    match file_lang(f) {
        Some(l) => symbols_in(l, file_text(f)),
        None => Seq::empty(),
    }
}

/// The identifier occurrences of a file; none when its language is not
/// supported.
pub open spec fn file_sites(f: (String, Vec<u8>)) -> Seq<SiteView> {
    match file_lang(f) {
        Some(l) => sites_in(l, file_text(f)),
        None => Seq::empty(),
    }
}

/// The graph node of symbol `s` of `file`.
pub open spec fn node_of_symbol(file: Seq<char>, s: SymbolView) -> NodeView {
    NodeView { name: s.name, kind: s.kind, file, line_start: s.line_start, line_end: s.line_end }
}

/// The nodes of the symbols of a file, in document order.
pub open spec fn file_nodes(f: (String, Vec<u8>)) -> Seq<NodeView> {
    file_syms(f).map_values(|s: SymbolView| node_of_symbol(f.0@, s))
}

/// The nodes of the first `n` files.
pub open spec fn nodes_upto(files: Seq<(String, Vec<u8>)>, n: int) -> Seq<NodeView>
    decreases n,
{
    if n <= 0 {
        Seq::empty()
    } else {
        nodes_upto(files, n - 1) + file_nodes(files[n - 1])
    }
}

/// The key of a node.
pub open spec fn key_of_node(n: NodeView) -> Seq<char> {
    key_spec(n.file, n.name)
}

/// Whether `i` is the last node with key `k`.
pub open spec fn is_last_with_key(nodes: Seq<NodeView>, k: Seq<char>, i: int) -> bool {
    &&& 0 <= i < nodes.len()
    &&& key_of_node(nodes[i]) == k
    &&& forall|j: int| i < j < nodes.len() ==> key_of_node(#[trigger] nodes[j]) != k
}

/// Whether `m` maps the key of every node to the last node with that key,
/// and holds no other key.
pub open spec fn keys_index(m: Map<Seq<char>, usize>, nodes: Seq<NodeView>) -> bool {
    &&& forall|k: Seq<char>| #[trigger] m.contains_key(k) <==> exists|i: int| 0 <= i < nodes.len() && key_of_node(#[trigger] nodes[i]) == k
    &&& forall|k: Seq<char>| #[trigger] m.contains_key(k) ==> is_last_with_key(nodes, k, m[k] as int)
}

/// Whether the occurrence `site` lies in the declaration of `s` but not in
/// its name.
pub open spec fn in_body(site: SiteView, s: SymbolView) -> bool {
    &&& site.byte_start >= s.start_byte
    &&& site.byte_end <= s.end_byte
    &&& !(site.byte_start >= s.name_start_byte && site.byte_end <= s.name_end_byte)
}

/// Whether one of the first `n` occurrences `sites` lies in the body of `s`
/// and is named as the name part of key `k`.
pub open spec fn named_in_body(sites: Seq<SiteView>, s: SymbolView, k: Seq<char>, n: int) -> bool {
    exists|j: int| 0 <= j < n && in_body(#[trigger] sites[j], s) && name_part(k) == sites[j].name
}

/// The keys among `dom` that the declaration of `s` references through the
/// occurrences `sites`: those whose name part is the name of an occurrence in
/// its body, except its own key `own`.
pub open spec fn ref_set(dom: Set<Seq<char>>, s: SymbolView, sites: Seq<SiteView>, own: Seq<char>) -> Set<Seq<char>> {
    Set::new(|k: Seq<char>| dom.contains(k) && k != own && named_in_body(sites, s, k, sites.len() as int))
}

/// The elements of `s` in strictly ascending order.
pub open spec fn sorted_list(s: Set<Seq<char>>) -> Seq<Seq<char>> {
    choose|v: Seq<Seq<char>>| texts_strictly_sorted(v) && v.to_set() == s
}

/// The edges of symbol `s` of `file`: from its node to each node it
/// references, in ascending order of key.
pub open spec fn symbol_edges(m: Map<Seq<char>, usize>, file: Seq<char>, s: SymbolView, sites: Seq<SiteView>) -> Seq<(int, int)> {
    let own = key_spec(file, s.name);
    sorted_list(ref_set(m.dom(), s, sites, own)).map_values(|r: Seq<char>| (m[own] as int, m[r] as int))
}

/// The edges of the first `k` symbols of a file.
pub open spec fn file_edges_upto(m: Map<Seq<char>, usize>, f: (String, Vec<u8>), k: int) -> Seq<(int, int)>
    decreases k,
{
    if k <= 0 {
        Seq::empty()
    } else {
        file_edges_upto(m, f, k - 1) + symbol_edges(m, f.0@, file_syms(f)[k - 1], file_sites(f))
    }
}

/// The edges of the symbols of the first `n` files.
pub open spec fn edges_upto(m: Map<Seq<char>, usize>, files: Seq<(String, Vec<u8>)>, n: int) -> Seq<(int, int)>
    decreases n,
{
    if n <= 0 {
        Seq::empty()
    } else {
        edges_upto(m, files, n - 1) + file_edges_upto(m, files[n - 1], file_syms(files[n - 1]).len() as int)
    }
}

/// Whether `site` is the name of one of the declarations `syms`.
pub open spec fn is_def_name(site: SiteView, syms: Seq<SymbolView>) -> bool {
    exists|i: int|
        0 <= i < syms.len() && (#[trigger] syms[i]).name == site.name && site.byte_start
            >= syms[i].name_start_byte && site.byte_end <= syms[i].name_end_byte
}

/// The trimmed text of line `line` (1-indexed) of `text`; empty past the end.
pub open spec fn context_at(text: Seq<char>, line: int) -> Seq<char> {
    if 1 <= line <= lines(text).len() {
        trim(lines(text)[line - 1])
    } else {
        Seq::empty()
    }
}

/// The reference spot of an occurrence, with the name it refers to.
pub open spec fn spot_of(file: Seq<char>, text: Seq<char>, site: SiteView) -> (Seq<char>, RefSpotView) {
    (site.name, RefSpotView { file, line: site.line, context: context_at(text, site.line) })
}

/// The reference spots of a file: its occurrences that do not name a
/// declaration, in document order.
pub open spec fn file_spots(f: (String, Vec<u8>)) -> Seq<(Seq<char>, RefSpotView)> {
    file_sites(f).filter(|site: SiteView| !is_def_name(site, file_syms(f))).map_values(
        |site: SiteView| spot_of(f.0@, file_text(f), site),
    )
}

/// The reference spots of the first `n` files.
pub open spec fn spots_upto(files: Seq<(String, Vec<u8>)>, n: int) -> Seq<(Seq<char>, RefSpotView)>
    decreases n,
{
    if n <= 0 {
        Seq::empty()
    } else {
        spots_upto(files, n - 1) + file_spots(files[n - 1])
    }
}


/// The keys among `ks` whose name part is `n`.
pub open spec fn keys_named(ks: Set<Seq<char>>, n: Seq<char>) -> Set<Seq<char>> {
    Set::new(|k: Seq<char>| ks.contains(k) && name_part(k) == n)
}

/// Whether `names` and `slots` index the keys `ks` by name part: each name
/// part present among `ks` has a slot listing exactly the keys with that name
/// part.
pub open spec fn names_index(names: Map<Seq<char>, usize>, slots: Seq<Vec<String>>, ks: Set<Seq<char>>) -> bool {
    &&& forall|n: Seq<char>|
        #[trigger] names.contains_key(n) ==> names[n] < slots.len() && slots[names[n] as int]@.map_values(
            |x: String| x@,
        ).to_set() == keys_named(ks, n)
    &&& forall|n: Seq<char>| !(#[trigger] names.contains_key(n)) ==> keys_named(ks, n).is_empty()
}

/// Index the keys `key_list` by name part.
fn index_key_names(key_list: &Vec<String>) -> (r: (StringHashMap<usize>, Vec<Vec<String>>))
    ensures
        names_index(r.0@, r.1@, key_list@.map_values(|x: String| x@).to_set()),
{
    let ghost kv = key_list@.map_values(|x: String| x@);
    let mut names: StringHashMap<usize> = StringHashMap::new();
    let mut slots: Vec<Vec<String>> = Vec::new();
    let mut i: usize = 0;
    while i < key_list.len()
        invariant
            i <= key_list.len(),
            kv == key_list@.map_values(|x: String| x@),
            forall|n: Seq<char>|
                #[trigger] names@.contains_key(n) ==> names@[n] < slots.len() && slots@[names@[n] as int]@.map_values(
                    |x: String| x@,
                ).to_set() == keys_named(kv.take(i as int).to_set(), n),
            forall|n: Seq<char>| !(#[trigger] names@.contains_key(n)) ==> keys_named(kv.take(i as int).to_set(), n).is_empty(),
            forall|n1: Seq<char>, n2: Seq<char>|
                #[trigger] names@.contains_key(n1) && #[trigger] names@.contains_key(n2) && n1 != n2 ==> names@[n1] != names@[n2],
        decreases key_list.len() - i,
    {
        let k = &key_list[i];
        let np = name_part_of(k.as_str());
        let ghost old_names = names@;
        let ghost old_slots = slots@;
        let ghost kset = kv.take(i as int).to_set();
        let ghost nset = kv.take(i + 1).to_set();
        proof {
            assert(kv.take(i + 1) =~= kv.take(i as int).push(k@));
            kv.take(i as int).lemma_push_to_set_commute(k@);
            assert(nset =~= kset.insert(k@));
        }
        match names.get(np.as_str()) {
            Some(idx) => {
                let idx = *idx;
                let ghost old_slot = slots@[idx as int]@;
                slots[idx].push(k.clone());
                proof {
                    assert(slots@[idx as int]@.map_values(|x: String| x@) =~= old_slot.map_values(|x: String| x@).push(k@));
                    old_slot.map_values(|x: String| x@).lemma_push_to_set_commute(k@);
                    assert forall|n: Seq<char>| #[trigger] names@.contains_key(n) implies names@[n] < slots.len() && slots@[names@[n] as int]@.map_values(
                        |x: String| x@,
                    ).to_set() == keys_named(nset, n) by {
                        if n == np@ {
                            assert(slots@[idx as int]@.map_values(|x: String| x@).to_set() =~= old_slot.map_values(|x: String| x@).to_set().insert(k@));
                            assert(keys_named(nset, n) =~= keys_named(kset, n).insert(k@));
                        } else {
                            assert(names@[n] != idx);
                            assert(slots@[names@[n] as int] == old_slots[names@[n] as int]);
                            assert(keys_named(nset, n) =~= keys_named(kset, n));
                        }
                    }
                    assert forall|n: Seq<char>| !(#[trigger] names@.contains_key(n)) implies keys_named(nset, n).is_empty() by {
                        assert(n != np@);
                        assert(keys_named(nset, n) =~= keys_named(kset, n));
                    }
                }
            },
            None => {
                let idx = slots.len();
                let mut slot: Vec<String> = Vec::new();
                slot.push(k.clone());
                slots.push(slot);
                names.insert(np, idx);
                proof {
                    assert(keys_named(kset, np@).is_empty());
                    assert forall|n: Seq<char>| #[trigger] names@.contains_key(n) implies names@[n] < slots.len() && slots@[names@[n] as int]@.map_values(
                        |x: String| x@,
                    ).to_set() == keys_named(nset, n) by {
                        if n == np@ {
                            assert(slots@[idx as int]@.map_values(|x: String| x@) =~= seq![k@]);
                            assert forall|x: Seq<char>| seq![k@].to_set().contains(x) <==> x == k@ by {
                                if x == k@ {
                                    assert(seq![k@][0] == x);
                                }
                            }
                            assert(seq![k@].to_set() =~= set![k@]);
                            assert(keys_named(nset, n) =~= set![k@]);
                        } else {
                            assert(old_names.contains_key(n));
                            assert(slots@[names@[n] as int] == old_slots[names@[n] as int]);
                            assert(keys_named(nset, n) =~= keys_named(kset, n));
                        }
                    }
                    assert forall|n: Seq<char>| !(#[trigger] names@.contains_key(n)) implies keys_named(nset, n).is_empty() by {
                        assert(n != np@);
                        assert(keys_named(nset, n) =~= keys_named(kset, n));
                    }
                    assert forall|n1: Seq<char>, n2: Seq<char>|
                        #[trigger] names@.contains_key(n1) && #[trigger] names@.contains_key(n2) && n1 != n2 implies names@[n1] != names@[n2] by {
                        if n1 != np@ {
                            assert(old_names[n1] < old_slots.len());
                        }
                        if n2 != np@ {
                            assert(old_names[n2] < old_slots.len());
                        }
                    }
                }
            },
        }
        i = i + 1;
    }
    assert(kv.take(key_list.len() as int) =~= kv);
    (names, slots)
}

/// Append the strings of `src` to `dst`.
fn extend_strings(dst: &mut Vec<String>, src: &Vec<String>)
    ensures
        texts(final(dst)@) == texts(old(dst)@) + texts(src@),
{
    let ghost start = texts(dst@);
    let ghost sv = texts(src@);
    let mut t: usize = 0;
    while t < src.len()
        invariant
            t <= src.len(),
            sv == texts(src@),
            texts(dst@) == start + sv.take(t as int),
        decreases src.len() - t,
    {
        let ghost prev = dst@;
        dst.push(src[t].clone());
        proof {
            assert(texts(dst@) =~= texts(prev).push(sv[t as int]));
            assert(sv.take(t + 1) =~= sv.take(t as int).push(sv[t as int]));
        }
        t = t + 1;
    }
    assert(sv.take(src.len() as int) =~= sv);
}

/// The keys among `dom` named by an occurrence in the body of `sym`, with
/// repetitions.
fn body_candidates(
    names: &StringHashMap<usize>,
    slots: &Vec<Vec<String>>,
    Ghost(dom): Ghost<Set<Seq<char>>>,
    sites: &Vec<RawSite>,
    sym: &Symbol,
) -> (raw: Vec<String>)
    requires
        names_index(names@, slots@, dom),
    ensures
        forall|k: Seq<char>| #[trigger] texts(raw@).contains(k) <==> (dom.contains(k) && named_in_body(
            sites@.map_values(|x: RawSite| x@), sym@, k, sites.len() as int)),
{
    let ghost sv = sites@.map_values(|x: RawSite| x@);
    let mut raw: Vec<String> = Vec::new();
    let mut j: usize = 0;
    while j < sites.len()
        invariant
            j <= sites.len(),
            sv == sites@.map_values(|x: RawSite| x@),
            names_index(names@, slots@, dom),
            forall|k: Seq<char>| #[trigger] texts(raw@).contains(k) <==> (dom.contains(k) && named_in_body(sv, sym@, k, j as int)),
        decreases sites.len() - j,
    {
        let site = &sites[j];
        let ghost before = texts(raw@);
        proof {
            assert(sv[j as int] == site@);
        }
        let hit = site.byte_start >= sym.start_byte && site.byte_end <= sym.end_byte && !(site.byte_start
            >= sym.name_start_byte && site.byte_end <= sym.name_end_byte);
        assert(hit == in_body(sv[j as int], sym@));
        let mut found = false;
        if hit {
            match names.get(site.name.as_str()) {
                Some(idx) => {
                    extend_strings(&mut raw, &slots[*idx]);
                    found = true;
                    proof {
                        let slot_v = texts(slots@[*idx as int]@);
                        assert(slot_v.to_set() == keys_named(dom, site.name@));
                        assert forall|k: Seq<char>| #[trigger] texts(raw@).contains(k) <==> (dom.contains(k) && named_in_body(sv, sym@, k, j + 1)) by {
                            let r = texts(raw@);
                            if r.contains(k) {
                                let p = choose|p: int| 0 <= p < r.len() && r[p] == k;
                                if p >= before.len() {
                                    assert(slot_v[p - before.len()] == k);
                                    assert(slot_v.to_set().contains(k));
                                } else {
                                    assert(before[p] == k);
                                    assert(before.contains(k));
                                }
                            }
                            if dom.contains(k) && named_in_body(sv, sym@, k, j + 1) {
                                let q = choose|q: int| 0 <= q < j + 1 && in_body(#[trigger] sv[q], sym@) && name_part(k) == sv[q].name;
                                if q == j {
                                    assert(keys_named(dom, site.name@).contains(k));
                                    assert(slot_v.to_set().contains(k));
                                    let p = choose|p: int| 0 <= p < slot_v.len() && slot_v[p] == k;
                                    assert(r[before.len() + p] == k);
                                } else {
                                    assert(named_in_body(sv, sym@, k, j as int));
                                    assert(before.contains(k));
                                    let p = choose|p: int| 0 <= p < before.len() && before[p] == k;
                                    assert(r[p] == k);
                                }
                            }
                        }
                    }
                },
                None => {
                    proof {
                        assert(keys_named(dom, site.name@).is_empty());
                    }
                },
            }
        }
        if !found {
            proof {
                assert forall|k: Seq<char>| #[trigger] texts(raw@).contains(k) <==> (dom.contains(k) && named_in_body(sv, sym@, k, j + 1)) by {
                    if dom.contains(k) && named_in_body(sv, sym@, k, j + 1) {
                        let q = choose|q: int| 0 <= q < j + 1 && in_body(#[trigger] sv[q], sym@) && name_part(k) == sv[q].name;
                        if q == j {
                            assert(keys_named(dom, site.name@).contains(k));
                        } else {
                            assert(named_in_body(sv, sym@, k, j as int));
                        }
                    }
                }
            }
        }
        j = j + 1;
    }
    raw
}

/// The keys that symbol `sym` references through the occurrences `sites`,
/// other than its own key `own`, in strictly ascending order.
fn symbol_refs(
    names: &StringHashMap<usize>,
    slots: &Vec<Vec<String>>,
    Ghost(dom): Ghost<Set<Seq<char>>>,
    sites: &Vec<RawSite>,
    sym: &Symbol,
    own: &String,
) -> (refs: Vec<String>)
    requires
        names_index(names@, slots@, dom),
    ensures
        texts_strictly_sorted(texts(refs@)),
        texts(refs@).to_set() == ref_set(dom, sym@, sites@.map_values(|x: RawSite| x@), own@),
{
    let raw = body_candidates(names, slots, Ghost(dom), sites, sym);
    let distinct = sort_dedup(raw);
    let refs = without(&distinct, own);
    proof {
        let target = ref_set(dom, sym@, sites@.map_values(|x: RawSite| x@), own@);
        assert forall|k: Seq<char>| texts(refs@).to_set().contains(k) <==> target.contains(k) by {
            assert(texts(refs@).contains(k) <==> (texts(distinct@).contains(k) && k != own@));
        }
        assert(texts(refs@).to_set() =~= target);
    }
    refs
}


/// What the graph keeps of a file once it is parsed.
struct ParsedFile {
    symbols: Vec<Symbol>,
    sites: Vec<RawSite>,
    lines: Vec<Vec<char>>,
}

/// Whether `p` holds the parse of file `f`.
spec fn parsed_as(p: ParsedFile, f: (String, Vec<u8>)) -> bool {
    &&& p.symbols@.map_values(|s: Symbol| s@) == file_syms(f)
    &&& p.sites@.map_values(|s: RawSite| s@) == file_sites(f)
    &&& p.lines@.len() == lines(file_text(f)).len()
    &&& forall|i: int| 0 <= i < p.lines@.len() ==> #[trigger] p.lines@[i]@ == lines(file_text(f))[i]
}

/// Parse one file: its symbols, identifier occurrences and lines.
fn parse_file(f: &(String, Vec<u8>)) -> (p: ParsedFile)
    ensures
        parsed_as(p, *f),
{
    let source = crate::text::utf8_lossy(f.1.as_slice());
    let chars = crate::text::chars_of(source.as_str());
    let text_lines = crate::text::lines_of(&chars);
    match crate::languages::Language::from_path(f.0.as_str()) {
        None => {
            let p = ParsedFile { symbols: Vec::new(), sites: Vec::new(), lines: text_lines };
            assert(p.symbols@.map_values(|s: Symbol| s@) =~= file_syms(*f));
            assert(p.sites@.map_values(|s: RawSite| s@) =~= file_sites(*f));
            p
        },
        Some(lang) => {
            let symbols = crate::ast::parse(lang, source.as_str());
            let sites = collect_sites(lang, source.as_str());
            ParsedFile { symbols, sites, lines: text_lines }
        },
    }
}

/// Parse every file.
fn parse_files(files: &Vec<(String, Vec<u8>)>) -> (r: Vec<ParsedFile>)
    ensures
        r@.len() == files@.len(),
        forall|i: int| 0 <= i < files@.len() ==> #[trigger] parsed_as(r@[i], files@[i]),
{
    let mut r: Vec<ParsedFile> = Vec::new();
    let mut i: usize = 0;
    while i < files.len()
        invariant
            i <= files.len(),
            r@.len() == i,
            forall|k: int| 0 <= k < i ==> #[trigger] parsed_as(r@[k], files@[k]),
        decreases files.len() - i,
    {
        let p = parse_file(&files[i]);
        r.push(p);
        i = i + 1;
    }
    r
}

/// The node of symbol `sym` of the file at `path`.
fn make_node(path: &String, sym: &Symbol) -> (n: SymbolNode)
    ensures
        n@ == node_of_symbol(path@, sym@),
{
    SymbolNode {
        name: sym.name.clone(),
        kind: sym.kind.clone(),
        file: path.clone(),
        line_start: sym.line_start,
        line_end: sym.line_end,
    }
}

/// Recording the last node keeps a key index exact.
proof fn lemma_keys_index_push(m: Map<Seq<char>, usize>, nodes: Seq<NodeView>, n: NodeView)
    requires
        keys_index(m, nodes),
        nodes.len() <= usize::MAX,
    ensures
        keys_index(m.insert(key_of_node(n), nodes.len() as usize), nodes.push(n)),
{
    let k0 = key_of_node(n);
    let m2 = m.insert(k0, nodes.len() as usize);
    let ns = nodes.push(n);
    assert forall|k: Seq<char>| #[trigger] m2.contains_key(k) <==> exists|i: int| 0 <= i < ns.len() && key_of_node(#[trigger] ns[i]) == k by {
        if m2.contains_key(k) {
            if k == k0 {
                assert(key_of_node(ns[nodes.len() as int]) == k);
            } else {
                let i = choose|i: int| 0 <= i < nodes.len() && key_of_node(#[trigger] nodes[i]) == k;
                assert(ns[i] == nodes[i]);
            }
        }
        if exists|i: int| 0 <= i < ns.len() && key_of_node(#[trigger] ns[i]) == k {
            let i = choose|i: int| 0 <= i < ns.len() && key_of_node(#[trigger] ns[i]) == k;
            if i < nodes.len() {
                assert(ns[i] == nodes[i]);
            }
        }
    }
    assert forall|k: Seq<char>| #[trigger] m2.contains_key(k) implies is_last_with_key(ns, k, m2[k] as int) by {
        if k != k0 {
            assert(is_last_with_key(nodes, k, m[k] as int));
            assert forall|j: int| m2[k] < j < ns.len() implies key_of_node(#[trigger] ns[j]) != k by {
                if j < nodes.len() {
                    assert(ns[j] == nodes[j]);
                }
            }
        }
    }
}

/// Whether `key_list` lists the keys of `m`, each once.
spec fn lists_keys(key_list: Seq<String>, m: Map<Seq<char>, usize>) -> bool {
    &&& texts(key_list).no_duplicates()
    &&& texts(key_list).to_set() == m.dom()
}

/// The graph nodes of the symbols of `files`, with the index of each key's
/// last node and the list of keys.
fn register_nodes(files: &Vec<(String, Vec<u8>)>, parsed: &Vec<ParsedFile>) -> (r: (
    Vec<SymbolNode>,
    StringHashMap<usize>,
    Vec<String>,
))
    requires
        parsed@.len() == files@.len(),
        forall|i: int| 0 <= i < files@.len() ==> #[trigger] parsed_as(parsed@[i], files@[i]),
    ensures
        r.0@.map_values(|n: SymbolNode| n@) == nodes_upto(files@, files@.len() as int),
        keys_index(r.1@, r.0@.map_values(|n: SymbolNode| n@)),
        lists_keys(r.2@, r.1@),
{
    let mut nodes: Vec<SymbolNode> = Vec::new();
    let mut keys: StringHashMap<usize> = StringHashMap::new();
    let mut key_list: Vec<String> = Vec::new();
    assert(texts(key_list@).to_set() =~= keys@.dom());
    assert(nodes@.map_values(|n: SymbolNode| n@) =~= nodes_upto(files@, 0));
    let mut i: usize = 0;
    while i < files.len()
        invariant
            i <= files.len(),
            parsed@.len() == files@.len(),
            forall|q: int| 0 <= q < files@.len() ==> #[trigger] parsed_as(parsed@[q], files@[q]),
            nodes@.map_values(|n: SymbolNode| n@) == nodes_upto(files@, i as int),
            keys_index(keys@, nodes@.map_values(|n: SymbolNode| n@)),
            lists_keys(key_list@, keys@),
        decreases files.len() - i,
    {
        let path = &files[i].0;
        let syms = &parsed[i].symbols;
        let ghost base = nodes_upto(files@, i as int);
        let ghost fnodes = file_nodes(files@[i as int]);
        proof {
            assert(parsed_as(parsed@[i as int], files@[i as int]));
            assert(fnodes.len() == syms@.len());
        }
        let mut j: usize = 0;
        while j < syms.len()
            invariant
                j <= syms.len(),
                i < files.len(),
                path == files@[i as int].0,
                syms@.map_values(|s: Symbol| s@) == file_syms(files@[i as int]),
                fnodes == file_nodes(files@[i as int]),
                fnodes.len() == syms@.len(),
                nodes@.map_values(|n: SymbolNode| n@) == base + fnodes.take(j as int),
                keys_index(keys@, nodes@.map_values(|n: SymbolNode| n@)),
                lists_keys(key_list@, keys@),
            decreases syms.len() - j,
        {
            let ghost before = nodes@.map_values(|n: SymbolNode| n@);
            let idx = nodes.len();
            let node = make_node(path, &syms[j]);
            let key = node_key(path.as_str(), syms[j].name.as_str());
            proof {
                assert(syms@.map_values(|s: Symbol| s@)[j as int] == syms@[j as int]@);
                assert(fnodes[j as int] == node@);
                assert(key@ == key_of_node(node@));
                assert(before.len() == nodes@.len());
                lemma_keys_index_push(keys@, before, node@);
            }
            if !keys.contains_key(key.as_str()) {
                let ghost kl = texts(key_list@);
                key_list.push(key.clone());
                proof {
                    assert(texts(key_list@) =~= kl.push(key@));
                    kl.lemma_push_to_set_commute(key@);
                    assert(!kl.contains(key@)) by {
                        if kl.contains(key@) {
                            let q = choose|q: int| 0 <= q < kl.len() && kl[q] == key@;
                            assert(kl.to_set().contains(key@));
                        }
                    }
                    assert forall|a: int, b: int| 0 <= a < b < texts(key_list@).len() implies texts(key_list@)[a] != texts(key_list@)[b] by {
                        if b == kl.len() {
                            assert(kl[a] == texts(key_list@)[a]);
                        } else {
                            assert(kl[a] == texts(key_list@)[a] && kl[b] == texts(key_list@)[b]);
                        }
                    }
                }
            }
            keys.insert(key, idx);
            nodes.push(node);
            proof {
                assert(nodes@.map_values(|n: SymbolNode| n@) =~= before.push(node@));
                assert(fnodes.take(j + 1) =~= fnodes.take(j as int).push(fnodes[j as int]));
                assert(keys@.dom() =~= texts(key_list@).to_set());
            }
            j = j + 1;
        }
        proof {
            assert(fnodes.take(syms.len() as int) =~= fnodes);
        }
        i = i + 1;
    }
    (nodes, keys, key_list)
}


/// Whether the edge `e` joins nodes of `all`, each the last node with its
/// key.
pub open spec fn edge_good(all: Seq<NodeView>, e: (usize, usize)) -> bool {
    &&& e.0 < all.len()
    &&& e.1 < all.len()
    &&& is_last_with_key(all, key_of_node(all[e.0 as int]), e.0 as int)
    &&& is_last_with_key(all, key_of_node(all[e.1 as int]), e.1 as int)
}

/// Edge indices as integer pairs.
pub open spec fn edge_view(v: Seq<(usize, usize)>) -> Seq<(int, int)> {
    v.map_values(|e: (usize, usize)| (e.0 as int, e.1 as int))
}

/// Reference spots with their names, as mathematical values.
pub open spec fn spot_view(v: Seq<(String, RefSpot)>) -> Seq<(Seq<char>, RefSpotView)> {
    v.map_values(|p: (String, RefSpot)| (p.0@, p.1@))
}

/// Append the edges of the symbols of file `f` (parsed as `p`).
fn add_file_edges(
    names: &StringHashMap<usize>,
    slots: &Vec<Vec<String>>,
    keys: &StringHashMap<usize>,
    f: &(String, Vec<u8>),
    p: &ParsedFile,
    edges: &mut Vec<(usize, usize)>,
    Ghost(all): Ghost<Seq<NodeView>>,
)
    requires
        parsed_as(*p, *f),
        names_index(names@, slots@, keys@.dom()),
        keys_index(keys@, all),
        forall|q: int| 0 <= q < old(edges)@.len() ==> edge_good(all, #[trigger] old(edges)@[q]),
        forall|j: int| 0 <= j < file_syms(*f).len() ==> keys@.contains_key(key_spec(f.0@, (#[trigger] file_syms(*f)[j]).name)),
    ensures
        edge_view(final(edges)@) == edge_view(old(edges)@) + file_edges_upto(keys@, *f, file_syms(*f).len() as int),
        forall|q: int| 0 <= q < final(edges)@.len() ==> edge_good(all, #[trigger] final(edges)@[q]),
{
    let ghost start = edge_view(edges@);
    let ghost sv = p.sites@.map_values(|x: RawSite| x@);
    let syms = &p.symbols;
    let mut j: usize = 0;
    while j < syms.len()
        invariant
            j <= syms.len(),
            parsed_as(*p, *f),
            syms == &p.symbols,
            sv == p.sites@.map_values(|x: RawSite| x@),
            names_index(names@, slots@, keys@.dom()),
            forall|q: int| 0 <= q < file_syms(*f).len() ==> keys@.contains_key(key_spec(f.0@, (#[trigger] file_syms(*f)[q]).name)),
            edge_view(edges@) == start + file_edges_upto(keys@, *f, j as int),
            keys_index(keys@, all),
            forall|q: int| 0 <= q < edges@.len() ==> edge_good(all, #[trigger] edges@[q]),
        decreases syms.len() - j,
    {
        let sym = &syms[j];
        proof {
            assert(syms@.map_values(|s: Symbol| s@)[j as int] == sym@);
            assert(file_syms(*f)[j as int] == sym@);
        }
        let own = node_key(f.0.as_str(), sym.name.as_str());
        let from: usize = match keys.get(own.as_str()) {
            Some(x) => *x,
            None => {
                proof {
                    assert(keys@.contains_key(key_spec(f.0@, file_syms(*f)[j as int].name)));
                }
                0
            },
        };
        let refs = symbol_refs(names, slots, Ghost(keys@.dom()), &p.sites, sym, &own);
        let ghost target = ref_set(keys@.dom(), sym@, sv, own@);
        let ghost se = symbol_edges(keys@, f.0@, sym@, file_sites(*f));
        proof {
            assert(exists|v: Seq<Seq<char>>| texts_strictly_sorted(v) && v.to_set() == target) by {
                assert(texts_strictly_sorted(texts(refs@)) && texts(refs@).to_set() == target);
            }
            crate::order::lemma_sorted_unique(texts(refs@), sorted_list(target));
            assert(se =~= texts(refs@).map_values(|r: Seq<char>| (from as int, keys@[r] as int)));
        }
        let ghost mid = edge_view(edges@);
        let mut t: usize = 0;
        while t < refs.len()
            invariant
                t <= refs.len(),
                se == texts(refs@).map_values(|r: Seq<char>| (from as int, keys@[r] as int)),
                texts(refs@).to_set() == target,
                target == ref_set(keys@.dom(), sym@, sv, own@),
                edge_view(edges@) == mid + se.take(t as int),
                keys@.contains_key(own@) && from == keys@[own@],
                keys_index(keys@, all),
                forall|q: int| 0 <= q < edges@.len() ==> edge_good(all, #[trigger] edges@[q]),
            decreases refs.len() - t,
        {
            let ghost before = edges@;
            proof {
                assert(texts(refs@)[t as int] == refs@[t as int]@);
                assert(texts(refs@).to_set().contains(refs@[t as int]@));
            }
            let to: usize = match keys.get(refs[t].as_str()) {
                Some(x) => *x,
                None => 0,
            };
            proof {
                assert(is_last_with_key(all, own@, from as int));
                assert(is_last_with_key(all, refs@[t as int]@, to as int));
            }
            edges.push((from, to));
            proof {
                assert(edge_view(edges@) =~= edge_view(before).push((from as int, to as int)));
                assert(se.take(t + 1) =~= se.take(t as int).push(se[t as int]));
            }
            t = t + 1;
        }
        proof {
            assert(se.take(refs.len() as int) =~= se);
            assert(file_edges_upto(keys@, *f, j + 1) == file_edges_upto(keys@, *f, j as int) + se);
            assert(edge_view(edges@) =~= start + file_edges_upto(keys@, *f, j + 1));
        }
        j = j + 1;
    }
}

/// Whether `site` is the name of one of the declarations `syms`.
fn declares_name(site: &RawSite, syms: &Vec<Symbol>) -> (r: bool)
    ensures
        r == is_def_name(site@, syms@.map_values(|s: Symbol| s@)),
{
    let ghost sv = syms@.map_values(|s: Symbol| s@);
    let mut i: usize = 0;
    while i < syms.len()
        invariant
            i <= syms.len(),
            sv == syms@.map_values(|s: Symbol| s@),
            forall|q: int|
                0 <= q < i ==> !((#[trigger] sv[q]).name == site@.name && site@.byte_start >= sv[q].name_start_byte
                    && site@.byte_end <= sv[q].name_end_byte),
        decreases syms.len() - i,
    {
        let s = &syms[i];
        assert(sv[i as int] == s@);
        if str_eq(s.name.as_str(), site.name.as_str()) && site.byte_start >= s.name_start_byte
            && site.byte_end <= s.name_end_byte {
            return true;
        }
        i = i + 1;
    }
    false
}

/// The trimmed text of line `line` (1-indexed) among `text_lines`; empty
/// past the end.
fn context_for(text_lines: &Vec<Vec<char>>, line: usize, Ghost(text): Ghost<Seq<char>>) -> (r: String)
    requires
        text_lines@.len() == lines(text).len(),
        forall|i: int| 0 <= i < text_lines@.len() ==> #[trigger] text_lines@[i]@ == lines(text)[i],
    ensures
        r@ == context_at(text, line as int),
{
    if line >= 1 && line <= text_lines.len() {
        crate::text::trim_chars(&text_lines[line - 1])
    } else {
        String::new()
    }
}

/// Append the reference spots of file `f` (parsed as `p`).
fn add_file_spots(f: &(String, Vec<u8>), p: &ParsedFile, spots: &mut Vec<(String, RefSpot)>)
    requires
        parsed_as(*p, *f),
    ensures
        spot_view(final(spots)@) == spot_view(old(spots)@) + file_spots(*f),
{
    let ghost start = spot_view(spots@);
    let ghost sites = file_sites(*f);
    let ghost syms = file_syms(*f);
    let ghost keep = |site: SiteView| !is_def_name(site, file_syms(*f));
    let ghost mk = |site: SiteView| spot_of(f.0@, file_text(*f), site);
    let mut k: usize = 0;
    while k < p.sites.len()
        invariant
            k <= p.sites.len(),
            parsed_as(*p, *f),
            sites == file_sites(*f),
            syms == file_syms(*f),
            keep == (|site: SiteView| !is_def_name(site, file_syms(*f))),
            mk == (|site: SiteView| spot_of(f.0@, file_text(*f), site)),
            spot_view(spots@) == start + sites.take(k as int).filter(keep).map_values(mk),
        decreases p.sites.len() - k,
    {
        let site = &p.sites[k];
        let ghost before = spots@;
        proof {
            assert(p.sites@.map_values(|x: RawSite| x@)[k as int] == site@);
            assert(sites[k as int] == site@);
            assert(sites.take(k + 1).drop_last() =~= sites.take(k as int));
            assert(sites.take(k + 1).last() == site@);
            reveal_with_fuel(Seq::filter, 1);
        }
        if !declares_name(site, &p.symbols) {
            let context = context_for(&p.lines, site.line, Ghost(file_text(*f)));
            let spot = RefSpot { file: f.0.clone(), line: site.line, context };
            spots.push((site.name.clone(), spot));
            proof {
                assert(spot_view(spots@) =~= spot_view(before).push(mk(site@)));
                assert(sites.take(k + 1).filter(keep) =~= sites.take(k as int).filter(keep).push(site@));
            }
        } else {
            proof {
                assert(sites.take(k + 1).filter(keep) =~= sites.take(k as int).filter(keep));
            }
        }
        k = k + 1;
    }
    proof {
        assert(sites.take(p.sites.len() as int) =~= sites);
    }
}


/// The index of the last node with key `k`.
pub open spec fn last_with_key(nodes: Seq<NodeView>, k: Seq<char>) -> int {
    choose|i: int| is_last_with_key(nodes, k, i)
}

/// The map from the key of each node to its last node with that key.
pub open spec fn key_map(nodes: Seq<NodeView>) -> Map<Seq<char>, usize> {
    Map::new(
        |k: Seq<char>| exists|i: int| 0 <= i < nodes.len() && key_of_node(#[trigger] nodes[i]) == k,
        |k: Seq<char>| last_with_key(nodes, k) as usize,
    )
}

/// A key index of `nodes` is [`key_map`] of `nodes`.
proof fn lemma_keys_index_unique(m: Map<Seq<char>, usize>, nodes: Seq<NodeView>)
    requires
        keys_index(m, nodes),
    ensures
        m == key_map(nodes),
{
    let km = key_map(nodes);
    assert forall|k: Seq<char>| #[trigger] m.contains_key(k) implies m[k] == km[k] by {
        assert(is_last_with_key(nodes, k, m[k] as int));
        let i = last_with_key(nodes, k);
        assert(is_last_with_key(nodes, k, i));
        if i < m[k] {
            assert(key_of_node(nodes[m[k] as int]) == k);
        } else if i > m[k] {
            assert(key_of_node(nodes[i]) == k);
        }
    }
    assert(m.dom() =~= km.dom());
    assert(m =~= km);
}

/// The nodes of the first `i` files begin the nodes of the first `n`.
proof fn lemma_nodes_prefix(files: Seq<(String, Vec<u8>)>, i: int, n: int)
    requires
        0 <= i <= n <= files.len(),
    ensures
        nodes_upto(files, i).len() <= nodes_upto(files, n).len(),
        forall|q: int| 0 <= q < nodes_upto(files, i).len() ==> #[trigger] nodes_upto(files, n)[q] == nodes_upto(files, i)[q],
    decreases n - i,
{
    if i < n {
        lemma_nodes_prefix(files, i, n - 1);
    }
}

/// Every symbol of file `i` has its key in a key index of all nodes.
proof fn lemma_file_keys_present(files: Seq<(String, Vec<u8>)>, m: Map<Seq<char>, usize>, i: int)
    requires
        keys_index(m, nodes_upto(files, files.len() as int)),
        0 <= i < files.len(),
    ensures
        forall|j: int| 0 <= j < file_syms(files[i]).len() ==> m.contains_key(key_spec(files[i].0@, (#[trigger] file_syms(files[i])[j]).name)),
{
    let all = nodes_upto(files, files.len() as int);
    lemma_nodes_prefix(files, i + 1, files.len() as int);
    assert forall|j: int| 0 <= j < file_syms(files[i]).len() implies m.contains_key(key_spec(files[i].0@, (#[trigger] file_syms(files[i])[j]).name)) by {
        let q = nodes_upto(files, i).len() + j;
        assert(nodes_upto(files, i + 1)[q] == file_nodes(files[i])[j]);
        assert(all[q] == nodes_upto(files, i + 1)[q]);
        assert(key_of_node(all[q]) == key_spec(files[i].0@, file_syms(files[i])[j].name));
    }
}

/// A copy of a node.
fn copy_node(n: &SymbolNode) -> (r: SymbolNode)
    ensures
        r@ == n@,
{
    SymbolNode {
        name: n.name.clone(),
        kind: n.kind.clone(),
        file: n.file.clone(),
        line_start: n.line_start,
        line_end: n.line_end,
    }
}

/// A petgraph graph with the nodes `nodes` and the edges `edges`.
fn populate(nodes: &Vec<SymbolNode>, edges: &Vec<(usize, usize)>) -> (g: Graph<SymbolNode, (), Directed, u32>)
    requires
        nodes@.len() <= u32::MAX,
        edges@.len() <= u32::MAX,
        forall|q: int| 0 <= q < edges@.len() ==> (#[trigger] edges@[q]).0 < nodes@.len() && edges@[q].1 < nodes@.len(),
    ensures
        graph_nodes(g).map_values(|n: SymbolNode| n@) == nodes@.map_values(|n: SymbolNode| n@),
        graph_edges(g) == edge_view(edges@),
{
    let mut g = new_graph();
    let mut i: usize = 0;
    while i < nodes.len()
        invariant
            i <= nodes.len(),
            nodes@.len() <= u32::MAX,
            graph_nodes(g).map_values(|n: SymbolNode| n@) == nodes@.take(i as int).map_values(|n: SymbolNode| n@),
            graph_edges(g) == Seq::<(int, int)>::empty(),
        decreases nodes.len() - i,
    {
        let ghost before = graph_nodes(g);
        assert(before.map_values(|n: SymbolNode| n@).len() == before.len());
        assert(before.len() == i);
        let n = copy_node(&nodes[i]);
        add_node(&mut g, n);
        proof {
            assert(graph_nodes(g).map_values(|n: SymbolNode| n@) =~= before.map_values(|n: SymbolNode| n@).push(nodes@[i as int]@));
            assert(nodes@.take(i + 1).map_values(|n: SymbolNode| n@) =~= nodes@.take(i as int).map_values(|n: SymbolNode| n@).push(nodes@[i as int]@));
        }
        i = i + 1;
    }
    assert(nodes@.take(nodes.len() as int) =~= nodes@);
    let mut t: usize = 0;
    while t < edges.len()
        invariant
            t <= edges.len(),
            edges@.len() <= u32::MAX,
            forall|q: int| 0 <= q < edges@.len() ==> (#[trigger] edges@[q]).0 < nodes@.len() && edges@[q].1 < nodes@.len(),
            graph_nodes(g).map_values(|n: SymbolNode| n@) == nodes@.map_values(|n: SymbolNode| n@),
            graph_edges(g) == edge_view(edges@).take(t as int),
        decreases edges.len() - t,
    {
        let (a, b) = edges[t];
        proof {
            assert(graph_nodes(g).map_values(|n: SymbolNode| n@).len() == graph_nodes(g).len());
        }
        add_edge(&mut g, a, b);
        proof {
            assert(edge_view(edges@).take(t + 1) =~= edge_view(edges@).take(t as int).push((a as int, b as int)));
        }
        t = t + 1;
    }
    assert(edge_view(edges@).take(edges.len() as int) =~= edge_view(edges@));
    g
}

/// Whether both ends of edge `e` are the last node with their key.
pub open spec fn edge_ends_last(nodes: Seq<NodeView>, e: (int, int)) -> bool {
    &&& is_last_with_key(nodes, key_of_node(nodes[e.0]), e.0)
    &&& is_last_with_key(nodes, key_of_node(nodes[e.1]), e.1)
}

/// A directed graph of symbol references.
pub struct SymbolGraph {
    /// node key (`file:name`) -> index of its last node
    keys: StringHashMap<usize>,
    /// the node keys, each once
    key_list: Vec<String>,
    /// the directed graph: edge `A -> B` means `A` references `B`
    graph: Graph<SymbolNode, (), Directed, u32>,
    /// reference sites (identifier occurrences) with the name they use, in
    /// file order, then document order
    ref_sites: Vec<(String, RefSpot)>,
}

impl SymbolGraph {
    /// The definition nodes, by index.
    pub closed spec fn nodes(&self) -> Seq<NodeView> {
        graph_nodes(self.graph).map_values(|n: SymbolNode| n@)
    }

    /// The edges as (referencing node, referenced node), in order of addition.
    pub closed spec fn edges(&self) -> Seq<(int, int)> {
        graph_edges(self.graph)
    }

    /// The reference spots with the name each uses.
    pub closed spec fn spots(&self) -> Seq<(Seq<char>, RefSpotView)> {
        spot_view(self.ref_sites@)
    }

    /// The node keys and the index each resolves to.
    pub closed spec fn key_index(&self) -> Map<Seq<char>, usize> {
        self.keys@
    }

    /// Whether the key index, the key list and the edges agree with the
    /// nodes.
    pub closed spec fn wf(&self) -> bool {
        &&& keys_index(self.keys@, self.nodes())
        &&& lists_keys(self.key_list@, self.keys@)
        &&& forall|q: int| 0 <= q < self.edges().len() ==> 0 <= (#[trigger] self.edges()[q]).0 < self.nodes().len() && 0 <= self.edges()[q].1 < self.nodes().len()
        &&& forall|q: int| 0 <= q < self.edges().len() ==> edge_ends_last(self.nodes(), #[trigger] self.edges()[q])
    }

    /// Build the graph of the files `files` (each a root-relative path and
    /// the file's content, in listing order; files in no supported language
    /// contribute nothing). `None` when the nodes or the edges exceed what
    /// the graph can index (`u32::MAX` of each).
    pub fn build(files: &Vec<(String, Vec<u8>)>) -> (r: Option<SymbolGraph>)
        ensures
            ({
                let ns = nodes_upto(files@, files@.len() as int);
                let es = edges_upto(key_map(ns), files@, files@.len() as int);
                &&& r is None <==> (ns.len() > u32::MAX || es.len() > u32::MAX)
                &&& r matches Some(g) ==> {
                    &&& g.wf()
                    &&& g.nodes() == ns
                    &&& g.key_index() == key_map(ns)
                    &&& g.edges() == es
                    &&& g.spots() == spots_upto(files@, files@.len() as int)
                }
            }),
    {
        let parsed = parse_files(files);
        let (nodes, keys, key_list) = register_nodes(files, &parsed);
        let ghost ns = nodes_upto(files@, files@.len() as int);
        proof {
            lemma_keys_index_unique(keys@, ns);
        }
        let (names, slots) = index_key_names(&key_list);
        proof {
            assert(texts(key_list@).to_set() == keys@.dom());
        }
        let mut edges: Vec<(usize, usize)> = Vec::new();
        let mut spots: Vec<(String, RefSpot)> = Vec::new();
        let mut i: usize = 0;
        while i < files.len()
            invariant
                i <= files.len(),
                parsed@.len() == files@.len(),
                forall|q: int| 0 <= q < files@.len() ==> #[trigger] parsed_as(parsed@[q], files@[q]),
                keys_index(keys@, ns),
                ns == nodes_upto(files@, files@.len() as int),
                nodes@.map_values(|n: SymbolNode| n@) == ns,
                names_index(names@, slots@, keys@.dom()),
                edge_view(edges@) == edges_upto(keys@, files@, i as int),
                forall|q: int| 0 <= q < edges@.len() ==> edge_good(ns, #[trigger] edges@[q]),
                spot_view(spots@) == spots_upto(files@, i as int),
            decreases files.len() - i,
        {
            proof {
                lemma_file_keys_present(files@, keys@, i as int);
                assert(parsed_as(parsed@[i as int], files@[i as int]));
            }
            add_file_edges(&names, &slots, &keys, &files[i], &parsed[i], &mut edges, Ghost(ns));
            add_file_spots(&files[i], &parsed[i], &mut spots);
            i = i + 1;
        }
        if nodes.len() > 4294967295 || edges.len() > 4294967295 {
            return None;
        }
        proof {
            assert forall|q: int| 0 <= q < edges@.len() implies (#[trigger] edges@[q]).0 < nodes@.len() && edges@[q].1 < nodes@.len() by {
                assert(edge_good(ns, edges@[q]));
            }
        }
        let graph = populate(&nodes, &edges);
        let g = SymbolGraph { keys, key_list, graph, ref_sites: spots };
        proof {
            assert forall|q: int| 0 <= q < g.edges().len() implies edge_ends_last(g.nodes(), #[trigger] g.edges()[q]) by {
                assert(g.edges()[q] == (edges@[q].0 as int, edges@[q].1 as int));
                assert(edge_good(ns, edges@[q]));
            }
        }
        Some(g)
    }

    /// Whether any definition has the name `name`.
    pub fn has_name(&self, name: &str) -> (r: bool)
        ensures
            r == exists|i: int| 0 <= i < self.nodes().len() && (#[trigger] self.nodes()[i]).name == name@,
    {
        let n = node_count(&self.graph);
        let mut i: usize = 0;
        while i < n
            invariant
                i <= n,
                n == graph_nodes(self.graph).len(),
                forall|q: int| 0 <= q < i ==> (#[trigger] self.nodes()[q]).name != name@,
            decreases n - i,
        {
            let node = node_at(&self.graph, i);
            assert(self.nodes()[i as int] == node@);
            if str_eq(node.name.as_str(), name) {
                return true;
            }
            i = i + 1;
        }
        false
    }

    /// The reference spots that use the name `name`, ordered by file, then
    /// by line.
    pub fn upstream_spots(&self, name: &str) -> (r: Vec<RefSpot>)
        ensures
            r@.map_values(|s: RefSpot| s@).to_multiset() == spots_named(self.spots(), name@).to_multiset(),
            forall|i: int, j: int| 0 <= i < j < r@.len() ==> spot_le(#[trigger] r@[i]@, #[trigger] r@[j]@),
    {
        let ghost sp = self.spots();
        let ghost keep = |p: (Seq<char>, RefSpotView)| p.0 == name@;
        let ghost part = |p: (Seq<char>, RefSpotView)| p.1;
        let mut found: Vec<RefSpot> = Vec::new();
        let mut k: usize = 0;
        while k < self.ref_sites.len()
            invariant
                k <= self.ref_sites.len(),
                sp == self.spots(),
                sp == spot_view(self.ref_sites@),
                keep == (|p: (Seq<char>, RefSpotView)| p.0 == name@),
                part == (|p: (Seq<char>, RefSpotView)| p.1),
                found@.map_values(|s: RefSpot| s@) == sp.take(k as int).filter(keep).map_values(part),
            decreases self.ref_sites.len() - k,
        {
            let ghost before = found@;
            proof {
                assert(sp[k as int] == (self.ref_sites@[k as int].0@, self.ref_sites@[k as int].1@));
                assert(sp.take(k + 1).drop_last() =~= sp.take(k as int));
                assert(sp.take(k + 1).last() == sp[k as int]);
                reveal_with_fuel(Seq::filter, 1);
            }
            if str_eq(self.ref_sites[k].0.as_str(), name) {
                found.push(copy_spot(&self.ref_sites[k].1));
                proof {
                    assert(found@.map_values(|s: RefSpot| s@) =~= before.map_values(|s: RefSpot| s@).push(sp[k as int].1));
                    assert(sp.take(k + 1).filter(keep) =~= sp.take(k as int).filter(keep).push(sp[k as int]));
                }
            } else {
                proof {
                    assert(sp.take(k + 1).filter(keep) =~= sp.take(k as int).filter(keep));
                }
            }
            k = k + 1;
        }
        proof {
            assert(sp.take(self.ref_sites.len() as int) =~= sp);
        }
        let ghost unsorted = found@;
        let r = crate::order::sort(found);
        proof {
            crate::order::lemma_map_multiset_by(r@, unsorted, |s: RefSpot| s@);
            assert forall|i: int, j: int| 0 <= i < j < r@.len() implies spot_le(#[trigger] r@[i]@, #[trigger] r@[j]@) by {
                assert((|a: RefSpot, b: RefSpot| <RefSpot as KeyOrder>::le(a, b))(r@[i], r@[j]));
            }
        }
        r
    }

    /// The canonical key (`file:name`) of node `i`.
    fn node_key_of(&self, i: usize) -> (k: String)
        requires
            i < self.nodes().len(),
        ensures
            k@ == key_of_node(self.nodes()[i as int]),
    {
        let node = node_at(&self.graph, i);
        node_key(node.file.as_str(), node.name.as_str())
    }

    /// Resolve a symbol key (`name` or `file:name`) to a canonical node key:
    /// a key of a node as it is, else the one key whose name part is `key`;
    /// none is [`RefError::NotFound`], several are [`RefError::Ambiguous`]
    /// with their files in ascending order.
    pub fn resolve_key(&self, key: &str) -> (r: Result<String, RefError>)
        requires
            self.wf(),
        ensures
            ({
                let ms = keys_with_name(self.key_index(), key@);
                if self.key_index().contains_key(key@) {
                    r matches Ok(s) && s@ == key@
                } else if ms.is_empty() {
                    r matches Err(RefError::NotFound)
                } else if exists|s: Seq<char>| ms == set![s] {
                    r matches Ok(s) && ms == set![s@]
                } else {
                    r matches Err(RefError::Ambiguous { files }) && texts_strictly_sorted(texts(files@))
                        && texts(files@).to_set() == ms.map(|k: Seq<char>| file_part(k))
                }
            }),
    {
        if self.keys.contains_key(key) {
            return Ok(String::from_str(key));
        }
        // `file:name` split at its first `:` and joined again.
        let chars = crate::text::chars_of(key);
        let mut c: usize = 0;
        while c < chars.len() && chars[c] != ':'
            invariant
                c <= chars.len(),
            decreases chars.len() - c,
        {
            c = c + 1;
        }
        if c < chars.len() {
            let mut candidate = crate::text::string_of_range(&chars, 0, c);
            candidate.append(":");
            let rest = crate::text::string_of_range(&chars, c + 1, chars.len());
            candidate.append(rest.as_str());
            proof {
                reveal_strlit(":");
                assert(candidate@ =~= key@);
            }
            if self.keys.contains_key(candidate.as_str()) {
                return Ok(candidate);
            }
        }
        let ghost ms = keys_with_name(self.keys@, key@);
        let ghost kv = texts(self.key_list@);
        let mut matches: Vec<String> = Vec::new();
        let mut q: usize = 0;
        while q < self.key_list.len()
            invariant
                q <= self.key_list.len(),
                kv == texts(self.key_list@),
                lists_keys(self.key_list@, self.keys@),
                ms == keys_with_name(self.keys@, key@),
                texts(matches@) == kv.take(q as int).filter(|k: Seq<char>| has_colon(k) && name_part(k) == key@),
                texts(matches@).no_duplicates(),
            decreases self.key_list.len() - q,
        {
            let ghost before = matches@;
            let k = &self.key_list[q];
            proof {
                assert(kv[q as int] == k@);
                assert(kv.take(q + 1).drop_last() =~= kv.take(q as int));
                assert(kv.take(q + 1).last() == k@);
                reveal_with_fuel(Seq::filter, 1);
            }
            let a = after_last_colon(k.as_str());
            if a > 0 && str_eq(name_part_of(k.as_str()).as_str(), key) {
                proof {
                    assert(!texts(before).contains(k@)) by {
                        if texts(before).contains(k@) {
                            kv.take(q as int).lemma_filter_contains_rev(|k: Seq<char>| has_colon(k) && name_part(k) == key@, k@);
                            let i = choose|i: int| 0 <= i < q && kv.take(q as int)[i] == k@;
                            assert(kv[i] == kv[q as int]);
                        }
                    }
                }
                matches.push(k.clone());
                proof {
                    assert(texts(matches@) =~= texts(before).push(k@));
                }
            }
            q = q + 1;
        }
        let ghost mv = texts(matches@);
        proof {
            assert(kv.take(self.key_list.len() as int) =~= kv);
            lemma_filter_keys(kv, key@);
            assert(mv.to_set() == ms);
        }
        if matches.len() == 0 {
            proof {
                assert(ms =~= Set::<Seq<char>>::empty());
            }
            return Err(RefError::NotFound);
        }
        if matches.len() == 1 {
            proof {
                assert(mv.to_set() =~= set![mv[0]]) by {
                    assert forall|x: Seq<char>| mv.to_set().contains(x) <==> x == mv[0] by {
                        if x == mv[0] {
                            assert(mv.contains(x));
                        }
                    }
                }
            }
            return Ok(matches[0].clone());
        }
        proof {
            assert(mv[0] != mv[1]);
            assert(mv.to_set().contains(mv[0]));
            assert(mv.to_set().contains(mv[1]));
            assert forall|s: Seq<char>| ms != set![s] by {
                if ms == set![s] {
                    assert(ms.contains(mv[0]) && ms.contains(mv[1]));
                }
            }
        }
        let mut files: Vec<String> = Vec::new();
        let mut t: usize = 0;
        while t < matches.len()
            invariant
                t <= matches.len(),
                mv == texts(matches@),
                forall|x: Seq<char>| mv.contains(x) ==> has_colon(x),
                texts(files@) == mv.take(t as int).map_values(|k: Seq<char>| file_part(k)),
            decreases matches.len() - t,
        {
            let ghost before = files@;
            proof {
                assert(mv[t as int] == matches@[t as int]@);
                assert(mv.contains(mv[t as int]));
            }
            files.push(file_part_of(matches[t].as_str()));
            proof {
                assert(texts(files@) =~= texts(before).push(file_part(mv[t as int])));
                assert(mv.take(t + 1) =~= mv.take(t as int).push(mv[t as int]));
            }
            t = t + 1;
        }
        let ghost fv = texts(files@);
        let files = sort_dedup(files);
        proof {
            assert(mv.take(matches.len() as int) =~= mv);
            mv.lemma_to_set_map_commutes(|k: Seq<char>| file_part(k));
            assert forall|x: Seq<char>| texts(files@).to_set().contains(x) <==> ms.map(|k: Seq<char>| file_part(k)).contains(x) by {
                assert(texts(files@).contains(x) <==> fv.contains(x));
            }
            assert(texts(files@).to_set() =~= ms.map(|k: Seq<char>| file_part(k)));
        }
        Err(RefError::Ambiguous { files })
    }
}

/// The keys among `m` whose name part is `name`.
pub open spec fn keys_with_name(m: Map<Seq<char>, usize>, name: Seq<char>) -> Set<Seq<char>> {
    Set::new(|k: Seq<char>| m.contains_key(k) && has_colon(k) && name_part(k) == name)
}

/// The spots among `spots` that use the name `name`.
pub open spec fn spots_named(spots: Seq<(Seq<char>, RefSpotView)>, name: Seq<char>) -> Seq<RefSpotView> {
    spots.filter(|p: (Seq<char>, RefSpotView)| p.0 == name).map_values(|p: (Seq<char>, RefSpotView)| p.1)
}

/// Filtering a duplicate-free listing of keys keeps the keys that pass.
proof fn lemma_filter_keys(kv: Seq<Seq<char>>, name: Seq<char>)
    ensures
        forall|x: Seq<char>| kv.filter(|k: Seq<char>| has_colon(k) && name_part(k) == name).contains(x)
            <==> (kv.contains(x) && has_colon(x) && name_part(x) == name),
{
    broadcast use vstd::seq_lib::group_filter_ensures;
    assert forall|x: Seq<char>| kv.filter(|k: Seq<char>| has_colon(k) && name_part(k) == name).contains(x)
        <==> (kv.contains(x) && has_colon(x) && name_part(x) == name) by {
        let f = kv.filter(|k: Seq<char>| has_colon(k) && name_part(k) == name);
        if f.contains(x) {
            kv.lemma_filter_contains_rev(|k: Seq<char>| has_colon(k) && name_part(k) == name, x);
            let i = choose|i: int| 0 <= i < f.len() && f[i] == x;
            assert(has_colon(f[i]) && name_part(f[i]) == name);
        }
        if kv.contains(x) && has_colon(x) && name_part(x) == name {
            let i = choose|i: int| 0 <= i < kv.len() && kv[i] == x;
            assert(f.contains(kv[i]));
        }
    }
}


impl SymbolGraph {
    /// Reach, at depth `depth`, the nodes with an edge into the node `node`
    /// (reached along `path`) whose keys were not reached before.
    fn visit_neighbors(
        &self,
        node: usize,
        path: &Vec<String>,
        depth: usize,
        visited: &mut StringHashMap<bool>,
        next: &mut Vec<(usize, Vec<String>)>,
        callers: &mut Vec<CallerRecord>,
        paths: &mut Vec<ImpactPath>,
    )
        requires
            self.wf(),
            node < self.nodes().len(),
            forall|q: int| 0 <= q < old(next)@.len() ==> (#[trigger] old(next)@[q]).0 < self.nodes().len(),
        ensures
            ({
                let s0 = WalkState {
                    visited: old(visited)@.dom(),
                    level: level_view(old(next)@),
                    callers: old(callers)@.map_values(|c: CallerRecord| c@),
                    paths: old(paths)@.map_values(|p: ImpactPath| p@),
                };
                let rs = incoming(self.edges(), node as int);
                holds_walk(
                    visit_all(self.nodes(), s0, rs, texts(path@), depth as int, rs.len() as int),
                    final(visited)@,
                    final(next)@,
                    final(callers)@,
                    final(paths)@,
                )
            }),
            forall|q: int| 0 <= q < final(next)@.len() ==> (#[trigger] final(next)@[q]).0 < self.nodes().len(),
    {
        let ghost s0 = WalkState {
            visited: visited@.dom(),
            level: level_view(next@),
            callers: callers@.map_values(|c: CallerRecord| c@),
            paths: paths@.map_values(|p: ImpactPath| p@),
        };
        let ghost pv = texts(path@);
        let ghost nodes = self.nodes();
        assert(graph_nodes(self.graph).len() == nodes.len());
        let rs = incoming_neighbors(&self.graph, node);
        let ghost rv = incoming(self.edges(), node as int);
        proof {
            lemma_incoming_in_range(self.edges(), node as int, self.edges().len() as int, nodes.len() as int);
        }
        let mut t: usize = 0;
        while t < rs.len()
            invariant
                t <= rs.len(),
                self.wf(),
                nodes == self.nodes(),
                graph_nodes(self.graph).len() == nodes.len(),
                pv == texts(path@),
                rs@.map_values(|i: usize| i as int) == rv,
                rv == incoming(self.edges(), node as int),
                forall|q: int| 0 <= q < rv.len() ==> 0 <= #[trigger] rv[q] < nodes.len(),
                holds_walk(visit_all(nodes, s0, rv, pv, depth as int, t as int), visited@, next@, callers@, paths@),
                forall|q: int| 0 <= q < next@.len() ==> (#[trigger] next@[q]).0 < nodes.len(),
            decreases rs.len() - t,
        {
            let r = rs[t];
            proof {
                assert(rv[t as int] == r as int);
            }
            let ghost prev = visit_all(nodes, s0, rv, pv, depth as int, t as int);
            let r_key = self.node_key_of(r);
            if !visited.contains_key(r_key.as_str()) {
                let ghost (old_next, old_callers, old_paths) = (next@, callers@, paths@);
                visited.insert(r_key.clone(), true);
                let mut new_path = crate::text::copy_strings(path);
                new_path.push(r_key);
                let info = node_at(&self.graph, r);
                let record = CallerRecord {
                    symbol: info.name.clone(),
                    kind: info.kind.clone(),
                    file: info.file.clone(),
                    line_start: info.line_start,
                    line_end: info.line_end,
                    depth,
                };
                callers.push(record);
                paths.push(ImpactPath { path: crate::text::copy_strings(&new_path) });
                proof {
                    assert(texts(new_path@) =~= pv.push(key_of_node(nodes[r as int])));
                }
                next.push((r, new_path));
                proof {
                    assert(nodes[r as int] == graph_nodes(self.graph)[r as int]@);
                    assert(visited@.dom() =~= prev.visited.insert(key_of_node(nodes[r as int])));
                    assert(level_view(next@) =~= level_view(old_next).push((r as int, pv.push(key_of_node(nodes[r as int])))));
                    assert(callers@.map_values(|c: CallerRecord| c@) =~= old_callers.map_values(|c: CallerRecord| c@).push(caller_of(nodes[r as int], depth as int)));
                    assert(paths@.map_values(|p: ImpactPath| p@) =~= old_paths.map_values(|p: ImpactPath| p@).push(pv.push(key_of_node(nodes[r as int]))));
                }
            }
            t = t + 1;
        }
    }

    /// Reach, at depth `depth`, the nodes with an edge into the entries of
    /// `frontier`, entry by entry; returns the nodes reached.
    fn expand_level(
        &self,
        frontier: &Vec<(usize, Vec<String>)>,
        depth: usize,
        visited: &mut StringHashMap<bool>,
        callers: &mut Vec<CallerRecord>,
        paths: &mut Vec<ImpactPath>,
    ) -> (next: Vec<(usize, Vec<String>)>)
        requires
            self.wf(),
            forall|q: int| 0 <= q < frontier@.len() ==> (#[trigger] frontier@[q]).0 < self.nodes().len(),
        ensures
            ({
                let s0 = WalkState {
                    visited: old(visited)@.dom(),
                    level: Seq::empty(),
                    callers: old(callers)@.map_values(|c: CallerRecord| c@),
                    paths: old(paths)@.map_values(|p: ImpactPath| p@),
                };
                holds_walk(
                    expand_upto(self.nodes(), self.edges(), s0, level_view(frontier@), depth as int, frontier@.len() as int),
                    final(visited)@,
                    next@,
                    final(callers)@,
                    final(paths)@,
                )
            }),
            forall|q: int| 0 <= q < next@.len() ==> (#[trigger] next@[q]).0 < self.nodes().len(),
    {
        let ghost s0 = WalkState {
            visited: visited@.dom(),
            level: Seq::empty(),
            callers: callers@.map_values(|c: CallerRecord| c@),
            paths: paths@.map_values(|p: ImpactPath| p@),
        };
        let ghost fv = level_view(frontier@);
        let mut next: Vec<(usize, Vec<String>)> = Vec::new();
        assert(level_view(next@) =~= Seq::<(int, Seq<Seq<char>>)>::empty());
        let mut j: usize = 0;
        while j < frontier.len()
            invariant
                j <= frontier.len(),
                self.wf(),
                fv == level_view(frontier@),
                forall|q: int| 0 <= q < frontier@.len() ==> (#[trigger] frontier@[q]).0 < self.nodes().len(),
                holds_walk(expand_upto(self.nodes(), self.edges(), s0, fv, depth as int, j as int), visited@, next@, callers@, paths@),
                forall|q: int| 0 <= q < next@.len() ==> (#[trigger] next@[q]).0 < self.nodes().len(),
            decreases frontier.len() - j,
        {
            proof {
                assert(fv[j as int] == (frontier@[j as int].0 as int, texts(frontier@[j as int].1@)));
            }
            self.visit_neighbors(frontier[j].0, &frontier[j].1, depth, visited, &mut next, callers, paths);
            j = j + 1;
        }
        next
    }

    /// Whether `callers` and `paths` are those of the walk from the node of
    /// key `key` after `max_depth` levels, in ascending order.
    pub open spec fn walk_sorted(&self, key: Seq<char>, max_depth: nat, callers: Seq<CallerRecord>, paths: Seq<ImpactPath>) -> bool {
        let w = walk(self.nodes(), self.edges(), key, self.key_index()[key] as int, max_depth);
        &&& callers.map_values(|c: CallerRecord| c@).to_multiset() == w.callers.to_multiset()
        &&& forall|i: int, j: int| 0 <= i < j < callers.len() ==> caller_le(#[trigger] callers[i]@, #[trigger] callers[j]@)
        &&& paths.map_values(|p: ImpactPath| p@).to_multiset() == w.paths.to_multiset()
        &&& forall|i: int, j: int| 0 <= i < j < paths.len() ==> path_le(#[trigger] paths[i]@, #[trigger] paths[j]@)
    }

    /// Bounded breadth-first walk over reverse edges: who references `key`,
    /// transitively, up to `max_depth` hops. Each key is reached once, at its
    /// first level, along the first path found; callers come ordered by
    /// depth, file, first line and name, paths by length, then
    /// lexicographically.
    pub fn downstream(&self, key: &str, max_depth: usize) -> (r: (Vec<CallerRecord>, Vec<ImpactPath>))
        requires
            self.wf(),
            self.key_index().contains_key(key@),
        ensures
            self.walk_sorted(key@, max_depth as nat, r.0@, r.1@),
    {
        let start: usize = match self.keys.get(key) {
            Some(x) => *x,
            None => 0,
        };
        let ghost nodes = self.nodes();
        let ghost edges = self.edges();
        proof {
            assert(is_last_with_key(nodes, key@, start as int));
        }
        let mut visited: StringHashMap<bool> = StringHashMap::new();
        visited.insert(String::from_str(key), true);
        let mut first_path: Vec<String> = Vec::new();
        first_path.push(String::from_str(key));
        assert(texts(first_path@) =~= seq![key@]);
        let mut frontier: Vec<(usize, Vec<String>)> = Vec::new();
        frontier.push((start, first_path));
        let mut callers: Vec<CallerRecord> = Vec::new();
        let mut paths: Vec<ImpactPath> = Vec::new();
        proof {
            let w0 = walk(nodes, edges, key@, start as int, 0);
            assert(visited@.dom() =~= w0.visited);
            assert(level_view(frontier@)[0] == w0.level[0]);
            assert(level_view(frontier@) =~= w0.level);
            assert(callers@.map_values(|c: CallerRecord| c@) =~= w0.callers);
            assert(paths@.map_values(|p: ImpactPath| p@) =~= w0.paths);
        }
        let mut done: usize = 0;
        while done < max_depth
            invariant
                done <= max_depth,
                self.wf(),
                nodes == self.nodes(),
                edges == self.edges(),
                holds_walk(walk(nodes, edges, key@, start as int, done as nat), visited@, frontier@, callers@, paths@),
                forall|q: int| 0 <= q < frontier@.len() ==> (#[trigger] frontier@[q]).0 < nodes.len(),
            decreases max_depth - done,
        {
            let depth = done + 1;
            let next = self.expand_level(&frontier, depth, &mut visited, &mut callers, &mut paths);
            frontier = next;
            done = depth;
            if frontier.len() == 0 {
                proof {
                    lemma_walk_stable(nodes, edges, key@, start as int, done as nat, max_depth as nat);
                }
                done = max_depth;
            }
        }
        let ghost cv = callers@;
        let ghost pv = paths@;
        let callers = crate::order::sort(callers);
        let paths = crate::order::sort(paths);
        proof {
            crate::order::lemma_map_multiset_by(callers@, cv, |c: CallerRecord| c@);
            crate::order::lemma_map_multiset_by(paths@, pv, |p: ImpactPath| p@);
            assert forall|i: int, j: int| 0 <= i < j < callers@.len() implies caller_le(#[trigger] callers@[i]@, #[trigger] callers@[j]@) by {
                assert((|a: CallerRecord, b: CallerRecord| <CallerRecord as KeyOrder>::le(a, b))(callers@[i], callers@[j]));
            }
            assert forall|i: int, j: int| 0 <= i < j < paths@.len() implies path_le(#[trigger] paths@[i]@, #[trigger] paths@[j]@) by {
                assert((|a: ImpactPath, b: ImpactPath| <ImpactPath as KeyOrder>::le(a, b))(paths@[i], paths@[j]));
            }
        }
        (callers, paths)
    }
}


impl SymbolGraph {
    /// The downstream walk is sound: each caller it reports is reached from
    /// the queried key along a path of keys, one hop per level, so that its
    /// depth is the number of hops; each hop goes from a symbol to one that
    /// references it; no key is reported twice, and the queried key never.
    pub proof fn lemma_walk_paths(&self, key: Seq<char>, max_depth: nat)
        requires
            self.wf(),
            self.key_index().contains_key(key),
        ensures
            ({
                let w = walk(self.nodes(), self.edges(), key, self.key_index()[key] as int, max_depth);
                &&& w.callers.len() == w.paths.len()
                &&& forall|i: int| 0 <= i < w.callers.len() ==> caller_ok(self.nodes(), self.edges(), key, #[trigger] w.callers[i], w.paths[i], max_depth as int)
                &&& forall|i: int, j: int| 0 <= i < j < w.paths.len() ==> (#[trigger] w.paths[i]).last() != (#[trigger] w.paths[j]).last()
            }),
    {
        let start = self.key_index()[key] as int;
        assert(is_last_with_key(self.nodes(), key, start));
        lemma_walk_inv(self.nodes(), self.edges(), key, start, max_depth);
    }

    /// Downstream answers are deterministic: any two callers lists and any
    /// two path lists that the walk from `key` over `max_depth` levels allows
    /// are the same.
    pub proof fn lemma_downstream_deterministic(
        &self,
        key: Seq<char>,
        max_depth: nat,
        c1: Seq<CallerRecord>,
        p1: Seq<ImpactPath>,
        c2: Seq<CallerRecord>,
        p2: Seq<ImpactPath>,
    )
        requires
            self.wf(),
            self.key_index().contains_key(key),
            self.walk_sorted(key, max_depth, c1, p1),
            self.walk_sorted(key, max_depth, c2, p2),
        ensures
            c1.map_values(|c: CallerRecord| c@) == c2.map_values(|c: CallerRecord| c@),
            p1.map_values(|p: ImpactPath| p@) == p2.map_values(|p: ImpactPath| p@),
    {
        broadcast use vstd::seq_lib::group_to_multiset_ensures;
        self.lemma_walk_paths(key, max_depth);
        let w = walk(self.nodes(), self.edges(), key, self.key_index()[key] as int, max_depth);
        let a = c1.map_values(|c: CallerRecord| c@);
        let b = c2.map_values(|c: CallerRecord| c@);
        let cle = |x: CallerView, y: CallerView| caller_le(x, y);
        assert forall|i: int, j: int| 0 <= i < j < a.len() implies cle(#[trigger] a[i], #[trigger] a[j]) by {
            assert(caller_le(c1[i]@, c1[j]@));
        }
        assert forall|i: int, j: int| 0 <= i < j < b.len() implies cle(#[trigger] b[i], #[trigger] b[j]) by {
            assert(caller_le(c2[i]@, c2[j]@));
        }
        assert forall|x: CallerView, y: CallerView| a.contains(x) && a.contains(y) && cle(x, y) && cle(y, x) implies x == y by {
            assert(a.to_multiset().count(x) > 0 && a.to_multiset().count(y) > 0);
            assert(w.callers.contains(x) && w.callers.contains(y));
            let i = choose|i: int| 0 <= i < w.callers.len() && w.callers[i] == x;
            let j = choose|j: int| 0 <= j < w.callers.len() && w.callers[j] == y;
            crate::refs::lemma_caller_le_antisym(x, y);
            assert(caller_ok(self.nodes(), self.edges(), key, w.callers[i], w.paths[i], max_depth as int));
            assert(caller_ok(self.nodes(), self.edges(), key, w.callers[j], w.paths[j], max_depth as int));
            if i < j {
                assert(w.paths[i].last() != w.paths[j].last());
            } else if j < i {
                assert(w.paths[j].last() != w.paths[i].last());
            }
        }
        crate::order::lemma_sorted_same_elements(a, b, cle);
        let pa = p1.map_values(|p: ImpactPath| p@);
        let pb = p2.map_values(|p: ImpactPath| p@);
        let ple = |x: Seq<Seq<char>>, y: Seq<Seq<char>>| path_le(x, y);
        assert forall|i: int, j: int| 0 <= i < j < pa.len() implies ple(#[trigger] pa[i], #[trigger] pa[j]) by {
            assert(path_le(p1[i]@, p1[j]@));
        }
        assert forall|i: int, j: int| 0 <= i < j < pb.len() implies ple(#[trigger] pb[i], #[trigger] pb[j]) by {
            assert(path_le(p2[i]@, p2[j]@));
        }
        assert forall|x: Seq<Seq<char>>, y: Seq<Seq<char>>| pa.contains(x) && pa.contains(y) && ple(x, y) && ple(y, x) implies x == y by {
            crate::refs::lemma_path_le_antisym(x, y);
        }
        crate::order::lemma_sorted_same_elements(pa, pb, ple);
    }
}


impl SymbolGraph {
    /// The downstream walk is complete and exact in depth: a key other than
    /// the queried one is reported if and only if it is reached within
    /// `max_depth` hops, each from a symbol to one that references it; and
    /// no reported caller is reached in fewer hops than its depth, so the
    /// depth is its hop distance.
    pub proof fn lemma_walk_complete(&self, key: Seq<char>, max_depth: nat)
        requires
            self.wf(),
            self.key_index().contains_key(key),
        ensures
            ({
                let w = walk(self.nodes(), self.edges(), key, self.key_index()[key] as int, max_depth);
                &&& forall|k: Seq<char>| k != key ==> (within(self.nodes(), self.edges(), key, k, max_depth as int)
                    <==> exists|i: int| 0 <= i < w.paths.len() && (#[trigger] w.paths[i]).last() == k)
                &&& forall|i: int, n: int| 0 <= i < w.callers.len() && 0 <= n < (#[trigger] w.callers[i]).depth
                    ==> !#[trigger] reaches(self.nodes(), self.edges(), key, w.paths[i].last(), n)
            }),
    {
        let start = self.key_index()[key] as int;
        assert(is_last_with_key(self.nodes(), key, start));
        lemma_walk_inv(self.nodes(), self.edges(), key, start, max_depth);
        lemma_walk_levels(self.nodes(), self.edges(), key, start, max_depth);
        let w = walk(self.nodes(), self.edges(), key, start, max_depth);
        assert forall|k: Seq<char>| k != key implies (within(self.nodes(), self.edges(), key, k, max_depth as int)
            <==> exists|i: int| 0 <= i < w.paths.len() && (#[trigger] w.paths[i]).last() == k) by {
            assert(w.visited.contains(k) <==> within(self.nodes(), self.edges(), key, k, max_depth as int));
        }
    }
}


/// Every node of an identifier kind (`identifier`, `field_identifier`,
/// `type_identifier`, `property_identifier`,
/// `shorthand_property_identifier` or `variable_name`) whose text can be read
/// is an identifier occurrence, with that text as its name, its span and its
/// 1-based line.
pub proof fn lemma_identifier_nodes_are_sites(nodes: Seq<SyntaxNode>, src: Seq<u8>, i: int, n: int)
    requires
        0 <= i < n <= nodes.len(),
        nodes[i].kind@ == "identifier"@ || nodes[i].kind@ == "field_identifier"@ || nodes[i].kind@
            == "type_identifier"@ || nodes[i].kind@ == "property_identifier"@ || nodes[i].kind@
            == "shorthand_property_identifier"@ || nodes[i].kind@ == "variable_name"@,
        text_at(src, nodes[i].start_byte as int, nodes[i].end_byte as int) is Some,
    ensures
        sites_upto(nodes, src, n).contains(
            SiteView {
                name: text_at(src, nodes[i].start_byte as int, nodes[i].end_byte as int)->Some_0,
                byte_start: nodes[i].start_byte as int,
                byte_end: nodes[i].end_byte as int,
                line: nodes[i].start_row + 1,
            },
        ),
    decreases n,
{
    let x = SiteView {
        name: text_at(src, nodes[i].start_byte as int, nodes[i].end_byte as int)->Some_0,
        byte_start: nodes[i].start_byte as int,
        byte_end: nodes[i].end_byte as int,
        line: nodes[i].start_row + 1,
    };
    let prev = sites_upto(nodes, src, n - 1);
    if n - 1 == i {
        assert(site_at(nodes, src, i) == Some(x));
        assert(sites_upto(nodes, src, n)[prev.len() as int] == x);
    } else {
        lemma_identifier_nodes_are_sites(nodes, src, i, n - 1);
        let k = choose|k: int| 0 <= k < prev.len() && prev[k] == x;
        match site_at(nodes, src, n - 1) {
            Some(y) => {
                assert(prev.push(y)[k] == x);
            },
            None => {},
        }
    }
}

/// Identifier occurrences come only from nodes of an identifier kind: each
/// is the readable text, span and 1-based line of such a node.
pub proof fn lemma_sites_are_identifier_nodes(nodes: Seq<SyntaxNode>, src: Seq<u8>, n: int, x: SiteView)
    requires
        0 <= n <= nodes.len(),
        sites_upto(nodes, src, n).contains(x),
    ensures
        exists|i: int|
            0 <= i < n && (#[trigger] nodes[i].kind@ == "identifier"@ || nodes[i].kind@ == "field_identifier"@
                || nodes[i].kind@ == "type_identifier"@ || nodes[i].kind@ == "property_identifier"@
                || nodes[i].kind@ == "shorthand_property_identifier"@ || nodes[i].kind@ == "variable_name"@)
                && text_at(src, nodes[i].start_byte as int, nodes[i].end_byte as int) == Some(x.name)
                && x.byte_start == nodes[i].start_byte && x.byte_end == nodes[i].end_byte && x.line
                == nodes[i].start_row + 1,
    decreases n,
{
    let prev = sites_upto(nodes, src, n - 1);
    let k = choose|k: int| 0 <= k < sites_upto(nodes, src, n).len() && sites_upto(nodes, src, n)[k] == x;
    match site_at(nodes, src, n - 1) {
        Some(y) => {
            if k == prev.len() {
                assert(y == x);
                assert(nodes[n - 1].kind@ == "identifier"@ || nodes[n - 1].kind@ == "field_identifier"@
                    || nodes[n - 1].kind@ == "type_identifier"@ || nodes[n - 1].kind@ == "property_identifier"@
                    || nodes[n - 1].kind@ == "shorthand_property_identifier"@ || nodes[n - 1].kind@
                    == "variable_name"@);
            } else {
                assert(prev[k] == x);
                lemma_sites_are_identifier_nodes(nodes, src, n - 1, x);
            }
        },
        None => {
            assert(prev[k] == x);
            lemma_sites_are_identifier_nodes(nodes, src, n - 1, x);
        },
    }
}

/// A declaration references exactly the keys, other than its own, whose
/// name part names an identifier occurrence lying within the declaration's
/// byte span but outside its name.
pub proof fn lemma_references_lie_in_body(
    dom: Set<Seq<char>>,
    s: SymbolView,
    sites: Seq<SiteView>,
    own: Seq<char>,
    k: Seq<char>,
)
    ensures
        ref_set(dom, s, sites, own).contains(k) <==> (dom.contains(k) && k != own && exists|j: int|
            0 <= j < sites.len() && s.start_byte <= (#[trigger] sites[j]).byte_start && sites[j].byte_end
                <= s.end_byte && !(s.name_start_byte <= sites[j].byte_start && sites[j].byte_end
                <= s.name_end_byte) && sites[j].name == name_part(k)),
{
}

/// The edges of a declaration lead from its own node to the nodes of the
/// keys it references: each edge's target is the node of a key, other than
/// its own, whose name part names an identifier occurrence lying within the
/// declaration's byte span but outside its name.
pub proof fn lemma_edges_from_body_references(
    m: Map<Seq<char>, usize>,
    file: Seq<char>,
    s: SymbolView,
    sites: Seq<SiteView>,
    q: int,
)
    requires
        m.dom().finite(),
        0 <= q < symbol_edges(m, file, s, sites).len(),
    ensures
        exists|k: Seq<char>|
            #![trigger m[k]]
            m.contains_key(k) && k != key_spec(file, s.name) && symbol_edges(m, file, s, sites)[q] == (
            m[key_spec(file, s.name)] as int, m[k] as int) && exists|j: int|
                0 <= j < sites.len() && s.start_byte <= (#[trigger] sites[j]).byte_start && sites[j].byte_end
                    <= s.end_byte && !(s.name_start_byte <= sites[j].byte_start && sites[j].byte_end
                    <= s.name_end_byte) && sites[j].name == name_part(k),
{
    let own = key_spec(file, s.name);
    let rs = ref_set(m.dom(), s, sites, own);
    assert(rs.subset_of(m.dom()));
    vstd::set_lib::lemma_set_subset_finite(m.dom(), rs);
    crate::order::lemma_sorted_listing_exists(rs);
    let v = sorted_list(rs);
    assert(texts_strictly_sorted(v) && v.to_set() == rs);
    let k = v[q];
    assert(v.to_set().contains(k));
    assert(rs.contains(k));
    lemma_references_lie_in_body(m.dom(), s, sites, own, k);
    assert(symbol_edges(m, file, s, sites)[q] == (m[own] as int, m[k] as int));
}
} // verus!
