//! The breadth-first walk over reverse edges behind downstream queries:
//! its definition level by level, and what it reaches.
//!
//! The walk starts at one node and, level by level, reaches the nodes with an
//! edge into the nodes reached last, each key once, along the first path found.
//! Its soundness (every reported path follows edges backwards, one hop per
//! level) and its completeness (exactly the keys within the depth are reached,
//! each at its hop distance) are proved here over the graph's nodes and edges.

use vstd::prelude::*;

use crate::graph::{edge_ends_last, incoming, incoming_upto, is_last_with_key, key_of_node, key_spec, NodeView};
use crate::refs::{CallerRecord, CallerView, ImpactPath};
use crate::text::texts;

verus! {

/// The state of the breadth-first walk over reverse edges.
pub struct WalkState {
    /// The keys reached so far.
    pub visited: Set<Seq<char>>,
    /// The nodes reached last, each with the path of keys that reached it.
    pub level: Seq<(int, Seq<Seq<char>>)>,
    /// A record of each node reached, with its depth.
    pub callers: Seq<CallerView>,
    /// The path of keys that reached each node.
    pub paths: Seq<Seq<Seq<char>>>,
}

/// The caller record of node `n` reached at depth `depth`.
pub open spec fn caller_of(n: NodeView, depth: int) -> CallerView {
    CallerView {
        symbol: n.name,
        kind: n.kind,
        file: n.file,
        line_start: n.line_start,
        line_end: n.line_end,
        depth,
    }
}

/// Reach node `r` along `path` at depth `depth`, unless its key was
/// reached before.
pub open spec fn visit(nodes: Seq<NodeView>, s: WalkState, r: int, path: Seq<Seq<char>>, depth: int) -> WalkState {
    let rk = key_of_node(nodes[r]);
    if s.visited.contains(rk) {
        s
    } else {
        WalkState {
            visited: s.visited.insert(rk),
            level: s.level.push((r, path.push(rk))),
            callers: s.callers.push(caller_of(nodes[r], depth)),
            paths: s.paths.push(path.push(rk)),
        }
    }
}

/// Reach the first `k` of the nodes `rs`, in order.
pub open spec fn visit_all(nodes: Seq<NodeView>, s: WalkState, rs: Seq<int>, path: Seq<Seq<char>>, depth: int, k: int) -> WalkState
    decreases k,
{
    if k <= 0 {
        s
    } else {
        visit(nodes, visit_all(nodes, s, rs, path, depth, k - 1), rs[k - 1], path, depth)
    }
}

/// Reach, at depth `depth`, the nodes with an edge into the first `j`
/// entries of `frontier`, entry by entry.
pub open spec fn expand_upto(
    nodes: Seq<NodeView>,
    edges: Seq<(int, int)>,
    s: WalkState,
    frontier: Seq<(int, Seq<Seq<char>>)>,
    depth: int,
    j: int,
) -> WalkState
    decreases j,
{
    if j <= 0 {
        s
    } else {
        let prev = expand_upto(nodes, edges, s, frontier, depth, j - 1);
        let rs = incoming(edges, frontier[j - 1].0);
        visit_all(nodes, prev, rs, frontier[j - 1].1, depth, rs.len() as int)
    }
}

/// The walk from node `start` with key `key` after `d` levels.
pub open spec fn walk(nodes: Seq<NodeView>, edges: Seq<(int, int)>, key: Seq<char>, start: int, d: nat) -> WalkState
    decreases d,
{
    if d == 0 {
        WalkState {
            visited: set![key],
            level: seq![(start, seq![key])],
            callers: Seq::empty(),
            paths: Seq::empty(),
        }
    } else {
        let p = walk(nodes, edges, key, start, (d - 1) as nat);
        expand_upto(
            nodes,
            edges,
            WalkState { visited: p.visited, level: Seq::empty(), callers: p.callers, paths: p.paths },
            p.level,
            d as int,
            p.level.len() as int,
        )
    }
}

/// Frontier entries as mathematical values.
pub open spec fn level_view(v: Seq<(usize, Vec<String>)>) -> Seq<(int, Seq<Seq<char>>)> {
    v.map_values(|e: (usize, Vec<String>)| (e.0 as int, texts(e.1@)))
}

/// Whether the walk state `w` is held by these values.
pub open spec fn holds_walk(
    w: WalkState,
    visited: Map<Seq<char>, bool>,
    level: Seq<(usize, Vec<String>)>,
    callers: Seq<CallerRecord>,
    paths: Seq<ImpactPath>,
) -> bool {
    &&& visited.dom() == w.visited
    &&& level_view(level) == w.level
    &&& callers.map_values(|c: CallerRecord| c@) == w.callers
    &&& paths.map_values(|p: ImpactPath| p@) == w.paths
}

/// The sources of incoming edges lie among the nodes.
pub proof fn lemma_incoming_in_range(edges: Seq<(int, int)>, n: int, k: int, bound: int)
    requires
        0 <= k <= edges.len(),
        forall|q: int| 0 <= q < edges.len() ==> 0 <= (#[trigger] edges[q]).0 < bound,
    ensures
        forall|q: int| 0 <= q < incoming_upto(edges, n, k).len() ==> 0 <= #[trigger] incoming_upto(edges, n, k)[q] < bound,
    decreases k,
{
    if k > 0 {
        lemma_incoming_in_range(edges, n, k - 1, bound);
        let rest = incoming_upto(edges, n, k - 1);
        if edges[k - 1].1 == n {
            assert forall|q: int| 0 <= q < incoming_upto(edges, n, k).len() implies 0 <= #[trigger] incoming_upto(edges, n, k)[q] < bound by {
                if q > 0 {
                    assert(incoming_upto(edges, n, k)[q] == rest[q - 1]);
                }
            }
        }
    }
}

/// An empty level stays empty and changes nothing.
pub proof fn lemma_walk_stable(nodes: Seq<NodeView>, edges: Seq<(int, int)>, key: Seq<char>, start: int, d: nat, m: nat)
    requires
        walk(nodes, edges, key, start, d).level.len() == 0,
        d <= m,
    ensures
        walk(nodes, edges, key, start, m) == walk(nodes, edges, key, start, d),
    decreases m - d,
{
    if d < m {
        let p = walk(nodes, edges, key, start, d);
        assert(walk(nodes, edges, key, start, (d + 1) as nat) == WalkState { visited: p.visited, level: Seq::empty(), callers: p.callers, paths: p.paths });
        assert(p.level =~= Seq::<(int, Seq<Seq<char>>)>::empty());
        lemma_walk_stable(nodes, edges, key, start, (d + 1) as nat, m);
    }
}

/// Whether some edge goes from a node with key `from` to a node with key
/// `to`: the symbol `from` references the symbol `to`.
pub open spec fn has_edge_between(nodes: Seq<NodeView>, edges: Seq<(int, int)>, from: Seq<char>, to: Seq<char>) -> bool {
    exists|e: int|
        0 <= e < edges.len() && 0 <= edges[e].0 < nodes.len() && 0 <= edges[e].1 < nodes.len() && key_of_node(
            nodes[#[trigger] edges[e].0],
        ) == from && key_of_node(nodes[edges[e].1]) == to
}

/// Whether each key of `path` after the first references the key before
/// it: the path follows edges backwards.
pub open spec fn reverse_walk(nodes: Seq<NodeView>, edges: Seq<(int, int)>, path: Seq<Seq<char>>) -> bool
    decreases path.len(),
{
    if path.len() <= 1 {
        true
    } else {
        reverse_walk(nodes, edges, path.drop_last()) && has_edge_between(nodes, edges, path.last(), path[path.len() - 2])
    }
}

/// Whether `path` starts at `key` and follows edges backwards.
pub open spec fn path_from(nodes: Seq<NodeView>, edges: Seq<(int, int)>, key: Seq<char>, path: Seq<Seq<char>>) -> bool {
    &&& path.len() >= 1
    &&& path[0] == key
    &&& reverse_walk(nodes, edges, path)
}

/// Whether the caller record `c`, reached along `path` by a walk from `key`
/// of at most `depth` levels, is sound: its depth is the number of hops of
/// its path, which starts at `key`, follows edges backwards and ends at the
/// caller's own key, another than `key`.
pub open spec fn caller_ok(
    nodes: Seq<NodeView>,
    edges: Seq<(int, int)>,
    key: Seq<char>,
    c: CallerView,
    path: Seq<Seq<char>>,
    depth: int,
) -> bool {
    &&& 1 <= c.depth <= depth
    &&& path.len() == c.depth + 1
    &&& path_from(nodes, edges, key, path)
    &&& path.last() == key_spec(c.file, c.symbol)
    &&& path.last() != key
}

/// Whether a level entry reached at level `depth` is sound.
pub open spec fn entry_ok(nodes: Seq<NodeView>, edges: Seq<(int, int)>, key: Seq<char>, e: (int, Seq<Seq<char>>), depth: int) -> bool {
    &&& 0 <= e.0 < nodes.len()
    &&& path_from(nodes, edges, key, e.1)
    &&& key_of_node(nodes[e.0]) == e.1.last()
    &&& is_last_with_key(nodes, e.1.last(), e.0)
    &&& e.1.len() == depth + 1
}

/// What every state of the walk from `key`, at level `depth`, keeps.
pub open spec fn walk_inv(nodes: Seq<NodeView>, edges: Seq<(int, int)>, key: Seq<char>, s: WalkState, depth: int) -> bool {
    &&& s.callers.len() == s.paths.len()
    &&& forall|i: int| 0 <= i < s.callers.len() ==> caller_ok(nodes, edges, key, #[trigger] s.callers[i], s.paths[i], depth)
    &&& forall|i: int, j: int| 0 <= i < j < s.paths.len() ==> (#[trigger] s.paths[i]).last() != (#[trigger] s.paths[j]).last()
    &&& forall|k: Seq<char>| #[trigger] s.visited.contains(k) <==> (k == key || exists|i: int| 0 <= i < s.paths.len() && (#[trigger] s.paths[i]).last() == k)
    &&& forall|i: int| 0 <= i < s.level.len() ==> entry_ok(nodes, edges, key, #[trigger] s.level[i], depth)
}

/// Each source listed by [`incoming_upto`] has an edge into `n`.
proof fn lemma_incoming_edge(edges: Seq<(int, int)>, n: int, k: int, q: int)
    requires
        0 <= k <= edges.len(),
        0 <= q < incoming_upto(edges, n, k).len(),
    ensures
        exists|e: int| 0 <= e < k && #[trigger] edges[e] == (incoming_upto(edges, n, k)[q], n),
    decreases k,
{
    let rest = incoming_upto(edges, n, k - 1);
    if edges[k - 1].1 == n {
        if q == 0 {
            assert(edges[k - 1] == (incoming_upto(edges, n, k)[q], n));
        } else {
            assert(incoming_upto(edges, n, k)[q] == rest[q - 1]);
            lemma_incoming_edge(edges, n, k - 1, q - 1);
        }
    } else {
        lemma_incoming_edge(edges, n, k - 1, q);
    }
}

/// Reaching one node keeps the walk sound.
proof fn lemma_visit_inv(
    nodes: Seq<NodeView>,
    edges: Seq<(int, int)>,
    key: Seq<char>,
    s: WalkState,
    f: (int, Seq<Seq<char>>),
    r: int,
    depth: int,
)
    requires
        walk_inv(nodes, edges, key, s, depth),
        entry_ok(nodes, edges, key, f, depth - 1),
        0 <= r < nodes.len(),
        is_last_with_key(nodes, key_of_node(nodes[r]), r),
        has_edge_between(nodes, edges, key_of_node(nodes[r]), f.1.last()),
    ensures
        walk_inv(nodes, edges, key, visit(nodes, s, r, f.1, depth), depth),
{
    let rk = key_of_node(nodes[r]);
    if !s.visited.contains(rk) {
        let t = visit(nodes, s, r, f.1, depth);
        let p = f.1.push(rk);
        assert(p.drop_last() =~= f.1);
        assert(p[p.len() - 2] == f.1.last());
        assert(reverse_walk(nodes, edges, p));
        assert(p[0] == key);
        assert(t.paths == s.paths.push(p));
        assert(t.callers == s.callers.push(caller_of(nodes[r], depth)));
        assert(caller_ok(nodes, edges, key, caller_of(nodes[r], depth), p, depth));
        assert forall|i: int| 0 <= i < t.callers.len() implies caller_ok(nodes, edges, key, #[trigger] t.callers[i], t.paths[i], depth) by {
            if i < s.callers.len() {
                assert(t.callers[i] == s.callers[i] && t.paths[i] == s.paths[i]);
            }
        }
        assert forall|i: int, j: int| 0 <= i < j < t.paths.len() implies (#[trigger] t.paths[i]).last() != (#[trigger] t.paths[j]).last() by {
            if j == s.paths.len() {
                assert(t.paths[i] == s.paths[i]);
                assert(s.visited.contains(s.paths[i].last()));
            } else {
                assert(t.paths[i] == s.paths[i] && t.paths[j] == s.paths[j]);
            }
        }
        assert forall|k: Seq<char>| #[trigger] t.visited.contains(k) <==> (k == key || exists|i: int| 0 <= i < t.paths.len() && (#[trigger] t.paths[i]).last() == k) by {
            if k == rk {
                assert(t.paths[s.paths.len() as int].last() == k);
            }
            if exists|i: int| 0 <= i < t.paths.len() && (#[trigger] t.paths[i]).last() == k {
                let i = choose|i: int| 0 <= i < t.paths.len() && (#[trigger] t.paths[i]).last() == k;
                if i < s.paths.len() {
                    assert(t.paths[i] == s.paths[i]);
                }
            }
            if s.visited.contains(k) && k != key {
                let i = choose|i: int| 0 <= i < s.paths.len() && (#[trigger] s.paths[i]).last() == k;
                assert(t.paths[i] == s.paths[i]);
            }
        }
        assert forall|i: int| 0 <= i < t.level.len() implies entry_ok(nodes, edges, key, #[trigger] t.level[i], depth) by {
            if i < s.level.len() {
                assert(t.level[i] == s.level[i]);
            } else {
                assert(t.level[i] == (r, p));
            }
        }
    }
}

/// Reaching the first `k` of the nodes `rs`, each with an edge into the
/// node of the frontier entry `f`, keeps the walk sound.
proof fn lemma_visit_all_inv(
    nodes: Seq<NodeView>,
    edges: Seq<(int, int)>,
    key: Seq<char>,
    s: WalkState,
    rs: Seq<int>,
    f: (int, Seq<Seq<char>>),
    depth: int,
    k: int,
)
    requires
        walk_inv(nodes, edges, key, s, depth),
        entry_ok(nodes, edges, key, f, depth - 1),
        k <= rs.len(),
        forall|q: int| 0 <= q < rs.len() ==> 0 <= #[trigger] rs[q] < nodes.len() && has_edge_between(nodes, edges, key_of_node(nodes[rs[q]]), f.1.last()) && is_last_with_key(nodes, key_of_node(nodes[rs[q]]), rs[q]),
    ensures
        walk_inv(nodes, edges, key, visit_all(nodes, s, rs, f.1, depth, k), depth),
    decreases k,
{
    if k > 0 {
        lemma_visit_all_inv(nodes, edges, key, s, rs, f, depth, k - 1);
        assert(0 <= rs[k - 1] < nodes.len());
        lemma_visit_inv(nodes, edges, key, visit_all(nodes, s, rs, f.1, depth, k - 1), f, rs[k - 1], depth);
    }
}

/// Expanding a sound frontier keeps the walk sound.
proof fn lemma_expand_inv(
    nodes: Seq<NodeView>,
    edges: Seq<(int, int)>,
    key: Seq<char>,
    s: WalkState,
    frontier: Seq<(int, Seq<Seq<char>>)>,
    depth: int,
    j: int,
)
    requires
        walk_inv(nodes, edges, key, s, depth),
        forall|q: int| 0 <= q < frontier.len() ==> entry_ok(nodes, edges, key, #[trigger] frontier[q], depth - 1),
        forall|q: int| 0 <= q < edges.len() ==> 0 <= (#[trigger] edges[q]).0 < nodes.len() && 0 <= edges[q].1 < nodes.len(),
        forall|q: int| 0 <= q < edges.len() ==> edge_ends_last(nodes, #[trigger] edges[q]),
        j <= frontier.len(),
    ensures
        walk_inv(nodes, edges, key, expand_upto(nodes, edges, s, frontier, depth, j), depth),
    decreases j,
{
    if j > 0 {
        lemma_expand_inv(nodes, edges, key, s, frontier, depth, j - 1);
        let f = frontier[j - 1];
        let rs = incoming(edges, f.0);
        assert(entry_ok(nodes, edges, key, f, depth - 1));
        lemma_incoming_in_range(edges, f.0, edges.len() as int, nodes.len() as int);
        assert forall|q: int| 0 <= q < rs.len() implies 0 <= #[trigger] rs[q] < nodes.len() && has_edge_between(nodes, edges, key_of_node(nodes[rs[q]]), f.1.last()) && is_last_with_key(nodes, key_of_node(nodes[rs[q]]), rs[q]) by {
            lemma_incoming_edge(edges, f.0, edges.len() as int, q);
            let e = choose|e: int| 0 <= e < edges.len() && #[trigger] edges[e] == (rs[q], f.0);
            assert(edges[e].0 == rs[q]);
            assert(edge_ends_last(nodes, edges[e]));
        }
        lemma_visit_all_inv(nodes, edges, key, expand_upto(nodes, edges, s, frontier, depth, j - 1), rs, f, depth, rs.len() as int);
    }
}

/// Every state of the walk from the node `start` with key `key` is sound.
pub proof fn lemma_walk_inv(nodes: Seq<NodeView>, edges: Seq<(int, int)>, key: Seq<char>, start: int, d: nat)
    requires
        is_last_with_key(nodes, key, start),
        forall|q: int| 0 <= q < edges.len() ==> 0 <= (#[trigger] edges[q]).0 < nodes.len() && 0 <= edges[q].1 < nodes.len(),
        forall|q: int| 0 <= q < edges.len() ==> edge_ends_last(nodes, #[trigger] edges[q]),
    ensures
        walk_inv(nodes, edges, key, walk(nodes, edges, key, start, d), d as int),
    decreases d,
{
    if d == 0 {
        let w = walk(nodes, edges, key, start, 0);
        assert(entry_ok(nodes, edges, key, w.level[0], 0));
        assert forall|k: Seq<char>| #[trigger] w.visited.contains(k) <==> (k == key || exists|i: int| 0 <= i < w.paths.len() && (#[trigger] w.paths[i]).last() == k) by {}
    } else {
        lemma_walk_inv(nodes, edges, key, start, (d - 1) as nat);
        let p = walk(nodes, edges, key, start, (d - 1) as nat);
        let s0 = WalkState { visited: p.visited, level: Seq::empty(), callers: p.callers, paths: p.paths };
        assert forall|i: int| 0 <= i < s0.callers.len() implies caller_ok(nodes, edges, key, #[trigger] s0.callers[i], s0.paths[i], d as int) by {
            assert(caller_ok(nodes, edges, key, p.callers[i], p.paths[i], d - 1));
        }
        assert(walk_inv(nodes, edges, key, s0, d as int));
        lemma_expand_inv(nodes, edges, key, s0, p.level, d as int, p.level.len() as int);
    }
}

/// Whether key `k` is reached from `key` in `n` hops, each from a symbol to
/// one that references it.
pub open spec fn reaches(nodes: Seq<NodeView>, edges: Seq<(int, int)>, key: Seq<char>, k: Seq<char>, n: int) -> bool {
    exists|p: Seq<Seq<char>>| #[trigger] path_from(nodes, edges, key, p) && p.len() == n + 1 && p.last() == k
}

/// Whether key `k` is reached from `key` in at most `d` hops.
pub open spec fn within(nodes: Seq<NodeView>, edges: Seq<(int, int)>, key: Seq<char>, k: Seq<char>, d: int) -> bool {
    exists|n: int| 0 <= n <= d && #[trigger] reaches(nodes, edges, key, k, n)
}

/// The keys of the entries of a level.
pub open spec fn level_keys(level: Seq<(int, Seq<Seq<char>>)>) -> Set<Seq<char>> {
    Set::new(|k: Seq<char>| exists|i: int| 0 <= i < level.len() && (#[trigger] level[i]).1.last() == k)
}

/// The keys of the first `k` of the nodes `rs`.
pub open spec fn keys_of_nodes(nodes: Seq<NodeView>, rs: Seq<int>, k: int) -> Set<Seq<char>>
    decreases k,
{
    if k <= 0 {
        Set::empty()
    } else {
        keys_of_nodes(nodes, rs, k - 1).insert(key_of_node(nodes[rs[k - 1]]))
    }
}

/// The keys of the nodes with an edge into the first `j` entries of
/// `frontier`.
pub open spec fn next_keys(nodes: Seq<NodeView>, edges: Seq<(int, int)>, frontier: Seq<(int, Seq<Seq<char>>)>, j: int) -> Set<Seq<char>>
    decreases j,
{
    if j <= 0 {
        Set::empty()
    } else {
        let rs = incoming(edges, frontier[j - 1].0);
        next_keys(nodes, edges, frontier, j - 1).union(keys_of_nodes(nodes, rs, rs.len() as int))
    }
}

proof fn lemma_keys_of_nodes_has(nodes: Seq<NodeView>, rs: Seq<int>, k: int, q: int)
    requires
        0 <= q < k,
    ensures
        keys_of_nodes(nodes, rs, k).contains(key_of_node(nodes[rs[q]])),
    decreases k,
{
    if q < k - 1 {
        lemma_keys_of_nodes_has(nodes, rs, k - 1, q);
    }
}

proof fn lemma_keys_of_nodes_from(nodes: Seq<NodeView>, rs: Seq<int>, k: int, x: Seq<char>)
    requires
        keys_of_nodes(nodes, rs, k).contains(x),
    ensures
        exists|q: int| 0 <= q < k && key_of_node(nodes[#[trigger] rs[q]]) == x,
    decreases k,
{
    if k > 0 && x != key_of_node(nodes[rs[k - 1]]) {
        lemma_keys_of_nodes_from(nodes, rs, k - 1, x);
    }
}

proof fn lemma_next_keys_has(nodes: Seq<NodeView>, edges: Seq<(int, int)>, frontier: Seq<(int, Seq<Seq<char>>)>, j: int, q: int, t: int)
    requires
        0 <= q < j,
        0 <= t < incoming(edges, frontier[q].0).len(),
    ensures
        next_keys(nodes, edges, frontier, j).contains(key_of_node(nodes[incoming(edges, frontier[q].0)[t]])),
    decreases j,
{
    if q < j - 1 {
        lemma_next_keys_has(nodes, edges, frontier, j - 1, q, t);
    } else {
        let rs = incoming(edges, frontier[q].0);
        lemma_keys_of_nodes_has(nodes, rs, rs.len() as int, t);
    }
}

proof fn lemma_next_keys_from(nodes: Seq<NodeView>, edges: Seq<(int, int)>, frontier: Seq<(int, Seq<Seq<char>>)>, j: int, x: Seq<char>)
    requires
        next_keys(nodes, edges, frontier, j).contains(x),
    ensures
        exists|q: int, t: int|
            0 <= q < j && 0 <= t < incoming(edges, frontier[q].0).len() && key_of_node(
                nodes[#[trigger] incoming(edges, frontier[q].0)[t]],
            ) == x,
    decreases j,
{
    if j > 0 {
        let rs = incoming(edges, frontier[j - 1].0);
        if keys_of_nodes(nodes, rs, rs.len() as int).contains(x) {
            lemma_keys_of_nodes_from(nodes, rs, rs.len() as int, x);
            let t = choose|t: int| 0 <= t < rs.len() && key_of_node(nodes[#[trigger] rs[t]]) == x;
            assert(key_of_node(nodes[incoming(edges, frontier[j - 1].0)[t]]) == x);
        } else {
            lemma_next_keys_from(nodes, edges, frontier, j - 1, x);
        }
    }
}

/// What reaching the first `k` of the nodes `rs` adds to a walk state.
proof fn lemma_visit_all_sets(nodes: Seq<NodeView>, s: WalkState, rs: Seq<int>, path: Seq<Seq<char>>, depth: int, k: int)
    requires
        0 <= k <= rs.len(),
        s.callers.len() == s.paths.len(),
    ensures
        ({
            let t = visit_all(nodes, s, rs, path, depth, k);
            &&& t.visited == s.visited.union(keys_of_nodes(nodes, rs, k))
            &&& level_keys(t.level) == level_keys(s.level).union(keys_of_nodes(nodes, rs, k).difference(s.visited))
            &&& t.callers.len() == t.paths.len()
            &&& t.callers.len() >= s.callers.len()
            &&& forall|i: int| 0 <= i < s.callers.len() ==> t.callers[i] == s.callers[i] && t.paths[i] == s.paths[i]
            &&& forall|i: int| s.callers.len() <= i < t.callers.len() ==> (#[trigger] t.callers[i]).depth == depth && !s.visited.contains(t.paths[i].last())
        }),
    decreases k,
{
    if k > 0 {
        lemma_visit_all_sets(nodes, s, rs, path, depth, k - 1);
        let u = visit_all(nodes, s, rs, path, depth, k - 1);
        let t = visit_all(nodes, s, rs, path, depth, k);
        let r = rs[k - 1];
        let rk = key_of_node(nodes[r]);
        assert(t.visited =~= s.visited.union(keys_of_nodes(nodes, rs, k)));
        if !u.visited.contains(rk) {
            assert(t.level == u.level.push((r, path.push(rk))));
            assert(level_keys(t.level) =~= level_keys(u.level).insert(rk)) by {
                assert forall|x: Seq<char>| level_keys(t.level).contains(x) <==> level_keys(u.level).insert(rk).contains(x) by {
                    if level_keys(t.level).contains(x) {
                        let i = choose|i: int| 0 <= i < t.level.len() && (#[trigger] t.level[i]).1.last() == x;
                        if i < u.level.len() {
                            assert(t.level[i] == u.level[i]);
                        }
                    }
                    if level_keys(u.level).contains(x) {
                        let i = choose|i: int| 0 <= i < u.level.len() && (#[trigger] u.level[i]).1.last() == x;
                        assert(t.level[i] == u.level[i]);
                    }
                    if x == rk {
                        assert(t.level[u.level.len() as int].1.last() == rk);
                    }
                }
            }
            assert(level_keys(t.level) =~= level_keys(s.level).union(keys_of_nodes(nodes, rs, k).difference(s.visited)));
            assert(t.paths[u.paths.len() as int].last() == rk);
        } else {
            assert(level_keys(t.level) =~= level_keys(s.level).union(keys_of_nodes(nodes, rs, k).difference(s.visited)));
        }
    }
}

/// What expanding the first `j` entries of `frontier` adds to a walk
/// state.
proof fn lemma_expand_sets(
    nodes: Seq<NodeView>,
    edges: Seq<(int, int)>,
    s: WalkState,
    frontier: Seq<(int, Seq<Seq<char>>)>,
    depth: int,
    j: int,
)
    requires
        0 <= j <= frontier.len(),
        s.callers.len() == s.paths.len(),
    ensures
        ({
            let t = expand_upto(nodes, edges, s, frontier, depth, j);
            &&& t.visited == s.visited.union(next_keys(nodes, edges, frontier, j))
            &&& level_keys(t.level) == level_keys(s.level).union(next_keys(nodes, edges, frontier, j).difference(s.visited))
            &&& t.callers.len() == t.paths.len()
            &&& t.callers.len() >= s.callers.len()
            &&& forall|i: int| 0 <= i < s.callers.len() ==> t.callers[i] == s.callers[i] && t.paths[i] == s.paths[i]
            &&& forall|i: int| s.callers.len() <= i < t.callers.len() ==> (#[trigger] t.callers[i]).depth == depth && !s.visited.contains(t.paths[i].last())
        }),
    decreases j,
{
    if j > 0 {
        lemma_expand_sets(nodes, edges, s, frontier, depth, j - 1);
        let u = expand_upto(nodes, edges, s, frontier, depth, j - 1);
        let rs = incoming(edges, frontier[j - 1].0);
        lemma_visit_all_sets(nodes, u, rs, frontier[j - 1].1, depth, rs.len() as int);
        let t = expand_upto(nodes, edges, s, frontier, depth, j);
        let tv = visit_all(nodes, u, rs, frontier[j - 1].1, depth, rs.len() as int);
        assert(t == tv);
        assert(t.visited =~= s.visited.union(next_keys(nodes, edges, frontier, j)));
        assert(level_keys(t.level) =~= level_keys(s.level).union(next_keys(nodes, edges, frontier, j).difference(s.visited)));
        assert forall|i: int| s.callers.len() <= i < t.callers.len() implies (#[trigger] t.callers[i]).depth == depth && !s.visited.contains(t.paths[i].last()) by {
            if i >= u.callers.len() {
                assert(tv.callers[i].depth == depth);
                assert(!u.visited.contains(tv.paths[i].last()));
            } else {
                assert(t.callers[i] == u.callers[i] && t.paths[i] == u.paths[i]);
            }
        }
    }
}

/// Extending a path by a key that references its end reaches one hop
/// further.
proof fn lemma_reaches_step(nodes: Seq<NodeView>, edges: Seq<(int, int)>, key: Seq<char>, p: Seq<Seq<char>>, k: Seq<char>)
    requires
        path_from(nodes, edges, key, p),
        has_edge_between(nodes, edges, k, p.last()),
    ensures
        path_from(nodes, edges, key, p.push(k)),
        reaches(nodes, edges, key, k, p.len() as int),
{
    let q = p.push(k);
    assert(q.drop_last() =~= p);
    assert(q[q.len() - 2] == p.last());
    assert(q[0] == key);
    assert(q.last() == k);
}

/// A key reached in `n + 1` hops is referencing one reached in `n`.
proof fn lemma_reaches_back(nodes: Seq<NodeView>, edges: Seq<(int, int)>, key: Seq<char>, k: Seq<char>, n: int)
    requires
        n >= 0,
        reaches(nodes, edges, key, k, n + 1),
    ensures
        exists|k2: Seq<char>| #[trigger] reaches(nodes, edges, key, k2, n) && has_edge_between(nodes, edges, k, k2),
{
    let p = choose|p: Seq<Seq<char>>| #[trigger] path_from(nodes, edges, key, p) && p.len() == n + 2 && p.last() == k;
    let q = p.drop_last();
    assert(path_from(nodes, edges, key, q));
    assert(q.last() == p[p.len() - 2]);
    assert(reaches(nodes, edges, key, q.last(), n));
}

/// The keys reached in no hop: `key` alone.
proof fn lemma_reaches_zero(nodes: Seq<NodeView>, edges: Seq<(int, int)>, key: Seq<char>, k: Seq<char>)
    ensures
        reaches(nodes, edges, key, k, 0) <==> k == key,
{
    if k == key {
        assert(path_from(nodes, edges, key, seq![key]));
    }
}

/// An edge given by key ends into the last node of its target key comes
/// from a source that `incoming` lists.
proof fn lemma_edge_incoming(edges: Seq<(int, int)>, e: int, k: int)
    requires
        0 <= e < k <= edges.len(),
    ensures
        exists|t: int| 0 <= t < incoming_upto(edges, edges[e].1, k).len() && #[trigger] incoming_upto(edges, edges[e].1, k)[t] == edges[e].0,
    decreases k,
{
    let n = edges[e].1;
    if e == k - 1 {
        assert(incoming_upto(edges, n, k) == seq![edges[e].0] + incoming_upto(edges, n, k - 1));
        assert(incoming_upto(edges, n, k)[0] == edges[e].0);
    } else {
        lemma_edge_incoming(edges, e, k - 1);
        let t = choose|t: int| 0 <= t < incoming_upto(edges, n, k - 1).len() && #[trigger] incoming_upto(edges, n, k - 1)[t] == edges[e].0;
        if edges[k - 1].1 == n {
            assert(incoming_upto(edges, n, k)[t + 1] == edges[e].0);
        } else {
            assert(incoming_upto(edges, n, k)[t] == edges[e].0);
        }
    }
}

/// The walk after `d` levels has reached exactly the keys within `d` hops;
/// its last level holds exactly the keys first reached at hop `d`; and each
/// caller's key is reached in no fewer hops than its depth.
pub proof fn lemma_walk_levels(nodes: Seq<NodeView>, edges: Seq<(int, int)>, key: Seq<char>, start: int, d: nat)
    requires
        is_last_with_key(nodes, key, start),
        forall|q: int| 0 <= q < edges.len() ==> 0 <= (#[trigger] edges[q]).0 < nodes.len() && 0 <= edges[q].1 < nodes.len(),
        forall|q: int| 0 <= q < edges.len() ==> edge_ends_last(nodes, #[trigger] edges[q]),
    ensures
        ({
            let w = walk(nodes, edges, key, start, d);
            &&& forall|k: Seq<char>| #[trigger] w.visited.contains(k) <==> within(nodes, edges, key, k, d as int)
            &&& forall|k: Seq<char>| #[trigger] level_keys(w.level).contains(k) <==> (reaches(nodes, edges, key, k, d as int) && !within(nodes, edges, key, k, d - 1))
            &&& forall|i: int, n: int| 0 <= i < w.callers.len() && 0 <= n < (#[trigger] w.callers[i]).depth ==> !#[trigger] reaches(nodes, edges, key, w.paths[i].last(), n)
        }),
    decreases d,
{
    lemma_walk_inv(nodes, edges, key, start, d);
    let w = walk(nodes, edges, key, start, d);
    if d == 0 {
        assert forall|k: Seq<char>| #[trigger] w.visited.contains(k) <==> within(nodes, edges, key, k, d as int) by {
            lemma_reaches_zero(nodes, edges, key, k);
            if within(nodes, edges, key, k, 0) {
                let n = choose|n: int| 0 <= n <= 0 && #[trigger] reaches(nodes, edges, key, k, n);
            }
        }
        assert forall|k: Seq<char>| #[trigger] level_keys(w.level).contains(k) <==> (reaches(nodes, edges, key, k, d as int) && !within(nodes, edges, key, k, d - 1)) by {
            lemma_reaches_zero(nodes, edges, key, k);
            if k == key {
                assert(w.level[0].1.last() == k);
            }
        }
    } else {
        lemma_walk_levels(nodes, edges, key, start, (d - 1) as nat);
        lemma_walk_inv(nodes, edges, key, start, (d - 1) as nat);
        let p = walk(nodes, edges, key, start, (d - 1) as nat);
        let s0 = WalkState { visited: p.visited, level: Seq::empty(), callers: p.callers, paths: p.paths };
        lemma_expand_sets(nodes, edges, s0, p.level, d as int, p.level.len() as int);
        let nk = next_keys(nodes, edges, p.level, p.level.len() as int);
        assert(level_keys(s0.level) =~= Set::<Seq<char>>::empty());
        // Keys added at this level are reached in `d` hops.
        assert forall|x: Seq<char>| nk.contains(x) implies reaches(nodes, edges, key, x, d as int) by {
            lemma_next_keys_from(nodes, edges, p.level, p.level.len() as int, x);
            let (q, t) = choose|q: int, t: int|
                0 <= q < p.level.len() && 0 <= t < incoming(edges, p.level[q].0).len() && key_of_node(
                    nodes[#[trigger] incoming(edges, p.level[q].0)[t]],
                ) == x;
            let e = p.level[q];
            assert(entry_ok(nodes, edges, key, e, d - 1));
            lemma_incoming_edge(edges, e.0, edges.len() as int, t);
            let ei = choose|ei: int| 0 <= ei < edges.len() && #[trigger] edges[ei] == (incoming(edges, e.0)[t], e.0);
            assert(edges[ei].0 == incoming(edges, e.0)[t]);
            assert(has_edge_between(nodes, edges, x, e.1.last()));
            lemma_reaches_step(nodes, edges, key, e.1, x);
        }
        // Keys first reached at hop `d` are added at this level.
        assert forall|x: Seq<char>| reaches(nodes, edges, key, x, d as int) && !within(nodes, edges, key, x, d - 1) implies nk.contains(x) by {
            lemma_reaches_back(nodes, edges, key, x, d - 1);
            let k2 = choose|k2: Seq<char>| #[trigger] reaches(nodes, edges, key, k2, d - 1) && has_edge_between(nodes, edges, x, k2);
            if within(nodes, edges, key, k2, d - 2) {
                let n = choose|n: int| 0 <= n <= d - 2 && #[trigger] reaches(nodes, edges, key, k2, n);
                let pp = choose|pp: Seq<Seq<char>>| #[trigger] path_from(nodes, edges, key, pp) && pp.len() == n + 1 && pp.last() == k2;
                lemma_reaches_step(nodes, edges, key, pp, x);
                assert(reaches(nodes, edges, key, x, n + 1));
                assert(false);
            }
            assert(level_keys(p.level).contains(k2));
            let i = choose|i: int| 0 <= i < p.level.len() && (#[trigger] p.level[i]).1.last() == k2;
            let e = p.level[i];
            assert(entry_ok(nodes, edges, key, e, d - 1));
            let ei = choose|ei: int|
                0 <= ei < edges.len() && 0 <= edges[ei].0 < nodes.len() && 0 <= edges[ei].1 < nodes.len() && key_of_node(
                    nodes[#[trigger] edges[ei].0],
                ) == x && key_of_node(nodes[edges[ei].1]) == k2;
            assert(edge_ends_last(nodes, edges[ei]));
            assert(edges[ei].1 == e.0) by {
                let a = edges[ei].1;
                if a < e.0 {
                    assert(key_of_node(nodes[e.0]) == k2);
                } else if a > e.0 {
                    assert(key_of_node(nodes[a]) == k2);
                }
            }
            lemma_edge_incoming(edges, ei, edges.len() as int);
            let t = choose|t: int| 0 <= t < incoming(edges, e.0).len() && #[trigger] incoming(edges, e.0)[t] == edges[ei].0;
            lemma_next_keys_has(nodes, edges, p.level, p.level.len() as int, i, t);
        }
        assert forall|k: Seq<char>| #[trigger] w.visited.contains(k) <==> within(nodes, edges, key, k, d as int) by {
            if within(nodes, edges, key, k, d as int) {
                let n = choose|n: int| 0 <= n <= d && #[trigger] reaches(nodes, edges, key, k, n);
                if n < d {
                    assert(within(nodes, edges, key, k, d - 1));
                } else if !within(nodes, edges, key, k, d - 1) {
                    assert(nk.contains(k));
                }
            }
            if nk.contains(k) {
                assert(reaches(nodes, edges, key, k, d as int));
            }
            if p.visited.contains(k) {
                let n = choose|n: int| 0 <= n <= d - 1 && #[trigger] reaches(nodes, edges, key, k, n);
            }
        }
        assert forall|k: Seq<char>| #[trigger] level_keys(w.level).contains(k) <==> (reaches(nodes, edges, key, k, d as int) && !within(nodes, edges, key, k, d - 1)) by {
            if reaches(nodes, edges, key, k, d as int) && !within(nodes, edges, key, k, d - 1) {
                assert(nk.contains(k));
                assert(!p.visited.contains(k));
            }
        }
        assert forall|i: int, n: int| 0 <= i < w.callers.len() && 0 <= n < (#[trigger] w.callers[i]).depth implies !#[trigger] reaches(nodes, edges, key, w.paths[i].last(), n) by {
            if i < p.callers.len() {
                assert(w.callers[i] == p.callers[i] && w.paths[i] == p.paths[i]);
            } else {
                assert(w.callers[i].depth == d);
                assert(!p.visited.contains(w.paths[i].last()));
                if reaches(nodes, edges, key, w.paths[i].last(), n) {
                    assert(within(nodes, edges, key, w.paths[i].last(), d - 1));
                }
            }
        }
    }
}

} // verus!
