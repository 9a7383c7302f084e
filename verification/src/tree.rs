//! Codebase map: a structured directory tree of the indexed repository.

use vstd::prelude::*;

use crate::order::{
    dedup_strings, lemma_dedup_sorted, lemma_map_multiset, lemma_sorted_texts, sort, text_lt,
    texts_strictly_sorted,
};
use crate::index::FileRecord;
use crate::text::{chars_of, copy_strings, str_eq, string_of, texts};
use vstd::string::StringExecFns;

verus! {

/// Errors from building the codebase map.
#[derive(Debug)]
pub enum TreeError {
    /// Listing the repository's files failed; holds the reason.
    Io(String),
}

impl TreeError {
    /// The error's message.
    pub fn message(&self) -> (s: String)
        ensures
            s@ == match self {
                TreeError::Io(m) => m@,
            },
    {
        match self {
            TreeError::Io(m) => m.clone(),
        }
    }
}

/// Kind of a node in the codebase map.
#[derive(Debug, Clone, Copy, PartialEq, Eq, Structural)]
pub enum MapNodeKind {
    Dir,
    File,
}

/// A node in the structured codebase map.
///
/// `children` holds the expanded entries of a directory. When `max_depth`
/// prevents a directory from being expanded, `collapsed_entries` reports how
/// many entries it contains so callers can represent truncation explicitly.
#[derive(Debug)]
pub struct MapNode {
    pub name: String,
    pub path: String,
    pub kind: MapNodeKind,
    pub children: Vec<MapNode>,
    pub collapsed_entries: Option<usize>,
}

impl MapNode {
    /// A directory node with no entries shown.
    fn dir(name: &str, path: &str) -> (n: MapNode)
        ensures
            n.name@ == name@,
            n.path@ == path@,
            n.kind == MapNodeKind::Dir,
            n.children@.len() == 0,
            n.collapsed_entries is None,
    {
        MapNode {
            name: name.to_owned(),
            path: path.to_owned(),
            kind: MapNodeKind::Dir,
            children: Vec::new(),
            collapsed_entries: None,
        }
    }

    /// A file node.
    fn file(name: &str, path: &str) -> (n: MapNode)
        ensures
            n.name@ == name@,
            n.path@ == path@,
            n.kind == MapNodeKind::File,
            n.children@.len() == 0,
            n.collapsed_entries is None,
    {
        MapNode {
            name: name.to_owned(),
            path: path.to_owned(),
            kind: MapNodeKind::File,
            children: Vec::new(),
            collapsed_entries: None,
        }
    }

    /// A copy of the map, entry for entry, to every depth.
    fn copy(&self) -> (c: MapNode)
        ensures
            forall|k: nat| #[trigger] same_map(*self, c, k),
        decreases self,
    {
        let mut children: Vec<MapNode> = Vec::new();
        let mut i: usize = 0;
        while i < self.children.len()
            invariant
                i <= self.children.len(),
                children@.len() == i,
                forall|j: int, k: nat| 0 <= j < i ==> #[trigger] same_map(self.children@[j], children@[j], k),
            decreases self.children.len() - i,
        {
            proof {
                assert(decreases_to!(self.children => self.children@));
                assert(decreases_to!(self.children@ => self.children@[i as int]));
            }
            let child = self.children[i].copy();
            children.push(child);
            i = i + 1;
        }
        let c = MapNode {
            name: self.name.clone(),
            path: self.path.clone(),
            kind: self.kind,
            children,
            collapsed_entries: self.collapsed_entries,
        };
        assert forall|k: nat| #[trigger] same_map(*self, c, k) by {
            if k > 0 {
                assert forall|j: int| 0 <= j < self.children@.len() implies same_map(
                    #[trigger] self.children@[j],
                    c.children@[j],
                    (k - 1) as nat,
                ) by {
                    assert(same_map(self.children@[j], children@[j], (k - 1) as nat));
                }
            }
        }
        c
    }
}

impl Clone for MapNode {
    fn clone(&self) -> (c: MapNode)
        ensures
            forall|k: nat| #[trigger] same_map(*self, c, k),
    {
        self.copy()
    }
}

/// Scanning state after reading `s`: the pieces closed by a `/` and the
/// piece in progress.
pub open spec fn split_scan(s: Seq<char>) -> (Seq<Seq<char>>, Seq<char>)
    decreases s.len(),
{
    if s.len() == 0 {
        (Seq::empty(), Seq::empty())
    } else {
        let (done, cur) = split_scan(s.drop_last());
        if s.last() == '/' {
            (done.push(cur), Seq::empty())
        } else {
            (done, cur.push(s.last()))
        }
    }
}

/// The `/`-separated components of `path` (std's `str::split('/')`).
pub open spec fn components(path: Seq<char>) -> Seq<Seq<char>> {
    let (done, cur) = split_scan(path);
    done.push(cur)
}

/// The `/`-separated components of `path`.
fn split_path(path: &String) -> (r: Vec<String>)
    ensures
        r@.map_values(|s: String| s@) == components(path@),
{
    let v = chars_of(path.as_str());
    let mut done: Vec<String> = Vec::new();
    let mut cur: Vec<char> = Vec::new();
    let mut i: usize = 0;
    while i < v.len()
        invariant
            i <= v.len(),
            v@ == path@,
            done@.map_values(|s: String| s@) == split_scan(v@.take(i as int)).0,
            cur@ == split_scan(v@.take(i as int)).1,
        decreases v.len() - i,
    {
        proof {
            assert(v@.take(i + 1).drop_last() =~= v@.take(i as int));
        }
        if v[i] == '/' {
            let ghost before = done@;
            done.push(string_of(cur.as_slice()));
            assert(done@.map_values(|s: String| s@) =~= before.map_values(|s: String| s@).push(cur@));
            cur = Vec::new();
        } else {
            cur.push(v[i]);
        }
        i = i + 1;
    }
    assert(v@.take(v.len() as int) =~= v@);
    let ghost before = done@;
    done.push(string_of(cur.as_slice()));
    assert(done@.map_values(|s: String| s@) =~= before.map_values(|s: String| s@).push(cur@));
    done
}

/// Whether `s` begins with the components `p`.
pub open spec fn starts_with_all(s: Seq<Seq<char>>, p: Seq<Seq<char>>) -> bool {
    p.len() <= s.len() && s.subrange(0, p.len() as int) == p
}

/// Whether the entry at components `p` is a directory: the root always is;
/// otherwise the first file (in listing order) under or at `p` decides — a
/// directory when that file lies strictly below `p`.
pub open spec fn is_dir_at(fs: Seq<Seq<Seq<char>>>, p: Seq<Seq<char>>) -> bool {
    p.len() == 0 || forall|i: int|
        #![trigger fs[i]]
        0 <= i < fs.len() && starts_with_all(fs[i], p) && (forall|j: int|
            0 <= j < i ==> !starts_with_all(#[trigger] fs[j], p)) ==> fs[i].len() > p.len()
}

/// The names of the entries directly inside the entry at components `p`.
pub open spec fn entry_names(fs: Seq<Seq<Seq<char>>>, p: Seq<Seq<char>>) -> Set<Seq<char>> {
    Set::new(
        |c: Seq<char>|
            exists|i: int| 0 <= i < fs.len() && #[trigger] starts_with_all(fs[i], p.push(c)),
    )
}

/// The path shown for the entry at components `p`: `.` for the root, a
/// child of `.` by its bare name, any other child as `parent/name`.
pub open spec fn path_at(p: Seq<Seq<char>>) -> Seq<char>
    decreases p.len(),
{
    if p.len() == 0 {
        "."@
    } else {
        let parent = path_at(p.drop_last());
        if parent == "."@ {
            p.last()
        } else {
            parent + "/"@ + p.last()
        }
    }
}

/// The name shown for the entry at components `p`.
pub open spec fn name_at(p: Seq<Seq<char>>) -> Seq<char> {
    if p.len() == 0 {
        "."@
    } else {
        p.last()
    }
}

/// Whether `n` is the map of the entry at components `p`, `depth` levels
/// below the root, of the tree of files `fs`, expanded to `max_depth` levels.
pub open spec fn map_of(n: MapNode, fs: Seq<Seq<Seq<char>>>, p: Seq<Seq<char>>, depth: int, max_depth: int) -> bool
    decreases max_depth - depth,
{
    &&& n.name@ == name_at(p)
    &&& n.path@ == path_at(p)
    &&& if !is_dir_at(fs, p) {
        &&& n.kind == MapNodeKind::File
        &&& n.children@.len() == 0
        &&& n.collapsed_entries is None
    } else if depth < max_depth {
        &&& n.kind == MapNodeKind::Dir
        &&& n.collapsed_entries is None
        &&& forall|i: int, j: int|
            0 <= i < j < n.children@.len() ==> text_lt(
                #[trigger] n.children@[i].name@,
                #[trigger] n.children@[j].name@,
            )
        &&& forall|c: Seq<char>|
            entry_names(fs, p).contains(c) <==> exists|i: int|
                0 <= i < n.children@.len() && #[trigger] n.children@[i].name@ == c
        &&& forall|i: int|
            0 <= i < n.children@.len() ==> map_of(
                #[trigger] n.children@[i],
                fs,
                p.push(n.children@[i].name@),
                depth + 1,
                max_depth,
            )
    } else {
        &&& n.kind == MapNodeKind::Dir
        &&& n.children@.len() == 0
        &&& n.collapsed_entries == if entry_names(fs, p).len() > 0 {
            Some(entry_names(fs, p).len() as usize)
        } else {
            None::<usize>
        }
    }
}

/// The components of each path of `files`.
pub open spec fn components_of(files: Seq<String>) -> Seq<Seq<Seq<char>>> {
    files.map_values(|f: String| components(f@))
}


/// The components of every file, as texts.
pub open spec fn comps_view(fs: Seq<Vec<String>>) -> Seq<Seq<Seq<char>>> {
    fs.map_values(|v: Vec<String>| texts(v@))
}

/// Whether `m` lists, in increasing order, exactly the files of `fs` lying
/// at or under components `p`.
pub open spec fn exact_members(fs: Seq<Seq<Seq<char>>>, p: Seq<Seq<char>>, m: Seq<usize>) -> bool {
    &&& forall|k: int| 0 <= k < m.len() ==> #[trigger] m[k] < fs.len() && starts_with_all(fs[m[k] as int], p)
    &&& forall|k: int, l: int| 0 <= k < l < m.len() ==> #[trigger] m[k] < #[trigger] m[l]
    &&& forall|i: int| 0 <= i < fs.len() && #[trigger] starts_with_all(fs[i], p) ==> m.contains(i as usize)
}

proof fn lemma_starts_with_push(f: Seq<Seq<char>>, p: Seq<Seq<char>>, c: Seq<char>)
    ensures
        starts_with_all(f, p.push(c)) <==> (starts_with_all(f, p) && f.len() > p.len() && f[p.len() as int] == c),
{
    if starts_with_all(f, p.push(c)) {
        assert(f.subrange(0, p.len() as int) =~= f.subrange(0, p.len() as int + 1).drop_last());
        assert(p.push(c).drop_last() =~= p);
        assert(f.subrange(0, p.len() as int + 1)[p.len() as int] == c);
    }
    if starts_with_all(f, p) && f.len() > p.len() && f[p.len() as int] == c {
        assert(f.subrange(0, p.len() as int + 1) =~= f.subrange(0, p.len() as int).push(c));
    }
}

/// The names of the entries directly inside the entry whose files are
/// `members`, in strictly ascending order.
fn entry_names_of(fs: &Vec<Vec<String>>, members: &Vec<usize>, plen: usize, Ghost(p): Ghost<Seq<Seq<char>>>) -> (names: Vec<String>)
    requires
        p.len() == plen,
        exact_members(comps_view(fs@), p, members@),
    ensures
        texts_strictly_sorted(texts(names@)),
        forall|c: Seq<char>| #[trigger] entry_names(comps_view(fs@), p).contains(c) <==> texts(names@).contains(c),
{
    let ghost fv = comps_view(fs@);
    let mut raw: Vec<String> = Vec::new();
    let mut k: usize = 0;
    while k < members.len()
        invariant
            k <= members.len(),
            p.len() == plen,
            fv == comps_view(fs@),
            exact_members(fv, p, members@),
            forall|c: Seq<char>| texts(raw@).contains(c) <==> exists|l: int|
                0 <= l < k && #[trigger] starts_with_all(fv[members@[l] as int], p.push(c)),
        decreases members.len() - k,
    {
        let m = members[k];
        assert(m < fs.len());
        assert(fv[m as int] == texts(fs@[m as int]@));
        let ghost before = raw@;
        if fs[m].len() > plen {
            raw.push(fs[m][plen].clone());
            assert(texts(raw@) =~= texts(before).push(fv[m as int][plen as int]));
        }
        proof {
            assert forall|c: Seq<char>| texts(raw@).contains(c) <==> exists|l: int|
                0 <= l < k + 1 && #[trigger] starts_with_all(fv[members@[l] as int], p.push(c)) by {
                lemma_starts_with_push(fv[m as int], p, c);
                if texts(raw@).contains(c) && !texts(before).contains(c) {
                    let q = choose|q: int| 0 <= q < texts(raw@).len() && texts(raw@)[q] == c;
                    assert(q == texts(before).len());
                    assert(starts_with_all(fv[members@[k as int] as int], p.push(c)));
                }
                if texts(before).contains(c) {
                    let q = choose|q: int| 0 <= q < texts(before).len() && texts(before)[q] == c;
                    assert(texts(raw@)[q] == c);
                }
                if exists|l: int| 0 <= l < k + 1 && #[trigger] starts_with_all(fv[members@[l] as int], p.push(c)) {
                    let l = choose|l: int| 0 <= l < k + 1 && #[trigger] starts_with_all(fv[members@[l] as int], p.push(c));
                    if l == k {
                        assert(texts(raw@)[texts(raw@).len() - 1] == c);
                    }
                }
            }
        }
        k = k + 1;
    }
    let ghost raw_v = raw@;
    let n_files = fs.len();
    let sorted = sort(raw);
    proof {
        lemma_sorted_texts(sorted@);
        lemma_map_multiset(sorted@, raw_v);
        lemma_dedup_sorted(texts(sorted@));
    }
    let names = dedup_strings(sorted);
    proof {
        assert forall|c: Seq<char>| #[trigger] entry_names(fv, p).contains(c) <==> texts(names@).contains(c) by {
            broadcast use vstd::seq_lib::group_to_multiset_ensures;
            assert(texts(sorted@).contains(c) <==> texts(raw_v).contains(c)) by {
                assert(texts(sorted@).to_multiset().count(c) == texts(raw_v).to_multiset().count(c));
            }
            if entry_names(fv, p).contains(c) {
                let i = choose|i: int| 0 <= i < fv.len() && #[trigger] starts_with_all(fv[i], p.push(c));
                assert(i < n_files);
                lemma_starts_with_push(fv[i], p, c);
                assert(members@.contains(i as usize));
                let l = choose|l: int| 0 <= l < members@.len() && members@[l] == i as usize;
                assert(starts_with_all(fv[members@[l] as int], p.push(c)));
            }
            if texts(raw_v).contains(c) {
                let l = choose|l: int| 0 <= l < members@.len() && #[trigger] starts_with_all(fv[members@[l] as int], p.push(c));
                assert(starts_with_all(fv[members@[l] as int], p.push(c)));
            }
        }
    }
    names
}

/// The members of the entry named `c` inside the entry whose members are
/// `members`.
fn sub_members(fs: &Vec<Vec<String>>, members: &Vec<usize>, plen: usize, c: &String, Ghost(p): Ghost<Seq<Seq<char>>>) -> (sub: Vec<usize>)
    requires
        p.len() == plen,
        exact_members(comps_view(fs@), p, members@),
    ensures
        exact_members(comps_view(fs@), p.push(c@), sub@),
{
    let ghost fv = comps_view(fs@);
    let mut sub: Vec<usize> = Vec::new();
    let mut k: usize = 0;
    while k < members.len()
        invariant
            k <= members.len(),
            p.len() == plen,
            fv == comps_view(fs@),
            exact_members(fv, p, members@),
            forall|q: int| 0 <= q < sub@.len() ==> #[trigger] sub@[q] < fv.len() && starts_with_all(fv[sub@[q] as int], p.push(c@)),
            forall|q: int, r: int| 0 <= q < r < sub@.len() ==> #[trigger] sub@[q] < #[trigger] sub@[r],
            forall|q: int| 0 <= q < sub@.len() ==> exists|l: int| 0 <= l < k && #[trigger] members@[l] == #[trigger] sub@[q],
            forall|l: int| 0 <= l < k && #[trigger] starts_with_all(fv[members@[l] as int], p.push(c@)) ==> sub@.contains(members@[l]),
        decreases members.len() - k,
    {
        let m = members[k];
        assert(fv[m as int] == texts(fs@[m as int]@));
        proof {
            lemma_starts_with_push(fv[m as int], p, c@);
        }
        let ghost before = sub@;
        if fs[m].len() > plen && str_eq(fs[m][plen].as_str(), c.as_str()) {
            sub.push(m);
            proof {
                assert forall|q: int, r: int| 0 <= q < r < sub@.len() implies #[trigger] sub@[q] < #[trigger] sub@[r] by {
                    if r == sub@.len() - 1 {
                        let l = choose|l: int| 0 <= l < k && #[trigger] members@[l] == #[trigger] sub@[q];
                        assert(members@[l] < members@[k as int]);
                    }
                }
                assert forall|q: int| 0 <= q < sub@.len() implies exists|l: int| 0 <= l < k + 1 && #[trigger] members@[l] == #[trigger] sub@[q] by {
                    if q == sub@.len() - 1 {
                        assert(members@[k as int] == sub@[q]);
                    } else {
                        assert(before[q] == sub@[q]);
                    }
                }
                assert forall|l: int| 0 <= l < k + 1 && #[trigger] starts_with_all(fv[members@[l] as int], p.push(c@)) implies sub@.contains(members@[l]) by {
                    if l == k {
                        assert(sub@[sub@.len() - 1] == members@[l]);
                    } else {
                        let q = choose|q: int| 0 <= q < before.len() && before[q] == members@[l];
                        assert(sub@[q] == members@[l]);
                    }
                }
            }
        }
        k = k + 1;
    }
    let n_files = fs.len();
    proof {
        assert forall|i: int| 0 <= i < fv.len() && #[trigger] starts_with_all(fv[i], p.push(c@)) implies sub@.contains(i as usize) by {
            assert(i < n_files);
            lemma_starts_with_push(fv[i], p, c@);
            assert(members@.contains(i as usize));
            let l = choose|l: int| 0 <= l < members@.len() && members@[l] == i as usize;
            assert(starts_with_all(fv[members@[l] as int], p.push(c@)));
        }
    }
    sub
}



proof fn lemma_first_member_decides(fv: Seq<Seq<Seq<char>>>, p: Seq<Seq<char>>, m: Seq<usize>)
    requires
        exact_members(fv, p, m),
        p.len() > 0,
        m.len() > 0,
    ensures
        is_dir_at(fv, p) == (fv[m[0] as int].len() > p.len()),
{
    let first = m[0] as int;
    assert(starts_with_all(fv[first], p));
    assert forall|j: int| 0 <= j < first implies !starts_with_all(#[trigger] fv[j], p) by {
        if starts_with_all(fv[j], p) {
            assert(m.contains(j as usize));
            let q = choose|q: int| 0 <= q < m.len() && m[q] == j as usize;
            if q > 0 {
                assert(m[0] < m[q]);
            }
        }
    }
    if is_dir_at(fv, p) {
        assert(fv[first].len() > p.len());
    }
    if fv[first].len() > p.len() {
        assert forall|i: int|
            #![trigger fv[i]]
            0 <= i < fv.len() && starts_with_all(fv[i], p) && (forall|j: int|
                0 <= j < i ==> !starts_with_all(#[trigger] fv[j], p)) implies fv[i].len() > p.len() by {
            assert(m.contains(i as usize));
            let q = choose|q: int| 0 <= q < m.len() && m[q] == i as usize;
            if q > 0 {
                assert(m[0] < m[q]);
                assert(!starts_with_all(fv[first], p));
            }
        }
        assert(is_dir_at(fv, p));
    }
}

/// The map of the entry at components `p`, whose files are `members`,
/// `depth` levels below the root, expanded to `max_depth` levels.
fn expand(
    fs: &Vec<Vec<String>>,
    members: &Vec<usize>,
    p: &Vec<String>,
    name: &str,
    path: &str,
    depth: usize,
    max_depth: usize,
) -> (n: MapNode)
    requires
        exact_members(comps_view(fs@), texts(p@), members@),
        p.len() == 0 || members.len() > 0,
        name@ == name_at(texts(p@)),
        path@ == path_at(texts(p@)),
        depth <= max_depth,
        fs.len() < usize::MAX,
    ensures
        map_of(n, comps_view(fs@), texts(p@), depth as int, max_depth as int),
    decreases max_depth - depth,
{
    let ghost fv = comps_view(fs@);
    let ghost pv = texts(p@);
    let is_dir = p.len() == 0 || fs[members[0]].len() > p.len();
    proof {
        if p.len() > 0 {
            lemma_first_member_decides(fv, pv, members@);
            assert(fv[members@[0] as int] == texts(fs@[members@[0] as int]@));
        }
    }
    if !is_dir {
        return MapNode::file(name, path);
    }
    let names = entry_names_of(fs, members, p.len(), Ghost(pv));
    let ghost nv = texts(names@);
    let mut node = MapNode::dir(name, path);
    if depth < max_depth {
        let mut children: Vec<MapNode> = Vec::new();
        let mut k: usize = 0;
        while k < names.len()
            invariant
                k <= names.len(),
                nv == texts(names@),
                fv == comps_view(fs@),
                pv == texts(p@),
                path@ == path_at(pv),
                exact_members(fv, pv, members@),
                forall|c: Seq<char>| #[trigger] entry_names(fv, pv).contains(c) <==> nv.contains(c),
                depth < max_depth,
                fs.len() < usize::MAX,
                children@.len() == k,
                forall|q: int| 0 <= q < k ==> (#[trigger] children@[q]).name@ == nv[q] && map_of(
                    children@[q],
                    fv,
                    pv.push(nv[q]),
                    depth + 1,
                    max_depth as int,
                ),
            decreases names.len() - k,
        {
            let c = &names[k];
            let sub = sub_members(fs, members, p.len(), c, Ghost(pv));
            let mut cp = copy_strings(p);
            let ghost before = cp@;
            cp.push(c.clone());
            assert(texts(cp@) =~= pv.push(c@));
            proof {
                assert(nv[k as int] == c@);
                assert(nv.contains(c@));
                assert(entry_names(fv, pv).contains(c@));
                let i = choose|i: int| 0 <= i < fv.len() && #[trigger] starts_with_all(fv[i], pv.push(c@));
                assert(sub@.contains(i as usize));
            }
            let child_path = if str_eq(path, ".") {
                c.clone()
            } else {
                let mut s = String::from_str(path);
                s.append("/");
                s.append(c.as_str());
                s
            };
            proof {
                assert(pv.push(c@).drop_last() =~= pv);
            }
            let child = expand(fs, &sub, &cp, c.as_str(), child_path.as_str(), depth + 1, max_depth);
            children.push(child);
            k = k + 1;
        }
        node.children = children;
        proof {
            let n = node;
            assert forall|i: int, j: int|
                0 <= i < j < n.children@.len() implies text_lt(
                #[trigger] n.children@[i].name@,
                #[trigger] n.children@[j].name@,
            ) by {
                assert(n.children@[i].name@ == nv[i]);
                assert(n.children@[j].name@ == nv[j]);
            }
            assert forall|c: Seq<char>|
                entry_names(fv, pv).contains(c) <==> exists|i: int|
                    0 <= i < n.children@.len() && #[trigger] n.children@[i].name@ == c by {
                if nv.contains(c) {
                    let i = choose|i: int| 0 <= i < nv.len() && nv[i] == c;
                    assert(n.children@[i].name@ == c);
                }
                if exists|i: int| 0 <= i < n.children@.len() && #[trigger] n.children@[i].name@ == c {
                    let i = choose|i: int| 0 <= i < n.children@.len() && #[trigger] n.children@[i].name@ == c;
                    assert(nv[i] == c);
                }
            }
            assert forall|i: int|
                0 <= i < n.children@.len() implies map_of(
                #[trigger] n.children@[i],
                fv,
                pv.push(n.children@[i].name@),
                depth + 1,
                max_depth as int,
            ) by {}
        }
    } else {
        if names.len() > 0 {
            node.collapsed_entries = Some(names.len());
        }
        proof {
            assert(entry_names(fv, pv) =~= nv.to_set());
            assert(nv.no_duplicates()) by {
                assert forall|i: int, j: int| 0 <= i < nv.len() && 0 <= j < nv.len() && i != j implies nv[i] != nv[j] by {
                    if i < j {
                        assert(text_lt(nv[i], nv[j]));
                    } else {
                        assert(text_lt(nv[j], nv[i]));
                    }
                }
            }
            nv.unique_seq_to_set();
        }
    }
    node
}

/// Build the tree of root-relative paths, expanding directories up to
/// `max_depth` levels below the root. Deeper directories are collapsed to an
/// explicit entry count. Entries are sorted by name.
pub fn build_tree(files: &Vec<String>, max_depth: usize) -> (root: MapNode)
    requires
        files.len() < usize::MAX,
    ensures
        map_of(root, components_of(files@), Seq::empty(), 0, max_depth as int),
{
    let mut fs: Vec<Vec<String>> = Vec::new();
    let mut members: Vec<usize> = Vec::new();
    let mut i: usize = 0;
    while i < files.len()
        invariant
            i <= files.len(),
            files.len() < usize::MAX,
            fs@.len() == i,
            members@.len() == i,
            forall|k: int| 0 <= k < i ==> #[trigger] members@[k] == k,
            comps_view(fs@) == components_of(files@).take(i as int),
        decreases files.len() - i,
    {
        let ghost before = fs@;
        fs.push(split_path(&files[i]));
        members.push(i);
        proof {
            assert(comps_view(fs@) =~= comps_view(before).push(components(files@[i as int]@)));
            assert(components_of(files@).take(i + 1) =~= components_of(files@).take(i as int).push(
                components(files@[i as int]@),
            ));
        }
        i = i + 1;
    }
    assert(components_of(files@).take(files.len() as int) =~= components_of(files@));
    let root: Vec<String> = Vec::new();
    proof {
        let fv = comps_view(fs@);
        let pv = texts(root@);
        assert(pv =~= Seq::<Seq<char>>::empty());
        assert forall|i: int| 0 <= i < fv.len() && #[trigger] starts_with_all(fv[i], pv) implies members@.contains(i as usize) by {
            assert(members@[i] == i);
        }
        assert forall|k: int| 0 <= k < members@.len() implies #[trigger] members@[k] < fv.len() && starts_with_all(fv[members@[k] as int], pv) by {
            assert(fv[k].subrange(0, 0) =~= pv);
        }
    }
    expand(&fs, &members, &root, ".", ".", 0, max_depth)
}


/// Return a structured directory tree of the listed files `records` (the
/// repository's files, ignored ones already filtered out). `max_depth` limits
/// how many directory levels are expanded; deeper directories are collapsed
/// with an explicit entry count.
pub fn get_codebase_map(records: &Vec<FileRecord>, max_depth: usize) -> (root: MapNode)
    requires
        records.len() < usize::MAX,
    ensures
        map_of(root, components_of(records@.map_values(|r: FileRecord| r.path)), Seq::empty(), 0, max_depth as int),
{
    let mut paths: Vec<String> = Vec::new();
    let mut i: usize = 0;
    while i < records.len()
        invariant
            i <= records.len(),
            texts(paths@) == texts(records@.map_values(|r: FileRecord| r.path).take(i as int)),
            paths@.len() == i,
        decreases records.len() - i,
    {
        let ghost before = paths@;
        paths.push(records[i].path.clone());
        proof {
            let rp = records@.map_values(|r: FileRecord| r.path);
            assert(rp.take(i + 1) =~= rp.take(i as int).push(rp[i as int]));
            assert(texts(paths@) =~= texts(before).push(records@[i as int].path@));
        }
        i = i + 1;
    }
    let ghost rp = records@.map_values(|r: FileRecord| r.path);
    assert(rp.take(records.len() as int) =~= rp);
    let root = build_tree(&paths, max_depth);
    proof {
        assert forall|k: int| 0 <= k < rp.len() implies components_of(paths@)[k] == components_of(rp)[k] by {
            assert(texts(paths@)[k] == texts(rp)[k]);
        }
        assert(components_of(paths@) =~= components_of(rp));
    }
    root
}


/// Whether two maps show the same tree down to `k` levels: the same name,
/// path, kind and collapsed count, and children that pairwise show the same
/// tree one level less deep.
pub open spec fn same_map(a: MapNode, b: MapNode, k: nat) -> bool
    decreases k,
{
    &&& a.name@ == b.name@
    &&& a.path@ == b.path@
    &&& a.kind == b.kind
    &&& a.collapsed_entries == b.collapsed_entries
    &&& a.children@.len() == b.children@.len()
    &&& k > 0 ==> forall|i: int|
        0 <= i < a.children@.len() ==> same_map(#[trigger] a.children@[i], b.children@[i], (k - 1) as nat)
}

/// The map of a tree is determined by the listed files: two maps of the
/// same entry of the same files, to the same depth, show the same tree.
pub proof fn lemma_map_deterministic(
    a: MapNode,
    b: MapNode,
    fs: Seq<Seq<Seq<char>>>,
    p: Seq<Seq<char>>,
    depth: int,
    max_depth: int,
)
    requires
        depth <= max_depth,
        map_of(a, fs, p, depth, max_depth),
        map_of(b, fs, p, depth, max_depth),
    ensures
        same_map(a, b, (max_depth - depth) as nat),
    decreases max_depth - depth,
{
    if is_dir_at(fs, p) && depth < max_depth {
        let na = a.children@.map_values(|c: MapNode| c.name@);
        let nb = b.children@.map_values(|c: MapNode| c.name@);
        assert(texts_strictly_sorted(na)) by {
            assert forall|i: int, j: int| 0 <= i < j < na.len() implies text_lt(#[trigger] na[i], #[trigger] na[j]) by {
                assert(text_lt(a.children@[i].name@, a.children@[j].name@));
            }
        }
        assert(texts_strictly_sorted(nb)) by {
            assert forall|i: int, j: int| 0 <= i < j < nb.len() implies text_lt(#[trigger] nb[i], #[trigger] nb[j]) by {
                assert(text_lt(b.children@[i].name@, b.children@[j].name@));
            }
        }
        assert(na.to_set() =~= nb.to_set()) by {
            assert forall|c: Seq<char>| na.to_set().contains(c) <==> nb.to_set().contains(c) by {
                if na.contains(c) {
                    let i = choose|i: int| 0 <= i < na.len() && na[i] == c;
                    assert(a.children@[i].name@ == c);
                    assert(entry_names(fs, p).contains(c));
                    let j = choose|j: int| 0 <= j < b.children@.len() && #[trigger] b.children@[j].name@ == c;
                    assert(nb[j] == c);
                }
                if nb.contains(c) {
                    let j = choose|j: int| 0 <= j < nb.len() && nb[j] == c;
                    assert(b.children@[j].name@ == c);
                    assert(entry_names(fs, p).contains(c));
                    let i = choose|i: int| 0 <= i < a.children@.len() && #[trigger] a.children@[i].name@ == c;
                    assert(na[i] == c);
                }
            }
        }
        crate::order::lemma_sorted_unique(na, nb);
        assert forall|i: int| 0 <= i < a.children@.len() implies same_map(#[trigger] a.children@[i], b.children@[i], (max_depth - depth - 1) as nat) by {
            assert(na[i] == nb[i]);
            assert(map_of(a.children@[i], fs, p.push(a.children@[i].name@), depth + 1, max_depth));
            assert(map_of(b.children@[i], fs, p.push(b.children@[i].name@), depth + 1, max_depth));
            lemma_map_deterministic(a.children@[i], b.children@[i], fs, p.push(a.children@[i].name@), depth + 1, max_depth);
        }
    }
}

} // verus!
