//! Repository-root discovery and safe, root-relative path handling.
//!
//! Paths are absolute, canonical paths written with `/` separators. Looking
//! at the file system (canonicalising a path, testing for a VCS marker) is the
//! caller's part; this module decides what the answers mean.

use vstd::prelude::*;

use crate::languages::after_last;
use crate::text::{chars_of, has_prefix, str_eq, string_of, string_of_range};

verus! {

/// Structured error for path operations.
#[derive(Debug, Clone, Copy, PartialEq, Eq, Structural)]
pub enum PathError {
    /// The path escapes the repository root.
    OutsideRoot,
    /// The path does not exist.
    NotFound,
}

impl PathError {
    /// The error's message.
    pub fn message(&self) -> (s: String)
        ensures
            s@ == match self {
                PathError::OutsideRoot => "path escapes the repository root"@,
                PathError::NotFound => "path does not exist"@,
            },
    {
        match self {
            PathError::OutsideRoot => String::from_str("path escapes the repository root"),
            PathError::NotFound => String::from_str("path does not exist"),
        }
    }
}

/// A discovered repository root.
#[derive(Debug)]
pub struct RepoRoot {
    root: String,
}

/// The parent of the canonical path `s` (std's `Path::parent`): `None` for
/// `/` and the empty path, `/` for a top-level entry, the empty path for a
/// bare name, else `s` up to its last `/`.
pub open spec fn parent_of(s: Seq<char>) -> Option<Seq<char>> {
    let k = after_last(s, '/');
    if s.len() == 0 || s == "/"@ {
        None
    } else if k == 0 {
        Some(Seq::empty())
    } else if k == 1 {
        Some("/"@)
    } else {
        Some(s.subrange(0, k - 1))
    }
}

pub proof fn lemma_after_last_bounds(s: Seq<char>, c: char)
    ensures
        0 <= after_last(s, c) <= s.len(),
        after_last(s, c) > 0 ==> s[after_last(s, c) - 1] == c,
    decreases s.len(),
{
    if s.len() > 0 && s.last() != c {
        lemma_after_last_bounds(s.drop_last(), c);
        assert(s.drop_last().len() < s.len());
    }
}

pub proof fn lemma_parent_shorter(s: Seq<char>)
    ensures
        parent_of(s) matches Some(p) ==> p.len() < s.len(),
{
    lemma_after_last_bounds(s, '/');
    if s == "/"@ {
    } else if after_last(s, '/') == 1 && s.len() == 1 {
        assert(s[0] == '/');
        assert(s =~= "/"@) by {
            reveal_strlit("/");
        }
    } else {
        reveal_strlit("/");
    }
}

/// `s` and its ancestors, nearest first.
pub open spec fn ancestors(s: Seq<char>) -> Seq<Seq<char>>
    decreases s.len(),
{
    match parent_of(s) {
        None => seq![s],
        Some(p) => {
            proof {
                lemma_parent_shorter(s);
            }
            if p.len() < s.len() {
                seq![s] + ancestors(p)
            } else {
                seq![s]
            }
        },
    }
}

/// The parent of the canonical path `s`.
fn parent(s: &str) -> (r: Option<String>)
    ensures
        r matches Some(p) ==> parent_of(s@) == Some(p@),
        r is None ==> parent_of(s@) is None,
{
    let v = chars_of(s);
    if v.len() == 0 || str_eq(s, "/") {
        return None;
    }
    let mut k = v.len();
    assert(v@.subrange(0, k as int) =~= v@);
    while k > 0 && v[k - 1] != '/'
        invariant
            k <= v.len(),
            v@ == s@,
            after_last(v@.subrange(0, k as int), '/') == after_last(s@, '/'),
        decreases k,
    {
        assert(v@.subrange(0, k as int).drop_last() =~= v@.subrange(0, k - 1));
        k = k - 1;
    }
    if k == 0 {
        Some(String::new())
    } else if k == 1 {
        Some(String::from_str("/"))
    } else {
        Some(string_of_range(&v, 0, k - 1))
    }
}

/// The canonical path `start` followed by each of its ancestors, nearest
/// first: the directories in which to look for a VCS marker.
pub fn ancestors_of(start: &str) -> (r: Vec<String>)
    ensures
        r@.map_values(|s: String| s@) == ancestors(start@),
{
    let mut out: Vec<String> = Vec::new();
    let mut cur = String::from_str(start);
    let ghost first = start@;
    assert(ancestors(start@) =~= ancestors(cur@));
    loop
        invariant
            out@.map_values(|s: String| s@) + ancestors(cur@) == ancestors(start@),
        decreases cur@.len(),
    {
        let ghost before = out@;
        let ghost c = cur@;
        proof {
            lemma_parent_shorter(c);
        }
        match parent(cur.as_str()) {
            None => {
                out.push(cur);
                assert(out@.map_values(|s: String| s@) =~= before.map_values(|s: String| s@).push(c));
                assert(ancestors(c) =~= seq![c]);
                assert(before.map_values(|s: String| s@) + ancestors(c) =~= out@.map_values(|s: String| s@));
                return out;
            },
            Some(p) => {
                out.push(cur);
                assert(out@.map_values(|s: String| s@) =~= before.map_values(|s: String| s@).push(c));
                assert(ancestors(c) =~= seq![c] + ancestors(p@));
                assert(out@.map_values(|s: String| s@) + ancestors(p@) =~= before.map_values(|s: String| s@) + ancestors(c));
                cur = p;
            },
        }
    }
}

/// The first of `dirs` whose flag in `has_marker` is set, else `dirs[0]`.
pub open spec fn first_marked(dirs: Seq<Seq<char>>, has_marker: Seq<bool>) -> Seq<char>
    decreases dirs.len(),
{
    if dirs.len() == 0 {
        Seq::empty()
    } else {
        first_marked_from(dirs, has_marker, 0)
    }
}

/// The first of `dirs[j..]` whose flag is set, else `dirs[0]`.
pub open spec fn first_marked_from(dirs: Seq<Seq<char>>, has_marker: Seq<bool>, j: int) -> Seq<char>
    decreases dirs.len() - j,
{
    if j < 0 || j >= dirs.len() {
        dirs[0]
    } else if j < has_marker.len() && has_marker[j] {
        dirs[j]
    } else {
        first_marked_from(dirs, has_marker, j + 1)
    }
}

impl View for RepoRoot {
    type V = Seq<char>;

    closed spec fn view(&self) -> Seq<char> {
        self.root@
    }
}

impl RepoRoot {
    /// The repository root found by walking up from the canonical path
    /// `start`: the nearest of `start` and its ancestors (see [`ancestors_of`])
    /// holding a VCS marker (`.git` or `.jj`), where `has_marker[i]` tells
    /// whether the `i`-th of them holds one. Falls back to `start` itself when
    /// none does.
    pub fn discover(start: &str, has_marker: &Vec<bool>) -> (r: RepoRoot)
        ensures
            r@ == first_marked(ancestors(start@), has_marker@),
    {
        let dirs = ancestors_of(start);
        let ghost dv = dirs@.map_values(|s: String| s@);
        assert(dv.len() > 0) by {
            reveal_with_fuel(ancestors, 2);
        }
        let mut i: usize = 0;
        while i < dirs.len()
            invariant
                i <= dirs.len(),
                dv == dirs@.map_values(|s: String| s@),
                dv == ancestors(start@),
                dv.len() > 0,
                first_marked_from(dv, has_marker@, i as int) == first_marked(dv, has_marker@),
            decreases dirs.len() - i,
        {
            if i < has_marker.len() && has_marker[i] {
                return RepoRoot { root: dirs[i].clone() };
            }
            i = i + 1;
        }
        RepoRoot { root: dirs[0].clone() }
    }

    /// The repository rooted at the canonical path `root`.
    pub fn at(root: &str) -> (r: RepoRoot)
        ensures
            r@ == root@,
    {
        RepoRoot { root: String::from_str(root) }
    }

    /// The absolute root path.
    pub fn path(&self) -> (p: &str)
        ensures
            p@ == self@,
    {
        self.root.as_str()
    }

    /// `path` taken relative to the root, as std's `Path::join` does: an
    /// absolute path stands for itself, a relative one is appended to the root.
    pub fn join(&self, path: &str) -> (r: String)
        ensures
            r@ == join_spec(self@, path@),
    {
        let v = chars_of(path);
        if v.len() > 0 && v[0] == '/' {
            return String::from_str(path);
        }
        let rv = chars_of(self.root.as_str());
        let mut out = String::from_str(self.root.as_str());
        if !(rv.len() > 0 && rv[rv.len() - 1] == '/') {
            out.append("/");
        }
        out.append(path);
        out
    }

    /// Resolve a path to a root-relative path with `/` separators, given the
    /// path's canonical form (`None` when canonicalising failed because the
    /// path does not exist). Rejects paths that escape the root.
    pub fn resolve_relative(&self, canonical: Option<&str>) -> (r: Result<String, PathError>)
        ensures
            match canonical {
                None => r == Err::<String, PathError>(PathError::NotFound),
                Some(c) => match relative_to(self@, c@) {
                    None => r == Err::<String, PathError>(PathError::OutsideRoot),
                    Some(rel) => r matches Ok(s) && s@ == forward_slashes(rel),
                },
            },
    {
        let c = match canonical {
            None => return Err(PathError::NotFound),
            Some(c) => c,
        };
        let cv = chars_of(c);
        let rv = chars_of(self.root.as_str());
        let rel_start: usize = if str_eq(c, self.root.as_str()) {
            cv.len()
        } else {
            let prefix_ok = crate::text::starts_with(&cv, self.root.as_str());
            if !prefix_ok {
                return Err(PathError::OutsideRoot);
            }
            if rv.len() > 0 && rv[rv.len() - 1] == '/' {
                rv.len()
            } else if rv.len() < cv.len() && cv[rv.len()] == '/' {
                rv.len() + 1
            } else {
                return Err(PathError::OutsideRoot);
            }
        };
        assert(rel_start <= cv.len());
        let mut out: Vec<char> = Vec::new();
        let mut i = rel_start;
        while i < cv.len()
            invariant
                rel_start <= i <= cv.len(),
                out@ == forward_slashes(cv@.subrange(rel_start as int, i as int)),
            decreases cv.len() - i,
        {
            proof {
                assert(cv@.subrange(rel_start as int, i + 1).drop_last() =~= cv@.subrange(rel_start as int, i as int));
            }
            if cv[i] == '\\' {
                out.push('/');
            } else {
                out.push(cv[i]);
            }
            i = i + 1;
        }
        Ok(string_of(out.as_slice()))
    }
}

/// `path` joined onto `root` (std's `Path::join`).
pub open spec fn join_spec(root: Seq<char>, path: Seq<char>) -> Seq<char> {
    if path.len() > 0 && path[0] == '/' {
        path
    } else if root.len() > 0 && root.last() == '/' {
        root + path
    } else {
        root + "/"@ + path
    }
}

/// The part of the canonical path `c` below the root `root` (std's
/// `Path::strip_prefix`): empty when they are equal, `None` when `c` is not
/// inside `root`.
pub open spec fn relative_to(root: Seq<char>, c: Seq<char>) -> Option<Seq<char>> {
    if c == root {
        Some(Seq::empty())
    } else if !has_prefix(c, root) {
        None
    } else if root.len() > 0 && root.last() == '/' {
        Some(c.subrange(root.len() as int, c.len() as int))
    } else if root.len() < c.len() && c[root.len() as int] == '/' {
        Some(c.subrange(root.len() as int + 1, c.len() as int))
    } else {
        None
    }
}

/// `s` with every `\` replaced by `/`.
pub open spec fn forward_slashes(s: Seq<char>) -> Seq<char>
    decreases s.len(),
{
    if s.len() == 0 {
        s
    } else {
        forward_slashes(s.drop_last()).push(if s.last() == '\\' {
            '/'
        } else {
            s.last()
        })
    }
}


/// `forward_slashes` leaves a text without `\` as it is.
proof fn lemma_forward_slashes_plain(s: Seq<char>)
    requires
        !s.contains('\\'),
    ensures
        forward_slashes(s) == s,
    decreases s.len(),
{
    if s.len() > 0 {
        assert(!s.drop_last().contains('\\')) by {
            if s.drop_last().contains('\\') {
                let k = choose|k: int| 0 <= k < s.drop_last().len() && s.drop_last()[k] == '\\';
                assert(s[k] == '\\');
            }
        }
        assert(s[s.len() - 1] != '\\');
        lemma_forward_slashes_plain(s.drop_last());
        assert(s.drop_last().push(s.last()) =~= s);
    }
}

/// `forward_slashes` leaves no `\` behind.
proof fn lemma_forward_slashes_clean(s: Seq<char>)
    ensures
        !forward_slashes(s).contains('\\'),
        forward_slashes(s).len() == s.len(),
    decreases s.len(),
{
    if s.len() > 0 {
        lemma_forward_slashes_clean(s.drop_last());
        let f = forward_slashes(s);
        let g = forward_slashes(s.drop_last());
        assert(!f.contains('\\')) by {
            if f.contains('\\') {
                let k = choose|k: int| 0 <= k < f.len() && f[k] == '\\';
                if k < g.len() {
                    assert(g[k] == '\\');
                }
            }
        }
    }
}

/// Paths resolve relative to the root and back: a canonical path at or
/// inside the root, without `\`, is the root joined with its resolved
/// relative path (the root itself comes back with a trailing `/`, which
/// canonicalising removes); and a path resolves only when it lies at or
/// under the root.
pub proof fn lemma_resolve_round_trip(root: Seq<char>, c: Seq<char>)
    ensures
        relative_to(root, c) is Some ==> c == root || has_prefix(c, root),
        match relative_to(root, c) {
            Some(rel) => (rel.len() == 0 || rel[0] != '/') && !c.contains('\\') ==> {
                ||| join_spec(root, forward_slashes(rel)) == c
                ||| (rel.len() == 0 && join_spec(root, forward_slashes(rel)) == c + "/"@)
            },
            None => true,
        },
{
    reveal_strlit("/");
    if let Some(rel) = relative_to(root, c) {
        if (rel.len() == 0 || rel[0] != '/') && !c.contains('\\') {
            assert(!rel.contains('\\')) by {
                if rel.contains('\\') {
                    let k = choose|k: int| 0 <= k < rel.len() && rel[k] == '\\';
                    if c == root {
                    } else if root.len() > 0 && root.last() == '/' {
                        assert(c[root.len() + k] == '\\');
                    } else {
                        assert(c[root.len() + 1 + k] == '\\');
                    }
                }
            }
            lemma_forward_slashes_plain(rel);
            if c == root {
                if root.len() > 0 && root.last() == '/' {
                    assert(root + rel =~= c);
                } else {
                    assert(root + "/"@ + rel =~= c + "/"@);
                }
            } else {
                assert(c.subrange(0, root.len() as int) == root);
                if root.len() > 0 && root.last() == '/' {
                    assert(root + rel =~= c);
                } else {
                    assert(root + "/"@ + rel =~= c);
                }
            }
        }
    }
}

/// Resolving is idempotent: a resolved relative path, joined onto the root
/// and resolved again, gives itself back. (A resolved path that begins with
/// `/` would be taken as absolute; a canonical path has none.)
pub proof fn lemma_resolve_idempotent(root: Seq<char>, c: Seq<char>)
    requires
        relative_to(root, c) matches Some(rel) && (forward_slashes(rel).len() == 0 || forward_slashes(rel)[0] != '/'),
    ensures
        relative_to(root, c) matches Some(rel) && (relative_to(root, join_spec(root, forward_slashes(rel))) matches Some(
            again,
        ) && again == forward_slashes(rel) && forward_slashes(again) == forward_slashes(rel)),
{
    reveal_strlit("/");
    let rel = relative_to(root, c).unwrap();
    let s = forward_slashes(rel);
    lemma_forward_slashes_clean(rel);
    lemma_forward_slashes_plain(s);
    let j = join_spec(root, s);
    if root.len() > 0 && root.last() == '/' {
        assert(j =~= root + s);
        assert(j.subrange(0, root.len() as int) =~= root);
        if s.len() == 0 {
            assert(j =~= root);
        } else {
            assert(j.subrange(root.len() as int, j.len() as int) =~= s);
        }
    } else {
        assert(j =~= root + "/"@ + s);
        assert(j.subrange(0, root.len() as int) =~= root);
        assert(j != root) by {
            assert(j.len() != root.len());
        }
        assert(j[root.len() as int] == '/');
        assert(j.subrange(root.len() as int + 1, j.len() as int) =~= s);
    }
}


/// Whether `c` has no empty segment: no `/` directly after another, as in
/// every canonical path.
pub open spec fn no_empty_segment(c: Seq<char>) -> bool {
    forall|i: int| 0 <= i < c.len() - 1 ==> !(#[trigger] c[i] == '/' && c[i + 1] == '/')
}

/// Resolving a path at or under the root, written without `\` and without
/// empty segments (as canonical paths are), and then resolving the result
/// again gives the same relative path back.
pub proof fn lemma_resolve_canonical_idempotent(root: Seq<char>, c: Seq<char>)
    requires
        relative_to(root, c) is Some,
        !c.contains('\\'),
        no_empty_segment(c),
    ensures
        relative_to(root, c) matches Some(rel) && forward_slashes(rel) == rel && (relative_to(
            root,
            join_spec(root, rel),
        ) matches Some(again) && again == rel),
{
    let rel = relative_to(root, c).unwrap();
    assert(!rel.contains('\\')) by {
        if rel.contains('\\') {
            let k = choose|k: int| 0 <= k < rel.len() && rel[k] == '\\';
            if c == root {
            } else if root.len() > 0 && root.last() == '/' {
                assert(c[root.len() + k] == '\\');
            } else {
                assert(c[root.len() + 1 + k] == '\\');
            }
        }
    }
    lemma_forward_slashes_plain(rel);
    if rel.len() > 0 {
        if c == root {
        } else if root.len() > 0 && root.last() == '/' {
            assert(c.subrange(0, root.len() as int) == root);
            assert(c[root.len() - 1] == '/');
            assert(c[root.len() as int] == rel[0]);
            assert(!(c[root.len() - 1] == '/' && c[root.len() as int] == '/'));
        } else {
            assert(c[root.len() as int] == '/');
            assert(c[root.len() as int + 1] == rel[0]);
            assert(!(c[root.len() as int] == '/' && c[root.len() as int + 1] == '/'));
        }
    }
    lemma_resolve_idempotent(root, c);
    lemma_forward_slashes_plain(rel);
}

} // verus!
