//! Small in-process cache invalidated by file metadata.

use vstd::hash_map::StringHashMap;
use vstd::prelude::*;

verus! {

/// Metadata snapshot used to detect file changes: the length in bytes and
/// the modification time, in nanoseconds relative to the Unix epoch.
#[derive(Debug, Clone, Copy, PartialEq, Eq, Structural)]
pub struct FileMeta {
    pub len: u64,
    pub modified: i128,
}

/// A cache keyed by path, storing a value plus the metadata it was loaded
/// from. Entries are refreshed on demand when the on-disk metadata changes.
#[verifier::reject_recursive_types(V)]
pub struct Cache<V> {
    entries: StringHashMap<(FileMeta, V)>,
}

impl<V> View for Cache<V> {
    type V = Map<Seq<char>, (FileMeta, V)>;

    closed spec fn view(&self) -> Map<Seq<char>, (FileMeta, V)> {
        self.entries@
    }
}

/// What a cache whose entries are `m` holds for `key` when the file's
/// metadata is `meta`: the stored value if it was stored with that metadata.
pub open spec fn cached<V>(m: Map<Seq<char>, (FileMeta, V)>, key: Seq<char>, meta: FileMeta) -> Option<V> {
    if m.contains_key(key) && m[key].0 == meta {
        Some(m[key].1)
    } else {
        None
    }
}

impl<V> Cache<V> {
    /// An empty cache.
    pub fn new() -> (c: Self)
        ensures
            c@ == Map::<Seq<char>, (FileMeta, V)>::empty(),
    {
        Cache { entries: StringHashMap::new() }
    }

    /// Return a cached value if present and its metadata still matches.
    pub fn get(&self, key: &str, meta: &FileMeta) -> (r: Option<&V>)
        ensures
            match r {
                Some(v) => cached(self@, key@, *meta) == Some(*v),
                None => cached(self@, key@, *meta) is None,
            },
    {
        match self.entries.get(key) {
            Some(entry) => {
                if entry.0 == *meta {
                    Some(&entry.1)
                } else {
                    None
                }
            },
            None => None,
        }
    }

    /// Insert or replace a value for `key`.
    pub fn insert(&mut self, key: String, meta: FileMeta, value: V)
        ensures
            final(self)@ == old(self)@.insert(key@, (meta, value)),
    {
        self.entries.insert(key, (meta, value));
    }
}

impl<V> Default for Cache<V> {
    fn default() -> (c: Self)
        ensures
            c@ == Map::<Seq<char>, (FileMeta, V)>::empty(),
    {
        Cache::new()
    }
}

/// A value computed from the file system, kept until it is replaced or
/// cleared.
pub struct Snapshot<T> {
    value: Option<T>,
}

impl<T> View for Snapshot<T> {
    type V = Option<T>;

    closed spec fn view(&self) -> Option<T> {
        self.value
    }
}

impl<T> Snapshot<T> {
    /// An empty snapshot.
    pub fn new() -> (s: Self)
        ensures
            s@ is None,
    {
        Snapshot { value: None }
    }

    /// The value held, if any.
    pub fn get(&self) -> (r: Option<&T>)
        ensures
            match r {
                Some(v) => self@ == Some(*v),
                None => self@ is None,
            },
    {
        match &self.value {
            Some(v) => Some(v),
            None => None,
        }
    }

    /// Hold `value` from now on.
    pub fn replace(&mut self, value: T)
        ensures
            final(self)@ == Some(value),
    {
        self.value = Some(value);
    }

    /// Hold nothing from now on.
    pub fn clear(&mut self)
        ensures
            final(self)@ is None,
    {
        self.value = None;
    }
}

/// A lookup right after storing a value under a key and metadata gives that
/// value back; a lookup with other metadata misses; other keys are untouched.
pub proof fn lemma_cache_read_after_write<V>(
    m: Map<Seq<char>, (FileMeta, V)>,
    key: Seq<char>,
    meta: FileMeta,
    value: V,
    other_key: Seq<char>,
    other_meta: FileMeta,
)
    ensures
        cached(m.insert(key, (meta, value)), key, meta) == Some(value),
        other_meta != meta ==> cached(m.insert(key, (meta, value)), key, other_meta) is None,
        other_key != key ==> cached(m.insert(key, (meta, value)), other_key, other_meta) == cached(
            m,
            other_key,
            other_meta,
        ),
{
}

} // verus!
