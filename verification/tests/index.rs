//! Path resolution, file listing order, the metadata cache and inventory
//! refreshes.

use cartography_core::cache::{Cache, FileMeta, Snapshot};
use cartography_core::graph::SymbolGraph;
use cartography_core::index::{
    default_ignored, is_ignored_name, refresh_inventory, sort_records, store_file_bytes, FileRecord, GraphCache,
    ReadError,
};
use cartography_core::paths::{PathError, RepoRoot};
use cartography_core::refs::get_upstream_refs;

fn meta(len: u64, modified: i128) -> FileMeta {
    FileMeta { len, modified }
}

fn record(path: &str) -> FileRecord {
    FileRecord { path: path.to_string(), meta: meta(1, 0) }
}

#[test]
fn resolves_root_relative_path() {
    let root = RepoRoot::at("/work/repo");
    assert_eq!(root.resolve_relative(Some("/work/repo/src/lib.rs")).unwrap(), "src/lib.rs");
}

#[test]
fn rejects_paths_outside_root() {
    let root = RepoRoot::at("/work/repo");
    assert_eq!(root.resolve_relative(Some("/work")), Err(PathError::OutsideRoot));
    assert_eq!(root.resolve_relative(Some("/work/repository/x.rs")), Err(PathError::OutsideRoot));
}

#[test]
fn rejects_missing_paths() {
    let root = RepoRoot::at("/work/repo");
    assert_eq!(root.resolve_relative(None), Err(PathError::NotFound));
}

#[test]
fn filters_ignored_directories() {
    let ignored = default_ignored();
    assert!(is_ignored_name("node_modules", &ignored));
    assert!(is_ignored_name(".git", &ignored));
    assert!(!is_ignored_name("src", &ignored));
    assert!(!is_ignored_name("main.rs", &ignored));
}

#[test]
fn lists_files_in_deterministic_order() {
    let records = sort_records(vec![record("zeta.rs"), record("alpha.rs"), record("mid.rs")]);
    let paths: Vec<_> = records.iter().map(|f| f.path.as_str()).collect();
    assert_eq!(paths, vec!["alpha.rs", "mid.rs", "zeta.rs"]);
}

#[test]
fn cache_refreshes_after_edit() {
    let mut cache: Cache<Vec<u8>> = Cache::new();
    let first = store_file_bytes(&mut cache, "a.txt".to_string(), meta(3, 1), b"one".to_vec()).unwrap();
    assert_eq!(first, b"one");
    assert_eq!(cache.get("a.txt", &meta(3, 1)).unwrap(), b"one");
    // Different length guarantees a metadata change.
    assert!(cache.get("a.txt", &meta(9, 2)).is_none());
    let second = store_file_bytes(&mut cache, "a.txt".to_string(), meta(9, 2), b"two-three".to_vec()).unwrap();
    assert_eq!(second, b"two-three");
    assert_eq!(cache.get("a.txt", &meta(9, 2)).unwrap(), b"two-three");
}

#[test]
fn rejects_binary_files() {
    let mut cache: Cache<Vec<u8>> = Cache::new();
    let r = store_file_bytes(&mut cache, "blob.bin".to_string(), meta(4, 1), vec![0u8, 1, 2, 3]);
    assert!(matches!(r, Err(ReadError::Binary)));
    assert!(cache.get("blob.bin", &meta(4, 1)).is_none());
}

#[test]
fn graph_cache_refreshes_after_edit() {
    let before = SymbolGraph::build(&vec![("lib.rs".to_string(), b"fn foo() {}\nfn bar() { foo(); }\n".to_vec())]).unwrap();
    let spots = get_upstream_refs(&before, "foo").unwrap();
    assert!(spots.iter().any(|s| s.line == 2));

    // Edit the file so `bar` no longer references `foo`.
    let after = SymbolGraph::build(&vec![("lib.rs".to_string(), b"fn foo() {}\nfn bar() {}\n".to_vec())]).unwrap();
    let spots = get_upstream_refs(&after, "foo").unwrap();
    assert!(!spots.iter().any(|s| s.line == 2));
}

#[test]
fn graph_cache_refreshes_after_file_creation_and_removal() {
    let lib = ("lib.rs".to_string(), b"fn foo() {}\n".to_vec());
    let other = ("other.rs".to_string(), b"fn bar() { foo(); }\n".to_vec());
    let g = SymbolGraph::build(&vec![lib.clone()]).unwrap();
    assert!(get_upstream_refs(&g, "foo").is_ok());

    // A new file referencing `foo` must be picked up.
    let g = SymbolGraph::build(&vec![lib.clone(), other]).unwrap();
    let spots = get_upstream_refs(&g, "foo").unwrap();
    assert!(spots.iter().any(|s| s.file == "other.rs"));

    // Removing that file must drop its reference sites.
    let g = SymbolGraph::build(&vec![lib]).unwrap();
    let spots = get_upstream_refs(&g, "foo").unwrap();
    assert!(!spots.iter().any(|s| s.file == "other.rs"));
}

#[test]
fn inventory_refresh_reports_changes() {
    let mut slot: Snapshot<Vec<FileRecord>> = Snapshot::new();
    assert!(refresh_inventory(&mut slot, &vec![record("a.rs")]));
    assert!(!refresh_inventory(&mut slot, &vec![record("a.rs")]));
    let edited = vec![FileRecord { path: "a.rs".to_string(), meta: meta(2, 5) }];
    assert!(refresh_inventory(&mut slot, &edited));
    assert_eq!(slot.get().unwrap()[0].meta, meta(2, 5));
}

#[test]
fn discover_prefers_nearest_marked_ancestor() {
    // Ancestors of /a/b/c, nearest first: /a/b/c, /a/b, /a, /.
    let root = RepoRoot::discover("/a/b/c", &vec![false, true, true, false]);
    assert_eq!(root.path(), "/a/b");
    let none = RepoRoot::discover("/a/b/c", &vec![false, false, false, false]);
    assert_eq!(none.path(), "/a/b/c");
}

#[test]
fn path_error_messages() {
    assert_eq!(PathError::OutsideRoot.message(), "path escapes the repository root");
    assert_eq!(PathError::NotFound.message(), "path does not exist");
    assert_eq!(ReadError::Binary.message(), "binary file");
}

#[test]
fn joins_paths_onto_the_root() {
    let root = RepoRoot::at("/work/repo");
    assert_eq!(root.join("src/a.rs"), "/work/repo/src/a.rs");
    assert_eq!(root.join("/etc/x"), "/etc/x");
    assert_eq!(RepoRoot::at("/").join("a"), "/a");
}

#[test]
fn resolves_backslashes_to_forward_slashes() {
    let root = RepoRoot::at("/work/repo");
    assert_eq!(root.resolve_relative(Some("/work/repo/a\\b.rs")).unwrap(), "a/b.rs");
    assert_eq!(root.resolve_relative(Some("/work/repo")).unwrap(), "");
}

#[test]
fn errors_convert_from_path_and_read_errors() {
    let e: ReadError = PathError::NotFound.into();
    assert!(matches!(e, ReadError::Path(PathError::NotFound)));
    let r: cartography_core::refs::RefError = ReadError::Binary.into();
    assert_eq!(r.message(), "binary file");
    let s: cartography_core::search::SearchError = PathError::OutsideRoot.into();
    assert_eq!(s.message(), "path escapes the repository root");
    let c: cartography_core::compress::CompressError = PathError::NotFound.into();
    assert_eq!(c.message(), "path does not exist");
    let y: cartography_core::symbols::SymbolError = ReadError::Binary.into();
    assert_eq!(y.message(), "binary file");
    let empty: Cache<Vec<u8>> = Cache::default();
    assert!(empty.get("a", &meta(1, 1)).is_none());
}

#[test]
fn resolving_a_resolved_path_gives_it_back() {
    let root = RepoRoot::at("/work/repo");
    let rel = root.resolve_relative(Some("/work/repo/src/lib.rs")).unwrap();
    let joined = root.join(&rel);
    assert_eq!(joined, "/work/repo/src/lib.rs");
    assert_eq!(root.resolve_relative(Some(&joined)).unwrap(), rel);
    // The root itself resolves to the empty path, and back.
    let top = root.resolve_relative(Some("/work/repo")).unwrap();
    assert_eq!(top, "");
    let joined = root.join(&top);
    assert_eq!(joined, "/work/repo/");
    assert_eq!(root.resolve_relative(Some(&joined)).unwrap(), "");
}

#[test]
fn graph_cache_drops_graph_when_inventory_changes() {
    let lib = ("lib.rs".to_string(), b"fn foo() {}\n".to_vec());
    let other = ("other.rs".to_string(), b"fn bar() { foo(); }\n".to_vec());
    let mut cache = GraphCache::new();
    assert!(cache.graph().is_none());
    assert!(cache.refresh(&vec![record("lib.rs")]));
    assert!(cache.build_graph(&vec![lib.clone()]));
    assert!(cache.graph().is_some());
    // An unchanged listing keeps the graph.
    assert!(!cache.refresh(&vec![record("lib.rs")]));
    assert!(cache.graph().is_some());
    // A new file changes the listing: the graph goes and the next one sees it.
    assert!(cache.refresh(&vec![record("lib.rs"), record("other.rs")]));
    assert!(cache.graph().is_none());
    assert!(cache.build_graph(&vec![lib.clone(), other]));
    let spots = get_upstream_refs(cache.graph().unwrap(), "foo").unwrap();
    assert!(spots.iter().any(|s| s.file == "other.rs"));
    // An edit (new length and time) changes the listing too.
    let edited = vec![FileRecord { path: "lib.rs".to_string(), meta: meta(2, 5) }];
    assert!(cache.refresh(&edited));
    assert!(cache.graph().is_none());
    assert!(cache.build_graph(&vec![lib]));
    let spots = get_upstream_refs(cache.graph().unwrap(), "foo").unwrap();
    assert!(!spots.iter().any(|s| s.file == "other.rs"));
}

#[test]
fn parsing_a_small_file_still_finds_its_symbols() {
    let g = SymbolGraph::build(&vec![("lib.rs".to_string(), b"fn foo() {}\nfn bar() { foo(); }\n".to_vec())]).unwrap();
    let spots = get_upstream_refs(&g, "foo").unwrap();
    assert_eq!(spots.len(), 1);
    assert_eq!(spots[0].line, 2);
}
