//! The codebase map and regex search.

use cartography_core::cache::FileMeta;
use cartography_core::index::FileRecord;
use cartography_core::search::{normalize_extension, search_codebase, SearchError, SearchState};
use cartography_core::tree::{build_tree, get_codebase_map, MapNode, MapNodeKind};

fn record(path: &str) -> FileRecord {
    FileRecord { path: path.to_string(), meta: FileMeta { len: 1, modified: 0 } }
}

fn file(name: &str, content: &str) -> (String, Vec<u8>) {
    (name.to_string(), content.as_bytes().to_vec())
}

fn child<'a>(n: &'a MapNode, name: &str) -> Option<&'a MapNode> {
    n.children.iter().find(|c| c.name == name)
}

#[test]
fn codebase_map_filters_by_depth() {
    let records = vec![record("a.rs"), record("src/b.rs"), record("src/deep/c.rs")];
    let shallow = get_codebase_map(&records, 1);
    let deep = get_codebase_map(&records, 2);

    // max_depth=1 shows top-level entries and collapses src/.
    let src = child(&shallow, "src").expect("src/ present");
    assert_eq!(src.kind, MapNodeKind::Dir);
    assert_eq!(src.collapsed_entries, Some(2));
    assert!(src.children.is_empty());
    assert!(shallow.children.iter().any(|n| n.name == "a.rs"));
    assert!(!shallow.children.iter().any(|n| n.name == "b.rs"));

    // max_depth=2 expands src/ but collapses src/deep/.
    let src = child(&deep, "src").expect("src/ present");
    assert!(src.children.iter().any(|n| n.name == "b.rs"));
    let deep_dir = child(src, "deep").expect("deep/ present");
    assert_eq!(deep_dir.collapsed_entries, Some(1));
    assert!(!deep.children.iter().any(|n| n.name == "c.rs"));
}

#[test]
fn codebase_map_is_deterministic() {
    let records = vec![record("zeta.rs"), record("alpha.rs"), record("mid.rs")];
    let out = get_codebase_map(&records, 2);
    let names: Vec<&str> = out.children.iter().map(|n| n.name.as_str()).collect();
    assert_eq!(names, ["alpha.rs", "mid.rs", "zeta.rs"]);
}

#[test]
fn codebase_map_paths_and_root() {
    let files = vec!["src/b.rs".to_string(), "a.rs".to_string()];
    let root = build_tree(&files, 3);
    assert_eq!(root.name, ".");
    assert_eq!(root.path, ".");
    assert_eq!(root.kind, MapNodeKind::Dir);
    let src = child(&root, "src").unwrap();
    assert_eq!(src.path, "src");
    let b = child(src, "b.rs").unwrap();
    assert_eq!(b.path, "src/b.rs");
    assert_eq!(b.kind, MapNodeKind::File);
    assert_eq!(b.collapsed_entries, None);
}

#[test]
fn codebase_map_depth_zero_collapses_root() {
    let files = vec!["a.rs".to_string(), "src/b.rs".to_string(), "src/c.rs".to_string()];
    let root = build_tree(&files, 0);
    assert!(root.children.is_empty());
    assert_eq!(root.collapsed_entries, Some(2));
}

#[test]
fn codebase_map_of_nothing_is_empty_root() {
    let root = build_tree(&Vec::new(), 2);
    assert!(root.children.is_empty());
    assert_eq!(root.collapsed_entries, None);
}

#[test]
fn search_rejects_invalid_regex() {
    let files = vec![file("a.rs", "fn main() {}")];
    let err = search_codebase(&files, "(", None, 10).unwrap_err();
    assert!(matches!(err, SearchError::InvalidRegex(_)));
}

#[test]
fn search_rejects_invalid_extension() {
    let files = vec![file("a.rs", "fn main() {}")];
    let err = search_codebase(&files, "fn", Some("a/b"), 10).unwrap_err();
    assert!(matches!(err, SearchError::InvalidExtension));
}

#[test]
fn search_respects_max_results() {
    let mut files = Vec::new();
    for i in 0..5 {
        files.push(file(&format!("f{i}.rs"), "fn foo() {}\nfn foo() {}\n"));
    }
    let results = search_codebase(&files, "foo", None, 3).unwrap();
    assert_eq!(results.len(), 3);
}

#[test]
fn search_filters_by_extension() {
    let files = vec![file("a.rs", "fn foo() {}"), file("b.py", "def foo(): pass")];
    let results = search_codebase(&files, "foo", Some("py"), 10).unwrap();
    assert_eq!(results.len(), 1);
    assert_eq!(results[0].file, "b.py");
}

#[test]
fn search_output_is_deterministic() {
    let files = vec![file("a.rs", "fn foo() {}"), file("b.rs", "fn foo() {}")];
    let r1 = search_codebase(&files, "foo", None, 10).unwrap();
    let r2 = search_codebase(&files, "foo", None, 10).unwrap();
    assert_eq!(r1, r2);
    // Sorted by file path, then line.
    assert_eq!(r1[0].file, "a.rs");
    assert_eq!(r1[1].file, "b.rs");
}

#[test]
fn search_reports_line_numbers_and_text() {
    let files = vec![file("a.rs", "one\nfoo two\nthree foo\n")];
    let r = search_codebase(&files, "foo", None, 10).unwrap();
    assert_eq!(r.len(), 2);
    assert_eq!((r[0].line, r[0].text.as_str()), (2, "foo two\n"));
    assert_eq!((r[1].line, r[1].text.as_str()), (3, "three foo\n"));
}

#[test]
fn search_truncates_within_a_file() {
    let files = vec![file("a.rs", "x\nx\nx\n"), file("b.rs", "x\n")];
    let r = search_codebase(&files, "x", None, 2).unwrap();
    let got: Vec<_> = r.iter().map(|m| (m.file.as_str(), m.line)).collect();
    assert_eq!(got, vec![("a.rs", 1), ("a.rs", 2)]);
}

#[test]
fn search_extension_is_case_insensitive_and_dot_tolerant() {
    let files = vec![file("A.RS", "foo\n"), file("b.py", "foo\n"), file("c", "foo\n")];
    let r = search_codebase(&files, "foo", Some(".Rs"), 10).unwrap();
    assert_eq!(r.len(), 1);
    assert_eq!(r[0].file, "A.RS");
}

#[test]
fn normalize_extension_cases() {
    assert_eq!(normalize_extension(".PY").unwrap(), "py");
    assert_eq!(normalize_extension("rs").unwrap(), "rs");
    assert!(matches!(normalize_extension(""), Err(SearchError::InvalidExtension)));
    assert!(matches!(normalize_extension("."), Err(SearchError::InvalidExtension)));
    assert!(matches!(normalize_extension("a\\b"), Err(SearchError::InvalidExtension)));
}

#[test]
fn search_state_stops_when_full() {
    let mut s = SearchState::start("x", None, 1).unwrap();
    assert!(s.wants_more());
    s.feed("a.rs", b"x\nx\n").unwrap();
    assert!(!s.wants_more());
    s.feed("b.rs", b"x\n").unwrap();
    let r = s.finish();
    assert_eq!(r.len(), 1);
    assert_eq!(r[0].file, "a.rs");
}

#[test]
fn search_error_messages() {
    assert_eq!(SearchError::InvalidExtension.message(), "invalid extension filter");
    let err = search_codebase(&Vec::new(), "(", None, 10).unwrap_err();
    assert!(err.message().starts_with("invalid regex: "));
}

#[test]
fn search_decodes_invalid_utf8_lossily() {
    let files = vec![("a.rs".to_string(), vec![b'f', b'o', b'o', 0xff, b'\n'])];
    let r = search_codebase(&files, "foo", None, 10).unwrap();
    assert_eq!(r[0].text, "foo\u{fffd}\n");
}

#[test]
fn search_results_come_in_file_then_line_order() {
    let files = vec![file("a.rs", "foo\nbar\nfoo\n"), file("b.rs", "x\nfoo\n")];
    let results = search_codebase(&files, "foo", None, 10).unwrap();
    let got: Vec<(String, usize)> = results.iter().map(|m| (m.file.clone(), m.line)).collect();
    assert_eq!(got, vec![("a.rs".to_string(), 1), ("a.rs".to_string(), 3), ("b.rs".to_string(), 2)]);
    assert_eq!(results[1].text, "foo\n");
}

#[test]
fn codebase_map_clones_entry_for_entry() {
    let files = vec!["src/b.rs".to_string(), "a.rs".to_string(), "src/c/d.rs".to_string()];
    let root = build_tree(&files, 1);
    let copy = root.clone();
    assert_eq!(format!("{:?}", copy), format!("{:?}", root));
    let src = child(&copy, "src").unwrap();
    assert_eq!(src.collapsed_entries, Some(2));
    assert_eq!(copy.children.len(), 2);
}
