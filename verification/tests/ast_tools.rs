//! Symbol extraction and lookup.

use cartography_core::symbols::{get_file_outline, get_symbol_definition, SymbolError};

fn file(name: &str, content: &str) -> (String, Vec<u8>) {
    (name.to_string(), content.as_bytes().to_vec())
}

#[test]
fn missing_symbol_returns_not_found() {
    let files = vec![file("a.rs", "pub fn present() {}")];
    let err = get_symbol_definition("absent", &files).unwrap_err();
    assert!(matches!(err, SymbolError::NotFound));
}

#[test]
fn ambiguous_symbol_across_files_errors() {
    let files = vec![file("a.rs", "pub fn dup() {}"), file("b.rs", "pub fn dup() {}")];
    let err = get_symbol_definition("dup", &files).unwrap_err();
    match err {
        SymbolError::Ambiguous { files } => {
            assert_eq!(files, vec!["a.rs".to_string(), "b.rs".to_string()]);
        }
        other => panic!("expected Ambiguous, got {other:?}"),
    }
}

#[test]
fn symbol_definition_returns_exact_source_range() {
    let files = vec![file("lib.rs", "pub fn foo(x: i32) -> i32 {\n    x + 1\n}\n\npub fn bar() {}\n")];
    let def = get_symbol_definition("foo", &files).unwrap();
    assert_eq!(def, "pub fn foo(x: i32) -> i32 {\n    x + 1\n}");
}

#[test]
fn symbol_definition_scoped_to_file() {
    let a = file("a.rs", "pub fn shared() {}\npub fn other() {}");
    let b = file("b.rs", "pub fn shared() {}");
    // Without a file path this is ambiguous.
    assert!(matches!(
        get_symbol_definition("shared", &vec![a.clone(), b]),
        Err(SymbolError::Ambiguous { .. })
    ));
    // Scoped to a file it resolves deterministically.
    let def = get_symbol_definition("shared", &vec![a]).unwrap();
    assert_eq!(def, "pub fn shared() {}");
}

#[test]
fn first_match_by_line_within_a_file() {
    let files = vec![file("m.py", "def f():\n    return 1\n\ndef f():\n    return 2\n")];
    let def = get_symbol_definition("f", &files).unwrap();
    assert_eq!(def, "def f():\n    return 1");
}

#[test]
fn outline_lists_symbols_in_order() {
    let out = get_file_outline("lib.rs", b"pub struct Point {}\n\nimpl Point {\n    fn norm(&self) {}\n}\n").unwrap();
    let got: Vec<_> = out.iter().map(|s| (s.name.as_str(), s.kind.as_str(), s.line_start, s.line_end)).collect();
    assert_eq!(got[0], ("Point", "struct", 1, 1));
    assert!(got.contains(&("norm", "function", 4, 4)));
}

#[test]
fn outline_rejects_unsupported_files() {
    assert!(matches!(get_file_outline("notes.txt", b"just text"), Err(SymbolError::Unsupported)));
    assert_eq!(SymbolError::Unsupported.message(), "unsupported file type");
}
