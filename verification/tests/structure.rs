//! The structured view of a file, file unions and removed files.

use cartography_core::compress::{get_file_structure, CompressError};
use cartography_core::diff::{get_ast_diff, union_files, ChangeStatus};

#[test]
fn file_structure_lists_unique_imports_and_signatures() {
    let src = "use std::fmt;\nuse std::io;\n  use std::fmt;  \n\npub fn greet(name: &str) -> String {\n    format!(\"hi {name}\")\n}\n";
    let fs = get_file_structure("lib.rs", src.as_bytes()).unwrap();
    assert_eq!(fs.path, "lib.rs");
    assert_eq!(fs.imports, vec!["use std::fmt;".to_string(), "use std::io;".to_string()]);
    assert_eq!(fs.symbols.len(), 1);
    assert_eq!(fs.symbols[0].name, "greet");
    assert_eq!(fs.symbols[0].signature, "pub fn greet(name: &str) -> String {");
    assert_eq!((fs.symbols[0].line_start, fs.symbols[0].line_end), (5, 7));
}

#[test]
fn file_structure_rejects_unsupported() {
    assert!(matches!(get_file_structure("notes.txt", b"just text"), Err(CompressError::Unsupported)));
    assert_eq!(CompressError::Unsupported.message(), "unsupported file type");
}

#[test]
fn union_of_file_lists_is_sorted_and_unique() {
    let base = vec!["b.rs".to_string(), "a.rs".to_string()];
    let work = vec!["c.rs".to_string(), "a.rs".to_string()];
    assert_eq!(union_files(&base, &work), vec!["a.rs", "b.rs", "c.rs"]);
}

#[test]
fn removed_file_reports_deletions() {
    let files = vec![("gone.py".to_string(), b"def f():\n    pass\n\ndef g():\n    pass\n".to_vec(), Vec::new())];
    let got: Vec<_> = get_ast_diff(&files).unwrap().into_iter().map(|c| (c.status, c.name)).collect();
    assert_eq!(got, vec![(ChangeStatus::Deleted, "f".to_string()), (ChangeStatus::Deleted, "g".to_string())]);
}
