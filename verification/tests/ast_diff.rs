//! Structural diffs and the VCS commands behind them.

use cartography_core::diff::{
    base_files_command, detect_vcs, get_ast_diff, jj_missing, list_base_files, materialize_command,
    ref_check_command, validate_ref, ChangeStatus, DiffError, Vcs,
};

fn entry(name: &str, base: &str, work: &str) -> (String, Vec<u8>, Vec<u8>) {
    (name.to_string(), base.as_bytes().to_vec(), work.as_bytes().to_vec())
}

fn changes(files: &Vec<(String, Vec<u8>, Vec<u8>)>) -> Vec<(ChangeStatus, String, String)> {
    get_ast_diff(files).unwrap().into_iter().map(|c| (c.status, c.name, c.file)).collect()
}

fn added_deleted_modified() -> Vec<(String, Vec<u8>, Vec<u8>)> {
    vec![entry(
        "lib.rs",
        "pub fn foo() {}\n\npub fn bar() {\n    let x = 1;\n}\n",
        "pub fn bar() {\n    let x = 2;\n}\n\npub fn baz() {}\n",
    )]
}

#[test]
fn git_reports_added_deleted_modified() {
    assert_eq!(detect_vcs(false, true), Some(Vcs::Git));
    let got = changes(&added_deleted_modified());
    assert!(got.contains(&(ChangeStatus::Deleted, "foo".into(), "lib.rs".into())));
    assert!(got.contains(&(ChangeStatus::Modified, "bar".into(), "lib.rs".into())));
    assert!(got.contains(&(ChangeStatus::Added, "baz".into(), "lib.rs".into())));
    assert_eq!(got.len(), 3);
}

#[test]
fn git_ignores_formatting_only_edits() {
    let files = vec![entry(
        "lib.rs",
        "pub fn fmt() {\n    let x = 1;\n}\n\npub fn real() {\n    let y = 1;\n}\n",
        "pub fn fmt() {\n  let x = 1;\n}\n\npub fn real() {\n    let y = 2;\n}\n",
    )];
    let got = changes(&files);
    assert_eq!(got, vec![(ChangeStatus::Modified, "real".into(), "lib.rs".into())]);
}

#[test]
fn git_reports_untracked_files_as_added() {
    let files = vec![
        entry("keep.rs", "pub fn keep() {}\n", "pub fn keep() {}\n"),
        entry("new.rs", "", "pub fn fresh() {}\n"),
    ];
    let got = changes(&files);
    assert_eq!(got, vec![(ChangeStatus::Added, "fresh".into(), "new.rs".into())]);
}

#[test]
fn git_invalid_ref_errors() {
    let err = validate_ref("does-not-exist", false).unwrap_err();
    assert!(matches!(err, DiffError::InvalidRef(_)));
    assert!(validate_ref("HEAD", true).is_ok());
}

#[test]
fn git_binary_file_errors() {
    let files = vec![
        entry("lib.rs", "pub fn foo() {}\n", "pub fn foo() {}\n"),
        ("blob.rs".to_string(), Vec::new(), vec![0u8, 1, 2, 3]),
    ];
    match get_ast_diff(&files) {
        Err(DiffError::Binary { file }) => assert_eq!(file, "blob.rs"),
        other => panic!("expected Binary, got {other:?}"),
    }
}

#[test]
fn jj_fallback_reports_symbol_changes() {
    assert_eq!(detect_vcs(true, false), Some(Vcs::Jj));
    let got = changes(&added_deleted_modified());
    assert!(got.contains(&(ChangeStatus::Deleted, "foo".into(), "lib.rs".into())));
    assert!(got.contains(&(ChangeStatus::Modified, "bar".into(), "lib.rs".into())));
    assert!(got.contains(&(ChangeStatus::Added, "baz".into(), "lib.rs".into())));
    assert_eq!(got.len(), 3);
}

#[test]
fn jj_colocated_with_git_resolves_via_jj() {
    assert_eq!(detect_vcs(true, true), Some(Vcs::Jj));
    let files = vec![entry("lib.rs", "pub fn foo() {}\n", "pub fn bar() {}\n")];
    let got = changes(&files);
    assert!(got.contains(&(ChangeStatus::Deleted, "foo".into(), "lib.rs".into())));
    assert!(got.contains(&(ChangeStatus::Added, "bar".into(), "lib.rs".into())));
}

#[test]
fn jj_missing_executable_errors_clearly() {
    match jj_missing() {
        DiffError::Command(msg) => assert!(msg.contains("jj executable not found"), "unexpected message: {msg}"),
        other => panic!("expected Command error, got {other:?}"),
    }
}

#[test]
fn no_vcs_errors() {
    assert_eq!(detect_vcs(false, false), None);
    assert_eq!(DiffError::NoVcs.message(), "no Git or JJ repository found");
}

#[test]
fn vcs_commands_by_backend() {
    let c = ref_check_command(Vcs::Git, "HEAD");
    assert_eq!(c.program, "git");
    assert_eq!(c.args, vec!["rev-parse", "--verify", "--quiet", "HEAD"]);
    let c = ref_check_command(Vcs::Jj, "@-");
    assert_eq!(c.program, "jj");
    assert_eq!(c.args, vec!["log", "-r", "@-", "--no-graph"]);
    let c = base_files_command(Vcs::Git, "HEAD");
    assert_eq!(c.args, vec!["ls-tree", "-r", "--name-only", "HEAD"]);
    let c = base_files_command(Vcs::Jj, "@-");
    assert_eq!(c.args, vec!["file", "list", "-r", "@-"]);
    let c = materialize_command(Vcs::Git, "HEAD", "src/a.rs");
    assert_eq!(c.args, vec!["show", "HEAD:src/a.rs"]);
    let c = materialize_command(Vcs::Jj, "@-", "src/a.rs");
    assert_eq!(c.args, vec!["file", "show", "-r", "@-", "src/a.rs"]);
}

#[test]
fn base_file_listing_splits_lines() {
    assert_eq!(list_base_files(b"a.rs\r\nsrc/b.rs\n"), vec!["a.rs".to_string(), "src/b.rs".to_string()]);
    assert!(list_base_files(b"").is_empty());
}

#[test]
fn unchanged_and_unsupported_files_report_nothing() {
    let files = vec![entry("a.rs", "pub fn a() {}\n", "pub fn a() {}\n"), entry("notes.txt", "x", "y")];
    assert!(get_ast_diff(&files).unwrap().is_empty());
}

#[test]
fn change_summaries_name_kind_and_symbol() {
    let c = get_ast_diff(&added_deleted_modified()).unwrap();
    let foo = c.iter().find(|c| c.name == "foo").unwrap();
    assert_eq!(foo.summary, "deleted function `foo`");
    assert_eq!((foo.line_start, foo.line_end), (1, 1));
}

#[test]
fn command_error_messages() {
    let c = ref_check_command(Vcs::Git, "HEAD");
    match cartography_core::diff::command_failed(&c, b"  fatal: bad revision\n") {
        DiffError::Command(m) => assert_eq!(m, "git rev-parse --verify --quiet HEAD failed: fatal: bad revision"),
        other => panic!("expected Command error, got {other:?}"),
    }
    assert_eq!(cartography_core::diff::spawn_failed("jj", "no such file").message(), "failed to run jj: no such file");
    assert_eq!(validate_ref("nope", false).unwrap_err().message(), "invalid base ref: nope");
    assert_eq!(
        DiffError::Binary { file: "blob.rs".to_string() }.message(),
        "binary file cannot be diffed: blob.rs"
    );
}

#[test]
fn diffing_in_both_directions_mirrors_changes() {
    let base = "pub fn foo() {}\n\npub fn bar() {\n    let x = 1;\n}\n\npub fn gone() {}\n";
    let work = "pub fn bar() {\n    let x = 2;\n}\n\npub fn baz() {}\n";
    let forward = changes(&vec![entry("lib.rs", base, work)]);
    let backward = changes(&vec![entry("lib.rs", work, base)]);
    let names = |v: &Vec<(ChangeStatus, String, String)>, st: ChangeStatus| {
        let mut n: Vec<String> = v.iter().filter(|c| c.0 == st).map(|c| c.1.clone()).collect();
        n.sort();
        n
    };
    assert_eq!(names(&forward, ChangeStatus::Added), names(&backward, ChangeStatus::Deleted));
    assert_eq!(names(&forward, ChangeStatus::Deleted), names(&backward, ChangeStatus::Added));
    assert_eq!(names(&forward, ChangeStatus::Modified), names(&backward, ChangeStatus::Modified));
    assert_eq!(names(&forward, ChangeStatus::Deleted), vec!["foo".to_string(), "gone".to_string()]);
    assert_eq!(names(&forward, ChangeStatus::Modified), vec!["bar".to_string()]);
    // Three symbols before, two after: one addition less two deletions.
    let added = names(&forward, ChangeStatus::Added).len() as i64;
    let deleted = names(&forward, ChangeStatus::Deleted).len() as i64;
    assert_eq!(added - deleted, 2 - 3);
}
