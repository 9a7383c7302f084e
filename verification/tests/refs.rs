//! Reference graph queries: upstream reference spots and downstream callers.

use cartography_core::graph::SymbolGraph;
use cartography_core::refs::{get_downstream_refs, get_upstream_refs, RefError};

fn file(name: &str, content: &str) -> (String, Vec<u8>) {
    (name.to_string(), content.as_bytes().to_vec())
}

/// A chain `leaf <- mid <- root` where `mid` calls `leaf` and `root` calls `mid`.
fn chain() -> Vec<(String, Vec<u8>)> {
    vec![
        file("leaf.rs", "pub fn leaf() {}\n"),
        file("mid.rs", "pub fn mid() {\n    leaf();\n}\n"),
        file("root.rs", "pub fn root() {\n    mid();\n}\n"),
    ]
}

fn graph(files: &Vec<(String, Vec<u8>)>) -> SymbolGraph {
    SymbolGraph::build(files).expect("graph fits")
}

#[test]
fn empty_graph_reports_not_found() {
    let g = graph(&Vec::new());
    assert!(matches!(get_downstream_refs(&g, "foo", 3), Err(RefError::NotFound)));
    assert!(matches!(get_upstream_refs(&g, "foo"), Err(RefError::NotFound)));
}

#[test]
fn downstream_respects_depth_limit() {
    let g = graph(&chain());

    let shallow = get_downstream_refs(&g, "leaf", 1).unwrap();
    let symbols: Vec<_> = shallow.callers.iter().map(|c| c.symbol.as_str()).collect();
    assert_eq!(symbols, vec!["mid"]);
    assert_eq!(shallow.callers[0].depth, 1);
    assert_eq!(shallow.paths.len(), 1);
    assert_eq!(shallow.paths[0].path, vec!["leaf.rs:leaf", "mid.rs:mid"]);

    let deep = get_downstream_refs(&g, "leaf", 2).unwrap();
    let symbols: Vec<_> = deep.callers.iter().map(|c| c.symbol.as_str()).collect();
    assert_eq!(symbols, vec!["mid", "root"]);
    assert_eq!(deep.callers[1].depth, 2);
    assert_eq!(deep.paths.len(), 2);
    assert_eq!(deep.paths[1].path, vec!["leaf.rs:leaf", "mid.rs:mid", "root.rs:root"]);
}

#[test]
fn reverse_lookup_returns_empty_when_no_callers() {
    let files = vec![
        file("leaf.rs", "pub fn leaf() {}\n"),
        file("mid.rs", "pub fn mid() {\n    leaf();\n}\n"),
    ];
    let g = graph(&files);

    // Nothing references `mid`, so downstream is empty.
    let res = get_downstream_refs(&g, "mid", 3).unwrap();
    assert!(res.callers.is_empty());
    assert!(res.paths.is_empty());
}

#[test]
fn upstream_finds_reference_sites() {
    let g = graph(&chain());

    let spots = get_upstream_refs(&g, "leaf").unwrap();
    assert_eq!(spots.len(), 1);
    assert_eq!(spots[0].file, "mid.rs");
    assert!(spots[0].context.contains("leaf"));
}

#[test]
fn downstream_is_deterministic() {
    let g = graph(&chain());

    let a = get_downstream_refs(&g, "leaf", 2).unwrap();
    let b = get_downstream_refs(&g, "leaf", 2).unwrap();
    assert_eq!(a, b);
}

#[test]
fn ambiguous_name_reports_error() {
    let files = vec![file("a.rs", "pub fn shared() {}\n"), file("b.rs", "pub fn shared() {}\n")];
    let g = graph(&files);

    // A bare name defined in multiple files cannot be resolved to one key.
    assert!(matches!(get_downstream_refs(&g, "shared", 2), Err(RefError::Ambiguous { .. })));
}

#[test]
fn ambiguous_name_lists_files_in_order() {
    let files = vec![file("b.rs", "pub fn shared() {}\n"), file("a.rs", "pub fn shared() {}\n")];
    let g = graph(&files);
    match get_downstream_refs(&g, "shared", 2) {
        Err(e @ RefError::Ambiguous { .. }) => {
            assert_eq!(e.message(), "symbol found in multiple files: a.rs, b.rs");
            if let RefError::Ambiguous { files } = e {
                assert_eq!(files, vec!["a.rs".to_string(), "b.rs".to_string()]);
            }
        }
        _ => panic!("expected an ambiguity"),
    }
}

#[test]
fn qualified_key_disambiguates() {
    let files = vec![
        file("a.rs", "pub fn shared() {}\n"),
        file("b.rs", "pub fn shared() {}\n"),
        file("c.rs", "pub fn user() {\n    shared();\n}\n"),
    ];
    let g = graph(&files);
    let res = get_downstream_refs(&g, "a.rs:shared", 1).unwrap();
    let symbols: Vec<_> = res.callers.iter().map(|c| c.symbol.as_str()).collect();
    assert_eq!(symbols, vec!["user"]);
    assert_eq!(res.paths[0].path, vec!["a.rs:shared", "c.rs:user"]);
    assert_eq!(g.resolve_key("b.rs:shared").unwrap(), "b.rs:shared");
}

#[test]
fn depth_zero_reaches_nothing() {
    let g = graph(&chain());
    let res = get_downstream_refs(&g, "leaf", 0).unwrap();
    assert!(res.callers.is_empty());
    assert!(res.paths.is_empty());
}

#[test]
fn caller_records_carry_node_data() {
    let g = graph(&chain());
    let res = get_downstream_refs(&g, "mid", 5).unwrap();
    assert_eq!(res.callers.len(), 1);
    let c = &res.callers[0];
    assert_eq!(c.symbol, "root");
    assert_eq!(c.kind, "function");
    assert_eq!(c.file, "root.rs");
    assert_eq!((c.line_start, c.line_end), (1, 3));
    assert_eq!(c.depth, 1);
}

#[test]
fn self_reference_is_not_an_edge() {
    let files = vec![file("r.rs", "fn again() {\n    again();\n}\n")];
    let g = graph(&files);
    let res = get_downstream_refs(&g, "again", 3).unwrap();
    assert!(res.callers.is_empty());
    // The recursive call is still a reference site.
    let spots = get_upstream_refs(&g, "again").unwrap();
    assert_eq!(spots.len(), 1);
    assert_eq!(spots[0].line, 2);
    assert_eq!(spots[0].context, "again();");
}

#[test]
fn upstream_spots_sorted_by_file_then_line() {
    let files = vec![
        file("z.rs", "fn z() {\n    foo();\n    foo();\n}\n"),
        file("a.rs", "fn foo() {}\nfn a() { foo(); }\n"),
    ];
    let g = graph(&files);
    let spots = get_upstream_refs(&g, "foo").unwrap();
    let got: Vec<_> = spots.iter().map(|s| (s.file.as_str(), s.line)).collect();
    assert_eq!(got, vec![("a.rs", 2), ("z.rs", 2), ("z.rs", 3)]);
    assert_eq!(spots[0].context, "fn a() { foo(); }");
}

#[test]
fn graph_has_names_of_definitions_only() {
    let g = graph(&chain());
    assert!(g.has_name("leaf"));
    assert!(!g.has_name("missing"));
    assert!(matches!(g.resolve_key("missing"), Err(RefError::NotFound)));
    assert_eq!(g.resolve_key("leaf").unwrap(), "leaf.rs:leaf");
}

#[test]
fn unsupported_files_add_nothing() {
    let files = vec![file("notes.txt", "leaf mid root\n")];
    let g = graph(&files);
    assert!(!g.has_name("leaf"));
    assert!(matches!(get_upstream_refs(&g, "leaf"), Err(RefError::NotFound)));
}

#[test]
fn downstream_reaches_every_caller_within_depth_once() {
    // `a` is called by `b` and `c`; `d` calls both `b` and `c`.
    let files = vec![
        file("a.rs", "fn a() {}\n"),
        file("b.rs", "fn b() { a(); }\n"),
        file("c.rs", "fn c() { a(); }\n"),
        file("d.rs", "fn d() { b(); c(); }\n"),
    ];
    let g = graph(&files);
    let res = get_downstream_refs(&g, "a", 5).unwrap();
    let got: Vec<_> = res.callers.iter().map(|c| (c.symbol.as_str(), c.depth)).collect();
    assert_eq!(got, vec![("b", 1), ("c", 1), ("d", 2)]);
    let paths: Vec<Vec<String>> = res.paths.iter().map(|p| p.path.clone()).collect();
    assert_eq!(paths.len(), 3);
    assert_eq!(paths[0], vec!["a.rs:a", "b.rs:b"]);
    assert_eq!(paths[1], vec!["a.rs:a", "c.rs:c"]);
    assert_eq!(paths[2].len(), 3);
    assert_eq!(paths[2][2], "d.rs:d");
}
