//! Syntax trees and symbol extraction.
//!
//! A parsed source file is held as its syntax nodes in document (pre-)order,
//! each with its depth below the root. Declaration nodes are normalised into
//! [`Symbol`]s carrying a canonical kind and exact source span.

use vstd::prelude::*;
use vstd::string::StringSliceAdditionalSpecFns;

use tree_sitter::Parser;
use tree_sitter_c::LANGUAGE as C;
use tree_sitter_cpp::LANGUAGE as CPP;
use tree_sitter_go::LANGUAGE as GO;
use tree_sitter_java::LANGUAGE as JAVA;
use tree_sitter_javascript::LANGUAGE as JAVASCRIPT;
use tree_sitter_python::LANGUAGE as PYTHON;
use tree_sitter_rust::LANGUAGE as RUST;
use tree_sitter_typescript::{LANGUAGE_TSX as TSX, LANGUAGE_TYPESCRIPT as TYPESCRIPT};

use crate::languages::Language;
use crate::text::{slice_text, str_eq, text_at, valid_byte_range};

verus! {

/// One node of a syntax tree, as met in a pre-order walk of the tree.
pub struct SyntaxNode {
    /// The grammar's name for the node, e.g. `function_item`.
    pub kind: String,
    /// The field under which the node hangs from its parent, e.g. `name`.
    pub field: Option<String>,
    /// Byte offset of the node's first byte.
    pub start_byte: usize,
    /// Byte offset one past the node's last byte.
    pub end_byte: usize,
    /// 0-indexed line of the node's first byte.
    pub start_row: usize,
    /// 0-indexed line of the node's last byte.
    pub end_row: usize,
    /// Distance from the root (the root has depth 0).
    pub depth: usize,
}

/// A normalized symbol: a named declaration with its source span.
#[derive(Debug, Clone, PartialEq, Eq)]
pub struct Symbol {
    pub name: String,
    /// Canonical kind, e.g. `function`, `class`, `interface`, `method`.
    pub kind: String,
    /// 1-indexed first line of the declaration.
    pub line_start: usize,
    /// 1-indexed last line of the declaration.
    pub line_end: usize,
    /// Byte offset of the declaration start (for exact source slicing).
    pub start_byte: usize,
    /// Byte offset one past the declaration end.
    pub end_byte: usize,
    /// Byte offset of the start of the declaration's name.
    pub name_start_byte: usize,
    /// Byte offset one past the end of the declaration's name.
    pub name_end_byte: usize,
}

/// The mathematical content of a [`Symbol`].
pub struct SymbolView {
    pub name: Seq<char>,
    pub kind: Seq<char>,
    pub line_start: int,
    pub line_end: int,
    pub start_byte: int,
    pub end_byte: int,
    pub name_start_byte: int,
    pub name_end_byte: int,
}

impl View for Symbol {
    type V = SymbolView;

    open spec fn view(&self) -> SymbolView {
        SymbolView {
            name: self.name@,
            kind: self.kind@,
            line_start: self.line_start as int,
            line_end: self.line_end as int,
            start_byte: self.start_byte as int,
            end_byte: self.end_byte as int,
            name_start_byte: self.name_start_byte as int,
            name_end_byte: self.name_end_byte as int,
        }
    }
}

/// The canonical symbol kind of a grammar node kind, if it declares one.
pub open spec fn canonical_kind_of(kind: Seq<char>) -> Option<Seq<char>> {
    if kind == "function_item"@ || kind == "function_definition"@ || kind
        == "function_declaration"@ || kind == "function_signature"@ || kind
        == "function_signature_item"@ || kind == "generator_function_declaration"@ || kind
        == "call_signature"@ {
        Some("function"@)
    } else if kind == "method_definition"@ || kind == "method_declaration"@ || kind
        == "method_signature"@ {
        Some("method"@)
    } else if kind == "class_definition"@ || kind == "class_declaration"@ || kind
        == "abstract_class_declaration"@ || kind == "class_specifier"@ {
        Some("class"@)
    } else if kind == "interface_declaration"@ {
        Some("interface"@)
    } else if kind == "struct_item"@ || kind == "struct_specifier"@ {
        Some("struct"@)
    } else if kind == "enum_item"@ || kind == "enum_declaration"@ || kind == "enum_specifier"@ {
        Some("enum"@)
    } else if kind == "trait_item"@ {
        Some("trait"@)
    } else if kind == "mod_item"@ || kind == "namespace_definition"@ {
        Some("module"@)
    } else if kind == "type_item"@ || kind == "type_alias_declaration"@ || kind == "type_spec"@ {
        Some("type"@)
    } else if kind == "const_item"@ {
        Some("const"@)
    } else if kind == "static_item"@ {
        Some("static"@)
    } else if kind == "macro_definition"@ {
        Some("macro"@)
    } else if kind == "union_item"@ || kind == "union_specifier"@ {
        Some("union"@)
    } else if kind == "construct_signature"@ || kind == "constructor_declaration"@ {
        Some("constructor"@)
    } else if kind == "record_declaration"@ {
        Some("record"@)
    } else if kind == "annotation_type_declaration"@ {
        Some("annotation"@)
    } else {
        None
    }
}

/// Map a grammar node kind to a canonical symbol kind.
pub fn canonical_kind(kind: &str) -> (r: Option<&'static str>)
    ensures
        r matches Some(k) ==> canonical_kind_of(kind@) == Some(k@),
        r is None ==> canonical_kind_of(kind@) is None,
{
    if str_eq(kind, "function_item") || str_eq(kind, "function_definition") || str_eq(
        kind,
        "function_declaration",
    ) || str_eq(kind, "function_signature") || str_eq(kind, "function_signature_item") || str_eq(
        kind,
        "generator_function_declaration",
    ) || str_eq(kind, "call_signature") {
        Some("function")
    } else if str_eq(kind, "method_definition") || str_eq(kind, "method_declaration") || str_eq(
        kind,
        "method_signature",
    ) {
        Some("method")
    } else if str_eq(kind, "class_definition") || str_eq(kind, "class_declaration") || str_eq(
        kind,
        "abstract_class_declaration",
    ) || str_eq(kind, "class_specifier") {
        Some("class")
    } else if str_eq(kind, "interface_declaration") {
        Some("interface")
    } else if str_eq(kind, "struct_item") || str_eq(kind, "struct_specifier") {
        Some("struct")
    } else if str_eq(kind, "enum_item") || str_eq(kind, "enum_declaration") || str_eq(
        kind,
        "enum_specifier",
    ) {
        Some("enum")
    } else if str_eq(kind, "trait_item") {
        Some("trait")
    } else if str_eq(kind, "mod_item") || str_eq(kind, "namespace_definition") {
        Some("module")
    } else if str_eq(kind, "type_item") || str_eq(kind, "type_alias_declaration") || str_eq(
        kind,
        "type_spec",
    ) {
        Some("type")
    } else if str_eq(kind, "const_item") {
        Some("const")
    } else if str_eq(kind, "static_item") {
        Some("static")
    } else if str_eq(kind, "macro_definition") {
        Some("macro")
    } else if str_eq(kind, "union_item") || str_eq(kind, "union_specifier") {
        Some("union")
    } else if str_eq(kind, "construct_signature") || str_eq(kind, "constructor_declaration") {
        Some("constructor")
    } else if str_eq(kind, "record_declaration") {
        Some("record")
    } else if str_eq(kind, "annotation_type_declaration") {
        Some("annotation")
    } else {
        None
    }
}

/// Whether a node of this kind may serve as a declaration's name when the
/// declaration has no `name` field.
pub open spec fn is_name_kind(kind: Seq<char>) -> bool {
    kind == "identifier"@ || kind == "field_identifier"@ || kind == "type_identifier"@
}

fn name_kind(kind: &str) -> (r: bool)
    ensures
        r == is_name_kind(kind@),
{
    str_eq(kind, "identifier") || str_eq(kind, "field_identifier") || str_eq(
        kind,
        "type_identifier",
    )
}

/// First position at or after `j` whose node is not deeper than `d`.
pub open spec fn end_from(nodes: Seq<SyntaxNode>, d: int, j: int) -> int
    decreases nodes.len() - j,
{
    if j < 0 || j >= nodes.len() || nodes[j].depth <= d {
        j
    } else {
        end_from(nodes, d, j + 1)
    }
}

/// One past the last node of the subtree rooted at position `i`.
pub open spec fn subtree_end(nodes: Seq<SyntaxNode>, i: int) -> int {
    end_from(nodes, nodes[i].depth as int, i + 1)
}

proof fn lemma_end_from_bounds(nodes: Seq<SyntaxNode>, d: int, j: int)
    requires
        0 <= j <= nodes.len(),
    ensures
        j <= end_from(nodes, d, j) <= nodes.len(),
        forall|k: int| j <= k < end_from(nodes, d, j) ==> nodes[k].depth > d,
        end_from(nodes, d, j) < nodes.len() ==> nodes[end_from(nodes, d, j)].depth <= d,
    decreases nodes.len() - j,
{
    if j < nodes.len() && nodes[j].depth > d {
        lemma_end_from_bounds(nodes, d, j + 1);
    }
}

/// Subtrees nest: a subtree that starts inside the subtree at `k` ends
/// within it.
proof fn lemma_subtree_nested(nodes: Seq<SyntaxNode>, k: int, m: int)
    requires
        0 <= k < m < subtree_end(nodes, k),
    ensures
        m < subtree_end(nodes, m) <= subtree_end(nodes, k),
{
    lemma_end_from_bounds(nodes, nodes[k].depth as int, k + 1);
    lemma_end_from_bounds(nodes, nodes[m].depth as int, m + 1);
    let e = subtree_end(nodes, k);
    if e < subtree_end(nodes, m) {
        assert(nodes[e].depth > nodes[m].depth);
        assert(nodes[m].depth > nodes[k].depth);
    }
}

/// One past the last node of the subtree rooted at position `i`.
fn subtree_end_of(nodes: &Vec<SyntaxNode>, i: usize) -> (r: usize)
    requires
        i < nodes.len(),
    ensures
        r == subtree_end(nodes@, i as int),
        i < r <= nodes.len(),
{
    let d = nodes[i].depth;
    let mut j = i + 1;
    while j < nodes.len() && nodes[j].depth > d
        invariant
            i < j <= nodes.len(),
            d == nodes@[i as int].depth,
            end_from(nodes@, d as int, j as int) == subtree_end(nodes@, i as int),
        decreases nodes.len() - j,
    {
        j = j + 1;
    }
    j
}

/// Whether the node at `j` is a child of the node at `i` hung under the
/// field `name`.
pub open spec fn is_name_field_child(nodes: Seq<SyntaxNode>, i: int, j: int) -> bool {
    &&& nodes[j].depth == nodes[i].depth + 1
    &&& nodes[j].field matches Some(f) && f@ == "name"@
}

/// The first position in `j..e` holding a `name`-field child of `i`.
pub open spec fn name_child_from(nodes: Seq<SyntaxNode>, i: int, e: int, j: int) -> Option<int>
    decreases e - j,
{
    if j >= e {
        None
    } else if is_name_field_child(nodes, i, j) {
        Some(j)
    } else {
        name_child_from(nodes, i, e, j + 1)
    }
}

/// The position of the child of `i` in its `name` field, if any.
pub open spec fn name_child(nodes: Seq<SyntaxNode>, i: int) -> Option<int> {
    name_child_from(nodes, i, subtree_end(nodes, i), i + 1)
}

/// Whether the node at `j`, inside the subtree at `i`, lies within a nested
/// declaration (a node strictly below `i` with a canonical kind whose subtree
/// holds `j`).
pub open spec fn in_nested_declaration(nodes: Seq<SyntaxNode>, i: int, j: int) -> bool {
    exists|k: int|
        #![trigger subtree_end(nodes, k)]
        i < k <= j && j < subtree_end(nodes, k) && canonical_kind_of(nodes[k].kind@) is Some
}

/// Whether the node at `j` may supply the name of the declaration at `i` when
/// `i` has no `name` field: an identifier-like node in `i`'s subtree outside
/// any nested declaration.
pub open spec fn is_fallback_name(nodes: Seq<SyntaxNode>, i: int, j: int) -> bool {
    &&& i < j < subtree_end(nodes, i)
    &&& is_name_kind(nodes[j].kind@)
    &&& !in_nested_declaration(nodes, i, j)
}

/// The first position in `j..` of a fallback name for `i`.
pub open spec fn fallback_name_from(nodes: Seq<SyntaxNode>, i: int, j: int) -> Option<int>
    decreases nodes.len() - j,
{
    if j < 0 || j >= nodes.len() {
        None
    } else if is_fallback_name(nodes, i, j) {
        Some(j)
    } else {
        fallback_name_from(nodes, i, j + 1)
    }
}

/// The position of the node naming the declaration at `i`: its `name` field
/// when it has one, else its first fallback name.
pub open spec fn name_node(nodes: Seq<SyntaxNode>, i: int) -> Option<int> {
    match name_child(nodes, i) {
        Some(j) => Some(j),
        None => fallback_name_from(nodes, i, i + 1),
    }
}

/// The text of the node at `j` of a tree parsed from text with bytes `src`.
pub open spec fn node_text(nodes: Seq<SyntaxNode>, src: Seq<u8>, j: int) -> Option<Seq<char>> {
    text_at(src, nodes[j].start_byte as int, nodes[j].end_byte as int)
}

/// The symbol declared by the node at `i`, if it has a canonical kind and a
/// name whose text can be read.
pub open spec fn symbol_at(nodes: Seq<SyntaxNode>, src: Seq<u8>, i: int) -> Option<SymbolView> {
    match canonical_kind_of(nodes[i].kind@) {
        None => None,
        Some(kind) => match name_node(nodes, i) {
            None => None,
            Some(j) => match node_text(nodes, src, j) {
                None => None,
                Some(name) => Some(
                    SymbolView {
                        name,
                        kind,
                        line_start: nodes[i].start_row + 1,
                        line_end: nodes[i].end_row + 1,
                        start_byte: nodes[i].start_byte as int,
                        end_byte: nodes[i].end_byte as int,
                        name_start_byte: nodes[j].start_byte as int,
                        name_end_byte: nodes[j].end_byte as int,
                    },
                ),
            },
        },
    }
}

/// The symbols declared by the first `n` nodes, in document order.
pub open spec fn symbols_upto(nodes: Seq<SyntaxNode>, src: Seq<u8>, n: int) -> Seq<SymbolView>
    decreases n,
{
    if n <= 0 {
        Seq::empty()
    } else {
        let prev = symbols_upto(nodes, src, n - 1);
        match symbol_at(nodes, src, n - 1) {
            Some(s) => prev.push(s),
            None => prev,
        }
    }
}

/// All symbols declared in a tree, in document order.
pub open spec fn symbols_of(nodes: Seq<SyntaxNode>, src: Seq<u8>) -> Seq<SymbolView> {
    symbols_upto(nodes, src, nodes.len() as int)
}

/// Whether every node of the tree sits on a line that fits the platform's
/// integers with room for one more.
pub open spec fn rows_bounded(nodes: Seq<SyntaxNode>) -> bool {
    forall|i: int| 0 <= i < nodes.len() ==> #[trigger] nodes[i].end_row < usize::MAX && nodes[i].start_row < usize::MAX
}

/// The position of the child of `i` in its `name` field, if any.
fn find_name_child(nodes: &Vec<SyntaxNode>, i: usize) -> (r: Option<usize>)
    requires
        i < nodes.len(),
    ensures
        r matches Some(j) ==> name_child(nodes@, i as int) == Some(j as int),
        r is None ==> name_child(nodes@, i as int) is None,
{
    let e = subtree_end_of(nodes, i);
    let mut j = i + 1;
    while j < e
        invariant
            i < j <= e <= nodes.len(),
            e == subtree_end(nodes@, i as int),
            name_child_from(nodes@, i as int, e as int, j as int) == name_child(nodes@, i as int),
        decreases e - j,
    {
        let is_name = match &nodes[j].field {
            Some(f) => str_eq(f.as_str(), "name"),
            None => false,
        };
        if nodes[j].depth == nodes[i].depth + 1 && is_name {
            return Some(j);
        }
        j = j + 1;
    }
    None
}

/// The first fallback name of the declaration at `i` (see
/// [`is_fallback_name`]).
fn first_name(nodes: &Vec<SyntaxNode>, i: usize) -> (r: Option<usize>)
    requires
        i < nodes.len(),
    ensures
        r matches Some(j) ==> fallback_name_from(nodes@, i as int, i + 1) == Some(j as int),
        r is None ==> fallback_name_from(nodes@, i as int, i + 1) is None,
{
    let ghost ns = nodes@;
    let e = subtree_end_of(nodes, i);
    proof {
        lemma_end_from_bounds(ns, ns[i as int].depth as int, i + 1);
    }
    let mut j = i + 1;
    // Nodes before `skip` lie in a nested declaration.
    let mut skip = i + 1;
    while j < e
        invariant
            ns == nodes@,
            i < j <= e <= nodes.len(),
            e == subtree_end(ns, i as int),
            i < skip,
            fallback_name_from(ns, i as int, j as int) == fallback_name_from(ns, i as int, i + 1),
            skip > i + 1 ==> exists|k: int|
                #![trigger subtree_end(ns, k)]
                i < k < j && skip == subtree_end(ns, k) && canonical_kind_of(ns[k].kind@) is Some,
            forall|k: int|
                #![trigger subtree_end(ns, k)]
                i < k < j && canonical_kind_of(ns[k].kind@) is Some ==> subtree_end(ns, k) <= skip,
        decreases e - j,
    {
        let canon = canonical_kind(nodes[j].kind.as_str());
        if j < skip {
            proof {
                let k = choose|k: int|
                    #![trigger subtree_end(ns, k)]
                    i < k < j && skip == subtree_end(ns, k) && canonical_kind_of(ns[k].kind@) is Some;
                assert(i < k <= j && j < subtree_end(ns, k));
                assert(in_nested_declaration(ns, i as int, j as int));
                assert(!is_fallback_name(ns, i as int, j as int));
                if canon.is_some() {
                    lemma_subtree_nested(ns, k, j as int);
                }
            }
            j = j + 1;
        } else if canon.is_some() {
            proof {
                lemma_end_from_bounds(ns, ns[j as int].depth as int, j + 1);
                assert(i < j <= j && j < subtree_end(ns, j as int));
                assert(in_nested_declaration(ns, i as int, j as int));
            }
            let s = subtree_end_of(nodes, j);
            skip = s;
            j = j + 1;
        } else if name_kind(nodes[j].kind.as_str()) {
            proof {
                assert forall|k: int|
                    #![trigger subtree_end(ns, k)]
                    i < k <= j && j < subtree_end(ns, k) implies canonical_kind_of(
                    ns[k].kind@,
                ) is None by {}
                assert(is_fallback_name(ns, i as int, j as int));
            }
            return Some(j);
        } else {
            j = j + 1;
        }
    }
    proof {
        assert forall|jj: int| e <= jj implies !is_fallback_name(ns, i as int, jj) by {}
        lemma_no_fallback_after(ns, i as int, e as int);
    }
    None
}

proof fn lemma_no_fallback_after(nodes: Seq<SyntaxNode>, i: int, j: int)
    requires
        0 <= i < nodes.len(),
        subtree_end(nodes, i) <= j,
    ensures
        fallback_name_from(nodes, i, j) is None,
    decreases nodes.len() - j,
{
    if 0 <= j < nodes.len() {
        lemma_no_fallback_after(nodes, i, j + 1);
    }
}

/// The position of the node naming the declaration at `i`.
fn node_name(nodes: &Vec<SyntaxNode>, i: usize) -> (r: Option<usize>)
    requires
        i < nodes.len(),
    ensures
        r matches Some(j) ==> name_node(nodes@, i as int) == Some(j as int) && j < nodes.len(),
        r is None ==> name_node(nodes@, i as int) is None,
{
    match find_name_child(nodes, i) {
        Some(j) => {
            proof {
                lemma_name_child_in_subtree(nodes@, i as int, subtree_end(nodes@, i as int), i + 1);
                lemma_end_from_bounds(nodes@, nodes@[i as int].depth as int, i + 1);
            }
            Some(j)
        },
        None => {
            let r = first_name(nodes, i);
            proof {
                if r is Some {
                    lemma_fallback_in_range(nodes@, i as int, i + 1);
                }
            }
            r
        },
    }
}

proof fn lemma_name_child_in_subtree(nodes: Seq<SyntaxNode>, i: int, e: int, j: int)
    ensures
        name_child_from(nodes, i, e, j) matches Some(k) ==> j <= k < e,
    decreases e - j,
{
    if j < e && !is_name_field_child(nodes, i, j) {
        lemma_name_child_in_subtree(nodes, i, e, j + 1);
    }
}

proof fn lemma_fallback_in_range(nodes: Seq<SyntaxNode>, i: int, j: int)
    ensures
        fallback_name_from(nodes, i, j) matches Some(k) ==> 0 <= k < nodes.len(),
    decreases nodes.len() - j,
{
    if 0 <= j < nodes.len() && !is_fallback_name(nodes, i, j) {
        lemma_fallback_in_range(nodes, i, j + 1);
    }
}

/// Collect the symbols declared in a parsed tree, in document order:
/// every node with a canonical kind whose name can be read.
pub fn collect(nodes: &Vec<SyntaxNode>, source: &str) -> (out: Vec<Symbol>)
    requires
        rows_bounded(nodes@),
    ensures
        out@.map_values(|s: Symbol| s@) == symbols_of(nodes@, source.spec_bytes()),
{
    let mut out: Vec<Symbol> = Vec::new();
    let mut i: usize = 0;
    while i < nodes.len()
        invariant
            i <= nodes.len(),
            rows_bounded(nodes@),
            out@.map_values(|s: Symbol| s@) == symbols_upto(nodes@, source.spec_bytes(), i as int),
        decreases nodes.len() - i,
    {
        let ghost prev = out@;
        let node = &nodes[i];
        if let Some(kind) = canonical_kind(node.kind.as_str()) {
            if let Some(j) = node_name(nodes, i) {
                let name_node = &nodes[j];
                if let Some(name) = slice_text(source, name_node.start_byte, name_node.end_byte) {
                    assert(nodes@[i as int].end_row < usize::MAX && nodes@[i as int].start_row < usize::MAX);
                    let sym = Symbol {
                        name,
                        kind: kind.to_owned(),
                        line_start: node.start_row + 1,
                        line_end: node.end_row + 1,
                        start_byte: node.start_byte,
                        end_byte: node.end_byte,
                        name_start_byte: name_node.start_byte,
                        name_end_byte: name_node.end_byte,
                    };
                    out.push(sym);
                    assert(out@.map_values(|s: Symbol| s@) =~= prev.map_values(|s: Symbol| s@).push(sym@));
                }
            }
        }
        i = i + 1;
    }
    out
}


/// A syntax node as the parser reports it: kind, field name, start and end
/// byte, start and end line (0-indexed), and depth below the root.
pub type RawNode = (String, Option<String>, usize, usize, usize, usize, u32);

/// The nodes, in pre-order, of the syntax tree that the grammar of `lang`
/// gives `source`.
pub uninterp spec fn parsed_tree(lang: Language, source: Seq<char>) -> Seq<RawNode>;

/// Parse `source` with the grammar of `lang` and list the tree's nodes in
/// pre-order.
///
/// Trusted: calls tree-sitter's `Parser::set_language` and `Parser::parse`,
/// then walks the tree with a `TreeCursor` (`node`, `field_name`, `depth`,
/// `goto_first_child`, `goto_next_sibling`, `goto_parent`). The result is
/// named by [`parsed_tree`], a function of the language and the text alone.
/// tree-sitter measures text in 32-bit byte offsets (its read callback hands
/// over each chunk's length as a `u32`), so the text must be shorter than
/// `u32::MAX` bytes; longer texts are never handed to it. Further claims: each node's byte range lies within the text and cuts it
/// at character boundaries (tree-sitter reads UTF-8 text one code point at a
/// time), and line numbers (tree-sitter's 0-indexed `Point` rows) never
/// exceed the number of bytes of the text, itself at most `isize::MAX` as for
/// every Rust string. The grammars are the ones this library is built with,
/// so loading them succeeds, and a parser with a language and no timeout
/// always returns a tree.
#[verifier::external_body]
fn parse_tree(lang: Language, source: &str) -> (nodes: Vec<RawNode>)
    requires
        source.spec_bytes().len() < u32::MAX,
    ensures
        nodes@ == parsed_tree(lang, source@),
        forall|i: int|
            0 <= i < nodes@.len() ==> #[trigger] valid_byte_range(
                source.spec_bytes(),
                nodes@[i].2 as int,
                nodes@[i].3 as int,
            ) && nodes@[i].4 <= isize::MAX && nodes@[i].5 <= isize::MAX,
{
    let grammars = [RUST, PYTHON, JAVASCRIPT, TYPESCRIPT, TSX, GO, JAVA, C, CPP];
    let mut parser = Parser::new();
    parser.set_language(&grammars[lang as usize].into()).unwrap();
    let tree = parser.parse(source, None).unwrap();
    let mut cursor = tree.walk();
    let mut nodes = Vec::new();
    loop {
        let n = cursor.node();
        nodes.push((n.kind().to_string(), cursor.field_name().map(str::to_string), n.start_byte(), n.end_byte(), n.start_position().row, n.end_position().row, cursor.depth()));
        if !cursor.goto_first_child() {
            while !cursor.goto_next_sibling() {
                if !cursor.goto_parent() { return nodes; }
            }
        }
    }
}

/// The [`SyntaxNode`] that a parser's node report describes.
pub open spec fn node_of(t: RawNode) -> SyntaxNode {
    SyntaxNode {
        kind: t.0,
        field: t.1,
        start_byte: t.2,
        end_byte: t.3,
        start_row: t.4,
        end_row: t.5,
        depth: t.6 as usize,
    }
}

/// Whether a text is short enough for the parser, whose byte offsets are
/// 32-bit: under `u32::MAX` bytes of UTF-8.
pub open spec fn fits_parser(source: Seq<char>) -> bool {
    vstd::utf8::encode_utf8(source).len() < u32::MAX
}

/// The syntax tree, in pre-order, that the grammar of `lang` gives `source`;
/// none for a text too long for the parser (see [`fits_parser`]).
pub open spec fn syntax_tree(lang: Language, source: Seq<char>) -> Seq<SyntaxNode> {
    if fits_parser(source) {
        parsed_tree(lang, source).map_values(|t: RawNode| node_of(t))
    } else {
        Seq::empty()
    }
}

/// Parse `source` with the grammar of `lang` into its syntax nodes in
/// document order. A text of `u32::MAX` bytes or more is too long for the
/// parser and gives no nodes.
pub fn parse_syntax(lang: Language, source: &str) -> (nodes: Vec<SyntaxNode>)
    ensures
        nodes@ == syntax_tree(lang, source@),
        well_placed(nodes@, source.spec_bytes()),
{
    let byte_len = source.as_bytes().len();
    if byte_len >= u32::MAX as usize {
        let empty: Vec<SyntaxNode> = Vec::new();
        assert(empty@ =~= syntax_tree(lang, source@));
        return empty;
    }
    let raw = parse_tree(lang, source);
    let mut nodes: Vec<SyntaxNode> = Vec::new();
    let mut i: usize = 0;
    while i < raw.len()
        invariant
            i <= raw.len(),
            raw@ == parsed_tree(lang, source@),
            nodes@ =~= raw@.take(i as int).map_values(|t: RawNode| node_of(t)),
        decreases raw.len() - i,
    {
        let t = &raw[i];
        let field = match &t.1 {
            Some(f) => Some(f.clone()),
            None => None,
        };
        nodes.push(
            SyntaxNode {
                kind: t.0.clone(),
                field,
                start_byte: t.2,
                end_byte: t.3,
                start_row: t.4,
                end_row: t.5,
                depth: t.6 as usize,
            },
        );
        proof {
            assert(raw@.take(i + 1) =~= raw@.take(i as int).push(raw@[i as int]));
        }
        i = i + 1;
    }
    assert(raw@.take(raw.len() as int) =~= raw@);
    assert forall|i: int| 0 <= i < nodes@.len() implies #[trigger] placed(nodes@[i], source.spec_bytes()) by {
        assert(nodes@[i] == node_of(raw@[i]));
    }
    nodes
}

/// Parse `source` and return all top-level and nested symbols in document
/// order.
pub fn parse(lang: Language, source: &str) -> (out: Vec<Symbol>)
    ensures
        out@.map_values(|s: Symbol| s@) == symbols_of(syntax_tree(lang, source@), source.spec_bytes()),
        spans_valid(out@.map_values(|s: Symbol| s@), source.spec_bytes()),
{
    let nodes = parse_syntax(lang, source);
    assert forall|i: int| 0 <= i < nodes@.len() implies #[trigger] nodes@[i].end_row < usize::MAX
        && nodes@[i].start_row < usize::MAX by {
        assert(placed(nodes@[i], source.spec_bytes()));
    }
    let out = collect(&nodes, source);
    proof {
        lemma_symbols_spans_valid(nodes@, source.spec_bytes(), nodes@.len() as int);
    }
    out
}

/// Whether a node's span lies in the text with bytes `src` at character
/// boundaries, and its lines fit the platform's signed integers.
pub open spec fn placed(n: SyntaxNode, src: Seq<u8>) -> bool {
    &&& valid_byte_range(src, n.start_byte as int, n.end_byte as int)
    &&& n.start_row <= isize::MAX
    &&& n.end_row <= isize::MAX
}

/// Whether every node of a tree is [`placed`] in the text with bytes `src`.
pub open spec fn well_placed(nodes: Seq<SyntaxNode>, src: Seq<u8>) -> bool {
    forall|i: int| 0 <= i < nodes.len() ==> #[trigger] placed(nodes[i], src)
}

/// Whether every symbol's span lies in the text with bytes `src` at
/// character boundaries.
pub open spec fn spans_valid(syms: Seq<SymbolView>, src: Seq<u8>) -> bool {
    forall|i: int|
        0 <= i < syms.len() ==> #[trigger] valid_byte_range(
            src,
            syms[i].start_byte,
            syms[i].end_byte,
        )
}

proof fn lemma_symbols_spans_valid(nodes: Seq<SyntaxNode>, src: Seq<u8>, n: int)
    requires
        well_placed(nodes, src),
        n <= nodes.len(),
    ensures
        spans_valid(symbols_upto(nodes, src, n), src),
    decreases n,
{
    if n > 0 {
        lemma_symbols_spans_valid(nodes, src, n - 1);
        assert(placed(nodes[n - 1], src));
    }
}


/// Every declaration that yields a symbol appears, in order, among the
/// symbols of the tree.
proof fn lemma_symbol_listed(nodes: Seq<SyntaxNode>, src: Seq<u8>, i: int, n: int)
    requires
        0 <= i < n <= nodes.len(),
        symbol_at(nodes, src, i) is Some,
    ensures
        symbols_upto(nodes, src, n).contains(symbol_at(nodes, src, i)->Some_0),
    decreases n,
{
    if n - 1 == i {
        let prev = symbols_upto(nodes, src, n - 1);
        assert(symbols_upto(nodes, src, n) == prev.push(symbol_at(nodes, src, i)->Some_0));
        assert(symbols_upto(nodes, src, n)[prev.len() as int] == symbol_at(nodes, src, i)->Some_0);
    } else {
        lemma_symbol_listed(nodes, src, i, n - 1);
        let prev = symbols_upto(nodes, src, n - 1);
        let x = symbol_at(nodes, src, i)->Some_0;
        let k = choose|k: int| 0 <= k < prev.len() && prev[k] == x;
        match symbol_at(nodes, src, n - 1) {
            Some(y) => {
                assert(prev.push(y)[k] == x);
            },
            None => {},
        }
    }
}

proof fn lemma_name_child_first(nodes: Seq<SyntaxNode>, i: int, e: int, j: int, m: int)
    requires
        m <= j < e,
        is_name_field_child(nodes, i, j),
        forall|k: int| m <= k < j ==> !#[trigger] is_name_field_child(nodes, i, k),
    ensures
        name_child_from(nodes, i, e, m) == Some(j),
    decreases j - m,
{
    if m < j {
        assert(!is_name_field_child(nodes, i, m));
        lemma_name_child_first(nodes, i, e, j, m + 1);
    }
}

proof fn lemma_name_child_none(nodes: Seq<SyntaxNode>, i: int, e: int, m: int)
    requires
        forall|k: int| m <= k < e ==> !#[trigger] is_name_field_child(nodes, i, k),
    ensures
        name_child_from(nodes, i, e, m) is None,
    decreases e - m,
{
    if m < e {
        assert(!is_name_field_child(nodes, i, m));
        lemma_name_child_none(nodes, i, e, m + 1);
    }
}

proof fn lemma_fallback_first(nodes: Seq<SyntaxNode>, i: int, j: int, m: int)
    requires
        0 <= m <= j < nodes.len(),
        is_fallback_name(nodes, i, j),
        forall|k: int| m <= k < j ==> !#[trigger] is_fallback_name(nodes, i, k),
    ensures
        fallback_name_from(nodes, i, m) == Some(j),
    decreases j - m,
{
    if m < j {
        assert(!is_fallback_name(nodes, i, m));
        lemma_fallback_first(nodes, i, j, m + 1);
    }
}

/// A declaration is named by the first child it holds in its `name` field:
/// when it has a canonical kind and that child's text can be read, the
/// declaration yields a symbol of that name and kind, spanning the
/// declaration's bytes and its 1-based lines, listed among the tree's
/// symbols.
pub proof fn lemma_named_by_name_field(nodes: Seq<SyntaxNode>, src: Seq<u8>, i: int, j: int)
    requires
        0 <= i < j < subtree_end(nodes, i),
        subtree_end(nodes, i) <= nodes.len(),
        nodes[j].depth == nodes[i].depth + 1,
        nodes[j].field matches Some(f) && f@ == "name"@,
        forall|k: int|
            i < k < j ==> !(#[trigger] nodes[k].depth == nodes[i].depth + 1 && (nodes[k].field matches Some(f)
                && f@ == "name"@)),
    ensures
        name_node(nodes, i) == Some(j),
        canonical_kind_of(nodes[i].kind@) is Some && node_text(nodes, src, j) is Some ==> (symbol_at(
            nodes,
            src,
            i,
        ) matches Some(sym) && sym.name == node_text(nodes, src, j)->Some_0 && sym.kind == canonical_kind_of(
            nodes[i].kind@,
        )->Some_0 && sym.line_start == nodes[i].start_row + 1 && sym.line_end == nodes[i].end_row + 1
            && sym.start_byte == nodes[i].start_byte && sym.end_byte == nodes[i].end_byte && sym.name_start_byte
            == nodes[j].start_byte && sym.name_end_byte == nodes[j].end_byte && symbols_of(nodes, src).contains(
            sym,
        )),
{
    assert forall|k: int| i + 1 <= k < j implies !#[trigger] is_name_field_child(nodes, i, k) by {
        assert(!(nodes[k].depth == nodes[i].depth + 1 && (nodes[k].field matches Some(f) && f@ == "name"@)));
    }
    lemma_name_child_first(nodes, i, subtree_end(nodes, i), j, i + 1);
    if canonical_kind_of(nodes[i].kind@) is Some && node_text(nodes, src, j) is Some {
        lemma_symbol_listed(nodes, src, i, nodes.len() as int);
    }
}

/// A declaration without a `name` field is named by the first identifier
/// (`identifier`, `field_identifier` or `type_identifier`) in its subtree
/// that lies outside every nested declaration, as a C function is by the
/// identifier in its declarator: when it has a canonical kind and that
/// identifier's text can be read, it yields a symbol of that name and kind,
/// spanning the declaration's bytes and its 1-based lines, listed among the
/// tree's symbols.
pub proof fn lemma_named_by_first_identifier(nodes: Seq<SyntaxNode>, src: Seq<u8>, i: int, j: int)
    requires
        0 <= i < j < subtree_end(nodes, i),
        subtree_end(nodes, i) <= nodes.len(),
        forall|k: int|
            i < k < subtree_end(nodes, i) ==> !(#[trigger] nodes[k].depth == nodes[i].depth + 1 && (
            nodes[k].field matches Some(f) && f@ == "name"@)),
        nodes[j].kind@ == "identifier"@ || nodes[j].kind@ == "field_identifier"@ || nodes[j].kind@
            == "type_identifier"@,
        forall|k: int| i < k <= j && j < #[trigger] subtree_end(nodes, k) ==> canonical_kind_of(nodes[k].kind@) is None,
        forall|m: int|
            i < m < j && (#[trigger] nodes[m].kind@ == "identifier"@ || nodes[m].kind@ == "field_identifier"@
                || nodes[m].kind@ == "type_identifier"@) ==> exists|k: int|
                i < k <= m && m < #[trigger] subtree_end(nodes, k) && canonical_kind_of(nodes[k].kind@) is Some,
    ensures
        name_node(nodes, i) == Some(j),
        canonical_kind_of(nodes[i].kind@) is Some && node_text(nodes, src, j) is Some ==> (symbol_at(
            nodes,
            src,
            i,
        ) matches Some(sym) && sym.name == node_text(nodes, src, j)->Some_0 && sym.kind == canonical_kind_of(
            nodes[i].kind@,
        )->Some_0 && sym.line_start == nodes[i].start_row + 1 && sym.line_end == nodes[i].end_row + 1
            && sym.start_byte == nodes[i].start_byte && sym.end_byte == nodes[i].end_byte && sym.name_start_byte
            == nodes[j].start_byte && sym.name_end_byte == nodes[j].end_byte && symbols_of(nodes, src).contains(
            sym,
        )),
{
    let e = subtree_end(nodes, i);
    assert forall|k: int| i + 1 <= k < e implies !#[trigger] is_name_field_child(nodes, i, k) by {
        assert(!(nodes[k].depth == nodes[i].depth + 1 && (nodes[k].field matches Some(f) && f@ == "name"@)));
    }
    lemma_name_child_none(nodes, i, e, i + 1);
    assert(is_fallback_name(nodes, i, j));
    assert forall|m: int| i + 1 <= m < j implies !#[trigger] is_fallback_name(nodes, i, m) by {
        if is_name_kind(nodes[m].kind@) {
            assert(nodes[m].kind@ == "identifier"@ || nodes[m].kind@ == "field_identifier"@ || nodes[m].kind@
                == "type_identifier"@);
        }
    }
    lemma_fallback_first(nodes, i, j, i + 1);
    if canonical_kind_of(nodes[i].kind@) is Some && node_text(nodes, src, j) is Some {
        lemma_symbol_listed(nodes, src, i, nodes.len() as int);
    }
}
} // verus!
