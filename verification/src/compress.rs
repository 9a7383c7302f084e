//! Structured file view: imports plus declaration metadata and signatures.

use vstd::prelude::*;
use vstd::string::StringSliceAdditionalSpecFns;

use crate::ast::{parse, spans_valid, Symbol, SymbolView};
use crate::diff::{contains_string, symbols_in};
use crate::index::ReadError;
use crate::languages::{language_of_path, Language};
use crate::paths::PathError;
use crate::text::{
    bytes_of, chars_of, first_line, has_prefix, lines, lines_of, lossy_text, slice_text, starts_with,
    string_of, text_at, trim, trim_chars, trim_start, trim_start_chars, utf8_lossy,
};

verus! {

/// Errors from compressing a file.
#[derive(Debug)]
pub enum CompressError {
    Path(PathError),
    Read(ReadError),
    /// The file's language is not supported.
    Unsupported,
}

impl CompressError {
    /// The error's message.
    pub fn message(&self) -> (s: String)
        ensures
            s@ == match self {
                CompressError::Path(e) => crate::index::path_error_message(*e),
                CompressError::Read(e) => crate::index::read_error_message(*e),
                CompressError::Unsupported => "unsupported file type"@,
            },
    {
        match self {
            CompressError::Path(e) => e.message(),
            CompressError::Read(e) => e.message(),
            CompressError::Unsupported => String::from_str("unsupported file type"),
        }
    }
}

/// Common import-statement prefixes, used to surface imports in the compact
/// view across the supported languages.
pub open spec fn import_prefixes() -> Seq<Seq<char>> {
    seq![
        "import "@, "use "@, "from "@, "#include"@, "require"@, "using "@, "package "@,
        "extern crate"@, "include "@, "import_module"@,
    ]
}

/// Whether `line`, without its leading whitespace, begins with an import
/// prefix.
pub open spec fn is_import_line(line: Seq<char>) -> bool {
    exists|k: int| 0 <= k < import_prefixes().len() && has_prefix(trim_start(line), #[trigger] import_prefixes()[k])
}

/// Whether `line` looks like an import statement.
pub fn is_import(line: &str) -> (r: bool)
    ensures
        r == is_import_line(line@),
{
    let v = chars_of(line);
    let t = trim_start_chars(&v);
    let tv = chars_of(t.as_str());
    let r = starts_with(&tv, "import ") || starts_with(&tv, "use ") || starts_with(&tv, "from ")
        || starts_with(&tv, "#include") || starts_with(&tv, "require") || starts_with(&tv, "using ")
        || starts_with(&tv, "package ") || starts_with(&tv, "extern crate") || starts_with(
        &tv,
        "include ",
    ) || starts_with(&tv, "import_module");
    proof {
        let ps = import_prefixes();
        if r {
            assert(has_prefix(tv@, ps[0]) || has_prefix(tv@, ps[1]) || has_prefix(tv@, ps[2])
                || has_prefix(tv@, ps[3]) || has_prefix(tv@, ps[4]) || has_prefix(tv@, ps[5])
                || has_prefix(tv@, ps[6]) || has_prefix(tv@, ps[7]) || has_prefix(tv@, ps[8])
                || has_prefix(tv@, ps[9]));
        }
        if is_import_line(line@) {
            let k = choose|k: int| 0 <= k < ps.len() && has_prefix(trim_start(line@), #[trigger] ps[k]);
            assert(k == 0 || k == 1 || k == 2 || k == 3 || k == 4 || k == 5 || k == 6 || k == 7 || k
                == 8 || k == 9);
        }
    }
    r
}

/// A single declaration's metadata and signature line.
#[derive(Debug, Clone, PartialEq, Eq)]
pub struct SymbolRecord {
    pub name: String,
    /// Canonical kind, e.g. `function`, `class`, `interface`, `method`.
    pub kind: String,
    /// 1-indexed first line of the declaration.
    pub line_start: usize,
    /// 1-indexed last line of the declaration.
    pub line_end: usize,
    /// The declaration's first line (its signature).
    pub signature: String,
}

/// The structured view of a file: its path, unique imports, and symbols.
#[derive(Debug, Clone, PartialEq, Eq)]
pub struct FileStructure {
    /// Workspace-relative path of the file.
    pub path: String,
    /// Unique import-like lines in document order.
    pub imports: Vec<String>,
    /// Declarations in document order.
    pub symbols: Vec<SymbolRecord>,
}

/// The mathematical content of a [`SymbolRecord`].
pub struct SymbolRecordView {
    pub name: Seq<char>,
    pub kind: Seq<char>,
    pub line_start: int,
    pub line_end: int,
    pub signature: Seq<char>,
}

impl View for SymbolRecord {
    type V = SymbolRecordView;

    open spec fn view(&self) -> SymbolRecordView {
        SymbolRecordView {
            name: self.name@,
            kind: self.kind@,
            line_start: self.line_start as int,
            line_end: self.line_end as int,
            signature: self.signature@,
        }
    }
}

/// The unique import lines (trimmed) among the first `n` lines `ls`, in
/// document order.
pub open spec fn imports_upto(ls: Seq<Seq<char>>, n: int) -> Seq<Seq<char>>
    decreases n,
{
    if n <= 0 {
        Seq::empty()
    } else {
        let prev = imports_upto(ls, n - 1);
        if is_import_line(ls[n - 1]) && !prev.contains(trim(ls[n - 1])) {
            prev.push(trim(ls[n - 1]))
        } else {
            prev
        }
    }
}

/// The unique import lines of `src`, trimmed, in document order.
pub open spec fn imports_of(src: Seq<char>) -> Seq<Seq<char>> {
    imports_upto(lines(src), lines(src).len() as int)
}

/// The record of symbol `s` of the text with bytes `src`: its signature is
/// the first line of its text, trimmed.
pub open spec fn record_of(s: SymbolView, src: Seq<u8>) -> SymbolRecordView {
    SymbolRecordView {
        name: s.name,
        kind: s.kind,
        line_start: s.line_start,
        line_end: s.line_end,
        signature: trim(first_line(text_at(src, s.start_byte, s.end_byte).unwrap())),
    }
}

/// The unique import-like lines of `source`, trimmed, in document order.
fn collect_imports(source: &str) -> (imports: Vec<String>)
    ensures
        imports@.map_values(|s: String| s@) == imports_of(source@),
{
    let v = chars_of(source);
    let ls = lines_of(&v);
    let mut imports: Vec<String> = Vec::new();
    let mut i: usize = 0;
    while i < ls.len()
        invariant
            i <= ls.len(),
            v@ == source@,
            ls@.len() == lines(v@).len(),
            forall|j: int| 0 <= j < ls@.len() ==> #[trigger] ls@[j]@ == lines(v@)[j],
            imports@.map_values(|s: String| s@) == imports_upto(lines(v@), i as int),
        decreases ls.len() - i,
    {
        let line = string_of(ls[i].as_slice());
        assert(line@ == lines(v@)[i as int]);
        if is_import(line.as_str()) {
            let t = trim_chars(&ls[i]);
            if !contains_string(&imports, &t) {
                let ghost before = imports@;
                imports.push(t);
                assert(imports@.map_values(|s: String| s@) =~= before.map_values(|s: String| s@).push(t@));
            }
        }
        i = i + 1;
    }
    imports
}

/// The record of symbol `sym` of `source`.
fn record_for(sym: &Symbol, source: &str) -> (r: SymbolRecord)
    requires
        crate::text::valid_byte_range(source.spec_bytes(), sym.start_byte as int, sym.end_byte as int),
    ensures
        r@ == record_of(sym@, source.spec_bytes()),
{
    let span = slice_text(source, sym.start_byte, sym.end_byte).unwrap();
    let sv = chars_of(span.as_str());
    let ls = lines_of(&sv);
    let signature = if ls.len() > 0 {
        trim_chars(&ls[0])
    } else {
        let empty: Vec<char> = Vec::new();
        assert(trim(empty@) =~= Seq::<char>::empty());
        trim_chars(&empty)
    };
    SymbolRecord {
        name: sym.name.clone(),
        kind: sym.kind.clone(),
        line_start: sym.line_start,
        line_end: sym.line_end,
        signature,
    }
}

/// The structured view of the file at root-relative path `rel` whose
/// content is `bytes`: its path, unique imports, and each declaration's
/// metadata and signature (the declaration's first line). Files in no
/// supported language are refused.
pub fn get_file_structure(rel: &str, bytes: &[u8]) -> (r: Result<FileStructure, CompressError>)
    ensures
        match language_of_path(rel@) {
            None => r matches Err(CompressError::Unsupported),
            Some(lang) => r matches Ok(fs) && {
                let text = lossy_text(bytes@);
                &&& fs.path@ == rel@
                &&& fs.imports@.map_values(|s: String| s@) == imports_of(text)
                &&& fs.symbols@.map_values(|s: SymbolRecord| s@) == symbols_in(lang, text).map_values(
                    |s: SymbolView| record_of(s, bytes_of(text)),
                )
            },
        },
{
    let lang = match Language::from_path(rel) {
        Some(l) => l,
        None => return Err(CompressError::Unsupported),
    };
    let source = utf8_lossy(bytes);
    let src = source.as_str();
    let syms = parse(lang, src);
    let imports = collect_imports(src);
    let ghost sv = syms@.map_values(|s: Symbol| s@);
    let mut records: Vec<SymbolRecord> = Vec::new();
    let mut i: usize = 0;
    while i < syms.len()
        invariant
            i <= syms.len(),
            sv == syms@.map_values(|s: Symbol| s@),
            spans_valid(sv, src.spec_bytes()),
            records@.map_values(|s: SymbolRecord| s@) == sv.take(i as int).map_values(
                |s: SymbolView| record_of(s, src.spec_bytes()),
            ),
        decreases syms.len() - i,
    {
        assert(crate::text::valid_byte_range(src.spec_bytes(), sv[i as int].start_byte, sv[i as int].end_byte));
        let rec = record_for(&syms[i], src);
        let ghost before = records@;
        records.push(rec);
        assert(sv.take(i + 1) =~= sv.take(i as int).push(sv[i as int]));
        assert(records@.map_values(|s: SymbolRecord| s@) =~= before.map_values(|s: SymbolRecord| s@).push(rec@));
        assert(records@.map_values(|s: SymbolRecord| s@) =~= sv.take(i + 1).map_values(
            |s: SymbolView| record_of(s, src.spec_bytes()),
        ));
        i = i + 1;
    }
    assert(sv.take(syms.len() as int) =~= sv);
    Ok(FileStructure { path: String::from_str(rel), imports, symbols: records })
}


/// The imports of a file are its import-like lines, trimmed, each listed
/// once.
pub proof fn lemma_imports_unique(ls: Seq<Seq<char>>, n: int)
    requires
        0 <= n <= ls.len(),
    ensures
        imports_upto(ls, n).no_duplicates(),
        forall|x: Seq<char>| #[trigger] imports_upto(ls, n).contains(x) <==> exists|i: int|
            0 <= i < n && is_import_line(#[trigger] ls[i]) && trim(ls[i]) == x,
    decreases n,
{
    if n > 0 {
        lemma_imports_unique(ls, n - 1);
        let prev = imports_upto(ls, n - 1);
        let cur = imports_upto(ls, n);
        assert forall|x: Seq<char>| #[trigger] cur.contains(x) <==> exists|i: int|
            0 <= i < n && is_import_line(#[trigger] ls[i]) && trim(ls[i]) == x by {
            if cur.contains(x) && !prev.contains(x) {
                assert(cur != prev);
                assert(cur == prev.push(trim(ls[n - 1])));
                let k = choose|k: int| 0 <= k < cur.len() && cur[k] == x;
                if k < prev.len() {
                    assert(prev[k] == x);
                }
            }
            if prev.contains(x) && cur != prev {
                let k = choose|k: int| 0 <= k < prev.len() && prev[k] == x;
                assert(cur[k] == x);
            }
            if exists|i: int| 0 <= i < n && is_import_line(#[trigger] ls[i]) && trim(ls[i]) == x {
                let i = choose|i: int| 0 <= i < n && is_import_line(#[trigger] ls[i]) && trim(ls[i]) == x;
                if i < n - 1 {
                    assert(prev.contains(x));
                    if cur != prev {
                        let k = choose|k: int| 0 <= k < prev.len() && prev[k] == x;
                        assert(cur[k] == x);
                    }
                } else if !prev.contains(x) {
                    assert(cur[prev.len() as int] == x);
                }
            }
        }
        if cur != prev {
            assert forall|a: int, b: int| 0 <= a < b < cur.len() implies cur[a] != cur[b] by {
                if b == prev.len() {
                    assert(cur[a] == prev[a]);
                    assert(prev.contains(prev[a]));
                } else {
                    assert(cur[a] == prev[a] && cur[b] == prev[b]);
                }
            }
        }
    }
}


impl From<PathError> for CompressError {
    fn from(e: PathError) -> (r: CompressError) {
        CompressError::Path(e)
    }
}

impl vstd::std_specs::convert::FromSpecImpl<PathError> for CompressError {
    open spec fn obeys_from_spec() -> bool {
        true
    }

    open spec fn from_spec(e: PathError) -> CompressError {
        CompressError::Path(e)
    }
}


impl From<ReadError> for CompressError {
    fn from(e: ReadError) -> (r: CompressError) {
        CompressError::Read(e)
    }
}

impl vstd::std_specs::convert::FromSpecImpl<ReadError> for CompressError {
    open spec fn obeys_from_spec() -> bool {
        true
    }

    open spec fn from_spec(e: ReadError) -> CompressError {
        CompressError::Read(e)
    }
}


/// Whether `t` begins with one of the import keywords: `import `, `use `,
/// `from `, `#include`, `require`, `using `, `package `, `extern crate`,
/// `include ` or `import_module`.
pub open spec fn begins_import(t: Seq<char>) -> bool {
    ||| has_prefix(t, "import "@)
    ||| has_prefix(t, "use "@)
    ||| has_prefix(t, "from "@)
    ||| has_prefix(t, "#include"@)
    ||| has_prefix(t, "require"@)
    ||| has_prefix(t, "using "@)
    ||| has_prefix(t, "package "@)
    ||| has_prefix(t, "extern crate"@)
    ||| has_prefix(t, "include "@)
    ||| has_prefix(t, "import_module"@)
}

/// A line is an import line exactly when, past its leading whitespace, it
/// begins with `import `, `use `, `from `, `#include`, `require`, `using `,
/// `package `, `extern crate`, `include ` or `import_module`.
pub proof fn lemma_import_line_prefixes(line: Seq<char>)
    ensures
        is_import_line(line) <==> {
            let t = trim_start(line);
            ||| has_prefix(t, "import "@)
            ||| has_prefix(t, "use "@)
            ||| has_prefix(t, "from "@)
            ||| has_prefix(t, "#include"@)
            ||| has_prefix(t, "require"@)
            ||| has_prefix(t, "using "@)
            ||| has_prefix(t, "package "@)
            ||| has_prefix(t, "extern crate"@)
            ||| has_prefix(t, "include "@)
            ||| has_prefix(t, "import_module"@)
        },
{
    let ps = import_prefixes();
    let t = trim_start(line);
    if is_import_line(line) {
        let k = choose|k: int| 0 <= k < ps.len() && has_prefix(t, #[trigger] ps[k]);
        assert(k == 0 || k == 1 || k == 2 || k == 3 || k == 4 || k == 5 || k == 6 || k == 7 || k == 8 || k
            == 9);
    }
    if begins_import(t) {
        assert(has_prefix(t, ps[0]) || has_prefix(t, ps[1]) || has_prefix(t, ps[2]) || has_prefix(t, ps[3])
            || has_prefix(t, ps[4]) || has_prefix(t, ps[5]) || has_prefix(t, ps[6]) || has_prefix(t, ps[7])
            || has_prefix(t, ps[8]) || has_prefix(t, ps[9]));
    }
}

/// The imports of a text are the trimmed lines that, past their leading
/// whitespace, begin with an import keyword (see
/// [`lemma_import_line_prefixes`]): every such line is listed, and nothing
/// else.
pub proof fn lemma_imports_are_keyword_lines(src: Seq<char>, x: Seq<char>)
    ensures
        imports_of(src).contains(x) <==> exists|i: int|
            0 <= i < lines(src).len() && trim(#[trigger] lines(src)[i]) == x && begins_import(
                trim_start(lines(src)[i]),
            ),
{
    let ls = lines(src);
    lemma_imports_unique(ls, ls.len() as int);
    if imports_of(src).contains(x) {
        let i = choose|i: int| 0 <= i < ls.len() && is_import_line(#[trigger] ls[i]) && trim(ls[i]) == x;
        lemma_import_line_prefixes(ls[i]);
    }
    if exists|i: int| 0 <= i < ls.len() && trim(#[trigger] ls[i]) == x && begins_import(trim_start(ls[i])) {
        let i = choose|i: int| 0 <= i < ls.len() && trim(#[trigger] ls[i]) == x && begins_import(trim_start(ls[i]));
        lemma_import_line_prefixes(ls[i]);
        assert(is_import_line(ls[i]));
    }
}
} // verus!
