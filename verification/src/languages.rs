//! The source languages the analyses understand, recognised by file
//! extension.

use vstd::prelude::*;

use crate::text::{chars_of, str_eq, string_of_range};

verus! {

/// A supported source language.
#[derive(Debug, Clone, Copy, PartialEq, Eq, Structural)]
pub enum Language {
    Rust,
    Python,
    JavaScript,
    TypeScript,
    Tsx,
    Go,
    Java,
    C,
    Cpp,
}

/// Position one past the last `c` in `s`, or 0 when `s` holds no `c`.
pub open spec fn after_last(s: Seq<char>, c: char) -> int
    decreases s.len(),
{
    if s.len() == 0 {
        0
    } else if s.last() == c {
        s.len() as int
    } else {
        after_last(s.drop_last(), c)
    }
}

/// The final `/`-separated component of `path`.
pub open spec fn file_name(path: Seq<char>) -> Seq<char> {
    path.subrange(after_last(path, '/'), path.len() as int)
}

/// The extension of `path`: what follows the last `.` of its file name,
/// when that `.` is not the name's first character.
pub open spec fn extension(path: Seq<char>) -> Option<Seq<char>> {
    let name = file_name(path);
    let dot = after_last(name, '.');
    if dot >= 2 {
        Some(name.subrange(dot, name.len() as int))
    } else {
        None
    }
}

/// The language of files with extension `ext`.
pub open spec fn language_of_extension(ext: Seq<char>) -> Option<Language> {
    if ext == "rs"@ {
        Some(Language::Rust)
    } else if ext == "py"@ || ext == "pyi"@ {
        Some(Language::Python)
    } else if ext == "js"@ || ext == "jsx"@ || ext == "mjs"@ || ext == "cjs"@ {
        Some(Language::JavaScript)
    } else if ext == "ts"@ || ext == "mts"@ || ext == "cts"@ {
        Some(Language::TypeScript)
    } else if ext == "tsx"@ {
        Some(Language::Tsx)
    } else if ext == "go"@ {
        Some(Language::Go)
    } else if ext == "java"@ {
        Some(Language::Java)
    } else if ext == "c"@ || ext == "h"@ {
        Some(Language::C)
    } else if ext == "cc"@ || ext == "cpp"@ || ext == "cxx"@ || ext == "hpp"@ || ext == "hh"@
        || ext == "hxx"@ {
        Some(Language::Cpp)
    } else {
        None
    }
}

/// The language of the file at `path`, chosen by its extension.
pub open spec fn language_of_path(path: Seq<char>) -> Option<Language> {
    match extension(path) {
        Some(ext) => language_of_extension(ext),
        None => None,
    }
}

/// Position one past the last `c` in `v[..end]`.
fn after_last_in(v: &Vec<char>, end: usize, c: char) -> (r: usize)
    requires
        end <= v.len(),
    ensures
        r == after_last(v@.subrange(0, end as int), c),
        r <= end,
{
    let mut i = end;
    while i > 0 && v[i - 1] != c
        invariant
            i <= end <= v.len(),
            after_last(v@.subrange(0, end as int), c) == after_last(v@.subrange(0, i as int), c),
        decreases i,
    {
        proof {
            assert(v@.subrange(0, i as int).drop_last() =~= v@.subrange(0, i - 1));
        }
        i = i - 1;
    }
    i
}

impl Language {
    /// The language of the file at `path`, or `None` when its extension is not
    /// one the analyses support.
    pub fn from_path(path: &str) -> (r: Option<Language>)
        ensures
            r == language_of_path(path@),
    {
        let v = chars_of(path);
        assert(v@.subrange(0, v.len() as int) =~= v@);
        let slash = after_last_in(&v, v.len(), '/');
        let name = string_of_range(&v, slash, v.len());
        let nv = chars_of(name.as_str());
        assert(nv@ == file_name(path@));
        assert(nv@.subrange(0, nv.len() as int) =~= nv@);
        let dot = after_last_in(&nv, nv.len(), '.');
        if dot < 2 {
            return None;
        }
        let ext = string_of_range(&nv, dot, nv.len());
        let e = ext.as_str();
        if str_eq(e, "rs") {
            Some(Language::Rust)
        } else if str_eq(e, "py") || str_eq(e, "pyi") {
            Some(Language::Python)
        } else if str_eq(e, "js") || str_eq(e, "jsx") || str_eq(e, "mjs") || str_eq(e, "cjs") {
            Some(Language::JavaScript)
        } else if str_eq(e, "ts") || str_eq(e, "mts") || str_eq(e, "cts") {
            Some(Language::TypeScript)
        } else if str_eq(e, "tsx") {
            Some(Language::Tsx)
        } else if str_eq(e, "go") {
            Some(Language::Go)
        } else if str_eq(e, "java") {
            Some(Language::Java)
        } else if str_eq(e, "c") || str_eq(e, "h") {
            Some(Language::C)
        } else if str_eq(e, "cc") || str_eq(e, "cpp") || str_eq(e, "cxx") || str_eq(e, "hpp")
            || str_eq(e, "hh") || str_eq(e, "hxx") {
            Some(Language::Cpp)
        } else {
            None
        }
    }
}

} // verus!
