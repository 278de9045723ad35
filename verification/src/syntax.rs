//! Which syntax a file is highlighted with, by its extension.
use vstd::prelude::*;
use crate::chars::{ascii_lower_seq, eq_ignore_ascii_case};

verus! {

/// What `std::path::Path::extension` yields for the path `p` (without the
/// dot), as text.
pub uninterp spec fn spec_path_extension(p: Seq<char>) -> Option<Seq<char>>;

/// `std::path::Path::extension` of the path `path`. The contract names the
/// result and says no more: how a path splits into components and a file
/// name is std's business. An extension of a path given as text is text.
#[verifier::external_body]
pub fn path_extension(path: &str) -> (r: Option<String>)
    ensures
        match r {
            Some(e) => spec_path_extension(path@) == Some(e@),
            None => spec_path_extension(path@) is None,
        },
{
    std::path::Path::new(path).extension().and_then(|e| e.to_str()).map(|e| e.to_string())
}

/// `e` is `lit` up to ASCII case.
pub open spec fn ext_is(e: Seq<char>, lit: Seq<char>) -> bool {
    ascii_lower_seq(e) == ascii_lower_seq(lit)
}

/// The language key for a file extension (any ASCII case).
pub open spec fn language_for_extension(e: Seq<char>) -> Option<Seq<char>> {
    if ext_is(e, "rs"@) {
        Some("rust"@)
    } else if ext_is(e, "py"@) {
        Some("python"@)
    } else if ext_is(e, "js"@) || ext_is(e, "jsx"@) {
        Some("javascript"@)
    } else if ext_is(e, "ts"@) || ext_is(e, "tsx"@) {
        Some("typescript"@)
    } else if ext_is(e, "json"@) {
        Some("json"@)
    } else if ext_is(e, "toml"@) {
        Some("toml"@)
    } else if ext_is(e, "yaml"@) || ext_is(e, "yml"@) {
        Some("yaml"@)
    } else if ext_is(e, "html"@) {
        Some("html"@)
    } else if ext_is(e, "css"@) {
        Some("css"@)
    } else if ext_is(e, "c"@) || ext_is(e, "h"@) {
        Some("c"@)
    } else if ext_is(e, "cpp"@) || ext_is(e, "cc"@) || ext_is(e, "cxx"@) || ext_is(e, "hpp"@) {
        Some("cpp"@)
    } else if ext_is(e, "go"@) {
        Some("go"@)
    } else if ext_is(e, "cs"@) {
        Some("csharp"@)
    } else {
        None
    }
}

fn detect_language_from_extension(ext: &str) -> (r: Option<&'static str>)
    ensures
        match language_for_extension(ext@) {
            Some(l) => r is Some && r->0@ == l,
            None => r is None,
        },
{
    if eq_ignore_ascii_case(ext, "rs") {
        return Some("rust");
    }
    if eq_ignore_ascii_case(ext, "py") {
        return Some("python");
    }
    if eq_ignore_ascii_case(ext, "js") || eq_ignore_ascii_case(ext, "jsx") {
        return Some("javascript");
    }
    if eq_ignore_ascii_case(ext, "ts") || eq_ignore_ascii_case(ext, "tsx") {
        return Some("typescript");
    }
    if eq_ignore_ascii_case(ext, "json") {
        return Some("json");
    }
    if eq_ignore_ascii_case(ext, "toml") {
        return Some("toml");
    }
    if eq_ignore_ascii_case(ext, "yaml") || eq_ignore_ascii_case(ext, "yml") {
        return Some("yaml");
    }
    if eq_ignore_ascii_case(ext, "html") {
        return Some("html");
    }
    if eq_ignore_ascii_case(ext, "css") {
        return Some("css");
    }
    if eq_ignore_ascii_case(ext, "c") || eq_ignore_ascii_case(ext, "h") {
        return Some("c");
    }
    if eq_ignore_ascii_case(ext, "cpp") || eq_ignore_ascii_case(ext, "cc") || eq_ignore_ascii_case(ext, "cxx")
        || eq_ignore_ascii_case(ext, "hpp") {
        return Some("cpp");
    }
    if eq_ignore_ascii_case(ext, "go") {
        return Some("go");
    }
    if eq_ignore_ascii_case(ext, "cs") {
        return Some("csharp");
    }
    None
}

/// The language key of a file, from its extension.
pub fn detect_language(path: &str) -> (r: Option<&'static str>)
    ensures
        match spec_path_extension(path@) {
            Some(e) => match language_for_extension(e) {
                Some(l) => r is Some && r->0@ == l,
                None => r is None,
            },
            None => r is None,
        },
{
    match path_extension(path) {
        Some(ext) => detect_language_from_extension(ext.as_str()),
        None => None,
    }
}

} // verus!
