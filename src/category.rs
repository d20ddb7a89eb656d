//! Classification of a frame's source file into a code-provenance category.
use vstd::prelude::*;
use crate::text::{chars_of, contains_exec, contains_seq, occurs_at_exec, starts_with_seq};

verus! {

/// Where the code of a frame comes from, judged by its file path.
#[derive(Debug, Clone, Copy, PartialEq, Eq, Structural)]
pub enum Category {
    RustStdLib,
    RustC,
    Deps,
    Application,
    Unknown,
}

/// The category of a file path: compiler sources, then the standard library,
/// then registry dependencies; a file under `cwd` is application code.
pub open spec fn category_of(cwd: Seq<char>, filename: Seq<char>) -> Category {
    if contains_seq(filename, "/rustc/"@) {
        Category::RustC
    } else if contains_seq(filename, "/rustlib/"@) {
        Category::RustStdLib
    } else if contains_seq(filename, "cargo/registry/src"@) {
        Category::Deps
    } else if starts_with_seq(filename, cwd) {
        Category::Application
    } else {
        Category::Unknown
    }
}

/// Guesses the category of `filename` given the working directory `cwd`.
pub fn guess_category(cwd: &str, filename: &str) -> (r: Category)
    ensures
        r == category_of(cwd@, filename@),
{
    let name = chars_of(filename);
    if contains_exec(&name, &chars_of("/rustc/")) {
        Category::RustC
    } else if contains_exec(&name, &chars_of("/rustlib/")) {
        Category::RustStdLib
    } else if contains_exec(&name, &chars_of("cargo/registry/src")) {
        Category::Deps
    } else if occurs_at_exec(&name, &chars_of(cwd), 0) {
        Category::Application
    } else {
        Category::Unknown
    }
}

/// Whether `std::path::Path` holds `path` to lie under `base`, compared
/// component by component.
pub uninterp spec fn path_has_prefix(path: Seq<char>, base: Seq<char>) -> bool;

/// Relies on `std::path::Path::starts_with`: a component-wise prefix test that
/// depends on the two paths alone.
#[verifier::external_body]
fn path_starts_with(path: &str, base: &str) -> (r: bool)
    ensures
        r == path_has_prefix(path@, base@),
{
    std::path::Path::new(path).starts_with(base)
}

/// `s` with every backslash turned into a slash.
pub open spec fn forward_slashes(s: Seq<char>) -> Seq<char> {
    s.map_values(|c: char| if c == '\\' { '/' } else { c })
}

/// The category of a frame whose file may be unknown: the path is read with
/// forward slashes, and "under `cwd`" is decided component by component.
pub open spec fn frame_category_of(cwd: Seq<char>, filename: Option<Seq<char>>) -> Category {
    match filename {
        None => Category::Unknown,
        Some(f) => {
            let n = forward_slashes(f);
            if contains_seq(n, "/rustc/"@) {
                Category::RustC
            } else if contains_seq(n, "/rustlib/"@) {
                Category::RustStdLib
            } else if contains_seq(n, "cargo/registry/src"@) {
                Category::Deps
            } else if path_has_prefix(f, cwd) {
                Category::Application
            } else {
                Category::Unknown
            }
        },
    }
}

fn normalize_slashes(s: &str) -> (r: Vec<char>)
    ensures
        r@ == forward_slashes(s@),
{
    let v = chars_of(s);
    let mut out: Vec<char> = Vec::new();
    let mut i: usize = 0;
    while i < v.len()
        invariant
            i <= v@.len(),
            out@ == forward_slashes(v@.subrange(0, i as int)),
        decreases v@.len() - i,
    {
        let c = v[i];
        out.push(if c == '\\' { '/' } else { c });
        i = i + 1;
        assert(out@ =~= forward_slashes(v@.subrange(0, i as int)));
    }
    assert(v@.subrange(0, i as int) =~= v@);
    out
}

/// Determines the category of a frame's file, `Unknown` when there is none.
pub fn determine_category(cwd: &str, filename: Option<&str>) -> (r: Category)
    ensures
        r == frame_category_of(
            cwd@,
            match filename {
                Some(f) => Some(f@),
                None => None,
            },
        ),
{
    match filename {
        None => Category::Unknown,
        Some(path) => {
            let n = normalize_slashes(path);
            if contains_exec(&n, &chars_of("/rustc/")) {
                Category::RustC
            } else if contains_exec(&n, &chars_of("/rustlib/")) {
                Category::RustStdLib
            } else if contains_exec(&n, &chars_of("cargo/registry/src")) {
                Category::Deps
            } else if path_starts_with(path, cwd) {
                Category::Application
            } else {
                Category::Unknown
            }
        },
    }
}

} // verus!
