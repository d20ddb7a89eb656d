//! Function-name clean-up and symbol bookkeeping for resolved frames.
use vstd::prelude::*;
use crate::text::{chars_of, occurs_at, occurs_at_exec, string_of};

verus! {

/// What `rustc_demangle::demangle` renders for a symbol name.
pub uninterp spec fn demangled(name: Seq<char>) -> Seq<char>;

/// Relies on `rustc_demangle::demangle` and its `Display` impl: the readable
/// form of a symbol name, which depends on the name alone.
#[verifier::external_body]
fn demangle(name: &str) -> (r: String)
    ensures
        r@ == demangled(name@),
{
    rustc_demangle::demangle(name).to_string()
}

pub open spec fn is_hex_digit(c: char) -> bool {
    ('0' <= c && c <= '9') || ('a' <= c && c <= 'f') || ('A' <= c && c <= 'F')
}

/// The marker that introduces a build hash: `::h`.
pub open spec fn hash_marker() -> Seq<char> {
    seq![':', ':', 'h']
}

/// At `k` stands the marker, followed by at least one character and by hex
/// digits only up to the end.
pub open spec fn hash_suffix_at(s: Seq<char>, k: int) -> bool {
    &&& occurs_at(s, hash_marker(), k)
    &&& k + 3 < s.len()
    &&& forall|i: int| k + 3 <= i < s.len() ==> is_hex_digit(s[i])
}

/// `s` without its trailing build hash, if it has one.
pub open spec fn without_hash_suffix(s: Seq<char>) -> Seq<char> {
    if exists|k: int| hash_suffix_at(s, k) {
        s.subrange(0, choose|k: int| hash_suffix_at(s, k))
    } else {
        s
    }
}

/// A string has at most one position where a build hash begins.
pub proof fn lemma_hash_suffix_unique(s: Seq<char>, a: int, b: int)
    requires
        hash_suffix_at(s, a),
        hash_suffix_at(s, b),
    ensures
        a == b,
{
    if a != b {
        let (lo, hi) = if a < b { (a, b) } else { (b, a) };
        assert(s.subrange(lo, lo + 3)[2] == 'h');
        assert(s.subrange(hi, hi + 3)[0] == ':');
        assert(s.subrange(lo, lo + 3)[0] == ':');
        assert(s.subrange(hi, hi + 3)[1] == ':');
        assert(hi != lo + 1);
        assert(hi != lo + 2);
        assert(!is_hex_digit(s[hi]));
    }
}

fn hex_digit(c: char) -> (r: bool)
    ensures
        r == is_hex_digit(c),
{
    ('0' <= c && c <= '9') || ('a' <= c && c <= 'f') || ('A' <= c && c <= 'F')
}

/// Strips a trailing `::h<hex digits>` build hash from a function name.
pub fn strip_rust_hash_suffix(name: &str) -> (r: String)
    ensures
        r@ == without_hash_suffix(name@),
{
    let v = chars_of(name);
    let marker: Vec<char> = vec![':', ':', 'h'];
    assert(marker@ =~= hash_marker());
    let n: usize = v.len();
    let mut k: usize = 0;
    while k < n
        invariant
            n == v@.len(),
            v@ == name@,
            marker@ == hash_marker(),
            forall|j: int| 0 <= j < k ==> !hash_suffix_at(v@, j),
        decreases n - k,
    {
        if occurs_at_exec(&v, &marker, k) && k + 3 < n {
            let mut i: usize = k + 3;
            let mut all_hex = true;
            while i < n
                invariant
                    n == v@.len(),
                    k + 3 <= i <= n,
                    all_hex == (forall|j: int| k + 3 <= j < i ==> is_hex_digit(v@[j])),
                decreases n - i,
            {
                all_hex = all_hex && hex_digit(v[i]);
                i = i + 1;
            }
            if all_hex {
                assert(hash_suffix_at(v@, k as int));
                proof {
                    let c = choose|c: int| hash_suffix_at(v@, c);
                    lemma_hash_suffix_unique(v@, c, k as int);
                }
                return string_of(&v, 0, k);
            }
        }
        k = k + 1;
    }
    assert forall|j: int| !hash_suffix_at(v@, j) by {
        if 0 <= j < k {
        } else if j >= k {
            assert(!(j + 3 < v@.len()));
        }
    }
    string_of(&v, 0, n)
}

/// A function name made readable: demangled, then without its build hash;
/// empty when there is no name.
pub open spec fn readable_name(name: Option<Seq<char>>) -> Seq<char> {
    match name {
        Some(s) => without_hash_suffix(demangled(s)),
        None => Seq::empty(),
    }
}

/// Demangles a function name and strips its build hash.
pub fn demangle_name(name: Option<&str>) -> (r: String)
    ensures
        r@ == readable_name(
            match name {
                Some(s) => Some(s@),
                None => None,
            },
        ),
{
    match name {
        Some(s) => {
            let d = demangle(s);
            strip_rust_hash_suffix(d.as_str())
        },
        None => String::new(),
    }
}

/// Identity of a symbol within one source file: name, line and column.
#[derive(Debug, Clone, PartialEq, Eq, Hash)]
pub struct SymbolKey {
    pub name: String,
    pub lineno: Option<u32>,
    pub colno: Option<u32>,
}

impl SymbolKey {
    pub fn new(name: &str, lineno: Option<u32>, colno: Option<u32>) -> (r: Self)
        ensures
            r.name@ == name@,
            r.lineno == lineno,
            r.colno == colno,
    {
        SymbolKey { name: name.to_owned(), lineno, colno }
    }
}

/// Addresses of one line are spaced this far apart; the column is the offset.
pub const COLUMN_STRIDE: u32 = 1000;

/// The synthetic address of a symbol: `line * COLUMN_STRIDE + column`
/// (column capped below the stride, sum saturating) when the line is known
/// and the product fits, else the next free sequential address.
pub open spec fn symbol_address(line: u32, colno: Option<u32>) -> int {
    let col = match colno {
        Some(c) => if c < COLUMN_STRIDE - 1 { c as int } else { COLUMN_STRIDE - 1 },
        None => 0,
    };
    if line * COLUMN_STRIDE + col <= u32::MAX {
        line * COLUMN_STRIDE + col
    } else {
        u32::MAX as int
    }
}

/// Picks the synthetic address of a symbol, drawing from `next` when the line
/// gives none.
pub fn next_symbol_address(next: &mut u32, lineno: Option<u32>, colno: Option<u32>) -> (r: u32)
    ensures
        match lineno {
            Some(line) if line * COLUMN_STRIDE <= u32::MAX => {
                &&& r == symbol_address(line, colno)
                &&& *final(next) == *old(next)
            },
            _ => {
                &&& r == *old(next)
                &&& *final(next) == if *old(next) < u32::MAX { *old(next) + 1 } else { u32::MAX as int }
            },
        },
{
    if let Some(line) = lineno {
        let col: u32 = match colno {
            Some(c) => if c < COLUMN_STRIDE - 1 { c } else { COLUMN_STRIDE - 1 },
            None => 0,
        };
        match line.checked_mul(COLUMN_STRIDE) {
            Some(base) => {
                return base.saturating_add(col);
            },
            None => {},
        }
    }
    let address = *next;
    *next = (*next).saturating_add(1);
    address
}

/// A size as a signed sample weight, saturating at `i64::MAX`.
pub fn usize_to_i64(value: usize) -> (r: i64)
    ensures
        r == if value <= i64::MAX { value as int } else { i64::MAX as int },
{
    if value as u64 <= i64::MAX as u64 {
        value as i64
    } else {
        i64::MAX
    }
}

} // verus!
