//! Resolved allocation records and the call-site keys derived from frames.
use vstd::prelude::*;
use crate::symbol::{demangle_name, readable_name};

verus! {

/// A resolved stack frame; any field may be missing when debug information is.
#[derive(Debug, Clone)]
pub struct FrameInfo {
    /// File of the call site.
    pub filename: Option<String>,
    /// Column of the call site.
    pub colno: Option<u32>,
    /// Line of the call site.
    pub lineno: Option<u32>,
    /// Address of the function.
    pub fn_address: Option<usize>,
    /// Symbol name of the function, as found in the debug information.
    pub fn_name: Option<String>,
}

/// One allocation event, with the size of its matching deallocation (zero when
/// none was seen) and its call stack, outermost frame first.
#[derive(Debug, Clone)]
pub struct Allocation {
    pub allocation_size: usize,
    pub deallocation_size: usize,
    pub address: usize,
    pub stack: Vec<FrameInfo>,
}

/// The records of one tracked window, most recent first.
#[derive(Debug, Clone)]
pub struct Stats {
    pub allocations: Vec<Allocation>,
}

/// Source lines around a call site: up to five before, the line itself, up to
/// five after.
#[derive(Debug, Clone, PartialEq, Eq)]
pub struct FileContent {
    pub before: Vec<String>,
    pub highlighted: String,
    pub after: Vec<String>,
}

/// Lines shown on each side of the highlighted one.
pub const CONTEXT_LINES: usize = 5;

pub open spec fn context_start(line: int) -> int {
    if line - 1 - CONTEXT_LINES > 0 { line - 1 - CONTEXT_LINES } else { 0 }
}

pub open spec fn context_end(line: int, count: int) -> int {
    if line + CONTEXT_LINES < count { line + CONTEXT_LINES } else { count }
}

fn clone_lines(lines: &Vec<String>, lo: usize, hi: usize) -> (r: Vec<String>)
    requires
        lo <= hi <= lines@.len(),
    ensures
        r@ == lines@.subrange(lo as int, hi as int),
{
    let mut out: Vec<String> = Vec::new();
    let mut i: usize = lo;
    while i < hi
        invariant
            lo <= i <= hi <= lines@.len(),
            out@ == lines@.subrange(lo as int, i as int),
        decreases hi - i,
    {
        out.push(lines[i].clone());
        i = i + 1;
        assert(out@ =~= lines@.subrange(lo as int, i as int));
    }
    out
}

impl FileContent {
    /// The context of 1-based line `lineno` in a file of `lines`; `None` when
    /// the line is not in the file.
    pub fn from_lines(lines: &Vec<String>, lineno: u32) -> (r: Option<FileContent>)
        ensures
            r is Some <==> 1 <= lineno <= lines@.len(),
            r matches Some(c) ==> {
                let l = lineno as int;
                &&& c.before@ == lines@.subrange(context_start(l), l - 1)
                &&& c.highlighted == lines@[l - 1]
                &&& c.after@ == lines@.subrange(l, context_end(l, lines@.len() as int))
            },
    {
        if lineno == 0 || lineno as usize > lines.len() {
            return None;
        }
        let l = lineno as usize;
        let start: usize = if l - 1 > CONTEXT_LINES { l - 1 - CONTEXT_LINES } else { 0 };
        let end: usize = if CONTEXT_LINES < lines.len() - l { l + CONTEXT_LINES } else { lines.len() };
        Some(FileContent {
            before: clone_lines(lines, start, l - 1),
            highlighted: lines[l - 1].clone(),
            after: clone_lines(lines, l, end),
        })
    }
}

/// The identity of a call site: file, line, column and readable function name.
pub type CallSite = (Seq<char>, u32, u32, Seq<char>);

/// A tree-node key: the call site, the function address, and optional source
/// context.
#[derive(Debug, Clone)]
pub struct Key {
    pub filename: String,
    pub colno: u32,
    pub lineno: u32,
    pub fn_address: usize,
    pub fn_name: String,
    pub file_content: Option<FileContent>,
}

pub open spec fn site_of(k: Key) -> CallSite {
    (k.filename@, k.lineno, k.colno, k.fn_name@)
}

pub open spec fn unknown_site() -> CallSite {
    ("<unknown>"@, 0, 0, "<unknown>"@)
}

pub open spec fn root_site() -> CallSite {
    ("<root>"@, 0, 0, "<root>"@)
}

pub open spec fn name_view(s: Option<String>) -> Option<Seq<char>> {
    match s {
        Some(t) => Some(t@),
        None => None,
    }
}

/// The call site a frame resolves to. A frame without a file stands for the
/// unknown site; a frame with a file but without line, column, address or
/// name has no usable site.
pub open spec fn frame_site(f: FrameInfo) -> Option<CallSite> {
    match f.filename {
        None => Some(unknown_site()),
        Some(name) => {
            if f.lineno is Some && f.colno is Some && f.fn_address is Some && f.fn_name is Some {
                Some((name@, f.lineno->0, f.colno->0, readable_name(name_view(f.fn_name))))
            } else {
                None
            }
        },
    }
}

/// The field a frame with a file lacks for a usable call site.
#[derive(Debug, Clone, Copy, PartialEq, Eq, Structural)]
pub enum MissingField {
    Colno,
    Lineno,
    FnAddress,
    FnName,
}

/// The first missing field of a frame with a file, in the order column,
/// line, address, name; none for a frame without a file.
pub open spec fn first_missing(f: FrameInfo) -> Option<MissingField> {
    if f.filename is None {
        None
    } else if f.colno is None {
        Some(MissingField::Colno)
    } else if f.lineno is None {
        Some(MissingField::Lineno)
    } else if f.fn_address is None {
        Some(MissingField::FnAddress)
    } else if f.fn_name is None {
        Some(MissingField::FnName)
    } else {
        None
    }
}

/// The function address a key takes from its frame: the frame's own for a
/// frame with a file, zero for the unknown site.
pub open spec fn key_address(f: FrameInfo) -> usize {
    match f.filename {
        Some(_) => match f.fn_address {
            Some(a) => a,
            None => 0,
        },
        None => 0,
    }
}

impl Key {
    /// The key of the synthetic root node.
    pub fn root() -> (r: Key)
        ensures
            site_of(r) == root_site(),
            r.fn_address == 0,
            r.file_content is None,
    {
        Key {
            filename: "<root>".to_owned(),
            colno: 0,
            lineno: 0,
            fn_address: 0,
            fn_name: "<root>".to_owned(),
            file_content: None,
        }
    }

    /// The key of a resolved frame, or the first field the frame lacks for a
    /// usable call site.
    pub fn from_frame(frame: &FrameInfo) -> (r: Result<Key, MissingField>)
        ensures
            match r {
                Ok(k) => {
                    &&& frame_site(*frame) == Some(site_of(k))
                    &&& k.file_content is None
                    &&& k.fn_address == key_address(*frame)
                },
                Err(e) => frame_site(*frame) is None && first_missing(*frame) == Some(e),
            },
    {
        match &frame.filename {
            None => Ok(
                Key {
                    filename: "<unknown>".to_owned(),
                    colno: 0,
                    lineno: 0,
                    fn_address: 0,
                    fn_name: "<unknown>".to_owned(),
                    file_content: None,
                },
            ),
            Some(filename) => {
                let colno = match frame.colno {
                    Some(c) => c,
                    None => return Err(MissingField::Colno),
                };
                let lineno = match frame.lineno {
                    Some(l) => l,
                    None => return Err(MissingField::Lineno),
                };
                let fn_address = match frame.fn_address {
                    Some(a) => a,
                    None => return Err(MissingField::FnAddress),
                };
                let name = match &frame.fn_name {
                    Some(n) => n,
                    None => return Err(MissingField::FnName),
                };
                let fn_name = demangle_name(Some(name.as_str()));
                Ok(
                    Key {
                        filename: filename.clone(),
                        colno,
                        lineno,
                        fn_address,
                        fn_name,
                        file_content: None,
                    },
                )
            },
        }
    }

    /// Whether two keys name the same call site.
    pub fn same_site(&self, other: &Key) -> (r: bool)
        ensures
            r == (site_of(*self) == site_of(*other)),
    {
        self.lineno == other.lineno && self.colno == other.colno && self.filename == other.filename
            && self.fn_name == other.fn_name
    }
}

} // verus!
