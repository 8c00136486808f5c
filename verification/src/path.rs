//! Reading slash-separated paths byte by byte: file names and parent directories.

use vstd::prelude::*;
use vstd::string::StringSliceAdditionalSpecFns;
use vstd::utf8::*;

use crate::text::{bytes_at, lemma_ascii_boundaries, lemma_ascii_or_end_boundary, substring, utf8};

verus! {

broadcast use vstd::utf8::encode_utf8_valid_utf8, vstd::utf8::encode_utf8_decode_utf8;

/// The length of `b[..n]` once the `'/'` bytes at its end are gone.
pub open spec fn trim_slashes(b: Seq<u8>, n: int) -> int
    decreases n,
{
    if n > 0 && b[n - 1] == 47 {
        trim_slashes(b, n - 1)
    } else {
        n
    }
}

/// The last `'/'` in `b[..n]`, or -1 when there is none.
pub open spec fn last_slash(b: Seq<u8>, n: int) -> int
    decreases n,
{
    if n <= 0 {
        -1
    } else if b[n - 1] == 47 {
        n - 1
    } else {
        last_slash(b, n - 1)
    }
}

/// What trimming keeps and removes.
pub proof fn lemma_trim_slashes(b: Seq<u8>, n: int)
    requires
        0 <= n <= b.len(),
    ensures
        0 <= trim_slashes(b, n) <= n,
        forall|k: int| trim_slashes(b, n) <= k < n ==> b[k] == 47,
        trim_slashes(b, n) > 0 ==> b[trim_slashes(b, n) - 1] != 47,
    decreases n,
{
    if n > 0 && b[n - 1] == 47 {
        lemma_trim_slashes(b, n - 1);
    }
}

/// Where the last slash is, and that none follows it.
pub proof fn lemma_last_slash(b: Seq<u8>, n: int)
    requires
        0 <= n <= b.len(),
    ensures
        -1 <= last_slash(b, n) < n,
        last_slash(b, n) >= 0 ==> b[last_slash(b, n)] == 47,
        forall|k: int| last_slash(b, n) < k < n ==> b[k] != 47,
    decreases n,
{
    if n > 0 && b[n - 1] != 47 {
        lemma_last_slash(b, n - 1);
    }
}

/// `.`
pub open spec fn current_dir() -> Seq<u8> {
    seq![46u8]
}

/// `..`
pub open spec fn parent_dir() -> Seq<u8> {
    seq![46u8, 46u8]
}

/// The byte range of the last component of `b[..n]`, when that component names a
/// file: slashes at the end and `.` components after the first are passed over; a
/// `..`, a lone `.`, a root or an empty path name no file.
pub open spec fn file_name_range(b: Seq<u8>, n: int) -> Option<(int, int)>
    decreases n,
{
    if n <= 0 || n > b.len() {
        None
    } else {
        let t = trim_slashes(b, n);
        let k = last_slash(b, t);
        if t <= 0 {
            None
        } else if b.subrange(k + 1, t) == current_dir() {
            if k < 0 {
                None
            } else {
                proof {
                    lemma_trim_slashes(b, n);
                    lemma_last_slash(b, t);
                }
                file_name_range(b, k)
            }
        } else if b.subrange(k + 1, t) == parent_dir() {
            None
        } else {
            Some((k + 1, t))
        }
    }
}

/// The file name of a path, or the whole path when it names none. Paths are split at `'/'`,
/// as Git writes them and as `std::path::Path` splits them on Unix; Windows also splits at
/// `'\\'` and reads drive and share prefixes, so the two agree there only on paths with no
/// `'\\'`, no `:` and no leading `//`.
pub open spec fn file_name_bytes(b: Seq<u8>) -> Seq<u8> {
    match file_name_range(b, b.len() as int) {
        Some((s, e)) => b.subrange(s, e),
        None => b,
    }
}

/// The length of `b[..n]` once the `'/'` and `'\\'` bytes at its end are gone.
pub open spec fn trim_separators(b: Seq<u8>, n: int) -> int
    decreases n,
{
    if n > 0 && (b[n - 1] == 47 || b[n - 1] == 92) {
        trim_separators(b, n - 1)
    } else {
        n
    }
}

/// Where the prefix before the suffix `f` of `b` ends, or 0 when `b` does not end with `f`.
pub open spec fn suffix_cut(b: Seq<u8>, f: Seq<u8>) -> int {
    if f.len() <= b.len() && b.subrange(b.len() - f.len(), b.len() as int) == f {
        b.len() - f.len()
    } else {
        0
    }
}

/// The directory part of a path: what comes before its file name, separators at the end
/// removed; empty when the path does not end with its file name.
pub open spec fn parent_bytes(b: Seq<u8>) -> Seq<u8> {
    b.subrange(0, trim_separators(b, suffix_cut(b, file_name_bytes(b))))
}

fn trim_slashes_at(b: &[u8], n: usize) -> (r: usize)
    requires
        n <= b@.len(),
    ensures
        r == trim_slashes(b@, n as int),
{
    let mut i = n;
    while i > 0 && b[i - 1] == 47
        invariant
            i <= n <= b@.len(),
            trim_slashes(b@, i as int) == trim_slashes(b@, n as int),
        decreases i,
    {
        i -= 1;
    }
    i
}

fn last_slash_before(b: &[u8], n: usize) -> (r: Option<usize>)
    requires
        n <= b@.len(),
    ensures
        match r {
            Some(k) => k == last_slash(b@, n as int),
            None => last_slash(b@, n as int) == -1,
        },
{
    let mut i = n;
    while i > 0 && b[i - 1] != 47
        invariant
            i <= n <= b@.len(),
            last_slash(b@, i as int) == last_slash(b@, n as int),
        decreases i,
    {
        i -= 1;
    }
    if i == 0 {
        None
    } else {
        Some(i - 1)
    }
}

fn trim_separators_at(b: &[u8], n: usize) -> (r: usize)
    requires
        n <= b@.len(),
    ensures
        r == trim_separators(b@, n as int),
        r <= n,
        r < n ==> (b@[r as int] == 47 || b@[r as int] == 92),
{
    let mut i = n;
    while i > 0 && (b[i - 1] == 47 || b[i - 1] == 92)
        invariant
            i <= n <= b@.len(),
            trim_separators(b@, i as int) == trim_separators(b@, n as int),
            i < n ==> (b@[i as int] == 47 || b@[i as int] == 92),
        decreases i,
    {
        i -= 1;
    }
    i
}

/// The byte range of the file name of `b`, as `file_name_range` describes it.
fn file_name_range_of(b: &[u8]) -> (r: Option<(usize, usize)>)
    ensures
        match r {
            Some((s, e)) => file_name_range(b@, b@.len() as int) == Some((s as int, e as int)),
            None => file_name_range(b@, b@.len() as int) is None,
        },
        r matches Some((s, e)) ==> {
            &&& s <= e <= b@.len()
            &&& (s == 0 || b@[s - 1] == 47)
            &&& (e == b@.len() || b@[e as int] == 47)
        },
{
    let dot: [u8; 1] = [46u8];
    let dots: [u8; 2] = [46u8, 46u8];
    assert(dot@ =~= current_dir());
    assert(dots@ =~= parent_dir());
    let mut n = b.len();
    loop
        invariant
            n <= b@.len(),
            dot@ == current_dir(),
            dots@ == parent_dir(),
            n == b@.len() || b@[n as int] == 47,
            file_name_range(b@, n as int) == file_name_range(b@, b@.len() as int),
        decreases n,
    {
        if n == 0 {
            return None;
        }
        let t = trim_slashes_at(b, n);
        proof {
            lemma_trim_slashes(b@, n as int);
        }
        if t == 0 {
            return None;
        }
        let k = last_slash_before(b, t);
        proof {
            lemma_last_slash(b@, t as int);
        }
        let s = match k {
            Some(k) => k + 1,
            None => 0,
        };
        if bytes_at(b, s, t, &dot) {
            match k {
                None => {
                    return None;
                },
                Some(k) => {
                    n = k;
                },
            }
        } else if bytes_at(b, s, t, &dots) {
            return None;
        } else {
            return Some((s, t));
        }
    }
}

/// The characters of the file name of a path, when it has one.
pub open spec fn path_file_name(p: Seq<char>) -> Option<Seq<char>> {
    match file_name_range(utf8(p), utf8(p).len() as int) {
        Some((s, e)) => Some(decode_utf8(utf8(p).subrange(s, e))),
        None => None,
    }
}

/// The file name of a path, as `Path::file_name` gives it, when the path names a file.
pub fn path_file_name_of(p: &str) -> (r: Option<&str>)
    ensures
        match r {
            Some(f) => path_file_name(p@) == Some(f@) && utf8(f@) == file_name_bytes(utf8(p@)),
            None => path_file_name(p@) is None,
        },
{
    let b = p.as_bytes();
    match file_name_range_of(b) {
        Some((s, e)) => {
            proof {
                if s > 0 {
                    lemma_ascii_boundaries(b@, s - 1);
                } else {
                    is_char_boundary_start_end_of_seq(b@);
                }
                if e < b@.len() {
                    lemma_ascii_boundaries(b@, e as int);
                } else {
                    is_char_boundary_start_end_of_seq(b@);
                }
            }
            let f = substring(p, s, e);
            proof {
                assert(decode_utf8(utf8(f@)) == f@);
            }
            Some(f)
        },
        None => None,
    }
}

/// The file name of a path: its last component, or the whole path when it names no file.
pub fn file_name_of(p: &str) -> (r: &str)
    ensures
        utf8(r@) == file_name_bytes(utf8(p@)),
{
    match path_file_name_of(p) {
        Some(f) => f,
        None => p,
    }
}

/// A valid encoding that does not start at a boundary of a longer one cannot follow it.
proof fn lemma_suffix_boundary(b: Seq<u8>, f: Seq<u8>)
    requires
        valid_utf8(b),
        valid_utf8(f),
        f.len() <= b.len(),
        b.subrange(b.len() - f.len(), b.len() as int) == f,
    ensures
        is_char_boundary(b, b.len() - f.len()),
{
    let i = b.len() - f.len();
    if f.len() == 0 {
        is_char_boundary_start_end_of_seq(b);
    } else {
        is_char_boundary_start_end_of_seq(f);
        is_char_boundary_iff_not_is_continuation_byte(f, 0);
        assert(b[i] == f[0]);
        is_char_boundary_iff_not_is_continuation_byte(b, i);
    }
}

/// The directory part of a path, as `parent_bytes` describes it.
pub fn parent_of(p: &str) -> (r: &str)
    ensures
        utf8(r@) == parent_bytes(utf8(p@)),
{
    let b = p.as_bytes();
    let f = file_name_of(p);
    let fb = f.as_bytes();
    let cut = if fb.len() <= b.len() && bytes_at(b, b.len() - fb.len(), b.len(), fb) {
        b.len() - fb.len()
    } else {
        0
    };
    proof {
        if cut > 0 {
            lemma_suffix_boundary(b@, fb@);
        }
    }
    let m = trim_separators_at(b, cut);
    proof {
        if m < cut {
            lemma_ascii_boundaries(b@, m as int);
        } else if m == 0 {
            is_char_boundary_start_end_of_seq(b@);
        }
    }
    substring(p, 0, m)
}

} // verus!
