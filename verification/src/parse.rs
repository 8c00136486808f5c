//! Reading a unified diff (`git diff`, `diff -u`) into the diff model.

use vstd::prelude::*;
use vstd::string::StringSliceAdditionalSpecFns;
use vstd::utf8::*;
use std::sync::Arc;
use vstd::string::StringExecFns;

use crate::diff::{
    files_kind_count, hunks_kind_count, lines_kind_count, DiffFile, DiffHunk, DiffLine, DiffSet,
    LineKind,
};
use crate::hunk_header::{hunk_starts, parse_hunk_starts};
use crate::text::{
    bytes_at, find_line_break, lemma_ascii_boundaries, lemma_ascii_or_end_boundary,
    lemma_line_break, lemma_line_start_boundary, line_break, next_line_start, owned_substring,
    share, starts_at, text_of, utf8, lemma_utf8_len_bound,
};

verus! {

broadcast use vstd::utf8::encode_utf8_valid_utf8, vstd::utf8::encode_utf8_decode_utf8;

/// `diff --git `
pub open spec fn diff_git_marker() -> Seq<u8> {
    seq![100u8, 105, 102, 102, 32, 45, 45, 103, 105, 116, 32]
}

/// `new file mode `
pub open spec fn new_file_marker() -> Seq<u8> {
    seq![110u8, 101, 119, 32, 102, 105, 108, 101, 32, 109, 111, 100, 101, 32]
}

/// `deleted file mode `
pub open spec fn deleted_file_marker() -> Seq<u8> {
    seq![100u8, 101, 108, 101, 116, 101, 100, 32, 102, 105, 108, 101, 32, 109, 111, 100, 101, 32]
}

/// `--- `
pub open spec fn old_path_marker() -> Seq<u8> {
    seq![45u8, 45, 45, 32]
}

/// `+++ `
pub open spec fn new_path_marker() -> Seq<u8> {
    seq![43u8, 43, 43, 32]
}

/// `@@`
pub open spec fn hunk_marker() -> Seq<u8> {
    seq![64u8, 64]
}

/// `\ No newline at end of file`
pub open spec fn no_newline_marker() -> Seq<u8> {
    seq![92u8, 32, 78, 111, 32, 110, 101, 119, 108, 105, 110, 101, 32, 97, 116, 32, 101, 110, 100, 32, 111, 102, 32, 102, 105, 108, 101]
}

/// `/dev/null`
pub open spec fn dev_null() -> Seq<u8> {
    seq![47u8, 100, 101, 118, 47, 110, 117, 108, 108]
}

fn diff_git_bytes() -> (r: [u8; 11])
    ensures r@ == diff_git_marker(),
{
    let r = [100u8, 105, 102, 102, 32, 45, 45, 103, 105, 116, 32];
    assert(r@ =~= diff_git_marker());
    r
}

fn new_file_bytes() -> (r: [u8; 14])
    ensures r@ == new_file_marker(),
{
    let r = [110u8, 101, 119, 32, 102, 105, 108, 101, 32, 109, 111, 100, 101, 32];
    assert(r@ =~= new_file_marker());
    r
}

fn deleted_file_bytes() -> (r: [u8; 18])
    ensures r@ == deleted_file_marker(),
{
    let r = [100u8, 101, 108, 101, 116, 101, 100, 32, 102, 105, 108, 101, 32, 109, 111, 100, 101, 32];
    assert(r@ =~= deleted_file_marker());
    r
}

fn old_path_bytes() -> (r: [u8; 4])
    ensures r@ == old_path_marker(),
{
    let r = [45u8, 45, 45, 32];
    assert(r@ =~= old_path_marker());
    r
}

fn new_path_bytes() -> (r: [u8; 4])
    ensures r@ == new_path_marker(),
{
    let r = [43u8, 43, 43, 32];
    assert(r@ =~= new_path_marker());
    r
}

fn hunk_marker_bytes() -> (r: [u8; 2])
    ensures r@ == hunk_marker(),
{
    let r = [64u8, 64];
    assert(r@ =~= hunk_marker());
    r
}

fn no_newline_bytes() -> (r: [u8; 27])
    ensures r@ == no_newline_marker(),
{
    let r = [92u8, 32, 78, 111, 32, 110, 101, 119, 108, 105, 110, 101, 32, 97, 116, 32, 101, 110, 100, 32, 111, 102, 32, 102, 105, 108, 101];
    assert(r@ =~= no_newline_marker());
    r
}

fn dev_null_bytes() -> (r: [u8; 9])
    ensures r@ == dev_null(),
{
    let r = [47u8, 100, 101, 118, 47, 110, 117, 108, 108];
    assert(r@ =~= dev_null());
    r
}

/// A hunk as the parser builds it.
pub struct HunkModel {
    pub header: Seq<char>,
    pub old_start: u32,
    pub new_start: u32,
    pub lines: Seq<DiffLine>,
}

/// A file as the parser builds it.
pub struct FileModel {
    pub old_path: Seq<char>,
    pub new_path: Seq<char>,
    pub hunks: Seq<HunkModel>,
    pub is_new: bool,
    pub is_deleted: bool,
}

/// Where the parser stands between two lines.
pub struct ParseState {
    pub files: Seq<FileModel>,
    pub file: Option<FileModel>,
    pub hunk: Option<HunkModel>,
    pub old_number: u32,
    pub new_number: u32,
}

/// Whether `b[s..e]` begins with `lit`.
pub open spec fn begins(b: Seq<u8>, s: int, e: int, lit: Seq<u8>) -> bool {
    e - s >= lit.len() && b.subrange(s, s + lit.len()) == lit
}

/// The first space in `b[from..to]`, or `to`.
pub open spec fn space_at_or_after(b: Seq<u8>, from: int, to: int) -> int
    decreases to - from,
{
    if from >= to {
        to
    } else if b[from] == 32 {
        from
    } else {
        space_at_or_after(b, from + 1, to)
    }
}

/// The end of the line that starts at `s`, its line break and a `'\r'` before it left out.
pub open spec fn line_content_end(b: Seq<u8>, s: int) -> int {
    let nl = line_break(b, s);
    if nl < b.len() && nl > s && b[nl - 1] == 13 {
        nl - 1
    } else {
        nl
    }
}

/// The hunk ends: it joins the current file's hunks.
pub open spec fn close_hunk(st: ParseState) -> ParseState {
    ParseState {
        hunk: None,
        file: match (st.file, st.hunk) {
            (Some(f), Some(h)) => Some(FileModel { hunks: f.hunks.push(h), ..f }),
            _ => st.file,
        },
        ..st
    }
}

/// The file ends: it joins the finished files.
pub open spec fn close_file(st: ParseState) -> ParseState {
    match st.file {
        Some(f) => ParseState { files: st.files.push(f), file: None, ..st },
        None => st,
    }
}

/// A file that only a hunk header announced.
pub open spec fn unknown_file() -> FileModel {
    FileModel {
        old_path: "a/unknown"@,
        new_path: "b/unknown"@,
        hunks: seq![],
        is_new: false,
        is_deleted: false,
    }
}

/// The line kind that a leading `+`, `-` or space announces.
pub open spec fn kind_of_marker(c: u8) -> Option<LineKind> {
    if c == 43 {
        Some(LineKind::Addition)
    } else if c == 45 {
        Some(LineKind::Deletion)
    } else if c == 32 {
        Some(LineKind::Context)
    } else {
        None
    }
}

/// A diff line whose text is `b[s + 1..e]`, numbered from the running counters.
pub open spec fn marked_line(kind: LineKind, old_number: u32, new_number: u32, s: int, e: int) -> DiffLine {
    DiffLine {
        old_number: if kind == LineKind::Addition { None } else { Some(old_number) },
        new_number: if kind == LineKind::Deletion { None } else { Some(new_number) },
        kind,
        content_start: (s + 1) as u32,
        content_end: e as u32,
    }
}

/// What the line `b[s..e]` does to the parser's state.
pub open spec fn step(b: Seq<u8>, st: ParseState, s: int, e: int) -> ParseState {
    if begins(b, s, e, diff_git_marker()) {
        let st1 = close_file(close_hunk(st));
        let p = s + 11;
        let sp = space_at_or_after(b, p, e);
        let file = FileModel {
            old_path: text_of(b, p, sp),
            new_path: if sp < e {
                text_of(b, sp + 1, e)
            } else {
                "b/unknown"@
            },
            hunks: seq![],
            is_new: false,
            is_deleted: false,
        };
        ParseState { file: Some(file), ..st1 }
    } else if begins(b, s, e, new_file_marker()) {
        ParseState {
            file: match st.file {
                Some(f) => Some(FileModel { is_new: true, ..f }),
                None => None,
            },
            ..st
        }
    } else if begins(b, s, e, deleted_file_marker()) {
        ParseState {
            file: match st.file {
                Some(f) => Some(FileModel { is_deleted: true, ..f }),
                None => None,
            },
            ..st
        }
    } else if begins(b, s, e, old_path_marker()) {
        let st1 = close_hunk(st);
        let path = text_of(b, s + 4, e);
        let null = b.subrange(s + 4, e) == dev_null();
        ParseState {
            file: match st1.file {
                Some(f) => Some(FileModel { old_path: path, is_new: null, ..f }),
                None => Some(
                    FileModel {
                        old_path: path,
                        new_path: path,
                        hunks: seq![],
                        is_new: null,
                        is_deleted: false,
                    },
                ),
            },
            ..st1
        }
    } else if begins(b, s, e, new_path_marker()) {
        let path = text_of(b, s + 4, e);
        let null = b.subrange(s + 4, e) == dev_null();
        ParseState {
            file: match st.file {
                Some(f) => Some(FileModel { new_path: path, is_deleted: null, ..f }),
                None => None,
            },
            ..st
        }
    } else if begins(b, s, e, hunk_marker()) {
        let st1 = close_hunk(st);
        let header = text_of(b, s, e);
        let (o, n) = match hunk_starts(header) {
            Some(starts) => starts,
            None => (1u32, 1u32),
        };
        ParseState {
            file: if st1.file is None {
                Some(unknown_file())
            } else {
                st1.file
            },
            hunk: Some(HunkModel { header, old_start: o, new_start: n, lines: seq![] }),
            old_number: o,
            new_number: n,
            ..st1
        }
    } else if st.hunk is None || b.subrange(s, e) == no_newline_marker() || e <= s
        || kind_of_marker(b[s]) is None {
        st
    } else {
        let kind = kind_of_marker(b[s])->0;
        let h = st.hunk->0;
        let line = marked_line(kind, st.old_number, st.new_number, s, e);
        ParseState {
            hunk: Some(HunkModel { lines: h.lines.push(line), ..h }),
            old_number: if kind == LineKind::Addition {
                st.old_number
            } else {
                st.old_number.wrapping_add(1)
            },
            new_number: if kind == LineKind::Deletion {
                st.new_number
            } else {
                st.new_number.wrapping_add(1)
            },
            ..st
        }
    }
}

/// The state after every line from `pos` on.
pub open spec fn parse_from(b: Seq<u8>, pos: int, st: ParseState) -> ParseState
    decreases b.len() - pos,
{
    if pos < 0 || pos >= b.len() {
        st
    } else {
        let nl = line_break(b, pos);
        proof {
            lemma_line_break(b, pos);
        }
        parse_from(b, next_line_start(b, nl), step(b, st, pos, line_content_end(b, pos)))
    }
}

/// The state before the first line.
pub open spec fn initial_state() -> ParseState {
    ParseState { files: seq![], file: None, hunk: None, old_number: 0, new_number: 0 }
}

/// The files that a unified diff describes.
pub open spec fn diff_model(b: Seq<u8>) -> Seq<FileModel> {
    close_file(close_hunk(parse_from(b, 0, initial_state()))).files
}

/// The line numbers that follow `lines` of a hunk whose first old and new line numbers
/// are `o` and `n`: a line counts on the old side unless added, on the new side unless
/// deleted (wrapping past `u32::MAX`, as the counters do).
pub open spec fn next_numbers(lines: Seq<DiffLine>, o: u32, n: u32) -> (u32, u32)
    decreases lines.len(),
{
    if lines.len() == 0 {
        (o, n)
    } else {
        let (a, c) = next_numbers(lines.drop_last(), o, n);
        let k = lines.last().kind;
        (
            if k == LineKind::Addition { a } else { a.wrapping_add(1) },
            if k == LineKind::Deletion { c } else { c.wrapping_add(1) },
        )
    }
}

/// Whether the lines of a hunk are numbered on from its starts `o` and `n`: a context line
/// has both numbers, an added line only a new one, a deleted line only an old one, and
/// each side's numbers run on by one from the side's start.
pub open spec fn numbered(lines: Seq<DiffLine>, o: u32, n: u32) -> bool
    decreases lines.len(),
{
    lines.len() == 0 || {
        let (a, c) = next_numbers(lines.drop_last(), o, n);
        let l = lines.last();
        &&& numbered(lines.drop_last(), o, n)
        &&& l.old_number == (if l.kind == LineKind::Addition { None } else { Some(a) })
        &&& l.new_number == (if l.kind == LineKind::Deletion { None } else { Some(c) })
    }
}

/// Whether `s` starts a line of `b`.
pub open spec fn starts_line(b: Seq<u8>, s: int) -> bool {
    s == 0 || (0 < s <= b.len() && b[s - 1] == 10)
}

/// Whether the line `l` was read from the input line that starts at `s`: that line begins
/// with the marker of `l`'s kind, and `l`'s range is the rest of it, its line break and one
/// `'\r'` before that left out.
pub open spec fn read_at(b: Seq<u8>, l: DiffLine, s: int) -> bool {
    &&& 0 <= s < b.len()
    &&& starts_line(b, s)
    &&& kind_of_marker(b[s]) == Some(l.kind)
    &&& l.start() == s + 1
    &&& l.end() == line_content_end(b, s)
}

/// Whether the line was read from some line of the input.
pub open spec fn read_from_input(b: Seq<u8>, l: DiffLine) -> bool {
    exists|s: int| read_at(b, l, s)
}

/// Whether `header` is the text of a line of `b` that begins with `@@`, without its
/// line break.
pub open spec fn header_read(b: Seq<u8>, header: Seq<char>) -> bool {
    exists|s: int|
        #![trigger starts_line(b, s)]
        0 <= s < b.len() && starts_line(b, s) && begins(b, s, line_content_end(b, s), hunk_marker())
            && header == text_of(b, s, line_content_end(b, s))
}

/// A hunk as read from `b`: its header is its `@@` line, and its lines are numbered on
/// from its starts, each read from a line of `b`.
pub open spec fn hunk_read(b: Seq<u8>, h: HunkModel) -> bool {
    &&& header_read(b, h.header)
    &&& numbered(h.lines, h.old_start, h.new_start)
    &&& forall|k: int| 0 <= k < h.lines.len() ==> read_from_input(b, #[trigger] h.lines[k])
}

/// Every hunk of the file is as read from `b`.
pub open spec fn file_read(b: Seq<u8>, f: FileModel) -> bool {
    forall|j: int| 0 <= j < f.hunks.len() ==> hunk_read(b, #[trigger] f.hunks[j])
}

spec fn state_read(b: Seq<u8>, st: ParseState) -> bool {
    &&& forall|i: int| 0 <= i < st.files.len() ==> file_read(b, #[trigger] st.files[i])
    &&& st.file matches Some(f) ==> file_read(b, f)
    &&& st.hunk matches Some(h) ==> hunk_read(b, h) && (st.old_number, st.new_number)
        == next_numbers(h.lines, h.old_start, h.new_start)
}

proof fn lemma_close_read(b: Seq<u8>, st: ParseState)
    requires
        state_read(b, st),
    ensures
        state_read(b, close_hunk(st)),
        state_read(b, close_file(close_hunk(st))),
{
    let st1 = close_hunk(st);
    if let (Some(f), Some(h)) = (st.file, st.hunk) {
        let f1 = FileModel { hunks: f.hunks.push(h), ..f };
        assert forall|j: int| 0 <= j < f1.hunks.len() implies hunk_read(b, #[trigger] f1.hunks[j]) by {
            if j < f.hunks.len() {
                assert(f1.hunks[j] == f.hunks[j]);
            }
        }
    }
    if let Some(f) = st1.file {
        let fs = st1.files.push(f);
        assert forall|i: int| 0 <= i < fs.len() implies file_read(b, #[trigger] fs[i]) by {
            if i < st1.files.len() {
                assert(fs[i] == st1.files[i]);
            }
        }
    }
}

/// Whether the line that starts at `s` names a file's paths: a `diff --git `, `--- ` or
/// `+++ ` line.
pub open spec fn names_paths(b: Seq<u8>, s: int) -> bool {
    let e = line_content_end(b, s);
    begins(b, s, e, diff_git_marker()) || begins(b, s, e, old_path_marker()) || begins(
        b,
        s,
        e,
        new_path_marker(),
    )
}

/// A `+++ ` line gives the current file the new path written after the marker, whatever
/// that text is, and marks the file deleted exactly when the text is `/dev/null`; its old
/// path stays.
pub proof fn lemma_new_path_line(b: Seq<u8>, st: ParseState, s: int)
    requires
        0 <= s < b.len(),
        begins(b, s, line_content_end(b, s), new_path_marker()),
        st.file is Some,
    ensures
        ({
            let e = line_content_end(b, s);
            let nx = step(b, st, s, e);
            &&& nx.file is Some
            &&& nx.file->0.new_path == text_of(b, s + 4, e)
            &&& nx.file->0.old_path == st.file->0.old_path
            &&& nx.file->0.is_deleted == (b.subrange(s + 4, e) == dev_null())
            &&& nx.files == st.files
        }),
{
    lemma_line_break(b, s);
    let e = line_content_end(b, s);
    assert(b[s] == new_path_marker()[0]) by {
        assert(b.subrange(s, s + 4)[0] == b[s]);
    }
    assert(!begins(b, s, e, diff_git_marker())) by {
        if begins(b, s, e, diff_git_marker()) {
            assert(b.subrange(s, s + 11)[0] == b[s]);
        }
    }
    assert(!begins(b, s, e, new_file_marker())) by {
        if begins(b, s, e, new_file_marker()) {
            assert(b.subrange(s, s + 14)[0] == b[s]);
        }
    }
    assert(!begins(b, s, e, deleted_file_marker())) by {
        if begins(b, s, e, deleted_file_marker()) {
            assert(b.subrange(s, s + 18)[0] == b[s]);
        }
    }
    assert(!begins(b, s, e, old_path_marker())) by {
        if begins(b, s, e, old_path_marker()) {
            assert(b.subrange(s, s + 4)[0] == b[s]);
        }
    }
}

/// A `--- ` line gives the current file, or a new one where there is none, the old path
/// written after the marker; a new file takes it as its new path too until a `+++ ` line
/// says otherwise.
pub proof fn lemma_old_path_line(b: Seq<u8>, st: ParseState, s: int)
    requires
        0 <= s < b.len(),
        begins(b, s, line_content_end(b, s), old_path_marker()),
    ensures
        ({
            let e = line_content_end(b, s);
            let nx = step(b, st, s, e);
            &&& nx.file is Some
            &&& nx.file->0.old_path == text_of(b, s + 4, e)
            &&& nx.file->0.new_path == match st.file {
                Some(f) => f.new_path,
                None => text_of(b, s + 4, e),
            }
            &&& nx.files == st.files
        }),
{
    lemma_line_break(b, s);
    let e = line_content_end(b, s);
    assert(b[s] == old_path_marker()[0]) by {
        assert(b.subrange(s, s + 4)[0] == b[s]);
    }
    assert(!begins(b, s, e, diff_git_marker())) by {
        if begins(b, s, e, diff_git_marker()) {
            assert(b.subrange(s, s + 11)[0] == b[s]);
        }
    }
    assert(!begins(b, s, e, new_file_marker())) by {
        if begins(b, s, e, new_file_marker()) {
            assert(b.subrange(s, s + 14)[0] == b[s]);
        }
    }
    assert(!begins(b, s, e, deleted_file_marker())) by {
        if begins(b, s, e, deleted_file_marker()) {
            assert(b.subrange(s, s + 18)[0] == b[s]);
        }
    }
}

/// A `diff --git ` line finishes the file before it and starts a new one, neither new nor
/// deleted, with no hunks: its old path is the text after the marker up to the first
/// space, its new path the text after that space (`b/unknown` when there is none).
pub proof fn lemma_diff_git_line(b: Seq<u8>, st: ParseState, s: int)
    requires
        0 <= s < b.len(),
        begins(b, s, line_content_end(b, s), diff_git_marker()),
    ensures
        ({
            let e = line_content_end(b, s);
            let nx = step(b, st, s, e);
            let sp = space_at_or_after(b, s + 11, e);
            &&& s + 11 <= sp <= e
            &&& forall|k: int| s + 11 <= k < sp ==> b[k] != 32
            &&& sp < e ==> b[sp] == 32
            &&& nx.file is Some
            &&& nx.file->0.old_path == text_of(b, s + 11, sp)
            &&& nx.file->0.new_path == if sp < e {
                text_of(b, sp + 1, e)
            } else {
                "b/unknown"@
            }
            &&& !nx.file->0.is_new && !nx.file->0.is_deleted
            &&& nx.file->0.hunks.len() == 0
            &&& nx.hunk is None
            &&& nx.files == match st.file {
                Some(f) => st.files.push(
                    match st.hunk {
                        Some(h) => FileModel { hunks: f.hunks.push(h), ..f },
                        None => f,
                    },
                ),
                None => st.files,
            }
        }),
{
    lemma_line_break(b, s);
    lemma_space_at_or_after(b, s + 11, line_content_end(b, s));
}

proof fn lemma_space_at_or_after(b: Seq<u8>, from: int, to: int)
    requires
        0 <= from <= to <= b.len(),
    ensures
        from <= space_at_or_after(b, from, to) <= to,
        forall|k: int| from <= k < space_at_or_after(b, from, to) ==> b[k] != 32,
        space_at_or_after(b, from, to) < to ==> b[space_at_or_after(b, from, to)] == 32,
    decreases to - from,
{
    if from < to && b[from] != 32 {
        lemma_space_at_or_after(b, from + 1, to);
    }
}

/// A `new file mode ` line marks the current file new, and a `deleted file mode ` line
/// marks it deleted; neither changes its paths.
pub proof fn lemma_mode_lines(b: Seq<u8>, st: ParseState, s: int)
    requires
        0 <= s < b.len(),
        st.file is Some,
        begins(b, s, line_content_end(b, s), new_file_marker()) || begins(
            b,
            s,
            line_content_end(b, s),
            deleted_file_marker(),
        ),
    ensures
        ({
            let e = line_content_end(b, s);
            let nx = step(b, st, s, e);
            &&& nx.file is Some
            &&& nx.file->0.old_path == st.file->0.old_path
            &&& nx.file->0.new_path == st.file->0.new_path
            &&& begins(b, s, e, new_file_marker()) ==> nx.file->0.is_new
            &&& begins(b, s, e, deleted_file_marker()) ==> nx.file->0.is_deleted
            &&& nx.files == st.files
        }),
{
    lemma_line_break(b, s);
    let e = line_content_end(b, s);
    if begins(b, s, e, new_file_marker()) {
        assert(b[s] == new_file_marker()[0]) by {
            assert(b.subrange(s, s + 14)[0] == b[s]);
        }
        assert(!begins(b, s, e, diff_git_marker())) by {
            if begins(b, s, e, diff_git_marker()) {
                assert(b.subrange(s, s + 11)[0] == b[s]);
            }
        }
    } else {
        assert(b[s] == deleted_file_marker()[0]) by {
            assert(b.subrange(s, s + 18)[0] == b[s]);
        }
        assert(!begins(b, s, e, new_file_marker())) by {
            if begins(b, s, e, new_file_marker()) {
                assert(b.subrange(s, s + 14)[0] == b[s]);
            }
        }
        assert(!begins(b, s, e, diff_git_marker())) by {
            if begins(b, s, e, diff_git_marker()) {
                assert(b.subrange(s, s + 11)[0] == b[s]);
                assert(b.subrange(s, s + 18)[1] == b[s + 1]);
                assert(b.subrange(s, s + 11)[1] == b[s + 1]);
            }
        }
    }
}

/// Lines that name no paths keep the current file's paths, and add no file.
proof fn lemma_paths_kept(b: Seq<u8>, pos: int, st: ParseState)
    requires
        0 <= pos,
        pos >= b.len() || starts_line(b, pos),
        st.file is Some,
        forall|s: int| pos <= s < b.len() && #[trigger] starts_line(b, s) ==> !names_paths(b, s),
    ensures
        ({
            let fin = close_file(close_hunk(parse_from(b, pos, st)));
            &&& fin.files.len() == st.files.len() + 1
            &&& fin.files.take(st.files.len() as int) == st.files
            &&& fin.files.last().old_path == st.file->0.old_path
            &&& fin.files.last().new_path == st.file->0.new_path
        }),
    decreases b.len() - pos,
{
    if pos < b.len() {
        let e = line_content_end(b, pos);
        let nl = line_break(b, pos);
        lemma_line_break(b, pos);
        assert(!names_paths(b, pos));
        let nx = step(b, st, pos, e);
        assert(nx.file is Some);
        assert(nx.files == st.files);
        assert(nx.file->0.old_path == st.file->0.old_path);
        assert(nx.file->0.new_path == st.file->0.new_path);
        let np = next_line_start(b, nl);
        lemma_paths_kept(b, np, nx);
    } else {
        assert(st.files.push(close_hunk(st).file->0).take(st.files.len() as int) =~= st.files);
    }
}

/// A patch that opens with a `--- ` line and a `+++ ` line, and names no paths after
/// them, describes one file: its old path is the text after `--- `, its new path the
/// text after `+++ `, whatever either text is.
pub proof fn lemma_header_paths(b: Seq<u8>)
    requires
        begins(b, 0, line_content_end(b, 0), old_path_marker()),
        next_line_start(b, line_break(b, 0)) < b.len(),
        begins(
            b,
            next_line_start(b, line_break(b, 0)),
            line_content_end(b, next_line_start(b, line_break(b, 0))),
            new_path_marker(),
        ),
        forall|s: int|
            next_line_start(b, line_break(b, 0)) < s < b.len() && #[trigger] starts_line(b, s)
                ==> !names_paths(b, s),
    ensures
        diff_model(b).len() == 1,
        diff_model(b)[0].old_path == text_of(b, 4, line_content_end(b, 0)),
        diff_model(b)[0].new_path == text_of(
            b,
            next_line_start(b, line_break(b, 0)) + 4,
            line_content_end(b, next_line_start(b, line_break(b, 0))),
        ),
{
    lemma_line_break(b, 0);
    let st0 = initial_state();
    let s1 = next_line_start(b, line_break(b, 0));
    lemma_old_path_line(b, st0, 0);
    let st1 = step(b, st0, 0, line_content_end(b, 0));
    assert(parse_from(b, 0, st0) == parse_from(b, s1, st1));
    lemma_line_break(b, s1);
    lemma_new_path_line(b, st1, s1);
    let st2 = step(b, st1, s1, line_content_end(b, s1));
    let s2 = next_line_start(b, line_break(b, s1));
    assert(parse_from(b, s1, st1) == parse_from(b, s2, st2));
    assert(st2.files.len() == 0);
    lemma_paths_kept(b, s2, st2);
}

proof fn lemma_step_read(b: Seq<u8>, st: ParseState, s: int)
    requires
        state_read(b, st),
        0 <= s < b.len(),
        starts_line(b, s),
        b.len() <= u32::MAX,
    ensures
        state_read(b, step(b, st, s, line_content_end(b, s))),
{
    let e = line_content_end(b, s);
    lemma_line_break(b, s);
    lemma_close_read(b, st);
    let nx = step(b, st, s, e);
    if begins(b, s, e, diff_git_marker()) {
        assert(file_read(b, nx.file->0));
    } else if begins(b, s, e, new_file_marker()) || begins(b, s, e, deleted_file_marker()) || begins(
        b,
        s,
        e,
        new_path_marker(),
    ) {
        if let Some(f) = nx.file {
            assert(f.hunks == st.file->0.hunks);
        }
    } else if begins(b, s, e, old_path_marker()) {
        if let Some(f) = nx.file {
            if let Some(f0) = close_hunk(st).file {
                assert(f.hunks == f0.hunks);
            }
        }
    } else if begins(b, s, e, hunk_marker()) {
        if let Some(f) = nx.file {
            if close_hunk(st).file is None {
                assert(f == unknown_file());
            }
        }
        assert(starts_line(b, s) && begins(b, s, line_content_end(b, s), hunk_marker())
            && nx.hunk->0.header == text_of(b, s, line_content_end(b, s)));
    } else if st.hunk is None || b.subrange(s, e) == no_newline_marker() || e <= s || kind_of_marker(
        b[s],
    ) is None {
    } else {
        let kind = kind_of_marker(b[s])->0;
        let h = st.hunk->0;
        let line = marked_line(kind, st.old_number, st.new_number, s, e);
        let lines = h.lines.push(line);
        assert(lines.drop_last() =~= h.lines);
        assert(header_read(b, h.header));
        assert(read_at(b, line, s));
        assert forall|k: int| 0 <= k < lines.len() implies read_from_input(b, #[trigger] lines[k]) by {
            if k < h.lines.len() {
                assert(lines[k] == h.lines[k]);
            } else {
                assert(lines[k] == line);
            }
        }
    }
}

proof fn lemma_parse_from_read(b: Seq<u8>, pos: int, st: ParseState)
    requires
        state_read(b, st),
        pos >= b.len() || (0 <= pos && starts_line(b, pos)),
        b.len() <= u32::MAX,
    ensures
        state_read(b, parse_from(b, pos, st)),
    decreases b.len() - pos,
{
    if 0 <= pos < b.len() {
        let nl = line_break(b, pos);
        lemma_line_break(b, pos);
        lemma_step_read(b, st, pos);
        lemma_parse_from_read(b, next_line_start(b, nl), step(b, st, pos, line_content_end(b, pos)));
    }
}

/// Every hunk of a unified diff is as it was read: its header is the text of its `@@`
/// line without the line break, its lines are numbered on from the hunk's starts (a context line on both sides, an added line on the new side only, a
/// deleted line on the old side only, each side counting up by one), and each line's range
/// is the input line it was read from, after its marker, its line break and one `'\r'`
/// before that left out.
pub proof fn lemma_parsed_hunks_read(b: Seq<u8>)
    requires
        b.len() <= u32::MAX,
    ensures
        forall|i: int| 0 <= i < diff_model(b).len() ==> file_read(b, #[trigger] diff_model(b)[i]),
{
    lemma_parse_from_read(b, 0, initial_state());
    lemma_close_read(b, parse_from(b, 0, initial_state()));
}

/// How many lines of the hunks are of the given kind.
pub open spec fn model_hunks_count(hunks: Seq<HunkModel>, kind: LineKind) -> nat
    decreases hunks.len(),
{
    if hunks.len() == 0 {
        0
    } else {
        model_hunks_count(hunks.drop_last(), kind) + lines_kind_count(hunks.last().lines, kind)
    }
}

/// How many lines of the files' hunks are of the given kind.
pub open spec fn model_files_count(files: Seq<FileModel>, kind: LineKind) -> nat
    decreases files.len(),
{
    if files.len() == 0 {
        0
    } else {
        model_files_count(files.drop_last(), kind) + model_hunks_count(files.last().hunks, kind)
    }
}

/// How many lines of the kind the parser holds: in finished files, in the current file and
/// in the current hunk.
spec fn state_count(st: ParseState, kind: LineKind) -> nat {
    model_files_count(st.files, kind) + match st.file {
        Some(f) => model_hunks_count(f.hunks, kind),
        None => 0,
    } + match st.hunk {
        Some(h) => lines_kind_count(h.lines, kind),
        None => 0,
    }
}

/// A hunk is only ever open inside a file.
spec fn hunk_in_file(st: ParseState) -> bool {
    st.hunk is Some ==> st.file is Some
}

/// Whether the line begins with `lit`.
pub open spec fn line_begins(line: Seq<u8>, lit: Seq<u8>) -> bool {
    line.len() >= lit.len() && line.subrange(0, lit.len() as int) == lit
}

/// Whether a hunk is open after the line, `open` telling whether one was before it.
pub open spec fn hunk_open_after(line: Seq<u8>, open: bool) -> bool {
    if line_begins(line, diff_git_marker()) || line_begins(line, old_path_marker()) {
        false
    } else if line_begins(line, new_file_marker()) || line_begins(line, deleted_file_marker())
        || line_begins(line, new_path_marker()) {
        open
    } else if line_begins(line, hunk_marker()) {
        true
    } else {
        open
    }
}

/// Whether the line adds a line of the kind to the open hunk, `open` telling whether one is.
pub open spec fn counts_line(line: Seq<u8>, open: bool, kind: LineKind) -> bool {
    &&& !line_begins(line, diff_git_marker())
    &&& !line_begins(line, new_file_marker())
    &&& !line_begins(line, deleted_file_marker())
    &&& !line_begins(line, old_path_marker())
    &&& !line_begins(line, new_path_marker())
    &&& !line_begins(line, hunk_marker())
    &&& open
    &&& line != no_newline_marker()
    &&& line.len() > 0
    &&& kind_of_marker(line[0]) == Some(kind)
}

/// Over the lines of `b` from `pos` on: whether a hunk is open after them, and how many
/// lines of the kind they add, `open` telling whether a hunk was open before them.
pub open spec fn lines_effect(b: Seq<u8>, pos: int, open: bool, kind: LineKind) -> (bool, nat)
    decreases b.len() - pos,
{
    if pos < 0 || pos >= b.len() {
        (open, 0)
    } else {
        let nl = line_break(b, pos);
        proof {
            lemma_line_break(b, pos);
        }
        let line = b.subrange(pos, line_content_end(b, pos));
        let rest = lines_effect(b, next_line_start(b, nl), hunk_open_after(line, open), kind);
        (rest.0, rest.1 + if counts_line(line, open, kind) {
            1nat
        } else {
            0nat
        })
    }
}

proof fn lemma_begins_line(b: Seq<u8>, s: int, e: int, lit: Seq<u8>)
    requires
        0 <= s <= e <= b.len(),
    ensures
        begins(b, s, e, lit) == line_begins(b.subrange(s, e), lit),
{
    if e - s >= lit.len() {
        assert(b.subrange(s, e).subrange(0, lit.len() as int) =~= b.subrange(s, s + lit.len()));
    }
}

proof fn lemma_close_count(st: ParseState, kind: LineKind)
    requires
        hunk_in_file(st),
    ensures
        state_count(close_hunk(st), kind) == state_count(st, kind),
        state_count(close_file(close_hunk(st)), kind) == state_count(st, kind),
        close_file(close_hunk(st)).file is None,
        close_file(close_hunk(st)).hunk is None,
{
    if let (Some(f), Some(h)) = (st.file, st.hunk) {
        assert(f.hunks.push(h).drop_last() =~= f.hunks);
    }
    if let Some(f) = close_hunk(st).file {
        assert(close_hunk(st).files.push(f).drop_last() =~= close_hunk(st).files);
    }
}

proof fn lemma_step_count(b: Seq<u8>, st: ParseState, s: int, e: int, kind: LineKind)
    requires
        hunk_in_file(st),
        0 <= s <= e <= b.len(),
    ensures
        hunk_in_file(step(b, st, s, e)),
        (step(b, st, s, e).hunk is Some) == hunk_open_after(b.subrange(s, e), st.hunk is Some),
        state_count(step(b, st, s, e), kind) == state_count(st, kind) + if counts_line(
            b.subrange(s, e),
            st.hunk is Some,
            kind,
        ) {
            1nat
        } else {
            0nat
        },
{
    let line = b.subrange(s, e);
    lemma_begins_line(b, s, e, diff_git_marker());
    lemma_begins_line(b, s, e, new_file_marker());
    lemma_begins_line(b, s, e, deleted_file_marker());
    lemma_begins_line(b, s, e, old_path_marker());
    lemma_begins_line(b, s, e, new_path_marker());
    lemma_begins_line(b, s, e, hunk_marker());
    lemma_close_count(st, kind);
    let nx = step(b, st, s, e);
    if begins(b, s, e, diff_git_marker()) {
    } else if begins(b, s, e, new_file_marker()) || begins(b, s, e, deleted_file_marker()) || begins(
        b,
        s,
        e,
        new_path_marker(),
    ) {
    } else if begins(b, s, e, old_path_marker()) {
    } else if begins(b, s, e, hunk_marker()) {
        if close_hunk(st).file is None {
            assert(model_hunks_count(unknown_file().hunks, kind) == 0);
        }
    } else if st.hunk is None || line == no_newline_marker() || e <= s || kind_of_marker(b[s]) is None {
        if e > s {
            assert(line[0] == b[s]);
        }
    } else {
        assert(line[0] == b[s]);
        let k = kind_of_marker(b[s])->0;
        let h = st.hunk->0;
        let l = marked_line(k, st.old_number, st.new_number, s, e);
        assert(h.lines.push(l).drop_last() =~= h.lines);
    }
}

proof fn lemma_parse_from_count(b: Seq<u8>, pos: int, st: ParseState, kind: LineKind)
    requires
        hunk_in_file(st),
    ensures
        hunk_in_file(parse_from(b, pos, st)),
        (parse_from(b, pos, st).hunk is Some) == lines_effect(b, pos, st.hunk is Some, kind).0,
        state_count(parse_from(b, pos, st), kind) == state_count(st, kind) + lines_effect(
            b,
            pos,
            st.hunk is Some,
            kind,
        ).1,
    decreases b.len() - pos,
{
    if 0 <= pos < b.len() {
        let nl = line_break(b, pos);
        lemma_line_break(b, pos);
        let e = line_content_end(b, pos);
        lemma_step_count(b, st, pos, e, kind);
        lemma_parse_from_count(b, next_line_start(b, nl), step(b, st, pos, e), kind);
    }
}

/// The lines of the kind in the files a unified diff describes are those its lines add.
proof fn lemma_model_count(b: Seq<u8>, kind: LineKind)
    ensures
        model_files_count(diff_model(b), kind) == lines_effect(b, 0, false, kind).1,
{
    lemma_parse_from_count(b, 0, initial_state(), kind);
    lemma_close_count(parse_from(b, 0, initial_state()), kind);
}

proof fn lemma_line_break_prefix(a: Seq<u8>, y: Seq<u8>, pos: int)
    requires
        0 <= pos < a.len(),
        a.last() == 10,
    ensures
        line_break(a + y, pos) == line_break(a, pos),
        line_break(a, pos) < a.len(),
    decreases a.len() - pos,
{
    assert((a + y)[pos] == a[pos]);
    if a[pos] != 10 {
        assert(pos + 1 < a.len());
        lemma_line_break_prefix(a, y, pos + 1);
    }
}

proof fn lemma_line_break_shift(a: Seq<u8>, y: Seq<u8>, q: int)
    requires
        0 <= q <= y.len(),
    ensures
        line_break(a + y, a.len() + q) == a.len() + line_break(y, q),
    decreases y.len() - q,
{
    if q < y.len() {
        assert((a + y)[a.len() + q] == y[q]);
        if y[q] != 10 {
            lemma_line_break_shift(a, y, q + 1);
        }
    }
}

/// The lines of `a + y` from a line start `pos` within `a` are those of `a`, then those of `y`.
proof fn lemma_effect_prefix(a: Seq<u8>, y: Seq<u8>, pos: int, open: bool, kind: LineKind)
    requires
        0 <= pos <= a.len(),
        a.len() > 0,
        a.last() == 10,
    ensures
        ({
            let first = lines_effect(a, pos, open, kind);
            let rest = lines_effect(a + y, a.len() as int, first.0, kind);
            lines_effect(a + y, pos, open, kind) == (rest.0, first.1 + rest.1)
        }),
    decreases a.len() - pos,
{
    let c = a + y;
    if pos < a.len() {
        lemma_line_break_prefix(a, y, pos);
        lemma_line_break(a, pos);
        let nl = line_break(a, pos);
        assert(c[nl] == a[nl]);
        if nl > pos {
            assert(c[nl - 1] == a[nl - 1]);
        }
        let e = line_content_end(a, pos);
        assert(line_content_end(c, pos) == e);
        assert(c.subrange(pos, e) =~= a.subrange(pos, e));
        let line = a.subrange(pos, e);
        lemma_effect_prefix(a, y, nl + 1, hunk_open_after(line, open), kind);
    }
}

/// The lines of `a + y` from `a.len() + q` on are those of `y` from `q` on.
proof fn lemma_effect_shift(a: Seq<u8>, y: Seq<u8>, q: int, open: bool, kind: LineKind)
    requires
        0 <= q,
    ensures
        lines_effect(a + y, a.len() + q, open, kind) == lines_effect(y, q, open, kind),
    decreases y.len() - q,
{
    let c = a + y;
    if q < y.len() {
        lemma_line_break_shift(a, y, q);
        lemma_line_break(y, q);
        let nl = line_break(y, q);
        if nl < y.len() {
            assert(c[a.len() + nl] == y[nl]);
        }
        if nl > q {
            assert(c[a.len() + nl - 1] == y[nl - 1]);
        }
        let e = line_content_end(y, q);
        assert(line_content_end(c, a.len() + q) == a.len() + e);
        assert(c.subrange(a.len() + q, a.len() + e) =~= y.subrange(q, e));
        let line = y.subrange(q, e);
        lemma_effect_shift(a, y, next_line_start(y, nl), hunk_open_after(line, open), kind);
        assert(next_line_start(c, a.len() + nl) == a.len() + next_line_start(y, nl));
    }
}

/// A diff that starts with a `diff --git ` line adds the same lines whatever came before.
proof fn lemma_effect_fresh(y: Seq<u8>, open: bool, kind: LineKind)
    requires
        line_begins(y, diff_git_marker()),
    ensures
        lines_effect(y, 0, open, kind) == lines_effect(y, 0, false, kind),
{
    lemma_line_break(y, 0);
    let nl = line_break(y, 0);
    let m = diff_git_marker();
    assert forall|k: int| 0 <= k < 11 implies y[k] != 10 by {
        assert(y.subrange(0, 11)[k] == m[k]);
    }
    assert(y[10] == m[10]);
    let e = line_content_end(y, 0);
    assert(e >= 11);
    assert(y.subrange(0, e).subrange(0, 11) =~= y.subrange(0, 11));
}

/// Joining two unified diffs, the second starting with a `diff --git ` line and the first
/// ending with a line break, joins the files they describe: the lines of each kind in the
/// joined diff's files are those of the first's files and the second's together.
pub proof fn lemma_joined_diffs_count(a: Seq<u8>, y: Seq<u8>, kind: LineKind)
    requires
        a.len() > 0,
        a.last() == 10,
        line_begins(y, diff_git_marker()),
    ensures
        model_files_count(diff_model(a + y), kind) == model_files_count(diff_model(a), kind)
            + model_files_count(diff_model(y), kind),
{
    lemma_model_count(a + y, kind);
    lemma_model_count(a, kind);
    lemma_model_count(y, kind);
    lemma_effect_prefix(a, y, 0, false, kind);
    let first = lines_effect(a, 0, false, kind);
    lemma_effect_shift(a, y, 0, first.0, kind);
    lemma_effect_fresh(y, first.0, kind);
}

/// The files are counted as their models are: a parsed diff's count of lines of a kind is
/// the count in the files its text describes.
pub proof fn lemma_matched_files_count(fs: Seq<DiffFile>, ms: Seq<FileModel>, text: Seq<char>, kind: LineKind)
    requires
        files_match(fs, ms, text),
    ensures
        files_kind_count(fs, kind) == model_files_count(ms, kind),
    decreases fs.len(),
{
    if fs.len() > 0 {
        let n = fs.len() - 1;
        assert(files_match(fs.drop_last(), ms.drop_last(), text)) by {
            assert forall|i: int| 0 <= i < ms.drop_last().len() implies file_matches(
                #[trigger] fs.drop_last()[i],
                ms.drop_last()[i],
                text,
            ) by {
                assert(fs.drop_last()[i] == fs[i]);
                assert(file_matches(fs[i], ms[i], text));
            }
        }
        lemma_matched_files_count(fs.drop_last(), ms.drop_last(), text, kind);
        assert(file_matches(fs[n], ms[n], text));
        lemma_matched_hunks_count(fs[n].hunks@, ms[n].hunks, text, kind);
    }
}

proof fn lemma_matched_hunks_count(hs: Seq<DiffHunk>, ms: Seq<HunkModel>, text: Seq<char>, kind: LineKind)
    requires
        hs.len() == ms.len(),
        forall|j: int| 0 <= j < ms.len() ==> hunk_matches(#[trigger] hs[j], ms[j], text),
    ensures
        hunks_kind_count(hs, kind) == model_hunks_count(ms, kind),
    decreases hs.len(),
{
    if hs.len() > 0 {
        let n = hs.len() - 1;
        assert forall|j: int| 0 <= j < ms.drop_last().len() implies hunk_matches(
            #[trigger] hs.drop_last()[j],
            ms.drop_last()[j],
            text,
        ) by {
            assert(hs.drop_last()[j] == hs[j]);
            assert(hunk_matches(hs[j], ms[j], text));
        }
        lemma_matched_hunks_count(hs.drop_last(), ms.drop_last(), text, kind);
        assert(hunk_matches(hs[n], ms[n], text));
    }
}

} // verus!

verus! {

/// A hunk whose lines point into a buffer that the whole diff shares.
struct SharedDiffHunkBuilder {
    header: String,
    old_start: u32,
    new_start: u32,
    lines: Vec<DiffLine>,
}

impl SharedDiffHunkBuilder {
    fn new(header: String, old_start: u32, new_start: u32) -> (r: Self)
        ensures
            r.header == header,
            r.old_start == old_start,
            r.new_start == new_start,
            r.lines@ == Seq::<DiffLine>::empty(),
    {
        SharedDiffHunkBuilder { header, old_start, new_start, lines: Vec::new() }
    }

    fn push_line(
        &mut self,
        old_number: Option<u32>,
        new_number: Option<u32>,
        kind: LineKind,
        content_start: u32,
        content_end: u32,
    )
        ensures
            final(self).header == old(self).header,
            final(self).old_start == old(self).old_start,
            final(self).new_start == old(self).new_start,
            ({
                let l = final(self).lines@.last();
                &&& final(self).lines@ == old(self).lines@.push(l)
                &&& l.old_number == old_number
                &&& l.new_number == new_number
                &&& l.kind == kind
                &&& l.start() == content_start
                &&& l.end() == content_end
            }),
    {
        self.lines.push(DiffLine::new(old_number, new_number, kind, content_start, content_end));
    }

    fn finish(self, content: Arc<String>) -> (r: DiffHunk)
        ensures
            r.header == self.header,
            r.old_start == self.old_start,
            r.new_start == self.new_start,
            r.lines@ == self.lines@,
            r.text() == content@,
    {
        DiffHunk {
            header: self.header,
            old_start: self.old_start,
            new_start: self.new_start,
            lines: self.lines,
            content,
        }
    }
}

/// The hunk is the parser's model of it.
pub open spec fn hunk_matches(h: DiffHunk, m: HunkModel, text: Seq<char>) -> bool {
    &&& h.header@ == m.header
    &&& h.old_start == m.old_start
    &&& h.new_start == m.new_start
    &&& h.lines@ == m.lines
    &&& h.text() == text
}

/// The file is the parser's model of it.
pub open spec fn file_matches(f: DiffFile, m: FileModel, text: Seq<char>) -> bool {
    &&& f.old_path@ == m.old_path
    &&& f.new_path@ == m.new_path
    &&& f.is_new == m.is_new
    &&& f.is_deleted == m.is_deleted
    &&& f.hunks@.len() == m.hunks.len()
    &&& forall|j: int| 0 <= j < m.hunks.len() ==> hunk_matches(#[trigger] f.hunks@[j], m.hunks[j], text)
}

/// The files are the parser's models of them, in order.
pub open spec fn files_match(fs: Seq<DiffFile>, ms: Seq<FileModel>, text: Seq<char>) -> bool {
    &&& fs.len() == ms.len()
    &&& forall|i: int| 0 <= i < ms.len() ==> file_matches(#[trigger] fs[i], ms[i], text)
}

spec fn opt_file_matches(f: Option<DiffFile>, m: Option<FileModel>, text: Seq<char>) -> bool {
    match (f, m) {
        (Some(f), Some(m)) => file_matches(f, m, text),
        (None, None) => true,
        _ => false,
    }
}

spec fn opt_builder_matches(h: Option<SharedDiffHunkBuilder>, m: Option<HunkModel>) -> bool {
    match (h, m) {
        (Some(h), Some(m)) => {
            &&& h.header@ == m.header
            &&& h.old_start == m.old_start
            &&& h.new_start == m.new_start
            &&& h.lines@ == m.lines
        },
        (None, None) => true,
        _ => false,
    }
}

spec fn hunk_model_fits(h: HunkModel, text: Seq<char>) -> bool {
    forall|k: int| 0 <= k < h.lines.len() ==> (#[trigger] h.lines[k]).fits(text)
}

spec fn file_model_fits(f: FileModel, text: Seq<char>) -> bool {
    forall|j: int| 0 <= j < f.hunks.len() ==> hunk_model_fits(#[trigger] f.hunks[j], text)
}

spec fn state_fits(st: ParseState, text: Seq<char>) -> bool {
    &&& forall|i: int| 0 <= i < st.files.len() ==> file_model_fits(#[trigger] st.files[i], text)
    &&& st.file matches Some(f) ==> file_model_fits(f, text)
    &&& st.hunk matches Some(h) ==> hunk_model_fits(h, text)
}

fn finish_hunk(
    file: &mut Option<DiffFile>,
    hunk: &mut Option<SharedDiffHunkBuilder>,
    content: &Arc<String>,
    Ghost(st): Ghost<ParseState>,
)
    requires
        opt_file_matches(*old(file), st.file, content@),
        opt_builder_matches(*old(hunk), st.hunk),
        state_fits(st, content@),
    ensures
        opt_file_matches(*final(file), close_hunk(st).file, content@),
        *final(hunk) is None,
        state_fits(close_hunk(st), content@),
{
    if let Some(h) = hunk.take() {
        if let Some(mut f) = file.take() {
            let ghost f0 = f;
            let finished = h.finish(share(content));
            f.hunks.push(finished);
            proof {
                let m = st.file->0;
                let hm = st.hunk->0;
                let m2 = FileModel { hunks: m.hunks.push(hm), ..m };
                assert forall|j: int| 0 <= j < m2.hunks.len() implies hunk_matches(
                    #[trigger] f.hunks@[j],
                    m2.hunks[j],
                    content@,
                ) by {
                    if j < m.hunks.len() {
                        assert(f.hunks@[j] == f0.hunks@[j]);
                    }
                }
                assert(file_matches(f, m2, content@));
                assert(file_model_fits(m2, content@)) by {
                    assert forall|j: int| 0 <= j < m2.hunks.len() implies hunk_model_fits(
                        #[trigger] m2.hunks[j],
                        content@,
                    ) by {
                        if j < m.hunks.len() {
                            assert(m2.hunks[j] == m.hunks[j]);
                        }
                    }
                }
            }
            *file = Some(f);
        }
    }
}

fn finish_file(
    files: &mut Vec<DiffFile>,
    file: &mut Option<DiffFile>,
    Ghost(st): Ghost<ParseState>,
    Ghost(text): Ghost<Seq<char>>,
)
    requires
        files_match(old(files)@, st.files, text),
        opt_file_matches(*old(file), st.file, text),
        state_fits(st, text),
    ensures
        files_match(final(files)@, close_file(st).files, text),
        *final(file) is None,
        close_file(st).file is None,
        state_fits(close_file(st), text),
{
    if let Some(f) = file.take() {
        let ghost fs0 = files@;
        files.push(f);
        proof {
            let ms = st.files.push(st.file->0);
            assert forall|i: int| 0 <= i < ms.len() implies file_matches(
                #[trigger] files@[i],
                ms[i],
                text,
            ) by {
                if i < fs0.len() {
                    assert(files@[i] == fs0[i]);
                }
            }
            assert forall|i: int| 0 <= i < ms.len() implies file_model_fits(
                #[trigger] ms[i],
                text,
            ) by {
                if i < st.files.len() {
                    assert(ms[i] == st.files[i]);
                }
            }
        }
    }
}

} // verus!

verus! {

/// What every line handler may assume of the line `b[s..e]` and its buffer.
spec fn line_ok(b: Seq<u8>, text: Seq<char>, s: int, e: int) -> bool {
    &&& b == utf8(text)
    &&& b.len() <= u32::MAX
    &&& 0 <= s <= e <= b.len()
    &&& is_char_boundary(b, s)
    &&& is_char_boundary(b, e)
}

/// The parser's state, both as values and as its model.
spec fn state_ok(
    files: Seq<DiffFile>,
    file: Option<DiffFile>,
    hunk: Option<SharedDiffHunkBuilder>,
    old_number: u32,
    new_number: u32,
    st: ParseState,
    text: Seq<char>,
) -> bool {
    &&& files_match(files, st.files, text)
    &&& opt_file_matches(file, st.file, text)
    &&& opt_builder_matches(hunk, st.hunk)
    &&& old_number == st.old_number
    &&& new_number == st.new_number
    &&& state_fits(st, text)
}

/// The first space in `b[from..to]`, or `to`.
fn find_space(b: &[u8], from: usize, to: usize) -> (r: usize)
    requires
        from <= to <= b@.len(),
    ensures
        r == space_at_or_after(b@, from as int, to as int),
        from <= r <= to,
        r < to ==> b@[r as int] == 32,
{
    let mut i = from;
    while i < to && b[i] != 32
        invariant
            from <= i <= to <= b@.len(),
            space_at_or_after(b@, i as int, to as int) == space_at_or_after(
                b@,
                from as int,
                to as int,
            ),
        decreases to - i,
    {
        i += 1;
    }
    i
}

fn on_diff_git(
    b: &[u8],
    text: &str,
    content: &Arc<String>,
    s: usize,
    e: usize,
    files: &mut Vec<DiffFile>,
    file: &mut Option<DiffFile>,
    hunk: &mut Option<SharedDiffHunkBuilder>,
    Ghost(st): Ghost<ParseState>,
)
    requires
        line_ok(b@, content@, s as int, e as int),
        text.spec_bytes() == b@,
        begins(b@, s as int, e as int, diff_git_marker()),
        files_match(old(files)@, st.files, content@),
        opt_file_matches(*old(file), st.file, content@),
        opt_builder_matches(*old(hunk), st.hunk),
        state_fits(st, content@),
    ensures
        files_match(final(files)@, step(b@, st, s as int, e as int).files, content@),
        opt_file_matches(*final(file), step(b@, st, s as int, e as int).file, content@),
        opt_builder_matches(*final(hunk), step(b@, st, s as int, e as int).hunk),
        state_fits(step(b@, st, s as int, e as int), content@),
{
    finish_hunk(file, hunk, content, Ghost(st));
    finish_file(files, file, Ghost(close_hunk(st)), Ghost(content@));
    let p = s + 11;
    proof {
        assert(b@[p - 1] == diff_git_marker()[10]);
        lemma_ascii_boundaries(b@, p - 1);
    }
    let sp = find_space(b, p, e);
    proof {
        if sp < e {
            lemma_ascii_boundaries(b@, sp as int);
        }
    }
    let old_path = owned_substring(text, p, sp);
    let new_path = if sp < e {
        owned_substring(text, sp + 1, e)
    } else {
        "b/unknown".to_owned()
    };
    *file = Some(
        DiffFile { old_path, new_path, hunks: Vec::new(), is_new: false, is_deleted: false },
    );
}

fn set_file_flag(file: &mut Option<DiffFile>, new_file: bool)
    ensures
        match *old(file) {
            Some(f) => *final(file) == Some(
                if new_file {
                    DiffFile { is_new: true, ..f }
                } else {
                    DiffFile { is_deleted: true, ..f }
                },
            ),
            None => *final(file) is None,
        },
{
    if let Some(mut f) = file.take() {
        if new_file {
            f.is_new = true;
        } else {
            f.is_deleted = true;
        }
        *file = Some(f);
    }
}

fn on_old_path(
    b: &[u8],
    text: &str,
    content: &Arc<String>,
    s: usize,
    e: usize,
    file: &mut Option<DiffFile>,
    hunk: &mut Option<SharedDiffHunkBuilder>,
    Ghost(st): Ghost<ParseState>,
)
    requires
        line_ok(b@, content@, s as int, e as int),
        text.spec_bytes() == b@,
        begins(b@, s as int, e as int, old_path_marker()),
        opt_file_matches(*old(file), st.file, content@),
        opt_builder_matches(*old(hunk), st.hunk),
        state_fits(st, content@),
    ensures
        ({
            let st1 = close_hunk(st);
            let path = text_of(b@, s + 4, e as int);
            let null = b@.subrange(s + 4, e as int) == dev_null();
            opt_file_matches(
                *final(file),
                match st1.file {
                    Some(f) => Some(FileModel { old_path: path, is_new: null, ..f }),
                    None => Some(
                        FileModel {
                            old_path: path,
                            new_path: path,
                            hunks: seq![],
                            is_new: null,
                            is_deleted: false,
                        },
                    ),
                },
                content@,
            )
        }),
        *final(hunk) is None,
        state_fits(close_hunk(st), content@),
{
    finish_hunk(file, hunk, content, Ghost(st));
    proof {
        assert(b@[s + 3] == old_path_marker()[3]);
        lemma_ascii_boundaries(b@, s + 3);
    }
    let path = owned_substring(text, s + 4, e);
    let null = bytes_at(b, s + 4, e, &dev_null_bytes());
    match file.take() {
        Some(mut f) => {
            f.old_path = path;
            f.is_new = null;
            *file = Some(f);
        },
        None => {
            let new_path = path.clone();
            *file = Some(
                DiffFile { old_path: path, new_path, hunks: Vec::new(), is_new: null, is_deleted: false },
            );
        },
    }
}

fn on_new_path(
    b: &[u8],
    text: &str,
    content: &Arc<String>,
    s: usize,
    e: usize,
    file: &mut Option<DiffFile>,
    Ghost(st): Ghost<ParseState>,
)
    requires
        line_ok(b@, content@, s as int, e as int),
        text.spec_bytes() == b@,
        begins(b@, s as int, e as int, new_path_marker()),
        opt_file_matches(*old(file), st.file, content@),
    ensures
        ({
            let path = text_of(b@, s + 4, e as int);
            let null = b@.subrange(s + 4, e as int) == dev_null();
            opt_file_matches(
                *final(file),
                match st.file {
                    Some(f) => Some(FileModel { new_path: path, is_deleted: null, ..f }),
                    None => None,
                },
                content@,
            )
        }),
{
    if let Some(mut f) = file.take() {
        proof {
            assert(b@[s + 3] == new_path_marker()[3]);
            lemma_ascii_boundaries(b@, s + 3);
        }
        f.new_path = owned_substring(text, s + 4, e);
        f.is_deleted = bytes_at(b, s + 4, e, &dev_null_bytes());
        *file = Some(f);
    }
}

fn on_hunk_header(
    b: &[u8],
    text: &str,
    content: &Arc<String>,
    s: usize,
    e: usize,
    file: &mut Option<DiffFile>,
    hunk: &mut Option<SharedDiffHunkBuilder>,
    old_number: &mut u32,
    new_number: &mut u32,
    Ghost(st): Ghost<ParseState>,
)
    requires
        line_ok(b@, content@, s as int, e as int),
        text.spec_bytes() == b@,
        begins(b@, s as int, e as int, hunk_marker()),
        opt_file_matches(*old(file), st.file, content@),
        opt_builder_matches(*old(hunk), st.hunk),
        state_fits(st, content@),
    ensures
        opt_file_matches(*final(file), step(b@, st, s as int, e as int).file, content@),
        opt_builder_matches(*final(hunk), step(b@, st, s as int, e as int).hunk),
        *final(old_number) == step(b@, st, s as int, e as int).old_number,
        *final(new_number) == step(b@, st, s as int, e as int).new_number,
{
    finish_hunk(file, hunk, content, Ghost(st));
    if file.is_none() {
        *file = Some(
            DiffFile {
                old_path: "a/unknown".to_owned(),
                new_path: "b/unknown".to_owned(),
                hunks: Vec::new(),
                is_new: false,
                is_deleted: false,
            },
        );
    }
    let header = owned_substring(text, s, e);
    let (o, n) = match parse_hunk_starts(header.as_str()) {
        Some(starts) => starts,
        None => (1, 1),
    };
    *old_number = o;
    *new_number = n;
    *hunk = Some(SharedDiffHunkBuilder::new(header, o, n));
}

proof fn lemma_marked_line_fits(
    b: Seq<u8>,
    text: Seq<char>,
    kind: LineKind,
    o: u32,
    n: u32,
    s: int,
    e: int,
)
    requires
        line_ok(b, text, s, e),
        s < e,
        b[s] < 0x80,
    ensures
        marked_line(kind, o, n, s, e).fits(text),
{
    lemma_ascii_boundaries(b, s);
}

fn on_hunk_line(
    b: &[u8],
    content: &Arc<String>,
    s: usize,
    e: usize,
    hunk: &mut Option<SharedDiffHunkBuilder>,
    old_number: &mut u32,
    new_number: &mut u32,
    Ghost(st): Ghost<ParseState>,
)
    requires
        line_ok(b@, content@, s as int, e as int),
        s < e,
        kind_of_marker(b@[s as int]) is Some,
        *old(hunk) is Some,
        st.hunk is Some,
        opt_builder_matches(*old(hunk), st.hunk),
        *old(old_number) == st.old_number,
        *old(new_number) == st.new_number,
    ensures
        ({
            let kind = kind_of_marker(b@[s as int])->0;
            let h = st.hunk->0;
            let line = marked_line(kind, st.old_number, st.new_number, s as int, e as int);
            &&& opt_builder_matches(
                *final(hunk),
                Some(HunkModel { lines: h.lines.push(line), ..h }),
            )
            &&& *final(old_number) == (if kind == LineKind::Addition {
                st.old_number
            } else {
                st.old_number.wrapping_add(1)
            })
            &&& *final(new_number) == (if kind == LineKind::Deletion {
                st.new_number
            } else {
                st.new_number.wrapping_add(1)
            })
            &&& line.fits(content@)
        }),
{
    let c = b[s];
    let kind = if c == 43 {
        LineKind::Addition
    } else if c == 45 {
        LineKind::Deletion
    } else {
        LineKind::Context
    };
    let o = *old_number;
    let n = *new_number;
    let old_line = if kind == LineKind::Addition {
        None
    } else {
        Some(o)
    };
    let new_line = if kind == LineKind::Deletion {
        None
    } else {
        Some(n)
    };
    if kind != LineKind::Addition {
        *old_number = o.wrapping_add(1);
    }
    if kind != LineKind::Deletion {
        *new_number = n.wrapping_add(1);
    }
    proof {
        lemma_marked_line_fits(b@, content@, kind, o, n, s as int, e as int);
    }
    if let Some(mut h) = hunk.take() {
        h.push_line(old_line, new_line, kind, (s + 1) as u32, e as u32);
        proof {
            assert(h.lines@.last() == marked_line(kind, o, n, s as int, e as int));
        }
        *hunk = Some(h);
    }
}

} // verus!

verus! {

fn parse_line(
    b: &[u8],
    text: &str,
    content: &Arc<String>,
    s: usize,
    e: usize,
    files: &mut Vec<DiffFile>,
    file: &mut Option<DiffFile>,
    hunk: &mut Option<SharedDiffHunkBuilder>,
    old_number: &mut u32,
    new_number: &mut u32,
    Ghost(st): Ghost<ParseState>,
)
    requires
        line_ok(b@, content@, s as int, e as int),
        text.spec_bytes() == b@,
        state_ok(old(files)@, *old(file), *old(hunk), *old(old_number), *old(new_number), st, content@),
    ensures
        state_ok(
            final(files)@,
            *final(file),
            *final(hunk),
            *final(old_number),
            *final(new_number),
            step(b@, st, s as int, e as int),
            content@,
        ),
{
    let ghost nx = step(b@, st, s as int, e as int);
    if starts_at(b, s, e, &diff_git_bytes()) {
        on_diff_git(b, text, content, s, e, files, file, hunk, Ghost(st));
    } else if starts_at(b, s, e, &new_file_bytes()) {
        set_file_flag(file, true);
    } else if starts_at(b, s, e, &deleted_file_bytes()) {
        set_file_flag(file, false);
    } else if starts_at(b, s, e, &old_path_bytes()) {
        on_old_path(b, text, content, s, e, file, hunk, Ghost(st));
        proof {
            let st1 = close_hunk(st);
            let path = text_of(b@, s + 4, e as int);
            assert(state_fits(nx, content@)) by {
                match st1.file {
                    Some(f) => {
                        assert(file_model_fits(nx.file->0, content@)) by {
                            assert(nx.file->0.hunks == f.hunks);
                        }
                    },
                    None => {},
                }
            }
        }
    } else if starts_at(b, s, e, &new_path_bytes()) {
        on_new_path(b, text, content, s, e, file, Ghost(st));
        proof {
            assert(state_fits(nx, content@)) by {
                match st.file {
                    Some(f) => {
                        assert(nx.file->0.hunks == f.hunks);
                    },
                    None => {},
                }
            }
        }
    } else if starts_at(b, s, e, &hunk_marker_bytes()) {
        on_hunk_header(b, text, content, s, e, file, hunk, old_number, new_number, Ghost(st));
        proof {
            assert(state_fits(close_hunk(st), content@));
            assert(state_fits(nx, content@)) by {
                assert(hunk_model_fits(nx.hunk->0, content@));
                if close_hunk(st).file is None {
                    assert(file_model_fits(unknown_file(), content@));
                }
            }
        }
    } else if hunk.is_none() {
    } else if bytes_at(b, s, e, &no_newline_bytes()) {
    } else if e <= s {
    } else if b[s] == 43 || b[s] == 45 || b[s] == 32 {
        on_hunk_line(b, content, s, e, hunk, old_number, new_number, Ghost(st));
        proof {
            let h = st.hunk->0;
            let h2 = nx.hunk->0;
            assert(hunk_model_fits(h2, content@)) by {
                assert forall|k: int| 0 <= k < h2.lines.len() implies (#[trigger] h2.lines[k]).fits(
                    content@,
                ) by {
                    if k < h.lines.len() {
                        assert(h2.lines[k] == h.lines[k]);
                    }
                }
            }
        }
    }
    proof {
        if begins(b@, s as int, e as int, new_file_marker()) && !begins(
            b@,
            s as int,
            e as int,
            diff_git_marker(),
        ) {
            if let Some(f) = st.file {
                assert(nx.file->0.hunks == f.hunks);
            }
        }
        if begins(b@, s as int, e as int, deleted_file_marker()) && !begins(
            b@,
            s as int,
            e as int,
            diff_git_marker(),
        ) && !begins(b@, s as int, e as int, new_file_marker()) {
            if let Some(f) = st.file {
                assert(nx.file->0.hunks == f.hunks);
            }
        }
    }
}

/// Reads a unified diff. Every hunk shares the input as its buffer; lines
/// point into it, their marker and line break left out.
pub fn parse_unified_diff(input: String) -> (r: DiffSet)
    requires
        utf8(input@).len() <= u32::MAX,
    ensures
        files_match(r.files@, diff_model(utf8(input@)), input@),
        forall|i: int, j: int|
            0 <= i < r.files@.len() && 0 <= j < r.files@[i].hunks@.len() ==> (
            #[trigger] r.files@[i].hunks@[j]).wf(),
        r.contexts@.len() == 0,
{
    let content = Arc::new(input);
    let text: &str = content.as_str();
    let b = text.as_bytes();
    let mut files: Vec<DiffFile> = Vec::new();
    let mut file: Option<DiffFile> = None;
    let mut hunk: Option<SharedDiffHunkBuilder> = None;
    let mut old_number: u32 = 0;
    let mut new_number: u32 = 0;
    let ghost mut st = initial_state();
    let mut pos: usize = 0;
    while pos < b.len()
        invariant
            b@ == utf8(content@),
            text.spec_bytes() == b@,
            b@.len() <= u32::MAX,
            pos <= b@.len(),
            pos == 0 || pos == b@.len() || b@[pos - 1] == 10,
            state_ok(files@, file, hunk, old_number, new_number, st, content@),
            close_file(close_hunk(parse_from(b@, pos as int, st))).files == diff_model(b@),
        decreases b@.len() - pos,
    {
        let nl = find_line_break(b, pos);
        proof {
            lemma_line_break(b@, pos as int);
        }
        let e = if nl < b.len() && nl > pos && b[nl - 1] == 13 {
            nl - 1
        } else {
            nl
        };
        proof {
            lemma_line_start_boundary(b@, pos as int);
            lemma_ascii_or_end_boundary(b@, e as int);
            assert(e == line_content_end(b@, pos as int));
        }
        parse_line(
            b,
            text,
            &content,
            pos,
            e,
            &mut files,
            &mut file,
            &mut hunk,
            &mut old_number,
            &mut new_number,
            Ghost(st),
        );
        proof {
            st = step(b@, st, pos as int, e as int);
            assert(nl < b@.len() ==> b@[nl as int] == 10);
        }
        pos = if nl < b.len() {
            nl + 1
        } else {
            b.len()
        };
    }
    finish_hunk(&mut file, &mut hunk, &content, Ghost(st));
    finish_file(&mut files, &mut file, Ghost(close_hunk(st)), Ghost(content@));
    proof {
        let fin = close_file(close_hunk(st));
        assert(fin.files == diff_model(b@));
        assert forall|i: int, j: int|
            0 <= i < files@.len() && 0 <= j < files@[i].hunks@.len() implies (
            #[trigger] files@[i].hunks@[j]).wf() by {
            assert(file_matches(files@[i], fin.files[i], content@));
            assert(hunk_matches(files@[i].hunks@[j], fin.files[i].hunks[j], content@));
            assert(file_model_fits(fin.files[i], content@));
            assert(hunk_model_fits(fin.files[i].hunks[j], content@));
        }
    }
    DiffSet { files, contexts: Vec::new() }
}

} // verus!

verus! {

/// The text of the sample diff.
pub open spec fn demo_patch_text() -> Seq<char> {
    r#"diff --git a/src/auth/session.rs b/src/auth/session.rs
index c74db1a..29acdf2 100644
--- a/src/auth/session.rs
+++ b/src/auth/session.rs
@@ -18,10 +18,15 @@ pub struct Session {
     pub user_id: UserId,
     pub created_at: DateTime<Utc>,
-    pub expires_at: DateTime<Utc>,
+    pub expires_at: DateTime<Utc>,
+    pub last_seen_at: DateTime<Utc>,
+    pub device: Option<DeviceInfo>,
 }
 
-pub async fn create_session(user_id: UserId) -> Result<Session> {
-    let expires_at = Utc::now() + Duration::days(30);
+pub async fn create_session(
+    user_id: UserId,
+    device: Option<DeviceInfo>,
+    remember_me: bool,
+) -> Result<Session> {
+    let lifetime = if remember_me { 30 } else { 1 };
+    let expires_at = Utc::now() + Duration::days(lifetime);
     let session = Session {
@@ -29,7 +34,9 @@ pub async fn create_session(user_id: UserId) -> Result<Session> {
         user_id,
         created_at: Utc::now(),
         expires_at,
+        last_seen_at: Utc::now(),
+        device,
     };
 
-    database::sessions().insert(&session).await?;
+    database::sessions().insert(&session).await.context("persist session")?;
     Ok(session)
 }
diff --git a/src/components/avatar.tsx b/src/components/avatar.tsx
index 4c9a1bd..e8134de 100644
--- a/src/components/avatar.tsx
+++ b/src/components/avatar.tsx
@@ -8,12 +8,17 @@ type AvatarProps = {
   name: string;
   src?: string;
+  status?: "online" | "away" | "offline";
 };
 
-export function Avatar({ name, src }: AvatarProps) {
+export function Avatar({ name, src, status = "offline" }: AvatarProps) {
   return (
-    <div className="avatar">
+    <div className="avatar" data-status={status}>
       {src ? <img src={src} alt={name} /> : <Initials name={name} />}
+      <span className="avatar__status" aria-label={status} />
     </div>
   );
 }
diff --git a/README.md b/README.md
index a621984..d188ad4 100644
--- a/README.md
+++ b/README.md
@@ -2,6 +2,12 @@
 
 A fast desktop client for reviewing code changes.
 
+## Highlights
+
+- GPU-rendered interface powered by GPUI
+- Split and unified diff layouts
+- Inline syntax and change highlighting
+
 ## Development
 
-Run the app with `cargo run`.
+Run the demo with `cargo run`, or open a patch with `cargo run -- change.diff`.
"#@
}

/// A sample diff of three files: a Rust source, a React component and a README.
pub fn demo_patch() -> (r: &'static str)
    ensures
        r@ == demo_patch_text(),
        utf8(r@).len() <= u32::MAX,
{
    let text = r#"diff --git a/src/auth/session.rs b/src/auth/session.rs
index c74db1a..29acdf2 100644
--- a/src/auth/session.rs
+++ b/src/auth/session.rs
@@ -18,10 +18,15 @@ pub struct Session {
     pub user_id: UserId,
     pub created_at: DateTime<Utc>,
-    pub expires_at: DateTime<Utc>,
+    pub expires_at: DateTime<Utc>,
+    pub last_seen_at: DateTime<Utc>,
+    pub device: Option<DeviceInfo>,
 }
 
-pub async fn create_session(user_id: UserId) -> Result<Session> {
-    let expires_at = Utc::now() + Duration::days(30);
+pub async fn create_session(
+    user_id: UserId,
+    device: Option<DeviceInfo>,
+    remember_me: bool,
+) -> Result<Session> {
+    let lifetime = if remember_me { 30 } else { 1 };
+    let expires_at = Utc::now() + Duration::days(lifetime);
     let session = Session {
@@ -29,7 +34,9 @@ pub async fn create_session(user_id: UserId) -> Result<Session> {
         user_id,
         created_at: Utc::now(),
         expires_at,
+        last_seen_at: Utc::now(),
+        device,
     };
 
-    database::sessions().insert(&session).await?;
+    database::sessions().insert(&session).await.context("persist session")?;
     Ok(session)
 }
diff --git a/src/components/avatar.tsx b/src/components/avatar.tsx
index 4c9a1bd..e8134de 100644
--- a/src/components/avatar.tsx
+++ b/src/components/avatar.tsx
@@ -8,12 +8,17 @@ type AvatarProps = {
   name: string;
   src?: string;
+  status?: "online" | "away" | "offline";
 };
 
-export function Avatar({ name, src }: AvatarProps) {
+export function Avatar({ name, src, status = "offline" }: AvatarProps) {
   return (
-    <div className="avatar">
+    <div className="avatar" data-status={status}>
       {src ? <img src={src} alt={name} /> : <Initials name={name} />}
+      <span className="avatar__status" aria-label={status} />
     </div>
   );
 }
diff --git a/README.md b/README.md
index a621984..d188ad4 100644
--- a/README.md
+++ b/README.md
@@ -2,6 +2,12 @@
 
 A fast desktop client for reviewing code changes.
 
+## Highlights
+
+- GPU-rendered interface powered by GPUI
+- Split and unified diff layouts
+- Inline syntax and change highlighting
+
 ## Development
 
-Run the app with `cargo run`.
+Run the demo with `cargo run`, or open a patch with `cargo run -- change.diff`.
"#;
    proof {
        reveal_strlit(r#"diff --git a/src/auth/session.rs b/src/auth/session.rs
index c74db1a..29acdf2 100644
--- a/src/auth/session.rs
+++ b/src/auth/session.rs
@@ -18,10 +18,15 @@ pub struct Session {
     pub user_id: UserId,
     pub created_at: DateTime<Utc>,
-    pub expires_at: DateTime<Utc>,
+    pub expires_at: DateTime<Utc>,
+    pub last_seen_at: DateTime<Utc>,
+    pub device: Option<DeviceInfo>,
 }
 
-pub async fn create_session(user_id: UserId) -> Result<Session> {
-    let expires_at = Utc::now() + Duration::days(30);
+pub async fn create_session(
+    user_id: UserId,
+    device: Option<DeviceInfo>,
+    remember_me: bool,
+) -> Result<Session> {
+    let lifetime = if remember_me { 30 } else { 1 };
+    let expires_at = Utc::now() + Duration::days(lifetime);
     let session = Session {
@@ -29,7 +34,9 @@ pub async fn create_session(user_id: UserId) -> Result<Session> {
         user_id,
         created_at: Utc::now(),
         expires_at,
+        last_seen_at: Utc::now(),
+        device,
     };
 
-    database::sessions().insert(&session).await?;
+    database::sessions().insert(&session).await.context("persist session")?;
     Ok(session)
 }
diff --git a/src/components/avatar.tsx b/src/components/avatar.tsx
index 4c9a1bd..e8134de 100644
--- a/src/components/avatar.tsx
+++ b/src/components/avatar.tsx
@@ -8,12 +8,17 @@ type AvatarProps = {
   name: string;
   src?: string;
+  status?: "online" | "away" | "offline";
 };
 
-export function Avatar({ name, src }: AvatarProps) {
+export function Avatar({ name, src, status = "offline" }: AvatarProps) {
   return (
-    <div className="avatar">
+    <div className="avatar" data-status={status}>
       {src ? <img src={src} alt={name} /> : <Initials name={name} />}
+      <span className="avatar__status" aria-label={status} />
     </div>
   );
 }
diff --git a/README.md b/README.md
index a621984..d188ad4 100644
--- a/README.md
+++ b/README.md
@@ -2,6 +2,12 @@
 
 A fast desktop client for reviewing code changes.
 
+## Highlights
+
+- GPU-rendered interface powered by GPUI
+- Split and unified diff layouts
+- Inline syntax and change highlighting
+
 ## Development
 
-Run the app with `cargo run`.
+Run the demo with `cargo run`, or open a patch with `cargo run -- change.diff`.
"#);
        lemma_utf8_len_bound(text@);
    }
    text
}

/// The sample diff, read.
pub fn demo_diff() -> (r: DiffSet)
    ensures
        files_match(r.files@, diff_model(utf8(demo_patch_text())), demo_patch_text()),
        r.contexts@.len() == 0,
{
    let text = demo_patch();
    parse_unified_diff(String::from_str(text))
}

} // verus!
