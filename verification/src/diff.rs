//! The diff model: files, hunks and lines that share one text buffer.

use vstd::prelude::*;
use vstd::string::StringSliceAdditionalSpecFns;
use vstd::utf8::*;
use std::sync::Arc;

use crate::path::{file_name_bytes, file_name_of, parent_bytes, parent_of};
use crate::text::{
    find_line_break, lemma_ascii_boundaries, lemma_ascii_or_end_boundary, lemma_boundary_extend,
    lemma_line_break, lemma_line_start_boundary, lemma_utf8_concat, line_break, next_line_start,
    share, str_equal, substring, utf8,
};
use vstd::string::StringExecFns;

verus! {

broadcast use vstd::utf8::encode_utf8_valid_utf8, vstd::utf8::encode_utf8_decode_utf8;

/// What a diff line does to the file.
#[derive(Clone, Copy, Debug, PartialEq, Eq, Structural)]
pub enum LineKind {
    Context,
    Addition,
    Deletion,
}

/// One line of a hunk; its text lives in the hunk's shared buffer.
#[derive(Clone, Copy, Debug, PartialEq, Eq)]
pub struct DiffLine {
    pub old_number: Option<u32>,
    pub new_number: Option<u32>,
    pub kind: LineKind,
    pub content_start: u32,
    pub content_end: u32,
}

impl DiffLine {
    /// Byte offset where the line's text starts in its buffer.
    pub open spec fn start(self) -> int {
        self.content_start as int
    }

    /// Byte offset where the line's text ends in its buffer.
    pub open spec fn end(self) -> int {
        self.content_end as int
    }

    /// A line whose text is `buffer[start..end]`.
    pub(crate) fn new(
        old_number: Option<u32>,
        new_number: Option<u32>,
        kind: LineKind,
        start: u32,
        end: u32,
    ) -> (r: DiffLine)
        ensures
            r.old_number == old_number,
            r.new_number == new_number,
            r.kind == kind,
            r.start() == start,
            r.end() == end,
    {
        DiffLine { old_number, new_number, kind, content_start: start, content_end: end }
    }

    /// Whether the line's range selects whole characters of `text`.
    pub open spec fn fits(self, text: Seq<char>) -> bool {
        &&& 0 <= self.start() <= self.end() <= utf8(text).len()
        &&& is_char_boundary(utf8(text), self.start())
        &&& is_char_boundary(utf8(text), self.end())
    }

    /// The bytes of the line's text within `text`.
    pub open spec fn bytes_in(self, text: Seq<char>) -> Seq<u8> {
        utf8(text).subrange(self.start(), self.end())
    }

    /// The line's text, read out of the buffer it was built from.
    pub fn content_from<'a>(&self, storage: &'a str) -> (r: &'a str)
        requires
            self.fits(storage@),
        ensures
            r.spec_bytes() == self.bytes_in(storage@),
            r@ == decode_utf8(self.bytes_in(storage@)),
    {
        substring(storage, self.content_start as usize, self.content_end as usize)
    }
}

/// A hunk: a header, its starting line numbers and its lines.
#[derive(Clone, Debug, PartialEq, Eq)]
pub struct DiffHunk {
    pub header: String,
    pub old_start: u32,
    pub new_start: u32,
    pub lines: Vec<DiffLine>,
    pub content: Arc<String>,
}

impl DiffHunk {
    /// The buffer that holds the text of the hunk's lines.
    pub open spec fn text(self) -> Seq<char> {
        self.content@
    }

    /// Every line selects whole characters of the buffer, and offsets fit in `u32`.
    pub open spec fn wf(self) -> bool {
        &&& utf8(self.text()).len() <= u32::MAX
        &&& forall|i: int| 0 <= i < self.lines@.len() ==> #[trigger] self.lines@[i].fits(self.text())
    }

    /// The text of the `i`-th line.
    pub open spec fn line_text(self, i: int) -> Seq<char> {
        decode_utf8(self.lines@[i].bytes_in(self.text()))
    }

    /// The text of a line of this hunk.
    pub fn line_content(&self, line: &DiffLine) -> (r: &str)
        requires
            line.fits(self.text()),
        ensures
            r.spec_bytes() == line.bytes_in(self.text()),
            r@ == decode_utf8(line.bytes_in(self.text())),
    {
        line.content_from(self.content.as_str())
    }

    /// A hunk of the given lines, each a pair of line numbers, a kind and a text;
    /// their texts are laid end to end in a buffer of the hunk's own.
    pub fn from_lines(
        header: &str,
        old_start: u32,
        new_start: u32,
        lines: Vec<(Option<u32>, Option<u32>, LineKind, String)>,
    ) -> (r: DiffHunk)
        requires
            total_text_len(lines@) <= u32::MAX,
        ensures
            r.header@ == header@,
            r.old_start == old_start,
            r.new_start == new_start,
            r.wf(),
            r.lines@.len() == lines@.len(),
            forall|i: int|
                0 <= i < lines@.len() ==> {
                    &&& (#[trigger] r.lines@[i]).old_number == lines@[i].0
                    &&& r.lines@[i].new_number == lines@[i].1
                    &&& r.lines@[i].kind == lines@[i].2
                    &&& r.line_text(i) == lines@[i].3@
                },
    {
        let mut builder = DiffHunkBuilder::new(header, old_start, new_start);
        let mut i: usize = 0;
        while i < lines.len()
            invariant
                i <= lines@.len(),
                total_text_len(lines@) <= u32::MAX,
                builder.wf(),
                builder.header@ == header@,
                builder.old_start == old_start,
                builder.new_start == new_start,
                builder.lines@.len() == i,
                utf8(builder.content@).len() == total_text_len(lines@.subrange(0, i as int)),
                forall|k: int|
                    0 <= k < i ==> {
                        &&& (#[trigger] builder.lines@[k]).old_number == lines@[k].0
                        &&& builder.lines@[k].new_number == lines@[k].1
                        &&& builder.lines@[k].kind == lines@[k].2
                        &&& decode_utf8(builder.lines@[k].bytes_in(builder.content@)) == lines@[k].3@
                    },
            decreases lines@.len() - i,
        {
            proof {
                assert(lines@.subrange(0, i + 1).drop_last() =~= lines@.subrange(0, i as int));
                lemma_total_text_len_prefix(lines@, i + 1);
            }
            let entry = &lines[i];
            let ghost before = builder;
            builder.push_line(entry.0, entry.1, entry.2, entry.3.as_str());
            proof {
                lemma_utf8_concat(before.content@, lines@[i as int].3@);
                assert(lines@.subrange(0, i + 1).last() == lines@[i as int]);
                assert(builder.lines@[i as int].bytes_in(builder.content@) =~= utf8(
                    lines@[i as int].3@,
                ));
                assert forall|k: int| 0 <= k < i + 1 implies {
                    &&& (#[trigger] builder.lines@[k]).old_number == lines@[k].0
                    &&& builder.lines@[k].new_number == lines@[k].1
                    &&& builder.lines@[k].kind == lines@[k].2
                    &&& decode_utf8(builder.lines@[k].bytes_in(builder.content@)) == lines@[k].3@
                } by {
                    if k < i {
                        assert(builder.lines@[k] == before.lines@[k]);
                        lemma_fits_extend(before.lines@[k], before.content@, lines@[i as int].3@);
                    } else {
                        assert(decode_utf8(utf8(lines@[k].3@)) == lines@[k].3@);
                    }
                }
            }
            i += 1;
        }
        builder.finish()
    }
}

/// The number of bytes that the texts of the entries take.
pub open spec fn total_text_len(lines: Seq<(Option<u32>, Option<u32>, LineKind, String)>) -> nat
    decreases lines.len(),
{
    if lines.len() == 0 {
        0
    } else {
        total_text_len(lines.drop_last()) + utf8(lines.last().3@).len()
    }
}

proof fn lemma_total_text_len_prefix(lines: Seq<(Option<u32>, Option<u32>, LineKind, String)>, i: int)
    requires
        0 <= i <= lines.len(),
    ensures
        total_text_len(lines.subrange(0, i)) <= total_text_len(lines),
    decreases lines.len() - i,
{
    if i < lines.len() {
        lemma_total_text_len_prefix(lines, i + 1);
        assert(lines.subrange(0, i + 1).drop_last() =~= lines.subrange(0, i));
    } else {
        assert(lines.subrange(0, i) =~= lines);
    }
}

/// A line that fits a buffer still fits, and reads the same, once more text follows.
pub proof fn lemma_fits_extend(l: DiffLine, t: Seq<char>, more: Seq<char>)
    requires
        l.fits(t),
    ensures
        l.fits(t + more),
        l.bytes_in(t + more) == l.bytes_in(t),
{
    lemma_utf8_concat(t, more);
    lemma_boundary_extend(utf8(t), utf8(more), l.start());
    lemma_boundary_extend(utf8(t), utf8(more), l.end());
    assert(l.bytes_in(t + more) =~= l.bytes_in(t));
}

/// A hunk being built line by line, each line's text appended to a buffer of its own.
pub struct DiffHunkBuilder {
    header: String,
    old_start: u32,
    new_start: u32,
    lines: Vec<DiffLine>,
    content: String,
}

impl DiffHunkBuilder {
    /// Every line selects whole characters of the buffer, whose offsets fit in `u32`.
    pub closed spec fn wf(self) -> bool {
        &&& utf8(self.content@).len() <= u32::MAX
        &&& forall|i: int| 0 <= i < self.lines@.len() ==> #[trigger] self.lines@[i].fits(self.content@)
    }

    /// The header of the hunk being built.
    pub closed spec fn header_view(self) -> Seq<char> {
        self.header@
    }

    /// The first old and new line numbers of the hunk being built.
    pub closed spec fn starts(self) -> (u32, u32) {
        (self.old_start, self.new_start)
    }

    /// The lines pushed so far.
    pub closed spec fn lines_view(self) -> Seq<DiffLine> {
        self.lines@
    }

    /// The texts of the lines pushed so far, end to end.
    pub closed spec fn text(self) -> Seq<char> {
        self.content@
    }

    /// The number of bytes of the texts pushed so far.
    pub fn text_len(&self) -> (r: usize)
        ensures
            r == utf8(self.text()).len(),
    {
        self.content.as_str().as_bytes().len()
    }

    /// A builder with no lines yet.
    pub fn new(header: &str, old_start: u32, new_start: u32) -> (r: Self)
        ensures
            r.wf(),
            r.header_view() == header@,
            r.starts() == (old_start, new_start),
            r.lines_view() == Seq::<DiffLine>::empty(),
            r.text() == Seq::<char>::empty(),
    {
        DiffHunkBuilder {
            header: header.to_owned(),
            old_start,
            new_start,
            lines: Vec::new(),
            content: String::new(),
        }
    }

    /// Appends a line whose text is `content`.
    pub fn push_line(
        &mut self,
        old_number: Option<u32>,
        new_number: Option<u32>,
        kind: LineKind,
        content: &str,
    )
        requires
            old(self).wf(),
            utf8(old(self).text()).len() + utf8(content@).len() <= u32::MAX,
        ensures
            final(self).wf(),
            final(self).header_view() == old(self).header_view(),
            final(self).starts() == old(self).starts(),
            final(self).text() == old(self).text() + content@,
            final(self).lines_view() == old(self).lines_view().push(
                DiffLine {
                    old_number,
                    new_number,
                    kind,
                    content_start: utf8(old(self).text()).len() as u32,
                    content_end: (utf8(old(self).text()).len() + utf8(content@).len()) as u32,
                },
            ),
    {
        let ghost before = self.content@;
        let start = self.content.as_str().len();
        self.content.append(content);
        let end = self.content.as_str().len();
        proof {
            lemma_utf8_concat(before, content@);
            assert forall|i: int| 0 <= i < self.lines@.len() implies #[trigger] self.lines@[i].fits(
                self.content@,
            ) by {
                lemma_fits_extend(self.lines@[i], before, content@);
            }
            is_char_boundary_start_end_of_seq(utf8(self.content@));
        }
        self.lines.push(
            DiffLine {
                old_number,
                new_number,
                kind,
                content_start: start as u32,
                content_end: end as u32,
            },
        );
    }

    /// The finished hunk, which owns the buffer.
    pub fn finish(self) -> (r: DiffHunk)
        requires
            self.wf(),
        ensures
            r.wf(),
            r.header@ == self.header_view(),
            (r.old_start, r.new_start) == self.starts(),
            r.lines@ == self.lines_view(),
            r.text() == self.text(),
    {
        DiffHunk {
            header: self.header,
            old_start: self.old_start,
            new_start: self.new_start,
            lines: self.lines,
            content: Arc::new(self.content),
        }
    }
}

/// One changed file: its two paths, its hunks, and whether it was added or deleted.
#[derive(Clone, Debug, PartialEq, Eq)]
pub struct DiffFile {
    pub old_path: String,
    pub new_path: String,
    pub hunks: Vec<DiffHunk>,
    pub is_new: bool,
    pub is_deleted: bool,
}

impl DiffFile {
    /// The path that names the file: the new one, or the old one when the file was deleted.
    pub open spec fn path_view(self) -> Seq<char> {
        if self.new_path@ == "/dev/null"@ {
            self.old_path@
        } else {
            self.new_path@
        }
    }

    /// The bytes of the path as it is shown: without a leading `a/` or `b/`.
    pub open spec fn display_bytes(self) -> Seq<u8> {
        without_side_prefix(utf8(self.path_view()))
    }

    /// The path that names the file.
    pub fn path(&self) -> (r: &str)
        ensures
            r@ == self.path_view(),
    {
        if str_equal(self.new_path.as_str(), "/dev/null") {
            self.old_path.as_str()
        } else {
            self.new_path.as_str()
        }
    }

    /// The path as it is shown, without the `a/` or `b/` that Git puts before it.
    pub fn display_path(&self) -> (r: &str)
        ensures
            utf8(r@) == self.display_bytes(),
    {
        let p = self.path();
        let b = p.as_bytes();
        if b.len() >= 2 && (b[0] == 97 || b[0] == 98) && b[1] == 47 {
            proof {
                lemma_ascii_boundaries(b@, 1);
                is_char_boundary_start_end_of_seq(b@);
            }
            substring(p, 2, b.len())
        } else {
            p
        }
    }

    /// The last component of the shown path, or the whole shown path when it names no file.
    pub fn file_name(&self) -> (r: &str)
        ensures
            utf8(r@) == file_name_bytes(self.display_bytes()),
    {
        file_name_of(self.display_path())
    }

    /// The directory of the shown path, without separators at its end.
    pub fn parent_path(&self) -> (r: &str)
        ensures
            utf8(r@) == parent_bytes(self.display_bytes()),
    {
        parent_of(self.display_path())
    }

    /// How many lines of the file's hunks are of the given kind.
    pub open spec fn kind_count(self, kind: LineKind) -> nat {
        hunks_kind_count(self.hunks@, kind)
    }

    /// The number of added lines.
    pub fn additions(&self) -> (r: usize)
        requires
            self.kind_count(LineKind::Addition) <= usize::MAX,
        ensures
            r == self.kind_count(LineKind::Addition),
    {
        count_in_hunks(&self.hunks, LineKind::Addition)
    }

    /// The number of deleted lines.
    pub fn deletions(&self) -> (r: usize)
        requires
            self.kind_count(LineKind::Deletion) <= usize::MAX,
        ensures
            r == self.kind_count(LineKind::Deletion),
    {
        count_in_hunks(&self.hunks, LineKind::Deletion)
    }
}

/// A path without a leading `a/` or `b/`.
pub open spec fn without_side_prefix(b: Seq<u8>) -> Seq<u8> {
    if b.len() >= 2 && (b[0] == 97 || b[0] == 98) && b[1] == 47 {
        b.subrange(2, b.len() as int)
    } else {
        b
    }
}

/// How many of the lines are of the given kind.
pub open spec fn lines_kind_count(lines: Seq<DiffLine>, kind: LineKind) -> nat
    decreases lines.len(),
{
    if lines.len() == 0 {
        0
    } else {
        lines_kind_count(lines.drop_last(), kind) + if lines.last().kind == kind {
            1nat
        } else {
            0nat
        }
    }
}

/// How many lines of the hunks are of the given kind.
pub open spec fn hunks_kind_count(hunks: Seq<DiffHunk>, kind: LineKind) -> nat
    decreases hunks.len(),
{
    if hunks.len() == 0 {
        0
    } else {
        hunks_kind_count(hunks.drop_last(), kind) + lines_kind_count(hunks.last().lines@, kind)
    }
}

/// How many lines of the files' hunks are of the given kind.
pub open spec fn files_kind_count(files: Seq<DiffFile>, kind: LineKind) -> nat
    decreases files.len(),
{
    if files.len() == 0 {
        0
    } else {
        files_kind_count(files.drop_last(), kind) + files.last().kind_count(kind)
    }
}

/// A count of a prefix is at most the count of the whole.
proof fn lemma_lines_count_prefix(lines: Seq<DiffLine>, kind: LineKind, i: int)
    requires
        0 <= i <= lines.len(),
    ensures
        lines_kind_count(lines.subrange(0, i), kind) <= lines_kind_count(lines, kind),
    decreases lines.len() - i,
{
    if i < lines.len() {
        lemma_lines_count_prefix(lines, kind, i + 1);
        assert(lines.subrange(0, i + 1).drop_last() =~= lines.subrange(0, i));
    } else {
        assert(lines.subrange(0, i) =~= lines);
    }
}

proof fn lemma_hunks_count_prefix(hunks: Seq<DiffHunk>, kind: LineKind, i: int)
    requires
        0 <= i <= hunks.len(),
    ensures
        hunks_kind_count(hunks.subrange(0, i), kind) <= hunks_kind_count(hunks, kind),
    decreases hunks.len() - i,
{
    if i < hunks.len() {
        lemma_hunks_count_prefix(hunks, kind, i + 1);
        assert(hunks.subrange(0, i + 1).drop_last() =~= hunks.subrange(0, i));
    } else {
        assert(hunks.subrange(0, i) =~= hunks);
    }
}

pub(crate) proof fn lemma_files_count_prefix(files: Seq<DiffFile>, kind: LineKind, i: int)
    requires
        0 <= i <= files.len(),
    ensures
        files_kind_count(files.subrange(0, i), kind) <= files_kind_count(files, kind),
    decreases files.len() - i,
{
    if i < files.len() {
        lemma_files_count_prefix(files, kind, i + 1);
        assert(files.subrange(0, i + 1).drop_last() =~= files.subrange(0, i));
    } else {
        assert(files.subrange(0, i) =~= files);
    }
}

fn count_in_lines(lines: &Vec<DiffLine>, kind: LineKind) -> (r: usize)
    requires
        lines_kind_count(lines@, kind) <= usize::MAX,
    ensures
        r == lines_kind_count(lines@, kind),
{
    let mut n: usize = 0;
    let mut i: usize = 0;
    while i < lines.len()
        invariant
            i <= lines@.len(),
            lines_kind_count(lines@, kind) <= usize::MAX,
            n == lines_kind_count(lines@.subrange(0, i as int), kind),
        decreases lines@.len() - i,
    {
        proof {
            assert(lines@.subrange(0, i + 1).drop_last() =~= lines@.subrange(0, i as int));
            lemma_lines_count_prefix(lines@, kind, i + 1);
        }
        if lines[i].kind == kind {
            n += 1;
        }
        i += 1;
    }
    assert(lines@.subrange(0, i as int) =~= lines@);
    n
}

fn count_in_hunks(hunks: &Vec<DiffHunk>, kind: LineKind) -> (r: usize)
    requires
        hunks_kind_count(hunks@, kind) <= usize::MAX,
    ensures
        r == hunks_kind_count(hunks@, kind),
{
    let mut n: usize = 0;
    let mut i: usize = 0;
    while i < hunks.len()
        invariant
            i <= hunks@.len(),
            hunks_kind_count(hunks@, kind) <= usize::MAX,
            n == hunks_kind_count(hunks@.subrange(0, i as int), kind),
        decreases hunks@.len() - i,
    {
        proof {
            assert(hunks@.subrange(0, i + 1).drop_last() =~= hunks@.subrange(0, i as int));
            lemma_hunks_count_prefix(hunks@, kind, i + 1);
        }
        let c = count_in_lines(&hunks[i].lines, kind);
        n += c;
        i += 1;
    }
    assert(hunks@.subrange(0, i as int) =~= hunks@);
    n
}

fn count_in_files(files: &Vec<DiffFile>, kind: LineKind) -> (r: usize)
    requires
        files_kind_count(files@, kind) <= usize::MAX,
    ensures
        r == files_kind_count(files@, kind),
{
    let mut n: usize = 0;
    let mut i: usize = 0;
    while i < files.len()
        invariant
            i <= files@.len(),
            files_kind_count(files@, kind) <= usize::MAX,
            n == files_kind_count(files@.subrange(0, i as int), kind),
        decreases files@.len() - i,
    {
        proof {
            assert(files@.subrange(0, i + 1).drop_last() =~= files@.subrange(0, i as int));
            lemma_files_count_prefix(files@, kind, i + 1);
        }
        let c = count_in_hunks(&files[i].hunks, kind);
        n += c;
        i += 1;
    }
    assert(files@.subrange(0, i as int) =~= files@);
    n
}

/// The old side of a file, split into lines once.
#[derive(Debug)]
pub struct DiffFileContext {
    content: Arc<String>,
    line_count: u32,
    line_ranges: Vec<(u32, u32)>,
}

/// Where the line that starts at `s` ends: before its `'\n'`, and before a `'\r'` just ahead of that.
pub open spec fn source_line_end(b: Seq<u8>, s: int) -> int {
    let nl = line_break(b, s);
    if nl > s && b[nl - 1] == 13 {
        nl - 1
    } else {
        nl
    }
}

/// The byte ranges of the lines from `pos` on, line breaks left out.
pub open spec fn source_line_ranges(b: Seq<u8>, pos: int) -> Seq<(int, int)>
    decreases b.len() - pos,
{
    if pos < 0 || pos >= b.len() {
        seq![]
    } else {
        let nl = line_break(b, pos);
        proof {
            lemma_line_break(b, pos);
        }
        seq![(pos, source_line_end(b, pos))] + source_line_ranges(b, next_line_start(b, nl))
    }
}

/// The lines of a text, each without its line break (`'\n'`, or `'\r'` and `'\n'`); a text
/// that ends with a line break has no empty line after it.
pub open spec fn source_lines(t: Seq<char>) -> Seq<Seq<char>> {
    source_line_ranges(utf8(t), 0).map_values(|r: (int, int)| decode_utf8(utf8(t).subrange(r.0, r.1)))
}

/// Every range that `source_line_ranges` gives selects whole characters.
proof fn lemma_source_line_ranges(b: Seq<u8>, pos: int)
    requires
        valid_utf8(b),
        0 <= pos <= b.len(),
        pos == 0 || pos == b.len() || b[pos - 1] == 10,
    ensures
        forall|i: int|
            0 <= i < source_line_ranges(b, pos).len() ==> {
                let r = #[trigger] source_line_ranges(b, pos)[i];
                &&& pos <= r.0 <= r.1 <= b.len()
                &&& is_char_boundary(b, r.0)
                &&& is_char_boundary(b, r.1)
            },
        source_line_ranges(b, pos).len() <= b.len() - pos,
    decreases b.len() - pos,
{
    if pos < b.len() {
        let nl = line_break(b, pos);
        lemma_line_break(b, pos);
        let next = next_line_start(b, nl);
        lemma_source_line_ranges(b, next);
        lemma_line_start_boundary(b, pos);
        let e = source_line_end(b, pos);
        if e < nl {
            lemma_ascii_boundaries(b, e);
        } else {
            lemma_ascii_or_end_boundary(b, e);
        }
        let rest = source_line_ranges(b, next);
        assert forall|i: int| 0 <= i < source_line_ranges(b, pos).len() implies {
            let r = #[trigger] source_line_ranges(b, pos)[i];
            &&& pos <= r.0 <= r.1 <= b.len()
            &&& is_char_boundary(b, r.0)
            &&& is_char_boundary(b, r.1)
        } by {
            if i > 0 {
                assert(source_line_ranges(b, pos)[i] == rest[i - 1]);
            }
        }
    }
}

impl DiffFileContext {
    /// The ranges are those of the text's lines, and fit in `u32`.
    #[verifier::type_invariant]
    spec fn well_formed(self) -> bool {
        let b = utf8(self.content@);
        let ranges = source_line_ranges(b, 0);
        &&& b.len() <= u32::MAX
        &&& self.line_ranges@.len() == ranges.len()
        &&& self.line_count == ranges.len()
        &&& forall|i: int|
            0 <= i < ranges.len() ==> (#[trigger] self.line_ranges@[i]).0 == ranges[i].0
                && self.line_ranges@[i].1 == ranges[i].1
    }

    /// The full text of the old side.
    pub closed spec fn text(self) -> Seq<char> {
        self.content@
    }

    /// The old side of a file whose full text is `content`.
    pub fn new(content: String) -> (r: Self)
        requires
            utf8(content@).len() <= u32::MAX,
        ensures
            r.text() == content@,
    {
        let content = Arc::new(content);
        let line_ranges = build_line_ranges(content.as_str());
        proof {
            lemma_source_line_ranges(utf8(content@), 0);
        }
        let line_count = line_ranges.len() as u32;
        DiffFileContext { content, line_count, line_ranges }
    }

    /// The number of lines of the text.
    pub fn line_count(&self) -> (r: u32)
        ensures
            r == source_lines(self.text()).len(),
    {
        proof {
            use_type_invariant(self);
        }
        self.line_count
    }

    /// The `count` lines from line `start` on, lines numbered from 1; `None` when they
    /// are not all there.
    pub fn lines(&self, start: u32, count: usize) -> (r: Option<Vec<&str>>)
        ensures
            source_lines(self.text()).len() <= u32::MAX,
            match r {
                Some(v) => {
                    &&& 1 <= start
                    &&& start - 1 + count <= source_lines(self.text()).len()
                    &&& v@.len() == count
                    &&& forall|i: int|
                        0 <= i < count ==> (#[trigger] v@[i])@ == source_lines(self.text())[start
                            - 1 + i]
                },
                None => !(1 <= start && start - 1 + count <= source_lines(self.text()).len()),
            },
    {
        proof {
            use_type_invariant(self);
        }
        let ghost b = utf8(self.content@);
        let ghost ranges = source_line_ranges(b, 0);
        if start == 0 {
            return None;
        }
        let first = (start - 1) as usize;
        let n = self.line_ranges.len();
        if count > n || first > n - count {
            return None;
        }
        let text = self.content.as_str();
        proof {
            lemma_source_line_ranges(b, 0);
        }
        let mut out: Vec<&str> = Vec::new();
        let mut i: usize = 0;
        while i < count
            invariant
                b == utf8(self.content@),
                text.spec_bytes() == b,
                ranges == source_line_ranges(b, 0),
                first + count <= n,
                n == ranges.len(),
                self.line_ranges@.len() == ranges.len(),
                forall|k: int|
                    0 <= k < ranges.len() ==> (#[trigger] self.line_ranges@[k]).0 == ranges[k].0
                        && self.line_ranges@[k].1 == ranges[k].1,
                forall|k: int|
                    0 <= k < ranges.len() ==> {
                        let r = #[trigger] ranges[k];
                        &&& 0 <= r.0 <= r.1 <= b.len()
                        &&& is_char_boundary(b, r.0)
                        &&& is_char_boundary(b, r.1)
                    },
                i <= count,
                out@.len() == i,
                forall|k: int|
                    0 <= k < i ==> (#[trigger] out@[k])@ == source_lines(self.content@)[first + k],
            decreases count - i,
        {
            let (s, e) = self.line_ranges[first + i];
            proof {
                let r = ranges[first + i];
                assert(r.0 == s && r.1 == e);
            }
            let line = substring(text, s as usize, e as usize);
            out.push(line);
            i += 1;
        }
        Some(out)
    }
}

impl Clone for DiffFileContext {
    /// Another context over the same shared text.
    fn clone(&self) -> (r: Self)
        ensures
            r.text() == self.text(),
    {
        proof {
            use_type_invariant(self);
        }
        let mut line_ranges: Vec<(u32, u32)> = Vec::new();
        let mut i: usize = 0;
        while i < self.line_ranges.len()
            invariant
                i <= self.line_ranges@.len(),
                line_ranges@ == self.line_ranges@.subrange(0, i as int),
            decreases self.line_ranges@.len() - i,
        {
            line_ranges.push(self.line_ranges[i]);
            i += 1;
            assert(line_ranges@ =~= self.line_ranges@.subrange(0, i as int));
        }
        assert(line_ranges@ =~= self.line_ranges@);
        DiffFileContext { content: share(&self.content), line_count: self.line_count, line_ranges }
    }
}

/// The byte ranges of the lines of `text`, as `source_line_ranges` describes them.
fn build_line_ranges(text: &str) -> (r: Vec<(u32, u32)>)
    requires
        text.spec_bytes().len() <= u32::MAX,
    ensures
        r@.len() == source_line_ranges(text.spec_bytes(), 0).len(),
        forall|i: int|
            0 <= i < r@.len() ==> (#[trigger] r@[i]).0 == source_line_ranges(text.spec_bytes(), 0)[i].0
                && r@[i].1 == source_line_ranges(text.spec_bytes(), 0)[i].1,
{
    let b = text.as_bytes();
    let ghost all = source_line_ranges(b@, 0);
    let ghost mut done: Seq<(int, int)> = seq![];
    let mut lines: Vec<(u32, u32)> = Vec::new();
    let mut pos: usize = 0;
    while pos < b.len()
        invariant
            b@ == text.spec_bytes(),
            b@.len() <= u32::MAX,
            all == source_line_ranges(b@, 0),
            pos <= b@.len(),
            all == done + source_line_ranges(b@, pos as int),
            lines@.len() == done.len(),
            forall|i: int|
                0 <= i < lines@.len() ==> (#[trigger] lines@[i]).0 == done[i].0 && lines@[i].1
                    == done[i].1,
        decreases b@.len() - pos,
    {
        let nl = find_line_break(b, pos);
        proof {
            lemma_line_break(b@, pos as int);
        }
        let end = if nl > pos && b[nl - 1] == 13 {
            nl - 1
        } else {
            nl
        };
        let next = if nl < b.len() {
            nl + 1
        } else {
            b.len()
        };
        proof {
            let rest = source_line_ranges(b@, pos as int);
            let tail = source_line_ranges(b@, next as int);
            assert(rest == seq![(pos as int, end as int)] + tail);
            assert(done.push((pos as int, end as int)) + tail =~= done + rest);
            done = done.push((pos as int, end as int));
        }
        lines.push((pos as u32, end as u32));
        pos = next;
    }
    assert(done =~= all);
    lines
}

/// Every file of a diff, with the old side of those files whose full text is known.
#[derive(Clone, Debug)]
pub struct DiffSet {
    pub files: Vec<DiffFile>,
    pub contexts: Vec<Option<DiffFileContext>>,
}

impl DiffSet {
    /// The number of added lines over all files.
    pub fn additions(&self) -> (r: usize)
        requires
            files_kind_count(self.files@, LineKind::Addition) <= usize::MAX,
        ensures
            r == files_kind_count(self.files@, LineKind::Addition),
    {
        count_in_files(&self.files, LineKind::Addition)
    }

    /// The number of deleted lines over all files.
    pub fn deletions(&self) -> (r: usize)
        requires
            files_kind_count(self.files@, LineKind::Deletion) <= usize::MAX,
        ensures
            r == files_kind_count(self.files@, LineKind::Deletion),
    {
        count_in_files(&self.files, LineKind::Deletion)
    }
}

} // verus!

verus! {

/// The number that a line has on one side of the diff.
pub open spec fn side_number(l: DiffLine, old: bool) -> Option<u32> {
    if old {
        l.old_number
    } else {
        l.new_number
    }
}

/// The first `n` lines of a hunk that have a number on one side, each with that number and its text.
pub open spec fn hunk_side_lines(h: DiffHunk, old: bool, n: int) -> Seq<(u32, Seq<char>)>
    decreases n,
{
    if n <= 0 {
        seq![]
    } else {
        let prev = hunk_side_lines(h, old, n - 1);
        match side_number(h.lines@[n - 1], old) {
            Some(k) => prev.push((k, h.line_text(n - 1))),
            None => prev,
        }
    }
}

/// The lines of all hunks that have a number on one side, in order, each with that number and its text.
pub open spec fn side_lines(hunks: Seq<DiffHunk>, old: bool) -> Seq<(u32, Seq<char>)>
    decreases hunks.len(),
{
    if hunks.len() == 0 {
        seq![]
    } else {
        side_lines(hunks.drop_last(), old) + hunk_side_lines(
            hunks.last(),
            old,
            hunks.last().lines@.len() as int,
        )
    }
}

/// Lines laid end to end, each followed by `'\n'`.
pub open spec fn joined_lines(ls: Seq<Seq<char>>) -> Seq<char>
    decreases ls.len(),
{
    if ls.len() == 0 {
        seq![]
    } else {
        joined_lines(ls.drop_last()) + ls.last() + seq!['\n']
    }
}

/// Whether the numbers run 1, 2, 3 and so on.
pub open spec fn numbered_from_one(ls: Seq<(u32, Seq<char>)>) -> bool {
    forall|i: int| 0 <= i < ls.len() ==> (#[trigger] ls[i]).0 == i + 1
}

/// The texts of numbered lines.
pub open spec fn texts_of(ls: Seq<(u32, Seq<char>)>) -> Seq<Seq<char>> {
    ls.map_values(|p: (u32, Seq<char>)| p.1)
}

/// The whole text of the side that an added file gained or a deleted file lost, when the
/// hunks hold all of it: its lines numbered 1, 2, 3 and so on without a gap.
pub open spec fn complete_side(file: DiffFile, old: bool) -> Option<Seq<char>> {
    if (old && !file.is_deleted) || (!old && !file.is_new) {
        None
    } else if numbered_from_one(side_lines(file.hunks@, old)) {
        Some(joined_lines(texts_of(side_lines(file.hunks@, old))))
    } else {
        None
    }
}

impl DiffFile {
    /// Every hunk of the file is well formed.
    pub open spec fn hunks_wf(self) -> bool {
        forall|j: int| 0 <= j < self.hunks@.len() ==> (#[trigger] self.hunks@[j]).wf()
    }
}

proof fn lemma_hunk_side_lines_prefix(h: DiffHunk, old: bool, n: int, m: int)
    requires
        0 <= n <= m,
    ensures
        hunk_side_lines(h, old, n).len() <= hunk_side_lines(h, old, m).len(),
        hunk_side_lines(h, old, n) == hunk_side_lines(h, old, m).subrange(
            0,
            hunk_side_lines(h, old, n).len() as int,
        ),
    decreases m - n,
{
    if n < m {
        lemma_hunk_side_lines_prefix(h, old, n, m - 1);
        let a = hunk_side_lines(h, old, n);
        let b = hunk_side_lines(h, old, m - 1);
        let c = hunk_side_lines(h, old, m);
        assert(b =~= c.subrange(0, b.len() as int));
        assert(a =~= c.subrange(0, a.len() as int));
    } else {
        assert(hunk_side_lines(h, old, n) =~= hunk_side_lines(h, old, m).subrange(
            0,
            hunk_side_lines(h, old, n).len() as int,
        ));
    }
}

proof fn lemma_side_lines_prefix(hunks: Seq<DiffHunk>, old: bool, a: int, b: int)
    requires
        0 <= a <= b <= hunks.len(),
    ensures
        side_lines(hunks.subrange(0, a), old).len() <= side_lines(hunks.subrange(0, b), old).len(),
        side_lines(hunks.subrange(0, a), old) == side_lines(hunks.subrange(0, b), old).subrange(
            0,
            side_lines(hunks.subrange(0, a), old).len() as int,
        ),
    decreases b - a,
{
    let x = side_lines(hunks.subrange(0, a), old);
    if a < b {
        lemma_side_lines_prefix(hunks, old, a, b - 1);
        assert(hunks.subrange(0, b).drop_last() =~= hunks.subrange(0, b - 1));
        let y = side_lines(hunks.subrange(0, b - 1), old);
        let z = side_lines(hunks.subrange(0, b), old);
        assert(y =~= z.subrange(0, y.len() as int));
        assert(x =~= z.subrange(0, x.len() as int));
    } else {
        assert(x =~= side_lines(hunks.subrange(0, b), old).subrange(0, x.len() as int));
    }
}

/// The numbered lines seen before line `li` of hunk `hi`.
spec fn side_prefix(hunks: Seq<DiffHunk>, old: bool, hi: int, li: int) -> Seq<(u32, Seq<char>)> {
    side_lines(hunks.subrange(0, hi), old) + hunk_side_lines(hunks[hi], old, li)
}

proof fn lemma_side_prefix(hunks: Seq<DiffHunk>, old: bool, hi: int, li: int)
    requires
        0 <= hi < hunks.len(),
        0 <= li <= hunks[hi].lines@.len(),
    ensures
        side_prefix(hunks, old, hi, li).len() <= side_lines(hunks, old).len(),
        side_prefix(hunks, old, hi, li) == side_lines(hunks, old).subrange(
            0,
            side_prefix(hunks, old, hi, li).len() as int,
        ),
{
    let h = hunks[hi];
    lemma_hunk_side_lines_prefix(h, old, li, h.lines@.len() as int);
    lemma_side_lines_prefix(hunks, old, hi + 1, hunks.len() as int);
    assert(hunks.subrange(0, hi + 1).drop_last() =~= hunks.subrange(0, hi));
    assert(hunks.subrange(0, hunks.len() as int) =~= hunks);
    let whole = side_lines(hunks, old);
    let upto = side_lines(hunks.subrange(0, hi + 1), old);
    let p = side_prefix(hunks, old, hi, li);
    assert(p.len() <= upto.len());
    assert(p =~= upto.subrange(0, p.len() as int));
    assert(p =~= whole.subrange(0, p.len() as int));
}

proof fn lemma_joined_push(ls: Seq<Seq<char>>, l: Seq<char>)
    ensures
        joined_lines(ls.push(l)) == joined_lines(ls) + l + seq!['\n'],
{
    assert(ls.push(l).drop_last() =~= ls);
}

/// The whole added or deleted side, read from the hunks, as `complete_side` describes it.
fn complete_added_or_deleted_source(file: &DiffFile, old: bool) -> (r: Option<Arc<String>>)
    requires
        file.hunks_wf(),
    ensures
        match r {
            Some(s) => complete_side(*file, old) == Some(s@),
            None => complete_side(*file, old) is None,
        },
{
    if (old && !file.is_deleted) || (!old && !file.is_new) {
        return None;
    }
    proof {
        reveal_strlit("\n");
    }
    let ghost hunks = file.hunks@;
    let ghost whole = side_lines(hunks, old);
    let mut expected: u64 = 1;
    let mut source = String::new();
    let ghost mut done: Seq<(u32, Seq<char>)> = seq![];
    let mut hi: usize = 0;
    while hi < file.hunks.len()
        invariant
            hunks == file.hunks@,
            whole == side_lines(hunks, old),
            file.hunks_wf(),
            "\n"@ == seq!['\n'],
            hi <= hunks.len(),
            done == side_lines(hunks.subrange(0, hi as int), old),
            done.len() <= whole.len(),
            done == whole.subrange(0, done.len() as int),
            numbered_from_one(done),
            expected == done.len() + 1,
            source@ == joined_lines(texts_of(done)),
        decreases hunks.len() - hi,
    {
        let hunk = &file.hunks[hi];
        let mut li: usize = 0;
        proof {
            assert(side_prefix(hunks, old, hi as int, 0) =~= done);
        }
        while li < hunk.lines.len()
            invariant
                hunks == file.hunks@,
                whole == side_lines(hunks, old),
                *hunk == hunks[hi as int],
                hunk.wf(),
                "\n"@ == seq!['\n'],
                hi < hunks.len(),
                li <= hunk.lines@.len(),
                done == side_prefix(hunks, old, hi as int, li as int),
                numbered_from_one(done),
                expected == done.len() + 1,
                source@ == joined_lines(texts_of(done)),
            decreases hunk.lines@.len() - li,
        {
            let line = &hunk.lines[li];
            let number = if old {
                line.old_number
            } else {
                line.new_number
            };
            proof {
                lemma_side_prefix(hunks, old, hi as int, li as int + 1);
                assert(hunk_side_lines(*hunk, old, li + 1) == match side_number(*line, old) {
                    Some(k) => hunk_side_lines(*hunk, old, li as int).push(
                        (k, hunk.line_text(li as int)),
                    ),
                    None => hunk_side_lines(*hunk, old, li as int),
                });
            }
            match number {
                None => {
                    proof {
                        assert(side_prefix(hunks, old, hi as int, li + 1) =~= done);
                    }
                },
                Some(n) => {
                    let ghost next = side_prefix(hunks, old, hi as int, li + 1);
                    proof {
                        assert(next =~= done.push((n, hunk.line_text(li as int))));
                    }
                    if n as u64 != expected {
                        proof {
                            let k = done.len() as int;
                            assert(whole[k] == next[k]);
                        }
                        return None;
                    }
                    let text = hunk.line_content(line);
                    source.append(text);
                    source.append("\n");
                    proof {
                        let ghost old_done = done;
                        done = next;
                        assert(texts_of(done) =~= texts_of(old_done).push(hunk.line_text(li as int)));
                        lemma_joined_push(texts_of(old_done), hunk.line_text(li as int));
                        assert(source@ =~= joined_lines(texts_of(done)));
                    }
                    expected += 1;
                },
            }
            li += 1;
        }
        proof {
            assert(hunks.subrange(0, hi + 1).drop_last() =~= hunks.subrange(0, hi as int));
            assert(done =~= side_lines(hunks.subrange(0, hi + 1), old));
            lemma_side_lines_prefix(hunks, old, hi + 1, hunks.len() as int);
            assert(hunks.subrange(0, hunks.len() as int) =~= hunks);
        }
        hi += 1;
    }
    proof {
        assert(hunks.subrange(0, hi as int) =~= hunks);
    }
    Some(Arc::new(source))
}

/// The old lines from `start` up to before `end`, numbered from 1, laid end to end;
/// `None` when that range is not among the old lines.
pub open spec fn old_lines_between(lines: Seq<Seq<char>>, start: int, end: int) -> Option<Seq<char>> {
    if 1 <= start <= end && end - 1 <= lines.len() {
        Some(joined_lines(lines.subrange(start - 1, end - 1)))
    } else {
        None
    }
}

/// Whether the line has the old number `cursor`.
pub open spec fn at_old_line(l: DiffLine, cursor: int) -> bool {
    match l.old_number {
        Some(n) => n as int == cursor,
        None => false,
    }
}

/// Line `k` of the hunk applied at old line `cursor`, after the new text `out`: an added
/// line is written out, a deleted line is passed over, an unchanged line is copied from the
/// old side; a deleted or unchanged line must be the old line at `cursor`.
pub open spec fn patch_line(lines: Seq<Seq<char>>, h: DiffHunk, k: int, cursor: int, out: Seq<char>) -> Option<(int, Seq<char>)> {
    let l = h.lines@[k];
    match l.kind {
        LineKind::Addition => Some((cursor, out + h.line_text(k) + seq!['\n'])),
        LineKind::Deletion => if at_old_line(l, cursor) {
            Some((cursor + 1, out))
        } else {
            None
        },
        LineKind::Context => if at_old_line(l, cursor) && cursor - 1 < lines.len() {
            Some((cursor + 1, out + lines[cursor - 1] + seq!['\n']))
        } else {
            None
        },
    }
}

/// The first `n` lines of the hunk applied from the state `st`.
pub open spec fn patch_hunk_lines(lines: Seq<Seq<char>>, h: DiffHunk, n: int, st: Option<(int, Seq<char>)>) -> Option<(int, Seq<char>)>
    decreases n,
{
    if n <= 0 {
        st
    } else {
        match patch_hunk_lines(lines, h, n - 1, st) {
            Some((c, o)) => patch_line(lines, h, n - 1, c, o),
            None => None,
        }
    }
}

/// Where a hunk starts on the old side; a start of 0 is Git's way to insert into an empty file.
pub open spec fn hunk_old_start(h: DiffHunk) -> int {
    if h.old_start < 1 {
        1
    } else {
        h.old_start as int
    }
}

/// The hunk applied at old line `cursor`: the old lines up to its start are kept, then its lines apply.
pub open spec fn patch_hunk(lines: Seq<Seq<char>>, h: DiffHunk, cursor: int, out: Seq<char>) -> Option<(int, Seq<char>)> {
    let start = hunk_old_start(h);
    if start < cursor {
        None
    } else {
        match old_lines_between(lines, cursor, start) {
            Some(kept) => patch_hunk_lines(lines, h, h.lines@.len() as int, Some((start, out + kept))),
            None => None,
        }
    }
}

/// The hunks applied in order to the old lines, from old line 1 and an empty text.
pub open spec fn patch_hunks(lines: Seq<Seq<char>>, hunks: Seq<DiffHunk>) -> Option<(int, Seq<char>)>
    decreases hunks.len(),
{
    if hunks.len() == 0 {
        Some((1, seq![]))
    } else {
        match patch_hunks(lines, hunks.drop_last()) {
            Some((c, o)) => patch_hunk(lines, hunks.last(), c, o),
            None => None,
        }
    }
}

/// One past the last old line, held to `u32::MAX`.
pub open spec fn old_end_bound(n: int) -> int {
    if n >= u32::MAX {
        u32::MAX as int
    } else {
        n + 1
    }
}

/// The new side of a file: its hunks applied to the old lines, and the old lines after the
/// last hunk kept; `None` when the hunks do not fit the old lines.
pub open spec fn patched_text(file: DiffFile, lines: Seq<Seq<char>>) -> Option<Seq<char>> {
    match patch_hunks(lines, file.hunks@) {
        Some((c, o)) => match old_lines_between(lines, c, old_end_bound(lines.len() as int)) {
            Some(rest) => Some(o + rest),
            None => None,
        },
        None => None,
    }
}

/// Applying a hunk's lines only appends to the text built so far, and only moves the old
/// line cursor on.
proof fn lemma_patch_hunk_lines_extends(
    lines: Seq<Seq<char>>,
    h: DiffHunk,
    n: int,
    c: int,
    o: Seq<char>,
)
    requires
        patch_hunk_lines(lines, h, n, Some((c, o))) is Some,
    ensures
        ({
            let (c2, o2) = patch_hunk_lines(lines, h, n, Some((c, o)))->0;
            c <= c2 && o.len() <= o2.len() && o2.take(o.len() as int) == o
        }),
    decreases n,
{
    if n > 0 {
        lemma_patch_hunk_lines_extends(lines, h, n - 1, c, o);
        let (c1, o1) = patch_hunk_lines(lines, h, n - 1, Some((c, o)))->0;
        let (c2, o2) = patch_hunk_lines(lines, h, n, Some((c, o)))->0;
        assert(o2.take(o1.len() as int) == o1);
        assert(o2.take(o.len() as int) =~= o1.take(o.len() as int));
    }
}

/// What line `k` of a hunk writes on the new side: an added line its own text, an
/// unchanged line the old line of its old number, a deleted line nothing; each written
/// line ends with a line break.
pub open spec fn new_side_piece(lines: Seq<Seq<char>>, h: DiffHunk, k: int) -> Seq<char> {
    let l = h.lines@[k];
    match l.kind {
        LineKind::Addition => h.line_text(k) + seq!['\n'],
        LineKind::Deletion => seq![],
        LineKind::Context => match l.old_number {
            Some(n) => lines[n - 1] + seq!['\n'],
            None => seq![],
        },
    }
}

/// What the first `n` lines of a hunk write on the new side, in order.
pub open spec fn new_side(lines: Seq<Seq<char>>, h: DiffHunk, n: int) -> Seq<char>
    decreases n,
{
    if n <= 0 {
        seq![]
    } else {
        new_side(lines, h, n - 1) + new_side_piece(lines, h, n - 1)
    }
}

/// Applying a hunk's lines appends exactly their new side.
proof fn lemma_patch_hunk_lines_text(
    lines: Seq<Seq<char>>,
    h: DiffHunk,
    n: int,
    c: int,
    o: Seq<char>,
)
    requires
        0 <= n <= h.lines@.len(),
        patch_hunk_lines(lines, h, n, Some((c, o))) is Some,
    ensures
        (patch_hunk_lines(lines, h, n, Some((c, o)))->0).1 == o + new_side(lines, h, n),
    decreases n,
{
    if n > 0 {
        lemma_patch_hunk_lines_text(lines, h, n - 1, c, o);
        assert(o + new_side(lines, h, n) =~= o + new_side(lines, h, n - 1) + new_side_piece(
            lines,
            h,
            n - 1,
        ));
    } else {
        assert(o + new_side(lines, h, 0) =~= o);
    }
}

/// Applying the first `n` lines of a hunk moves the old line cursor past exactly its
/// unchanged and deleted lines among them.
proof fn lemma_patch_hunk_lines_cursor(
    lines: Seq<Seq<char>>,
    h: DiffHunk,
    n: int,
    c: int,
    o: Seq<char>,
)
    requires
        0 <= n <= h.lines@.len(),
        patch_hunk_lines(lines, h, n, Some((c, o))) is Some,
    ensures
        (patch_hunk_lines(lines, h, n, Some((c, o)))->0).0 == c + lines_kind_count(
            h.lines@.take(n),
            LineKind::Context,
        ) + lines_kind_count(h.lines@.take(n), LineKind::Deletion),
    decreases n,
{
    if n > 0 {
        lemma_patch_hunk_lines_cursor(lines, h, n - 1, c, o);
        assert(h.lines@.take(n).drop_last() =~= h.lines@.take(n - 1));
        assert(h.lines@.take(n).last() == h.lines@[n - 1]);
    } else {
        assert(h.lines@.take(0) =~= Seq::<DiffLine>::empty());
    }
}

/// Each hunk, applied after the ones before it, first keeps the old lines from where
/// they stopped up to its own start, then writes its new side (its added lines, and its
/// unchanged lines as the old text has them) in place of its old lines, moving past
/// exactly its unchanged and deleted lines: no old line between two hunks is lost, none
/// is read twice, and no hunk's change is dropped.
pub proof fn lemma_patch_hunks_step(lines: Seq<Seq<char>>, hunks: Seq<DiffHunk>, k: int)
    requires
        0 <= k < hunks.len(),
        patch_hunks(lines, hunks.take(k + 1)) is Some,
    ensures
        patch_hunks(lines, hunks.take(k)) is Some,
        ({
            let (c, o) = patch_hunks(lines, hunks.take(k))->0;
            let (c1, o1) = patch_hunks(lines, hunks.take(k + 1))->0;
            let start = hunk_old_start(hunks[k]);
            let kept = joined_lines(lines.subrange(c - 1, start - 1));
            &&& 1 <= c <= start
            &&& start - 1 <= lines.len()
            &&& o.len() + kept.len() <= o1.len()
            &&& o1.take((o.len() + kept.len()) as int) == o + kept
            &&& o1 == o + kept + new_side(lines, hunks[k], hunks[k].lines@.len() as int)
            &&& c1 == start + lines_kind_count(hunks[k].lines@, LineKind::Context)
                + lines_kind_count(hunks[k].lines@, LineKind::Deletion)
        }),
{
    let t = hunks.take(k + 1);
    assert(t.drop_last() =~= hunks.take(k));
    assert(t.last() == hunks[k]);
    let (c, o) = patch_hunks(lines, hunks.take(k))->0;
    let h = hunks[k];
    let start = hunk_old_start(h);
    let kept = old_lines_between(lines, c, start)->0;
    lemma_patch_hunk_lines_extends(lines, h, h.lines@.len() as int, start, o + kept);
    lemma_patch_hunk_lines_cursor(lines, h, h.lines@.len() as int, start, o + kept);
    lemma_patch_hunk_lines_text(lines, h, h.lines@.len() as int, start, o + kept);
    assert(h.lines@.take(h.lines@.len() as int) =~= h.lines@);
}

/// Applying the hunks in order only ever appends: the new text built from the first `k`
/// hunks is the beginning of the one built from all of them, and its old line cursor is
/// no further on. A later hunk never changes or drops what an earlier one wrote.
pub proof fn lemma_patch_hunks_prefix(lines: Seq<Seq<char>>, hunks: Seq<DiffHunk>, k: int)
    requires
        0 <= k <= hunks.len(),
        patch_hunks(lines, hunks) is Some,
    ensures
        patch_hunks(lines, hunks.take(k)) is Some,
        ({
            let (c, o) = patch_hunks(lines, hunks.take(k))->0;
            let (c2, o2) = patch_hunks(lines, hunks)->0;
            c <= c2 && o.len() <= o2.len() && o2.take(o.len() as int) == o
        }),
    decreases hunks.len(),
{
    if k == hunks.len() {
        assert(hunks.take(k) =~= hunks);
    } else {
        let d = hunks.drop_last();
        lemma_patch_hunks_prefix(lines, d, k);
        assert(d.take(k) =~= hunks.take(k));
        let (c1, o1) = patch_hunks(lines, d)->0;
        let h = hunks.last();
        let start = hunk_old_start(h);
        let kept = old_lines_between(lines, c1, start)->0;
        lemma_patch_hunk_lines_extends(lines, h, h.lines@.len() as int, start, o1 + kept);
        let (c2, o2) = patch_hunks(lines, hunks)->0;
        assert(o2.take((o1 + kept).len() as int) == o1 + kept);
        assert(o2.take(o1.len() as int) =~= o1);
        let (c, o) = patch_hunks(lines, hunks.take(k))->0;
        assert(o2.take(o.len() as int) =~= o1.take(o.len() as int));
    }
}

/// The new side of a file holds, from its start, what its first `k` hunks made of the
/// old lines, for every `k`: each hunk's changes stay in it, whatever hunks follow.
pub proof fn lemma_patched_text_keeps_each_hunk(file: DiffFile, lines: Seq<Seq<char>>, k: int)
    requires
        0 <= k <= file.hunks@.len(),
        patched_text(file, lines) is Some,
    ensures
        patch_hunks(lines, file.hunks@.take(k)) is Some,
        ({
            let o = (patch_hunks(lines, file.hunks@.take(k))->0).1;
            let t = patched_text(file, lines)->0;
            o.len() <= t.len() && t.take(o.len() as int) == o
        }),
{
    lemma_patch_hunks_prefix(lines, file.hunks@, k);
    let (c2, o2) = patch_hunks(lines, file.hunks@)->0;
    let t = patched_text(file, lines)->0;
    let o = (patch_hunks(lines, file.hunks@.take(k))->0).1;
    assert(t.take(o2.len() as int) =~= o2);
    assert(t.take(o.len() as int) =~= o2.take(o.len() as int));
}

proof fn lemma_patch_hunk_lines_none(lines: Seq<Seq<char>>, h: DiffHunk, n: int, m: int, st: Option<(int, Seq<char>)>)
    requires
        n <= m,
        patch_hunk_lines(lines, h, n, st) is None,
    ensures
        patch_hunk_lines(lines, h, m, st) is None,
    decreases m - n,
{
    if n < m {
        lemma_patch_hunk_lines_none(lines, h, n, m - 1, st);
    }
}

proof fn lemma_patch_hunks_none(lines: Seq<Seq<char>>, hunks: Seq<DiffHunk>, a: int)
    requires
        0 <= a <= hunks.len(),
        patch_hunks(lines, hunks.subrange(0, a)) is None,
    ensures
        patch_hunks(lines, hunks) is None,
    decreases hunks.len() - a,
{
    if a < hunks.len() {
        assert(hunks.subrange(0, a + 1).drop_last() =~= hunks.subrange(0, a));
        lemma_patch_hunks_none(lines, hunks, a + 1);
    } else {
        assert(hunks.subrange(0, a) =~= hunks);
    }
}

proof fn lemma_joined_append(a: Seq<Seq<char>>, b: Seq<Seq<char>>)
    ensures
        joined_lines(a + b) == joined_lines(a) + joined_lines(b),
    decreases b.len(),
{
    if b.len() == 0 {
        assert(a + b =~= a);
        assert(joined_lines(a) + joined_lines(b) =~= joined_lines(a));
    } else {
        lemma_joined_append(a, b.drop_last());
        assert((a + b).drop_last() =~= a + b.drop_last());
        assert((a + b).last() == b.last());
        assert(joined_lines(a + b) =~= joined_lines(a) + joined_lines(b));
    }
}

/// Appends the old lines from `start` up to before `end`, as `old_lines_between` describes them.
fn append_old_lines(target: &mut String, old_lines: &Vec<&str>, start: u64, end: u64) -> (r: Option<()>)
    ensures
        match old_lines_between(old_lines@.map_values(|l: &str| l@), start as int, end as int) {
            Some(t) => r is Some && final(target)@ == old(target)@ + t,
            None => r is None && final(target)@ == old(target)@,
        },
{
    let ghost lines = old_lines@.map_values(|l: &str| l@);
    if start < 1 || end < 1 || start > end || end - 1 > old_lines.len() as u64 {
        return None;
    }
    proof {
        reveal_strlit("\n");
    }
    let first = (start - 1) as usize;
    let last = (end - 1) as usize;
    let ghost base = target@;
    let mut i = first;
    while i < last
        invariant
            lines == old_lines@.map_values(|l: &str| l@),
            "\n"@ == seq!['\n'],
            first <= i <= last <= old_lines@.len(),
            target@ == base + joined_lines(lines.subrange(first as int, i as int)),
        decreases last - i,
    {
        target.append(old_lines[i]);
        target.append("\n");
        proof {
            let done = lines.subrange(first as int, i as int);
            assert(lines.subrange(first as int, i + 1) =~= done.push(lines[i as int]));
            lemma_joined_push(done, lines[i as int]);
            assert(target@ =~= base + joined_lines(lines.subrange(first as int, i + 1)));
        }
        i += 1;
    }
    Some(())
}

/// The new side of a file, rebuilt from its old side and its hunks, as `patched_text` describes it.
fn patched_source(file: &DiffFile, old: &DiffFileContext) -> (r: Option<String>)
    requires
        file.hunks_wf(),
    ensures
        match r {
            Some(s) => patched_text(*file, source_lines(old.text())) == Some(s@),
            None => patched_text(*file, source_lines(old.text())) is None,
        },
{
    let ghost lines = source_lines(old.text());
    let line_count = old.line_count();
    let old_lines = match old.lines(1, line_count as usize) {
        Some(v) => v,
        None => {
            return None;
        },
    };
    proof {
        assert(old_lines@.map_values(|l: &str| l@) =~= lines);
        reveal_strlit("\n");
    }
    let ghost hunks = file.hunks@;
    let mut cursor: u64 = 1;
    let mut source = String::new();
    let mut hi: usize = 0;
    while hi < file.hunks.len()
        invariant
            hunks == file.hunks@,
            file.hunks_wf(),
            lines == source_lines(old.text()),
            old_lines@.map_values(|l: &str| l@) == lines,
            old_lines@.len() == lines.len(),
            "\n"@ == seq!['\n'],
            hi <= hunks.len(),
            1 <= cursor <= u32::MAX as u64 + 1,
            patch_hunks(lines, hunks.subrange(0, hi as int)) == Some((cursor as int, source@)),
        decreases hunks.len() - hi,
    {
        proof {
            assert(hunks.subrange(0, hi + 1).drop_last() =~= hunks.subrange(0, hi as int));
        }
        let hunk = &file.hunks[hi];
        let start: u64 = if hunk.old_start < 1 {
            1
        } else {
            hunk.old_start as u64
        };
        if start < cursor {
            proof {
                lemma_patch_hunks_none(lines, hunks, hi + 1);
            }
            return None;
        }
        let kept = append_old_lines(&mut source, &old_lines, cursor, start);
        if kept.is_none() {
            proof {
                lemma_patch_hunks_none(lines, hunks, hi + 1);
            }
            return None;
        }
        cursor = start;
        let ghost entry = Some((cursor as int, source@));
        let mut li: usize = 0;
        while li < hunk.lines.len()
            invariant
                hunks == file.hunks@,
                *hunk == hunks[hi as int],
                hunk.wf(),
                lines == source_lines(old.text()),
                old_lines@.map_values(|l: &str| l@) == lines,
                old_lines@.len() == lines.len(),
                "\n"@ == seq!['\n'],
                hi < hunks.len(),
                li <= hunk.lines@.len(),
                1 <= cursor <= u32::MAX as u64 + 1,
                patch_hunks(lines, hunks.subrange(0, hi + 1)) == patch_hunk_lines(
                    lines,
                    *hunk,
                    hunk.lines@.len() as int,
                    entry,
                ),
                patch_hunk_lines(lines, *hunk, li as int, entry) == Some((cursor as int, source@)),
            decreases hunk.lines@.len() - li,
        {
            let line = &hunk.lines[li];
            let ghost before = source@;
            match line.kind {
                LineKind::Addition => {
                    source.append(hunk.line_content(line));
                    source.append("\n");
                },
                LineKind::Deletion => {
                    let here = match line.old_number {
                        Some(n) => n as u64 == cursor,
                        None => false,
                    };
                    if !here {
                        proof {
                            lemma_patch_hunk_lines_none(
                                lines,
                                *hunk,
                                li + 1,
                                hunk.lines@.len() as int,
                                entry,
                            );
                            lemma_patch_hunks_none(lines, hunks, hi + 1);
                        }
                        return None;
                    }
                    cursor += 1;
                },
                LineKind::Context => {
                    let here = match line.old_number {
                        Some(n) => n as u64 == cursor,
                        None => false,
                    };
                    if !here || cursor - 1 >= old_lines.len() as u64 {
                        proof {
                            lemma_patch_hunk_lines_none(
                                lines,
                                *hunk,
                                li + 1,
                                hunk.lines@.len() as int,
                                entry,
                            );
                            lemma_patch_hunks_none(lines, hunks, hi + 1);
                        }
                        return None;
                    }
                    let k = (cursor - 1) as usize;
                    source.append(old_lines[k]);
                    source.append("\n");
                    proof {
                        assert(old_lines@[k as int]@ == lines[k as int]);
                    }
                    cursor += 1;
                },
            }
            proof {
                assert(patch_hunk_lines(lines, *hunk, li + 1, entry) == Some((cursor as int, source@)));
            }
            li += 1;
        }
        hi += 1;
    }
    proof {
        assert(hunks.subrange(0, hi as int) =~= hunks);
    }
    let end: u64 = if line_count == u32::MAX {
        u32::MAX as u64
    } else {
        line_count as u64 + 1
    };
    let ghost out = source@;
    match append_old_lines(&mut source, &old_lines, cursor, end) {
        Some(_) => Some(source),
        None => None,
    }
}

/// The number of bytes that the texts take.
pub open spec fn texts_len(ts: Seq<Seq<char>>) -> nat
    decreases ts.len(),
{
    if ts.len() == 0 {
        0
    } else {
        texts_len(ts.drop_last()) + utf8(ts.last()).len()
    }
}

proof fn lemma_texts_len_prefix(ts: Seq<Seq<char>>, i: int)
    requires
        0 <= i <= ts.len(),
    ensures
        texts_len(ts.subrange(0, i)) <= texts_len(ts),
    decreases ts.len() - i,
{
    if i < ts.len() {
        lemma_texts_len_prefix(ts, i + 1);
        assert(ts.subrange(0, i + 1).drop_last() =~= ts.subrange(0, i));
    } else {
        assert(ts.subrange(0, i) =~= ts);
    }
}

/// `a + k`, held to `u32::MAX`.
pub open spec fn saturating_offset(a: u32, k: int) -> u32 {
    if a + k > u32::MAX {
        u32::MAX
    } else {
        (a + k) as u32
    }
}

/// Line `pos` of the hunk is the `k`-th unchanged line revealed from old line `old_start`
/// and new line `new_start`, with the text `t`.
pub open spec fn is_revealed_line(h: DiffHunk, pos: int, k: int, old_start: u32, new_start: u32, t: Seq<char>) -> bool {
    &&& h.lines@[pos].old_number == Some(saturating_offset(old_start, k))
    &&& h.lines@[pos].new_number == Some(saturating_offset(new_start, k))
    &&& h.lines@[pos].kind == LineKind::Context
    &&& h.line_text(pos) == t
}

/// `after` is `before` with unchanged lines of the texts `texts` added, numbered from
/// `old_start` and `new_start`: before its lines (and the hunk then starts there) or after them.
pub open spec fn context_inserted(
    before: DiffHunk,
    after: DiffHunk,
    at_start: bool,
    old_start: u32,
    new_start: u32,
    texts: Seq<Seq<char>>,
) -> bool {
    let n = texts.len();
    &&& after.wf()
    &&& after.header == before.header
    &&& after.lines@.len() == before.lines@.len() + n
    &&& if at_start {
        &&& after.old_start == old_start
        &&& after.new_start == new_start
        &&& forall|k: int| 0 <= k < n ==> is_revealed_line(after, k, k, old_start, new_start, #[trigger] texts[k])
        &&& forall|j: int|
            0 <= j < before.lines@.len() ==> {
                &&& (#[trigger] after.lines@[n + j]) == before.lines@[j]
                &&& after.line_text(n + j) == before.line_text(j)
            }
    } else {
        &&& after.old_start == before.old_start
        &&& after.new_start == before.new_start
        &&& forall|k: int|
            0 <= k < n ==> is_revealed_line(
                after,
                before.lines@.len() + k,
                k,
                old_start,
                new_start,
                #[trigger] texts[k],
            )
        &&& forall|j: int|
            0 <= j < before.lines@.len() ==> {
                &&& (#[trigger] after.lines@[j]) == before.lines@[j]
                &&& after.line_text(j) == before.line_text(j)
            }
    }
}

impl DiffHunk {
    /// Adds unchanged lines, numbered from `old_start` and `new_start`, before the hunk's
    /// lines (then the hunk starts there) or after them; their texts join the buffer.
    pub(crate) fn insert_context(&mut self, at_start: bool, old_start: u32, new_start: u32, contents: Vec<&str>)
        requires
            old(self).wf(),
            contents@.len() <= u32::MAX + 1,
            utf8(old(self).text()).len() + texts_len(contents@.map_values(|c: &str| c@)) <= u32::MAX,
        ensures
            context_inserted(
                *old(self),
                *final(self),
                at_start,
                old_start,
                new_start,
                contents@.map_values(|c: &str| c@),
            ),
    {
        let ghost texts = contents@.map_values(|c: &str| c@);
        let ghost base = self.text();
        let mut content: String = self.content.as_str().to_owned();
        let mut added: Vec<DiffLine> = Vec::new();
        let mut k: usize = 0;
        while k < contents.len()
            invariant
                texts == contents@.map_values(|c: &str| c@),
                contents@.len() <= u32::MAX + 1,
                utf8(base).len() + texts_len(texts) <= u32::MAX,
                k <= contents@.len(),
                added@.len() == k,
                utf8(content@).len() == utf8(base).len() + texts_len(texts.subrange(0, k as int)),
                content@.len() >= base.len(),
                content@.subrange(0, base.len() as int) == base,
                forall|i: int| 0 <= i < k ==> {
                    &&& (#[trigger] added@[i]).fits(content@)
                    &&& added@[i].old_number == Some(saturating_offset(old_start, i))
                    &&& added@[i].new_number == Some(saturating_offset(new_start, i))
                    &&& added@[i].kind == LineKind::Context
                    &&& decode_utf8(added@[i].bytes_in(content@)) == texts[i]
                },
            decreases contents@.len() - k,
        {
            proof {
                assert(texts.subrange(0, k + 1).drop_last() =~= texts.subrange(0, k as int));
                lemma_texts_len_prefix(texts, k + 1);
            }
            let piece = contents[k];
            let ghost before = content@;
            let start = content.as_str().len();
            content.append(piece);
            let end = content.as_str().len();
            let offset = k as u32;
            let line = DiffLine {
                old_number: Some(old_start.saturating_add(offset)),
                new_number: Some(new_start.saturating_add(offset)),
                kind: LineKind::Context,
                content_start: start as u32,
                content_end: end as u32,
            };
            proof {
                lemma_utf8_concat(before, piece@);
                is_char_boundary_start_end_of_seq(utf8(content@));
                assert(line.bytes_in(content@) =~= utf8(piece@));
                assert forall|i: int| 0 <= i < k implies {
                    &&& (#[trigger] added@[i]).fits(content@)
                    &&& decode_utf8(added@[i].bytes_in(content@)) == texts[i]
                } by {
                    lemma_fits_extend(added@[i], before, piece@);
                }
                assert(content@.subrange(0, base.len() as int) =~= before.subrange(0, base.len() as int));
            }
            added.push(line);
            k += 1;
        }
        let ghost grown = content@;
        proof {
            assert(grown =~= base + grown.subrange(base.len() as int, grown.len() as int));
            let more = grown.subrange(base.len() as int, grown.len() as int);
            assert forall|j: int| 0 <= j < self.lines@.len() implies {
                &&& (#[trigger] self.lines@[j]).fits(grown)
                &&& self.lines@[j].bytes_in(grown) == self.lines@[j].bytes_in(base)
            } by {
                lemma_fits_extend(self.lines@[j], base, more);
            }
        }
        let ghost old_lines = self.lines@;
        let ghost fresh = added@;
        proof {
            assert(texts.subrange(0, k as int) =~= texts);
        }
        if at_start {
            let mut rest: Vec<DiffLine> = Vec::new();
            std::mem::swap(&mut rest, &mut self.lines);
            added.append(&mut rest);
            self.lines = added;
            self.old_start = old_start;
            self.new_start = new_start;
        } else {
            self.lines.append(&mut added);
        }
        self.content = Arc::new(content);
        proof {
            assert forall|i: int| 0 <= i < self.lines@.len() implies #[trigger] self.lines@[i].fits(
                self.text(),
            ) by {
                if at_start {
                    if i < fresh.len() {
                        assert(self.lines@[i] == fresh[i]);
                    } else {
                        assert(self.lines@[i] == old_lines[i - fresh.len()]);
                    }
                } else {
                    if i < old_lines.len() {
                        assert(self.lines@[i] == old_lines[i]);
                    } else {
                        assert(self.lines@[i] == fresh[i - old_lines.len()]);
                    }
                }
            }
        }
    }
}

/// What revealing `count` old lines in hunk `hunk_index` of file `file_index` makes of a
/// diff: only that hunk changes, and it gains the old lines before or after its own.
pub open spec fn context_insertion_done(
    before: DiffSet,
    after: DiffSet,
    file_index: int,
    hunk_index: int,
    at_start: bool,
    old_start: u32,
    new_start: u32,
    count: int,
) -> bool {
    let f0 = before.files@[file_index];
    let f1 = after.files@[file_index];
    &&& after.files@.len() == before.files@.len()
    &&& forall|f: int|
        0 <= f < before.files@.len() && f != file_index ==> (#[trigger] after.files@[f]) == before.files@[f]
    &&& f1.old_path == f0.old_path
    &&& f1.new_path == f0.new_path
    &&& f1.is_new == f0.is_new
    &&& f1.is_deleted == f0.is_deleted
    &&& f1.hunks@.len() == f0.hunks@.len()
    &&& forall|h: int|
        0 <= h < f0.hunks@.len() && h != hunk_index ==> (#[trigger] f1.hunks@[h]) == f0.hunks@[h]
    &&& context_inserted(
        f0.hunks@[hunk_index],
        f1.hunks@[hunk_index],
        at_start,
        old_start,
        new_start,
        before.revealed_texts(file_index, old_start, count),
    )
}

impl DiffSet {
    /// The full old text of file `i`, when the diff holds it.
    pub open spec fn context_text(self, i: int) -> Option<Seq<char>> {
        if 0 <= i < self.contexts@.len() {
            match self.contexts@[i] {
                Some(c) => Some(c.text()),
                None => None,
            }
        } else {
            None
        }
    }

    /// The text that highlighting reads for one side of file `i`: the old side is the full
    /// old text, or a deleted file's complete text; the new side is empty for a deleted
    /// file, an added file's complete text, or the old text with the hunks applied.
    pub open spec fn syntax_source_view(self, i: int, old: bool) -> Option<Seq<char>> {
        if !(0 <= i < self.files@.len()) {
            None
        } else if old {
            match self.context_text(i) {
                Some(t) => Some(t),
                None => complete_side(self.files@[i], true),
            }
        } else if self.files@[i].is_deleted {
            Some(seq![])
        } else if self.files@[i].is_new {
            complete_side(self.files@[i], false)
        } else {
            match self.context_text(i) {
                Some(t) => patched_text(self.files@[i], source_lines(t)),
                None => None,
            }
        }
    }

    /// A diff of the given files, with the full old text of those whose text is known.
    pub fn with_contexts(files: Vec<DiffFile>, contexts: Vec<Option<String>>) -> (r: Self)
        requires
            files@.len() == contexts@.len(),
            forall|i: int|
                0 <= i < contexts@.len() ==> (#[trigger] contexts@[i] matches Some(c) ==> utf8(c@).len() <= u32::MAX),
        ensures
            r.files@ == files@,
            r.contexts@.len() == contexts@.len(),
            forall|i: int|
                0 <= i < contexts@.len() ==> #[trigger] r.context_text(i) == match contexts@[i] {
                    Some(c) => Some(c@),
                    None => None,
                },
    {
        let mut built: Vec<Option<DiffFileContext>> = Vec::new();
        let mut i: usize = 0;
        while i < contexts.len()
            invariant
                i <= contexts@.len(),
                built@.len() == i,
                forall|k: int|
                    0 <= k < contexts@.len() ==> (#[trigger] contexts@[k] matches Some(c) ==> utf8(c@).len() <= u32::MAX),
                forall|k: int|
                    0 <= k < i ==> match (#[trigger] built@[k], contexts@[k]) {
                        (Some(b), Some(c)) => b.text() == c@,
                        (None, None) => true,
                        _ => false,
                    },
            decreases contexts@.len() - i,
        {
            let item = match &contexts[i] {
                Some(c) => Some(DiffFileContext::new(c.clone())),
                None => None,
            };
            built.push(item);
            i += 1;
        }
        DiffSet { files, contexts: built }
    }

    /// The number of lines of file `i`'s full old text, when the diff holds it.
    pub fn old_line_count(&self, file_index: usize) -> (r: Option<u32>)
        ensures
            r == match self.context_text(file_index as int) {
                Some(t) => Some(source_lines(t).len() as u32),
                None => None,
            },
    {
        if file_index < self.contexts.len() {
            match &self.contexts[file_index] {
                Some(c) => Some(c.line_count()),
                None => None,
            }
        } else {
            None
        }
    }

    /// The text that highlighting reads for one side of a file, as `syntax_source_view` describes it.
    pub fn syntax_source(&self, file_index: usize, old: bool) -> (r: Option<Arc<String>>)
        requires
            file_index < self.files@.len() ==> self.files@[file_index as int].hunks_wf(),
        ensures
            match r {
                Some(s) => self.syntax_source_view(file_index as int, old) == Some(s@),
                None => self.syntax_source_view(file_index as int, old) is None,
            },
    {
        if file_index >= self.files.len() {
            return None;
        }
        let file = &self.files[file_index];
        let context: Option<&DiffFileContext> = if file_index < self.contexts.len() {
            match &self.contexts[file_index] {
                Some(c) => Some(c),
                None => None,
            }
        } else {
            None
        };
        if old {
            return match context {
                Some(c) => Some(share(&c.content)),
                None => complete_added_or_deleted_source(file, true),
            };
        }
        if file.is_deleted {
            return Some(Arc::new(String::new()));
        }
        if file.is_new {
            return complete_added_or_deleted_source(file, false);
        }
        match context {
            Some(c) => match patched_source(file, c) {
                Some(s) => Some(Arc::new(s)),
                None => None,
            },
            None => None,
        }
    }

    /// Whether `count` old lines from `old_start` can be revealed in hunk `hunk_index` of
    /// file `file_index`: the file's old text is known and holds them, and the hunk exists.
    pub open spec fn can_insert_context(self, file_index: int, hunk_index: int, old_start: u32, count: int) -> bool {
        &&& self.context_text(file_index) is Some
        &&& 1 <= old_start
        &&& old_start - 1 + count <= source_lines(self.context_text(file_index)->0).len()
        &&& 0 <= file_index < self.files@.len()
        &&& 0 <= hunk_index < self.files@[file_index].hunks@.len()
    }

    /// The old lines that `insert_context` reveals.
    pub open spec fn revealed_texts(self, file_index: int, old_start: u32, count: int) -> Seq<Seq<char>> {
        source_lines(self.context_text(file_index)->0).subrange(old_start - 1, old_start - 1 + count)
    }

    /// Reveals `count` unchanged lines of file `file_index`'s old text, from old line
    /// `old_start` (new line `new_start`), in hunk `hunk_index`: before its lines when
    /// `at_start`, else after them. Answers whether it could.
    pub fn insert_context(
        &mut self,
        file_index: usize,
        hunk_index: usize,
        at_start: bool,
        old_start: u32,
        new_start: u32,
        count: usize,
    ) -> (r: bool)
        requires
            old(self).can_insert_context(file_index as int, hunk_index as int, old_start, count as int) ==> {
                let h = old(self).files@[file_index as int].hunks@[hunk_index as int];
                &&& h.wf()
                &&& utf8(h.text()).len() + texts_len(
                    old(self).revealed_texts(file_index as int, old_start, count as int),
                ) <= u32::MAX
            },
        ensures
            r == old(self).can_insert_context(file_index as int, hunk_index as int, old_start, count as int),
            final(self).contexts == old(self).contexts,
            !r ==> final(self).files == old(self).files,
            r ==> context_insertion_done(
                *old(self),
                *final(self),
                file_index as int,
                hunk_index as int,
                at_start,
                old_start,
                new_start,
                count as int,
            ),
    {
        if file_index >= self.contexts.len() {
            return false;
        }
        let contents = match &self.contexts[file_index] {
            Some(c) => c.lines(old_start, count),
            None => {
                return false;
            },
        };
        let contents = match contents {
            Some(v) => v,
            None => {
                return false;
            },
        };
        if file_index >= self.files.len() || hunk_index >= self.files[file_index].hunks.len() {
            return false;
        }
        proof {
            assert(contents@.map_values(|c: &str| c@) =~= self.revealed_texts(
                file_index as int,
                old_start,
                count as int,
            ));
        }
        self.files[file_index].hunks[hunk_index].insert_context(at_start, old_start, new_start, contents);
        true
    }
}

/// The rebuilt new side of a changed file keeps what each of its hunks made: for every
/// `k`, it begins with the old text as the first `k` hunks rewrite it.
pub proof fn lemma_new_source_keeps_each_hunk(set: DiffSet, i: int, k: int)
    requires
        0 <= i < set.files@.len(),
        !set.files@[i].is_deleted,
        !set.files@[i].is_new,
        set.context_text(i) is Some,
        set.syntax_source_view(i, false) is Some,
        0 <= k <= set.files@[i].hunks@.len(),
    ensures
        patch_hunks(source_lines(set.context_text(i)->0), set.files@[i].hunks@.take(k)) is Some,
        ({
            let o = (patch_hunks(source_lines(set.context_text(i)->0), set.files@[i].hunks@.take(k))->0).1;
            let t = set.syntax_source_view(i, false)->0;
            o.len() <= t.len() && t.take(o.len() as int) == o
        }),
{
    lemma_patched_text_keeps_each_hunk(set.files@[i], source_lines(set.context_text(i)->0), k);
}

} // verus!
