//! What copying puts on the clipboard: the selected text of the diff, or a file's path.

use vstd::prelude::*;
use vstd::utf8::*;
use vstd::string::StringExecFns;
use vstd::string::StringSliceAdditionalSpecFns;

use crate::alignment::{aligned_rows, lemma_aligned_rows_bounds, lemma_segments_ok, HunkSegment};
use crate::diff::DiffFile;
use crate::file_meta::FileViewMeta;
use crate::rows::{
    lemma_pack_round_trip, unpack_diff_row_index, unpacked, ContextExpansion, ContextGap,
    DiffDisplayRow, DiffLayout, DiffRowIndex, NO_DIFF_ROW_INDEX,
};
use crate::stream::{
    before_hunk, count_at, diff_stream, file_packable, file_stream, files_packable, lines_rows,
    segments_of, trailing_gap, with_file_gap, with_hunks, with_segment, with_segments, RowStream,
};
use crate::selection::{
    header_range, lemma_header_range_either_direction, lemma_row_range_either_direction,
    ordered_points, row_range, HeaderTextSelection, TextLane, TextSelection,
};
use crate::text::owned_substring;

verus! {

/// The line that a lane of a row shows, by file, hunk and index within the hunk: the one
/// line of a unified row, or a side of a split row that has a line there.
pub open spec fn lane_line(row: DiffDisplayRow, lane: TextLane) -> Option<(int, int, int)> {
    match row {
        DiffDisplayRow::Unified { file_index, hunk_index, row_index, .. } => if lane
            == TextLane::Unified {
            Some((file_index as int, hunk_index as int, row_index as int))
        } else {
            None
        },
        DiffDisplayRow::Split { file_index, hunk_index, old_line_index, new_line_index } => {
            let side = if lane == TextLane::Old {
                unpacked(old_line_index)
            } else if lane == TextLane::New {
                unpacked(new_line_index)
            } else {
                None
            };
            match side {
                Some(i) => Some((file_index as int, hunk_index as int, i as int)),
                None => None,
            }
        },
        _ => None,
    }
}

/// Whether `at` names a line of a well-formed hunk of the files.
pub open spec fn names_line(files: Seq<DiffFile>, at: (int, int, int)) -> bool {
    &&& 0 <= at.0 < files.len()
    &&& 0 <= at.1 < files[at.0].hunks@.len()
    &&& 0 <= at.2 < files[at.0].hunks@[at.1].lines@.len()
    &&& files[at.0].hunks@[at.1].wf()
}

/// Every line that a row shows is a line of the files.
pub open spec fn rows_show_lines(rows: Seq<DiffDisplayRow>, files: Seq<DiffFile>) -> bool {
    forall|d: int, lane: TextLane|
        0 <= d < rows.len() && (#[trigger] lane_line(rows[d], lane)) is Some ==> names_line(
            files,
            lane_line(rows[d], lane)->0,
        )
}

/// The bytes of the line that the lane of row `d` shows, if it shows one.
pub open spec fn row_bytes(rows: Seq<DiffDisplayRow>, files: Seq<DiffFile>, d: int, lane: TextLane) -> Option<Seq<u8>> {
    if 0 <= d < rows.len() {
        match lane_line(rows[d], lane) {
            Some(at) => {
                let h = files[at.0].hunks@[at.1];
                Some(h.lines@[at.2].bytes_in(h.text()))
            },
            None => None,
        }
    } else {
        None
    }
}

/// The text of the line that a lane of a row shows, as `row_bytes` gives its bytes.
pub fn text_content<'a>(rows: &DiffRowIndex, files: &'a [DiffFile], display_index: usize, lane: TextLane) -> (r: Option<&'a str>)
    requires
        rows.wf(),
        rows_show_lines(rows@, files@),
    ensures
        match r {
            Some(s) => row_bytes(rows@, files@, display_index as int, lane) == Some(s.spec_bytes()),
            None => row_bytes(rows@, files@, display_index as int, lane) is None,
        },
{
    let row = match rows.get(display_index) {
        Some(row) => row,
        None => return None,
    };
    let ghost d = display_index as int;
    let (file_index, hunk_index, line_index) = match row {
        DiffDisplayRow::Unified { file_index, hunk_index, row_index, .. } => {
            if lane != TextLane::Unified {
                return None;
            }
            (file_index, hunk_index, row_index as usize)
        },
        DiffDisplayRow::Split { file_index, hunk_index, old_line_index, new_line_index } => {
            let side = match lane {
                TextLane::Old => unpack_diff_row_index(old_line_index),
                TextLane::New => unpack_diff_row_index(new_line_index),
                TextLane::Unified => return None,
            };
            match side {
                Some(i) => (file_index, hunk_index, i),
                None => return None,
            }
        },
        _ => return None,
    };
    proof {
        assert(lane_line(rows@[d], lane) == Some(
            (file_index as int, hunk_index as int, line_index as int),
        ));
        assert(names_line(files@, lane_line(rows@[d], lane)->0));
    }
    let hunk = &files[file_index as usize].hunks[hunk_index as usize];
    Some(hunk.line_content(&hunk.lines[line_index]))
}

/// The row shows no line in any lane.
spec fn shows_no_line(row: DiffDisplayRow) -> bool {
    forall|lane: TextLane| (#[trigger] lane_line(row, lane)) is None
}

proof fn lemma_push_no_line(rows: Seq<DiffDisplayRow>, row: DiffDisplayRow, files: Seq<DiffFile>)
    requires
        rows_show_lines(rows, files),
        shows_no_line(row),
    ensures
        rows_show_lines(rows.push(row), files),
{
    assert forall|d: int, lane: TextLane|
        0 <= d < rows.push(row).len() && (#[trigger] lane_line(rows.push(row)[d], lane)) is Some implies names_line(
        files,
        lane_line(rows.push(row)[d], lane)->0,
    ) by {
        if d < rows.len() {
            assert(rows.push(row)[d] == rows[d]);
        } else {
            assert(rows.push(row)[d] == row);
            assert(lane_line(row, lane) is None);
        }
    }
}

proof fn lemma_concat_lines(a: Seq<DiffDisplayRow>, b: Seq<DiffDisplayRow>, files: Seq<DiffFile>)
    requires
        rows_show_lines(a, files),
        rows_show_lines(b, files),
    ensures
        rows_show_lines(a + b, files),
{
    assert forall|d: int, lane: TextLane|
        0 <= d < (a + b).len() && (#[trigger] lane_line((a + b)[d], lane)) is Some implies names_line(
        files,
        lane_line((a + b)[d], lane)->0,
    ) by {
        if d < a.len() {
            assert((a + b)[d] == a[d]);
        } else {
            assert((a + b)[d] == b[d - a.len()]);
            assert(lane_line(b[d - a.len()], lane) is Some);
        }
    }
}

/// Whether hunk `h` of file `f` can have its lines shown by rows: both are there, the hunk
/// is well formed, and every index fits where the rows pack it.
spec fn shown_hunk(files: Seq<DiffFile>, f: usize, h: usize) -> bool {
    &&& f < files.len()
    &&& h < files[f as int].hunks@.len()
    &&& files[f as int].hunks@[h as int].wf()
    &&& f < NO_DIFF_ROW_INDEX
    &&& h < NO_DIFF_ROW_INDEX
    &&& files[f as int].hunks@[h as int].lines@.len() < NO_DIFF_ROW_INDEX
}

proof fn lemma_lines_rows_show(files: Seq<DiffFile>, f: usize, h: usize, layout: DiffLayout, r: std::ops::Range<usize>)
    requires
        shown_hunk(files, f, h),
        r.start <= r.end <= files[f as int].hunks@[h as int].lines@.len(),
    ensures
        rows_show_lines(lines_rows(f, h, files[f as int].hunks@[h as int].lines@, layout, r), files),
{
    let lines = files[f as int].hunks@[h as int].lines@;
    let rows = lines_rows(f, h, lines, layout, r);
    match layout {
        DiffLayout::Split => {
            lemma_aligned_rows_bounds(lines, r.start as int, r.end as int);
            assert forall|d: int, lane: TextLane|
                0 <= d < rows.len() && (#[trigger] lane_line(rows[d], lane)) is Some implies names_line(
                files,
                lane_line(rows[d], lane)->0,
            ) by {
                let pair = aligned_rows(lines, r.start as int, r.end as int)[d];
                lemma_pack_round_trip(pair.0);
                lemma_pack_round_trip(pair.1);
            }
        },
        DiffLayout::Unified => {},
    }
}

proof fn lemma_segments_show(
    st: RowStream,
    files: Seq<DiffFile>,
    f: usize,
    h: usize,
    layout: DiffLayout,
    segs: Seq<HunkSegment>,
)
    requires
        shown_hunk(files, f, h),
        rows_show_lines(st.rows, files),
        forall|q: int|
            0 <= q < segs.len() ==> (#[trigger] segs[q] matches HunkSegment::Lines(r) ==> r.start
                <= r.end <= files[f as int].hunks@[h as int].lines@.len()),
    ensures
        rows_show_lines(with_segments(st, f, h, files[f as int].hunks@[h as int].lines@, layout, segs).rows, files),
    decreases segs.len(),
{
    let lines = files[f as int].hunks@[h as int].lines@;
    if segs.len() > 0 {
        let init = segs.drop_last();
        assert forall|q: int| 0 <= q < init.len() implies (#[trigger] init[q] matches HunkSegment::Lines(r)
            ==> r.start <= r.end <= lines.len()) by {
            assert(init[q] == segs[q]);
        }
        lemma_segments_show(st, files, f, h, layout, init);
        let mid = with_segments(st, f, h, lines, layout, init);
        let last = segs.last();
        assert(last == segs[segs.len() - 1]);
        match last {
            HunkSegment::Lines(r) => {
                lemma_lines_rows_show(files, f, h, layout, r);
                lemma_concat_lines(mid.rows, lines_rows(f, h, lines, layout, r), files);
            },
            HunkSegment::Gap { gap, hidden } => {
                let row = with_segment(mid, f, h, lines, layout, last).rows.last();
                assert(with_segment(mid, f, h, lines, layout, last).rows == mid.rows.push(row));
                lemma_push_no_line(mid.rows, row, files);
            },
        }
    }
}

proof fn lemma_hunks_show(
    st: RowStream,
    files: Seq<DiffFile>,
    f: usize,
    layout: DiffLayout,
    exps: Seq<(ContextGap, ContextExpansion)>,
    count: Option<u32>,
    n: int,
)
    requires
        f < files.len(),
        f < NO_DIFF_ROW_INDEX,
        file_packable(files[f as int], f, count),
        files[f as int].hunks_wf(),
        0 <= n <= files[f as int].hunks@.len(),
        rows_show_lines(st.rows, files),
    ensures
        rows_show_lines(with_hunks(st, files[f as int], f, layout, exps, count, n).rows, files),
    decreases n,
{
    let file = files[f as int];
    if n > 0 {
        lemma_hunks_show(st, files, f, layout, exps, count, n - 1);
        let prev = with_hunks(st, file, f, layout, exps, count, n - 1);
        let before = before_hunk(prev, file, f, n - 1, count);
        assert(rows_show_lines(before.rows, files)) by {
            if before.rows.len() > prev.rows.len() {
                let row = before.rows.last();
                assert(before.rows == prev.rows.push(row));
                lemma_push_no_line(prev.rows, row, files);
            } else {
                assert(before.rows == prev.rows);
            }
        }
        let h = (n - 1) as usize;
        let lines = file.hunks@[n - 1].lines@;
        assert(file.hunks@[n - 1].wf());
        assert(shown_hunk(files, f, h));
        let segs = segments_of(file, f, n - 1, exps, count);
        lemma_segments_ok(f, h, lines, exps, 0, 0);
        assert forall|q: int| 0 <= q < segs.len() implies (#[trigger] segs[q] matches HunkSegment::Lines(r)
            ==> r.start <= r.end <= lines.len()) by {}
        lemma_segments_show(before, files, f, h, layout, segs);
    }
}

proof fn lemma_file_stream_shows(
    files: Seq<DiffFile>,
    f: usize,
    layout: DiffLayout,
    exps: Seq<(ContextGap, ContextExpansion)>,
    count: Option<u32>,
    gaps: Seq<ContextGap>,
)
    requires
        f < files.len(),
        f < NO_DIFF_ROW_INDEX,
        file_packable(files[f as int], f, count),
        files[f as int].hunks_wf(),
    ensures
        rows_show_lines(file_stream(files[f as int], f, layout, exps, count, gaps).rows, files),
{
    let file = files[f as int];
    let st0 = RowStream { rows: seq![], gaps };
    lemma_hunks_show(st0, files, f, layout, exps, count, file.hunks@.len() as int);
    let body = with_hunks(st0, file, f, layout, exps, count, file.hunks@.len() as int);
    let tail = match count {
        Some(c) => if file.hunks@.len() > 0 {
            with_file_gap(body, trailing_gap(file, f, c))
        } else {
            body
        },
        None => body,
    };
    assert(rows_show_lines(tail.rows, files)) by {
        if tail.rows.len() > body.rows.len() {
            let row = tail.rows.last();
            assert(tail.rows == body.rows.push(row));
            lemma_push_no_line(body.rows, row, files);
        } else {
            assert(tail.rows == body.rows);
        }
    }
    if tail.rows.len() == 0 {
        lemma_push_no_line(seq![], DiffDisplayRow::Empty { file_index: f as u32 }, files);
        assert(seq![DiffDisplayRow::Empty { file_index: f as u32 }] =~= Seq::<DiffDisplayRow>::empty().push(
            DiffDisplayRow::Empty { file_index: f as u32 },
        ));
    }
}

/// Every row of the diff view that shows a line shows a line of the diff it was built
/// from: its file, its hunk and its line are there, so its text can be read and copied.
pub proof fn lemma_diff_rows_show_lines(
    files: Seq<DiffFile>,
    layout: DiffLayout,
    collapsed: Set<usize>,
    exps: Seq<(ContextGap, ContextExpansion)>,
    counts: Seq<Option<u32>>,
    n: int,
)
    requires
        files_packable(files, counts),
        forall|i: int| 0 <= i < files.len() ==> (#[trigger] files[i]).hunks_wf(),
        0 <= n <= files.len(),
    ensures
        rows_show_lines(diff_stream(files, layout, collapsed, exps, counts, n).rows, files),
    decreases n,
{
    if n > 0 {
        lemma_diff_rows_show_lines(files, layout, collapsed, exps, counts, n - 1);
        let ds = diff_stream(files, layout, collapsed, exps, counts, n - 1);
        let f = (n - 1) as usize;
        let rows = if n - 1 > 0 && !collapsed.contains((n - 2) as usize) {
            ds.rows.push(DiffDisplayRow::FileGap)
        } else {
            ds.rows
        };
        if rows.len() > ds.rows.len() {
            lemma_push_no_line(ds.rows, DiffDisplayRow::FileGap, files);
        }
        let with_header = rows.push(DiffDisplayRow::FileHeader { file_index: f as u32 });
        lemma_push_no_line(rows, DiffDisplayRow::FileHeader { file_index: f as u32 }, files);
        if !collapsed.contains(f) {
            assert(files_packable(files, counts));
            assert(file_packable(files[n - 1], f, count_at(counts, n - 1)));
            lemma_file_stream_shows(files, f, layout, exps, count_at(counts, n - 1), ds.gaps);
            lemma_concat_lines(
                with_header,
                file_stream(files[n - 1], f, layout, exps, count_at(counts, n - 1), ds.gaps).rows,
                files,
            );
        }
    }
}

/// The lines joined with `'\n'` between them.
pub open spec fn joined_by_newlines(p: Seq<Seq<char>>) -> Seq<char>
    decreases p.len(),
{
    if p.len() == 0 {
        seq![]
    } else if p.len() == 1 {
        p[0]
    } else {
        joined_by_newlines(p.drop_last()) + seq!['\n'] + p.last()
    }
}

/// The lane a selection runs in: that of its earlier end.
pub open spec fn selection_lane(s: TextSelection) -> TextLane {
    ordered_points(s).0.lane
}

/// The selected part of each of the rows `from..to` that shows a line in the selection's
/// lane and has a part selected, in order.
pub open spec fn selection_pieces(
    rows: Seq<DiffDisplayRow>,
    files: Seq<DiffFile>,
    s: TextSelection,
    from: int,
    to: int,
) -> Seq<Seq<char>>
    decreases to - from,
{
    if to <= from {
        seq![]
    } else {
        let before = selection_pieces(rows, files, s, from, to - 1);
        let d = to - 1;
        match row_bytes(rows, files, d, selection_lane(s)) {
            Some(b) => match row_range(s, d as usize, selection_lane(s), b.len() as usize) {
                Some(rg) => before.push(decode_utf8(b.subrange(rg.start as int, rg.end as int))),
                None => before,
            },
            None => before,
        }
    }
}

/// Whether every selected part of a row starts and ends between characters.
pub open spec fn selection_on_boundaries(rows: Seq<DiffDisplayRow>, files: Seq<DiffFile>, s: TextSelection) -> bool {
    let (start, end) = ordered_points(s);
    forall|d: int|
        start.display_index <= d <= end.display_index ==> match #[trigger] row_bytes(
            rows,
            files,
            d,
            selection_lane(s),
        ) {
            Some(b) => match row_range(s, d as usize, selection_lane(s), b.len() as usize) {
                Some(rg) => is_char_boundary(b, rg.start as int) && is_char_boundary(
                    b,
                    rg.end as int,
                ),
                None => true,
            },
            None => true,
        }
}

/// The selected part of a file header's path, if the file is there and a part is selected.
pub open spec fn header_piece(metas: Seq<FileViewMeta>, h: HeaderTextSelection) -> Option<Seq<char>> {
    if h.file_index < metas.len() {
        let b = encode_utf8(metas[h.file_index as int].header_path@);
        match header_range(h.anchor, h.head, b.len() as usize) {
            Some(rg) => Some(decode_utf8(b.subrange(rg.start as int, rg.end as int))),
            None => None,
        }
    } else {
        None
    }
}

/// Whether the selected part of a file header's path starts and ends between characters.
pub open spec fn header_on_boundaries(metas: Seq<FileViewMeta>, h: HeaderTextSelection) -> bool {
    h.file_index < metas.len() ==> {
        let b = encode_utf8(metas[h.file_index as int].header_path@);
        match header_range(h.anchor, h.head, b.len() as usize) {
            Some(rg) => is_char_boundary(b, rg.start as int) && is_char_boundary(b, rg.end as int),
            None => true,
        }
    }
}

/// What copying the selection gives: a header selection copies the selected part of that
/// header's path; otherwise a non-empty selection of code copies the selected part of each
/// row it covers, joined with `'\n'`; nothing is copied when nothing is selected.
pub open spec fn copied_selection(
    rows: Seq<DiffDisplayRow>,
    files: Seq<DiffFile>,
    metas: Seq<FileViewMeta>,
    header: Option<HeaderTextSelection>,
    text: Option<TextSelection>,
) -> Option<Seq<char>> {
    match header {
        Some(h) => header_piece(metas, h),
        None => match text {
            None => None,
            Some(s) => if s.anchor == s.head {
                None
            } else {
                let (start, end) = ordered_points(s);
                let p = selection_pieces(
                    rows,
                    files,
                    s,
                    start.display_index as int,
                    end.display_index + 1,
                );
                if p.len() == 0 {
                    None
                } else {
                    Some(joined_by_newlines(p))
                }
            },
        },
    }
}

/// The text that copying the selection puts on the clipboard, as `copied_selection`
/// describes it.
pub fn selected_text(
    rows: &DiffRowIndex,
    files: &[DiffFile],
    metas: &[FileViewMeta],
    header: Option<HeaderTextSelection>,
    text: Option<TextSelection>,
) -> (r: Option<String>)
    requires
        rows.wf(),
        rows_show_lines(rows@, files@),
        header matches Some(h) ==> header_on_boundaries(metas@, h),
        text matches Some(s) ==> selection_on_boundaries(rows@, files@, s),
    ensures
        match r {
            Some(t) => copied_selection(rows@, files@, metas@, header, text) == Some(t@),
            None => copied_selection(rows@, files@, metas@, header, text) is None,
        },
{
    if let Some(h) = header {
        if h.file_index >= metas.len() {
            return None;
        }
        let path = metas[h.file_index].header_path.as_str();
        let range = h.range(path.len());
        proof {
            lemma_header_range_either_direction(h.anchor, h.head, path.spec_bytes().len() as usize);
        }
        return match range {
            Some(rg) => Some(owned_substring(path, rg.start, rg.end)),
            None => None,
        };
    }
    let s = match text {
        Some(s) => s,
        None => return None,
    };
    if s.anchor == s.head {
        return None;
    }
    proof {
        reveal_strlit("\n");
    }
    let (start, end) = s.ordered();
    let lane = start.lane;
    let mut out = String::new();
    let mut any = false;
    let mut d = start.display_index;
    let ghost from = start.display_index as int;
    loop
        invariant_except_break
            any == (selection_pieces(rows@, files@, s, from, d as int).len() > 0),
            any ==> out@ == joined_by_newlines(selection_pieces(rows@, files@, s, from, d as int)),
            !any ==> out@ == Seq::<char>::empty(),
        invariant
            rows.wf(),
            rows_show_lines(rows@, files@),
            selection_on_boundaries(rows@, files@, s),
            (start, end) == ordered_points(s),
            lane == selection_lane(s),
            from == start.display_index,
            "\n"@ == seq!['\n'],
            start.display_index <= d <= end.display_index,
        ensures
            any == (selection_pieces(rows@, files@, s, from, end.display_index + 1).len() > 0),
            any ==> out@ == joined_by_newlines(
                selection_pieces(rows@, files@, s, from, end.display_index + 1),
            ),
        decreases end.display_index - d,
    {
        let ghost before = selection_pieces(rows@, files@, s, from, d as int);
        let content = text_content(rows, files, d, lane);
        if let Some(content) = content {
            let range = s.range_for(d, lane, content.len());
            if let Some(rg) = range {
                proof {
                    lemma_row_range_either_direction(s, d, lane, content.spec_bytes().len() as usize);
                    assert(row_bytes(rows@, files@, d as int, selection_lane(s)) == Some(
                        content.spec_bytes(),
                    ));
                }
                let piece = owned_substring(content, rg.start, rg.end);
                if any {
                    out.append("\n");
                }
                out.append(piece.as_str());
                proof {
                    let after = before.push(piece@);
                    assert(selection_pieces(rows@, files@, s, from, d + 1) == after);
                    if before.len() == 0 {
                        assert(out@ =~= joined_by_newlines(after));
                    } else {
                        assert(after.drop_last() =~= before);
                        assert(out@ =~= joined_by_newlines(after));
                    }
                }
                any = true;
            } else {
                proof {
                    assert(selection_pieces(rows@, files@, s, from, d + 1) == before);
                }
            }
        } else {
            proof {
                assert(selection_pieces(rows@, files@, s, from, d + 1) == before);
            }
        }
        if d == end.display_index {
            break;
        }
        d += 1;
    }
    if any {
        Some(out)
    } else {
        None
    }
}

/// Which path of a file a copy takes.
#[derive(Clone, Copy, Debug, PartialEq, Eq, Structural)]
pub enum CopyPathKind {
    /// The path relative to the repository, or the shown path where there is none.
    Shown,
    /// The absolute path.
    Absolute,
    /// The path relative to the repository.
    Relative,
}

/// The path of file `file_index` that a copy of the given kind takes, if the file is there
/// and has such a path.
pub open spec fn copied_path(metas: Seq<FileViewMeta>, file_index: int, kind: CopyPathKind) -> Option<Seq<char>> {
    if 0 <= file_index < metas.len() {
        let m = metas[file_index];
        match kind {
            CopyPathKind::Shown => match m.relative_path {
                Some(p) => Some(p@),
                None => Some(m.display_path@),
            },
            CopyPathKind::Absolute => match m.absolute_path {
                Some(p) => Some(p@),
                None => None,
            },
            CopyPathKind::Relative => match m.relative_path {
                Some(p) => Some(p@),
                None => None,
            },
        }
    } else {
        None
    }
}

/// The path that copying a file's path puts on the clipboard, as `copied_path` describes it.
pub fn path_to_copy(metas: &[FileViewMeta], file_index: usize, kind: CopyPathKind) -> (r: Option<String>)
    ensures
        match r {
            Some(p) => copied_path(metas@, file_index as int, kind) == Some(p@),
            None => copied_path(metas@, file_index as int, kind) is None,
        },
{
    if file_index >= metas.len() {
        return None;
    }
    let m = &metas[file_index];
    let chosen: Option<&String> = match kind {
        CopyPathKind::Shown => match &m.relative_path {
            Some(p) => Some(p),
            None => Some(&m.display_path),
        },
        CopyPathKind::Absolute => match &m.absolute_path {
            Some(p) => Some(p),
            None => None,
        },
        CopyPathKind::Relative => match &m.relative_path {
            Some(p) => Some(p),
            None => None,
        },
    };
    match chosen {
        Some(p) => Some(p.as_str().to_owned()),
        None => None,
    }
}

} // verus!
