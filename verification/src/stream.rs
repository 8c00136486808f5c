//! One stream of rows for the whole diff: each file's header, then its hunks with hidden
//! context folded into separators, files apart by a gap row.

use vstd::prelude::*;
use std::collections::HashSet;

use crate::alignment::{
    aligned_rows, align_line_indices, counterpart, hunk_end, hunk_end_of, hunk_segments,
    lemma_aligned_rows_bounds, lemma_counterpart_symmetric, lemma_segments_alternate,
    lemma_segments_ok, paired_line_indices,
    segments_from, HunkSegment,
};
use crate::diff::DiffFile;
use crate::diff::DiffLine;
use crate::rows::{
    carries_on, file_of, height_of, lemma_run_breaks_concat, lemma_run_breaks_push_plain,
    pack_diff_row_index, run_breaks, split_row, unified_row, ContextExpansion, ContextGap,
    ContextGapPosition, ContextGapSource, DiffDisplayRow, DiffLayout, DiffRowIndex,
    NO_DIFF_ROW_INDEX,
};

verus! {

/// The rows so far, and the gaps recorded so far.
pub struct RowStream {
    pub rows: Seq<DiffDisplayRow>,
    pub gaps: Seq<ContextGap>,
}

/// Neither the rows nor the gaps got fewer.
pub open spec fn grows(a: RowStream, b: RowStream) -> bool {
    a.rows.len() <= b.rows.len() && a.gaps.len() <= b.gaps.len()
}

/// A separator for a gap, the gap recorded after the gaps before it.
pub open spec fn with_gap(st: RowStream, gap: ContextGap, hidden: int) -> RowStream {
    RowStream {
        rows: st.rows.push(
            DiffDisplayRow::Separator {
                file_index: gap.file_index as u32,
                hidden: hidden as u32,
                gap_index: st.gaps.len() as u32,
                position: Some(gap.position),
            },
        ),
        gaps: st.gaps.push(gap),
    }
}

/// The number of lines a gap hides.
pub open spec fn gap_size(gap: ContextGap) -> int {
    if gap.end >= gap.start {
        gap.end - gap.start
    } else {
        0
    }
}

/// A gap of the file's old text, recorded only when it hides a line.
pub open spec fn with_file_gap(st: RowStream, gap: ContextGap) -> RowStream {
    if gap_size(gap) == 0 {
        st
    } else {
        with_gap(st, gap, gap_size(gap))
    }
}

/// The rows that show lines `r` of a hunk: side by side, or one column with each line's counterpart.
pub open spec fn lines_rows(
    file_index: usize,
    hunk_index: usize,
    lines: Seq<DiffLine>,
    layout: DiffLayout,
    r: std::ops::Range<usize>,
) -> Seq<DiffDisplayRow> {
    match layout {
        DiffLayout::Split => aligned_rows(lines, r.start as int, r.end as int).map_values(
            |p: (Option<usize>, Option<usize>)| split_row(file_index, hunk_index, p),
        ),
        DiffLayout::Unified => Seq::new(
            (r.end - r.start) as nat,
            |i: int| unified_row(file_index, hunk_index, r.start + i, counterpart(lines, r.start + i)),
        ),
    }
}

/// The rows of one segment of a hunk.
pub open spec fn with_segment(
    st: RowStream,
    file_index: usize,
    hunk_index: usize,
    lines: Seq<DiffLine>,
    layout: DiffLayout,
    seg: HunkSegment,
) -> RowStream {
    match seg {
        HunkSegment::Lines(r) => RowStream {
            rows: st.rows + lines_rows(file_index, hunk_index, lines, layout, r),
            gaps: st.gaps,
        },
        HunkSegment::Gap { gap, hidden } => with_gap(st, gap, hidden as int),
    }
}

/// The rows of the segments of a hunk, in order.
pub open spec fn with_segments(
    st: RowStream,
    file_index: usize,
    hunk_index: usize,
    lines: Seq<DiffLine>,
    layout: DiffLayout,
    segs: Seq<HunkSegment>,
) -> RowStream
    decreases segs.len(),
{
    if segs.len() == 0 {
        st
    } else {
        with_segment(
            with_segments(st, file_index, hunk_index, lines, layout, segs.drop_last()),
            file_index,
            hunk_index,
            lines,
            layout,
            segs.last(),
        )
    }
}

/// The gap of old lines before the first hunk, when the old text is known.
pub open spec fn leading_gap(file: DiffFile, file_index: usize) -> ContextGap {
    let hunk = file.hunks@[0];
    let hidden = hunk.old_start - 1;
    ContextGap {
        file_index,
        hunk_index: 0,
        start: 0,
        end: hidden as usize,
        position: ContextGapPosition::Leading,
        source: ContextGapSource::File {
            old_start: 1,
            new_start: hunk.new_start.saturating_sub(hidden as u32),
        },
    }
}

/// The old lines between hunk `hunk_index - 1` and hunk `hunk_index`.
pub open spec fn middle_gap(file: DiffFile, file_index: usize, hunk_index: int) -> ContextGap {
    let previous = file.hunks@[hunk_index - 1];
    let old_start = hunk_end_of(previous, true).saturating_add(1);
    let new_start = hunk_end_of(previous, false).saturating_add(1);
    ContextGap {
        file_index,
        hunk_index: (hunk_index - 1) as usize,
        start: 0,
        end: file.hunks@[hunk_index].old_start.saturating_sub(old_start) as usize,
        position: ContextGapPosition::Middle,
        source: ContextGapSource::File { old_start, new_start },
    }
}

/// The old lines after the last hunk, up to the end of an old text of `count` lines.
pub open spec fn trailing_gap(file: DiffFile, file_index: usize, count: u32) -> ContextGap {
    let last = file.hunks@.last();
    let old_start = hunk_end_of(last, true).saturating_add(1);
    ContextGap {
        file_index,
        hunk_index: (file.hunks@.len() - 1) as usize,
        start: 0,
        end: count.saturating_sub(old_start.saturating_sub(1)) as usize,
        position: ContextGapPosition::Trailing,
        source: ContextGapSource::File {
            old_start,
            new_start: hunk_end_of(last, false).saturating_add(1),
        },
    }
}

/// What comes before a hunk: for the first, the old lines before it when the old text is
/// known; between hunks, the old lines between them, or, when the old text is not known,
/// a plain separator for the lines skipped.
pub open spec fn before_hunk(
    st: RowStream,
    file: DiffFile,
    file_index: usize,
    hunk_index: int,
    old_line_count: Option<u32>,
) -> RowStream {
    if hunk_index == 0 && old_line_count is Some && file.hunks@[0].old_start > 1 {
        with_file_gap(st, leading_gap(file, file_index))
    } else if hunk_index > 0 {
        let gap = middle_gap(file, file_index, hunk_index);
        if old_line_count is Some {
            with_file_gap(st, gap)
        } else if gap.end > 0 {
            RowStream {
                rows: st.rows.push(
                    DiffDisplayRow::Separator {
                        file_index: file_index as u32,
                        hidden: gap.end as u32,
                        gap_index: NO_DIFF_ROW_INDEX,
                        position: None,
                    },
                ),
                gaps: st.gaps,
            }
        } else {
            st
        }
    } else {
        st
    }
}

/// The segments a hunk is laid out in: all its lines when the old text is known (its
/// context then grows from the file), else as `segments_from` folds its context.
pub open spec fn segments_of(
    file: DiffFile,
    file_index: usize,
    hunk_index: int,
    exps: Seq<(ContextGap, ContextExpansion)>,
    old_line_count: Option<u32>,
) -> Seq<HunkSegment> {
    let lines = file.hunks@[hunk_index].lines@;
    if old_line_count is Some {
        seq![HunkSegment::Lines(std::ops::Range { start: 0usize, end: lines.len() as usize })]
    } else {
        segments_from(file_index, hunk_index as usize, lines, exps, 0, 0)
    }
}

/// The rows of one hunk, what comes before it included.
pub open spec fn with_hunk(
    st: RowStream,
    file: DiffFile,
    file_index: usize,
    hunk_index: int,
    layout: DiffLayout,
    exps: Seq<(ContextGap, ContextExpansion)>,
    old_line_count: Option<u32>,
) -> RowStream {
    with_segments(
        before_hunk(st, file, file_index, hunk_index, old_line_count),
        file_index,
        hunk_index as usize,
        file.hunks@[hunk_index].lines@,
        layout,
        segments_of(file, file_index, hunk_index, exps, old_line_count),
    )
}

/// The rows of the first `n` hunks.
pub open spec fn with_hunks(
    st: RowStream,
    file: DiffFile,
    file_index: usize,
    layout: DiffLayout,
    exps: Seq<(ContextGap, ContextExpansion)>,
    old_line_count: Option<u32>,
    n: int,
) -> RowStream
    decreases n,
{
    if n <= 0 {
        st
    } else {
        with_hunk(
            with_hunks(st, file, file_index, layout, exps, old_line_count, n - 1),
            file,
            file_index,
            n - 1,
            layout,
            exps,
            old_line_count,
        )
    }
}

/// The rows of a file's body, after the gaps recorded so far: its hunks, the old lines
/// after the last one when the old text is known, or one empty row when nothing shows.
pub open spec fn file_stream(
    file: DiffFile,
    file_index: usize,
    layout: DiffLayout,
    exps: Seq<(ContextGap, ContextExpansion)>,
    old_line_count: Option<u32>,
    gaps: Seq<ContextGap>,
) -> RowStream {
    let body = with_hunks(
        RowStream { rows: seq![], gaps },
        file,
        file_index,
        layout,
        exps,
        old_line_count,
        file.hunks@.len() as int,
    );
    let tail = match old_line_count {
        Some(count) => if file.hunks@.len() > 0 {
            with_file_gap(body, trailing_gap(file, file_index, count))
        } else {
            body
        },
        None => body,
    };
    if tail.rows.len() == 0 {
        RowStream { rows: seq![DiffDisplayRow::Empty { file_index: file_index as u32 }], gaps: tail.gaps }
    } else {
        tail
    }
}

/// The indices of a file fit where the rows pack them.
pub open spec fn file_packable(file: DiffFile, file_index: usize, old_line_count: Option<u32>) -> bool {
    &&& file_index < NO_DIFF_ROW_INDEX
    &&& file.hunks@.len() < NO_DIFF_ROW_INDEX
    &&& forall|h: int| 0 <= h < file.hunks@.len() ==> (#[trigger] file.hunks@[h]).lines@.len() < NO_DIFF_ROW_INDEX
    &&& !(old_line_count matches Some(c) && c == u32::MAX)
}

proof fn lemma_segments_grow(
    st: RowStream,
    file_index: usize,
    hunk_index: usize,
    lines: Seq<DiffLine>,
    layout: DiffLayout,
    segs: Seq<HunkSegment>,
    k: int,
)
    requires
        0 <= k <= segs.len(),
    ensures
        grows(st, with_segments(st, file_index, hunk_index, lines, layout, segs.take(k))),
        grows(
            with_segments(st, file_index, hunk_index, lines, layout, segs.take(k)),
            with_segments(st, file_index, hunk_index, lines, layout, segs),
        ),
    decreases segs.len() - k,
{
    if k < segs.len() {
        lemma_segments_grow(st, file_index, hunk_index, lines, layout, segs, k + 1);
        assert(segs.take(k + 1).drop_last() =~= segs.take(k));
        lemma_segments_grow_whole(st, file_index, hunk_index, lines, layout, segs.take(k));
    } else {
        assert(segs.take(k) =~= segs);
        lemma_segments_grow_whole(st, file_index, hunk_index, lines, layout, segs);
    }
}

proof fn lemma_segments_grow_whole(
    st: RowStream,
    file_index: usize,
    hunk_index: usize,
    lines: Seq<DiffLine>,
    layout: DiffLayout,
    segs: Seq<HunkSegment>,
)
    ensures
        grows(st, with_segments(st, file_index, hunk_index, lines, layout, segs)),
    decreases segs.len(),
{
    if segs.len() > 0 {
        lemma_segments_grow_whole(st, file_index, hunk_index, lines, layout, segs.drop_last());
    }
}

proof fn lemma_hunks_grow(
    st: RowStream,
    file: DiffFile,
    file_index: usize,
    layout: DiffLayout,
    exps: Seq<(ContextGap, ContextExpansion)>,
    old_line_count: Option<u32>,
    k: int,
    n: int,
)
    requires
        0 <= k <= n,
    ensures
        grows(
            with_hunks(st, file, file_index, layout, exps, old_line_count, k),
            with_hunks(st, file, file_index, layout, exps, old_line_count, n),
        ),
    decreases n - k,
{
    if k < n {
        lemma_hunks_grow(st, file, file_index, layout, exps, old_line_count, k, n - 1);
        let prev = with_hunks(st, file, file_index, layout, exps, old_line_count, n - 1);
        let before = before_hunk(prev, file, file_index, n - 1, old_line_count);
        lemma_segments_grow_whole(
            before,
            file_index,
            (n - 1) as usize,
            file.hunks@[n - 1].lines@,
            layout,
            segments_of(file, file_index, n - 1, exps, old_line_count),
        );
    }
}

/// Records a gap of the file's old text with its separator, when it hides a line.
pub fn push_file_context_gap(rows: &mut DiffRowIndex, context_gaps: &mut Vec<ContextGap>, gap: ContextGap)
    requires
        old(rows).wf(),
        gap.file_index < NO_DIFF_ROW_INDEX,
        gap_size(gap) < NO_DIFF_ROW_INDEX,
        gap_size(gap) > 0 ==> old(rows)@.len() < usize::MAX && old(context_gaps)@.len() < NO_DIFF_ROW_INDEX,
    ensures
        final(rows).wf(),
        (RowStream { rows: final(rows)@, gaps: final(context_gaps)@ }) == with_file_gap(
            RowStream { rows: old(rows)@, gaps: old(context_gaps)@ },
            gap,
        ),
        old(rows).chunk_starts_at() == run_breaks(old(rows)@) ==> final(rows).chunk_starts_at()
            == run_breaks(final(rows)@),
        final(rows)@ == old(rows)@ || (final(rows)@.len() > 0 && final(rows)@.last() is Separator),
{
    let hidden = gap.end.saturating_sub(gap.start);
    if hidden == 0 {
        return;
    }
    let ghost before = rows@;
    let gap_index = pack_diff_row_index(context_gaps.len());
    context_gaps.push(gap);
    let row = DiffDisplayRow::Separator {
        file_index: pack_diff_row_index(gap.file_index),
        hidden: pack_diff_row_index(hidden),
        gap_index,
        position: Some(gap.position),
    };
    rows.push_single(row);
    proof {
        lemma_run_breaks_push_plain(before, row);
    }
}

/// Whether a row is no line row of hunk `h` or of a later one.
spec fn before_hunk_rows(row: DiffDisplayRow, h: int) -> bool {
    match row {
        DiffDisplayRow::Split { hunk_index, .. } => hunk_index < h,
        DiffDisplayRow::Unified { hunk_index, .. } => hunk_index < h,
        _ => true,
    }
}

/// Whether the last of the rows, if any, is no line row of hunk `h` or a later one.
spec fn ends_before_hunk(rows: Seq<DiffDisplayRow>, h: int) -> bool {
    rows.len() == 0 || before_hunk_rows(rows.last(), h)
}

/// Appends the rows of hunk `hunk_index` of the file, what comes before it included.
fn push_hunk(
    rows: &mut DiffRowIndex,
    context_gaps: &mut Vec<ContextGap>,
    file: &DiffFile,
    file_index: usize,
    hunk_index: usize,
    layout: DiffLayout,
    context_expansions: &[(ContextGap, ContextExpansion)],
    old_line_count: Option<u32>,
)
    requires
        old(rows).wf(),
        file_packable(*file, file_index, old_line_count),
        hunk_index < file.hunks@.len(),
        ({
            let fin = with_hunk(
                RowStream { rows: old(rows)@, gaps: old(context_gaps)@ },
                *file,
                file_index,
                hunk_index as int,
                layout,
                context_expansions@,
                old_line_count,
            );
            fin.rows.len() <= usize::MAX && fin.gaps.len() <= NO_DIFF_ROW_INDEX
        }),
        old(rows).chunk_starts_at() == run_breaks(old(rows)@),
        ends_before_hunk(old(rows)@, hunk_index as int),
    ensures
        final(rows).chunk_starts_at() == run_breaks(final(rows)@),
        ends_before_hunk(final(rows)@, hunk_index + 1),
        final(rows).wf(),
        (RowStream { rows: final(rows)@, gaps: final(context_gaps)@ }) == with_hunk(
            RowStream { rows: old(rows)@, gaps: old(context_gaps)@ },
            *file,
            file_index,
            hunk_index as int,
            layout,
            context_expansions@,
            old_line_count,
        ),
{
    let ghost st0 = RowStream { rows: rows@, gaps: context_gaps@ };
    let ghost exps = context_expansions@;
    let ghost before = before_hunk(st0, *file, file_index, hunk_index as int, old_line_count);
    let ghost segs = segments_of(*file, file_index, hunk_index as int, exps, old_line_count);
    let hunk = &file.hunks[hunk_index];
    let ghost lines = hunk.lines@;
    let ghost fin = with_segments(before, file_index, hunk_index, lines, layout, segs);
    proof {
        lemma_segments_grow_whole(before, file_index, hunk_index, lines, layout, segs);
        assert(hunk.lines@.len() < NO_DIFF_ROW_INDEX);
    }
    if hunk_index == 0 && old_line_count.is_some() && hunk.old_start > 1 {
        let hidden = hunk.old_start - 1;
        push_file_context_gap(
            rows,
            context_gaps,
            ContextGap {
                file_index,
                hunk_index,
                start: 0,
                end: hidden as usize,
                position: ContextGapPosition::Leading,
                source: ContextGapSource::File {
                    old_start: 1,
                    new_start: hunk.new_start.saturating_sub(hidden),
                },
            },
        );
    } else if hunk_index > 0 {
        let previous = &file.hunks[hunk_index - 1];
        let old_start = hunk_end(previous, true).saturating_add(1);
        let new_start = hunk_end(previous, false).saturating_add(1);
        let hidden = hunk.old_start.saturating_sub(old_start);
        if old_line_count.is_some() {
            push_file_context_gap(
                rows,
                context_gaps,
                ContextGap {
                    file_index,
                    hunk_index: hunk_index - 1,
                    start: 0,
                    end: hidden as usize,
                    position: ContextGapPosition::Middle,
                    source: ContextGapSource::File { old_start, new_start },
                },
            );
        } else if hidden > 0 {
            let ghost r0 = rows@;
            let row = DiffDisplayRow::Separator {
                file_index: pack_diff_row_index(file_index),
                hidden,
                gap_index: NO_DIFF_ROW_INDEX,
                position: None,
            };
            rows.push_single(row);
            proof {
                lemma_run_breaks_push_plain(r0, row);
            }
        }
    }
    assert((RowStream { rows: rows@, gaps: context_gaps@ }) == before);
    let counterparts: Vec<Option<usize>> = if layout == DiffLayout::Unified {
        paired_line_indices(hunk)
    } else {
        Vec::new()
    };
    let segments: Vec<HunkSegment> = if old_line_count.is_some() {
        vec![HunkSegment::Lines(0..hunk.lines.len())]
    } else {
        hunk_segments(file_index, hunk_index, hunk, context_expansions)
    };
    proof {
        if old_line_count.is_some() {
            assert(segments@ =~= segs);
        }
        lemma_segments_ok(file_index, hunk_index, lines, exps, 0, 0);
        lemma_segments_alternate(file_index, hunk_index, lines, exps, 0, 0);
        assert(lines.len() <= usize::MAX);
    }
    let mut k: usize = 0;
    while k < segments.len()
        invariant
            rows.wf(),
            lines == hunk.lines@,
            lines.len() < NO_DIFF_ROW_INDEX,
            file_index < NO_DIFF_ROW_INDEX,
            hunk_index < NO_DIFF_ROW_INDEX,
            segments@ == segs,
            layout == DiffLayout::Unified ==> (counterparts@.len() == lines.len() && forall|i: int|
                0 <= i < lines.len() ==> #[trigger] counterparts@[i] == counterpart(lines, i)),
            forall|q: int|
                0 <= q < segs.len() ==> match #[trigger] segs[q] {
                    HunkSegment::Lines(r) => r.start <= r.end <= lines.len(),
                    HunkSegment::Gap { gap, hidden } => hidden <= lines.len() && gap.file_index == file_index,
                },
            fin == with_segments(before, file_index, hunk_index, lines, layout, segs),
            fin.rows.len() <= usize::MAX,
            fin.gaps.len() <= NO_DIFF_ROW_INDEX,
            k <= segs.len(),
            rows.chunk_starts_at() == run_breaks(rows@),
            ends_before_hunk(rows@, hunk_index + 1),
            ends_before_hunk(rows@, hunk_index as int) || (k > 0 && segs[k - 1] is Lines),
            forall|q: int| 0 < q < segs.len() && #[trigger] segs[q] is Lines ==> segs[q - 1] is Gap,
            (RowStream { rows: rows@, gaps: context_gaps@ }) == with_segments(
                before,
                file_index,
                hunk_index,
                lines,
                layout,
                segs.take(k as int),
            ),
        decreases segs.len() - k,
    {
        proof {
            lemma_segments_grow(before, file_index, hunk_index, lines, layout, segs, k + 1);
            assert(segs.take(k + 1).drop_last() =~= segs.take(k as int));
            assert(segs.take(k + 1).last() == segs[k as int]);
        }
        match &segments[k] {
            HunkSegment::Lines(range) => {
                let s = range.start;
                let e = range.end;
                match layout {
                    DiffLayout::Split => {
                        let split_rows = align_line_indices(hunk.lines.as_slice(), s..e);
                        proof {
                            lemma_aligned_rows_bounds(lines, s as int, e as int);
                        }
                        let ghost r0 = rows@;
                        proof {
                            if k > 0 {
                                assert(segs[k - 1] is Gap);
                            }
                        }
                        rows.push_split(file_index, hunk_index, split_rows.as_slice());
                        proof {
                            let added = split_rows@.map_values(
                                |p: (Option<usize>, Option<usize>)| split_row(file_index, hunk_index, p),
                            );
                            if r0.len() > 0 && added.len() > 0 {
                                assert(added[0] == split_row(file_index, hunk_index, split_rows@[0]));
                                assert(!carries_on(r0.last(), added[0]));
                            }
                            lemma_run_breaks_concat(r0, added);
                            if added.len() > 0 {
                                assert(rows@.last() == added.last());
                                assert(added.last() == split_row(file_index, hunk_index, split_rows@[added.len() - 1]));
                            } else {
                                assert(rows@ =~= r0);
                            }
                            assert(split_rows@.map_values(
                                |p: (Option<usize>, Option<usize>)| split_row(file_index, hunk_index, p),
                            ) =~= lines_rows(file_index, hunk_index, lines, layout, s..e));
                        }
                    },
                    DiffLayout::Unified => {
                        proof {
                            assert forall|i: int| 0 <= i < counterparts@.len() implies (
                            #[trigger] counterparts@[i]).unwrap_or(0) < NO_DIFF_ROW_INDEX by {
                                if counterpart(lines, i) is Some {
                                    lemma_counterpart_symmetric(lines, i);
                                }
                            }
                        }
                        let ghost r0 = rows@;
                        proof {
                            if k > 0 {
                                assert(segs[k - 1] is Gap);
                            }
                        }
                        rows.push_unified(file_index, hunk_index, s..e, counterparts.as_slice());
                        proof {
                            let added = Seq::new(
                                (e - s) as nat,
                                |i: int| unified_row(file_index, hunk_index, s + i, counterparts@[s + i]),
                            );
                            if r0.len() > 0 && added.len() > 0 {
                                assert(!carries_on(r0.last(), added[0]));
                            }
                            lemma_run_breaks_concat(r0, added);
                            if added.len() > 0 {
                                assert(rows@.last() == added.last());
                            } else {
                                assert(rows@ =~= r0);
                            }
                            assert(Seq::new(
                                (e - s) as nat,
                                |i: int| unified_row(file_index, hunk_index, s + i, counterparts@[s + i]),
                            ) =~= lines_rows(file_index, hunk_index, lines, layout, s..e));
                        }
                    },
                }
            },
            HunkSegment::Gap { gap, hidden } => {
                let gap_index = pack_diff_row_index(context_gaps.len());
                context_gaps.push(*gap);
                let ghost r0 = rows@;
                let row = DiffDisplayRow::Separator {
                    file_index: pack_diff_row_index(file_index),
                    hidden: pack_diff_row_index(*hidden),
                    gap_index,
                    position: Some(gap.position),
                };
                rows.push_single(row);
                proof {
                    lemma_run_breaks_push_plain(r0, row);
                }
            },
        }
        k += 1;
    }
    proof {
        assert(segs.take(k as int) =~= segs);
    }
}

/// The rows of a file's body, as `file_stream` describes them; gaps found are recorded
/// after those in `context_gaps`.
pub fn build_file_diff_rows_with_context(
    file: &DiffFile,
    file_index: usize,
    layout: DiffLayout,
    context_expansions: &[(ContextGap, ContextExpansion)],
    context_gaps: &mut Vec<ContextGap>,
    old_line_count: Option<u32>,
) -> (r: DiffRowIndex)
    requires
        file_packable(*file, file_index, old_line_count),
        file_stream(*file, file_index, layout, context_expansions@, old_line_count, old(context_gaps)@).rows.len() <= usize::MAX,
        file_stream(*file, file_index, layout, context_expansions@, old_line_count, old(context_gaps)@).gaps.len() <= NO_DIFF_ROW_INDEX,
    ensures
        r.wf(),
        (RowStream { rows: r@, gaps: final(context_gaps)@ }) == file_stream(
            *file,
            file_index,
            layout,
            context_expansions@,
            old_line_count,
            old(context_gaps)@,
        ),
        r.chunk_starts_at() == run_breaks(r@),
{
    let ghost exps = context_expansions@;
    let ghost st0 = RowStream { rows: seq![], gaps: context_gaps@ };
    let ghost n = file.hunks@.len() as int;
    let ghost body = with_hunks(st0, *file, file_index, layout, exps, old_line_count, n);
    let ghost fin = file_stream(*file, file_index, layout, exps, old_line_count, context_gaps@);
    proof {
        if old_line_count is Some && n > 0 {
            assert(grows(body, fin));
        }
    }
    let mut rows = DiffRowIndex::new();
    let mut hunk_index: usize = 0;
    while hunk_index < file.hunks.len()
        invariant
            rows.wf(),
            file_packable(*file, file_index, old_line_count),
            exps == context_expansions@,
            n == file.hunks@.len(),
            body == with_hunks(st0, *file, file_index, layout, exps, old_line_count, n),
            grows(body, fin),
            fin.rows.len() <= usize::MAX,
            fin.gaps.len() <= NO_DIFF_ROW_INDEX,
            hunk_index <= n,
            rows.chunk_starts_at() == run_breaks(rows@),
            ends_before_hunk(rows@, hunk_index as int),
            (RowStream { rows: rows@, gaps: context_gaps@ }) == with_hunks(
                st0,
                *file,
                file_index,
                layout,
                exps,
                old_line_count,
                hunk_index as int,
            ),
        decreases n - hunk_index,
    {
        proof {
            lemma_hunks_grow(st0, *file, file_index, layout, exps, old_line_count, hunk_index + 1, n);
        }
        push_hunk(
            &mut rows,
            context_gaps,
            file,
            file_index,
            hunk_index,
            layout,
            context_expansions,
            old_line_count,
        );
        hunk_index += 1;
    }
    match old_line_count {
        Some(count) => {
            if file.hunks.len() > 0 {
                let last = &file.hunks[file.hunks.len() - 1];
                let old_start = hunk_end(last, true).saturating_add(1);
                let hidden = count.saturating_sub(old_start.saturating_sub(1));
                push_file_context_gap(
                    &mut rows,
                    context_gaps,
                    ContextGap {
                        file_index,
                        hunk_index: file.hunks.len() - 1,
                        start: 0,
                        end: hidden as usize,
                        position: ContextGapPosition::Trailing,
                        source: ContextGapSource::File {
                            old_start,
                            new_start: hunk_end(last, false).saturating_add(1),
                        },
                    },
                );
            }
        },
        None => {},
    }
    if rows.is_empty() {
        let ghost empty = rows@;
        rows.push_single(DiffDisplayRow::Empty { file_index: pack_diff_row_index(file_index) });
        proof {
            assert(rows@ =~= seq![DiffDisplayRow::Empty { file_index: file_index as u32 }]);
            lemma_run_breaks_push_plain(empty, DiffDisplayRow::Empty { file_index: file_index as u32 });
        }
    }
    rows
}

/// The rows of all files, where each file's header sits, and the gaps recorded.
pub struct DiffStream {
    pub rows: Seq<DiffDisplayRow>,
    pub file_starts: Seq<usize>,
    pub gaps: Seq<ContextGap>,
}

/// The old text's line count of file `i`, when it is known.
pub open spec fn count_at(counts: Seq<Option<u32>>, i: int) -> Option<u32> {
    if 0 <= i < counts.len() {
        counts[i]
    } else {
        None
    }
}

/// File `file_index` added to the stream: a gap row after a previous file that is not
/// collapsed, the file's header, and its body unless the file is collapsed.
pub open spec fn with_file(
    ds: DiffStream,
    files: Seq<DiffFile>,
    file_index: int,
    layout: DiffLayout,
    collapsed: Set<usize>,
    exps: Seq<(ContextGap, ContextExpansion)>,
    counts: Seq<Option<u32>>,
) -> DiffStream {
    let rows = if file_index > 0 && !collapsed.contains((file_index - 1) as usize) {
        ds.rows.push(DiffDisplayRow::FileGap)
    } else {
        ds.rows
    };
    let starts = ds.file_starts.push(rows.len() as usize);
    let with_header = rows.push(DiffDisplayRow::FileHeader { file_index: file_index as u32 });
    if collapsed.contains(file_index as usize) {
        DiffStream { rows: with_header, file_starts: starts, gaps: ds.gaps }
    } else {
        let body = file_stream(
            files[file_index],
            file_index as usize,
            layout,
            exps,
            count_at(counts, file_index),
            ds.gaps,
        );
        DiffStream { rows: with_header + body.rows, file_starts: starts, gaps: body.gaps }
    }
}

/// The stream of the first `n` files.
pub open spec fn diff_stream(
    files: Seq<DiffFile>,
    layout: DiffLayout,
    collapsed: Set<usize>,
    exps: Seq<(ContextGap, ContextExpansion)>,
    counts: Seq<Option<u32>>,
    n: int,
) -> DiffStream
    decreases n,
{
    if n <= 0 {
        DiffStream { rows: seq![], file_starts: seq![], gaps: seq![] }
    } else {
        with_file(diff_stream(files, layout, collapsed, exps, counts, n - 1), files, n - 1, layout, collapsed, exps, counts)
    }
}

/// Every file's indices fit where the rows pack them.
pub open spec fn files_packable(files: Seq<DiffFile>, counts: Seq<Option<u32>>) -> bool {
    &&& files.len() < NO_DIFF_ROW_INDEX
    &&& forall|i: int| 0 <= i < files.len() ==> file_packable(#[trigger] files[i], i as usize, count_at(counts, i))
}

proof fn lemma_file_stream_grows(
    file: DiffFile,
    file_index: usize,
    layout: DiffLayout,
    exps: Seq<(ContextGap, ContextExpansion)>,
    count: Option<u32>,
    gaps: Seq<ContextGap>,
)
    ensures
        gaps.len() <= file_stream(file, file_index, layout, exps, count, gaps).gaps.len(),
{
    let st0 = RowStream { rows: seq![], gaps };
    lemma_hunks_grow(st0, file, file_index, layout, exps, count, 0, file.hunks@.len() as int);
}

proof fn lemma_diff_stream_grows(
    files: Seq<DiffFile>,
    layout: DiffLayout,
    collapsed: Set<usize>,
    exps: Seq<(ContextGap, ContextExpansion)>,
    counts: Seq<Option<u32>>,
    k: int,
    n: int,
)
    requires
        0 <= k <= n,
    ensures
        diff_stream(files, layout, collapsed, exps, counts, k).rows.len() <= diff_stream(files, layout, collapsed, exps, counts, n).rows.len(),
        diff_stream(files, layout, collapsed, exps, counts, k).gaps.len() <= diff_stream(files, layout, collapsed, exps, counts, n).gaps.len(),
    decreases n - k,
{
    if k < n {
        lemma_diff_stream_grows(files, layout, collapsed, exps, counts, k, n - 1);
        let prev = diff_stream(files, layout, collapsed, exps, counts, n - 1);
        lemma_file_stream_grows(files[n - 1], (n - 1) as usize, layout, exps, count_at(counts, n - 1), prev.gaps);
    }
}

/// The rows of all files in one stream, as `diff_stream` describes it: the rows, where each
/// file's header sits, and the gaps recorded.
pub fn build_diff_rows_with_context(
    files: &[DiffFile],
    layout: DiffLayout,
    collapsed_files: &HashSet<usize>,
    context_expansions: &[(ContextGap, ContextExpansion)],
    old_line_counts: &[Option<u32>],
) -> (r: (DiffRowIndex, Vec<usize>, Vec<ContextGap>))
    requires
        files_packable(files@, old_line_counts@),
        diff_stream(files@, layout, collapsed_files@, context_expansions@, old_line_counts@, files@.len() as int).rows.len() <= usize::MAX,
        diff_stream(files@, layout, collapsed_files@, context_expansions@, old_line_counts@, files@.len() as int).gaps.len() <= NO_DIFF_ROW_INDEX,
    ensures
        r.0.wf(),
        (DiffStream { rows: r.0@, file_starts: r.1@, gaps: r.2@ }) == diff_stream(
            files@,
            layout,
            collapsed_files@,
            context_expansions@,
            old_line_counts@,
            files@.len() as int,
        ),
        r.0.chunk_starts_at() == run_breaks(r.0@),
{
    broadcast use vstd::std_specs::hash::group_hash_axioms;

    let ghost collapsed = collapsed_files@;
    let ghost exps = context_expansions@;
    let ghost counts = old_line_counts@;
    let ghost n = files@.len() as int;
    let ghost fin = diff_stream(files@, layout, collapsed, exps, counts, n);
    let mut rows = DiffRowIndex::new();
    let mut context_gaps: Vec<ContextGap> = Vec::new();
    let mut file_row_indices: Vec<usize> = Vec::new();
    let mut file_index: usize = 0;
    while file_index < files.len()
        invariant
            rows.wf(),
            collapsed == collapsed_files@,
            exps == context_expansions@,
            counts == old_line_counts@,
            n == files@.len(),
            files_packable(files@, counts),
            fin == diff_stream(files@, layout, collapsed, exps, counts, n),
            fin.rows.len() <= usize::MAX,
            fin.gaps.len() <= NO_DIFF_ROW_INDEX,
            file_index <= n,
            rows.chunk_starts_at() == run_breaks(rows@),
            (DiffStream { rows: rows@, file_starts: file_row_indices@, gaps: context_gaps@ }) == diff_stream(
                files@,
                layout,
                collapsed,
                exps,
                counts,
                file_index as int,
            ),
        decreases n - file_index,
    {
        let ghost ds = diff_stream(files@, layout, collapsed, exps, counts, file_index as int);
        let ghost next = with_file(ds, files@, file_index as int, layout, collapsed, exps, counts);
        let ghost count = count_at(counts, file_index as int);
        proof {
            lemma_diff_stream_grows(files@, layout, collapsed, exps, counts, file_index + 1, n);
            assert(file_packable(files@[file_index as int], file_index, count));
        }
        if file_index > 0 && !collapsed_files.contains(&(file_index - 1)) {
            let ghost r0 = rows@;
            rows.push_single(DiffDisplayRow::FileGap);
            proof {
                lemma_run_breaks_push_plain(r0, DiffDisplayRow::FileGap);
            }
        }
        file_row_indices.push(rows.len());
        let ghost r1 = rows@;
        rows.push_single(DiffDisplayRow::FileHeader { file_index: pack_diff_row_index(file_index) });
        proof {
            lemma_run_breaks_push_plain(r1, DiffDisplayRow::FileHeader { file_index: file_index as u32 });
        }
        if !collapsed_files.contains(&file_index) {
            let olc = if file_index < old_line_counts.len() {
                old_line_counts[file_index]
            } else {
                None
            };
            let ghost before = rows@;
            let body = build_file_diff_rows_with_context(
                &files[file_index],
                file_index,
                layout,
                context_expansions,
                &mut context_gaps,
                olc,
            );
            let ghost b = body@;
            rows.extend(body);
            proof {
                lemma_run_breaks_concat(before, b);
                assert(rows@ =~= before + b);
            }
        }
        file_index += 1;
    }
    (rows, file_row_indices, context_gaps)
}

/// The rows of all files, no file's old text known.
pub fn build_diff_rows(
    files: &[DiffFile],
    layout: DiffLayout,
    collapsed_files: &HashSet<usize>,
    context_expansions: &[(ContextGap, ContextExpansion)],
) -> (r: (DiffRowIndex, Vec<usize>, Vec<ContextGap>))
    requires
        files_packable(files@, seq![]),
        diff_stream(files@, layout, collapsed_files@, context_expansions@, seq![], files@.len() as int).rows.len() <= usize::MAX,
        diff_stream(files@, layout, collapsed_files@, context_expansions@, seq![], files@.len() as int).gaps.len() <= NO_DIFF_ROW_INDEX,
    ensures
        r.0.wf(),
        (DiffStream { rows: r.0@, file_starts: r.1@, gaps: r.2@ }) == diff_stream(
            files@,
            layout,
            collapsed_files@,
            context_expansions@,
            seq![],
            files@.len() as int,
        ),
        r.0.chunk_starts_at() == run_breaks(r.0@),
{
    let none: Vec<Option<u32>> = Vec::new();
    assert(none@ =~= Seq::<Option<u32>>::empty());
    build_diff_rows_with_context(files, layout, collapsed_files, context_expansions, none.as_slice())
}

/// The rows of one file's body, its old text not known.
pub fn build_file_diff_rows(
    file: &DiffFile,
    file_index: usize,
    layout: DiffLayout,
    context_expansions: &[(ContextGap, ContextExpansion)],
    context_gaps: &mut Vec<ContextGap>,
) -> (r: DiffRowIndex)
    requires
        file_packable(*file, file_index, None),
        file_stream(*file, file_index, layout, context_expansions@, None, old(context_gaps)@).rows.len() <= usize::MAX,
        file_stream(*file, file_index, layout, context_expansions@, None, old(context_gaps)@).gaps.len() <= NO_DIFF_ROW_INDEX,
    ensures
        r.wf(),
        (RowStream { rows: r@, gaps: final(context_gaps)@ }) == file_stream(
            *file,
            file_index,
            layout,
            context_expansions@,
            None,
            old(context_gaps)@,
        ),
        r.chunk_starts_at() == run_breaks(r@),
{
    build_file_diff_rows_with_context(file, file_index, layout, context_expansions, context_gaps, None)
}

/// The total height of the first `i` rows.
pub open spec fn height_sum(rows: Seq<DiffDisplayRow>, i: int) -> int
    decreases i,
{
    if i <= 0 {
        0
    } else {
        height_sum(rows, i - 1) + height_of(rows[i - 1])
    }
}

/// Where each row starts and where the last one ends: the heights summed so far.
pub open spec fn offsets_of(rows: Seq<DiffDisplayRow>) -> Seq<u64> {
    Seq::new(rows.len() + 1, |i: int| height_sum(rows, i) as u64)
}

proof fn lemma_height_sum_monotone(rows: Seq<DiffDisplayRow>, i: int, j: int)
    requires
        0 <= i <= j,
    ensures
        height_sum(rows, i) <= height_sum(rows, j),
    decreases j - i,
{
    if i < j {
        lemma_height_sum_monotone(rows, i, j - 1);
    }
}

/// The offset of every row, and of the end, as `offsets_of` describes them.
pub fn row_offsets(rows: &DiffRowIndex) -> (r: Vec<u64>)
    requires
        rows.wf(),
        height_sum(rows@, rows@.len() as int) <= u64::MAX,
    ensures
        r@ == offsets_of(rows@),
{
    let all = rows.iter();
    let ghost v = all@;
    let mut offsets: Vec<u64> = Vec::new();
    let mut total: u64 = 0;
    offsets.push(total);
    let mut i: usize = 0;
    while i < all.len()
        invariant
            v == all@,
            v == rows@,
            height_sum(v, v.len() as int) <= u64::MAX,
            i <= v.len(),
            total == height_sum(v, i as int),
            offsets@.len() == i + 1,
            forall|k: int| 0 <= k <= i ==> #[trigger] offsets@[k] == height_sum(v, k) as u64,
        decreases v.len() - i,
    {
        proof {
            lemma_height_sum_monotone(v, i + 1, v.len() as int);
        }
        total = total + all[i].height();
        offsets.push(total);
        i += 1;
    }
    assert(offsets@ =~= offsets_of(rows@));
    offsets
}

/// Whether the values never go down.
pub open spec fn nondecreasing(s: Seq<usize>) -> bool {
    forall|a: int, b: int| 0 <= a <= b < s.len() ==> s[a] <= s[b]
}

/// Whether the offsets never go down.
pub open spec fn offsets_nondecreasing(s: Seq<u64>) -> bool {
    forall|a: int, b: int| 0 <= a <= b < s.len() ==> s[a] <= s[b]
}

/// Where the body of file `file_index` ends: where the next file starts, or at the end.
pub open spec fn body_end(file_starts: Seq<usize>, file_index: int, len: int) -> int {
    if file_index + 1 < file_starts.len() {
        file_starts[file_index + 1] as int
    } else {
        len
    }
}

/// Whether `collapse_file_rows` takes out the body of the file: the lists agree in
/// length, the file is listed, its body is not empty and lies within the rows, and the
/// row index can cut there.
pub open spec fn collapses(
    rows: DiffRowIndex,
    layouts_len: int,
    offsets_len: int,
    file_starts: Seq<usize>,
    file_index: int,
) -> bool {
    let len = rows@.len() as int;
    &&& layouts_len == len
    &&& offsets_len == len + 1
    &&& 0 <= file_index < file_starts.len()
    &&& file_starts[file_index] < usize::MAX
    &&& file_starts[file_index] + 1 < body_end(file_starts, file_index, len)
    &&& body_end(file_starts, file_index, len) <= len
    &&& rows.chunk_boundaries().contains((file_starts[file_index] + 1) as usize)
    &&& (rows.chunk_boundaries().contains(body_end(file_starts, file_index, len) as usize)
        || body_end(file_starts, file_index, len) == len)
}

/// Takes out the body of file `file_index` (its rows after the header, up to the next file),
/// with its layouts and offsets; the later offsets and file starts move up by what was
/// removed. Answers the range removed, or `None` when `collapses` does not hold.
pub fn collapse_file_rows<L>(
    rows: &mut DiffRowIndex,
    layouts: &mut Vec<L>,
    offsets: &mut Vec<u64>,
    file_row_indices: &mut Vec<usize>,
    file_index: usize,
) -> (r: Option<std::ops::Range<usize>>)
    requires
        old(rows).wf(),
        offsets_nondecreasing(old(offsets)@),
        nondecreasing(old(file_row_indices)@),
    ensures
        final(rows).wf(),
        r is Some == collapses(*old(rows), old(layouts)@.len() as int, old(offsets)@.len() as int, old(file_row_indices)@, file_index as int),
        r is None ==> *final(rows) == *old(rows) && final(layouts)@ == old(layouts)@ && final(offsets)@ == old(offsets)@
            && final(file_row_indices)@ == old(file_row_indices)@,
        r matches Some(range) ==> {
            let start = range.start as int;
            let end = range.end as int;
            let starts = old(file_row_indices)@;
            let removed_height = old(offsets)@[end] - old(offsets)@[start];
            &&& start == starts[file_index as int] + 1
            &&& end == body_end(starts, file_index as int, old(rows)@.len() as int)
            &&& final(rows)@ == old(rows)@.subrange(0, start) + old(rows)@.subrange(end, old(rows)@.len() as int)
            &&& final(layouts)@ == old(layouts)@.subrange(0, start) + old(layouts)@.subrange(end, old(layouts)@.len() as int)
            &&& final(offsets)@.len() == old(offsets)@.len() - (end - start)
            &&& forall|i: int| 0 <= i <= start ==> #[trigger] final(offsets)@[i] == old(offsets)@[i]
            &&& forall|i: int| start < i < final(offsets)@.len() ==> #[trigger] final(offsets)@[i] == old(offsets)@[i + (end - start)] - removed_height
            &&& final(file_row_indices)@.len() == starts.len()
            &&& forall|j: int| 0 <= j <= file_index ==> #[trigger] final(file_row_indices)@[j] == starts[j]
            &&& forall|j: int| file_index < j < starts.len() ==> #[trigger] final(file_row_indices)@[j] == starts[j] - (end - start)
        },
{
    let ghost rows0 = rows@;
    let ghost starts = file_row_indices@;
    let ghost offs = offsets@;
    let len = rows.len();
    if layouts.len() != len || offsets.len() == 0 || offsets.len() - 1 != len {
        return None;
    }
    if file_index >= file_row_indices.len() {
        return None;
    }
    let header_index = file_row_indices[file_index];
    if header_index == usize::MAX {
        return None;
    }
    let start = header_index + 1;
    let end = if file_index + 1 < file_row_indices.len() {
        file_row_indices[file_index + 1]
    } else {
        len
    };
    if start >= end || end > len {
        return None;
    }
    let removed_height = offsets[end] - offsets[start];
    let removed_count = end - start;
    if !rows.drain(start, end) {
        return None;
    }
    let mut layout_tail = layouts.split_off(end);
    layouts.truncate(start);
    layouts.append(&mut layout_tail);
    let mut offset_tail = offsets.split_off(end + 1);
    offsets.truncate(start + 1);
    let mut k: usize = 0;
    let ghost kept = offsets@;
    while k < offset_tail.len()
        invariant
            offs == old(offsets)@,
            start < end <= len,
            offs.len() == len + 1,
            offsets_nondecreasing(offs),
            removed_height == offs[end as int] - offs[start as int],
            offset_tail@ == offs.subrange(end + 1, offs.len() as int),
            k <= offset_tail@.len(),
            offsets@.len() == start + 1 + k,
            forall|i: int| 0 <= i <= start ==> #[trigger] offsets@[i] == offs[i],
            forall|i: int| start < i < start + 1 + k ==> #[trigger] offsets@[i] == offs[i + (end - start)] - removed_height,
        decreases offset_tail@.len() - k,
    {
        proof {
            assert(offs[start as int] <= offs[end + 1 + k]);
        }
        offsets.push(offset_tail[k] - removed_height);
        k += 1;
    }
    let mut j = file_index + 1;
    while j < file_row_indices.len()
        invariant
            starts == old(file_row_indices)@,
            nondecreasing(starts),
            file_index < starts.len(),
            file_index + 1 < starts.len() ==> end == starts[file_index + 1],
            removed_count == end - start,
            start < end,
            file_index + 1 <= j <= starts.len(),
            file_row_indices@.len() == starts.len(),
            forall|q: int| 0 <= q < j ==> q <= file_index || #[trigger] file_row_indices@[q] == starts[q] - removed_count,
            forall|q: int| 0 <= q <= file_index ==> #[trigger] file_row_indices@[q] == starts[q],
            forall|q: int| j <= q < starts.len() ==> #[trigger] file_row_indices@[q] == starts[q],
        decreases starts.len() - j,
    {
        proof {
            assert(starts[file_index + 1] <= starts[j as int]);
        }
        let value = file_row_indices[j];
        file_row_indices.set(j, value - removed_count);
        j += 1;
    }
    Some(start..end)
}

/// A file that is not collapsed has a body: at least one row between its header and
/// where the next file starts (or the rows end).
proof fn lemma_open_bodies(
    files: Seq<DiffFile>,
    layout: DiffLayout,
    collapsed: Set<usize>,
    exps: Seq<(ContextGap, ContextExpansion)>,
    counts: Seq<Option<u32>>,
    n: int,
)
    requires
        files_packable(files, counts),
        forall|i: int| 0 <= i < files.len() ==> forall|h: int| 0 <= h < (#[trigger] files[i]).hunks@.len() ==> (#[trigger] files[i].hunks@[h]).lines@.len() <= usize::MAX,
        0 <= n <= files.len(),
        diff_stream(files, layout, collapsed, exps, counts, n).rows.len() <= usize::MAX,
    ensures
        ({
            let ds = diff_stream(files, layout, collapsed, exps, counts, n);
            forall|i: int|
                0 <= i < n && !collapsed.contains(i as usize) ==> #[trigger] ds.file_starts[i] + 1
                    < body_end(ds.file_starts, i, ds.rows.len() as int)
        }),
    decreases n,
{
    if n > 0 {
        lemma_diff_stream_grows(files, layout, collapsed, exps, counts, n - 1, n);
        lemma_open_bodies(files, layout, collapsed, exps, counts, n - 1);
        lemma_diff_stream_shape(files, layout, collapsed, exps, counts, n - 1);
        lemma_diff_stream_shape(files, layout, collapsed, exps, counts, n);
        let ds = diff_stream(files, layout, collapsed, exps, counts, n - 1);
        let nx = diff_stream(files, layout, collapsed, exps, counts, n);
        let fi = n - 1;
        let rows1 = if fi > 0 && !collapsed.contains((fi - 1) as usize) {
            ds.rows.push(DiffDisplayRow::FileGap)
        } else {
            ds.rows
        };
        let h = rows1.len() as int;
        assert(nx.file_starts == ds.file_starts.push(h as usize));
        assert(file_packable(files[fi], fi as usize, count_at(counts, fi)));
        if !collapsed.contains(fi as usize) {
            lemma_file_stream_of_file(files[fi], fi as usize, layout, exps, count_at(counts, fi), ds.gaps);
        }
        let len0 = ds.rows.len() as int;
        let len = nx.rows.len() as int;
        assert forall|i: int|
            0 <= i < n && !collapsed.contains(i as usize) implies #[trigger] nx.file_starts[i] + 1
            < body_end(nx.file_starts, i, len) by {
            if i < fi {
                assert(nx.file_starts[i] == ds.file_starts[i]);
                assert(ds.file_starts[i] + 1 < body_end(ds.file_starts, i, len0));
                if i + 1 < fi {
                    assert(nx.file_starts[i + 1] == ds.file_starts[i + 1]);
                } else {
                    assert(nx.file_starts[i + 1] == h);
                }
            }
        }
    }
}

/// Right after the rows are built, every file shown open can be collapsed: the lists
/// agree in length, its body is not empty, and chunks begin where its body starts and
/// where it ends (or the rows end there).
pub proof fn lemma_built_file_collapses(
    rows: DiffRowIndex,
    files: Seq<DiffFile>,
    layout: DiffLayout,
    collapsed: Set<usize>,
    exps: Seq<(ContextGap, ContextExpansion)>,
    counts: Seq<Option<u32>>,
    file_index: int,
)
    requires
        rows.wf(),
        files_packable(files, counts),
        forall|i: int| 0 <= i < files.len() ==> forall|h: int| 0 <= h < (#[trigger] files[i]).hunks@.len() ==> (#[trigger] files[i].hunks@[h]).lines@.len() <= usize::MAX,
        rows@ == diff_stream(files, layout, collapsed, exps, counts, files.len() as int).rows,
        0 <= file_index < files.len(),
        !collapsed.contains(file_index as usize),
    ensures
        collapses(
            rows,
            rows@.len() as int,
            rows@.len() + 1int,
            diff_stream(files, layout, collapsed, exps, counts, files.len() as int).file_starts,
            file_index,
        ),
{
    let n = files.len() as int;
    let ds = diff_stream(files, layout, collapsed, exps, counts, n);
    let len = rows@.len() as int;
    rows.lemma_len_fits();
    lemma_diff_stream_shape(files, layout, collapsed, exps, counts, n);
    lemma_open_bodies(files, layout, collapsed, exps, counts, n);
    let start = ds.file_starts[file_index] as int;
    let end = body_end(ds.file_starts, file_index, len);
    assert(start + 1 < end);
    if file_index + 1 < n {
        assert(ds.file_starts[file_index] < ds.file_starts[file_index + 1]);
        assert(ds.rows[ds.file_starts[file_index + 1] as int] == (DiffDisplayRow::FileHeader {
            file_index: (file_index + 1) as u32,
        }));
    }
    assert(end <= len);
    // The header row, and the next file's header, each fill a chunk by themselves.
    assert(rows@[start] == (DiffDisplayRow::FileHeader { file_index: file_index as u32 }));
    rows.lemma_lone_rows_cut(start);
    if end < len {
        rows.lemma_lone_rows_cut(end);
    }
}

/// Every row belongs to the file.
pub open spec fn rows_of_file(rows: Seq<DiffDisplayRow>, file_index: usize) -> bool {
    forall|k: int| 0 <= k < rows.len() ==> file_of(#[trigger] rows[k]) == Some(file_index)
}

proof fn lemma_segments_of_file(
    st: RowStream,
    file_index: usize,
    hunk_index: usize,
    lines: Seq<DiffLine>,
    layout: DiffLayout,
    segs: Seq<HunkSegment>,
)
    requires
        file_index < NO_DIFF_ROW_INDEX,
        rows_of_file(st.rows, file_index),
        forall|q: int|
            0 <= q < segs.len() ==> (#[trigger] segs[q] matches HunkSegment::Gap { gap, .. } ==> gap.file_index == file_index),
    ensures
        rows_of_file(with_segments(st, file_index, hunk_index, lines, layout, segs).rows, file_index),
    decreases segs.len(),
{
    if segs.len() > 0 {
        let init = segs.drop_last();
        assert forall|q: int| 0 <= q < init.len() implies (#[trigger] init[q] matches HunkSegment::Gap { gap, .. }
            ==> gap.file_index == file_index) by {
            assert(init[q] == segs[q]);
        }
        lemma_segments_of_file(st, file_index, hunk_index, lines, layout, init);
        let mid = with_segments(st, file_index, hunk_index, lines, layout, init);
        let last = segs.last();
        assert(last == segs[segs.len() - 1]);
        let out = with_segment(mid, file_index, hunk_index, lines, layout, last);
        match last {
            HunkSegment::Lines(r) => {
                let added = lines_rows(file_index, hunk_index, lines, layout, r);
                assert forall|k: int| 0 <= k < out.rows.len() implies file_of(#[trigger] out.rows[k]) == Some(file_index) by {
                    if k >= mid.rows.len() {
                        assert(out.rows[k] == added[k - mid.rows.len()]);
                    }
                }
            },
            HunkSegment::Gap { gap, hidden } => {
                assert forall|k: int| 0 <= k < out.rows.len() implies file_of(#[trigger] out.rows[k]) == Some(file_index) by {
                    if k < mid.rows.len() {
                        assert(out.rows[k] == mid.rows[k]);
                    }
                }
            },
        }
    }
}

proof fn lemma_hunks_of_file(
    st: RowStream,
    file: DiffFile,
    file_index: usize,
    layout: DiffLayout,
    exps: Seq<(ContextGap, ContextExpansion)>,
    count: Option<u32>,
    n: int,
)
    requires
        file_index < NO_DIFF_ROW_INDEX,
        0 <= n <= file.hunks@.len(),
        forall|h: int| 0 <= h < file.hunks@.len() ==> (#[trigger] file.hunks@[h]).lines@.len() <= usize::MAX,
        rows_of_file(st.rows, file_index),
    ensures
        rows_of_file(with_hunks(st, file, file_index, layout, exps, count, n).rows, file_index),
    decreases n,
{
    if n > 0 {
        lemma_hunks_of_file(st, file, file_index, layout, exps, count, n - 1);
        let prev = with_hunks(st, file, file_index, layout, exps, count, n - 1);
        let before = before_hunk(prev, file, file_index, n - 1, count);
        assert(rows_of_file(before.rows, file_index)) by {
            assert forall|k: int| 0 <= k < before.rows.len() implies file_of(#[trigger] before.rows[k]) == Some(file_index) by {
                if k < prev.rows.len() {
                    assert(before.rows[k] == prev.rows[k]);
                }
            }
        }
        let lines = file.hunks@[n - 1].lines@;
        let segs = segments_of(file, file_index, n - 1, exps, count);
        assert(lines.len() <= usize::MAX);
        lemma_segments_ok(file_index, (n - 1) as usize, lines, exps, 0, 0);
        assert forall|q: int| 0 <= q < segs.len() implies (#[trigger] segs[q] matches HunkSegment::Gap { gap, .. } ==> gap.file_index == file_index) by {
        }
        lemma_segments_of_file(before, file_index, (n - 1) as usize, lines, layout, segs);
    }
}

/// Every row of a file's body belongs to that file, and the body is never empty.
pub proof fn lemma_file_stream_of_file(
    file: DiffFile,
    file_index: usize,
    layout: DiffLayout,
    exps: Seq<(ContextGap, ContextExpansion)>,
    count: Option<u32>,
    gaps: Seq<ContextGap>,
)
    requires
        file_index < NO_DIFF_ROW_INDEX,
        forall|h: int| 0 <= h < file.hunks@.len() ==> (#[trigger] file.hunks@[h]).lines@.len() <= usize::MAX,
    ensures
        rows_of_file(file_stream(file, file_index, layout, exps, count, gaps).rows, file_index),
        file_stream(file, file_index, layout, exps, count, gaps).rows.len() > 0,
{
    let st0 = RowStream { rows: seq![], gaps };
    lemma_hunks_of_file(st0, file, file_index, layout, exps, count, file.hunks@.len() as int);
    let body = with_hunks(st0, file, file_index, layout, exps, count, file.hunks@.len() as int);
    match count {
        Some(c) => if file.hunks@.len() > 0 {
            let tail = with_file_gap(body, trailing_gap(file, file_index, c));
            assert forall|k: int| 0 <= k < tail.rows.len() implies file_of(#[trigger] tail.rows[k]) == Some(file_index) by {
                if k < body.rows.len() {
                    assert(tail.rows[k] == body.rows[k]);
                }
            }
        },
        None => {},
    }
}

/// The shape of the stream: one start per file, each at that file's header, in increasing
/// order; between a file's start and the next file's start every row belongs to that file,
/// but for a gap row just before the next file; a collapsed file shows its header alone,
/// and no gap row follows it.
#[verifier::spinoff_prover]
#[verifier::rlimit(60)]
pub proof fn lemma_diff_stream_shape(
    files: Seq<DiffFile>,
    layout: DiffLayout,
    collapsed: Set<usize>,
    exps: Seq<(ContextGap, ContextExpansion)>,
    counts: Seq<Option<u32>>,
    n: int,
)
    requires
        files_packable(files, counts),
        forall|i: int| 0 <= i < files.len() ==> forall|h: int| 0 <= h < (#[trigger] files[i]).hunks@.len() ==> (#[trigger] files[i].hunks@[h]).lines@.len() <= usize::MAX,
        0 <= n <= files.len(),
        diff_stream(files, layout, collapsed, exps, counts, n).rows.len() <= usize::MAX,
    ensures
        ({
            let ds = diff_stream(files, layout, collapsed, exps, counts, n);
            let len = ds.rows.len() as int;
            &&& ds.file_starts.len() == n
            &&& forall|i: int| 0 <= i < n ==> (#[trigger] ds.file_starts[i]) < len
            &&& forall|i: int| 0 <= i < n ==> ds.rows[#[trigger] ds.file_starts[i] as int] == (DiffDisplayRow::FileHeader { file_index: i as u32 })
            &&& forall|a: int, b: int| 0 <= a < b < n ==> ds.file_starts[a] < ds.file_starts[b]
            &&& forall|i: int, k: int|
                #![trigger ds.file_starts[i], ds.rows[k]]
                0 <= i < n && ds.file_starts[i] <= k < body_end(ds.file_starts, i, len) ==> (ds.rows[k] == DiffDisplayRow::FileGap
                    && i + 1 < n && k == body_end(ds.file_starts, i, len) - 1) || file_of(ds.rows[k]) == Some(i as usize)
            &&& forall|i: int|
                0 <= i < n && collapsed.contains(i as usize) ==> #[trigger] body_end(ds.file_starts, i, len) == ds.file_starts[i] + 1
        }),
    decreases n,
{
    if n > 0 {
        lemma_diff_stream_shape(files, layout, collapsed, exps, counts, n - 1);
        lemma_diff_stream_grows(files, layout, collapsed, exps, counts, n - 1, n);
        let ds = diff_stream(files, layout, collapsed, exps, counts, n - 1);
        let nx = diff_stream(files, layout, collapsed, exps, counts, n);
        let fi = n - 1;
        let gap_row = fi > 0 && !collapsed.contains((fi - 1) as usize);
        let rows1 = if gap_row {
            ds.rows.push(DiffDisplayRow::FileGap)
        } else {
            ds.rows
        };
        let h = rows1.len() as int;
        assert(nx.file_starts == ds.file_starts.push(h as usize));
        assert(nx.rows[h] == DiffDisplayRow::FileHeader { file_index: fi as u32 });
        assert(file_packable(files[fi], fi as usize, count_at(counts, fi)));
        if !collapsed.contains(fi as usize) {
            lemma_file_stream_of_file(files[fi], fi as usize, layout, exps, count_at(counts, fi), ds.gaps);
        }
        let len0 = ds.rows.len() as int;
        let len = nx.rows.len() as int;
        assert forall|i: int| 0 <= i < n implies nx.rows[#[trigger] nx.file_starts[i] as int] == (DiffDisplayRow::FileHeader { file_index: i as u32 }) by {
            if i < n - 1 {
                assert(nx.file_starts[i] == ds.file_starts[i]);
                assert(nx.rows[ds.file_starts[i] as int] == ds.rows[ds.file_starts[i] as int]);
            }
        }
        assert forall|i: int, k: int|
            #![trigger nx.file_starts[i], nx.rows[k]]
            0 <= i < n && nx.file_starts[i] <= k < body_end(nx.file_starts, i, len) implies (nx.rows[k] == DiffDisplayRow::FileGap
                && i + 1 < n && k == body_end(nx.file_starts, i, len) - 1) || file_of(nx.rows[k]) == Some(i as usize) by {
            if i < n - 1 {
                assert(nx.file_starts[i] == ds.file_starts[i]);
                if i + 1 < n - 1 {
                    assert(body_end(nx.file_starts, i, len) == body_end(ds.file_starts, i, len0));
                    assert(nx.rows[k] == ds.rows[k]);
                } else {
                    assert(body_end(nx.file_starts, i, len) == h);
                    if k < len0 {
                        assert(nx.rows[k] == ds.rows[k]);
                        assert(body_end(ds.file_starts, i, len0) == len0);
                    }
                }
            } else {
                if k > h {
                    let body = file_stream(files[fi], fi as usize, layout, exps, count_at(counts, fi), ds.gaps);
                    assert(nx.rows[k] == body.rows[k - h - 1]);
                }
            }
        }
        assert forall|i: int|
            0 <= i < n && collapsed.contains(i as usize) implies #[trigger] body_end(nx.file_starts, i, len) == nx.file_starts[i] + 1 by {
            if i < n - 1 {
                assert(nx.file_starts[i] == ds.file_starts[i]);
                if i + 1 < n - 1 {
                    assert(body_end(nx.file_starts, i, len) == body_end(ds.file_starts, i, len0));
                } else {
                    assert(body_end(ds.file_starts, i, len0) == len0);
                }
            }
        }
    }
}

/// Collapsing a file keeps the offsets those of the rows: when they were the running
/// heights of the rows before, they are the running heights of the rows after.
pub proof fn lemma_collapse_keeps_offsets(
    rows: Seq<DiffDisplayRow>,
    offsets: Seq<u64>,
    start: int,
    end: int,
    new_rows: Seq<DiffDisplayRow>,
    new_offsets: Seq<u64>,
)
    requires
        offsets == offsets_of(rows),
        height_sum(rows, rows.len() as int) <= u64::MAX,
        0 <= start < end <= rows.len(),
        new_rows == rows.subrange(0, start) + rows.subrange(end, rows.len() as int),
        new_offsets.len() == offsets.len() - (end - start),
        forall|i: int| 0 <= i <= start ==> #[trigger] new_offsets[i] == offsets[i],
        forall|i: int| start < i < new_offsets.len() ==> #[trigger] new_offsets[i] == offsets[i + (end - start)] - (offsets[end] - offsets[start]),
    ensures
        new_offsets == offsets_of(new_rows),
{
    let d = end - start;
    assert forall|i: int| 0 <= i <= start implies #[trigger] height_sum(new_rows, i) == height_sum(rows, i) by {
        lemma_height_sum_prefix(rows, new_rows, i);
    }
    assert forall|i: int| start <= i <= new_rows.len() implies #[trigger] height_sum(new_rows, i) == height_sum(rows, i + d) - (height_sum(rows, end) - height_sum(rows, start)) by {
        lemma_height_sum_shift(rows, new_rows, start, end, i);
    }
    assert forall|i: int| 0 <= i <= rows.len() implies #[trigger] height_sum(rows, i) <= u64::MAX by {
        lemma_height_sum_monotone(rows, i, rows.len() as int);
    }
    assert forall|i: int| 0 <= i < new_offsets.len() implies #[trigger] new_offsets[i] == offsets_of(new_rows)[i] by {
        if i <= start {
            assert(height_sum(new_rows, i) == height_sum(rows, i));
            assert(height_sum(rows, i) <= u64::MAX);
            assert(offsets_of(new_rows)[i] == height_sum(new_rows, i) as u64);
            assert(offsets[i] == height_sum(rows, i) as u64);
            assert(new_offsets[i] == offsets_of(new_rows)[i]);
        } else {
            lemma_height_sum_monotone(rows, start, end);
            lemma_height_sum_monotone(rows, end, i + d);
            assert(height_sum(rows, i + d) <= u64::MAX);
            assert(height_sum(rows, end) <= u64::MAX);
            assert(offsets[i + d] == height_sum(rows, i + d) as u64);
            assert(offsets[end] == height_sum(rows, end) as u64);
            assert(offsets[start] == height_sum(rows, start) as u64);
            assert(height_sum(new_rows, i) == height_sum(rows, i + d) - (height_sum(rows, end) - height_sum(rows, start)));
            lemma_height_sum_monotone(new_rows, 0, i);
            assert(0 <= height_sum(new_rows, i) <= u64::MAX);
            assert(offsets_of(new_rows)[i] == height_sum(new_rows, i) as u64);
            assert(new_offsets[i] == offsets[i + d] - (offsets[end] - offsets[start]));
            lemma_height_sum_monotone(rows, 0, start);
            assert(height_sum(rows, i + d) as u64 == height_sum(rows, i + d));
            assert(height_sum(rows, end) as u64 == height_sum(rows, end));
            assert(height_sum(rows, start) as u64 == height_sum(rows, start));
            assert(height_sum(new_rows, i) as u64 == height_sum(new_rows, i));
            assert(new_offsets[i] == offsets_of(new_rows)[i]);
        }
    }
    assert(new_offsets =~= offsets_of(new_rows));
}

proof fn lemma_height_sum_prefix(rows: Seq<DiffDisplayRow>, other: Seq<DiffDisplayRow>, i: int)
    requires
        0 <= i <= rows.len(),
        i <= other.len(),
        forall|k: int| 0 <= k < i ==> other[k] == rows[k],
    ensures
        height_sum(other, i) == height_sum(rows, i),
    decreases i,
{
    if i > 0 {
        lemma_height_sum_prefix(rows, other, i - 1);
    }
}

proof fn lemma_height_sum_shift(rows: Seq<DiffDisplayRow>, new_rows: Seq<DiffDisplayRow>, start: int, end: int, i: int)
    requires
        0 <= start < end <= rows.len(),
        new_rows == rows.subrange(0, start) + rows.subrange(end, rows.len() as int),
        start <= i <= new_rows.len(),
    ensures
        height_sum(new_rows, i) == height_sum(rows, i + (end - start)) - (height_sum(rows, end) - height_sum(rows, start)),
    decreases i - start,
{
    if i > start {
        lemma_height_sum_shift(rows, new_rows, start, end, i - 1);
        assert(new_rows[i - 1] == rows[i - 1 + (end - start)]);
    } else {
        lemma_height_sum_prefix(rows, new_rows, start);
    }
}


/// A row with the number of the gap it stands for left out: separators compare by what
/// they show.
pub open spec fn unnumbered(row: DiffDisplayRow) -> DiffDisplayRow {
    match row {
        DiffDisplayRow::Separator { file_index, hidden, position, .. } => DiffDisplayRow::Separator {
            file_index,
            hidden,
            gap_index: 0,
            position,
        },
        _ => row,
    }
}

/// The rows, each with the number of its gap left out.
pub open spec fn unnumbered_rows(rows: Seq<DiffDisplayRow>) -> Seq<DiffDisplayRow> {
    rows.map_values(|r: DiffDisplayRow| unnumbered(r))
}

proof fn lemma_unnumbered_concat(a: Seq<DiffDisplayRow>, b: Seq<DiffDisplayRow>)
    ensures
        unnumbered_rows(a + b) == unnumbered_rows(a) + unnumbered_rows(b),
{
    assert(unnumbered_rows(a + b) =~= unnumbered_rows(a) + unnumbered_rows(b));
}

proof fn lemma_unnumbered_push(a: Seq<DiffDisplayRow>, x: DiffDisplayRow)
    ensures
        unnumbered_rows(a.push(x)) == unnumbered_rows(a).push(unnumbered(x)),
{
    assert(unnumbered_rows(a.push(x)) =~= unnumbered_rows(a).push(unnumbered(x)));
}

proof fn lemma_gap_unnumbered(st1: RowStream, st2: RowStream, gap: ContextGap, hidden: int)
    requires
        unnumbered_rows(st1.rows) == unnumbered_rows(st2.rows),
    ensures
        unnumbered_rows(with_gap(st1, gap, hidden).rows) == unnumbered_rows(with_gap(st2, gap, hidden).rows),
        unnumbered_rows(with_file_gap(st1, gap).rows) == unnumbered_rows(with_file_gap(st2, gap).rows),
{
    let r1 = with_gap(st1, gap, hidden).rows;
    let r2 = with_gap(st2, gap, hidden).rows;
    lemma_unnumbered_push(st1.rows, r1.last());
    lemma_unnumbered_push(st2.rows, r2.last());
    assert(r1 == st1.rows.push(r1.last()));
    assert(r2 == st2.rows.push(r2.last()));
    let g1 = with_gap(st1, gap, gap_size(gap)).rows;
    let g2 = with_gap(st2, gap, gap_size(gap)).rows;
    lemma_unnumbered_push(st1.rows, g1.last());
    lemma_unnumbered_push(st2.rows, g2.last());
    assert(g1 == st1.rows.push(g1.last()));
    assert(g2 == st2.rows.push(g2.last()));
}

proof fn lemma_segments_unnumbered(
    st1: RowStream,
    st2: RowStream,
    file_index: usize,
    hunk_index: usize,
    lines: Seq<DiffLine>,
    layout: DiffLayout,
    segs: Seq<HunkSegment>,
)
    requires
        unnumbered_rows(st1.rows) == unnumbered_rows(st2.rows),
    ensures
        unnumbered_rows(with_segments(st1, file_index, hunk_index, lines, layout, segs).rows)
            == unnumbered_rows(with_segments(st2, file_index, hunk_index, lines, layout, segs).rows),
    decreases segs.len(),
{
    if segs.len() > 0 {
        lemma_segments_unnumbered(st1, st2, file_index, hunk_index, lines, layout, segs.drop_last());
        let m1 = with_segments(st1, file_index, hunk_index, lines, layout, segs.drop_last());
        let m2 = with_segments(st2, file_index, hunk_index, lines, layout, segs.drop_last());
        match segs.last() {
            HunkSegment::Lines(r) => {
                let added = lines_rows(file_index, hunk_index, lines, layout, r);
                lemma_unnumbered_concat(m1.rows, added);
                lemma_unnumbered_concat(m2.rows, added);
            },
            HunkSegment::Gap { gap, hidden } => {
                lemma_gap_unnumbered(m1, m2, gap, hidden as int);
            },
        }
    }
}

proof fn lemma_hunks_unnumbered(
    st1: RowStream,
    st2: RowStream,
    file: DiffFile,
    file_index: usize,
    layout: DiffLayout,
    exps: Seq<(ContextGap, ContextExpansion)>,
    count: Option<u32>,
    n: int,
)
    requires
        unnumbered_rows(st1.rows) == unnumbered_rows(st2.rows),
    ensures
        unnumbered_rows(with_hunks(st1, file, file_index, layout, exps, count, n).rows)
            == unnumbered_rows(with_hunks(st2, file, file_index, layout, exps, count, n).rows),
    decreases n,
{
    if n > 0 {
        lemma_hunks_unnumbered(st1, st2, file, file_index, layout, exps, count, n - 1);
        let p1 = with_hunks(st1, file, file_index, layout, exps, count, n - 1);
        let p2 = with_hunks(st2, file, file_index, layout, exps, count, n - 1);
        let b1 = before_hunk(p1, file, file_index, n - 1, count);
        let b2 = before_hunk(p2, file, file_index, n - 1, count);
        assert(unnumbered_rows(b1.rows) == unnumbered_rows(b2.rows)) by {
            if n - 1 == 0 && count is Some && file.hunks@[0].old_start > 1 {
                lemma_gap_unnumbered(p1, p2, leading_gap(file, file_index), 0);
            } else if n - 1 > 0 {
                let gap = middle_gap(file, file_index, n - 1);
                if count is Some {
                    lemma_gap_unnumbered(p1, p2, gap, 0);
                } else if gap.end > 0 {
                    lemma_unnumbered_push(p1.rows, b1.rows.last());
                    lemma_unnumbered_push(p2.rows, b2.rows.last());
                    assert(b1.rows == p1.rows.push(b1.rows.last()));
                    assert(b2.rows == p2.rows.push(b2.rows.last()));
                }
            }
        }
        lemma_segments_unnumbered(
            b1,
            b2,
            file_index,
            (n - 1) as usize,
            file.hunks@[n - 1].lines@,
            layout,
            segments_of(file, file_index, n - 1, exps, count),
        );
    }
}

/// A file's rows do not depend on the gaps recorded before it, but for the numbers that
/// its separators give its gaps.
proof fn lemma_file_stream_unnumbered(
    file: DiffFile,
    file_index: usize,
    layout: DiffLayout,
    exps: Seq<(ContextGap, ContextExpansion)>,
    count: Option<u32>,
    g1: Seq<ContextGap>,
    g2: Seq<ContextGap>,
)
    ensures
        unnumbered_rows(file_stream(file, file_index, layout, exps, count, g1).rows)
            == unnumbered_rows(file_stream(file, file_index, layout, exps, count, g2).rows),
{
    let s1 = RowStream { rows: seq![], gaps: g1 };
    let s2 = RowStream { rows: seq![], gaps: g2 };
    let n = file.hunks@.len() as int;
    lemma_hunks_unnumbered(s1, s2, file, file_index, layout, exps, count, n);
    let b1 = with_hunks(s1, file, file_index, layout, exps, count, n);
    let b2 = with_hunks(s2, file, file_index, layout, exps, count, n);
    if let Some(c) = count {
        if n > 0 {
            lemma_gap_unnumbered(b1, b2, trailing_gap(file, file_index, c), 0);
        }
    }
    let t1 = file_stream(file, file_index, layout, exps, count, g1).rows;
    let t2 = file_stream(file, file_index, layout, exps, count, g2).rows;
    let e1 = match count {
        Some(c) => if n > 0 { with_file_gap(b1, trailing_gap(file, file_index, c)) } else { b1 },
        None => b1,
    };
    let e2 = match count {
        Some(c) => if n > 0 { with_file_gap(b2, trailing_gap(file, file_index, c)) } else { b2 },
        None => b2,
    };
    assert(unnumbered_rows(e1.rows).len() == e1.rows.len());
    assert(unnumbered_rows(e2.rows).len() == e2.rows.len());
}


proof fn lemma_starts_len(
    files: Seq<DiffFile>,
    layout: DiffLayout,
    collapsed: Set<usize>,
    exps: Seq<(ContextGap, ContextExpansion)>,
    counts: Seq<Option<u32>>,
    n: int,
)
    requires
        0 <= n,
    ensures
        diff_stream(files, layout, collapsed, exps, counts, n).file_starts.len() == n,
    decreases n,
{
    if n > 0 {
        lemma_starts_len(files, layout, collapsed, exps, counts, n - 1);
    }
}

/// Before file `i`, folding file `i` changes nothing.
proof fn lemma_same_before_fold(
    files: Seq<DiffFile>,
    layout: DiffLayout,
    collapsed: Set<usize>,
    exps: Seq<(ContextGap, ContextExpansion)>,
    counts: Seq<Option<u32>>,
    i: int,
    n: int,
)
    requires
        0 <= n <= i < files.len(),
        files.len() <= usize::MAX,
    ensures
        diff_stream(files, layout, collapsed, exps, counts, n) == diff_stream(
            files,
            layout,
            collapsed.insert(i as usize),
            exps,
            counts,
            n,
        ),
    decreases n,
{
    if n > 0 {
        lemma_same_before_fold(files, layout, collapsed, exps, counts, i, n - 1);
        assert(collapsed.insert(i as usize).contains((n - 1) as usize) == collapsed.contains(
            (n - 1) as usize,
        ));
        if n - 1 > 0 {
            assert(collapsed.insert(i as usize).contains((n - 2) as usize) == collapsed.contains(
                (n - 2) as usize,
            ));
        }
    }
}

/// The rows of the stream of the first `n` files, file `i`'s body taken out, are those of
/// the stream with file `i` folded, but for the numbers of gaps.
spec fn folds_rows(
    files: Seq<DiffFile>,
    layout: DiffLayout,
    collapsed: Set<usize>,
    exps: Seq<(ContextGap, ContextExpansion)>,
    counts: Seq<Option<u32>>,
    i: int,
    n: int,
) -> bool {
    let u = diff_stream(files, layout, collapsed, exps, counts, n);
    let f = diff_stream(files, layout, collapsed.insert(i as usize), exps, counts, n);
    let s = u.file_starts[i] as int;
    let e = body_end(u.file_starts, i, u.rows.len() as int);
    &&& u.file_starts.len() == n
    &&& s + 1 <= e <= u.rows.len()
    &&& (i + 1 < n ==> e == u.file_starts[i + 1])
    &&& unnumbered_rows(u.rows.subrange(0, s + 1) + u.rows.subrange(e, u.rows.len() as int))
        == unnumbered_rows(f.rows)
}

/// The files start alike in both streams up to file `i`, and later ones start earlier by
/// the length of file `i`'s body in the stream with folding.
spec fn folds_starts(
    files: Seq<DiffFile>,
    layout: DiffLayout,
    collapsed: Set<usize>,
    exps: Seq<(ContextGap, ContextExpansion)>,
    counts: Seq<Option<u32>>,
    i: int,
    n: int,
) -> bool {
    let u = diff_stream(files, layout, collapsed, exps, counts, n);
    let f = diff_stream(files, layout, collapsed.insert(i as usize), exps, counts, n);
    let s = u.file_starts[i] as int;
    let e = body_end(u.file_starts, i, u.rows.len() as int);
    &&& f.file_starts.len() == n
    &&& forall|j: int| 0 <= j <= i ==> #[trigger] f.file_starts[j] == u.file_starts[j]
    &&& forall|j: int| i < j < n ==> #[trigger] f.file_starts[j] == u.file_starts[j] - (e - s - 1)
}

spec fn folds_alike(
    files: Seq<DiffFile>,
    layout: DiffLayout,
    collapsed: Set<usize>,
    exps: Seq<(ContextGap, ContextExpansion)>,
    counts: Seq<Option<u32>>,
    i: int,
    n: int,
) -> bool {
    folds_rows(files, layout, collapsed, exps, counts, i, n) && folds_starts(
        files,
        layout,
        collapsed,
        exps,
        counts,
        i,
        n,
    )
}

proof fn lemma_folding_base(
    files: Seq<DiffFile>,
    layout: DiffLayout,
    collapsed: Set<usize>,
    exps: Seq<(ContextGap, ContextExpansion)>,
    counts: Seq<Option<u32>>,
    i: int,
)
    requires
        0 <= i < files.len(),
        files.len() <= usize::MAX,
        !collapsed.contains(i as usize),
        diff_stream(files, layout, collapsed, exps, counts, i + 1).rows.len() <= usize::MAX,
    ensures
        folds_alike(files, layout, collapsed, exps, counts, i, i + 1),
{
    let fc = collapsed.insert(i as usize);
    let u = diff_stream(files, layout, collapsed, exps, counts, i + 1);
    let f = diff_stream(files, layout, fc, exps, counts, i + 1);
    lemma_starts_len(files, layout, collapsed, exps, counts, i + 1);
    lemma_diff_stream_grows(files, layout, collapsed, exps, counts, i, i + 1);
    lemma_same_before_fold(files, layout, collapsed, exps, counts, i, i);
    let up = diff_stream(files, layout, collapsed, exps, counts, i);
    let hdr = DiffDisplayRow::FileHeader { file_index: i as u32 };
    assert(fc.contains(i as usize));
    if i > 0 {
        assert(fc.contains((i - 1) as usize) == collapsed.contains((i - 1) as usize));
    }
    let rows_u = if i > 0 && !collapsed.contains((i - 1) as usize) {
        up.rows.push(DiffDisplayRow::FileGap)
    } else {
        up.rows
    };
    assert(u.file_starts == up.file_starts.push(rows_u.len() as usize));
    assert(f.rows == rows_u.push(hdr));
    assert(u.file_starts[i] as int == rows_u.len());
    assert(u.rows.subrange(0, rows_u.len() + 1int) =~= rows_u.push(hdr));
    assert(u.rows.subrange(u.rows.len() as int, u.rows.len() as int) =~= Seq::<DiffDisplayRow>::empty());
    assert(rows_u.push(hdr) + Seq::<DiffDisplayRow>::empty() =~= rows_u.push(hdr));
    lemma_starts_len(files, layout, fc, exps, counts, i + 1);
    assert(f.file_starts == up.file_starts.push(rows_u.len() as usize));
}

#[verifier::spinoff_prover]
#[verifier::rlimit(80)]
proof fn lemma_folding_step(
    files: Seq<DiffFile>,
    layout: DiffLayout,
    collapsed: Set<usize>,
    exps: Seq<(ContextGap, ContextExpansion)>,
    counts: Seq<Option<u32>>,
    i: int,
    k: int,
)
    requires
        0 <= i < k < files.len(),
        files.len() <= usize::MAX,
        !collapsed.contains(i as usize),
        diff_stream(files, layout, collapsed, exps, counts, k + 1).rows.len() <= usize::MAX,
        folds_alike(files, layout, collapsed, exps, counts, i, k),
    ensures
        folds_rows(files, layout, collapsed, exps, counts, i, k + 1),
{
    let fc = collapsed.insert(i as usize);
    let u = diff_stream(files, layout, collapsed, exps, counts, k + 1);
    let f = diff_stream(files, layout, fc, exps, counts, k + 1);
    let up = diff_stream(files, layout, collapsed, exps, counts, k);
    let fp = diff_stream(files, layout, fc, exps, counts, k);
    lemma_diff_stream_grows(files, layout, collapsed, exps, counts, k, k + 1);
    assert(fc.contains(k as usize) == collapsed.contains(k as usize));
    assert(fc.contains((k - 1) as usize) == ((k - 1) == i || collapsed.contains((k - 1) as usize)));
    let hdr = DiffDisplayRow::FileHeader { file_index: k as u32 };
    let gap_u = !collapsed.contains((k - 1) as usize);
    let gap_f = !fc.contains((k - 1) as usize);
    let rows_u = if gap_u { up.rows.push(DiffDisplayRow::FileGap) } else { up.rows };
    assert(u.file_starts == up.file_starts.push(rows_u.len() as usize));
    let s = up.file_starts[i] as int;
    let len0 = up.rows.len() as int;
    let e0 = body_end(up.file_starts, i, len0);
    assert(u.file_starts[i] == up.file_starts[i]);
    let e = body_end(u.file_starts, i, u.rows.len() as int);
    if k == i + 1 {
        assert(e0 == len0);
        assert(gap_u && !gap_f);
        assert(e == len0 + 1);
    } else {
        assert(gap_u == gap_f);
        assert(u.file_starts[i + 1] == up.file_starts[i + 1]);
        assert(e == e0);
    }
    let body_u = file_stream(files[k], k as usize, layout, exps, count_at(counts, k), up.gaps).rows;
    let body_f = file_stream(files[k], k as usize, layout, exps, count_at(counts, k), fp.gaps).rows;
    lemma_file_stream_unnumbered(files[k], k as usize, layout, exps, count_at(counts, k), up.gaps, fp.gaps);
    let more_f = if gap_f { seq![DiffDisplayRow::FileGap] } else { Seq::<DiffDisplayRow>::empty() };
    let piece = if collapsed.contains(k as usize) { seq![hdr] } else { seq![hdr] + body_u };
    let piece_f = if collapsed.contains(k as usize) { seq![hdr] } else { seq![hdr] + body_f };
    assert(unnumbered_rows(piece) == unnumbered_rows(piece_f)) by {
        if !collapsed.contains(k as usize) {
            lemma_unnumbered_concat(seq![hdr], body_u);
            lemma_unnumbered_concat(seq![hdr], body_f);
        }
    }
    assert(f.rows =~= fp.rows + more_f + piece_f);
    assert(u.rows =~= rows_u + piece);
    let tail0 = up.rows.subrange(e0, len0);
    let pre = up.rows.subrange(0, s + 1);
    assert(u.rows.subrange(0, s + 1) =~= pre);
    assert(u.rows.subrange(e, u.rows.len() as int) =~= tail0 + more_f + piece);
    assert(pre + (tail0 + more_f + piece) =~= (pre + tail0) + more_f + piece);
    lemma_unnumbered_concat(pre + tail0 + more_f, piece);
    lemma_unnumbered_concat(pre + tail0, more_f);
    lemma_unnumbered_concat(fp.rows + more_f, piece_f);
    lemma_unnumbered_concat(fp.rows, more_f);
}

#[verifier::spinoff_prover]
#[verifier::rlimit(80)]
proof fn lemma_folding_step_starts(
    files: Seq<DiffFile>,
    layout: DiffLayout,
    collapsed: Set<usize>,
    exps: Seq<(ContextGap, ContextExpansion)>,
    counts: Seq<Option<u32>>,
    i: int,
    k: int,
)
    requires
        0 <= i < k < files.len(),
        files.len() <= usize::MAX,
        !collapsed.contains(i as usize),
        diff_stream(files, layout, collapsed, exps, counts, k + 1).rows.len() <= usize::MAX,
        folds_alike(files, layout, collapsed, exps, counts, i, k),
        folds_rows(files, layout, collapsed, exps, counts, i, k + 1),
    ensures
        folds_starts(files, layout, collapsed, exps, counts, i, k + 1),
{
    let fc = collapsed.insert(i as usize);
    let u = diff_stream(files, layout, collapsed, exps, counts, k + 1);
    let f = diff_stream(files, layout, fc, exps, counts, k + 1);
    let up = diff_stream(files, layout, collapsed, exps, counts, k);
    let fp = diff_stream(files, layout, fc, exps, counts, k);
    lemma_diff_stream_grows(files, layout, collapsed, exps, counts, k, k + 1);
    lemma_starts_len(files, layout, fc, exps, counts, k);
    assert(fc.contains((k - 1) as usize) == ((k - 1) == i || collapsed.contains((k - 1) as usize)));
    let gap_u = !collapsed.contains((k - 1) as usize);
    let gap_f = !fc.contains((k - 1) as usize);
    let rows_u = if gap_u { up.rows.push(DiffDisplayRow::FileGap) } else { up.rows };
    let rows_f = if gap_f { fp.rows.push(DiffDisplayRow::FileGap) } else { fp.rows };
    assert(u.file_starts == up.file_starts.push(rows_u.len() as usize));
    assert(f.file_starts == fp.file_starts.push(rows_f.len() as usize));
    let s = up.file_starts[i] as int;
    let len0 = up.rows.len() as int;
    let e0 = body_end(up.file_starts, i, len0);
    assert(u.file_starts[i] == up.file_starts[i]);
    let e = body_end(u.file_starts, i, u.rows.len() as int);
    let pre = up.rows.subrange(0, s + 1);
    let tail0 = up.rows.subrange(e0, len0);
    lemma_unnumbered_concat(pre, tail0);
    assert(unnumbered_rows(fp.rows).len() == fp.rows.len());
    assert(fp.rows.len() == (s + 1) + (len0 - e0));
    if k == i + 1 {
        assert(e0 == len0);
        assert(gap_u && !gap_f);
        assert(e == len0 + 1);
    } else {
        assert(gap_u == gap_f);
        assert(u.file_starts[i + 1] == up.file_starts[i + 1]);
        assert(e == e0);
    }
    assert(forall|j: int| 0 <= j < k ==> #[trigger] u.file_starts[j] == up.file_starts[j]);
    assert(forall|j: int| 0 <= j < k ==> #[trigger] f.file_starts[j] == fp.file_starts[j]);
}

proof fn lemma_folding_from(
    files: Seq<DiffFile>,
    layout: DiffLayout,
    collapsed: Set<usize>,
    exps: Seq<(ContextGap, ContextExpansion)>,
    counts: Seq<Option<u32>>,
    i: int,
    n: int,
)
    requires
        0 <= i < n <= files.len(),
        files.len() <= usize::MAX,
        !collapsed.contains(i as usize),
        diff_stream(files, layout, collapsed, exps, counts, n).rows.len() <= usize::MAX,
    ensures
        folds_alike(files, layout, collapsed, exps, counts, i, n),
    decreases n,
{
    lemma_diff_stream_grows(files, layout, collapsed, exps, counts, n - 1, n);
    if n - 1 == i {
        lemma_folding_base(files, layout, collapsed, exps, counts, i);
    } else {
        lemma_folding_from(files, layout, collapsed, exps, counts, i, n - 1);
        lemma_folding_step(files, layout, collapsed, exps, counts, i, n - 1);
        lemma_folding_step_starts(files, layout, collapsed, exps, counts, i, n - 1);
    }
}

/// Collapsing an open file of a freshly built stream (taking out its rows after its
/// header, up to where the next file starts) gives the rows of the stream built with that
/// file collapsed, but for the numbers that separators give their gaps: what goes is the
/// file's body and the gap row before the next file. Files up to it start where they did,
/// and later files start earlier by the rows taken out.
pub proof fn lemma_collapse_is_folding(
    files: Seq<DiffFile>,
    layout: DiffLayout,
    collapsed: Set<usize>,
    exps: Seq<(ContextGap, ContextExpansion)>,
    counts: Seq<Option<u32>>,
    i: int,
)
    requires
        0 <= i < files.len(),
        files.len() <= usize::MAX,
        !collapsed.contains(i as usize),
        diff_stream(files, layout, collapsed, exps, counts, files.len() as int).rows.len() <= usize::MAX,
    ensures
        ({
            let u = diff_stream(files, layout, collapsed, exps, counts, files.len() as int);
            let f = diff_stream(files, layout, collapsed.insert(i as usize), exps, counts, files.len() as int);
            let s = u.file_starts[i] + 1;
            let e = body_end(u.file_starts, i, u.rows.len() as int);
            &&& s <= e <= u.rows.len()
            &&& unnumbered_rows(u.rows.subrange(0, s) + u.rows.subrange(e, u.rows.len() as int))
                == unnumbered_rows(f.rows)
            &&& f.file_starts.len() == u.file_starts.len()
            &&& forall|j: int| 0 <= j <= i ==> #[trigger] f.file_starts[j] == u.file_starts[j]
            &&& forall|j: int|
                i < j < files.len() ==> #[trigger] f.file_starts[j] == u.file_starts[j] - (e - s)
        }),
{
    lemma_folding_from(files, layout, collapsed, exps, counts, i, files.len() as int);
}

} // verus!
