//! What decides the height of each diff row: a fixed height, a height that scales with
//! the font, or the number of columns a wrapped line of code takes.

use vstd::prelude::*;
use std::collections::HashSet;

use crate::diff::{DiffFile, DiffSet};
use crate::rows::{
    height_of, unpack_diff_row_index, ContextExpansion, ContextGap, DiffDisplayRow, DiffLayout,
    DiffRowIndex, NO_DIFF_ROW_INDEX,
};
use crate::diff::source_lines;
use crate::stream::{
    build_diff_rows_with_context, diff_stream, files_packable, height_sum, offsets_of, row_offsets,
    DiffStream,
};
use crate::text::chars_of;

verus! {

/// The display width of a character, as `unicode_width` measures it.
pub uninterp spec fn char_width(c: char) -> Option<usize>;

/// Calls `UnicodeWidthChar::width`: the result is named by `char_width`; the crate's
/// source gives control characters no width and printable ASCII a width of one column.
#[verifier::external_body]
fn unicode_char_width(c: char) -> (r: Option<usize>)
    ensures
        r == char_width(c),
        (c as u32) < 0x20 || (0x7f <= (c as u32) && (c as u32) < 0xa0) ==> r is None,
        0x20 <= (c as u32) && (c as u32) < 0x7f ==> r == Some(1usize),
{
    unicode_width::UnicodeWidthChar::width(c)
}

/// The columns a tab advances to: the next multiple of this.
pub const CODE_TAB_WIDTH: u32 = 4;

/// The column after `c`, starting at `columns`: a tab goes to the next tab stop, any
/// other character takes its width, and a character without one takes none.
pub open spec fn column_step(columns: int, c: char, width: Option<usize>) -> int {
    if c == '\t' {
        columns + 4 - columns % 4
    } else {
        columns + match width {
            Some(w) => w as int,
            None => 0,
        }
    }
}

/// The columns a line of code takes on screen.
pub open spec fn code_columns_of(s: Seq<char>) -> int
    decreases s.len(),
{
    if s.len() == 0 {
        0
    } else {
        column_step(code_columns_of(s.drop_last()), s.last(), char_width(s.last()))
    }
}

/// `x`, or `u32::MAX` when it is larger.
pub open spec fn capped(x: int) -> u32 {
    if x > u32::MAX {
        u32::MAX
    } else if x < 0 {
        0
    } else {
        x as u32
    }
}

proof fn lemma_column_step_grows(columns: int, c: char, width: Option<usize>)
    requires
        columns >= 0,
    ensures
        column_step(columns, c, width) >= columns,
{
}

proof fn lemma_code_columns_nonnegative(s: Seq<char>)
    ensures
        code_columns_of(s) >= 0,
    decreases s.len(),
{
    if s.len() > 0 {
        lemma_code_columns_nonnegative(s.drop_last());
        lemma_column_step_grows(code_columns_of(s.drop_last()), s.last(), char_width(s.last()));
    }
}

/// Capping before a step and after it gives what capping after it alone gives.
proof fn lemma_capped_step(x: int, c: char, width: Option<usize>)
    requires
        x >= 0,
    ensures
        capped(column_step(capped(x) as int, c, width)) == capped(column_step(x, c, width)),
{
    lemma_column_step_grows(x, c, width);
    lemma_column_step_grows(capped(x) as int, c, width);
}

/// The column after `c`, as `column_step` gives it, capped at `u32::MAX`.
pub fn advance_columns(columns: u32, c: char, width: Option<usize>) -> (r: u32)
    ensures
        r == capped(column_step(columns as int, c, width)),
{
    if c == '\t' {
        let next: u64 = columns as u64 + CODE_TAB_WIDTH as u64 - (columns % CODE_TAB_WIDTH) as u64;
        if next > u32::MAX as u64 {
            u32::MAX
        } else {
            next as u32
        }
    } else {
        match width {
            Some(w) => {
                if w as u64 > (u32::MAX - columns) as u64 {
                    u32::MAX
                } else {
                    columns + w as u32
                }
            },
            None => columns,
        }
    }
}

/// The columns a line of code takes on screen, capped at `u32::MAX`.
pub fn code_columns(content: &str) -> (r: u32)
    ensures
        r == capped(code_columns_of(content@)),
{
    let cs = chars_of(content);
    let mut columns: u32 = 0;
    let mut i: usize = 0;
    while i < cs.len()
        invariant
            cs@ == content@,
            i <= cs@.len(),
            columns == capped(code_columns_of(content@.take(i as int))),
        decreases cs@.len() - i,
    {
        let c = cs[i];
        let w = unicode_char_width(c);
        proof {
            let before = content@.take(i as int);
            assert(content@.take(i + 1).drop_last() =~= before);
            lemma_code_columns_nonnegative(before);
            lemma_capped_step(code_columns_of(before), c, w);
        }
        columns = advance_columns(columns, c, w);
        i += 1;
    }
    proof {
        assert(content@.take(cs@.len() as int) =~= content@);
    }
    columns
}

/// How a row's height is found: fixed, scaled with the font, or from wrapped columns.
#[derive(Clone, Copy, Debug, PartialEq, Eq, Structural)]
pub enum DiffRowLayoutKind {
    Fixed,
    Scaled,
    Wrapped,
}

/// A row's height rule: a height in pixels for fixed and scaled rows, a number of
/// columns for rows of code.
#[derive(Clone, Copy, Debug, PartialEq, Eq, Structural)]
pub struct DiffRowLayout {
    pub value: u32,
    pub kind: DiffRowLayoutKind,
}

/// The columns of line `li` of hunk `hi` of file `fi`, when there is such a line.
pub open spec fn line_columns(files: Seq<DiffFile>, fi: int, hi: int, li: int) -> Option<int> {
    if 0 <= fi < files.len() && 0 <= hi < files[fi].hunks@.len() && 0 <= li
        < files[fi].hunks@[hi].lines@.len() {
        Some(code_columns_of(files[fi].hunks@[hi].line_text(li)))
    } else {
        None
    }
}

/// The columns of the line that a packed index names, when it names one.
pub open spec fn packed_columns(files: Seq<DiffFile>, fi: int, hi: int, packed: u32) -> Option<int> {
    if packed == NO_DIFF_ROW_INDEX {
        None
    } else {
        line_columns(files, fi, hi, packed as int)
    }
}

/// The larger of the present values, or 0.
pub open spec fn max_present(a: Option<int>, b: Option<int>) -> int {
    match (a, b) {
        (Some(x), Some(y)) => if x >= y {
            x
        } else {
            y
        },
        (Some(x), None) => x,
        (None, Some(y)) => y,
        (None, None) => 0,
    }
}

/// The height rule of a row: rows of code wrap by the columns of their widest line, a
/// context separator scales with the font, every other row keeps its height.
pub open spec fn layout_of(row: DiffDisplayRow, files: Seq<DiffFile>) -> DiffRowLayout {
    match row {
        DiffDisplayRow::Split { file_index, hunk_index, old_line_index, new_line_index } => {
            DiffRowLayout {
                value: capped(
                    max_present(
                        packed_columns(files, file_index as int, hunk_index as int, old_line_index),
                        packed_columns(files, file_index as int, hunk_index as int, new_line_index),
                    ),
                ),
                kind: DiffRowLayoutKind::Wrapped,
            }
        },
        DiffDisplayRow::Unified { file_index, hunk_index, row_index, .. } => DiffRowLayout {
            value: capped(
                match line_columns(files, file_index as int, hunk_index as int, row_index as int) {
                    Some(c) => c,
                    None => 0,
                },
            ),
            kind: DiffRowLayoutKind::Wrapped,
        },
        DiffDisplayRow::Separator { .. } => DiffRowLayout {
            value: height_of(row) as u32,
            kind: DiffRowLayoutKind::Scaled,
        },
        _ => DiffRowLayout { value: height_of(row) as u32, kind: DiffRowLayoutKind::Fixed },
    }
}

/// Every file's hunks are well formed.
pub open spec fn all_hunks_wf(files: Seq<DiffFile>) -> bool {
    forall|i: int| 0 <= i < files.len() ==> (#[trigger] files[i]).hunks_wf()
}

/// The capped columns of line `li` of hunk `hi` of file `fi`, when there is such a line.
fn columns_at(files: &[DiffFile], fi: usize, hi: usize, li: usize) -> (r: Option<u32>)
    requires
        all_hunks_wf(files@),
    ensures
        r == match line_columns(files@, fi as int, hi as int, li as int) {
            Some(c) => Some(capped(c)),
            None => None::<u32>,
        },
{
    if fi >= files.len() {
        return None;
    }
    let file = &files[fi];
    if hi >= file.hunks.len() {
        return None;
    }
    let hunk = &file.hunks[hi];
    if li >= hunk.lines.len() {
        return None;
    }
    proof {
        assert(files@[fi as int].hunks_wf());
        assert(hunk.wf());
        assert(hunk.lines@[li as int].fits(hunk.text()));
    }
    let text = hunk.line_content(&hunk.lines[li]);
    assert(text@ == hunk.line_text(li as int));
    Some(code_columns(text))
}

impl DiffRowLayout {
    /// A row of a fixed height, in pixels.
    fn fixed(height: u64) -> (r: Self)
        requires
            height <= u32::MAX,
        ensures
            r == (DiffRowLayout { value: height as u32, kind: DiffRowLayoutKind::Fixed }),
    {
        DiffRowLayout { value: height as u32, kind: DiffRowLayoutKind::Fixed }
    }

    /// A row whose height, in pixels at the default font size, scales with the font.
    fn scaled(height: u64) -> (r: Self)
        requires
            height <= u32::MAX,
        ensures
            r == (DiffRowLayout { value: height as u32, kind: DiffRowLayoutKind::Scaled }),
    {
        DiffRowLayout { value: height as u32, kind: DiffRowLayoutKind::Scaled }
    }

    /// A row of code that takes `columns` columns, wrapped to the width it is shown in.
    fn wrapped(columns: u32) -> (r: Self)
        ensures
            r == (DiffRowLayout { value: columns, kind: DiffRowLayoutKind::Wrapped }),
    {
        DiffRowLayout { value: columns, kind: DiffRowLayoutKind::Wrapped }
    }

    /// The height rule of a row, as `layout_of` gives it.
    pub fn from_row(row: &DiffDisplayRow, files: &[DiffFile]) -> (r: Self)
        requires
            all_hunks_wf(files@),
        ensures
            r == layout_of(*row, files@),
    {
        match row {
            DiffDisplayRow::Split { file_index, hunk_index, old_line_index, new_line_index } => {
                let fi = *file_index as usize;
                let hi = *hunk_index as usize;
                let old = match unpack_diff_row_index(*old_line_index) {
                    Some(li) => columns_at(files, fi, hi, li),
                    None => None,
                };
                let new = match unpack_diff_row_index(*new_line_index) {
                    Some(li) => columns_at(files, fi, hi, li),
                    None => None,
                };
                let value = match (old, new) {
                    (Some(a), Some(b)) => if a >= b {
                        a
                    } else {
                        b
                    },
                    (Some(a), None) => a,
                    (None, Some(b)) => b,
                    (None, None) => 0,
                };
                DiffRowLayout::wrapped(value)
            },
            DiffDisplayRow::Unified { file_index, hunk_index, row_index, .. } => {
                let value = match columns_at(
                    files,
                    *file_index as usize,
                    *hunk_index as usize,
                    *row_index as usize,
                ) {
                    Some(c) => c,
                    None => 0,
                };
                DiffRowLayout::wrapped(value)
            },
            DiffDisplayRow::Separator { .. } => DiffRowLayout::scaled(row.height()),
            _ => DiffRowLayout::fixed(row.height()),
        }
    }
}

/// The height rule of every row.
pub fn diff_row_layouts(rows: &DiffRowIndex, files: &[DiffFile]) -> (r: Vec<DiffRowLayout>)
    requires
        rows.wf(),
        all_hunks_wf(files@),
    ensures
        r@.len() == rows@.len(),
        forall|i: int| 0 <= i < rows@.len() ==> #[trigger] r@[i] == layout_of(rows@[i], files@),
{
    let all = rows.iter();
    let mut out: Vec<DiffRowLayout> = Vec::new();
    let mut i: usize = 0;
    while i < all.len()
        invariant
            all@ == rows@,
            all_hunks_wf(files@),
            i <= all@.len(),
            out@.len() == i,
            forall|k: int| 0 <= k < i ==> #[trigger] out@[k] == layout_of(rows@[k], files@),
        decreases all@.len() - i,
    {
        out.push(DiffRowLayout::from_row(&all[i], files));
        i += 1;
    }
    out
}

/// The row stream of a diff with everything the view keeps of it: each row's height
/// rule, where each file starts, where each row starts, and the hidden context.
pub struct DiffRowData {
    pub rows: DiffRowIndex,
    pub layouts: Vec<DiffRowLayout>,
    pub file_row_indices: Vec<usize>,
    pub offsets: Vec<u64>,
    pub context_gaps: Vec<ContextGap>,
}

/// The line count of each file's old text, where the diff holds it.
pub open spec fn old_line_counts(diff: DiffSet) -> Seq<Option<u32>> {
    Seq::new(
        diff.files@.len(),
        |i: int|
            match diff.context_text(i) {
                Some(t) => Some(source_lines(t).len() as u32),
                None => None,
            },
    )
}

/// The stream of rows of a diff.
pub open spec fn diff_row_stream(
    diff: DiffSet,
    layout: DiffLayout,
    collapsed: Set<usize>,
    exps: Seq<(ContextGap, ContextExpansion)>,
) -> DiffStream {
    diff_stream(diff.files@, layout, collapsed, exps, old_line_counts(diff), diff.files@.len() as int)
}

/// The rows of a diff, their height rules and offsets, where each file starts and the
/// context gaps, the old texts telling how far context at a file's end reaches.
pub fn build_diff_row_data(
    diff: &DiffSet,
    layout: DiffLayout,
    collapsed_files: &HashSet<usize>,
    context_expansions: &[(ContextGap, ContextExpansion)],
) -> (r: DiffRowData)
    requires
        files_packable(diff.files@, old_line_counts(*diff)),
        all_hunks_wf(diff.files@),
        diff_row_stream(*diff, layout, collapsed_files@, context_expansions@).rows.len()
            <= usize::MAX,
        diff_row_stream(*diff, layout, collapsed_files@, context_expansions@).gaps.len()
            <= NO_DIFF_ROW_INDEX,
        ({
            let rows = diff_row_stream(*diff, layout, collapsed_files@, context_expansions@).rows;
            height_sum(rows, rows.len() as int) <= u64::MAX
        }),
    ensures
        r.rows.wf(),
        (DiffStream {
            rows: r.rows@,
            file_starts: r.file_row_indices@,
            gaps: r.context_gaps@,
        }) == diff_row_stream(*diff, layout, collapsed_files@, context_expansions@),
        r.offsets@ == offsets_of(r.rows@),
        r.layouts@.len() == r.rows@.len(),
        forall|i: int|
            0 <= i < r.rows@.len() ==> #[trigger] r.layouts@[i] == layout_of(
                r.rows@[i],
                diff.files@,
            ),
{
    let mut counts: Vec<Option<u32>> = Vec::new();
    let mut i: usize = 0;
    while i < diff.files.len()
        invariant
            i <= diff.files@.len(),
            counts@ == old_line_counts(*diff).take(i as int),
        decreases diff.files@.len() - i,
    {
        let c = diff.old_line_count(i);
        counts.push(c);
        proof {
            assert(counts@ =~= old_line_counts(*diff).take(i + 1));
        }
        i += 1;
    }
    proof {
        assert(counts@ =~= old_line_counts(*diff));
    }
    let (rows, file_row_indices, context_gaps) = build_diff_rows_with_context(
        diff.files.as_slice(),
        layout,
        collapsed_files,
        context_expansions,
        counts.as_slice(),
    );
    let offsets = row_offsets(&rows);
    let layouts = diff_row_layouts(&rows, diff.files.as_slice());
    DiffRowData { rows, layouts, file_row_indices, offsets, context_gaps }
}

} // verus!
