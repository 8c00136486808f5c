//! The rows of the diff view: every file's header, hunks and collapsed context in one
//! stream, kept compact as runs of consecutive lines.

use vstd::prelude::*;

verus! {

/// Side by side (old and new columns) or one column.
#[derive(Clone, Copy, Debug, PartialEq, Eq, Structural)]
pub enum DiffLayout {
    Split,
    Unified,
}

/// Where hidden context comes from: lines of a hunk, or lines of the file's old text.
#[derive(Clone, Copy, Debug, PartialEq, Eq, Hash, Structural)]
pub enum ContextGapSource {
    Hunk,
    File { old_start: u32, new_start: u32 },
}

/// Where hidden context sits: before the first change, between changes, or after the last.
#[derive(Clone, Copy, Debug, PartialEq, Eq, Hash, Structural)]
pub enum ContextGapPosition {
    Leading,
    Middle,
    Trailing,
}

/// A run of unchanged lines that the view hides, `start..end` within its hunk or file.
#[derive(Clone, Copy, Debug, PartialEq, Eq, Hash, Structural)]
pub struct ContextGap {
    pub file_index: usize,
    pub hunk_index: usize,
    pub start: usize,
    pub end: usize,
    pub position: ContextGapPosition,
    pub source: ContextGapSource,
}

/// Which way revealed context grows.
#[derive(Clone, Copy, Debug, PartialEq, Eq, Structural)]
pub enum ContextExpandDirection {
    Up,
    Down,
}

/// How many hidden lines of a gap have been revealed from its start and from its end.
#[derive(Clone, Copy, Debug, PartialEq, Eq, Structural)]
pub struct ContextExpansion {
    pub from_start: usize,
    pub from_end: usize,
}

/// How many lines one step of expansion reveals.
pub const CONTEXT_LINES_PER_STEP: usize = 30;

/// The unchanged lines kept visible next to a change.
pub const VISIBLE_CONTEXT_LINES: usize = 3;

/// The packed index that stands for no index.
pub const NO_DIFF_ROW_INDEX: u32 = 4294967295u32;

impl Default for ContextExpansion {
    fn default() -> (r: Self)
        ensures
            r == (ContextExpansion { from_start: 0, from_end: 0 }),
    {
        ContextExpansion { from_start: 0, from_end: 0 }
    }
}

/// The lines of a gap that are still hidden.
pub open spec fn hidden_count(e: ContextExpansion, gap: ContextGap) -> int {
    let left = (gap.end - gap.start) - e.from_start - e.from_end;
    if left < 0 {
        0
    } else {
        left
    }
}

/// The expansion after one step: up to `CONTEXT_LINES_PER_STEP` more hidden lines of the
/// gap revealed, from its end when going up and from its start when going down.
pub open spec fn revealed_once(e: ContextExpansion, gap: ContextGap, direction: ContextExpandDirection) -> ContextExpansion {
    let left = hidden_count(e, gap);
    let step = if left < CONTEXT_LINES_PER_STEP {
        left
    } else {
        CONTEXT_LINES_PER_STEP as int
    };
    match direction {
        ContextExpandDirection::Up => ContextExpansion { from_start: e.from_start, from_end: (e.from_end + step) as usize },
        ContextExpandDirection::Down => ContextExpansion { from_start: (e.from_start + step) as usize, from_end: e.from_end },
    }
}

/// The expansion after a step in each of the directions, in order.
pub open spec fn revealed_by(e: ContextExpansion, gap: ContextGap, directions: Seq<ContextExpandDirection>) -> ContextExpansion
    decreases directions.len(),
{
    if directions.len() == 0 {
        e
    } else {
        revealed_once(revealed_by(e, gap, directions.drop_last()), gap, directions.last())
    }
}

/// Steps reveal a gap `CONTEXT_LINES_PER_STEP` lines at a time whichever way they go: after
/// `n` steps, the lines still hidden are those hidden before less `n` steps' worth, and none
/// once enough steps were taken.
pub proof fn lemma_steps_reveal_the_gap(e: ContextExpansion, gap: ContextGap, directions: Seq<ContextExpandDirection>)
    requires
        gap.start <= gap.end,
        gap.end - gap.start <= usize::MAX - e.from_start - e.from_end,
    ensures
        hidden_count(revealed_by(e, gap, directions), gap) == if hidden_count(e, gap)
            > CONTEXT_LINES_PER_STEP * directions.len() {
            hidden_count(e, gap) - CONTEXT_LINES_PER_STEP * directions.len()
        } else {
            0
        },
        revealed_by(e, gap, directions).from_start + revealed_by(e, gap, directions).from_end
            <= e.from_start + e.from_end + (gap.end - gap.start),
    decreases directions.len(),
{
    if directions.len() > 0 {
        lemma_steps_reveal_the_gap(e, gap, directions.drop_last());
    }
}

impl ContextExpansion {
    /// Reveals up to `CONTEXT_LINES_PER_STEP` more hidden lines of the gap, from its end
    /// when going up and from its start when going down. Answers whether any was hidden.
    pub fn reveal_step(&mut self, gap: ContextGap, direction: ContextExpandDirection) -> (r: bool)
        requires
            gap.start <= gap.end,
            gap.end - gap.start <= usize::MAX - old(self).from_start - old(self).from_end,
        ensures
            r == (hidden_count(*old(self), gap) > 0),
            *final(self) == revealed_once(*old(self), gap, direction),
    {
        let size = gap.end - gap.start;
        let remaining = size.saturating_sub(self.from_start).saturating_sub(self.from_end);
        if remaining == 0 {
            return false;
        }
        let reveal = if remaining < CONTEXT_LINES_PER_STEP {
            remaining
        } else {
            CONTEXT_LINES_PER_STEP
        };
        match direction {
            ContextExpandDirection::Up => self.from_end = self.from_end + reveal,
            ContextExpandDirection::Down => self.from_start = self.from_start + reveal,
        }
        true
    }
}

/// The packed form of an index.
pub fn pack_diff_row_index(index: usize) -> (r: u32)
    requires
        index < NO_DIFF_ROW_INDEX,
    ensures
        r == index,
{
    index as u32
}

/// The packed form of an optional index: the sentinel stands for none.
pub open spec fn packed(index: Option<usize>) -> u32 {
    match index {
        Some(i) => i as u32,
        None => NO_DIFF_ROW_INDEX,
    }
}

/// The index that a packed index stands for: none for the sentinel.
pub open spec fn unpacked(index: u32) -> Option<usize> {
    if index == NO_DIFF_ROW_INDEX {
        None
    } else {
        Some(index as usize)
    }
}

/// The index that a packed index stands for.
pub fn unpack_diff_row_index(index: u32) -> (r: Option<usize>)
    ensures
        r == unpacked(index),
{
    if index == NO_DIFF_ROW_INDEX {
        None
    } else {
        Some(index as usize)
    }
}

/// Unpacking a packed index gives back the index it was packed from, and the sentinel
/// gives back none: every index below the sentinel survives packing.
pub proof fn lemma_pack_round_trip(index: Option<usize>)
    requires
        index matches Some(i) ==> i < NO_DIFF_ROW_INDEX,
    ensures
        unpacked(packed(index)) == index,
        index matches Some(i) ==> packed(index) == i,
{
}

/// One row of the diff view.
#[derive(Clone, Copy, Debug)]
pub enum DiffDisplayRow {
    FileGap,
    FileHeader { file_index: u32 },
    Separator { file_index: u32, hidden: u32, gap_index: u32, position: Option<ContextGapPosition> },
    Split { file_index: u32, hunk_index: u32, old_line_index: u32, new_line_index: u32 },
    Unified { file_index: u32, hunk_index: u32, row_index: u32, counterpart_index: u32 },
    Empty { file_index: u32 },
}

/// The default height of a code row, in pixels.
pub const DIFF_ROW_HEIGHT: u64 = 21;

/// The height of a row, in pixels.
pub open spec fn height_of(row: DiffDisplayRow) -> u64 {
    match row {
        DiffDisplayRow::FileGap => 18,
        DiffDisplayRow::FileHeader { .. } => 44,
        DiffDisplayRow::Separator { position, .. } => if position == Some(ContextGapPosition::Middle) {
            42
        } else {
            21
        },
        DiffDisplayRow::Split { .. } => 21,
        DiffDisplayRow::Unified { .. } => 21,
        DiffDisplayRow::Empty { .. } => 180,
    }
}

/// The file that a row belongs to; the gap between files belongs to none.
pub open spec fn file_of(row: DiffDisplayRow) -> Option<usize> {
    match row {
        DiffDisplayRow::FileGap => None,
        DiffDisplayRow::FileHeader { file_index } => Some(file_index as usize),
        DiffDisplayRow::Separator { file_index, .. } => Some(file_index as usize),
        DiffDisplayRow::Split { file_index, .. } => Some(file_index as usize),
        DiffDisplayRow::Unified { file_index, .. } => Some(file_index as usize),
        DiffDisplayRow::Empty { file_index } => Some(file_index as usize),
    }
}

impl DiffDisplayRow {
    /// The height of the row, in pixels: a gap between changes takes two code rows.
    pub fn height(&self) -> (r: u64)
        ensures
            r == height_of(*self),
    {
        match self {
            DiffDisplayRow::FileGap => 18,
            DiffDisplayRow::FileHeader { .. } => 44,
            DiffDisplayRow::Separator { position, .. } => match position {
                Some(ContextGapPosition::Middle) => DIFF_ROW_HEIGHT * 2,
                _ => DIFF_ROW_HEIGHT,
            },
            DiffDisplayRow::Split { .. } => DIFF_ROW_HEIGHT,
            DiffDisplayRow::Unified { .. } => DIFF_ROW_HEIGHT,
            DiffDisplayRow::Empty { .. } => 180,
        }
    }

    /// The file that the row belongs to.
    pub fn file_index(&self) -> (r: Option<usize>)
        ensures
            r == file_of(*self),
    {
        match self {
            DiffDisplayRow::FileGap => None,
            DiffDisplayRow::FileHeader { file_index } => Some(*file_index as usize),
            DiffDisplayRow::Separator { file_index, .. } => Some(*file_index as usize),
            DiffDisplayRow::Split { file_index, .. } => Some(*file_index as usize),
            DiffDisplayRow::Unified { file_index, .. } => Some(*file_index as usize),
            DiffDisplayRow::Empty { file_index } => Some(*file_index as usize),
        }
    }
}

/// A run of rows stored as one value.
#[derive(Clone, Copy, Debug)]
enum DiffRowChunk {
    Single(DiffDisplayRow),
    Split { file_index: u32, hunk_index: u32, old_start: u32, new_start: u32, len: u32 },
    Unified { file_index: u32, hunk_index: u32, row_start: u32, len: u32, counterpart_start: u32 },
}

/// The packed index `offset` past `start`, the sentinel staying the sentinel.
spec fn offset_index(start: u32, offset: int) -> u32 {
    if start == NO_DIFF_ROW_INDEX {
        NO_DIFF_ROW_INDEX
    } else {
        (start + offset) as u32
    }
}

spec fn chunk_len(c: DiffRowChunk) -> nat {
    match c {
        DiffRowChunk::Single(_) => 1,
        DiffRowChunk::Split { len, .. } => len as nat,
        DiffRowChunk::Unified { len, .. } => len as nat,
    }
}

spec fn chunk_row(c: DiffRowChunk, offset: int) -> DiffDisplayRow {
    match c {
        DiffRowChunk::Single(row) => row,
        DiffRowChunk::Split { file_index, hunk_index, old_start, new_start, .. } => DiffDisplayRow::Split {
            file_index,
            hunk_index,
            old_line_index: offset_index(old_start, offset),
            new_line_index: offset_index(new_start, offset),
        },
        DiffRowChunk::Unified { file_index, hunk_index, row_start, counterpart_start, .. } => DiffDisplayRow::Unified {
            file_index,
            hunk_index,
            row_index: (row_start + offset) as u32,
            counterpart_index: offset_index(counterpart_start, offset),
        },
    }
}

/// A chunk holds at least one row, and its indices stay below the sentinel.
spec fn chunk_ok(c: DiffRowChunk) -> bool {
    match c {
        DiffRowChunk::Single(_) => true,
        DiffRowChunk::Split { old_start, new_start, len, .. } => {
            &&& len > 0
            &&& (old_start == NO_DIFF_ROW_INDEX || old_start + len <= NO_DIFF_ROW_INDEX)
            &&& (new_start == NO_DIFF_ROW_INDEX || new_start + len <= NO_DIFF_ROW_INDEX)
        },
        DiffRowChunk::Unified { row_start, len, counterpart_start, .. } => {
            &&& len > 0
            &&& row_start + len <= NO_DIFF_ROW_INDEX
            &&& (counterpart_start == NO_DIFF_ROW_INDEX || counterpart_start + len
                <= NO_DIFF_ROW_INDEX)
        },
    }
}

spec fn chunk_rows(c: DiffRowChunk) -> Seq<DiffDisplayRow> {
    Seq::new(chunk_len(c), |o: int| chunk_row(c, o))
}

spec fn rows_of(cs: Seq<DiffRowChunk>) -> Seq<DiffDisplayRow>
    decreases cs.len(),
{
    if cs.len() == 0 {
        seq![]
    } else {
        rows_of(cs.drop_last()) + chunk_rows(cs.last())
    }
}

proof fn lemma_rows_of_concat(a: Seq<DiffRowChunk>, b: Seq<DiffRowChunk>)
    ensures
        rows_of(a + b) == rows_of(a) + rows_of(b),
    decreases b.len(),
{
    if b.len() == 0 {
        assert(a + b =~= a);
        assert(rows_of(a) + rows_of(b) =~= rows_of(a));
    } else {
        lemma_rows_of_concat(a, b.drop_last());
        assert((a + b).drop_last() =~= a + b.drop_last());
        assert(rows_of(a + b) =~= rows_of(a) + rows_of(b));
    }
}

/// Row `i` of the stream lies in chunk `k`, at its offset from the chunk's start.
proof fn lemma_rows_of_at(cs: Seq<DiffRowChunk>, k: int, i: int)
    requires
        0 <= k < cs.len(),
        rows_of(cs.take(k)).len() <= i < rows_of(cs.take(k)).len() + chunk_len(cs[k]),
    ensures
        i < rows_of(cs).len(),
        rows_of(cs)[i] == chunk_row(cs[k], i - rows_of(cs.take(k)).len()),
{
    let pre = cs.take(k);
    let post = cs.skip(k + 1);
    assert(cs =~= pre + (seq![cs[k]] + post));
    lemma_rows_of_concat(pre, seq![cs[k]] + post);
    lemma_rows_of_concat(seq![cs[k]], post);
    let one = seq![cs[k]];
    assert(one.drop_last() =~= Seq::<DiffRowChunk>::empty());
    assert(one.last() == cs[k]);
    assert(rows_of(one.drop_last()) =~= Seq::<DiffDisplayRow>::empty());
    assert(rows_of(one) =~= chunk_rows(cs[k]));
}

/// The stream length before chunk `k` grows by each chunk's length.
proof fn lemma_rows_of_take(cs: Seq<DiffRowChunk>, k: int)
    requires
        0 <= k < cs.len(),
    ensures
        rows_of(cs.take(k + 1)).len() == rows_of(cs.take(k)).len() + chunk_len(cs[k]),
{
    assert(cs.take(k + 1).drop_last() =~= cs.take(k));
}

/// Whether packed index `b` carries on from `a`: the sentinel after the sentinel, or
/// one more than an index.
pub open spec fn steps_on(a: u32, b: u32) -> bool {
    (a == NO_DIFF_ROW_INDEX && b == NO_DIFF_ROW_INDEX) || (a != NO_DIFF_ROW_INDEX && b
        != NO_DIFF_ROW_INDEX && b == a + 1)
}

/// Whether row `b` carries on the run of row `a`: both are rows of the lines of one
/// hunk of one file, in the same layout, and each index of `b` carries on from `a`'s.
pub open spec fn carries_on(a: DiffDisplayRow, b: DiffDisplayRow) -> bool {
    match a {
        DiffDisplayRow::Split { file_index: fa, hunk_index: ha, old_line_index: oa, new_line_index: na } => match b {
            DiffDisplayRow::Split { file_index: fb, hunk_index: hb, old_line_index: ob, new_line_index: nb } => {
                fa == fb && ha == hb && steps_on(oa, ob) && steps_on(na, nb)
            },
            _ => false,
        },
        DiffDisplayRow::Unified { file_index: fa, hunk_index: ha, row_index: ra, counterpart_index: ca } => match b {
            DiffDisplayRow::Unified { file_index: fb, hunk_index: hb, row_index: rb, counterpart_index: cb } => {
                fa == fb && ha == hb && rb == ra + 1 && steps_on(ca, cb)
            },
            _ => false,
        },
        _ => false,
    }
}

/// Where the runs of a list of rows begin: at its first row, and at every row that
/// does not carry on the row before it.
pub open spec fn run_breaks(rows: Seq<DiffDisplayRow>) -> Seq<int>
    decreases rows.len(),
{
    if rows.len() == 0 {
        seq![]
    } else if rows.len() > 1 && carries_on(rows[rows.len() - 2], rows.last()) {
        run_breaks(rows.drop_last())
    } else {
        run_breaks(rows.drop_last()).push(rows.len() - 1)
    }
}

/// The runs of two lists laid end to end are those of each, the second's moved past
/// the first, when the second's first row does not carry on the first's last.
pub proof fn lemma_run_breaks_concat(a: Seq<DiffDisplayRow>, b: Seq<DiffDisplayRow>)
    requires
        a.len() == 0 || b.len() == 0 || !carries_on(a.last(), b[0]),
    ensures
        run_breaks(a + b) == run_breaks(a) + run_breaks(b).map_values(|p: int| p + a.len()),
    decreases b.len(),
{
    if b.len() == 0 {
        assert(a + b =~= a);
        assert(run_breaks(a) + run_breaks(b).map_values(|p: int| p + a.len()) =~= run_breaks(a));
    } else {
        lemma_run_breaks_concat(a, b.drop_last());
        let ab = a + b;
        assert(ab.drop_last() =~= a + b.drop_last());
        assert(ab.last() == b.last());
        if b.len() > 1 {
            assert(ab[ab.len() - 2] == b[b.len() - 2]);
        } else if a.len() > 0 {
            assert(ab[ab.len() - 2] == a.last());
            assert(b.drop_last() =~= Seq::<DiffDisplayRow>::empty());
        } else {
            assert(b.drop_last() =~= Seq::<DiffDisplayRow>::empty());
        }
        assert(run_breaks(ab) =~= run_breaks(a) + run_breaks(b).map_values(|p: int| p + a.len()));
    }
}

/// A single row is a run of its own.
pub proof fn lemma_run_breaks_single(row: DiffDisplayRow)
    ensures
        run_breaks(seq![row]) == seq![0int],
{
    assert(seq![row].drop_last() =~= Seq::<DiffDisplayRow>::empty());
    assert(run_breaks(Seq::<DiffDisplayRow>::empty()) == Seq::<int>::empty());
    assert(run_breaks(seq![row]) =~= seq![0int]);
}

/// A row that is no line row starts a run of its own.
pub proof fn lemma_run_breaks_push_plain(rows: Seq<DiffDisplayRow>, row: DiffDisplayRow)
    requires
        !(row is Split || row is Unified),
    ensures
        run_breaks(rows.push(row)) == run_breaks(rows).push(rows.len() as int),
{
    assert(rows.push(row) =~= rows + seq![row]);
    lemma_run_breaks_single(row);
    lemma_run_breaks_concat(rows, seq![row]);
    assert(seq![0int].map_values(|p: int| p + rows.len()) =~= seq![rows.len() as int]);
}

/// Rows that each carry on the one before form one run.
proof fn lemma_run_breaks_one_run(r: Seq<DiffDisplayRow>)
    requires
        r.len() > 0,
        forall|j: int| 0 < j < r.len() ==> carries_on(r[j - 1], #[trigger] r[j]),
    ensures
        run_breaks(r) == seq![0int],
    decreases r.len(),
{
    if r.len() == 1 {
        assert(r =~= seq![r[0]]);
        lemma_run_breaks_single(r[0]);
    } else {
        let d = r.drop_last();
        assert forall|j: int| 0 < j < d.len() implies carries_on(d[j - 1], #[trigger] d[j]) by {
            assert(carries_on(r[j - 1], r[j]));
        }
        lemma_run_breaks_one_run(d);
        assert(carries_on(r[r.len() - 2], r[r.len() - 1]));
    }
}

/// A run that begins at `start` and lasts to `end` adds one break, at `start`.
proof fn lemma_run_breaks_extend(all: Seq<DiffDisplayRow>, start: int, end: int)
    requires
        0 <= start < end <= all.len(),
        start == 0 || !carries_on(all[start - 1], all[start]),
        forall|j: int| start < j < end ==> carries_on(all[j - 1], #[trigger] all[j]),
    ensures
        run_breaks(all.take(end)) == run_breaks(all.take(start)).push(start),
{
    let a = all.take(start);
    let b = all.subrange(start, end);
    assert(all.take(end) =~= a + b);
    assert forall|j: int| 0 < j < b.len() implies carries_on(b[j - 1], #[trigger] b[j]) by {
        assert(carries_on(all[start + j - 1], all[start + j]));
    }
    lemma_run_breaks_one_run(b);
    if start > 0 {
        assert(a.last() == all[start - 1]);
    }
    lemma_run_breaks_concat(a, b);
    assert(run_breaks(b).map_values(|p: int| p + a.len()) =~= seq![start]);
    assert(run_breaks(all.take(end)) =~= run_breaks(a).push(start));
}

/// One step of a run of line indices: the next index carries on the run from `first`
/// exactly when it carries on the index before it.
proof fn lemma_follows_step(prev: Option<usize>, next: Option<usize>, first: Option<usize>, o: int)
    requires
        o >= 1,
        follows(prev, first, o - 1),
        prev.unwrap_or(0) < NO_DIFF_ROW_INDEX,
        next.unwrap_or(0) < NO_DIFF_ROW_INDEX,
    ensures
        follows(next, first, o) == steps_on(packed(prev), packed(next)),
{
}

/// The pair at `end` carries on the run of split rows from `start` exactly when its row
/// carries on the row before it.
proof fn lemma_split_step(
    rows: Seq<(Option<usize>, Option<usize>)>,
    file_index: usize,
    hunk_index: usize,
    old_start: Option<usize>,
    new_start: Option<usize>,
    start: int,
    end: int,
)
    requires
        0 <= start < end < rows.len(),
        indices_packable(rows),
        follows(rows[end - 1].0, old_start, end - 1 - start),
        follows(rows[end - 1].1, new_start, end - 1 - start),
    ensures
        (follows(rows[end].0, old_start, end - start) && follows(rows[end].1, new_start, end - start))
            == carries_on(
            rows.map_values(|p: (Option<usize>, Option<usize>)| split_row(file_index, hunk_index, p))[end - 1],
            rows.map_values(|p: (Option<usize>, Option<usize>)| split_row(file_index, hunk_index, p))[end],
        ),
{
    let a = rows[end - 1];
    let b = rows[end];
    assert(a.0.unwrap_or(0) < NO_DIFF_ROW_INDEX && a.1.unwrap_or(0) < NO_DIFF_ROW_INDEX);
    assert(b.0.unwrap_or(0) < NO_DIFF_ROW_INDEX && b.1.unwrap_or(0) < NO_DIFF_ROW_INDEX);
    lemma_follows_step(a.0, b.0, old_start, end - start);
    lemma_follows_step(a.1, b.1, new_start, end - start);
}

/// All rows of the view, each file's rows in one stream, kept as compact chunks.
#[derive(Clone, Debug)]
pub struct DiffRowIndex {
    chunks: Vec<DiffRowChunk>,
    chunk_starts: Vec<usize>,
    len: usize,
}

impl View for DiffRowIndex {
    type V = Seq<DiffDisplayRow>;

    closed spec fn view(&self) -> Seq<DiffDisplayRow> {
        rows_of(self.chunks@)
    }
}

impl DiffRowIndex {
    /// Each chunk holds rows, starts where the rows before it end, and the length is the total.
    pub closed spec fn wf(self) -> bool {
        &&& self.chunk_starts@.len() == self.chunks@.len()
        &&& forall|k: int| 0 <= k < self.chunks@.len() ==> chunk_ok(#[trigger] self.chunks@[k])
        &&& forall|k: int|
            0 <= k < self.chunks@.len() ==> #[trigger] self.chunk_starts@[k] == rows_of(
                self.chunks@.take(k),
            ).len()
        &&& self.len == rows_of(self.chunks@).len()
    }

    /// The positions where chunks start; a drain can only cut there.
    pub closed spec fn chunk_boundaries(self) -> Seq<usize> {
        self.chunk_starts@
    }

    /// The positions where chunks start, as integers.
    pub open spec fn chunk_starts_at(self) -> Seq<int> {
        self.chunk_boundaries().map_values(|b: usize| b as int)
    }

    /// An index with no rows.
    pub fn new() -> (r: Self)
        ensures
            r.wf(),
            r@ == Seq::<DiffDisplayRow>::empty(),
            r.chunk_starts_at() == Seq::<int>::empty(),
    {
        let r = DiffRowIndex { chunks: Vec::new(), chunk_starts: Vec::new(), len: 0 };
        assert(r.chunk_starts_at() =~= Seq::<int>::empty());
        r
    }

    /// The number of rows.
    pub fn len(&self) -> (r: usize)
        requires
            self.wf(),
        ensures
            r == self@.len(),
    {
        self.len
    }

    /// Whether there are no rows.
    pub fn is_empty(&self) -> (r: bool)
        requires
            self.wf(),
        ensures
            r == (self@.len() == 0),
    {
        self.len == 0
    }

    /// The number of chunks that hold the rows.
    pub fn chunk_count(&self) -> (r: usize)
        requires
            self.wf(),
        ensures
            r == self.chunk_boundaries().len(),
    {
        self.chunks.len()
    }

    /// The row at `index`, if there is one.
    pub fn get(&self, index: usize) -> (r: Option<DiffDisplayRow>)
        requires
            self.wf(),
        ensures
            r == (if index < self@.len() {
                Some(self@[index as int])
            } else {
                None::<DiffDisplayRow>
            }),
    {
        if index >= self.len {
            return None;
        }
        let ghost cs = self.chunks@;
        proof {
            lemma_starts_sorted(cs);
        }
        let mut lo: usize = 0;
        let mut hi: usize = self.chunk_starts.len();
        while lo < hi
            invariant
                self.wf(),
                cs == self.chunks@,
                index < self@.len(),
                lo <= hi <= self.chunk_starts@.len(),
                forall|k: int| 0 <= k < lo ==> #[trigger] self.chunk_starts@[k] <= index,
                forall|k: int|
                    hi <= k < self.chunk_starts@.len() ==> #[trigger] self.chunk_starts@[k] > index,
                forall|a: int, b: int|
                    0 <= a < b < cs.len() ==> rows_of(cs.take(a)).len() < rows_of(cs.take(b)).len(),
            decreases hi - lo,
        {
            let mid = lo + (hi - lo) / 2;
            if self.chunk_starts[mid] <= index {
                lo = mid + 1;
            } else {
                hi = mid;
            }
        }
        proof {
            if lo == 0 {
                if cs.len() > 0 {
                    assert(self.chunk_starts@[0] == rows_of(cs.take(0)).len());
                    assert(cs.take(0) =~= Seq::<DiffRowChunk>::empty());
                } else {
                    assert(rows_of(cs) =~= Seq::<DiffDisplayRow>::empty());
                }
            }
        }
        let k = lo - 1;
        let start = self.chunk_starts[k];
        proof {
            if k + 1 < cs.len() {
                assert(self.chunk_starts@[k + 1] > index);
                lemma_rows_of_take(cs, k as int);
            } else {
                lemma_rows_of_take(cs, k as int);
                assert(cs.take(k + 1) =~= cs);
            }
            lemma_rows_of_at(cs, k as int, index as int);
        }
        self.chunks[k].row(index - start)
    }
}

/// The stream before chunk `b` holds the stream before chunk `a` and all of chunk `a`.
proof fn lemma_take_len(cs: Seq<DiffRowChunk>, a: int, b: int)
    requires
        0 <= a < b <= cs.len(),
    ensures
        rows_of(cs.take(a)).len() + chunk_len(cs[a]) <= rows_of(cs.take(b)).len(),
    decreases b - a,
{
    if b == a + 1 {
        lemma_rows_of_take(cs, a);
    } else {
        lemma_take_len(cs, a, b - 1);
        lemma_rows_of_take(cs, b - 1);
    }
}

/// A split row of a hunk: an old line index and a new line index, either of them absent.
pub open spec fn split_row(file_index: usize, hunk_index: usize, pair: (Option<usize>, Option<usize>)) -> DiffDisplayRow {
    DiffDisplayRow::Split {
        file_index: file_index as u32,
        hunk_index: hunk_index as u32,
        old_line_index: packed(pair.0),
        new_line_index: packed(pair.1),
    }
}

/// A unified row of a hunk: a line index and the index of the line it pairs with, if any.
pub open spec fn unified_row(file_index: usize, hunk_index: usize, row: int, counterpart: Option<usize>) -> DiffDisplayRow {
    DiffDisplayRow::Unified {
        file_index: file_index as u32,
        hunk_index: hunk_index as u32,
        row_index: row as u32,
        counterpart_index: packed(counterpart),
    }
}

/// Every present index is below the sentinel.
pub open spec fn indices_packable(rows: Seq<(Option<usize>, Option<usize>)>) -> bool {
    forall|i: int|
        0 <= i < rows.len() ==> (#[trigger] rows[i]).0.unwrap_or(0) < NO_DIFF_ROW_INDEX
            && rows[i].1.unwrap_or(0) < NO_DIFF_ROW_INDEX
}

/// Whether `next` is `first` moved `offset` further, absence following absence.
pub open spec fn follows(next: Option<usize>, first: Option<usize>, offset: int) -> bool {
    match (next, first) {
        (Some(n), Some(f)) => n == f + offset,
        (None, None) => true,
        _ => false,
    }
}

/// The last file index at or before row `i`.
pub open spec fn file_index_before(rows: Seq<DiffDisplayRow>, i: int) -> Option<usize>
    decreases i + 1,
{
    if i < 0 {
        None
    } else if i < rows.len() && file_of(rows[i]) is Some {
        file_of(rows[i])
    } else {
        file_index_before(rows, i - 1)
    }
}

/// Whether `next` is `first` moved `offset` further.
fn continues(next: Option<usize>, first: Option<usize>, offset: usize) -> (r: bool)
    ensures
        r == follows(next, first, offset as int),
{
    match (next, first) {
        (Some(n), Some(f)) => n >= f && n - f == offset,
        (None, None) => true,
        _ => false,
    }
}

proof fn lemma_rows_of_push(cs: Seq<DiffRowChunk>, c: DiffRowChunk)
    ensures
        rows_of(cs.push(c)) == rows_of(cs) + chunk_rows(c),
        forall|k: int| 0 <= k <= cs.len() ==> #[trigger] cs.push(c).take(k) == cs.take(k),
{
    assert(cs.push(c).drop_last() =~= cs);
    assert forall|k: int| 0 <= k <= cs.len() implies #[trigger] cs.push(c).take(k) == cs.take(k) by {
        assert(cs.push(c).take(k) =~= cs.take(k));
    }
}

proof fn lemma_rows_of_split(cs: Seq<DiffRowChunk>, k: int)
    requires
        0 <= k <= cs.len(),
    ensures
        rows_of(cs) == rows_of(cs.take(k)) + rows_of(cs.skip(k)),
{
    assert(cs =~= cs.take(k) + cs.skip(k));
    lemma_rows_of_concat(cs.take(k), cs.skip(k));
}

/// The number of entries of a sorted list below `x`.
fn count_below(v: &Vec<usize>, x: usize) -> (r: usize)
    requires
        forall|a: int, b: int| 0 <= a < b < v@.len() ==> v@[a] < v@[b],
    ensures
        r <= v@.len(),
        forall|i: int| 0 <= i < r ==> #[trigger] v@[i] < x,
        forall|i: int| r <= i < v@.len() ==> #[trigger] v@[i] >= x,
{
    let mut lo: usize = 0;
    let mut hi: usize = v.len();
    while lo < hi
        invariant
            lo <= hi <= v@.len(),
            forall|a: int, b: int| 0 <= a < b < v@.len() ==> v@[a] < v@[b],
            forall|i: int| 0 <= i < lo ==> #[trigger] v@[i] < x,
            forall|i: int| hi <= i < v@.len() ==> #[trigger] v@[i] >= x,
        decreases hi - lo,
    {
        let mid = lo + (hi - lo) / 2;
        if v[mid] < x {
            lo = mid + 1;
        } else {
            hi = mid;
        }
    }
    lo
}

impl DiffRowIndex {
    /// Appends the rows of a chunk.
    fn push_chunk(&mut self, chunk: DiffRowChunk)
        requires
            old(self).wf(),
            chunk_len(chunk) == 0 || chunk_ok(chunk),
            old(self)@.len() + chunk_len(chunk) <= usize::MAX,
        ensures
            final(self).wf(),
            final(self)@ == old(self)@ + chunk_rows(chunk),
            final(self).chunk_starts_at() == if chunk_len(chunk) == 0 {
                old(self).chunk_starts_at()
            } else {
                old(self).chunk_starts_at().push(old(self)@.len() as int)
            },
    {
        let n = chunk_length(&chunk);
        if n == 0 {
            assert(chunk_rows(chunk) =~= Seq::<DiffDisplayRow>::empty());
            assert(self@ + chunk_rows(chunk) =~= self@);
            return;
        }
        let ghost cs = self.chunks@;
        self.chunk_starts.push(self.len);
        self.chunks.push(chunk);
        self.len = self.len + n;
        proof {
            lemma_rows_of_push(cs, chunk);
            assert(cs.push(chunk).take(cs.len() as int) =~= cs);
            assert forall|k: int| 0 <= k < self.chunks@.len() implies #[trigger] self.chunk_starts@[k]
                == rows_of(self.chunks@.take(k)).len() by {
                if k < cs.len() {
                    assert(self.chunks@.take(k) == cs.take(k));
                }
            }
            assert forall|k: int| 0 <= k < self.chunks@.len() implies chunk_ok(
                #[trigger] self.chunks@[k],
            ) by {
                if k < cs.len() {
                    assert(self.chunks@[k] == cs[k]);
                }
            }
            assert(self.chunk_starts_at() =~= old(self).chunk_starts_at().push(old(self)@.len() as int));
        }
    }

    /// Appends one row.
    pub fn push_single(&mut self, row: DiffDisplayRow)
        requires
            old(self).wf(),
            old(self)@.len() < usize::MAX,
        ensures
            final(self).wf(),
            final(self)@ == old(self)@.push(row),
            final(self).chunk_starts_at() == old(self).chunk_starts_at().push(old(self)@.len() as int),
    {
        self.push_chunk(DiffRowChunk::Single(row));
        assert(chunk_rows(DiffRowChunk::Single(row)) =~= seq![row]);
    }

    /// Appends the split rows of a hunk, one per pair of line indices, runs of consecutive
    /// pairs kept as one chunk.
    pub fn push_split(&mut self, file_index: usize, hunk_index: usize, rows: &[(Option<usize>, Option<usize>)])
        requires
            old(self).wf(),
            file_index < NO_DIFF_ROW_INDEX,
            hunk_index < NO_DIFF_ROW_INDEX,
            rows@.len() < NO_DIFF_ROW_INDEX,
            indices_packable(rows@),
            old(self)@.len() + rows@.len() <= usize::MAX,
        ensures
            final(self).wf(),
            final(self)@ == old(self)@ + rows@.map_values(|p: (Option<usize>, Option<usize>)| split_row(file_index, hunk_index, p)),
            final(self).chunk_starts_at() == old(self).chunk_starts_at() + run_breaks(
                rows@.map_values(|p: (Option<usize>, Option<usize>)| split_row(file_index, hunk_index, p)),
            ).map_values(|b: int| b + old(self)@.len()),
    {
        let ghost base = self@;
        let ghost all = rows@.map_values(|p: (Option<usize>, Option<usize>)| split_row(file_index, hunk_index, p));
        let ghost starts0 = self.chunk_starts_at();
        let mut start: usize = 0;
        while start < rows.len()
            invariant
                self.wf(),
                all == rows@.map_values(|p: (Option<usize>, Option<usize>)| split_row(file_index, hunk_index, p)),
                file_index < NO_DIFF_ROW_INDEX,
                hunk_index < NO_DIFF_ROW_INDEX,
                rows@.len() < NO_DIFF_ROW_INDEX,
                indices_packable(rows@),
                base.len() + rows@.len() <= usize::MAX,
                start <= rows@.len(),
                self@ == base + all.take(start as int),
                self.chunk_starts_at() == starts0 + run_breaks(all.take(start as int)).map_values(
                    |b: int| b + base.len(),
                ),
                start == 0 || start == rows@.len() || !carries_on(all[start - 1], all[start as int]),
            decreases rows@.len() - start,
        {
            let (old_start, new_start) = rows[start];
            let mut end = start + 1;
            while end < rows.len() && continues(rows[end].0, old_start, end - start) && continues(
                rows[end].1,
                new_start,
                end - start,
            )
                invariant
                    start < end <= rows@.len(),
                    rows@[start as int] == (old_start, new_start),
                    forall|o: int|
                        0 <= o < end - start ==> follows(#[trigger] rows@[start + o].0, old_start, o)
                            && follows(rows@[start + o].1, new_start, o),
                    forall|j: int| start < j < end ==> carries_on(all[j - 1], #[trigger] all[j]),
                    all == rows@.map_values(|p: (Option<usize>, Option<usize>)| split_row(file_index, hunk_index, p)),
                    indices_packable(rows@),
                decreases rows@.len() - end,
            {
                proof {
                    let o = end - 1 - start;
                    assert(follows(rows@[start + o].0, old_start, o) && follows(rows@[start + o].1, new_start, o));
                    lemma_split_step(rows@, file_index, hunk_index, old_start, new_start, start as int, end as int);
                }
                end += 1;
            }
            proof {
                if end < rows@.len() {
                    let o = end - 1 - start;
                    assert(follows(rows@[start + o].0, old_start, o) && follows(rows@[start + o].1, new_start, o));
                    lemma_split_step(rows@, file_index, hunk_index, old_start, new_start, start as int, end as int);
                }
                lemma_run_breaks_extend(all, start as int, end as int);
            }
            let len = end - start;
            let chunk = DiffRowChunk::Split {
                file_index: file_index as u32,
                hunk_index: hunk_index as u32,
                old_start: match old_start {
                    Some(l) => l as u32,
                    None => NO_DIFF_ROW_INDEX,
                },
                new_start: match new_start {
                    Some(l) => l as u32,
                    None => NO_DIFF_ROW_INDEX,
                },
                len: len as u32,
            };
            proof {
                let last = rows@[end - 1];
                assert(last == rows@[start + (len - 1)]);
                assert(last.0.unwrap_or(0) < NO_DIFF_ROW_INDEX && last.1.unwrap_or(0) < NO_DIFF_ROW_INDEX);
                assert(follows(last.0, old_start, len - 1) && follows(last.1, new_start, len - 1));
                assert(old_start.unwrap_or(0) < NO_DIFF_ROW_INDEX && new_start.unwrap_or(0) < NO_DIFF_ROW_INDEX);
                assert(chunk_rows(chunk) =~= all.subrange(start as int, end as int)) by {
                    assert forall|o: int| 0 <= o < len implies #[trigger] chunk_rows(chunk)[o] == all[start + o] by {
                        assert(follows(rows@[start + o].0, old_start, o) && follows(rows@[start + o].1, new_start, o));
                    }
                }
                assert(all.take(end as int) =~= all.take(start as int) + all.subrange(start as int, end as int));
            }
            self.push_chunk(chunk);
            proof {
                assert(self.chunk_starts_at() =~= starts0 + run_breaks(all.take(end as int)).map_values(
                    |b: int| b + base.len(),
                ));
            }
            start = end;
        }
        assert(all.take(start as int) =~= all);
    }

    /// Appends the unified rows `range` of a hunk, each with the line it pairs with, runs
    /// of consecutive rows kept as one chunk.
    pub fn push_unified(
        &mut self,
        file_index: usize,
        hunk_index: usize,
        range: std::ops::Range<usize>,
        counterparts: &[Option<usize>],
    )
        requires
            old(self).wf(),
            file_index < NO_DIFF_ROW_INDEX,
            hunk_index < NO_DIFF_ROW_INDEX,
            range.start <= range.end <= counterparts@.len(),
            range.end < NO_DIFF_ROW_INDEX,
            forall|i: int| 0 <= i < counterparts@.len() ==> (#[trigger] counterparts@[i]).unwrap_or(0) < NO_DIFF_ROW_INDEX,
            old(self)@.len() + (range.end - range.start) <= usize::MAX,
        ensures
            final(self).wf(),
            final(self)@ == old(self)@ + Seq::new(
                (range.end - range.start) as nat,
                |i: int| unified_row(file_index, hunk_index, range.start + i, counterparts@[range.start + i]),
            ),
            final(self).chunk_starts_at() == old(self).chunk_starts_at() + run_breaks(
                Seq::new(
                    (range.end - range.start) as nat,
                    |i: int| unified_row(file_index, hunk_index, range.start + i, counterparts@[range.start + i]),
                ),
            ).map_values(|b: int| b + old(self)@.len()),
    {
        let ghost base = self@;
        let ghost all = Seq::new(
            (range.end - range.start) as nat,
            |i: int| unified_row(file_index, hunk_index, range.start + i, counterparts@[range.start + i]),
        );
        let ghost starts0 = self.chunk_starts_at();
        let first = range.start;
        let stop = range.end;
        let mut start = first;
        while start < stop
            invariant
                self.wf(),
                all == Seq::new(
                    (stop - first) as nat,
                    |i: int| unified_row(file_index, hunk_index, first + i, counterparts@[first + i]),
                ),
                file_index < NO_DIFF_ROW_INDEX,
                hunk_index < NO_DIFF_ROW_INDEX,
                first <= start <= stop <= counterparts@.len(),
                stop < NO_DIFF_ROW_INDEX,
                forall|i: int| 0 <= i < counterparts@.len() ==> (#[trigger] counterparts@[i]).unwrap_or(0) < NO_DIFF_ROW_INDEX,
                base.len() + (stop - first) <= usize::MAX,
                self@ == base + all.take(start - first),
                self.chunk_starts_at() == starts0 + run_breaks(all.take(start - first)).map_values(
                    |b: int| b + base.len(),
                ),
                start == first || start == stop || !carries_on(all[start - first - 1], all[start - first]),
            decreases stop - start,
        {
            let counterpart_start = counterparts[start];
            let mut end = start + 1;
            while end < stop && continues(counterparts[end], counterpart_start, end - start)
                invariant
                    start < end <= stop <= counterparts@.len(),
                    counterparts@[start as int] == counterpart_start,
                    forall|o: int| 0 <= o < end - start ==> follows(#[trigger] counterparts@[start + o], counterpart_start, o),
                    first <= start,
                    stop < NO_DIFF_ROW_INDEX,
                    forall|i: int| 0 <= i < counterparts@.len() ==> (#[trigger] counterparts@[i]).unwrap_or(0) < NO_DIFF_ROW_INDEX,
                    all == Seq::new(
                        (stop - first) as nat,
                        |i: int| unified_row(file_index, hunk_index, first + i, counterparts@[first + i]),
                    ),
                    forall|j: int| start - first < j < end - first ==> carries_on(all[j - 1], #[trigger] all[j]),
                decreases stop - end,
            {
                proof {
                    let o = end - 1 - start;
                    assert(follows(counterparts@[start + o], counterpart_start, o));
                    lemma_follows_step(counterparts@[end - 1], counterparts@[end as int], counterpart_start, end - start);
                    assert(all[end - first - 1] == unified_row(file_index, hunk_index, end - 1, counterparts@[end - 1]));
                    assert(all[end - first] == unified_row(file_index, hunk_index, end as int, counterparts@[end as int]));
                }
                end += 1;
            }
            proof {
                if end < stop {
                    let o = end - 1 - start;
                    assert(follows(counterparts@[start + o], counterpart_start, o));
                    lemma_follows_step(counterparts@[end - 1], counterparts@[end as int], counterpart_start, end - start);
                    assert(all[end - first - 1] == unified_row(file_index, hunk_index, end - 1, counterparts@[end - 1]));
                    assert(all[end - first] == unified_row(file_index, hunk_index, end as int, counterparts@[end as int]));
                }
                lemma_run_breaks_extend(all, start - first, end - first);
            }
            let len = end - start;
            let chunk = DiffRowChunk::Unified {
                file_index: file_index as u32,
                hunk_index: hunk_index as u32,
                row_start: start as u32,
                len: len as u32,
                counterpart_start: match counterpart_start {
                    Some(c) => c as u32,
                    None => NO_DIFF_ROW_INDEX,
                },
            };
            proof {
                assert(counterparts@[end - 1] == counterparts@[start + (len - 1)]);
                assert(counterparts@[end - 1].unwrap_or(0) < NO_DIFF_ROW_INDEX);
                assert(follows(counterparts@[end - 1], counterpart_start, len - 1));
                assert(counterpart_start.unwrap_or(0) < NO_DIFF_ROW_INDEX);
                assert(chunk_rows(chunk) =~= all.subrange(start - first, end - first)) by {
                    assert forall|o: int| 0 <= o < len implies #[trigger] chunk_rows(chunk)[o] == all[start - first + o] by {
                        assert(follows(counterparts@[start + o], counterpart_start, o));
                    }
                }
                assert(all.take(end - first) =~= all.take(start - first) + all.subrange(start - first, end - first));
            }
            self.push_chunk(chunk);
            proof {
                assert(self.chunk_starts_at() =~= starts0 + run_breaks(all.take(end - first)).map_values(
                    |b: int| b + base.len(),
                ));
            }
            start = end;
        }
        assert(all.take(start - first) =~= all);
    }

    /// Appends all rows of another index.
    pub fn extend(&mut self, other: DiffRowIndex)
        requires
            old(self).wf(),
            other.wf(),
            old(self)@.len() + other@.len() <= usize::MAX,
        ensures
            final(self).wf(),
            final(self)@ == old(self)@ + other@,
            final(self).chunk_starts_at() == old(self).chunk_starts_at() + other.chunk_starts_at().map_values(
                |b: int| b + old(self)@.len(),
            ),
    {
        let ghost base = self@;
        let ghost cs = other.chunks@;
        let ghost starts0 = self.chunk_starts_at();
        let ghost ostarts = other.chunk_starts_at();
        let mut i: usize = 0;
        while i < other.chunks.len()
            invariant
                self.wf(),
                other.wf(),
                cs == other.chunks@,
                ostarts == other.chunk_starts_at(),
                forall|k: int| 0 <= k < cs.len() ==> chunk_ok(#[trigger] cs[k]),
                base.len() + rows_of(cs).len() <= usize::MAX,
                i <= cs.len(),
                self@ == base + rows_of(cs.take(i as int)),
                self.chunk_starts_at() == starts0 + ostarts.take(i as int).map_values(|b: int| b + base.len()),
            decreases cs.len() - i,
        {
            proof {
                lemma_take_len(cs, i as int, cs.len() as int);
                assert(cs.take(cs.len() as int) =~= cs);
                assert(cs.take(i + 1) =~= cs.take(i as int).push(cs[i as int]));
                lemma_rows_of_push(cs.take(i as int), cs[i as int]);
                assert(chunk_ok(cs[i as int]));
            }
            self.push_chunk(other.chunks[i]);
            proof {
                assert(other.chunk_starts@[i as int] == rows_of(cs.take(i as int)).len());
                assert(ostarts[i as int] == other.chunk_starts@[i as int] as int);
                assert(self.chunk_starts_at() =~= starts0 + ostarts.take(i + 1).map_values(
                    |b: int| b + base.len(),
                ));
            }
            i += 1;
        }
        assert(cs.take(i as int) =~= cs);
        assert(ostarts.take(i as int) =~= ostarts);
    }

    /// All rows, in order.
    pub fn iter(&self) -> (r: Vec<DiffDisplayRow>)
        requires
            self.wf(),
        ensures
            r@ == self@,
    {
        let ghost cs = self.chunks@;
        let mut out: Vec<DiffDisplayRow> = Vec::new();
        let mut i: usize = 0;
        while i < self.chunks.len()
            invariant
                self.wf(),
                cs == self.chunks@,
                i <= cs.len(),
                out@ == rows_of(cs.take(i as int)),
            decreases cs.len() - i,
        {
            let c = self.chunks[i];
            let n = chunk_length(&c);
            proof {
                assert(chunk_ok(c));
            }
            let ghost before = out@;
            let mut o: usize = 0;
            while o < n
                invariant
                    chunk_ok(c),
                    n == chunk_len(c),
                    o <= n,
                    out@ == before + chunk_rows(c).take(o as int),
                decreases n - o,
            {
                match c.row(o) {
                    Some(row) => out.push(row),
                    None => {},
                }
                proof {
                    assert(chunk_rows(c).take(o + 1) =~= chunk_rows(c).take(o as int).push(chunk_row(c, o as int)));
                }
                o += 1;
            }
            proof {
                assert(chunk_rows(c).take(o as int) =~= chunk_rows(c));
                assert(cs.take(i + 1) =~= cs.take(i as int).push(c));
                lemma_rows_of_push(cs.take(i as int), c);
            }
            i += 1;
        }
        assert(cs.take(i as int) =~= cs);
        out
    }

    /// The file of the last row, at or before `index`, that belongs to one.
    pub fn file_index_at(&self, index: usize) -> (r: Option<usize>)
        requires
            self.wf(),
        ensures
            r == file_index_before(self@, index as int),
    {
        let mut i = index;
        loop
            invariant
                self.wf(),
                i <= index,
                file_index_before(self@, i as int) == file_index_before(self@, index as int),
            decreases i,
        {
            match self.get(i) {
                Some(row) => match row.file_index() {
                    Some(f) => {
                        return Some(f);
                    },
                    None => {},
                },
                None => {},
            }
            if i == 0 {
                assert(file_index_before(self@, -1) is None);
                return None;
            }
            i -= 1;
        }
    }

    /// Removes the rows `start..end` when both ends fall where chunks begin (or `end` at the
    /// end); answers whether it did.
    pub fn drain(&mut self, start: usize, end: usize) -> (r: bool)
        requires
            old(self).wf(),
            start <= end,
        ensures
            r == (old(self).chunk_boundaries().contains(start) && (old(self).chunk_boundaries().contains(end)
                || end == old(self)@.len())),
            r ==> final(self).wf() && final(self)@ == old(self)@.subrange(0, start as int) + old(
                self,
            )@.subrange(end as int, old(self)@.len() as int),
            !r ==> *final(self) == *old(self),
    {
        let ghost cs = self.chunks@;
        let ghost starts = self.chunk_starts@;
        proof {
            lemma_starts_within(cs, starts);
        }
        let sc = count_below(&self.chunk_starts, start);
        let ec = count_below(&self.chunk_starts, end);
        let start_ok = sc < self.chunk_starts.len() && self.chunk_starts[sc] == start;
        let end_ok = if ec < self.chunk_starts.len() {
            self.chunk_starts[ec] == end
        } else {
            self.len == end
        };
        proof {
            lemma_cut_found(starts, self.len as int, sc as int, start);
            lemma_cut_found(starts, self.len as int, ec as int, end);
        }
        if !start_ok || !end_ok {
            return false;
        }
        proof {
            if sc > ec {
                assert(starts[ec as int] >= end);
                assert(starts[ec as int] < starts[sc as int]);
            }
        }
        let removed = end - start;
        let mut tail = self.chunks.split_off(ec);
        self.chunks.truncate(sc);
        self.chunks.append(&mut tail);
        let mut new_starts: Vec<usize> = Vec::new();
        let mut k: usize = 0;
        while k < sc
            invariant
                self.chunk_starts@ == starts,
                k <= sc <= starts.len(),
                new_starts@ == starts.take(k as int),
            decreases sc - k,
        {
            new_starts.push(self.chunk_starts[k]);
            k += 1;
            assert(new_starts@ =~= starts.take(k as int));
        }
        let mut k = ec;
        while k < self.chunk_starts.len()
            invariant
                self.chunk_starts@ == starts,
                ec <= k <= starts.len(),
                sc <= ec,
                forall|i: int| ec <= i < starts.len() ==> #[trigger] starts[i] >= end,
                removed == end - start,
                new_starts@.len() == sc + (k - ec),
                forall|i: int| 0 <= i < sc ==> #[trigger] new_starts@[i] == starts[i],
                forall|i: int|
                    sc <= i < sc + (k - ec) ==> #[trigger] new_starts@[i] == starts[i + (ec - sc)]
                        - removed,
            decreases starts.len() - k,
        {
            new_starts.push(self.chunk_starts[k] - removed);
            k += 1;
        }
        self.chunk_starts = new_starts;
        self.len = self.len - removed;
        proof {
            assert(self.chunks@ =~= cs.take(sc as int) + cs.skip(ec as int));
            lemma_drained(cs, sc as int, ec as int, start as int, end as int, self.chunks@, self.chunk_starts@);
        }
        true
    }
}

/// Every row lies in some chunk.
proof fn lemma_chunk_of(cs: Seq<DiffRowChunk>, i: int)
    requires
        0 <= i < rows_of(cs).len(),
    ensures
        exists|k: int|
            0 <= k < cs.len() && rows_of(cs.take(k)).len() <= i < rows_of(cs.take(k)).len()
                + chunk_len(#[trigger] cs[k]),
    decreases cs.len(),
{
    let init = cs.drop_last();
    assert(rows_of(cs) == rows_of(init) + chunk_rows(cs.last()));
    if i < rows_of(init).len() {
        lemma_chunk_of(init, i);
        let k = choose|k: int|
            0 <= k < init.len() && rows_of(init.take(k)).len() <= i < rows_of(init.take(k)).len()
                + chunk_len(#[trigger] init[k]);
        assert(cs.take(k) =~= init.take(k));
        assert(cs[k] == init[k]);
    } else {
        let k = cs.len() - 1;
        assert(cs.take(k) =~= init);
        assert(cs[k] == cs.last());
    }
}

impl DiffRowIndex {
    /// The rows can be counted in a `usize`.
    pub proof fn lemma_len_fits(self)
        requires
            self.wf(),
        ensures
            self@.len() <= usize::MAX,
    {
    }

    /// A row that shows no line of a hunk (a gap between files, a file's header, a
    /// separator, an empty file's row) fills a chunk by itself: a chunk begins at it, and
    /// another right after it unless the rows end there.
    pub proof fn lemma_lone_rows_cut(self, i: int)
        requires
            self.wf(),
            0 <= i < self@.len(),
            !(self@[i] is Split),
            !(self@[i] is Unified),
        ensures
            self.chunk_boundaries().contains(i as usize),
            i + 1 == self@.len() || self.chunk_boundaries().contains((i + 1) as usize),
    {
        let cs = self.chunks@;
        lemma_chunk_of(cs, i);
        let k = choose|k: int|
            0 <= k < cs.len() && rows_of(cs.take(k)).len() <= i < rows_of(cs.take(k)).len()
                + chunk_len(#[trigger] cs[k]);
        lemma_rows_of_at(cs, k, i);
        let start = rows_of(cs.take(k)).len() as int;
        assert(chunk_ok(cs[k]));
        match cs[k] {
            DiffRowChunk::Single(_) => {},
            DiffRowChunk::Split { .. } => {
                assert(self@[i] is Split);
            },
            DiffRowChunk::Unified { .. } => {
                assert(self@[i] is Unified);
            },
        }
        assert(i == start);
        assert(self.chunk_starts@[k] == start);
        lemma_rows_of_take(cs, k);
        if k + 1 < cs.len() {
            assert(self.chunk_starts@[k + 1] == rows_of(cs.take(k + 1)).len());
        } else {
            assert(cs.take(k + 1) =~= cs);
        }
    }
}

/// A position is a chunk start exactly where the count of starts below it lands on it;
/// the end of the rows is a cut exactly where no start lies at or past it.
proof fn lemma_cut_found(starts: Seq<usize>, len: int, c: int, x: usize)
    requires
        forall|a: int, b: int| 0 <= a < b < starts.len() ==> starts[a] < starts[b],
        forall|i: int| 0 <= i < starts.len() ==> #[trigger] starts[i] < len,
        0 <= c <= starts.len(),
        forall|i: int| 0 <= i < c ==> #[trigger] starts[i] < x,
        forall|i: int| c <= i < starts.len() ==> #[trigger] starts[i] >= x,
    ensures
        (c < starts.len() && starts[c] == x) <==> starts.contains(x),
        (if c < starts.len() {
            starts[c] == x
        } else {
            len == x
        }) <==> (starts.contains(x) || x == len),
{
    if starts.contains(x) {
        let j = choose|j: int| 0 <= j < starts.len() && starts[j] == x;
        if j < c {
            assert(starts[j] < x);
        }
        if j > c {
            assert(starts[c] < starts[j]);
        }
    }
    if c < starts.len() {
        assert(starts[c] < len);
    }
}

/// The starts of a well-formed index are sorted and fall within its rows.
proof fn lemma_starts_within(cs: Seq<DiffRowChunk>, starts: Seq<usize>)
    requires
        starts.len() == cs.len(),
        forall|k: int| 0 <= k < cs.len() ==> chunk_ok(#[trigger] cs[k]),
        forall|k: int| 0 <= k < cs.len() ==> #[trigger] starts[k] == rows_of(cs.take(k)).len(),
    ensures
        forall|a: int, b: int| 0 <= a < b < starts.len() ==> starts[a] < starts[b],
        forall|i: int| 0 <= i < starts.len() ==> #[trigger] starts[i] < rows_of(cs).len(),
{
    lemma_starts_sorted(cs);
    assert forall|a: int, b: int| 0 <= a < b < starts.len() implies starts[a] < starts[b] by {
        assert(starts[a] == rows_of(cs.take(a)).len());
        assert(starts[b] == rows_of(cs.take(b)).len());
    }
    assert forall|i: int| 0 <= i < starts.len() implies #[trigger] starts[i] < rows_of(cs).len() by {
        assert(chunk_ok(cs[i]));
        assert(rows_of(cs.take(i)).len() + chunk_len(cs[i]) <= rows_of(cs).len());
    }
}

/// Cutting chunks `sc..ec` out keeps the chunks valid, shifts the later starts back by the
/// rows removed, and leaves the rows before and after the cut.
proof fn lemma_drained(
    cs: Seq<DiffRowChunk>,
    sc: int,
    ec: int,
    start: int,
    end: int,
    ncs: Seq<DiffRowChunk>,
    nstarts: Seq<usize>,
)
    requires
        forall|k: int| 0 <= k < cs.len() ==> chunk_ok(#[trigger] cs[k]),
        0 <= sc <= ec <= cs.len(),
        rows_of(cs.take(sc)).len() == start,
        ec < cs.len() ==> rows_of(cs.take(ec)).len() == end,
        ec == cs.len() ==> rows_of(cs).len() == end,
        ncs == cs.take(sc) + cs.skip(ec),
        nstarts.len() == ncs.len(),
        forall|i: int| 0 <= i < sc ==> #[trigger] nstarts[i] == rows_of(cs.take(i)).len(),
        forall|i: int|
            sc <= i < ncs.len() ==> #[trigger] nstarts[i] == rows_of(cs.take(i + (ec - sc))).len() - (
            end - start),
    ensures
        forall|k: int| 0 <= k < ncs.len() ==> chunk_ok(#[trigger] ncs[k]),
        forall|k: int| 0 <= k < ncs.len() ==> #[trigger] nstarts[k] == rows_of(ncs.take(k)).len(),
        rows_of(ncs) == rows_of(cs).subrange(0, start) + rows_of(cs).subrange(end, rows_of(cs).len() as int),
{
    lemma_rows_of_concat(cs.take(sc), cs.skip(ec));
    lemma_rows_of_split(cs, sc);
    lemma_rows_of_split(cs, ec);
    let view = rows_of(cs);
    assert(rows_of(cs.take(ec)).len() == end) by {
        if ec == cs.len() {
            assert(cs.take(ec) =~= cs);
        }
    }
    assert(rows_of(cs.take(sc)) =~= view.subrange(0, start));
    assert(rows_of(cs.skip(ec)) =~= view.subrange(end, view.len() as int));
    assert forall|k: int| 0 <= k < ncs.len() implies chunk_ok(#[trigger] ncs[k]) by {
        if k < sc {
            assert(ncs[k] == cs[k]);
        } else {
            assert(ncs[k] == cs[k + (ec - sc)]);
        }
    }
    assert forall|k: int| 0 <= k < ncs.len() implies #[trigger] nstarts[k] == rows_of(ncs.take(k)).len() by {
        if k < sc {
            assert(ncs.take(k) =~= cs.take(k));
        } else {
            let j = k + (ec - sc);
            assert(ncs.take(k) =~= cs.take(sc) + cs.subrange(ec, j));
            lemma_rows_of_concat(cs.take(sc), cs.subrange(ec, j));
            assert(cs.take(j) =~= cs.take(ec) + cs.subrange(ec, j));
            lemma_rows_of_concat(cs.take(ec), cs.subrange(ec, j));
        }
    }
}

/// The number of rows a chunk holds.
fn chunk_length(c: &DiffRowChunk) -> (r: usize)
    ensures
        r == chunk_len(*c),
{
    match c {
        DiffRowChunk::Single(_) => 1,
        DiffRowChunk::Split { len, .. } => *len as usize,
        DiffRowChunk::Unified { len, .. } => *len as usize,
    }
}

/// Chunk starts grow strictly, since every chunk holds a row.
proof fn lemma_starts_sorted(cs: Seq<DiffRowChunk>)
    requires
        forall|k: int| 0 <= k < cs.len() ==> chunk_ok(#[trigger] cs[k]),
    ensures
        forall|a: int, b: int|
            0 <= a < b < cs.len() ==> rows_of(cs.take(a)).len() < rows_of(cs.take(b)).len(),
        forall|a: int|
            0 <= a < cs.len() ==> rows_of(cs.take(a)).len() + chunk_len(#[trigger] cs[a]) <= rows_of(cs).len(),
{
    assert forall|a: int, b: int| 0 <= a < b < cs.len() implies rows_of(cs.take(a)).len() < rows_of(
        cs.take(b),
    ).len() by {
        lemma_take_len(cs, a, b);
        assert(chunk_ok(cs[a]));
    }
    assert forall|a: int| 0 <= a < cs.len() implies rows_of(cs.take(a)).len() + chunk_len(
        #[trigger] cs[a],
    ) <= rows_of(cs).len() by {
        lemma_take_len(cs, a, cs.len() as int);
        assert(cs.take(cs.len() as int) =~= cs);
    }
}

impl DiffRowChunk {
    /// The row at `offset` within a chunk.
    fn row(&self, offset: usize) -> (r: Option<DiffDisplayRow>)
        requires
            chunk_ok(*self),
        ensures
            r == (if offset < chunk_len(*self) {
                Some(chunk_row(*self, offset as int))
            } else {
                None::<DiffDisplayRow>
            }),
    {
        match self {
            DiffRowChunk::Single(row) => if offset == 0 {
                Some(*row)
            } else {
                None
            },
            DiffRowChunk::Split { file_index, hunk_index, old_start, new_start, len } => {
                if offset >= *len as usize {
                    return None;
                }
                let o = offset as u32;
                Some(
                    DiffDisplayRow::Split {
                        file_index: *file_index,
                        hunk_index: *hunk_index,
                        old_line_index: if *old_start == NO_DIFF_ROW_INDEX {
                            NO_DIFF_ROW_INDEX
                        } else {
                            *old_start + o
                        },
                        new_line_index: if *new_start == NO_DIFF_ROW_INDEX {
                            NO_DIFF_ROW_INDEX
                        } else {
                            *new_start + o
                        },
                    },
                )
            },
            DiffRowChunk::Unified { file_index, hunk_index, row_start, len, counterpart_start } => {
                if offset >= *len as usize {
                    return None;
                }
                let o = offset as u32;
                Some(
                    DiffDisplayRow::Unified {
                        file_index: *file_index,
                        hunk_index: *hunk_index,
                        row_index: *row_start + o,
                        counterpart_index: if *counterpart_start == NO_DIFF_ROW_INDEX {
                            NO_DIFF_ROW_INDEX
                        } else {
                            *counterpart_start + o
                        },
                    },
                )
            },
        }
    }
}

} // verus!
