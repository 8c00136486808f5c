//! Moving around the diff: revealing hidden context, folding files and directories,
//! stepping between files, and keeping the selection when the diff is reloaded.

use vstd::prelude::*;
use std::collections::HashSet;
use std::ops::Range;

use crate::alignment::expansion_for;
use crate::diff::{context_insertion_done, source_lines, DiffFile, DiffSet};
use crate::language::display_chars;
use crate::rows::{
    file_index_before, file_of, hidden_count, ContextExpandDirection, ContextExpansion, ContextGap,
    ContextGapPosition, ContextGapSource, DiffRowIndex, CONTEXT_LINES_PER_STEP,
};
use crate::text::{str_equal, utf8};
use crate::tree::{
    first_above, normalized_path_components, nondecreasing_offsets, path_components,
    row_index_at, row_index_at_position, strings_chars,
};
use vstd::string::StringExecFns;

verus! {

broadcast use vstd::std_specs::hash::group_hash_axioms, vstd::utf8::encode_utf8_valid_utf8,
    vstd::utf8::encode_utf8_decode_utf8;

/// No gap is listed twice among the expansions.
pub open spec fn gaps_distinct(exps: Seq<(ContextGap, ContextExpansion)>) -> bool {
    forall|a: int, b: int| 0 <= a < b < exps.len() ==> (#[trigger] exps[a]).0 != (#[trigger] exps[b]).0
}

/// Old lines of a file to reveal next to a hunk: before its lines when `at_start`, else
/// after them, `count` lines from old line `old_start` (new line `new_start`).
#[derive(Clone, Copy, Debug, PartialEq, Eq, Structural)]
pub struct ContextRequest {
    pub hunk_index: usize,
    pub at_start: bool,
    pub old_start: u32,
    pub new_start: u32,
    pub count: usize,
}

/// `a + b`, or `u32::MAX` when that is larger.
pub open spec fn saturating_sum(a: u32, b: int) -> u32 {
    if a + b > u32::MAX {
        u32::MAX
    } else {
        (a + b) as u32
    }
}

/// How many lines one step reveals of a gap: all of them, or a step's worth.
pub open spec fn step_size(gap: ContextGap) -> int {
    if gap.end - gap.start < CONTEXT_LINES_PER_STEP {
        gap.end - gap.start
    } else {
        CONTEXT_LINES_PER_STEP as int
    }
}

/// The old lines that one step reveals around a gap of a file's old text: going up, the
/// lines just above the hunk below the gap; going down, the lines just below the hunk
/// above it. Nothing for a gap inside a hunk, upwards at a file's end or downwards at its
/// start.
pub open spec fn file_context_request(gap: ContextGap, direction: ContextExpandDirection) -> Option<
    ContextRequest,
> {
    match gap.source {
        ContextGapSource::File { old_start, new_start } => {
            let reveal = step_size(gap);
            let pick: Option<(int, bool, int)> = match (gap.position, direction) {
                (ContextGapPosition::Leading, ContextExpandDirection::Up) => Some(
                    (gap.hunk_index as int, true, gap.end - reveal),
                ),
                (ContextGapPosition::Middle, ContextExpandDirection::Up) => Some(
                    (gap.hunk_index + 1, true, gap.end - reveal),
                ),
                (ContextGapPosition::Middle, ContextExpandDirection::Down) => Some(
                    (gap.hunk_index as int, false, 0),
                ),
                (ContextGapPosition::Trailing, ContextExpandDirection::Down) => Some(
                    (gap.hunk_index as int, false, 0),
                ),
                _ => None,
            };
            match pick {
                Some((hunk_index, at_start, offset)) => if offset > u32::MAX {
                    None
                } else {
                    Some(
                        ContextRequest {
                            hunk_index: hunk_index as usize,
                            at_start,
                            old_start: saturating_sum(old_start, offset),
                            new_start: saturating_sum(new_start, offset),
                            count: reveal as usize,
                        },
                    )
                },
                None => None,
            }
        },
        ContextGapSource::Hunk => None,
    }
}

/// Revealing context from a file's old text takes a step's worth of lines, or all that
/// are hidden when fewer are. Going up, the lines revealed end right where the hunk below
/// the gap starts, on both sides; going down, they begin right where the hunk above it
/// ends. Going up is possible above a file's first hunk and between hunks, going down
/// between hunks and after the last one.
pub proof fn lemma_context_request_reveals_next_to_the_hunk(
    gap: ContextGap,
    direction: ContextExpandDirection,
    old_start: u32,
    new_start: u32,
)
    requires
        gap.start <= gap.end,
        gap.hunk_index < usize::MAX,
        gap.source == (ContextGapSource::File { old_start, new_start }),
        old_start + gap.end <= u32::MAX,
        new_start + gap.end <= u32::MAX,
    ensures
        direction == ContextExpandDirection::Up ==> (file_context_request(gap, direction) is Some
            <==> gap.position != ContextGapPosition::Trailing),
        direction == ContextExpandDirection::Down ==> (file_context_request(gap, direction) is Some
            <==> gap.position != ContextGapPosition::Leading),
        file_context_request(gap, direction) matches Some(r) ==> {
            &&& r.count == (if gap.end - gap.start < 30 {
                gap.end - gap.start
            } else {
                30
            })
            &&& r.at_start == (direction == ContextExpandDirection::Up)
            &&& direction == ContextExpandDirection::Up ==> {
                &&& r.old_start + r.count == old_start + gap.end
                &&& r.new_start + r.count == new_start + gap.end
                &&& r.hunk_index == if gap.position == ContextGapPosition::Leading {
                    gap.hunk_index as int
                } else {
                    gap.hunk_index + 1
                }
            }
            &&& direction == ContextExpandDirection::Down ==> {
                &&& r.old_start == old_start
                &&& r.new_start == new_start
                &&& r.hunk_index == gap.hunk_index
            }
        },
{
}

fn saturating_add_u32(a: u32, b: u32) -> (r: u32)
    ensures
        r == saturating_sum(a, b as int),
{
    match a.checked_add(b) {
        Some(s) => s,
        None => u32::MAX,
    }
}

/// The old lines that one step reveals around a gap of a file's old text.
pub fn context_request(gap: ContextGap, direction: ContextExpandDirection) -> (r: Option<
    ContextRequest,
>)
    requires
        gap.start <= gap.end,
        gap.hunk_index < usize::MAX,
    ensures
        r == file_context_request(gap, direction),
{
    match gap.source {
        ContextGapSource::File { old_start, new_start } => {
            let size = gap.end - gap.start;
            let reveal = if size < CONTEXT_LINES_PER_STEP {
                size
            } else {
                CONTEXT_LINES_PER_STEP
            };
            let (hunk_index, at_start, offset) = match (gap.position, direction) {
                (ContextGapPosition::Leading, ContextExpandDirection::Up) => (
                    gap.hunk_index,
                    true,
                    gap.end - reveal,
                ),
                (ContextGapPosition::Middle, ContextExpandDirection::Up) => (
                    gap.hunk_index + 1,
                    true,
                    gap.end - reveal,
                ),
                (ContextGapPosition::Middle, ContextExpandDirection::Down) => (
                    gap.hunk_index,
                    false,
                    0,
                ),
                (ContextGapPosition::Trailing, ContextExpandDirection::Down) => (
                    gap.hunk_index,
                    false,
                    0,
                ),
                _ => {
                    return None;
                },
            };
            if offset > u32::MAX as usize {
                return None;
            }
            let offset = offset as u32;
            Some(
                ContextRequest {
                    hunk_index,
                    at_start,
                    old_start: saturating_add_u32(old_start, offset),
                    new_start: saturating_add_u32(new_start, offset),
                    count: reveal,
                },
            )
        },
        ContextGapSource::Hunk => None,
    }
}

/// What one step of revealing does to an expansion: up to a step's worth more of the
/// hidden lines, from the gap's end going up and from its start going down.
pub open spec fn revealed_expansion(
    e: ContextExpansion,
    gap: ContextGap,
    direction: ContextExpandDirection,
) -> ContextExpansion {
    let left = hidden_count(e, gap);
    let step = if left < CONTEXT_LINES_PER_STEP {
        left
    } else {
        CONTEXT_LINES_PER_STEP as int
    };
    match direction {
        ContextExpandDirection::Up => ContextExpansion {
            from_start: e.from_start,
            from_end: (e.from_end + step) as usize,
        },
        ContextExpandDirection::Down => ContextExpansion {
            from_start: (e.from_start + step) as usize,
            from_end: e.from_end,
        },
    }
}

/// Where the first entry for `gap` stands, when there is one.
pub open spec fn first_entry(exps: Seq<(ContextGap, ContextExpansion)>, gap: ContextGap, i: int) -> Option<int>
    decreases exps.len() - i,
{
    if i < 0 || i >= exps.len() {
        None
    } else if exps[i].0 == gap {
        Some(i)
    } else {
        first_entry(exps, gap, i + 1)
    }
}

proof fn lemma_first_entry(exps: Seq<(ContextGap, ContextExpansion)>, gap: ContextGap, i: int)
    requires
        0 <= i <= exps.len(),
    ensures
        first_entry(exps, gap, i) matches Some(k) ==> i <= k < exps.len() && exps[k].0 == gap && forall|j: int| i <= j < k ==> exps[j].0 != gap,
        first_entry(exps, gap, i) is None ==> forall|j: int| i <= j < exps.len() ==> exps[j].0 != gap,
        expansion_for(exps.skip(i), gap) == match first_entry(exps, gap, i) {
            Some(k) => exps[k].1,
            None => ContextExpansion { from_start: 0, from_end: 0 },
        },
    decreases exps.len() - i,
{
    if i < exps.len() {
        assert(exps.skip(i).drop_first() =~= exps.skip(i + 1));
        lemma_first_entry(exps, gap, i + 1);
    } else {
        assert(exps.skip(i) =~= Seq::<(ContextGap, ContextExpansion)>::empty());
    }
}

/// The expansion of each gap after the entry for `gap` is set to `e`: that gap's is `e`,
/// every other gap's is what it was.
proof fn lemma_expansion_after_set(
    exps: Seq<(ContextGap, ContextExpansion)>,
    gap: ContextGap,
    e: ContextExpansion,
    other: ContextGap,
)
    ensures
        ({
            let next = match first_entry(exps, gap, 0) {
                Some(k) => exps.update(k, (gap, e)),
                None => exps.push((gap, e)),
            };
            expansion_for(next, other) == if other == gap {
                e
            } else {
                expansion_for(exps, other)
            }
        }),
{
    let next = match first_entry(exps, gap, 0) {
        Some(k) => exps.update(k, (gap, e)),
        None => exps.push((gap, e)),
    };
    lemma_first_entry(exps, gap, 0);
    lemma_first_entry(exps, other, 0);
    lemma_first_entry(next, other, 0);
    assert(exps.skip(0) =~= exps);
    assert(next.skip(0) =~= next);
    if other == gap {
        match first_entry(exps, gap, 0) {
            Some(k) => {
                assert(next[k].0 == gap);
                lemma_first_entry_is(next, gap, k);
            },
            None => {
                lemma_first_entry_is(next, gap, exps.len() as int);
            },
        }
    } else {
        match first_entry(exps, other, 0) {
            Some(k) => {
                lemma_first_entry_is(next, other, k);
            },
            None => {
                assert forall|j: int| 0 <= j < next.len() implies next[j].0 != other by {
                    if j < exps.len() {
                        if first_entry(exps, gap, 0) matches Some(k) && j == k {
                        } else {
                            assert(next[j] == exps[j]);
                        }
                    }
                }
                lemma_first_entry_none(next, other, 0);
            },
        }
    }
}

proof fn lemma_first_entry_is(exps: Seq<(ContextGap, ContextExpansion)>, gap: ContextGap, k: int)
    requires
        0 <= k < exps.len(),
        exps[k].0 == gap,
        forall|j: int| 0 <= j < k ==> exps[j].0 != gap,
    ensures
        first_entry(exps, gap, 0) == Some(k),
{
    lemma_first_entry_from(exps, gap, k, 0);
}

proof fn lemma_first_entry_from(exps: Seq<(ContextGap, ContextExpansion)>, gap: ContextGap, k: int, i: int)
    requires
        0 <= i <= k < exps.len(),
        exps[k].0 == gap,
        forall|j: int| i <= j < k ==> exps[j].0 != gap,
    ensures
        first_entry(exps, gap, i) == Some(k),
    decreases k - i,
{
    if i < k {
        lemma_first_entry_from(exps, gap, k, i + 1);
    }
}

proof fn lemma_first_entry_none(exps: Seq<(ContextGap, ContextExpansion)>, gap: ContextGap, i: int)
    requires
        0 <= i <= exps.len(),
        forall|j: int| i <= j < exps.len() ==> exps[j].0 != gap,
    ensures
        first_entry(exps, gap, i) is None,
    decreases exps.len() - i,
{
    if i < exps.len() {
        lemma_first_entry_none(exps, gap, i + 1);
    }
}

/// Reveals more of a hidden run of unchanged lines. For a gap of a file's old text, the
/// old lines are put into the diff, next to the hunk the request names; for a gap inside a
/// hunk, the gap's recorded expansion grows by a step. Answers whether anything changed.
pub fn expand_context(
    diff: &mut DiffSet,
    expansions: &mut Vec<(ContextGap, ContextExpansion)>,
    gap: ContextGap,
    direction: ContextExpandDirection,
) -> (r: bool)
    requires
        gap.start <= gap.end,
        gap.hunk_index < usize::MAX,
        file_context_request(gap, direction) matches Some(q) ==> (old(diff).can_insert_context(
            gap.file_index as int,
            q.hunk_index as int,
            q.old_start,
            q.count as int,
        ) ==> {
            let h = old(diff).files@[gap.file_index as int].hunks@[q.hunk_index as int];
            &&& h.wf()
            &&& utf8(h.text()).len() + crate::diff::texts_len(
                old(diff).revealed_texts(gap.file_index as int, q.old_start, q.count as int),
            ) <= u32::MAX
        }),
        gap.end - gap.start <= usize::MAX - expansion_for(old(expansions)@, gap).from_start
            - expansion_for(old(expansions)@, gap).from_end,
    ensures
        gap.source is File ==> {
            &&& final(expansions)@ == old(expansions)@
            &&& final(diff).contexts == old(diff).contexts
            &&& match file_context_request(gap, direction) {
                Some(q) => {
                    &&& r == old(diff).can_insert_context(
                        gap.file_index as int,
                        q.hunk_index as int,
                        q.old_start,
                        q.count as int,
                    )
                    &&& r ==> context_insertion_done(
                        *old(diff),
                        *final(diff),
                        gap.file_index as int,
                        q.hunk_index as int,
                        q.at_start,
                        q.old_start,
                        q.new_start,
                        q.count as int,
                    )
                    &&& !r ==> final(diff).files == old(diff).files
                },
                None => !r && final(diff).files == old(diff).files,
            }
        },
        gaps_distinct(old(expansions)@) ==> gaps_distinct(final(expansions)@),
        gap.source is Hunk ==> {
            &&& *final(diff) == *old(diff)
            &&& r == (hidden_count(expansion_for(old(expansions)@, gap), gap) > 0)
            &&& forall|g: ContextGap|
                #[trigger] expansion_for(final(expansions)@, g) == if g == gap && r {
                    revealed_expansion(expansion_for(old(expansions)@, gap), gap, direction)
                } else {
                    expansion_for(old(expansions)@, g)
                }
        },
{
    match gap.source {
        ContextGapSource::File { .. } => {
            match context_request(gap, direction) {
                Some(q) => diff.insert_context(
                    gap.file_index,
                    q.hunk_index,
                    q.at_start,
                    q.old_start,
                    q.new_start,
                    q.count,
                ),
                None => false,
            }
        },
        ContextGapSource::Hunk => {
            let ghost before = expansions@;
            let mut k: usize = 0;
            while k < expansions.len() && expansions[k].0 != gap
                invariant
                    expansions@ == before,
                    k <= before.len(),
                    forall|j: int| 0 <= j < k ==> (#[trigger] before[j]).0 != gap,
                    first_entry(before, gap, k as int) == first_entry(before, gap, 0),
                decreases before.len() - k,
            {
                k += 1;
            }
            proof {
                lemma_first_entry(before, gap, 0);
                assert(before.skip(0) =~= before);
            }
            let mut e = if k < expansions.len() {
                expansions[k].1
            } else {
                ContextExpansion { from_start: 0, from_end: 0 }
            };
            let ghost e0 = e;
            assert(e0 == expansion_for(before, gap));
            let changed = e.reveal_step(gap, direction);
            if !changed {
                proof {
                    assert forall|g: ContextGap| #[trigger] expansion_for(expansions@, g) == expansion_for(before, g) by {}
                }
                return false;
            }
            if k < expansions.len() {
                expansions.set(k, (gap, e));
            } else {
                expansions.push((gap, e));
            }
            proof {
                if gaps_distinct(before) {
                    assert forall|a: int, b: int|
                        0 <= a < b < expansions@.len() implies (#[trigger] expansions@[a]).0
                        != (#[trigger] expansions@[b]).0 by {
                        if k < before.len() {
                            if a != k && b != k {
                                assert(expansions@[a] == before[a] && expansions@[b] == before[b]);
                            } else if a == k {
                                assert(expansions@[b] == before[b]);
                                assert(before[k as int].0 == gap);
                            } else {
                                assert(expansions@[a] == before[a]);
                                assert(before[k as int].0 == gap);
                            }
                        } else {
                            assert(expansions@[a] == before[a]);
                        }
                    }
                }
            }
            proof {
                assert(e == revealed_expansion(e0, gap, direction));
                assert forall|g: ContextGap| #[trigger] expansion_for(expansions@, g) == if g == gap && changed {
                    revealed_expansion(expansion_for(before, gap), gap, direction)
                } else {
                    expansion_for(before, g)
                } by {
                    lemma_expansion_after_set(before, gap, e, g);
                }
            }
            true
        },
    }
}

/// The file after `selected`, wrapping from the last to the first.
pub fn next_file_index(selected: usize, file_count: usize) -> (r: usize)
    requires
        selected < file_count,
    ensures
        r == (selected + 1) % (file_count as int),
{
    if selected + 1 == file_count {
        assert((selected + 1) % (file_count as int) == 0) by (nonlinear_arith)
            requires
                selected + 1 == file_count,
        ;
        0
    } else {
        assert((selected + 1) % (file_count as int) == selected + 1) by (nonlinear_arith)
            requires
                selected + 1 < file_count,
        ;
        selected + 1
    }
}

/// The file before `selected`, wrapping from the first to the last.
pub fn previous_file_index(selected: usize, file_count: usize) -> (r: usize)
    requires
        file_count > 0,
    ensures
        r == (if selected == 0 {
            file_count - 1
        } else {
            selected - 1
        }),
{
    if selected == 0 {
        file_count - 1
    } else {
        selected - 1
    }
}

/// Stepping to the next file and back lands on the file one started from.
pub proof fn lemma_next_then_previous(selected: int, file_count: int)
    requires
        0 <= selected < file_count,
    ensures
        ({
            let next = (selected + 1) % file_count;
            (if next == 0 {
                file_count - 1
            } else {
                next - 1
            }) == selected
        }),
{
    if selected + 1 == file_count {
        assert((selected + 1) % file_count == 0) by (nonlinear_arith)
            requires
                selected + 1 == file_count,
                file_count > 0,
        ;
    } else {
        assert((selected + 1) % file_count == selected + 1) by (nonlinear_arith)
            requires
                0 <= selected + 1 < file_count,
        ;
    }
}

/// Where a row index lands once the rows in `removed` are gone: rows before them keep
/// their index, rows after them move up, and rows inside them are gone.
pub open spec fn index_after_removal(index: int, removed_start: int, removed_end: int) -> Option<
    int,
> {
    if index >= removed_end {
        Some(index - (removed_end - removed_start))
    } else if index < removed_start {
        Some(index)
    } else {
        None
    }
}

/// Where a row index lands once the rows in `removed` are gone.
pub fn reindex_after_removal(index: usize, removed: Range<usize>) -> (r: Option<usize>)
    requires
        removed.start <= removed.end,
    ensures
        match index_after_removal(index as int, removed.start as int, removed.end as int) {
            Some(i) => r == Some(i as usize),
            None => r is None,
        },
{
    if index >= removed.end {
        Some(index - (removed.end - removed.start))
    } else if index < removed.start {
        Some(index)
    } else {
        None
    }
}

/// Reindexing after a removal names the same row: a row kept at `index` is, after the
/// rows `start..end` are taken out, at the index it is given.
pub proof fn lemma_reindex_names_the_same_row<T>(rows: Seq<T>, start: int, end: int, index: int)
    requires
        0 <= start <= end <= rows.len(),
        0 <= index < rows.len(),
        index_after_removal(index, start, end) is Some,
    ensures
        ({
            let kept = rows.subrange(0, start) + rows.subrange(end, rows.len() as int);
            let i = index_after_removal(index, start, end)->0;
            0 <= i < kept.len() && kept[i] == rows[index]
        }),
{
}

/// Folds or unfolds a file: answers whether it is now folded.
pub fn toggle_collapsed_file(collapsed: &mut HashSet<usize>, file_index: usize) -> (r: bool)
    ensures
        r == !old(collapsed)@.contains(file_index),
        final(collapsed)@ == if r {
            old(collapsed)@.insert(file_index)
        } else {
            old(collapsed)@.remove(file_index)
        },
{
    let was = collapsed.remove(&file_index);
    if !was {
        collapsed.insert(file_index);
    }
    proof {
        if was {
            assert(collapsed@ =~= old(collapsed)@.remove(file_index));
        } else {
            assert(old(collapsed)@.remove(file_index) =~= old(collapsed)@);
        }
    }
    !was
}

/// Whether the list holds the path `p`.
pub open spec fn holds_path(v: Seq<String>, p: Seq<char>) -> bool {
    exists|i: int| 0 <= i < v.len() && #[trigger] v[i]@ == p
}

/// The set of directory paths in a list.
pub open spec fn path_set(v: Seq<String>) -> Set<Seq<char>> {
    Set::new(|p: Seq<char>| holds_path(v, p))
}

proof fn lemma_holds_path_push(v: Seq<String>, x: String, p: Seq<char>)
    ensures
        holds_path(v.push(x), p) <==> holds_path(v, p) || x@ == p,
{
    if holds_path(v, p) {
        let i = choose|i: int| 0 <= i < v.len() && #[trigger] v[i]@ == p;
        assert(v.push(x)[i]@ == p);
    }
    if x@ == p {
        assert(v.push(x)[v.len() as int]@ == p);
    }
    if holds_path(v.push(x), p) {
        let i = choose|i: int| 0 <= i < v.push(x).len() && #[trigger] v.push(x)[i]@ == p;
        if i < v.len() {
            assert(v[i]@ == p);
        }
    }
}

/// Removes every copy of `path` from the list; answers whether there was one.
fn remove_path(list: &mut Vec<String>, path: &str) -> (r: bool)
    ensures
        r == holds_path(old(list)@, path@),
        forall|p: Seq<char>| #[trigger] holds_path(final(list)@, p) <==> holds_path(old(list)@, p) && p != path@,
{
    let ghost start = list@;
    let mut kept: Vec<String> = Vec::new();
    let mut found = false;
    let mut i: usize = 0;
    while i < list.len()
        invariant
            list@ == start,
            i <= start.len(),
            found == holds_path(start.take(i as int), path@),
            forall|p: Seq<char>| #[trigger] holds_path(kept@, p) <==> holds_path(start.take(i as int), p) && p != path@,
        decreases start.len() - i,
    {
        let ghost before = kept@;
        proof {
            assert(start.take(i + 1) =~= start.take(i as int).push(start[i as int]));
            assert forall|p: Seq<char>| #[trigger] holds_path(start.take(i + 1), p) <==> holds_path(start.take(i as int), p) || start[i as int]@ == p by {
                lemma_holds_path_push(start.take(i as int), start[i as int], p);
            }
        }
        if str_equal(list[i].as_str(), path) {
            found = true;
        } else {
            let copy = list[i].clone();
            kept.push(copy);
            proof {
                assert forall|p: Seq<char>| #[trigger] holds_path(kept@, p) <==> holds_path(before, p) || start[i as int]@ == p by {
                    lemma_holds_path_push(before, start[i as int], p);
                }
            }
        }
        i += 1;
    }
    proof {
        assert(start.take(start.len() as int) =~= start);
    }
    *list = kept;
    found
}

/// Folds or unfolds a directory of the file tree: answers whether it is now folded.
pub fn toggle_directory(collapsed: &mut Vec<String>, path: &str) -> (r: bool)
    ensures
        r == !path_set(old(collapsed)@).contains(path@),
        path_set(final(collapsed)@) == if r {
            path_set(old(collapsed)@).insert(path@)
        } else {
            path_set(old(collapsed)@).remove(path@)
        },
{
    let was = remove_path(collapsed, path);
    if !was {
        let ghost before = collapsed@;
        collapsed.push(path.to_owned());
        proof {
            assert forall|p: Seq<char>| #[trigger] holds_path(collapsed@, p) <==> holds_path(before, p) || path@ == p by {
                lemma_holds_path_push(before, collapsed@[before.len() as int], p);
            }
            assert(path_set(collapsed@) =~= path_set(old(collapsed)@).insert(path@));
        }
    } else {
        proof {
            assert(path_set(collapsed@) =~= path_set(old(collapsed)@).remove(path@));
        }
    }
    !was
}

/// Folding a directory twice leaves the folded directories as they were.
pub proof fn lemma_toggle_directory_twice(set: Set<Seq<char>>, path: Seq<char>)
    ensures
        ({
            let once = if set.contains(path) {
                set.remove(path)
            } else {
                set.insert(path)
            };
            let twice = if once.contains(path) {
                once.remove(path)
            } else {
                once.insert(path)
            };
            twice == set
        }),
{
    let once = if set.contains(path) {
        set.remove(path)
    } else {
        set.insert(path)
    };
    let twice = if once.contains(path) {
        once.remove(path)
    } else {
        once.insert(path)
    };
    assert(twice =~= set);
}

/// The path of the directory made of the first `k` components.
pub open spec fn joined_prefix(c: Seq<Seq<char>>, k: int) -> Seq<char>
    decreases k,
{
    if k <= 0 {
        seq![]
    } else if k == 1 {
        c[0]
    } else {
        joined_prefix(c, k - 1) + "/"@ + c[k - 1]
    }
}

/// The paths of the directories above a file, outermost first.
pub open spec fn ancestor_paths(p: Seq<char>) -> Seq<Seq<char>> {
    let c = path_components(p);
    let n = if c.len() > 0 {
        c.len() - 1
    } else {
        0
    };
    Seq::new(n as nat, |k: int| joined_prefix(c, k + 1))
}

/// Unfolds every directory above a file, so that the file shows in the tree; answers
/// whether any was folded.
pub fn expand_file_ancestors(collapsed: &mut Vec<String>, file: &DiffFile) -> (r: bool)
    ensures
        r == exists|k: int|
            0 <= k < ancestor_paths(display_chars(*file)).len() && holds_path(
                old(collapsed)@,
                #[trigger] ancestor_paths(display_chars(*file))[k],
            ),
        forall|p: Seq<char>|
            #[trigger] holds_path(final(collapsed)@, p) <==> holds_path(old(collapsed)@, p)
                && !ancestor_paths(display_chars(*file)).contains(p),
{
    proof {
        reveal_strlit("/");
    }
    let shown = file.display_path();
    proof {
        assert(vstd::utf8::decode_utf8(utf8(shown@)) == shown@);
    }
    let components = normalized_path_components(shown);
    let ghost c = path_components(shown@);
    let ghost ancestors = ancestor_paths(shown@);
    let n = if components.len() > 0 {
        components.len() - 1
    } else {
        0
    };
    proof {
        assert(c.len() == components@.len());
        assert(ancestors.len() == n);
    }
    let mut path = String::new();
    let mut changed = false;
    let ghost start = collapsed@;
    let mut k: usize = 0;
    while k < n
        invariant
            c == crate::tree::strs_view(components@),
            ancestors == ancestor_paths(shown@),
            c == path_components(shown@),
            n == ancestors.len(),
            n <= components@.len(),
            k <= n,
            k == 0 ==> path@ == Seq::<char>::empty(),
            k > 0 ==> path@ == joined_prefix(c, k as int),
            changed == exists|j: int| 0 <= j < k && holds_path(start, #[trigger] ancestors[j]),
            forall|p: Seq<char>|
                #[trigger] holds_path(collapsed@, p) <==> holds_path(start, p) && !ancestors.take(
                    k as int,
                ).contains(p),
        decreases n - k,
    {
        if k > 0 {
            path.append("/");
        }
        path.append(components[k]);
        proof {
            assert(components@[k as int]@ == c[k as int]);
            assert(path@ == joined_prefix(c, k + 1));
            assert(ancestors[k as int] == path@);
        }
        let ghost before = collapsed@;
        let removed = remove_path(collapsed, path.as_str());
        proof {
            assert forall|p: Seq<char>| #[trigger] ancestors.take(k + 1).contains(p) <==> ancestors.take(k as int).contains(p) || ancestors[k as int] == p by {
                if ancestors.take(k + 1).contains(p) {
                    let t = choose|t: int| 0 <= t < k + 1 && #[trigger] ancestors.take(k + 1)[t] == p;
                    if t < k {
                        assert(ancestors.take(k as int)[t] == p);
                    }
                }
                if ancestors.take(k as int).contains(p) {
                    let t = choose|t: int| 0 <= t < k && #[trigger] ancestors.take(k as int)[t] == p;
                    assert(ancestors.take(k + 1)[t] == p);
                }
                if ancestors[k as int] == p {
                    assert(ancestors.take(k + 1)[k as int] == p);
                }
            }
            if removed {
                assert(holds_path(start, ancestors[k as int]));
            }
            if holds_path(start, ancestors[k as int]) {
                if ancestors.take(k as int).contains(ancestors[k as int]) {
                    let t = choose|t: int| 0 <= t < k && #[trigger] ancestors.take(k as int)[t] == ancestors[k as int];
                    assert(holds_path(start, ancestors[t]));
                } else {
                    assert(holds_path(before, ancestors[k as int]));
                }
            }
        }
        changed = changed || removed;
        k += 1;
    }
    proof {
        assert(ancestors.take(n as int) =~= ancestors);
        assert(shown@ == display_chars(*file));
        assert(ancestors == ancestor_paths(display_chars(*file)));
    }
    changed
}

/// The file whose header stays pinned above the diff at `position`: the file of the row
/// there (or of the first row that has one), once its header has scrolled past.
pub open spec fn sticky_file(
    rows: Seq<crate::rows::DiffDisplayRow>,
    file_starts: Seq<usize>,
    offsets: Seq<u64>,
    position: u64,
) -> Option<usize> {
    if rows.len() == 0 {
        None
    } else {
        let row = row_index_at(offsets, position, rows.len() as int);
        let file = match file_index_before(rows, row) {
            Some(f) => Some(f),
            None => first_file_of(rows, 0),
        };
        match file {
            Some(f) => if f < file_starts.len() && file_starts[f as int] < offsets.len()
                && position > offsets[file_starts[f as int] as int] {
                Some(f)
            } else {
                None
            },
            None => None,
        }
    }
}

/// The file of the first row at or after `i` that has one.
pub open spec fn first_file_of(rows: Seq<crate::rows::DiffDisplayRow>, i: int) -> Option<usize>
    decreases rows.len() - i,
{
    if i < 0 || i >= rows.len() {
        None
    } else if file_of(rows[i]) is Some {
        file_of(rows[i])
    } else {
        first_file_of(rows, i + 1)
    }
}

/// The file whose header stays pinned above the diff, as `sticky_file` describes it.
pub fn sticky_file_index(
    rows: &DiffRowIndex,
    file_row_indices: &[usize],
    offsets: &[u64],
    position: u64,
) -> (r: Option<usize>)
    requires
        rows.wf(),
        nondecreasing_offsets(offsets@),
    ensures
        r == sticky_file(rows@, file_row_indices@, offsets@, position),
{
    if rows.is_empty() {
        return None;
    }
    let row = row_index_at_position(offsets, position, rows.len());
    let file = match rows.file_index_at(row) {
        Some(f) => Some(f),
        None => {
            let all = rows.iter();
            let mut i: usize = 0;
            let mut found: Option<usize> = None;
            while i < all.len()
                invariant_except_break
                    found is None,
                invariant
                    all@ == rows@,
                    i <= all@.len(),
                    first_file_of(rows@, i as int) == first_file_of(rows@, 0),
                ensures
                    found == first_file_of(rows@, 0),
                decreases all@.len() - i,
            {
                match all[i].file_index() {
                    Some(f) => {
                        found = Some(f);
                        break;
                    },
                    None => {},
                }
                i += 1;
            }
            found
        },
    };
    match file {
        Some(f) => {
            if f < file_row_indices.len() && file_row_indices[f] < offsets.len() && position
                > offsets[file_row_indices[f]] {
                Some(f)
            } else {
                None
            }
        },
        None => None,
    }
}

/// The position of the file shown at `path`, when one is.
fn position_of_path(files: &[DiffFile], path: &str) -> (r: Option<usize>)
    ensures
        match r {
            Some(i) => i < files@.len() && display_chars(files@[i as int]) == path@ && forall|j: int|
                0 <= j < i ==> display_chars(#[trigger] files@[j]) != path@,
            None => forall|j: int| 0 <= j < files@.len() ==> display_chars(#[trigger] files@[j]) != path@,
        },
{
    let mut i: usize = 0;
    while i < files.len()
        invariant
            i <= files@.len(),
            forall|j: int| 0 <= j < i ==> display_chars(#[trigger] files@[j]) != path@,
        decreases files@.len() - i,
    {
        let shown = files[i].display_path();
        proof {
            assert(vstd::utf8::decode_utf8(utf8(shown@)) == shown@);
        }
        if str_equal(shown, path) {
            return Some(i);
        }
        i += 1;
    }
    None
}

/// The file to select after the diff is reloaded: the one shown at the same path as the
/// file selected before, else the first; never past the last file.
pub fn reselect_file(old_files: &[DiffFile], selected: usize, new_files: &[DiffFile]) -> (r: usize)
    ensures
        new_files@.len() == 0 ==> r == 0,
        new_files@.len() > 0 ==> r < new_files@.len(),
        selected < old_files@.len() ==> (forall|j: int| 0 <= j < new_files@.len() && display_chars(new_files@[j]) == display_chars(old_files@[selected as int]) ==> #[trigger] display_chars(new_files@[j]) == display_chars(new_files@[r as int]) && r <= j),
        (selected >= old_files@.len() || forall|j: int| 0 <= j < new_files@.len() ==> display_chars(#[trigger] new_files@[j]) != display_chars(old_files@[selected as int])) ==> r == 0,
{
    let found = if selected < old_files.len() {
        let shown = old_files[selected].display_path();
        proof {
            assert(vstd::utf8::decode_utf8(utf8(shown@)) == shown@);
        }
        position_of_path(new_files, shown)
    } else {
        None
    };
    let index = match found {
        Some(i) => i,
        None => 0,
    };
    if new_files.len() == 0 {
        0
    } else if index < new_files.len() {
        index
    } else {
        new_files.len() - 1
    }
}

/// Whether a file shown at `path` was folded.
pub open spec fn was_folded(old_files: Seq<DiffFile>, collapsed: Set<usize>, path: Seq<char>) -> bool {
    exists|i: int| 0 <= i < old_files.len() && collapsed.contains(i as usize) && display_chars(#[trigger] old_files[i]) == path
}

/// The folded files after the diff is reloaded: those shown at the path of a file that was
/// folded before, in order.
pub fn remap_collapsed_files(old_files: &[DiffFile], collapsed: &HashSet<usize>, new_files: &[DiffFile]) -> (r: Vec<usize>)
    ensures
        forall|k: int| 0 <= k < r@.len() ==> (#[trigger] r@[k]) < new_files@.len(),
        forall|a: int, b: int| 0 <= a < b < r@.len() ==> r@[a] < r@[b],
        forall|j: int|
            #![trigger new_files@[j]]
            0 <= j < new_files@.len() ==> (r@.contains(j as usize) <==> was_folded(old_files@, collapsed@, display_chars(new_files@[j]))),
{
    let mut out: Vec<usize> = Vec::new();
    let mut j: usize = 0;
    while j < new_files.len()
        invariant
            j <= new_files@.len(),
            forall|k: int| 0 <= k < out@.len() ==> (#[trigger] out@[k]) < j,
            forall|a: int, b: int| 0 <= a < b < out@.len() ==> out@[a] < out@[b],
            forall|m: int|
                #![trigger new_files@[m]]
                0 <= m < j ==> (out@.contains(m as usize) <==> was_folded(old_files@, collapsed@, display_chars(new_files@[m]))),
        decreases new_files@.len() - j,
    {
        let shown = new_files[j].display_path();
        proof {
            assert(vstd::utf8::decode_utf8(utf8(shown@)) == shown@);
        }
        let mut i: usize = 0;
        let mut hit = false;
        while i < old_files.len()
            invariant
                i <= old_files@.len(),
                j < new_files@.len(),
                shown@ == display_chars(new_files@[j as int]),
                forall|k: int| 0 <= k < out@.len() ==> (#[trigger] out@[k]) < j,
                forall|a: int, b: int| 0 <= a < b < out@.len() ==> out@[a] < out@[b],
                forall|m: int|
                    #![trigger new_files@[m]]
                    0 <= m < j ==> (out@.contains(m as usize) <==> was_folded(old_files@, collapsed@, display_chars(new_files@[m]))),
                hit == exists|x: int|
                    0 <= x < i && collapsed@.contains(x as usize) && display_chars(
                        #[trigger] old_files@[x],
                    ) == shown@,
            decreases old_files@.len() - i,
        {
            if collapsed.contains(&i) {
                let old_shown = old_files[i].display_path();
                proof {
                    assert(vstd::utf8::decode_utf8(utf8(old_shown@)) == old_shown@);
                }
                if str_equal(old_shown, shown) {
                    hit = true;
                }
            }
            i += 1;
        }
        let ghost before = out@;
        if hit {
            out.push(j);
        }
        proof {
            assert forall|m: int| #![trigger new_files@[m]] 0 <= m < j + 1 implies (out@.contains(m as usize) <==> was_folded(old_files@, collapsed@, display_chars(new_files@[m]))) by {
                if m < j {
                    if out@.contains(m as usize) {
                        let t = choose|t: int| 0 <= t < out@.len() && #[trigger] out@[t] == m as usize;
                        if hit && t == before.len() {
                        } else {
                            assert(before[t] == m as usize);
                        }
                    }
                    if before.contains(m as usize) {
                        let t = choose|t: int| 0 <= t < before.len() && #[trigger] before[t] == m as usize;
                        assert(out@[t] == m as usize);
                    }
                } else {
                    if hit {
                        assert(out@[before.len() as int] == j);
                    }
                    if out@.contains(m as usize) {
                        let t = choose|t: int| 0 <= t < out@.len() && #[trigger] out@[t] == m as usize;
                        if t < before.len() {
                            assert(before[t] < j);
                        }
                    }
                }
            }
        }
        j += 1;
    }
    out
}

} // verus!
