//! How the lines of a hunk line up: unchanged lines on both sides, and in each run of
//! changed lines the deletions paired with the additions in order.

use vstd::prelude::*;

use crate::diff::{side_number, DiffHunk, DiffLine, LineKind};
use crate::rows::{
    ContextExpansion, ContextGap, ContextGapPosition, ContextGapSource, VISIBLE_CONTEXT_LINES,
};

verus! {

/// Where the run of changed lines that starts at `i` ends: at the next unchanged line, or at `end`.
pub open spec fn change_run_end(lines: Seq<DiffLine>, i: int, end: int) -> int
    decreases end - i,
{
    if i >= end || lines[i].kind == LineKind::Context {
        i
    } else {
        change_run_end(lines, i + 1, end)
    }
}

/// Where the run of changed lines that holds line `i` starts: after the last unchanged line before it.
pub open spec fn change_run_start(lines: Seq<DiffLine>, i: int) -> int
    decreases i,
{
    if i <= 0 {
        0
    } else if lines[i - 1].kind == LineKind::Context {
        i
    } else {
        change_run_start(lines, i - 1)
    }
}

/// The indices of the lines of the kind within `s..e`, in order.
pub open spec fn kind_indices(lines: Seq<DiffLine>, s: int, e: int, kind: LineKind) -> Seq<usize>
    decreases e - s,
{
    if e <= s {
        seq![]
    } else {
        let prev = kind_indices(lines, s, e - 1, kind);
        if lines[e - 1].kind == kind {
            prev.push((e - 1) as usize)
        } else {
            prev
        }
    }
}

/// The kind that a changed line pairs with.
pub open spec fn opposite(kind: LineKind) -> LineKind {
    if kind == LineKind::Deletion {
        LineKind::Addition
    } else {
        LineKind::Deletion
    }
}

/// Deletions and additions paired in order; the rest of the longer list pairs with nothing.
pub open spec fn pair_up(d: Seq<usize>, a: Seq<usize>) -> Seq<(Option<usize>, Option<usize>)> {
    Seq::new(
        if d.len() < a.len() {
            a.len()
        } else {
            d.len()
        },
        |k: int|
            (
                if k < d.len() {
                    Some(d[k])
                } else {
                    None
                },
                if k < a.len() {
                    Some(a[k])
                } else {
                    None
                },
            ),
    )
}

/// The split rows of lines `i..end`: an unchanged line on both sides, and each run of
/// changed lines as its deletions paired with its additions.
pub open spec fn aligned_rows(lines: Seq<DiffLine>, i: int, end: int) -> Seq<(Option<usize>, Option<usize>)>
    decreases end - i,
{
    if i >= end || i < 0 || end > lines.len() {
        seq![]
    } else if lines[i].kind == LineKind::Context {
        seq![(Some(i as usize), Some(i as usize))] + aligned_rows(lines, i + 1, end)
    } else {
        let e = change_run_end(lines, i, end);
        proof {
            lemma_change_run_end(lines, i, end);
        }
        pair_up(
            kind_indices(lines, i, e, LineKind::Deletion),
            kind_indices(lines, i, e, LineKind::Addition),
        ) + aligned_rows(lines, e, end)
    }
}

/// The line that a changed line pairs with: in its run of changed lines, the deletion and the
/// addition of the same rank pair up.
pub open spec fn counterpart(lines: Seq<DiffLine>, i: int) -> Option<usize> {
    if lines[i].kind == LineKind::Context {
        None
    } else {
        let s = change_run_start(lines, i);
        let e = change_run_end(lines, i, lines.len() as int);
        let rank = kind_indices(lines, s, i, lines[i].kind).len();
        let other = kind_indices(lines, s, e, opposite(lines[i].kind));
        if rank < other.len() {
            Some(other[rank as int])
        } else {
            None
        }
    }
}

/// A run of changed lines ends past its first line and before the next unchanged one.
pub proof fn lemma_change_run_end(lines: Seq<DiffLine>, i: int, end: int)
    requires
        0 <= i <= end <= lines.len(),
    ensures
        i <= change_run_end(lines, i, end) <= end,
        i < end && lines[i].kind != LineKind::Context ==> i < change_run_end(lines, i, end),
        forall|k: int| i <= k < change_run_end(lines, i, end) ==> #[trigger] lines[k].kind != LineKind::Context,
        change_run_end(lines, i, end) < end ==> lines[change_run_end(lines, i, end)].kind == LineKind::Context,
    decreases end - i,
{
    if i < end && lines[i].kind != LineKind::Context {
        lemma_change_run_end(lines, i + 1, end);
    }
}

/// Where a run of changed lines starts, and that it holds only changed lines up to `i`.
pub proof fn lemma_change_run_start(lines: Seq<DiffLine>, i: int)
    requires
        0 <= i <= lines.len(),
    ensures
        0 <= change_run_start(lines, i) <= i,
        forall|k: int| change_run_start(lines, i) <= k < i ==> #[trigger] lines[k].kind != LineKind::Context,
        change_run_start(lines, i) > 0 ==> lines[change_run_start(lines, i) - 1].kind == LineKind::Context,
    decreases i,
{
    if i > 0 && lines[i - 1].kind != LineKind::Context {
        lemma_change_run_start(lines, i - 1);
    }
}

/// The indices of a kind are increasing, lie in the range, and are of that kind.
pub proof fn lemma_kind_indices(lines: Seq<DiffLine>, s: int, e: int, kind: LineKind)
    requires
        lines.len() <= usize::MAX,
        0 <= s <= e <= lines.len(),
    ensures
        kind_indices(lines, s, e, kind).len() <= e - s,
        forall|k: int|
            0 <= k < kind_indices(lines, s, e, kind).len() ==> {
                let x = #[trigger] kind_indices(lines, s, e, kind)[k];
                &&& s <= x < e
                &&& lines[x as int].kind == kind
            },
        forall|a: int, b: int|
            0 <= a < b < kind_indices(lines, s, e, kind).len() ==> kind_indices(lines, s, e, kind)[a]
                < kind_indices(lines, s, e, kind)[b],
    decreases e - s,
{
    if e > s {
        lemma_kind_indices(lines, s, e - 1, kind);
    }
}

/// The indices of a kind in `s..e` are those in `s..m` followed by those in `m..e`.
pub proof fn lemma_kind_indices_split(lines: Seq<DiffLine>, s: int, m: int, e: int, kind: LineKind)
    requires
        s <= m <= e,
    ensures
        kind_indices(lines, s, e, kind) == kind_indices(lines, s, m, kind) + kind_indices(lines, m, e, kind),
    decreases e - m,
{
    if e > m {
        lemma_kind_indices_split(lines, s, m, e - 1, kind);
        assert(kind_indices(lines, s, e, kind) =~= kind_indices(lines, s, m, kind) + kind_indices(lines, m, e, kind));
    } else {
        assert(kind_indices(lines, m, e, kind) =~= Seq::<usize>::empty());
        assert(kind_indices(lines, s, e, kind) =~= kind_indices(lines, s, m, kind) + kind_indices(lines, m, e, kind));
    }
}

/// A line of the kind sits in the list of its kind at its rank: the count of its kind before it.
pub proof fn lemma_rank(lines: Seq<DiffLine>, s: int, i: int, e: int)
    requires
        lines.len() <= usize::MAX,
        0 <= s <= i < e <= lines.len(),
    ensures
        kind_indices(lines, s, i, lines[i].kind).len() < kind_indices(lines, s, e, lines[i].kind).len(),
        kind_indices(lines, s, e, lines[i].kind)[kind_indices(lines, s, i, lines[i].kind).len() as int] == i,
{
    let kind = lines[i].kind;
    lemma_kind_indices_split(lines, s, i, e, kind);
    lemma_kind_indices_split(lines, i, i + 1, e, kind);
    assert(kind_indices(lines, i, i, kind) =~= Seq::<usize>::empty());
    assert(kind_indices(lines, i, i + 1, kind) =~= seq![i as usize]);
}

/// The rank of the `k`-th line of a kind is `k`.
pub proof fn lemma_rank_of_index(lines: Seq<DiffLine>, s: int, e: int, kind: LineKind, k: int)
    requires
        lines.len() <= usize::MAX,
        0 <= s <= e <= lines.len(),
        0 <= k < kind_indices(lines, s, e, kind).len(),
    ensures
        ({
            let x = kind_indices(lines, s, e, kind)[k] as int;
            &&& s <= x < e
            &&& lines[x].kind == kind
            &&& kind_indices(lines, s, x, kind).len() == k
        }),
{
    lemma_kind_indices(lines, s, e, kind);
    let x = kind_indices(lines, s, e, kind)[k] as int;
    lemma_rank(lines, s, x, e);
    let r = kind_indices(lines, s, x, kind).len() as int;
    if r != k {
        lemma_kind_indices(lines, s, e, kind);
        if r < k {
            assert(kind_indices(lines, s, e, kind)[r] < kind_indices(lines, s, e, kind)[k]);
        } else {
            assert(kind_indices(lines, s, e, kind)[k] < kind_indices(lines, s, e, kind)[r]);
        }
    }
}

/// Every line of a run of changed lines finds the run's bounds from where it stands.
pub proof fn lemma_same_run(lines: Seq<DiffLine>, s: int, e: int, i: int)
    requires
        0 <= s <= i < e <= lines.len(),
        s == 0 || lines[s - 1].kind == LineKind::Context,
        e == lines.len() || lines[e].kind == LineKind::Context,
        forall|k: int| s <= k < e ==> #[trigger] lines[k].kind != LineKind::Context,
    ensures
        change_run_start(lines, i) == s,
        change_run_end(lines, i, lines.len() as int) == e,
    decreases i - s,
{
    if i > s {
        lemma_same_run(lines, s, e, i - 1);
    }
    lemma_run_end_from(lines, i, e);
}

proof fn lemma_run_end_from(lines: Seq<DiffLine>, i: int, e: int)
    requires
        0 <= i <= e <= lines.len(),
        e == lines.len() || lines[e].kind == LineKind::Context,
        forall|k: int| i <= k < e ==> #[trigger] lines[k].kind != LineKind::Context,
    ensures
        change_run_end(lines, i, lines.len() as int) == e,
    decreases e - i,
{
    if i < e {
        lemma_run_end_from(lines, i + 1, e);
    }
}

/// Pairing is mutual: when a line pairs with another, that one pairs back with it.
pub proof fn lemma_counterpart_symmetric(lines: Seq<DiffLine>, i: int)
    requires
        lines.len() <= usize::MAX,
        0 <= i < lines.len(),
        counterpart(lines, i) is Some,
    ensures
        ({
            let j = counterpart(lines, i)->0 as int;
            &&& 0 <= j < lines.len()
            &&& lines[j].kind == opposite(lines[i].kind)
            &&& counterpart(lines, j) == Some(i as usize)
        }),
{
    let n = lines.len() as int;
    let kind = lines[i].kind;
    let s = change_run_start(lines, i);
    lemma_change_run_start(lines, i);
    lemma_change_run_end(lines, i, n);
    let e = change_run_end(lines, i, n);
    let rank = kind_indices(lines, s, i, kind).len() as int;
    let other = kind_indices(lines, s, e, opposite(kind));
    lemma_rank_of_index(lines, s, e, opposite(kind), rank);
    let j = other[rank] as int;
    assert forall|k: int| s <= k < e implies #[trigger] lines[k].kind != LineKind::Context by {
        if k < i {
        } else {
        }
    }
    lemma_same_run(lines, s, e, j);
    lemma_rank(lines, s, i, e);
    assert(opposite(opposite(kind)) == kind);
}

/// The indices of the lines of the kind within `s..e`.
fn indices_of_kind(lines: &[DiffLine], s: usize, e: usize, kind: LineKind) -> (r: Vec<usize>)
    requires
        s <= e <= lines@.len(),
    ensures
        r@ == kind_indices(lines@, s as int, e as int, kind),
{
    let mut out: Vec<usize> = Vec::new();
    let mut i = s;
    while i < e
        invariant
            s <= i <= e <= lines@.len(),
            out@ == kind_indices(lines@, s as int, i as int, kind),
        decreases e - i,
    {
        if lines[i].kind == kind {
            out.push(i);
        }
        i += 1;
    }
    out
}

/// The split rows of `lines[range]`, as `aligned_rows` describes them.
pub fn align_line_indices(lines: &[DiffLine], range: std::ops::Range<usize>) -> (r: Vec<(Option<usize>, Option<usize>)>)
    requires
        range.start <= range.end <= lines@.len(),
    ensures
        r@ == aligned_rows(lines@, range.start as int, range.end as int),
{
    let end = range.end;
    let mut rows: Vec<(Option<usize>, Option<usize>)> = Vec::new();
    let mut index = range.start;
    while index < end
        invariant
            range.start <= index <= end <= lines@.len(),
            aligned_rows(lines@, range.start as int, end as int) == rows@ + aligned_rows(lines@, index as int, end as int),
        decreases end - index,
    {
        if lines[index].kind == LineKind::Context {
            proof {
                assert(rows@.push((Some(index), Some(index))) + aligned_rows(lines@, index + 1, end as int)
                    =~= rows@ + aligned_rows(lines@, index as int, end as int));
            }
            rows.push((Some(index), Some(index)));
            index += 1;
        } else {
            let start = index;
            proof {
                lemma_change_run_end(lines@, start as int, end as int);
            }
            while index < end && lines[index].kind != LineKind::Context
                invariant
                    start <= index <= end <= lines@.len(),
                    change_run_end(lines@, start as int, end as int) == change_run_end(lines@, index as int, end as int),
                decreases end - index,
            {
                index += 1;
            }
            let deletions = indices_of_kind(lines, start, index, LineKind::Deletion);
            let additions = indices_of_kind(lines, start, index, LineKind::Addition);
            let count = if deletions.len() < additions.len() {
                additions.len()
            } else {
                deletions.len()
            };
            let ghost pairs = pair_up(deletions@, additions@);
            let ghost before = rows@;
            let mut k: usize = 0;
            while k < count
                invariant
                    k <= count,
                    count == pairs.len(),
                    pairs == pair_up(deletions@, additions@),
                    rows@ == before + pairs.take(k as int),
                decreases count - k,
            {
                let deletion = if k < deletions.len() {
                    Some(deletions[k])
                } else {
                    None
                };
                let addition = if k < additions.len() {
                    Some(additions[k])
                } else {
                    None
                };
                rows.push((deletion, addition));
                k += 1;
                assert(rows@ =~= before + pairs.take(k as int));
            }
            assert(pairs.take(k as int) =~= pairs);
            assert(before + pairs + aligned_rows(lines@, index as int, end as int) =~= before + (pairs
                + aligned_rows(lines@, index as int, end as int)));
        }
    }
    assert(aligned_rows(lines@, index as int, end as int) =~= Seq::<(Option<usize>, Option<usize>)>::empty());
    assert(rows@ + Seq::<(Option<usize>, Option<usize>)>::empty() =~= rows@);
    rows
}

/// The line that line `index` pairs with, as `counterpart` describes it.
fn counterpart_of(lines: &[DiffLine], index: usize) -> (r: Option<usize>)
    requires
        index < lines@.len(),
    ensures
        r == counterpart(lines@, index as int),
{
    let kind = lines[index].kind;
    if kind == LineKind::Context {
        return None;
    }
    let mut start = index;
    while start > 0 && lines[start - 1].kind != LineKind::Context
        invariant
            start <= index < lines@.len(),
            change_run_start(lines@, start as int) == change_run_start(lines@, index as int),
        decreases start,
    {
        start -= 1;
    }
    let mut end = index;
    while end < lines.len() && lines[end].kind != LineKind::Context
        invariant
            index <= end <= lines@.len(),
            change_run_end(lines@, end as int, lines@.len() as int) == change_run_end(lines@, index as int, lines@.len() as int),
        decreases lines@.len() - end,
    {
        end += 1;
    }
    proof {
        lemma_change_run_start(lines@, index as int);
        lemma_change_run_end(lines@, index as int, lines@.len() as int);
    }
    let before = indices_of_kind(lines, start, index, kind);
    let other_kind = if kind == LineKind::Deletion {
        LineKind::Addition
    } else {
        LineKind::Deletion
    };
    let others = indices_of_kind(lines, start, end, other_kind);
    if before.len() < others.len() {
        Some(others[before.len()])
    } else {
        None
    }
}

/// For every line of the hunk, the line it pairs with, as `counterpart` describes it.
pub fn paired_line_indices(hunk: &DiffHunk) -> (r: Vec<Option<usize>>)
    ensures
        r@.len() == hunk.lines@.len(),
        forall|i: int| 0 <= i < hunk.lines@.len() ==> #[trigger] r@[i] == counterpart(hunk.lines@, i),
{
    let lines = hunk.lines.as_slice();
    let n = lines.len();
    let ghost ls = lines@;
    let mut counterparts: Vec<Option<usize>> = Vec::new();
    let mut i: usize = 0;
    while i < n
        invariant
            i <= n,
            counterparts@.len() == i,
            forall|k: int| 0 <= k < i ==> #[trigger] counterparts@[k] is None,
        decreases n - i,
    {
        counterparts.push(None);
        i += 1;
    }
    let mut block_start: usize = 0;
    while block_start < n
        invariant
            ls == lines@,
            n == ls.len(),
            ls.len() <= usize::MAX,
            block_start <= n,
            counterparts@.len() == n,
            block_start == 0 || ls[block_start - 1].kind == LineKind::Context || block_start == n
                || ls[block_start as int].kind == LineKind::Context,
            forall|k: int| 0 <= k < block_start ==> #[trigger] counterparts@[k] == counterpart(ls, k),
            forall|k: int| block_start <= k < n ==> #[trigger] counterparts@[k] is None,
        decreases n - block_start,
    {
        if lines[block_start].kind == LineKind::Context {
            block_start += 1;
        } else {
            let s = block_start;
            let mut e = s;
            while e < n && lines[e].kind != LineKind::Context
                invariant
                    s <= e <= n == ls.len(),
                    ls == lines@,
                    forall|k: int| s <= k < e ==> #[trigger] ls[k].kind != LineKind::Context,
                decreases n - e,
            {
                e += 1;
            }
            let deletions = indices_of_kind(lines, s, e, LineKind::Deletion);
            let additions = indices_of_kind(lines, s, e, LineKind::Addition);
            proof {
                lemma_kind_indices(ls, s as int, e as int, LineKind::Deletion);
                lemma_kind_indices(ls, s as int, e as int, LineKind::Addition);
            }
            let pairs = if deletions.len() < additions.len() {
                deletions.len()
            } else {
                additions.len()
            };
            let mut k: usize = 0;
            while k < pairs
                invariant
                    ls == lines@,
                    n == ls.len(),
                    s <= e <= n,
                    counterparts@.len() == n,
                    pairs <= deletions@.len(),
                    pairs <= additions@.len(),
                    deletions@ == kind_indices(ls, s as int, e as int, LineKind::Deletion),
                    additions@ == kind_indices(ls, s as int, e as int, LineKind::Addition),
                    forall|q: int| 0 <= q < deletions@.len() ==> {
                        let x = #[trigger] deletions@[q];
                        &&& s <= x < e
                        &&& ls[x as int].kind == LineKind::Deletion
                    },
                    forall|q: int| 0 <= q < additions@.len() ==> {
                        let x = #[trigger] additions@[q];
                        &&& s <= x < e
                        &&& ls[x as int].kind == LineKind::Addition
                    },
                    forall|a: int, b: int| 0 <= a < b < deletions@.len() ==> deletions@[a] < deletions@[b],
                    forall|a: int, b: int| 0 <= a < b < additions@.len() ==> additions@[a] < additions@[b],
                    k <= pairs,
                    forall|q: int| 0 <= q < s ==> #[trigger] counterparts@[q] == counterpart(ls, q),
                    forall|q: int| e <= q < n ==> #[trigger] counterparts@[q] is None,
                    forall|q: int|
                        s <= q < e ==> (#[trigger] counterparts@[q] is Some <==> (exists|j: int|
                            0 <= j < k && (deletions@[j] == q || additions@[j] == q))),
                    forall|j: int| 0 <= j < k ==> #[trigger] counterparts@[deletions@[j] as int] == Some(additions@[j]),
                    forall|j: int| 0 <= j < k ==> #[trigger] counterparts@[additions@[j] as int] == Some(deletions@[j]),
                decreases pairs - k,
            {
                let d = deletions[k];
                let a = additions[k];
                counterparts.set(d, Some(a));
                counterparts.set(a, Some(d));
                proof {
                    assert forall|q: int| s <= q < e implies (#[trigger] counterparts@[q] is Some <==> (exists|j: int|
                        0 <= j < k + 1 && (deletions@[j] == q || additions@[j] == q))) by {
                        if q == d || q == a {
                            assert(deletions@[k as int] == q || additions@[k as int] == q);
                        }
                    }
                    assert forall|j: int| 0 <= j < k + 1 implies #[trigger] counterparts@[deletions@[j] as int] == Some(additions@[j]) by {
                        if j < k {
                            assert(deletions@[j] != d);
                            assert(deletions@[j] != a);
                        }
                    }
                    assert forall|j: int| 0 <= j < k + 1 implies #[trigger] counterparts@[additions@[j] as int] == Some(deletions@[j]) by {
                        if j < k {
                            assert(additions@[j] != a);
                            assert(additions@[j] != d);
                        }
                    }
                }
                k += 1;
            }
            proof {
                assert forall|q: int| 0 <= q < e implies #[trigger] counterparts@[q] == counterpart(ls, q) by {
                    if q >= s {
                        lemma_same_run(ls, s as int, e as int, q);
                        lemma_rank(ls, s as int, q, e as int);
                        let kind = ls[q].kind;
                        let rank = kind_indices(ls, s as int, q, kind).len() as int;
                        if kind == LineKind::Deletion {
                            assert(deletions@[rank] == q);
                            if rank < pairs {
                                assert(counterparts@[deletions@[rank] as int] == Some(additions@[rank]));
                            } else {
                                if counterparts@[q] is Some {
                                    let j = choose|j: int| 0 <= j < pairs && (deletions@[j] == q || additions@[j] == q);
                                    if deletions@[j] == q {
                                        if j < rank {
                                            assert(deletions@[j] < deletions@[rank]);
                                        } else if j > rank {
                                            assert(deletions@[rank] < deletions@[j]);
                                        }
                                    }
                                }
                            }
                        } else {
                            assert(additions@[rank] == q);
                            if rank < pairs {
                                assert(counterparts@[additions@[rank] as int] == Some(deletions@[rank]));
                            } else {
                                if counterparts@[q] is Some {
                                    let j = choose|j: int| 0 <= j < pairs && (deletions@[j] == q || additions@[j] == q);
                                    if additions@[j] == q {
                                        if j < rank {
                                            assert(additions@[j] < additions@[rank]);
                                        } else if j > rank {
                                            assert(additions@[rank] < additions@[j]);
                                        }
                                    }
                                }
                            }
                        }
                    }
                }
            }
            block_start = e;
        }
    }
    counterparts
}

/// The line that line `index` of the hunk pairs with, if any.
pub fn paired_line(hunk: &DiffHunk, index: usize) -> (r: Option<&DiffLine>)
    ensures
        match r {
            Some(l) => index < hunk.lines@.len() && (counterpart(hunk.lines@, index as int) matches Some(j) && j < hunk.lines@.len() && *l == hunk.lines@[j as int]),
            None => index >= hunk.lines@.len() || counterpart(hunk.lines@, index as int) is None,
        },
{
    if index >= hunk.lines.len() {
        return None;
    }
    match counterpart_of(hunk.lines.as_slice(), index) {
        Some(j) => {
            proof {
                lemma_counterpart_symmetric(hunk.lines@, index as int);
            }
            Some(&hunk.lines[j])
        },
        None => None,
    }
}

/// The greatest number that the first `n` lines have on one side, if any has one.
pub open spec fn max_side_number(lines: Seq<DiffLine>, old: bool, n: int) -> Option<u32>
    decreases n,
{
    if n <= 0 {
        None
    } else {
        let prev = max_side_number(lines, old, n - 1);
        match side_number(lines[n - 1], old) {
            Some(k) => match prev {
                Some(p) => Some(
                    if p < k {
                        k
                    } else {
                        p
                    },
                ),
                None => Some(k),
            },
            None => prev,
        }
    }
}

/// The last line number of a hunk on one side; the start when no line has one.
pub open spec fn hunk_end_of(h: DiffHunk, old: bool) -> u32 {
    match max_side_number(h.lines@, old, h.lines@.len() as int) {
        Some(m) => m,
        None => if old {
            h.old_start
        } else {
            h.new_start
        },
    }
}

/// The last line number of a hunk on one side, as `hunk_end_of` describes it.
pub fn hunk_end(hunk: &DiffHunk, old: bool) -> (r: u32)
    ensures
        r == hunk_end_of(*hunk, old),
{
    let mut best: Option<u32> = None;
    let mut i: usize = 0;
    while i < hunk.lines.len()
        invariant
            i <= hunk.lines@.len(),
            best == max_side_number(hunk.lines@, old, i as int),
        decreases hunk.lines@.len() - i,
    {
        let number = if old {
            hunk.lines[i].old_number
        } else {
            hunk.lines[i].new_number
        };
        match number {
            Some(k) => {
                best = match best {
                    Some(p) => Some(
                        if p < k {
                            k
                        } else {
                            p
                        },
                    ),
                    None => Some(k),
                };
            },
            None => {},
        }
        i += 1;
    }
    match best {
        Some(m) => m,
        None => if old {
            hunk.old_start
        } else {
            hunk.new_start
        },
    }
}

/// A piece of a hunk as the view lays it out: lines shown, or unchanged lines hidden in a gap.
#[derive(Debug)]
pub enum HunkSegment {
    Lines(std::ops::Range<usize>),
    Gap { gap: ContextGap, hidden: usize },
}

/// The expansion recorded for a gap: the first one listed for it, or none.
pub open spec fn expansion_for(exps: Seq<(ContextGap, ContextExpansion)>, gap: ContextGap) -> ContextExpansion
    decreases exps.len(),
{
    if exps.len() == 0 {
        ContextExpansion { from_start: 0, from_end: 0 }
    } else if exps[0].0 == gap {
        exps[0].1
    } else {
        expansion_for(exps.drop_first(), gap)
    }
}

/// The expansion recorded for a gap, as `expansion_for` describes it.
pub fn expansion_of(exps: &[(ContextGap, ContextExpansion)], gap: ContextGap) -> (r: ContextExpansion)
    ensures
        r == expansion_for(exps@, gap),
{
    let mut i: usize = 0;
    assert(exps@.skip(0) =~= exps@);
    while i < exps.len()
        invariant
            i <= exps@.len(),
            expansion_for(exps@.skip(i as int), gap) == expansion_for(exps@, gap),
        decreases exps@.len() - i,
    {
        proof {
            assert(exps@.skip(i as int).drop_first() =~= exps@.skip(i + 1));
        }
        if exps[i].0 == gap {
            return exps[i].1;
        }
        i += 1;
    }
    proof {
        assert(exps@.skip(i as int) =~= Seq::<(ContextGap, ContextExpansion)>::empty());
    }
    ContextExpansion { from_start: 0, from_end: 0 }
}

/// Where the run of unchanged lines that starts at `i` ends.
pub open spec fn context_run_end(lines: Seq<DiffLine>, i: int) -> int
    decreases lines.len() - i,
{
    if i < 0 || i >= lines.len() || lines[i].kind != LineKind::Context {
        i
    } else {
        context_run_end(lines, i + 1)
    }
}

/// A run of unchanged lines ends past its first line, holds only unchanged lines, and
/// is followed by a changed line or the end of the hunk.
pub proof fn lemma_context_run_end(lines: Seq<DiffLine>, i: int)
    requires
        0 <= i < lines.len(),
        lines[i].kind == LineKind::Context,
    ensures
        i < context_run_end(lines, i) <= lines.len(),
        forall|k: int| i <= k < context_run_end(lines, i) ==> #[trigger] lines[k].kind == LineKind::Context,
        context_run_end(lines, i) < lines.len() ==> lines[context_run_end(lines, i)].kind != LineKind::Context,
    decreases lines.len() - i,
{
    if i + 1 < lines.len() && lines[i + 1].kind == LineKind::Context {
        lemma_context_run_end(lines, i + 1);
    } else {
        assert(context_run_end(lines, i + 1) == i + 1);
    }
}

/// The gap that hides the unchanged lines `cs..ce` of a hunk of `n` lines, keeping
/// `VISIBLE_CONTEXT_LINES` next to each change.
pub open spec fn hunk_gap(file_index: usize, hunk_index: usize, n: int, cs: int, ce: int) -> ContextGap {
    ContextGap {
        file_index,
        hunk_index,
        start: (if cs == 0 {
            cs
        } else {
            cs + 3
        }) as usize,
        end: (if ce == n {
            ce
        } else {
            ce - 3
        }) as usize,
        position: if cs == 0 {
            ContextGapPosition::Leading
        } else if ce == n {
            ContextGapPosition::Trailing
        } else {
            ContextGapPosition::Middle
        },
        source: ContextGapSource::Hunk,
    }
}

/// The first hidden line once the expansion is revealed from the gap's start.
pub open spec fn remaining_start(gap: ContextGap, e: ContextExpansion) -> int {
    let x = if gap.start + e.from_start > usize::MAX {
        usize::MAX as int
    } else {
        gap.start + e.from_start
    };
    if x < gap.end {
        x
    } else {
        gap.end as int
    }
}

/// One past the last hidden line once the expansion is revealed from the gap's end.
pub open spec fn remaining_end(gap: ContextGap, e: ContextExpansion) -> int {
    let y = if gap.end - e.from_end < 0 {
        0
    } else {
        gap.end - e.from_end
    };
    if y < remaining_start(gap, e) {
        remaining_start(gap, e)
    } else {
        y
    }
}

/// The segments of lines `index..` of a hunk, shown lines starting at `visible_start`: each
/// run of unchanged lines longer than what stays visible beside changes becomes a gap,
/// less what has been revealed of it.
pub open spec fn segments_from(
    file_index: usize,
    hunk_index: usize,
    lines: Seq<DiffLine>,
    exps: Seq<(ContextGap, ContextExpansion)>,
    visible_start: int,
    index: int,
) -> Seq<HunkSegment>
    decreases lines.len() - index,
{
    let n = lines.len() as int;
    if index < 0 || index >= n {
        if visible_start < n {
            seq![HunkSegment::Lines(std::ops::Range { start: visible_start as usize, end: n as usize })]
        } else {
            seq![]
        }
    } else if lines[index].kind != LineKind::Context {
        segments_from(file_index, hunk_index, lines, exps, visible_start, index + 1)
    } else {
        let cs = index;
        let ce = context_run_end(lines, index);
        proof {
            lemma_context_run_end(lines, index);
        }
        let visible: int = if cs == 0 || ce == n {
            3
        } else {
            6
        };
        if (cs == 0 && ce == n) || ce - cs <= visible {
            segments_from(file_index, hunk_index, lines, exps, visible_start, ce)
        } else {
            let gap = hunk_gap(file_index, hunk_index, n, cs, ce);
            let e = expansion_for(exps, gap);
            let rs = remaining_start(gap, e);
            let re = remaining_end(gap, e);
            if rs == re {
                segments_from(file_index, hunk_index, lines, exps, visible_start, ce)
            } else {
                (if visible_start < rs {
                    seq![HunkSegment::Lines(std::ops::Range { start: visible_start as usize, end: rs as usize })]
                } else {
                    seq![]
                }) + seq![HunkSegment::Gap { gap, hidden: (re - rs) as usize }] + segments_from(
                    file_index,
                    hunk_index,
                    lines,
                    exps,
                    re,
                    ce,
                )
            }
        }
    }
}

/// Two runs of lines never follow each other: a hidden gap stands between them.
pub proof fn lemma_segments_alternate(
    file_index: usize,
    hunk_index: usize,
    lines: Seq<DiffLine>,
    exps: Seq<(ContextGap, ContextExpansion)>,
    visible_start: int,
    index: int,
)
    ensures
        forall|q: int|
            0 < q < segments_from(file_index, hunk_index, lines, exps, visible_start, index).len()
                && #[trigger] segments_from(file_index, hunk_index, lines, exps, visible_start, index)[q] is Lines
                ==> segments_from(file_index, hunk_index, lines, exps, visible_start, index)[q - 1] is Gap,
    decreases lines.len() - index,
{
    let n = lines.len() as int;
    if index < 0 || index >= n {
    } else if lines[index].kind != LineKind::Context {
        lemma_segments_alternate(file_index, hunk_index, lines, exps, visible_start, index + 1);
    } else {
        let cs = index;
        let ce = context_run_end(lines, index);
        lemma_context_run_end(lines, index);
        let visible: int = if cs == 0 || ce == n {
            3
        } else {
            6
        };
        if (cs == 0 && ce == n) || ce - cs <= visible {
            lemma_segments_alternate(file_index, hunk_index, lines, exps, visible_start, ce);
        } else {
            let gap = hunk_gap(file_index, hunk_index, n, cs, ce);
            let e = expansion_for(exps, gap);
            let rs = remaining_start(gap, e);
            let re = remaining_end(gap, e);
            if rs == re {
                lemma_segments_alternate(file_index, hunk_index, lines, exps, visible_start, ce);
            } else {
                lemma_segments_alternate(file_index, hunk_index, lines, exps, re, ce);
                let pre = if visible_start < rs {
                    seq![HunkSegment::Lines(std::ops::Range { start: visible_start as usize, end: rs as usize })]
                } else {
                    seq![]
                };
                let rest = segments_from(file_index, hunk_index, lines, exps, re, ce);
                let all = segments_from(file_index, hunk_index, lines, exps, visible_start, index);
                assert(all == pre + seq![HunkSegment::Gap { gap, hidden: (re - rs) as usize }] + rest);
                assert forall|q: int| 0 < q < all.len() && #[trigger] all[q] is Lines implies all[q - 1] is Gap by {
                    let m = pre.len() + 1;
                    if q >= m {
                        if q > m {
                            assert(all[q] == rest[q - m]);
                            assert(all[q - 1] == rest[q - m - 1]);
                        }
                    }
                }
            }
        }
    }
}

/// The segments of a hunk, as `segments_from` describes them from its first line.
pub fn hunk_segments(
    file_index: usize,
    hunk_index: usize,
    hunk: &DiffHunk,
    context_expansions: &[(ContextGap, ContextExpansion)],
) -> (r: Vec<HunkSegment>)
    ensures
        r@ == segments_from(file_index, hunk_index, hunk.lines@, context_expansions@, 0, 0),
{
    let ghost lines = hunk.lines@;
    let ghost exps = context_expansions@;
    let ghost all = segments_from(file_index, hunk_index, lines, exps, 0, 0);
    let n = hunk.lines.len();
    let mut segments: Vec<HunkSegment> = Vec::new();
    let mut visible_start: usize = 0;
    let mut index: usize = 0;
    while index < n
        invariant
            lines == hunk.lines@,
            exps == context_expansions@,
            n == lines.len(),
            index <= n,
            visible_start <= n,
            all == segments_from(file_index, hunk_index, lines, exps, 0, 0),
            all == segments@ + segments_from(file_index, hunk_index, lines, exps, visible_start as int, index as int),
        decreases n - index,
    {
        if hunk.lines[index].kind != LineKind::Context {
            index += 1;
        } else {
            let context_start = index;
            proof {
                lemma_context_run_end(lines, index as int);
            }
            while index < n && hunk.lines[index].kind == LineKind::Context
                invariant
                    lines == hunk.lines@,
                    n == lines.len(),
                    context_start <= index <= n,
                    context_run_end(lines, index as int) == context_run_end(lines, context_start as int),
                decreases n - index,
            {
                index += 1;
            }
            let context_end = index;
            let visible = if context_start == 0 || context_end == n {
                VISIBLE_CONTEXT_LINES
            } else {
                VISIBLE_CONTEXT_LINES * 2
            };
            if (context_start == 0 && context_end == n) || context_end - context_start <= visible {
            } else {
                let gap = ContextGap {
                    file_index,
                    hunk_index,
                    start: if context_start == 0 {
                        context_start
                    } else {
                        context_start + VISIBLE_CONTEXT_LINES
                    },
                    end: if context_end == n {
                        context_end
                    } else {
                        context_end - VISIBLE_CONTEXT_LINES
                    },
                    position: if context_start == 0 {
                        ContextGapPosition::Leading
                    } else if context_end == n {
                        ContextGapPosition::Trailing
                    } else {
                        ContextGapPosition::Middle
                    },
                    source: ContextGapSource::Hunk,
                };
                let expansion = expansion_of(context_expansions, gap);
                let grown = gap.start.saturating_add(expansion.from_start);
                let remaining_start = if grown < gap.end {
                    grown
                } else {
                    gap.end
                };
                let shrunk = gap.end.saturating_sub(expansion.from_end);
                let remaining_end = if shrunk < remaining_start {
                    remaining_start
                } else {
                    shrunk
                };
                if remaining_start != remaining_end {
                    let ghost before = segments@;
                    if visible_start < remaining_start {
                        segments.push(HunkSegment::Lines(visible_start..remaining_start));
                    }
                    segments.push(HunkSegment::Gap { gap, hidden: remaining_end - remaining_start });
                    proof {
                        let head = if visible_start < remaining_start {
                            seq![HunkSegment::Lines(std::ops::Range { start: visible_start, end: remaining_start })]
                        } else {
                            seq![]
                        };
                        assert(segments@ =~= before + head + seq![HunkSegment::Gap { gap, hidden: (remaining_end - remaining_start) as usize }]);
                    }
                    visible_start = remaining_end;
                }
            }
        }
    }
    if visible_start < n {
        segments.push(HunkSegment::Lines(visible_start..n));
    }
    proof {
        if visible_start >= n {
            assert(segments@ + Seq::<HunkSegment>::empty() =~= segments@);
        }
    }
    segments
}

/// The indices in the split rows of lines `i..end` lie in that range.
pub proof fn lemma_aligned_rows_bounds(lines: Seq<DiffLine>, i: int, end: int)
    requires
        0 <= i <= end <= lines.len(),
        lines.len() <= usize::MAX,
    ensures
        aligned_rows(lines, i, end).len() <= end - i,
        forall|k: int|
            0 <= k < aligned_rows(lines, i, end).len() ==> {
                let p = #[trigger] aligned_rows(lines, i, end)[k];
                &&& (p.0 matches Some(x) ==> i <= x < end)
                &&& (p.1 matches Some(x) ==> i <= x < end)
            },
    decreases end - i,
{
    if i < end {
        let rows = aligned_rows(lines, i, end);
        if lines[i].kind == LineKind::Context {
            lemma_aligned_rows_bounds(lines, i + 1, end);
            assert forall|k: int| 0 <= k < rows.len() implies {
                let p = #[trigger] rows[k];
                &&& (p.0 matches Some(x) ==> i <= x < end)
                &&& (p.1 matches Some(x) ==> i <= x < end)
            } by {
                if k > 0 {
                    assert(rows[k] == aligned_rows(lines, i + 1, end)[k - 1]);
                }
            }
        } else {
            let e = change_run_end(lines, i, end);
            lemma_change_run_end(lines, i, end);
            lemma_aligned_rows_bounds(lines, e, end);
            lemma_kind_indices(lines, i, e, LineKind::Deletion);
            lemma_kind_indices(lines, i, e, LineKind::Addition);
            let head = pair_up(kind_indices(lines, i, e, LineKind::Deletion), kind_indices(lines, i, e, LineKind::Addition));
            assert forall|k: int| 0 <= k < rows.len() implies {
                let p = #[trigger] rows[k];
                &&& (p.0 matches Some(x) ==> i <= x < end)
                &&& (p.1 matches Some(x) ==> i <= x < end)
            } by {
                if k >= head.len() {
                    assert(rows[k] == aligned_rows(lines, e, end)[k - head.len()]);
                } else {
                    assert(rows[k] == head[k]);
                }
            }
        }
    }
}

/// What the segments of a hunk hold: shown ranges within the lines, in order from
/// `visible_start`, and gaps of this hunk that hide at most all of its lines.
pub proof fn lemma_segments_ok(
    file_index: usize,
    hunk_index: usize,
    lines: Seq<DiffLine>,
    exps: Seq<(ContextGap, ContextExpansion)>,
    visible_start: int,
    index: int,
)
    requires
        0 <= visible_start <= index <= lines.len(),
        lines.len() <= usize::MAX,
    ensures
        forall|k: int|
            0 <= k < segments_from(file_index, hunk_index, lines, exps, visible_start, index).len() ==> match #[trigger] segments_from(
                file_index,
                hunk_index,
                lines,
                exps,
                visible_start,
                index,
            )[k] {
                HunkSegment::Lines(r) => visible_start <= r.start <= r.end <= lines.len(),
                HunkSegment::Gap { gap, hidden } => hidden <= lines.len() && gap.file_index == file_index
                    && gap.hunk_index == hunk_index,
            },
    decreases lines.len() - index,
{
    let n = lines.len() as int;
    let segs = segments_from(file_index, hunk_index, lines, exps, visible_start, index);
    if index >= n {
    } else if lines[index].kind != LineKind::Context {
        lemma_segments_ok(file_index, hunk_index, lines, exps, visible_start, index + 1);
    } else {
        let cs = index;
        let ce = context_run_end(lines, index);
        lemma_context_run_end(lines, index);
        let visible: int = if cs == 0 || ce == n {
            3
        } else {
            6
        };
        if (cs == 0 && ce == n) || ce - cs <= visible {
            lemma_segments_ok(file_index, hunk_index, lines, exps, visible_start, ce);
        } else {
            let gap = hunk_gap(file_index, hunk_index, n, cs, ce);
            let e = expansion_for(exps, gap);
            let rs = remaining_start(gap, e);
            let re = remaining_end(gap, e);
            if rs == re {
                lemma_segments_ok(file_index, hunk_index, lines, exps, visible_start, ce);
            } else {
                lemma_segments_ok(file_index, hunk_index, lines, exps, re, ce);
                let head = if visible_start < rs {
                    seq![HunkSegment::Lines(std::ops::Range { start: visible_start as usize, end: rs as usize })]
                } else {
                    seq![]
                };
                let mid = seq![HunkSegment::Gap { gap, hidden: (re - rs) as usize }];
                let tail = segments_from(file_index, hunk_index, lines, exps, re, ce);
                assert forall|k: int| 0 <= k < segs.len() implies match #[trigger] segs[k] {
                    HunkSegment::Lines(r) => visible_start <= r.start <= r.end <= lines.len(),
                    HunkSegment::Gap { gap, hidden } => hidden <= lines.len() && gap.file_index == file_index
                        && gap.hunk_index == hunk_index,
                } by {
                    if k < head.len() {
                        assert(segs[k] == head[k]);
                    } else if k == head.len() {
                        assert(segs[k] == mid[0]);
                    } else {
                        assert(segs[k] == tail[k - head.len() - 1]);
                    }
                }
            }
        }
    }
}

} // verus!
