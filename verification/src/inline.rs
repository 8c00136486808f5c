//! Which parts of a changed line changed: the byte ranges to highlight in the old line and
//! in the new one, found by a word diff of the two, or a grapheme diff for a renamed identifier.

use vstd::prelude::*;
use vstd::utf8::*;
use std::ops::Range;

use similar::utils::{diff_graphemes, diff_unicode_words};
use similar::{Algorithm, ChangeTag};

use crate::hunk_header::{char_is_whitespace, is_whitespace};
use crate::text::{
    chars_of, lemma_boundary_extend, lemma_utf8_concat, lemma_utf8_len, substring, utf8,
};

verus! {

broadcast use vstd::utf8::encode_utf8_valid_utf8, vstd::utf8::encode_utf8_decode_utf8;

/// What a piece of a diff does: kept, taken from the old text, or added to the new one.
#[derive(Clone, Copy, Debug, PartialEq, Eq, Structural)]
pub enum DiffTag {
    Equal,
    Delete,
    Insert,
}

/// The pieces of a diff, each with its text.
pub open spec fn piece_views(v: Seq<(DiffTag, &str)>) -> Seq<(DiffTag, Seq<char>)> {
    v.map_values(|p: (DiffTag, &str)| (p.0, p.1@))
}

/// The texts of the pieces, those with the tag `skip` left out, end to end.
pub open spec fn side_text(pieces: Seq<(DiffTag, Seq<char>)>, skip: DiffTag) -> Seq<char>
    decreases pieces.len(),
{
    if pieces.len() == 0 {
        seq![]
    } else {
        side_text(pieces.drop_last(), skip) + if pieces.last().0 == skip {
            seq![]
        } else {
            pieces.last().1
        }
    }
}

/// The word-level diff that `similar` computes of two texts.
pub uninterp spec fn unicode_word_diff(old: Seq<char>, new: Seq<char>) -> Seq<(DiffTag, Seq<char>)>;

/// The grapheme-level diff that `similar` computes of two texts.
pub uninterp spec fn grapheme_diff(old: Seq<char>, new: Seq<char>) -> Seq<(DiffTag, Seq<char>)>;

/// Whether `char::is_alphanumeric` holds of a character: it is alphabetic or numeric.
pub uninterp spec fn is_alphanumeric_char(c: char) -> bool;

/// The word-level diff of two texts.
///
/// Calls `similar::utils::diff_unicode_words` with the Myers algorithm. The contract
/// names its result and claims what its documentation says of it: the pieces are
/// connected slices of the two texts, so the kept and deleted pieces make up the old
/// text and the kept and inserted pieces the new one.
#[verifier::external_body]
fn word_pieces<'a>(old: &'a str, new: &'a str) -> (r: Vec<(DiffTag, &'a str)>)
    ensures
        piece_views(r@) == unicode_word_diff(old@, new@),
        side_text(piece_views(r@), DiffTag::Insert) == old@,
        side_text(piece_views(r@), DiffTag::Delete) == new@,
{
    diff_unicode_words(Algorithm::Myers, old, new)
        .into_iter()
        .map(|(tag, text)| match tag {
            ChangeTag::Equal => (DiffTag::Equal, text),
            ChangeTag::Delete => (DiffTag::Delete, text),
            ChangeTag::Insert => (DiffTag::Insert, text),
        })
        .collect()
}

/// The grapheme-level diff of two texts.
///
/// Calls `similar::utils::diff_graphemes` with the Myers algorithm; the contract names
/// its result and claims, as for the word-level diff, that its pieces make up the two texts.
#[verifier::external_body]
fn grapheme_pieces<'a>(old: &'a str, new: &'a str) -> (r: Vec<(DiffTag, &'a str)>)
    ensures
        piece_views(r@) == grapheme_diff(old@, new@),
        side_text(piece_views(r@), DiffTag::Insert) == old@,
        side_text(piece_views(r@), DiffTag::Delete) == new@,
{
    diff_graphemes(Algorithm::Myers, old, new)
        .into_iter()
        .map(|(tag, text)| match tag {
            ChangeTag::Equal => (DiffTag::Equal, text),
            ChangeTag::Delete => (DiffTag::Delete, text),
            ChangeTag::Insert => (DiffTag::Insert, text),
        })
        .collect()
}

/// Whether a character is alphanumeric.
///
/// Calls `char::is_alphanumeric`; the contract names its result.
#[verifier::external_body]
fn alphanumeric(c: char) -> (r: bool)
    ensures
        r == is_alphanumeric_char(c),
{
    c.is_alphanumeric()
}

/// The number of characters that are not white space.
pub open spec fn significant_count(s: Seq<char>) -> nat
    decreases s.len(),
{
    if s.len() == 0 {
        0
    } else {
        significant_count(s.drop_last()) + if is_whitespace(s.last()) {
            0nat
        } else {
            1nat
        }
    }
}

/// Where a scan of the pieces stands: the byte offsets reached in each text, the ranges
/// deleted and inserted so far, and the characters kept that are not white space.
pub struct ScanState {
    pub old_offset: int,
    pub new_offset: int,
    pub old_ranges: Seq<Range<usize>>,
    pub new_ranges: Seq<Range<usize>>,
    pub shared: int,
}

/// The pieces scanned in order: a kept piece advances both offsets, a deleted piece is an
/// old range, an inserted piece a new range.
pub open spec fn scan_pieces(pieces: Seq<(DiffTag, Seq<char>)>) -> ScanState
    decreases pieces.len(),
{
    if pieces.len() == 0 {
        ScanState { old_offset: 0, new_offset: 0, old_ranges: seq![], new_ranges: seq![], shared: 0 }
    } else {
        let st = scan_pieces(pieces.drop_last());
        let text = pieces.last().1;
        let n = utf8(text).len() as int;
        match pieces.last().0 {
            DiffTag::Equal => ScanState {
                old_offset: st.old_offset + n,
                new_offset: st.new_offset + n,
                shared: st.shared + significant_count(text),
                ..st
            },
            DiffTag::Delete => ScanState {
                old_ranges: st.old_ranges.push(Range { start: st.old_offset as usize, end: (st.old_offset + n) as usize }),
                old_offset: st.old_offset + n,
                ..st
            },
            DiffTag::Insert => ScanState {
                new_ranges: st.new_ranges.push(Range { start: st.new_offset as usize, end: (st.new_offset + n) as usize }),
                new_offset: st.new_offset + n,
                ..st
            },
        }
    }
}

/// Ranges merged in order: a range that starts at most `gap` bytes after the last merged
/// one ends joins it.
pub open spec fn merge_ranges(ranges: Seq<Range<usize>>, gap: usize) -> Seq<Range<usize>>
    decreases ranges.len(),
{
    if ranges.len() == 0 {
        seq![]
    } else {
        let m = merge_ranges(ranges.drop_last(), gap);
        let r = ranges.last();
        if m.len() > 0 && (r.start <= m.last().end || r.start - m.last().end <= gap) {
            m.update(
                m.len() - 1,
                Range {
                    start: m.last().start,
                    end: if m.last().end < r.end {
                        r.end
                    } else {
                        m.last().end
                    },
                },
            )
        } else {
            m.push(r)
        }
    }
}

/// The text of a byte range of a line.
pub open spec fn range_text(s: Seq<char>, r: Range<usize>) -> Seq<char> {
    decode_utf8(utf8(s).subrange(r.start as int, r.end as int))
}

/// Whether a text is a whole identifier: not empty, of `_`, `$` and alphanumeric characters.
pub open spec fn identifier_text(t: Seq<char>) -> bool {
    &&& t.len() > 0
    &&& forall|i: int| 0 <= i < t.len() ==> (#[trigger] t[i] == '_' || t[i] == '$' || is_alphanumeric_char(t[i]))
}

/// Whether the change replaces one identifier by another: one range on each side, each an identifier.
pub open spec fn identifier_replacement(old: Seq<char>, new: Seq<char>, old_ranges: Seq<Range<usize>>, new_ranges: Seq<Range<usize>>) -> bool {
    &&& old_ranges.len() == 1
    &&& new_ranges.len() == 1
    &&& identifier_text(range_text(old, old_ranges[0]))
    &&& identifier_text(range_text(new, new_ranges[0]))
}

/// `a * b`, held to `usize::MAX`.
pub open spec fn saturating_product(a: int, b: int) -> int {
    if a * b > usize::MAX {
        usize::MAX as int
    } else {
        a * b
    }
}

/// Whether the word diff whose pieces are `pieces` replaces one identifier by another.
pub open spec fn replaces_identifier(old: Seq<char>, new: Seq<char>, pieces: Seq<(DiffTag, Seq<char>)>) -> bool {
    let st = scan_pieces(pieces);
    identifier_replacement(old, new, st.old_ranges, st.new_ranges)
}

/// The ranges a word diff whose pieces are `pieces` highlights: when less than 30% of the
/// longer line's characters that are not white space are kept, the lines are unrelated and
/// nothing is highlighted; otherwise ranges at most 4 bytes apart are merged.
pub open spec fn word_ranges_of(old: Seq<char>, new: Seq<char>, pieces: Seq<(DiffTag, Seq<char>)>) -> (Seq<Range<usize>>, Seq<Range<usize>>) {
    let st = scan_pieces(pieces);
    let largest = if significant_count(old) < significant_count(new) {
        significant_count(new)
    } else {
        significant_count(old)
    };
    if largest == 0 || saturating_product(st.shared, 100) < saturating_product(largest as int, 30) {
        (seq![], seq![])
    } else {
        (merge_ranges(st.old_ranges, 4), merge_ranges(st.new_ranges, 4))
    }
}

/// The ranges to highlight in an old line and its new line: one identifier replaced by
/// another is refined to graphemes; otherwise the word diff's ranges, as `word_ranges_of`
/// gives them.
pub open spec fn inline_ranges_of(old: Seq<char>, new: Seq<char>) -> (Seq<Range<usize>>, Seq<Range<usize>>) {
    let words = unicode_word_diff(old, new);
    if replaces_identifier(old, new, words) {
        let g = scan_pieces(grapheme_diff(old, new));
        (g.old_ranges, g.new_ranges)
    } else {
        word_ranges_of(old, new, words)
    }
}

/// Every range lies within the text and starts and ends on a character boundary.
pub open spec fn ranges_on_boundaries(ranges: Seq<Range<usize>>, text: Seq<char>) -> bool {
    forall|i: int|
        0 <= i < ranges.len() ==> {
            let r = #[trigger] ranges[i];
            &&& r.start <= r.end <= utf8(text).len()
            &&& is_char_boundary(utf8(text), r.start as int)
            &&& is_char_boundary(utf8(text), r.end as int)
        }
}

/// The scan reaches, in each text, the end of what its pieces made of that text so far,
/// and its ranges lie on character boundaries of that.
proof fn lemma_scan_pieces(pieces: Seq<(DiffTag, Seq<char>)>)
    requires
        utf8(side_text(pieces, DiffTag::Insert)).len() <= usize::MAX,
        utf8(side_text(pieces, DiffTag::Delete)).len() <= usize::MAX,
    ensures
        scan_pieces(pieces).old_offset == utf8(side_text(pieces, DiffTag::Insert)).len(),
        scan_pieces(pieces).new_offset == utf8(side_text(pieces, DiffTag::Delete)).len(),
        ranges_on_boundaries(scan_pieces(pieces).old_ranges, side_text(pieces, DiffTag::Insert)),
        ranges_on_boundaries(scan_pieces(pieces).new_ranges, side_text(pieces, DiffTag::Delete)),
        scan_pieces(pieces).shared <= significant_count(side_text(pieces, DiffTag::Insert)),
    decreases pieces.len(),
{
    if pieces.len() > 0 {
        let init = pieces.drop_last();
        let (tag, text) = pieces.last();
        let old0 = side_text(init, DiffTag::Insert);
        let new0 = side_text(init, DiffTag::Delete);
        let old1 = side_text(pieces, DiffTag::Insert);
        let new1 = side_text(pieces, DiffTag::Delete);
        let add_old = if tag == DiffTag::Insert { seq![] } else { text };
        let add_new = if tag == DiffTag::Delete { seq![] } else { text };
        assert(old1 == old0 + add_old);
        assert(new1 == new0 + add_new);
        lemma_utf8_concat(old0, add_old);
        lemma_utf8_concat(new0, add_new);
        lemma_scan_pieces(init);
        let st0 = scan_pieces(init);
        let st = scan_pieces(pieces);
        assert(utf8(seq![]) =~= Seq::<u8>::empty());
        is_char_boundary_start_end_of_seq(utf8(old1));
        is_char_boundary_start_end_of_seq(utf8(new1));
        assert forall|i: int| 0 <= i < st.old_ranges.len() implies {
            let r = #[trigger] st.old_ranges[i];
            &&& r.start <= r.end <= utf8(old1).len()
            &&& is_char_boundary(utf8(old1), r.start as int)
            &&& is_char_boundary(utf8(old1), r.end as int)
        } by {
            if i < st0.old_ranges.len() {
                let r = st0.old_ranges[i];
                assert(st.old_ranges[i] == r);
                lemma_boundary_extend(utf8(old0), utf8(add_old), r.start as int);
                lemma_boundary_extend(utf8(old0), utf8(add_old), r.end as int);
            }
        }
        assert forall|i: int| 0 <= i < st.new_ranges.len() implies {
            let r = #[trigger] st.new_ranges[i];
            &&& r.start <= r.end <= utf8(new1).len()
            &&& is_char_boundary(utf8(new1), r.start as int)
            &&& is_char_boundary(utf8(new1), r.end as int)
        } by {
            if i < st0.new_ranges.len() {
                let r = st0.new_ranges[i];
                assert(st.new_ranges[i] == r);
                lemma_boundary_extend(utf8(new0), utf8(add_new), r.start as int);
                lemma_boundary_extend(utf8(new0), utf8(add_new), r.end as int);
            }
        }
        lemma_significant_concat(old0, add_old);
    }
}

proof fn lemma_significant_concat(a: Seq<char>, b: Seq<char>)
    ensures
        significant_count(a + b) == significant_count(a) + significant_count(b),
    decreases b.len(),
{
    if b.len() == 0 {
        assert(a + b =~= a);
    } else {
        lemma_significant_concat(a, b.drop_last());
        assert((a + b).drop_last() =~= a + b.drop_last());
    }
}

proof fn lemma_significant_prefix(s: Seq<char>, i: int)
    requires
        0 <= i <= s.len(),
    ensures
        significant_count(s.take(i)) <= significant_count(s),
        significant_count(s) <= s.len(),
    decreases s.len() - i,
{
    if i < s.len() {
        lemma_significant_prefix(s, i + 1);
        assert(s.take(i + 1).drop_last() =~= s.take(i));
    } else {
        assert(s.take(i) =~= s);
    }
    lemma_significant_len(s);
}

proof fn lemma_significant_len(s: Seq<char>)
    ensures
        significant_count(s) <= s.len(),
    decreases s.len(),
{
    if s.len() > 0 {
        lemma_significant_len(s.drop_last());
    }
}

/// Merging keeps every range's start and end among the starts and ends of the input ranges.
proof fn lemma_merge_boundaries(ranges: Seq<Range<usize>>, gap: usize, text: Seq<char>)
    requires
        ranges_on_boundaries(ranges, text),
    ensures
        ranges_on_boundaries(merge_ranges(ranges, gap), text),
    decreases ranges.len(),
{
    if ranges.len() > 0 {
        let init = ranges.drop_last();
        assert forall|i: int| 0 <= i < init.len() implies {
            let r = #[trigger] init[i];
            &&& r.start <= r.end <= utf8(text).len()
            &&& is_char_boundary(utf8(text), r.start as int)
            &&& is_char_boundary(utf8(text), r.end as int)
        } by {
            assert(init[i] == ranges[i]);
        }
        lemma_merge_boundaries(init, gap, text);
        let m = merge_ranges(init, gap);
        let r = ranges.last();
        assert(r == ranges[ranges.len() - 1]);
        let out = merge_ranges(ranges, gap);
        assert forall|i: int| 0 <= i < out.len() implies {
            let q = #[trigger] out[i];
            &&& q.start <= q.end <= utf8(text).len()
            &&& is_char_boundary(utf8(text), q.start as int)
            &&& is_char_boundary(utf8(text), q.end as int)
        } by {
            if i < m.len() - 1 || (i == m.len() - 1 && !(r.start <= m.last().end || r.start - m.last().end <= gap)) {
                assert(out[i] == m[i]);
            } else if i == m.len() && m.len() >= 0 {
                assert(out[i] == r);
            } else {
                assert(m.last() == m[m.len() - 1]);
            }
        }
    }
}

/// The number of characters of `s` that are not white space.
fn count_significant(s: &str) -> (r: usize)
    ensures
        r == significant_count(s@),
{
    let chars = chars_of(s);
    let mut n: usize = 0;
    let mut i: usize = 0;
    while i < chars.len()
        invariant
            i <= chars@.len(),
            n == significant_count(chars@.take(i as int)),
        decreases chars@.len() - i,
    {
        proof {
            assert(chars@.take(i + 1).drop_last() =~= chars@.take(i as int));
            lemma_significant_prefix(chars@, i + 1);
            lemma_significant_len(chars@);
        }
        if !char_is_whitespace(chars[i]) {
            n += 1;
        }
        i += 1;
    }
    assert(chars@.take(i as int) =~= chars@);
    n
}

/// The ranges that the pieces delete from the old text and insert into the new one, and the
/// kept characters that are not white space, as `scan_pieces` describes them.
fn scan(pieces: &Vec<(DiffTag, &str)>, Ghost(old): Ghost<Seq<char>>, Ghost(new): Ghost<Seq<char>>) -> (r: (Vec<Range<usize>>, Vec<Range<usize>>, usize))
    requires
        side_text(piece_views(pieces@), DiffTag::Insert) == old,
        side_text(piece_views(pieces@), DiffTag::Delete) == new,
        utf8(old).len() <= usize::MAX,
        utf8(new).len() <= usize::MAX,
    ensures
        r.0@ == scan_pieces(piece_views(pieces@)).old_ranges,
        r.1@ == scan_pieces(piece_views(pieces@)).new_ranges,
        r.2 == scan_pieces(piece_views(pieces@)).shared,
{
    let ghost views = piece_views(pieces@);
    let mut old_ranges: Vec<Range<usize>> = Vec::new();
    let mut new_ranges: Vec<Range<usize>> = Vec::new();
    let mut old_offset: usize = 0;
    let mut new_offset: usize = 0;
    let mut shared: usize = 0;
    let mut i: usize = 0;
    proof {
        lemma_significant_len(old);
        lemma_utf8_len(old);
    }
    while i < pieces.len()
        invariant
            views == piece_views(pieces@),
            side_text(views, DiffTag::Insert) == old,
            side_text(views, DiffTag::Delete) == new,
            utf8(old).len() <= usize::MAX,
            utf8(new).len() <= usize::MAX,
            significant_count(old) <= usize::MAX,
            i <= pieces@.len(),
            ({
                let st = scan_pieces(views.take(i as int));
                &&& old_offset == st.old_offset
                &&& new_offset == st.new_offset
                &&& old_ranges@ == st.old_ranges
                &&& new_ranges@ == st.new_ranges
                &&& shared == st.shared
            }),
        decreases pieces@.len() - i,
    {
        let ghost pre = views.take(i as int);
        let ghost next = views.take(i + 1);
        proof {
            assert(next.drop_last() =~= pre);
            assert(next.last() == views[i as int]);
            lemma_side_prefix(views, i + 1);
            lemma_side_prefix(views, i as int);
            lemma_scan_pieces(next);
            lemma_scan_pieces(pre);
        }
        let (tag, text) = pieces[i];
        let n = text.as_bytes().len();
        match tag {
            DiffTag::Equal => {
                let c = count_significant(text);
                shared = shared + c;
                old_offset = old_offset + n;
                new_offset = new_offset + n;
            },
            DiffTag::Delete => {
                old_ranges.push(old_offset..old_offset + n);
                old_offset = old_offset + n;
            },
            DiffTag::Insert => {
                new_ranges.push(new_offset..new_offset + n);
                new_offset = new_offset + n;
            },
        }
        i += 1;
    }
    proof {
        assert(views.take(i as int) =~= views);
    }
    (old_ranges, new_ranges, shared)
}

/// What a prefix of the pieces makes of each text is a prefix of that text, and so no longer.
proof fn lemma_side_prefix(pieces: Seq<(DiffTag, Seq<char>)>, k: int)
    requires
        0 <= k <= pieces.len(),
    ensures
        utf8(side_text(pieces.take(k), DiffTag::Insert)).len() <= utf8(side_text(pieces, DiffTag::Insert)).len(),
        utf8(side_text(pieces.take(k), DiffTag::Delete)).len() <= utf8(side_text(pieces, DiffTag::Delete)).len(),
        significant_count(side_text(pieces.take(k), DiffTag::Insert)) <= significant_count(side_text(pieces, DiffTag::Insert)),
    decreases pieces.len() - k,
{
    if k < pieces.len() {
        lemma_side_prefix(pieces, k + 1);
        let a = pieces.take(k);
        let b = pieces.take(k + 1);
        assert(b.drop_last() =~= a);
        let t = b.last().1;
        let add_old = if b.last().0 == DiffTag::Insert { seq![] } else { t };
        let add_new = if b.last().0 == DiffTag::Delete { seq![] } else { t };
        lemma_utf8_concat(side_text(a, DiffTag::Insert), add_old);
        lemma_utf8_concat(side_text(a, DiffTag::Delete), add_new);
        lemma_significant_concat(side_text(a, DiffTag::Insert), add_old);
    } else {
        assert(pieces.take(k) =~= pieces);
    }
}

/// Ranges merged as `merge_ranges` describes them.
fn merge_nearby_ranges(ranges: Vec<Range<usize>>, maximum_gap: usize) -> (r: Vec<Range<usize>>)
    ensures
        r@ == merge_ranges(ranges@, maximum_gap),
{
    let mut merged: Vec<Range<usize>> = Vec::new();
    let mut i: usize = 0;
    while i < ranges.len()
        invariant
            i <= ranges@.len(),
            merged@ == merge_ranges(ranges@.take(i as int), maximum_gap),
        decreases ranges@.len() - i,
    {
        proof {
            assert(ranges@.take(i + 1).drop_last() =~= ranges@.take(i as int));
            assert(ranges@.take(i + 1).last() == ranges@[i as int]);
        }
        let start = ranges[i].start;
        let end = ranges[i].end;
        let n = merged.len();
        if n > 0 && (start <= merged[n - 1].end || start - merged[n - 1].end <= maximum_gap) {
            let previous_start = merged[n - 1].start;
            let previous_end = merged[n - 1].end;
            let joined_end = if previous_end < end {
                end
            } else {
                previous_end
            };
            merged.set(n - 1, previous_start..joined_end);
        } else {
            merged.push(start..end);
        }
        i += 1;
    }
    proof {
        assert(ranges@.take(i as int) =~= ranges@);
    }
    merged
}

/// Whether the text is a whole identifier, as `identifier_text` describes it.
fn is_identifier(text: &str) -> (r: bool)
    ensures
        r == identifier_text(text@),
{
    let chars = chars_of(text);
    if chars.len() == 0 {
        return false;
    }
    let mut i: usize = 0;
    while i < chars.len()
        invariant
            i <= chars@.len(),
            chars@ == text@,
            forall|k: int| 0 <= k < i ==> (#[trigger] chars@[k] == '_' || chars@[k] == '$' || is_alphanumeric_char(chars@[k])),
        decreases chars@.len() - i,
    {
        let c = chars[i];
        if !(c == '_' || c == '$' || alphanumeric(c)) {
            return false;
        }
        i += 1;
    }
    true
}

/// Whether the change replaces one identifier by another, as `identifier_replacement` describes it.
fn single_identifier_replacement(old: &str, new: &str, old_ranges: &Vec<Range<usize>>, new_ranges: &Vec<Range<usize>>) -> (r: bool)
    requires
        ranges_on_boundaries(old_ranges@, old@),
        ranges_on_boundaries(new_ranges@, new@),
    ensures
        r == identifier_replacement(old@, new@, old_ranges@, new_ranges@),
{
    if old_ranges.len() != 1 || new_ranges.len() != 1 {
        return false;
    }
    let o = &old_ranges[0];
    let n = &new_ranges[0];
    let old_text = substring(old, o.start, o.end);
    let new_text = substring(new, n.start, n.end);
    is_identifier(old_text) && is_identifier(new_text)
}

/// `a * b`, held to `usize::MAX`.
fn saturating_times(a: usize, b: usize) -> (r: usize)
    requires
        b > 0,
    ensures
        r == saturating_product(a as int, b as int),
{
    if a > usize::MAX / b {
        proof {
            assert(a * b > usize::MAX) by (nonlinear_arith)
                requires
                    a > usize::MAX / b,
                    b > 0,
            ;
        }
        usize::MAX
    } else {
        proof {
            assert(a * b <= usize::MAX) by (nonlinear_arith)
                requires
                    a <= usize::MAX / b,
                    b > 0,
            ;
        }
        a * b
    }
}

/// The ranges that the pieces of a diff of two lines delete from the old line and insert
/// into the new one, as `scan_pieces` gives them; every range lies within its line, on
/// character boundaries.
pub fn ranges_from_pieces(old: &str, new: &str, pieces: &Vec<(DiffTag, &str)>) -> (r: (Vec<Range<usize>>, Vec<Range<usize>>))
    requires
        side_text(piece_views(pieces@), DiffTag::Insert) == old@,
        side_text(piece_views(pieces@), DiffTag::Delete) == new@,
    ensures
        r.0@ == scan_pieces(piece_views(pieces@)).old_ranges,
        r.1@ == scan_pieces(piece_views(pieces@)).new_ranges,
        ranges_on_boundaries(r.0@, old@),
        ranges_on_boundaries(r.1@, new@),
{
    let _ = old.as_bytes().len();
    let _ = new.as_bytes().len();
    proof {
        lemma_scan_pieces(piece_views(pieces@));
    }
    let (o, n, _) = scan(pieces, Ghost(old@), Ghost(new@));
    (o, n)
}

/// What the pieces of a word diff of two lines decide: `None` when one identifier replaces
/// another, which a finer diff refines; otherwise the ranges that `word_ranges_of` gives,
/// every one within its line, on character boundaries.
pub fn ranges_from_word_pieces(old: &str, new: &str, pieces: &Vec<(DiffTag, &str)>) -> (r: Option<(Vec<Range<usize>>, Vec<Range<usize>>)>)
    requires
        side_text(piece_views(pieces@), DiffTag::Insert) == old@,
        side_text(piece_views(pieces@), DiffTag::Delete) == new@,
    ensures
        r is None <==> replaces_identifier(old@, new@, piece_views(pieces@)),
        r matches Some(p) ==> (p.0@, p.1@) == word_ranges_of(old@, new@, piece_views(pieces@))
            && ranges_on_boundaries(p.0@, old@) && ranges_on_boundaries(p.1@, new@),
{
    let _ = old.as_bytes().len();
    let _ = new.as_bytes().len();
    proof {
        lemma_scan_pieces(piece_views(pieces@));
    }
    let (old_ranges, new_ranges, shared) = scan(pieces, Ghost(old@), Ghost(new@));
    let old_significant = count_significant(old);
    let new_significant = count_significant(new);
    let largest = if old_significant < new_significant {
        new_significant
    } else {
        old_significant
    };
    let identifier = single_identifier_replacement(old, new, &old_ranges, &new_ranges);
    if identifier {
        return None;
    }
    if largest == 0 || saturating_times(shared, 100) < saturating_times(largest, 30) {
        return Some((Vec::new(), Vec::new()));
    }
    proof {
        lemma_merge_boundaries(old_ranges@, 4, old@);
        lemma_merge_boundaries(new_ranges@, 4, new@);
    }
    Some((merge_nearby_ranges(old_ranges, 4), merge_nearby_ranges(new_ranges, 4)))
}

/// The ranges of an old line and its new line that a grapheme diff finds changed; every
/// range lies within its line, on character boundaries.
fn grapheme_ranges(old: &str, new: &str) -> (r: (Vec<Range<usize>>, Vec<Range<usize>>))
    ensures
        r.0@ == scan_pieces(grapheme_diff(old@, new@)).old_ranges,
        r.1@ == scan_pieces(grapheme_diff(old@, new@)).new_ranges,
        ranges_on_boundaries(r.0@, old@),
        ranges_on_boundaries(r.1@, new@),
{
    let graphemes = grapheme_pieces(old, new);
    ranges_from_pieces(old, new, &graphemes)
}

/// The ranges to highlight in an old line and its new line, as `inline_ranges_of` describes
/// them; every range lies within its line, on character boundaries.
pub fn inline_ranges(old: &str, new: &str) -> (r: (Vec<Range<usize>>, Vec<Range<usize>>))
    ensures
        (r.0@, r.1@) == inline_ranges_of(old@, new@),
        ranges_on_boundaries(r.0@, old@),
        ranges_on_boundaries(r.1@, new@),
{
    let words = word_pieces(old, new);
    match ranges_from_word_pieces(old, new, &words) {
        Some(ranges) => ranges,
        None => grapheme_ranges(old, new),
    }
}

} // verus!
