//! The start lines named in a hunk header such as `@@ -18,10 +18,15 @@`.

use vstd::prelude::*;

use crate::text::chars_of;

verus! {

/// The Unicode `White_Space` property, which `char::is_whitespace` tests.
pub open spec fn is_whitespace(c: char) -> bool {
    let u = c as u32;
    ||| 0x09 <= u <= 0x0d
    ||| u == 0x20
    ||| u == 0x85
    ||| u == 0xa0
    ||| u == 0x1680
    ||| 0x2000 <= u <= 0x200a
    ||| u == 0x2028
    ||| u == 0x2029
    ||| u == 0x202f
    ||| u == 0x205f
    ||| u == 0x3000
}

/// Whether `c` is white space.
pub fn char_is_whitespace(c: char) -> (r: bool)
    ensures
        r == is_whitespace(c),
{
    let u = c as u32;
    (0x09 <= u && u <= 0x0d) || u == 0x20 || u == 0x85 || u == 0xa0 || u == 0x1680 || (0x2000 <= u
        && u <= 0x200a) || u == 0x2028 || u == 0x2029 || u == 0x202f || u == 0x205f || u == 0x3000
}

/// The first index at or after `i` that is not white space.
pub open spec fn skip_whitespace(s: Seq<char>, i: int) -> int
    decreases s.len() - i,
{
    if i < 0 || i >= s.len() || !is_whitespace(s[i]) {
        i
    } else {
        skip_whitespace(s, i + 1)
    }
}

/// The first index at or after `i` that is white space.
pub open spec fn word_end(s: Seq<char>, i: int) -> int
    decreases s.len() - i,
{
    if i < 0 || i >= s.len() || is_whitespace(s[i]) {
        i
    } else {
        word_end(s, i + 1)
    }
}

/// Skipping white space stops within the text, on a character that is not white space.
pub proof fn lemma_skip_whitespace(s: Seq<char>, i: int)
    requires
        0 <= i <= s.len(),
    ensures
        i <= skip_whitespace(s, i) <= s.len(),
        skip_whitespace(s, i) < s.len() ==> !is_whitespace(s[skip_whitespace(s, i)]),
    decreases s.len() - i,
{
    if i < s.len() && is_whitespace(s[i]) {
        lemma_skip_whitespace(s, i + 1);
    }
}

/// A word ends within the text, past its start when it starts on a character that is not
/// white space.
pub proof fn lemma_word_end(s: Seq<char>, i: int)
    requires
        0 <= i <= s.len(),
    ensures
        i <= word_end(s, i) <= s.len(),
        i < s.len() && !is_whitespace(s[i]) ==> i < word_end(s, i),
    decreases s.len() - i,
{
    if i < s.len() && !is_whitespace(s[i]) {
        lemma_word_end(s, i + 1);
    }
}

/// The words of `s[i..]` separated by white space, as `str::split_whitespace` yields them.
pub open spec fn words_from(s: Seq<char>, i: int) -> Seq<Seq<char>>
    decreases s.len() - i,
{
    let a = skip_whitespace(s, i);
    if i < 0 || a < i || a >= s.len() {
        seq![]
    } else {
        let b = word_end(s, a);
        proof {
            lemma_word_end(s, a);
        }
        if b <= a {
            seq![]
        } else {
            seq![s.subrange(a, b)] + words_from(s, b)
        }
    }
}

/// Whether `c` is an ASCII digit.
pub open spec fn is_digit(c: char) -> bool {
    '0' <= c <= '9'
}

/// The number that a run of decimal digits spells.
pub open spec fn digits_value(d: Seq<char>) -> nat
    decreases d.len(),
{
    if d.len() == 0 {
        0
    } else {
        digits_value(d.drop_last()) * 10 + (d.last() as nat - '0' as nat) as nat
    }
}

/// The digits of `s` after an optional leading `+`.
pub open spec fn unsigned_digits(s: Seq<char>) -> Seq<char> {
    if s.len() > 0 && s[0] == '+' {
        s.drop_first()
    } else {
        s
    }
}

/// Whether every character is a decimal digit.
pub open spec fn all_digits(d: Seq<char>) -> bool {
    forall|k: int| 0 <= k < d.len() ==> is_digit(#[trigger] d[k])
}

/// What `str::parse::<u32>` gives: an optional `+`, then decimal digits, in range.
pub open spec fn parse_u32(s: Seq<char>) -> Option<u32> {
    let d = unsigned_digits(s);
    if d.len() > 0 && all_digits(d) && digits_value(d) <= u32::MAX {
        Some(digits_value(d) as u32)
    } else {
        None
    }
}

/// The text before the first comma, or all of it.
pub open spec fn before_comma(s: Seq<char>) -> Seq<char>
    decreases s.len(),
{
    if s.len() == 0 || s[0] == ',' {
        seq![]
    } else {
        seq![s[0]] + before_comma(s.drop_first())
    }
}

/// The start line of a range such as `18,10`.
pub open spec fn range_start(range: Seq<char>) -> Option<u32> {
    parse_u32(before_comma(range))
}

/// The old and new start lines of a hunk header: its second word after `-`, its third after `+`.
pub open spec fn hunk_starts(header: Seq<char>) -> Option<(u32, u32)> {
    let words = words_from(header, 0);
    if words.len() >= 3 && words[1].len() > 0 && words[1][0] == '-' && words[2].len() > 0
        && words[2][0] == '+' {
        match (range_start(words[1].drop_first()), range_start(words[2].drop_first())) {
            (Some(old), Some(new)) => Some((old, new)),
            _ => None,
        }
    } else {
        None
    }
}

proof fn lemma_digits_value_prefix(d: Seq<char>, k: int)
    requires
        0 <= k <= d.len(),
        forall|j: int| 0 <= j < d.len() ==> is_digit(#[trigger] d[j]),
    ensures
        digits_value(d.subrange(0, k)) <= digits_value(d),
    decreases d.len(),
{
    if k < d.len() {
        assert(d.drop_last().subrange(0, k) =~= d.subrange(0, k));
        lemma_digits_value_prefix(d.drop_last(), k);
        assert(d.drop_last() =~= d.subrange(0, d.len() - 1));
    } else {
        assert(d.subrange(0, k) =~= d);
    }
}

/// Parses a decimal `u32` from `s[from..to]` as `str::parse` does.
fn parse_u32_chars(s: &Vec<char>, from: usize, to: usize) -> (r: Option<u32>)
    requires
        from <= to <= s@.len(),
    ensures
        r == parse_u32(s@.subrange(from as int, to as int)),
{
    let ghost t = s@.subrange(from as int, to as int);
    let mut i = from;
    if i < to && s[i] == '+' {
        i += 1;
    }
    let ghost d = s@.subrange(i as int, to as int);
    proof {
        if t.len() > 0 && t[0] == '+' {
            assert(d =~= t.drop_first());
        } else {
            assert(d =~= t);
        }
    }
    if i == to {
        return None;
    }
    let mut value: u64 = 0;
    let mut j = i;
    while j < to
        invariant
            from <= i <= j <= to <= s@.len(),
            d == s@.subrange(i as int, to as int),
            t == s@.subrange(from as int, to as int),
            d == unsigned_digits(t),
            forall|k: int| i <= k < j ==> is_digit(#[trigger] s@[k]),
            value == digits_value(s@.subrange(i as int, j as int)),
            value <= u32::MAX,
        decreases to - j,
    {
        let c = s[j];
        if !('0' <= c && c <= '9') {
            proof {
                assert(d[j - i] == c);
                assert(!is_digit(d[j - i]));
                assert(!all_digits(d));
            }
            return None;
        }
        let digit = (c as u32 - '0' as u32) as u64;
        proof {
            assert(s@.subrange(i as int, j + 1).drop_last() =~= s@.subrange(i as int, j as int));
        }
        let next = value * 10 + digit;
        if next > u32::MAX as u64 {
            proof {
                if all_digits(d) {
                    lemma_digits_value_prefix(d, j + 1 - i);
                    assert(d.subrange(0, j + 1 - i) =~= s@.subrange(i as int, j + 1));
                    assert(digits_value(d) > u32::MAX);
                }
                assert(parse_u32(t) is None);
            }
            return None;
        }
        value = next;
        j += 1;
    }
    proof {
        assert(s@.subrange(i as int, j as int) =~= d);
        assert forall|k: int| 0 <= k < d.len() implies is_digit(#[trigger] d[k]) by {
            assert(d[k] == s@[i + k]);
        }
    }
    Some(value as u32)
}

/// The start line of a range such as `18,10` in `s[from..to]`.
fn parse_range_start_chars(s: &Vec<char>, from: usize, to: usize) -> (r: Option<u32>)
    requires
        from <= to <= s@.len(),
    ensures
        r == range_start(s@.subrange(from as int, to as int)),
{
    let mut end = from;
    while end < to && s[end] != ','
        invariant
            from <= end <= to <= s@.len(),
            before_comma(s@.subrange(from as int, to as int)) == s@.subrange(from as int, end as int)
                + before_comma(s@.subrange(end as int, to as int)),
        decreases to - end,
    {
        proof {
            let rest = s@.subrange(end as int, to as int);
            assert(rest.drop_first() =~= s@.subrange(end + 1, to as int));
            assert(s@.subrange(from as int, end + 1) =~= s@.subrange(from as int, end as int)
                + seq![rest[0]]);
        }
        end += 1;
    }
    proof {
        let rest = s@.subrange(end as int, to as int);
        assert(before_comma(rest) =~= seq![]);
        assert(before_comma(s@.subrange(from as int, to as int)) =~= s@.subrange(
            from as int,
            end as int,
        ));
    }
    parse_u32_chars(s, from, end)
}

/// The start line of a range such as `18,10`.
pub fn parse_range_start(range: &str) -> (r: Option<u32>)
    ensures
        r == range_start(range@),
{
    let chars = chars_of(range);
    assert(chars@.subrange(0, chars@.len() as int) =~= range@);
    parse_range_start_chars(&chars, 0, chars.len())
}

/// The bounds of the word that starts at or after `i`.
fn next_word(s: &Vec<char>, i: usize) -> (r: (usize, usize))
    requires
        i <= s@.len(),
    ensures
        r.0 == skip_whitespace(s@, i as int),
        r.1 == word_end(s@, r.0 as int),
        i <= r.0 <= r.1 <= s@.len(),
{
    let mut a = i;
    while a < s.len() && char_is_whitespace(s[a])
        invariant
            i <= a <= s@.len(),
            skip_whitespace(s@, a as int) == skip_whitespace(s@, i as int),
        decreases s@.len() - a,
    {
        a += 1;
    }
    let mut b = a;
    while b < s.len() && !char_is_whitespace(s[b])
        invariant
            a <= b <= s@.len(),
            word_end(s@, b as int) == word_end(s@, a as int),
        decreases s@.len() - b,
    {
        b += 1;
    }
    (a, b)
}

proof fn lemma_words_step(s: Seq<char>, i: int)
    requires
        0 <= i <= s.len(),
    ensures
        ({
            let a = skip_whitespace(s, i);
            let b = word_end(s, a);
            if a >= s.len() {
                words_from(s, i) == Seq::<Seq<char>>::empty()
            } else {
                a < b && words_from(s, i) == seq![s.subrange(a, b)] + words_from(s, b)
            }
        }),
{
    lemma_skip_whitespace(s, i);
    let a = skip_whitespace(s, i);
    lemma_word_end(s, a);
}

/// The old and new start lines of a hunk header.
pub fn parse_hunk_starts(header: &str) -> (r: Option<(u32, u32)>)
    ensures
        r == hunk_starts(header@),
{
    let s = chars_of(header);
    let ghost w = words_from(s@, 0);
    proof {
        lemma_words_step(s@, 0);
    }
    let (a0, b0) = next_word(&s, 0);
    if a0 >= s.len() {
        return None;
    }
    proof {
        lemma_words_step(s@, b0 as int);
    }
    let (a1, b1) = next_word(&s, b0);
    if a1 >= s.len() {
        return None;
    }
    proof {
        lemma_words_step(s@, b1 as int);
    }
    let (a2, b2) = next_word(&s, b1);
    if a2 >= s.len() {
        return None;
    }
    proof {
        assert(w[1] == s@.subrange(a1 as int, b1 as int));
        assert(w[2] == s@.subrange(a2 as int, b2 as int));
        assert(w.len() >= 3);
    }
    if s[a1] != '-' || s[a2] != '+' {
        return None;
    }
    proof {
        assert(w[1].drop_first() =~= s@.subrange(a1 + 1, b1 as int));
        assert(w[2].drop_first() =~= s@.subrange(a2 + 1, b2 as int));
    }
    let old = parse_range_start_chars(&s, a1 + 1, b1);
    let new = parse_range_start_chars(&s, a2 + 1, b2);
    match (old, new) {
        (Some(o), Some(n)) => Some((o, n)),
        _ => None,
    }
}

} // verus!
