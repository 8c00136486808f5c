use vstd::prelude::*;
use vstd::utf8::*;
use vstd::string::StringSliceAdditionalSpecFns;
use vstd::string::StrSliceExecFns;
use vstd::std_specs::iter::IteratorSpec;
use std::sync::Arc;

verus! {

broadcast use vstd::utf8::encode_utf8_valid_utf8, vstd::utf8::encode_utf8_decode_utf8;

/// The UTF-8 bytes of a character sequence.
pub open spec fn utf8(s: Seq<char>) -> Seq<u8> {
    encode_utf8(s)
}

/// An ASCII byte that follows a character boundary is followed by one too.
pub proof fn lemma_ascii_next_boundary(b: Seq<u8>, i: int)
    requires
        valid_utf8(b),
        0 <= i < b.len(),
        is_char_boundary(b, i),
        b[i] < 0x80,
    ensures
        is_char_boundary(b, i + 1),
    decreases b.len(),
{
    let l = length_of_first_scalar(b);
    let tail = pop_first_scalar(b);
    assert(valid_utf8(tail));
    if i == 0 {
        assert(l == 1);
        assert(tail.len() == b.len() - 1);
        assert(is_char_boundary(tail, 0));
    } else {
        assert(is_char_boundary(tail, i - l));
        assert(tail[i - l] == b[i]);
        lemma_ascii_next_boundary(tail, i - l);
    }
}

/// Every ASCII byte of a valid encoding starts a character, and so does the byte after it.
pub proof fn lemma_ascii_boundaries(b: Seq<u8>, i: int)
    requires
        valid_utf8(b),
        0 <= i < b.len(),
        b[i] < 0x80,
    ensures
        is_char_boundary(b, i),
        is_char_boundary(b, i + 1),
{
    is_char_boundary_iff_not_is_continuation_byte(b, i);
    lemma_ascii_next_boundary(b, i);
}

/// Dropping the bytes before one character boundary keeps a later boundary a boundary.
pub proof fn lemma_boundary_after_drop(b: Seq<u8>, k: int, j: int)
    requires
        valid_utf8(b),
        k <= j,
        is_char_boundary(b, k),
        is_char_boundary(b, j),
    ensures
        valid_utf8(b.subrange(k, b.len() as int)),
        is_char_boundary(b.subrange(k, b.len() as int), j - k),
    decreases b.len(),
{
    if k == 0 {
        assert(b.subrange(k, b.len() as int) =~= b);
    } else {
        let l = length_of_first_scalar(b);
        let tail = pop_first_scalar(b);
        assert(is_char_boundary(tail, k - l));
        assert(is_char_boundary(tail, j - l));
        lemma_boundary_after_drop(tail, k - l, j - l);
        assert(b.subrange(k, b.len() as int) =~= tail.subrange(k - l, tail.len() as int));
    }
}

/// Encoding a concatenation concatenates the encodings, and the join is a boundary.
pub proof fn lemma_utf8_concat(a: Seq<char>, b: Seq<char>)
    ensures
        utf8(a + b) == utf8(a) + utf8(b),
        is_char_boundary(utf8(a + b), utf8(a).len() as int),
    decreases a.len(),
{
    if a.len() == 0 {
        assert(a + b =~= b);
        assert(utf8(a) =~= Seq::<u8>::empty());
        assert(utf8(a) + utf8(b) =~= utf8(b));
    } else {
        lemma_utf8_concat(a.drop_first(), b);
        assert((a + b).drop_first() =~= a.drop_first() + b);
        assert((a + b)[0] == a[0]);
        let head = encode_scalar(a[0] as u32);
        assert(utf8(a + b) =~= head + utf8(a.drop_first() + b));
        assert(utf8(a) =~= head + utf8(a.drop_first()));
        assert(utf8(a + b) =~= utf8(a) + utf8(b));
        encode_utf8_first_scalar(a + b);
        assert(pop_first_scalar(utf8(a + b)) =~= utf8(a.drop_first() + b));
    }
}

/// An encoding takes at least a byte per character.
pub proof fn lemma_utf8_len(s: Seq<char>)
    ensures
        s.len() <= utf8(s).len(),
    decreases s.len(),
{
    if s.len() > 0 {
        lemma_utf8_len(s.drop_first());
        assert(utf8(s) =~= encode_scalar(s[0] as u32) + utf8(s.drop_first()));
    }
}

/// An encoding takes at most four bytes per character.
pub proof fn lemma_utf8_len_bound(s: Seq<char>)
    ensures
        utf8(s).len() <= 4 * s.len(),
    decreases s.len(),
{
    if s.len() > 0 {
        lemma_utf8_len_bound(s.drop_first());
        assert(utf8(s) =~= encode_scalar(s[0] as u32) + utf8(s.drop_first()));
    }
}

/// A boundary of a valid encoding stays one when more valid text follows.
pub proof fn lemma_boundary_extend(x: Seq<u8>, y: Seq<u8>, i: int)
    requires
        valid_utf8(x),
        valid_utf8(y),
        is_char_boundary(x, i),
    ensures
        is_char_boundary(x + y, i),
    decreases x.len(),
{
    valid_utf8_concat(x, y);
    if i != 0 {
        let tail = pop_first_scalar(x);
        assert(pop_first_scalar(x + y) =~= tail + y);
        lemma_boundary_extend(tail, y, i - length_of_first_scalar(x));
    }
}

/// Another handle to the same shared text.
///
/// Calls `Arc::clone`, which only copies the pointer; the contract claims the
/// handle holds the same text.
#[verifier::external_body]
pub(crate) fn share(a: &Arc<String>) -> (res: Arc<String>)
    ensures
        res == *a,
{
    Arc::clone(a)
}

/// The part of `s` between two byte offsets that start characters.
pub fn substring(s: &str, from: usize, to: usize) -> (r: &str)
    requires
        from <= to <= s.spec_bytes().len(),
        is_char_boundary(s.spec_bytes(), from as int),
        is_char_boundary(s.spec_bytes(), to as int),
    ensures
        r.spec_bytes() == s.spec_bytes().subrange(from as int, to as int),
        r@ == decode_utf8(s.spec_bytes().subrange(from as int, to as int)),
{
    let ghost b = s.spec_bytes();
    let (_, rest) = s.split_at(from);
    proof {
        lemma_boundary_after_drop(b, from as int, to as int);
        assert(rest.spec_bytes() =~= b.subrange(from as int, b.len() as int));
    }
    let (mid, _) = rest.split_at(to - from);
    proof {
        assert(mid.spec_bytes() =~= b.subrange(from as int, to as int));
    }
    mid
}

} // verus!

verus! {

/// Whether two byte slices hold the same bytes.
pub fn bytes_equal(a: &[u8], b: &[u8]) -> (r: bool)
    ensures
        r == (a@ == b@),
{
    if a.len() != b.len() {
        return false;
    }
    let mut i: usize = 0;
    while i < a.len()
        invariant
            a@.len() == b@.len(),
            i <= a@.len(),
            forall|k: int| 0 <= k < i ==> a@[k] == b@[k],
        decreases a@.len() - i,
    {
        if a[i] != b[i] {
            return false;
        }
        i += 1;
    }
    assert(a@ =~= b@);
    true
}

/// Whether two strings hold the same characters.
pub fn str_equal(a: &str, b: &str) -> (r: bool)
    ensures
        r == (a@ == b@),
{
    let r = bytes_equal(a.as_bytes(), b.as_bytes());
    proof {
        assert(decode_utf8(utf8(a@)) == a@);
        assert(decode_utf8(utf8(b@)) == b@);
    }
    r
}

/// Whether `b[from..to]` holds exactly `lit`.
pub fn bytes_at(b: &[u8], from: usize, to: usize, lit: &[u8]) -> (r: bool)
    requires
        from <= to <= b@.len(),
    ensures
        r == (b@.subrange(from as int, to as int) == lit@),
{
    if to - from != lit.len() {
        proof {
            assert(b@.subrange(from as int, to as int).len() != lit@.len());
        }
        return false;
    }
    let mut i: usize = 0;
    while i < lit.len()
        invariant
            from <= to <= b@.len(),
            to - from == lit@.len(),
            i <= lit@.len(),
            forall|k: int| 0 <= k < i ==> b@[from + k] == lit@[k],
        decreases lit@.len() - i,
    {
        if b[from + i] != lit[i] {
            return false;
        }
        i += 1;
    }
    assert(b@.subrange(from as int, to as int) =~= lit@);
    true
}

/// Whether `b[from..to]` begins with `lit`.
pub fn starts_at(b: &[u8], from: usize, to: usize, lit: &[u8]) -> (r: bool)
    requires
        from <= to <= b@.len(),
    ensures
        r == (to - from >= lit@.len() && b@.subrange(from as int, from + lit@.len()) == lit@),
{
    if to - from < lit.len() {
        return false;
    }
    bytes_at(b, from, from + lit.len(), lit)
}

/// The decoded characters of a valid byte range.
pub open spec fn text_of(b: Seq<u8>, from: int, to: int) -> Seq<char> {
    decode_utf8(b.subrange(from, to))
}

/// An owned copy of the text between two boundaries.
pub fn owned_substring(s: &str, from: usize, to: usize) -> (r: String)
    requires
        from <= to <= s.spec_bytes().len(),
        is_char_boundary(s.spec_bytes(), from as int),
        is_char_boundary(s.spec_bytes(), to as int),
    ensures
        r@ == decode_utf8(s.spec_bytes().subrange(from as int, to as int)),
        utf8(r@) == s.spec_bytes().subrange(from as int, to as int),
{
    let part = substring(s, from, to);
    proof {
        assert(decode_utf8(utf8(part@)) == part@);
    }
    part.to_owned()
}

} // verus!

verus! {

/// Index of the first `'\n'` at or after `start`, or the length when there is none.
pub open spec fn line_break(b: Seq<u8>, start: int) -> int
    decreases b.len() - start,
{
    if start < 0 || start >= b.len() {
        b.len() as int
    } else if b[start] == 10 {
        start
    } else {
        line_break(b, start + 1)
    }
}

/// Where the line that starts at `start` ends, its `'\n'` left out.
pub proof fn lemma_line_break(b: Seq<u8>, start: int)
    requires
        0 <= start <= b.len(),
    ensures
        start <= line_break(b, start) <= b.len(),
        forall|k: int| start <= k < line_break(b, start) ==> b[k] != 10,
        line_break(b, start) < b.len() ==> b[line_break(b, start)] == 10,
    decreases b.len() - start,
{
    if start < b.len() && b[start] != 10 {
        lemma_line_break(b, start + 1);
    }
}

/// The first `'\n'` at or after `start`.
pub fn find_line_break(b: &[u8], start: usize) -> (r: usize)
    requires
        start <= b@.len(),
    ensures
        r == line_break(b@, start as int),
{
    let mut i = start;
    while i < b.len() && b[i] != 10
        invariant
            start <= i <= b@.len(),
            line_break(b@, i as int) == line_break(b@, start as int),
        decreases b@.len() - i,
    {
        i += 1;
    }
    i
}

/// Where the next line starts, after the line break at `nl`.
pub open spec fn next_line_start(b: Seq<u8>, nl: int) -> int {
    if nl < b.len() {
        nl + 1
    } else {
        b.len() as int
    }
}

/// Every line break is an ASCII byte, so the line after it starts a character.
pub proof fn lemma_line_start_boundary(b: Seq<u8>, start: int)
    requires
        valid_utf8(b),
        0 <= start <= b.len(),
        start == 0 || b[start - 1] == 10,
    ensures
        is_char_boundary(b, start),
{
    if start == 0 {
        is_char_boundary_start_end_of_seq(b);
    } else {
        lemma_ascii_boundaries(b, start - 1);
    }
}

/// The position is the end of the bytes or holds an ASCII byte: either way a boundary.
pub proof fn lemma_ascii_or_end_boundary(b: Seq<u8>, i: int)
    requires
        valid_utf8(b),
        0 <= i <= b.len(),
        i == b.len() || b[i] < 0x80,
    ensures
        is_char_boundary(b, i),
{
    if i == b.len() {
        is_char_boundary_start_end_of_seq(b);
    } else {
        lemma_ascii_boundaries(b, i);
    }
}

/// The characters of a string, one by one.
pub fn chars_of(s: &str) -> (r: Vec<char>)
    ensures
        r@ == s@,
{
    broadcast use vstd::string::group_string_axioms;
    let mut out: Vec<char> = Vec::new();
    for c in it: s.chars()
        invariant
            out@ == it.seq().take(it.index() as int),
    {
        out.push(c);
    }
    assert(out@ =~= s@);
    out
}

} // verus!

verus! {

/// Whether `p` is a prefix of `s`.
pub open spec fn has_prefix(s: Seq<char>, p: Seq<char>) -> bool {
    p.len() <= s.len() && s.subrange(0, p.len() as int) == p
}

/// Whether `p` is a suffix of `s`.
pub open spec fn has_suffix(s: Seq<char>, p: Seq<char>) -> bool {
    p.len() <= s.len() && s.subrange(s.len() - p.len(), s.len() as int) == p
}

/// Whether `p` occurs somewhere in `s`.
pub open spec fn has_infix(s: Seq<char>, p: Seq<char>) -> bool {
    exists|i: int| 0 <= i && i + p.len() <= s.len() && #[trigger] s.subrange(i, i + p.len()) == p
}

/// Whether `p` occurs in `s` at position `i`.
fn occurs_at(s: &Vec<char>, p: &Vec<char>, i: usize) -> (r: bool)
    requires
        i + p@.len() <= s@.len(),
    ensures
        r == (s@.subrange(i as int, i + p@.len()) == p@),
{
    let n = s.len();
    let mut k: usize = 0;
    while k < p.len()
        invariant
            n == s@.len(),
            i + p@.len() <= s@.len(),
            k <= p@.len(),
            forall|j: int| 0 <= j < k ==> s@[i + j] == p@[j],
        decreases p@.len() - k,
    {
        if s[i + k] != p[k] {
            proof {
                assert(s@.subrange(i as int, i + p@.len())[k as int] != p@[k as int]);
            }
            return false;
        }
        k += 1;
    }
    assert(s@.subrange(i as int, i + p@.len()) =~= p@);
    true
}

/// Whether `s` starts with `p`, as `str::starts_with` tests it.
pub fn str_starts_with(s: &str, p: &str) -> (r: bool)
    ensures
        r == has_prefix(s@, p@),
{
    let sc = chars_of(s);
    let pc = chars_of(p);
    if pc.len() > sc.len() {
        return false;
    }
    occurs_at(&sc, &pc, 0)
}

/// Whether `s` ends with `p`, as `str::ends_with` tests it.
pub fn str_ends_with(s: &str, p: &str) -> (r: bool)
    ensures
        r == has_suffix(s@, p@),
{
    let sc = chars_of(s);
    let pc = chars_of(p);
    if pc.len() > sc.len() {
        return false;
    }
    occurs_at(&sc, &pc, sc.len() - pc.len())
}

/// Whether `p` occurs in `s`, as `str::contains` tests it.
pub fn str_contains(s: &str, p: &str) -> (r: bool)
    ensures
        r == has_infix(s@, p@),
{
    let sc = chars_of(s);
    let pc = chars_of(p);
    if pc.len() > sc.len() {
        proof {
            assert forall|i: int| 0 <= i && i + p@.len() <= s@.len() implies #[trigger] s@.subrange(
                i,
                i + p@.len(),
            ) != p@ by {}
        }
        return false;
    }
    let last = sc.len() - pc.len();
    let mut i: usize = 0;
    loop
        invariant
            last == sc@.len() - pc@.len(),
            sc@ == s@,
            pc@ == p@,
            pc@.len() <= sc@.len(),
            i <= last,
            forall|j: int| 0 <= j < i ==> #[trigger] s@.subrange(j, j + p@.len()) != p@,
        decreases last - i,
    {
        if occurs_at(&sc, &pc, i) {
            return true;
        }
        if i == last {
            proof {
                assert forall|j: int| 0 <= j && j + p@.len() <= s@.len() implies #[trigger] s@.subrange(
                    j,
                    j + p@.len(),
                ) != p@ by {
                    assert(j <= i);
                }
            }
            return false;
        }
        i += 1;
    }
}

/// The index just past the last character of `s[..j]` that is not white space.
pub open spec fn trim_end_index(s: Seq<char>, j: int) -> int
    decreases j,
{
    if j > 0 && j <= s.len() && crate::hunk_header::is_whitespace(s[j - 1]) {
        trim_end_index(s, j - 1)
    } else {
        j
    }
}

/// `s` without the white space at both of its ends, as `str::trim` gives it.
pub open spec fn trimmed(s: Seq<char>) -> Seq<char> {
    let a = crate::hunk_header::skip_whitespace(s, 0);
    let b = trim_end_index(s, s.len() as int);
    if a < b {
        s.subrange(a, b)
    } else {
        seq![]
    }
}

/// `s` without the white space at both of its ends.
pub fn trim_str(s: &str) -> (r: &str)
    ensures
        r@ == trimmed(s@),
{
    let c = chars_of(s);
    let mut a: usize = 0;
    while a < c.len() && crate::hunk_header::char_is_whitespace(c[a])
        invariant
            c@ == s@,
            a <= c@.len(),
            crate::hunk_header::skip_whitespace(s@, a as int) == crate::hunk_header::skip_whitespace(
                s@,
                0,
            ),
        decreases c@.len() - a,
    {
        a += 1;
    }
    let mut b: usize = c.len();
    while b > 0 && crate::hunk_header::char_is_whitespace(c[b - 1])
        invariant
            c@ == s@,
            b <= c@.len(),
            trim_end_index(s@, b as int) == trim_end_index(s@, s@.len() as int),
        decreases b,
    {
        b -= 1;
    }
    if a < b {
        s.substring_char(a, b)
    } else {
        let e = s.substring_char(0, 0);
        assert(e@ =~= seq![]);
        e
    }
}

/// The words of `s` separated by white space, as `str::split_whitespace` yields them.
pub fn split_words(s: &str) -> (r: Vec<&str>)
    ensures
        r@.len() == crate::hunk_header::words_from(s@, 0).len(),
        forall|k: int|
            0 <= k < r@.len() ==> #[trigger] r@[k]@ == crate::hunk_header::words_from(s@, 0)[k],
{
    let c = chars_of(s);
    let mut out: Vec<&str> = Vec::new();
    let mut i: usize = 0;
    let ghost mut done: Seq<Seq<char>> = seq![];
    loop
        invariant
            c@ == s@,
            i <= c@.len(),
            out@.len() == done.len(),
            forall|k: int| 0 <= k < out@.len() ==> #[trigger] out@[k]@ == done[k],
            crate::hunk_header::words_from(s@, 0) == done + crate::hunk_header::words_from(
                s@,
                i as int,
            ),
        ensures
            out@.len() == done.len(),
            forall|k: int| 0 <= k < out@.len() ==> #[trigger] out@[k]@ == done[k],
            crate::hunk_header::words_from(s@, 0) == done,
        decreases c@.len() - i,
    {
        let mut a = i;
        while a < c.len() && crate::hunk_header::char_is_whitespace(c[a])
            invariant
                c@ == s@,
                i <= a <= c@.len(),
                crate::hunk_header::skip_whitespace(s@, a as int)
                    == crate::hunk_header::skip_whitespace(s@, i as int),
            decreases c@.len() - a,
        {
            a += 1;
        }
        if a >= c.len() {
            proof {
                assert(crate::hunk_header::words_from(s@, i as int) =~= seq![]);
                assert(done + seq![] =~= done);
            }
            break;
        }
        let mut b = a;
        while b < c.len() && !crate::hunk_header::char_is_whitespace(c[b])
            invariant
                c@ == s@,
                a <= b <= c@.len(),
                crate::hunk_header::word_end(s@, b as int) == crate::hunk_header::word_end(
                    s@,
                    a as int,
                ),
            decreases c@.len() - b,
        {
            b += 1;
        }
        let w = s.substring_char(a, b);
        proof {
            crate::hunk_header::lemma_word_end(s@, a as int);
            let ws = crate::hunk_header::words_from(s@, i as int);
            assert(ws == seq![s@.subrange(a as int, b as int)] + crate::hunk_header::words_from(
                s@,
                b as int,
            ));
            assert(done + ws =~= (done.push(w@)) + crate::hunk_header::words_from(s@, b as int));
            done = done.push(w@);
        }
        out.push(w);
        i = b;
    }
    out
}

} // verus!
