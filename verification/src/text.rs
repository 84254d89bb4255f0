//! Lines and whitespace of a text, read on its UTF-8 bytes.
//!
//! The whole crate speaks of text as a sequence of bytes. A line ends at a line feed, and
//! a carriage return right before that line feed belongs to the line ending. Whitespace is
//! every character with the Unicode property `White_Space`, recognised by its encoding.

use vstd::prelude::*;
use vstd::string::StringSliceAdditionalSpecFns;
use vstd::utf8::*;

verus! {

/// The bytes that a string stands for.
pub open spec fn str_bytes(s: Seq<char>) -> Seq<u8> {
    encode_utf8(s)
}

/// Number of bytes of the whitespace character that is encoded at `i`; 0 where none is.
pub open spec fn ws_len(s: Seq<u8>, i: int) -> int {
    if !(0 <= i < s.len()) {
        0
    } else if (0x09 <= s[i] <= 0x0D) || s[i] == 0x20 {
        1
    } else if i + 1 < s.len() && s[i] == 0xC2 && (s[i + 1] == 0x85 || s[i + 1] == 0xA0) {
        2
    } else if i + 2 < s.len() && ((s[i] == 0xE1 && s[i + 1] == 0x9A && s[i + 2] == 0x80) || (s[i]
        == 0xE2 && s[i + 1] == 0x80 && (0x80 <= s[i + 2] <= 0x8A || s[i + 2] == 0xA8 || s[i + 2]
        == 0xA9 || s[i + 2] == 0xAF)) || (s[i] == 0xE2 && s[i + 1] == 0x81 && s[i + 2] == 0x9F)
        || (s[i] == 0xE3 && s[i + 1] == 0x80 && s[i + 2] == 0x80)) {
        3
    } else {
        0
    }
}

/// First position at or after `i` where no whitespace begins.
pub open spec fn skip_ws(s: Seq<u8>, i: int) -> int
    decreases s.len() - i,
{
    if ws_len(s, i) > 0 {
        skip_ws(s, i + ws_len(s, i))
    } else {
        i
    }
}

/// First position at or after `i` where whitespace begins, or the end of `s`.
pub open spec fn token_end(s: Seq<u8>, i: int) -> int
    decreases s.len() - i,
{
    if i < 0 || i >= s.len() || ws_len(s, i) > 0 {
        i
    } else {
        token_end(s, i + 1)
    }
}

/// The maximal runs without whitespace that begin at or after `i`, in order.
pub open spec fn tokens_from(s: Seq<u8>, i: int) -> Seq<Seq<u8>>
    decreases s.len() - i,
{
    let p = skip_ws(s, i);
    if i < 0 || p >= s.len() {
        Seq::empty()
    } else {
        let e = token_end(s, p);
        if e > p {
            proof {
                lemma_skip_ws_bounds(s, i);
                lemma_token_end_bounds(s, p);
            }
            seq![s.subrange(p, e)] + tokens_from(s, e)
        } else {
            Seq::empty()
        }
    }
}

/// The whitespace-separated tokens of a line.
pub open spec fn tokens(s: Seq<u8>) -> Seq<Seq<u8>> {
    tokens_from(s, 0)
}

/// End of the last token of `s`, given that a token begins at `p`.
pub open spec fn last_token_end(s: Seq<u8>, p: int) -> int
    decreases s.len() - p,
    via last_token_end_decreases
{
    let e = token_end(s, p);
    let q = skip_ws(s, e);
    if p < 0 || e <= p || q >= s.len() {
        e
    } else {
        last_token_end(s, q)
    }
}

#[via_fn]
proof fn last_token_end_decreases(s: Seq<u8>, p: int) {
    if 0 <= p <= s.len() {
        lemma_token_end_bounds(s, p);
        lemma_skip_ws_bounds(s, token_end(s, p));
    }
}

/// `s` without the whitespace at its start and at its end.
pub open spec fn trimmed(s: Seq<u8>) -> Seq<u8> {
    let p = skip_ws(s, 0);
    if p >= s.len() {
        Seq::empty()
    } else {
        s.subrange(p, last_token_end(s, p))
    }
}

/// True when `s` holds nothing but whitespace.
pub open spec fn is_blank(s: Seq<u8>) -> bool {
    skip_ws(s, 0) >= s.len()
}

/// True when `pat` stands in `s` at place `i`.
pub open spec fn contains_at(s: Seq<u8>, pat: Seq<u8>, i: int) -> bool {
    0 <= i && i + pat.len() <= s.len() && s.subrange(i, i + pat.len()) == pat
}

/// True when `pat` occurs in `s` as a run of adjacent bytes.
pub open spec fn contains(s: Seq<u8>, pat: Seq<u8>) -> bool {
    exists|i: int| contains_at(s, pat, i)
}

/// Position of the first line feed at or after `i`, or the end of `s`.
pub open spec fn line_break(s: Seq<u8>, i: int) -> int
    decreases s.len() - i,
{
    if i < 0 || i >= s.len() {
        s.len() as int
    } else if s[i] == 0x0A {
        i
    } else {
        line_break(s, i + 1)
    }
}

/// End of the content of the line that begins at `i`: its line ending is left out.
pub open spec fn line_stop(s: Seq<u8>, i: int) -> int {
    let e = line_break(s, i);
    if e < s.len() && i < e && s[e - 1] == 0x0D {
        e - 1
    } else {
        e
    }
}

/// Start of the line after the one that begins at `i`, or the end of `s`.
pub open spec fn next_line_start(s: Seq<u8>, i: int) -> int {
    let e = line_break(s, i);
    if e < s.len() {
        e + 1
    } else {
        e
    }
}

/// The lines of `s` that begin at or after position `i`, which is the start of a line.
/// A text that ends in a line feed has no empty last line.
pub open spec fn lines_from(s: Seq<u8>, i: int) -> Seq<Seq<u8>>
    decreases s.len() - i,
{
    if i < 0 || i >= s.len() {
        Seq::empty()
    } else {
        proof {
            lemma_line_break_bounds(s, i);
        }
        seq![s.subrange(i, line_stop(s, i))] + lines_from(s, next_line_start(s, i))
    }
}

/// The start of the line that stands `k` lines after the one that begins at `i`.
pub open spec fn advance(s: Seq<u8>, i: int, k: nat) -> int
    decreases k,
{
    if k == 0 {
        i
    } else {
        next_line_start(s, advance(s, i, (k - 1) as nat))
    }
}

/// Going `a` lines on and then `b` lines on is going `a + b` lines on.
pub proof fn lemma_advance_add(s: Seq<u8>, i: int, a: nat, b: nat)
    ensures
        advance(s, advance(s, i, a), b) == advance(s, i, a + b),
    decreases b,
{
    if b > 0 {
        lemma_advance_add(s, i, a, (b - 1) as nat);
    }
}

/// Going `k` lines on leaves the lines behind the first `k`.
pub proof fn lemma_advance_lines(s: Seq<u8>, i: int, k: nat)
    requires
        0 <= i <= s.len(),
        k <= lines_from(s, i).len(),
    ensures
        i <= advance(s, i, k) <= s.len(),
        lines_from(s, advance(s, i, k)) == lines_from(s, i).skip(k as int),
    decreases k,
{
    if k == 0 {
        assert(lines_from(s, i).skip(0) =~= lines_from(s, i));
    } else {
        lemma_advance_lines(s, i, (k - 1) as nat);
        let p = advance(s, i, (k - 1) as nat);
        lemma_line_break_bounds(s, p);
        assert(lines_from(s, i).skip(k - 1).len() > 0);
        assert(lines_from(s, p).drop_first() =~= lines_from(s, next_line_start(s, p)));
        assert(lines_from(s, i).skip(k - 1).drop_first() =~= lines_from(s, i).skip(k as int));
    }
}

/// The first line feed of a part of a text is that of the text, as far as the part reaches.
pub proof fn lemma_line_break_window(s: Seq<u8>, a: int, b: int, i: int)
    requires
        0 <= a <= i <= b <= s.len(),
    ensures
        line_break(s.subrange(a, b), i - a) == (if line_break(s, i) < b {
            line_break(s, i)
        } else {
            b
        }) - a,
    decreases b - i,
{
    let t = s.subrange(a, b);
    lemma_line_break_bounds(s, i);
    if i < b {
        assert(t[i - a] == s[i]);
        if s[i] != 0x0A {
            lemma_line_break_window(s, a, b, i + 1);
        }
    }
}

/// The lines of the part of a text that ends `k` lines behind the line that begins at `i`
/// are the first `k` lines from there.
pub proof fn lemma_lines_window(s: Seq<u8>, a: int, b: int, i: int, k: nat)
    requires
        0 <= a <= i <= b <= s.len(),
        k <= lines_from(s, i).len(),
        b == advance(s, i, k),
    ensures
        lines_from(s.subrange(a, b), i - a) == lines_from(s, i).take(k as int),
    decreases k,
{
    let t = s.subrange(a, b);
    if k == 0 {
        assert(lines_from(s, i).take(0) =~= Seq::<Seq<u8>>::empty());
    } else {
        let e = line_break(s, i);
        let next = next_line_start(s, i);
        lemma_line_break_bounds(s, i);
        assert(advance(s, i, 1) == next_line_start(s, advance(s, i, 0)));
        lemma_advance_add(s, i, 1, (k - 1) as nat);
        assert(lines_from(s, i).drop_first() =~= lines_from(s, next));
        lemma_advance_lines(s, next, (k - 1) as nat);
        lemma_line_break_window(s, a, b, i);
        lemma_line_break_bounds(t, i - a);
        if e < s.len() {
            assert(t[e - a] == s[e]);
            if i < e {
                assert(t[e - 1 - a] == s[e - 1]);
            }
            assert(line_stop(t, i - a) == line_stop(s, i) - a);
            assert(next_line_start(t, i - a) == next - a);
        } else {
            assert(lines_from(s, next) =~= Seq::<Seq<u8>>::empty());
            lemma_advance_stays(s, (k - 1) as nat);
            assert(b == s.len());
        }
        assert(t.subrange(i - a, line_stop(t, i - a)) =~= s.subrange(i, line_stop(s, i)));
        lemma_lines_window(s, a, b, next, (k - 1) as nat);
        assert(lines_from(s, i).take(k as int) =~= seq![s.subrange(i, line_stop(s, i))]
            + lines_from(s, next).take(k - 1));
    }
}

/// From the end of a text no line leads on.
pub proof fn lemma_advance_stays(s: Seq<u8>, k: nat)
    ensures
        advance(s, s.len() as int, k) == s.len(),
    decreases k,
{
    if k > 0 {
        lemma_advance_stays(s, (k - 1) as nat);
    }
}

/// Behind all lines of a text lies its end.
pub proof fn lemma_advance_end(s: Seq<u8>, i: int)
    requires
        0 <= i <= s.len(),
    ensures
        advance(s, i, lines_from(s, i).len()) == s.len(),
{
    let k = lines_from(s, i).len();
    lemma_advance_lines(s, i, k);
    let p = advance(s, i, k);
    assert(lines_from(s, i).skip(k as int) =~= Seq::<Seq<u8>>::empty());
    if p < s.len() {
        assert(lines_from(s, p).len() > 0);
    }
}

/// A text has no more lines than bytes.
pub proof fn lemma_lines_len(s: Seq<u8>, i: int)
    requires
        0 <= i <= s.len(),
    ensures
        lines_from(s, i).len() <= s.len() - i,
    decreases s.len() - i,
{
    if i < s.len() {
        lemma_line_break_bounds(s, i);
        lemma_lines_len(s, next_line_start(s, i));
    }
}

/// The lines of a text.
pub open spec fn lines_of(s: Seq<u8>) -> Seq<Seq<u8>> {
    lines_from(s, 0)
}

/// The first line feed from a place on lies at or behind it, and no line feed lies between.
pub proof fn lemma_line_break_bounds(s: Seq<u8>, i: int)
    requires
        0 <= i <= s.len(),
    ensures
        i <= line_break(s, i) <= s.len(),
        line_break(s, i) < s.len() ==> s[line_break(s, i)] == 0x0A,
        forall|j: int| i <= j < line_break(s, i) ==> s[j] != 0x0A,
    decreases s.len() - i,
{
    if i < s.len() && s[i] != 0x0A {
        lemma_line_break_bounds(s, i + 1);
    }
}

/// Skipping whitespace ends within the text, where no whitespace begins.
pub proof fn lemma_skip_ws_bounds(s: Seq<u8>, i: int)
    requires
        0 <= i <= s.len(),
    ensures
        i <= skip_ws(s, i) <= s.len(),
        ws_len(s, skip_ws(s, i)) == 0,
    decreases s.len() - i,
{
    if ws_len(s, i) > 0 {
        lemma_skip_ws_bounds(s, i + ws_len(s, i));
    }
}

/// A token ends within the text, at whitespace or at the end, and holds no whitespace.
pub proof fn lemma_token_end_bounds(s: Seq<u8>, i: int)
    requires
        0 <= i <= s.len(),
    ensures
        i <= token_end(s, i) <= s.len(),
        token_end(s, i) < s.len() ==> ws_len(s, token_end(s, i)) > 0,
        forall|j: int| i <= j < token_end(s, i) ==> ws_len(s, j) == 0,
        i < s.len() && ws_len(s, i) == 0 ==> i < token_end(s, i),
    decreases s.len() - i,
{
    if i < s.len() && ws_len(s, i) == 0 {
        lemma_token_end_bounds(s, i + 1);
    }
}

/// After a whole character that begins at a character boundary comes a character boundary.
pub proof fn lemma_next_boundary(b: Seq<u8>, i: int)
    requires
        valid_utf8(b),
        0 <= i < b.len(),
        is_char_boundary(b, i),
    ensures
        i + length_of_first_scalar(b.subrange(i, b.len() as int)) <= b.len(),
        is_char_boundary(b, i + length_of_first_scalar(b.subrange(i, b.len() as int))),
{
    let rest = b.subrange(i, b.len() as int);
    valid_utf8_split(b, i);
    let n = length_of_first_scalar(rest);
    assert(valid_first_scalar(rest) && valid_utf8(pop_first_scalar(rest)));
    assert(1 <= n <= rest.len());
    assert(is_char_boundary(rest, n)) by {
        reveal_with_fuel(is_char_boundary, 2);
    }
    if i + n == b.len() {
        is_char_boundary_start_end_of_seq(b);
    } else {
        is_char_boundary_iff_not_is_continuation_byte(rest, n);
        is_char_boundary_iff_not_is_continuation_byte(b, i + n);
        assert(rest[n] == b[i + n]);
    }
}

/// A byte that is no continuation byte begins a character.
pub proof fn lemma_lead_is_boundary(b: Seq<u8>, i: int)
    requires
        valid_utf8(b),
        0 <= i <= b.len(),
        i < b.len() ==> !is_continuation_byte(b[i]),
    ensures
        is_char_boundary(b, i),
{
    if i == b.len() {
        is_char_boundary_start_end_of_seq(b);
    } else {
        is_char_boundary_iff_not_is_continuation_byte(b, i);
    }
}

/// A whitespace character is encoded whole: after it comes a character boundary.
pub proof fn lemma_ws_boundary(b: Seq<u8>, i: int)
    requires
        valid_utf8(b),
        0 <= i < b.len(),
        ws_len(b, i) > 0,
    ensures
        is_char_boundary(b, i),
        is_char_boundary(b, i + ws_len(b, i)),
{
    lemma_lead_is_boundary(b, i);
    lemma_next_boundary(b, i);
    let rest = b.subrange(i, b.len() as int);
    assert(rest[0] == b[i]);
    assert(length_of_first_scalar(rest) == ws_len(b, i));
}

/// The part of `text` between two character boundaries.
pub fn slice_text<'a>(text: &'a str, from: usize, to: usize) -> (r: &'a str)
    requires
        from <= to <= text.spec_bytes().len(),
        is_char_boundary(text.spec_bytes(), from as int),
        is_char_boundary(text.spec_bytes(), to as int),
    ensures
        r.spec_bytes() == text.spec_bytes().subrange(from as int, to as int),
{
    let (head, _) = text.split_at(to);
    proof {
        let b = text.spec_bytes();
        let h = head.spec_bytes();
        encode_utf8_valid_utf8(text@);
        encode_utf8_valid_utf8(head@);
        if from == to {
            is_char_boundary_start_end_of_seq(h);
        } else {
            is_char_boundary_iff_not_is_continuation_byte(b, from as int);
            is_char_boundary_iff_not_is_continuation_byte(h, from as int);
            assert(h[from as int] == b[from as int]);
        }
    }
    let (_, r) = head.split_at(from);
    proof {
        assert(head.spec_bytes().subrange(from as int, to as int) =~= text.spec_bytes().subrange(
            from as int,
            to as int,
        ));
    }
    r
}

/// Width of the whitespace character at `i`.
pub fn ws_width(b: &[u8], i: usize) -> (r: usize)
    ensures
        r == ws_len(b@, i as int),
{
    let n = b.len();
    if i >= n {
        return 0;
    }
    let c = b[i];
    if (0x09 <= c && c <= 0x0D) || c == 0x20 {
        1
    } else if c == 0xC2 {
        if n - i > 1 && (b[i + 1] == 0x85 || b[i + 1] == 0xA0) {
            2
        } else {
            0
        }
    } else if c == 0xE1 {
        if n - i > 2 && b[i + 1] == 0x9A && b[i + 2] == 0x80 {
            3
        } else {
            0
        }
    } else if c == 0xE2 {
        if n - i > 2 && ((b[i + 1] == 0x80 && ((0x80 <= b[i + 2] && b[i + 2] <= 0x8A) || b[i + 2]
            == 0xA8 || b[i + 2] == 0xA9 || b[i + 2] == 0xAF)) || (b[i + 1] == 0x81 && b[i + 2]
            == 0x9F)) {
            3
        } else {
            0
        }
    } else if c == 0xE3 {
        if n - i > 2 && b[i + 1] == 0x80 && b[i + 2] == 0x80 {
            3
        } else {
            0
        }
    } else {
        0
    }
}

/// Skips the whitespace that begins at `i`.
pub fn skip_whitespace(b: &[u8], i: usize) -> (r: usize)
    requires
        i <= b.len(),
    ensures
        r == skip_ws(b@, i as int),
        i <= r <= b.len(),
{
    let mut p = i;
    loop
        invariant
            i <= p <= b.len(),
            skip_ws(b@, p as int) == skip_ws(b@, i as int),
        ensures
            p == skip_ws(b@, i as int),
        decreases b.len() - p,
    {
        let w = ws_width(b, p);
        if w == 0 {
            break ;
        }
        p = p + w;
    }
    p
}

/// Finds where the token that begins at `i` ends.
pub fn find_token_end(b: &[u8], i: usize) -> (r: usize)
    requires
        i <= b.len(),
    ensures
        r == token_end(b@, i as int),
        i <= r <= b.len(),
{
    let mut p = i;
    loop
        invariant
            i <= p <= b.len(),
            token_end(b@, p as int) == token_end(b@, i as int),
        ensures
            p == token_end(b@, i as int),
        decreases b.len() - p,
    {
        if p >= b.len() || ws_width(b, p) > 0 {
            break ;
        }
        p = p + 1;
    }
    p
}

/// Tells whether a line holds nothing but whitespace.
pub fn line_is_blank(line: &str) -> (r: bool)
    ensures
        r == is_blank(line.spec_bytes()),
{
    let b = line.as_bytes();
    skip_whitespace(b, 0) >= b.len()
}

/// The line without the whitespace around it.
pub fn trim_line<'a>(line: &'a str) -> (r: &'a str)
    ensures
        r.spec_bytes() == trimmed(line.spec_bytes()),
{
    let b = line.as_bytes();
    let n = b.len();
    let p = skip_whitespace(b, 0);
    proof {
        encode_utf8_valid_utf8(line@);
        lemma_skip_ws_boundary(b@, 0);
    }
    if p >= n {
        proof {
            is_char_boundary_start_end_of_seq(b@);
        }
        let r = slice_text(line, n, n);
        assert(r.spec_bytes() =~= Seq::<u8>::empty());
        return r;
    }
    let mut start = p;
    let mut end = find_token_end(b, start);
    proof {
        lemma_skip_ws_bounds(b@, 0);
        lemma_token_end_bounds(b@, start as int);
    }
    loop
        invariant
            b@ == line.spec_bytes(),
            n == b.len(),
            p <= start < end <= n,
            end == token_end(b@, start as int),
            ws_len(b@, start as int) == 0,
            last_token_end(b@, start as int) == last_token_end(b@, p as int),
        ensures
            p < end <= n,
            end == last_token_end(b@, p as int),
            end < n ==> ws_len(b@, end as int) > 0,
        decreases n - start,
    {
        let q = skip_whitespace(b, end);
        if q >= n {
            break ;
        }
        proof {
            lemma_skip_ws_bounds(b@, end as int);
            lemma_token_end_bounds(b@, q as int);
        }
        start = q;
        end = find_token_end(b, start);
    }
    proof {
        if end < n {
            lemma_ws_boundary(b@, end as int);
        } else {
            is_char_boundary_start_end_of_seq(b@);
        }
    }
    slice_text(line, p, end)
}

/// Skipping whitespace from a character boundary ends at a character boundary.
pub proof fn lemma_skip_ws_boundary(b: Seq<u8>, i: int)
    requires
        valid_utf8(b),
        0 <= i <= b.len(),
        is_char_boundary(b, i),
    ensures
        is_char_boundary(b, skip_ws(b, i)),
    decreases b.len() - i,
{
    if ws_len(b, i) > 0 {
        lemma_ws_boundary(b, i);
        lemma_skip_ws_boundary(b, i + ws_len(b, i));
    }
}

/// Tells whether `pat` occurs in `s`.
pub fn bytes_contain(s: &[u8], pat: &[u8]) -> (r: bool)
    ensures
        r == contains(s@, pat@),
{
    let n = s.len();
    let m = pat.len();
    if m > n {
        assert(forall|i: int| !contains_at(s@, pat@, i));
        return false;
    }
    let mut i: usize = 0;
    while i <= n - m
        invariant
            m <= n,
            n == s.len(),
            m == pat.len(),
            i <= n - m + 1,
            forall|k: int| 0 <= k < i ==> !contains_at(s@, pat@, k),
        decreases n - m + 1 - i,
    {
        let mut j: usize = 0;
        while j < m && s[i + j] == pat[j]
            invariant
                m <= n,
                n == s.len(),
                m == pat.len(),
                i <= n - m,
                j <= m,
                forall|k: int| 0 <= k < j ==> s[i + k] == pat[k],
            decreases m - j,
        {
            j = j + 1;
        }
        if j == m {
            assert(s@.subrange(i as int, i + m) =~= pat@);
            assert(contains_at(s@, pat@, i as int));
            return true;
        }
        assert(!contains_at(s@, pat@, i as int)) by {
            if contains_at(s@, pat@, i as int) {
                assert(s@.subrange(i as int, i + m)[j as int] == pat@[j as int]);
            }
        }
        i = i + 1;
    }
    assert(forall|k: int| !contains_at(s@, pat@, k));
    false
}

/// A place in a text from which lines are taken one by one.
pub struct LineCursor<'a> {
    text: &'a str,
    pos: usize,
}

impl<'a> LineCursor<'a> {
    /// The bytes of the whole text.
    pub closed spec fn bytes(&self) -> Seq<u8> {
        self.text.spec_bytes()
    }

    /// The byte offset at which the next line begins.
    pub closed spec fn offset(&self) -> int {
        self.pos as int
    }

    /// The cursor stands at a character boundary of its text.
    #[verifier::type_invariant]
    spec fn well_formed(self) -> bool {
        &&& self.pos <= self.text.spec_bytes().len() <= usize::MAX
        &&& is_char_boundary(self.text.spec_bytes(), self.pos as int)
    }

    /// The lines that have not been taken yet.
    pub open spec fn remaining(&self) -> Seq<Seq<u8>> {
        lines_from(self.bytes(), self.offset())
    }

    /// A cursor at the start of `text`.
    pub fn new(text: &'a str) -> (r: Self)
        ensures
            r.bytes() == text.spec_bytes(),
            r.offset() == 0,
            r.remaining() == lines_of(text.spec_bytes()),
    {
        proof {
            encode_utf8_valid_utf8(text@);
            is_char_boundary_start_end_of_seq(text.spec_bytes());
        }
        let _ = text.as_bytes().len();
        LineCursor { text, pos: 0 }
    }

    /// The byte offset at which the next line begins.
    pub fn position(&self) -> (r: usize)
        ensures
            r == self.offset(),
            r <= self.bytes().len(),
            is_char_boundary(self.bytes(), r as int),
    {
        proof {
            use_type_invariant(self);
        }
        self.pos
    }

    /// True when no line is left.
    pub fn at_end(&self) -> (r: bool)
        ensures
            r == (self.remaining().len() == 0),
            r == (self.offset() >= self.bytes().len()),
    {
        proof {
            use_type_invariant(self);
        }
        self.pos >= self.text.as_bytes().len()
    }

    /// The next line and the offset of the one after it, where a line is left.
    fn scan(&self) -> (r: Option<(&'a str, usize)>)
        ensures
            self.remaining().len() + self.offset() <= self.bytes().len() <= usize::MAX,
            match r {
                None => self.remaining().len() == 0,
                Some((line, next)) => {
                    &&& self.remaining().len() > 0
                    &&& line.spec_bytes() == self.remaining()[0]
                    &&& next == next_line_start(self.bytes(), self.offset())
                    &&& next <= self.bytes().len()
                    &&& self.offset() < next
                    &&& is_char_boundary(self.bytes(), next as int)
                    &&& lines_from(self.bytes(), next as int) == self.remaining().drop_first()
                },
            },
    {
        proof {
            use_type_invariant(self);
            lemma_lines_len(self.text.spec_bytes(), self.pos as int);
        }
        let b = self.text.as_bytes();
        let n = b.len();
        let start = self.pos;
        if start >= n {
            return None;
        }
        let mut e = start;
        while e < n && b[e] != 0x0A
            invariant
                start <= e <= n,
                n == b.len(),
                line_break(b@, e as int) == line_break(b@, start as int),
            decreases n - e,
        {
            e = e + 1;
        }
        let next = if e < n {
            e + 1
        } else {
            n
        };
        let stop = if e < n && start < e && b[e - 1] == 0x0D {
            e - 1
        } else {
            e
        };
        proof {
            encode_utf8_valid_utf8(self.text@);
            assert(e == line_break(b@, start as int));
            assert(stop == line_stop(b@, start as int));
            lemma_lead_is_boundary(b@, stop as int);
            if e < n {
                lemma_lead_is_boundary(b@, e as int);
                lemma_next_boundary(b@, e as int);
                assert(b@.subrange(e as int, n as int)[0] == b@[e as int]);
            } else {
                is_char_boundary_start_end_of_seq(b@);
            }
            assert(next == next_line_start(b@, start as int));
            assert(lines_from(b@, start as int).drop_first() =~= lines_from(b@, next as int));
        }
        let line = slice_text(self.text, start, stop);
        Some((line, next))
    }

    /// The next line, which stays in place.
    pub fn peek_line(&self) -> (r: Option<&'a str>)
        ensures
            self.remaining().len() <= usize::MAX,
            match r {
                None => self.remaining().len() == 0,
                Some(line) => self.remaining().len() > 0 && line.spec_bytes()
                    == self.remaining()[0],
            },
    {
        match self.scan() {
            None => None,
            Some((line, _)) => Some(line),
        }
    }

    /// Takes the next line.
    pub fn next_line(&mut self) -> (r: Option<&'a str>)
        ensures
            final(self).bytes() == old(self).bytes(),
            old(self).remaining().len() <= usize::MAX,
            old(self).offset() <= final(self).offset(),
            match r {
                None => {
                    &&& old(self).remaining().len() == 0
                    &&& final(self).remaining() == old(self).remaining()
                    &&& final(self).offset() == old(self).offset()
                },
                Some(line) => {
                    &&& old(self).remaining().len() > 0
                    &&& line.spec_bytes() == old(self).remaining()[0]
                    &&& final(self).remaining() == old(self).remaining().drop_first()
                    &&& final(self).offset() == next_line_start(
                        old(self).bytes(),
                        old(self).offset(),
                    )
                    &&& old(self).offset() < final(self).offset()
                },
            },
    {
        match self.scan() {
            None => None,
            Some((line, next)) => {
                self.pos = next;
                Some(line)
            },
        }
    }
}

} // verus!
