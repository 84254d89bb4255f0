//! What was written can be read again.

use crate::error::ErrorView;
use crate::iterators::{
    frame_of, frames_from, frames_of, lemma_total_atoms_nonnegative, total_atoms,
};
use crate::laws::{agree, has_velocity_section, lemma_coordinates_of_agree, lemma_frame_of_agree};
use crate::number::{
    count_value, decimal_text, digit_run, exp_start, frac_end, frac_start, has_exponent, has_point,
    int_end, is_digit, is_finite, is_infinite, is_nan, is_number, lemma_decimal_is_number,
    lemma_decimal_text, lemma_digit_run, lemma_digit_run_all, lemma_digits_zero, mantissa_digits,
    number_is_nonzero, number_to_u64, sign_len, LineValue, Number,
};
use crate::parser::{
    atom_of, atoms_of, blocks_of, coordinates_of, header_of, lemma_coordinates_of_used,
    lemma_first_unread, line_values, set_velocity, velocity_atoms_of, velocity_blocks_of,
    velocity_label, with_velocity, Step, VelocityStep,
};
use crate::text::{
    contains, contains_at, is_blank, lemma_advance_end, lemma_line_break_bounds, lemma_lines_window,
    lemma_skip_ws_bounds, lemma_token_end_bounds, line_break, line_stop, lines_from, lines_of,
    next_line_start, skip_ws, token_end, tokens, tokens_from, trimmed, ws_len,
};
use crate::types::{
    built, first_mass, grouped, lemma_of_symbol_len, lemma_symbols_of, of_symbol, symbols_of,
    AtomView, BuilderAtomView, BuilderView, FrameView, HeaderView,
};
use crate::writer::{
    atom_fields, atoms_text, block_atoms, block_start, block_symbol, block_text, blocks_text,
    count_texts, flag_text, frame_text, frames_text, header_text, joined, label_text, line,
};
use vstd::prelude::*;
use vstd::utf8::is_ascii_chars_encode_utf8;

verus! {

/// A byte that is printed and is no space.
pub open spec fn is_plain(b: u8) -> bool {
    0x21 <= b <= 0x7E
}

/// A run of plain bytes that is not empty.
pub open spec fn is_word(w: Seq<u8>) -> bool {
    w.len() > 0 && forall|k: int| 0 <= k < w.len() ==> is_plain(#[trigger] w[k])
}

/// Every item is a word.
pub open spec fn are_words(items: Seq<Seq<u8>>) -> bool {
    forall|i: int| 0 <= i < items.len() ==> is_word(#[trigger] items[i])
}

/// The content of a line that is read as it was written: it holds no line feed and does
/// not end in a carriage return.
pub open spec fn is_clean(l: Seq<u8>) -> bool {
    &&& forall|k: int| 0 <= k < l.len() ==> #[trigger] l[k] != 0x0A
    &&& l.len() > 0 ==> l[l.len() - 1] != 0x0D
}

/// Every line is clean.
pub open spec fn are_clean(ls: Seq<Seq<u8>>) -> bool {
    forall|i: int| 0 <= i < ls.len() ==> is_clean(#[trigger] ls[i])
}

/// The lines as one text, each with its line feed.
pub open spec fn text_of_lines(ls: Seq<Seq<u8>>) -> Seq<u8>
    decreases ls.len(),
{
    if ls.len() == 0 {
        Seq::empty()
    } else {
        line(ls[0]) + text_of_lines(ls.drop_first())
    }
}

/// The text of two runs of lines is the text of the first and the text of the second.
pub proof fn lemma_text_of_lines_concat(a: Seq<Seq<u8>>, b: Seq<Seq<u8>>)
    ensures
        text_of_lines(a + b) == text_of_lines(a) + text_of_lines(b),
    decreases a.len(),
{
    if a.len() == 0 {
        assert(a + b =~= b);
        assert(text_of_lines(a) + text_of_lines(b) =~= text_of_lines(b));
    } else {
        lemma_text_of_lines_concat(a.drop_first(), b);
        assert((a + b).drop_first() =~= a.drop_first() + b);
        assert((a + b)[0] == a[0]);
        assert(text_of_lines(a + b) =~= text_of_lines(a) + text_of_lines(b));
    }
}

/// The text of one line is the line.
pub proof fn lemma_text_of_one_line(l: Seq<u8>)
    ensures
        text_of_lines(seq![l]) == line(l),
{
    let one = seq![l];
    assert(one.drop_first() =~= Seq::<Seq<u8>>::empty());
    assert(text_of_lines(one.drop_first()) =~= Seq::<u8>::empty());
    assert(one[0] == l);
    assert(text_of_lines(one) == line(one[0]) + text_of_lines(one.drop_first()));
    assert(text_of_lines(one) =~= line(l));
}

/// The lines from a place on are the lines of the text from there on.
pub proof fn lemma_lines_from_suffix(s: Seq<u8>, a: int)
    requires
        0 <= a <= s.len(),
    ensures
        lines_from(s, a) == lines_of(s.subrange(a, s.len() as int)),
{
    let k = lines_from(s, a).len();
    lemma_advance_end(s, a);
    lemma_lines_window(s, a, s.len() as int, a, k);
    assert(lines_from(s, a).take(k as int) =~= lines_from(s, a));
}

/// The lines of a text that was put together from clean lines are these lines.
pub proof fn lemma_lines_of_text(ls: Seq<Seq<u8>>)
    requires
        are_clean(ls),
    ensures
        lines_of(text_of_lines(ls)) == ls,
    decreases ls.len(),
{
    let s = text_of_lines(ls);
    if ls.len() > 0 {
        let l = ls[0];
        let rest = text_of_lines(ls.drop_first());
        assert(is_clean(l));
        assert forall|i: int| 0 <= i < ls.drop_first().len() implies is_clean(
            #[trigger] ls.drop_first()[i],
        ) by {
            assert(ls.drop_first()[i] == ls[i + 1]);
        }
        lemma_lines_of_text(ls.drop_first());
        assert(s == line(l) + rest);
        assert(s.len() == l.len() + 1 + rest.len());
        assert forall|k: int| 0 <= k < l.len() implies s[k] != 0x0A by {
            assert(s[k] == l[k]);
        }
        assert(s[l.len() as int] == 0x0A);
        lemma_line_break_bounds(s, 0);
        let e = line_break(s, 0);
        assert(e == l.len()) by {
            if e < l.len() {
                assert(s[e] == 0x0A);
            }
        }
        if l.len() > 0 {
            assert(s[e - 1] == l[l.len() - 1]);
        }
        assert(line_stop(s, 0) == l.len());
        assert(s.subrange(0, l.len() as int) =~= l);
        assert(next_line_start(s, 0) == l.len() + 1);
        lemma_lines_from_suffix(s, (l.len() + 1) as int);
        assert(s.subrange((l.len() + 1) as int, s.len() as int) =~= rest);
        assert(lines_from(s, 0) =~= seq![l] + ls.drop_first());
        assert(seq![l] + ls.drop_first() =~= ls);
    }
}

/// Whitespace behind a place is the whitespace of the text behind it.
pub proof fn lemma_ws_len_shift(a: Seq<u8>, b: Seq<u8>, k: int)
    requires
        0 <= k,
    ensures
        ws_len(a + b, a.len() + k) == ws_len(b, k),
{
    let s = a + b;
    if k < b.len() {
        assert(s[a.len() + k] == b[k]);
        if k + 1 < b.len() {
            assert(s[a.len() + k + 1] == b[k + 1]);
        }
        if k + 2 < b.len() {
            assert(s[a.len() + k + 2] == b[k + 2]);
        }
    }
}

/// Skipping whitespace behind a place is skipping it in the text behind it.
pub proof fn lemma_skip_ws_shift(a: Seq<u8>, b: Seq<u8>, i: int)
    requires
        0 <= i <= b.len(),
    ensures
        skip_ws(a + b, a.len() + i) == a.len() + skip_ws(b, i),
    decreases b.len() - i,
{
    lemma_ws_len_shift(a, b, i);
    if ws_len(b, i) > 0 {
        lemma_skip_ws_shift(a, b, i + ws_len(b, i));
    }
}

/// A token behind a place ends where it ends in the text behind it.
pub proof fn lemma_token_end_shift(a: Seq<u8>, b: Seq<u8>, i: int)
    requires
        0 <= i <= b.len(),
    ensures
        token_end(a + b, a.len() + i) == a.len() + token_end(b, i),
    decreases b.len() - i,
{
    lemma_ws_len_shift(a, b, i);
    if i < b.len() && ws_len(b, i) == 0 {
        lemma_token_end_shift(a, b, i + 1);
    }
}

/// The tokens behind a place are the tokens of the text behind it.
pub proof fn lemma_tokens_shift(a: Seq<u8>, b: Seq<u8>, i: int)
    requires
        0 <= i <= b.len(),
    ensures
        tokens_from(a + b, a.len() + i) == tokens_from(b, i),
    decreases b.len() - i,
{
    let s = a + b;
    lemma_skip_ws_shift(a, b, i);
    lemma_skip_ws_bounds(b, i);
    let p = skip_ws(b, i);
    if p < b.len() {
        lemma_token_end_shift(a, b, p);
        lemma_token_end_bounds(b, p);
        let e = token_end(b, p);
        lemma_tokens_shift(a, b, e);
        assert(s.subrange(a.len() + p, a.len() + e) =~= b.subrange(p, e));
    }
}

/// A word ends where it ends.
pub proof fn lemma_word_end(w: Seq<u8>, rest: Seq<u8>, i: int)
    requires
        is_word(w),
        0 <= i <= w.len(),
        rest.len() > 0 ==> rest[0] == 0x20,
    ensures
        token_end(w + rest, i) == w.len(),
    decreases w.len() - i,
{
    let s = w + rest;
    if i < w.len() {
        assert(s[i] == w[i]);
        assert(is_plain(w[i]));
        assert(ws_len(s, i) == 0);
        lemma_word_end(w, rest, i + 1);
    } else if rest.len() > 0 {
        assert(s[i] == rest[0]);
    }
}

/// The items joined: the first, a space, and the others joined.
pub proof fn lemma_joined_front(items: Seq<Seq<u8>>)
    requires
        items.len() >= 2,
    ensures
        joined(items) == items[0] + seq![0x20u8] + joined(items.drop_first()),
    decreases items.len(),
{
    if items.len() == 2 {
        assert(items.drop_last() =~= seq![items[0]]);
        assert(items.drop_first() =~= seq![items[1]]);
        assert(joined(items.drop_last()) == items[0]);
        assert(joined(items.drop_first()) == items[1]);
    } else {
        lemma_joined_front(items.drop_last());
        assert(items.drop_last().drop_first() =~= items.drop_first().drop_last());
        assert(items.drop_last()[0] == items[0]);
        assert(items.drop_first().last() == items.last());
        assert(joined(items) =~= items[0] + seq![0x20u8] + joined(items.drop_first()));
    }
}

/// The tokens of words that were joined are these words.
pub proof fn lemma_tokens_joined(items: Seq<Seq<u8>>)
    requires
        are_words(items),
    ensures
        tokens(joined(items)) == items,
    decreases items.len(),
{
    let s = joined(items);
    if items.len() == 0 {
        assert(tokens_from(s, 0) =~= items);
    } else {
        let w = items[0];
        assert(is_word(w));
        assert(is_plain(w[0]));
        if items.len() == 1 {
            assert(s == w);
            assert(w + Seq::<u8>::empty() =~= w);
            lemma_word_end(w, Seq::empty(), 0);
            assert(ws_len(s, 0) == 0);
            assert(tokens_from(s, w.len() as int) =~= Seq::<Seq<u8>>::empty());
            assert(s.subrange(0, w.len() as int) =~= w);
            assert(tokens_from(s, 0) =~= seq![w]);
            assert(seq![w] =~= items);
        } else {
            let others = items.drop_first();
            assert forall|i: int| 0 <= i < others.len() implies is_word(#[trigger] others[i]) by {
                assert(others[i] == items[i + 1]);
            }
            lemma_joined_front(items);
            lemma_tokens_joined(others);
            let tail = seq![0x20u8] + joined(others);
            assert(s =~= w + tail);
            lemma_word_end(w, tail, 0);
            assert((w + tail)[0] == w[0]);
            assert(ws_len(s, 0) == 0);
            assert(s.subrange(0, w.len() as int) =~= w);
            let head = w + seq![0x20u8];
            assert(s =~= head + joined(others));
            lemma_tokens_shift(head, joined(others), 0);
            assert(s[w.len() as int] == 0x20);
            assert(ws_len(s, w.len() as int) == 1);
            assert(skip_ws(s, w.len() as int) == skip_ws(s, (w.len() + 1) as int));
            assert(tokens_from(s, w.len() as int) == tokens_from(s, (w.len() + 1) as int));
            assert(tokens_from(s, 0) =~= seq![w] + others);
            assert(seq![w] + others =~= items);
        }
    }
}

/// A decimal literal is a word.
pub proof fn lemma_number_is_word(s: Seq<u8>)
    requires
        is_number(s),
    ensures
        is_word(s),
{
    if is_finite(s) {
        lemma_digit_run(s, sign_len(s));
        lemma_digit_run(s, frac_start(s));
        if has_exponent(s) {
            lemma_digit_run(s, exp_start(s));
        }
        assert forall|k: int| 0 <= k < s.len() implies is_plain(#[trigger] s[k]) by {
            if k < sign_len(s) {
            } else if k < int_end(s) {
                assert(is_digit(s[k]));
            } else if k < frac_start(s) {
            } else if k < frac_end(s) {
                assert(is_digit(s[k]));
            } else if k < exp_start(s) {
            } else {
                assert(is_digit(s[k]));
            }
        }
    } else {
        assert forall|k: int| 0 <= k < s.len() implies is_plain(#[trigger] s[k]) by {
            let f = sign_len(s);
            if k >= f {
                let j = k - f;
                assert(j == 0 || j == 1 || j == 2 || j == 3 || j == 4 || j == 5 || j == 6 || j
                    == 7);
            }
        }
    }
}

/// The decimal text of an integer is a word and a decimal literal, and stands for the
/// integer.
pub proof fn lemma_decimal_read(n: nat)
    ensures
        is_word(decimal_text(n)),
        is_number(decimal_text(n)),
        n <= u64::MAX ==> number_to_u64(decimal_text(n)) == n,
        n <= usize::MAX ==> count_value(decimal_text(n)) == Ok::<usize, Seq<char>>(n as usize),
{
    let t = decimal_text(n);
    lemma_decimal_text(n);
    lemma_decimal_is_number(n);
    assert(is_digit(t[0]));
    assert forall|k: int| 0 <= k < t.len() implies is_plain(#[trigger] t[k]) by {
        assert(is_digit(t[k]));
    }
    assert(!is_nan(t));
    assert(!is_infinite(t));
    lemma_digit_run_all(t, 0);
    assert(t.subrange(0, t.len() as int) =~= t);
}

/// The flag that holds an atom in place is read as it was written.
pub proof fn lemma_flag_read(fixed: bool)
    ensures
        is_number(flag_text(fixed)),
        number_is_nonzero(flag_text(fixed)) == fixed,
{
    let t = flag_text(fixed);
    assert(t.len() == 1);
    assert(is_digit(t[0]));
    lemma_digit_run_all(t, 0);
    assert(digit_run(t, 1) == 1);
    assert(sign_len(t) == 0);
    assert(int_end(t) == 1);
    assert(!has_point(t));
    assert(frac_end(t) == 1);
    assert(!has_exponent(t));
    assert(is_finite(t));
    let d = mantissa_digits(t);
    assert(d =~= t);
    lemma_digits_zero(d);
    if fixed {
        assert(d[0] != 0x30);
    }
}

/// The values of a line of numbers that were joined are these numbers.
pub proof fn lemma_number_line(items: Seq<Seq<u8>>, n: usize)
    requires
        items.len() == n,
        forall|i: int| 0 <= i < items.len() ==> is_number(#[trigger] items[i]),
    ensures
        line_values::<Number>(joined(items), n) == Ok::<Seq<Seq<u8>>, ErrorView>(items),
{
    assert forall|i: int| 0 <= i < items.len() implies is_word(#[trigger] items[i]) by {
        lemma_number_is_word(items[i]);
    }
    lemma_tokens_joined(items);
    let toks = tokens(joined(items));
    assert forall|j: int| 0 <= j < toks.len() implies <Number as LineValue>::read(
        #[trigger] toks[j],
    ) is Ok by {
        assert(is_number(items[j]));
    }
    lemma_first_unread::<Number>(toks, 0, toks.len() as int);
    assert(Seq::new(toks.len(), |i: int| <Number as LineValue>::read(toks[i])->Ok_0) =~= items);
}

/// The values of a line of counts that were joined are these counts.
pub proof fn lemma_count_line(counts: Seq<usize>, n: usize)
    requires
        counts.len() == n,
    ensures
        line_values::<usize>(joined(count_texts(counts)), n) == Ok::<Seq<usize>, ErrorView>(
            counts,
        ),
{
    let items = count_texts(counts);
    assert forall|i: int| 0 <= i < items.len() implies is_word(#[trigger] items[i]) by {
        lemma_decimal_read(counts[i] as nat);
    }
    lemma_tokens_joined(items);
    let toks = tokens(joined(items));
    assert forall|j: int| 0 <= j < toks.len() implies <usize as LineValue>::read(
        #[trigger] toks[j],
    ) == Ok::<usize, Seq<char>>(counts[j]) by {
        lemma_decimal_read(counts[j] as nat);
    }
    lemma_first_unread::<usize>(toks, 0, toks.len() as int);
    assert(Seq::new(toks.len(), |i: int| <usize as LineValue>::read(toks[i])->Ok_0) =~= counts);
}

/// The nine lines of a header as they are written.
pub open spec fn header_lines(h: HeaderView) -> Seq<Seq<u8>> {
    seq![
        h.prebox_header[0],
        h.prebox_header[1],
        joined(h.boxl),
        joined(h.angles),
        h.postbox_header[0],
        h.postbox_header[1],
        decimal_text(h.natm_types as nat),
        joined(count_texts(h.natms_per_type)),
        joined(h.masses_per_type),
    ]
}

/// The lines of the atoms as they are written.
pub open spec fn atom_lines(atoms: Seq<AtomView>, velocities: bool) -> Seq<Seq<u8>> {
    Seq::new(atoms.len(), |j: int| joined(atom_fields(atoms[j], velocities)))
}

/// The lines of block `i` as they are written.
pub open spec fn block_line_list(
    counts: Seq<usize>,
    atoms: Seq<AtomView>,
    i: int,
    velocities: bool,
) -> Seq<Seq<u8>> {
    seq![
        block_symbol(counts, atoms, i),
        label_text(velocities) + decimal_text((i + 1) as nat),
    ] + atom_lines(block_atoms(counts, atoms, i), velocities)
}

/// The lines of the blocks from block `i` on as they are written.
pub open spec fn blocks_line_list(
    counts: Seq<usize>,
    atoms: Seq<AtomView>,
    i: int,
    velocities: bool,
) -> Seq<Seq<u8>>
    decreases counts.len() - i,
{
    if i < 0 || i >= counts.len() {
        Seq::empty()
    } else {
        block_line_list(counts, atoms, i, velocities) + blocks_line_list(
            counts,
            atoms,
            i + 1,
            velocities,
        )
    }
}

/// The lines of a frame as they are written.
pub open spec fn frame_line_list(f: FrameView) -> Seq<Seq<u8>> {
    let counts = f.header.natms_per_type;
    header_lines(f.header) + blocks_line_list(counts, f.atom_data, 0, false) + (
    if f.has_velocities() {
        seq![Seq::<u8>::empty()] + blocks_line_list(counts, f.atom_data, 0, true)
    } else {
        Seq::empty()
    })
}

/// A header is written as its nine lines.
pub proof fn lemma_header_text(h: HeaderView)
    ensures
        header_text(h) == text_of_lines(header_lines(h)),
{
    let ls = header_lines(h);
    let l1 = ls.drop_first();
    let l2 = l1.drop_first();
    let l3 = l2.drop_first();
    let l4 = l3.drop_first();
    let l5 = l4.drop_first();
    let l6 = l5.drop_first();
    let l7 = l6.drop_first();
    let l8 = l7.drop_first();
    let l9 = l8.drop_first();
    assert(l9 =~= Seq::<Seq<u8>>::empty());
    assert(text_of_lines(l9) =~= Seq::<u8>::empty());
    assert(text_of_lines(l8) =~= line(ls[8]));
    assert(text_of_lines(l7) == line(ls[7]) + text_of_lines(l8));
    assert(text_of_lines(l6) == line(ls[6]) + text_of_lines(l7));
    assert(text_of_lines(l5) == line(ls[5]) + text_of_lines(l6));
    assert(text_of_lines(l4) == line(ls[4]) + text_of_lines(l5));
    assert(text_of_lines(l3) == line(ls[3]) + text_of_lines(l4));
    assert(text_of_lines(l2) == line(ls[2]) + text_of_lines(l3));
    assert(text_of_lines(l1) == line(ls[1]) + text_of_lines(l2));
    assert(text_of_lines(ls) == line(ls[0]) + text_of_lines(l1));
    assert(header_text(h) =~= text_of_lines(ls));
}

/// Atoms are written as their lines.
pub proof fn lemma_atoms_text(atoms: Seq<AtomView>, velocities: bool)
    ensures
        atoms_text(atoms, velocities) == text_of_lines(atom_lines(atoms, velocities)),
    decreases atoms.len(),
{
    if atoms.len() == 0 {
        assert(atom_lines(atoms, velocities) =~= Seq::<Seq<u8>>::empty());
    } else {
        let front = atoms.drop_last();
        let last = joined(atom_fields(atoms.last(), velocities));
        lemma_atoms_text(front, velocities);
        assert(atom_lines(atoms, velocities) =~= atom_lines(front, velocities) + seq![last]);
        lemma_text_of_lines_concat(atom_lines(front, velocities), seq![last]);
        lemma_text_of_one_line(last);
    }
}

/// A block is written as its lines.
pub proof fn lemma_block_text(
    counts: Seq<usize>,
    atoms: Seq<AtomView>,
    i: int,
    velocities: bool,
)
    ensures
        block_text(counts, atoms, i, velocities) == text_of_lines(
            block_line_list(counts, atoms, i, velocities),
        ),
{
    let symbol = block_symbol(counts, atoms, i);
    let label = label_text(velocities) + decimal_text((i + 1) as nat);
    let rows = atom_lines(block_atoms(counts, atoms, i), velocities);
    lemma_atoms_text(block_atoms(counts, atoms, i), velocities);
    assert(seq![symbol, label] =~= seq![symbol] + seq![label]);
    lemma_text_of_lines_concat(seq![symbol], seq![label]);
    lemma_text_of_one_line(symbol);
    lemma_text_of_one_line(label);
    lemma_text_of_lines_concat(seq![symbol, label], rows);
}

/// The blocks in front of block `k` and the blocks from it on are all blocks.
pub proof fn lemma_blocks_text(
    counts: Seq<usize>,
    atoms: Seq<AtomView>,
    k: int,
    velocities: bool,
)
    requires
        0 <= k <= counts.len(),
    ensures
        blocks_text(counts, atoms, counts.len() as int, velocities) == blocks_text(
            counts,
            atoms,
            k,
            velocities,
        ) + text_of_lines(blocks_line_list(counts, atoms, k, velocities)),
    decreases counts.len() - k,
{
    let all = blocks_text(counts, atoms, counts.len() as int, velocities);
    if k == counts.len() {
        assert(all + text_of_lines(blocks_line_list(counts, atoms, k, velocities)) =~= all);
    } else {
        lemma_blocks_text(counts, atoms, k + 1, velocities);
        lemma_block_text(counts, atoms, k, velocities);
        lemma_text_of_lines_concat(
            block_line_list(counts, atoms, k, velocities),
            blocks_line_list(counts, atoms, k + 1, velocities),
        );
        assert(all =~= blocks_text(counts, atoms, k, velocities) + text_of_lines(
            blocks_line_list(counts, atoms, k, velocities),
        ));
    }
}

/// A frame is written as its lines, each with its line feed.
pub proof fn lemma_frame_text(f: FrameView)
    ensures
        frame_text(f) == text_of_lines(frame_line_list(f)),
{
    let counts = f.header.natms_per_type;
    let head = header_lines(f.header);
    let body = blocks_line_list(counts, f.atom_data, 0, false);
    lemma_header_text(f.header);
    lemma_blocks_text(counts, f.atom_data, 0, false);
    lemma_blocks_text(counts, f.atom_data, 0, true);
    assert(blocks_text(counts, f.atom_data, 0, false) =~= Seq::<u8>::empty());
    assert(blocks_text(counts, f.atom_data, 0, true) =~= Seq::<u8>::empty());
    lemma_text_of_lines_concat(head, body);
    if f.has_velocities() {
        let blank = seq![Seq::<u8>::empty()];
        let more = blocks_line_list(counts, f.atom_data, 0, true);
        lemma_text_of_one_line(Seq::<u8>::empty());
        lemma_text_of_lines_concat(blank, more);
        lemma_text_of_lines_concat(head + body, blank + more);
        assert(frame_text(f) =~= text_of_lines(frame_line_list(f)));
    } else {
        assert(head + body + Seq::<Seq<u8>>::empty() =~= head + body);
        assert(frame_text(f) =~= text_of_lines(frame_line_list(f)));
    }
}

/// The atom without its velocity.
pub open spec fn strip(a: AtomView) -> AtomView {
    AtomView { vx: None, vy: None, vz: None, ..a }
}

/// The atoms without their velocities.
pub open spec fn stripped(atoms: Seq<AtomView>) -> Seq<AtomView> {
    Seq::new(atoms.len(), |i: int| strip(atoms[i]))
}

/// The atoms, those from `p` on without their velocities.
pub open spec fn mixed(atoms: Seq<AtomView>, p: int) -> Seq<AtomView> {
    Seq::new(
        atoms.len(),
        |i: int|
            if i < p {
                atoms[i]
            } else {
                strip(atoms[i])
            },
    )
}

/// A component of a velocity is absent or a decimal literal.
pub open spec fn component_is_number(c: Option<Seq<u8>>) -> bool {
    c matches Some(v) ==> is_number(v)
}

/// An atom that is read as it was written: its numbers are decimal literals, its symbol is
/// a clean line with no whitespace at its ends, and it has all three components of its
/// velocity or none.
pub open spec fn atom_is_writable(a: AtomView) -> bool {
    &&& is_number(a.x)
    &&& is_number(a.y)
    &&& is_number(a.z)
    &&& is_clean(a.symbol)
    &&& trimmed(a.symbol) == a.symbol
    &&& component_is_number(a.vx)
    &&& component_is_number(a.vy)
    &&& component_is_number(a.vz)
    &&& a.vx is Some == a.vy is Some
    &&& a.vy is Some == a.vz is Some
}

/// The line of an atom is read as it was written.
pub proof fn lemma_atom_fields_read(a: AtomView, velocities: bool)
    requires
        atom_is_writable(a),
        velocities ==> a.has_velocity(),
    ensures
        line_values::<Number>(joined(atom_fields(a, velocities)), 5) == Ok::<
            Seq<Seq<u8>>,
            ErrorView,
        >(atom_fields(a, velocities)),
        atom_of(a.symbol, atom_fields(a, false)) == strip(a),
        a.has_velocity() ==> with_velocity(strip(a), atom_fields(a, true)) == a,
        are_words(atom_fields(a, velocities)),
{
    lemma_flag_read(a.is_fixed);
    lemma_decimal_read(a.atom_id as nat);
    let items = atom_fields(a, velocities);
    assert forall|i: int| 0 <= i < items.len() implies is_number(#[trigger] items[i]) by {}
    assert forall|i: int| 0 <= i < items.len() implies is_word(#[trigger] items[i]) by {
        lemma_number_is_word(items[i]);
    }
    lemma_number_line(items, 5);
}

/// The atom lines of a block are read as they were written, without the velocities.
pub proof fn lemma_atoms_read(
    lines: Seq<Seq<u8>>,
    at: int,
    symbol: Seq<u8>,
    block: Seq<AtomView>,
    j: int,
    acc: Seq<AtomView>,
)
    requires
        0 <= j <= block.len(),
        0 <= at,
        at + block.len() <= lines.len(),
        forall|m: int|
            0 <= m < block.len() ==> #[trigger] lines[at + m] == joined(
                atom_fields(block[m], false),
            ),
        forall|m: int|
            0 <= m < block.len() ==> atom_is_writable(#[trigger] block[m]) && block[m].symbol
                == symbol,
    ensures
        atoms_of(lines, at + j, symbol, (block.len() - j) as nat, acc) == (Step {
            result: Ok::<Seq<AtomView>, ErrorView>(
                acc + stripped(block.subrange(j, block.len() as int)),
            ),
            used: at + block.len(),
        }),
    decreases block.len() - j,
{
    if j == block.len() {
        assert(acc + stripped(block.subrange(j, block.len() as int)) =~= acc);
    } else {
        let a = block[j];
        assert(atom_is_writable(a) && a.symbol == symbol);
        lemma_atom_fields_read(a, false);
        assert(lines[at + j] == joined(atom_fields(a, false)));
        let next = acc.push(atom_of(symbol, atom_fields(a, false)));
        lemma_atoms_read(lines, at, symbol, block, j + 1, next);
        assert(next + stripped(block.subrange(j + 1, block.len() as int)) =~= acc + stripped(
            block.subrange(j, block.len() as int),
        ));
    }
}

/// The velocity lines of a block are read as they were written.
pub proof fn lemma_velocity_atoms_read(
    lines: Seq<Seq<u8>>,
    at: int,
    atoms: Seq<AtomView>,
    start: int,
    n: int,
    j: int,
)
    requires
        0 <= j <= n,
        0 <= start,
        start + n <= atoms.len(),
        0 <= at,
        at + n <= lines.len(),
        forall|m: int|
            0 <= m < n ==> #[trigger] lines[at + m] == joined(
                atom_fields(atoms[start + m], true),
            ),
        forall|m: int|
            0 <= m < atoms.len() ==> atom_is_writable(#[trigger] atoms[m])
                && atoms[m].has_velocity(),
    ensures
        velocity_atoms_of(lines, at + j, (n - j) as nat, mixed(atoms, start + j), start + j)
            == (VelocityStep {
            result: Ok::<bool, ErrorView>(true),
            atoms: mixed(atoms, start + n),
            used: at + n,
        }),
    decreases n - j,
{
    if j < n {
        let a = atoms[start + j];
        assert(atom_is_writable(a) && a.has_velocity());
        lemma_atom_fields_read(a, true);
        assert(lines[at + j] == joined(atom_fields(a, true)));
        let now = mixed(atoms, start + j);
        assert(now[start + j] == strip(a));
        assert(set_velocity(now, start + j, atom_fields(a, true)) =~= mixed(atoms, start + j + 1));
        lemma_velocity_atoms_read(lines, at, atoms, start, n, j + 1);
    }
}

/// Words that were joined make a clean line.
pub proof fn lemma_joined_clean(items: Seq<Seq<u8>>)
    requires
        are_words(items),
    ensures
        is_clean(joined(items)),
        forall|k: int|
            0 <= k < joined(items).len() ==> is_plain(#[trigger] joined(items)[k]) || joined(
                items,
            )[k] == 0x20,
        items.len() > 0 ==> joined(items).len() > 0 && is_plain(
            joined(items)[joined(items).len() - 1],
        ),
    decreases items.len(),
{
    if items.len() == 1 {
        assert(is_word(items[0]));
    } else if items.len() > 1 {
        let front = items.drop_last();
        assert forall|i: int| 0 <= i < front.len() implies is_word(#[trigger] front[i]) by {
            assert(front[i] == items[i]);
        }
        lemma_joined_clean(front);
        let w = items.last();
        assert(is_word(w));
        let s = joined(items);
        let a = joined(front);
        assert(s == a + seq![0x20u8] + w);
        assert forall|k: int| 0 <= k < s.len() implies is_plain(#[trigger] s[k]) || s[k]
            == 0x20 by {
            if k < a.len() {
                assert(s[k] == a[k]);
            } else if k == a.len() {
            } else {
                assert(s[k] == w[k - a.len() - 1]);
            }
        }
        assert(s[s.len() - 1] == w[w.len() - 1]);
    }
}

/// The label of a block is a clean line, and that of a velocity block holds the words
/// that mark it.
pub proof fn lemma_label(velocities: bool, k: nat)
    ensures
        is_clean(label_text(velocities) + decimal_text(k)),
        contains(label_text(true) + decimal_text(k), velocity_label()),
{
    reveal_strlit("Velocities of Component ");
    reveal_strlit("Coordinates of Component ");
    reveal_strlit("Velocities of Component");
    let v1 = "Velocities of Component "@;
    let c1 = "Coordinates of Component "@;
    let v0 = "Velocities of Component"@;
    is_ascii_chars_encode_utf8(v1);
    is_ascii_chars_encode_utf8(c1);
    is_ascii_chars_encode_utf8(v0);
    lemma_decimal_text(k);
    let d = decimal_text(k);
    let l = label_text(velocities) + d;
    assert forall|i: int| 0 <= i < l.len() implies #[trigger] l[i] != 0x0A by {
        if i < label_text(velocities).len() {
            if velocities {
                assert(l[i] == v1[i] as u8);
            } else {
                assert(l[i] == c1[i] as u8);
            }
        } else {
            assert(is_digit(d[i - label_text(velocities).len()]));
        }
    }
    assert(is_digit(d[d.len() - 1]));
    assert(l[l.len() - 1] == d[d.len() - 1]);
    let lv = label_text(true) + d;
    let mark = velocity_label();
    assert(lv.subrange(0, mark.len() as int) =~= mark) by {
        assert forall|i: int| 0 <= i < mark.len() implies lv[i] == mark[i] by {
            assert(lv[i] == v1[i] as u8);
            assert(mark[i] == v0[i] as u8);
            assert(v1[i] == v0[i]);
        }
    }
    assert(contains_at(lv, mark, 0));
}

/// The atoms stand in blocks as the counts say: there is one atom for each count, every
/// atom can be read as it was written, and the atoms of a block have one symbol.
#[verifier::opaque]
pub open spec fn blocks_are_writable(counts: Seq<usize>, atoms: Seq<AtomView>) -> bool {
    &&& atoms.len() == block_start(counts, counts.len() as int)
    &&& forall|j: int| 0 <= j < atoms.len() ==> atom_is_writable(#[trigger] atoms[j])
    &&& forall|i: int, j: int|
        0 <= i < counts.len() && block_start(counts, i) <= j < block_start(counts, i + 1)
            ==> (#[trigger] atoms[j]).symbol == atoms[#[trigger] block_start(counts, i)].symbol
}

/// A frame that is read as it was written.
///
/// Its header has two text lines in front of and two behind the box, which are clean, and
/// three lengths and three angles. It names as many counts and masses as types. Its
/// numbers are decimal literals. There is one atom for each count, the atoms of a block
/// have one symbol, and either every atom has a velocity or none has.
pub open spec fn is_writable(f: FrameView) -> bool {
    &&& header_is_writable(f.header)
    &&& blocks_are_writable(f.header.natms_per_type, f.atom_data)
    &&& f.velocities_are_uniform()
}

/// The numbers of atoms in front of the blocks rise by the counts, from zero up to the
/// sum of all counts.
pub proof fn lemma_block_start(counts: Seq<usize>, i: int)
    requires
        0 <= i <= counts.len(),
    ensures
        block_start(counts, i) == total_atoms(counts.take(i)),
        0 <= block_start(counts, i) <= block_start(counts, counts.len() as int),
        i < counts.len() ==> block_start(counts, i + 1) == block_start(counts, i) + counts[i],
    decreases counts.len() - i,
{
    lemma_block_start_sum(counts, i);
    lemma_total_atoms_nonnegative(counts.take(i));
    if i < counts.len() {
        lemma_block_start(counts, i + 1);
    }
}

/// The number of atoms in front of a block is the sum of the counts in front of it.
pub proof fn lemma_block_start_sum(counts: Seq<usize>, i: int)
    requires
        0 <= i <= counts.len(),
    ensures
        block_start(counts, i) == total_atoms(counts.take(i)),
    decreases i,
{
    if i > 0 {
        lemma_block_start_sum(counts, i - 1);
        assert(counts.take(i).drop_last() =~= counts.take(i - 1));
        assert(counts.take(i).last() == counts[i - 1]);
    } else {
        assert(counts.take(0) =~= Seq::<usize>::empty());
    }
}

/// The lines at `at` are those of block `i`.
#[verifier::opaque]
pub open spec fn block_stands_at(
    lines: Seq<Seq<u8>>,
    at: int,
    counts: Seq<usize>,
    atoms: Seq<AtomView>,
    i: int,
    velocities: bool,
) -> bool {
    let own = block_line_list(counts, atoms, i, velocities);
    &&& 0 <= at
    &&& at + own.len() <= lines.len()
    &&& forall|m: int| 0 <= m < own.len() ==> #[trigger] lines[at + m] == own[m]
}

/// Coordinate block `i` is read as it was written, without the velocities.
pub proof fn lemma_block_read(
    lines: Seq<Seq<u8>>,
    at: int,
    counts: Seq<usize>,
    atoms: Seq<AtomView>,
    i: int,
)
    requires
        0 <= i < counts.len(),
        blocks_are_writable(counts, atoms),
        block_stands_at(lines, at, counts, atoms, i, false),
    ensures
        atoms_of(
            lines,
            at + 2,
            trimmed(lines[at]),
            counts[i] as nat,
            stripped(atoms).take(block_start(counts, i)),
        ) == (Step {
            result: Ok::<Seq<AtomView>, ErrorView>(
                stripped(atoms).take(block_start(counts, i + 1)),
            ),
            used: at + 2 + counts[i],
        }),
{
    reveal(blocks_are_writable);
    reveal(block_stands_at);
    lemma_block_start(counts, i);
    lemma_block_start(counts, i + 1);
    let start = block_start(counts, i);
    let n = counts[i] as int;
    let block = block_atoms(counts, atoms, i);
    let acc = stripped(atoms).take(start);
    assert(block == atoms.subrange(start, start + n));
    let own = block_line_list(counts, atoms, i, false);
    assert(own.len() == 2 + n);
    assert(lines[at + 0] == own[0]);
    let symbol = trimmed(lines[at]);
    assert forall|m: int| 0 <= m < block.len() implies #[trigger] lines[at + 2 + m] == joined(
        atom_fields(block[m], false),
    ) by {
        assert(lines[at + (2 + m)] == own[2 + m]);
    }
    assert forall|m: int| 0 <= m < block.len() implies atom_is_writable(#[trigger] block[m])
        && block[m].symbol == symbol by {
        assert(block[m] == atoms[start + m]);
        assert(atoms[start + m].symbol == atoms[block_start(counts, i)].symbol);
        assert(atom_is_writable(atoms[start]));
        assert(own[0] == atoms[start].symbol);
    }
    lemma_atoms_read(lines, at + 2, symbol, block, 0, acc);
    assert(block.subrange(0, block.len() as int) =~= block);
    assert(acc + stripped(block) =~= stripped(atoms).take(block_start(counts, i + 1)));
}

/// Velocity block `i` is read as it was written.
pub proof fn lemma_velocity_block_read(
    lines: Seq<Seq<u8>>,
    at: int,
    counts: Seq<usize>,
    atoms: Seq<AtomView>,
    i: int,
)
    requires
        0 <= i < counts.len(),
        blocks_are_writable(counts, atoms),
        forall|j: int| 0 <= j < atoms.len() ==> (#[trigger] atoms[j]).has_velocity(),
        block_stands_at(lines, at, counts, atoms, i, true),
    ensures
        contains(lines[at + 1], velocity_label()),
        velocity_atoms_of(
            lines,
            at + 2,
            counts[i] as nat,
            mixed(atoms, block_start(counts, i)),
            block_start(counts, i),
        ) == (VelocityStep {
            result: Ok::<bool, ErrorView>(true),
            atoms: mixed(atoms, block_start(counts, i + 1)),
            used: at + 2 + counts[i],
        }),
{
    reveal(blocks_are_writable);
    reveal(block_stands_at);
    lemma_block_start(counts, i);
    lemma_block_start(counts, i + 1);
    let start = block_start(counts, i);
    let n = counts[i] as int;
    let block = block_atoms(counts, atoms, i);
    assert(block == atoms.subrange(start, start + n));
    let own = block_line_list(counts, atoms, i, true);
    assert(own.len() == 2 + n);
    assert(lines[at + 1] == own[1]);
    lemma_label(true, (i + 1) as nat);
    assert forall|m: int| 0 <= m < n implies #[trigger] lines[at + 2 + m] == joined(
        atom_fields(atoms[start + m], true),
    ) by {
        assert(lines[at + (2 + m)] == own[2 + m]);
        assert(block[m] == atoms[start + m]);
    }
    assert forall|m: int| 0 <= m < atoms.len() implies atom_is_writable(#[trigger] atoms[m])
        && atoms[m].has_velocity() by {}
    lemma_velocity_atoms_read(lines, at + 2, atoms, start, n, 0);
}

/// The lines at `at` are those of the blocks from block `i` on.
#[verifier::opaque]
pub open spec fn blocks_stand_at(
    lines: Seq<Seq<u8>>,
    at: int,
    counts: Seq<usize>,
    atoms: Seq<AtomView>,
    i: int,
    velocities: bool,
) -> bool {
    let list = blocks_line_list(counts, atoms, i, velocities);
    &&& 0 <= at
    &&& at + list.len() <= lines.len()
    &&& forall|m: int| 0 <= m < list.len() ==> #[trigger] lines[at + m] == list[m]
}

/// Where the blocks from block `i` on stand, block `i` stands, and behind it the blocks
/// from the next on.
pub proof fn lemma_blocks_stand(
    lines: Seq<Seq<u8>>,
    at: int,
    counts: Seq<usize>,
    atoms: Seq<AtomView>,
    i: int,
    velocities: bool,
)
    requires
        0 <= i < counts.len(),
        blocks_are_writable(counts, atoms),
        blocks_stand_at(lines, at, counts, atoms, i, velocities),
    ensures
        0 <= at,
        at + 2 + counts[i] <= lines.len(),
        block_stands_at(lines, at, counts, atoms, i, velocities),
        blocks_stand_at(lines, at + 2 + counts[i], counts, atoms, i + 1, velocities),
        blocks_line_list(counts, atoms, i, velocities).len() == 2 + counts[i]
            + blocks_line_list(counts, atoms, i + 1, velocities).len(),
{
    reveal(blocks_are_writable);
    reveal(block_stands_at);
    reveal(blocks_stand_at);
    lemma_block_start(counts, i);
    lemma_block_start(counts, i + 1);
    assert(block_atoms(counts, atoms, i).len() == counts[i]);
    let list = blocks_line_list(counts, atoms, i, velocities);
    let own = block_line_list(counts, atoms, i, velocities);
    let rest = blocks_line_list(counts, atoms, i + 1, velocities);
    assert(list == own + rest);
    assert forall|m: int| 0 <= m < own.len() implies #[trigger] lines[at + m] == own[m] by {
        assert(list[m] == own[m]);
    }
    assert forall|m: int| 0 <= m < rest.len() implies #[trigger] lines[at + own.len() + m]
        == rest[m] by {
        assert(list[own.len() + m] == rest[m]);
        assert(lines[at + (own.len() + m)] == list[own.len() + m]);
    }
}

/// Where no block is left, nothing stands and every atom was read.
pub proof fn lemma_blocks_end(
    lines: Seq<Seq<u8>>,
    at: int,
    counts: Seq<usize>,
    atoms: Seq<AtomView>,
    velocities: bool,
)
    requires
        blocks_are_writable(counts, atoms),
        blocks_stand_at(lines, at, counts, atoms, counts.len() as int, velocities),
    ensures
        0 <= at <= lines.len(),
        blocks_line_list(counts, atoms, counts.len() as int, velocities).len() == 0,
        stripped(atoms).take(block_start(counts, counts.len() as int)) == stripped(atoms),
        mixed(atoms, block_start(counts, counts.len() as int)) == atoms,
        counts.skip(counts.len() as int) == Seq::<usize>::empty(),
{
    reveal(blocks_are_writable);
    reveal(blocks_stand_at);
    assert(counts.skip(counts.len() as int) =~= Seq::<usize>::empty());
    assert(stripped(atoms).take(block_start(counts, counts.len() as int)) =~= stripped(atoms));
    assert(mixed(atoms, block_start(counts, counts.len() as int)) =~= atoms);
}

/// The coordinate blocks from block `i` on are read as they were written, without the
/// velocities.
pub proof fn lemma_blocks_read(
    lines: Seq<Seq<u8>>,
    at: int,
    counts: Seq<usize>,
    atoms: Seq<AtomView>,
    i: int,
)
    requires
        0 <= i <= counts.len(),
        blocks_are_writable(counts, atoms),
        blocks_stand_at(lines, at, counts, atoms, i, false),
    ensures
        blocks_of(
            lines,
            at,
            counts.skip(i),
            stripped(atoms).take(block_start(counts, i)),
        ) == (Step {
            result: Ok::<Seq<AtomView>, ErrorView>(stripped(atoms)),
            used: at + blocks_line_list(counts, atoms, i, false).len(),
        }),
    decreases counts.len() - i,
{
    if i == counts.len() {
        lemma_blocks_end(lines, at, counts, atoms, false);
    } else {
        let n = counts[i] as int;
        lemma_blocks_stand(lines, at, counts, atoms, i, false);
        lemma_block_read(lines, at, counts, atoms, i);
        lemma_blocks_read(lines, at + 2 + n, counts, atoms, i + 1);
        assert(counts.skip(i)[0] == counts[i]);
        assert(counts.skip(i).drop_first() =~= counts.skip(i + 1));
    }
}

/// The velocity blocks from block `i` on are read as they were written.
pub proof fn lemma_velocity_blocks_read(
    lines: Seq<Seq<u8>>,
    at: int,
    counts: Seq<usize>,
    atoms: Seq<AtomView>,
    i: int,
)
    requires
        0 <= i <= counts.len(),
        blocks_are_writable(counts, atoms),
        forall|j: int| 0 <= j < atoms.len() ==> (#[trigger] atoms[j]).has_velocity(),
        blocks_stand_at(lines, at, counts, atoms, i, true),
    ensures
        velocity_blocks_of(
            lines,
            at,
            counts.skip(i),
            mixed(atoms, block_start(counts, i)),
            block_start(counts, i),
        ) == (VelocityStep {
            result: Ok::<bool, ErrorView>(true),
            atoms,
            used: at + blocks_line_list(counts, atoms, i, true).len(),
        }),
    decreases counts.len() - i,
{
    if i == counts.len() {
        lemma_blocks_end(lines, at, counts, atoms, true);
    } else {
        let n = counts[i] as int;
        lemma_blocks_stand(lines, at, counts, atoms, i, true);
        lemma_velocity_block_read(lines, at, counts, atoms, i);
        lemma_block_start(counts, i);
        lemma_velocity_blocks_read(lines, at + 2 + n, counts, atoms, i + 1);
        assert(counts.skip(i)[0] == counts[i]);
        assert(counts.skip(i).drop_first() =~= counts.skip(i + 1));
    }
}

/// The header of a frame that is read as it was written.
pub open spec fn header_is_writable(h: HeaderView) -> bool {
    &&& h.prebox_header.len() == 2
    &&& h.postbox_header.len() == 2
    &&& h.boxl.len() == 3
    &&& h.angles.len() == 3
    &&& is_clean(h.prebox_header[0])
    &&& is_clean(h.prebox_header[1])
    &&& is_clean(h.postbox_header[0])
    &&& is_clean(h.postbox_header[1])
    &&& forall|i: int| 0 <= i < 3 ==> is_number(#[trigger] h.boxl[i])
    &&& forall|i: int| 0 <= i < 3 ==> is_number(#[trigger] h.angles[i])
    &&& h.natms_per_type.len() == h.natm_types
    &&& h.masses_per_type.len() == h.natm_types
    &&& forall|i: int|
        0 <= i < h.masses_per_type.len() ==> is_number(#[trigger] h.masses_per_type[i])
}

/// A word is a clean line.
pub proof fn lemma_word_clean(w: Seq<u8>)
    requires
        is_word(w),
    ensures
        is_clean(w),
{
    assert forall|k: int| 0 <= k < w.len() implies #[trigger] w[k] != 0x0A by {
        assert(is_plain(w[k]));
    }
    assert(is_plain(w[w.len() - 1]));
}

/// Numbers that were joined make a clean line.
pub proof fn lemma_numbers_clean(items: Seq<Seq<u8>>)
    requires
        forall|i: int| 0 <= i < items.len() ==> is_number(#[trigger] items[i]),
    ensures
        is_clean(joined(items)),
{
    assert forall|i: int| 0 <= i < items.len() implies is_word(#[trigger] items[i]) by {
        lemma_number_is_word(items[i]);
    }
    lemma_joined_clean(items);
}

/// The lines of the header are clean.
pub proof fn lemma_header_lines_clean(h: HeaderView)
    requires
        header_is_writable(h),
    ensures
        are_clean(header_lines(h)),
        header_lines(h).len() == 9,
{
    lemma_numbers_clean(h.boxl);
    lemma_numbers_clean(h.angles);
    lemma_numbers_clean(h.masses_per_type);
    lemma_decimal_read(h.natm_types as nat);
    lemma_word_clean(decimal_text(h.natm_types as nat));
    let texts = count_texts(h.natms_per_type);
    assert forall|i: int| 0 <= i < texts.len() implies is_word(#[trigger] texts[i]) by {
        lemma_decimal_read(h.natms_per_type[i] as nat);
    }
    lemma_joined_clean(texts);
    let ls = header_lines(h);
    assert forall|i: int| 0 <= i < ls.len() implies is_clean(#[trigger] ls[i]) by {
        assert(i == 0 || i == 1 || i == 2 || i == 3 || i == 4 || i == 5 || i == 6 || i == 7 || i
            == 8);
    }
}

/// The header is read as it was written.
pub proof fn lemma_header_read(lines: Seq<Seq<u8>>, h: HeaderView)
    requires
        header_is_writable(h),
        lines.len() >= 9,
        forall|m: int| 0 <= m < 9 ==> #[trigger] lines[m] == header_lines(h)[m],
    ensures
        header_of(lines) == (Step { result: Ok::<HeaderView, ErrorView>(h), used: 9 }),
{
    let head = header_lines(h);
    assert(lines[0] == head[0]);
    assert(lines[1] == head[1]);
    assert(lines[2] == head[2]);
    assert(lines[3] == head[3]);
    assert(lines[4] == head[4]);
    assert(lines[5] == head[5]);
    assert(lines[6] == head[6]);
    assert(lines[7] == head[7]);
    assert(lines[8] == head[8]);
    lemma_number_line(h.boxl, 3);
    lemma_number_line(h.angles, 3);
    let one = seq![h.natm_types];
    lemma_count_line(one, 1);
    assert(count_texts(one) =~= seq![decimal_text(h.natm_types as nat)]);
    assert(joined(count_texts(one)) == decimal_text(h.natm_types as nat));
    lemma_count_line(h.natms_per_type, h.natm_types);
    lemma_number_line(h.masses_per_type, h.natm_types);
    let got = header_of(lines).result->Ok_0;
    assert(header_of(lines).result is Ok);
    assert(got.prebox_header =~= h.prebox_header);
    assert(got.postbox_header =~= h.postbox_header);
    assert(got.natm_types == h.natm_types);
}

/// The lines of the blocks from block `i` on are clean.
pub proof fn lemma_blocks_lines_clean(
    counts: Seq<usize>,
    atoms: Seq<AtomView>,
    i: int,
    velocities: bool,
)
    requires
        0 <= i <= counts.len(),
        blocks_are_writable(counts, atoms),
        velocities ==> forall|j: int| 0 <= j < atoms.len() ==> (#[trigger] atoms[j]).has_velocity(),
    ensures
        are_clean(blocks_line_list(counts, atoms, i, velocities)),
    decreases counts.len() - i,
{
    if i < counts.len() {
        reveal(blocks_are_writable);
        lemma_blocks_lines_clean(counts, atoms, i + 1, velocities);
        lemma_block_start(counts, i);
        lemma_block_start(counts, i + 1);
        let own = block_line_list(counts, atoms, i, velocities);
        let rest = blocks_line_list(counts, atoms, i + 1, velocities);
        let list = blocks_line_list(counts, atoms, i, velocities);
        let block = block_atoms(counts, atoms, i);
        let start = block_start(counts, i);
        lemma_label(velocities, (i + 1) as nat);
        if start < atoms.len() {
            assert(atom_is_writable(atoms[start]));
        }
        assert forall|m: int| 0 <= m < own.len() implies is_clean(#[trigger] own[m]) by {
            if m >= 2 {
                let a = block[m - 2];
                assert(a == atoms[start + (m - 2)]);
                assert(atom_is_writable(a));
                lemma_atom_fields_read(a, velocities);
                lemma_joined_clean(atom_fields(a, velocities));
            }
        }
        assert forall|m: int| 0 <= m < list.len() implies is_clean(#[trigger] list[m]) by {
            if m < own.len() {
                assert(list[m] == own[m]);
            } else {
                assert(list[m] == rest[m - own.len()]);
            }
        }
    }
}

/// The lines of a frame that is read as it was written are clean.
pub proof fn lemma_frame_lines_clean(f: FrameView)
    requires
        is_writable(f),
    ensures
        are_clean(frame_line_list(f)),
{
    let counts = f.header.natms_per_type;
    let head = header_lines(f.header);
    let body = blocks_line_list(counts, f.atom_data, 0, false);
    lemma_header_lines_clean(f.header);
    lemma_blocks_lines_clean(counts, f.atom_data, 0, false);
    let list = frame_line_list(f);
    if f.has_velocities() {
        let more = blocks_line_list(counts, f.atom_data, 0, true);
        lemma_blocks_lines_clean(counts, f.atom_data, 0, true);
        assert forall|m: int| 0 <= m < list.len() implies is_clean(#[trigger] list[m]) by {
            if m < 9 {
                assert(list[m] == head[m]);
            } else if m < 9 + body.len() {
                assert(list[m] == body[m - 9]);
            } else if m == 9 + body.len() {
                assert(list[m] == Seq::<u8>::empty());
            } else {
                assert(list[m] == more[m - 10 - body.len()]);
            }
        }
    } else {
        assert forall|m: int| 0 <= m < list.len() implies is_clean(#[trigger] list[m]) by {
            if m < 9 {
                assert(list[m] == head[m]);
            } else {
                assert(list[m] == body[m - 9]);
            }
        }
    }
}

/// The lines of a frame that can be read as it was written give the frame, and reading it
/// takes them all.
pub proof fn lemma_frame_lines_read(f: FrameView)
    requires
        is_writable(f),
    ensures
        frame_of(frame_line_list(f)) == (Step {
            result: Ok::<FrameView, ErrorView>(f),
            used: frame_line_list(f).len() as int,
        }),
        frame_line_list(f).len() >= 9,
        has_velocity_section(frame_line_list(f)) == f.has_velocities(),
        !f.has_velocities() ==> coordinates_of(frame_line_list(f)).used == frame_line_list(
            f,
        ).len(),
{
    let h = f.header;
    let counts = h.natms_per_type;
    let atoms = f.atom_data;
    let lines = frame_line_list(f);
    let head = header_lines(h);
    let body = blocks_line_list(counts, atoms, 0, false);
    assert(head.len() == 9);
    assert forall|m: int| 0 <= m < 9 implies #[trigger] lines[m] == head[m] by {}
    lemma_header_read(lines, h);
    assert(blocks_stand_at(lines, 9, counts, atoms, 0, false)) by {
        reveal(blocks_stand_at);
        assert forall|m: int| 0 <= m < body.len() implies #[trigger] lines[9 + m] == body[m] by {}
    }
    lemma_blocks_read(lines, 9, counts, atoms, 0);
    assert(counts.skip(0) =~= counts);
    assert(stripped(atoms).take(0) =~= Seq::<AtomView>::empty());
    let used: int = (9 + body.len()) as int;
    assert(coordinates_of(lines) == (Step {
        result: Ok::<FrameView, ErrorView>(FrameView { header: h, atom_data: stripped(atoms) }),
        used,
    }));
    let rest = lines.skip(used);
    if f.has_velocities() {
        let more = blocks_line_list(counts, atoms, 0, true);
        assert(rest =~= seq![Seq::<u8>::empty()] + more);
        assert(rest[0] == Seq::<u8>::empty());
        assert(is_blank(rest[0]));
        assert(blocks_stand_at(rest, 1, counts, atoms, 0, true)) by {
            reveal(blocks_stand_at);
            assert forall|m: int| 0 <= m < more.len() implies #[trigger] rest[1 + m] == more[m] by {}
        }
        assert forall|j: int| 0 <= j < atoms.len() implies (#[trigger] atoms[j]).has_velocity() by {}
        lemma_velocity_blocks_read(rest, 1, counts, atoms, 0);
        assert(mixed(atoms, 0) =~= stripped(atoms));
    } else {
        assert(rest =~= Seq::<Seq<u8>>::empty());
        assert(stripped(atoms) =~= atoms) by {
            reveal(blocks_are_writable);
            assert forall|j: int| 0 <= j < atoms.len() implies strip(atoms[j]) == atoms[j] by {
                assert(atom_is_writable(atoms[j]));
                assert(!atoms[j].has_velocity());
            }
        }
    }
}

/// A frame that was written is read again as it was: reading the text of a frame that can
/// be read as it was written gives the frame and takes every line.
pub proof fn lemma_write_then_read(f: FrameView)
    requires
        is_writable(f),
    ensures
        frame_of(lines_of(frame_text(f))) == (Step {
            result: Ok::<FrameView, ErrorView>(f),
            used: lines_of(frame_text(f)).len() as int,
        }),
{
    lemma_frame_text(f);
    lemma_frame_lines_clean(f);
    lemma_lines_of_text(frame_line_list(f));
    lemma_frame_lines_read(f);
}

/// A builder whose frame is read as it was written.
///
/// Its text lines are clean, its numbers are decimal literals, every atom can be read as it
/// was written, and either every atom has a velocity or none has.
pub open spec fn builder_is_writable(b: BuilderView) -> bool {
    &&& b.prebox_header.len() == 2
    &&& b.postbox_header.len() == 2
    &&& b.cell.len() == 3
    &&& b.angles.len() == 3
    &&& is_clean(b.prebox_header[0])
    &&& is_clean(b.prebox_header[1])
    &&& is_clean(b.postbox_header[0])
    &&& is_clean(b.postbox_header[1])
    &&& forall|i: int| 0 <= i < 3 ==> is_number(#[trigger] b.cell[i])
    &&& forall|i: int| 0 <= i < 3 ==> is_number(#[trigger] b.angles[i])
    &&& b.atoms.len() <= usize::MAX
    &&& forall|j: int|
        0 <= j < b.atoms.len() ==> atom_is_writable((#[trigger] b.atoms[j]).atom) && is_number(
            b.atoms[j].mass,
        )
    &&& forall|j: int|
        0 <= j < b.atoms.len() ==> (#[trigger] b.atoms[j]).atom.has_velocity()
            == b.atoms[0].atom.has_velocity()
}

/// Each of the atoms with a symbol is one of the atoms, and has the symbol.
pub proof fn lemma_of_symbol_member(atoms: Seq<BuilderAtomView>, symbol: Seq<u8>, m: int)
    requires
        0 <= m < of_symbol(atoms, symbol).len(),
    ensures
        of_symbol(atoms, symbol)[m].symbol == symbol,
        exists|j: int| 0 <= j < atoms.len() && #[trigger] atoms[j].atom == of_symbol(atoms, symbol)[m],
    decreases atoms.len(),
{
    if atoms.len() > 0 {
        let front = atoms.drop_last();
        if m < of_symbol(front, symbol).len() {
            lemma_of_symbol_member(front, symbol, m);
            let j = choose|j: int|
                0 <= j < front.len() && #[trigger] front[j].atom == of_symbol(front, symbol)[m];
            assert(atoms[j] == front[j]);
        } else {
            assert(atoms[atoms.len() - 1].atom == of_symbol(atoms, symbol)[m]);
        }
    }
}

/// The mass of a symbol that an atom has came with one of the atoms.
pub proof fn lemma_first_mass_member(atoms: Seq<BuilderAtomView>, symbol: Seq<u8>)
    requires
        of_symbol(atoms, symbol).len() > 0,
    ensures
        exists|j: int| 0 <= j < atoms.len() && #[trigger] atoms[j].mass == first_mass(atoms, symbol),
    decreases atoms.len(),
{
    let front = atoms.drop_last();
    if of_symbol(front, symbol).len() > 0 {
        lemma_first_mass_member(front, symbol);
        let j = choose|j: int|
            0 <= j < front.len() && #[trigger] front[j].mass == first_mass(front, symbol);
        assert(atoms[j] == front[j]);
    } else {
        assert(atoms[atoms.len() - 1].mass == first_mass(atoms, symbol));
    }
}

/// The counts that a builder writes into the header.
pub open spec fn built_counts(atoms: Seq<BuilderAtomView>) -> Seq<usize> {
    Seq::new(
        symbols_of(atoms).len(),
        |k: int| of_symbol(atoms, symbols_of(atoms)[k]).len() as usize,
    )
}

/// The atoms of the first `k` types stand at the start of the frame of a builder, and
/// their number is the sum of the first `k` counts.
pub proof fn lemma_grouped_prefix(atoms: Seq<BuilderAtomView>, k: int)
    requires
        0 <= k <= symbols_of(atoms).len(),
        atoms.len() <= usize::MAX,
    ensures
        grouped(atoms, symbols_of(atoms).take(k)).len() == block_start(built_counts(atoms), k),
        grouped(atoms, symbols_of(atoms).take(k)).len() <= grouped(
            atoms,
            symbols_of(atoms),
        ).len(),
        grouped(atoms, symbols_of(atoms)).subrange(
            0,
            grouped(atoms, symbols_of(atoms).take(k)).len() as int,
        ) == grouped(atoms, symbols_of(atoms).take(k)),
    decreases symbols_of(atoms).len() - k,
{
    let symbols = symbols_of(atoms);
    let all = grouped(atoms, symbols);
    lemma_grouped_start(atoms, k);
    if k == symbols.len() {
        assert(symbols.take(k) =~= symbols);
        assert(all.subrange(0, all.len() as int) =~= all);
    } else {
        lemma_grouped_prefix(atoms, k + 1);
        let more = grouped(atoms, symbols.take(k + 1));
        let less = grouped(atoms, symbols.take(k));
        assert(symbols.take(k + 1).drop_last() =~= symbols.take(k));
        assert(symbols.take(k + 1).last() == symbols[k]);
        assert(more == less + of_symbol(atoms, symbols[k]));
        assert(all.subrange(0, less.len() as int) =~= more.subrange(0, less.len() as int));
        assert(more.subrange(0, less.len() as int) =~= less);
    }
}

/// The number of the atoms of the first `k` types is the sum of the first `k` counts.
pub proof fn lemma_grouped_start(atoms: Seq<BuilderAtomView>, k: int)
    requires
        0 <= k <= symbols_of(atoms).len(),
        atoms.len() <= usize::MAX,
    ensures
        grouped(atoms, symbols_of(atoms).take(k)).len() == block_start(built_counts(atoms), k),
    decreases k,
{
    let symbols = symbols_of(atoms);
    if k > 0 {
        lemma_grouped_start(atoms, k - 1);
        assert(symbols.take(k).drop_last() =~= symbols.take(k - 1));
        assert(symbols.take(k).last() == symbols[k - 1]);
        lemma_of_symbol_len(atoms, symbols[k - 1]);
    } else {
        assert(symbols.take(0) =~= Seq::<Seq<u8>>::empty());
    }
}

/// The atom at place `j` of the frame of a builder, which lies in block `k`, is one of the
/// atoms with the symbol of that block.
pub proof fn lemma_grouped_block(atoms: Seq<BuilderAtomView>, k: int, j: int)
    requires
        0 <= k < symbols_of(atoms).len(),
        atoms.len() <= usize::MAX,
        block_start(built_counts(atoms), k) <= j < block_start(built_counts(atoms), k + 1),
    ensures
        j < grouped(atoms, symbols_of(atoms)).len(),
        0 <= j - block_start(built_counts(atoms), k) < of_symbol(
            atoms,
            symbols_of(atoms)[k],
        ).len(),
        grouped(atoms, symbols_of(atoms))[j] == of_symbol(atoms, symbols_of(atoms)[k])[j
            - block_start(built_counts(atoms), k)],
{
    let symbols = symbols_of(atoms);
    let all = grouped(atoms, symbols);
    lemma_grouped_prefix(atoms, k);
    lemma_grouped_prefix(atoms, k + 1);
    let more = grouped(atoms, symbols.take(k + 1));
    let less = grouped(atoms, symbols.take(k));
    assert(symbols.take(k + 1).drop_last() =~= symbols.take(k));
    assert(symbols.take(k + 1).last() == symbols[k]);
    assert(more == less + of_symbol(atoms, symbols[k]));
    assert(all.subrange(0, more.len() as int)[j] == all[j]);
}

/// Every place of the frame of a builder lies in a block.
pub proof fn lemma_block_of(counts: Seq<usize>, j: int, k: int)
    requires
        0 <= k <= counts.len(),
        0 <= j < block_start(counts, k),
    ensures
        exists|i: int|
            0 <= i < k && block_start(counts, i) <= j < #[trigger] block_start(counts, i + 1),
    decreases k,
{
    if k > 0 {
        if j < block_start(counts, k - 1) {
            lemma_block_of(counts, j, k - 1);
        } else {
            assert(block_start(counts, k - 1) <= j < block_start(counts, (k - 1) + 1));
        }
    }
}

/// The frame of a builder can be read as it was written, where the builder is such.
pub proof fn lemma_built_is_writable(b: BuilderView)
    requires
        builder_is_writable(b),
    ensures
        is_writable(built(b)),
{
    let f = built(b);
    let atoms = b.atoms;
    let symbols = symbols_of(atoms);
    let counts = f.header.natms_per_type;
    let all = f.atom_data;
    lemma_symbols_of(atoms);
    assert(counts =~= built_counts(atoms));
    lemma_grouped_prefix(atoms, symbols.len() as int);
    assert(symbols.take(symbols.len() as int) =~= symbols);
    assert forall|i: int| 0 <= i < f.header.masses_per_type.len() implies is_number(
        #[trigger] f.header.masses_per_type[i],
    ) by {
        assert(symbols.contains(symbols[i]));
        lemma_first_mass_member(atoms, symbols[i]);
        let j = choose|j: int|
            0 <= j < atoms.len() && #[trigger] atoms[j].mass == first_mass(atoms, symbols[i]);
        assert(is_number(atoms[j].mass));
    }
    assert forall|j: int| 0 <= j < all.len() implies atom_is_writable(#[trigger] all[j])
        && all[j].has_velocity() == atoms[0].atom.has_velocity() by {
        lemma_block_of(counts, j, counts.len() as int);
        let i = choose|i: int|
            0 <= i < counts.len() && block_start(counts, i) <= j < #[trigger] block_start(
                counts,
                i + 1,
            );
        lemma_grouped_block(atoms, i, j);
        let m = j - block_start(counts, i);
        lemma_of_symbol_member(atoms, symbols[i], m);
        let t = choose|t: int|
            0 <= t < atoms.len() && #[trigger] atoms[t].atom == of_symbol(atoms, symbols[i])[m];
        assert(atom_is_writable(atoms[t].atom));
    }
    assert(blocks_are_writable(counts, all)) by {
        reveal(blocks_are_writable);
        assert forall|i: int, j: int|
            0 <= i < counts.len() && block_start(counts, i) <= j < block_start(
                counts,
                i + 1,
            ) implies (#[trigger] all[j]).symbol == all[#[trigger] block_start(counts, i)].symbol by {
            lemma_grouped_block(atoms, i, j);
            lemma_grouped_block(atoms, i, block_start(counts, i));
            lemma_of_symbol_member(atoms, symbols[i], j - block_start(counts, i));
            lemma_of_symbol_member(atoms, symbols[i], 0);
        }
    }
    if all.len() > 0 {
        assert(all[0].has_velocity() == atoms[0].atom.has_velocity());
    }
}

/// What a builder made and a writer wrote is read again as the builder made it.
pub proof fn lemma_build_write_read(b: BuilderView)
    requires
        builder_is_writable(b),
    ensures
        frame_of(lines_of(frame_text(built(b)))).result == Ok::<FrameView, ErrorView>(built(b)),
{
    lemma_built_is_writable(b);
    lemma_write_then_read(built(b));
}

/// The lines of the frames as they are written, one frame after the other.
pub open spec fn frames_line_list(frames: Seq<FrameView>) -> Seq<Seq<u8>>
    decreases frames.len(),
{
    if frames.len() == 0 {
        Seq::empty()
    } else {
        frame_line_list(frames[0]) + frames_line_list(frames.drop_first())
    }
}

/// Frames that are read as they were written, one after the other: each can be read as it
/// was written, and behind a frame without velocities stands no frame whose first line is
/// blank, which would be taken for the start of a velocity section.
pub open spec fn frames_are_writable(frames: Seq<FrameView>) -> bool {
    &&& forall|i: int| 0 <= i < frames.len() ==> is_writable(#[trigger] frames[i])
    &&& forall|i: int|
        0 < i < frames.len() ==> frames[i - 1].has_velocities() || !is_blank(
            (#[trigger] frames[i]).header.prebox_header[0],
        )
}

/// The lines of frames are the lines of all but the last and the lines of the last.
pub proof fn lemma_frames_line_list_last(frames: Seq<FrameView>)
    requires
        frames.len() > 0,
    ensures
        frames_line_list(frames) == frames_line_list(frames.drop_last()) + frame_line_list(
            frames.last(),
        ),
    decreases frames.len(),
{
    if frames.len() == 1 {
        assert(frames.drop_first() =~= Seq::<FrameView>::empty());
        assert(frames.drop_last() =~= Seq::<FrameView>::empty());
        assert(frames_line_list(frames.drop_first()) =~= Seq::<Seq<u8>>::empty());
        assert(frames_line_list(frames) == frame_line_list(frames[0]) + frames_line_list(
            frames.drop_first(),
        ));
        assert(frames_line_list(frames) =~= frame_line_list(frames[0]));
        assert(frames_line_list(frames.drop_last()) + frame_line_list(frames.last())
            =~= frame_line_list(frames[0]));
    } else {
        lemma_frames_line_list_last(frames.drop_first());
        assert(frames.drop_first().drop_last() =~= frames.drop_last().drop_first());
        assert(frames.drop_last()[0] == frames[0]);
        assert(frames.drop_first().last() == frames.last());
        assert(frames_line_list(frames) =~= frames_line_list(frames.drop_last())
            + frame_line_list(frames.last()));
    }
}

/// Frames are written as their lines, each with its line feed.
pub proof fn lemma_frames_text(frames: Seq<FrameView>)
    ensures
        frames_text(frames) == text_of_lines(frames_line_list(frames)),
    decreases frames.len(),
{
    if frames.len() > 0 {
        lemma_frames_text(frames.drop_last());
        lemma_frame_text(frames.last());
        lemma_frames_line_list_last(frames);
        lemma_text_of_lines_concat(
            frames_line_list(frames.drop_last()),
            frame_line_list(frames.last()),
        );
    }
}

/// The lines of frames that are read as they were written are clean.
pub proof fn lemma_frames_lines_clean(frames: Seq<FrameView>)
    requires
        forall|i: int| 0 <= i < frames.len() ==> is_writable(#[trigger] frames[i]),
    ensures
        are_clean(frames_line_list(frames)),
    decreases frames.len(),
{
    if frames.len() > 0 {
        let first = frame_line_list(frames[0]);
        let rest = frames_line_list(frames.drop_first());
        assert(is_writable(frames[0]));
        lemma_frame_lines_clean(frames[0]);
        assert forall|i: int| 0 <= i < frames.drop_first().len() implies is_writable(
            #[trigger] frames.drop_first()[i],
        ) by {
            assert(frames.drop_first()[i] == frames[i + 1]);
        }
        lemma_frames_lines_clean(frames.drop_first());
        let all = frames_line_list(frames);
        assert forall|m: int| 0 <= m < all.len() implies is_clean(#[trigger] all[m]) by {
            if m < first.len() {
                assert(all[m] == first[m]);
            } else {
                assert(all[m] == rest[m - first.len()]);
            }
        }
    }
}

/// The first of several frames is read from the lines of all of them as it was written.
pub proof fn lemma_first_frame_read(frames: Seq<FrameView>)
    requires
        frames.len() > 0,
        frames_are_writable(frames),
    ensures
        frame_of(frames_line_list(frames)) == (Step {
            result: Ok::<FrameView, ErrorView>(frames[0]),
            used: frame_line_list(frames[0]).len() as int,
        }),
        frames_line_list(frames).len() > 0,
        frames_line_list(frames).skip(frame_line_list(frames[0]).len() as int)
            == frames_line_list(frames.drop_first()),
{
    let f = frames[0];
    let own = frame_line_list(f);
    let rest = frames_line_list(frames.drop_first());
    let all = frames_line_list(frames);
    assert(is_writable(f));
    lemma_frame_lines_read(f);
    assert(all == own + rest);
    assert(all.skip(own.len() as int) =~= rest);
    assert(agree(own, all, own.len() as int)) by {
        assert forall|j: int| 0 <= j < own.len() implies #[trigger] own[j] == all[j] by {}
    }
    if !f.has_velocities() {
        lemma_coordinates_of_used(own);
        lemma_coordinates_of_agree(own, all);
        if rest.len() > 0 {
            let next = frames.drop_first();
            assert(next.len() > 0);
            assert(next[0] == frames[1]);
            assert(is_writable(frames[1]));
            let head = header_lines(frames[1].header);
            assert(frame_line_list(next[0])[0] == head[0]);
            assert(rest[0] == frame_line_list(next[0])[0]);
            assert(all[own.len() as int] == rest[0]);
            assert(frames[1 - 1].has_velocities() || !is_blank(frames[1].header.prebox_header[0]));
        }
    }
    lemma_frame_of_agree(own, all);
}

/// The lines of frames that were written give the frames, added to `acc`.
pub proof fn lemma_frames_lines_read(frames: Seq<FrameView>, acc: Seq<FrameView>)
    requires
        frames_are_writable(frames),
    ensures
        frames_from(frames_line_list(frames), acc) == Ok::<Seq<FrameView>, ErrorView>(
            acc + frames,
        ),
    decreases frames.len(),
{
    if frames.len() == 0 {
        assert(acc + frames =~= acc);
    } else {
        let rest = frames.drop_first();
        lemma_first_frame_read(frames);
        assert forall|i: int| 0 <= i < rest.len() implies is_writable(#[trigger] rest[i]) by {
            assert(rest[i] == frames[i + 1]);
        }
        assert forall|i: int| 0 < i < rest.len() implies rest[i - 1].has_velocities() || !is_blank(
            (#[trigger] rest[i]).header.prebox_header[0],
        ) by {
            assert(rest[i] == frames[i + 1]);
            assert(rest[i - 1] == frames[i + 1 - 1]);
        }
        lemma_frames_lines_read(rest, acc.push(frames[0]));
        assert(acc.push(frames[0]) + rest =~= acc + frames);
    }
}

/// Frames that were written one after the other are read again as they were: reading the
/// text of frames that can be read as they were written gives these frames.
pub proof fn lemma_write_all_then_read_all(frames: Seq<FrameView>)
    requires
        frames_are_writable(frames),
    ensures
        frames_of(lines_of(frames_text(frames))) == Ok::<Seq<FrameView>, ErrorView>(frames),
{
    lemma_frames_text(frames);
    lemma_frames_lines_clean(frames);
    lemma_lines_of_text(frames_line_list(frames));
    lemma_frames_lines_read(frames, Seq::empty());
    assert(Seq::<FrameView>::empty() + frames =~= frames);
}

} // verus!
