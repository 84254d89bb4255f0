//! Reading the lines of a frame: the values of a line, the header, the coordinate blocks
//! and the velocity blocks.

use crate::error::{ErrorView, ParseError};
use crate::number::{number_is_nonzero, number_to_u64, LineValue, Number};
use crate::text::{
    bytes_contain, contains, find_token_end, is_blank, lemma_skip_ws_bounds, lemma_token_end_bounds,
    line_is_blank, next_line_start, skip_whitespace, skip_ws, str_bytes, token_end, tokens,
    tokens_from, trim_line, trimmed, ws_len, LineCursor,
};
use crate::types::{
    atoms_view, numbers_view, AtomDatum, AtomView, ConFrame, FrameHeader, FrameView, HeaderView,
};
use vstd::prelude::*;
use vstd::slice::slice_subrange;
use vstd::string::StringSliceAdditionalSpecFns;

verus! {

/// The mathematical values of a sequence of values.
pub open spec fn models<T: LineValue>(v: Seq<T>) -> Seq<T::Model> {
    Seq::new(v.len(), |i: int| v[i].model())
}

/// Index of the first token at or after `i` that cannot be read, or the number of tokens.
pub open spec fn first_unread<T: LineValue>(toks: Seq<Seq<u8>>, i: int) -> int
    decreases toks.len() - i,
{
    if i < 0 || i >= toks.len() || T::read(toks[i]) is Err {
        i
    } else {
        first_unread::<T>(toks, i + 1)
    }
}

/// The values that a line holds, where it holds exactly `n` of them.
///
/// The first token that cannot be read decides; where all can be read, their number does.
pub open spec fn line_values<T: LineValue>(line: Seq<u8>, n: usize) -> Result<
    Seq<T::Model>,
    ErrorView,
> {
    let toks = tokens(line);
    let bad = first_unread::<T>(toks, 0);
    if bad < toks.len() {
        Err(ErrorView::InvalidNumberFormat(T::read(toks[bad])->Err_0))
    } else if toks.len() != n {
        Err(ErrorView::InvalidVectorLength { expected: n, found: toks.len() as usize })
    } else {
        Ok(Seq::new(toks.len(), |i: int| T::read(toks[i])->Ok_0))
    }
}

/// Where the tokens in front of token `k` can be read and token `k` cannot, or is the end,
/// `k` is the first that cannot.
pub proof fn lemma_first_unread<T: LineValue>(toks: Seq<Seq<u8>>, i: int, k: int)
    requires
        0 <= i <= k <= toks.len(),
        forall|j: int| 0 <= j < k ==> T::read(#[trigger] toks[j]) is Ok,
        k < toks.len() ==> T::read(toks[k]) is Err,
    ensures
        first_unread::<T>(toks, i) == k,
    decreases k - i,
{
    if i < k {
        lemma_first_unread::<T>(toks, i + 1, k);
    }
}

/// A line has no more tokens than bytes.
pub proof fn lemma_tokens_len(s: Seq<u8>, i: int)
    requires
        0 <= i <= s.len(),
    ensures
        tokens_from(s, i).len() <= s.len() - i,
    decreases s.len() - i,
{
    lemma_skip_ws_bounds(s, i);
    let p = skip_ws(s, i);
    if p < s.len() {
        lemma_token_end_bounds(s, p);
        lemma_tokens_len(s, token_end(s, p));
    }
}

/// Reads the values of a line that holds exactly `n` of them, separated by whitespace.
pub fn parse_line_of_n<T: LineValue>(line: &str, n: usize) -> (r: Result<Vec<T>, ParseError>)
    ensures
        r matches Ok(v) ==> v.len() == n,
        match r {
            Ok(v) => line_values::<T>(line.spec_bytes(), n) == Ok::<Seq<T::Model>, ErrorView>(
                models(v@),
            ),
            Err(e) => line_values::<T>(line.spec_bytes(), n) == Err::<Seq<T::Model>, ErrorView>(
                e@,
            ),
        },
{
    let b = line.as_bytes();
    let len = b.len();
    let ghost toks = tokens(b@);
    let mut out: Vec<T> = Vec::new();
    let mut i = skip_whitespace(b, 0);
    proof {
        lemma_skip_ws_bounds(b@, 0);
        lemma_tokens_len(b@, 0);
        assert(toks.skip(0) =~= toks);
    }
    while i < len
        invariant
            len == b.len(),
            b@ == line.spec_bytes(),
            toks == tokens(b@),
            toks.len() <= len,
            i <= len,
            ws_len(b@, i as int) == 0,
            out.len() <= toks.len(),
            tokens_from(b@, i as int) == toks.skip(out.len() as int),
            forall|j: int|
                0 <= j < out.len() ==> T::read(#[trigger] toks[j]) == Ok::<T::Model, Seq<char>>(
                    out[j].model(),
                ),
        decreases len - i,
    {
        let e = find_token_end(b, i);
        let ghost k = out.len() as int;
        proof {
            lemma_token_end_bounds(b@, i as int);
            lemma_skip_ws_bounds(b@, e as int);
            assert(skip_ws(b@, i as int) == i);
            let here = tokens_from(b@, i as int);
            assert(here == seq![b@.subrange(i as int, e as int)] + tokens_from(b@, e as int));
            assert(here.len() >= 1);
            assert(toks.skip(k).len() == toks.len() - k);
            assert(here[0] == b@.subrange(i as int, e as int));
            assert(toks[k] == toks.skip(k)[0]);
            assert(toks.skip(k).drop_first() =~= toks.skip(k + 1));
            assert(here.drop_first() =~= tokens_from(b@, e as int));
            assert(tokens_from(b@, e as int) =~= toks.skip(k + 1));
            assert(tokens_from(b@, skip_ws(b@, e as int)) == tokens_from(b@, e as int));
        }
        match T::from_token(slice_subrange(b, i, e)) {
            Ok(v) => {
                out.push(v);
            },
            Err(err) => {
                proof {
                    lemma_first_unread::<T>(toks, 0, k);
                }
                return Err(err);
            },
        }
        i = skip_whitespace(b, e);
    }
    proof {
        assert(tokens_from(b@, i as int) =~= Seq::<Seq<u8>>::empty());
        assert(out.len() == toks.len());
        lemma_first_unread::<T>(toks, 0, toks.len() as int);
    }
    if out.len() == n {
        proof {
            assert(models(out@) =~= Seq::new(toks.len(), |i: int| T::read(toks[i])->Ok_0));
        }
        Ok(out)
    } else {
        Err(ParseError::InvalidVectorLength { expected: n, found: out.len() })
    }
}

/// What reading some lines gave, and how many lines were taken from the input by then.
pub struct Step<T> {
    pub result: Result<T, ErrorView>,
    pub used: int,
}

/// The header that the lines begin with.
///
/// Nine lines are read in order: two of text, the three box lengths, the three box angles,
/// two of text, the number of types, the number of atoms of each type and the mass of each
/// type. A line that is missing ends the reading with `IncompleteHeader`, a line that cannot
/// be read with its own error.
pub open spec fn header_of(lines: Seq<Seq<u8>>) -> Step<HeaderView> {
    if lines.len() < 3 {
        Step { result: Err(ErrorView::IncompleteHeader), used: lines.len() as int }
    } else {
        match line_values::<Number>(lines[2], 3) {
            Err(e) => Step { result: Err(e), used: 3 },
            Ok(boxl) => if lines.len() < 4 {
                Step { result: Err(ErrorView::IncompleteHeader), used: lines.len() as int }
            } else {
                match line_values::<Number>(lines[3], 3) {
                    Err(e) => Step { result: Err(e), used: 4 },
                    Ok(angles) => if lines.len() < 7 {
                        Step { result: Err(ErrorView::IncompleteHeader), used: lines.len() as int }
                    } else {
                        match line_values::<usize>(lines[6], 1) {
                            Err(e) => Step { result: Err(e), used: 7 },
                            Ok(types) => header_counts_of(lines, boxl, angles, types[0]),
                        }
                    },
                }
            },
        }
    }
}

/// The header, once the number of types is known: the eighth and the ninth line are read.
pub open spec fn header_counts_of(
    lines: Seq<Seq<u8>>,
    boxl: Seq<Seq<u8>>,
    angles: Seq<Seq<u8>>,
    types: usize,
) -> Step<HeaderView> {
    if lines.len() < 8 {
        Step { result: Err(ErrorView::IncompleteHeader), used: lines.len() as int }
    } else {
        match line_values::<usize>(lines[7], types) {
            Err(e) => Step { result: Err(e), used: 8 },
            Ok(counts) => if lines.len() < 9 {
                Step { result: Err(ErrorView::IncompleteHeader), used: lines.len() as int }
            } else {
                match line_values::<Number>(lines[8], types) {
                    Err(e) => Step { result: Err(e), used: 9 },
                    Ok(masses) => Step {
                        result: Ok(
                            HeaderView {
                                prebox_header: seq![lines[0], lines[1]],
                                boxl,
                                angles,
                                postbox_header: seq![lines[4], lines[5]],
                                natm_types: types,
                                natms_per_type: counts,
                                masses_per_type: masses,
                            },
                        ),
                        used: 9,
                    },
                }
            },
        }
    }
}

/// Takes the next line, `at` lines into `all`.
pub(crate) fn take_line<'a>(lines: &mut LineCursor<'a>, Ghost(all): Ghost<Seq<Seq<u8>>>, Ghost(at): Ghost<int>)
    -> (r: Option<&'a str>)
    requires
        0 <= at <= all.len(),
        old(lines).remaining() == all.skip(at),
    ensures
        final(lines).bytes() == old(lines).bytes(),
        match r {
            None => {
                &&& at == all.len()
                &&& final(lines).remaining() == all.skip(at)
                &&& final(lines).offset() == old(lines).offset()
            },
            Some(line) => {
                &&& at < all.len()
                &&& line.spec_bytes() == all[at]
                &&& final(lines).remaining() == all.skip(at + 1)
                &&& final(lines).offset() == next_line_start(
                    old(lines).bytes(),
                    old(lines).offset(),
                )
            },
        },
{
    let r = lines.next_line();
    proof {
        assert(all.skip(at).len() == all.len() - at);
        if r.is_some() {
            assert(all.skip(at).drop_first() =~= all.skip(at + 1));
        }
    }
    r
}

/// Moves three numbers out of a vector into an array.
fn triple(mut v: Vec<Number>) -> (r: [Number; 3])
    requires
        v.len() == 3,
    ensures
        numbers_view(r@) == models(v@),
{
    let ghost m = models(v@);
    let c = v.pop().unwrap();
    let b = v.pop().unwrap();
    let a = v.pop().unwrap();
    let r = [a, b, c];
    proof {
        assert(numbers_view(r@) =~= m);
    }
    r
}

/// Reads the nine header lines of a frame.
pub fn parse_frame_header(lines: &mut LineCursor) -> (r: Result<FrameHeader, ParseError>)
    ensures
        final(lines).bytes() == old(lines).bytes(),
        final(lines).remaining() == old(lines).remaining().skip(
            header_of(old(lines).remaining()).used,
        ),
        match r {
            Ok(h) => header_of(old(lines).remaining()).result == Ok::<HeaderView, ErrorView>(h@),
            Err(e) => header_of(old(lines).remaining()).result == Err::<HeaderView, ErrorView>(
                e@,
            ),
        },
{
    let ghost all = lines.remaining();
    proof {
        assert(all.skip(0) =~= all);
    }
    let prebox1 = match take_line(lines, Ghost(all), Ghost(0)) {
        Some(l) => l,
        None => return Err(ParseError::IncompleteHeader),
    };
    let prebox2 = match take_line(lines, Ghost(all), Ghost(1)) {
        Some(l) => l,
        None => return Err(ParseError::IncompleteHeader),
    };
    let boxl_line = match take_line(lines, Ghost(all), Ghost(2)) {
        Some(l) => l,
        None => return Err(ParseError::IncompleteHeader),
    };
    let boxl_vec = match parse_line_of_n::<Number>(boxl_line, 3) {
        Ok(v) => v,
        Err(e) => return Err(e),
    };
    let angles_line = match take_line(lines, Ghost(all), Ghost(3)) {
        Some(l) => l,
        None => return Err(ParseError::IncompleteHeader),
    };
    let angles_vec = match parse_line_of_n::<Number>(angles_line, 3) {
        Ok(v) => v,
        Err(e) => return Err(e),
    };
    let postbox1 = match take_line(lines, Ghost(all), Ghost(4)) {
        Some(l) => l,
        None => return Err(ParseError::IncompleteHeader),
    };
    let postbox2 = match take_line(lines, Ghost(all), Ghost(5)) {
        Some(l) => l,
        None => return Err(ParseError::IncompleteHeader),
    };
    let types_line = match take_line(lines, Ghost(all), Ghost(6)) {
        Some(l) => l,
        None => return Err(ParseError::IncompleteHeader),
    };
    let natm_types = match parse_line_of_n::<usize>(types_line, 1) {
        Ok(v) => {
            assert(models(v@)[0] == v@[0]);
            v[0]
        },
        Err(e) => return Err(e),
    };
    let counts_line = match take_line(lines, Ghost(all), Ghost(7)) {
        Some(l) => l,
        None => return Err(ParseError::IncompleteHeader),
    };
    let natms_per_type = match parse_line_of_n::<usize>(counts_line, natm_types) {
        Ok(v) => v,
        Err(e) => return Err(e),
    };
    let masses_line = match take_line(lines, Ghost(all), Ghost(8)) {
        Some(l) => l,
        None => return Err(ParseError::IncompleteHeader),
    };
    let masses_per_type = match parse_line_of_n::<Number>(masses_line, natm_types) {
        Ok(v) => v,
        Err(e) => return Err(e),
    };
    let ghost boxl_model = models(boxl_vec@);
    let ghost angles_model = models(angles_vec@);
    let header = FrameHeader {
        prebox_header: [prebox1.to_owned(), prebox2.to_owned()],
        boxl: triple(boxl_vec),
        angles: triple(angles_vec),
        postbox_header: [postbox1.to_owned(), postbox2.to_owned()],
        natm_types,
        natms_per_type,
        masses_per_type,
    };
    proof {
        let h = header@;
        let want = header_of(all).result->Ok_0;
        assert(h.prebox_header =~= want.prebox_header);
        assert(h.postbox_header =~= want.postbox_header);
        assert(h.natms_per_type =~= want.natms_per_type);
        assert(h.masses_per_type =~= want.masses_per_type);
        assert(h.boxl == boxl_model);
        assert(h.angles == angles_model);
    }
    Ok(header)
}

/// The atom that a coordinate line stands for: position, then the flag that holds the atom in
/// place, which is set by anything but zero, then the identifier.
pub open spec fn atom_of(symbol: Seq<u8>, v: Seq<Seq<u8>>) -> AtomView {
    AtomView {
        symbol,
        x: v[0],
        y: v[1],
        z: v[2],
        is_fixed: number_is_nonzero(v[3]),
        atom_id: number_to_u64(v[4]),
        vx: None,
        vy: None,
        vz: None,
    }
}

/// The atoms of one coordinate block: `n` lines from line `at` on, each of five numbers, are
/// added to `acc`.
pub open spec fn atoms_of(
    lines: Seq<Seq<u8>>,
    at: int,
    symbol: Seq<u8>,
    n: nat,
    acc: Seq<AtomView>,
) -> Step<Seq<AtomView>>
    decreases n,
{
    if n == 0 {
        Step { result: Ok(acc), used: at }
    } else if at < 0 || at >= lines.len() {
        Step { result: Err(ErrorView::IncompleteFrame), used: lines.len() as int }
    } else {
        match line_values::<Number>(lines[at], 5) {
            Err(e) => Step { result: Err(e), used: at + 1 },
            Ok(v) => atoms_of(lines, at + 1, symbol, (n - 1) as nat, acc.push(atom_of(symbol, v))),
        }
    }
}

/// The atoms of the coordinate blocks that begin at line `at`, one block for each count: a
/// line with the symbol, which is trimmed, a line with a label, which is passed over, and
/// the lines of the atoms.
pub open spec fn blocks_of(lines: Seq<Seq<u8>>, at: int, counts: Seq<usize>, acc: Seq<AtomView>)
    -> Step<Seq<AtomView>>
    decreases counts.len(),
{
    if counts.len() == 0 {
        Step { result: Ok(acc), used: at }
    } else if at < 0 || lines.len() < at + 2 {
        Step { result: Err(ErrorView::IncompleteFrame), used: lines.len() as int }
    } else {
        let block = atoms_of(lines, at + 2, trimmed(lines[at]), counts[0] as nat, acc);
        match block.result {
            Err(e) => block,
            Ok(atoms) => blocks_of(lines, block.used, counts.drop_first(), atoms),
        }
    }
}

/// The frame that the lines begin with, as far as its header and its coordinates go.
pub open spec fn coordinates_of(lines: Seq<Seq<u8>>) -> Step<FrameView> {
    let head = header_of(lines);
    match head.result {
        Err(e) => Step { result: Err(e), used: head.used },
        Ok(header) => {
            let body = blocks_of(lines, 9, header.natms_per_type, Seq::empty());
            match body.result {
                Err(e) => Step { result: Err(e), used: body.used },
                Ok(atoms) => Step {
                    result: Ok(FrameView { header, atom_data: atoms }),
                    used: body.used,
                },
            }
        },
    }
}

/// The atom lines of a block take no more lines than there are; where they can be read,
/// they take one line and give one atom for each.
pub proof fn lemma_atoms_of_used(
    lines: Seq<Seq<u8>>,
    at: int,
    symbol: Seq<u8>,
    n: nat,
    acc: Seq<AtomView>,
)
    requires
        0 <= at <= lines.len(),
    ensures
        at <= atoms_of(lines, at, symbol, n, acc).used <= lines.len(),
        atoms_of(lines, at, symbol, n, acc).result matches Ok(atoms) ==> atoms.len() == acc.len()
            + n && atoms_of(lines, at, symbol, n, acc).used == at + n,
    decreases n,
{
    if n > 0 && at < lines.len() {
        match line_values::<Number>(lines[at], 5) {
            Err(e) => {},
            Ok(v) => {
                lemma_atoms_of_used(
                    lines,
                    at + 1,
                    symbol,
                    (n - 1) as nat,
                    acc.push(atom_of(symbol, v)),
                );
            },
        }
    }
}

/// Coordinate blocks take no more lines than there are.
pub proof fn lemma_blocks_of_used(
    lines: Seq<Seq<u8>>,
    at: int,
    counts: Seq<usize>,
    acc: Seq<AtomView>,
)
    requires
        0 <= at <= lines.len(),
    ensures
        at <= blocks_of(lines, at, counts, acc).used <= lines.len(),
    decreases counts.len(),
{
    if counts.len() > 0 && lines.len() >= at + 2 {
        let block = atoms_of(lines, at + 2, trimmed(lines[at]), counts[0] as nat, acc);
        lemma_atoms_of_used(lines, at + 2, trimmed(lines[at]), counts[0] as nat, acc);
        match block.result {
            Err(e) => {},
            Ok(atoms) => {
                lemma_blocks_of_used(lines, block.used, counts.drop_first(), atoms);
            },
        }
    }
}

/// Reads the `count` atom lines of one block and adds the atoms to `atom_data`.
fn parse_block(
    lines: &mut LineCursor,
    symbol: &String,
    count: usize,
    atom_data: &mut Vec<AtomDatum>,
    Ghost(all): Ghost<Seq<Seq<u8>>>,
    Ghost(at): Ghost<int>,
) -> (r: Result<(), ParseError>)
    requires
        0 <= at <= all.len(),
        old(lines).remaining() == all.skip(at),
    ensures
        final(lines).bytes() == old(lines).bytes(),
        ({
            let s = atoms_of(
                all,
                at,
                str_bytes(symbol@),
                count as nat,
                atoms_view(old(atom_data)@),
            );
            &&& at <= s.used <= all.len()
            &&& final(lines).remaining() == all.skip(s.used)
            &&& match r {
                Ok(_) => s.result == Ok::<Seq<AtomView>, ErrorView>(
                    atoms_view(final(atom_data)@),
                ),
                Err(e) => s.result == Err::<Seq<AtomView>, ErrorView>(e@),
            }
        }),
{
    let ghost sym = str_bytes(symbol@);
    let ghost start = atoms_view(atom_data@);
    let ghost mut cur = at;
    let mut j: usize = 0;
    proof {
        lemma_atoms_of_used(all, at, sym, count as nat, start);
    }
    while j < count
        invariant
            lines.bytes() == old(lines).bytes(),
            j <= count,
            0 <= at <= cur <= all.len(),
            lines.remaining() == all.skip(cur),
            sym == str_bytes(symbol@),
            start == atoms_view(old(atom_data)@),
            at <= atoms_of(all, at, sym, count as nat, start).used <= all.len(),
            atoms_of(all, at, sym, count as nat, start) == atoms_of(
                all,
                cur,
                sym,
                (count - j) as nat,
                atoms_view(atom_data@),
            ),
        decreases count - j,
    {
        let line = match take_line(lines, Ghost(all), Ghost(cur)) {
            Some(l) => l,
            None => return Err(ParseError::IncompleteFrame),
        };
        let mut vals = match parse_line_of_n::<Number>(line, 5) {
            Ok(v) => v,
            Err(e) => return Err(e),
        };
        let ghost v = models(vals@);
        let id = vals.pop().unwrap();
        let fixed = vals.pop().unwrap();
        let z = vals.pop().unwrap();
        let y = vals.pop().unwrap();
        let x = vals.pop().unwrap();
        let ghost before = atoms_view(atom_data@);
        let atom = AtomDatum {
            symbol: symbol.clone(),
            x,
            y,
            z,
            is_fixed: fixed.is_nonzero(),
            atom_id: id.to_u64(),
            vx: None,
            vy: None,
            vz: None,
        };
        proof {
            assert(atom@ == atom_of(sym, v));
        }
        atom_data.push(atom);
        proof {
            assert(atoms_view(atom_data@) =~= before.push(atom_of(sym, v)));
            cur = cur + 1;
        }
        j = j + 1;
    }
    Ok(())
}

/// Reads a frame as far as its header and its coordinates go.
pub fn parse_single_frame(lines: &mut LineCursor) -> (r: Result<ConFrame, ParseError>)
    ensures
        final(lines).bytes() == old(lines).bytes(),
        final(lines).remaining() == old(lines).remaining().skip(
            coordinates_of(old(lines).remaining()).used,
        ),
        match r {
            Ok(f) => coordinates_of(old(lines).remaining()).result == Ok::<FrameView, ErrorView>(
                f@,
            ),
            Err(e) => coordinates_of(old(lines).remaining()).result == Err::<
                FrameView,
                ErrorView,
            >(e@),
        },
{
    let ghost all = lines.remaining();
    let header = match parse_frame_header(lines) {
        Ok(h) => h,
        Err(e) => return Err(e),
    };
    let mut atom_data: Vec<AtomDatum> = Vec::new();
    let ghost counts = header.natms_per_type@;
    let ghost mut cur: int = 9;
    let mut i: usize = 0;
    proof {
        assert(counts.skip(0) =~= counts);
        assert(atoms_view(atom_data@) =~= Seq::<AtomView>::empty());
        lemma_blocks_of_used(all, 9, counts, Seq::empty());
    }
    while i < header.natms_per_type.len()
        invariant
            lines.bytes() == old(lines).bytes(),
            counts == header.natms_per_type@,
            i <= counts.len(),
            9 <= cur <= all.len(),
            lines.remaining() == all.skip(cur),
            9 <= blocks_of(all, 9, counts, Seq::empty()).used <= all.len(),
            blocks_of(all, 9, counts, Seq::empty()) == blocks_of(
                all,
                cur,
                counts.skip(i as int),
                atoms_view(atom_data@),
            ),
            header_of(all).result == Ok::<HeaderView, ErrorView>(header@),
            header_of(all).used == 9,
            all == old(lines).remaining(),
        decreases counts.len() - i,
    {
        let count = header.natms_per_type[i];
        proof {
            assert(counts.skip(i as int)[0] == counts[i as int]);
            assert(counts.skip(i as int).drop_first() =~= counts.skip(i + 1));
        }
        let symbol_line = match take_line(lines, Ghost(all), Ghost(cur)) {
            Some(l) => l,
            None => return Err(ParseError::IncompleteFrame),
        };
        let symbol = trim_line(symbol_line).to_owned();
        match take_line(lines, Ghost(all), Ghost(cur + 1)) {
            Some(_) => {},
            None => return Err(ParseError::IncompleteFrame),
        }
        let ghost block = atoms_of(
            all,
            cur + 2,
            trimmed(all[cur]),
            count as nat,
            atoms_view(atom_data@),
        );
        match parse_block(lines, &symbol, count, &mut atom_data, Ghost(all), Ghost(cur + 2)) {
            Ok(_) => {},
            Err(e) => return Err(e),
        }
        proof {
            cur = block.used;
        }
        i = i + 1;
    }
    proof {
        assert(counts.skip(i as int) =~= Seq::<usize>::empty());
    }
    Ok(ConFrame { header, atom_data })
}

/// The words that the label of a velocity block holds.
pub open spec fn velocity_label() -> Seq<u8> {
    str_bytes("Velocities of Component"@)
}

/// What reading a velocity section gave: whether there was one, the atoms as they were
/// left, and how many lines were taken from the input by then.
pub struct VelocityStep {
    pub result: Result<bool, ErrorView>,
    pub atoms: Seq<AtomView>,
    pub used: int,
}

/// The atom with the first three numbers of a velocity line as its velocity.
pub open spec fn with_velocity(a: AtomView, v: Seq<Seq<u8>>) -> AtomView {
    AtomView { vx: Some(v[0]), vy: Some(v[1]), vz: Some(v[2]), ..a }
}

/// The atoms with the velocity of atom `idx` set, where there is such an atom.
pub open spec fn set_velocity(atoms: Seq<AtomView>, idx: int, v: Seq<Seq<u8>>) -> Seq<AtomView> {
    if 0 <= idx < atoms.len() {
        atoms.update(idx, with_velocity(atoms[idx], v))
    } else {
        atoms
    }
}

/// The velocities of one block: `n` lines from line `at` on, each of five numbers, give the
/// atoms from `idx` on their velocities.
pub open spec fn velocity_atoms_of(
    lines: Seq<Seq<u8>>,
    at: int,
    n: nat,
    atoms: Seq<AtomView>,
    idx: int,
) -> VelocityStep
    decreases n,
{
    if n == 0 {
        VelocityStep { result: Ok(true), atoms, used: at }
    } else if at < 0 || at >= lines.len() {
        VelocityStep {
            result: Err(ErrorView::IncompleteVelocitySection),
            atoms,
            used: lines.len() as int,
        }
    } else {
        match line_values::<Number>(lines[at], 5) {
            Err(e) => VelocityStep { result: Err(e), atoms, used: at + 1 },
            Ok(v) => velocity_atoms_of(
                lines,
                at + 1,
                (n - 1) as nat,
                set_velocity(atoms, idx, v),
                idx + 1,
            ),
        }
    }
}

/// The velocities of the blocks that begin at line `at`, one block for each count: a line
/// with the symbol, a line that holds the label of a velocity block, and the lines of the
/// atoms.
pub open spec fn velocity_blocks_of(
    lines: Seq<Seq<u8>>,
    at: int,
    counts: Seq<usize>,
    atoms: Seq<AtomView>,
    idx: int,
) -> VelocityStep
    decreases counts.len(),
{
    if counts.len() == 0 {
        VelocityStep { result: Ok(true), atoms, used: at }
    } else if at < 0 || lines.len() < at + 2 {
        VelocityStep {
            result: Err(ErrorView::IncompleteVelocitySection),
            atoms,
            used: lines.len() as int,
        }
    } else if !contains(lines[at + 1], velocity_label()) {
        VelocityStep { result: Err(ErrorView::IncompleteVelocitySection), atoms, used: at + 2 }
    } else {
        let block = velocity_atoms_of(lines, at + 2, counts[0] as nat, atoms, idx);
        match block.result {
            Err(e) => block,
            Ok(_) => velocity_blocks_of(
                lines,
                block.used,
                counts.drop_first(),
                block.atoms,
                idx + counts[0],
            ),
        }
    }
}

/// The velocity section at line `at`, where there is one: a blank line and the velocity
/// blocks. Where line `at` is not blank, or the lines end there, nothing is read.
pub open spec fn velocity_section_of(
    lines: Seq<Seq<u8>>,
    at: int,
    counts: Seq<usize>,
    atoms: Seq<AtomView>,
) -> VelocityStep {
    if 0 <= at < lines.len() && is_blank(lines[at]) {
        velocity_blocks_of(lines, at + 1, counts, atoms, 0)
    } else {
        VelocityStep { result: Ok(false), atoms, used: at }
    }
}

/// The velocity lines of a block take no more lines than there are and keep the number
/// of atoms; where they can be read, they take one line for each.
pub proof fn lemma_velocity_atoms_of(
    lines: Seq<Seq<u8>>,
    at: int,
    n: nat,
    atoms: Seq<AtomView>,
    idx: int,
)
    requires
        0 <= at <= lines.len(),
    ensures
        at <= velocity_atoms_of(lines, at, n, atoms, idx).used <= lines.len(),
        velocity_atoms_of(lines, at, n, atoms, idx).atoms.len() == atoms.len(),
        velocity_atoms_of(lines, at, n, atoms, idx).result is Ok ==> velocity_atoms_of(
            lines,
            at,
            n,
            atoms,
            idx,
        ).used == at + n,
    decreases n,
{
    if n > 0 && at < lines.len() {
        match line_values::<Number>(lines[at], 5) {
            Err(e) => {},
            Ok(v) => {
                lemma_velocity_atoms_of(
                    lines,
                    at + 1,
                    (n - 1) as nat,
                    set_velocity(atoms, idx, v),
                    idx + 1,
                );
            },
        }
    }
}

/// Velocity blocks take no more lines than there are and keep the number of atoms.
pub proof fn lemma_velocity_blocks_of(
    lines: Seq<Seq<u8>>,
    at: int,
    counts: Seq<usize>,
    atoms: Seq<AtomView>,
    idx: int,
)
    requires
        0 <= at <= lines.len(),
    ensures
        at <= velocity_blocks_of(lines, at, counts, atoms, idx).used <= lines.len(),
        velocity_blocks_of(lines, at, counts, atoms, idx).atoms.len() == atoms.len(),
    decreases counts.len(),
{
    if counts.len() > 0 && lines.len() >= at + 2 && contains(lines[at + 1], velocity_label()) {
        let block = velocity_atoms_of(lines, at + 2, counts[0] as nat, atoms, idx);
        lemma_velocity_atoms_of(lines, at + 2, counts[0] as nat, atoms, idx);
        if block.result is Ok {
            lemma_velocity_blocks_of(
                lines,
                block.used,
                counts.drop_first(),
                block.atoms,
                idx + counts[0],
            );
        }
    }
}

/// Reads the `count` velocity lines of one block into the atoms from `first` on.
fn parse_velocity_block(
    lines: &mut LineCursor,
    count: usize,
    atom_data: &mut Vec<AtomDatum>,
    first: usize,
    Ghost(all): Ghost<Seq<Seq<u8>>>,
    Ghost(at): Ghost<int>,
) -> (r: Result<usize, ParseError>)
    requires
        0 <= at <= all.len() <= usize::MAX,
        first <= at,
        old(lines).remaining() == all.skip(at),
    ensures
        final(lines).bytes() == old(lines).bytes(),
        ({
            let s = velocity_atoms_of(
                all,
                at,
                count as nat,
                atoms_view(old(atom_data)@),
                first as int,
            );
            &&& at <= s.used <= all.len()
            &&& final(lines).remaining() == all.skip(s.used)
            &&& s.atoms == atoms_view(final(atom_data)@)
            &&& match r {
                Ok(next) => s.result is Ok && next == first + count && next <= s.used,
                Err(e) => s.result == Err::<bool, ErrorView>(e@),
            }
        }),
{
    let ghost start = atoms_view(atom_data@);
    let ghost mut cur = at;
    let mut idx = first;
    let mut j: usize = 0;
    proof {
        lemma_velocity_atoms_of(all, at, count as nat, start, first as int);
    }
    while j < count
        invariant
            lines.bytes() == old(lines).bytes(),
            j <= count,
            0 <= at <= cur <= all.len() <= usize::MAX,
            idx == first + j,
            cur == at + j,
            first <= at,
            lines.remaining() == all.skip(cur),
            start == atoms_view(old(atom_data)@),
            at <= velocity_atoms_of(all, at, count as nat, start, first as int).used <= all.len(),
            velocity_atoms_of(all, at, count as nat, start, first as int) == velocity_atoms_of(
                all,
                cur,
                (count - j) as nat,
                atoms_view(atom_data@),
                idx as int,
            ),
        decreases count - j,
    {
        let line = match take_line(lines, Ghost(all), Ghost(cur)) {
            Some(l) => l,
            None => return Err(ParseError::IncompleteVelocitySection),
        };
        let mut vals = match parse_line_of_n::<Number>(line, 5) {
            Ok(v) => v,
            Err(e) => return Err(e),
        };
        let ghost v = models(vals@);
        let ghost before = atoms_view(atom_data@);
        let _ = vals.pop();
        let _ = vals.pop();
        let vz = vals.pop().unwrap();
        let vy = vals.pop().unwrap();
        let vx = vals.pop().unwrap();
        if idx < atom_data.len() {
            atom_data[idx].vx = Some(vx);
            atom_data[idx].vy = Some(vy);
            atom_data[idx].vz = Some(vz);
        }
        proof {
            assert(atoms_view(atom_data@) =~= set_velocity(before, idx as int, v));
            cur = cur + 1;
        }
        idx = idx + 1;
        j = j + 1;
    }
    Ok(idx)
}

/// Reads the velocity section that may follow the coordinate blocks of a frame.
///
/// Gives `true` where there was one. Each atom for which a velocity line was read has its
/// velocity by then, also where the reading fails further on.
pub fn parse_velocity_section(
    lines: &mut LineCursor,
    header: &FrameHeader,
    atom_data: &mut Vec<AtomDatum>,
) -> (r: Result<bool, ParseError>)
    ensures
        final(lines).bytes() == old(lines).bytes(),
        ({
            let s = velocity_section_of(
                old(lines).remaining(),
                0,
                header.natms_per_type@,
                atoms_view(old(atom_data)@),
            );
            &&& final(lines).remaining() == old(lines).remaining().skip(s.used)
            &&& s.atoms == atoms_view(final(atom_data)@)
            &&& match r {
                Ok(found) => s.result == Ok::<bool, ErrorView>(found),
                Err(e) => s.result == Err::<bool, ErrorView>(e@),
            }
        }),
{
    let ghost all = lines.remaining();
    let ghost start = atoms_view(atom_data@);
    let ghost counts = header.natms_per_type@;
    proof {
        assert(all.skip(0) =~= all);
    }
    match lines.peek_line() {
        Some(line) => {
            if !line_is_blank(line) {
                return Ok(false);
            }
        },
        None => {
            return Ok(false);
        },
    }
    let _ = take_line(lines, Ghost(all), Ghost(0));
    let ghost mut cur: int = 1;
    let mut idx: usize = 0;
    let mut i: usize = 0;
    proof {
        assert(counts.skip(0) =~= counts);
        lemma_velocity_blocks_of(all, 1, counts, start, 0);
    }
    while i < header.natms_per_type.len()
        invariant
            lines.bytes() == old(lines).bytes(),
            all == old(lines).remaining(),
            start == atoms_view(old(atom_data)@),
            counts == header.natms_per_type@,
            i <= counts.len(),
            1 <= cur <= all.len() <= usize::MAX,
            is_blank(all[0]),
            idx <= cur,
            lines.remaining() == all.skip(cur),
            1 <= velocity_blocks_of(all, 1, counts, start, 0).used <= all.len(),
            velocity_blocks_of(all, 1, counts, start, 0) == velocity_blocks_of(
                all,
                cur,
                counts.skip(i as int),
                atoms_view(atom_data@),
                idx as int,
            ),
        decreases counts.len() - i,
    {
        let count = header.natms_per_type[i];
        proof {
            assert(counts.skip(i as int)[0] == counts[i as int]);
            assert(counts.skip(i as int).drop_first() =~= counts.skip(i + 1));
        }
        match take_line(lines, Ghost(all), Ghost(cur)) {
            Some(_) => {},
            None => return Err(ParseError::IncompleteVelocitySection),
        }
        let label = match take_line(lines, Ghost(all), Ghost(cur + 1)) {
            Some(l) => l,
            None => return Err(ParseError::IncompleteVelocitySection),
        };
        if !bytes_contain(label.as_bytes(), "Velocities of Component".as_bytes()) {
            return Err(ParseError::IncompleteVelocitySection);
        }
        let ghost block = velocity_atoms_of(
            all,
            cur + 2,
            count as nat,
            atoms_view(atom_data@),
            idx as int,
        );
        idx = match parse_velocity_block(lines, count, atom_data, idx, Ghost(all), Ghost(cur + 2)) {
            Ok(next) => next,
            Err(e) => return Err(e),
        };
        proof {
            cur = block.used;
        }
        i = i + 1;
    }
    proof {
        assert(counts.skip(i as int) =~= Seq::<usize>::empty());
    }
    Ok(true)
}

/// A header takes at most nine lines, and nine where it can be read; it then names as
/// many counts and masses as types.
pub proof fn lemma_header_of_used(lines: Seq<Seq<u8>>)
    ensures
        0 <= header_of(lines).used <= lines.len(),
        header_of(lines).used <= 9,
        header_of(lines).result is Ok ==> header_of(lines).used == 9,
        header_of(lines).result matches Ok(h) ==> h.natms_per_type.len() == h.natm_types
            && h.masses_per_type.len() == h.natm_types,
{
}

/// Header and coordinate blocks take no more lines than there are.
pub proof fn lemma_coordinates_of_used(lines: Seq<Seq<u8>>)
    ensures
        0 <= coordinates_of(lines).used <= lines.len(),
        coordinates_of(lines).result is Ok ==> coordinates_of(lines).used >= 9,
{
    lemma_header_of_used(lines);
    let head = header_of(lines);
    if head.result is Ok {
        lemma_blocks_of_used(lines, 9, head.result->Ok_0.natms_per_type, Seq::empty());
    }
}

/// A velocity section takes no more lines than there are and keeps the number of atoms.
pub proof fn lemma_velocity_section_of(
    lines: Seq<Seq<u8>>,
    at: int,
    counts: Seq<usize>,
    atoms: Seq<AtomView>,
)
    requires
        0 <= at <= lines.len(),
    ensures
        at <= velocity_section_of(lines, at, counts, atoms).used <= lines.len(),
        velocity_section_of(lines, at, counts, atoms).atoms.len() == atoms.len(),
{
    if at < lines.len() && is_blank(lines[at]) {
        lemma_velocity_blocks_of(lines, at + 1, counts, atoms, 0);
    }
}

} // verus!
