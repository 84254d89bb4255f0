//! The frames of a text, one after the other.

use crate::error::{ErrorView, ParseError, ReadError, ReadErrorView};
use crate::parser::{
    coordinates_of, lemma_coordinates_of_used, lemma_velocity_section_of, line_values, models,
    parse_line_of_n, parse_single_frame, parse_velocity_section, take_line, velocity_section_of,
    Step,
};
use crate::text::{
    advance, is_blank, lemma_advance_add, lemma_advance_end, lemma_advance_lines, lemma_lines_len,
    lemma_lines_window, line_is_blank, lines_of, next_line_start, slice_text, LineCursor,
};
use crate::types::{ConFrame, FrameView};
use rayon::iter::{IndexedParallelIterator, IntoParallelIterator, ParallelIterator};
use vstd::prelude::*;
use vstd::string::StringSliceAdditionalSpecFns;
use vstd::utf8::{encode_utf8_valid_utf8, is_char_boundary, is_char_boundary_start_end_of_seq};

verus! {

/// The frame that the lines begin with: header, coordinate blocks and, where a blank line
/// follows them, velocity blocks.
pub open spec fn frame_of(lines: Seq<Seq<u8>>) -> Step<FrameView> {
    let body = coordinates_of(lines);
    match body.result {
        Err(e) => body,
        Ok(f) => {
            let v = velocity_section_of(
                lines.skip(body.used),
                0,
                f.header.natms_per_type,
                f.atom_data,
            );
            match v.result {
                Err(e) => Step { result: Err(e), used: body.used + v.used },
                Ok(_) => Step {
                    result: Ok(FrameView { header: f.header, atom_data: v.atoms }),
                    used: body.used + v.used,
                },
            }
        },
    }
}

/// The sum of the counts.
pub open spec fn total_atoms(counts: Seq<usize>) -> int
    decreases counts.len(),
{
    if counts.len() == 0 {
        0
    } else {
        total_atoms(counts.drop_last()) + counts.last()
    }
}

/// The number of lines that the coordinate blocks of a frame take: one for each atom and
/// two for each type.
pub open spec fn block_lines(counts: Seq<usize>) -> int {
    total_atoms(counts) + 2 * counts.len()
}

/// What passing over the frame that the lines begin with gives.
///
/// Of the header only the number of types and the numbers of atoms are read. Then the lines
/// of the coordinate blocks are passed over and, where a blank line follows them, as many
/// lines again.
pub open spec fn skip_of(lines: Seq<Seq<u8>>) -> Step<()> {
    if lines.len() < 7 {
        Step { result: Err(ErrorView::IncompleteHeader), used: lines.len() as int }
    } else {
        match line_values::<usize>(lines[6], 1) {
            Err(e) => Step { result: Err(e), used: 7 },
            Ok(types) => if lines.len() < 8 {
                Step { result: Err(ErrorView::IncompleteHeader), used: lines.len() as int }
            } else {
                match line_values::<usize>(lines[7], types[0]) {
                    Err(e) => Step { result: Err(e), used: 8 },
                    Ok(counts) => if lines.len() < 9 {
                        Step { result: Err(ErrorView::IncompleteHeader), used: lines.len() as int }
                    } else {
                        skip_blocks_of(lines, block_lines(counts))
                    },
                }
            },
        }
    }
}

/// What passing over the blocks of a frame gives, whose coordinate blocks take `n` lines
/// from the tenth line on.
pub open spec fn skip_blocks_of(lines: Seq<Seq<u8>>, n: int) -> Step<()> {
    if lines.len() < 9 + n {
        Step { result: Err(ErrorView::IncompleteFrame), used: lines.len() as int }
    } else if 9 + n < lines.len() && is_blank(lines[9 + n]) {
        if lines.len() < 10 + n + n {
            Step { result: Err(ErrorView::IncompleteVelocitySection), used: lines.len() as int }
        } else {
            Step { result: Ok(()), used: 10 + n + n }
        }
    } else {
        Step { result: Ok(()), used: 9 + n }
    }
}

/// The frames of a text, read one by one.
pub struct ConFrameIterator<'a> {
    lines: LineCursor<'a>,
}

impl<'a> ConFrameIterator<'a> {
    /// The bytes of the whole text.
    pub closed spec fn bytes(&self) -> Seq<u8> {
        self.lines.bytes()
    }

    /// The byte offset at which the next frame begins.
    pub closed spec fn offset(&self) -> int {
        self.lines.offset()
    }

    /// The lines that have not been read yet.
    pub closed spec fn remaining(&self) -> Seq<Seq<u8>> {
        self.lines.remaining()
    }

    /// An iterator over the frames of `file_contents`.
    pub fn new(file_contents: &'a str) -> (r: Self)
        ensures
            r.bytes() == file_contents.spec_bytes(),
            r.offset() == 0,
            r.remaining() == lines_of(file_contents.spec_bytes()),
    {
        ConFrameIterator { lines: LineCursor::new(file_contents) }
    }

    /// Reads the next frame. Gives `None` when no line is left.
    pub fn next(&mut self) -> (r: Option<Result<ConFrame, ParseError>>)
        ensures
            final(self).bytes() == old(self).bytes(),
            match r {
                None => {
                    &&& old(self).remaining().len() == 0
                    &&& final(self).remaining() == old(self).remaining()
                },
                Some(res) => {
                    &&& old(self).remaining().len() > 0
                    &&& final(self).remaining() == old(self).remaining().skip(
                        frame_of(old(self).remaining()).used,
                    )
                    &&& match res {
                        Ok(f) => frame_of(old(self).remaining()).result == Ok::<
                            FrameView,
                            ErrorView,
                        >(f@),
                        Err(e) => frame_of(old(self).remaining()).result == Err::<
                            FrameView,
                            ErrorView,
                        >(e@),
                    }
                },
            },
    {
        let ghost all = self.lines.remaining();
        if self.lines.at_end() {
            return None;
        }
        let mut frame = match parse_single_frame(&mut self.lines) {
            Ok(f) => f,
            Err(e) => return Some(Err(e)),
        };
        let ghost body = coordinates_of(all);
        proof {
            lemma_coordinates_of_used(all);
        }
        match parse_velocity_section(&mut self.lines, &frame.header, &mut frame.atom_data) {
            Ok(_) => {},
            Err(e) => {
                proof {
                    let v = velocity_section_of(
                        all.skip(body.used),
                        0,
                        frame.header.natms_per_type@,
                        body.result->Ok_0.atom_data,
                    );
                    lemma_velocity_section_of(
                        all.skip(body.used),
                        0,
                        frame.header.natms_per_type@,
                        body.result->Ok_0.atom_data,
                    );
                    assert(all.skip(body.used).skip(v.used) =~= all.skip(body.used + v.used));
                }
                return Some(Err(e));
            },
        }
        proof {
            let v = velocity_section_of(
                all.skip(body.used),
                0,
                frame.header.natms_per_type@,
                body.result->Ok_0.atom_data,
            );
            lemma_velocity_section_of(
                all.skip(body.used),
                0,
                frame.header.natms_per_type@,
                body.result->Ok_0.atom_data,
            );
            assert(all.skip(body.used).skip(v.used) =~= all.skip(body.used + v.used));
        }
        Some(Ok(frame))
    }
}

/// The counts in front of any place add up to no more than all of them.
pub proof fn lemma_block_lines_prefix(counts: Seq<usize>, i: int)
    requires
        0 <= i <= counts.len(),
    ensures
        0 <= block_lines(counts.take(i)) <= block_lines(counts),
        i < counts.len() ==> block_lines(counts.take(i + 1)) == block_lines(counts.take(i))
            + counts[i] + 2,
    decreases counts.len() - i,
{
    lemma_total_atoms_nonnegative(counts.take(i));
    if i < counts.len() {
        assert(counts.take(i + 1).drop_last() =~= counts.take(i));
        lemma_block_lines_prefix(counts, i + 1);
    } else {
        assert(counts.take(i) =~= counts);
    }
}

/// A sum of counts is not negative.
pub proof fn lemma_total_atoms_nonnegative(counts: Seq<usize>)
    ensures
        total_atoms(counts) >= 0,
    decreases counts.len(),
{
    if counts.len() > 0 {
        lemma_total_atoms_nonnegative(counts.drop_last());
    }
}

/// Passes over `k` lines, or over those that are left where they are fewer.
fn skip_lines(lines: &mut LineCursor, k: usize, Ghost(all): Ghost<Seq<Seq<u8>>>, Ghost(at): Ghost<int>)
    -> (r: bool)
    requires
        0 <= at <= all.len(),
        old(lines).remaining() == all.skip(at),
    ensures
        final(lines).bytes() == old(lines).bytes(),
        r == (at + k <= all.len()),
        ({
            let to = if at + k <= all.len() {
                at + k
            } else {
                all.len() as int
            };
            &&& final(lines).remaining() == all.skip(to)
            &&& final(lines).offset() == advance(
                old(lines).bytes(),
                old(lines).offset(),
                (to - at) as nat,
            )
        }),
{
    let mut j: usize = 0;
    while j < k
        invariant
            j <= k,
            0 <= at,
            at + j <= all.len(),
            lines.bytes() == old(lines).bytes(),
            lines.remaining() == all.skip(at + j),
            lines.offset() == advance(old(lines).bytes(), old(lines).offset(), j as nat),
        decreases k - j,
    {
        match take_line(lines, Ghost(all), Ghost(at + j)) {
            Some(_) => {},
            None => {
                return false;
            },
        }
        j = j + 1;
    }
    true
}

/// Passes over the lines of the blocks of a frame: one for each atom and two for each type.
fn skip_blocks(
    lines: &mut LineCursor,
    counts: &Vec<usize>,
    Ghost(all): Ghost<Seq<Seq<u8>>>,
    Ghost(at): Ghost<int>,
) -> (r: bool)
    requires
        0 <= at <= all.len(),
        old(lines).remaining() == all.skip(at),
    ensures
        final(lines).bytes() == old(lines).bytes(),
        r == (at + block_lines(counts@) <= all.len()),
        ({
            let to = if at + block_lines(counts@) <= all.len() {
                at + block_lines(counts@)
            } else {
                all.len() as int
            };
            &&& final(lines).remaining() == all.skip(to)
            &&& final(lines).offset() == advance(
                old(lines).bytes(),
                old(lines).offset(),
                (to - at) as nat,
            )
        }),
{
    let ghost s = lines.bytes();
    let ghost from = lines.offset();
    let ghost mut cur = at;
    let mut i: usize = 0;
    proof {
        lemma_block_lines_prefix(counts@, 0);
        assert(counts@.take(0) =~= Seq::<usize>::empty());
    }
    while i < counts.len()
        invariant
            i <= counts.len(),
            0 <= at <= cur <= all.len(),
            s == old(lines).bytes(),
            from == old(lines).offset(),
            lines.bytes() == s,
            cur == at + block_lines(counts@.take(i as int)),
            lines.remaining() == all.skip(cur),
            lines.offset() == advance(s, from, (cur - at) as nat),
        decreases counts.len() - i,
    {
        proof {
            lemma_block_lines_prefix(counts@, i as int);
            lemma_block_lines_prefix(counts@, i + 1);
        }
        let ghost mid = lines.offset();
        if !skip_lines(lines, 2, Ghost(all), Ghost(cur)) {
            proof {
                lemma_advance_add(s, from, (cur - at) as nat, (all.len() - cur) as nat);
            }
            return false;
        }
        proof {
            lemma_advance_add(s, from, (cur - at) as nat, 2);
        }
        if !skip_lines(lines, counts[i], Ghost(all), Ghost(cur + 2)) {
            proof {
                lemma_advance_add(s, from, (cur + 2 - at) as nat, (all.len() - cur - 2) as nat);
            }
            return false;
        }
        proof {
            lemma_advance_add(s, from, (cur + 2 - at) as nat, counts@[i as int] as nat);
            cur = cur + 2 + counts@[i as int];
        }
        i = i + 1;
    }
    proof {
        assert(counts@.take(i as int) =~= counts@);
    }
    true
}

impl<'a> ConFrameIterator<'a> {
    /// The byte offset at which the next frame begins.
    pub fn position(&self) -> (r: usize)
        ensures
            r == self.offset(),
            r <= self.bytes().len(),
            is_char_boundary(self.bytes(), r as int),
    {
        self.lines.position()
    }

    /// Passes over the next frame without reading its atoms. Gives `None` when no line is
    /// left.
    pub fn forward(&mut self) -> (r: Option<Result<(), ParseError>>)
        ensures
            final(self).bytes() == old(self).bytes(),
            match r {
                None => {
                    &&& old(self).remaining().len() == 0
                    &&& final(self).remaining() == old(self).remaining()
                    &&& final(self).offset() == old(self).offset()
                },
                Some(res) => {
                    &&& old(self).remaining().len() > 0
                    &&& 0 <= skip_of(old(self).remaining()).used <= old(self).remaining().len()
                    &&& final(self).remaining() == old(self).remaining().skip(
                        skip_of(old(self).remaining()).used,
                    )
                    &&& final(self).offset() == advance(
                        old(self).bytes(),
                        old(self).offset(),
                        skip_of(old(self).remaining()).used as nat,
                    )
                    &&& match res {
                        Ok(_) => skip_of(old(self).remaining()).result is Ok,
                        Err(e) => skip_of(old(self).remaining()).result == Err::<(), ErrorView>(
                            e@,
                        ),
                    }
                },
            },
    {
        let ghost all = self.lines.remaining();
        let ghost s = self.lines.bytes();
        let ghost from = self.lines.offset();
        if self.lines.at_end() {
            return None;
        }
        proof {
            assert(all.skip(0) =~= all);
        }
        if !skip_lines(&mut self.lines, 6, Ghost(all), Ghost(0)) {
            return Some(Err(ParseError::IncompleteHeader));
        }
        let types_line = match take_line(&mut self.lines, Ghost(all), Ghost(6)) {
            Some(l) => l,
            None => return Some(Err(ParseError::IncompleteHeader)),
        };
        proof {
            assert(advance(s, from, 7) == next_line_start(s, advance(s, from, 6)));
        }
        let natm_types = match parse_line_of_n::<usize>(types_line, 1) {
            Ok(v) => {
                assert(models(v@)[0] == v@[0]);
                v[0]
            },
            Err(e) => return Some(Err(e)),
        };
        let counts_line = match take_line(&mut self.lines, Ghost(all), Ghost(7)) {
            Some(l) => l,
            None => return Some(Err(ParseError::IncompleteHeader)),
        };
        proof {
            assert(advance(s, from, 8) == next_line_start(s, advance(s, from, 7)));
        }
        let counts = match parse_line_of_n::<usize>(counts_line, natm_types) {
            Ok(v) => v,
            Err(e) => return Some(Err(e)),
        };
        proof {
            assert(models(counts@) =~= counts@);
        }
        match take_line(&mut self.lines, Ghost(all), Ghost(8)) {
            Some(_) => {},
            None => return Some(Err(ParseError::IncompleteHeader)),
        }
        let ghost n = block_lines(counts@);
        proof {
            lemma_block_lines_prefix(counts@, counts@.len() as int);
            assert(advance(s, from, 9) == next_line_start(s, advance(s, from, 8)));
            assert(self.lines.offset() == advance(s, from, 9));
        }
        if !skip_blocks(&mut self.lines, &counts, Ghost(all), Ghost(9)) {
            proof {
                lemma_advance_add(s, from, 9, (all.len() - 9) as nat);
            }
            return Some(Err(ParseError::IncompleteFrame));
        }
        proof {
            lemma_advance_add(s, from, 9, n as nat);
        }
        let blank = match self.lines.peek_line() {
            Some(line) => line_is_blank(line),
            None => false,
        };
        if blank {
            let _ = take_line(&mut self.lines, Ghost(all), Ghost(9 + n));
            proof {
                assert(advance(s, from, (10 + n) as nat) == next_line_start(
                    s,
                    advance(s, from, (9 + n) as nat),
                ));
            }
            if !skip_blocks(&mut self.lines, &counts, Ghost(all), Ghost(10 + n)) {
                proof {
                    lemma_advance_add(s, from, (10 + n) as nat, (all.len() - 10 - n) as nat);
                }
                return Some(Err(ParseError::IncompleteVelocitySection));
            }
            proof {
                lemma_advance_add(s, from, (10 + n) as nat, n as nat);
            }
        }
        Some(Ok(()))
    }
}

/// Reading a frame takes no more lines than there are, and at least the nine lines of the
/// header where it succeeds.
pub proof fn lemma_frame_of_used(lines: Seq<Seq<u8>>)
    ensures
        0 <= frame_of(lines).used <= lines.len(),
        frame_of(lines).result is Ok ==> frame_of(lines).used >= 9,
{
    lemma_coordinates_of_used(lines);
    let body = coordinates_of(lines);
    if body.result is Ok {
        let f = body.result->Ok_0;
        lemma_velocity_section_of(
            lines.skip(body.used),
            0,
            f.header.natms_per_type,
            f.atom_data,
        );
    }
}

/// The frames of the lines, added to `acc`, as far as each can be read: the first error
/// ends the reading.
pub open spec fn frames_from(lines: Seq<Seq<u8>>, acc: Seq<FrameView>) -> Result<
    Seq<FrameView>,
    ErrorView,
>
    decreases lines.len(),
{
    if lines.len() == 0 {
        Ok(acc)
    } else {
        let first = frame_of(lines);
        match first.result {
            Err(e) => Err(e),
            Ok(f) => {
                proof {
                    lemma_frame_of_used(lines);
                }
                frames_from(lines.skip(first.used), acc.push(f))
            },
        }
    }
}

/// All frames of the lines, or the first error.
pub open spec fn frames_of(lines: Seq<Seq<u8>>) -> Result<Seq<FrameView>, ErrorView> {
    frames_from(lines, Seq::empty())
}

/// The views of the frames of a sequence.
pub open spec fn frames_view(s: Seq<ConFrame>) -> Seq<FrameView> {
    Seq::new(s.len(), |i: int| s[i]@)
}

/// Reads all frames of a text. The first frame that cannot be read ends the reading with
/// its error.
pub fn read_all_frames(text: &str) -> (r: Result<Vec<ConFrame>, ParseError>)
    ensures
        match r {
            Ok(frames) => frames_of(lines_of(text.spec_bytes())) == Ok::<
                Seq<FrameView>,
                ErrorView,
            >(frames_view(frames@)),
            Err(e) => frames_of(lines_of(text.spec_bytes())) == Err::<Seq<FrameView>, ErrorView>(
                e@,
            ),
        },
{
    let mut iter = ConFrameIterator::new(text);
    let mut frames: Vec<ConFrame> = Vec::new();
    let ghost all = lines_of(text.spec_bytes());
    proof {
        assert(frames_view(frames@) =~= Seq::<FrameView>::empty());
    }
    loop
        invariant
            all == lines_of(text.spec_bytes()),
            frames_of(all) == frames_from(iter.remaining(), frames_view(frames@)),
        decreases iter.remaining().len(),
    {
        let ghost before = iter.remaining();
        let ghost done = frames_view(frames@);
        proof {
            lemma_frame_of_used(before);
        }
        match iter.next() {
            None => {
                return Ok(frames);
            },
            Some(Err(e)) => {
                return Err(e);
            },
            Some(Ok(frame)) => {
                frames.push(frame);
                proof {
                    assert(frames_view(frames@) =~= done.push(frame@));
                }
            },
        }
    }
}

/// Reads the first frame of a text.
pub fn read_first_frame(text: &str) -> (r: Result<ConFrame, ReadError>)
    ensures
        match r {
            Ok(f) => lines_of(text.spec_bytes()).len() > 0 && frame_of(
                lines_of(text.spec_bytes()),
            ).result == Ok::<FrameView, ErrorView>(f@),
            Err(e) => match e@ {
                ReadErrorView::NoFrames => lines_of(text.spec_bytes()).len() == 0,
                ReadErrorView::Parse(p) => lines_of(text.spec_bytes()).len() > 0 && frame_of(
                    lines_of(text.spec_bytes()),
                ).result == Err::<FrameView, ErrorView>(p),
            },
        },
{
    let mut iter = ConFrameIterator::new(text);
    match iter.next() {
        Some(Ok(frame)) => Ok(frame),
        Some(Err(e)) => Err(ReadError::Parse(e)),
        None => Err(ReadError::NoFrames),
    }
}

/// Passing over a frame takes no more lines than there are, and at least the nine lines
/// of the header where it succeeds.
pub proof fn lemma_skip_of_used(lines: Seq<Seq<u8>>)
    ensures
        0 <= skip_of(lines).used <= lines.len(),
        skip_of(lines).result is Ok ==> skip_of(lines).used >= 9,
{
    if lines.len() >= 9 {
        match line_values::<usize>(lines[6], 1) {
            Err(e) => {},
            Ok(types) => {
                match line_values::<usize>(lines[7], types[0]) {
                    Err(e) => {},
                    Ok(counts) => {
                        lemma_block_lines_prefix(counts, counts.len() as int);
                    },
                }
            },
        }
    }
}

/// The indexes of the lines at which the frames begin, added to `acc`: from line `at` on,
/// frame after frame is passed over, up to the end of the lines or to the first frame that
/// cannot be passed over, whose start is the last to be recorded.
pub open spec fn frame_starts(lines: Seq<Seq<u8>>, at: int, acc: Seq<int>) -> Seq<int>
    decreases lines.len() - at,
{
    if at < 0 || at >= lines.len() {
        acc
    } else {
        let s = skip_of(lines.skip(at));
        if s.result is Ok {
            proof {
                lemma_skip_of_used(lines.skip(at));
            }
            frame_starts(lines, at + s.used, acc.push(at))
        } else {
            acc.push(at)
        }
    }
}

/// The lines of frame `i`: from its start up to the start of the next frame, or up to the
/// end for the last.
pub open spec fn frame_lines(lines: Seq<Seq<u8>>, starts: Seq<int>, i: int) -> Seq<Seq<u8>> {
    if i + 1 < starts.len() {
        lines.subrange(starts[i], starts[i + 1])
    } else {
        lines.subrange(starts[i], lines.len() as int)
    }
}

/// What reading one frame from lines of its own gives.
pub open spec fn lone_frame_of(lines: Seq<Seq<u8>>) -> Result<FrameView, ErrorView> {
    if lines.len() == 0 {
        Err(ErrorView::IncompleteFrame)
    } else {
        frame_of(lines).result
    }
}

/// The outcome `r` is the outcome `want`.
pub open spec fn outcome_is(r: Result<ConFrame, ParseError>, want: Result<FrameView, ErrorView>)
    -> bool {
    match r {
        Ok(f) => want == Ok::<FrameView, ErrorView>(f@),
        Err(e) => want == Err::<FrameView, ErrorView>(e@),
    }
}

/// The offsets cut the text at character boundaries, in rising order.
pub open spec fn cuts_text(s: Seq<u8>, offsets: Seq<usize>) -> bool {
    forall|j: int|
        0 <= j < offsets.len() ==> {
            &&& #[trigger] offsets[j] <= s.len()
            &&& is_char_boundary(s, offsets[j] as int)
            &&& j + 1 < offsets.len() ==> offsets[j] <= offsets[j + 1]
        }
}

/// The part of the text from offset `i` up to the next offset, or up to the end.
pub open spec fn part(s: Seq<u8>, offsets: Seq<usize>, i: int) -> Seq<u8> {
    if i + 1 < offsets.len() {
        s.subrange(offsets[i] as int, offsets[i + 1] as int)
    } else {
        s.subrange(offsets[i] as int, s.len() as int)
    }
}

/// Reads the frame that part `i` of the text holds.
fn decode_part(text: &str, offsets: &Vec<usize>, i: usize) -> (r: Result<ConFrame, ParseError>)
    requires
        cuts_text(text.spec_bytes(), offsets@),
        i < offsets.len(),
    ensures
        outcome_is(r, lone_frame_of(lines_of(part(text.spec_bytes(), offsets@, i as int)))),
{
    let start = offsets[i];
    let end = if i + 1 < offsets.len() {
        offsets[i + 1]
    } else {
        text.as_bytes().len()
    };
    proof {
        encode_utf8_valid_utf8(text@);
        is_char_boundary_start_end_of_seq(text.spec_bytes());
        assert(offsets@[i as int] <= text.spec_bytes().len());
    }
    let chunk = slice_text(text, start, end);
    let mut iter = ConFrameIterator::new(chunk);
    match iter.next() {
        Some(res) => res,
        None => Err(ParseError::IncompleteFrame),
    }
}

/// Reads every part of the text with `decode_part`, on the threads of rayon's pool.
///
/// Taken on trust: rayon's `into_par_iter` on a range of indices, `map` and
/// `collect_into_vec` call the closure once for each index and put what it returns at the
/// place of that index. So there is one outcome for each offset, and outcome `i` is what
/// `decode_part` gives for part `i`.
#[verifier::external_body]
fn decode_parts(text: &str, offsets: &Vec<usize>) -> (r: Vec<Result<ConFrame, ParseError>>)
    requires
        cuts_text(text.spec_bytes(), offsets@),
    ensures
        r.len() == offsets.len(),
        forall|i: int|
            0 <= i < r.len() ==> outcome_is(
                #[trigger] r[i],
                lone_frame_of(lines_of(part(text.spec_bytes(), offsets@, i))),
            ),
{
    let mut out = Vec::new();
    (0..offsets.len()).into_par_iter().map(|i| decode_part(text, offsets, i)).collect_into_vec(
        &mut out,
    );
    out
}

/// Reads the frames of a text side by side.
///
/// First the starts of the frames are found by passing over frame after frame. Then the
/// lines of each frame are read on their own, and the outcomes are given in the order of
/// the frames. A frame that cannot be read gives its error in its place.
pub fn parse_frames_parallel(file_contents: &str) -> (r: Vec<Result<ConFrame, ParseError>>)
    ensures
        ({
            let lines = lines_of(file_contents.spec_bytes());
            let starts = frame_starts(lines, 0, Seq::empty());
            &&& r.len() == starts.len()
            &&& forall|i: int|
                0 <= i < r.len() ==> outcome_is(
                    #[trigger] r[i],
                    lone_frame_of(frame_lines(lines, starts, i)),
                )
        }),
{
    let ghost s = file_contents.spec_bytes();
    let ghost lines = lines_of(s);
    let mut scanner = ConFrameIterator::new(file_contents);
    let mut offsets: Vec<usize> = Vec::new();
    let ghost mut starts: Seq<int> = Seq::empty();
    let ghost mut at: int = 0;
    let mut done = false;
    proof {
        assert(lines.skip(0) =~= lines);
        lemma_lines_len(s, 0);
    }
    loop
        invariant
            s == file_contents.spec_bytes(),
            lines == lines_of(s),
            scanner.bytes() == s,
            0 <= at <= lines.len(),
            !done ==> scanner.remaining() == lines.skip(at) && scanner.offset() == advance(
                s,
                0,
                at as nat,
            ),
            done ==> frame_starts(lines, 0, Seq::empty()) == starts,
            !done ==> frame_starts(lines, 0, Seq::empty()) == frame_starts(lines, at, starts),
            starts.len() == offsets.len(),
            forall|j: int|
                0 <= j < starts.len() ==> 0 <= #[trigger] starts[j] < lines.len() && starts[j]
                    <= at && offsets[j] == advance(s, 0, starts[j] as nat),
            forall|j: int|
                0 <= j < starts.len() - 1 ==> #[trigger] starts[j] < starts[j + 1],
            starts.len() > 0 && !done ==> starts[starts.len() - 1] < at,
            cuts_text(s, offsets@),
        ensures
            frame_starts(lines, 0, Seq::empty()) == starts,
            starts.len() == offsets.len(),
            forall|j: int|
                0 <= j < starts.len() ==> 0 <= #[trigger] starts[j] < lines.len() && offsets[j]
                    == advance(s, 0, starts[j] as nat),
            forall|j: int|
                0 <= j < starts.len() - 1 ==> #[trigger] starts[j] < starts[j + 1],
            cuts_text(s, offsets@),
        decreases lines.len() - at, if done { 0int } else { 1int },
    {
        if done {
            break ;
        }
        let pos = scanner.position();
        let ghost here = scanner.remaining();
        let ghost old_offsets = offsets@;
        proof {
            lemma_skip_of_used(here);
            lemma_advance_lines(s, 0, at as nat);
            if starts.len() > 0 {
                lemma_advance_lines(s, 0, starts[starts.len() - 1] as nat);
                lemma_advance_monotone(s, starts[starts.len() - 1] as nat, at as nat);
            }
        }
        match scanner.forward() {
            None => {
                proof {
                    assert(lines.skip(at).len() == lines.len() - at);
                }
                done = true;
            },
            Some(res) => {
                offsets.push(pos);
                proof {
                    assert(lines.skip(at).len() == lines.len() - at);
                    let used = skip_of(here).used;
                    assert(lines.skip(at).skip(used) =~= lines.skip(at + used));
                    lemma_advance_add(s, 0, at as nat, used as nat);
                    starts = starts.push(at);
                    assert forall|j: int| 0 <= j < offsets@.len() implies {
                        &&& #[trigger] offsets@[j] <= s.len()
                        &&& is_char_boundary(s, offsets@[j] as int)
                        &&& j + 1 < offsets@.len() ==> offsets@[j] <= offsets@[j + 1]
                    } by {
                        if j < old_offsets.len() {
                            assert(offsets@[j] == old_offsets[j]);
                            if j + 1 < old_offsets.len() {
                                assert(offsets@[j + 1] == old_offsets[j + 1]);
                            }
                        }
                    }
                    if res.is_ok() {
                        at = at + used;
                    }
                }
                if res.is_err() {
                    done = true;
                }
            },
        }
    }
    let r = decode_parts(file_contents, &offsets);
    proof {
        assert forall|i: int| 0 <= i < r.len() implies outcome_is(
            #[trigger] r[i],
            lone_frame_of(frame_lines(lines, starts, i)),
        ) by {
            let a = starts[i];
            let b = if i + 1 < starts.len() {
                starts[i + 1]
            } else {
                lines.len() as int
            };
            let p = offsets@[i] as int;
            lemma_advance_lines(s, 0, a as nat);
            lemma_advance_add(s, 0, a as nat, (b - a) as nat);
            if i + 1 < starts.len() {
                assert(offsets@[i + 1] == advance(s, 0, b as nat));
            } else {
                lemma_advance_end(s, 0);
            }
            let q = advance(s, 0, b as nat);
            lemma_advance_lines(s, 0, b as nat);
            assert(lines.skip(a).len() == lines.len() - a);
            lemma_lines_window(s, p, q, p, (b - a) as nat);
            assert(lines.skip(a).take(b - a) =~= lines.subrange(a, b));
            assert(part(s, offsets@, i) == s.subrange(p, q));
        }
    }
    r
}

/// Further on in the lines lies further on in the text.
pub proof fn lemma_advance_monotone(s: Seq<u8>, a: nat, b: nat)
    requires
        a <= b <= lines_of(s).len(),
    ensures
        advance(s, 0, a) <= advance(s, 0, b),
{
    lemma_advance_lines(s, 0, a);
    lemma_advance_add(s, 0, a, (b - a) as nat);
    assert(lines_of(s).skip(a as int).len() == lines_of(s).len() - a);
    lemma_advance_lines(s, advance(s, 0, a), (b - a) as nat);
}

} // verus!
