//! What holds of reading, passing over and writing frames, whatever the text.

use crate::error::ErrorView;
use crate::iterators::{
    block_lines, frame_lines, frame_of, frame_starts, frames_from, frames_of, lemma_frame_of_used,
    lemma_total_atoms_nonnegative, lone_frame_of, skip_of, total_atoms,
};
use crate::number::{is_number, LineValue, Number};
use crate::parser::{
    atom_of, atoms_of, blocks_of, coordinates_of, header_of, lemma_atoms_of_used,
    lemma_blocks_of_used, lemma_coordinates_of_used, lemma_first_unread, lemma_header_of_used,
    lemma_velocity_atoms_of, lemma_velocity_blocks_of, lemma_velocity_section_of, line_values,
    set_velocity, velocity_atoms_of, velocity_blocks_of, velocity_section_of,
};
use crate::text::{is_blank, tokens, trimmed};
use crate::types::{AtomView, FrameView};
use vstd::prelude::*;

verus! {

/// The sum of the counts is the first count and the sum of the others.
pub proof fn lemma_total_atoms_front(counts: Seq<usize>)
    requires
        counts.len() > 0,
    ensures
        total_atoms(counts) == counts[0] + total_atoms(counts.drop_first()),
    decreases counts.len(),
{
    if counts.len() == 1 {
        assert(counts.drop_last() =~= Seq::<usize>::empty());
        assert(counts.drop_first() =~= Seq::<usize>::empty());
    } else {
        lemma_total_atoms_front(counts.drop_last());
        assert(counts.drop_last().drop_first() =~= counts.drop_first().drop_last());
    }
}

/// Coordinate blocks that can be read take one line for each atom and two for each type,
/// and give one atom for each count.
pub proof fn lemma_blocks_of_ok(
    lines: Seq<Seq<u8>>,
    at: int,
    counts: Seq<usize>,
    acc: Seq<AtomView>,
)
    requires
        0 <= at <= lines.len(),
        blocks_of(lines, at, counts, acc).result is Ok,
    ensures
        blocks_of(lines, at, counts, acc).used == at + block_lines(counts),
        blocks_of(lines, at, counts, acc).used <= lines.len(),
        blocks_of(lines, at, counts, acc).result->Ok_0.len() == acc.len() + total_atoms(counts),
    decreases counts.len(),
{
    if counts.len() > 0 {
        let block = atoms_of(lines, at + 2, trimmed(lines[at]), counts[0] as nat, acc);
        lemma_atoms_of_used(lines, at + 2, trimmed(lines[at]), counts[0] as nat, acc);
        lemma_blocks_of_ok(lines, block.used, counts.drop_first(), block.result->Ok_0);
        lemma_total_atoms_front(counts);
    }
}

/// Velocity blocks that can be read take one line for each atom and two for each type.
pub proof fn lemma_velocity_blocks_of_ok(
    lines: Seq<Seq<u8>>,
    at: int,
    counts: Seq<usize>,
    atoms: Seq<AtomView>,
    idx: int,
)
    requires
        0 <= at <= lines.len(),
        velocity_blocks_of(lines, at, counts, atoms, idx).result is Ok,
    ensures
        velocity_blocks_of(lines, at, counts, atoms, idx).used == at + block_lines(counts),
        velocity_blocks_of(lines, at, counts, atoms, idx).used <= lines.len(),
    decreases counts.len(),
{
    if counts.len() > 0 {
        let block = velocity_atoms_of(lines, at + 2, counts[0] as nat, atoms, idx);
        lemma_velocity_atoms_of(lines, at + 2, counts[0] as nat, atoms, idx);
        lemma_velocity_blocks_of_ok(
            lines,
            block.used,
            counts.drop_first(),
            block.atoms,
            idx + counts[0],
        );
        lemma_total_atoms_front(counts);
    }
}

/// Passing over a frame that can be read succeeds and takes the lines that reading it
/// takes.
pub proof fn lemma_skip_follows_frame(lines: Seq<Seq<u8>>)
    requires
        frame_of(lines).result is Ok,
    ensures
        skip_of(lines).result is Ok,
        skip_of(lines).used == frame_of(lines).used,
{
    lemma_header_of_used(lines);
    let header = header_of(lines).result->Ok_0;
    let counts = header.natms_per_type;
    let body = blocks_of(lines, 9, counts, Seq::empty());
    lemma_blocks_of_ok(lines, 9, counts, Seq::empty());
    let n = block_lines(counts);
    let rest = lines.skip(body.used);
    let atoms = body.result->Ok_0;
    assert(coordinates_of(lines).used == 9 + n);
    if rest.len() > 0 {
        assert(rest[0] == lines[9 + n]);
    }
    if rest.len() > 0 && is_blank(rest[0]) {
        lemma_velocity_blocks_of_ok(rest, 1, counts, atoms, 0);
    }
}

/// The lines that are left when `k` frames have been read.
pub open spec fn after_frames(lines: Seq<Seq<u8>>, k: nat) -> Seq<Seq<u8>>
    decreases k,
{
    if k == 0 {
        lines
    } else {
        let rest = after_frames(lines, (k - 1) as nat);
        rest.skip(frame_of(rest).used)
    }
}

/// The lines that are left when `k` frames have been passed over.
pub open spec fn after_skips(lines: Seq<Seq<u8>>, k: nat) -> Seq<Seq<u8>>
    decreases k,
{
    if k == 0 {
        lines
    } else {
        let rest = after_skips(lines, (k - 1) as nat);
        rest.skip(skip_of(rest).used)
    }
}

/// True when each of the first `k` frames of the lines can be read.
pub open spec fn frames_readable(lines: Seq<Seq<u8>>, k: nat) -> bool
    decreases k,
{
    k > 0 ==> frames_readable(lines, (k - 1) as nat) && after_frames(
        lines,
        (k - 1) as nat,
    ).len() > 0 && frame_of(after_frames(lines, (k - 1) as nat)).result is Ok
}

/// Passing over `k` frames and then reading one gives what reading `k + 1` frames gives
/// last, where each of these frames can be read: every one of the `k` frames is passed
/// over without an error, and the same lines are left behind it.
pub proof fn lemma_skip_then_read(lines: Seq<Seq<u8>>, k: nat)
    requires
        frames_readable(lines, k + 1),
    ensures
        after_skips(lines, k) == after_frames(lines, k),
        frame_of(after_skips(lines, k)) == frame_of(after_frames(lines, k)),
        forall|j: nat|
            j < k ==> after_skips(lines, j).len() > 0 && skip_of(
                #[trigger] after_skips(lines, j),
            ).result is Ok,
    decreases k,
{
    if k > 0 {
        lemma_skip_then_read(lines, (k - 1) as nat);
        let rest = after_frames(lines, (k - 1) as nat);
        lemma_skip_follows_frame(rest);
        assert forall|j: nat| j < k implies after_skips(lines, j).len() > 0 && skip_of(
            #[trigger] after_skips(lines, j),
        ).result is Ok by {
            if j == k - 1 {
            }
        }
    }
}

/// True when the atom has no component of a velocity.
pub open spec fn no_velocity(a: AtomView) -> bool {
    a.vx is None && a.vy is None && a.vz is None
}

/// The atoms of a coordinate block have no velocity.
pub proof fn lemma_atoms_of_plain(
    lines: Seq<Seq<u8>>,
    at: int,
    symbol: Seq<u8>,
    n: nat,
    acc: Seq<AtomView>,
)
    requires
        0 <= at <= lines.len(),
        atoms_of(lines, at, symbol, n, acc).result is Ok,
        forall|j: int| 0 <= j < acc.len() ==> no_velocity(#[trigger] acc[j]),
    ensures
        forall|j: int|
            0 <= j < atoms_of(lines, at, symbol, n, acc).result->Ok_0.len() ==> no_velocity(
                #[trigger] atoms_of(lines, at, symbol, n, acc).result->Ok_0[j],
            ),
    decreases n,
{
    if n > 0 {
        let v = line_values::<Number>(lines[at], 5)->Ok_0;
        let next = acc.push(atom_of(symbol, v));
        assert forall|j: int| 0 <= j < next.len() implies no_velocity(#[trigger] next[j]) by {
            if j < acc.len() {
                assert(next[j] == acc[j]);
            }
        }
        lemma_atoms_of_plain(lines, at + 1, symbol, (n - 1) as nat, next);
    }
}

/// The atoms of coordinate blocks have no velocity.
pub proof fn lemma_blocks_of_plain(
    lines: Seq<Seq<u8>>,
    at: int,
    counts: Seq<usize>,
    acc: Seq<AtomView>,
)
    requires
        0 <= at <= lines.len(),
        blocks_of(lines, at, counts, acc).result is Ok,
        forall|j: int| 0 <= j < acc.len() ==> no_velocity(#[trigger] acc[j]),
    ensures
        forall|j: int|
            0 <= j < blocks_of(lines, at, counts, acc).result->Ok_0.len() ==> no_velocity(
                #[trigger] blocks_of(lines, at, counts, acc).result->Ok_0[j],
            ),
    decreases counts.len(),
{
    if counts.len() > 0 {
        let block = atoms_of(lines, at + 2, trimmed(lines[at]), counts[0] as nat, acc);
        lemma_atoms_of_used(lines, at + 2, trimmed(lines[at]), counts[0] as nat, acc);
        lemma_atoms_of_plain(lines, at + 2, trimmed(lines[at]), counts[0] as nat, acc);
        lemma_blocks_of_plain(lines, block.used, counts.drop_first(), block.result->Ok_0);
    }
}

/// The velocity lines of a block that can be read give each atom from `idx` on its
/// velocity, as far as the lines and the atoms go, and leave the others as they are.
pub proof fn lemma_velocity_atoms_of_ok(
    lines: Seq<Seq<u8>>,
    at: int,
    n: nat,
    atoms: Seq<AtomView>,
    idx: int,
)
    requires
        0 <= at <= lines.len(),
        0 <= idx,
        velocity_atoms_of(lines, at, n, atoms, idx).result is Ok,
    ensures
        velocity_atoms_of(lines, at, n, atoms, idx).atoms.len() == atoms.len(),
        forall|j: int|
            0 <= j < atoms.len() ==> (if idx <= j < idx + n {
                (#[trigger] velocity_atoms_of(lines, at, n, atoms, idx).atoms[j]).has_velocity()
            } else {
                velocity_atoms_of(lines, at, n, atoms, idx).atoms[j] == atoms[j]
            }),
    decreases n,
{
    if n > 0 {
        let v = line_values::<Number>(lines[at], 5)->Ok_0;
        let next = set_velocity(atoms, idx, v);
        lemma_velocity_atoms_of_ok(lines, at + 1, (n - 1) as nat, next, idx + 1);
    }
}

/// The velocity blocks that can be read give each atom from `idx` on its velocity, as far
/// as the counts and the atoms go, and leave the others as they are.
pub proof fn lemma_velocity_blocks_of_set(
    lines: Seq<Seq<u8>>,
    at: int,
    counts: Seq<usize>,
    atoms: Seq<AtomView>,
    idx: int,
)
    requires
        0 <= at <= lines.len(),
        0 <= idx,
        velocity_blocks_of(lines, at, counts, atoms, idx).result is Ok,
    ensures
        velocity_blocks_of(lines, at, counts, atoms, idx).atoms.len() == atoms.len(),
        forall|j: int|
            0 <= j < atoms.len() ==> (if idx <= j < idx + total_atoms(counts) {
                (#[trigger] velocity_blocks_of(lines, at, counts, atoms, idx).atoms[j]).has_velocity()
            } else {
                velocity_blocks_of(lines, at, counts, atoms, idx).atoms[j] == atoms[j]
            }),
    decreases counts.len(),
{
    if counts.len() > 0 {
        let block = velocity_atoms_of(lines, at + 2, counts[0] as nat, atoms, idx);
        lemma_velocity_atoms_of(lines, at + 2, counts[0] as nat, atoms, idx);
        lemma_velocity_atoms_of_ok(lines, at + 2, counts[0] as nat, atoms, idx);
        lemma_velocity_blocks_of_set(
            lines,
            block.used,
            counts.drop_first(),
            block.atoms,
            idx + counts[0],
        );
        lemma_total_atoms_front(counts);
        lemma_total_atoms_nonnegative(counts.drop_first());
        let last = velocity_blocks_of(lines, at, counts, atoms, idx).atoms;
        assert forall|j: int| 0 <= j < atoms.len() implies (if idx <= j < idx + total_atoms(
            counts,
        ) {
            (#[trigger] last[j]).has_velocity()
        } else {
            last[j] == atoms[j]
        }) by {
            if idx <= j < idx + counts[0] {
                assert(block.atoms[j].has_velocity());
            }
        }
    } else {
        assert(total_atoms(counts) == 0);
    }
}

/// True when a velocity section follows the coordinate blocks of the frame that the lines
/// begin with: when the line behind them is blank.
pub open spec fn has_velocity_section(lines: Seq<Seq<u8>>) -> bool {
    let used = coordinates_of(lines).used;
    0 <= used < lines.len() && is_blank(lines[used])
}

/// A frame that was read is of one kind. Its header names as many counts and masses as
/// types, and it has one atom for each count. Where a velocity section followed the
/// coordinate blocks, every atom has all three components of its velocity; where none
/// followed, no atom has any.
pub proof fn lemma_frame_read_is_uniform(lines: Seq<Seq<u8>>)
    requires
        frame_of(lines).result is Ok,
    ensures
        ({
            let f = frame_of(lines).result->Ok_0;
            &&& f.header.natms_per_type.len() == f.header.natm_types
            &&& f.header.masses_per_type.len() == f.header.natm_types
            &&& f.atom_data.len() == total_atoms(f.header.natms_per_type)
            &&& forall|j: int|
                0 <= j < f.atom_data.len() ==> (if has_velocity_section(lines) {
                    (#[trigger] f.atom_data[j]).has_velocity()
                } else {
                    no_velocity(f.atom_data[j])
                })
            &&& f.has_velocities() == (has_velocity_section(lines) && f.atom_data.len() > 0)
        }),
{
    lemma_header_of_used(lines);
    let header = header_of(lines).result->Ok_0;
    let counts = header.natms_per_type;
    let body = blocks_of(lines, 9, counts, Seq::empty());
    lemma_blocks_of_ok(lines, 9, counts, Seq::empty());
    lemma_blocks_of_plain(lines, 9, counts, Seq::empty());
    let rest = lines.skip(body.used);
    let atoms = body.result->Ok_0;
    if rest.len() > 0 {
        assert(rest[0] == lines[body.used]);
    }
    if has_velocity_section(lines) {
        lemma_velocity_blocks_of_set(rest, 1, counts, atoms, 0);
    }
}

/// The two runs of lines have the same first `u` lines.
pub open spec fn agree(a: Seq<Seq<u8>>, b: Seq<Seq<u8>>, u: int) -> bool {
    &&& u <= a.len()
    &&& u <= b.len()
    &&& forall|j: int| 0 <= j < u ==> #[trigger] a[j] == b[j]
}

/// The atoms of a block that can be read depend on the lines of the block alone.
pub proof fn lemma_atoms_of_agree(
    lines: Seq<Seq<u8>>,
    other: Seq<Seq<u8>>,
    at: int,
    symbol: Seq<u8>,
    n: nat,
    acc: Seq<AtomView>,
)
    requires
        0 <= at <= lines.len(),
        atoms_of(lines, at, symbol, n, acc).result is Ok,
        agree(lines, other, atoms_of(lines, at, symbol, n, acc).used),
    ensures
        atoms_of(other, at, symbol, n, acc) == atoms_of(lines, at, symbol, n, acc),
    decreases n,
{
    lemma_atoms_of_used(lines, at, symbol, n, acc);
    if n > 0 {
        let v = line_values::<Number>(lines[at], 5)->Ok_0;
        assert(other[at] == lines[at]);
        lemma_atoms_of_agree(
            lines,
            other,
            at + 1,
            symbol,
            (n - 1) as nat,
            acc.push(atom_of(symbol, v)),
        );
    }
}

/// Coordinate blocks that can be read depend on their own lines alone.
pub proof fn lemma_blocks_of_agree(
    lines: Seq<Seq<u8>>,
    other: Seq<Seq<u8>>,
    at: int,
    counts: Seq<usize>,
    acc: Seq<AtomView>,
)
    requires
        0 <= at <= lines.len(),
        blocks_of(lines, at, counts, acc).result is Ok,
        agree(lines, other, blocks_of(lines, at, counts, acc).used),
    ensures
        blocks_of(other, at, counts, acc) == blocks_of(lines, at, counts, acc),
    decreases counts.len(),
{
    if counts.len() > 0 {
        let block = atoms_of(lines, at + 2, trimmed(lines[at]), counts[0] as nat, acc);
        lemma_atoms_of_used(lines, at + 2, trimmed(lines[at]), counts[0] as nat, acc);
        lemma_blocks_of_used(lines, block.used, counts.drop_first(), block.result->Ok_0);
        assert(other[at] == lines[at]);
        lemma_atoms_of_agree(lines, other, at + 2, trimmed(lines[at]), counts[0] as nat, acc);
        lemma_blocks_of_agree(lines, other, block.used, counts.drop_first(), block.result->Ok_0);
    }
}

/// The velocities of a block that can be read depend on the lines of the block alone.
pub proof fn lemma_velocity_atoms_of_agree(
    lines: Seq<Seq<u8>>,
    other: Seq<Seq<u8>>,
    at: int,
    n: nat,
    atoms: Seq<AtomView>,
    idx: int,
)
    requires
        0 <= at <= lines.len(),
        velocity_atoms_of(lines, at, n, atoms, idx).result is Ok,
        agree(lines, other, velocity_atoms_of(lines, at, n, atoms, idx).used),
    ensures
        velocity_atoms_of(other, at, n, atoms, idx) == velocity_atoms_of(
            lines,
            at,
            n,
            atoms,
            idx,
        ),
    decreases n,
{
    lemma_velocity_atoms_of(lines, at, n, atoms, idx);
    if n > 0 {
        let v = line_values::<Number>(lines[at], 5)->Ok_0;
        assert(other[at] == lines[at]);
        lemma_velocity_atoms_of_agree(
            lines,
            other,
            at + 1,
            (n - 1) as nat,
            set_velocity(atoms, idx, v),
            idx + 1,
        );
    }
}

/// Velocity blocks that can be read depend on their own lines alone.
pub proof fn lemma_velocity_blocks_of_agree(
    lines: Seq<Seq<u8>>,
    other: Seq<Seq<u8>>,
    at: int,
    counts: Seq<usize>,
    atoms: Seq<AtomView>,
    idx: int,
)
    requires
        0 <= at <= lines.len(),
        velocity_blocks_of(lines, at, counts, atoms, idx).result is Ok,
        agree(lines, other, velocity_blocks_of(lines, at, counts, atoms, idx).used),
    ensures
        velocity_blocks_of(other, at, counts, atoms, idx) == velocity_blocks_of(
            lines,
            at,
            counts,
            atoms,
            idx,
        ),
    decreases counts.len(),
{
    if counts.len() > 0 {
        let block = velocity_atoms_of(lines, at + 2, counts[0] as nat, atoms, idx);
        lemma_velocity_atoms_of(lines, at + 2, counts[0] as nat, atoms, idx);
        lemma_velocity_blocks_of(
            lines,
            block.used,
            counts.drop_first(),
            block.atoms,
            idx + counts[0],
        );
        assert(other[at + 1] == lines[at + 1]);
        lemma_velocity_atoms_of_agree(lines, other, at + 2, counts[0] as nat, atoms, idx);
        lemma_velocity_blocks_of_agree(
            lines,
            other,
            block.used,
            counts.drop_first(),
            block.atoms,
            idx + counts[0],
        );
    }
}

/// Header and coordinate blocks that can be read depend on their own lines alone.
pub proof fn lemma_coordinates_of_agree(lines: Seq<Seq<u8>>, other: Seq<Seq<u8>>)
    requires
        coordinates_of(lines).result is Ok,
        agree(lines, other, coordinates_of(lines).used),
    ensures
        coordinates_of(other) == coordinates_of(lines),
{
    lemma_header_of_used(lines);
    lemma_coordinates_of_used(lines);
    let header = header_of(lines).result->Ok_0;
    assert forall|j: int| 0 <= j < 9 implies other[j] == lines[j] by {}
    assert(header_of(other) == header_of(lines));
    lemma_blocks_of_agree(lines, other, 9, header.natms_per_type, Seq::empty());
}

/// A frame that can be read depends on its own lines and on whether a blank line follows
/// them: other lines with the same start give the same frame, where the frame has a
/// velocity section or no blank line follows its lines there either.
pub proof fn lemma_frame_of_agree(lines: Seq<Seq<u8>>, other: Seq<Seq<u8>>)
    requires
        frame_of(lines).result is Ok,
        agree(lines, other, frame_of(lines).used),
        has_velocity_section(lines) || !has_velocity_section(other),
    ensures
        frame_of(other) == frame_of(lines),
{
    lemma_frame_of_used(lines);
    lemma_coordinates_of_used(lines);
    let body = coordinates_of(lines);
    let f = body.result->Ok_0;
    let counts = f.header.natms_per_type;
    let rest = lines.skip(body.used);
    let other_rest = other.skip(body.used);
    let v = velocity_section_of(rest, 0, counts, f.atom_data);
    lemma_velocity_section_of(rest, 0, counts, f.atom_data);
    lemma_coordinates_of_agree(lines, other);
    if has_velocity_section(lines) {
        assert(rest[0] == lines[body.used]);
        lemma_velocity_blocks_of(rest, 1, counts, f.atom_data, 0);
        assert(v.used >= 1);
        assert(other_rest[0] == other[body.used]);
        assert(agree(rest, other_rest, v.used)) by {
            assert forall|j: int| 0 <= j < v.used implies #[trigger] rest[j] == other_rest[j] by {
                assert(rest[j] == lines[body.used + j]);
                assert(other_rest[j] == other[body.used + j]);
            }
        }
        lemma_velocity_blocks_of_agree(rest, other_rest, 1, counts, f.atom_data, 0);
    } else {
        if rest.len() > 0 {
            assert(rest[0] == lines[body.used]);
        }
        if other_rest.len() > 0 {
            assert(other_rest[0] == other[body.used]);
        }
    }
}

/// A frame that can be read is read from its own lines alone: the lines that reading it
/// takes give the same frame when nothing follows them.
pub proof fn lemma_frame_of_local(lines: Seq<Seq<u8>>)
    requires
        frame_of(lines).result is Ok,
    ensures
        frame_of(lines.take(frame_of(lines).used)) == frame_of(lines),
{
    lemma_frame_of_used(lines);
    lemma_coordinates_of_used(lines);
    let own = lines.take(frame_of(lines).used);
    let body = coordinates_of(lines);
    let f = body.result->Ok_0;
    lemma_velocity_section_of(lines.skip(body.used), 0, f.header.natms_per_type, f.atom_data);
    lemma_coordinates_of_agree(lines, own);
    lemma_frame_of_agree(lines, own);
}

/// The end of the lines of frame `i`, where the frames begin at `starts` and the last of
/// them ends at `end`.
pub open spec fn frame_end(starts: Seq<int>, i: int, end: int) -> int {
    if i + 1 < starts.len() {
        starts[i + 1]
    } else {
        end
    }
}

/// Each of the frames, read from the lines between its start and the next, is as given.
pub open spec fn frames_stand_alone(
    lines: Seq<Seq<u8>>,
    starts: Seq<int>,
    frames: Seq<FrameView>,
    end: int,
) -> bool {
    &&& starts.len() == frames.len()
    &&& forall|i: int|
        0 <= i < starts.len() ==> lone_frame_of(
            lines.subrange(#[trigger] starts[i], frame_end(starts, i, end)),
        ) == Ok::<FrameView, ErrorView>(frames[i])
}

/// One more frame stands alone behind those that do.
pub proof fn lemma_stand_alone_push(
    lines: Seq<Seq<u8>>,
    starts: Seq<int>,
    frames: Seq<FrameView>,
    at: int,
    next: int,
    f: FrameView,
)
    requires
        frames_stand_alone(lines, starts, frames, at),
        lone_frame_of(lines.subrange(at, next)) == Ok::<FrameView, ErrorView>(f),
    ensures
        frames_stand_alone(lines, starts.push(at), frames.push(f), next),
{
    let new_starts = starts.push(at);
    let new_frames = frames.push(f);
    assert forall|i: int| 0 <= i < new_starts.len() implies lone_frame_of(
        lines.subrange(#[trigger] new_starts[i], frame_end(new_starts, i, next)),
    ) == Ok::<FrameView, ErrorView>(new_frames[i]) by {
        if i < starts.len() {
            assert(new_starts[i] == starts[i]);
            assert(new_frames[i] == frames[i]);
            assert(frame_end(new_starts, i, next) == frame_end(starts, i, at));
        } else {
            assert(new_starts[i] == at);
            assert(frame_end(new_starts, i, next) == next);
        }
    }
}

/// The frame that the lines from `at` on begin with, read from its own lines.
pub proof fn lemma_frame_stands_alone(lines: Seq<Seq<u8>>, at: int)
    requires
        0 <= at < lines.len(),
        frame_of(lines.skip(at)).result is Ok,
    ensures
        0 < frame_of(lines.skip(at)).used <= lines.len() - at,
        lone_frame_of(lines.subrange(at, at + frame_of(lines.skip(at)).used)) == frame_of(
            lines.skip(at),
        ).result,
        skip_of(lines.skip(at)).result is Ok,
        skip_of(lines.skip(at)).used == frame_of(lines.skip(at)).used,
        lines.skip(at).skip(frame_of(lines.skip(at)).used) == lines.skip(
            at + frame_of(lines.skip(at)).used,
        ),
{
    let rest = lines.skip(at);
    let first = frame_of(rest);
    lemma_frame_of_used(rest);
    lemma_skip_follows_frame(rest);
    lemma_frame_of_local(rest);
    assert(rest.skip(first.used) =~= lines.skip(at + first.used));
    assert(rest.take(first.used) =~= lines.subrange(at, at + first.used));
}

/// Where every frame from line `at` on can be read, the starts that passing over them finds
/// are the starts of these frames, and each frame read from its own lines is the frame
/// that reading one after the other gives.
pub proof fn lemma_starts_follow_frames(
    lines: Seq<Seq<u8>>,
    at: int,
    frames: Seq<FrameView>,
    starts: Seq<int>,
)
    requires
        0 <= at <= lines.len(),
        frames_from(lines.skip(at), frames) is Ok,
        frames_stand_alone(lines, starts, frames, at),
    ensures
        frames_stand_alone(
            lines,
            frame_starts(lines, at, starts),
            frames_from(lines.skip(at), frames)->Ok_0,
            lines.len() as int,
        ),
    decreases lines.len() - at,
{
    let rest = lines.skip(at);
    if at < lines.len() {
        let used = frame_of(rest).used;
        let f = frame_of(rest).result->Ok_0;
        assert(frame_of(rest).result is Ok);
        lemma_frame_stands_alone(lines, at);
        lemma_stand_alone_push(lines, starts, frames, at, at + used, f);
        assert(frames_from(rest, frames) == frames_from(lines.skip(at + used), frames.push(f)));
        assert(frame_starts(lines, at, starts) == frame_starts(
            lines,
            at + used,
            starts.push(at),
        ));
        lemma_starts_follow_frames(lines, at + used, frames.push(f), starts.push(at));
    } else {
        assert(rest.len() == 0);
    }
}

/// Reading the frames of a text side by side gives what reading them one after the other
/// gives, in the same order, where every frame can be read.
pub proof fn lemma_parallel_is_sequential(lines: Seq<Seq<u8>>)
    requires
        frames_of(lines) is Ok,
    ensures
        ({
            let frames = frames_of(lines)->Ok_0;
            let starts = frame_starts(lines, 0, Seq::empty());
            &&& starts.len() == frames.len()
            &&& forall|i: int|
                0 <= i < starts.len() ==> #[trigger] lone_frame_of(frame_lines(lines, starts, i))
                    == Ok::<FrameView, ErrorView>(frames[i])
        }),
{
    assert(lines.skip(0) =~= lines);
    lemma_starts_follow_frames(lines, 0, Seq::empty(), Seq::empty());
    let frames = frames_of(lines)->Ok_0;
    let starts = frame_starts(lines, 0, Seq::empty());
    assert forall|i: int| 0 <= i < starts.len() implies #[trigger] lone_frame_of(
        frame_lines(lines, starts, i),
    ) == Ok::<FrameView, ErrorView>(frames[i]) by {
        assert(frame_lines(lines, starts, i) == lines.subrange(
            starts[i],
            frame_end(starts, i, lines.len() as int),
        ));
    }
}

/// The atom lines of a block that can be read, cut short, end too early.
pub proof fn lemma_atoms_of_cut(
    lines: Seq<Seq<u8>>,
    cut: int,
    at: int,
    symbol: Seq<u8>,
    n: nat,
    acc: Seq<AtomView>,
)
    requires
        0 <= at <= cut < at + n <= lines.len(),
        atoms_of(lines, at, symbol, n, acc).result is Ok,
    ensures
        atoms_of(lines.take(cut), at, symbol, n, acc).result == Err::<Seq<AtomView>, ErrorView>(
            ErrorView::IncompleteFrame,
        ),
    decreases n,
{
    if at < cut {
        let v = line_values::<Number>(lines[at], 5)->Ok_0;
        assert(lines.take(cut)[at] == lines[at]);
        lemma_atoms_of_cut(
            lines,
            cut,
            at + 1,
            symbol,
            (n - 1) as nat,
            acc.push(atom_of(symbol, v)),
        );
    }
}

/// Coordinate blocks that can be read, cut short, end too early.
pub proof fn lemma_blocks_of_cut(
    lines: Seq<Seq<u8>>,
    cut: int,
    at: int,
    counts: Seq<usize>,
    acc: Seq<AtomView>,
)
    requires
        0 <= at <= cut <= lines.len(),
        blocks_of(lines, at, counts, acc).result is Ok,
        cut < blocks_of(lines, at, counts, acc).used,
    ensures
        blocks_of(lines.take(cut), at, counts, acc).result == Err::<Seq<AtomView>, ErrorView>(
            ErrorView::IncompleteFrame,
        ),
    decreases counts.len(),
{
    if counts.len() > 0 {
        let block = atoms_of(lines, at + 2, trimmed(lines[at]), counts[0] as nat, acc);
        lemma_atoms_of_used(lines, at + 2, trimmed(lines[at]), counts[0] as nat, acc);
        lemma_blocks_of_used(lines, block.used, counts.drop_first(), block.result->Ok_0);
        if cut >= at + 2 {
            assert(lines.take(cut)[at] == lines[at]);
            if cut < block.used {
                lemma_atoms_of_cut(lines, cut, at + 2, trimmed(lines[at]), counts[0] as nat, acc);
            } else {
                lemma_atoms_of_agree(
                    lines,
                    lines.take(cut),
                    at + 2,
                    trimmed(lines[at]),
                    counts[0] as nat,
                    acc,
                );
                lemma_blocks_of_cut(
                    lines,
                    cut,
                    block.used,
                    counts.drop_first(),
                    block.result->Ok_0,
                );
            }
        }
    }
}

/// A frame whose coordinate blocks are cut short is not read: where the header and the
/// coordinate blocks of a frame can be read, and the lines end behind the header but in
/// front of the end of the blocks, reading gives `IncompleteFrame`. So it is when the last
/// line of the coordinate blocks is taken away.
pub proof fn lemma_cut_frame_is_incomplete(lines: Seq<Seq<u8>>, cut: int)
    requires
        coordinates_of(lines).result is Ok,
        9 <= cut < coordinates_of(lines).used,
    ensures
        coordinates_of(lines.take(cut)).result == Err::<FrameView, ErrorView>(
            ErrorView::IncompleteFrame,
        ),
        frame_of(lines.take(cut)).result == Err::<FrameView, ErrorView>(
            ErrorView::IncompleteFrame,
        ),
{
    lemma_header_of_used(lines);
    lemma_coordinates_of_used(lines);
    let own = lines.take(cut);
    let header = header_of(lines).result->Ok_0;
    assert forall|j: int| 0 <= j < 9 implies own[j] == lines[j] by {}
    assert(header_of(own) == header_of(lines));
    lemma_blocks_of_cut(lines, cut, 9, header.natms_per_type, Seq::empty());
}

/// A line of numbers that holds another number of them than it should is refused for
/// their number, which is reported, and for nothing else.
pub proof fn lemma_wrong_count_is_reported(line: Seq<u8>, n: usize)
    requires
        forall|i: int| 0 <= i < tokens(line).len() ==> is_number(#[trigger] tokens(line)[i]),
        tokens(line).len() != n,
    ensures
        line_values::<Number>(line, n) == Err::<Seq<Seq<u8>>, ErrorView>(
            ErrorView::InvalidVectorLength { expected: n, found: tokens(line).len() as usize },
        ),
{
    let toks = tokens(line);
    assert forall|j: int| 0 <= j < toks.len() implies <Number as LineValue>::read(
        #[trigger] toks[j],
    ) is Ok by {
        assert(is_number(toks[j]));
    }
    lemma_first_unread::<Number>(toks, 0, toks.len() as int);
}

} // verus!
