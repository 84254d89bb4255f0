//! Writing frames as text.
//!
//! Every number of a frame is written as it is kept, every count and identifier in decimal
//! digits, and the flag that holds an atom in place as `1` or `0`.

use crate::iterators::frames_view;
use crate::number::{decimal_text, push_decimal, Number};
use crate::text::str_bytes;
use crate::types::{
    numbers_view, optional_view, AtomDatum, AtomView, ConFrame, FrameView, HeaderView,
};
use vstd::prelude::*;
use vstd::string::StringSliceAdditionalSpecFns;

verus! {

/// A line: its content and a line feed.
pub open spec fn line(content: Seq<u8>) -> Seq<u8> {
    content.push(0x0A)
}

/// The items with one space between each two of them.
pub open spec fn joined(items: Seq<Seq<u8>>) -> Seq<u8>
    decreases items.len(),
{
    if items.len() == 0 {
        Seq::empty()
    } else if items.len() == 1 {
        items[0]
    } else {
        joined(items.drop_last()) + seq![0x20u8] + items.last()
    }
}

/// The decimal text of each count.
pub open spec fn count_texts(counts: Seq<usize>) -> Seq<Seq<u8>> {
    Seq::new(counts.len(), |i: int| decimal_text(counts[i] as nat))
}

/// The nine lines of a header.
pub open spec fn header_text(h: HeaderView) -> Seq<u8> {
    line(h.prebox_header[0]) + line(h.prebox_header[1]) + line(joined(h.boxl)) + line(
        joined(h.angles),
    ) + line(h.postbox_header[0]) + line(h.postbox_header[1]) + line(
        decimal_text(h.natm_types as nat),
    ) + line(joined(count_texts(h.natms_per_type))) + line(joined(h.masses_per_type))
}

/// The flag that holds an atom in place, as it is written.
pub open spec fn flag_text(fixed: bool) -> Seq<u8> {
    if fixed {
        seq![0x31u8]
    } else {
        seq![0x30u8]
    }
}

/// A component of a velocity as it is written; `0` where it is absent.
pub open spec fn component_text(c: Option<Seq<u8>>) -> Seq<u8> {
    match c {
        Some(v) => v,
        None => seq![0x30u8],
    }
}

/// The five values of the line of an atom: its position, or its velocity where
/// `velocities` is set, then its flag and its identifier.
pub open spec fn atom_fields(a: AtomView, velocities: bool) -> Seq<Seq<u8>> {
    if velocities {
        seq![
            component_text(a.vx),
            component_text(a.vy),
            component_text(a.vz),
            flag_text(a.is_fixed),
            decimal_text(a.atom_id as nat),
        ]
    } else {
        seq![a.x, a.y, a.z, flag_text(a.is_fixed), decimal_text(a.atom_id as nat)]
    }
}

/// The lines of the atoms, one for each.
pub open spec fn atoms_text(atoms: Seq<AtomView>, velocities: bool) -> Seq<u8>
    decreases atoms.len(),
{
    if atoms.len() == 0 {
        Seq::empty()
    } else {
        atoms_text(atoms.drop_last(), velocities) + line(
            joined(atom_fields(atoms.last(), velocities)),
        )
    }
}

/// The words in front of the number of a block.
pub open spec fn label_text(velocities: bool) -> Seq<u8> {
    if velocities {
        str_bytes("Velocities of Component "@)
    } else {
        str_bytes("Coordinates of Component "@)
    }
}

/// `x`, or the end of the range from 0 to `len` that lies nearest to it.
pub open spec fn clip(x: int, len: int) -> int {
    if x < 0 {
        0
    } else if x > len {
        len
    } else {
        x
    }
}

/// The number of atoms in front of block `i`.
pub open spec fn block_start(counts: Seq<usize>, i: int) -> int
    decreases i,
{
    if i <= 0 {
        0
    } else {
        block_start(counts, i - 1) + counts[i - 1]
    }
}

/// The atoms of block `i`: as many as its count says, as far as there are atoms.
pub open spec fn block_atoms(counts: Seq<usize>, atoms: Seq<AtomView>, i: int) -> Seq<AtomView> {
    atoms.subrange(
        clip(block_start(counts, i), atoms.len() as int),
        clip(block_start(counts, i) + counts[i], atoms.len() as int),
    )
}

/// The symbol of block `i`: that of its first atom, or nothing where it has no atom.
pub open spec fn block_symbol(counts: Seq<usize>, atoms: Seq<AtomView>, i: int) -> Seq<u8> {
    if block_start(counts, i) < atoms.len() {
        atoms[block_start(counts, i)].symbol
    } else {
        Seq::empty()
    }
}

/// Block `i`: the line of its symbol, the line of its label with the number of the block,
/// counted from 1, and the lines of its atoms.
pub open spec fn block_text(
    counts: Seq<usize>,
    atoms: Seq<AtomView>,
    i: int,
    velocities: bool,
) -> Seq<u8> {
    line(block_symbol(counts, atoms, i)) + line(
        label_text(velocities) + decimal_text((i + 1) as nat),
    ) + atoms_text(block_atoms(counts, atoms, i), velocities)
}

/// The first `k` blocks.
pub open spec fn blocks_text(
    counts: Seq<usize>,
    atoms: Seq<AtomView>,
    k: int,
    velocities: bool,
) -> Seq<u8>
    decreases k,
{
    if k <= 0 {
        Seq::empty()
    } else {
        blocks_text(counts, atoms, k - 1, velocities) + block_text(
            counts,
            atoms,
            k - 1,
            velocities,
        )
    }
}

/// A frame as text: the header, a coordinate block for each type and, where the frame has
/// velocities, a blank line and a velocity block for each type.
pub open spec fn frame_text(f: FrameView) -> Seq<u8> {
    let counts = f.header.natms_per_type;
    header_text(f.header) + blocks_text(counts, f.atom_data, counts.len() as int, false) + (
    if f.has_velocities() {
        line(Seq::empty()) + blocks_text(counts, f.atom_data, counts.len() as int, true)
    } else {
        Seq::empty()
    })
}

/// The frames as text, one after the other.
pub open spec fn frames_text(frames: Seq<FrameView>) -> Seq<u8>
    decreases frames.len(),
{
    if frames.len() == 0 {
        Seq::empty()
    } else {
        frames_text(frames.drop_last()) + frame_text(frames.last())
    }
}

/// Appends bytes.
fn push_bytes(out: &mut Vec<u8>, b: &[u8])
    ensures
        final(out)@ == old(out)@ + b@,
{
    let ghost start = out@;
    let mut i: usize = 0;
    while i < b.len()
        invariant
            i <= b.len(),
            out@ == start + b@.subrange(0, i as int),
        decreases b.len() - i,
    {
        out.push(b[i]);
        proof {
            assert(b@.subrange(0, i + 1) =~= b@.subrange(0, i as int).push(b@[i as int]));
        }
        i = i + 1;
    }
    proof {
        assert(b@.subrange(0, b.len() as int) =~= b@);
    }
}

/// Appends a line.
fn push_line(out: &mut Vec<u8>, content: &[u8])
    ensures
        final(out)@ == old(out)@ + line(content@),
{
    push_bytes(out, content);
    out.push(0x0A);
}

/// Appends the line of three numbers.
fn push_triple_line(out: &mut Vec<u8>, v: &[Number; 3])
    ensures
        final(out)@ == old(out)@ + line(joined(numbers_view(v@))),
{
    let ghost start = out@;
    let ghost items = numbers_view(v@);
    push_bytes(out, v[0].as_bytes());
    out.push(0x20);
    push_bytes(out, v[1].as_bytes());
    out.push(0x20);
    push_bytes(out, v[2].as_bytes());
    out.push(0x0A);
    proof {
        assert(items.drop_last().drop_last() =~= seq![items[0]]);
        assert(items.drop_last().last() == items[1]);
        assert(joined(items.drop_last().drop_last()) == items[0]);
        assert(joined(items.drop_last()) == items[0] + seq![0x20u8] + items[1]);
        assert(joined(items) == items[0] + seq![0x20u8] + items[1] + seq![0x20u8] + items[2]);
        assert(out@ =~= start + line(joined(items)));
    }
}

/// Appends the line of the counts.
fn push_counts_line(out: &mut Vec<u8>, counts: &Vec<usize>)
    ensures
        final(out)@ == old(out)@ + line(joined(count_texts(counts@))),
{
    let ghost start = out@;
    let ghost items = count_texts(counts@);
    let mut i: usize = 0;
    proof {
        assert(items.take(0) =~= Seq::<Seq<u8>>::empty());
    }
    while i < counts.len()
        invariant
            i <= counts.len(),
            items == count_texts(counts@),
            out@ == start + joined(items.take(i as int)),
        decreases counts.len() - i,
    {
        let ghost before = out@;
        if i > 0 {
            out.push(0x20);
        }
        push_decimal(out, counts[i] as u64);
        proof {
            let now = items.take(i + 1);
            assert(now.drop_last() =~= items.take(i as int));
            assert(now.last() == decimal_text(counts@[i as int] as nat));
            assert(out@ =~= start + joined(now));
        }
        i = i + 1;
    }
    out.push(0x0A);
    proof {
        assert(items.take(counts.len() as int) =~= items);
        assert(out@ =~= start + line(joined(items)));
    }
}

/// Appends the line of the masses.
fn push_numbers_line(out: &mut Vec<u8>, numbers: &Vec<Number>)
    ensures
        final(out)@ == old(out)@ + line(joined(numbers_view(numbers@))),
{
    let ghost start = out@;
    let ghost items = numbers_view(numbers@);
    let mut i: usize = 0;
    proof {
        assert(items.take(0) =~= Seq::<Seq<u8>>::empty());
    }
    while i < numbers.len()
        invariant
            i <= numbers.len(),
            items == numbers_view(numbers@),
            out@ == start + joined(items.take(i as int)),
        decreases numbers.len() - i,
    {
        if i > 0 {
            out.push(0x20);
        }
        push_bytes(out, numbers[i].as_bytes());
        proof {
            let now = items.take(i + 1);
            assert(now.drop_last() =~= items.take(i as int));
            assert(now.last() == numbers@[i as int]@);
            assert(out@ =~= start + joined(now));
        }
        i = i + 1;
    }
    out.push(0x0A);
    proof {
        assert(items.take(numbers.len() as int) =~= items);
        assert(out@ =~= start + line(joined(items)));
    }
}

/// Appends a component of a velocity.
fn push_component(out: &mut Vec<u8>, c: &Option<Number>)
    ensures
        final(out)@ == old(out)@ + component_text(optional_view(*c)),
{
    match c {
        Some(v) => push_bytes(out, v.as_bytes()),
        None => {
            out.push(0x30);
            proof {
                assert(out@ =~= old(out)@ + seq![0x30u8]);
            }
        },
    }
}

/// Appends the first three values of the line of an atom and the space behind them.
fn push_atom_front(out: &mut Vec<u8>, atom: &AtomDatum, velocities: bool)
    ensures
        final(out)@ == old(out)@ + (atom_fields(atom@, velocities)[0] + seq![0x20u8] + atom_fields(
            atom@,
            velocities,
        )[1] + seq![0x20u8] + atom_fields(atom@, velocities)[2] + seq![0x20u8]),
{
    let ghost start = out@;
    let ghost items = atom_fields(atom@, velocities);
    if velocities {
        push_component(out, &atom.vx);
        assert(out@ == start + items[0]);
        out.push(0x20);
        assert(out@ =~= start + (items[0] + seq![0x20u8]));
        push_component(out, &atom.vy);
        assert(out@ =~= start + (items[0] + seq![0x20u8] + items[1]));
        out.push(0x20);
        assert(out@ =~= start + (items[0] + seq![0x20u8] + items[1] + seq![0x20u8]));
        push_component(out, &atom.vz);
    } else {
        push_bytes(out, atom.x.as_bytes());
        assert(out@ == start + items[0]);
        out.push(0x20);
        assert(out@ =~= start + (items[0] + seq![0x20u8]));
        push_bytes(out, atom.y.as_bytes());
        assert(out@ =~= start + (items[0] + seq![0x20u8] + items[1]));
        out.push(0x20);
        assert(out@ =~= start + (items[0] + seq![0x20u8] + items[1] + seq![0x20u8]));
        push_bytes(out, atom.z.as_bytes());
    }
    assert(out@ =~= start + (items[0] + seq![0x20u8] + items[1] + seq![0x20u8] + items[2]));
    out.push(0x20);
    assert(out@ =~= start + (items[0] + seq![0x20u8] + items[1] + seq![0x20u8] + items[2] + seq![
        0x20u8,
    ]));
}

/// Appends the line of an atom.
fn push_atom_line(out: &mut Vec<u8>, atom: &AtomDatum, velocities: bool)
    ensures
        final(out)@ == old(out)@ + line(joined(atom_fields(atom@, velocities))),
{
    let ghost start = out@;
    let ghost items = atom_fields(atom@, velocities);
    push_atom_front(out, atom, velocities);
    let ghost front = items[0] + seq![0x20u8] + items[1] + seq![0x20u8] + items[2] + seq![0x20u8];
    assert(out@ == start + front);
    if atom.is_fixed {
        out.push(0x31);
    } else {
        out.push(0x30);
    }
    assert(out@ =~= start + (front + items[3]));
    out.push(0x20);
    assert(out@ =~= start + (front + items[3] + seq![0x20u8]));
    push_decimal(out, atom.atom_id);
    assert(out@ =~= start + (front + items[3] + seq![0x20u8] + items[4]));
    out.push(0x0A);
    proof {
        lemma_joined_five(items);
        assert(out@ =~= start + line(joined(items)));
    }
}

/// Five items joined, written out.
pub proof fn lemma_joined_five(items: Seq<Seq<u8>>)
    requires
        items.len() == 5,
    ensures
        joined(items) == items[0] + seq![0x20u8] + items[1] + seq![0x20u8] + items[2] + seq![
            0x20u8,
        ] + items[3] + seq![0x20u8] + items[4],
{
    let i4 = items.drop_last();
    let i3 = i4.drop_last();
    let i2 = i3.drop_last();
    let i1 = i2.drop_last();
    assert(i1 =~= seq![items[0]]);
    assert(joined(i1) == items[0]);
    assert(i2.last() == items[1]);
    assert(i3.last() == items[2]);
    assert(i4.last() == items[3]);
    assert(joined(i2) == items[0] + seq![0x20u8] + items[1]);
    assert(joined(i3) == joined(i2) + seq![0x20u8] + items[2]);
    assert(joined(i4) == joined(i3) + seq![0x20u8] + items[3]);
}

/// Appends the two lines at the head of block `i`.
fn push_block_head(out: &mut Vec<u8>, frame: &ConFrame, i: usize, first: usize, velocities: bool)
    requires
        i < frame@.header.natms_per_type.len(),
        first <= frame.atom_data.len(),
        block_start(frame@.header.natms_per_type, i as int) >= 0,
        first == clip(
            block_start(frame@.header.natms_per_type, i as int),
            frame.atom_data.len() as int,
        ),
    ensures
        final(out)@ == old(out)@ + (line(
            block_symbol(frame@.header.natms_per_type, frame@.atom_data, i as int),
        ) + line(label_text(velocities) + decimal_text((i + 1) as nat))),
{
    let ghost before = out@;
    let ghost counts = frame@.header.natms_per_type;
    let ghost atoms = frame@.atom_data;
    let ghost symbol = block_symbol(counts, atoms, i as int);
    if first < frame.atom_data.len() {
        proof {
            assert(atoms[first as int] == frame.atom_data@[first as int]@);
        }
        push_line(out, frame.atom_data[first].symbol.as_str().as_bytes());
    } else {
        out.push(0x0A);
        proof {
            assert(out@ =~= before + line(Seq::<u8>::empty()));
        }
    }
    assert(out@ == before + line(symbol));
    let ghost mid = out@;
    if velocities {
        push_bytes(out, "Velocities of Component ".as_bytes());
    } else {
        push_bytes(out, "Coordinates of Component ".as_bytes());
    }
    assert(out@ == mid + label_text(velocities));
    let types = frame.header.natms_per_type.len();
    assert(i < types);
    push_decimal(out, (i + 1) as u64);
    out.push(0x0A);
    proof {
        assert(out@ =~= before + (line(symbol) + line(
            label_text(velocities) + decimal_text((i + 1) as nat),
        )));
    }
}

/// Appends the lines of the atoms from `first` up to `last`.
fn push_atom_lines(out: &mut Vec<u8>, frame: &ConFrame, first: usize, last: usize, velocities: bool)
    requires
        first <= last <= frame.atom_data.len(),
    ensures
        final(out)@ == old(out)@ + atoms_text(
            frame@.atom_data.subrange(first as int, last as int),
            velocities,
        ),
{
    let ghost before = out@;
    let ghost atoms = frame@.atom_data;
    let ghost block = atoms.subrange(first as int, last as int);
    let mut j = first;
    proof {
        assert(block.subrange(0, 0) =~= Seq::<AtomView>::empty());
        assert(out@ =~= before + atoms_text(block.subrange(0, 0), velocities));
    }
    while j < last
        invariant
            first <= j <= last <= frame.atom_data.len(),
            atoms == frame@.atom_data,
            block == atoms.subrange(first as int, last as int),
            out@ == before + atoms_text(block.subrange(0, j - first), velocities),
        decreases last - j,
    {
        push_atom_line(out, &frame.atom_data[j], velocities);
        proof {
            let now = block.subrange(0, j + 1 - first);
            assert(now.drop_last() =~= block.subrange(0, j - first));
            assert(now.last() == atoms[j as int]);
            assert(atoms[j as int] == frame.atom_data@[j as int]@);
            assert(out@ =~= before + atoms_text(now, velocities));
        }
        j = j + 1;
    }
    proof {
        assert(block.subrange(0, last - first) =~= block);
    }
}

/// Appends the blocks of a frame, those of the coordinates or those of the velocities.
fn push_blocks(out: &mut Vec<u8>, frame: &ConFrame, velocities: bool)
    ensures
        final(out)@ == old(out)@ + blocks_text(
            frame@.header.natms_per_type,
            frame@.atom_data,
            frame@.header.natms_per_type.len() as int,
            velocities,
        ),
{
    let ghost start = out@;
    let ghost counts = frame@.header.natms_per_type;
    let ghost atoms = frame@.atom_data;
    let total = frame.atom_data.len();
    let mut first: usize = 0;
    let mut i: usize = 0;
    proof {
        assert(out@ =~= start + blocks_text(counts, atoms, 0, velocities));
    }
    while i < frame.header.natms_per_type.len()
        invariant
            i <= counts.len(),
            counts == frame@.header.natms_per_type,
            counts == frame.header.natms_per_type@,
            atoms == frame@.atom_data,
            total == frame.atom_data.len(),
            atoms.len() == total,
            first == clip(block_start(counts, i as int), total as int),
            block_start(counts, i as int) >= 0,
            out@ == start + blocks_text(counts, atoms, i as int, velocities),
        decreases counts.len() - i,
    {
        let count = frame.header.natms_per_type[i];
        let ghost before = out@;
        let ghost from = block_start(counts, i as int);
        push_block_head(out, frame, i, first, velocities);
        let last: usize = if count >= total - first {
            total
        } else {
            first + count
        };
        proof {
            assert(block_start(counts, i + 1) == from + count);
            assert(last == clip(from + count, total as int));
        }
        push_atom_lines(out, frame, first, last, velocities);
        proof {
            assert(atoms.subrange(first as int, last as int) == block_atoms(counts, atoms, i as int));
            assert(out@ =~= before + block_text(counts, atoms, i as int, velocities));
            assert(blocks_text(counts, atoms, i + 1, velocities) == blocks_text(
                counts,
                atoms,
                i as int,
                velocities,
            ) + block_text(counts, atoms, i as int, velocities));
            assert(out@ =~= start + blocks_text(counts, atoms, i + 1, velocities));
        }
        first = last;
        i = i + 1;
    }
}

/// Appends a frame as text.
pub fn push_frame(out: &mut Vec<u8>, frame: &ConFrame)
    ensures
        final(out)@ == old(out)@ + frame_text(frame@),
{
    let ghost start = out@;
    let ghost h = frame@.header;
    push_line(out, frame.header.prebox_header[0].as_str().as_bytes());
    push_line(out, frame.header.prebox_header[1].as_str().as_bytes());
    push_triple_line(out, &frame.header.boxl);
    push_triple_line(out, &frame.header.angles);
    push_line(out, frame.header.postbox_header[0].as_str().as_bytes());
    push_line(out, frame.header.postbox_header[1].as_str().as_bytes());
    push_decimal(out, frame.header.natm_types as u64);
    out.push(0x0A);
    push_counts_line(out, &frame.header.natms_per_type);
    push_numbers_line(out, &frame.header.masses_per_type);
    proof {
        assert(out@ =~= start + header_text(h));
    }
    push_blocks(out, frame, false);
    if frame.has_velocities() {
        out.push(0x0A);
        push_blocks(out, frame, true);
    }
    proof {
        assert(line(Seq::<u8>::empty()) =~= seq![0x0Au8]);
        assert(out@ =~= start + frame_text(frame@));
    }
}

/// Collects frames as text.
pub struct ConFrameWriter {
    buffer: Vec<u8>,
}

impl ConFrameWriter {
    /// The text that was written so far.
    pub closed spec fn view(&self) -> Seq<u8> {
        self.buffer@
    }

    /// A writer with nothing written.
    pub fn new() -> (r: Self)
        ensures
            r@ == Seq::<u8>::empty(),
    {
        ConFrameWriter { buffer: Vec::new() }
    }

    /// Writes one frame.
    pub fn write_frame(&mut self, frame: &ConFrame)
        ensures
            final(self)@ == old(self)@ + frame_text(frame@),
    {
        push_frame(&mut self.buffer, frame);
    }

    /// Writes the frames one after the other.
    pub fn extend(&mut self, frames: &[ConFrame])
        ensures
            final(self)@ == old(self)@ + frames_text(frames_view(frames@)),
    {
        let ghost start = self@;
        let ghost views = frames_view(frames@);
        let mut i: usize = 0;
        proof {
            assert(views.take(0) =~= Seq::<FrameView>::empty());
            assert(self@ =~= start + frames_text(views.take(0)));
        }
        while i < frames.len()
            invariant
                i <= frames.len(),
                views == frames_view(frames@),
                self@ == start + frames_text(views.take(i as int)),
            decreases frames.len() - i,
        {
            self.write_frame(&frames[i]);
            proof {
                let now = views.take(i + 1);
                assert(now.drop_last() =~= views.take(i as int));
                assert(now.last() == frames@[i as int]@);
                assert(self@ =~= start + frames_text(now));
            }
            i = i + 1;
        }
        proof {
            assert(views.take(frames.len() as int) =~= views);
        }
    }

    /// The text that was written so far.
    pub fn as_bytes(&self) -> (r: &[u8])
        ensures
            r@ == self@,
    {
        self.buffer.as_slice()
    }

    /// Ends the writing and gives the text.
    pub fn into_bytes(self) -> (r: Vec<u8>)
        ensures
            r@ == self@,
    {
        self.buffer
    }
}

} // verus!
