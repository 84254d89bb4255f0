//! A frame of a trajectory: its header and its atoms.

use crate::number::Number;
use crate::text::str_bytes;
use vstd::prelude::*;
use vstd::utf8::encode_utf8_decode_utf8;

verus! {

/// The nine header lines of a frame.
#[derive(Debug, PartialEq, Clone)]
pub struct FrameHeader {
    /// The two text lines in front of the box lengths.
    pub prebox_header: [String; 2],
    /// The three box lengths.
    pub boxl: [Number; 3],
    /// The three box angles.
    pub angles: [Number; 3],
    /// The two text lines behind the box angles.
    pub postbox_header: [String; 2],
    /// The number of atom types.
    pub natm_types: usize,
    /// The number of atoms of each type.
    pub natms_per_type: Vec<usize>,
    /// The mass of each type.
    pub masses_per_type: Vec<Number>,
}

/// One atom of a frame.
#[derive(Debug, PartialEq, Clone)]
pub struct AtomDatum {
    /// The chemical symbol of the atom's type.
    pub symbol: String,
    pub x: Number,
    pub y: Number,
    pub z: Number,
    /// True when the atom is held in place.
    pub is_fixed: bool,
    pub atom_id: u64,
    /// The velocity, where the frame has velocities.
    pub vx: Option<Number>,
    pub vy: Option<Number>,
    pub vz: Option<Number>,
}

/// A frame: a header, and the atoms in the order of the file.
#[derive(Debug, PartialEq, Clone)]
pub struct ConFrame {
    pub header: FrameHeader,
    pub atom_data: Vec<AtomDatum>,
}

/// A header as a mathematical value: each text and each number by its bytes.
pub struct HeaderView {
    pub prebox_header: Seq<Seq<u8>>,
    pub boxl: Seq<Seq<u8>>,
    pub angles: Seq<Seq<u8>>,
    pub postbox_header: Seq<Seq<u8>>,
    pub natm_types: usize,
    pub natms_per_type: Seq<usize>,
    pub masses_per_type: Seq<Seq<u8>>,
}

/// An atom as a mathematical value.
pub struct AtomView {
    pub symbol: Seq<u8>,
    pub x: Seq<u8>,
    pub y: Seq<u8>,
    pub z: Seq<u8>,
    pub is_fixed: bool,
    pub atom_id: u64,
    pub vx: Option<Seq<u8>>,
    pub vy: Option<Seq<u8>>,
    pub vz: Option<Seq<u8>>,
}

/// A frame as a mathematical value.
pub struct FrameView {
    pub header: HeaderView,
    pub atom_data: Seq<AtomView>,
}

/// The bytes of each text of a sequence.
pub open spec fn texts_view(s: Seq<String>) -> Seq<Seq<u8>> {
    Seq::new(s.len(), |i: int| str_bytes(s[i]@))
}

/// The bytes of each number of a sequence.
pub open spec fn numbers_view(s: Seq<Number>) -> Seq<Seq<u8>> {
    Seq::new(s.len(), |i: int| s[i]@)
}

/// The bytes of a number that may be absent.
pub open spec fn optional_view(n: Option<Number>) -> Option<Seq<u8>> {
    match n {
        Some(v) => Some(v@),
        None => None,
    }
}

/// The views of the atoms of a sequence.
pub open spec fn atoms_view(s: Seq<AtomDatum>) -> Seq<AtomView> {
    Seq::new(s.len(), |i: int| s[i]@)
}

impl View for FrameHeader {
    type V = HeaderView;

    open spec fn view(&self) -> HeaderView {
        HeaderView {
            prebox_header: texts_view(self.prebox_header@),
            boxl: numbers_view(self.boxl@),
            angles: numbers_view(self.angles@),
            postbox_header: texts_view(self.postbox_header@),
            natm_types: self.natm_types,
            natms_per_type: self.natms_per_type@,
            masses_per_type: numbers_view(self.masses_per_type@),
        }
    }
}

impl View for AtomDatum {
    type V = AtomView;

    open spec fn view(&self) -> AtomView {
        AtomView {
            symbol: str_bytes(self.symbol@),
            x: self.x@,
            y: self.y@,
            z: self.z@,
            is_fixed: self.is_fixed,
            atom_id: self.atom_id,
            vx: optional_view(self.vx),
            vy: optional_view(self.vy),
            vz: optional_view(self.vz),
        }
    }
}

impl View for ConFrame {
    type V = FrameView;

    open spec fn view(&self) -> FrameView {
        FrameView { header: self.header@, atom_data: atoms_view(self.atom_data@) }
    }
}

impl AtomView {
    /// True when all three components of the velocity are there.
    pub open spec fn has_velocity(self) -> bool {
        self.vx.is_some() && self.vy.is_some() && self.vz.is_some()
    }
}

impl FrameView {
    /// True when the first atom has a velocity.
    pub open spec fn has_velocities(self) -> bool {
        self.atom_data.len() > 0 && self.atom_data[0].has_velocity()
    }
}

impl AtomDatum {
    /// Tells whether the atom has a velocity.
    pub fn has_velocity(&self) -> (r: bool)
        ensures
            r == self@.has_velocity(),
    {
        self.vx.is_some() && self.vy.is_some() && self.vz.is_some()
    }
}

impl FrameView {
    /// True when every atom has a velocity or none has, and no atom has a part of one.
    pub open spec fn velocities_are_uniform(self) -> bool {
        forall|j: int|
            0 <= j < self.atom_data.len() ==> {
                &&& (#[trigger] self.atom_data[j]).has_velocity() == self.has_velocities()
                &&& self.atom_data[j].vx is Some == self.atom_data[j].vy is Some
                &&& self.atom_data[j].vy is Some == self.atom_data[j].vz is Some
            }
    }
}

impl ConFrame {
    /// Tells whether the frame has velocities: whether its first atom has one.
    pub fn has_velocities(&self) -> (r: bool)
        ensures
            r == self@.has_velocities(),
    {
        if self.atom_data.len() == 0 {
            false
        } else {
            self.atom_data[0].has_velocity()
        }
    }

    /// Tells whether the atoms are of one kind: whether every atom has a velocity or none
    /// has. A frame of two kinds is not read as it was written.
    pub fn velocities_are_uniform(&self) -> (r: bool)
        ensures
            r == self@.velocities_are_uniform(),
    {
        let expected = self.has_velocities();
        let mut j: usize = 0;
        while j < self.atom_data.len()
            invariant
                j <= self.atom_data.len(),
                expected == self@.has_velocities(),
                forall|k: int|
                    0 <= k < j ==> {
                        &&& (#[trigger] self@.atom_data[k]).has_velocity() == expected
                        &&& self@.atom_data[k].vx is Some == self@.atom_data[k].vy is Some
                        &&& self@.atom_data[k].vy is Some == self@.atom_data[k].vz is Some
                    },
            decreases self.atom_data.len() - j,
        {
            let atom = &self.atom_data[j];
            assert(self@.atom_data[j as int] == atom@);
            if atom.has_velocity() != expected || atom.vx.is_some() != atom.vy.is_some()
                || atom.vy.is_some() != atom.vz.is_some() {
                return false;
            }
            j = j + 1;
        }
        true
    }
}

/// An atom as it was handed to a builder.
struct BuilderAtom {
    symbol: String,
    x: Number,
    y: Number,
    z: Number,
    is_fixed: bool,
    atom_id: u64,
    mass: Number,
    vx: Option<Number>,
    vy: Option<Number>,
    vz: Option<Number>,
}

/// Collects the atoms of a frame one by one; `build` puts them in order and writes the
/// header.
pub struct ConFrameBuilder {
    prebox_header: [String; 2],
    cell: [Number; 3],
    angles: [Number; 3],
    postbox_header: [String; 2],
    atoms: Vec<BuilderAtom>,
}

/// An atom of a builder as a mathematical value: the atom and the mass of its type.
pub struct BuilderAtomView {
    pub atom: AtomView,
    pub mass: Seq<u8>,
}

/// A builder as a mathematical value.
pub struct BuilderView {
    pub prebox_header: Seq<Seq<u8>>,
    pub cell: Seq<Seq<u8>>,
    pub angles: Seq<Seq<u8>>,
    pub postbox_header: Seq<Seq<u8>>,
    pub atoms: Seq<BuilderAtomView>,
}

/// The atoms with symbol `symbol`, in their order.
pub open spec fn of_symbol(atoms: Seq<BuilderAtomView>, symbol: Seq<u8>) -> Seq<AtomView>
    decreases atoms.len(),
{
    if atoms.len() == 0 {
        Seq::empty()
    } else if atoms.last().atom.symbol == symbol {
        of_symbol(atoms.drop_last(), symbol).push(atoms.last().atom)
    } else {
        of_symbol(atoms.drop_last(), symbol)
    }
}

/// The mass that came with the first atom with symbol `symbol`.
pub open spec fn first_mass(atoms: Seq<BuilderAtomView>, symbol: Seq<u8>) -> Seq<u8>
    decreases atoms.len(),
{
    if atoms.len() == 0 {
        Seq::empty()
    } else if of_symbol(atoms.drop_last(), symbol).len() > 0 {
        first_mass(atoms.drop_last(), symbol)
    } else if atoms.last().atom.symbol == symbol {
        atoms.last().mass
    } else {
        Seq::empty()
    }
}

/// The symbols of the atoms, each once, in the order in which they first occur.
pub open spec fn symbols_of(atoms: Seq<BuilderAtomView>) -> Seq<Seq<u8>>
    decreases atoms.len(),
{
    if atoms.len() == 0 {
        Seq::empty()
    } else if symbols_of(atoms.drop_last()).contains(atoms.last().atom.symbol) {
        symbols_of(atoms.drop_last())
    } else {
        symbols_of(atoms.drop_last()).push(atoms.last().atom.symbol)
    }
}

/// The atoms put together type by type, in the order of `symbols`.
pub open spec fn grouped(atoms: Seq<BuilderAtomView>, symbols: Seq<Seq<u8>>) -> Seq<AtomView>
    decreases symbols.len(),
{
    if symbols.len() == 0 {
        Seq::empty()
    } else {
        grouped(atoms, symbols.drop_last()) + of_symbol(atoms, symbols.last())
    }
}

/// The frame that a builder gives: one type for each symbol in the order of first
/// occurrence, with the number of its atoms and the mass that came with the first of them,
/// and the atoms type by type.
pub open spec fn built(b: BuilderView) -> FrameView {
    let symbols = symbols_of(b.atoms);
    FrameView {
        header: HeaderView {
            prebox_header: b.prebox_header,
            boxl: b.cell,
            angles: b.angles,
            postbox_header: b.postbox_header,
            natm_types: symbols.len() as usize,
            natms_per_type: Seq::new(
                symbols.len(),
                |k: int| of_symbol(b.atoms, symbols[k]).len() as usize,
            ),
            masses_per_type: Seq::new(symbols.len(), |k: int| first_mass(b.atoms, symbols[k])),
        },
        atom_data: grouped(b.atoms, symbols),
    }
}

/// Two texts with the same bytes are the same text.
pub proof fn lemma_str_bytes_injective(a: Seq<char>, b: Seq<char>)
    ensures
        (str_bytes(a) == str_bytes(b)) == (a == b),
{
    encode_utf8_decode_utf8(a);
    encode_utf8_decode_utf8(b);
}

/// No more atoms have a symbol than there are atoms.
pub proof fn lemma_of_symbol_len(atoms: Seq<BuilderAtomView>, symbol: Seq<u8>)
    ensures
        of_symbol(atoms, symbol).len() <= atoms.len(),
    decreases atoms.len(),
{
    if atoms.len() > 0 {
        lemma_of_symbol_len(atoms.drop_last(), symbol);
    }
}

/// A symbol is among the symbols of the atoms exactly when an atom has it, and no symbol is
/// there twice.
pub proof fn lemma_symbols_of(atoms: Seq<BuilderAtomView>)
    ensures
        forall|t: Seq<u8>| symbols_of(atoms).contains(t) <==> of_symbol(atoms, t).len() > 0,
        symbols_of(atoms).no_duplicates(),
        symbols_of(atoms).len() <= atoms.len(),
    decreases atoms.len(),
{
    if atoms.len() > 0 {
        let front = atoms.drop_last();
        let s = atoms.last().atom.symbol;
        lemma_symbols_of(front);
        let old_symbols = symbols_of(front);
        let new_symbols = symbols_of(atoms);
        assert forall|t: Seq<u8>| new_symbols.contains(t) <==> of_symbol(atoms, t).len()
            > 0 by {
            assert(old_symbols.contains(t) <==> of_symbol(front, t).len() > 0);
            if old_symbols.contains(s) {
            } else {
                assert(new_symbols == old_symbols.push(s));
                if new_symbols.contains(t) {
                    let k = choose|k: int| 0 <= k < new_symbols.len() && new_symbols[k] == t;
                    if k < old_symbols.len() {
                        assert(old_symbols[k] == t);
                        assert(old_symbols.contains(t));
                    }
                }
                if of_symbol(atoms, t).len() > 0 {
                    if t == s {
                        assert(new_symbols[old_symbols.len() as int] == s);
                    } else {
                        assert(old_symbols.contains(t));
                        let k = choose|k: int| 0 <= k < old_symbols.len() && old_symbols[k] == t;
                        assert(new_symbols[k] == t);
                    }
                }
            }
        }
        if !old_symbols.contains(s) {
            assert forall|i: int, j: int|
                0 <= i < new_symbols.len() && 0 <= j < new_symbols.len() && i
                    != j implies new_symbols[i] != new_symbols[j] by {
                if i < old_symbols.len() && j < old_symbols.len() {
                    assert(old_symbols[i] != old_symbols[j]);
                } else if i < old_symbols.len() {
                    assert(old_symbols.contains(old_symbols[i]));
                } else {
                    assert(old_symbols.contains(old_symbols[j]));
                }
            }
        }
    }
}

impl BuilderAtom {
    spec fn view(&self) -> BuilderAtomView {
        BuilderAtomView {
            atom: AtomView {
                symbol: str_bytes(self.symbol@),
                x: self.x@,
                y: self.y@,
                z: self.z@,
                is_fixed: self.is_fixed,
                atom_id: self.atom_id,
                vx: optional_view(self.vx),
                vy: optional_view(self.vy),
                vz: optional_view(self.vz),
            },
            mass: self.mass@,
        }
    }
}

/// A copy of a number that may be absent.
fn clone_optional(n: &Option<Number>) -> (r: Option<Number>)
    ensures
        optional_view(r) == optional_view(*n),
{
    match n {
        Some(v) => Some(v.clone()),
        None => None,
    }
}

/// Index of the first text that equals `symbol`.
fn find_symbol(order: &Vec<String>, symbol: &String) -> (r: Option<usize>)
    ensures
        match r {
            Some(k) => k < order.len() && order[k as int]@ == symbol@,
            None => forall|j: int| 0 <= j < order.len() ==> order[j]@ != symbol@,
        },
{
    let mut k: usize = 0;
    while k < order.len()
        invariant
            k <= order.len(),
            forall|j: int| 0 <= j < k ==> order[j]@ != symbol@,
        decreases order.len() - k,
    {
        if order[k] == *symbol {
            return Some(k);
        }
        k = k + 1;
    }
    None
}

impl ConFrameBuilder {
    /// The builder as a mathematical value.
    pub closed spec fn view(&self) -> BuilderView {
        BuilderView {
            prebox_header: texts_view(self.prebox_header@),
            cell: numbers_view(self.cell@),
            angles: numbers_view(self.angles@),
            postbox_header: texts_view(self.postbox_header@),
            atoms: Seq::new(self.atoms@.len(), |i: int| self.atoms@[i].view()),
        }
    }

    /// A builder for a frame with the given box lengths and angles, with empty text lines
    /// and no atoms.
    pub fn new(cell: [Number; 3], angles: [Number; 3]) -> (r: Self)
        ensures
            r@ == (BuilderView {
                prebox_header: seq![Seq::<u8>::empty(), Seq::<u8>::empty()],
                cell: numbers_view(cell@),
                angles: numbers_view(angles@),
                postbox_header: seq![Seq::<u8>::empty(), Seq::<u8>::empty()],
                atoms: Seq::empty(),
            }),
    {
        let r = ConFrameBuilder {
            prebox_header: [String::new(), String::new()],
            cell,
            angles,
            postbox_header: [String::new(), String::new()],
            atoms: Vec::new(),
        };
        proof {
            assert(str_bytes(Seq::<char>::empty()) =~= Seq::<u8>::empty());
            assert(r@.prebox_header =~= seq![Seq::<u8>::empty(), Seq::<u8>::empty()]);
            assert(r@.postbox_header =~= seq![Seq::<u8>::empty(), Seq::<u8>::empty()]);
            assert(r@.atoms =~= Seq::<BuilderAtomView>::empty());
        }
        r
    }

    /// Sets the two text lines in front of the box lengths.
    pub fn prebox_header(self, h: [String; 2]) -> (r: Self)
        ensures
            r@ == (BuilderView { prebox_header: texts_view(h@), ..self@ }),
    {
        let mut b = self;
        b.prebox_header = h;
        b
    }

    /// Sets the two text lines behind the box angles.
    pub fn postbox_header(self, h: [String; 2]) -> (r: Self)
        ensures
            r@ == (BuilderView { postbox_header: texts_view(h@), ..self@ }),
    {
        let mut b = self;
        b.postbox_header = h;
        b
    }

    /// Adds an atom without a velocity.
    pub fn add_atom(
        &mut self,
        symbol: &str,
        x: Number,
        y: Number,
        z: Number,
        is_fixed: bool,
        atom_id: u64,
        mass: Number,
    )
        ensures
            final(self)@ == (BuilderView {
                atoms: old(self)@.atoms.push(
                    BuilderAtomView {
                        atom: AtomView {
                            symbol: str_bytes(symbol@),
                            x: x@,
                            y: y@,
                            z: z@,
                            is_fixed,
                            atom_id,
                            vx: None,
                            vy: None,
                            vz: None,
                        },
                        mass: mass@,
                    },
                ),
                ..old(self)@
            }),
    {
        let ghost before = self@.atoms;
        let atom = BuilderAtom {
            symbol: symbol.to_owned(),
            x,
            y,
            z,
            is_fixed,
            atom_id,
            mass,
            vx: None,
            vy: None,
            vz: None,
        };
        self.atoms.push(atom);
        proof {
            assert(self@.atoms =~= before.push(atom.view()));
        }
    }

    /// Adds an atom with its velocity.
    pub fn add_atom_with_velocity(
        &mut self,
        symbol: &str,
        x: Number,
        y: Number,
        z: Number,
        is_fixed: bool,
        atom_id: u64,
        mass: Number,
        vx: Number,
        vy: Number,
        vz: Number,
    )
        ensures
            final(self)@ == (BuilderView {
                atoms: old(self)@.atoms.push(
                    BuilderAtomView {
                        atom: AtomView {
                            symbol: str_bytes(symbol@),
                            x: x@,
                            y: y@,
                            z: z@,
                            is_fixed,
                            atom_id,
                            vx: Some(vx@),
                            vy: Some(vy@),
                            vz: Some(vz@),
                        },
                        mass: mass@,
                    },
                ),
                ..old(self)@
            }),
    {
        let ghost before = self@.atoms;
        let atom = BuilderAtom {
            symbol: symbol.to_owned(),
            x,
            y,
            z,
            is_fixed,
            atom_id,
            mass,
            vx: Some(vx),
            vy: Some(vy),
            vz: Some(vz),
        };
        self.atoms.push(atom);
        proof {
            assert(self@.atoms =~= before.push(atom.view()));
        }
    }

    /// Makes the frame: the atoms are put together type by type, the types in the order in
    /// which their symbols first occur.
    pub fn build(self) -> (r: ConFrame)
        ensures
            r@ == built(self@),
    {
        let ghost atoms = self@.atoms;
        let n = self.atoms.len();
        let mut type_order: Vec<String> = Vec::new();
        let mut type_counts: Vec<usize> = Vec::new();
        let mut type_masses: Vec<Number> = Vec::new();
        let mut i: usize = 0;
        proof {
            assert(atoms.take(0) =~= Seq::<BuilderAtomView>::empty());
            assert(texts_view(type_order@) =~= symbols_of(atoms.take(0)));
        }
        while i < n
            invariant
                i <= n,
                n == self.atoms.len(),
                atoms == self@.atoms,
                atoms.len() == n,
                texts_view(type_order@) == symbols_of(atoms.take(i as int)),
                type_counts.len() == type_order.len(),
                type_masses.len() == type_order.len(),
                forall|k: int|
                    0 <= k < type_order.len() ==> #[trigger] type_counts[k] == of_symbol(
                        atoms.take(i as int),
                        str_bytes(type_order[k]@),
                    ).len(),
                forall|k: int|
                    0 <= k < type_order.len() ==> (#[trigger] type_masses[k])@ == first_mass(
                        atoms.take(i as int),
                        str_bytes(type_order[k]@),
                    ),
            decreases n - i,
        {
            let atom = &self.atoms[i];
            let ghost seen = atoms.take(i as int);
            let ghost next = atoms.take(i + 1);
            let ghost s = str_bytes(atom.symbol@);
            let ghost old_order = type_order@;
            let ghost old_counts = type_counts@;
            let ghost old_masses = type_masses@;
            proof {
                assert(next.drop_last() =~= seen);
                assert(next.last() == atoms[i as int]);
                assert(atoms[i as int] == atom.view());
                lemma_symbols_of(seen);
                lemma_of_symbol_len(next, s);
                assert forall|k: int| 0 <= k < old_order.len() implies symbols_of(seen)[k]
                    == str_bytes(old_order[k]@) by {
                    assert(texts_view(old_order)[k] == str_bytes(old_order[k]@));
                }
            }
            match find_symbol(&type_order, &atom.symbol) {
                Some(idx) => {
                    proof {
                        assert(symbols_of(seen)[idx as int] == s);
                        assert(symbols_of(seen).contains(s));
                    }
                    type_counts[idx] = type_counts[idx] + 1;
                    proof {
                        assert forall|k: int| 0 <= k < type_order.len() implies #[trigger] type_counts[k]
                            == of_symbol(next, str_bytes(type_order[k]@)).len() by {
                            if k != idx {
                                assert(symbols_of(seen)[k] != symbols_of(seen)[idx as int]);
                            }
                        }
                        assert forall|k: int| 0 <= k < type_order.len() implies (
                        #[trigger] type_masses[k])@ == first_mass(
                            next,
                            str_bytes(type_order[k]@),
                        ) by {
                            assert(symbols_of(seen).contains(symbols_of(seen)[k]));
                        }
                    }
                },
                None => {
                    proof {
                        if symbols_of(seen).contains(s) {
                            let k = choose|k: int|
                                0 <= k < symbols_of(seen).len() && symbols_of(seen)[k] == s;
                            lemma_str_bytes_injective(old_order[k]@, atom.symbol@);
                        }
                    }
                    type_order.push(atom.symbol.clone());
                    type_counts.push(1);
                    type_masses.push(atom.mass.clone());
                    proof {
                        assert(texts_view(type_order@) =~= symbols_of(seen).push(s));
                        assert(of_symbol(seen, s).len() == 0);
                        assert forall|k: int| 0 <= k < type_order.len() implies #[trigger] type_counts[k]
                            == of_symbol(next, str_bytes(type_order[k]@)).len() by {
                            if k < old_order.len() {
                                assert(type_order[k] == old_order[k]);
                                assert(type_counts[k] == old_counts[k]);
                                assert(symbols_of(seen).contains(symbols_of(seen)[k]));
                            }
                        }
                        assert forall|k: int| 0 <= k < type_order.len() implies (
                        #[trigger] type_masses[k])@ == first_mass(
                            next,
                            str_bytes(type_order[k]@),
                        ) by {
                            if k < old_order.len() {
                                assert(type_order[k] == old_order[k]);
                                assert(type_masses[k] == old_masses[k]);
                                assert(symbols_of(seen).contains(symbols_of(seen)[k]));
                            }
                        }
                    }
                },
            }
            i = i + 1;
        }
        proof {
            assert(atoms.take(n as int) =~= atoms);
        }
        let ghost symbols = symbols_of(atoms);
        let mut atom_data: Vec<AtomDatum> = Vec::new();
        let mut t: usize = 0;
        proof {
            assert(symbols.take(0) =~= Seq::<Seq<u8>>::empty());
            assert(atoms_view(atom_data@) =~= grouped(atoms, symbols.take(0)));
        }
        while t < type_order.len()
            invariant
                t <= type_order.len(),
                n == self.atoms.len(),
                atoms == self@.atoms,
                atoms.len() == n,
                symbols == symbols_of(atoms),
                texts_view(type_order@) == symbols,
                atoms_view(atom_data@) == grouped(atoms, symbols.take(t as int)),
            decreases type_order.len() - t,
        {
            let symbol = &type_order[t];
            let ghost s = str_bytes(symbol@);
            let ghost done = atoms_view(atom_data@);
            let mut j: usize = 0;
            proof {
                assert(texts_view(type_order@)[t as int] == s);
                assert(atoms.take(0) =~= Seq::<BuilderAtomView>::empty());
                assert(done + of_symbol(atoms.take(0), s) =~= done);
            }
            while j < n
                invariant
                    j <= n,
                    n == self.atoms.len(),
                    atoms == self@.atoms,
                    atoms.len() == n,
                    s == str_bytes(symbol@),
                    atoms_view(atom_data@) == done + of_symbol(atoms.take(j as int), s),
                decreases n - j,
            {
                let atom = &self.atoms[j];
                let ghost before = atoms_view(atom_data@);
                proof {
                    assert(atoms.take(j + 1).drop_last() =~= atoms.take(j as int));
                    assert(atoms.take(j + 1).last() == atoms[j as int]);
                    assert(atoms[j as int] == atom.view());
                    lemma_str_bytes_injective(atom.symbol@, symbol@);
                }
                if atom.symbol == *symbol {
                    let datum = AtomDatum {
                        symbol: atom.symbol.clone(),
                        x: atom.x.clone(),
                        y: atom.y.clone(),
                        z: atom.z.clone(),
                        is_fixed: atom.is_fixed,
                        atom_id: atom.atom_id,
                        vx: clone_optional(&atom.vx),
                        vy: clone_optional(&atom.vy),
                        vz: clone_optional(&atom.vz),
                    };
                    proof {
                        assert(datum@ == atom.view().atom);
                    }
                    atom_data.push(datum);
                    proof {
                        assert(atoms_view(atom_data@) =~= before.push(atom.view().atom));
                        assert(before.push(atom.view().atom) =~= done + of_symbol(
                            atoms.take(j + 1),
                            s,
                        ));
                    }
                }
                j = j + 1;
            }
            proof {
                assert(atoms.take(n as int) =~= atoms);
                assert(symbols.take(t + 1).drop_last() =~= symbols.take(t as int));
                assert(symbols.take(t + 1).last() == s);
            }
            t = t + 1;
        }
        proof {
            assert(symbols.take(type_order.len() as int) =~= symbols);
        }
        let header = FrameHeader {
            prebox_header: self.prebox_header,
            boxl: self.cell,
            angles: self.angles,
            postbox_header: self.postbox_header,
            natm_types: type_order.len(),
            natms_per_type: type_counts,
            masses_per_type: type_masses,
        };
        proof {
            let want = built(self@).header;
            assert forall|k: int| 0 <= k < symbols.len() implies symbols[k] == str_bytes(
                type_order[k]@,
            ) by {
                assert(texts_view(type_order@)[k] == str_bytes(type_order[k]@));
            }
            assert(header@.natms_per_type =~= want.natms_per_type);
            assert(header@.masses_per_type =~= want.masses_per_type);
        }
        ConFrame { header, atom_data }
    }
}

impl ConFrame {
    /// A builder for a frame with the given box lengths and angles.
    pub fn builder(cell: [Number; 3], angles: [Number; 3]) -> (r: ConFrameBuilder)
        ensures
            r@ == (BuilderView {
                prebox_header: seq![Seq::<u8>::empty(), Seq::<u8>::empty()],
                cell: numbers_view(cell@),
                angles: numbers_view(angles@),
                postbox_header: seq![Seq::<u8>::empty(), Seq::<u8>::empty()],
                atoms: Seq::empty(),
            }),
    {
        ConFrameBuilder::new(cell, angles)
    }
}

} // verus!
