//! The start of a small Lisp interpreter: atoms named by text, and lists
//! kept as pairs in a memory of cells.
use vstd::prelude::*;
use vstd::string::StringSliceAdditionalSpecFns;

verus! {

broadcast use vstd::string::group_string_axioms;

/// The atom `null`.
pub const NULL: i32 = -1;

/// The atom `=`.
pub const EQ: i32 = NULL - 1;

/// The atom `cons`.
pub const CONS: i32 = EQ - 1;

/// The atom `atom`.
pub const ATOM: i32 = CONS - 1;

/// The atom `car`.
pub const CAR: i32 = ATOM - 1;

/// The atom `cdr`.
pub const CDR: i32 = CAR - 1;

/// The atom `define`.
pub const DEFINE: i32 = CDR - 1;

/// An interpreter: the text of its atoms, where each atom's text lies in
/// it, and its memory. Atom `i` is named by the number `-i - 1`; a list is
/// named by the index in memory of its first cell, which holds its first
/// element, with the rest of the list in the cell after.
pub struct Interp {
    pub atom_data: Vec<u8>,
    pub atoms: Vec<(u32, u32)>,
    pub defines: Vec<u32>,
    pub memory: Vec<i32>,
}

impl Interp {
    /// Every atom's text lies in the atom data, and there is room for more.
    pub open spec fn wf(&self) -> bool {
        &&& forall|i: int|
            0 <= i < self.atoms@.len() ==> #[trigger] self.atoms@[i].0 <= self.atoms@[i].1
                <= self.atom_data@.len()
        &&& self.atom_data@.len() <= u32::MAX
        &&& self.atoms@.len() < i32::MAX
    }

    /// The text of atom `i`.
    pub open spec fn atom_text(&self, i: int) -> Seq<u8> {
        self.atom_data@.subrange(self.atoms@[i].0 as int, self.atoms@[i].1 as int)
    }

    /// An interpreter that knows the atoms `null`, `=`, `cons`, `atom`,
    /// `car`, `cdr` and `define`, numbered in this order, their texts one
    /// after the other in the atom data, and has an empty memory.
    pub fn new() -> (r: Self)
        ensures
            r.wf(),
            r.atoms@.len() == 7,
            r.atom_text(0) == "null".spec_bytes(),
            r.atom_text(1) == "=".spec_bytes(),
            r.atom_text(2) == "cons".spec_bytes(),
            r.atom_text(3) == "atom".spec_bytes(),
            r.atom_text(4) == "car".spec_bytes(),
            r.atom_text(5) == "cdr".spec_bytes(),
            r.atom_text(6) == "define".spec_bytes(),
            r.atom_data@ == "null".spec_bytes() + "=".spec_bytes() + "cons".spec_bytes()
                + "atom".spec_bytes() + "car".spec_bytes() + "cdr".spec_bytes() + "define".spec_bytes(),
            r.atoms@ == seq![
                (0u32, 4u32),
                (4u32, 5u32),
                (5u32, 9u32),
                (9u32, 13u32),
                (13u32, 16u32),
                (16u32, 19u32),
                (19u32, 25u32),
            ],
            r.defines@.len() == 0,
            r.memory@.len() == 0,
    {
        let mut s = Interp {
            atom_data: Vec::new(),
            atoms: Vec::new(),
            defines: Vec::new(),
            memory: Vec::new(),
        };
        proof {
            reveal_strlit("null");
            assert(vstd::string::is_ascii("null"));
            assert("null".spec_bytes().len() == 4);
            reveal_strlit("=");
            assert(vstd::string::is_ascii("="));
            assert("=".spec_bytes().len() == 1);
            reveal_strlit("cons");
            assert(vstd::string::is_ascii("cons"));
            assert("cons".spec_bytes().len() == 4);
            reveal_strlit("atom");
            assert(vstd::string::is_ascii("atom"));
            assert("atom".spec_bytes().len() == 4);
            reveal_strlit("car");
            assert(vstd::string::is_ascii("car"));
            assert("car".spec_bytes().len() == 3);
            reveal_strlit("cdr");
            assert(vstd::string::is_ascii("cdr"));
            assert("cdr".spec_bytes().len() == 3);
            reveal_strlit("define");
            assert(vstd::string::is_ascii("define"));
            assert("define".spec_bytes().len() == 6);
        }
        s.add_atom("null");
        s.add_atom("=");
        s.add_atom("cons");
        s.add_atom("atom");
        s.add_atom("car");
        s.add_atom("cdr");
        s.add_atom("define");
        proof {
            assert(s.atom_data@ =~= "null".spec_bytes() + "=".spec_bytes() + "cons".spec_bytes()
                + "atom".spec_bytes() + "car".spec_bytes() + "cdr".spec_bytes() + "define".spec_bytes());
            assert(s.atoms@ =~= seq![
                (0u32, 4u32),
                (4u32, 5u32),
                (5u32, 9u32),
                (9u32, 13u32),
                (13u32, 16u32),
                (16u32, 19u32),
                (19u32, 25u32),
            ]);
        }
        s
    }

    /// Adds an atom with the text `atom`, and returns the number that names
    /// it.
    pub fn add_atom(&mut self, atom: &str) -> (r: i32)
        requires
            old(self).wf(),
            old(self).atom_data@.len() + atom.spec_bytes().len() <= u32::MAX,
            old(self).atoms@.len() + 1 < i32::MAX,
        ensures
            final(self).wf(),
            final(self).atom_data@ == old(self).atom_data@ + atom.spec_bytes(),
            final(self).atoms@ == old(self).atoms@.push(
                (old(self).atom_data@.len() as u32, final(self).atom_data@.len() as u32),
            ),
            final(self).atom_text(old(self).atoms@.len() as int) == atom.spec_bytes(),
            forall|i: int|
                0 <= i < old(self).atoms@.len() ==> #[trigger] final(self).atom_text(i) == old(
                    self,
                ).atom_text(i),
            r == -(old(self).atoms@.len() as int) - 1,
            final(self).defines@ == old(self).defines@,
            final(self).memory@ == old(self).memory@,
    {
        let begin = self.atom_data.len() as u32;
        let bytes = atom.as_bytes();
        let ghost before = self.atom_data@;
        let mut i: usize = 0;
        while i < bytes.len()
            invariant
                i <= bytes@.len(),
                bytes@ == atom.spec_bytes(),
                self.atom_data@ == before + bytes@.take(i as int),
                self.atoms == old(self).atoms,
                self.defines == old(self).defines,
                self.memory == old(self).memory,
                before == old(self).atom_data@,
            decreases bytes@.len() - i,
        {
            self.atom_data.push(bytes[i]);
            proof {
                assert(before + bytes@.take(i + 1) =~= (before + bytes@.take(i as int)).push(bytes@[i as int]));
            }
            i += 1;
        }
        proof {
            assert(bytes@.take(bytes@.len() as int) =~= bytes@);
        }
        let end = self.atom_data.len() as u32;
        let atom_id = self.atoms.len() as i32;
        self.atoms.push((begin, end));
        proof {
            assert(self.atom_text(old(self).atoms@.len() as int) =~= atom.spec_bytes());
            assert forall|j: int| 0 <= j < old(self).atoms@.len() implies #[trigger] self.atom_text(j)
                == old(self).atom_text(j) by {
                assert(self.atoms@[j] == old(self).atoms@[j]);
                assert(self.atom_text(j) =~= old(self).atom_text(j));
            }
        }
        -atom_id - 1
    }

    /// The rest of the list `x`: what the cell after its first holds.
    pub fn cdr(&self, x: i32) -> (r: i32)
        requires
            x >= 0,
            x + 1 < self.memory@.len(),
        ensures
            r == self.memory@[x + 1],
    {
        self.memory[x as usize + 1]
    }

    /// The first element of the list `x`: what its first cell holds.
    pub fn car(&self, x: i32) -> (r: i32)
        requires
            x >= 0,
            x < self.memory@.len(),
        ensures
            r == self.memory@[x as int],
    {
        self.memory[x as usize]
    }
}

} // verus!
