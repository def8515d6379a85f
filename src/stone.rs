use vstd::prelude::*;

verus! {

/// The colour of a stone, and thereby the side that owns it.
#[derive(Debug, Clone, Copy, PartialEq, Eq, Structural, PartialOrd, Ord, Hash)]
pub enum Stone {
    Black,
    White,
}

impl Stone {
    /// The other side.
    pub open spec fn opp(self) -> Stone {
        match self {
            Stone::Black => Stone::White,
            Stone::White => Stone::Black,
        }
    }

    pub fn opposite(&self) -> (r: Stone)
        ensures
            r == self.opp(),
            r != *self,
    {
        match self {
            Stone::Black => Stone::White,
            Stone::White => Stone::Black,
        }
    }
}

/// Taking the other side twice gives back the side one started from.
pub proof fn lemma_opposite_involution(s: Stone)
    ensures
        s.opp().opp() == s,
{
}

} // verus!
