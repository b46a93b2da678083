use vstd::prelude::*;

use crate::piece::{Piece, Rotation};

verus! {

/// One committed action: swap with the hold slot, or lock a piece at a pose.
#[derive(Clone, Copy, Debug, PartialEq, Eq, Hash, Structural)]
pub enum Placement {
    Hold,
    Place { piece: Piece, row: u8, col: u8, rotation: Rotation },
}

impl Placement {
    pub fn place(piece: Piece, row: u8, col: u8, rotation: Rotation) -> (p: Placement)
        ensures
            p == (Placement::Place { piece, row, col, rotation }),
    {
        Placement::Place { piece, row, col, rotation }
    }
}

} // verus!
