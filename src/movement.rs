use vstd::prelude::*;

verus! {

/// One primitive input.
#[derive(Clone, Copy, Debug, PartialEq, Eq, Hash, Structural)]
pub enum Movement {
    Left,
    DasLeft,
    Right,
    DasRight,
    SoftDrop,
    HardDrop,
    RotateCw,
    RotateCcw,
    Rotate180,
}

} // verus!
