use vstd::prelude::*;

verus! {

/// Running counts of a session.
#[derive(Clone, Copy, Debug, PartialEq, Eq, Structural)]
pub struct Stats {
    pub inputs: u32,
    pub pieces: u32,
    pub lines: u32,
    pub faults: u32,
}

impl Stats {
    pub fn new() -> (s: Stats)
        ensures
            s.inputs == 0,
            s.pieces == 0,
            s.lines == 0,
            s.faults == 0,
    {
        Stats { inputs: 0, pieces: 0, lines: 0, faults: 0 }
    }
}

} // verus!
