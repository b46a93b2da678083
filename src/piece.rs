use vstd::prelude::*;

verus! {

/// The seven tetromino kinds.
#[derive(Clone, Copy, Debug, PartialEq, Eq, Hash, Structural)]
pub enum Piece {
    I,
    J,
    L,
    O,
    S,
    T,
    Z,
}

/// The four orientations of a piece.
#[derive(Clone, Copy, Debug, PartialEq, Eq, Hash, Structural)]
pub enum Rotation {
    Normal,
    Cw,
    Ccw,
    Flip,
}

/// Orientation after a quarter turn clockwise.
pub open spec fn cw_of(r: Rotation) -> Rotation {
    match r {
        Rotation::Normal => Rotation::Cw,
        Rotation::Cw => Rotation::Flip,
        Rotation::Ccw => Rotation::Normal,
        Rotation::Flip => Rotation::Ccw,
    }
}

/// Orientation after a quarter turn counter-clockwise.
pub open spec fn ccw_of(r: Rotation) -> Rotation {
    match r {
        Rotation::Normal => Rotation::Ccw,
        Rotation::Cw => Rotation::Normal,
        Rotation::Ccw => Rotation::Flip,
        Rotation::Flip => Rotation::Cw,
    }
}

/// Orientation after a half turn.
pub open spec fn half_of(r: Rotation) -> Rotation {
    match r {
        Rotation::Normal => Rotation::Flip,
        Rotation::Cw => Rotation::Ccw,
        Rotation::Ccw => Rotation::Cw,
        Rotation::Flip => Rotation::Normal,
    }
}

/// The three turns form a closed group: each is undone by its inverse.
pub proof fn lemma_turns_close(r: Rotation)
    ensures
        ccw_of(cw_of(r)) == r,
        cw_of(ccw_of(r)) == r,
        half_of(half_of(r)) == r,
        cw_of(cw_of(r)) == half_of(r),
{
}

impl Rotation {
    pub fn cw(self) -> (r: Rotation)
        ensures
            r == cw_of(self),
    {
        match self {
            Rotation::Normal => Rotation::Cw,
            Rotation::Cw => Rotation::Flip,
            Rotation::Ccw => Rotation::Normal,
            Rotation::Flip => Rotation::Ccw,
        }
    }

    pub fn ccw(self) -> (r: Rotation)
        ensures
            r == ccw_of(self),
    {
        match self {
            Rotation::Normal => Rotation::Ccw,
            Rotation::Cw => Rotation::Normal,
            Rotation::Ccw => Rotation::Flip,
            Rotation::Flip => Rotation::Cw,
        }
    }

    pub fn half(self) -> (r: Rotation)
        ensures
            r == half_of(self),
    {
        match self {
            Rotation::Normal => Rotation::Flip,
            Rotation::Cw => Rotation::Ccw,
            Rotation::Ccw => Rotation::Cw,
            Rotation::Flip => Rotation::Normal,
        }
    }
}

/// The four cells of a piece in an orientation, as (row, column) offsets from its pivot.
pub open spec fn offsets(p: Piece, r: Rotation) -> Seq<(i8, i8)> {
    match p {
        Piece::I => match r {
            Rotation::Normal => seq![(0i8, -1i8), (0i8, 0i8), (0i8, 1i8), (0i8, 2i8)],
            Rotation::Cw => seq![(-1i8, 0i8), (0i8, 0i8), (1i8, 0i8), (2i8, 0i8)],
            Rotation::Ccw => seq![(-2i8, 0i8), (-1i8, 0i8), (0i8, 0i8), (1i8, 0i8)],
            Rotation::Flip => seq![(0i8, -2i8), (0i8, -1i8), (0i8, 0i8), (0i8, 1i8)],
        },
        Piece::J => match r {
            Rotation::Normal => seq![(-1i8, -1i8), (0i8, -1i8), (0i8, 0i8), (0i8, 1i8)],
            Rotation::Cw => seq![(-1i8, 1i8), (-1i8, 0i8), (0i8, 0i8), (1i8, 0i8)],
            Rotation::Ccw => seq![(-1i8, 0i8), (0i8, 0i8), (1i8, 0i8), (1i8, -1i8)],
            Rotation::Flip => seq![(0i8, -1i8), (0i8, 0i8), (0i8, 1i8), (1i8, 1i8)],
        },
        Piece::L => match r {
            Rotation::Normal => seq![(-1i8, 1i8), (0i8, -1i8), (0i8, 0i8), (0i8, 1i8)],
            Rotation::Cw => seq![(1i8, 1i8), (-1i8, 0i8), (0i8, 0i8), (1i8, 0i8)],
            Rotation::Ccw => seq![(-1i8, 0i8), (0i8, 0i8), (1i8, 0i8), (-1i8, -1i8)],
            Rotation::Flip => seq![(0i8, -1i8), (0i8, 0i8), (0i8, 1i8), (1i8, -1i8)],
        },
        Piece::O => seq![(0i8, 0i8), (0i8, 1i8), (1i8, 0i8), (1i8, 1i8)],
        Piece::S => match r {
            Rotation::Normal => seq![(-1i8, 0i8), (-1i8, 1i8), (0i8, 0i8), (0i8, -1i8)],
            Rotation::Cw => seq![(-1i8, 0i8), (0i8, 0i8), (0i8, 1i8), (1i8, 1i8)],
            Rotation::Ccw => seq![(-1i8, -1i8), (0i8, -1i8), (0i8, 0i8), (1i8, 0i8)],
            Rotation::Flip => seq![(0i8, 0i8), (0i8, 1i8), (1i8, -1i8), (1i8, 0i8)],
        },
        Piece::T => match r {
            Rotation::Normal => seq![(-1i8, 0i8), (0i8, -1i8), (0i8, 0i8), (0i8, 1i8)],
            Rotation::Cw => seq![(-1i8, 0i8), (0i8, 0i8), (0i8, 1i8), (1i8, 0i8)],
            Rotation::Ccw => seq![(-1i8, 0i8), (0i8, -1i8), (0i8, 0i8), (1i8, 0i8)],
            Rotation::Flip => seq![(0i8, -1i8), (0i8, 0i8), (0i8, 1i8), (1i8, 0i8)],
        },
        Piece::Z => match r {
            Rotation::Normal => seq![(-1i8, 0i8), (-1i8, -1i8), (0i8, 0i8), (0i8, 1i8)],
            Rotation::Cw => seq![(-1i8, 1i8), (0i8, 0i8), (0i8, 1i8), (1i8, 0i8)],
            Rotation::Ccw => seq![(-1i8, 0i8), (0i8, -1i8), (0i8, 0i8), (1i8, -1i8)],
            Rotation::Flip => seq![(0i8, 0i8), (0i8, -1i8), (1i8, 1i8), (1i8, 0i8)],
        },
    }
}

/// Every offset lies within two cells of the pivot, and the pivot itself is a cell.
pub proof fn lemma_offsets_small(p: Piece, r: Rotation)
    ensures
        offsets(p, r).len() == 4,
        forall|k: int|
            0 <= k < 4 ==> -2 <= #[trigger] offsets(p, r)[k].0 <= 2 && -2 <= offsets(p, r)[k].1
                <= 2,
        exists|k: int| 0 <= k < 4 && #[trigger] offsets(p, r)[k] == (0i8, 0i8),
{
    match p {
        Piece::I => match r {
            Rotation::Normal => assert(offsets(p, r)[1] == (0i8, 0i8)),
            Rotation::Cw => assert(offsets(p, r)[1] == (0i8, 0i8)),
            Rotation::Ccw => assert(offsets(p, r)[2] == (0i8, 0i8)),
            Rotation::Flip => assert(offsets(p, r)[2] == (0i8, 0i8)),
        },
        Piece::J => match r {
            Rotation::Normal => assert(offsets(p, r)[2] == (0i8, 0i8)),
            Rotation::Cw => assert(offsets(p, r)[2] == (0i8, 0i8)),
            Rotation::Ccw => assert(offsets(p, r)[1] == (0i8, 0i8)),
            Rotation::Flip => assert(offsets(p, r)[1] == (0i8, 0i8)),
        },
        Piece::L => match r {
            Rotation::Normal => assert(offsets(p, r)[2] == (0i8, 0i8)),
            Rotation::Cw => assert(offsets(p, r)[2] == (0i8, 0i8)),
            Rotation::Ccw => assert(offsets(p, r)[1] == (0i8, 0i8)),
            Rotation::Flip => assert(offsets(p, r)[1] == (0i8, 0i8)),
        },
        Piece::O => assert(offsets(p, r)[0] == (0i8, 0i8)),
        Piece::S => match r {
            Rotation::Normal => assert(offsets(p, r)[2] == (0i8, 0i8)),
            Rotation::Cw => assert(offsets(p, r)[1] == (0i8, 0i8)),
            Rotation::Ccw => assert(offsets(p, r)[2] == (0i8, 0i8)),
            Rotation::Flip => assert(offsets(p, r)[0] == (0i8, 0i8)),
        },
        Piece::T => match r {
            Rotation::Normal => assert(offsets(p, r)[2] == (0i8, 0i8)),
            Rotation::Cw => assert(offsets(p, r)[1] == (0i8, 0i8)),
            Rotation::Ccw => assert(offsets(p, r)[2] == (0i8, 0i8)),
            Rotation::Flip => assert(offsets(p, r)[1] == (0i8, 0i8)),
        },
        Piece::Z => match r {
            Rotation::Normal => assert(offsets(p, r)[2] == (0i8, 0i8)),
            Rotation::Cw => assert(offsets(p, r)[1] == (0i8, 0i8)),
            Rotation::Ccw => assert(offsets(p, r)[2] == (0i8, 0i8)),
            Rotation::Flip => assert(offsets(p, r)[0] == (0i8, 0i8)),
        },
    }
}

/// Ordered trial shifts tried when turning a piece from `from` to `to`.
pub open spec fn kicks(p: Piece, from: Rotation, to: Rotation) -> Seq<(i8, i8)> {
    match p {
        Piece::I => match (from, to) {
            (Rotation::Normal, Rotation::Cw) => seq![(0i8, 0i8), (0i8, -2i8), (0i8, 1i8), (1i8, -2i8), (-1i8, 2i8)],
            (Rotation::Normal, Rotation::Ccw) => seq![(0i8, 0i8), (0i8, -1i8), (0i8, 2i8), (-2i8, -1i8), (-2i8, 1i8)],
            (Rotation::Cw, Rotation::Normal) => seq![(0i8, 0i8), (0i8, 1i8), (0i8, -2i8), (2i8, 1i8), (-1i8, 2i8)],
            (Rotation::Cw, Rotation::Flip) => seq![(0i8, 0i8), (0i8, -1i8), (0i8, 2i8), (-2i8, -1i8), (1i8, 2i8)],
            (Rotation::Ccw, Rotation::Normal) => seq![(0i8, 0i8), (0i8, 1i8), (0i8, -2i8), (2i8, 1i8), (-1i8, -2i8)],
            (Rotation::Ccw, Rotation::Flip) => seq![(0i8, 0i8), (0i8, -2i8), (0i8, 1i8), (1i8, -2i8), (-2i8, 1i8)],
            (Rotation::Flip, Rotation::Cw) => seq![(0i8, 0i8), (0i8, 1i8), (0i8, -2i8), (2i8, 1i8), (-1i8, -2i8)],
            (Rotation::Flip, Rotation::Ccw) => seq![(0i8, 0i8), (0i8, 2i8), (0i8, -1i8), (-1i8, 2i8), (2i8, -1i8)],
            _ => seq![(0i8, 0i8)],
        },
        Piece::O => seq![(0i8, 0i8)],
        _ => match (from, to) {
            (Rotation::Normal, Rotation::Cw) => seq![(0i8, 0i8), (0i8, -1i8), (-1i8, -1i8), (2i8, 0i8), (2i8, -1i8)],
            (Rotation::Normal, Rotation::Ccw) => seq![(0i8, 0i8), (0i8, 1i8), (-1i8, 1i8), (2i8, 0i8), (2i8, 1i8)],
            (Rotation::Normal, Rotation::Flip) => seq![(0i8, 0i8),
                (-1i8, 0i8),
                (-1i8, 1i8),
                (-1i8, -1i8),
                (0i8, 1i8),
                (0i8, -1i8),
            ],
            (Rotation::Cw, Rotation::Normal) => seq![(0i8, 0i8), (0i8, 1i8), (1i8, 1i8), (-2i8, 0i8), (-2i8, 1i8)],
            (Rotation::Cw, Rotation::Ccw) => seq![(0i8, 0i8),
                (0i8, 1i8),
                (-2i8, 1i8),
                (-1i8, 1i8),
                (-2i8, 0i8),
                (-1i8, 0i8),
            ],
            (Rotation::Cw, Rotation::Flip) => seq![(0i8, 0i8), (0i8, 1i8), (1i8, 1i8), (-2i8, 0i8), (-2i8, 1i8)],
            (Rotation::Ccw, Rotation::Normal) => seq![(0i8, 0i8), (0i8, -1i8), (1i8, -1i8), (-2i8, 0i8), (-2i8, -1i8)],
            (Rotation::Ccw, Rotation::Cw) => seq![(0i8, 0i8),
                (0i8, -1i8),
                (-2i8, -1i8),
                (-1i8, -1i8),
                (-2i8, 0i8),
                (-1i8, 0i8),
            ],
            (Rotation::Ccw, Rotation::Flip) => seq![(0i8, 0i8), (0i8, -1i8), (1i8, -1i8), (-2i8, 0i8), (-2i8, -1i8)],
            (Rotation::Flip, Rotation::Normal) => seq![(0i8, 0i8),
                (1i8, 0i8),
                (1i8, -1i8),
                (1i8, 1i8),
                (0i8, -1i8),
                (0i8, 1i8),
            ],
            (Rotation::Flip, Rotation::Cw) => seq![(0i8, 0i8), (0i8, -1i8), (-1i8, -1i8), (2i8, 0i8), (2i8, -1i8)],
            (Rotation::Flip, Rotation::Ccw) => seq![(0i8, 0i8), (0i8, 1i8), (-1i8, 1i8), (2i8, 0i8), (2i8, 1i8)],
            _ => seq![(0i8, 0i8)],
        },
    }
}

impl Piece {
    /// The cell offsets of this piece in `rotation`.
    pub fn offset_map(&self, rotation: Rotation) -> (r: [(i8, i8); 4])
        ensures
            r@ == offsets(*self, rotation),
    {
        let r = match self {
            Piece::I => match rotation {
                Rotation::Normal => [(0, -1), (0, 0), (0, 1), (0, 2)],
                Rotation::Cw => [(-1, 0), (0, 0), (1, 0), (2, 0)],
                Rotation::Ccw => [(-2, 0), (-1, 0), (0, 0), (1, 0)],
                Rotation::Flip => [(0, -2), (0, -1), (0, 0), (0, 1)],
            },
            Piece::J => match rotation {
                Rotation::Normal => [(-1, -1), (0, -1), (0, 0), (0, 1)],
                Rotation::Cw => [(-1, 1), (-1, 0), (0, 0), (1, 0)],
                Rotation::Ccw => [(-1, 0), (0, 0), (1, 0), (1, -1)],
                Rotation::Flip => [(0, -1), (0, 0), (0, 1), (1, 1)],
            },
            Piece::L => match rotation {
                Rotation::Normal => [(-1, 1), (0, -1), (0, 0), (0, 1)],
                Rotation::Cw => [(1, 1), (-1, 0), (0, 0), (1, 0)],
                Rotation::Ccw => [(-1, 0), (0, 0), (1, 0), (-1, -1)],
                Rotation::Flip => [(0, -1), (0, 0), (0, 1), (1, -1)],
            },
            Piece::O => [(0, 0), (0, 1), (1, 0), (1, 1)],
            Piece::S => match rotation {
                Rotation::Normal => [(-1, 0), (-1, 1), (0, 0), (0, -1)],
                Rotation::Cw => [(-1, 0), (0, 0), (0, 1), (1, 1)],
                Rotation::Ccw => [(-1, -1), (0, -1), (0, 0), (1, 0)],
                Rotation::Flip => [(0, 0), (0, 1), (1, -1), (1, 0)],
            },
            Piece::T => match rotation {
                Rotation::Normal => [(-1, 0), (0, -1), (0, 0), (0, 1)],
                Rotation::Cw => [(-1, 0), (0, 0), (0, 1), (1, 0)],
                Rotation::Ccw => [(-1, 0), (0, -1), (0, 0), (1, 0)],
                Rotation::Flip => [(0, -1), (0, 0), (0, 1), (1, 0)],
            },
            Piece::Z => match rotation {
                Rotation::Normal => [(-1, 0), (-1, -1), (0, 0), (0, 1)],
                Rotation::Cw => [(-1, 1), (0, 0), (0, 1), (1, 0)],
                Rotation::Ccw => [(-1, 0), (0, -1), (0, 0), (1, -1)],
                Rotation::Flip => [(0, 0), (0, -1), (1, 1), (1, 0)],
            },
        };
        assert(r@ =~= offsets(*self, rotation));
        r
    }
}

} // verus!
