use vstd::prelude::*;

use crate::board::{in_bounds, Board};
use crate::movement::Movement;
use crate::piece::{ccw_of, cw_of, half_of, kicks, lemma_offsets_small, offsets, Piece, Rotation};

verus! {

/// A pose of the active piece: pivot row and column, orientation, kind.
#[derive(Clone, Copy, Debug, PartialEq, Eq, Hash, Structural)]
pub struct SearchState {
    pub row: i8,
    pub col: i8,
    pub rotation: Rotation,
    pub piece: Piece,
}

/// The spawn pose of a piece.
pub open spec fn spawn(p: Piece) -> SearchState {
    SearchState { row: 1, col: 4, rotation: Rotation::Normal, piece: p }
}

/// The pose moved by (`dr`, `dc`), with the orientation replaced by `rot`.
pub open spec fn moved(s: SearchState, dr: int, dc: int, rot: Rotation) -> SearchState {
    SearchState { row: (s.row + dr) as i8, col: (s.col + dc) as i8, rotation: rot, piece: s.piece }
}

impl SearchState {
    pub open spec fn cell_row(self, k: int) -> int {
        self.row + offsets(self.piece, self.rotation)[k].0
    }

    pub open spec fn cell_col(self, k: int) -> int {
        self.col + offsets(self.piece, self.rotation)[k].1
    }

    /// Whether the pose covers cell (`r`, `c`).
    pub open spec fn occupies(self, r: int, c: int) -> bool {
        exists|k: int| 0 <= k < 4 && self.cell_row(k) == r && self.cell_col(k) == c
    }

    /// All four cells lie in the well and are empty.
    pub open spec fn fits(self, b: Board) -> bool {
        forall|k: int|
            0 <= k < 4 ==> in_bounds(#[trigger] self.cell_row(k), self.cell_col(k)) && !b.filled(
                self.cell_row(k),
                self.cell_col(k),
            )
    }

    /// Pose after one step left, or unchanged if that collides.
    pub open spec fn left_spec(self, b: Board) -> SearchState {
        let t = moved(self, 0, -1, self.rotation);
        if t.fits(b) {
            t
        } else {
            self
        }
    }

    pub open spec fn right_spec(self, b: Board) -> SearchState {
        let t = moved(self, 0, 1, self.rotation);
        if t.fits(b) {
            t
        } else {
            self
        }
    }

    /// Pose after sliding left until the next step would collide.
    pub open spec fn das_left_spec(self, b: Board) -> SearchState
        decreases self.col + 128,
    {
        if self.col <= -128 {
            self
        } else {
            let t = moved(self, 0, -1, self.rotation);
            if t.fits(b) {
                t.das_left_spec(b)
            } else {
                self
            }
        }
    }

    pub open spec fn das_right_spec(self, b: Board) -> SearchState
        decreases 128 - self.col,
    {
        if self.col >= 127 {
            self
        } else {
            let t = moved(self, 0, 1, self.rotation);
            if t.fits(b) {
                t.das_right_spec(b)
            } else {
                self
            }
        }
    }

    /// The rest pose: moved down until the next step would collide.
    pub open spec fn drop_spec(self, b: Board) -> SearchState
        decreases 128 - self.row,
    {
        if self.row >= 127 {
            self
        } else {
            let t = moved(self, 1, 0, self.rotation);
            if t.fits(b) {
                t.drop_spec(b)
            } else {
                self
            }
        }
    }

    /// The first trial shift of `ks`, from index `i` on, at which `t` fits; `fallback` if none.
    pub open spec fn kicked(
        t: SearchState,
        b: Board,
        ks: Seq<(i8, i8)>,
        i: int,
        fallback: SearchState,
    ) -> SearchState
        decreases ks.len() - i,
    {
        if i < 0 || i >= ks.len() {
            fallback
        } else {
            let u = moved(t, ks[i].0 as int, ks[i].1 as int, t.rotation);
            if u.fits(b) {
                u
            } else {
                Self::kicked(t, b, ks, i + 1, fallback)
            }
        }
    }

    /// A turn to `rot`, with the bar's centre correction (`dr`, `dc`), resolved by the kick table.
    pub open spec fn turn_spec(self, b: Board, rot: Rotation, dr: int, dc: int) -> SearchState {
        let t = if self.piece == Piece::I {
            moved(self, dr, dc, rot)
        } else {
            moved(self, 0, 0, rot)
        };
        Self::kicked(t, b, kicks(self.piece, self.rotation, rot), 0, self)
    }

    pub open spec fn rotate_cw_spec(self, b: Board) -> SearchState {
        let rot = cw_of(self.rotation);
        let (dr, dc) = bar_shift_cw(rot);
        self.turn_spec(b, rot, dr, dc)
    }

    pub open spec fn rotate_ccw_spec(self, b: Board) -> SearchState {
        let rot = ccw_of(self.rotation);
        let (dr, dc) = bar_shift_ccw(rot);
        self.turn_spec(b, rot, dr, dc)
    }

    pub open spec fn rotate_180_spec(self, b: Board) -> SearchState {
        let rot = half_of(self.rotation);
        let (dr, dc) = bar_shift_half(rot);
        self.turn_spec(b, rot, dr, dc)
    }

    /// The pose that one input leads to. Both drops lead to the rest pose.
    pub open spec fn step(self, b: Board, m: Movement) -> SearchState {
        match m {
            Movement::Left => self.left_spec(b),
            Movement::DasLeft => self.das_left_spec(b),
            Movement::Right => self.right_spec(b),
            Movement::DasRight => self.das_right_spec(b),
            Movement::SoftDrop => self.drop_spec(b),
            Movement::HardDrop => self.drop_spec(b),
            Movement::RotateCw => self.rotate_cw_spec(b),
            Movement::RotateCcw => self.rotate_ccw_spec(b),
            Movement::Rotate180 => self.rotate_180_spec(b),
        }
    }

    /// The same footprint written as another pose, where the piece has one.
    pub open spec fn symmetrical_spec(self) -> SearchState {
        match (self.piece, self.rotation) {
            (Piece::I, Rotation::Normal) => moved(self, 0, 1, Rotation::Flip),
            (Piece::I, Rotation::Cw) => moved(self, 1, 0, Rotation::Ccw),
            (Piece::I, Rotation::Ccw) => moved(self, -1, 0, Rotation::Cw),
            (Piece::I, Rotation::Flip) => moved(self, 0, -1, Rotation::Normal),
            (Piece::S, Rotation::Normal) | (Piece::Z, Rotation::Normal) => moved(
                self,
                -1,
                0,
                Rotation::Flip,
            ),
            (Piece::S, Rotation::Cw) | (Piece::Z, Rotation::Cw) => moved(self, 0, 1, Rotation::Ccw),
            (Piece::S, Rotation::Ccw) | (Piece::Z, Rotation::Ccw) => moved(self, 0, -1, Rotation::Cw),
            (Piece::S, Rotation::Flip) | (Piece::Z, Rotation::Flip) => moved(
                self,
                1,
                0,
                Rotation::Normal,
            ),
            _ => self,
        }
    }
}

impl Piece {
    /// The trial shifts for a turn from `old_rot` to `new_rot`.
    pub fn kick_map(&self, old_rot: Rotation, new_rot: Rotation) -> (r: Vec<(i8, i8)>)
        ensures
            r@ == kicks(*self, old_rot, new_rot),
    {
        let r: Vec<(i8, i8)> = match self {
            Piece::I => match (old_rot, new_rot) {
                (Rotation::Normal, Rotation::Cw) => vec![(0, 0), (0, -2), (0, 1), (1, -2), (-1, 2)],
                (Rotation::Normal, Rotation::Ccw) => vec![(0, 0), (0, -1), (0, 2), (-2, -1), (-2, 1)],
                (Rotation::Cw, Rotation::Normal) => vec![(0, 0), (0, 1), (0, -2), (2, 1), (-1, 2)],
                (Rotation::Cw, Rotation::Flip) => vec![(0, 0), (0, -1), (0, 2), (-2, -1), (1, 2)],
                (Rotation::Ccw, Rotation::Normal) => vec![(0, 0), (0, 1), (0, -2), (2, 1), (-1, -2)],
                (Rotation::Ccw, Rotation::Flip) => vec![(0, 0), (0, -2), (0, 1), (1, -2), (-2, 1)],
                (Rotation::Flip, Rotation::Cw) => vec![(0, 0), (0, 1), (0, -2), (2, 1), (-1, -2)],
                (Rotation::Flip, Rotation::Ccw) => vec![(0, 0), (0, 2), (0, -1), (-1, 2), (2, -1)],
                _ => vec![(0, 0)],
            },
            Piece::O => vec![(0, 0)],
            _ => match (old_rot, new_rot) {
                (Rotation::Normal, Rotation::Cw) => vec![(0, 0), (0, -1), (-1, -1), (2, 0), (2, -1)],
                (Rotation::Normal, Rotation::Ccw) => vec![(0, 0), (0, 1), (-1, 1), (2, 0), (2, 1)],
                (Rotation::Normal, Rotation::Flip) => vec![(0, 0), (-1, 0), (-1, 1), (-1, -1), (0, 1), (0, -1)],
                (Rotation::Cw, Rotation::Normal) => vec![(0, 0), (0, 1), (1, 1), (-2, 0), (-2, 1)],
                (Rotation::Cw, Rotation::Ccw) => vec![(0, 0), (0, 1), (-2, 1), (-1, 1), (-2, 0), (-1, 0)],
                (Rotation::Cw, Rotation::Flip) => vec![(0, 0), (0, 1), (1, 1), (-2, 0), (-2, 1)],
                (Rotation::Ccw, Rotation::Normal) => vec![(0, 0), (0, -1), (1, -1), (-2, 0), (-2, -1)],
                (Rotation::Ccw, Rotation::Cw) => vec![(0, 0), (0, -1), (-2, -1), (-1, -1), (-2, 0), (-1, 0)],
                (Rotation::Ccw, Rotation::Flip) => vec![(0, 0), (0, -1), (1, -1), (-2, 0), (-2, -1)],
                (Rotation::Flip, Rotation::Normal) => vec![(0, 0), (1, 0), (1, -1), (1, 1), (0, -1), (0, 1)],
                (Rotation::Flip, Rotation::Cw) => vec![(0, 0), (0, -1), (-1, -1), (2, 0), (2, -1)],
                (Rotation::Flip, Rotation::Ccw) => vec![(0, 0), (0, 1), (-1, 1), (2, 0), (2, 1)],
                _ => vec![(0, 0)],
            },
        };
        assert(r@ =~= kicks(*self, old_rot, new_rot));
        r
    }
}

impl SearchState {
    pub fn new(row: i8, col: i8, rotation: Rotation, piece: Piece) -> (s: SearchState)
        ensures
            s == (SearchState { row, col, rotation, piece }),
    {
        SearchState { row, col, rotation, piece }
    }

    /// True iff a cell of the pose lies outside the well or on a filled cell.
    pub fn intersects(&self, board: &Board) -> (r: bool)
        requires
            -100 <= self.row <= 100,
            -100 <= self.col <= 100,
        ensures
            r == !self.fits(*board),
    {
        let offs = self.piece.offset_map(self.rotation);
        proof {
            lemma_offsets_small(self.piece, self.rotation);
        }
        let mut k: usize = 0;
        while k < 4
            invariant
                k <= 4,
                -100 <= self.row <= 100,
                -100 <= self.col <= 100,
                offs@ == offsets(self.piece, self.rotation),
                forall|j: int| 0 <= j < 4 ==> -2 <= #[trigger] offs@[j].0 <= 2 && -2 <= offs@[j].1 <= 2,
                forall|j: int|
                    0 <= j < k ==> in_bounds(#[trigger] self.cell_row(j), self.cell_col(j))
                        && !board.filled(self.cell_row(j), self.cell_col(j)),
            decreases 4 - k,
        {
            let (dr, dc) = offs[k];
            let r: i16 = self.row as i16 + dr as i16;
            let c: i16 = self.col as i16 + dc as i16;
            if r < 0 || r >= 23 || c < 0 || c >= 10 {
                assert(!in_bounds(self.cell_row(k as int), self.cell_col(k as int)));
                return true;
            }
            if board.is_filled(r as usize, c as usize) {
                assert(board.filled(self.cell_row(k as int), self.cell_col(k as int)));
                return true;
            }
            k += 1;
        }
        false
    }

    fn shifted(&self, dr: i8, dc: i8, rot: Rotation) -> (t: SearchState)
        requires
            -100 <= self.row <= 100,
            -100 <= self.col <= 100,
            -5 <= dr <= 5,
            -5 <= dc <= 5,
        ensures
            t == moved(*self, dr as int, dc as int, rot),
    {
        SearchState { row: self.row + dr, col: self.col + dc, rotation: rot, piece: self.piece }
    }

    pub fn left(&self, board: &Board) -> (t: SearchState)
        requires
            self.fits(*board),
        ensures
            t == self.left_spec(*board),
            t.fits(*board),
    {
        proof {
            lemma_fits_pivot(*self, *board);
        }
        let t = self.shifted(0, -1, self.rotation);
        if t.intersects(board) {
            *self
        } else {
            t
        }
    }

    pub fn right(&self, board: &Board) -> (t: SearchState)
        requires
            self.fits(*board),
        ensures
            t == self.right_spec(*board),
            t.fits(*board),
    {
        proof {
            lemma_fits_pivot(*self, *board);
        }
        let t = self.shifted(0, 1, self.rotation);
        if t.intersects(board) {
            *self
        } else {
            t
        }
    }

    pub fn das_left(&self, board: &Board) -> (t: SearchState)
        requires
            self.fits(*board),
        ensures
            t == self.das_left_spec(*board),
            t.fits(*board),
    {
        let mut cur = *self;
        loop
            invariant
                cur.fits(*board),
                cur.das_left_spec(*board) == self.das_left_spec(*board),
            decreases cur.col + 1,
        {
            proof {
                lemma_fits_pivot(cur, *board);
            }
            let t = cur.shifted(0, -1, cur.rotation);
            if t.intersects(board) {
                return cur;
            }
            proof {
                lemma_fits_pivot(t, *board);
            }
            cur = t;
        }
    }

    pub fn das_right(&self, board: &Board) -> (t: SearchState)
        requires
            self.fits(*board),
        ensures
            t == self.das_right_spec(*board),
            t.fits(*board),
    {
        let mut cur = *self;
        loop
            invariant
                cur.fits(*board),
                cur.das_right_spec(*board) == self.das_right_spec(*board),
            decreases 10 - cur.col,
        {
            proof {
                lemma_fits_pivot(cur, *board);
            }
            let t = cur.shifted(0, 1, cur.rotation);
            if t.intersects(board) {
                return cur;
            }
            proof {
                lemma_fits_pivot(t, *board);
            }
            cur = t;
        }
    }

    /// The rest pose reached by dropping straight down.
    pub fn drop(&self, board: &Board) -> (t: SearchState)
        requires
            self.fits(*board),
        ensures
            t == self.drop_spec(*board),
            t.fits(*board),
    {
        let mut cur = *self;
        loop
            invariant
                cur.fits(*board),
                cur.drop_spec(*board) == self.drop_spec(*board),
            decreases 23 - cur.row,
        {
            proof {
                lemma_fits_pivot(cur, *board);
            }
            let t = cur.shifted(1, 0, cur.rotation);
            if t.intersects(board) {
                return cur;
            }
            proof {
                lemma_fits_pivot(t, *board);
            }
            cur = t;
        }
    }

    /// Tries the trial shifts in order on the turned pose `t`; `fallback` if none fits.
    fn apply_kicks(t: SearchState, board: &Board, ks: &Vec<(i8, i8)>, fallback: SearchState) -> (u:
        SearchState)
        requires
            -50 <= t.row <= 50,
            -50 <= t.col <= 50,
            forall|i: int| 0 <= i < ks@.len() ==> -2 <= #[trigger] ks@[i].0 <= 2 && -2 <= ks@[i].1 <= 2,
        ensures
            u == Self::kicked(t, *board, ks@, 0, fallback),
    {
        let mut i: usize = 0;
        while i < ks.len()
            invariant
                i <= ks@.len(),
                -50 <= t.row <= 50,
                -50 <= t.col <= 50,
                forall|j: int| 0 <= j < ks@.len() ==> -2 <= #[trigger] ks@[j].0 <= 2 && -2 <= ks@[j].1 <= 2,
                Self::kicked(t, *board, ks@, 0, fallback) == Self::kicked(
                    t,
                    *board,
                    ks@,
                    i as int,
                    fallback,
                ),
            decreases ks@.len() - i,
        {
            let (dr, dc) = ks[i];
            let u = t.shifted(dr, dc, t.rotation);
            if !u.intersects(board) {
                return u;
            }
            i += 1;
        }
        fallback
    }

    fn turn(&self, board: &Board, rot: Rotation, dr: i8, dc: i8) -> (t: SearchState)
        requires
            self.fits(*board),
            -1 <= dr <= 1,
            -1 <= dc <= 1,
        ensures
            t == self.turn_spec(*board, rot, dr as int, dc as int),
    {
        proof {
            lemma_fits_pivot(*self, *board);
        }
        let t = if self.piece == Piece::I {
            self.shifted(dr, dc, rot)
        } else {
            self.shifted(0, 0, rot)
        };
        let ks = self.piece.kick_map(self.rotation, rot);
        assert forall|i: int| 0 <= i < ks@.len() implies -2 <= #[trigger] ks@[i].0 <= 2 && -2
            <= ks@[i].1 <= 2 by {
            lemma_kicks_small(self.piece, self.rotation, rot);
        }
        Self::apply_kicks(t, board, &ks, *self)
    }

    pub fn rotate_cw(&self, board: &Board) -> (t: SearchState)
        requires
            self.fits(*board),
        ensures
            t == self.rotate_cw_spec(*board),
            t.fits(*board),
    {
        let rot = self.rotation.cw();
        let (dr, dc): (i8, i8) = match rot {
            Rotation::Normal => (-1, 0),
            Rotation::Cw => (0, 1),
            Rotation::Ccw => (0, -1),
            Rotation::Flip => (1, 0),
        };
        let t = self.turn(board, rot, dr, dc);
        proof {
            lemma_kicked_fits(*self, *board, rot, dr as int, dc as int);
        }
        t
    }

    pub fn rotate_ccw(&self, board: &Board) -> (t: SearchState)
        requires
            self.fits(*board),
        ensures
            t == self.rotate_ccw_spec(*board),
            t.fits(*board),
    {
        let rot = self.rotation.ccw();
        let (dr, dc): (i8, i8) = match rot {
            Rotation::Normal => (0, -1),
            Rotation::Cw => (-1, 0),
            Rotation::Ccw => (1, 0),
            Rotation::Flip => (0, 1),
        };
        let t = self.turn(board, rot, dr, dc);
        proof {
            lemma_kicked_fits(*self, *board, rot, dr as int, dc as int);
        }
        t
    }

    pub fn rotate_180(&self, board: &Board) -> (t: SearchState)
        requires
            self.fits(*board),
        ensures
            t == self.rotate_180_spec(*board),
            t.fits(*board),
    {
        let rot = self.rotation.half();
        let (dr, dc): (i8, i8) = match rot {
            Rotation::Normal => (-1, -1),
            Rotation::Cw => (-1, 1),
            Rotation::Ccw => (1, -1),
            Rotation::Flip => (1, 1),
        };
        let t = self.turn(board, rot, dr, dc);
        proof {
            lemma_kicked_fits(*self, *board, rot, dr as int, dc as int);
        }
        t
    }

    /// The pose that one input leads to.
    pub fn apply(&self, board: &Board, m: Movement) -> (t: SearchState)
        requires
            self.fits(*board),
        ensures
            t == self.step(*board, m),
            t.fits(*board),
    {
        match m {
            Movement::Left => self.left(board),
            Movement::DasLeft => self.das_left(board),
            Movement::Right => self.right(board),
            Movement::DasRight => self.das_right(board),
            Movement::SoftDrop => self.drop(board),
            Movement::HardDrop => self.drop(board),
            Movement::RotateCw => self.rotate_cw(board),
            Movement::RotateCcw => self.rotate_ccw(board),
            Movement::Rotate180 => self.rotate_180(board),
        }
    }

    /// The eight poses one input away, each with its input.
    pub fn successors(&self, board: &Board) -> (r: Vec<(SearchState, Movement)>)
        requires
            self.fits(*board),
        ensures
            r@.len() == 8,
            forall|i: int|
                0 <= i < 8 ==> #[trigger] r@[i] == (self.step(*board, move_order()[i]), move_order()[i]),
            forall|i: int| 0 <= i < 8 ==> (#[trigger] r@[i]).0.fits(*board),
    {
        let mut r: Vec<(SearchState, Movement)> = Vec::new();
        r.push((self.left(board), Movement::Left));
        r.push((self.das_left(board), Movement::DasLeft));
        r.push((self.right(board), Movement::Right));
        r.push((self.das_right(board), Movement::DasRight));
        r.push((self.drop(board), Movement::SoftDrop));
        r.push((self.rotate_cw(board), Movement::RotateCw));
        r.push((self.rotate_ccw(board), Movement::RotateCcw));
        r.push((self.rotate_180(board), Movement::Rotate180));
        r
    }

    /// The alternate encoding of the same footprint (see `symmetrical_spec`).
    pub fn symmetrical(&self) -> (t: SearchState)
        requires
            -100 <= self.row <= 100,
            -100 <= self.col <= 100,
        ensures
            t == self.symmetrical_spec(),
    {
        match (self.piece, self.rotation) {
            (Piece::I, Rotation::Normal) => self.shifted(0, 1, Rotation::Flip),
            (Piece::I, Rotation::Cw) => self.shifted(1, 0, Rotation::Ccw),
            (Piece::I, Rotation::Ccw) => self.shifted(-1, 0, Rotation::Cw),
            (Piece::I, Rotation::Flip) => self.shifted(0, -1, Rotation::Normal),
            (Piece::S, Rotation::Normal) | (Piece::Z, Rotation::Normal) => self.shifted(-1, 0, Rotation::Flip),
            (Piece::S, Rotation::Cw) | (Piece::Z, Rotation::Cw) => self.shifted(0, 1, Rotation::Ccw),
            (Piece::S, Rotation::Ccw) | (Piece::Z, Rotation::Ccw) => self.shifted(0, -1, Rotation::Cw),
            (Piece::S, Rotation::Flip) | (Piece::Z, Rotation::Flip) => self.shifted(1, 0, Rotation::Normal),
            _ => *self,
        }
    }
}

pub proof fn lemma_kicks_small(p: Piece, from: Rotation, to: Rotation)
    ensures
        forall|i: int|
            0 <= i < kicks(p, from, to).len() ==> -2 <= #[trigger] kicks(p, from, to)[i].0 <= 2 && -2
                <= kicks(p, from, to)[i].1 <= 2,
{
}

/// Whatever the kick table gives, the result of a turn from a fitting pose fits.
pub proof fn lemma_kicked_fits(s: SearchState, b: Board, rot: Rotation, dr: int, dc: int)
    requires
        s.fits(b),
    ensures
        s.turn_spec(b, rot, dr, dc).fits(b),
{
    let t = if s.piece == Piece::I {
        moved(s, dr, dc, rot)
    } else {
        moved(s, 0, 0, rot)
    };
    lemma_kicked_fits_from(t, b, kicks(s.piece, s.rotation, rot), 0, s);
}

proof fn lemma_kicked_fits_from(t: SearchState, b: Board, ks: Seq<(i8, i8)>, i: int, fb: SearchState)
    requires
        fb.fits(b),
    ensures
        SearchState::kicked(t, b, ks, i, fb).fits(b),
    decreases ks.len() - i,
{
    if 0 <= i < ks.len() {
        lemma_kicked_fits_from(t, b, ks, i + 1, fb);
    }
}

/// The inputs applied in order from `s`.
pub open spec fn replay(s: SearchState, b: Board, path: Seq<Movement>) -> SearchState
    decreases path.len(),
{
    if path.len() == 0 {
        s
    } else {
        replay(s, b, path.drop_last()).step(b, path.last())
    }
}

/// The eight inputs in the order in which successors are listed.
pub open spec fn move_order() -> Seq<Movement> {
    seq![
        Movement::Left,
        Movement::DasLeft,
        Movement::Right,
        Movement::DasRight,
        Movement::SoftDrop,
        Movement::RotateCw,
        Movement::RotateCcw,
        Movement::Rotate180,
    ]
}

/// Centre correction of the bar for a clockwise turn into `rot`.
pub open spec fn bar_shift_cw(rot: Rotation) -> (int, int) {
    match rot {
        Rotation::Normal => (-1, 0),
        Rotation::Cw => (0, 1),
        Rotation::Ccw => (0, -1),
        Rotation::Flip => (1, 0),
    }
}

pub open spec fn bar_shift_ccw(rot: Rotation) -> (int, int) {
    match rot {
        Rotation::Normal => (0, -1),
        Rotation::Cw => (-1, 0),
        Rotation::Ccw => (1, 0),
        Rotation::Flip => (0, 1),
    }
}

pub open spec fn bar_shift_half(rot: Rotation) -> (int, int) {
    match rot {
        Rotation::Normal => (-1, -1),
        Rotation::Cw => (-1, 1),
        Rotation::Ccw => (1, -1),
        Rotation::Flip => (1, 1),
    }
}

/// A single input from a fitting pose leads to a fitting pose.
pub proof fn lemma_step_fits_spec(s: SearchState, b: Board, m: Movement)
    requires
        s.fits(b),
    ensures
        s.step(b, m).fits(b),
{
    lemma_das_left_fits(s, b);
    lemma_das_right_fits(s, b);
    lemma_drop_fits(s, b);
    lemma_kicked_fits(s, b, cw_of(s.rotation), bar_shift_cw(cw_of(s.rotation)).0, bar_shift_cw(cw_of(s.rotation)).1);
    lemma_kicked_fits(s, b, ccw_of(s.rotation), bar_shift_ccw(ccw_of(s.rotation)).0, bar_shift_ccw(ccw_of(s.rotation)).1);
    lemma_kicked_fits(s, b, half_of(s.rotation), bar_shift_half(half_of(s.rotation)).0, bar_shift_half(half_of(s.rotation)).1);
}

proof fn lemma_das_left_fits(s: SearchState, b: Board)
    requires
        s.fits(b),
    ensures
        s.das_left_spec(b).fits(b),
    decreases s.col + 128,
{
    if s.col > -128 {
        let t = moved(s, 0, -1, s.rotation);
        if t.fits(b) {
            lemma_das_left_fits(t, b);
        }
    }
}

proof fn lemma_das_right_fits(s: SearchState, b: Board)
    requires
        s.fits(b),
    ensures
        s.das_right_spec(b).fits(b),
    decreases 128 - s.col,
{
    if s.col < 127 {
        let t = moved(s, 0, 1, s.rotation);
        if t.fits(b) {
            lemma_das_right_fits(t, b);
        }
    }
}

proof fn lemma_drop_fits(s: SearchState, b: Board)
    requires
        s.fits(b),
    ensures
        s.drop_spec(b).fits(b),
    decreases 128 - s.row,
{
    if s.row < 127 {
        let t = moved(s, 1, 0, s.rotation);
        if t.fits(b) {
            lemma_drop_fits(t, b);
        }
    }
}

/// A single input never changes the kind of the piece.
pub proof fn lemma_step_keeps_piece(s: SearchState, b: Board, m: Movement)
    ensures
        s.step(b, m).piece == s.piece,
{
    lemma_das_left_keeps_piece(s, b);
    lemma_das_right_keeps_piece(s, b);
    lemma_drop_keeps_piece(s, b);
    lemma_kicked_keeps_piece(moved(s, bar_shift_cw(cw_of(s.rotation)).0, bar_shift_cw(cw_of(s.rotation)).1, cw_of(s.rotation)), b, kicks(s.piece, s.rotation, cw_of(s.rotation)), 0, s);
    lemma_kicked_keeps_piece(moved(s, 0, 0, cw_of(s.rotation)), b, kicks(s.piece, s.rotation, cw_of(s.rotation)), 0, s);
    lemma_kicked_keeps_piece(moved(s, bar_shift_ccw(ccw_of(s.rotation)).0, bar_shift_ccw(ccw_of(s.rotation)).1, ccw_of(s.rotation)), b, kicks(s.piece, s.rotation, ccw_of(s.rotation)), 0, s);
    lemma_kicked_keeps_piece(moved(s, 0, 0, ccw_of(s.rotation)), b, kicks(s.piece, s.rotation, ccw_of(s.rotation)), 0, s);
    lemma_kicked_keeps_piece(moved(s, bar_shift_half(half_of(s.rotation)).0, bar_shift_half(half_of(s.rotation)).1, half_of(s.rotation)), b, kicks(s.piece, s.rotation, half_of(s.rotation)), 0, s);
    lemma_kicked_keeps_piece(moved(s, 0, 0, half_of(s.rotation)), b, kicks(s.piece, s.rotation, half_of(s.rotation)), 0, s);
}

proof fn lemma_das_left_keeps_piece(s: SearchState, b: Board)
    ensures
        s.das_left_spec(b).piece == s.piece,
    decreases s.col + 128,
{
    if s.col > -128 {
        let t = moved(s, 0, -1, s.rotation);
        if t.fits(b) {
            lemma_das_left_keeps_piece(t, b);
        }
    }
}

proof fn lemma_das_right_keeps_piece(s: SearchState, b: Board)
    ensures
        s.das_right_spec(b).piece == s.piece,
    decreases 128 - s.col,
{
    if s.col < 127 {
        let t = moved(s, 0, 1, s.rotation);
        if t.fits(b) {
            lemma_das_right_keeps_piece(t, b);
        }
    }
}

proof fn lemma_drop_keeps_piece(s: SearchState, b: Board)
    ensures
        s.drop_spec(b).piece == s.piece,
    decreases 128 - s.row,
{
    if s.row < 127 {
        let t = moved(s, 1, 0, s.rotation);
        if t.fits(b) {
            lemma_drop_keeps_piece(t, b);
        }
    }
}

proof fn lemma_kicked_keeps_piece(t: SearchState, b: Board, ks: Seq<(i8, i8)>, i: int, fb: SearchState)
    requires
        t.piece == fb.piece,
    ensures
        SearchState::kicked(t, b, ks, i, fb).piece == fb.piece,
    decreases ks.len() - i,
{
    if 0 <= i < ks.len() {
        lemma_kicked_keeps_piece(t, b, ks, i + 1, fb);
    }
}

/// A pose that fits has its pivot inside the well.
pub proof fn lemma_fits_pivot(s: SearchState, b: Board)
    requires
        s.fits(b),
    ensures
        0 <= s.row < 23,
        0 <= s.col < 10,
{
    lemma_offsets_small(s.piece, s.rotation);
    let k = choose|k: int| 0 <= k < 4 && #[trigger] offsets(s.piece, s.rotation)[k] == (0i8, 0i8);
    assert(in_bounds(s.cell_row(k), s.cell_col(k)));
}

/// The alternate encoding of a pose covers exactly the same cells.
pub proof fn lemma_symmetrical_same_cells(s: SearchState, r: int, c: int)
    requires
        -100 <= s.row <= 100,
        -100 <= s.col <= 100,
    ensures
        s.occupies(r, c) == s.symmetrical_spec().occupies(r, c),
{
    let t = s.symmetrical_spec();
    if s.occupies(r, c) {
        let k = choose|k: int| 0 <= k < 4 && s.cell_row(k) == r && s.cell_col(k) == c;
        assert(exists|j: int| 0 <= j < 4 && t.cell_row(j) == r && t.cell_col(j) == c) by {
            if t.cell_row(0) == r && t.cell_col(0) == c {
                assert(0 <= 0int < 4);
            } else if t.cell_row(1) == r && t.cell_col(1) == c {
                assert(0 <= 1int < 4);
            } else if t.cell_row(2) == r && t.cell_col(2) == c {
                assert(0 <= 2int < 4);
            } else {
                assert(t.cell_row(3) == r && t.cell_col(3) == c);
            }
        }
    }
    if t.occupies(r, c) {
        let k = choose|k: int| 0 <= k < 4 && t.cell_row(k) == r && t.cell_col(k) == c;
        assert(exists|j: int| 0 <= j < 4 && s.cell_row(j) == r && s.cell_col(j) == c) by {
            if s.cell_row(0) == r && s.cell_col(0) == c {
                assert(0 <= 0int < 4);
            } else if s.cell_row(1) == r && s.cell_col(1) == c {
                assert(0 <= 1int < 4);
            } else if s.cell_row(2) == r && s.cell_col(2) == c {
                assert(0 <= 2int < 4);
            } else {
                assert(s.cell_row(3) == r && s.cell_col(3) == c);
            }
        }
    }
}

} // verus!
