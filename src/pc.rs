use vstd::prelude::*;

use std::collections::HashSet;

use crate::board::{in_bounds, Board, COLS, ROWS};
use crate::picture::{cells_of, route_cells, route_picture, same_picture, Cells};
use crate::pc_state::{band_top, pc_step, PcState};
use crate::piece::Piece;
use crate::placement::Placement;

verus! {

/// One perfect-clear route: the board it starts from and the actions in order.
#[derive(Clone, Debug)]
pub struct Pc {
    pub board: Board,
    pub placements: Vec<Placement>,
}

/// `states` runs from its first node by the actions `pls`, each one a legal step.
pub open spec fn route(states: Seq<PcState>, pls: Seq<Placement>, queue: Seq<Piece>) -> bool {
    &&& states.len() == pls.len() + 1
    &&& forall|k: int| 0 <= k < pls.len() ==> pc_step(states[k], states[k + 1], #[trigger] pls[k], queue)
}

/// The node a search for a clear of the bottom `h` rows starts from.
pub open spec fn root(board: Board, piece: Option<Piece>, hold: Option<Piece>, h: int) -> PcState {
    PcState { board, queue_used: 0, piece, hold, height: h as u8 }
}

/// The actions `pls`, from `board` with the active piece, the held piece and `queue`, clear the
/// bottom one to four rows and leave the well otherwise empty.
pub open spec fn clears(
    board: Board,
    piece: Option<Piece>,
    hold: Option<Piece>,
    queue: Seq<Piece>,
    pls: Seq<Placement>,
) -> bool {
    exists|states: Seq<PcState>|
        #[trigger] route(states, pls, queue) && 1 <= states[0].height <= 4 && states[0] == root(
            board,
            piece,
            hold,
            states[0].height as int,
        ) && states.last().solved()
}

/// Filled cells among the first `n` cells of the well, row by row.
pub open spec fn filled_upto(b: Board, n: int) -> nat
    decreases n,
{
    if n <= 0 {
        0
    } else {
        filled_upto(b, n - 1) + if b.tiles@[n - 1].piece is Some {
            1nat
        } else {
            0nat
        }
    }
}

/// Actions of `pls` that lock a piece.
pub open spec fn places(pls: Seq<Placement>) -> nat
    decreases pls.len(),
{
    if pls.len() == 0 {
        0
    } else {
        places(pls.drop_last()) + if pls.last() is Place {
            1nat
        } else {
            0nat
        }
    }
}

pub(crate) fn copy_placements(p: &Vec<Placement>) -> (r: Vec<Placement>)
    ensures
        r@ == p@,
{
    let mut r: Vec<Placement> = Vec::new();
    let mut i: usize = 0;
    while i < p.len()
        invariant
            i <= p@.len(),
            r@ == p@.subrange(0, i as int),
        decreases p@.len() - i,
    {
        r.push(p[i]);
        i += 1;
        assert(r@ =~= p@.subrange(0, i as int));
    }
    assert(r@ =~= p@);
    r
}

impl Pc {
    pub fn new(board: Board, placements: Vec<Placement>) -> (pc: Pc)
        ensures
            pc.board == board,
            pc.placements@ == placements@,
    {
        Pc { board, placements }
    }

    /// The picture of the route: the starting board with every piece drawn where it landed,
    /// in the rows it had before any line clear. Two routes that differ only in the order of
    /// their pieces draw the same picture.
    pub open spec fn picture(&self) -> Cells {
        route_picture(cells_of(self.board), self.placements@).2
    }

    /// The picture of the route as a board.
    pub fn get_final_board(&self) -> (b: Board)
        ensures
            cells_of(b) == self.picture(),
    {
        let pic = route_cells(&self.board, &self.placements);
        proof {
            crate::picture::lemma_route_len(cells_of(self.board), self.placements@);
        }
        let mut b = Board::new();
        let mut i: usize = 0;
        while i < 230
            invariant
                i <= 230,
                pic@.len() == 230,
                forall|j: int| 0 <= j < i ==> #[trigger] b.tiles@[j].piece == pic@[j],
            decreases 230 - i,
        {
            let ghost before = b;
            b.set(i / 10, i % 10, pic[i]);
            proof {
                assert forall|j: int| 0 <= j < i + 1 implies #[trigger] b.tiles@[j].piece == pic@[j] by {
                    assert(b.cell(j / 10, j % 10) == b.tiles@[j].piece);
                    if j < i {
                        assert(before.cell(j / 10, j % 10) == before.tiles@[j].piece);
                    }
                }
            }
            i += 1;
        }
        assert(cells_of(b) =~= pic@);
        b
    }

    /// True iff the two routes draw the same picture.
    pub fn same_result(&self, other: &Pc) -> (r: bool)
        ensures
            r == (self.picture() == other.picture()),
    {
        let a = route_cells(&self.board, &self.placements);
        let b = route_cells(&other.board, &other.placements);
        same_picture(&a, &b)
    }

    /// Rows the route clears: the filled visible cells and four per locked piece, over ten.
    pub fn height(&self) -> (h: u8)
        requires
            self.placements@.len() < 100,
        ensures
            h as int == (filled_upto(self.board, 230) - filled_upto(self.board, 30) + 4 * places(
                self.placements@,
            )) / 10,
    {
        let mut below: usize = 0;
        let mut all: usize = 0;
        let mut i: usize = 0;
        while i < 230
            invariant
                i <= 230,
                all == filled_upto(self.board, i as int),
                all <= i,
                i <= 30 ==> below == all,
                i > 30 ==> below == filled_upto(self.board, 30),
            decreases 230 - i,
        {
            if self.board.tiles[i].piece.is_some() {
                all += 1;
            }
            i += 1;
            if i <= 30 {
                below = all;
            }
        }
        proof {
            lemma_filled_upto_mono(self.board, 30, 230);
        }
        let mut count: usize = all - below;
        let mut k: usize = 0;
        while k < self.placements.len()
            invariant
                k <= self.placements@.len(),
                self.placements@.len() < 100,
                count == all - below + 4 * places(self.placements@.subrange(0, k as int)),
                places(self.placements@.subrange(0, k as int)) <= k,
                all <= 230,
                below <= all,
            decreases self.placements@.len() - k,
        {
            proof {
                assert(self.placements@.subrange(0, k as int + 1).drop_last() =~= self.placements@.subrange(
                    0,
                    k as int,
                ));
            }
            if let Placement::Place { .. } = self.placements[k] {
                count += 4;
            }
            k += 1;
        }
        assert(self.placements@.subrange(0, self.placements@.len() as int) =~= self.placements@);
        (count / 10) as u8
    }
}

proof fn lemma_filled_upto_mono(b: Board, m: int, n: int)
    requires
        0 <= m <= n,
    ensures
        filled_upto(b, m) <= filled_upto(b, n),
    decreases n - m,
{
    if m < n {
        lemma_filled_upto_mono(b, m, n - 1);
    }
}

} // verus!
