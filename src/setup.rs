use vstd::prelude::*;

use crate::board::{cell_col, cell_row, fits_in_well, in_bounds, Board};
use crate::locations::{get_locations, listed, reachable_rest, same_spot, spot_reached};
use crate::search_state::spawn;
use crate::pc::{copy_placements, filled_upto};
use crate::pc_state::stamped;
use crate::piece::{Piece, Rotation};
use crate::placement::Placement;
use crate::search_state::SearchState;

verus! {

/// A prebuilt skeleton: a named list of target placements, in no particular order.
#[derive(Debug)]
pub struct PcSetup {
    pub name: String,
    /// Whether this is the left-right reflection of the skeleton that bears the name.
    pub mirrored: bool,
    pub placements: Vec<Placement>,
}

/// A node of the build search.
#[derive(Debug)]
pub struct SetupState {
    pub board: Board,
    /// Skeleton placements still to make.
    pub placements: Vec<Placement>,
    pub queue: Vec<Piece>,
    pub piece: Option<Piece>,
    pub hold: Option<Piece>,
    /// Holds used since the last placement.
    pub holds: u8,
}

/// The build-search node as values.
pub struct SetupView {
    pub board: Board,
    pub placements: Seq<Placement>,
    pub queue: Seq<Piece>,
    pub piece: Option<Piece>,
    pub hold: Option<Piece>,
    pub holds: nat,
}

impl View for SetupState {
    type V = SetupView;

    open spec fn view(&self) -> SetupView {
        SetupView {
            board: self.board,
            placements: self.placements@,
            queue: self.queue@,
            piece: self.piece,
            hold: self.hold,
            holds: self.holds as nat,
        }
    }
}

/// Every entry places a piece whose four cells lie in the well.
pub open spec fn placed_in_well(pls: Seq<Placement>) -> bool {
    forall|i: int|
        0 <= i < pls.len() ==> match #[trigger] pls[i] {
            Placement::Place { piece, row, col, rotation } => fits_in_well(
                piece,
                rotation,
                row as int,
                col as int,
            ),
            Placement::Hold => false,
        }
}

/// No cell belongs to two placements of `pls`.
pub open spec fn apart(pls: Seq<Placement>) -> bool {
    forall|i: int, j: int, r: int, c: int|
        0 <= i < pls.len() && 0 <= j < pls.len() && i != j ==> !(#[trigger] placement_covers(pls[i], r, c)
            && #[trigger] placement_covers(pls[j], r, c))
}

/// Whether a placement covers cell (`r`, `c`).
pub open spec fn placement_covers(pl: Placement, r: int, c: int) -> bool {
    match pl {
        Placement::Place { piece, row, col, rotation } => crate::board::covers(
            piece,
            rotation,
            row as int,
            col as int,
            r,
            c,
        ),
        Placement::Hold => false,
    }
}

/// How many of the four cells of a placement the board already fills.
pub open spec fn covered(b: Board, pl: Placement) -> nat {
    match pl {
        Placement::Place { piece, row, col, rotation } => covered_prefix(
            b,
            piece,
            rotation,
            row as int,
            col as int,
            4,
        ),
        Placement::Hold => 0,
    }
}

/// The placements of `pls` that the board does not already fill, in order.
pub open spec fn remaining(b: Board, pls: Seq<Placement>) -> Seq<Placement>
    decreases pls.len(),
{
    if pls.len() == 0 {
        Seq::empty()
    } else if pls.last() is Place && covered(b, pls.last()) != 4 {
        remaining(b, pls.drop_last()).push(pls.last())
    } else {
        remaining(b, pls.drop_last())
    }
}

/// Cells of the placements of `pls` that the board fills.
pub open spec fn covered_sum(b: Board, pls: Seq<Placement>) -> nat
    decreases pls.len(),
{
    if pls.len() == 0 {
        0
    } else {
        covered_sum(b, pls.drop_last()) + covered(b, pls.last())
    }
}

/// Placements of `pls` that use kind `k`.
pub open spec fn kind_count(pls: Seq<Placement>, k: Piece) -> nat
    decreases pls.len(),
{
    if pls.len() == 0 {
        0
    } else {
        kind_count(pls.drop_last(), k) + match pls.last() {
            Placement::Place { piece, .. } => if piece == k {
                1nat
            } else {
                0nat
            },
            Placement::Hold => 0nat,
        }
    }
}

/// Pieces of kind `k` in `q`.
pub open spec fn piece_count(q: Seq<Piece>, k: Piece) -> nat
    decreases q.len(),
{
    if q.len() == 0 {
        0
    } else {
        piece_count(q.drop_last(), k) + if q.last() == k {
            1nat
        } else {
            0nat
        }
    }
}

/// Pieces of kind `k` among the queue, the active piece and the held piece.
pub open spec fn available(q: Seq<Piece>, piece: Option<Piece>, hold: Option<Piece>, k: Piece) -> nat {
    piece_count(q, k) + (if piece == Some(k) {
        1nat
    } else {
        0nat
    }) + (if hold == Some(k) {
        1nat
    } else {
        0nat
    })
}

/// The skeleton is not yet built, the board holds only whole skeleton pieces, the pieces at
/// hand supply every kind it still needs, the holds used are within the limit, and some
/// sequence of build actions makes every remaining placement.
pub open spec fn buildable(
    s: PcSetup,
    b: Board,
    queue: Seq<Piece>,
    piece: Option<Piece>,
    hold: Option<Piece>,
    holds: nat,
    limit: nat,
) -> bool {
    &&& remaining(b, s.placements@).len() > 0
    &&& !partly_built(b, s.placements@)
    &&& filled_upto(b, 230) == covered_sum(b, s.placements@)
    &&& forall|k: Piece| kind_count(remaining(b, s.placements@), k) <= #[trigger] available(queue, piece, hold, k)
    &&& holds <= limit
    &&& finishable(
        SetupView { board: b, placements: remaining(b, s.placements@), queue, piece, hold, holds },
        limit,
    )
}

/// Some skeleton piece is partly, but not wholly, on the board.
pub open spec fn partly_built(b: Board, pls: Seq<Placement>) -> bool {
    exists|i: int| 0 <= i < pls.len() && 0 < #[trigger] covered(b, pls[i]) < 4
}

/// `v` leads to `t` by one build action: the active piece goes to a skeleton placement that it
/// can reach, or a hold within the limit of `limit` holds between placements.
pub open spec fn setup_step(v: SetupView, t: SetupView, limit: nat) -> bool {
    ||| exists|i: int| 0 <= i < v.placements.len() && #[trigger] place_step(v, t, i)
    ||| hold_step(v, t, limit)
}

/// `succ` holds a node for every placement the active piece can reach and, within the hold
/// limit, for the hold.
#[verifier::opaque]
pub open spec fn covers_steps(v: SetupView, succ: Seq<SetupView>, limit: nat) -> bool {
    &&& forall|q: int|
        0 <= q < v.placements.len() && #[trigger] place_ok(v, q) ==> exists|j: int|
            0 <= j < succ.len() && place_step(v, #[trigger] succ[j], q)
    &&& v.holds < limit ==> exists|j: int| 0 <= j < succ.len() && hold_step(v, #[trigger] succ[j], limit)
}

/// A hold, within the limit of `limit` holds between placements.
pub open spec fn hold_step(v: SetupView, t: SetupView, limit: nat) -> bool {
    &&& v.holds < limit
    &&& t.board == v.board
    &&& t.placements == v.placements
    &&& t.holds == v.holds + 1
    &&& t.hold == v.piece
    &&& match v.hold {
        Some(h) => t.piece == Some(h) && t.queue == v.queue,
        None => t.piece == front(v.queue) && t.queue == after_front(v.queue),
    }
}

/// The active piece can spawn and come to rest at skeleton placement `i`.
pub open spec fn place_ok(v: SetupView, i: int) -> bool {
    match v.placements[i] {
        Placement::Place { piece, row, col, rotation } => {
            &&& v.piece == Some(piece)
            &&& spawn(piece).fits(v.board)
            &&& spot_reached(v.board, piece, SearchState { row: row as i8, col: col as i8, rotation, piece })
        },
        Placement::Hold => false,
    }
}

pub open spec fn front(q: Seq<Piece>) -> Option<Piece> {
    if q.len() > 0 {
        Some(q[0])
    } else {
        None
    }
}

pub open spec fn after_front(q: Seq<Piece>) -> Seq<Piece> {
    if q.len() > 0 {
        q.drop_first()
    } else {
        q
    }
}

/// Placing the active piece at skeleton placement `i`.
pub open spec fn place_step(v: SetupView, t: SetupView, i: int) -> bool {
    match v.placements[i] {
        Placement::Place { piece, row, col, rotation } => {
            &&& place_ok(v, i)
            &&& stamped(v.board, t.board, piece, row as int, col as int, rotation)
            &&& t.placements == v.placements.update(i, v.placements.last()).drop_last()
            &&& t.piece == front(v.queue)
            &&& t.queue == after_front(v.queue)
            &&& t.hold == v.hold
            &&& t.holds == 0
        },
        Placement::Hold => false,
    }
}

/// Some sequence of build actions from `v` makes every remaining placement.
#[verifier::opaque]
pub open spec fn finishable(v: SetupView, limit: nat) -> bool
    decreases v.placements.len(), limit - v.holds,
{
    if v.placements.len() == 0 {
        true
    } else {
        exists|t: SetupView|
            #[trigger] setup_step(v, t, limit) && (t.placements.len() < v.placements.len() || (
            t.placements.len() == v.placements.len() && t.holds <= limit && limit - t.holds < limit
                - v.holds)) && finishable(t, limit)
    }
}

fn copy_pieces(p: &Vec<Piece>) -> (r: Vec<Piece>)
    ensures
        r@ == p@,
{
    let mut r: Vec<Piece> = Vec::new();
    let mut i: usize = 0;
    while i < p.len()
        invariant
            i <= p@.len(),
            r@ == p@.subrange(0, i as int),
        decreases p@.len() - i,
    {
        r.push(p[i]);
        i += 1;
        assert(r@ =~= p@.subrange(0, i as int));
    }
    assert(r@ =~= p@);
    r
}

/// True iff the active piece can come to rest at the spot of (`row`, `col`, `rotation`).
fn spot_reachable(board: &Board, piece: Piece, row: u8, col: u8, rotation: Rotation) -> (r: bool)
    ensures
        r ==> spawn(piece).fits(*board) && spot_reached(
            *board,
            piece,
            SearchState { row: row as i8, col: col as i8, rotation, piece },
        ),
        row <= 22 && col <= 9 && spawn(piece).fits(*board) && spot_reached(
            *board,
            piece,
            SearchState { row: row as i8, col: col as i8, rotation, piece },
        ) ==> r,
{
    if row > 100 || col > 100 {
        return false;
    }
    let target = SearchState::new(row as i8, col as i8, rotation, piece);
    let ts = target.symmetrical();
    let locations = get_locations(board, piece);
    let mut i: usize = 0;
    while i < locations.len()
        invariant
            i <= locations@.len(),
            ts == target.symmetrical_spec(),
            target == (SearchState { row: row as i8, col: col as i8, rotation, piece }),
            forall|j: int| 0 <= j < locations@.len() ==> reachable_rest(*board, piece, #[trigger] locations@[j]),
            forall|j: int| 0 <= j < locations@.len() ==> (#[trigger] locations@[j]).fits(*board),
            forall|j: int| 0 <= j < i ==> !same_spot((#[trigger] locations@[j]), target),
            spawn(piece).fits(*board) ==> forall|rest: SearchState|
                #[trigger] reachable_rest(*board, piece, rest) ==> listed(locations@, rest),
            locations@.len() > 0 ==> spawn(piece).fits(*board),
        decreases locations@.len() - i,
    {
        let loc = locations[i];
        proof {
            crate::search_state::lemma_fits_pivot(loc, *board);
        }
        let ls = loc.symmetrical();
        if loc == target || loc == ts || ls == target {
            assert(reachable_rest(*board, piece, loc) && same_spot(loc, target));
            return true;
        }
        i += 1;
    }
    proof {
        if row <= 22 && col <= 9 && spawn(piece).fits(*board) && spot_reached(*board, piece, target) {
            let rest = choose|rest: SearchState| #[trigger] reachable_rest(*board, piece, rest) && same_spot(rest, target);
            let k = choose|k: int| 0 <= k < locations@.len() && same_spot(#[trigger] locations@[k], rest);
            let path = choose|path: Seq<crate::movement::Movement>| #[trigger] crate::locations::leads_to(*board, piece, path, rest);
            crate::locations::lemma_replay_fits_pub(*board, piece, path);
            crate::search_state::lemma_fits_pivot(locations@[k], *board);
            crate::search_state::lemma_fits_pivot(rest, *board);
            crate::locations::lemma_same_spot_trans(locations@[k], rest, target);
        }
    }
    false
}

impl SetupState {
    pub fn new(
        board: Board,
        placements: Vec<Placement>,
        queue: Vec<Piece>,
        piece: Option<Piece>,
        hold: Option<Piece>,
        holds: u8,
    ) -> (s: SetupState)
        ensures
            s.board == board,
            s.placements@ == placements@,
            s.queue@ == queue@,
            s.piece == piece,
            s.hold == hold,
            s.holds == holds,
    {
        SetupState { board, placements, queue, piece, hold, holds }
    }

    fn duplicate(&self) -> (s: SetupState)
        ensures
            s@ == self@,
    {
        SetupState {
            board: self.board,
            placements: copy_placements(&self.placements),
            queue: copy_pieces(&self.queue),
            piece: self.piece,
            hold: self.hold,
            holds: self.holds,
        }
    }

    /// The nodes one build action away: each skeleton placement that the active piece can
    /// reach, then a hold if fewer than `hold_limit` were used since the last placement.
    pub fn successors(&self, hold_limit: u8) -> (r: Vec<SetupState>)
        requires
            placed_in_well(self@.placements),
            self.holds <= hold_limit,
        ensures
            forall|j: int| 0 <= j < r@.len() ==> setup_step(self@, #[trigger] r@[j]@, hold_limit as nat),
            forall|j: int| 0 <= j < r@.len() ==> placed_in_well((#[trigger] r@[j])@.placements),
            forall|j: int| 0 <= j < r@.len() ==> (#[trigger] r@[j]).holds <= hold_limit,
            covers_steps(self@, r@.map_values(|x: SetupState| x@), hold_limit as nat),
    {
        let mut list: Vec<SetupState> = Vec::new();
        let mut i: usize = 0;
        while i < self.placements.len()
            invariant
                i <= self.placements@.len(),
                placed_in_well(self@.placements),
                self.holds <= hold_limit,
                forall|j: int| 0 <= j < list@.len() ==> setup_step(self@, #[trigger] list@[j]@, hold_limit as nat),
                forall|j: int| 0 <= j < list@.len() ==> placed_in_well((#[trigger] list@[j])@.placements),
                forall|j: int| 0 <= j < list@.len() ==> (#[trigger] list@[j]).holds <= hold_limit,
                forall|q: int|
                    0 <= q < i && #[trigger] place_ok(self@, q) ==> exists|j: int|
                        0 <= j < list@.len() && place_step(self@, #[trigger] list@[j]@, q),
            decreases self.placements@.len() - i,
        {
            let pl = self.placements[i];
            let ghost list0 = list@;
            proof {
                assert(self@.placements[i as int] == pl);
                if let Placement::Place { piece, row, col, rotation } = pl {
                    lemma_pivot_in_well(piece, rotation, row as int, col as int);
                }
            }
            if let Placement::Place { piece, row, col, rotation } = pl {
                if self.piece == Some(piece) && spot_reachable(&self.board, piece, row, col, rotation) {
                    let mut next = self.duplicate();
                    next.placements.swap_remove(i);
                    next.board = self.board.with_placement(piece, row, col, rotation);
                    if next.queue.len() > 0 {
                        next.piece = Some(next.queue.remove(0));
                        assert(next.queue@ =~= self.queue@.drop_first());
                    } else {
                        next.piece = None;
                    }
                    next.holds = 0;
                    proof {
                        assert(place_step(self@, next@, i as int));
                        assert forall|k: int| 0 <= k < next@.placements.len() implies match #[trigger] next@.placements[k] {
                            Placement::Place { piece, row, col, rotation } => fits_in_well(
                                piece,
                                rotation,
                                row as int,
                                col as int,
                            ),
                            Placement::Hold => false,
                        } by {
                            if k == i {
                                assert(next@.placements[k] == self@.placements.last());
                            } else {
                                assert(next@.placements[k] == self@.placements[k]);
                            }
                        }
                    }
                    list.push(next);
                    proof {
                        assert(place_step(self@, list@[list@.len() - 1]@, i as int));
                    }
                }
            }
            proof {
                assert forall|q: int|
                    0 <= q < i + 1 && #[trigger] place_ok(self@, q) implies exists|j: int|
                        0 <= j < list@.len() && place_step(self@, #[trigger] list@[j]@, q) by {
                    if q < i {
                        let j = choose|j: int| 0 <= j < list0.len() && place_step(self@, #[trigger] list0[j]@, q);
                        assert(list@[j] == list0[j]);
                    }
                }
            }
            i += 1;
        }
        if self.holds < hold_limit {
            let mut next = self.duplicate();
            next.hold = self.piece;
            match self.hold {
                Some(h) => {
                    next.piece = Some(h);
                },
                None => {
                    if next.queue.len() > 0 {
                        next.piece = Some(next.queue.remove(0));
                        assert(next.queue@ =~= self.queue@.drop_first());
                    } else {
                        next.piece = None;
                    }
                },
            }
            next.holds = self.holds + 1;
            proof {
                assert(hold_step(self@, next@, hold_limit as nat));
            }
            let ghost list0 = list@;
            list.push(next);
            proof {
                assert(hold_step(self@, list@[list@.len() - 1]@, hold_limit as nat));
                assert forall|q: int|
                    0 <= q < self@.placements.len() && #[trigger] place_ok(self@, q) implies exists|j: int|
                        0 <= j < list@.len() && place_step(self@, #[trigger] list@[j]@, q) by {
                    let j = choose|j: int| 0 <= j < list0.len() && place_step(self@, #[trigger] list0[j]@, q);
                    assert(list@[j] == list0[j]);
                }
            }
        }
        proof {
            let sv = list@.map_values(|x: SetupState| x@);
            assert forall|q: int|
                0 <= q < self@.placements.len() && #[trigger] place_ok(self@, q) implies exists|j: int|
                    0 <= j < sv.len() && place_step(self@, #[trigger] sv[j], q) by {
                let j = choose|j: int| 0 <= j < list@.len() && place_step(self@, #[trigger] list@[j]@, q);
                assert(sv[j] == list@[j]@);
            }
            if self.holds < hold_limit {
                let j = list@.len() - 1;
                assert(sv[j] == list@[j]@);
                assert(hold_step(self@, sv[j], hold_limit as nat));
            }
            reveal(covers_steps);
        }
        list
    }
}

/// How many of the four cells of a placement the board already fills.
fn covered_cells(board: &Board, pl: Placement) -> (n: usize)
    requires
        pl is Place ==> fits_in_well(
            pl->Place_piece,
            pl->Place_rotation,
            pl->Place_row as int,
            pl->Place_col as int,
        ),
    ensures
        n == covered(*board, pl),
        n <= 4,
{
    match pl {
        Placement::Place { piece, row, col, rotation } => {
            let offs = piece.offset_map(rotation);
            let mut n: usize = 0;
            let mut k: usize = 0;
            while k < 4
                invariant
                    k <= 4,
                    offs@ == crate::piece::offsets(piece, rotation),
                    fits_in_well(piece, rotation, row as int, col as int),
                    n == covered_prefix(*board, piece, rotation, row as int, col as int, k as int),
                    n <= k,
                decreases 4 - k,
            {
                assert(in_bounds(
                    cell_row(piece, rotation, row as int, k as int),
                    cell_col(piece, rotation, col as int, k as int),
                ));
                let (dr, dc) = offs[k];
                let r = (row as i16 + dr as i16) as usize;
                let c = (col as i16 + dc as i16) as usize;
                if board.is_filled(r, c) {
                    n += 1;
                }
                k += 1;
            }
            n
        },
        Placement::Hold => 0,
    }
}

/// Filled cells among the first `k` cells of a placement.
pub open spec fn covered_prefix(b: Board, piece: Piece, rotation: Rotation, row: int, col: int, k: int) -> nat
    decreases k,
{
    if k <= 0 {
        0
    } else {
        covered_prefix(b, piece, rotation, row, col, k - 1) + if b.filled(
            cell_row(piece, rotation, row, k - 1),
            cell_col(piece, rotation, col, k - 1),
        ) {
            1nat
        } else {
            0nat
        }
    }
}

fn count_in_queue(q: &Vec<Piece>, k: Piece) -> (n: usize)
    ensures
        n == piece_count(q@, k),
        n <= q@.len(),
{
    let mut n: usize = 0;
    let mut i: usize = 0;
    while i < q.len()
        invariant
            i <= q@.len(),
            n == piece_count(q@.subrange(0, i as int), k),
            n <= i,
        decreases q@.len() - i,
    {
        assert(q@.subrange(0, i as int + 1).drop_last() =~= q@.subrange(0, i as int));
        if q[i] == k {
            n += 1;
        }
        i += 1;
    }
    assert(q@.subrange(0, q@.len() as int) =~= q@);
    n
}

fn count_kind(pls: &Vec<Placement>, k: Piece) -> (n: usize)
    ensures
        n == kind_count(pls@, k),
        n <= pls@.len(),
{
    let mut n: usize = 0;
    let mut i: usize = 0;
    while i < pls.len()
        invariant
            i <= pls@.len(),
            n == kind_count(pls@.subrange(0, i as int), k),
            n <= i,
        decreases pls@.len() - i,
    {
        assert(pls@.subrange(0, i as int + 1).drop_last() =~= pls@.subrange(0, i as int));
        if let Placement::Place { piece, .. } = pls[i] {
            if piece == k {
                n += 1;
            }
        }
        i += 1;
    }
    assert(pls@.subrange(0, pls@.len() as int) =~= pls@);
    n
}

fn filled_count(board: &Board) -> (n: usize)
    ensures
        n == filled_upto(*board, 230),
{
    let mut n: usize = 0;
    let mut i: usize = 0;
    while i < 230
        invariant
            i <= 230,
            n == filled_upto(*board, i as int),
            n <= i,
        decreases 230 - i,
    {
        if board.tiles[i].piece.is_some() {
            n += 1;
        }
        i += 1;
    }
    n
}

impl PcSetup {
    /// Every placement of the skeleton places a piece inside the well.
    pub open spec fn wf(&self) -> bool {
        &&& placed_in_well(self.placements@)
        &&& 4 * self.placements@.len() <= usize::MAX
        &&& apart(self.placements@)
    }

    pub fn new(name: &str, placements: Vec<Placement>) -> (s: PcSetup)
        ensures
            s.name@ == name@,
            !s.mirrored,
            s.placements@ == placements@,
    {
        PcSetup { name: name.to_string(), mirrored: false, placements }
    }

    /// The placements that the board does not already fill, in order, and how many cells of
    /// the skeleton the board fills.
    pub fn get_remaining_placements(&self, board: &Board) -> (r: (Vec<Placement>, usize))
        requires
            self.wf(),
        ensures
            r.0@ == remaining(*board, self.placements@),
            r.1 == covered_sum(*board, self.placements@),
    {
        let mut out: Vec<Placement> = Vec::new();
        let mut filled: usize = 0;
        let mut i: usize = 0;
        while i < self.placements.len()
            invariant
                i <= self.placements@.len(),
                self.wf(),
                out@ == remaining(*board, self.placements@.subrange(0, i as int)),
                filled == covered_sum(*board, self.placements@.subrange(0, i as int)),
                filled <= 4 * i,
            decreases self.placements@.len() - i,
        {
            let pl = self.placements[i];
            assert(self.placements@.subrange(0, i as int + 1).drop_last() =~= self.placements@.subrange(
                0,
                i as int,
            ));
            assert(self.placements@[i as int] == pl);
            let n = covered_cells(board, pl);
            filled += n;
            if n != 4 {
                if let Placement::Place { .. } = pl {
                    out.push(pl);
                }
            }
            i += 1;
        }
        assert(self.placements@.subrange(0, self.placements@.len() as int) =~= self.placements@);
        (out, filled)
    }

    /// True when the skeleton can still be built from `board` with the active piece, the held
    /// piece and `queue`, with at most `hold_limit` holds between two placements (`holds`
    /// already used). False at once when the board already holds the whole skeleton, holds a
    /// skeleton piece only in part, holds cells the skeleton does not account for, or when some
    /// kind is needed more often than the pieces at hand supply.
    pub fn can_build(
        &self,
        board: &Board,
        queue: &Vec<Piece>,
        piece: Option<Piece>,
        hold: Option<Piece>,
        holds: u8,
        hold_limit: u8,
    ) -> (r: bool)
        requires
            self.wf(),
        ensures
            remaining(*board, self.placements@).len() == 0 ==> !r,
            partly_built(*board, self.placements@) ==> !r,
            filled_upto(*board, 230) != covered_sum(*board, self.placements@) ==> !r,
            (exists|k: Piece|
                kind_count(remaining(*board, self.placements@), k) > #[trigger] available(
                    queue@,
                    piece,
                    hold,
                    k,
                )) ==> !r,
            holds > hold_limit ==> !r,
            r == buildable(*self, *board, queue@, piece, hold, holds as nat, hold_limit as nat),
    {
        let (rest, filled) = self.get_remaining_placements(board);
        if rest.len() == 0 {
            return false;
        }
        // Every cell the board fills must belong to a skeleton piece that is fully there.
        proof {
            lemma_remaining_parts(*board, self.placements@);
        }
        let done = self.placements.len() - rest.len();
        if done * 4 != filled {
            return false;
        }
        assert(partial_sum(*board, self.placements@) == 0);
        if filled_count(board) != filled {
            return false;
        }
        let kinds = [Piece::I, Piece::J, Piece::L, Piece::O, Piece::S, Piece::T, Piece::Z];
        let mut j: usize = 0;
        while j < 7
            invariant
                j <= 7,
                kinds@ == seq![Piece::I, Piece::J, Piece::L, Piece::O, Piece::S, Piece::T, Piece::Z],
                rest@ == remaining(*board, self.placements@),
                forall|m: int|
                    0 <= m < j ==> kind_count(rest@, #[trigger] kinds@[m]) <= available(
                        queue@,
                        piece,
                        hold,
                        kinds@[m],
                    ),
            decreases 7 - j,
        {
            let k = kinds[j];
            let need = count_kind(&rest, k);
            let have = count_in_queue(queue, k);
            let mut extra: usize = 0;
            if piece == Some(k) {
                extra += 1;
            }
            if hold == Some(k) {
                extra += 1;
            }
            if need > have && need - have > extra {
                return false;
            }
            j += 1;
        }
        assert forall|k: Piece| kind_count(rest@, k) <= #[trigger] available(queue@, piece, hold, k) by {
            match k {
                Piece::I => assert(kinds@[0] == k),
                Piece::J => assert(kinds@[1] == k),
                Piece::L => assert(kinds@[2] == k),
                Piece::O => assert(kinds@[3] == k),
                Piece::S => assert(kinds@[4] == k),
                Piece::T => assert(kinds@[5] == k),
                Piece::Z => assert(kinds@[6] == k),
            }
        }
        if holds > hold_limit {
            return false;
        }
        let start = SetupState::new(*board, rest, copy_pieces(queue), piece, hold, holds);
        build_search(&start, hold_limit)
    }

    /// The board with every skeleton piece stamped on it, later pieces over earlier ones.
    pub fn get_final_board(&self, board: &Board) -> (b: Board)
        requires
            self.wf(),
        ensures
            forall|r: int, c: int|
                in_bounds(r, c) ==> #[trigger] b.cell(r, c) == painted(*board, self.placements@, r, c),
    {
        let mut out = *board;
        let mut i: usize = 0;
        while i < self.placements.len()
            invariant
                i <= self.placements@.len(),
                self.wf(),
                forall|r: int, c: int|
                    in_bounds(r, c) ==> #[trigger] out.cell(r, c) == painted(
                        *board,
                        self.placements@.subrange(0, i as int),
                        r,
                        c,
                    ),
            decreases self.placements@.len() - i,
        {
            let pl = self.placements[i];
            assert(self.placements@.subrange(0, i as int + 1).drop_last() =~= self.placements@.subrange(
                0,
                i as int,
            ));
            assert(self.placements@[i as int] == pl);
            if let Placement::Place { piece, row, col, rotation } = pl {
                out = out.with_placement(piece, row, col, rotation);
            }
            i += 1;
        }
        assert(self.placements@.subrange(0, self.placements@.len() as int) =~= self.placements@);
        out
    }
}

/// What fills cell (`r`, `c`) once the placements of `pls` are stamped on `b` in order.
pub open spec fn painted(b: Board, pls: Seq<Placement>, r: int, c: int) -> Option<Piece>
    decreases pls.len(),
{
    if pls.len() == 0 {
        b.cell(r, c)
    } else {
        match pls.last() {
            Placement::Place { piece, row, col, rotation } => if crate::board::covers(
                piece,
                rotation,
                row as int,
                col as int,
                r,
                c,
            ) {
                Some(piece)
            } else {
                painted(b, pls.drop_last(), r, c)
            },
            Placement::Hold => painted(b, pls.drop_last(), r, c),
        }
    }
}

/// Cells that the board fills of the placements it does not fill wholly.
pub open spec fn partial_sum(b: Board, pls: Seq<Placement>) -> nat
    decreases pls.len(),
{
    if pls.len() == 0 {
        0
    } else {
        partial_sum(b, pls.drop_last()) + if covered(b, pls.last()) == 4 {
            0nat
        } else {
            covered(b, pls.last())
        }
    }
}

proof fn lemma_covered_le(b: Board, pl: Placement)
    ensures
        covered(b, pl) <= 4,
{
    match pl {
        Placement::Place { piece, row, col, rotation } => {
            lemma_prefix_le(b, piece, rotation, row as int, col as int, 4);
        },
        Placement::Hold => {},
    }
}

proof fn lemma_prefix_le(b: Board, piece: Piece, rotation: Rotation, row: int, col: int, k: int)
    requires
        0 <= k,
    ensures
        covered_prefix(b, piece, rotation, row, col, k) <= k,
    decreases k,
{
    if k > 0 {
        lemma_prefix_le(b, piece, rotation, row, col, k - 1);
    }
}

/// The covered cells are four per wholly built placement plus those of the partial ones; and the
/// remaining placements stay inside the well.
proof fn lemma_remaining_parts(b: Board, pls: Seq<Placement>)
    requires
        placed_in_well(pls),
    ensures
        covered_sum(b, pls) == 4 * (pls.len() - remaining(b, pls).len()) + partial_sum(b, pls),
        remaining(b, pls).len() <= pls.len(),
        partial_sum(b, pls) == 0 <==> !partly_built(b, pls),
        placed_in_well(remaining(b, pls)),
    decreases pls.len(),
{
    if pls.len() > 0 {
        let init = pls.drop_last();
        assert forall|i: int| 0 <= i < init.len() implies match #[trigger] init[i] {
            Placement::Place { piece, row, col, rotation } => fits_in_well(
                piece,
                rotation,
                row as int,
                col as int,
            ),
            Placement::Hold => false,
        } by {
            assert(init[i] == pls[i]);
        }
        lemma_remaining_parts(b, init);
        lemma_covered_le(b, pls.last());
        assert(pls[pls.len() - 1] == pls.last());
        if partial_sum(b, pls) != 0 {
            if partial_sum(b, init) != 0 {
                let i = choose|i: int| 0 <= i < init.len() && 0 < #[trigger] covered(b, init[i]) < 4;
                assert(pls[i] == init[i]);
            } else {
                assert(0 < covered(b, pls[pls.len() - 1]) < 4);
            }
        }
        if partial_sum(b, pls) == 0 {
            assert forall|i: int| 0 <= i < pls.len() implies !(0 < #[trigger] covered(b, pls[i]) < 4) by {
                if i < pls.len() - 1 {
                    assert(pls[i] == init[i]);
                    if 0 < covered(b, init[i]) < 4 {
                        assert(partly_built(b, init));
                    }
                }
            }
        }
        let rest = remaining(b, pls);
        let rest0 = remaining(b, init);
        assert forall|i: int| 0 <= i < rest.len() implies match #[trigger] rest[i] {
            Placement::Place { piece, row, col, rotation } => fits_in_well(
                piece,
                rotation,
                row as int,
                col as int,
            ),
            Placement::Hold => false,
        } by {
            if i < rest0.len() {
                assert(rest[i] == rest0[i]);
            }
        }
    }
}

/// Orientation of a reflected piece other than the bar.
pub open spec fn mirror_rotation(r: Rotation) -> Rotation {
    match r {
        Rotation::Normal => Rotation::Normal,
        Rotation::Cw => Rotation::Ccw,
        Rotation::Ccw => Rotation::Cw,
        Rotation::Flip => Rotation::Flip,
    }
}

/// Orientation of the reflected bar, whose pivot is off centre.
pub open spec fn mirror_bar_rotation(r: Rotation) -> Rotation {
    match r {
        Rotation::Normal => Rotation::Flip,
        Rotation::Cw => Rotation::Cw,
        Rotation::Ccw => Rotation::Ccw,
        Rotation::Flip => Rotation::Normal,
    }
}

/// Kind of a reflected piece: the chiral pairs swap.
pub open spec fn mirror_piece(p: Piece) -> Piece {
    match p {
        Piece::J => Piece::L,
        Piece::L => Piece::J,
        Piece::S => Piece::Z,
        Piece::Z => Piece::S,
        _ => p,
    }
}

/// A placement reflected left to right.
pub open spec fn mirror_placement(pl: Placement) -> Placement {
    match pl {
        Placement::Place { piece, row, col, rotation } => match piece {
            Piece::I => Placement::Place {
                piece,
                row,
                col: (9 - col) as u8,
                rotation: mirror_bar_rotation(rotation),
            },
            Piece::O => Placement::Place { piece, row, col: (8 - col) as u8, rotation },
            _ => Placement::Place {
                piece: mirror_piece(piece),
                row,
                col: (9 - col) as u8,
                rotation: mirror_rotation(rotation),
            },
        },
        Placement::Hold => Placement::Hold,
    }
}

/// The reflection of a placement in the well covers exactly the reflected cells.
#[verifier::rlimit(100)]
#[verifier::spinoff_prover]
pub proof fn lemma_mirror_reflects(piece: Piece, row: u8, col: u8, rotation: Rotation, r: int, c: int)
    requires
        fits_in_well(piece, rotation, row as int, col as int),
    ensures
        match mirror_placement(Placement::Place { piece, row, col, rotation }) {
            Placement::Place { piece: mp, row: mrow, col: mcol, rotation: mrot } => crate::board::covers(
                mp,
                mrot,
                mrow as int,
                mcol as int,
                r,
                c,
            ) == crate::board::covers(piece, rotation, row as int, col as int, r, 9 - c),
            Placement::Hold => false,
        },
{
    lemma_pivot_in_well(piece, rotation, row as int, col as int);
    let m = mirror_placement(Placement::Place { piece, row, col, rotation });
    let (mp, mrow, mcol, mrot) = match m {
        Placement::Place { piece: mp, row: mrow, col: mcol, rotation: mrot } => (mp, mrow, mcol, mrot),
        Placement::Hold => (piece, row, col, rotation),
    };
    let a = |k: int| (cell_row(piece, rotation, row as int, k), 9 - cell_col(piece, rotation, col as int, k));
    let b = |k: int| (cell_row(mp, mrot, mrow as int, k), cell_col(mp, mrot, mcol as int, k));
    if crate::board::covers(mp, mrot, mrow as int, mcol as int, r, c) {
        let k = choose|k: int| 0 <= k < 4 && cell_row(mp, mrot, mrow as int, k) == r && cell_col(mp, mrot, mcol as int, k) == c;
        assert(exists|j: int| 0 <= j < 4 && cell_row(piece, rotation, row as int, j) == r && cell_col(piece, rotation, col as int, j) == 9 - c) by {
            if a(0) == (r, c) {
                assert(0 <= 0int < 4);
            } else if a(1) == (r, c) {
                assert(0 <= 1int < 4);
            } else if a(2) == (r, c) {
                assert(0 <= 2int < 4);
            } else {
                assert(a(3) == (r, c));
            }
        }
    }
    if crate::board::covers(piece, rotation, row as int, col as int, r, 9 - c) {
        let k = choose|k: int| 0 <= k < 4 && cell_row(piece, rotation, row as int, k) == r && cell_col(piece, rotation, col as int, k) == 9 - c;
        assert(exists|j: int| 0 <= j < 4 && cell_row(mp, mrot, mrow as int, j) == r && cell_col(mp, mrot, mcol as int, j) == c) by {
            if b(0) == (r, c) {
                assert(0 <= 0int < 4);
            } else if b(1) == (r, c) {
                assert(0 <= 1int < 4);
            } else if b(2) == (r, c) {
                assert(0 <= 2int < 4);
            } else {
                assert(b(3) == (r, c));
            }
        }
    }
}

/// A piece inside the well has its pivot inside the well, and the square one column short of
/// the right wall.
pub(crate) proof fn lemma_pivot_in_well(p: Piece, rot: Rotation, row: int, col: int)
    requires
        fits_in_well(p, rot, row, col),
    ensures
        0 <= col <= 9,
        p == Piece::O ==> col <= 8,
        0 <= row < 23,
{
    crate::piece::lemma_offsets_small(p, rot);
    let k = choose|k: int| 0 <= k < 4 && #[trigger] crate::piece::offsets(p, rot)[k] == (0i8, 0i8);
    assert(in_bounds(cell_row(p, rot, row, k), cell_col(p, rot, col, k)));
    if p == Piece::O {
        assert(in_bounds(cell_row(p, rot, row, 1), cell_col(p, rot, col, 1)));
    }
}

fn mirror_one(pl: Placement) -> (m: Placement)
    requires
        pl is Place ==> fits_in_well(
            pl->Place_piece,
            pl->Place_rotation,
            pl->Place_row as int,
            pl->Place_col as int,
        ),
    ensures
        m == mirror_placement(pl),
{
    match pl {
        Placement::Place { piece, row, col, rotation } => {
            proof {
                lemma_pivot_in_well(piece, rotation, row as int, col as int);
            }
            let mirror_rotation = match rotation {
                Rotation::Normal => Rotation::Normal,
                Rotation::Cw => Rotation::Ccw,
                Rotation::Ccw => Rotation::Cw,
                Rotation::Flip => Rotation::Flip,
            };
            let bar_rotation = match rotation {
                Rotation::Normal => Rotation::Flip,
                Rotation::Cw => Rotation::Cw,
                Rotation::Ccw => Rotation::Ccw,
                Rotation::Flip => Rotation::Normal,
            };
            match piece {
                Piece::I => Placement::place(Piece::I, row, 9 - col, bar_rotation),
                Piece::J => Placement::place(Piece::L, row, 9 - col, mirror_rotation),
                Piece::L => Placement::place(Piece::J, row, 9 - col, mirror_rotation),
                Piece::O => Placement::place(Piece::O, row, 8 - col, rotation),
                Piece::S => Placement::place(Piece::Z, row, 9 - col, mirror_rotation),
                Piece::T => Placement::place(Piece::T, row, 9 - col, mirror_rotation),
                Piece::Z => Placement::place(Piece::S, row, 9 - col, mirror_rotation),
            }
        },
        Placement::Hold => Placement::Hold,
    }
}

/// Appends to `setups` the reflection of each of its skeletons, in the same order.
pub fn add_mirrors(setups: &mut Vec<PcSetup>)
    requires
        forall|i: int| 0 <= i < old(setups)@.len() ==> (#[trigger] old(setups)@[i]).wf(),
        2 * old(setups)@.len() <= usize::MAX,
    ensures
        final(setups)@.len() == 2 * old(setups)@.len(),
        forall|i: int| 0 <= i < old(setups)@.len() ==> #[trigger] final(setups)@[i] == old(setups)@[i],
        forall|i: int|
            0 <= i < old(setups)@.len() ==> {
                let m = #[trigger] final(setups)@[old(setups)@.len() + i];
                &&& m.name@ == old(setups)@[i].name@
                &&& m.mirrored == !old(setups)@[i].mirrored
                &&& m.placements@ == old(setups)@[i].placements@.map_values(
                    |pl: Placement| mirror_placement(pl),
                )
            },
{
    let n = setups.len();
    let ghost orig = setups@;
    let mut i: usize = 0;
    while i < n
        invariant
            i <= n,
            n == orig.len(),
            2 * n <= usize::MAX,
            setups@.len() == n + i,
            forall|j: int| 0 <= j < n ==> (#[trigger] orig[j]).wf(),
            forall|j: int| 0 <= j < n ==> #[trigger] setups@[j] == orig[j],
            forall|j: int|
                0 <= j < i ==> {
                    let m = #[trigger] setups@[n + j];
                    &&& m.name@ == orig[j].name@
                    &&& m.mirrored == !orig[j].mirrored
                    &&& m.placements@ == orig[j].placements@.map_values(
                        |pl: Placement| mirror_placement(pl),
                    )
                },
        decreases n - i,
    {
        let src = &setups[i];
        let mut pls: Vec<Placement> = Vec::new();
        let mut k: usize = 0;
        while k < src.placements.len()
            invariant
                k <= src.placements@.len(),
                src.wf(),
                pls@ == src.placements@.subrange(0, k as int).map_values(
                    |pl: Placement| mirror_placement(pl),
                ),
            decreases src.placements@.len() - k,
        {
            let pl = src.placements[k];
            assert(src.placements@[k as int] == pl);
            pls.push(mirror_one(pl));
            k += 1;
            assert(pls@ =~= src.placements@.subrange(0, k as int).map_values(
                |pl: Placement| mirror_placement(pl),
            ));
        }
        assert(src.placements@.subrange(0, src.placements@.len() as int) =~= src.placements@);
        let m = PcSetup { name: src.name.clone(), mirrored: !src.mirrored, placements: pls };
        setups.push(m);
        i += 1;
    }
}

/// The pieces at hand in the order they come: the active piece, the held piece, then the queue,
/// cut to the first `limit`.
pub open spec fn hand(piece: Option<Piece>, hold: Option<Piece>, queue: Seq<Piece>, limit: int) -> Seq<Piece> {
    let all = (if piece is Some {
        seq![piece->Some_0]
    } else {
        Seq::empty()
    }) + (if hold is Some {
        seq![hold->Some_0]
    } else {
        Seq::empty()
    }) + queue;
    if all.len() > limit {
        all.subrange(0, limit)
    } else {
        all
    }
}

/// The skeleton can be built when the first of `pieces` is active, the rest follow in order and
/// the hold slot is empty, with one hold per turn.
pub open spec fn hand_buildable(s: PcSetup, b: Board, pieces: Seq<Piece>, holds: nat) -> bool {
    buildable(
        s,
        b,
        if pieces.len() > 0 {
            pieces.drop_first()
        } else {
            pieces
        },
        if pieces.len() > 0 {
            Some(pieces[0])
        } else {
            None
        },
        None,
        holds,
        1,
    )
}


/// Indices, in order, of the skeletons of `setups` that can still be built with the pieces at
/// hand: the active piece, the held one and the queue, no more than `piece_limit` of them,
/// taken in that order with the hold slot empty; `held` tells whether a hold was already used
/// this turn, and one hold is allowed per turn.
pub fn find_setups(
    setups: &Vec<PcSetup>,
    board: &Board,
    piece: Option<Piece>,
    hold: Option<Piece>,
    queue: &Vec<Piece>,
    piece_limit: usize,
    held: bool,
) -> (r: Vec<usize>)
    requires
        forall|i: int| 0 <= i < setups@.len() ==> (#[trigger] setups@[i]).wf(),
    ensures
        forall|k: int| 0 <= k < r@.len() ==> #[trigger] r@[k] < setups@.len(),
        forall|k: int, m: int| 0 <= k < m < r@.len() ==> #[trigger] r@[k] < #[trigger] r@[m],
        forall|k: int|
            0 <= k < setups@.len() ==> ((exists|m: int| 0 <= m < r@.len() && r@[m] == k)
                <==> hand_buildable(
                #[trigger] setups@[k],
                *board,
                hand(piece, hold, queue@, piece_limit as int),
                if held {
                    1nat
                } else {
                    0nat
                },
            )),
{
    let mut all: Vec<Piece> = Vec::new();
    if let Some(p) = piece {
        all.push(p);
    }
    if let Some(h) = hold {
        all.push(h);
    }
    let mut i: usize = 0;
    let ghost head = all@;
    while i < queue.len() && all.len() < piece_limit
        invariant
            i <= queue@.len(),
            all@ == head + queue@.subrange(0, i as int),
            head.len() <= 2,
            head == (if piece is Some {
                seq![piece->Some_0]
            } else {
                Seq::empty()
            }) + (if hold is Some {
                seq![hold->Some_0]
            } else {
                Seq::empty()
            }),
        decreases queue@.len() - i,
    {
        all.push(queue[i]);
        i += 1;
        assert(all@ =~= head + queue@.subrange(0, i as int));
    }
    let ghost full = all@;
    let ghost whole = head + queue@;
    assert(i == queue@.len() || full.len() >= piece_limit);
    assert(full =~= whole.subrange(0, full.len() as int));
    while all.len() > piece_limit
        invariant
            all@.len() <= full.len(),
            all@ == full.subrange(0, all@.len() as int),
            all@.len() >= piece_limit || all@.len() == full.len(),
        decreases all@.len(),
    {
        all.pop();
        assert(all@ =~= full.subrange(0, all@.len() as int));
    }
    proof {
        if i == queue@.len() {
            assert(full =~= whole);
        }
        if whole.len() > piece_limit {
            assert(all@ =~= whole.subrange(0, piece_limit as int));
        } else {
            assert(full =~= whole);
            assert(all@ =~= whole);
        }
        assert(all@ == hand(piece, hold, queue@, piece_limit as int));
    }
    let mut rest: Vec<Piece> = Vec::new();
    let mut first: Option<Piece> = None;
    if all.len() > 0 {
        first = Some(all[0]);
        let mut j: usize = 1;
        while j < all.len()
            invariant
                1 <= j <= all@.len(),
                rest@ == all@.subrange(1, j as int),
            decreases all@.len() - j,
        {
            rest.push(all[j]);
            j += 1;
            assert(rest@ =~= all@.subrange(1, j as int));
        }
        assert(rest@ =~= all@.drop_first());
    }
    let holds: u8 = if held { 1 } else { 0 };
    let ghost pieces = hand(piece, hold, queue@, piece_limit as int);
    assert(first == (if pieces.len() > 0 { Some(pieces[0]) } else { None }));
    assert(rest@ == (if pieces.len() > 0 { pieces.drop_first() } else { pieces }));
    let mut out: Vec<usize> = Vec::new();
    let mut k: usize = 0;
    while k < setups.len()
        invariant
            k <= setups@.len(),
            forall|i: int| 0 <= i < setups@.len() ==> (#[trigger] setups@[i]).wf(),
            first == (if pieces.len() > 0 { Some(pieces[0]) } else { None }),
            rest@ == (if pieces.len() > 0 { pieces.drop_first() } else { pieces }),
            holds as nat == if held { 1nat } else { 0nat },
            pieces == hand(piece, hold, queue@, piece_limit as int),
            forall|kk: int|
                0 <= kk < k ==> ((exists|m: int| 0 <= m < out@.len() && out@[m] == kk) <==> hand_buildable(
                    #[trigger] setups@[kk],
                    *board,
                    pieces,
                    holds as nat,
                )),
            forall|m: int| 0 <= m < out@.len() ==> #[trigger] out@[m] < k,
            forall|m: int| 0 <= m < out@.len() ==> #[trigger] out@[m] < k,
            forall|a: int, b: int| 0 <= a < b < out@.len() ==> #[trigger] out@[a] < #[trigger] out@[b],
        decreases setups@.len() - k,
    {
        let ghost out0 = out@;
        if setups[k].can_build(board, &rest, first, None, holds, 1) {
            out.push(k);
            proof {
                assert(out@[out@.len() - 1] == k);
            }
        }
        proof {
            assert forall|kk: int|
                0 <= kk < k + 1 implies ((exists|m: int| 0 <= m < out@.len() && out@[m] == kk) <==> hand_buildable(
                    #[trigger] setups@[kk],
                    *board,
                    pieces,
                    holds as nat,
                )) by {
                if kk < k {
                    if exists|m: int| 0 <= m < out@.len() && out@[m] == kk {
                        let m = choose|m: int| 0 <= m < out@.len() && out@[m] == kk;
                        assert(m < out0.len());
                        assert(out0[m] == kk);
                    }
                    if exists|m: int| 0 <= m < out0.len() && out0[m] == kk {
                        let m = choose|m: int| 0 <= m < out0.len() && out0[m] == kk;
                        assert(out@[m] == kk);
                    }
                } else {
                    if exists|m: int| 0 <= m < out@.len() && out@[m] == kk {
                        let m = choose|m: int| 0 <= m < out@.len() && out@[m] == kk;
                        if m < out0.len() {
                            assert(out0[m] < k);
                        }
                    }
                }
            }
        }
        k += 1;
    }
    out
}

/// True iff some sequence of build actions from `state` makes every remaining placement.
fn build_search(state: &SetupState, hold_limit: u8) -> (r: bool)
    requires
        placed_in_well(state@.placements),
        state.holds <= hold_limit,
    ensures
        r == finishable(state@, hold_limit as nat),
    decreases state@.placements.len(), hold_limit - state.holds,
{
    if state.placements.len() == 0 {
        proof {
            reveal_with_fuel(finishable, 1);
        }
        return true;
    }
    let succ = state.successors(hold_limit);
    let mut i: usize = 0;
    while i < succ.len()
        invariant
            i <= succ@.len(),
            state.placements@.len() > 0,
            forall|j: int| 0 <= j < i ==> !finishable(#[trigger] succ@[j]@, hold_limit as nat),
            covers_steps(state@, succ@.map_values(|x: SetupState| x@), hold_limit as nat),
            forall|j: int| 0 <= j < succ@.len() ==> setup_step(state@, #[trigger] succ@[j]@, hold_limit as nat),
            forall|j: int| 0 <= j < succ@.len() ==> placed_in_well((#[trigger] succ@[j])@.placements),
            forall|j: int| 0 <= j < succ@.len() ==> (#[trigger] succ@[j]).holds <= hold_limit,
        decreases succ@.len() - i,
    {
        let t = &succ[i];
        proof {
            lemma_step_measure(state@, t@, hold_limit as nat);
        }
        if build_search(t, hold_limit) {
            proof {
                lemma_finishable_by(state@, t@, hold_limit as nat);
            }
            return true;
        }
        i += 1;
    }
    proof {
        let sv = succ@.map_values(|x: SetupState| x@);
        assert forall|j: int| 0 <= j < sv.len() implies !finishable(#[trigger] sv[j], hold_limit as nat) by {
            assert(sv[j] == succ@[j]@);
        }
        lemma_not_finishable(state@, sv, hold_limit as nat);
    }
    false
}

proof fn lemma_finishable_by(v: SetupView, t: SetupView, limit: nat)
    requires
        v.placements.len() > 0,
        setup_step(v, t, limit),
        finishable(t, limit),
    ensures
        finishable(v, limit),
{
    lemma_step_measure(v, t, limit);
    reveal_with_fuel(finishable, 1);
}

proof fn lemma_not_finishable(v: SetupView, succ: Seq<SetupView>, limit: nat)
    requires
        v.placements.len() > 0,
        forall|j: int| 0 <= j < succ.len() ==> !finishable(#[trigger] succ[j], limit),
        covers_steps(v, succ, limit),
    ensures
        !finishable(v, limit),
{
    reveal_with_fuel(finishable, 1);
    reveal(covers_steps);
    if finishable(v, limit) {
        let t = choose|t: SetupView|
            #[trigger] setup_step(v, t, limit) && (t.placements.len() < v.placements.len() || (
            t.placements.len() == v.placements.len() && t.holds <= limit && limit - t.holds < limit
                - v.holds)) && finishable(t, limit);
        if exists|q: int| 0 <= q < v.placements.len() && #[trigger] place_step(v, t, q) {
            let q = choose|q: int| 0 <= q < v.placements.len() && #[trigger] place_step(v, t, q);
            let j = choose|j: int| 0 <= j < succ.len() && place_step(v, #[trigger] succ[j], q);
            let u = succ[j];
            if let Placement::Place { piece, row, col, rotation } = v.placements[q] {
                crate::board::lemma_stamp_unique(v.board, t.board, u.board, piece, rotation, row as int, col as int);
            }
            assert(t == u);
        } else {
            let j = choose|j: int| 0 <= j < succ.len() && hold_step(v, #[trigger] succ[j], limit);
            assert(t == succ[j]);
        }
    }
}

proof fn lemma_step_measure(v: SetupView, t: SetupView, limit: nat)
    requires
        setup_step(v, t, limit),
        v.placements.len() > 0,
    ensures
        t.placements.len() < v.placements.len() || (t.placements.len() == v.placements.len()
            && t.holds <= limit && limit - t.holds < limit - v.holds),
{
    if exists|i: int| 0 <= i < v.placements.len() && #[trigger] place_step(v, t, i) {
        let i = choose|i: int| 0 <= i < v.placements.len() && #[trigger] place_step(v, t, i);
        assert(t.placements.len() == v.placements.len() - 1);
    }
}

} // verus!
