use vstd::prelude::*;

use crate::board::{covers, in_bounds, Board, COLS, ROWS};
use crate::dsu::Dsu;
use crate::locations::{get_locations, listed, reachable_rest, same_spot};
use crate::search_state::spawn;
use crate::piece::{Piece, Rotation};
use crate::placement::Placement;
use crate::search_state::{replay, SearchState};

verus! {

/// A node of the perfect-clear search.
#[derive(Clone, Copy, Debug, PartialEq, Eq, Hash)]
pub struct PcState {
    pub board: Board,
    /// How many pieces of the queue have been drawn.
    pub queue_used: u8,
    pub piece: Option<Piece>,
    pub hold: Option<Piece>,
    /// Rows at the bottom still to be cleared.
    pub height: u8,
}

/// First row of the band of the bottom `h` rows.
pub open spec fn band_top(h: int) -> int {
    ROWS - h
}

/// Band cell `i`, counted row by row from the top-left of the band, is empty.
pub open spec fn band_empty(b: Board, h: int, i: int) -> bool {
    b.cell(band_top(h) + i / 10, i % 10) is None
}

/// Band cells `i` and `j` are orthogonal neighbours (`j` right of or below `i`).
pub open spec fn linked(h: int, i: int, j: int) -> bool {
    &&& 0 <= i
    &&& j < 10 * h
    &&& (j == i + 1 && i % 10 < 9) || j == i + 10
}

/// `lab` gives neighbouring empty band cells the same label.
pub open spec fn respects(b: Board, h: int, lab: Seq<int>) -> bool {
    &&& lab.len() == 10 * h
    &&& forall|i: int, j: int|
        linked(h, i, j) && band_empty(b, h, i) && band_empty(b, h, j) ==> #[trigger] lab[i]
            == #[trigger] lab[j]
}

/// Empty band cells among the first `n` that carry label `root`.
pub open spec fn class_size(b: Board, h: int, lab: Seq<int>, root: int, n: int) -> nat
    decreases n,
{
    if n <= 0 {
        0
    } else {
        class_size(b, h, lab, root, n - 1) + if band_empty(b, h, n - 1) && lab[n - 1] == root {
            1nat
        } else {
            0nat
        }
    }
}

/// Filled cells among the first `n` of the band.
pub open spec fn band_filled(b: Board, h: int, n: int) -> nat
    decreases n,
{
    if n <= 0 {
        0
    } else {
        band_filled(b, h, n - 1) + if band_empty(b, h, n - 1) {
            0nat
        } else {
            1nat
        }
    }
}

/// Some cell above the band is filled.
pub open spec fn junk_above(b: Board, h: int) -> bool {
    exists|r: int, c: int| 0 <= r < band_top(h) && 0 <= c < COLS && #[trigger] b.filled(r, c)
}

/// The empty cells of the band split into closed regions, one of which cannot be tiled by
/// four-cell pieces.
pub open spec fn has_odd_region(b: Board, h: int) -> bool {
    exists|lab: Seq<int>, root: int|
        respects(b, h, lab) && #[trigger] class_size(b, h, lab, root, 10 * h) % 4 != 0
}

/// Band cells with one representative in `rep` carry one label under every labelling of the
/// empty cells that respects neighbours.
pub open spec fn finer(b: Board, h: int, rep: Seq<int>) -> bool {
    forall|lab: Seq<int>|
        #[trigger] respects(b, h, lab) ==> forall|p: int, q: int|
            0 <= p < 10 * h && 0 <= q < 10 * h && band_empty(b, h, p) && band_empty(b, h, q)
                && rep[p] == rep[q] ==> #[trigger] lab[p] == #[trigger] lab[q]
}

proof fn lemma_singletons_finer(b: Board, h: int, rep: Seq<int>)
    requires
        forall|i: int| 0 <= i < 10 * h ==> #[trigger] rep[i] == i,
    ensures
        finer(b, h, rep),
{
}

proof fn lemma_union_finer(b: Board, h: int, rep: Seq<int>, rep2: Seq<int>, x: int, y: int)
    requires
        finer(b, h, rep),
        rep.len() == 10 * h,
        rep2.len() == 10 * h,
        0 <= x < 10 * h,
        0 <= y < 10 * h,
        linked(h, x, y),
        band_empty(b, h, x),
        band_empty(b, h, y),
        forall|i: int| 0 <= i < 10 * h ==> #[trigger] rep2[i] == if rep[i] == rep[y] {
            rep[x]
        } else {
            rep[i]
        },
    ensures
        finer(b, h, rep2),
{
    assert forall|lab: Seq<int>| #[trigger] respects(b, h, lab) implies forall|p: int, q: int|
        0 <= p < 10 * h && 0 <= q < 10 * h && band_empty(b, h, p) && band_empty(b, h, q) && rep2[p]
            == rep2[q] ==> #[trigger] lab[p] == #[trigger] lab[q] by {
        assert(lab[x] == lab[y]);
        assert forall|p: int, q: int|
            0 <= p < 10 * h && 0 <= q < 10 * h && band_empty(b, h, p) && band_empty(b, h, q)
                && rep2[p] == rep2[q] implies #[trigger] lab[p] == #[trigger] lab[q] by {
            assert(rep2[p] == if rep[p] == rep[y] { rep[x] } else { rep[p] });
            assert(rep2[q] == if rep[q] == rep[y] { rep[x] } else { rep[q] });
            if rep[p] == rep[y] {
                assert(lab[p] == lab[y]);
            }
            if rep[q] == rep[y] {
                assert(lab[q] == lab[y]);
            }
            if rep[p] == rep[x] {
                assert(lab[p] == lab[x]);
            }
            if rep[q] == rep[x] {
                assert(lab[q] == lab[x]);
            }
        }
    }
}

/// Empty band cells among the first `n` with label `root` and representative `m`.
pub open spec fn both_count(b: Board, h: int, lab: Seq<int>, root: int, rep: Seq<int>, m: int, n: int) -> nat
    decreases n,
{
    if n <= 0 {
        0
    } else {
        both_count(b, h, lab, root, rep, m, n - 1) + if band_empty(b, h, n - 1) && lab[n - 1] == root
            && rep[n - 1] == m {
            1nat
        } else {
            0nat
        }
    }
}

/// Empty band cells among the first `n` with label `root` and representative below `top`.
pub open spec fn below_count(b: Board, h: int, lab: Seq<int>, root: int, rep: Seq<int>, top: int, n: int) -> nat
    decreases n,
{
    if n <= 0 {
        0
    } else {
        below_count(b, h, lab, root, rep, top, n - 1) + if band_empty(b, h, n - 1) && lab[n - 1] == root
            && 0 <= rep[n - 1] < top {
            1nat
        } else {
            0nat
        }
    }
}

proof fn lemma_both_all(b: Board, h: int, lab: Seq<int>, root: int, rep: Seq<int>, m: int, n: int)
    requires
        0 <= n <= 10 * h,
        forall|i: int| 0 <= i < 10 * h && band_empty(b, h, i) && rep[i] == m ==> #[trigger] lab[i] == root,
    ensures
        both_count(b, h, lab, root, rep, m, n) == class_size(b, h, rep, m, n),
    decreases n,
{
    if n > 0 {
        lemma_both_all(b, h, lab, root, rep, m, n - 1);
        if band_empty(b, h, n - 1) && rep[n - 1] == m {
            assert(lab[n - 1] == root);
        }
    }
}

proof fn lemma_both_none(b: Board, h: int, lab: Seq<int>, root: int, rep: Seq<int>, m: int, n: int)
    requires
        0 <= n <= 10 * h,
        forall|i: int| 0 <= i < 10 * h && band_empty(b, h, i) && rep[i] == m ==> #[trigger] lab[i] != root,
    ensures
        both_count(b, h, lab, root, rep, m, n) == 0,
    decreases n,
{
    if n > 0 {
        lemma_both_none(b, h, lab, root, rep, m, n - 1);
        if band_empty(b, h, n - 1) && rep[n - 1] == m {
            assert(lab[n - 1] != root);
        }
    }
}

proof fn lemma_both_mod(b: Board, h: int, lab: Seq<int>, root: int, rep: Seq<int>, m: int)
    requires
        h >= 0,
        finer(b, h, rep),
        respects(b, h, lab),
        class_size(b, h, rep, m, 10 * h) % 4 == 0,
    ensures
        both_count(b, h, lab, root, rep, m, 10 * h) % 4 == 0,
{
    if exists|i: int| 0 <= i < 10 * h && band_empty(b, h, i) && rep[i] == m && #[trigger] lab[i] == root {
        let w = choose|i: int| 0 <= i < 10 * h && band_empty(b, h, i) && rep[i] == m && #[trigger] lab[i] == root;
        assert forall|i: int| 0 <= i < 10 * h && band_empty(b, h, i) && rep[i] == m implies #[trigger] lab[i] == root by {
            assert(lab[i] == lab[w]);
        }
        lemma_both_all(b, h, lab, root, rep, m, 10 * h);
    } else {
        lemma_both_none(b, h, lab, root, rep, m, 10 * h);
    }
}

proof fn lemma_below_step(b: Board, h: int, lab: Seq<int>, root: int, rep: Seq<int>, top: int, n: int)
    requires
        top >= 0,
        n >= 0,
    ensures
        below_count(b, h, lab, root, rep, top + 1, n) == below_count(b, h, lab, root, rep, top, n)
            + both_count(b, h, lab, root, rep, top, n),
    decreases n,
{
    if n > 0 {
        lemma_below_step(b, h, lab, root, rep, top, n - 1);
    }
}

proof fn lemma_below_mod(b: Board, h: int, lab: Seq<int>, root: int, rep: Seq<int>, top: int)
    requires
        h >= 0,
        0 <= top <= 10 * h,
        finer(b, h, rep),
        respects(b, h, lab),
        forall|m: int| 0 <= m < 10 * h ==> #[trigger] class_size(b, h, rep, m, 10 * h) % 4 == 0,
    ensures
        below_count(b, h, lab, root, rep, top, 10 * h) % 4 == 0,
    decreases top,
{
    if top == 0 {
        lemma_below_zero(b, h, lab, root, rep, 10 * h);
    } else {
        lemma_below_mod(b, h, lab, root, rep, top - 1);
        lemma_below_step(b, h, lab, root, rep, top - 1, 10 * h);
        lemma_both_mod(b, h, lab, root, rep, top - 1);
    }
}

proof fn lemma_below_zero(b: Board, h: int, lab: Seq<int>, root: int, rep: Seq<int>, n: int)
    ensures
        below_count(b, h, lab, root, rep, 0, n) == 0,
    decreases n,
{
    if n > 0 {
        lemma_below_zero(b, h, lab, root, rep, n - 1);
    }
}

proof fn lemma_below_all(b: Board, h: int, lab: Seq<int>, root: int, rep: Seq<int>, n: int)
    requires
        0 <= n <= 10 * h,
        forall|i: int| 0 <= i < 10 * h ==> 0 <= #[trigger] rep[i] < 10 * h,
    ensures
        below_count(b, h, lab, root, rep, 10 * h, n) == class_size(b, h, lab, root, n),
    decreases n,
{
    if n > 0 {
        lemma_below_all(b, h, lab, root, rep, n - 1);
        assert(0 <= rep[n - 1] < 10 * h);
    }
}

/// When every class of `rep` has a multiple of four empty cells, so does every region of every
/// labelling that respects neighbours and that `rep` refines.
proof fn lemma_no_odd_region(b: Board, h: int, rep: Seq<int>)
    requires
        h >= 0,
        finer(b, h, rep),
        forall|i: int| 0 <= i < 10 * h ==> 0 <= #[trigger] rep[i] < 10 * h,
        forall|m: int| 0 <= m < 10 * h ==> #[trigger] class_size(b, h, rep, m, 10 * h) % 4 == 0,
    ensures
        !has_odd_region(b, h),
{
    assert forall|lab: Seq<int>, root: int| !(respects(b, h, lab) && #[trigger] class_size(b, h, lab, root, 10 * h) % 4 != 0) by {
        if respects(b, h, lab) {
            lemma_below_mod(b, h, lab, root, rep, 10 * h);
            lemma_below_all(b, h, lab, root, rep, 10 * h);
        }
    }
}

pub(crate) proof fn lemma_band_cell(h: int, i: int)
    requires
        0 <= i < 10 * h,
    ensures
        0 <= i / 10 < h,
        0 <= i % 10 < 10,
{
    assert(0 <= i / 10 < h) by (nonlinear_arith)
        requires
            0 <= i < 10 * h,
    ;
}

/// `mid` is `before` with piece `p` stamped at pivot (`row`, `col`) in `rot`.
pub open spec fn stamped(before: Board, mid: Board, p: Piece, row: int, col: int, rot: Rotation) -> bool {
    forall|r: int, c: int|
        in_bounds(r, c) ==> #[trigger] mid.cell(r, c) == if covers(p, rot, row, col, r, c) {
            Some(p)
        } else {
            before.cell(r, c)
        }
}

/// `after` is `mid` with its full rows cleared, and `n` rows were cleared.
pub open spec fn compacted(mid: Board, after: Board, n: int) -> bool {
    &&& n == ROWS - mid.kept_from(0).len()
    &&& forall|r: int, c: int| in_bounds(r, c) ==> #[trigger] after.cell(r, c) == mid.compacted_cell(r, c)
}

/// The piece of the queue at `i`, if the queue is that long.
pub open spec fn queue_at(queue: Seq<Piece>, i: int) -> Option<Piece> {
    if 0 <= i < queue.len() {
        Some(queue[i])
    } else {
        None
    }
}

/// The node after a hold: swap with the held piece, or stash the active piece and draw.
pub open spec fn hold_next(s: PcState, queue: Seq<Piece>) -> PcState {
    match s.hold {
        Some(h) => PcState { piece: Some(h), hold: s.piece, ..s },
        None => PcState {
            queue_used: (s.queue_used + 1) as u8,
            piece: queue_at(queue, s.queue_used as int),
            hold: s.piece,
            ..s
        },
    }
}

/// `t` follows `s` by the action `pl`: a hold, or locking the active piece at a rest pose that
/// it can reach, clearing full rows and drawing the next piece.
pub open spec fn pc_step(s: PcState, t: PcState, pl: Placement, queue: Seq<Piece>) -> bool {
    match pl {
        Placement::Hold => t == hold_next(s, queue),
        Placement::Place { piece, row, col, rotation } => {
            &&& s.piece == Some(piece)
            &&& crate::board::fits_in_well(piece, rotation, row as int, col as int)
            &&& reachable_rest(
                s.board,
                piece,
                SearchState { row: row as i8, col: col as i8, rotation, piece },
            )
            &&& exists|mid: Board, n: int|
                #[trigger] stamped(s.board, mid, piece, row as int, col as int, rotation) && #[trigger] compacted(
                    mid,
                    t.board,
                    n,
                ) && t.height == if n <= s.height {
                    s.height - n
                } else {
                    0
                }
            &&& t.queue_used == s.queue_used + 1
            &&& t.piece == queue_at(queue, s.queue_used as int)
            &&& t.hold == s.hold
        },
    }
}

/// A node that is already a perfect clear is never pruned: nothing lies above its band, the
/// band has no empty cell, so no count and no region can rule it out.
pub proof fn lemma_solved_node_not_pruned(s: PcState, queue_len: int)
    requires
        s.solved(),
        s.height <= ROWS,
    ensures
        !junk_above(s.board, s.height as int),
        s.band_holes() == 0,
        !(4 * s.pieces_left(queue_len) < s.band_holes()),
        !has_odd_region(s.board, s.height as int),
{
    let h = s.height as int;
    lemma_full_band_counts(s, 10 * h);
    assert forall|lab: Seq<int>, root: int| !(respects(s.board, h, lab) && #[trigger] class_size(
        s.board,
        h,
        lab,
        root,
        10 * h,
    ) % 4 != 0) by {
        lemma_full_band_classes(s, lab, root, 10 * h);
    }
}

proof fn lemma_full_band_counts(s: PcState, n: int)
    requires
        s.solved(),
        s.height <= ROWS,
        0 <= n <= 10 * s.height,
    ensures
        band_filled(s.board, s.height as int, n) == n,
    decreases n,
{
    if n > 0 {
        lemma_full_band_counts(s, n - 1);
        lemma_band_cell(s.height as int, n - 1);
        assert(s.board.filled(band_top(s.height as int) + (n - 1) / 10, (n - 1) % 10));
    }
}

proof fn lemma_full_band_classes(s: PcState, lab: Seq<int>, root: int, n: int)
    requires
        s.solved(),
        s.height <= ROWS,
        0 <= n <= 10 * s.height,
    ensures
        class_size(s.board, s.height as int, lab, root, n) == 0,
    decreases n,
{
    if n > 0 {
        lemma_full_band_classes(s, lab, root, n - 1);
        lemma_band_cell(s.height as int, n - 1);
        assert(s.board.filled(band_top(s.height as int) + (n - 1) / 10, (n - 1) % 10));
    }
}

/// The pose a placement locks its piece in.
pub open spec fn pose_of(pl: Placement) -> SearchState {
    match pl {
        Placement::Place { piece, row, col, rotation } => SearchState { row: row as i8, col: col as i8, rotation, piece },
        Placement::Hold => SearchState { row: 0, col: 0, rotation: Rotation::Normal, piece: Piece::O },
    }
}

/// The placement that locks the piece in pose `x`.
pub open spec fn place_of(x: SearchState) -> Placement {
    Placement::Place { piece: x.piece, row: x.row as u8, col: x.col as u8, rotation: x.rotation }
}

/// Some placement entry of `out` locks its piece at the spot of `x`.
pub open spec fn placed_at(out: Seq<(PcState, Placement)>, x: SearchState) -> bool {
    exists|i: int| 0 <= i < out.len() && (#[trigger] out[i]).1 is Place && same_spot(pose_of(out[i].1), x)
}

proof fn lemma_covers_occupies(p: Piece, o: Rotation, row: u8, col: u8, r: int, c: int)
    requires
        row <= 100,
        col <= 100,
    ensures
        covers(p, o, row as int, col as int, r, c) == (SearchState { row: row as i8, col: col as i8, rotation: o, piece: p }).occupies(r, c),
{
    let x = SearchState { row: row as i8, col: col as i8, rotation: o, piece: p };
    if covers(p, o, row as int, col as int, r, c) {
        let k = choose|k: int| 0 <= k < 4 && crate::board::cell_row(p, o, row as int, k) == r && crate::board::cell_col(p, o, col as int, k) == c;
        assert(x.cell_row(k) == r && x.cell_col(k) == c);
    }
    if x.occupies(r, c) {
        let k = choose|k: int| 0 <= k < 4 && x.cell_row(k) == r && x.cell_col(k) == c;
        assert(crate::board::cell_row(p, o, row as int, k) == r && crate::board::cell_col(p, o, col as int, k) == c);
    }
}

/// Two placements at one spot lead to one node.
proof fn lemma_same_node(s: PcState, t1: PcState, pl1: Placement, t2: PcState, pl2: Placement, q: Seq<Piece>)
    requires
        pc_step(s, t1, pl1, q),
        pc_step(s, t2, pl2, q),
        pl1 is Place,
        pl2 is Place,
        same_spot(pose_of(pl1), pose_of(pl2)),
        pose_of(pl1).fits(s.board),
        pose_of(pl2).fits(s.board),
    ensures
        t1 == t2,
{
    let p1 = pl1->Place_piece;
    let r1 = pl1->Place_row;
    let c1 = pl1->Place_col;
    let o1 = pl1->Place_rotation;
    let p2 = pl2->Place_piece;
    let r2 = pl2->Place_row;
    let c2 = pl2->Place_col;
    let o2 = pl2->Place_rotation;
    assert(pl1 == Placement::Place { piece: p1, row: r1, col: c1, rotation: o1 });
    assert(pl2 == Placement::Place { piece: p2, row: r2, col: c2, rotation: o2 });
    let x1 = pose_of(pl1);
    let x2 = pose_of(pl2);
    crate::setup::lemma_pivot_in_well(p1, o1, r1 as int, c1 as int);
    crate::setup::lemma_pivot_in_well(p2, o2, r2 as int, c2 as int);
    let (m1, n1) = choose|m: Board, n: int| #[trigger] stamped(s.board, m, p1, r1 as int, c1 as int, o1) && #[trigger] compacted(m, t1.board, n) && t1.height == if n <= s.height { s.height - n } else { 0 };
    let (m2, n2) = choose|m: Board, n: int| #[trigger] stamped(s.board, m, p2, r2 as int, c2 as int, o2) && #[trigger] compacted(m, t2.board, n) && t2.height == if n <= s.height { s.height - n } else { 0 };
    assert forall|r: int, c: int| in_bounds(r, c) implies #[trigger] m1.cell(r, c) == m2.cell(r, c) by {
        crate::search_state::lemma_symmetrical_same_cells(x1, r, c);
        crate::search_state::lemma_symmetrical_same_cells(x2, r, c);
        assert(r1 as int == x1.row && c1 as int == x1.col);
        assert(r2 as int == x2.row && c2 as int == x2.col);
        lemma_covers_occupies(p1, o1, r1, c1, r, c);
        lemma_covers_occupies(p2, o2, r2, c2, r, c);
    }
    crate::board::lemma_cells_equal(m1, m2);
    assert forall|r: int, c: int| in_bounds(r, c) implies #[trigger] t1.board.cell(r, c) == t2.board.cell(r, c) by {
    }
    crate::board::lemma_cells_equal(t1.board, t2.board);
}


/// Every placement whose next node passes the early checks has an entry, given a search that
/// listed every reachable spot and kept each location that passed.
proof fn lemma_successors_complete(
    s: PcState,
    q: Seq<Piece>,
    locs: Seq<SearchState>,
    nexts: Seq<PcState>,
    before: Seq<(PcState, Placement)>,
    out: Seq<(PcState, Placement)>,
)
    requires
        s.piece is Some,
        spawn(s.piece->Some_0).fits(s.board),
        forall|rest: SearchState| #[trigger] reachable_rest(s.board, s.piece->Some_0, rest) ==> listed(locs, rest),
        forall|j: int| 0 <= j < locs.len() ==> (#[trigger] locs[j]).fits(s.board),
        nexts.len() == locs.len(),
        forall|j: int|
            0 <= j < locs.len() ==> pc_step(s, #[trigger] nexts[j], place_of(locs[j]), q)
                && pose_of(place_of(locs[j])) == locs[j]
                && (!nexts[j].rejects(q.len() as int) ==> placed_at(before, locs[j])),
        out.len() == before.len() + 1,
        forall|e: int| 0 <= e < before.len() ==> #[trigger] out[e] == before[e],
        forall|e: int| 0 <= e < before.len() ==> pose_of((#[trigger] before[e]).1).fits(s.board),
    ensures
        forall|t: PcState, pl: Placement|
            #[trigger] pc_step(s, t, pl, q) && pl is Place && !t.rejects(q.len() as int) ==> placed_at(out, pose_of(pl)),
{
    let piece = s.piece->Some_0;
    assert forall|t: PcState, pl: Placement|
        #[trigger] pc_step(s, t, pl, q) && pl is Place && !t.rejects(q.len() as int) implies placed_at(out, pose_of(pl)) by {
        let rest = pose_of(pl);
        assert(pl->Place_piece == piece);
        assert(reachable_rest(s.board, piece, rest));
        let path = choose|path: Seq<crate::movement::Movement>| #[trigger] crate::locations::leads_to(s.board, piece, path, rest);
        crate::locations::lemma_replay_fits_pub(s.board, piece, path);
        assert(listed(locs, rest));
        let j = choose|j: int| 0 <= j < locs.len() && same_spot(#[trigger] locs[j], rest);
        assert(pose_of(place_of(locs[j])) == locs[j]);
        lemma_same_node(s, t, pl, nexts[j], place_of(locs[j]), q);
        assert(placed_at(before, locs[j]));
        let e = choose|e: int| 0 <= e < before.len() && (#[trigger] before[e]).1 is Place && same_spot(pose_of(before[e].1), locs[j]);
        assert(out[e] == before[e]);
        let y = pose_of(before[e].1);
        crate::search_state::lemma_fits_pivot(locs[j], s.board);
        crate::search_state::lemma_fits_pivot(rest, s.board);
        crate::search_state::lemma_fits_pivot(y, s.board);
        crate::locations::lemma_same_spot_trans(y, locs[j], rest);
        assert(same_spot(pose_of(out[e].1), rest));
    }
}


impl PcState {
    /// The counters are in range: the height fits the well and the queue position is at most
    /// one past the queue, and within it while a piece is active.
    pub open spec fn counted(self, queue_len: int) -> bool {
        &&& self.height <= ROWS
        &&& self.queue_used <= queue_len + 1
        &&& self.piece is Some ==> self.queue_used <= queue_len
    }

    /// Everything above the band is empty and every band cell is filled.
    pub open spec fn solved(self) -> bool {
        forall|r: int, c: int|
            0 <= r < ROWS && 0 <= c < COLS ==> (#[trigger] self.board.filled(r, c) <==> r
                >= band_top(self.height as int))
    }

    /// Pieces still to be placed: the active one, the held one, and the rest of the queue.
    pub open spec fn pieces_left(self, queue_len: int) -> int {
        (if self.piece is Some {
            1int
        } else {
            0
        }) + (if self.hold is Some {
            1int
        } else {
            0
        }) + (if queue_len > self.queue_used {
            queue_len - self.queue_used
        } else {
            0
        })
    }

    /// The node cannot lead to a perfect clear by one of the four early checks.
    pub open spec fn rejects(self, queue_len: int) -> bool {
        ||| junk_above(self.board, self.height as int)
        ||| self.band_holes() % 4 != 0
        ||| 4 * self.pieces_left(queue_len) < self.band_holes()
        ||| has_odd_region(self.board, self.height as int)
    }

    /// Empty cells of the band.
    pub open spec fn band_holes(self) -> int {
        10 * self.height - band_filled(self.board, self.height as int, 10 * self.height)
    }

    pub fn from(board: Board, piece: Option<Piece>, hold: Option<Piece>, height: u8) -> (s: PcState)
        ensures
            s == (PcState { board, queue_used: 0, piece, hold, height }),
    {
        PcState { board, queue_used: 0, piece, hold, height }
    }

    /// True when the node can be seen not to lead to a perfect clear: a cell above the band is
    /// filled; the band's empty cells are not a multiple of four; the pieces left cannot fill
    /// them; or a closed region of them cannot be tiled by four-cell pieces.
    pub fn fails_early(&self, queue: &Vec<Piece>) -> (r: bool)
        requires
            self.height <= ROWS,
        ensures
            junk_above(self.board, self.height as int) ==> r,
            self.band_holes() % 4 != 0 ==> r,
            4 * self.pieces_left(queue@.len() as int) < self.band_holes() ==> r,
            has_odd_region(self.board, self.height as int) ==> r,
            r == self.rejects(queue@.len() as int),
            r ==> junk_above(self.board, self.height as int) || self.band_holes() % 4 != 0 || 4
                * self.pieces_left(queue@.len() as int) < self.band_holes() || has_odd_region(
                self.board,
                self.height as int,
            ),
    {
        let ghost hh = self.height as int;
        let h: usize = self.height as usize;
        let top: usize = ROWS - h;
        // Anything above the band
        let mut r: usize = 0;
        while r < top
            invariant
                r <= top,
                top == band_top(hh),
                hh == self.height,
                forall|i: int, c: int| 0 <= i < r && 0 <= c < COLS ==> !#[trigger] self.board.filled(i, c),
            decreases top - r,
        {
            let mut c: usize = 0;
            while c < COLS
                invariant
                    r < top,
                    top <= ROWS,
                    top == band_top(hh),
                    hh == self.height,
                    c <= COLS,
                    forall|i: int, j: int|
                        0 <= i < r && 0 <= j < COLS ==> !#[trigger] self.board.filled(i, j),
                    forall|j: int| 0 <= j < c ==> !#[trigger] self.board.filled(r as int, j),
                decreases COLS - c,
            {
                if self.board.is_filled(r, c) {
                    assert(self.board.filled(r as int, c as int));
                    return true;
                }
                c += 1;
            }
            r += 1;
        }
        assert(!junk_above(self.board, hh));
        // Cells of the band
        let n: usize = 10 * h;
        let mut filled: usize = 0;
        let mut i: usize = 0;
        while i < n
            invariant
                i <= n,
                n == 10 * hh,
                top == band_top(hh),
                hh <= ROWS,
                filled == band_filled(self.board, hh, i as int),
                filled <= i,
            decreases n - i,
        {
            proof {
                lemma_band_cell(hh, i as int);
            }
            if self.board.is_filled(top + i / 10, i % 10) {
                filled += 1;
            }
            i += 1;
        }
        let holes: usize = n - filled;
        assert(holes == self.band_holes());
        if holes % 4 != 0 {
            return true;
        }
        let rest: usize = if queue.len() > self.queue_used as usize {
            queue.len() - self.queue_used as usize
        } else {
            0
        };
        if rest < 64 {
            let mut avail: usize = rest;
            if self.piece.is_some() {
                avail += 1;
            }
            if self.hold.is_some() {
                avail += 1;
            }
            assert(avail == self.pieces_left(queue@.len() as int));
            if 4 * avail < holes {
                return true;
            }
        }
        // Regions of empty band cells
        let mut dsu = Dsu::new(n);
        proof {
            lemma_singletons_finer(self.board, hh, dsu@);
        }
        let mut i: usize = 0;
        while i < n
            invariant
                i <= n,
                n == 10 * hh,
                top == band_top(hh),
                hh <= ROWS,
                dsu.wf(),
                dsu@.len() == n,
                forall|x: int, y: int|
                    linked(hh, x, y) && x < i && band_empty(self.board, hh, x) && band_empty(self.board, hh, y)
                        ==> #[trigger] dsu@[x] == #[trigger] dsu@[y],
                finer(self.board, hh, dsu@),
            decreases n - i,
        {
            proof {
                lemma_band_cell(hh, i as int);
            }
            if !self.board.is_filled(top + i / 10, i % 10) {
                if i % 10 < 9 && i + 1 < n {
                    proof {
                        lemma_band_cell(hh, i as int + 1);
                    }
                    if !self.board.is_filled(top + (i + 1) / 10, (i + 1) % 10) {
                        let ghost before = dsu@;
                        dsu.union(i, i + 1);
                        proof {
                            lemma_union_finer(self.board, hh, before, dsu@, i as int, i as int + 1);
                        }
                    }
                }
                if i + 10 < n {
                    proof {
                        lemma_band_cell(hh, i as int + 10);
                    }
                    if !self.board.is_filled(top + (i + 10) / 10, (i + 10) % 10) {
                        let ghost before = dsu@;
                        dsu.union(i, i + 10);
                        proof {
                            lemma_union_finer(self.board, hh, before, dsu@, i as int, i as int + 10);
                        }
                    }
                }
            }
            i += 1;
        }
        let ghost lab = dsu@;
        assert(respects(self.board, hh, lab));
        assert forall|j: int| 0 <= j < 10 * hh implies 0 <= #[trigger] lab[j] < 10 * hh by {
            dsu.lemma_rep_in_range(j);
        }
        let mut counts: Vec<usize> = Vec::new();
        let mut k: usize = 0;
        while k < n
            invariant
                k <= n,
                counts@.len() == k,
                forall|j: int| 0 <= j < k ==> #[trigger] counts@[j] == 0,
            decreases n - k,
        {
            counts.push(0);
            k += 1;
        }
        let mut i: usize = 0;
        while i < n
            invariant
                i <= n,
                n == 10 * hh,
                top == band_top(hh),
                hh <= ROWS,
                dsu.wf(),
                dsu@ == lab,
                lab.len() == n,
                counts@.len() == n,
                forall|j: int| 0 <= j < n ==> #[trigger] counts@[j] == class_size(self.board, hh, lab, j, i as int),
                forall|j: int| 0 <= j < n ==> #[trigger] counts@[j] <= i,
            decreases n - i,
        {
            proof {
                lemma_band_cell(hh, i as int);
            }
            if !self.board.is_filled(top + i / 10, i % 10) {
                let root = dsu.find(i);
                proof {
                    assert(0 <= lab[i as int] < n) by {
                        dsu.lemma_rep_in_range(i as int);
                    }
                }
                counts.set(root, counts[root] + 1);
            }
            i += 1;
        }
        let mut k: usize = 0;
        while k < n
            invariant
                k <= n,
                n == 10 * hh,
                counts@.len() == n,
                forall|j: int| 0 <= j < n ==> #[trigger] counts@[j] == class_size(self.board, hh, lab, j, n as int),
                respects(self.board, hh, lab),
                hh == self.height as int,
                hh >= 0,
                finer(self.board, hh, lab),
                forall|j: int| 0 <= j < 10 * hh ==> 0 <= #[trigger] lab[j] < 10 * hh,
                forall|j: int| 0 <= j < k ==> #[trigger] class_size(self.board, hh, lab, j, 10 * hh) % 4 == 0,
            decreases n - k,
        {
            if counts[k] % 4 != 0 {
                let ghost hb = self.height as int;
                assert(class_size(self.board, hb, lab, k as int, 10 * hb) % 4 != 0);
                assert(respects(self.board, hb, lab));
                assert(has_odd_region(self.board, hb));
                return true;
            }
            k += 1;
        }
        proof {
            lemma_no_odd_region(self.board, hh, lab);
        }
        false
    }

    /// The nodes one action away, each with its action: every rest placement of the active
    /// piece that does not fail early, then the hold. None when no piece is active.
    pub fn successors(&self, queue: &Vec<Piece>) -> (r: Vec<(PcState, Placement)>)
        requires
            queue@.len() < 255,
            self.counted(queue@.len() as int),
        ensures
            forall|i: int| 0 <= i < r@.len() ==> pc_step(*self, (#[trigger] r@[i]).0, r@[i].1, queue@),
            forall|i: int| 0 <= i < r@.len() ==> (#[trigger] r@[i]).0.counted(queue@.len() as int),
            self.piece is None ==> r@.len() == 0,
            self.piece is Some ==> r@.len() > 0 && r@.last() == (
            hold_next(*self, queue@),
            Placement::Hold,
            ),
            forall|i: int| 0 <= i < r@.len() - 1 ==> (#[trigger] r@[i]).1 is Place,
            forall|i: int|
                0 <= i < r@.len() && (#[trigger] r@[i]).1 is Place ==> !r@[i].0.rejects(
                    queue@.len() as int,
                ),
            self.piece is Some && spawn(self.piece->Some_0).fits(self.board) ==> forall|t: PcState, pl: Placement|
                #[trigger] pc_step(*self, t, pl, queue@) && pl is Place && !t.rejects(queue@.len() as int)
                    ==> placed_at(r@, pose_of(pl)),
    {
        let mut out: Vec<(PcState, Placement)> = Vec::new();
        let piece = match self.piece {
            Some(p) => p,
            None => {
                return out;
            },
        };
        let locations = get_locations(&self.board, piece);
        let ghost mut nexts: Seq<PcState> = Seq::empty();
        let mut i: usize = 0;
        while i < locations.len()
            invariant
                i <= locations@.len(),
                nexts.len() == i,
                forall|j: int| 0 <= j < out@.len() ==> (#[trigger] out@[j]).1 is Place && !out@[j].0.rejects(queue@.len() as int),
                forall|j: int| 0 <= j < out@.len() ==> pose_of((#[trigger] out@[j]).1).fits(self.board),
                forall|j: int|
                    0 <= j < i ==> pc_step(*self, #[trigger] nexts[j], place_of(locations@[j]), queue@)
                        && pose_of(place_of(locations@[j])) == locations@[j]
                        && (!nexts[j].rejects(queue@.len() as int) ==> placed_at(out@, locations@[j])),
                queue@.len() < 255,
                self.counted(queue@.len() as int),
                self.piece == Some(piece),
                forall|j: int| 0 <= j < locations@.len() ==> reachable_rest(self.board, piece, #[trigger] locations@[j]),
                forall|j: int| 0 <= j < locations@.len() ==> (#[trigger] locations@[j]).fits(self.board),
                forall|j: int| 0 <= j < out@.len() ==> pc_step(*self, (#[trigger] out@[j]).0, out@[j].1, queue@),
                forall|j: int| 0 <= j < out@.len() ==> (#[trigger] out@[j]).0.counted(queue@.len() as int),
            decreases locations@.len() - i,
        {
            let loc = locations[i];
            proof {
                crate::search_state::lemma_fits_pivot(loc, self.board);
                assert(loc.piece == piece) by {
                    let path = choose|path: Seq<crate::movement::Movement>| #[trigger] crate::locations::leads_to(self.board, piece, path, loc);
                    crate::locations::lemma_replay_keeps_piece(self.board, piece, path);
                }
            }
            let row = loc.row as u8;
            let col = loc.col as u8;
            assert forall|k: int| 0 <= k < 4 implies in_bounds(
                #[trigger] crate::board::cell_row(piece, loc.rotation, row as int, k),
                crate::board::cell_col(piece, loc.rotation, col as int, k),
            ) by {
                assert(in_bounds(loc.cell_row(k), loc.cell_col(k)));
            }
            let mut new_board = self.board.with_placement(piece, row, col, loc.rotation);
            let ghost mid = new_board;
            let cleared = new_board.clear_lines();
            let height = if cleared <= self.height {
                self.height - cleared
            } else {
                0
            };
            let next = PcState {
                board: new_board,
                queue_used: self.queue_used + 1,
                piece: if (self.queue_used as usize) < queue.len() {
                    Some(queue[self.queue_used as usize])
                } else {
                    None
                },
                hold: self.hold,
                height,
            };
            let pl = Placement::place(piece, row, col, loc.rotation);
            proof {
                assert(loc == SearchState { row: row as i8, col: col as i8, rotation: loc.rotation, piece });
                assert(stamped(self.board, mid, piece, row as int, col as int, loc.rotation));
                assert(compacted(mid, next.board, cleared as int));
                assert(pc_step(*self, next, pl, queue@));
            }
            let ghost out0 = out@;
            if !next.fails_early(queue) {
                out.push((next, pl));
                proof {
                    assert(out@[out@.len() - 1].1 == pl);
                    assert(pose_of(pl) == loc);
                    assert(placed_at(out@, loc));
                }
            }
            proof {
                assert(pl == place_of(loc));
                nexts = nexts.push(next);
                assert forall|j: int|
                    0 <= j < i + 1 implies pc_step(*self, #[trigger] nexts[j], place_of(locations@[j]), queue@)
                        && pose_of(place_of(locations@[j])) == locations@[j]
                        && (!nexts[j].rejects(queue@.len() as int) ==> placed_at(out@, locations@[j])) by {
                    if j < i && !nexts[j].rejects(queue@.len() as int) {
                        let e = choose|e: int| 0 <= e < out0.len() && (#[trigger] out0[e]).1 is Place && same_spot(pose_of(out0[e].1), locations@[j]);
                        assert(out@[e] == out0[e]);
                    }
                }
            }
            i += 1;
        }
        let ghost before_hold = out@;
        let held = match self.hold {
            Some(h) => PcState { piece: Some(h), hold: self.piece, ..*self },
            None => PcState {
                queue_used: self.queue_used + 1,
                piece: if (self.queue_used as usize) < queue.len() {
                    Some(queue[self.queue_used as usize])
                } else {
                    None
                },
                hold: self.piece,
                ..*self
            },
        };
        out.push((held, Placement::Hold));
        proof {
            let qlen = queue@.len() as int;
            assert forall|i: int| 0 <= i < out@.len() - 1 implies (#[trigger] out@[i]).1 is Place by {
                assert(out@[i] == before_hold[i]);
            }
            assert forall|i: int| 0 <= i < out@.len() && (#[trigger] out@[i]).1 is Place implies !out@[i].0.rejects(qlen) by {
                if i < before_hold.len() {
                    assert(out@[i] == before_hold[i]);
                }
            }
            if spawn(piece).fits(self.board) {
                lemma_successors_complete(*self, queue@, locations@, nexts, before_hold, out@);
            }
        }
        out
    }

    /// True iff the bottom `height` rows are full and everything above them is empty.
    pub fn is_solved(&self) -> (r: bool)
        requires
            self.height <= ROWS,
        ensures
            r == self.solved(),
    {
        let top: usize = ROWS - self.height as usize;
        let mut r: usize = 0;
        while r < ROWS
            invariant
                r <= ROWS,
                top == band_top(self.height as int),
                forall|i: int, c: int|
                    0 <= i < r && 0 <= c < COLS ==> (#[trigger] self.board.filled(i, c) <==> i >= top),
            decreases ROWS - r,
        {
            let mut c: usize = 0;
            while c < COLS
                invariant
                    r < ROWS,
                    c <= COLS,
                    top == band_top(self.height as int),
                    forall|i: int, j: int|
                        0 <= i < r && 0 <= j < COLS ==> (#[trigger] self.board.filled(i, j) <==> i
                            >= top),
                    forall|j: int|
                        0 <= j < c ==> (#[trigger] self.board.filled(r as int, j) <==> r >= top),
                decreases COLS - c,
            {
                if self.board.is_filled(r, c) != (r >= top) {
                    return false;
                }
                c += 1;
            }
            r += 1;
        }
        true
    }
}

} // verus!
