use vstd::prelude::*;

use crate::board::Board;
use crate::movement::Movement;
use crate::piece::{Piece, Rotation};
use crate::search_state::{move_order, replay, spawn, SearchState};

verus! {

/// Poses that fit the well: 23 rows, 10 columns, 4 orientations.
pub const POSES: usize = 920;

/// `path` ends in a hard drop and leads from the spawn pose of `p` to `rest`.
pub open spec fn leads_to(b: Board, p: Piece, path: Seq<Movement>, rest: SearchState) -> bool {
    &&& path.len() > 0
    &&& path.last() == Movement::HardDrop
    &&& replay(spawn(p), b, path) == rest
}

/// Some input sequence leads from the spawn pose of `p` to the rest pose `rest`.
pub open spec fn reachable_rest(b: Board, p: Piece, rest: SearchState) -> bool {
    exists|path: Seq<Movement>| #[trigger] leads_to(b, p, path, rest)
}

/// Inputs never change the kind of the piece.
pub proof fn lemma_replay_keeps_piece(b: Board, p: Piece, path: Seq<Movement>)
    ensures
        replay(spawn(p), b, path).piece == p,
    decreases path.len(),
{
    if path.len() > 0 {
        lemma_replay_keeps_piece(b, p, path.drop_last());
        crate::search_state::lemma_step_keeps_piece(replay(spawn(p), b, path.drop_last()), b, path.last());
    }
}

/// `x` and `y` are the same pose or two encodings of one footprint.
pub open spec fn same_spot(x: SearchState, y: SearchState) -> bool {
    x == y || x == y.symmetrical_spec() || y == x.symmetrical_spec()
}

/// No two entries of `s` stand for the same spot.
pub open spec fn distinct_spots(s: Seq<SearchState>) -> bool {
    forall|i: int, j: int| 0 <= i < s.len() && 0 <= j < s.len() && i != j ==> !same_spot(s[i], s[j])
}

pub open spec fn count_marked(s: Seq<bool>) -> nat
    decreases s.len(),
{
    if s.len() == 0 {
        0
    } else {
        count_marked(s.drop_last()) + if s.last() {
            1nat
        } else {
            0nat
        }
    }
}

proof fn lemma_count_le(s: Seq<bool>)
    ensures
        count_marked(s) <= s.len(),
    decreases s.len(),
{
    if s.len() > 0 {
        lemma_count_le(s.drop_last());
    }
}

proof fn lemma_count_mark(s: Seq<bool>, i: int)
    requires
        0 <= i < s.len(),
        !s[i],
    ensures
        count_marked(s.update(i, true)) == count_marked(s) + 1,
    decreases s.len(),
{
    let u = s.update(i, true);
    if i == s.len() - 1 {
        assert(u.drop_last() =~= s.drop_last());
    } else {
        assert(u.drop_last() =~= s.drop_last().update(i, true));
        lemma_count_mark(s.drop_last(), i);
    }
}

proof fn lemma_count_all_false(n: nat)
    ensures
        count_marked(Seq::new(n, |i: int| false)) == 0,
    decreases n,
{
    if n > 0 {
        assert(Seq::new(n, |i: int| false).drop_last() =~= Seq::new((n - 1) as nat, |i: int| false));
        lemma_count_all_false((n - 1) as nat);
    }
}

fn rotation_index(r: Rotation) -> (i: usize)
    ensures
        i < 4,
        i == rotation_index_spec(r),
{
    match r {
        Rotation::Normal => 0,
        Rotation::Cw => 1,
        Rotation::Ccw => 2,
        Rotation::Flip => 3,
    }
}

pub open spec fn rotation_index_spec(r: Rotation) -> nat {
    match r {
        Rotation::Normal => 0,
        Rotation::Cw => 1,
        Rotation::Ccw => 2,
        Rotation::Flip => 3,
    }
}

/// Slot of a pose in the visited table.
pub open spec fn slot(s: SearchState) -> int {
    (s.row * 10 + s.col) * 4 + rotation_index_spec(s.rotation)
}

/// Two fitting poses of one piece in the same slot are the same pose.
proof fn lemma_slot_injective(s: SearchState, t: SearchState, b: Board)
    requires
        s.fits(b),
        t.fits(b),
        s.piece == t.piece,
        slot(s) == slot(t),
    ensures
        s == t,
{
    crate::search_state::lemma_fits_pivot(s, b);
    crate::search_state::lemma_fits_pivot(t, b);
    assert(rotation_index_spec(s.rotation) == rotation_index_spec(t.rotation));
    assert(s.rotation == t.rotation);
}

/// One input from a fitting pose leads to a fitting pose of the same piece.
proof fn lemma_step_fits(s: SearchState, b: Board, m: Movement)
    requires
        s.fits(b),
    ensures
        s.step(b, m).fits(b),
        s.step(b, m).piece == s.piece,
{
    crate::search_state::lemma_step_keeps_piece(s, b, m);
    crate::search_state::lemma_step_fits_spec(s, b, m);
}

/// `rest` is listed in `out` as itself or as its other encoding.
pub open spec fn listed(out: Seq<SearchState>, rest: SearchState) -> bool {
    exists|i: int| 0 <= i < out.len() && same_spot(#[trigger] out[i], rest)
}

/// Slot of a fitting pose in the visited table.
fn pose_index(s: SearchState, Ghost(b): Ghost<Board>) -> (i: usize)
    requires
        s.fits(b),
    ensures
        i < POSES,
        i == slot(s),
{
    proof {
        crate::search_state::lemma_fits_pivot(s, b);
    }
    ((s.row as usize) * 10 + (s.col as usize)) * 4 + rotation_index(s.rotation)
}

fn copy_path(p: &Vec<Movement>) -> (r: Vec<Movement>)
    ensures
        r@ == p@,
{
    let mut r: Vec<Movement> = Vec::new();
    let mut i: usize = 0;
    while i < p.len()
        invariant
            i <= p@.len(),
            r@ == p@.subrange(0, i as int),
        decreases p@.len() - i,
    {
        r.push(p[i]);
        i += 1;
        assert(r@ =~= p@.subrange(0, i as int));
    }
    assert(r@ =~= p@);
    r
}

/// True iff `out` already holds a spot equal to `x` or to its alternate encoding.
fn holds_spot(out: &Vec<(SearchState, Vec<Movement>)>, x: SearchState, Ghost(b): Ghost<Board>) -> (r:
    bool)
    requires
        x.fits(b),
        forall|j: int| 0 <= j < out@.len() ==> (#[trigger] out@[j]).0.fits(b),
    ensures
        r == exists|j: int| 0 <= j < out@.len() && same_spot(x, #[trigger] out@[j].0),
{
    proof {
        crate::search_state::lemma_fits_pivot(x, b);
    }
    let xs = x.symmetrical();
    let mut j: usize = 0;
    while j < out.len()
        invariant
            j <= out@.len(),
            xs == x.symmetrical_spec(),
            forall|i: int| 0 <= i < out@.len() ==> (#[trigger] out@[i]).0.fits(b),
            forall|i: int| 0 <= i < j ==> !same_spot(x, #[trigger] out@[i].0),
        decreases out@.len() - j,
    {
        let y = out[j].0;
        proof {
            crate::search_state::lemma_fits_pivot(y, b);
        }
        let ys = y.symmetrical();
        if x == y || x == ys || y == xs {
            return true;
        }
        j += 1;
    }
    false
}

/// No input of `p` is a hard drop.
pub open spec fn no_hard_drop(p: Seq<Movement>) -> bool {
    forall|k: int| 0 <= k < p.len() ==> #[trigger] p[k] != Movement::HardDrop
}

/// `rest` is listed in `out`, with its path, as itself or as its other encoding.
pub open spec fn listed_with(out: Seq<(SearchState, Vec<Movement>)>, rest: SearchState) -> bool {
    exists|i: int| 0 <= i < out.len() && same_spot(#[trigger] out[i].0, rest)
}

/// Breadth-first search from the spawn pose: each rest pose reached, once per spot, with the
/// path by which the search first reached it.
#[verifier::rlimit(100)]
fn explore(board: &Board, piece: Piece) -> (r: Vec<(SearchState, Vec<Movement>)>)
    ensures
        forall|i: int| 0 <= i < r@.len() ==> leads_to(*board, piece, (#[trigger] r@[i]).1@, r@[i].0),
        forall|i: int| 0 <= i < r@.len() ==> no_hard_drop((#[trigger] r@[i]).1@.drop_last()),
        forall|i: int| 0 <= i < r@.len() ==> (#[trigger] r@[i]).0.fits(*board),
        forall|i: int, j: int|
            0 <= i < r@.len() && 0 <= j < r@.len() && i != j ==> !same_spot(
                #[trigger] r@[i].0,
                #[trigger] r@[j].0,
            ),
        spawn(piece).fits(*board) ==> forall|rest: SearchState|
            #[trigger] reachable_rest(*board, piece, rest) ==> listed_with(r@, rest),
        !spawn(piece).fits(*board) ==> r@.len() == 0,
        spawn(piece).fits(*board) ==> r@.len() > 0,
{
    let mut out: Vec<SearchState> = Vec::new();
    let start = SearchState::new(1, 4, Rotation::Normal, piece);
    if start.intersects(board) {
        return Vec::new();
    }
    let mut visited: Vec<bool> = Vec::new();
    while visited.len() < POSES
        invariant
            visited@.len() <= POSES,
            visited@ == Seq::new(visited@.len(), |i: int| false),
        decreases POSES - visited@.len(),
    {
        visited.push(false);
        assert(visited@ =~= Seq::new(visited@.len(), |i: int| false));
    }
    proof {
        lemma_count_all_false(POSES as nat);
    }
    let k0 = pose_index(start, Ghost(*board));
    proof {
        lemma_count_mark(visited@, k0 as int);
    }
    visited.set(k0, true);
    let mut queue: Vec<SearchState> = Vec::new();
    queue.push(start);
    // The input sequence by which the search reached each queued pose.
    let mut paths: Vec<Vec<Movement>> = Vec::new();
    paths.push(Vec::new());
    let mut out_paths: Vec<Vec<Movement>> = Vec::new();
    proof {
        assert(replay(spawn(piece), *board, paths@[0]@) == start);
    }
    let mut head: usize = 0;
    while head < queue.len()
        invariant
            visited@.len() == POSES,
            queue@.len() == count_marked(visited@),
            head <= queue@.len(),
            queue@.len() > 0,
            queue@[0] == spawn(piece),
            paths@.len() == queue@.len(),
            out_paths@.len() == out@.len(),
            forall|j: int| 0 <= j < paths@.len() ==> no_hard_drop((#[trigger] paths@[j])@),
            forall|i: int| 0 <= i < out@.len() ==> leads_to(*board, piece, (#[trigger] out_paths@[i])@, out@[i]),
            forall|i: int| 0 <= i < out@.len() ==> no_hard_drop((#[trigger] out_paths@[i])@.drop_last()),
            forall|j: int| 0 <= j < queue@.len() ==> (#[trigger] queue@[j]).fits(*board),
            forall|j: int| 0 <= j < queue@.len() ==> (#[trigger] queue@[j]).piece == piece,
            forall|j: int| 0 <= j < queue@.len() ==> 0 <= slot(#[trigger] queue@[j]) < POSES && visited@[slot(queue@[j])],
            forall|k: int|
                0 <= k < POSES && #[trigger] visited@[k] ==> exists|j: int|
                    0 <= j < queue@.len() && slot(#[trigger] queue@[j]) == k,
            forall|j: int, m: int|
                0 <= j < head && 0 <= m < 8 ==> 0 <= slot(
                    #[trigger] queue@[j].step(*board, #[trigger] move_order()[m]),
                ) < POSES && visited@[slot(queue@[j].step(*board, move_order()[m]))],
            forall|j: int|
                0 <= j < head ==> listed(out@, (#[trigger] queue@[j]).drop_spec(*board)),
            forall|j: int|
                0 <= j < queue@.len() ==> replay(spawn(piece), *board, (#[trigger] paths@[j])@) == queue@[j],
            forall|i: int| 0 <= i < out@.len() ==> reachable_rest(*board, piece, #[trigger] out@[i]),
            forall|i: int| 0 <= i < out@.len() ==> (#[trigger] out@[i]).fits(*board),
            distinct_spots(out@),
            head > 0 ==> out@.len() > 0,
        decreases POSES - head,
    {
        proof {
            lemma_count_le(visited@);
        }
        let s = queue[head];
        let path = copy_path(&paths[head]);
        let ghost out_before = out@;
        let dropped = s.drop(board);
        if !holds_rest(&out, dropped, Ghost(*board)) {
            let mut p = copy_path(&path);
            p.push(Movement::HardDrop);
            proof {
                assert(p@.drop_last() =~= path@);
                assert(leads_to(*board, piece, p@, dropped));
            }
            out.push(dropped);
            out_paths.push(p);
            proof {
                assert forall|a: int, c: int|
                    0 <= a < out@.len() && 0 <= c < out@.len() && a != c implies !same_spot(
                    out@[a],
                    out@[c],
                ) by {
                    if a == out@.len() - 1 {
                        assert(!same_spot(dropped, out@[c]));
                    } else if c == out@.len() - 1 {
                        assert(!same_spot(dropped, out@[a]));
                    }
                }
                assert(same_spot(out@[out@.len() - 1], dropped));
            }
        }
        proof {
            assert(listed(out@, s.drop_spec(*board)));
            assert forall|j: int| 0 <= j < head implies listed(out@, (#[trigger] queue@[j]).drop_spec(*board)) by {
                let i = choose|i: int| 0 <= i < out_before.len() && same_spot(#[trigger] out_before[i], queue@[j].drop_spec(*board));
                assert(out@[i] == out_before[i]);
            }
        }
        head += 1;
        let succ = s.successors(board);
        let mut i: usize = 0;
        while i < 8
            invariant
                i <= 8,
                0 < head <= queue@.len(),
                s == queue@[head - 1],
                succ@.len() == 8,
                forall|j: int| 0 <= j < 8 ==> (#[trigger] succ@[j]).0.fits(*board),
                forall|j: int| 0 <= j < 8 ==> (#[trigger] succ@[j]) == (s.step(*board, move_order()[j]), move_order()[j]),
                replay(spawn(piece), *board, path@) == s,
                no_hard_drop(path@),
                s.piece == piece,
                visited@.len() == POSES,
                queue@.len() == count_marked(visited@),
                queue@.len() > 0,
                queue@[0] == spawn(piece),
                paths@.len() == queue@.len(),
                forall|j: int| 0 <= j < paths@.len() ==> no_hard_drop((#[trigger] paths@[j])@),
                forall|j: int| 0 <= j < queue@.len() ==> (#[trigger] queue@[j]).fits(*board),
                forall|j: int| 0 <= j < queue@.len() ==> (#[trigger] queue@[j]).piece == piece,
                forall|j: int| 0 <= j < queue@.len() ==> 0 <= slot(#[trigger] queue@[j]) < POSES && visited@[slot(queue@[j])],
                forall|k: int|
                    0 <= k < POSES && #[trigger] visited@[k] ==> exists|j: int|
                        0 <= j < queue@.len() && slot(#[trigger] queue@[j]) == k,
                forall|j: int, m: int|
                    0 <= j < head - 1 && 0 <= m < 8 ==> 0 <= slot(
                        #[trigger] queue@[j].step(*board, #[trigger] move_order()[m]),
                    ) < POSES && visited@[slot(queue@[j].step(*board, move_order()[m]))],
                forall|m: int|
                    0 <= m < i ==> 0 <= slot(s.step(*board, #[trigger] move_order()[m])) < POSES
                        && visited@[slot(s.step(*board, move_order()[m]))],
                forall|j: int|
                    0 <= j < head ==> listed(out@, (#[trigger] queue@[j]).drop_spec(*board)),
                forall|j: int|
                    0 <= j < queue@.len() ==> replay(spawn(piece), *board, (#[trigger] paths@[j])@)
                        == queue@[j],
            decreases 8 - i,
        {
            let (t, m) = succ[i];
            let k = pose_index(t, Ghost(*board));
            proof {
                crate::search_state::lemma_step_keeps_piece(s, *board, m);
                lemma_slot_range(t, *board);
            }
            if !visited[k] {
                proof {
                    lemma_count_mark(visited@, k as int);
                }
                let mut p = copy_path(&path);
                p.push(m);
                proof {
                    assert(p@.drop_last() =~= path@);
                    assert(m == move_order()[i as int]);
                    assert forall|q: int| 0 <= q < p@.len() implies #[trigger] p@[q] != Movement::HardDrop by {
                        if q < path@.len() {
                            assert(p@[q] == path@[q]);
                        }
                    }
                }
                paths.push(p);
                let ghost old_queue = queue@;
                let ghost old_visited = visited@;
                visited.set(k, true);
                queue.push(t);
                proof {
                    assert(t.piece == piece);
                    assert(queue@[queue@.len() - 1] == t);
                    assert forall|j: int| 0 <= j < queue@.len() implies 0 <= slot(#[trigger] queue@[j]) < POSES && visited@[slot(queue@[j])] by {
                        if j < old_queue.len() {
                            assert(queue@[j] == old_queue[j]);
                            lemma_slot_range(old_queue[j], *board);
                            assert(old_visited[slot(old_queue[j])]);
                        }
                    }
                    assert forall|j: int| 0 <= j < queue@.len() implies (#[trigger] queue@[j]).piece == piece by {
                        if j < old_queue.len() {
                            assert(queue@[j] == old_queue[j]);
                        }
                    }
                    assert forall|kk: int|
                        0 <= kk < POSES && #[trigger] visited@[kk] implies exists|j: int|
                            0 <= j < queue@.len() && slot(#[trigger] queue@[j]) == kk by {
                        if kk == k {
                            assert(slot(queue@[queue@.len() - 1]) == kk);
                        } else {
                            let j = choose|j: int| 0 <= j < old_queue.len() && slot(#[trigger] old_queue[j]) == kk;
                            assert(queue@[j] == old_queue[j]);
                        }
                    }
                }
            }
            i += 1;
        }
        proof {
            assert forall|j: int, m: int| 0 <= j < head && 0 <= m < 8 implies 0 <= slot(
                #[trigger] queue@[j].step(*board, #[trigger] move_order()[m]),
            ) < POSES && visited@[slot(queue@[j].step(*board, move_order()[m]))] by {
                if j == head - 1 {
                    assert(queue@[j] == s);
                }
            }
        }
    }
    proof {
        assert forall|rest: SearchState| #[trigger] reachable_rest(*board, piece, rest) implies listed(out@, rest) by {
            let path = choose|path: Seq<Movement>| #[trigger] leads_to(*board, piece, path, rest);
            lemma_reach_queued(*board, piece, queue@, visited@, path.drop_last());
            let j = choose|j: int| 0 <= j < queue@.len() && #[trigger] queue@[j] == replay(spawn(piece), *board, path.drop_last());
            assert(rest == queue@[j].drop_spec(*board));
        }
    }
    let mut r: Vec<(SearchState, Vec<Movement>)> = Vec::new();
    let mut i: usize = 0;
    while i < out.len()
        invariant
            i <= out@.len(),
            out_paths@.len() == out@.len(),
            r@.len() == i,
            forall|j: int| 0 <= j < i ==> (#[trigger] r@[j]).0 == out@[j] && r@[j].1@ == out_paths@[j]@,
        decreases out@.len() - i,
    {
        let p = copy_path(&out_paths[i]);
        r.push((out[i], p));
        i += 1;
    }
    proof {
        assert forall|rest: SearchState| spawn(piece).fits(*board) && #[trigger] reachable_rest(*board, piece, rest) implies listed_with(r@, rest) by {
            assert(listed(out@, rest));
            let i = choose|i: int| 0 <= i < out@.len() && same_spot(#[trigger] out@[i], rest);
            assert(r@[i].0 == out@[i]);
        }
    }
    r
}


/// Every rest pose that the piece can reach from its spawn pose, once per spot, in the order a
/// breadth-first search meets them.
#[verifier::rlimit(100)]
pub fn get_locations(board: &Board, piece: Piece) -> (r: Vec<SearchState>)
    ensures
        forall|i: int| 0 <= i < r@.len() ==> reachable_rest(*board, piece, #[trigger] r@[i]),
        spawn(piece).fits(*board) ==> forall|rest: SearchState|
            #[trigger] reachable_rest(*board, piece, rest) ==> listed(r@, rest),
        forall|i: int| 0 <= i < r@.len() ==> (#[trigger] r@[i]).fits(*board),
        distinct_spots(r@),
        !spawn(piece).fits(*board) ==> r@.len() == 0,
        spawn(piece).fits(*board) ==> r@.len() > 0,
{
    let mut out: Vec<SearchState> = Vec::new();
    let start = SearchState::new(1, 4, Rotation::Normal, piece);
    if start.intersects(board) {
        return out;
    }
    let mut visited: Vec<bool> = Vec::new();
    while visited.len() < POSES
        invariant
            visited@.len() <= POSES,
            visited@ == Seq::new(visited@.len(), |i: int| false),
        decreases POSES - visited@.len(),
    {
        visited.push(false);
        assert(visited@ =~= Seq::new(visited@.len(), |i: int| false));
    }
    proof {
        lemma_count_all_false(POSES as nat);
    }
    let k0 = pose_index(start, Ghost(*board));
    proof {
        lemma_count_mark(visited@, k0 as int);
    }
    visited.set(k0, true);
    let mut queue: Vec<SearchState> = Vec::new();
    queue.push(start);
    // The input sequence by which the search reached each queued pose.
    let ghost mut paths: Seq<Seq<Movement>> = seq![Seq::empty()];
    let mut head: usize = 0;
    while head < queue.len()
        invariant
            visited@.len() == POSES,
            queue@.len() == count_marked(visited@),
            head <= queue@.len(),
            queue@.len() > 0,
            queue@[0] == spawn(piece),
            paths.len() == queue@.len(),
            forall|j: int| 0 <= j < queue@.len() ==> (#[trigger] queue@[j]).fits(*board),
            forall|j: int| 0 <= j < queue@.len() ==> (#[trigger] queue@[j]).piece == piece,
            forall|j: int| 0 <= j < queue@.len() ==> 0 <= slot(#[trigger] queue@[j]) < POSES && visited@[slot(queue@[j])],
            forall|k: int|
                0 <= k < POSES && #[trigger] visited@[k] ==> exists|j: int|
                    0 <= j < queue@.len() && slot(#[trigger] queue@[j]) == k,
            forall|j: int, m: int|
                0 <= j < head && 0 <= m < 8 ==> 0 <= slot(
                    #[trigger] queue@[j].step(*board, #[trigger] move_order()[m]),
                ) < POSES && visited@[slot(queue@[j].step(*board, move_order()[m]))],
            forall|j: int|
                0 <= j < head ==> listed(out@, (#[trigger] queue@[j]).drop_spec(*board)),
            forall|j: int|
                0 <= j < queue@.len() ==> replay(spawn(piece), *board, #[trigger] paths[j]) == queue@[j],
            forall|i: int| 0 <= i < out@.len() ==> reachable_rest(*board, piece, #[trigger] out@[i]),
            forall|i: int| 0 <= i < out@.len() ==> (#[trigger] out@[i]).fits(*board),
            distinct_spots(out@),
            head > 0 ==> out@.len() > 0,
        decreases POSES - head,
    {
        proof {
            lemma_count_le(visited@);
        }
        let s = queue[head];
        let ghost path = paths[head as int];
        let ghost out_before = out@;
        let dropped = s.drop(board);
        if !holds_rest(&out, dropped, Ghost(*board)) {
            proof {
                let p = path.push(Movement::HardDrop);
                assert(p.drop_last() =~= path);
                assert(leads_to(*board, piece, p, dropped));
            }
            out.push(dropped);
            proof {
                assert forall|a: int, c: int|
                    0 <= a < out@.len() && 0 <= c < out@.len() && a != c implies !same_spot(
                    out@[a],
                    out@[c],
                ) by {
                    if a == out@.len() - 1 {
                        assert(!same_spot(dropped, out@[c]));
                    } else if c == out@.len() - 1 {
                        assert(!same_spot(dropped, out@[a]));
                    }
                }
                assert(same_spot(out@[out@.len() - 1], dropped));
            }
        }
        proof {
            assert(listed(out@, s.drop_spec(*board)));
            assert forall|j: int| 0 <= j < head implies listed(out@, (#[trigger] queue@[j]).drop_spec(*board)) by {
                let i = choose|i: int| 0 <= i < out_before.len() && same_spot(#[trigger] out_before[i], queue@[j].drop_spec(*board));
                assert(out@[i] == out_before[i]);
            }
        }
        head += 1;
        let succ = s.successors(board);
        let mut i: usize = 0;
        while i < 8
            invariant
                i <= 8,
                0 < head <= queue@.len(),
                s == queue@[head - 1],
                succ@.len() == 8,
                forall|j: int| 0 <= j < 8 ==> (#[trigger] succ@[j]).0.fits(*board),
                forall|j: int| 0 <= j < 8 ==> (#[trigger] succ@[j]) == (s.step(*board, move_order()[j]), move_order()[j]),
                replay(spawn(piece), *board, path) == s,
                s.piece == piece,
                visited@.len() == POSES,
                queue@.len() == count_marked(visited@),
                queue@.len() > 0,
                queue@[0] == spawn(piece),
                paths.len() == queue@.len(),
                forall|j: int| 0 <= j < queue@.len() ==> (#[trigger] queue@[j]).fits(*board),
                forall|j: int| 0 <= j < queue@.len() ==> (#[trigger] queue@[j]).piece == piece,
                forall|j: int| 0 <= j < queue@.len() ==> 0 <= slot(#[trigger] queue@[j]) < POSES && visited@[slot(queue@[j])],
                forall|k: int|
                    0 <= k < POSES && #[trigger] visited@[k] ==> exists|j: int|
                        0 <= j < queue@.len() && slot(#[trigger] queue@[j]) == k,
                forall|j: int, m: int|
                    0 <= j < head - 1 && 0 <= m < 8 ==> 0 <= slot(
                        #[trigger] queue@[j].step(*board, #[trigger] move_order()[m]),
                    ) < POSES && visited@[slot(queue@[j].step(*board, move_order()[m]))],
                forall|m: int|
                    0 <= m < i ==> 0 <= slot(s.step(*board, #[trigger] move_order()[m])) < POSES
                        && visited@[slot(s.step(*board, move_order()[m]))],
                forall|j: int|
                    0 <= j < head ==> listed(out@, (#[trigger] queue@[j]).drop_spec(*board)),
                forall|j: int|
                    0 <= j < queue@.len() ==> replay(spawn(piece), *board, #[trigger] paths[j])
                        == queue@[j],
            decreases 8 - i,
        {
            let (t, m) = succ[i];
            let k = pose_index(t, Ghost(*board));
            proof {
                crate::search_state::lemma_step_keeps_piece(s, *board, m);
                lemma_slot_range(t, *board);
            }
            if !visited[k] {
                proof {
                    lemma_count_mark(visited@, k as int);
                    assert(path.push(m).drop_last() =~= path);
                    paths = paths.push(path.push(m));
                }
                let ghost old_queue = queue@;
                let ghost old_visited = visited@;
                visited.set(k, true);
                queue.push(t);
                proof {
                    assert(t.piece == piece);
                    assert(queue@[queue@.len() - 1] == t);
                    assert forall|j: int| 0 <= j < queue@.len() implies 0 <= slot(#[trigger] queue@[j]) < POSES && visited@[slot(queue@[j])] by {
                        if j < old_queue.len() {
                            assert(queue@[j] == old_queue[j]);
                            lemma_slot_range(old_queue[j], *board);
                            assert(old_visited[slot(old_queue[j])]);
                        }
                    }
                    assert forall|j: int| 0 <= j < queue@.len() implies (#[trigger] queue@[j]).piece == piece by {
                        if j < old_queue.len() {
                            assert(queue@[j] == old_queue[j]);
                        }
                    }
                    assert forall|kk: int|
                        0 <= kk < POSES && #[trigger] visited@[kk] implies exists|j: int|
                            0 <= j < queue@.len() && slot(#[trigger] queue@[j]) == kk by {
                        if kk == k {
                            assert(slot(queue@[queue@.len() - 1]) == kk);
                        } else {
                            let j = choose|j: int| 0 <= j < old_queue.len() && slot(#[trigger] old_queue[j]) == kk;
                            assert(queue@[j] == old_queue[j]);
                        }
                    }
                }
            }
            i += 1;
        }
        proof {
            assert forall|j: int, m: int| 0 <= j < head && 0 <= m < 8 implies 0 <= slot(
                #[trigger] queue@[j].step(*board, #[trigger] move_order()[m]),
            ) < POSES && visited@[slot(queue@[j].step(*board, move_order()[m]))] by {
                if j == head - 1 {
                    assert(queue@[j] == s);
                }
            }
        }
    }
    proof {
        assert forall|rest: SearchState| #[trigger] reachable_rest(*board, piece, rest) implies listed(out@, rest) by {
            let path = choose|path: Seq<Movement>| #[trigger] leads_to(*board, piece, path, rest);
            lemma_reach_queued(*board, piece, queue@, visited@, path.drop_last());
            let j = choose|j: int| 0 <= j < queue@.len() && #[trigger] queue@[j] == replay(spawn(piece), *board, path.drop_last());
            assert(rest == queue@[j].drop_spec(*board));
        }
    }
    out
}

/// When every queued pose has been expanded, every pose that inputs lead to from the spawn
/// pose is queued.
proof fn lemma_reach_queued(
    b: Board,
    piece: Piece,
    queue: Seq<SearchState>,
    visited: Seq<bool>,
    path: Seq<Movement>,
)
    requires
        queue.len() > 0,
        queue[0] == spawn(piece),
        visited.len() == POSES,
        forall|j: int| 0 <= j < queue.len() ==> (#[trigger] queue[j]).fits(b),
        forall|j: int| 0 <= j < queue.len() ==> (#[trigger] queue[j]).piece == piece,
        forall|k: int|
            0 <= k < POSES && #[trigger] visited[k] ==> exists|j: int|
                0 <= j < queue.len() && slot(#[trigger] queue[j]) == k,
        forall|j: int, m: int|
            0 <= j < queue.len() && 0 <= m < 8 ==> 0 <= slot(
                #[trigger] queue[j].step(b, #[trigger] move_order()[m]),
            ) < POSES && visited[slot(queue[j].step(b, move_order()[m]))],
    ensures
        exists|j: int| 0 <= j < queue.len() && #[trigger] queue[j] == replay(spawn(piece), b, path),
    decreases path.len(),
{
    if path.len() == 0 {
        assert(queue[0] == replay(spawn(piece), b, path));
    } else {
        lemma_reach_queued(b, piece, queue, visited, path.drop_last());
        let j = choose|j: int| 0 <= j < queue.len() && #[trigger] queue[j] == replay(spawn(piece), b, path.drop_last());
        let s = queue[j];
        let m = path.last();
        let mi: int = match m {
            Movement::Left => 0,
            Movement::DasLeft => 1,
            Movement::Right => 2,
            Movement::DasRight => 3,
            Movement::SoftDrop => 4,
            Movement::HardDrop => 4,
            Movement::RotateCw => 5,
            Movement::RotateCcw => 6,
            Movement::Rotate180 => 7,
        };
        let t = s.step(b, m);
        assert(t == s.step(b, move_order()[mi]));
        assert(visited[slot(s.step(b, move_order()[mi]))]);
        lemma_step_fits(s, b, m);
        lemma_slot_range(t, b);
        let j2 = choose|j2: int| 0 <= j2 < queue.len() && slot(#[trigger] queue[j2]) == slot(t);
        lemma_slot_injective(queue[j2], t, b);
        assert(queue[j2] == replay(spawn(piece), b, path));
    }
}

proof fn lemma_slot_range(s: SearchState, b: Board)
    requires
        s.fits(b),
    ensures
        0 <= slot(s) < POSES,
{
    crate::search_state::lemma_fits_pivot(s, b);
}

/// True iff `out` already holds a spot equal to `x` or to its alternate encoding.
fn holds_rest(out: &Vec<SearchState>, x: SearchState, Ghost(b): Ghost<Board>) -> (r: bool)
    requires
        x.fits(b),
        forall|j: int| 0 <= j < out@.len() ==> (#[trigger] out@[j]).fits(b),
    ensures
        r == exists|j: int| 0 <= j < out@.len() && same_spot(x, #[trigger] out@[j]),
{
    proof {
        crate::search_state::lemma_fits_pivot(x, b);
    }
    let xs = x.symmetrical();
    let mut j: usize = 0;
    while j < out.len()
        invariant
            j <= out@.len(),
            xs == x.symmetrical_spec(),
            forall|i: int| 0 <= i < out@.len() ==> (#[trigger] out@[i]).fits(b),
            forall|i: int| 0 <= i < j ==> !same_spot(x, #[trigger] out@[i]),
        decreases out@.len() - j,
    {
        let y = out[j];
        proof {
            crate::search_state::lemma_fits_pivot(y, b);
        }
        let ys = y.symmetrical();
        if x == y || x == ys || y == xs {
            return true;
        }
        j += 1;
    }
    false
}

/// Every rest pose that the piece can reach, once per spot, with an input sequence that leads
/// there from the spawn pose and ends in a hard drop.
pub fn get_locations_with_finesse(board: &Board, piece: Piece) -> (r: Vec<(SearchState, Vec<Movement>)>)
    ensures
        forall|i: int| 0 <= i < r@.len() ==> leads_to(*board, piece, (#[trigger] r@[i]).1@, r@[i].0),
        forall|i: int| 0 <= i < r@.len() ==> no_hard_drop((#[trigger] r@[i]).1@.drop_last()),
        spawn(piece).fits(*board) ==> forall|rest: SearchState|
            #[trigger] reachable_rest(*board, piece, rest) ==> listed_with(r@, rest),
        forall|i: int| 0 <= i < r@.len() ==> (#[trigger] r@[i]).0.fits(*board),
        forall|i: int, j: int|
            0 <= i < r@.len() && 0 <= j < r@.len() && i != j ==> !same_spot(
                #[trigger] r@[i].0,
                #[trigger] r@[j].0,
            ),
        !spawn(piece).fits(*board) ==> r@.len() == 0,
{
    explore(board, piece)
}

/// `path` leads to the spot of `target`, and has `len` inputs.
pub open spec fn excess_over(b: Board, p: Piece, target: SearchState, path: Seq<Movement>, len: int) -> bool {
    &&& path.len() == len
    &&& exists|rest: SearchState| #[trigger] leads_to(b, p, path, rest) && same_spot(rest, target)
}

/// Input faults for a piece that came to rest at (`row`, `col`, `rotation`) after `moves`
/// inputs: how many more than a path the search found to that spot, and that path where there
/// were any. A spot that the search did not reach counts no faults.
pub fn get_finesse_faults(
    board: &Board,
    piece: Piece,
    moves: u8,
    row: u8,
    col: u8,
    rotation: Rotation,
) -> (r: (u8, Option<Vec<Movement>>))
    ensures
        r.0 > 0 <==> r.1 is Some,
        r.1 is Some ==> excess_over(
            *board,
            piece,
            SearchState { row: row as i8, col: col as i8, rotation, piece },
            r.1->Some_0@,
            moves as int - r.0,
        ),
        row <= 22 && col <= 9 && spawn(piece).fits(*board) && spot_reached(
            *board,
            piece,
            SearchState { row: row as i8, col: col as i8, rotation, piece },
        ) ==> charged(
            *board,
            piece,
            SearchState { row: row as i8, col: col as i8, rotation, piece },
            moves as int,
            r.0 as int,
            r.1,
        ),
{
    let found = explore(board, piece);
    let ghost target = SearchState { row: row as i8, col: col as i8, rotation, piece };
    let mut i: usize = 0;
    while i < found.len()
        invariant
            i <= found@.len(),
            target == (SearchState { row: row as i8, col: col as i8, rotation, piece }),
            forall|j: int| 0 <= j < found@.len() ==> leads_to(*board, piece, (#[trigger] found@[j]).1@, found@[j].0),
            forall|j: int| 0 <= j < found@.len() ==> (#[trigger] found@[j]).0.fits(*board),
            row <= 22 && col <= 9 ==> forall|j: int| 0 <= j < i ==> !same_spot((#[trigger] found@[j]).0, target),
            spawn(piece).fits(*board) ==> forall|rest: SearchState|
                #[trigger] reachable_rest(*board, piece, rest) ==> listed_with(found@, rest),
        decreases found@.len() - i,
    {
        let rest = found[i].0;
        if row <= 22 && col <= 9 {
            let target = SearchState::new(row as i8, col as i8, rotation, piece);
            proof {
                crate::search_state::lemma_fits_pivot(rest, *board);
            }
            let rs = rest.symmetrical();
            let ts = target.symmetrical();
            if rest == target || rest == ts || rs == target {
                let len = found[i].1.len();
                let ghost p = found@[i as int].1@;
                assert(leads_to(*board, piece, p, rest));
                assert(excess_over(*board, piece, target, p, p.len() as int));
                if (moves as usize) > len {
                    let path = copy_path(&found[i].1);
                    let n = (moves as usize - len) as u8;
                    assert(excess_over(*board, piece, target, path@, moves as int - n));
                    return (n, Some(path));
                } else {
                    return (0, None);
                }
            }
        }
        i += 1;
    }
    proof {
        if row <= 22 && col <= 9 && spawn(piece).fits(*board) && spot_reached(*board, piece, target) {
            let rest = choose|rest: SearchState| #[trigger] reachable_rest(*board, piece, rest) && same_spot(rest, target);
            let i = choose|i: int| 0 <= i < found@.len() && same_spot(#[trigger] found@[i].0, rest);
            let path = choose|path: Seq<Movement>| #[trigger] leads_to(*board, piece, path, rest);
            lemma_replay_fits(*board, piece, path);
            crate::search_state::lemma_fits_pivot(found@[i].0, *board);
            crate::search_state::lemma_fits_pivot(rest, *board);
            lemma_same_spot_trans(found@[i].0, rest, target);
        }
    }
    (0, None)
}

/// Some rest pose reachable from spawn is the spot of `target`.
pub open spec fn spot_reached(b: Board, p: Piece, target: SearchState) -> bool {
    exists|rest: SearchState| #[trigger] reachable_rest(b, p, rest) && same_spot(rest, target)
}

/// `r0` faults, and the path `r1` where there are any, are charged against some path to the
/// spot of `target`: `moves` less its length, or none.
pub open spec fn charged(
    b: Board,
    p: Piece,
    target: SearchState,
    moves: int,
    r0: int,
    r1: Option<Vec<Movement>>,
) -> bool {
    exists|path: Seq<Movement>|
        #[trigger] excess_over(b, p, target, path, path.len() as int) && r0 == (if moves > path.len() {
            moves - path.len()
        } else {
            0
        }) && (r0 > 0 ==> r1 is Some && r1->Some_0@ == path)
}

/// From a spawn pose that fits, the pose that a path leads to fits.
pub proof fn lemma_replay_fits_pub(b: Board, p: Piece, path: Seq<Movement>)
    requires
        spawn(p).fits(b),
    ensures
        replay(spawn(p), b, path).fits(b),
{
    lemma_replay_fits(b, p, path);
}

/// From a spawn pose that fits, every pose that inputs lead to fits.
proof fn lemma_replay_fits(b: Board, p: Piece, path: Seq<Movement>)
    requires
        spawn(p).fits(b),
    ensures
        replay(spawn(p), b, path).fits(b),
    decreases path.len(),
{
    if path.len() > 0 {
        lemma_replay_fits(b, p, path.drop_last());
        lemma_step_fits(replay(spawn(p), b, path.drop_last()), b, path.last());
    }
}

/// The other encoding of the other encoding is the pose itself.
pub proof fn lemma_symmetrical_involution(x: SearchState)
    requires
        -100 <= x.row <= 100,
        -100 <= x.col <= 100,
    ensures
        x.symmetrical_spec().symmetrical_spec() == x,
{
}

/// Being the same spot is transitive among poses near the well.
pub proof fn lemma_same_spot_trans(a: SearchState, b: SearchState, c: SearchState)
    requires
        -100 <= a.row <= 100,
        -100 <= a.col <= 100,
        -100 <= b.row <= 100,
        -100 <= b.col <= 100,
        -100 <= c.row <= 100,
        -100 <= c.col <= 100,
        same_spot(a, b),
        same_spot(b, c),
    ensures
        same_spot(a, c),
{
    lemma_symmetrical_involution(a);
    lemma_symmetrical_involution(b);
    lemma_symmetrical_involution(c);
}

} // verus!
