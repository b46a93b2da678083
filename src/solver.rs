use vstd::prelude::*;

use std::collections::HashSet;

use crate::board::Board;
use crate::pc::{clears, copy_placements, root, route, Pc};
use crate::picture::{route_cells, same_picture};
use crate::pc_state::{hold_next, pc_step, PcState};
use crate::piece::Piece;
use crate::placement::Placement;

verus! {

broadcast use vstd::std_specs::hash::group_hash_axioms;

/// Queued pieces that a search usually looks ahead.
pub const WINDOW: usize = 5;

/// What the background task does after one poll of the search.
pub enum SearchAction {
    /// Keep polling.
    Continue,
    /// The search is over: hand these routes to the consumer.
    Deliver(Vec<Pc>),
    /// Cancelled: stop and hand over nothing.
    Abort,
}

/// Every route in `sols` starts from `board` and clears.
pub open spec fn all_clear(
    board: Board,
    piece: Option<Piece>,
    hold: Option<Piece>,
    queue: Seq<Piece>,
    sols: Seq<Pc>,
) -> bool {
    forall|i: int|
        0 <= i < sols.len() ==> (#[trigger] sols[i]).board == board && clears(
            board,
            piece,
            hold,
            queue,
            sols[i].placements@,
        )
}

/// Each of the four targets, one to four rows, fails early from the start.
pub open spec fn all_roots_rejected(
    board: Board,
    piece: Option<Piece>,
    hold: Option<Piece>,
    queue: Seq<Piece>,
) -> bool {
    forall|h: int| 1 <= h <= 4 ==> #[trigger] root(board, piece, hold, h).rejects(queue.len() as int)
}

/// The first `window` pieces of `queue`, or all of it when it is shorter.
pub open spec fn window_of(queue: Seq<Piece>, window: int) -> Seq<Piece> {
    if queue.len() > window {
        queue.subrange(0, window)
    } else {
        queue
    }
}

/// `a` is the route `b`: same board, same actions.
pub open spec fn same_route(a: Pc, b: Pc) -> bool {
    a.board == b.board && a.placements@ == b.placements@
}

/// No two routes of `sols` draw the same picture.
pub open spec fn distinct_pictures(sols: Seq<Pc>) -> bool {
    forall|i: int, k: int|
        0 <= i < sols.len() && 0 <= k < sols.len() && i != k ==> (#[trigger] sols[i]).picture()
            != (#[trigger] sols[k]).picture()
}

proof fn lemma_drawn_from_empty(after: Seq<Pc>, before: Seq<Pc>)
    requires
        drawn_from(after, before),
        before.len() == 0,
    ensures
        after.len() == 0,
{
    if after.len() > 0 {
        let x = after[0];
        assert(0 <= 0 < after.len());
        assert(exists|j: int| 0 <= j < before.len() && same_route(x, #[trigger] before[j]));
    }
}

/// Every route of `after` is one of `before`.
pub open spec fn drawn_from(after: Seq<Pc>, before: Seq<Pc>) -> bool {
    forall|i: int|
        #![trigger after[i]]
        0 <= i < after.len() ==> exists|j: int| 0 <= j < before.len() && same_route(after[i], #[trigger] before[j])
}

/// Each picture that a route of `before` draws, some route of `after` draws.
pub open spec fn every_picture_kept(after: Seq<Pc>, before: Seq<Pc>) -> bool {
    forall|j: int|
        #![trigger before[j]]
        0 <= j < before.len() ==> exists|i: int| 0 <= i < after.len() && (#[trigger] after[i]).picture() == before[j].picture()
}

/// One route per picture: the first of `pcs` that draws each picture, in order.
pub fn dedup_pcs(pcs: Vec<Pc>) -> (r: Vec<Pc>)
    ensures
        drawn_from(r@, pcs@),
        distinct_pictures(r@),
        every_picture_kept(r@, pcs@),
{
    let ghost orig = pcs@;
    let total = pcs.len();
    let mut input = pcs;
    let mut out: Vec<Pc> = Vec::new();
    let mut pics: Vec<Vec<Option<Piece>>> = Vec::new();
    let mut taken: usize = 0;
    while input.len() > 0
        invariant
            taken <= orig.len(),
            input@ == orig.subrange(taken as int, orig.len() as int),
            input@.len() == orig.len() - taken,
            orig == pcs@,
            orig.len() == total,
            pics@.len() == out@.len(),
            forall|i: int| 0 <= i < out@.len() ==> (#[trigger] pics@[i])@ == out@[i].picture(),
            drawn_from(out@, orig),
            forall|i: int, k: int|
                0 <= i < out@.len() && 0 <= k < out@.len() && i != k ==> (#[trigger] out@[i]).picture()
                    != (#[trigger] out@[k]).picture(),
            every_picture_kept(out@, orig.subrange(0, taken as int)),
        decreases input@.len(),
    {
        let pc = input.remove(0);
        assert(pc == orig[taken as int]);
        let pic = route_cells(&pc.board, &pc.placements);
        let mut dup: bool = false;
        let mut j: usize = 0;
        while j < pics.len()
            invariant
                j <= pics@.len(),
                pics@.len() == out@.len(),
                forall|i: int| 0 <= i < out@.len() ==> (#[trigger] pics@[i])@ == out@[i].picture(),
                pic@ == pc.picture(),
                dup ==> exists|i: int| 0 <= i < out@.len() && (#[trigger] out@[i]).picture() == pc.picture(),
                !dup ==> forall|i: int| 0 <= i < j ==> (#[trigger] out@[i]).picture() != pc.picture(),
            decreases pics@.len() - j,
        {
            if same_picture(&pics[j], &pic) {
                dup = true;
                assert(out@[j as int].picture() == pc.picture());
            }
            j += 1;
        }
        let ghost before = out@;
        if !dup {
            out.push(pc);
            pics.push(pic);
            proof {
                assert(same_route(out@[out@.len() - 1], orig[taken as int]));
                assert forall|i: int| #![trigger out@[i]] 0 <= i < out@.len() implies exists|j: int| 0 <= j < orig.len() && same_route(out@[i], #[trigger] orig[j]) by {
                    if i < before.len() {
                        assert(out@[i] == before[i]);
                        assert(drawn_from(before, orig));
                        let j = choose|j: int| 0 <= j < orig.len() && same_route(before[i], #[trigger] orig[j]);
                        assert(same_route(out@[i], orig[j]));
                    } else {
                        assert(same_route(out@[i], orig[taken as int]));
                    }
                }
                assert forall|i: int| 0 <= i < out@.len() implies (#[trigger] pics@[i])@ == out@[i].picture() by {
                }
                let pre = orig.subrange(0, taken as int);
                let pre1 = orig.subrange(0, taken as int + 1);
                assert forall|jj: int| #![trigger pre1[jj]] 0 <= jj < pre1.len() implies exists|i: int| 0 <= i < out@.len() && (#[trigger] out@[i]).picture() == pre1[jj].picture() by {
                    if jj < taken {
                        assert(pre1[jj] == pre[jj]);
                        let i = choose|i: int| 0 <= i < before.len() && (#[trigger] before[i]).picture() == pre[jj].picture();
                        assert(out@[i] == before[i]);
                    } else {
                        assert(out@[out@.len() - 1].picture() == pre1[jj].picture());
                    }
                }
            }
        } else {
            proof {
                let pre = orig.subrange(0, taken as int);
                let pre1 = orig.subrange(0, taken as int + 1);
                assert forall|jj: int| #![trigger pre1[jj]] 0 <= jj < pre1.len() implies exists|i: int| 0 <= i < out@.len() && (#[trigger] out@[i]).picture() == pre1[jj].picture() by {
                    if jj < taken {
                        assert(pre1[jj] == pre[jj]);
                    } else {
                        assert(pre1[jj] == pc);
                    }
                }
            }
        }
        taken += 1;
        assert(input@ =~= orig.subrange(taken as int, orig.len() as int));
    }
    assert(taken == orig.len());
    assert(orig.subrange(0, taken as int) =~= orig);
    out
}

proof fn lemma_dedup_keeps_clear(
    board: Board,
    piece: Option<Piece>,
    hold: Option<Piece>,
    queue: Seq<Piece>,
    before: Seq<Pc>,
    after: Seq<Pc>,
)
    requires
        all_clear(board, piece, hold, queue, before),
        drawn_from(after, before),
    ensures
        all_clear(board, piece, hold, queue, after),
{
    assert forall|i: int| 0 <= i < after.len() implies (#[trigger] after[i]).board == board && clears(
        board,
        piece,
        hold,
        queue,
        after[i].placements@,
    ) by {
        let j = choose|j: int| 0 <= j < before.len() && same_route(after[i], #[trigger] before[j]);
        assert(before[j].board == board);
    }
}

/// Depth-first search for perfect clears of the bottom one to four rows, one node per step.
pub struct PcSearch {
    board: Board,
    piece: Option<Piece>,
    hold: Option<Piece>,
    queue: Vec<Piece>,
    stack: Vec<(PcState, Vec<Placement>)>,
    /// For each stack entry, the nodes from its root to it.
    chains: Ghost<Seq<Seq<PcState>>>,
    visited: HashSet<u64>,
    solves: Vec<Pc>,
}

proof fn lemma_step_height(s: PcState, t: PcState, pl: Placement, q: Seq<Piece>)
    requires
        pc_step(s, t, pl, q),
    ensures
        t.height <= s.height,
{
    match pl {
        Placement::Hold => {},
        Placement::Place { piece, row, col, rotation } => {
            let (mid, n) = choose|mid: Board, n: int|
                #[trigger] crate::pc_state::stamped(s.board, mid, piece, row as int, col as int, rotation)
                    && #[trigger] crate::pc_state::compacted(mid, t.board, n) && t.height == if n
                    <= s.height {
                    s.height - n
                } else {
                    0
                };
            crate::board::lemma_kept_len(mid, 0);
        },
    }
}

proof fn lemma_route_push(
    states: Seq<PcState>,
    pls: Seq<Placement>,
    q: Seq<Piece>,
    t: PcState,
    pl: Placement,
)
    requires
        route(states, pls, q),
        pc_step(states.last(), t, pl, q),
    ensures
        route(states.push(t), pls.push(pl), q),
        states.push(t)[0] == states[0],
{
    let longer = states.push(t);
    let acts = pls.push(pl);
    assert forall|k: int| 0 <= k < acts.len() implies pc_step(longer[k], longer[k + 1], #[trigger] acts[k], q) by {
        if k < pls.len() {
            assert(longer[k] == states[k]);
            assert(longer[k + 1] == states[k + 1]);
            assert(acts[k] == pls[k]);
        }
    }
}

/// Code of an optional piece, 0 for none.
fn piece_code(p: Option<Piece>) -> (c: u64)
    ensures
        c < 8,
{
    match p {
        None => 0,
        Some(Piece::I) => 1,
        Some(Piece::J) => 2,
        Some(Piece::L) => 3,
        Some(Piece::O) => 4,
        Some(Piece::S) => 5,
        Some(Piece::T) => 6,
        Some(Piece::Z) => 7,
    }
}

/// Key of a node in the visited set: which band cells are filled, the height, the active and
/// held pieces, and the queue position.
fn state_key(s: &PcState) -> u64
    requires
        s.height <= 4,
{
    let h: usize = s.height as usize;
    let top: usize = 23 - h;
    let n: usize = 10 * h;
    let mut bits: u64 = 0;
    let mut i: usize = 0;
    proof {
        vstd::arithmetic::power2::lemma2_to64();
        vstd::arithmetic::power2::lemma2_to64_rest();
    }
    while i < n
        invariant
            i <= n,
            n == 10 * h,
            h <= 4,
            top == 23 - h,
            bits < vstd::arithmetic::power2::pow2(i as nat),
        decreases n - i,
    {
        proof {
            vstd::arithmetic::power2::lemma_pow2_unfold((i + 1) as nat);
            vstd::arithmetic::power2::lemma_pow2_strictly_increases(i as nat, 40);
            vstd::arithmetic::power2::lemma2_to64();
        vstd::arithmetic::power2::lemma2_to64_rest();
        }
        proof {
            crate::pc_state::lemma_band_cell(h as int, i as int);
        }
        let bit: u64 = if s.board.is_filled(top + i / 10, i % 10) {
            1
        } else {
            0
        };
        bits = bits * 2 + bit;
        i += 1;
    }
    proof {
        if n < 40 {
            vstd::arithmetic::power2::lemma_pow2_strictly_increases(n as nat, 40);
        }
        vstd::arithmetic::power2::lemma2_to64();
        vstd::arithmetic::power2::lemma2_to64_rest();
    }
    let low: u64 = ((s.height as u64 * 8 + piece_code(s.piece)) * 8 + piece_code(s.hold)) * 256
        + s.queue_used as u64;
    assert(bits * 131072 < 0x200_0000_0000_0000) by (nonlinear_arith)
        requires
            bits < 0x100_0000_0000,
    ;
    bits * 131072 + low
}

impl PcSearch {
    pub closed spec fn start_board(&self) -> Board {
        self.board
    }

    pub closed spec fn start_piece(&self) -> Option<Piece> {
        self.piece
    }

    pub closed spec fn start_hold(&self) -> Option<Piece> {
        self.hold
    }

    /// The queued pieces that the search looks at.
    pub closed spec fn window(&self) -> Seq<Piece> {
        self.queue@
    }

    /// Routes found so far.
    pub closed spec fn found(&self) -> Seq<Pc> {
        self.solves@
    }

    /// Nodes waiting on the stack.
    pub closed spec fn pending(&self) -> nat {
        self.stack@.len()
    }

    /// Keys of the nodes examined so far.
    pub closed spec fn seen(&self) -> Set<u64> {
        self.visited@
    }

    /// The node on top of the stack and the actions that led to it.
    pub closed spec fn top(&self) -> (PcState, Seq<Placement>) {
        (self.stack@.last().0, self.stack@.last().1@)
    }

    pub closed spec fn wf(&self) -> bool {
        &&& self.queue@.len() < 255
        &&& self.chains@.len() == self.stack@.len()
        &&& forall|i: int|
            0 <= i < self.stack@.len() ==> {
                let ch = #[trigger] self.chains@[i];
                let entry = self.stack@[i];
                &&& route(ch, entry.1@, self.queue@)
                &&& ch.last() == entry.0
                &&& 1 <= ch[0].height <= 4
                &&& ch[0] == root(self.board, self.piece, self.hold, ch[0].height as int)
                &&& entry.0.counted(self.queue@.len() as int)
                &&& entry.0.height <= 4
            }
        &&& all_clear(self.board, self.piece, self.hold, self.queue@, self.solves@)
    }

    /// A search from `board` with the active and held pieces and the first `window` pieces of
    /// `queue`. It starts from the four targets of one to four rows, unless all four fail
    /// early, in which case there is nothing to search.
    pub fn new(
        board: Board,
        piece: Option<Piece>,
        hold: Option<Piece>,
        queue: &Vec<Piece>,
        window: usize,
    ) -> (s: PcSearch)
        requires
            window < 255,
        ensures
            s.wf(),
            s.start_board() == board,
            s.start_piece() == piece,
            s.start_hold() == hold,
            s.window() == window_of(queue@, window as int),
            s.found().len() == 0,
            s.pending() == 0 <==> all_roots_rejected(board, piece, hold, window_of(queue@, window as int)),
            s.pending() == 0 || s.pending() == 4,
    {
        let mut ahead: Vec<Piece> = Vec::new();
        let mut i: usize = 0;
        while i < queue.len() && i < window
            invariant
                i <= queue@.len(),
                i <= window,
                ahead@ == queue@.subrange(0, i as int),
            decreases window - i,
        {
            ahead.push(queue[i]);
            i += 1;
            assert(ahead@ =~= queue@.subrange(0, i as int));
        }
        assert(ahead@ =~= window_of(queue@, window as int));
        let window = ahead;
        let mut stack: Vec<(PcState, Vec<Placement>)> = Vec::new();
        let ghost mut chains: Seq<Seq<PcState>> = Seq::empty();
        let s1 = PcState::from(board, piece, hold, 1);
        let longer = PcState::from(board, piece, hold, 2);
        let s3 = PcState::from(board, piece, hold, 3);
        let s4 = PcState::from(board, piece, hold, 4);
        if !(s1.fails_early(&window) && longer.fails_early(&window) && s3.fails_early(&window)
            && s4.fails_early(&window)) {
            stack.push((s1, Vec::new()));
            stack.push((longer, Vec::new()));
            stack.push((s3, Vec::new()));
            stack.push((s4, Vec::new()));
            proof {
                chains = seq![seq![s1], seq![longer], seq![s3], seq![s4]];
            }
        }
        let s = PcSearch {
            board,
            piece,
            hold,
            queue: window,
            stack,
            chains: Ghost(chains),
            visited: HashSet::new(),
            solves: Vec::new(),
        };
        proof {
            assert forall|i: int| 0 <= i < s.stack@.len() implies {
                let ch = #[trigger] s.chains@[i];
                let entry = s.stack@[i];
                &&& route(ch, entry.1@, s.queue@)
                &&& ch.last() == entry.0
                &&& 1 <= ch[0].height <= 4
                &&& ch[0] == root(s.board, s.piece, s.hold, ch[0].height as int)
                &&& entry.0.counted(s.queue@.len() as int)
                &&& entry.0.height <= 4
            } by {
                assert(s.stack@[i].1@.len() == 0);
            }
        }
        s
    }

    /// How many routes were found so far.
    pub fn found_count(&self) -> (n: usize)
        ensures
            n == self.found().len(),
    {
        self.solves.len()
    }

    /// True when no node is left to examine.
    pub fn is_done(&self) -> (d: bool)
        ensures
            d == (self.pending() == 0),
    {
        self.stack.len() == 0
    }

    /// Examines the node on top of the stack: records it if it is a perfect clear, and pushes
    /// its successors that have not been seen.
    pub fn step(&mut self)
        requires
            old(self).wf(),
        ensures
            final(self).wf(),
            final(self).start_board() == old(self).start_board(),
            final(self).start_piece() == old(self).start_piece(),
            final(self).start_hold() == old(self).start_hold(),
            final(self).window() == old(self).window(),
            old(self).found().len() <= final(self).found().len(),
            old(self).pending() == 0 ==> final(self).pending() == 0 && final(self).found() == old(self).found() && final(self).seen() == old(self).seen(),
            old(self).pending() > 0 ==> (final(self).seen() == old(self).seen() && final(self).pending() == old(self).pending() - 1 && final(self).found() == old(self).found()) || (
            exists|k: u64|
                !old(self).seen().contains(k) && #[trigger] old(self).seen().insert(k) == final(self).seen()),
            old(self).pending() > 0 && old(self).top().0.solved() && final(self).seen() != old(self).seen() ==> final(self).found().len() == old(self).found().len() + 1 && final(self).found().last().placements@ == old(self).top().1 && final(self).found().last().board
                == old(self).start_board(),
            old(self).pending() > 0 && !old(self).top().0.solved() ==> final(self).found() == old(self).found(),
    {
        if self.stack.len() == 0 {
            return;
        }
        let ghost ch = self.chains@.last();
        let (state, path) = self.stack.pop().unwrap();
        proof {
            self.chains@ = self.chains@.drop_last();
        }
        let key = state_key(&state);
        if self.visited.contains(&key) {
            return;
        }
        let ghost seen0 = self.visited@;
        self.visited.insert(key);
        assert(seen0.insert(key) == self.visited@);
        if state.is_solved() {
            let placements = copy_placements(&path);
            proof {
                assert(route(ch, placements@, self.queue@));
            }
            self.solves.push(Pc::new(self.board, placements));
            proof {
                let sols = self.solves@;
                assert forall|i: int| 0 <= i < sols.len() implies (#[trigger] sols[i]).board
                    == self.board && clears(
                    self.board,
                    self.piece,
                    self.hold,
                    self.queue@,
                    sols[i].placements@,
                ) by {
                    if i == sols.len() - 1 {
                        assert(route(ch, sols[i].placements@, self.queue@));
                    }
                }
            }
        }
        let succ = state.successors(&self.queue);
        let mut i: usize = 0;
        while i < succ.len()
            invariant
                i <= succ@.len(),
                self.queue@.len() < 255,
                self.chains@.len() == self.stack@.len(),
                forall|j: int| 0 <= j < succ@.len() ==> pc_step(state, (#[trigger] succ@[j]).0, succ@[j].1, self.queue@),
                forall|j: int| 0 <= j < succ@.len() ==> (#[trigger] succ@[j]).0.counted(self.queue@.len() as int),
                route(ch, path@, self.queue@),
                all_clear(self.board, self.piece, self.hold, self.queue@, self.solves@),
                self.board == old(self).board,
                self.piece == old(self).piece,
                self.hold == old(self).hold,
                self.queue@ == old(self).queue@,
                old(self).solves@.len() <= self.solves@.len(),
                self.visited@.contains(key),
                self.visited@ == old(self).visited@.insert(key),
                !old(self).visited@.contains(key),
                state.solved() ==> self.solves@.len() == old(self).solves@.len() + 1
                    && self.solves@.last().placements@ == path@ && self.solves@.last().board
                    == self.board,
                !state.solved() ==> self.solves@ == old(self).solves@,
                ch.last() == state,
                1 <= ch[0].height <= 4,
                ch[0] == root(self.board, self.piece, self.hold, ch[0].height as int),
                state.height <= 4,
                forall|k: int|
                    0 <= k < self.stack@.len() ==> {
                        let c = #[trigger] self.chains@[k];
                        let entry = self.stack@[k];
                        &&& route(c, entry.1@, self.queue@)
                        &&& c.last() == entry.0
                        &&& 1 <= c[0].height <= 4
                        &&& c[0] == root(self.board, self.piece, self.hold, c[0].height as int)
                        &&& entry.0.counted(self.queue@.len() as int)
                        &&& entry.0.height <= 4
                    },
            decreases succ@.len() - i,
        {
            let (next, pl) = succ[i];
            proof {
                lemma_step_height(state, next, pl, self.queue@);
            }
            let k = state_key(&next);
            if !self.visited.contains(&k) {
                let mut p = copy_placements(&path);
                p.push(pl);
                proof {
                    lemma_route_push(ch, path@, self.queue@, next, pl);
                    assert(p@ == path@.push(pl));
                    self.chains@ = self.chains@.push(ch.push(next));
                }
                self.stack.push((next, p));
                proof {
                    assert forall|k: int| 0 <= k < self.stack@.len() implies {
                        let c = #[trigger] self.chains@[k];
                        let entry = self.stack@[k];
                        &&& route(c, entry.1@, self.queue@)
                        &&& c.last() == entry.0
                        &&& 1 <= c[0].height <= 4
                        &&& c[0] == root(self.board, self.piece, self.hold, c[0].height as int)
                        &&& entry.0.counted(self.queue@.len() as int)
                        &&& entry.0.height <= 4
                    } by {
                        if k == self.stack@.len() - 1 {
                            assert(self.chains@[k] == ch.push(next));
                        }
                    }
                }
            }
            i += 1;
        }
    }

    /// Hands over the routes found, leaving none.
    pub fn take_solutions(&mut self) -> (r: Vec<Pc>)
        requires
            old(self).wf(),
        ensures
            final(self).wf(),
            r@ == old(self).found(),
            all_clear(
                old(self).start_board(),
                old(self).start_piece(),
                old(self).start_hold(),
                old(self).window(),
                r@,
            ),
            final(self).start_board() == old(self).start_board(),
            final(self).start_piece() == old(self).start_piece(),
            final(self).start_hold() == old(self).start_hold(),
            final(self).window() == old(self).window(),
    {
        let mut r: Vec<Pc> = Vec::new();
        core::mem::swap(&mut r, &mut self.solves);
        r
    }

    /// One poll of the background task. A cancelled search examines no node and delivers
    /// nothing; a search with nothing left delivers its routes, one per picture; otherwise it
    /// examines one node.
    pub fn advance(&mut self, cancelled: bool) -> (r: SearchAction)
        requires
            old(self).wf(),
        ensures
            final(self).wf(),
            cancelled ==> r is Abort,
            !cancelled && old(self).pending() == 0 ==> r is Deliver,
            !cancelled && old(self).pending() > 0 ==> r is Continue,
            r is Deliver ==> all_clear(
                old(self).start_board(),
                old(self).start_piece(),
                old(self).start_hold(),
                old(self).window(),
                r->Deliver_0@,
            ),
    {
        if cancelled {
            return SearchAction::Abort;
        }
        if self.is_done() {
            let sols = self.take_solutions();
            let ghost found = sols@;
            let distinct = dedup_pcs(sols);
            proof {
                lemma_dedup_keeps_clear(
                    old(self).start_board(),
                    old(self).start_piece(),
                    old(self).start_hold(),
                    old(self).window(),
                    found,
                    distinct@,
                );
            }
            return SearchAction::Deliver(distinct);
        }
        self.step();
        SearchAction::Continue
    }
}

/// Runs a search over the first `window` queued pieces to its end, examining at most
/// `max_nodes` nodes. `None` when the budget ran out first; otherwise the routes found, one
/// per picture, each of which clears.
pub fn find_pcs_helper(
    board: Board,
    piece: Option<Piece>,
    hold: Option<Piece>,
    queue: &Vec<Piece>,
    window: usize,
    max_nodes: usize,
) -> (r: Option<Vec<Pc>>)
    requires
        window < 255,
    ensures
        r is Some ==> all_clear(board, piece, hold, window_of(queue@, window as int), r->Some_0@),
        r is Some ==> distinct_pictures(r->Some_0@),
        all_roots_rejected(board, piece, hold, window_of(queue@, window as int)) ==> r is Some
            && r->Some_0@.len() == 0,
{
    let mut search = PcSearch::new(board, piece, hold, queue, window);
    let mut n: usize = 0;
    while n < max_nodes
        invariant
            search.wf(),
            search.start_board() == board,
            search.start_piece() == piece,
            search.start_hold() == hold,
            search.window() == window_of(queue@, window as int),
            all_roots_rejected(board, piece, hold, window_of(queue@, window as int)) ==> search.pending()
                == 0 && search.found().len() == 0,
        decreases max_nodes - n,
    {
        if search.is_done() {
            let sols = search.take_solutions();
            let ghost found = sols@;
            let distinct = dedup_pcs(sols);
            proof {
                lemma_dedup_keeps_clear(board, piece, hold, window_of(queue@, window as int), found, distinct@);
                if found.len() == 0 {
                    lemma_drawn_from_empty(distinct@, found);
                }
            }
            return Some(distinct);
        }
        search.step();
        n += 1;
    }
    if search.is_done() {
        let sols = search.take_solutions();
        let ghost found = sols@;
        let distinct = dedup_pcs(sols);
        proof {
            lemma_dedup_keeps_clear(board, piece, hold, window_of(queue@, window as int), found, distinct@);
            if found.len() == 0 {
                lemma_drawn_from_empty(distinct@, found);
            }
        }
        return Some(distinct);
    }
    None
}

} // verus!
