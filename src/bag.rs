use vstd::prelude::*;

use rand::rngs::StdRng;
use rand::Rng;

use crate::piece::Piece;

verus! {

#[verifier::external_type_specification]
#[verifier::external_body]
pub struct ExStdRng(StdRng);

/// Relies on rand's `Rng::random_range` over the inclusive range `0..=hi`, which is never
/// empty: the value drawn lies in that range.
#[verifier::external_body]
fn random_index(rng: &mut StdRng, hi: usize) -> (r: usize)
    ensures
        r <= hi,
{
    rng.random_range(0..=hi)
}

/// The seven kinds in a random order: each kind exactly once.
pub fn gen_bag(rng: &mut StdRng) -> (r: Vec<Piece>)
    ensures
        r@.len() == 7,
        forall|p: Piece| #[trigger] r@.contains(p),
{
    let mut bag: Vec<Piece> = vec![Piece::I, Piece::J, Piece::L, Piece::O, Piece::S, Piece::T, Piece::Z];
    proof {
        assert forall|p: Piece| #[trigger] bag@.contains(p) by {
            match p {
                Piece::I => assert(bag@[0] == p),
                Piece::J => assert(bag@[1] == p),
                Piece::L => assert(bag@[2] == p),
                Piece::O => assert(bag@[3] == p),
                Piece::S => assert(bag@[4] == p),
                Piece::T => assert(bag@[5] == p),
                Piece::Z => assert(bag@[6] == p),
            }
        }
    }
    let mut out: Vec<Piece> = Vec::new();
    while bag.len() > 0
        invariant
            bag@.len() + out@.len() == 7,
            forall|p: Piece| bag@.contains(p) || #[trigger] out@.contains(p),
        decreases bag@.len(),
    {
        let i = random_index(rng, bag.len() - 1);
        let ghost before = bag@;
        let ghost earlier = out@;
        let p = bag.remove(i);
        out.push(p);
        proof {
            assert forall|q: Piece| bag@.contains(q) || #[trigger] out@.contains(q) by {
                if before.contains(q) {
                    let j = choose|j: int| 0 <= j < before.len() && before[j] == q;
                    if j < i {
                        assert(bag@[j] == q);
                    } else if j > i {
                        assert(bag@[j - 1] == q);
                    } else {
                        assert(out@[out@.len() - 1] == q);
                    }
                } else {
                    assert(earlier.contains(q));
                    let k = choose|k: int| 0 <= k < earlier.len() && earlier[k] == q;
                    assert(out@[k] == earlier[k]);
                }
            }
        }
    }
    out
}

/// Draws the next active piece from the front of `queue` and refills the queue from `bag`,
/// starting a new bag when it is empty.
pub fn get_next_piece(queue: &mut Vec<Piece>, bag: &mut Vec<Piece>, rng: &mut StdRng) -> (p: Piece)
    requires
        old(queue)@.len() > 0,
    ensures
        p == old(queue)@[0],
        final(queue)@.len() == old(queue)@.len(),
        final(queue)@.subrange(0, final(queue)@.len() - 1) == old(queue)@.drop_first(),
        old(bag)@.len() > 0 ==> final(queue)@.last() == old(bag)@[0] && final(bag)@ == old(
            bag,
        )@.drop_first(),
{
    let p = queue.remove(0);
    if bag.len() == 0 {
        *bag = gen_bag(rng);
    }
    let next = bag.remove(0);
    queue.push(next);
    assert(queue@.subrange(0, queue@.len() - 1) =~= old(queue)@.drop_first());
    p
}

/// A fresh queue of five pieces from a new bag, and the two pieces of the bag left over.
pub fn init_queue(rng: &mut StdRng) -> (r: (Vec<Piece>, Vec<Piece>))
    ensures
        r.0@.len() == 5,
        r.1@.len() == 2,
        forall|p: Piece| #[trigger] (r.0@ + r.1@).contains(p),
{
    let mut bag = gen_bag(rng);
    let ghost full = bag@;
    let mut queue: Vec<Piece> = Vec::new();
    let mut i: usize = 0;
    while i < 5
        invariant
            i <= 5,
            queue@.len() == i,
            bag@.len() == 7 - i,
            full.len() == 7,
            queue@ + bag@ == full,
        decreases 5 - i,
    {
        let p = bag.remove(0);
        queue.push(p);
        i += 1;
        assert(queue@ + bag@ =~= full);
    }
    (queue, bag)
}

} // verus!
