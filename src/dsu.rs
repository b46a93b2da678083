use vstd::prelude::*;

verus! {

/// Disjoint sets over `0..n`, by parent links with path compression.
pub struct Dsu {
    parent: Vec<usize>,
    /// Representative of each element's set.
    rep: Ghost<Seq<int>>,
    /// Strictly increases along every parent link, so that links never form a cycle.
    rank: Ghost<Seq<nat>>,
    max_rank: Ghost<nat>,
}

impl View for Dsu {
    type V = Seq<int>;

    /// The representative of each element's set.
    closed spec fn view(&self) -> Seq<int> {
        self.rep@
    }
}

impl Dsu {
    pub closed spec fn wf(&self) -> bool {
        let n = self.parent@.len();
        &&& self.rep@.len() == n
        &&& self.rank@.len() == n
        &&& forall|i: int| 0 <= i < n ==> (#[trigger] self.parent@[i]) < n
        &&& forall|i: int|
            0 <= i < n ==> 0 <= #[trigger] self.rep@[i] < n && self.parent@[self.rep@[i]] == self.rep@[i]
        &&& forall|i: int| 0 <= i < n ==> self.rep@[(#[trigger] self.parent@[i]) as int] == self.rep@[i]
        &&& forall|i: int| 0 <= i < n && #[trigger] self.parent@[i] == i ==> self.rep@[i] == i
        &&& forall|i: int|
            0 <= i < n && #[trigger] self.parent@[i] != i ==> self.rank@[i]
                < self.rank@[self.parent@[i] as int]
        &&& forall|i: int| 0 <= i < n ==> #[trigger] self.rank@[i] <= self.max_rank@
    }

    /// Rank of each element: it grows strictly along parent links.
    pub closed spec fn ranks(&self) -> Seq<nat> {
        self.rank@
    }

    pub closed spec fn rank_bound(&self) -> nat {
        self.max_rank@
    }

    pub proof fn lemma_rep_in_range(&self, i: int)
        requires
            self.wf(),
            0 <= i < self@.len(),
        ensures
            0 <= self@[i] < self@.len(),
    {
    }

    /// `size` singleton sets.
    pub fn new(size: usize) -> (d: Dsu)
        ensures
            d.wf(),
            d@ == Seq::new(size as nat, |i: int| i),
    {
        let mut parent: Vec<usize> = Vec::new();
        let mut i: usize = 0;
        while i < size
            invariant
                i <= size,
                parent@ == Seq::new(i as nat, |j: int| j as usize),
            decreases size - i,
        {
            parent.push(i);
            i += 1;
            assert(parent@ =~= Seq::new(i as nat, |j: int| j as usize));
        }
        Dsu {
            parent,
            rep: Ghost(Seq::new(size as nat, |j: int| j)),
            rank: Ghost(Seq::new(size as nat, |j: int| 0nat)),
            max_rank: Ghost(0),
        }
    }

    /// The representative of `x`'s set; shortens the links on the way.
    pub fn find(&mut self, x: usize) -> (r: usize)
        requires
            old(self).wf(),
            x < old(self)@.len(),
        ensures
            final(self).wf(),
            final(self)@ == old(self)@,
            r == old(self)@[x as int],
            final(self).ranks() == old(self).ranks(),
            final(self).rank_bound() == old(self).rank_bound(),
            old(self).ranks()[x as int] <= old(self).ranks()[r as int],
        decreases old(self).rank_bound() - old(self).ranks()[x as int],
    {
        let p = self.parent[x];
        if p != x {
            let r = self.find(p);
            self.parent.set(x, r);
            proof {
                let n = self.parent@.len();
                assert forall|i: int| 0 <= i < n implies self.rep@[(#[trigger] self.parent@[i]) as int]
                    == self.rep@[i] by {
                }
                assert forall|i: int| 0 <= i < n && #[trigger] self.parent@[i] != i implies self.rank@[i]
                    < self.rank@[self.parent@[i] as int] by {
                }
            }
            r
        } else {
            x
        }
    }

    /// Merges the sets of `x` and `y`; the merged set keeps `x`'s representative.
    pub fn union(&mut self, x: usize, y: usize)
        requires
            old(self).wf(),
            x < old(self)@.len(),
            y < old(self)@.len(),
        ensures
            final(self).wf(),
            final(self)@.len() == old(self)@.len(),
            forall|i: int|
                0 <= i < old(self)@.len() ==> #[trigger] final(self)@[i] == if old(self)@[i] == old(
                    self,
                )@[y as int] {
                    old(self)@[x as int]
                } else {
                    old(self)@[i]
                },
    {
        let ghost old_rep = self.rep@;
        let x_parent = self.find(x);
        let y_parent = self.find(y);
        if x_parent != y_parent {
            proof {
                let xr = x_parent as int;
                let yr = y_parent as int;
                let bumped = if self.rank@[xr] <= self.rank@[yr] {
                    self.rank@[yr] + 1
                } else {
                    self.rank@[xr]
                };
                self.rank = Ghost(self.rank@.update(xr, bumped));
                if bumped > self.max_rank@ {
                    self.max_rank = Ghost(bumped);
                }
                self.rep = Ghost(
                    Seq::new(self.rep@.len(), |i: int| if self.rep@[i] == yr { xr } else { self.rep@[i] }),
                );
            }
            self.parent.set(y_parent, x_parent);
        }
    }
}

} // verus!
