//! Disjoint sets of indices, for grouping faces into components.

use vstd::prelude::*;

verus! {

/// Disjoint-set (union-find) over face indices.
///
/// Its view is the sequence of representatives: two indices are in one set exactly
/// when their representatives are equal.
pub struct UnionFind {
    parent: Vec<usize>,
    roots: Ghost<Seq<usize>>,
    depth: Ghost<Seq<nat>>,
}

impl View for UnionFind {
    type V = Seq<usize>;

    closed spec fn view(&self) -> Seq<usize> {
        self.roots@
    }
}

impl UnionFind {
    /// Parents lead to the representatives, through ever smaller depths.
    pub closed spec fn wf(&self) -> bool {
        let n = self.parent@.len();
        &&& self.roots@.len() == n
        &&& self.depth@.len() == n
        &&& forall|x: int|
            0 <= x < n ==> {
                &&& 0 <= #[trigger] self.parent@[x] < n
                &&& 0 <= self.roots@[x] < n
                &&& self.roots@[self.parent@[x] as int] == self.roots@[x]
                &&& self.parent@[self.roots@[x] as int] == self.roots@[x]
                &&& self.parent@[x] == x ==> self.roots@[x] == x
                &&& self.parent@[x] != x ==> self.depth@[self.parent@[x] as int] < self.depth@[x]
            }
    }

    /// A representative lies in its own set.
    pub proof fn lemma_roots(&self)
        requires
            self.wf(),
        ensures
            forall|x: int| 0 <= x < self@.len() ==> 0 <= #[trigger] self@[x] < self@.len(),
            forall|x: int| 0 <= x < self@.len() ==> self@[#[trigger] self@[x] as int] == self@[x],
    {
        assert forall|x: int| 0 <= x < self@.len() implies 0 <= #[trigger] self@[x] < self@.len()
            && self@[self@[x] as int] == self@[x] by {
            assert(0 <= self.parent@[x]);
            let r = self.roots@[x] as int;
            assert(0 <= self.parent@[r]);
        }
    }

    /// `n` indices, each its own set.
    pub fn new(n: usize) -> (uf: Self)
        ensures
            uf.wf(),
            uf@ == Seq::new(n as nat, |i: int| i as usize),
    {
        let mut parent: Vec<usize> = Vec::with_capacity(n);
        for i in 0..n
            invariant
                parent@.len() == i,
                forall|j: int| 0 <= j < i ==> #[trigger] parent@[j] == j,
        {
            parent.push(i);
        }
        UnionFind {
            parent,
            roots: Ghost(Seq::new(n as nat, |i: int| i as usize)),
            depth: Ghost(Seq::new(n as nat, |i: int| 0)),
        }
    }

    /// The representative of `x`, shortening the path to it on the way.
    pub fn find(&mut self, start: usize) -> (root: usize)
        requires
            old(self).wf(),
            start < old(self)@.len(),
        ensures
            final(self).wf(),
            final(self)@ == old(self)@,
            root == old(self)@[start as int],
    {
        let mut x: usize = start;
        while self.parent[x] != x
            invariant
                self.wf(),
                self@ == old(self)@,
                start < self@.len(),
                x < self.parent@.len(),
                self@[x as int] == self@[start as int],
            decreases self.depth@[x as int],
        {
            let ghost before = *self;
            let up: usize = self.parent[x];
            assert(0 <= self.parent@[up as int]);
            let next: usize = self.parent[up];
            assert(0 <= self.parent@[next as int]);
            self.parent[x] = next;
            assert forall|y: int| 0 <= y < self.parent@.len() implies {
                &&& 0 <= #[trigger] self.parent@[y] < self.parent@.len()
                &&& 0 <= self.roots@[y] < self.parent@.len()
                &&& self.roots@[self.parent@[y] as int] == self.roots@[y]
                &&& self.parent@[self.roots@[y] as int] == self.roots@[y]
                &&& self.parent@[y] == y ==> self.roots@[y] == y
                &&& self.parent@[y] != y ==> self.depth@[self.parent@[y] as int] < self.depth@[y]
            } by {
                assert(0 <= before.parent@[y]);
                assert(0 <= before.parent@[before.roots@[y] as int]);
                assert(0 <= before.parent@[before.roots@[x as int] as int]);
            }
            x = next;
        }
        assert(0 <= self.parent@[x as int]);
        x
    }

    /// Put the set of `gone` into the set of `keep`; both are representatives.
    pub fn link(&mut self, keep: usize, gone: usize)
        requires
            old(self).wf(),
            keep < old(self)@.len(),
            gone < old(self)@.len(),
            old(self)@[keep as int] == keep,
            old(self)@[gone as int] == gone,
            keep != gone,
        ensures
            final(self).wf(),
            final(self)@ == old(self)@.map_values(
                |r: usize|
                    if r == gone {
                        keep
                    } else {
                        r
                    },
            ),
    {
        let ghost before = *self;
        assert(0 <= self.parent@[keep as int]);
        assert(0 <= self.parent@[gone as int]);
        self.parent[gone] = keep;
        proof {
            self.roots@ = before.roots@.map_values(
                |r: usize|
                    if r == gone {
                        keep
                    } else {
                        r
                    },
            );
            self.depth@ = Seq::new(
                before.depth@.len(),
                |i: int|
                    if before.roots@[i] == gone {
                        before.depth@[i] + before.depth@[keep as int] + 1
                    } else {
                        before.depth@[i]
                    },
            );
            assert forall|x: int| 0 <= x < self.parent@.len() implies {
                &&& 0 <= #[trigger] self.parent@[x] < self.parent@.len()
                &&& 0 <= self.roots@[x] < self.parent@.len()
                &&& self.roots@[self.parent@[x] as int] == self.roots@[x]
                &&& self.parent@[self.roots@[x] as int] == self.roots@[x]
                &&& self.parent@[x] == x ==> self.roots@[x] == x
                &&& self.parent@[x] != x ==> self.depth@[self.parent@[x] as int] < self.depth@[x]
            } by {
                assert(0 <= before.parent@[x]);
                assert(0 <= before.parent@[before.roots@[x] as int]);
            }
        }
    }
}

} // verus!
