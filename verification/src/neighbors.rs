//! Nearest neighbors among unit vectors.

use vstd::prelude::*;

use crate::similarity::{cos, dot, rows};

verus! {

/// Neighbors examined per face when building the graph / voting.
pub const K: usize = 10;

/// Entries run from the most similar to the least.
pub open spec fn descending(top: Seq<(usize, i128)>) -> bool {
    forall|p: int, q: int| 0 <= p < q < top.len() ==> (#[trigger] top[p]).1 >= (#[trigger] top[q]).1
}

/// Where an entry of similarity `sim` belongs: behind every entry that is at least as
/// similar.
pub open spec fn place(top: Seq<(usize, i128)>, sim: i128) -> nat
    decreases top.len(),
{
    if top.len() == 0 || top.last().1 >= sim {
        top.len()
    } else {
        place(top.drop_last(), sim)
    }
}

/// `top` with one more entry at its place.
pub open spec fn placed(top: Seq<(usize, i128)>, entry: (usize, i128)) -> Seq<(usize, i128)> {
    top.insert(place(top, entry.1) as int, entry)
}

/// The first [`K`] entries.
pub open spec fn best(top: Seq<(usize, i128)>) -> Seq<(usize, i128)> {
    if top.len() > K {
        top.take(K as int)
    } else {
        top
    }
}

pub proof fn lemma_place(top: Seq<(usize, i128)>, sim: i128)
    requires
        descending(top),
    ensures
        place(top, sim) <= top.len(),
        forall|p: int| 0 <= p < place(top, sim) ==> (#[trigger] top[p]).1 >= sim,
        forall|p: int| place(top, sim) <= p < top.len() ==> (#[trigger] top[p]).1 < sim,
    decreases top.len(),
{
    if top.len() == 0 || top.last().1 >= sim {
    } else {
        lemma_place(top.drop_last(), sim);
        assert forall|p: int| 0 <= p < place(top, sim) implies (#[trigger] top[p]).1 >= sim by {
            assert(top.drop_last()[p] == top[p]);
        }
        assert forall|p: int| place(top, sim) <= p < top.len() implies (#[trigger] top[p]).1
            < sim by {
            if p < top.len() - 1 {
                assert(top.drop_last()[p] == top[p]);
            }
        }
    }
}

pub proof fn lemma_placed_descending(top: Seq<(usize, i128)>, entry: (usize, i128))
    requires
        descending(top),
    ensures
        descending(placed(top, entry)),
        placed(top, entry).len() == top.len() + 1,
{
    lemma_place(top, entry.1);
}

/// Only the first [`K`] entries matter for the first [`K`] entries after another
/// insertion.
pub proof fn lemma_best_placed(top: Seq<(usize, i128)>, entry: (usize, i128))
    requires
        descending(top),
    ensures
        best(placed(best(top), entry)) == best(placed(top, entry)),
{
    let short = best(top);
    lemma_place(top, entry.1);
    lemma_place(short, entry.1);
    let p = place(top, entry.1);
    let q = place(short, entry.1);
    if top.len() > K {
        if p <= K {
            if q < p {
                assert(short[q as int] == top[q as int]);
            }
            if p < q {
                assert(short[p as int] == top[p as int]);
            }
            assert(p == q);
        } else {
            if q < K {
                assert(short[q as int] == top[q as int]);
            }
            assert(q == K);
        }
        assert(best(placed(short, entry)) =~= best(placed(top, entry)));
    }
}

/// Bounded top-`K` selection: insert `(idx, sim)` keeping `top` sorted descending
/// and capped at `K`. An entry goes behind the ones it ties with.
pub fn push_topk(top: &mut Vec<(usize, i128)>, idx: usize, sim: i128)
    requires
        descending(old(top)@),
        old(top)@.len() <= K,
    ensures
        final(top)@ == best(placed(old(top)@, (idx, sim))),
        descending(final(top)@),
{
    let mut p: usize = top.len();
    proof {
        lemma_place(top@, sim);
        lemma_placed_descending(top@, (idx, sim));
    }
    while p > 0 && top[p - 1].1 < sim
        invariant
            p <= top@.len(),
            top@ == old(top)@,
            place(top@, sim) <= p,
            forall|q: int| 0 <= q < place(top@, sim) ==> (#[trigger] top@[q]).1 >= sim,
        decreases p,
    {
        p = p - 1;
    }
    assert(p == place(old(top)@, sim));
    if p < K {
        top.insert(p, (idx, sim));
        if top.len() > K {
            let last = top.pop();
        }
    }
    assert(top@ =~= best(placed(old(top)@, (idx, sim))));
}

/// The indices below `n`, other than `i`, at least `floor` similar to `i`: most similar
/// first, ties by index.
pub open spec fn ranked(m: Seq<Seq<i32>>, floor: int, i: int, n: nat) -> Seq<(usize, i128)>
    decreases n,
{
    if n == 0 {
        Seq::empty()
    } else {
        let j = n - 1;
        let earlier = ranked(m, floor, i, j as nat);
        if j != i && dot(m[i], m[j]) >= floor {
            placed(earlier, (j as usize, dot(m[i], m[j]) as i128))
        } else {
            earlier
        }
    }
}

/// The up to [`K`] nearest neighbors of `i`.
pub open spec fn nearest(m: Seq<Seq<i32>>, floor: int, i: int) -> Seq<(usize, i128)> {
    best(ranked(m, floor, i, m.len()))
}

pub proof fn lemma_ranked_descending(m: Seq<Seq<i32>>, floor: int, i: int, n: nat)
    ensures
        descending(ranked(m, floor, i, n)),
    decreases n,
{
    if n > 0 {
        let j = n - 1;
        lemma_ranked_descending(m, floor, i, j as nat);
        lemma_placed_descending(
            ranked(m, floor, i, j as nat),
            (j as usize, dot(m[i], m[j]) as i128),
        );
    }
}

/// Every entry names another index below `n` and its similarity.
pub proof fn lemma_ranked_entries(m: Seq<Seq<i32>>, floor: int, i: int, n: nat)
    requires
        n <= usize::MAX,
        forall|j: int| 0 <= j < n ==> i128::MIN <= dot(m[i], #[trigger] m[j]) <= i128::MAX,
    ensures
        forall|p: int|
            0 <= p < ranked(m, floor, i, n).len() ==> {
                let e = #[trigger] ranked(m, floor, i, n)[p];
                &&& e.0 < n
                &&& e.0 != i
                &&& e.1 == dot(m[i], m[e.0 as int])
                &&& e.1 >= floor
            },
        forall|p: int, q: int|
            0 <= p < q < ranked(m, floor, i, n).len() ==> (#[trigger] ranked(m, floor, i, n)[p]).0
                != (#[trigger] ranked(m, floor, i, n)[q]).0,
    decreases n,
{
    if n > 0 {
        let j = (n - 1) as nat;
        lemma_ranked_entries(m, floor, i, j);
        let earlier = ranked(m, floor, i, j);
        if j != i && dot(m[i], m[j as int]) >= floor {
            let entry = (j as usize, dot(m[i], m[j as int]) as i128);
            lemma_ranked_descending(m, floor, i, j);
            lemma_place(earlier, entry.1);
            let at = place(earlier, entry.1) as int;
            let now = ranked(m, floor, i, n);
            assert(now == earlier.insert(at, entry));
            assert forall|p: int| 0 <= p < now.len() implies {
                let e = #[trigger] now[p];
                &&& e.0 < n
                &&& e.0 != i
                &&& e.1 == dot(m[i], m[e.0 as int])
                &&& e.1 >= floor
            } by {
                if p < at {
                    assert(now[p] == earlier[p]);
                } else if p > at {
                    assert(now[p] == earlier[p - 1]);
                }
            }
            assert forall|p: int, q: int| 0 <= p < q < now.len() implies (#[trigger] now[p]).0 != (
            #[trigger] now[q]).0 by {
                let pp = if p < at {
                    p
                } else {
                    p - 1
                };
                let qq = if q < at {
                    q
                } else {
                    q - 1
                };
                if p != at {
                    assert(now[p] == earlier[pp]);
                }
                if q != at {
                    assert(now[q] == earlier[qq]);
                }
            }
        }
    }
}

/// Every index that qualifies is listed.
pub proof fn lemma_ranked_complete(m: Seq<Seq<i32>>, floor: int, i: int, n: nat, j: int)
    requires
        0 <= j < n <= usize::MAX,
        j != i,
        dot(m[i], m[j]) >= floor,
    ensures
        exists|p: int|
            0 <= p < ranked(m, floor, i, n).len() && (#[trigger] ranked(m, floor, i, n)[p]).0 == j,
    decreases n,
{
    let k = n - 1;
    let earlier = ranked(m, floor, i, k as nat);
    let now = ranked(m, floor, i, n);
    lemma_ranked_descending(m, floor, i, k as nat);
    if k != i && dot(m[i], m[k]) >= floor {
        let entry = (k as usize, dot(m[i], m[k]) as i128);
        lemma_place(earlier, entry.1);
        let at = place(earlier, entry.1) as int;
        assert(now == earlier.insert(at, entry));
        if j == k {
            assert(now[at].0 == j);
        } else {
            lemma_ranked_complete(m, floor, i, k as nat, j);
            let p = choose|p: int| 0 <= p < earlier.len() && (#[trigger] earlier[p]).0 == j;
            if p < at {
                assert(now[p].0 == j);
            } else {
                assert(now[p + 1].0 == j);
            }
        }
    } else {
        lemma_ranked_complete(m, floor, i, k as nat, j);
    }
}

/// The per-face top-`K` neighbor lists (index and similarity) over the whole set.
pub fn knn_graph(mat: &Vec<Vec<i32>>, min_sim: i128) -> (graph: Vec<Vec<(usize, i128)>>)
    ensures
        graph@.len() == mat@.len(),
        forall|i: int|
            0 <= i < mat@.len() ==> (#[trigger] graph@[i])@ == nearest(rows(mat@), min_sim as int, i),
{
    let n: usize = mat.len();
    let ghost m = rows(mat@);
    let mut graph: Vec<Vec<(usize, i128)>> = Vec::with_capacity(n);
    for i in 0..n
        invariant
            n == mat@.len(),
            m == rows(mat@),
            graph@.len() == i,
            forall|k: int| 0 <= k < i ==> (#[trigger] graph@[k])@ == nearest(m, min_sim as int, k),
    {
        let mut top: Vec<(usize, i128)> = Vec::new();
        for j in 0..n
            invariant
                n == mat@.len(),
                i < n,
                m == rows(mat@),
                top@ == best(ranked(m, min_sim as int, i as int, j as nat)),
                descending(top@),
        {
            proof {
                lemma_ranked_descending(m, min_sim as int, i as int, j as nat);
            }
            if j != i {
                let s: i128 = cos(mat[i].as_slice(), mat[j].as_slice());
                assert(s == dot(m[i as int], m[j as int]));
                if s >= min_sim {
                    proof {
                        lemma_best_placed(ranked(m, min_sim as int, i as int, j as nat), (j, s));
                    }
                    push_topk(&mut top, j, s);
                }
            }
        }
        graph.push(top);
    }
    graph
}

} // verus!
