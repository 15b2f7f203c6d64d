//! The clusters do not depend on the order in which the faces arrive.

use vstd::prelude::*;

use crate::cluster::{
    agglomerate, components, edge_keys, edges_from, groups_link, is_mutual, joined,
    lemma_agglomerate_grouping, lemma_joined, lemma_mutual_edges_within, lemma_nearest_entries,
    lemma_welded, linkable, lists, must, mutual_edges, LinkConstraints, TAU_LINK,
};
use crate::cluster_laws::{
    clustering, lemma_components, lemma_linkable_symmetric, lemma_numbered, machine_rows,
};
use crate::neighbors::{
    best, descending, lemma_ranked_complete, lemma_ranked_descending, lemma_ranked_entries,
    nearest, ranked,
};
use crate::order::{before, is_order, lemma_order_of, order_of};
use crate::similarity::{dot, lemma_dot_fits, lemma_dot_symmetric};

verus! {

/// `pi` lists the indices below `n`, each once.
pub open spec fn is_permutation(pi: Seq<int>, n: nat) -> bool {
    &&& pi.len() == n
    &&& forall|x: int| 0 <= x < n ==> 0 <= #[trigger] pi[x] < n
    &&& forall|x: int, y: int| 0 <= x < n && 0 <= y < n && #[trigger] pi[x] == #[trigger] pi[y] ==> x == y
    &&& forall|k: int| 0 <= k < n ==> #[trigger] pi.contains(k)
}

/// The faces of `(n, ns)` are those of `(m, ids)` in the order of `pi`.
pub open spec fn reordered(
    m: Seq<Seq<i32>>,
    ids: Seq<i64>,
    n: Seq<Seq<i32>>,
    ns: Seq<i64>,
    pi: Seq<int>,
) -> bool {
    &&& ids.len() == m.len()
    &&& ns.len() == m.len()
    &&& n.len() == m.len()
    &&& is_permutation(pi, m.len())
    &&& forall|x: int| 0 <= x < m.len() ==> #[trigger] n[x] == m[pi[x]]
    &&& forall|x: int| 0 <= x < m.len() ==> #[trigger] ns[x] == ids[pi[x]]
}

/// No two linkable pairs of faces are equally similar, so similarity alone ranks the
/// edges.
pub open spec fn no_ties(m: Seq<Seq<i32>>) -> bool {
    forall|i: int, j: int, k: int, l: int|
        0 <= i < j < m.len() && 0 <= k < l < m.len() && (i != k || j != l) && #[trigger] dot(
            m[i],
            m[j],
        ) >= TAU_LINK ==> dot(m[i], m[j]) != #[trigger] dot(m[k], m[l])
}

/// `no_ties`, whichever way round the pairs are written.
proof fn lemma_no_ties(m: Seq<Seq<i32>>, i: int, j: int, k: int, l: int)
    requires
        no_ties(m),
        0 <= i < m.len(),
        0 <= j < m.len(),
        0 <= k < m.len(),
        0 <= l < m.len(),
        i != j,
        k != l,
        !(i == k && j == l),
        !(i == l && j == k),
        dot(m[i], m[j]) >= TAU_LINK,
    ensures
        dot(m[i], m[j]) != dot(m[k], m[l]),
{
    lemma_dot_symmetric(m[i], m[j]);
    lemma_dot_symmetric(m[k], m[l]);
    let (a, b) = if i < j {
        (i, j)
    } else {
        (j, i)
    };
    let (c, d) = if k < l {
        (k, l)
    } else {
        (l, k)
    };
    assert(dot(m[a], m[b]) != dot(m[c], m[d]));
}

spec fn strict<T>(s: Seq<(T, i128)>) -> bool {
    forall|p: int, q: int| 0 <= p < q < s.len() ==> (#[trigger] s[p]).1 > (#[trigger] s[q]).1
}

/// Two strictly descending lists with the same entries are equal.
proof fn lemma_strict_unique<T>(a: Seq<(T, i128)>, b: Seq<(T, i128)>)
    requires
        strict(a),
        strict(b),
        forall|p: int| 0 <= p < a.len() ==> b.contains(#[trigger] a[p]),
        forall|p: int| 0 <= p < b.len() ==> a.contains(#[trigger] b[p]),
    ensures
        a == b,
{
    let n = if a.len() <= b.len() {
        a.len()
    } else {
        b.len()
    };
    lemma_strict_unique_upto(a, b, n);
    if a.len() > n {
        assert(b.contains(a[n as int]));
        let q = choose|q: int| 0 <= q < b.len() && b[q] == a[n as int];
        assert(a[q] == b[q]);
        assert(false);
    }
    if b.len() > n {
        assert(a.contains(b[n as int]));
        let q = choose|q: int| 0 <= q < a.len() && a[q] == b[n as int];
        assert(a[q] == b[q]);
        assert(false);
    }
    assert(a =~= b);
}

proof fn lemma_strict_unique_upto<T>(a: Seq<(T, i128)>, b: Seq<(T, i128)>, n: nat)
    requires
        strict(a),
        strict(b),
        forall|p: int| 0 <= p < a.len() ==> b.contains(#[trigger] a[p]),
        forall|p: int| 0 <= p < b.len() ==> a.contains(#[trigger] b[p]),
        n <= a.len(),
        n <= b.len(),
    ensures
        forall|p: int| 0 <= p < n ==> a[p] == b[p],
    decreases n,
{
    if n > 0 {
        let k = n - 1;
        lemma_strict_unique_upto(a, b, k as nat);
        assert(b.contains(a[k]));
        assert(a.contains(b[k]));
        let p = choose|p: int| 0 <= p < b.len() && b[p] == a[k];
        let q = choose|q: int| 0 <= q < a.len() && a[q] == b[k];
        if p < k {
            assert(a[p] == a[k]);
        }
        if q < k {
            assert(b[q] == b[k]);
        }
    }
}

proof fn lemma_ranked_strict(m: Seq<Seq<i32>>, i: int)
    requires
        machine_rows(m),
        no_ties(m),
        0 <= i < m.len(),
    ensures
        strict(ranked(m, TAU_LINK as int, i, m.len())),
{
    let r = ranked(m, TAU_LINK as int, i, m.len());
    lemma_entries(m, i);
    lemma_ranked_descending(m, TAU_LINK as int, i, m.len());
    assert forall|p: int, q: int| 0 <= p < q < r.len() implies (#[trigger] r[p]).1 > (
    #[trigger] r[q]).1 by {
        assert(r[p].0 != r[q].0);
        lemma_no_ties(m, i, r[p].0 as int, i, r[q].0 as int);
    }
}

proof fn lemma_entries(m: Seq<Seq<i32>>, i: int)
    requires
        machine_rows(m),
        0 <= i < m.len(),
    ensures
        forall|p: int|
            0 <= p < ranked(m, TAU_LINK as int, i, m.len()).len() ==> {
                let e = #[trigger] ranked(m, TAU_LINK as int, i, m.len())[p];
                &&& e.0 < m.len()
                &&& e.0 != i
                &&& e.1 == dot(m[i], m[e.0 as int])
                &&& e.1 >= TAU_LINK
            },
        forall|p: int, q: int|
            0 <= p < q < ranked(m, TAU_LINK as int, i, m.len()).len() ==> (#[trigger] ranked(
                m,
                TAU_LINK as int,
                i,
                m.len(),
            )[p]).0 != (#[trigger] ranked(m, TAU_LINK as int, i, m.len())[q]).0,
{
    assert forall|j: int| 0 <= j < m.len() implies i128::MIN <= dot(m[i], #[trigger] m[j])
        <= i128::MAX by {
        lemma_dot_fits(m[i], m[j]);
    }
    lemma_ranked_entries(m, TAU_LINK as int, i, m.len());
}

/// The neighbor lists follow the faces to their new places.
proof fn lemma_nearest_reordered(
    m: Seq<Seq<i32>>,
    ids: Seq<i64>,
    n: Seq<Seq<i32>>,
    ns: Seq<i64>,
    pi: Seq<int>,
    x: int,
    y: int,
)
    requires
        machine_rows(m),
        machine_rows(n),
        no_ties(m),
        no_ties(n),
        reordered(m, ids, n, ns, pi),
        0 <= x < m.len(),
        0 <= y < m.len(),
    ensures
        lists(nearest(n, TAU_LINK as int, x), y) == lists(
            nearest(m, TAU_LINK as int, pi[x]),
            pi[y],
        ),
{
    let tau = TAU_LINK as int;
    let i = pi[x];
    let a = ranked(n, tau, x, n.len());
    let b = ranked(m, tau, i, m.len());
    lemma_ranked_strict(n, x);
    lemma_ranked_strict(m, i);
    lemma_entries(n, x);
    lemma_entries(m, i);
    let c = Seq::new(a.len(), |p: int| (pi[a[p].0 as int] as usize, a[p].1));
    assert(strict(c)) by {
        assert forall|p: int, q: int| 0 <= p < q < c.len() implies (#[trigger] c[p]).1 > (
        #[trigger] c[q]).1 by {
            assert(a[p].1 > a[q].1);
        }
    }
    assert forall|p: int| 0 <= p < c.len() implies b.contains(#[trigger] c[p]) by {
        let e = a[p];
        let k = pi[e.0 as int];
        assert(n[x] == m[i]);
        assert(n[e.0 as int] == m[k]);
        lemma_ranked_complete(m, tau, i, m.len(), k);
        let q = choose|q: int| 0 <= q < b.len() && (#[trigger] b[q]).0 == k;
        assert(b[q] == c[p]);
    }
    assert forall|p: int| 0 <= p < b.len() implies c.contains(#[trigger] b[p]) by {
        let e = b[p];
        let k = e.0 as int;
        assert(pi.contains(k));
        let z = choose|z: int| 0 <= z < pi.len() && pi[z] == k;
        assert(n[x] == m[i]);
        assert(n[z] == m[k]);
        lemma_ranked_complete(n, tau, x, n.len(), z);
        let q = choose|q: int| 0 <= q < a.len() && (#[trigger] a[q]).0 == z;
        assert(c[q] == b[p]);
    }
    lemma_strict_unique(c, b);
    let (na, nb) = (nearest(n, tau, x), nearest(m, tau, i));
    assert(na == best(a) && nb == best(b));
    assert(na.len() == nb.len());
    if lists(na, y) {
        let p = choose|p: int| 0 <= p < na.len() && (#[trigger] na[p]).0 == y;
        assert(nb[p] == b[p] && b[p] == c[p]);
        assert(nb[p].0 == pi[y]);
    }
    if lists(nb, pi[y]) {
        let p = choose|p: int| 0 <= p < nb.len() && (#[trigger] nb[p]).0 == pi[y];
        assert(na[p] == a[p] && b[p] == c[p]);
        assert(pi[a[p].0 as int] == pi[y]);
        assert(na[p].0 == y);
    }
}

proof fn lemma_no_ties_reordered(
    m: Seq<Seq<i32>>,
    ids: Seq<i64>,
    n: Seq<Seq<i32>>,
    ns: Seq<i64>,
    pi: Seq<int>,
)
    requires
        no_ties(m),
        reordered(m, ids, n, ns, pi),
    ensures
        no_ties(n),
{
    assert forall|i: int, j: int, k: int, l: int|
        0 <= i < j < n.len() && 0 <= k < l < n.len() && (i != k || j != l) && #[trigger] dot(
            n[i],
            n[j],
        ) >= TAU_LINK implies dot(n[i], n[j]) != #[trigger] dot(n[k], n[l]) by {
        assert(n[i] == m[pi[i]] && n[j] == m[pi[j]] && n[k] == m[pi[k]] && n[l] == m[pi[l]]);
        lemma_no_ties(m, pi[i], pi[j], pi[k], pi[l]);
    }
}

/// Each of two faces is in the other's neighbor list.
pub open spec fn mutual(m: Seq<Seq<i32>>, a: int, b: int) -> bool {
    lists(nearest(m, TAU_LINK as int, a), b) && lists(nearest(m, TAU_LINK as int, b), a)
}

pub open spec fn is_edge(m: Seq<Seq<i32>>, e: (i128, usize, usize)) -> bool {
    &&& e.1 < e.2 < m.len()
    &&& e.0 == dot(m[e.1 as int], m[e.2 as int])
    &&& e.0 >= TAU_LINK
    &&& mutual(m, e.1 as int, e.2 as int)
}

proof fn lemma_edges_from(m: Seq<Seq<i32>>, i: int, k: nat)
    requires
        machine_rows(m),
        0 <= i < m.len(),
        k <= nearest(m, TAU_LINK as int, i).len(),
    ensures
        forall|p: int|
            0 <= p < edges_from(m, i, k).len() ==> {
                let e = #[trigger] edges_from(m, i, k)[p];
                &&& is_edge(m, e)
                &&& e.1 == i
                &&& exists|q: int|
                    0 <= q < k && e.2 == (#[trigger] nearest(m, TAU_LINK as int, i)[q]).0
            },
        forall|p: int, q: int|
            0 <= p < q < edges_from(m, i, k).len() ==> (#[trigger] edges_from(m, i, k)[p]).2 != (
            #[trigger] edges_from(m, i, k)[q]).2,
        forall|q: int|
            0 <= q < k && is_mutual(
                m,
                i,
                (#[trigger] nearest(m, TAU_LINK as int, i)[q]).0 as int,
            ) ==> edges_from(m, i, k).contains(
                (
                    nearest(m, TAU_LINK as int, i)[q].1,
                    i as usize,
                    nearest(m, TAU_LINK as int, i)[q].0,
                ),
            ),
    decreases k,
{
    if k > 0 {
        let h = (k - 1) as nat;
        lemma_edges_from(m, i, h);
        lemma_nearest_entries(m, i);
        let near = nearest(m, TAU_LINK as int, i);
        let was = edges_from(m, i, h);
        let now = edges_from(m, i, k);
        let (j, sim) = near[h as int];
        if is_mutual(m, i, j as int) {
            let e = (sim, i as usize, j);
            assert(now == was.push(e));
            assert(lists(near, j as int));
            assert forall|p: int| 0 <= p < now.len() implies {
                let f = #[trigger] now[p];
                &&& is_edge(m, f)
                &&& f.1 == i
                &&& exists|q: int| 0 <= q < k && f.2 == (#[trigger] near[q]).0
            } by {
                if p < was.len() {
                    assert(now[p] == was[p]);
                    let q = choose|q: int| 0 <= q < h && was[p].2 == (#[trigger] near[q]).0;
                    assert(near[q].0 == now[p].2);
                } else {
                    assert(near[h as int].0 == now[p].2);
                }
            }
            assert forall|p: int, q: int| 0 <= p < q < now.len() implies (#[trigger] now[p]).2 != (
            #[trigger] now[q]).2 by {
                assert(now[p] == was[p]);
                if q == was.len() {
                    let r = choose|r: int| 0 <= r < h && was[p].2 == (#[trigger] near[r]).0;
                    assert(near[r].0 != near[h as int].0);
                } else {
                    assert(now[q] == was[q]);
                }
            }
            assert forall|q: int| 0 <= q < k && is_mutual(m, i, (#[trigger] near[q]).0 as int) implies
            now.contains((near[q].1, i as usize, near[q].0)) by {
                if q == h {
                    assert(now[was.len() as int] == e);
                } else {
                    let f = (near[q].1, i as usize, near[q].0);
                    assert(was.contains(f));
                    let p = choose|p: int| 0 <= p < was.len() && was[p] == f;
                    assert(now[p] == f);
                }
            }
        }
    }
}

pub proof fn lemma_mutual_edges(m: Seq<Seq<i32>>, k: nat)
    requires
        machine_rows(m),
        k <= m.len(),
    ensures
        forall|p: int|
            0 <= p < mutual_edges(m, k).len() ==> is_edge(m, #[trigger] mutual_edges(m, k)[p])
                && mutual_edges(m, k)[p].1 < k,
        forall|p: int, q: int|
            0 <= p < q < mutual_edges(m, k).len() ==> {
                let (e, f) = (#[trigger] mutual_edges(m, k)[p], #[trigger] mutual_edges(m, k)[q]);
                e.1 != f.1 || e.2 != f.2
            },
    decreases k,
{
    if k > 0 {
        let h = (k - 1) as nat;
        lemma_mutual_edges(m, h);
        let near = nearest(m, TAU_LINK as int, h as int);
        lemma_edges_from(m, h as int, near.len());
        let was = mutual_edges(m, h);
        let more = edges_from(m, h as int, near.len());
        let now = mutual_edges(m, k);
        assert(now == was + more);
        assert forall|p: int| 0 <= p < now.len() implies is_edge(m, #[trigger] now[p]) && now[p].1
            < k by {
            if p < was.len() {
                assert(now[p] == was[p]);
            } else {
                assert(now[p] == more[p - was.len()]);
            }
        }
        assert forall|p: int, q: int| 0 <= p < q < now.len() implies {
            let (e, f) = (#[trigger] now[p], #[trigger] now[q]);
            e.1 != f.1 || e.2 != f.2
        } by {
            if q < was.len() {
                assert(now[p] == was[p] && now[q] == was[q]);
            } else if p < was.len() {
                assert(now[p] == was[p] && now[q] == more[q - was.len()]);
            } else {
                assert(now[p] == more[p - was.len()] && now[q] == more[q - was.len()]);
            }
        }
    }
}

pub proof fn lemma_mutual_edges_complete(m: Seq<Seq<i32>>, k: nat, a: int, b: int)
    requires
        machine_rows(m),
        0 <= a < k <= m.len(),
        a < b < m.len(),
        mutual(m, a, b),
    ensures
        mutual_edges(m, k).contains((dot(m[a], m[b]) as i128, a as usize, b as usize)),
    decreases k,
{
    let e = (dot(m[a], m[b]) as i128, a as usize, b as usize);
    let h = (k - 1) as nat;
    let near = nearest(m, TAU_LINK as int, h as int);
    let was = mutual_edges(m, h);
    let more = edges_from(m, h as int, near.len());
    let now = mutual_edges(m, k);
    assert(now == was + more);
    if a < h {
        lemma_mutual_edges_complete(m, h, a, b);
        let p = choose|p: int| 0 <= p < was.len() && was[p] == e;
        assert(now[p] == e);
    } else {
        lemma_edges_from(m, h as int, near.len());
        lemma_nearest_entries(m, a);
        let q = choose|q: int| 0 <= q < near.len() && (#[trigger] near[q]).0 == b;
        assert(is_mutual(m, a, near[q].0 as int));
        assert(more.contains((near[q].1, a as usize, near[q].0)));
        let p = choose|p: int| 0 <= p < more.len() && more[p] == e;
        assert(now[was.len() + p] == e);
    }
}

/// The walk over the edges, as unordered pairs of faces with their similarity; `name`
/// renames the faces.
spec fn walk(m: Seq<Seq<i32>>, name: Seq<int>) -> Seq<((int, int), i128)> {
    let edges = mutual_edges(m, m.len());
    let order = order_of(edge_keys(edges));
    Seq::new(
        edges.len(),
        |t: int|
            {
                let e = edges[order[t] as int];
                (unordered(name[e.1 as int], name[e.2 as int]), e.0)
            },
    )
}

spec fn unordered(a: int, b: int) -> (int, int) {
    if a < b {
        (a, b)
    } else {
        (b, a)
    }
}

proof fn lemma_walk_strict(m: Seq<Seq<i32>>, name: Seq<int>)
    requires
        machine_rows(m),
        no_ties(m),
    ensures
        strict(walk(m, name)),
        is_order(
            edge_keys(mutual_edges(m, m.len())),
            order_of(edge_keys(mutual_edges(m, m.len()))),
        ),
{
    let edges = mutual_edges(m, m.len());
    let keys = edge_keys(edges);
    let order = order_of(keys);
    lemma_order_of(keys);
    lemma_mutual_edges(m, m.len());
    let w = walk(m, name);
    assert forall|s: int, t: int| 0 <= s < t < w.len() implies (#[trigger] w[s]).1 > (
    #[trigger] w[t]).1 by {
        let (p, q) = (order[s] as int, order[t] as int);
        assert(before(keys, order[s] as int, order[t] as int));
        let (e, f) = (edges[p], edges[q]);
        assert(p != q);
        assert(e.1 != f.1 || e.2 != f.2);
        assert(is_edge(m, e) && is_edge(m, f));
        lemma_no_ties(m, e.1 as int, e.2 as int, f.1 as int, f.2 as int);
    }
}

/// Every edge is walked.
proof fn lemma_walk_contains(m: Seq<Seq<i32>>, name: Seq<int>, a: int, b: int)
    requires
        machine_rows(m),
        0 <= a < m.len(),
        0 <= b < m.len(),
        a != b,
        mutual(m, a, b),
    ensures
        walk(m, name).contains((unordered(name[a], name[b]), dot(m[a], m[b]) as i128)),
{
    let edges = mutual_edges(m, m.len());
    let order = order_of(edge_keys(edges));
    lemma_order_of(edge_keys(edges));
    lemma_dot_symmetric(m[a], m[b]);
    let (lo, hi) = unordered(a, b);
    lemma_mutual_edges_complete(m, m.len(), lo, hi);
    let e = (dot(m[lo], m[hi]) as i128, lo as usize, hi as usize);
    let p = choose|p: int| 0 <= p < edges.len() && edges[p] == e;
    assert(order.contains(p as usize));
    let t = choose|t: int| 0 <= t < order.len() && order[t] == p as usize;
    assert(walk(m, name)[t] == (unordered(name[a], name[b]), e.0));
}

/// Reordering the faces does not change the walk.
proof fn lemma_walk_reordered(
    m: Seq<Seq<i32>>,
    ids: Seq<i64>,
    n: Seq<Seq<i32>>,
    ns: Seq<i64>,
    pi: Seq<int>,
)
    requires
        machine_rows(m),
        machine_rows(n),
        no_ties(m),
        no_ties(n),
        reordered(m, ids, n, ns, pi),
    ensures
        walk(n, pi) == walk(m, Seq::new(m.len(), |i: int| i)),
{
    let plain = Seq::new(m.len(), |i: int| i);
    let (a, b) = (walk(n, pi), walk(m, plain));
    lemma_walk_strict(n, pi);
    lemma_walk_strict(m, plain);
    let (en, em) = (mutual_edges(n, n.len()), mutual_edges(m, m.len()));
    let (on, om) = (order_of(edge_keys(en)), order_of(edge_keys(em)));
    lemma_mutual_edges(n, n.len());
    lemma_mutual_edges(m, m.len());
    assert forall|t: int| 0 <= t < a.len() implies b.contains(#[trigger] a[t]) by {
        assert(0 <= on[t] < en.len());
        let e = en[on[t] as int];
        let (x, y) = (e.1 as int, e.2 as int);
        assert(is_edge(n, e));
        lemma_nearest_reordered(m, ids, n, ns, pi, x, y);
        lemma_nearest_reordered(m, ids, n, ns, pi, y, x);
        assert(n[x] == m[pi[x]] && n[y] == m[pi[y]]);
        lemma_walk_contains(m, plain, pi[x], pi[y]);
    }
    assert forall|t: int| 0 <= t < b.len() implies a.contains(#[trigger] b[t]) by {
        assert(0 <= om[t] < em.len());
        let e = em[om[t] as int];
        let (i, j) = (e.1 as int, e.2 as int);
        assert(is_edge(m, e));
        assert(pi.contains(i) && pi.contains(j));
        let x = choose|x: int| 0 <= x < pi.len() && pi[x] == i;
        let y = choose|y: int| 0 <= y < pi.len() && pi[y] == j;
        lemma_nearest_reordered(m, ids, n, ns, pi, x, y);
        lemma_nearest_reordered(m, ids, n, ns, pi, y, x);
        assert(n[x] == m[pi[x]] && n[y] == m[pi[y]]);
        lemma_walk_contains(n, pi, x, y);
    }
    lemma_strict_unique(a, b);
}

/// Two groupings agree about which faces belong together.
spec fn agree(a: Seq<int>, b: Seq<int>, pi: Seq<int>) -> bool {
    forall|x: int, y: int|
        0 <= x < pi.len() && 0 <= y < pi.len() ==> (#[trigger] a[x] == #[trigger] a[y] <==> b[pi[x]]
            == b[pi[y]])
}

proof fn lemma_groups_link_reordered(
    m: Seq<Seq<i32>>,
    ids: Seq<i64>,
    n: Seq<Seq<i32>>,
    ns: Seq<i64>,
    pi: Seq<int>,
    c: LinkConstraints,
    a: Seq<int>,
    b: Seq<int>,
    x: int,
    y: int,
)
    requires
        reordered(m, ids, n, ns, pi),
        a.len() == m.len(),
        b.len() == m.len(),
        agree(a, b, pi),
        0 <= x < m.len(),
        0 <= y < m.len(),
    ensures
        groups_link(n, ns, c, a, x, y) == groups_link(m, ids, c, b, pi[x], pi[y]),
        groups_link(m, ids, c, b, pi[x], pi[y]) == groups_link(m, ids, c, b, pi[y], pi[x]),
{
    if groups_link(n, ns, c, a, x, y) {
        assert forall|i: int, j: int|
            0 <= i < b.len() && 0 <= j < b.len() && b[i] == b[pi[x]] && b[j]
                == b[pi[y]] implies #[trigger] linkable(m, ids, c, i, j) by {
            assert(pi.contains(i) && pi.contains(j));
            let u = choose|u: int| 0 <= u < pi.len() && pi[u] == i;
            let v = choose|v: int| 0 <= v < pi.len() && pi[v] == j;
            assert(a[u] == a[x] && a[v] == a[y]);
            assert(n[u] == m[i] && n[v] == m[j] && ns[u] == ids[i] && ns[v] == ids[j]);
            assert(linkable(n, ns, c, u, v));
        }
    }
    if groups_link(m, ids, c, b, pi[x], pi[y]) {
        assert forall|u: int, v: int|
            0 <= u < a.len() && 0 <= v < a.len() && a[u] == a[x] && a[v]
                == a[y] implies #[trigger] linkable(n, ns, c, u, v) by {
            let (i, j) = (pi[u], pi[v]);
            assert(b[i] == b[pi[x]] && b[j] == b[pi[y]]);
            assert(n[u] == m[i] && n[v] == m[j] && ns[u] == ids[i] && ns[v] == ids[j]);
            assert(linkable(m, ids, c, i, j));
        }
    }
    lemma_groups_link_symmetric(m, ids, c, b, pi[x], pi[y]);
    lemma_groups_link_symmetric(m, ids, c, b, pi[y], pi[x]);
}

proof fn lemma_groups_link_symmetric(
    m: Seq<Seq<i32>>,
    ids: Seq<i64>,
    c: LinkConstraints,
    comp: Seq<int>,
    a: int,
    b: int,
)
    ensures
        groups_link(m, ids, c, comp, a, b) ==> groups_link(m, ids, c, comp, b, a),
{
    if groups_link(m, ids, c, comp, a, b) {
        assert forall|i: int, j: int|
            0 <= i < comp.len() && 0 <= j < comp.len() && comp[i] == comp[b] && comp[j]
                == comp[a] implies #[trigger] linkable(m, ids, c, i, j) by {
            assert(linkable(m, ids, c, j, i));
            lemma_linkable_symmetric(m, ids, c, i, j);
        }
    }
}

proof fn lemma_agglomerate_reordered(
    m: Seq<Seq<i32>>,
    ids: Seq<i64>,
    n: Seq<Seq<i32>>,
    ns: Seq<i64>,
    pi: Seq<int>,
    c: LinkConstraints,
    t: nat,
)
    requires
        machine_rows(m),
        machine_rows(n),
        no_ties(m),
        no_ties(n),
        reordered(m, ids, n, ns, pi),
        t <= mutual_edges(m, m.len()).len(),
    ensures
        mutual_edges(n, n.len()).len() == mutual_edges(m, m.len()).len(),
        agree(
            agglomerate(
                n,
                ns,
                c,
                mutual_edges(n, n.len()),
                order_of(edge_keys(mutual_edges(n, n.len()))),
                t,
            ),
            agglomerate(
                m,
                ids,
                c,
                mutual_edges(m, m.len()),
                order_of(edge_keys(mutual_edges(m, m.len()))),
                t,
            ),
            pi,
        ),
    decreases t,
{
    let (en, em) = (mutual_edges(n, n.len()), mutual_edges(m, m.len()));
    let (on, om) = (order_of(edge_keys(en)), order_of(edge_keys(em)));
    let plain = Seq::new(m.len(), |i: int| i);
    lemma_walk_reordered(m, ids, n, ns, pi);
    assert(walk(n, pi).len() == walk(m, plain).len());
    let (wn, wm) = (agglomerate(n, ns, c, en, on, t), agglomerate(m, ids, c, em, om, t));
    if t == 0 {
        lemma_welded(ns, c);
        lemma_welded(ids, c);
        assert forall|x: int, y: int| 0 <= x < pi.len() && 0 <= y < pi.len() implies (
        #[trigger] wn[x] == #[trigger] wn[y] <==> wm[pi[x]] == wm[pi[y]]) by {
            assert(ns[x] == ids[pi[x]] && ns[y] == ids[pi[y]]);
            assert(must(ns, c, x, y) == must(ids, c, pi[x], pi[y]));
        }
    } else {
        let s = (t - 1) as nat;
        lemma_agglomerate_reordered(m, ids, n, ns, pi, c, s);
        let (a, b) = (agglomerate(n, ns, c, en, on, s), agglomerate(m, ids, c, em, om, s));
        lemma_mutual_edges_within(n, n.len());
        lemma_mutual_edges_within(m, m.len());
        lemma_walk_strict(n, pi);
        lemma_walk_strict(m, plain);
        lemma_agglomerate_grouping(n, ns, c, en, on, s);
        lemma_agglomerate_grouping(m, ids, c, em, om, s);
        assert(0 <= on[s as int] < en.len());
        assert(0 <= om[s as int] < em.len());
        let (e, f) = (en[on[s as int] as int], em[om[s as int] as int]);
        let (x, y) = (e.1 as int, e.2 as int);
        let (i, j) = (f.1 as int, f.2 as int);
        assert(walk(n, pi)[s as int] == walk(m, plain)[s as int]);
        lemma_mutual_edges(m, m.len());
        assert(is_edge(m, f));
        assert(unordered(pi[x], pi[y]) == (i, j));
        lemma_groups_link_reordered(m, ids, n, ns, pi, c, a, b, x, y);
        assert(a[x] == a[y] <==> b[pi[x]] == b[pi[y]]);
        if a[x] != a[y] {
            lemma_joined(a, x, y);
            lemma_joined(b, i, j);
            assert forall|u: int, v: int| 0 <= u < pi.len() && 0 <= v < pi.len() implies (
            #[trigger] wn[u] == #[trigger] wn[v] <==> wm[pi[u]] == wm[pi[v]]) by {
                assert(a[u] == a[v] <==> b[pi[u]] == b[pi[v]]);
                assert(a[u] == a[x] <==> b[pi[u]] == b[pi[x]]);
                assert(a[u] == a[y] <==> b[pi[u]] == b[pi[y]]);
                assert(a[v] == a[x] <==> b[pi[v]] == b[pi[x]]);
                assert(a[v] == a[y] <==> b[pi[v]] == b[pi[y]]);
                if groups_link(n, ns, c, a, x, y) {
                    assert(wn == joined(a, x, y));
                    assert(wm == joined(b, i, j));
                }
            }
        }
    }
}

/// **Order independence.** Whatever order the faces arrive in, the same faces end up
/// together: the clusters depend only on the similarities. (Where two linkable pairs
/// are exactly equally similar, the order breaks the tie.)
pub proof fn law_order_independent(
    m: Seq<Seq<i32>>,
    ids: Seq<i64>,
    n: Seq<Seq<i32>>,
    ns: Seq<i64>,
    pi: Seq<int>,
    c: LinkConstraints,
    x: int,
    y: int,
)
    requires
        machine_rows(m),
        machine_rows(n),
        no_ties(m),
        reordered(m, ids, n, ns, pi),
        0 <= x < m.len(),
        0 <= y < m.len(),
    ensures
        clustering(n, ns, c)[x].1 == clustering(n, ns, c)[y].1 <==> clustering(m, ids, c)[pi[x]].1
            == clustering(m, ids, c)[pi[y]].1,
{
    lemma_no_ties_reordered(m, ids, n, ns, pi);
    lemma_agglomerate_reordered(m, ids, n, ns, pi, c, mutual_edges(m, m.len()).len());
    lemma_components(m, ids, c);
    lemma_components(n, ns, c);
    assert(components(n, ns, c)[x] == components(n, ns, c)[y] <==> components(m, ids, c)[pi[x]]
        == components(m, ids, c)[pi[y]]);
    lemma_numbered(ids, components(m, ids, c), pi[x], pi[y]);
    lemma_numbered(ns, components(n, ns, c), x, y);
}

} // verus!
