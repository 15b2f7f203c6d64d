//! Face-to-face evidence that clusters are one person.

use vstd::prelude::*;

use crate::cluster::{pair, MIN_PAIRS, TAU_SUGGEST};
use crate::neighbors::{knn_graph, lemma_ranked_entries, nearest, ranked};
use crate::rows::{
    distinct, lemma_distinct, lemma_distinct_push, lemma_select_from, lemma_tally_bound, select,
    tally, views,
};
use crate::similarity::{dot, lemma_dot_fits, lemma_row_lengths, normalized, rows, unit};

verus! {

/// Evidence that two clusters are the same person: the count of qualifying
/// cross-cluster face pairs and the strongest such pair's similarity.
#[derive(Clone, Copy)]
pub struct PairEvidence {
    pub a: i64,
    pub b: i64,
    pub pairs: usize,
    pub max_sim: i128,
}

/// A clustered face: its cluster and its embedding.
pub open spec fn clusters_of(faces: Seq<(i64, i64, Seq<i32>)>) -> Seq<i64> {
    faces.map_values(|f: (i64, i64, Seq<i32>)| f.1)
}

/// The embeddings of clustered faces, scaled to unit length.
pub open spec fn units_of(faces: Seq<(i64, i64, Seq<i32>)>) -> Seq<Seq<i32>> {
    faces.map_values(|f: (i64, i64, Seq<i32>)| unit(f.2))
}

/// The cross-cluster pairs among the first `n` near neighbors of face `i`, each
/// unordered face pair once: the two clusters and the similarity.
pub open spec fn cross_from(
    m: Seq<Seq<i32>>,
    cl: Seq<i64>,
    i: int,
    n: nat,
) -> Seq<((i64, i64), i128)>
    decreases n,
{
    if n == 0 {
        Seq::empty()
    } else {
        let earlier = cross_from(m, cl, i, (n - 1) as nat);
        let (j, sim) = nearest(m, TAU_SUGGEST as int, i)[n - 1];
        if i < j && cl[i] != cl[j as int] {
            earlier.push((pair(cl[i], cl[j as int]), sim))
        } else {
            earlier
        }
    }
}

/// The cross-cluster pairs of the first `n` faces.
pub open spec fn cross_pairs(m: Seq<Seq<i32>>, cl: Seq<i64>, n: nat) -> Seq<((i64, i64), i128)>
    decreases n,
{
    if n == 0 {
        Seq::empty()
    } else {
        cross_pairs(m, cl, (n - 1) as nat) + cross_from(
            m,
            cl,
            n - 1,
            nearest(m, TAU_SUGGEST as int, n - 1).len(),
        )
    }
}

/// Tests for a cluster pair.
pub open spec fn is_pair(key: (i64, i64)) -> spec_fn(((i64, i64), i128)) -> bool {
    |p: ((i64, i64), i128)| p.0 == key
}

/// The strongest similarity listed for a cluster pair, at least zero.
pub open spec fn strongest(pairs: Seq<((i64, i64), i128)>, key: (i64, i64)) -> i128
    decreases pairs.len(),
{
    if pairs.len() == 0 {
        0
    } else {
        let rest = strongest(pairs.drop_last(), key);
        if pairs.last().0 == key && pairs.last().1 > rest {
            pairs.last().1
        } else {
            rest
        }
    }
}

/// The clusters of each cross-cluster pair.
pub open spec fn keys_of(pairs: Seq<((i64, i64), i128)>) -> Seq<(i64, i64)> {
    pairs.map_values(|p: ((i64, i64), i128)| p.0)
}

/// The evidence for one cluster pair.
pub open spec fn evidence_for(pairs: Seq<((i64, i64), i128)>, key: (i64, i64)) -> PairEvidence {
    PairEvidence {
        a: key.0,
        b: key.1,
        pairs: tally(pairs, is_pair(key)) as usize,
        max_sim: strongest(pairs, key),
    }
}

/// Keeps the evidence that is backed by enough pairs.
pub open spec fn corroborated() -> spec_fn(PairEvidence) -> Option<PairEvidence> {
    |e: PairEvidence|
        if e.pairs >= MIN_PAIRS {
            Some(e)
        } else {
            None
        }
}

/// The evidence for every cluster pair, in the order of first appearance.
pub open spec fn all_evidence(pairs: Seq<((i64, i64), i128)>) -> Seq<PairEvidence> {
    distinct(keys_of(pairs)).map_values(|key: (i64, i64)| evidence_for(pairs, key))
}

proof fn lemma_near_entries(m: Seq<Seq<i32>>, i: int)
    requires
        m.len() <= usize::MAX,
        forall|j: int| 0 <= j < m.len() ==> (#[trigger] m[j]).len() <= usize::MAX,
        0 <= i < m.len(),
    ensures
        forall|p: int|
            0 <= p < nearest(m, TAU_SUGGEST as int, i).len() ==> {
                let e = #[trigger] nearest(m, TAU_SUGGEST as int, i)[p];
                e.0 < m.len() && e.0 != i && e.1 == dot(m[i], m[e.0 as int]) && e.1 >= TAU_SUGGEST
            },
{
    assert forall|j: int| 0 <= j < m.len() implies i128::MIN <= dot(m[i], #[trigger] m[j])
        <= i128::MAX by {
        lemma_dot_fits(m[i], m[j]);
    }
    lemma_ranked_entries(m, TAU_SUGGEST as int, i, m.len());
    let all = ranked(m, TAU_SUGGEST as int, i, m.len());
    assert forall|p: int| 0 <= p < nearest(m, TAU_SUGGEST as int, i).len() implies
    #[trigger] nearest(m, TAU_SUGGEST as int, i)[p] == all[p] by {}
}

fn list_cross_pairs(mat: &Vec<Vec<i32>>, cluster_of: &Vec<i64>) -> (pairs: Vec<((i64, i64), i128)>)
    requires
        cluster_of@.len() == mat@.len(),
    ensures
        pairs@ == cross_pairs(rows(mat@), cluster_of@, mat@.len()),
{
    let graph = knn_graph(mat, TAU_SUGGEST);
    let ghost m = rows(mat@);
    let ghost cl = cluster_of@;
    proof {
        lemma_row_lengths(mat@);
    }
    let mut pairs: Vec<((i64, i64), i128)> = Vec::new();
    for i in 0..graph.len()
        invariant
            m == rows(mat@),
            cl == cluster_of@,
            cl.len() == mat@.len(),
            forall|j: int| 0 <= j < m.len() ==> (#[trigger] m[j]).len() <= usize::MAX,
            graph@.len() == mat@.len(),
            forall|k: int|
                0 <= k < mat@.len() ==> (#[trigger] graph@[k])@ == nearest(m, TAU_SUGGEST as int, k),
            pairs@ == cross_pairs(m, cl, i as nat),
    {
        proof {
            lemma_near_entries(m, i as int);
            assert(graph@[i as int]@ == nearest(m, TAU_SUGGEST as int, i as int));
        }
        let len: usize = graph[i].len();
        for p in 0..len
            invariant
                m == rows(mat@),
                cl == cluster_of@,
                cl.len() == mat@.len(),
                i < mat@.len(),
                graph@.len() == mat@.len(),
                graph@[i as int]@ == nearest(m, TAU_SUGGEST as int, i as int),
                len == graph@[i as int]@.len(),
                forall|q: int|
                    0 <= q < len ==> (#[trigger] nearest(m, TAU_SUGGEST as int, i as int)[q]).0
                        < m.len(),
                pairs@ == cross_pairs(m, cl, i as nat) + cross_from(m, cl, i as int, p as nat),
        {
            let (j, sim) = graph[i][p];
            assert((j, sim) == nearest(m, TAU_SUGGEST as int, i as int)[p as int]);
            if i < j {
                let ca: i64 = cluster_of[i];
                let cb: i64 = cluster_of[j];
                if ca < cb {
                    pairs.push(((ca, cb), sim));
                } else if cb < ca {
                    pairs.push(((cb, ca), sim));
                }
            }
            assert(pairs@ =~= cross_pairs(m, cl, i as nat) + cross_from(
                m,
                cl,
                i as int,
                (p + 1) as nat,
            ));
        }
    }
    pairs
}

/// Where the evidence for a cluster pair stands in the list; its length if nowhere.
fn find_pair(list: &Vec<PairEvidence>, a: i64, b: i64) -> (at: usize)
    ensures
        at <= list@.len(),
        at < list@.len() ==> list@[at as int].a == a && list@[at as int].b == b,
        at == list@.len() ==> forall|k: int|
            0 <= k < list@.len() ==> (#[trigger] list@[k]).a != a || list@[k].b != b,
{
    for k in 0..list.len()
        invariant
            forall|j: int| 0 <= j < k ==> (#[trigger] list@[j]).a != a || list@[j].b != b,
    {
        if list[k].a == a && list[k].b == b {
            return k;
        }
    }
    list.len()
}

/// Count the pairs of each two clusters and find the strongest.
fn tally_pairs(pairs: &Vec<((i64, i64), i128)>) -> (list: Vec<PairEvidence>)
    ensures
        list@ == all_evidence(pairs@),
{
    let mut list: Vec<PairEvidence> = Vec::new();
    for t in 0..pairs.len()
        invariant
            list@ == all_evidence(pairs@.take(t as int)),
    {
        let ghost seen = pairs@.take(t as int);
        let ghost now = pairs@.take(t + 1);
        let (key, sim) = pairs[t];
        let at = find_pair(&list, key.0, key.1);
        proof {
            assert(now.drop_last() == seen);
            assert(keys_of(now) =~= keys_of(seen).push(key));
            lemma_distinct(keys_of(seen));
            lemma_distinct_push(keys_of(seen), key);
            lemma_tally_bound(seen, is_pair(key));
            let d = distinct(keys_of(seen));
            assert(d.contains(key) <==> at < list@.len()) by {
                if at < list@.len() {
                    assert(list@[at as int] == evidence_for(seen, d[at as int]));
                    assert(d[at as int] == key);
                }
                if d.contains(key) {
                    let k = choose|k: int| 0 <= k < d.len() && d[k] == key;
                    assert(list@[k] == evidence_for(seen, d[k]));
                }
            }
            if at == list@.len() {
                lemma_absent(seen, key);
            }
        }
        if at < list.len() {
            let e = list[at];
            assert(e == evidence_for(seen, distinct(keys_of(seen))[at as int]));
            let max: i128 = if sim > e.max_sim {
                sim
            } else {
                e.max_sim
            };
            let count: usize = e.pairs + 1;
            list.set(at, PairEvidence { a: e.a, b: e.b, pairs: count, max_sim: max });
        } else {
            let max: i128 = if sim > 0 {
                sim
            } else {
                0
            };
            list.push(PairEvidence { a: key.0, b: key.1, pairs: 1, max_sim: max });
        }
        proof {
            let d = distinct(keys_of(seen));
            assert(list@.len() == all_evidence(now).len());
            assert forall|k: int| 0 <= k < list@.len() implies list@[k] == #[trigger] all_evidence(
                now,
            )[k] by {
                if k < d.len() {
                    assert(distinct(keys_of(now))[k] == d[k]);
                    assert(all_evidence(seen)[k] == evidence_for(seen, d[k]));
                    if k != at {
                        assert(d[k] != key) by {
                            if at < d.len() {
                                assert(all_evidence(seen)[at as int] == evidence_for(seen, d[at as int]));
                                assert(d[at as int] == key);
                            }
                        }
                    }
                }
            }
            assert(list@ =~= all_evidence(now));
        }
    }
    assert(pairs@.take(pairs@.len() as int) == pairs@);
    list
}

proof fn lemma_absent(pairs: Seq<((i64, i64), i128)>, key: (i64, i64))
    requires
        !keys_of(pairs).contains(key),
    ensures
        tally(pairs, is_pair(key)) == 0,
        strongest(pairs, key) == 0,
    decreases pairs.len(),
{
    if pairs.len() > 0 {
        let front = pairs.drop_last();
        assert(keys_of(pairs)[pairs.len() - 1] == pairs.last().0);
        assert(!keys_of(front).contains(key)) by {
            if keys_of(front).contains(key) {
                let k = choose|k: int| 0 <= k < keys_of(front).len() && keys_of(front)[k] == key;
                assert(keys_of(pairs)[k] == key);
            }
        }
        lemma_absent(front, key);
    }
}

/// Face-to-face merge evidence between clusters. Input is
/// `(face_id, cluster_id, embedding)`. For every pair of distinct-cluster faces that
/// are near neighbors (cosine at least [`TAU_SUGGEST`]) the cluster pair is tallied;
/// only cluster pairs backed by at least [`MIN_PAIRS`] such face pairs are returned.
pub fn merge_evidence(faces: &Vec<(i64, i64, Vec<i32>)>) -> (out: Vec<PairEvidence>)
    ensures
        out@ == select(
            all_evidence(cross_pairs(units_of(views(faces@)), clusters_of(views(faces@)), faces@.len())),
            corroborated(),
        ),
{
    let mut mat: Vec<Vec<i32>> = Vec::with_capacity(faces.len());
    let mut cluster_of: Vec<i64> = Vec::with_capacity(faces.len());
    for i in 0..faces.len()
        invariant
            rows(mat@) == units_of(views(faces@)).take(i as int),
            mat@.len() == i,
            cluster_of@ == clusters_of(views(faces@)).take(i as int),
            cluster_of@.len() == i,
    {
        mat.push(normalized(faces[i].2.as_slice()));
        cluster_of.push(faces[i].1);
        assert(rows(mat@) =~= units_of(views(faces@)).take(i + 1));
        assert(cluster_of@ =~= clusters_of(views(faces@)).take(i + 1));
    }
    assert(rows(mat@) =~= units_of(views(faces@)));
    assert(cluster_of@ =~= clusters_of(views(faces@)));
    let pairs = list_cross_pairs(&mat, &cluster_of);
    let list = tally_pairs(&pairs);
    let mut out: Vec<PairEvidence> = Vec::new();
    for k in 0..list.len()
        invariant
            out@ == select(list@.take(k as int), corroborated()),
    {
        assert(list@.take(k + 1).drop_last() == list@.take(k as int));
        if list[k].pairs >= MIN_PAIRS {
            out.push(list[k]);
        }
    }
    assert(list@.take(list@.len() as int) == list@);
    out
}

proof fn lemma_cross_pairs(m: Seq<Seq<i32>>, cl: Seq<i64>, n: nat)
    requires
        m.len() <= usize::MAX,
        forall|j: int| 0 <= j < m.len() ==> (#[trigger] m[j]).len() <= usize::MAX,
        n <= m.len(),
    ensures
        forall|p: int|
            0 <= p < cross_pairs(m, cl, n).len() ==> {
                let e = #[trigger] cross_pairs(m, cl, n)[p];
                e.0.0 < e.0.1 && e.1 >= TAU_SUGGEST
            },
    decreases n,
{
    if n > 0 {
        let i = n - 1;
        lemma_cross_pairs(m, cl, i as nat);
        let near = nearest(m, TAU_SUGGEST as int, i);
        lemma_cross_from(m, cl, i, near.len());
        let (was, more) = (cross_pairs(m, cl, i as nat), cross_from(m, cl, i, near.len()));
        assert forall|p: int| 0 <= p < cross_pairs(m, cl, n).len() implies {
            let e = #[trigger] cross_pairs(m, cl, n)[p];
            e.0.0 < e.0.1 && e.1 >= TAU_SUGGEST
        } by {
            if p < was.len() {
                assert(cross_pairs(m, cl, n)[p] == was[p]);
            } else {
                assert(cross_pairs(m, cl, n)[p] == more[p - was.len()]);
            }
        }
    }
}

proof fn lemma_cross_from(m: Seq<Seq<i32>>, cl: Seq<i64>, i: int, n: nat)
    requires
        m.len() <= usize::MAX,
        forall|j: int| 0 <= j < m.len() ==> (#[trigger] m[j]).len() <= usize::MAX,
        0 <= i < m.len(),
        n <= nearest(m, TAU_SUGGEST as int, i).len(),
    ensures
        forall|p: int|
            0 <= p < cross_from(m, cl, i, n).len() ==> {
                let e = #[trigger] cross_from(m, cl, i, n)[p];
                e.0.0 < e.0.1 && e.1 >= TAU_SUGGEST
            },
    decreases n,
{
    if n > 0 {
        let was = cross_from(m, cl, i, (n - 1) as nat);
        lemma_cross_from(m, cl, i, (n - 1) as nat);
        lemma_near_entries(m, i);
        let last = nearest(m, TAU_SUGGEST as int, i)[n - 1];
        assert(last.1 >= TAU_SUGGEST);
        assert forall|p: int| 0 <= p < cross_from(m, cl, i, n).len() implies {
            let e = #[trigger] cross_from(m, cl, i, n)[p];
            e.0.0 < e.0.1 && e.1 >= TAU_SUGGEST
        } by {
            if p < was.len() {
                assert(cross_from(m, cl, i, n)[p] == was[p]);
            }
        }
    }
}

proof fn lemma_strongest(pairs: Seq<((i64, i64), i128)>, key: (i64, i64), p: int)
    requires
        0 <= p < pairs.len(),
        pairs[p].0 == key,
    ensures
        strongest(pairs, key) >= pairs[p].1,
    decreases pairs.len(),
{
    if p < pairs.len() - 1 {
        lemma_strongest(pairs.drop_last(), key, p);
    }
}

/// **Suggestions are corroborated.** Two clusters are suggested only if they are
/// distinct, enough face pairs across them are near neighbors, and the strongest of
/// those pairs clears [`TAU_SUGGEST`].
pub proof fn law_suggestions_are_corroborated(m: Seq<Seq<i32>>, cl: Seq<i64>, k: int)
    requires
        m.len() <= usize::MAX,
        cl.len() == m.len(),
        forall|j: int| 0 <= j < m.len() ==> (#[trigger] m[j]).len() <= usize::MAX,
        0 <= k < select(all_evidence(cross_pairs(m, cl, m.len())), corroborated()).len(),
    ensures
        ({
            let e = select(all_evidence(cross_pairs(m, cl, m.len())), corroborated())[k];
            e.a < e.b && e.pairs >= MIN_PAIRS && e.max_sim >= TAU_SUGGEST
        }),
{
    let pairs = cross_pairs(m, cl, m.len());
    let all = all_evidence(pairs);
    lemma_select_from(all, corroborated(), k);
    let i = choose|i: int|
        0 <= i < all.len() && corroborated()(#[trigger] all[i]) == Some(
            select(all, corroborated())[k],
        );
    let key = distinct(keys_of(pairs))[i];
    assert(all[i] == evidence_for(pairs, key));
    lemma_distinct(keys_of(pairs));
    assert(distinct(keys_of(pairs)).contains(key));
    let p = choose|p: int| 0 <= p < keys_of(pairs).len() && keys_of(pairs)[p] == key;
    assert(pairs[p].0 == key);
    lemma_cross_pairs(m, cl, m.len());
    lemma_strongest(pairs, key, p);
}

} // verus!
