//! Matching clusters to a confirmed person.
//!
//! A confirmed identity's faces are the anchor; every other cluster is measured
//! against the anchor only, never cluster to cluster, so strangers cannot be chained
//! together.

use vstd::prelude::*;

use crate::cluster::TAU_LINK;
use crate::evidence::{clusters_of, units_of};
use crate::rows::{
    distinct, lemma_distinct, lemma_distinct_push, lemma_select_from, lemma_select_len, select,
    tally, views,
};
use crate::similarity::{cos, dot, normalized, rows, unit_rows};

verus! {

/// A cluster judged to be the same person as a confirmed identity: its size and its
/// strongest match to the anchor.
#[derive(Clone, Copy)]
pub struct GrowthCandidate {
    pub cluster_id: i64,
    pub size: usize,
    pub max_sim: i128,
}

/// The strongest similarity of `q` to the first `n` anchor vectors; there is at least
/// one.
pub open spec fn best_match(anchor: Seq<Seq<i32>>, q: Seq<i32>, n: nat) -> int
    decreases n,
{
    if n <= 1 {
        dot(q, anchor[0])
    } else {
        let rest = best_match(anchor, q, (n - 1) as nat);
        let last = dot(q, anchor[n - 1]);
        if last > rest {
            last
        } else {
            rest
        }
    }
}

/// A clustered face by its cluster and its strongest similarity to the anchor.
pub open spec fn scores(
    anchor: Seq<Seq<i32>>,
    m: Seq<Seq<i32>>,
    cl: Seq<i64>,
) -> Seq<(i64, int)> {
    Seq::new(m.len(), |i: int| (cl[i], best_match(anchor, m[i], anchor.len())))
}

/// Leaves out the faces of the person's own group.
pub open spec fn not_own(own: Option<i64>) -> spec_fn((i64, int)) -> Option<(i64, int)> {
    |s: (i64, int)|
        if own == Some(s.0) {
            None
        } else {
            Some(s)
        }
}

/// Tests for a face of the cluster.
pub open spec fn in_cluster(c: i64) -> spec_fn((i64, int)) -> bool {
    |s: (i64, int)| s.0 == c
}

/// Tests for a face of the cluster that matches the anchor.
pub open spec fn matches_in(c: i64) -> spec_fn((i64, int)) -> bool {
    |s: (i64, int)| s.0 == c && s.1 >= TAU_LINK
}

/// The strongest match among the faces of the cluster, zero if none matches.
pub open spec fn strongest_match(s: Seq<(i64, int)>, c: i64) -> int
    decreases s.len(),
{
    if s.len() == 0 {
        0
    } else {
        let rest = strongest_match(s.drop_last(), c);
        if matches_in(c)(s.last()) && s.last().1 > rest {
            s.last().1
        } else {
            rest
        }
    }
}

/// A majority of the cluster matches the anchor, with at least a couple of corroborating
/// faces (or the whole of a tiny cluster).
pub open spec fn confident(size: nat, matched: nat) -> bool {
    &&& matched * 2 > size
    &&& matched >= if size >= 2 {
        2int
    } else {
        1int
    }
}

/// The candidate a cluster makes, if its match is confident.
pub open spec fn candidate(s: Seq<(i64, int)>) -> spec_fn(i64) -> Option<GrowthCandidate> {
    |c: i64|
        if confident(tally(s, in_cluster(c)), tally(s, matches_in(c))) {
            Some(
                GrowthCandidate {
                    cluster_id: c,
                    size: tally(s, in_cluster(c)) as usize,
                    max_sim: strongest_match(s, c) as i128,
                },
            )
        } else {
            None
        }
}

/// The clusters of scored faces.
pub open spec fn scored_clusters(s: Seq<(i64, int)>) -> Seq<i64> {
    s.map_values(|x: (i64, int)| x.0)
}

/// The clusters that confidently match the anchor, in the order of first appearance.
pub open spec fn candidates(
    anchor: Seq<Seq<i32>>,
    m: Seq<Seq<i32>>,
    cl: Seq<i64>,
    own: Option<i64>,
) -> Seq<GrowthCandidate> {
    if anchor.len() == 0 {
        Seq::empty()
    } else {
        let s = select(scores(anchor, m, cl), not_own(own));
        select(distinct(scored_clusters(s)), candidate(s))
    }
}

/// What is counted for one cluster.
#[derive(Clone, Copy)]
struct Count {
    cluster: i64,
    size: usize,
    matched: usize,
    max_sim: i128,
}

spec fn count_for(s: Seq<(i64, int)>, c: i64) -> Count {
    Count {
        cluster: c,
        size: tally(s, in_cluster(c)) as usize,
        matched: tally(s, matches_in(c)) as usize,
        max_sim: strongest_match(s, c) as i128,
    }
}

spec fn counts(s: Seq<(i64, int)>) -> Seq<Count> {
    distinct(scored_clusters(s)).map_values(|c: i64| count_for(s, c))
}

spec fn ints(s: Seq<(i64, i128)>) -> Seq<(i64, int)> {
    s.map_values(|x: (i64, i128)| (x.0, x.1 as int))
}

fn find_count(list: &Vec<Count>, cluster: i64) -> (at: usize)
    ensures
        at <= list@.len(),
        at < list@.len() ==> list@[at as int].cluster == cluster,
        at == list@.len() ==> forall|k: int|
            0 <= k < list@.len() ==> (#[trigger] list@[k]).cluster != cluster,
{
    for k in 0..list.len()
        invariant
            forall|j: int| 0 <= j < k ==> (#[trigger] list@[j]).cluster != cluster,
    {
        if list[k].cluster == cluster {
            return k;
        }
    }
    list.len()
}

proof fn lemma_absent(s: Seq<(i64, int)>, c: i64)
    requires
        !scored_clusters(s).contains(c),
    ensures
        tally(s, in_cluster(c)) == 0,
        tally(s, matches_in(c)) == 0,
        strongest_match(s, c) == 0,
    decreases s.len(),
{
    if s.len() > 0 {
        let front = s.drop_last();
        assert(scored_clusters(s)[s.len() - 1] == s.last().0);
        assert(!scored_clusters(front).contains(c)) by {
            if scored_clusters(front).contains(c) {
                let k = choose|k: int|
                    0 <= k < scored_clusters(front).len() && scored_clusters(front)[k] == c;
                assert(scored_clusters(s)[k] == c);
            }
        }
        lemma_absent(front, c);
    }
}

proof fn lemma_counts(s: Seq<(i64, int)>, c: i64)
    requires
        forall|k: int| 0 <= k < s.len() ==> i128::MIN <= (#[trigger] s[k]).1 <= i128::MAX,
    ensures
        tally(s, matches_in(c)) <= tally(s, in_cluster(c)) <= s.len(),
        0 <= strongest_match(s, c) <= i128::MAX,
    decreases s.len(),
{
    if s.len() > 0 {
        let front = s.drop_last();
        assert forall|k: int| 0 <= k < front.len() implies i128::MIN <= (#[trigger] front[k]).1
            <= i128::MAX by {
            assert(front[k] == s[k]);
        }
        lemma_counts(front, c);
        assert(s.last() == s[s.len() - 1]);
    }
}

fn count_clusters(s: &Vec<(i64, i128)>) -> (list: Vec<Count>)
    ensures
        list@ == counts(ints(s@)),
{
    let mut list: Vec<Count> = Vec::new();
    for t in 0..s.len()
        invariant
            list@ == counts(ints(s@).take(t as int)),
    {
        let ghost seen = ints(s@).take(t as int);
        let ghost now = ints(s@).take(t + 1);
        let (c, score) = s[t];
        let at = find_count(&list, c);
        proof {
            assert(now.drop_last() == seen);
            assert(now.last() == (c, score as int));
            assert(scored_clusters(now) =~= scored_clusters(seen).push(c));
            lemma_distinct(scored_clusters(seen));
            lemma_distinct_push(scored_clusters(seen), c);
            lemma_counts(seen, c);
            let d = distinct(scored_clusters(seen));
            assert(d.contains(c) <==> at < list@.len()) by {
                if at < list@.len() {
                    assert(list@[at as int] == count_for(seen, d[at as int]));
                    assert(d[at as int] == c);
                }
                if d.contains(c) {
                    let k = choose|k: int| 0 <= k < d.len() && d[k] == c;
                    assert(list@[k] == count_for(seen, d[k]));
                }
            }
            if at == list@.len() {
                lemma_absent(seen, c);
            }
        }
        let e: Count = if at < list.len() {
            list[at]
        } else {
            Count { cluster: c, size: 0, matched: 0, max_sim: 0 }
        };
        proof {
            if at < list@.len() {
                assert(e == count_for(seen, distinct(scored_clusters(seen))[at as int]));
            }
            assert(e == count_for(seen, c));
        }
        let hit = score >= TAU_LINK;
        let matched: usize = if hit {
            e.matched + 1
        } else {
            e.matched
        };
        let max: i128 = if hit && score > e.max_sim {
            score
        } else {
            e.max_sim
        };
        let size: usize = e.size + 1;
        let next = Count { cluster: c, size, matched, max_sim: max };
        assert(next == count_for(now, c));
        if at < list.len() {
            list.set(at, next);
        } else {
            list.push(next);
        }
        proof {
            let d = distinct(scored_clusters(seen));
            assert(list@.len() == counts(now).len());
            assert forall|k: int| 0 <= k < list@.len() implies list@[k] == #[trigger] counts(
                now,
            )[k] by {
                if k < d.len() {
                    assert(distinct(scored_clusters(now))[k] == d[k]);
                    assert(counts(seen)[k] == count_for(seen, d[k]));
                    if k != at {
                        assert(d[k] != c) by {
                            if at < d.len() {
                                assert(counts(seen)[at as int] == count_for(seen, d[at as int]));
                                assert(d[at as int] == c);
                            }
                        }
                    }
                }
            }
            assert(list@ =~= counts(now));
        }
    }
    assert(ints(s@).take(s@.len() as int) == ints(s@));
    list
}

/// The strongest similarity of one face to the anchor.
fn match_anchor(anchor: &Vec<Vec<i32>>, q: &Vec<i32>) -> (best: i128)
    requires
        anchor@.len() > 0,
    ensures
        best == best_match(rows(anchor@), q@, anchor@.len()),
{
    let mut best: i128 = cos(q.as_slice(), anchor[0].as_slice());
    for n in 1..anchor.len()
        invariant
            anchor@.len() > 0,
            best == best_match(rows(anchor@), q@, n as nat),
    {
        assert(rows(anchor@)[n as int] == anchor@[n as int]@);
        let s: i128 = cos(q.as_slice(), anchor[n].as_slice());
        if s > best {
            best = s;
        }
    }
    best
}

/// Clustered faces with unit vectors, packed once and matched against many anchors.
pub struct FaceMatrix {
    clusters: Vec<i64>,
    mat: Vec<Vec<i32>>,
}

impl FaceMatrix {
    /// The cluster of each face.
    pub closed spec fn clusters(&self) -> Seq<i64> {
        self.clusters@
    }

    /// The unit vector of each face.
    pub closed spec fn units(&self) -> Seq<Seq<i32>> {
        rows(self.mat@)
    }

    /// Both lists speak of the same faces.
    pub closed spec fn wf(&self) -> bool {
        self.clusters@.len() == self.mat@.len()
    }

    /// Pack `(face_id, cluster_id, embedding)` rows.
    pub fn pack(faces: &Vec<(i64, i64, Vec<i32>)>) -> (fm: Self)
        ensures
            fm.wf(),
            fm.clusters() == clusters_of(views(faces@)),
            fm.units() == units_of(views(faces@)),
    {
        let mut mat: Vec<Vec<i32>> = Vec::with_capacity(faces.len());
        let mut clusters: Vec<i64> = Vec::with_capacity(faces.len());
        for i in 0..faces.len()
            invariant
                rows(mat@) == units_of(views(faces@)).take(i as int),
                mat@.len() == i,
                clusters@ == clusters_of(views(faces@)).take(i as int),
                clusters@.len() == i,
        {
            mat.push(normalized(faces[i].2.as_slice()));
            clusters.push(faces[i].1);
            assert(rows(mat@) =~= units_of(views(faces@)).take(i + 1));
            assert(clusters@ =~= clusters_of(views(faces@)).take(i + 1));
        }
        assert(rows(mat@) =~= units_of(views(faces@)));
        assert(clusters@ =~= clusters_of(views(faces@)));
        FaceMatrix { clusters, mat }
    }

    /// Pack the faces of a library; `None` for an empty one.
    pub fn new(faces: &Vec<(i64, i64, Vec<i32>)>) -> (fm: Option<Self>)
        ensures
            fm is Some <==> faces@.len() > 0,
            fm matches Some(m) ==> m.wf() && m.clusters() == clusters_of(views(faces@)) && m.units()
                == units_of(views(faces@)),
    {
        if faces.len() == 0 {
            None
        } else {
            Some(Self::pack(faces))
        }
    }

    /// The clusters, other than the person's own group, that confidently match the
    /// anchor: most of their faces clear [`TAU_LINK`] against it.
    pub fn identity_candidates(&self, anchor: &Vec<Vec<i32>>, own: Option<i64>) -> (out: Vec<
        GrowthCandidate,
    >)
        requires
            self.wf(),
        ensures
            out@ == candidates(unit_rows(rows(anchor@)), self.units(), self.clusters(), own),
    {
        if anchor.len() == 0 {
            return Vec::new();
        }
        let mut a: Vec<Vec<i32>> = Vec::with_capacity(anchor.len());
        let ghost units = unit_rows(rows(anchor@));
        for i in 0..anchor.len()
            invariant
                rows(a@) == units.take(i as int),
                a@.len() == i,
                units == unit_rows(rows(anchor@)),
        {
            a.push(normalized(anchor[i].as_slice()));
            assert(rows(a@) =~= units.take(i + 1));
        }
        assert(rows(a@) =~= units);
        let ghost all = scores(units, self.units(), self.clusters());
        let mut s: Vec<(i64, i128)> = Vec::new();
        for i in 0..self.mat.len()
            invariant
                self.wf(),
                rows(a@) == units,
                a@.len() > 0,
                all == scores(units, self.units(), self.clusters()),
                ints(s@) == select(all.take(i as int), not_own(own)),
        {
            let cluster: i64 = self.clusters[i];
            let score: i128 = match_anchor(&a, &self.mat[i]);
            proof {
                assert(all.take(i + 1).drop_last() == all.take(i as int));
                assert(all[i as int] == (cluster, score as int));
            }
            let mine = match own {
                Some(o) => o == cluster,
                None => false,
            };
            if !mine {
                s.push((cluster, score));
            }
            assert(ints(s@) =~= select(all.take(i + 1), not_own(own)));
        }
        assert(all.take(self.mat@.len() as int) == all);
        let list = count_clusters(&s);
        let ghost picked = ints(s@);
        let ghost groups = distinct(scored_clusters(picked));
        let mut out: Vec<GrowthCandidate> = Vec::new();
        for k in 0..list.len()
            invariant
                list@ == counts(picked),
                picked == ints(s@),
                groups == distinct(scored_clusters(picked)),
                out@ == select(groups.take(k as int), candidate(picked)),
        {
            let e = list[k];
            proof {
                assert(groups.take(k + 1).drop_last() == groups.take(k as int));
                assert(counts(picked)[k as int] == count_for(picked, groups[k as int]));
                assert(s.len() <= usize::MAX);
                lemma_counts(picked, groups[k as int]);
            }
            if e.matched > e.size - e.matched && e.matched >= (if e.size >= 2 {
                2
            } else {
                1
            }) {
                out.push(
                    GrowthCandidate { cluster_id: e.cluster, size: e.size, max_sim: e.max_sim },
                );
            }
        }
        assert(groups.take(groups.len() as int) == groups);
        out
    }
}

/// Anchored confidence propagation: given a confirmed identity's `anchor` faces and
/// every *other* clustered face, the clusters whose faces confidently match the anchor.
pub fn identity_candidates(anchor: &Vec<Vec<i32>>, others: &Vec<(i64, i64, Vec<i32>)>) -> (out: Vec<
    GrowthCandidate,
>)
    ensures
        out@ == candidates(
            unit_rows(rows(anchor@)),
            units_of(views(others@)),
            clusters_of(views(others@)),
            None,
        ),
{
    FaceMatrix::pack(others).identity_candidates(anchor, None)
}

proof fn lemma_some_match(s: Seq<(i64, int)>, c: i64)
    requires
        tally(s, matches_in(c)) >= 1,
    ensures
        strongest_match(s, c) >= TAU_LINK,
    decreases s.len(),
{
    if !matches_in(c)(s.last()) {
        lemma_some_match(s.drop_last(), c);
    }
}

/// **Candidates match the person.** A candidate is never the person's own group, a
/// majority of its faces clears [`TAU_LINK`] against the anchor, and so does its strongest
/// match.
pub proof fn law_candidates_match_the_anchor(
    anchor: Seq<Seq<i32>>,
    m: Seq<Seq<i32>>,
    cl: Seq<i64>,
    own: Option<i64>,
    k: int,
)
    requires
        cl.len() == m.len(),
        m.len() <= usize::MAX,
        anchor.len() > 0,
        forall|i: int|
            0 <= i < m.len() ==> i128::MIN <= best_match(anchor, #[trigger] m[i], anchor.len())
                <= i128::MAX,
        0 <= k < candidates(anchor, m, cl, own).len(),
    ensures
        ({
            let c = candidates(anchor, m, cl, own)[k];
            let s = select(scores(anchor, m, cl), not_own(own));
            &&& own != Some(c.cluster_id)
            &&& c.max_sim >= TAU_LINK
            &&& c.size == tally(s, in_cluster(c.cluster_id))
            &&& tally(s, matches_in(c.cluster_id)) * 2 > c.size
        }),
{
    let all = scores(anchor, m, cl);
    let s = select(all, not_own(own));
    let groups = distinct(scored_clusters(s));
    lemma_select_from(groups, candidate(s), k);
    let g = choose|g: int|
        0 <= g < groups.len() && candidate(s)(#[trigger] groups[g]) == Some(
            candidates(anchor, m, cl, own)[k],
        );
    let c = groups[g];
    lemma_distinct(scored_clusters(s));
    assert(groups.contains(c));
    let p = choose|p: int| 0 <= p < scored_clusters(s).len() && scored_clusters(s)[p] == c;
    assert(s[p].0 == c);
    lemma_select_from(all, not_own(own), p);
    lemma_select_len(all, not_own(own));
    assert forall|i: int| 0 <= i < s.len() implies i128::MIN <= (#[trigger] s[i]).1
        <= i128::MAX by {
        lemma_select_from(all, not_own(own), i);
        let j = choose|j: int| 0 <= j < all.len() && not_own(own)(#[trigger] all[j]) == Some(s[i]);
        assert(all[j] == s[i]);
        assert(i128::MIN <= best_match(anchor, m[j], anchor.len()) <= i128::MAX);
    }
    lemma_counts(s, c);
    lemma_some_match(s, c);
}

} // verus!
