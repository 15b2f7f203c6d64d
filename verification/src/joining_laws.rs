//! Which cluster a new face joins, said of the faces that are known.

use vstd::prelude::*;

use crate::cluster_index::{
    electable, in_photo, joins, largest, lemma_plurality, lemma_voters_descending, plurality,
    unbeaten, voters, votes, IndexedFaceView,
};
use crate::detect::{
    by_candidate_score, covered, fitted, longer, score_order, suppressed, Candidate,
};
use crate::faces::{all_saved, maximum, DetectedFace};
use crate::neighbors::{best, lemma_place, place};
use crate::order::{before, lemma_order_of};
use crate::similarity::{dot, lemma_dot_fits, unit};
use crate::sweep::assigned;

verus! {

/// The known face may speak for its cluster: it is at least half like the new one, and its
/// cluster holds no face of the new one's photo.
pub open spec fn may_vote(
    faces: Seq<IndexedFaceView>,
    q: Seq<i32>,
    photo: Option<i64>,
    k: int,
) -> bool {
    &&& 0 <= k < faces.len()
    &&& dot(q, faces[k].embedding) >= 500_000_000_000
    &&& photo is None || forall|j: int|
        0 <= j < faces.len() && (#[trigger] faces[j]).photo_id == photo ==> faces[j].cluster_id
            != faces[k].cluster_id
}

/// The voters are just those who may vote.
proof fn lemma_who_votes(faces: Seq<IndexedFaceView>, q: Seq<i32>, photo: Option<i64>, n: nat)
    requires
        n <= faces.len() <= usize::MAX,
        q.len() <= usize::MAX,
    ensures
        forall|p: int|
            0 <= p < voters(faces, q, photo, n).len() ==> may_vote(
                faces,
                q,
                photo,
                (#[trigger] voters(faces, q, photo, n)[p]).0 as int,
            ) && voters(faces, q, photo, n)[p].1 == dot(
                q,
                faces[voters(faces, q, photo, n)[p].0 as int].embedding,
            ),
        forall|k: int|
            0 <= k < n && #[trigger] may_vote(faces, q, photo, k) ==> exists|p: int|
                0 <= p < voters(faces, q, photo, n).len() && (#[trigger] voters(
                    faces,
                    q,
                    photo,
                    n,
                )[p]).0 == k,
    decreases n,
{
    if n > 0 {
        let k = n - 1;
        lemma_who_votes(faces, q, photo, k as nat);
        lemma_dot_fits(q, faces[k].embedding);
        let earlier = voters(faces, q, photo, k as nat);
        let now = voters(faces, q, photo, n);
        let entry = (k as usize, dot(q, faces[k].embedding) as i128);
        lemma_voters_descending(faces, q, photo, k as nat);
        lemma_place(earlier, entry.1);
        let at = place(earlier, entry.1) as int;
        let joins_in = dot(q, faces[k].embedding) >= 500_000_000_000 && !in_photo(
            faces,
            faces[k].cluster_id,
            photo,
        );
        assert(joins_in == may_vote(faces, q, photo, k));
        if joins_in {
            assert(now == earlier.insert(at, entry));
        }
        assert forall|p: int| 0 <= p < now.len() implies may_vote(
            faces,
            q,
            photo,
            (#[trigger] now[p]).0 as int,
        ) && now[p].1 == dot(q, faces[now[p].0 as int].embedding) by {
            if joins_in {
                if p < at {
                    assert(now[p] == earlier[p]);
                } else if p > at {
                    assert(now[p] == earlier[p - 1]);
                }
            }
        }
        assert forall|j: int| 0 <= j < n && #[trigger] may_vote(faces, q, photo, j) implies exists|
            p: int,
        | 0 <= p < now.len() && (#[trigger] now[p]).0 == j by {
            if j < k {
                let p = choose|p: int| 0 <= p < earlier.len() && (#[trigger] earlier[p]).0 == j;
                if joins_in && p >= at {
                    assert(now[p + 1].0 == j);
                } else {
                    assert(now[p].0 == j);
                }
            } else {
                assert(now[at].0 == j);
            }
        }
    }
}

/// **A near-duplicate decides alone.** Where some known face that may vote is at least 0.8 like
/// the new one, the new face joins the cluster of a face most like it.
pub proof fn law_near_duplicate_decides(
    faces: Seq<IndexedFaceView>,
    emb: Seq<i32>,
    photo: Option<i64>,
    k: int,
) -> (m: int)
    requires
        faces.len() <= usize::MAX,
        emb.len() <= usize::MAX,
        may_vote(faces, unit(emb), photo, k),
        dot(unit(emb), faces[k].embedding) >= 800_000_000_000,
    ensures
        may_vote(faces, unit(emb), photo, m),
        joins(faces, emb, photo) == Some(faces[m].cluster_id),
        forall|j: int|
            #[trigger] may_vote(faces, unit(emb), photo, j) ==> dot(unit(emb), faces[j].embedding)
                <= dot(unit(emb), faces[m].embedding),
{
    let q = unit(emb);
    let all = voters(faces, q, photo, faces.len());
    lemma_who_votes(faces, q, photo, faces.len());
    lemma_voters_descending(faces, q, photo, faces.len());
    let p = choose|p: int| 0 <= p < all.len() && (#[trigger] all[p]).0 == k;
    let top = best(all);
    assert(top[0] == all[0]);
    let m = all[0].0 as int;
    assert forall|j: int| #[trigger] may_vote(faces, q, photo, j) implies dot(q, faces[j].embedding)
        <= dot(q, faces[m].embedding) by {
        let r = choose|r: int| 0 <= r < all.len() && (#[trigger] all[r]).0 == j;
        assert(all[r].1 == dot(q, faces[j].embedding));
        assert(all[0].1 == dot(q, faces[m].embedding));
        if r > 0 {
            assert(all[0].1 >= all[r].1);
        }
    }
    assert(all[0].1 == dot(q, faces[m].embedding));
    m
}

/// **A face joins a cluster it resembles throughout.** Unless a near-duplicate decides, the
/// cluster it joins holds no face of its photo, every member is at least half like it, and at
/// least two members speak for it.
pub proof fn law_joined_cluster_resembles(
    faces: Seq<IndexedFaceView>,
    emb: Seq<i32>,
    photo: Option<i64>,
    cluster: i64,
) -> (two: (int, int))
    requires
        faces.len() <= usize::MAX,
        emb.len() <= usize::MAX,
        joins(faces, emb, photo) == Some(cluster),
        forall|k: int|
            #[trigger] may_vote(faces, unit(emb), photo, k) ==> dot(unit(emb), faces[k].embedding)
                < 800_000_000_000,
    ensures
        forall|k: int|
            0 <= k < faces.len() && (#[trigger] faces[k]).cluster_id == cluster ==> dot(
                unit(emb),
                faces[k].embedding,
            ) >= 500_000_000_000,
        two.0 != two.1,
        may_vote(faces, unit(emb), photo, two.0),
        may_vote(faces, unit(emb), photo, two.1),
        faces[two.0].cluster_id == cluster,
        faces[two.1].cluster_id == cluster,
{
    let q = unit(emb);
    let all = voters(faces, q, photo, faces.len());
    let top = best(all);
    lemma_who_votes(faces, q, photo, faces.len());
    assert(top.len() > 0);
    assert(top[0] == all[0]);
    assert(may_vote(faces, q, photo, all[0].0 as int));
    assert(top[0].1 < 800_000_000_000);
    lemma_plurality(faces, q, top, top.len());
    assert(electable(faces, q, top, cluster));
    let (a, b) = lemma_two_votes(faces, top, cluster);
    assert(top[a] == all[a] && top[b] == all[b]);
    assert(may_vote(faces, q, photo, all[a].0 as int));
    assert(may_vote(faces, q, photo, all[b].0 as int));
    lemma_voters_differ(faces, q, photo, faces.len());
    (top[a].0 as int, top[b].0 as int)
}

proof fn lemma_voters_differ(faces: Seq<IndexedFaceView>, q: Seq<i32>, photo: Option<i64>, n: nat)
    requires
        n <= faces.len() <= usize::MAX,
        q.len() <= usize::MAX,
    ensures
        forall|p: int| 0 <= p < voters(faces, q, photo, n).len() ==> (#[trigger] voters(
            faces,
            q,
            photo,
            n,
        )[p]).0 < n,
        forall|p: int, r: int|
            0 <= p < r < voters(faces, q, photo, n).len() ==> (#[trigger] voters(
                faces,
                q,
                photo,
                n,
            )[p]).0 != (#[trigger] voters(faces, q, photo, n)[r]).0,
    decreases n,
{
    if n > 0 {
        let k = n - 1;
        lemma_voters_differ(faces, q, photo, k as nat);
        let earlier = voters(faces, q, photo, k as nat);
        let now = voters(faces, q, photo, n);
        let entry = (k as usize, dot(q, faces[k].embedding) as i128);
        lemma_voters_descending(faces, q, photo, k as nat);
        lemma_place(earlier, entry.1);
        let at = place(earlier, entry.1) as int;
        if now != earlier {
            assert(now == earlier.insert(at, entry));
            assert forall|p: int| 0 <= p < now.len() implies (#[trigger] now[p]).0 < n by {
                if p < at {
                    assert(now[p] == earlier[p]);
                } else if p > at {
                    assert(now[p] == earlier[p - 1]);
                }
            }
            assert forall|p: int, r: int| 0 <= p < r < now.len() implies (#[trigger] now[p]).0 != (
            #[trigger] now[r]).0 by {
                let x = if p < at {
                    p
                } else {
                    p - 1
                };
                let y = if r < at {
                    r
                } else {
                    r - 1
                };
                if p != at {
                    assert(now[p] == earlier[x]);
                }
                if r != at {
                    assert(now[r] == earlier[y]);
                }
            }
        }
    }
}

proof fn lemma_two_votes(faces: Seq<IndexedFaceView>, top: Seq<(usize, i128)>, cluster: i64) -> (r: (
    int,
    int,
))
    requires
        votes(faces, top, cluster) >= 2,
    ensures
        0 <= r.0 < r.1 < top.len(),
        faces[top[r.0].0 as int].cluster_id == cluster,
        faces[top[r.1].0 as int].cluster_id == cluster,
    decreases top.len(),
{
    let n = top.len() - 1;
    let front = top.drop_last();
    assert(top[n] == top.last());
    if faces[top.last().0 as int].cluster_id == cluster {
        let a = lemma_one_vote(faces, front, cluster);
        assert(front[a] == top[a]);
        (a, n)
    } else {
        let (a, b) = lemma_two_votes(faces, front, cluster);
        assert(front[a] == top[a] && front[b] == top[b]);
        (a, b)
    }
}

proof fn lemma_one_vote(faces: Seq<IndexedFaceView>, top: Seq<(usize, i128)>, cluster: i64) -> (a: int)
    requires
        votes(faces, top, cluster) >= 1,
    ensures
        0 <= a < top.len(),
        faces[top[a].0 as int].cluster_id == cluster,
    decreases top.len(),
{
    let n = top.len() - 1;
    assert(top[n] == top.last());
    if faces[top.last().0 as int].cluster_id == cluster {
        n
    } else {
        let a = lemma_one_vote(faces, top.drop_last(), cluster);
        assert(top.drop_last()[a] == top[a]);
        a
    }
}

/// Adding a voter anywhere adds a vote for its cluster.
proof fn lemma_votes_insert(
    faces: Seq<IndexedFaceView>,
    top: Seq<(usize, i128)>,
    at: int,
    e: (usize, i128),
    cluster: i64,
)
    requires
        0 <= at <= top.len(),
    ensures
        votes(faces, top.insert(at, e), cluster) == votes(faces, top, cluster) + if faces[e.0 as int].cluster_id
            == cluster {
            1int
        } else {
            0
        },
    decreases top.len(),
{
    let now = top.insert(at, e);
    if at == top.len() {
        assert(now =~= top.push(e));
        assert(now.drop_last() =~= top);
    } else {
        assert(now.last() == top.last());
        assert(now.drop_last() =~= top.drop_last().insert(at, e));
        lemma_votes_insert(faces, top.drop_last(), at, e, cluster);
    }
}

/// The known faces of a cluster that speak for it.
pub open spec fn speakers(
    faces: Seq<IndexedFaceView>,
    q: Seq<i32>,
    photo: Option<i64>,
    cluster: i64,
    n: nat,
) -> nat
    decreases n,
{
    if n == 0 {
        0
    } else {
        speakers(faces, q, photo, cluster, (n - 1) as nat) + if faces[n - 1].cluster_id == cluster
            && may_vote(faces, q, photo, n - 1) {
            1nat
        } else {
            0
        }
    }
}

proof fn lemma_speakers(
    faces: Seq<IndexedFaceView>,
    q: Seq<i32>,
    photo: Option<i64>,
    cluster: i64,
    n: nat,
)
    requires
        n <= faces.len() <= usize::MAX,
    ensures
        votes(faces, voters(faces, q, photo, n), cluster) == speakers(faces, q, photo, cluster, n),
    decreases n,
{
    if n > 0 {
        let k = n - 1;
        lemma_speakers(faces, q, photo, cluster, k as nat);
        let earlier = voters(faces, q, photo, k as nat);
        let entry = (k as usize, dot(q, faces[k].embedding) as i128);
        lemma_voters_descending(faces, q, photo, k as nat);
        lemma_place(earlier, entry.1);
        assert((dot(q, faces[k].embedding) >= 500_000_000_000 && !in_photo(
            faces,
            faces[k].cluster_id,
            photo,
        )) == may_vote(faces, q, photo, k));
        lemma_votes_insert(faces, earlier, place(earlier, entry.1) as int, entry, cluster);
    }
}

/// **The most votes win.** Where no more than ten known faces may vote and none is a
/// near-duplicate, a cluster that more of them speak for than for any other, at least two, and
/// that the new face resembles throughout, is joined; and no cluster is joined that others
/// have more voices than.
pub proof fn law_most_votes_win(
    faces: Seq<IndexedFaceView>,
    emb: Seq<i32>,
    photo: Option<i64>,
    cluster: i64,
)
    requires
        faces.len() <= usize::MAX,
        emb.len() <= usize::MAX,
        voters(faces, unit(emb), photo, faces.len()).len() <= 10,
        forall|k: int|
            #[trigger] may_vote(faces, unit(emb), photo, k) ==> dot(unit(emb), faces[k].embedding)
                < 800_000_000_000,
    ensures
        ({
            let count = |c: i64| speakers(faces, unit(emb), photo, c, faces.len());
            &&& count(cluster) >= 2 && (forall|k: int|
                0 <= k < faces.len() && (#[trigger] faces[k]).cluster_id == cluster ==> dot(
                    unit(emb),
                    faces[k].embedding,
                ) >= 500_000_000_000) && (forall|k: int|
                0 <= k < faces.len() && (#[trigger] faces[k]).cluster_id != cluster ==> count(
                    faces[k].cluster_id,
                ) < count(cluster)) ==> joins(faces, emb, photo) == Some(cluster)
            &&& joins(faces, emb, photo) == Some(cluster) ==> forall|k: int|
                0 <= k < faces.len() && #[trigger] may_vote(faces, unit(emb), photo, k) ==> count(
                    faces[k].cluster_id,
                ) <= count(cluster)
        }),
{
    let q = unit(emb);
    let all = voters(faces, q, photo, faces.len());
    let top = best(all);
    assert(top == all);
    lemma_who_votes(faces, q, photo, faces.len());
    assert forall|c: i64| #[trigger] votes(faces, top, c) == speakers(
        faces,
        q,
        photo,
        c,
        faces.len(),
    ) by {
        lemma_speakers(faces, q, photo, c, faces.len());
    }
    if all.len() > 0 {
        assert(may_vote(faces, q, photo, all[0].0 as int));
        assert(all[0].1 < 800_000_000_000);
    }
    let count = |c: i64| speakers(faces, q, photo, c, faces.len());
    if count(cluster) >= 2 && (forall|k: int|
        0 <= k < faces.len() && (#[trigger] faces[k]).cluster_id == cluster ==> dot(
            q,
            faces[k].embedding,
        ) >= 500_000_000_000) && (forall|k: int|
        0 <= k < faces.len() && (#[trigger] faces[k]).cluster_id != cluster ==> count(
            faces[k].cluster_id,
        ) < count(cluster)) {
        assert(votes(faces, top, cluster) >= 2);
        let a = lemma_one_vote(faces, top, cluster);
        assert(electable(faces, q, top, cluster)) by {
            assert forall|p: int| 0 <= p < top.len() implies votes(
                faces,
                top,
                faces[(#[trigger] top[p]).0 as int].cluster_id,
            ) <= votes(faces, top, cluster) by {
                let k = top[p].0 as int;
                assert(may_vote(faces, q, photo, k));
                if faces[k].cluster_id != cluster {
                    assert(count(faces[k].cluster_id) < count(cluster));
                }
            }
        }
        lemma_only_winner(faces, q, top, cluster, a, top.len());
    }
    if joins(faces, emb, photo) == Some(cluster) {
        lemma_plurality(faces, q, top, top.len());
        assert(electable(faces, q, top, cluster));
        assert forall|k: int| 0 <= k < faces.len() && #[trigger] may_vote(faces, q, photo, k) implies
        count(faces[k].cluster_id) <= count(cluster) by {
            let p = choose|p: int| 0 <= p < all.len() && (#[trigger] all[p]).0 == k;
            assert(votes(faces, top, faces[top[p].0 as int].cluster_id) <= votes(
                faces,
                top,
                cluster,
            ));
        }
    }
}

proof fn lemma_only_winner(
    faces: Seq<IndexedFaceView>,
    q: Seq<i32>,
    top: Seq<(usize, i128)>,
    cluster: i64,
    a: int,
    n: nat,
)
    requires
        0 <= a < n <= top.len(),
        faces[top[a].0 as int].cluster_id == cluster,
        electable(faces, q, top, cluster),
        forall|p: int|
            0 <= p < top.len() && faces[(#[trigger] top[p]).0 as int].cluster_id != cluster
                ==> votes(faces, top, faces[top[p].0 as int].cluster_id) < votes(
                faces,
                top,
                cluster,
            ),
    ensures
        plurality(faces, q, top, n) == Some(cluster),
    decreases n,
{
    let next = faces[top[n - 1].0 as int].cluster_id;
    if a < n - 1 {
        lemma_only_winner(faces, q, top, cluster, a, (n - 1) as nat);
    } else {
        lemma_none_or_winner(faces, q, top, cluster, a, (n - 1) as nat);
    }
}

proof fn lemma_none_or_winner(
    faces: Seq<IndexedFaceView>,
    q: Seq<i32>,
    top: Seq<(usize, i128)>,
    cluster: i64,
    a: int,
    n: nat,
)
    requires
        0 <= a < top.len(),
        n <= top.len(),
        faces[top[a].0 as int].cluster_id == cluster,
        forall|p: int|
            0 <= p < top.len() && faces[(#[trigger] top[p]).0 as int].cluster_id != cluster
                ==> votes(faces, top, faces[top[p].0 as int].cluster_id) < votes(
                faces,
                top,
                cluster,
            ),
    ensures
        plurality(faces, q, top, n) is None || plurality(faces, q, top, n) == Some(cluster),
    decreases n,
{
    if n > 0 {
        lemma_none_or_winner(faces, q, top, cluster, a, (n - 1) as nat);
        let next = faces[top[n - 1].0 as int].cluster_id;
        if next != cluster {
            assert(votes(faces, top, next) < votes(faces, top, cluster));
            assert(!unbeaten(faces, top, next)) by {
                if unbeaten(faces, top, next) {
                    assert(votes(faces, top, faces[top[a].0 as int].cluster_id) <= votes(
                        faces,
                        top,
                        next,
                    ));
                }
            }
        }
    }
}

/// **A fresh cluster is above all in use.**
pub proof fn law_largest_cluster(faces: Seq<IndexedFaceView>, list: Seq<i64>, k: int)
    ensures
        0 <= k < faces.len() ==> faces[k].cluster_id <= largest(faces),
        faces.len() > 0 ==> exists|j: int|
            0 <= j < faces.len() && (#[trigger] faces[j]).cluster_id == largest(faces),
        faces.len() == 0 ==> largest(faces) == 0,
        0 <= k < list.len() ==> list[k] <= maximum(list),
        list.len() > 0 ==> list.contains(maximum(list)),
        list.len() == 0 ==> maximum(list) == 0,
{
    lemma_largest_of(faces, k);
    lemma_maximum(list, k);
}

proof fn lemma_largest_of(faces: Seq<IndexedFaceView>, k: int)
    ensures
        0 <= k < faces.len() ==> faces[k].cluster_id <= largest(faces),
        faces.len() > 0 ==> exists|j: int|
            0 <= j < faces.len() && (#[trigger] faces[j]).cluster_id == largest(faces),
    decreases faces.len(),
{
    if faces.len() == 1 {
        assert(faces[0].cluster_id == largest(faces));
    } else if faces.len() > 1 {
        let front = faces.drop_last();
        lemma_largest_of(front, k);
        let n = faces.len() - 1;
        assert(faces[n] == faces.last());
        let j = choose|j: int|
            0 <= j < front.len() && (#[trigger] front[j]).cluster_id == largest(front);
        assert(faces[j] == front[j]);
        if 0 <= k < n {
            assert(front[k] == faces[k]);
        }
        if largest(faces) == faces[n].cluster_id {
            assert(faces[n].cluster_id == largest(faces));
        } else {
            assert(faces[j].cluster_id == largest(faces));
        }
    }
}

proof fn lemma_maximum(list: Seq<i64>, k: int)
    ensures
        0 <= k < list.len() ==> list[k] <= maximum(list),
        list.len() > 0 ==> list.contains(maximum(list)),
    decreases list.len(),
{
    if list.len() == 1 {
        assert(list[0] == maximum(list));
    } else if list.len() > 1 {
        let front = list.drop_last();
        lemma_maximum(front, k);
        let n = list.len() - 1;
        assert(list[n] == list.last());
        let j = choose|j: int| 0 <= j < front.len() && front[j] == maximum(front);
        assert(list[j] == front[j]);
        if 0 <= k < n {
            assert(front[k] == list[k]);
        }
        if maximum(list) == list[n] {
            assert(list.contains(maximum(list)));
        }
    }
}

/// **Each face of a photo is assigned in turn.** What the faces of a photo are assigned is what
/// the first ones are, and then the last, which joins a cluster as [`joins`] says among all
/// that are known by then, or starts the next fresh one.
pub proof fn law_faces_are_assigned_in_turn(
    faces: Seq<IndexedFaceView>,
    next_id: int,
    photo_id: i64,
    found: Seq<DetectedFace>,
    last: DetectedFace,
)
    ensures
        ({
            let (ids, known, next) = assigned(faces, next_id, photo_id, found);
            let (ids2, known2, next2) = assigned(faces, next_id, photo_id, found.push(last));
            let joined = joins(known, last.embedding@, Some(photo_id));
            &&& joined matches Some(c) ==> ids2 == ids.push(c) && next2 == next
            &&& joined is None ==> ids2 == ids.push(next as i64) && next2 == next + 1
            &&& known2 == known.push(
                IndexedFaceView {
                    cluster_id: ids2.last(),
                    photo_id: Some(photo_id),
                    embedding: unit(last.embedding@),
                },
            )
        }),
        assigned(faces, next_id, photo_id, Seq::empty()) == (
            Seq::<i64>::empty(),
            faces,
            next_id,
        ),
{
    assert(found.push(last).drop_last() =~= found);
}

/// **Faces are saved as they were found**: box, score and embedding, under fresh ids in order,
/// in the cluster they were assigned, nobody's yet.
pub proof fn law_faces_are_saved_as_found(
    found: Seq<DetectedFace>,
    clusters: Seq<i64>,
    last: i64,
    photo_id: i64,
    n: nat,
    k: int,
)
    requires
        0 <= k < n,
        last + n <= i64::MAX,
        0 <= last,
    ensures
        ({
            let f = all_saved(found, clusters, last, photo_id, n)[k];
            &&& all_saved(found, clusters, last, photo_id, n).len() == n
            &&& f.id == last + 1 + k
            &&& f.photo_id == photo_id
            &&& f.bbox.x1 == found[k].x1 && f.bbox.y1 == found[k].y1 && f.bbox.x2 == found[k].x2
                && f.bbox.y2 == found[k].y2
            &&& f.score == found[k].score
            &&& f.embedding == found[k].embedding@
            &&& f.marks.cluster_id == Some(clusters[k]) && f.marks.identity_id is None
                && !f.marks.ignored && !f.marks.confirmed
        }),
{
}

/// **The best candidate is always a face**, and kept faces come best first.
pub proof fn law_best_candidate_is_kept(cands: Seq<Candidate>, a: int, b: int)
    requires
        0 < cands.len() <= usize::MAX,
    ensures
        suppressed(cands, score_order(cands)).len() > 0,
        forall|i: int|
            0 <= i < cands.len() ==> (#[trigger] cands[i]).score <= cands[suppressed(
                cands,
                score_order(cands),
            )[0] as int].score,
        0 <= a < b < suppressed(cands, score_order(cands)).len() ==> cands[suppressed(
            cands,
            score_order(cands),
        )[a] as int].score >= cands[suppressed(cands, score_order(cands))[b] as int].score,
{
    let keys = cands.map_values(by_candidate_score());
    lemma_order_of(keys);
    let order = score_order(cands);
    let keep = suppressed(cands, order);
    let at = lemma_suppressed_places(cands, order);
    assert forall|i: int| 0 <= i < cands.len() implies (#[trigger] cands[i]).score
        <= cands[keep[0] as int].score by {
        assert(order.contains(i as usize));
        let p = choose|p: int| 0 <= p < order.len() && order[p] == i as usize;
        assert(order[0] < cands.len());
        if p > 0 {
            assert(before(keys, order[0] as int, order[p] as int));
        }
    }
    if 0 <= a < b < keep.len() {
        assert(at[a] < at[b]);
        assert(before(keys, order[at[a]] as int, order[at[b]] as int));
        assert(order[at[a]] < cands.len() && order[at[b]] < cands.len());
    }
}

proof fn lemma_suppressed_places(cands: Seq<Candidate>, order: Seq<usize>) -> (at: Seq<int>)
    ensures
        at.len() == suppressed(cands, order).len(),
        order.len() > 0 ==> at.len() > 0 && at[0] == 0,
        forall|p: int|
            0 <= p < at.len() ==> 0 <= #[trigger] at[p] < order.len() && order[at[p]] == suppressed(
                cands,
                order,
            )[p],
        forall|p: int, q: int| 0 <= p < q < at.len() ==> #[trigger] at[p] < #[trigger] at[q],
    decreases order.len(),
{
    if order.len() == 0 {
        Seq::empty()
    } else {
        let front = order.drop_last();
        let n = order.len() - 1;
        let rest = lemma_suppressed_places(cands, front);
        assert(order[n] == order.last());
        let keep = suppressed(cands, front);
        let at = if covered(cands, keep, order.last()) {
            rest
        } else {
            rest.push(n)
        };
        if n == 0 {
            assert(keep.len() == 0);
            assert(!covered(cands, keep, order.last()));
        }
        assert forall|p: int| 0 <= p < at.len() implies 0 <= #[trigger] at[p] < order.len()
            && order[at[p]] == suppressed(cands, order)[p] by {
            if p < rest.len() {
                assert(front[rest[p]] == order[rest[p]]);
            }
        }
        at
    }
}

/// **A picture is fitted, centered, into the detector's square.** Its longer side fills 640 pixels,
/// its shorter one keeps its proportion to within half a pixel, and is at least one.
pub proof fn law_pictures_are_fitted(edge: int, longest: int)
    requires
        0 <= edge <= longest,
        0 < longest,
    ensures
        fitted(longest, longest) == 640,
        1 <= fitted(edge, longest) <= 640,
        fitted(edge, longest) > 1 ==> -longest <= 2 * (fitted(edge, longest) * longest - 640 * edge)
            <= longest,
{
    let n = (2 * edge * 640 + longest) / (2 * longest);
    let d = 2 * longest;
    let x = 2 * edge * 640 + longest;
    assert(n * d <= x < n * d + d) by (nonlinear_arith)
        requires
            n == x / d,
            d > 0,
    ;
    assert(n <= 640) by (nonlinear_arith)
        requires
            n * d <= x,
            x == 2 * edge * 640 + longest,
            d == 2 * longest,
            edge <= longest,
            longest > 0,
    ;
    let m = (2 * longest * 640 + longest) / (2 * longest);
    assert(m == 640) by (nonlinear_arith)
        requires
            m == (2 * longest * 640 + longest) / (2 * longest),
            longest > 0,
    ;
    assert(n * d == 2 * (n * longest)) by (nonlinear_arith)
        requires
            d == 2 * longest,
    ;
}

} // verus!
