//! Incremental assignment of new faces to clusters.
//!
//! No running mean: a new face votes among its nearest already-clustered faces, and
//! joins a cluster only if it clears [`TAU_LINK`] against *every* member. A lone
//! near-duplicate is decisive on its own. A cluster that already holds a face of the
//! same photo is never joined: two faces in one photo are two people.

use vstd::prelude::*;

use crate::cluster::{MIN_VOTE, TAU_DUP, TAU_LINK};
use crate::neighbors::{
    best, descending, lemma_best_placed, lemma_place, lemma_placed_descending, place, placed,
    push_topk,
};
use crate::rows::reversed;
use crate::similarity::{cos, dot, lemma_dot_fits, normalized, unit};

verus! {

/// One already-clustered face.
pub struct IndexedFace {
    pub cluster_id: i64,
    pub photo_id: Option<i64>,
    pub embedding: Vec<i32>,
}

/// An already-clustered face, mathematically.
pub struct IndexedFaceView {
    pub cluster_id: i64,
    pub photo_id: Option<i64>,
    pub embedding: Seq<i32>,
}

impl View for IndexedFace {
    type V = IndexedFaceView;

    open spec fn view(&self) -> IndexedFaceView {
        IndexedFaceView {
            cluster_id: self.cluster_id,
            photo_id: self.photo_id,
            embedding: self.embedding@,
        }
    }
}

/// In-memory state for incremental assignment of newly-detected faces. Holds every
/// already-clustered face so a new face can vote among its nearest neighbors. Rebuilt
/// from the library at startup, so a restart reproduces the same state.
pub struct ClusterIndex {
    pub faces: Vec<IndexedFace>,
    pub next_id: i64,
}

/// The faces by their views.
pub open spec fn indexed(faces: Seq<IndexedFace>) -> Seq<IndexedFaceView> {
    faces.map_values(|f: IndexedFace| f@)
}

/// The cluster holds a face of the photo.
pub open spec fn in_photo(faces: Seq<IndexedFaceView>, cluster: i64, photo: Option<i64>) -> bool {
    photo is Some && exists|k: int|
        0 <= k < faces.len() && (#[trigger] faces[k]).cluster_id == cluster && faces[k].photo_id
            == photo
}

/// The first `n` faces that may vote, nearest first: those at least [`TAU_LINK`]
/// similar whose cluster is not already in the photo.
pub open spec fn voters(
    faces: Seq<IndexedFaceView>,
    q: Seq<i32>,
    photo: Option<i64>,
    n: nat,
) -> Seq<(usize, i128)>
    decreases n,
{
    if n == 0 {
        Seq::empty()
    } else {
        let k = n - 1;
        let earlier = voters(faces, q, photo, k as nat);
        let s = dot(q, faces[k].embedding);
        if s >= TAU_LINK && !in_photo(faces, faces[k].cluster_id, photo) {
            placed(earlier, (k as usize, s as i128))
        } else {
            earlier
        }
    }
}

/// Every member of the cluster is at least [`TAU_LINK`] similar to `q`.
pub open spec fn links_all(faces: Seq<IndexedFaceView>, q: Seq<i32>, cluster: i64) -> bool {
    forall|k: int|
        0 <= k < faces.len() && (#[trigger] faces[k]).cluster_id == cluster ==> dot(
            q,
            faces[k].embedding,
        ) >= TAU_LINK
}

/// How many of the voters belong to the cluster.
pub open spec fn votes(faces: Seq<IndexedFaceView>, top: Seq<(usize, i128)>, cluster: i64) -> nat
    decreases top.len(),
{
    if top.len() == 0 {
        0
    } else {
        votes(faces, top.drop_last(), cluster) + if faces[top.last().0 as int].cluster_id
            == cluster {
            1nat
        } else {
            0
        }
    }
}

/// No cluster of a voter has more votes.
pub open spec fn unbeaten(
    faces: Seq<IndexedFaceView>,
    top: Seq<(usize, i128)>,
    cluster: i64,
) -> bool {
    forall|p: int|
        0 <= p < top.len() ==> votes(faces, top, faces[(#[trigger] top[p]).0 as int].cluster_id)
            <= votes(faces, top, cluster)
}

/// The cluster has the most votes, real support, and the new face keeps it a clique.
pub open spec fn electable(
    faces: Seq<IndexedFaceView>,
    q: Seq<i32>,
    top: Seq<(usize, i128)>,
    cluster: i64,
) -> bool {
    &&& unbeaten(faces, top, cluster)
    &&& votes(faces, top, cluster) >= MIN_VOTE
    &&& links_all(faces, q, cluster)
}

/// The first electable cluster among those of the first `n` voters: where two have the most
/// votes, the one with the nearer voter.
pub open spec fn plurality(
    faces: Seq<IndexedFaceView>,
    q: Seq<i32>,
    top: Seq<(usize, i128)>,
    n: nat,
) -> Option<i64>
    decreases n,
{
    if n == 0 {
        None
    } else {
        let leader = plurality(faces, q, top, (n - 1) as nat);
        let next = faces[top[n - 1].0 as int].cluster_id;
        if leader is None && electable(faces, q, top, next) {
            Some(next)
        } else {
            leader
        }
    }
}

/// The cluster the voters choose, if any: that of a near-duplicate, else the
/// plurality.
pub open spec fn elected(
    faces: Seq<IndexedFaceView>,
    q: Seq<i32>,
    top: Seq<(usize, i128)>,
) -> Option<i64> {
    if top.len() == 0 {
        None
    } else if top[0].1 >= TAU_DUP {
        Some(faces[top[0].0 as int].cluster_id)
    } else {
        plurality(faces, q, top, top.len())
    }
}

/// The existing cluster a face joins, if any.
pub open spec fn joins(
    faces: Seq<IndexedFaceView>,
    emb: Seq<i32>,
    photo: Option<i64>,
) -> Option<i64> {
    elected(faces, unit(emb), best(voters(faces, unit(emb), photo, faces.len())))
}

/// The largest cluster id, or zero for no faces.
pub open spec fn largest(faces: Seq<IndexedFaceView>) -> i64
    decreases faces.len(),
{
    if faces.len() == 0 {
        0
    } else if faces.len() == 1 {
        faces[0].cluster_id
    } else {
        let rest = largest(faces.drop_last());
        if faces.last().cluster_id > rest {
            faces.last().cluster_id
        } else {
            rest
        }
    }
}

proof fn lemma_largest(faces: Seq<IndexedFaceView>)
    ensures
        forall|k: int| 0 <= k < faces.len() ==> (#[trigger] faces[k]).cluster_id <= largest(faces),
        faces.len() > 0 ==> exists|k: int|
            0 <= k < faces.len() && (#[trigger] faces[k]).cluster_id == largest(faces),
    decreases faces.len(),
{
    if faces.len() == 1 {
        assert(faces[0].cluster_id == largest(faces));
    } else if faces.len() > 1 {
        let rest = faces.drop_last();
        lemma_largest(rest);
        assert forall|k: int| 0 <= k < faces.len() implies (#[trigger] faces[k]).cluster_id
            <= largest(faces) by {
            if k < rest.len() {
                assert(rest[k] == faces[k]);
            }
        }
        let k = choose|k: int| 0 <= k < rest.len() && (#[trigger] rest[k]).cluster_id == largest(rest);
        assert(faces[k] == rest[k]);
        assert(faces[faces.len() - 1] == faces.last());
    }
}

pub proof fn lemma_voters_descending(faces: Seq<IndexedFaceView>, q: Seq<i32>, photo: Option<i64>, n: nat)
    ensures
        descending(voters(faces, q, photo, n)),
    decreases n,
{
    if n > 0 {
        let k = n - 1;
        lemma_voters_descending(faces, q, photo, k as nat);
        lemma_placed_descending(
            voters(faces, q, photo, k as nat),
            (k as usize, dot(q, faces[k].embedding) as i128),
        );
    }
}

/// A voter is a face in a cluster outside the photo.
pub open spec fn are_voters(
    faces: Seq<IndexedFaceView>,
    q: Seq<i32>,
    photo: Option<i64>,
    top: Seq<(usize, i128)>,
) -> bool {
    forall|p: int|
        0 <= p < top.len() ==> {
            &&& (#[trigger] top[p]).0 < faces.len()
            &&& top[p].1 == dot(q, faces[top[p].0 as int].embedding)
            &&& !in_photo(faces, faces[top[p].0 as int].cluster_id, photo)
        }
}

impl ClusterIndex {
    /// The faces, by their views.
    pub open spec fn model(&self) -> Seq<IndexedFaceView> {
        indexed(self.faces@)
    }

    /// The next fresh id is above every cluster id in use.
    pub open spec fn wf(&self) -> bool {
        forall|k: int|
            0 <= k < self.faces@.len() ==> (#[trigger] self.faces@[k]).cluster_id < self.next_id
    }

    /// Rebuild from `(cluster_id, embedding)` rows of the already-clustered faces.
    pub fn load(rows: Vec<(i64, Vec<i32>)>) -> (index: Self)
        requires
            forall|k: int| 0 <= k < rows@.len() ==> (#[trigger] rows@[k]).0 < i64::MAX,
        ensures
            index.wf(),
            index.model() == rows@.map_values(
                |r: (i64, Vec<i32>)| IndexedFaceView {
                    cluster_id: r.0,
                    photo_id: None,
                    embedding: r.1@,
                },
            ),
            index.next_id == largest(index.model()) + 1,
    {
        let ghost given = rows@;
        let mut left = rows;
        let mut back: Vec<IndexedFace> = Vec::with_capacity(left.len());
        while left.len() > 0
            invariant
                left@ == given.take(left@.len() as int),
                left@.len() + back@.len() == given.len(),
                forall|k: int|
                    0 <= k < back@.len() ==> (#[trigger] back@[k])@ == (IndexedFaceView {
                        cluster_id: given[given.len() - 1 - k].0,
                        photo_id: None,
                        embedding: given[given.len() - 1 - k].1@,
                    }),
            decreases left@.len(),
        {
            if let Some(row) = left.pop() {
                back.push(IndexedFace { cluster_id: row.0, photo_id: None, embedding: row.1 });
            }
        }
        let faces = reversed(back);
        assert(indexed(faces@) =~= given.map_values(
            |r: (i64, Vec<i32>)| IndexedFaceView {
                cluster_id: r.0,
                photo_id: None,
                embedding: r.1@,
            },
        ));
        assert forall|k: int| 0 <= k < faces@.len() implies (#[trigger] faces@[k]).cluster_id
            < i64::MAX by {
            assert(indexed(faces@)[k].cluster_id == given[k].0);
        }
        Self::over(faces)
    }

    /// Rebuild from `(cluster_id, photo_id, embedding)` rows, so that faces of one photo
    /// are kept apart.
    pub fn load_with_photos(rows: Vec<(i64, i64, Vec<i32>)>) -> (index: Self)
        requires
            forall|k: int| 0 <= k < rows@.len() ==> (#[trigger] rows@[k]).0 < i64::MAX,
        ensures
            index.wf(),
            index.model() == rows@.map_values(
                |r: (i64, i64, Vec<i32>)| IndexedFaceView {
                    cluster_id: r.0,
                    photo_id: Some(r.1),
                    embedding: r.2@,
                },
            ),
            index.next_id == largest(index.model()) + 1,
    {
        let ghost given = rows@;
        let mut left = rows;
        let mut back: Vec<IndexedFace> = Vec::with_capacity(left.len());
        while left.len() > 0
            invariant
                left@ == given.take(left@.len() as int),
                left@.len() + back@.len() == given.len(),
                forall|k: int|
                    0 <= k < back@.len() ==> (#[trigger] back@[k])@ == (IndexedFaceView {
                        cluster_id: given[given.len() - 1 - k].0,
                        photo_id: Some(given[given.len() - 1 - k].1),
                        embedding: given[given.len() - 1 - k].2@,
                    }),
            decreases left@.len(),
        {
            if let Some(row) = left.pop() {
                back.push(
                    IndexedFace { cluster_id: row.0, photo_id: Some(row.1), embedding: row.2 },
                );
            }
        }
        let faces = reversed(back);
        assert(indexed(faces@) =~= given.map_values(
            |r: (i64, i64, Vec<i32>)| IndexedFaceView {
                cluster_id: r.0,
                photo_id: Some(r.1),
                embedding: r.2@,
            },
        ));
        assert forall|k: int| 0 <= k < faces@.len() implies (#[trigger] faces@[k]).cluster_id
            < i64::MAX by {
            assert(indexed(faces@)[k].cluster_id == given[k].0);
        }
        Self::over(faces)
    }

    fn over(faces: Vec<IndexedFace>) -> (index: Self)
        requires
            forall|k: int| 0 <= k < faces@.len() ==> (#[trigger] faces@[k]).cluster_id < i64::MAX,
        ensures
            index.faces == faces,
            index.wf(),
            index.next_id == largest(index.model()) + 1,
    {
        let mut max: i64 = 0;
        for i in 0..faces.len()
            invariant
                max == largest(indexed(faces@).take(i as int)),
        {
            assert(indexed(faces@).take(i + 1).drop_last() == indexed(faces@).take(i as int));
            let id: i64 = faces[i].cluster_id;
            if i == 0 || id > max {
                max = id;
            }
        }
        assert(indexed(faces@).take(faces@.len() as int) == indexed(faces@));
        proof {
            lemma_largest(indexed(faces@));
            assert forall|k: int| 0 <= k < faces@.len() implies (#[trigger] faces@[k]).cluster_id
                < max + 1 by {
                assert(indexed(faces@)[k] == faces@[k]@);
            }
            if faces@.len() > 0 {
                let k = choose|k: int|
                    0 <= k < indexed(faces@).len() && (#[trigger] indexed(faces@)[k]).cluster_id
                        == max;
                assert(faces@[k].cluster_id == max);
            }
        }
        ClusterIndex { faces, next_id: max + 1 }
    }

    /// Whether the cluster holds a face of the photo.
    fn photo_taken(&self, cluster: i64, photo: Option<i64>) -> (taken: bool)
        ensures
            taken == in_photo(self.model(), cluster, photo),
    {
        if photo.is_none() {
            return false;
        }
        for k in 0..self.faces.len()
            invariant
                photo is Some,
                forall|j: int|
                    0 <= j < k ==> !((#[trigger] self.model()[j]).cluster_id == cluster
                        && self.model()[j].photo_id == photo),
        {
            if self.faces[k].cluster_id == cluster && self.faces[k].photo_id == photo {
                assert(self.model()[k as int].cluster_id == cluster);
                return true;
            }
        }
        false
    }

    /// Whether every member of the cluster is similar enough to `q`.
    fn links_every(&self, q: &Vec<i32>, cluster: i64) -> (ok: bool)
        ensures
            ok == links_all(self.model(), q@, cluster),
    {
        for k in 0..self.faces.len()
            invariant
                forall|j: int|
                    0 <= j < k && (#[trigger] self.model()[j]).cluster_id == cluster ==> dot(
                        q@,
                        self.model()[j].embedding,
                    ) >= TAU_LINK,
        {
            if self.faces[k].cluster_id == cluster && cos(
                q.as_slice(),
                self.faces[k].embedding.as_slice(),
            ) < TAU_LINK {
                assert(self.model()[k as int].cluster_id == cluster);
                return false;
            }
        }
        true
    }

    /// How many of the voters belong to the cluster.
    fn count_votes(&self, top: &Vec<(usize, i128)>, cluster: i64) -> (count: usize)
        requires
            forall|p: int| 0 <= p < top@.len() ==> (#[trigger] top@[p]).0 < self.faces@.len(),
        ensures
            count == votes(self.model(), top@, cluster),
    {
        let mut count: usize = 0;
        for p in 0..top.len()
            invariant
                forall|p: int| 0 <= p < top@.len() ==> (#[trigger] top@[p]).0 < self.faces@.len(),
                count == votes(self.model(), top@.take(p as int), cluster),
                count <= p,
        {
            assert(top@.take(p + 1).drop_last() == top@.take(p as int));
            if self.faces[top[p].0].cluster_id == cluster {
                count = count + 1;
            }
        }
        assert(top@.take(top@.len() as int) == top@);
        count
    }

    /// Pick a cluster from the neighbor list: the plurality cluster, but only if it has
    /// real support *and* the new face clears [`TAU_LINK`] against every member of it. A
    /// single near-duplicate neighbor is enough on its own. `None` means a singleton.
    fn vote(&self, q: &Vec<i32>, top: &Vec<(usize, i128)>) -> (chosen: Option<i64>)
        requires
            forall|p: int| 0 <= p < top@.len() ==> (#[trigger] top@[p]).0 < self.faces@.len(),
        ensures
            chosen == elected(self.model(), q@, top@),
    {
        if top.len() == 0 {
            return None;
        }
        if top[0].1 >= TAU_DUP {
            return Some(self.faces[top[0].0].cluster_id);
        }
        let mut most: usize = 0;
        for p in 0..top.len()
            invariant
                forall|p: int| 0 <= p < top@.len() ==> (#[trigger] top@[p]).0 < self.faces@.len(),
                forall|k: int|
                    0 <= k < p ==> votes(
                        self.model(),
                        top@,
                        self.model()[(#[trigger] top@[k]).0 as int].cluster_id,
                    ) <= most,
                most > 0 ==> exists|k: int|
                    0 <= k < p && votes(
                        self.model(),
                        top@,
                        self.model()[(#[trigger] top@[k]).0 as int].cluster_id,
                    ) == most,
        {
            let next: i64 = self.faces[top[p].0].cluster_id;
            assert(self.model()[top@[p as int].0 as int].cluster_id == next);
            let count: usize = self.count_votes(top, next);
            if count > most {
                most = count;
            }
        }
        for p in 0..top.len()
            invariant
                forall|p: int| 0 <= p < top@.len() ==> (#[trigger] top@[p]).0 < self.faces@.len(),
                forall|k: int|
                    0 <= k < top@.len() ==> votes(
                        self.model(),
                        top@,
                        self.model()[(#[trigger] top@[k]).0 as int].cluster_id,
                    ) <= most,
                most > 0 ==> exists|k: int|
                    0 <= k < top@.len() && votes(
                        self.model(),
                        top@,
                        self.model()[(#[trigger] top@[k]).0 as int].cluster_id,
                    ) == most,
                plurality(self.model(), q@, top@, p as nat) is None,
                top@.len() > 0,
                top@[0].1 < TAU_DUP,
        {
            let next: i64 = self.faces[top[p].0].cluster_id;
            assert(self.model()[top@[p as int].0 as int].cluster_id == next);
            let count: usize = self.count_votes(top, next);
            assert(unbeaten(self.model(), top@, next) <==> count == most);
            if count == most && count >= MIN_VOTE && self.links_every(q, next) {
                proof {
                    self.lemma_first_elected(q@, top@, p as nat + 1, top@.len());
                }
                return Some(next);
            }
        }
        None
    }

    /// Once a cluster is elected, later voters do not change that.
    proof fn lemma_first_elected(&self, q: Seq<i32>, top: Seq<(usize, i128)>, m: nat, n: nat)
        requires
            m <= n,
            plurality(self.model(), q, top, m) is Some,
        ensures
            plurality(self.model(), q, top, n) == plurality(self.model(), q, top, m),
        decreases n,
    {
        if m < n {
            self.lemma_first_elected(q, top, m, (n - 1) as nat);
        }
    }

    fn neighbors_of(&self, q: &Vec<i32>, photo: Option<i64>) -> (top: Vec<(usize, i128)>)
        ensures
            top@ == best(voters(self.model(), q@, photo, self.faces@.len())),
    {
        let mut top: Vec<(usize, i128)> = Vec::new();
        for k in 0..self.faces.len()
            invariant
                top@ == best(voters(self.model(), q@, photo, k as nat)),
                descending(top@),
        {
            let s: i128 = cos(q.as_slice(), self.faces[k].embedding.as_slice());
            let face = &self.faces[k];
            assert(self.model()[k as int] == face@);
            proof {
                lemma_voters_descending(self.model(), q@, photo, k as nat);
            }
            if s >= TAU_LINK && !self.photo_taken(face.cluster_id, photo) {
                proof {
                    lemma_best_placed(voters(self.model(), q@, photo, k as nat), (k, s));
                }
                push_topk(&mut top, k, s);
            }
        }
        top
    }

    fn insert(&mut self, emb: &[i32], photo: Option<i64>) -> (cid: i64)
        requires
            old(self).wf(),
            old(self).next_id < i64::MAX,
        ensures
            final(self).wf(),
            cid == (match joins(old(self).model(), emb@, photo) {
                Some(c) => c,
                None => old(self).next_id,
            }),
            final(self).model() == old(self).model().push(
                IndexedFaceView { cluster_id: cid, photo_id: photo, embedding: unit(emb@) },
            ),
            final(self).next_id == old(self).next_id + if joins(
                old(self).model(),
                emb@,
                photo,
            ) is None {
                1int
            } else {
                0
            },
    {
        let q = normalized(emb);
        let top = self.neighbors_of(&q, photo);
        proof {
            assert(self.faces.len() <= usize::MAX);
            assert(q.len() <= usize::MAX);
            lemma_joins(self.model(), q@, photo);
        }
        let chosen = self.vote(&q, &top);
        let cid: i64 = match chosen {
            Some(c) => c,
            None => {
                let fresh: i64 = self.next_id;
                self.next_id = fresh + 1;
                fresh
            },
        };
        proof {
            if chosen is Some {
                let k = choose|k: int|
                    0 <= k < self.model().len() && (#[trigger] self.model()[k]).cluster_id == cid;
                assert(self.faces@[k].cluster_id == cid);
            }
        }
        self.faces.push(IndexedFace { cluster_id: cid, photo_id: photo, embedding: q });
        assert(self.model() =~= old(self).model().push(
            IndexedFaceView { cluster_id: cid, photo_id: photo, embedding: unit(emb@) },
        ));
        cid
    }

    /// Assign a new embedding by majority vote among its nearest clustered faces: no
    /// centroid, so no single face can drag a cluster. Returns the cluster id (an
    /// existing one, or a fresh singleton). The face is remembered so later faces in the
    /// same batch can match against it.
    pub fn assign(&mut self, emb: &[i32]) -> (cid: i64)
        requires
            old(self).wf(),
            old(self).next_id < i64::MAX,
        ensures
            final(self).wf(),
            cid == (match joins(old(self).model(), emb@, None) {
                Some(c) => c,
                None => old(self).next_id,
            }),
            final(self).model() == old(self).model().push(
                IndexedFaceView { cluster_id: cid, photo_id: None, embedding: unit(emb@) },
            ),
            final(self).next_id == old(self).next_id + if joins(
                old(self).model(),
                emb@,
                None,
            ) is None {
                1int
            } else {
                0
            },
    {
        self.insert(emb, None)
    }

    /// [`assign`](Self::assign) for a face of a known photo: a cluster that already
    /// holds a face of that photo is not joined.
    pub fn assign_in_photo(&mut self, emb: &[i32], photo_id: i64) -> (cid: i64)
        requires
            old(self).wf(),
            old(self).next_id < i64::MAX,
        ensures
            final(self).wf(),
            cid == (match joins(old(self).model(), emb@, Some(photo_id)) {
                Some(c) => c,
                None => old(self).next_id,
            }),
            final(self).model() == old(self).model().push(
                IndexedFaceView {
                    cluster_id: cid,
                    photo_id: Some(photo_id),
                    embedding: unit(emb@),
                },
            ),
            final(self).next_id == old(self).next_id + if joins(
                old(self).model(),
                emb@,
                Some(photo_id),
            ) is None {
                1int
            } else {
                0
            },
    {
        self.insert(emb, Some(photo_id))
    }
}

pub proof fn lemma_voters(faces: Seq<IndexedFaceView>, q: Seq<i32>, photo: Option<i64>, n: nat)
    requires
        n <= faces.len(),
        faces.len() <= usize::MAX,
        q.len() <= usize::MAX,
    ensures
        are_voters(faces, q, photo, voters(faces, q, photo, n)),
    decreases n,
{
    if n > 0 {
        let k = n - 1;
        lemma_voters(faces, q, photo, k as nat);
        lemma_dot_fits(q, faces[k].embedding);
        let earlier = voters(faces, q, photo, k as nat);
        let now = voters(faces, q, photo, n);
        let entry = (k as usize, dot(q, faces[k].embedding) as i128);
        lemma_voters_descending(faces, q, photo, k as nat);
        lemma_place(earlier, entry.1);
        let at = place(earlier, entry.1) as int;
        if now != earlier {
            assert(now == earlier.insert(at, entry));
            assert forall|p: int| 0 <= p < now.len() implies {
                &&& (#[trigger] now[p]).0 < faces.len()
                &&& now[p].1 == dot(q, faces[now[p].0 as int].embedding)
                &&& !in_photo(faces, faces[now[p].0 as int].cluster_id, photo)
            } by {
                if p < at {
                    assert(now[p] == earlier[p]);
                } else if p > at {
                    assert(now[p] == earlier[p - 1]);
                }
            }
        }
    }
}

pub proof fn lemma_plurality(faces: Seq<IndexedFaceView>, q: Seq<i32>, top: Seq<(usize, i128)>, n: nat)
    requires
        n <= top.len(),
    ensures
        plurality(faces, q, top, n) matches Some(c) ==> electable(faces, q, top, c) && exists|p: int|
            0 <= p < top.len() && c == faces[(#[trigger] top[p]).0 as int].cluster_id,
    decreases n,
{
    if n > 0 {
        lemma_plurality(faces, q, top, (n - 1) as nat);
        let next = faces[top[n - 1].0 as int].cluster_id;
        assert(next == faces[top[n - 1].0 as int].cluster_id);
    }
}

/// What holds of a cluster that is joined.
proof fn lemma_joins(faces: Seq<IndexedFaceView>, q: Seq<i32>, photo: Option<i64>)
    requires
        faces.len() <= usize::MAX,
        q.len() <= usize::MAX,
    ensures
        are_voters(faces, q, photo, best(voters(faces, q, photo, faces.len()))),
        elected(faces, q, best(voters(faces, q, photo, faces.len()))) matches Some(c) ==> {
            &&& exists|k: int| 0 <= k < faces.len() && (#[trigger] faces[k]).cluster_id == c
            &&& !in_photo(faces, c, photo)
            &&& links_all(faces, q, c) || exists|k: int|
                0 <= k < faces.len() && (#[trigger] faces[k]).cluster_id == c && dot(
                    q,
                    faces[k].embedding,
                ) >= TAU_DUP
        },
{
    let all = voters(faces, q, photo, faces.len());
    let top = best(all);
    lemma_voters(faces, q, photo, faces.len());
    assert(are_voters(faces, q, photo, top)) by {
        assert forall|p: int| 0 <= p < top.len() implies {
            &&& (#[trigger] top[p]).0 < faces.len()
            &&& top[p].1 == dot(q, faces[top[p].0 as int].embedding)
            &&& !in_photo(faces, faces[top[p].0 as int].cluster_id, photo)
        } by {
            assert(top[p] == all[p]);
        }
    }
    if let Some(c) = elected(faces, q, top) {
        if top[0].1 >= TAU_DUP {
            assert(faces[top[0].0 as int].cluster_id == c);
        } else {
            lemma_plurality(faces, q, top, top.len());
            let p = choose|p: int|
                0 <= p < top.len() && c == faces[(#[trigger] top[p]).0 as int].cluster_id;
            assert(faces[top[p].0 as int].cluster_id == c);
        }
    }
}

/// **Incremental purity.** A face joins an existing cluster only if it clears
/// [`TAU_LINK`] against every member, or nearly duplicates one of them; and never a
/// cluster that already holds a face of its photo.
pub proof fn law_joined_cluster_stays_pure(
    faces: Seq<IndexedFaceView>,
    emb: Seq<i32>,
    photo: Option<i64>,
    cluster: i64,
)
    requires
        faces.len() <= usize::MAX,
        emb.len() <= usize::MAX,
        joins(faces, emb, photo) == Some(cluster),
    ensures
        links_all(faces, unit(emb), cluster) || exists|k: int|
            0 <= k < faces.len() && (#[trigger] faces[k]).cluster_id == cluster && dot(
                unit(emb),
                faces[k].embedding,
            ) >= TAU_DUP,
        !in_photo(faces, cluster, photo),
        exists|k: int| 0 <= k < faces.len() && (#[trigger] faces[k]).cluster_id == cluster,
{
    lemma_joins(faces, unit(emb), photo);
}

proof fn lemma_no_voters(faces: Seq<IndexedFaceView>, q: Seq<i32>, photo: Option<i64>, n: nat)
    requires
        n <= faces.len(),
        forall|k: int| 0 <= k < faces.len() ==> dot(q, (#[trigger] faces[k]).embedding) < TAU_LINK,
    ensures
        voters(faces, q, photo, n).len() == 0,
    decreases n,
{
    if n > 0 {
        lemma_no_voters(faces, q, photo, (n - 1) as nat);
        assert(dot(q, faces[n - 1].embedding) < TAU_LINK);
    }
}

/// **Outliers stand alone.** A face that is not similar to any clustered face joins no
/// cluster.
pub proof fn law_outlier_joins_nothing(
    faces: Seq<IndexedFaceView>,
    emb: Seq<i32>,
    photo: Option<i64>,
)
    requires
        forall|k: int|
            0 <= k < faces.len() ==> dot(unit(emb), (#[trigger] faces[k]).embedding) < TAU_LINK,
    ensures
        joins(faces, emb, photo) is None,
{
    lemma_no_voters(faces, unit(emb), photo, faces.len());
}

proof fn lemma_plurality_is_electable(
    faces: Seq<IndexedFaceView>,
    q: Seq<i32>,
    top: Seq<(usize, i128)>,
    n: nat,
)
    ensures
        plurality(faces, q, top, n) matches Some(c) ==> electable(faces, q, top, c),
    decreases n,
{
    if n > 0 {
        lemma_plurality_is_electable(faces, q, top, (n - 1) as nat);
    }
}

/// **Only the plurality is joined.** Unless a near-duplicate decides alone, a face joins the
/// cluster with the most votes among its nearest neighbors, and only with real support.
pub proof fn law_only_the_plurality_is_joined(
    faces: Seq<IndexedFaceView>,
    emb: Seq<i32>,
    photo: Option<i64>,
    cluster: i64,
)
    requires
        joins(faces, emb, photo) == Some(cluster),
    ensures
        ({
            let top = best(voters(faces, unit(emb), photo, faces.len()));
            &&& top.len() > 0
            &&& top[0].1 < TAU_DUP ==> unbeaten(faces, top, cluster) && votes(faces, top, cluster)
                >= MIN_VOTE
            &&& top[0].1 >= TAU_DUP ==> faces[top[0].0 as int].cluster_id == cluster
        }),
{
    let top = best(voters(faces, unit(emb), photo, faces.len()));
    lemma_plurality_is_electable(faces, unit(emb), top, top.len());
}

} // verus!
