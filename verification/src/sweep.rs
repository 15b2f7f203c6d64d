//! The background face sweep: what its coordinator decides.
//!
//! A pool of workers decodes, detects and embeds; one coordinator hands out the photos,
//! assigns each found face to a cluster and saves it.

use vstd::prelude::*;

use crate::cluster_index::{joins, law_joined_cluster_stays_pure, ClusterIndex, IndexedFaceView};
use crate::faces::{all_saved, save_faces, scanned, DetectedFace};
use crate::library::{Library, LibraryView};
use crate::similarity::unit;

verus! {

/// How many face workers detect and embed in parallel.
pub const FACE_WORKERS: usize = 4;

/// The jobs that are kept in flight, so that a worker rarely waits for the next one.
pub const TARGET_OUTSTANDING: usize = 8;

/// How many photos are claimed at once.
pub const CLAIM_BATCH: i64 = 8;

/// The clusters of a photo's faces, assigned one after the other: the cluster ids, the
/// faces that are known afterwards, and the next fresh id.
pub open spec fn assigned(
    faces: Seq<IndexedFaceView>,
    next_id: int,
    photo_id: i64,
    found: Seq<DetectedFace>,
) -> (Seq<i64>, Seq<IndexedFaceView>, int)
    decreases found.len(),
{
    if found.len() == 0 {
        (Seq::empty(), faces, next_id)
    } else {
        let (ids, known, next) = assigned(faces, next_id, photo_id, found.drop_last());
        let emb = found.last().embedding@;
        let cluster_id = match joins(known, emb, Some(photo_id)) {
            Some(c) => c,
            None => next as i64,
        };
        (
            ids.push(cluster_id),
            known.push(
                IndexedFaceView { cluster_id, photo_id: Some(photo_id), embedding: unit(emb) },
            ),
            if joins(known, emb, Some(photo_id)) is None {
                next + 1
            } else {
                next
            },
        )
    }
}

/// Assign a photo's faces to clusters, in order: each joins the cluster it resembles, or
/// starts a fresh one.
pub fn assign_faces(index: &mut ClusterIndex, photo_id: i64, found: &Vec<DetectedFace>) -> (ids: Vec<
    i64,
>)
    requires
        old(index).wf(),
        old(index).next_id + found@.len() <= i64::MAX,
    ensures
        final(index).wf(),
        ids@ == assigned(old(index).model(), old(index).next_id as int, photo_id, found@).0,
        final(index).model() == assigned(
            old(index).model(),
            old(index).next_id as int,
            photo_id,
            found@,
        ).1,
        final(index).next_id == assigned(
            old(index).model(),
            old(index).next_id as int,
            photo_id,
            found@,
        ).2,
        ids@.len() == found@.len(),
{
    let ghost start = index.model();
    let ghost first = index.next_id as int;
    let mut ids: Vec<i64> = Vec::with_capacity(found.len());
    for k in 0..found.len()
        invariant
            index.wf(),
            first + found@.len() <= i64::MAX,
            first <= index.next_id <= first + k,
            ids@.len() == k,
            (ids@, index.model(), index.next_id as int) == assigned(
                start,
                first,
                photo_id,
                found@.take(k as int),
            ),
    {
        assert(found@.take(k + 1).drop_last() == found@.take(k as int));
        ids.push(index.assign_in_photo(found[k].embedding.as_slice(), photo_id));
    }
    assert(found@.take(found@.len() as int) == found@);
    ids
}

/// A photo's faces were found: assign clusters and save. The photo is scanned even if
/// nothing was found in it, so that it is never looked at again.
pub fn record_faces(
    lib: &mut Library,
    index: &mut ClusterIndex,
    photo_id: i64,
    found: &Vec<DetectedFace>,
)
    requires
        old(lib).wf(),
        old(index).wf(),
        old(index).next_id + found@.len() <= i64::MAX,
        old(lib)@.last_face() + found@.len() <= i64::MAX,
    ensures
        final(lib).wf(),
        final(index).wf(),
        final(lib)@ == (LibraryView {
            faces: old(lib)@.faces + all_saved(
                found@,
                assigned(old(index).model(), old(index).next_id as int, photo_id, found@).0,
                old(lib)@.last_face(),
                photo_id,
                found@.len(),
            ),
            ..old(lib)@
        }).with_photo_marks(scanned(photo_id)),
        final(index).model() == assigned(
            old(index).model(),
            old(index).next_id as int,
            photo_id,
            found@,
        ).1,
        final(index).next_id == assigned(
            old(index).model(),
            old(index).next_id as int,
            photo_id,
            found@,
        ).2,
{
    let ids = assign_faces(index, photo_id, found);
    save_faces(lib, photo_id, found, &ids);
}

/// What the coordinator does when nothing finished for a while.
#[derive(Clone, Copy, PartialEq, Eq, Structural, Debug)]
pub enum Idle {
    /// Photos are in flight: keep waiting for them.
    Wait,
    /// The sweep has drained and left faces that were assigned one by one: run a full
    /// re-cluster, and load the index anew.
    Consolidate,
    /// The sweep has drained: look for new photos later.
    Rest,
}

/// The coordinator's counts.
#[derive(Clone, Copy, PartialEq, Eq, Structural, Debug)]
pub struct Sweep {
    /// Photos handed out and not finished.
    pub outstanding: usize,
    /// Faces assigned one by one since the last full re-cluster.
    pub unconsolidated: u64,
}

impl Sweep {
    /// What to do when nothing finished for a while.
    pub open spec fn next_step(self, reclustering: bool) -> Idle {
        if self.outstanding > 0 {
            Idle::Wait
        } else if self.unconsolidated > 0 && !reclustering {
            Idle::Consolidate
        } else {
            Idle::Rest
        }
    }

    /// Nothing is handed out.
    pub fn new() -> (s: Self)
        ensures
            s == (Sweep { outstanding: 0, unconsolidated: 0 }),
    {
        Sweep { outstanding: 0, unconsolidated: 0 }
    }

    /// Whether another batch of photos is to be claimed.
    pub fn wants_more(&self) -> (r: bool)
        ensures
            r == (self.outstanding < TARGET_OUTSTANDING),
    {
        self.outstanding < TARGET_OUTSTANDING
    }

    /// Photos were handed out.
    pub fn hand_out(&mut self, photos: usize)
        requires
            old(self).outstanding + photos <= usize::MAX,
        ensures
            *final(self) == (Sweep {
                outstanding: (old(self).outstanding + photos) as usize,
                ..*old(self)
            }),
    {
        self.outstanding = self.outstanding + photos;
    }

    /// A photo is finished, with so many faces in it.
    pub fn finish(&mut self, faces: usize)
        requires
            old(self).outstanding > 0,
            old(self).unconsolidated + faces <= u64::MAX,
        ensures
            *final(self) == (Sweep {
                outstanding: (old(self).outstanding - 1) as usize,
                unconsolidated: (old(self).unconsolidated + faces) as u64,
            }),
    {
        self.outstanding = self.outstanding - 1;
        self.unconsolidated = self.unconsolidated + faces as u64;
    }

    /// What to do when nothing finished for a while. A re-cluster that is already running
    /// is not doubled.
    pub fn idle(&self, reclustering: bool) -> (step: Idle)
        ensures
            step == self.next_step(reclustering),
            step is Wait <==> self.outstanding > 0,
            step is Consolidate <==> self.outstanding == 0 && self.unconsolidated > 0
                && !reclustering,
    {
        if self.outstanding > 0 {
            Idle::Wait
        } else if self.unconsolidated > 0 && !reclustering {
            Idle::Consolidate
        } else {
            Idle::Rest
        }
    }

    /// A full re-cluster ran.
    pub fn consolidated(&mut self)
        ensures
            *final(self) == (Sweep { unconsolidated: 0, ..*old(self) }),
    {
        self.unconsolidated = 0;
    }
}

/// Two faces of one photo never end up in one cluster by the incremental path.
pub proof fn law_faces_of_a_photo_part(
    faces: Seq<IndexedFaceView>,
    next_id: int,
    photo_id: i64,
    found: Seq<DetectedFace>,
    i: int,
    j: int,
)
    requires
        0 <= i < j < found.len(),
        faces.len() + found.len() <= usize::MAX,
        next_id + found.len() <= i64::MAX,
        0 <= next_id,
        forall|k: int| 0 <= k < faces.len() ==> (#[trigger] faces[k]).cluster_id < next_id,
        forall|k: int| 0 <= k < found.len() ==> (#[trigger] found[k]).embedding@.len() <= usize::MAX,
    ensures
        assigned(faces, next_id, photo_id, found).0[i] != assigned(
            faces,
            next_id,
            photo_id,
            found,
        ).0[j],
    decreases found.len(),
{
    lemma_assigned(faces, next_id, photo_id, found.drop_last());
    let (ids, known, next) = assigned(faces, next_id, photo_id, found.drop_last());
    if j < found.len() - 1 {
        law_faces_of_a_photo_part(faces, next_id, photo_id, found.drop_last(), i, j);
    } else {
        let emb = found.last().embedding@;
        let k = faces.len() + i;
        assert(known[k].cluster_id == ids[i] && known[k].photo_id == Some(photo_id));
        assert(found.last() == found[found.len() - 1]);
        match joins(known, emb, Some(photo_id)) {
            Some(c) => {
                law_joined_cluster_stays_pure(known, emb, Some(photo_id), c);
            },
            None => {},
        }
    }
}

proof fn lemma_assigned(
    faces: Seq<IndexedFaceView>,
    next_id: int,
    photo_id: i64,
    found: Seq<DetectedFace>,
)
    requires
        faces.len() + found.len() <= usize::MAX,
        next_id + found.len() <= i64::MAX,
        0 <= next_id,
        forall|k: int| 0 <= k < faces.len() ==> (#[trigger] faces[k]).cluster_id < next_id,
        forall|k: int| 0 <= k < found.len() ==> (#[trigger] found[k]).embedding@.len() <= usize::MAX,
    ensures
        ({
            let (ids, known, next) = assigned(faces, next_id, photo_id, found);
            &&& ids.len() == found.len()
            &&& known.len() == faces.len() + found.len()
            &&& next_id <= next <= next_id + found.len()
            &&& forall|k: int| 0 <= k < known.len() ==> (#[trigger] known[k]).cluster_id < next
            &&& forall|k: int|
                0 <= k < found.len() ==> (#[trigger] known[faces.len() + k]).cluster_id == ids[k]
                    && known[faces.len() + k].photo_id == Some(photo_id)
        }),
    decreases found.len(),
{
    if found.len() > 0 {
        let front = found.drop_last();
        assert forall|k: int| 0 <= k < front.len() implies (
        #[trigger] front[k]).embedding@.len() <= usize::MAX by {
            assert(front[k] == found[k]);
        }
        lemma_assigned(faces, next_id, photo_id, front);
        let (ids0, known0, next0) = assigned(faces, next_id, photo_id, front);
        let (ids, known, next) = assigned(faces, next_id, photo_id, found);
        let emb = found.last().embedding@;
        assert(found.last() == found[found.len() - 1]);
        assert forall|k: int| 0 <= k < known.len() implies (#[trigger] known[k]).cluster_id < next by {
            if k < known0.len() {
                assert(known[k] == known0[k]);
            } else {
                match joins(known0, emb, Some(photo_id)) {
                    Some(c) => {
                        law_joined_cluster_stays_pure(
                            known0,
                            emb,
                            Some(photo_id),
                            c,
                        );
                        let m = choose|m: int|
                            0 <= m < known0.len() && (#[trigger] known0[m]).cluster_id == c;
                        assert(known0[m].cluster_id < next0);
                    },
                    None => {},
                }
            }
        }
        assert forall|k: int| 0 <= k < found.len() implies (
        #[trigger] known[faces.len() + k]).cluster_id == ids[k] && known[faces.len() + k].photo_id
            == Some(photo_id) by {
            if k < front.len() {
                assert(known[faces.len() + k] == known0[faces.len() + k]);
                assert(ids[k] == ids0[k]);
            }
        }
    }
}

} // verus!
