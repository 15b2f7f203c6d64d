//! Detected faces: saving, grouping, correcting and forgetting them.

use vstd::prelude::*;

use crate::cluster::{lookup, lookup_last};
use crate::confirmations::copy_vec;
use crate::library::{
    faces_wf, mark_faces, mark_photos, pick_faces, Face, FaceBox, FaceMarks, FaceView, Library,
    LibraryView, Photo, PhotoMarks, PhotoView, STATUS_PENDING, STATUS_READY,
};
use crate::order::{arrange, arranged};
use crate::rows::{holds, kept, lemma_kept_len, retain_rows, select, tally, views};

verus! {

/// One detected face ready to save: bounding box, detector score, and the embedding.
pub struct DetectedFace {
    pub x1: i32,
    pub y1: i32,
    pub x2: i32,
    pub y2: i32,
    pub score: i64,
    pub embedding: Vec<i32>,
}

/// A detected face as it is saved.
pub open spec fn saved(d: DetectedFace, id: i64, photo_id: i64, cluster: i64) -> FaceView {
    FaceView {
        id,
        photo_id,
        bbox: FaceBox { x1: d.x1, y1: d.y1, x2: d.x2, y2: d.y2 },
        score: d.score,
        embedding: d.embedding@,
        marks: FaceMarks {
            cluster_id: Some(cluster),
            identity_id: None,
            ignored: false,
            confirmed: false,
        },
    }
}

/// The first `n` detected faces as they are saved, with ids after `last`.
pub open spec fn all_saved(
    found: Seq<DetectedFace>,
    clusters: Seq<i64>,
    last: i64,
    photo_id: i64,
    n: nat,
) -> Seq<FaceView> {
    Seq::new(n, |k: int| saved(found[k], (last + 1 + k) as i64, photo_id, clusters[k]))
}

/// Marks one photo as scanned for faces.
pub open spec fn scanned(photo_id: i64) -> spec_fn(PhotoView) -> PhotoMarks {
    |p: PhotoView|
        if p.id == photo_id {
            PhotoMarks { faces_scanned: 1, ..p.marks }
        } else {
            p.marks
        }
}

/// Save a photo's detected faces (each with its assigned cluster id) and mark the photo
/// scanned. Faces without a cluster id, and cluster ids without a face, are left out.
pub fn save_faces(lib: &mut Library, photo_id: i64, found: &Vec<DetectedFace>, cluster_ids: &Vec<i64>)
    requires
        old(lib).wf(),
        old(lib)@.last_face() + found@.len() <= i64::MAX,
    ensures
        final(lib)@ == ({
            let n = if found@.len() <= cluster_ids@.len() {
                found@.len()
            } else {
                cluster_ids@.len()
            };
            LibraryView {
                faces: old(lib)@.faces + all_saved(
                    found@,
                    cluster_ids@,
                    old(lib)@.last_face(),
                    photo_id,
                    n,
                ),
                ..old(lib)@
            }.with_photo_marks(scanned(photo_id))
        }),
        final(lib).wf(),
{
    let n: usize = if found.len() <= cluster_ids.len() {
        found.len()
    } else {
        cluster_ids.len()
    };
    let ghost before = lib@;
    let held: usize = lib.faces.len();
    let last: i64 = if held == 0 {
        0
    } else {
        lib.faces[held - 1].id
    };
    assert(last == before.last_face()) by {
        if held > 0 {
            assert(before.faces[held - 1] == lib.faces@[held - 1]@);
        }
    }
    let ghost all = all_saved(found@, cluster_ids@, last, photo_id, n as nat);
    assert(lib@.faces =~= before.faces + all.take(0));
    for k in 0..n
        invariant
            n <= found@.len(),
            n <= cluster_ids@.len(),
            last >= 0,
            last + found@.len() <= i64::MAX,
            all == all_saved(found@, cluster_ids@, last, photo_id, n as nat),
            lib@ == (LibraryView { faces: before.faces + all.take(k as int), ..before }),
    {
        let d = &found[k];
        let id: i64 = last + 1 + k as i64;
        let face = Face {
            id,
            photo_id,
            bbox: FaceBox { x1: d.x1, y1: d.y1, x2: d.x2, y2: d.y2 },
            score: d.score,
            embedding: copy_vec(&d.embedding),
            marks: FaceMarks {
                cluster_id: Some(cluster_ids[k]),
                identity_id: None,
                ignored: false,
                confirmed: false,
            },
        };
        assert(face@ == all[k as int]);
        let ghost was = lib@.faces;
        lib.faces.push(face);
        assert(lib@.faces =~= was.push(all[k as int]));
        assert(all.take(k + 1) =~= all.take(k as int).push(all[k as int]));
        assert(lib@.faces =~= before.faces + all.take(k + 1));
    }
    proof {
        assert(all.take(n as int) =~= all);
        let after = lib@.faces;
        assert forall|i: int, j: int| 0 <= i < j < after.len() implies (#[trigger] after[i]).id < (
        #[trigger] after[j]).id by {
            if i < held && j >= held {
                if i < held - 1 {
                    assert(before.faces[i].id < before.faces[held - 1].id);
                }
            }
        }
    }
    let mark = |p: &Photo| -> (m: PhotoMarks)
        ensures
            m == scanned(photo_id)(p@),
        {
            if p.id == photo_id {
                PhotoMarks { faces_scanned: 1, ..p.marks }
            } else {
                p.marks
            }
        };
    mark_photos(lib, mark, Ghost(scanned(photo_id)));
}

/// Picks a clustered face: its cluster, photo and embedding.
pub open spec fn clustered() -> spec_fn(FaceView) -> Option<(i64, i64, Seq<i32>)> {
    |f: FaceView|
        match f.marks.cluster_id {
            Some(c) => Some((c, f.photo_id, f.embedding)),
            None => None,
        }
}

/// `(cluster_id, photo_id, embedding)` for every already-clustered face, to rebuild the
/// in-memory cluster index.
pub fn clustered_embeddings(lib: &Library) -> (out: Vec<(i64, i64, Vec<i32>)>)
    ensures
        views(out@) == select(lib@.faces, clustered()),
{
    let ghost all = lib@.faces;
    let mut out: Vec<(i64, i64, Vec<i32>)> = Vec::new();
    assert(views(out@) =~= select(all.take(0), clustered()));
    for i in 0..lib.faces.len()
        invariant
            all == lib@.faces,
            views(out@) == select(all.take(i as int), clustered()),
    {
        assert(all.take(i + 1).drop_last() == all.take(i as int));
        let face = &lib.faces[i];
        assert(all[i as int] == face@);
        if let Some(c) = face.marks.cluster_id {
            out.push((c, face.photo_id, copy_vec(&face.embedding)));
        }
        assert(views(out@) =~= select(all.take(i + 1), clustered()));
    }
    assert(all.take(all.len() as int) == all);
    out
}

/// Picks a clustered face: its id and embedding.
pub open spec fn in_pool() -> spec_fn(FaceView) -> Option<(i64, Seq<i32>)> {
    |f: FaceView|
        match f.marks.cluster_id {
            Some(_) => Some((f.id, f.embedding)),
            None => None,
        }
}

/// `(face_id, embedding)` for every face that still belongs to a cluster: the input to
/// a full re-cluster. Faces without a cluster were taken out and must stay out.
pub fn all_face_embeddings(lib: &Library) -> (out: Vec<(i64, Vec<i32>)>)
    ensures
        views(out@) == select(lib@.faces, in_pool()),
{
    let ghost all = lib@.faces;
    let mut out: Vec<(i64, Vec<i32>)> = Vec::new();
    assert(views(out@) =~= select(all.take(0), in_pool()));
    for i in 0..lib.faces.len()
        invariant
            all == lib@.faces,
            views(out@) == select(all.take(i as int), in_pool()),
    {
        assert(all.take(i + 1).drop_last() == all.take(i as int));
        let face = &lib.faces[i];
        assert(all[i as int] == face@);
        if face.marks.cluster_id.is_some() {
            out.push((face.id, copy_vec(&face.embedding)));
        }
        assert(views(out@) =~= select(all.take(i + 1), in_pool()));
    }
    assert(all.take(all.len() as int) == all);
    out
}

/// Tests for a clustered face of the photo.
pub open spec fn clustered_in(photo_id: i64) -> spec_fn(FaceView) -> bool {
    |f: FaceView| f.photo_id == photo_id && f.marks.cluster_id is Some
}

/// A clustered face and where it is: photo, face, box.
#[derive(Clone, Copy, PartialEq, Eq, Structural, Debug)]
pub struct PlacedFace {
    pub photo_id: i64,
    pub face_id: i64,
    pub bbox: FaceBox,
}

/// Picks the clustered faces of photos that hold two or more of them.
pub open spec fn crowded(faces: Seq<FaceView>) -> spec_fn(FaceView) -> Option<PlacedFace> {
    |f: FaceView|
        if f.marks.cluster_id is Some && tally(faces, clustered_in(f.photo_id)) > 1 {
            Some(PlacedFace { photo_id: f.photo_id, face_id: f.id, bbox: f.bbox })
        } else {
            None
        }
}

/// How placed faces are ranked: by photo, then by id.
pub open spec fn by_photo() -> spec_fn(PlacedFace) -> (i128, i128, i128) {
    |f: PlacedFace| (0, f.photo_id as i128, f.face_id as i128)
}

/// The clustered faces of crowded photos, by photo.
pub open spec fn crowded_faces(faces: Seq<FaceView>) -> Seq<PlacedFace> {
    let all = select(faces, crowded(faces));
    arranged(all, all.map_values(by_photo()))
}

fn count_clustered_in(lib: &Library, photo_id: i64) -> (n: usize)
    ensures
        n == tally(lib@.faces, clustered_in(photo_id)),
{
    let ghost all = lib@.faces;
    let mut n: usize = 0;
    for i in 0..lib.faces.len()
        invariant
            all == lib@.faces,
            n == tally(all.take(i as int), clustered_in(photo_id)),
            n <= i,
    {
        assert(all.take(i + 1).drop_last() == all.take(i as int));
        assert(all[i as int] == lib.faces@[i as int]@);
        if lib.faces[i].photo_id == photo_id && lib.faces[i].marks.cluster_id.is_some() {
            n = n + 1;
        }
    }
    assert(all.take(all.len() as int) == all);
    n
}

/// Every clustered face in a photo that holds two or more of them, by photo: the raw
/// material for the same-photo exclusion.
pub fn multi_face_boxes(lib: &Library) -> (out: Vec<PlacedFace>)
    ensures
        out@ == crowded_faces(lib@.faces),
{
    let pick = |f: &Face| -> (b: Option<PlacedFace>)
        ensures
            b == crowded(lib@.faces)(f@),
        {
            if f.marks.cluster_id.is_some() && count_clustered_in(lib, f.photo_id) > 1 {
                Some(PlacedFace { photo_id: f.photo_id, face_id: f.id, bbox: f.bbox })
            } else {
                None
            }
        };
    let all = pick_faces(lib, pick, Ghost(crowded(lib@.faces)));
    let mut keys: Vec<(i128, i128, i128)> = Vec::with_capacity(all.len());
    for i in 0..all.len()
        invariant
            keys@ == all@.map_values(by_photo()).take(i as int),
    {
        keys.push((0, all[i].photo_id as i128, all[i].face_id as i128));
        assert(keys@ =~= all@.map_values(by_photo()).take(i + 1));
    }
    assert(keys@ =~= all@.map_values(by_photo()));
    arrange(&all, &keys)
}

/// Gives each listed face its cluster; the last entry for a face holds.
pub open spec fn reclustered(pairs: Seq<(i64, i64)>) -> spec_fn(FaceView) -> FaceMarks {
    |f: FaceView|
        match lookup(pairs, f.id) {
            Some(c) => FaceMarks { cluster_id: Some(c), ..f.marks },
            None => f.marks,
        }
}

/// Apply a full re-cluster: set every listed face's cluster id. Pairs are
/// `(face_id, cluster_id)`.
pub fn set_face_clusters(lib: &mut Library, pairs: &Vec<(i64, i64)>)
    requires
        old(lib).wf(),
    ensures
        final(lib)@ == old(lib)@.with_marks(reclustered(pairs@)),
        final(lib).wf(),
{
    let mark = |f: &Face| -> (m: FaceMarks)
        ensures
            m == reclustered(pairs@)(f@),
        {
            match lookup_last(pairs, f.id) {
                Some(c) => FaceMarks { cluster_id: Some(c), ..f.marks },
                None => f.marks,
            }
        };
    mark_faces(lib, mark, Ghost(reclustered(pairs@)));
}

/// A face's grouping before a correction, captured so the action can be undone exactly,
/// down to whether the face was ignored and whether the *user* had vouched for it.
#[derive(Clone, Copy, PartialEq, Eq, Structural, Debug)]
pub struct FaceState {
    pub face_id: i64,
    pub cluster_id: Option<i64>,
    pub identity_id: Option<i64>,
    pub ignored: bool,
    pub confirmed: bool,
}

impl FaceState {
    /// The marks a face had.
    pub open spec fn marks(&self) -> FaceMarks {
        FaceMarks {
            cluster_id: self.cluster_id,
            identity_id: self.identity_id,
            ignored: self.ignored,
            confirmed: self.confirmed,
        }
    }
}

/// The state of a face.
pub open spec fn state_of(f: FaceView) -> FaceState {
    FaceState {
        face_id: f.id,
        cluster_id: f.marks.cluster_id,
        identity_id: f.marks.identity_id,
        ignored: f.marks.ignored,
        confirmed: f.marks.confirmed,
    }
}

/// Picks the states of the listed faces.
pub open spec fn listed(ids: Seq<i64>) -> spec_fn(FaceView) -> Option<FaceState> {
    |f: FaceView|
        if ids.contains(f.id) {
            Some(state_of(f))
        } else {
            None
        }
}

/// Snapshot the current grouping of each face id, for undo.
pub fn capture_face_states(lib: &Library, face_ids: &Vec<i64>) -> (out: Vec<FaceState>)
    ensures
        out@ == select(lib@.faces, listed(face_ids@)),
{
    let pick = |f: &Face| -> (b: Option<FaceState>)
        ensures
            b == listed(face_ids@)(f@),
        {
            if holds(face_ids, f.id) {
                Some(
                    FaceState {
                        face_id: f.id,
                        cluster_id: f.marks.cluster_id,
                        identity_id: f.marks.identity_id,
                        ignored: f.marks.ignored,
                        confirmed: f.marks.confirmed,
                    },
                )
            } else {
                None
            }
        };
    pick_faces(lib, pick, Ghost(listed(face_ids@)))
}

/// The state last listed for a face.
pub open spec fn find_state(states: Seq<FaceState>, id: i64) -> Option<FaceState>
    decreases states.len(),
{
    if states.len() == 0 {
        None
    } else if states.last().face_id == id {
        Some(states.last())
    } else {
        find_state(states.drop_last(), id)
    }
}

fn last_state(states: &Vec<FaceState>, id: i64) -> (found: Option<FaceState>)
    ensures
        found == find_state(states@, id),
{
    let mut i: usize = states.len();
    assert(states@.take(i as int) == states@);
    while i > 0
        invariant
            i <= states@.len(),
            find_state(states@, id) == find_state(states@.take(i as int), id),
        decreases i,
    {
        i = i - 1;
        assert(states@.take(i + 1).drop_last() == states@.take(i as int));
        if states[i].face_id == id {
            return Some(states[i]);
        }
    }
    None
}

/// Gives each listed face its state back.
pub open spec fn restored(states: Seq<FaceState>) -> spec_fn(FaceView) -> FaceMarks {
    |f: FaceView|
        match find_state(states, f.id) {
            Some(s) => s.marks(),
            None => f.marks,
        }
}

/// Undo a correction: put each face back exactly where it was.
pub fn restore_face_states(lib: &mut Library, states: &Vec<FaceState>)
    requires
        old(lib).wf(),
    ensures
        final(lib)@ == old(lib)@.with_marks(restored(states@)),
        final(lib).wf(),
{
    let mark = |f: &Face| -> (m: FaceMarks)
        ensures
            m == restored(states@)(f@),
        {
            match last_state(states, f.id) {
                Some(s) => FaceMarks {
                    cluster_id: s.cluster_id,
                    identity_id: s.identity_id,
                    ignored: s.ignored,
                    confirmed: s.confirmed,
                },
                None => f.marks,
            }
        };
    mark_faces(lib, mark, Ghost(restored(states@)));
}

/// Picks a face's cluster.
pub open spec fn cluster_of_face() -> spec_fn(FaceView) -> Option<i64> {
    |f: FaceView| f.marks.cluster_id
}

/// The largest of a list, or zero for an empty one.
pub open spec fn maximum(list: Seq<i64>) -> i64
    decreases list.len(),
{
    if list.len() == 0 {
        0
    } else if list.len() == 1 {
        list[0]
    } else {
        let rest = maximum(list.drop_last());
        if list.last() > rest {
            list.last()
        } else {
            rest
        }
    }
}

/// The next free cluster id: above every one in use.
pub fn next_cluster_id(lib: &Library) -> (id: i64)
    requires
        maximum(select(lib@.faces, cluster_of_face())) < i64::MAX,
    ensures
        id == maximum(select(lib@.faces, cluster_of_face())) + 1,
{
    let pick = |f: &Face| -> (b: Option<i64>)
        ensures
            b == cluster_of_face()(f@),
        { f.marks.cluster_id };
    let all = pick_faces(lib, pick, Ghost(cluster_of_face()));
    let mut max: i64 = 0;
    for i in 0..all.len()
        invariant
            max == maximum(all@.take(i as int)),
    {
        assert(all@.take(i + 1).drop_last() == all@.take(i as int));
        if i == 0 || all[i] > max {
            max = all[i];
        }
    }
    assert(all@.take(all@.len() as int) == all@);
    max + 1
}

/// Moves the listed faces onto a person, confirmed.
pub open spec fn moved_to(ids: Seq<i64>, cluster: i64, identity: i64) -> spec_fn(
    FaceView,
) -> FaceMarks {
    |f: FaceView|
        if ids.contains(f.id) {
            FaceMarks {
                cluster_id: Some(cluster),
                identity_id: Some(identity),
                ignored: false,
                confirmed: true,
            }
        } else {
            f.marks
        }
}

/// Move a set of faces onto a person: set their cluster and durable identity, and clear
/// any `ignored` flag. A deliberate move is a user label, so it is confirmed.
pub fn set_faces_person(lib: &mut Library, face_ids: &Vec<i64>, cluster_id: i64, identity_id: i64)
    requires
        old(lib).wf(),
    ensures
        final(lib)@ == old(lib)@.with_marks(moved_to(face_ids@, cluster_id, identity_id)),
        final(lib).wf(),
{
    let mark = |f: &Face| -> (m: FaceMarks)
        ensures
            m == moved_to(face_ids@, cluster_id, identity_id)(f@),
        {
            if holds(face_ids, f.id) {
                FaceMarks {
                    cluster_id: Some(cluster_id),
                    identity_id: Some(identity_id),
                    ignored: false,
                    confirmed: true,
                }
            } else {
                f.marks
            }
        };
    mark_faces(lib, mark, Ghost(moved_to(face_ids@, cluster_id, identity_id)));
}

/// Binds the listed faces to a person, confirmed; their clusters stay.
pub open spec fn bound_to(ids: Seq<i64>, identity: i64) -> spec_fn(FaceView) -> FaceMarks {
    |f: FaceView|
        if ids.contains(f.id) {
            FaceMarks { identity_id: Some(identity), ignored: false, confirmed: true, ..f.marks }
        } else {
            f.marks
        }
}

/// Bind a set of faces to a person: a user label, so it is confirmed. Only the person
/// layer is written; the appearance clusters stay.
pub fn bind_faces(lib: &mut Library, face_ids: &Vec<i64>, identity_id: i64)
    requires
        old(lib).wf(),
    ensures
        final(lib)@ == old(lib)@.with_marks(bound_to(face_ids@, identity_id)),
        final(lib).wf(),
{
    let mark = |f: &Face| -> (m: FaceMarks)
        ensures
            m == bound_to(face_ids@, identity_id)(f@),
        {
            if holds(face_ids, f.id) {
                FaceMarks {
                    identity_id: Some(identity_id),
                    ignored: false,
                    confirmed: true,
                    ..f.marks
                }
            } else {
                f.marks
            }
        };
    mark_faces(lib, mark, Ghost(bound_to(face_ids@, identity_id)));
}

/// Takes the listed faces out of People.
pub open spec fn dropped(ids: Seq<i64>) -> spec_fn(FaceView) -> FaceMarks {
    |f: FaceView|
        if ids.contains(f.id) {
            FaceMarks { cluster_id: None, identity_id: None, ignored: true, ..f.marks }
        } else {
            f.marks
        }
}

/// Ignore a set of faces: drop them from People for good. They leave every grouping and
/// the overlay.
pub fn ignore_faces(lib: &mut Library, face_ids: &Vec<i64>)
    requires
        old(lib).wf(),
    ensures
        final(lib)@ == old(lib)@.with_marks(dropped(face_ids@)),
        final(lib).wf(),
{
    let mark = |f: &Face| -> (m: FaceMarks)
        ensures
            m == dropped(face_ids@)(f@),
        {
            if holds(face_ids, f.id) {
                FaceMarks { cluster_id: None, identity_id: None, ignored: true, ..f.marks }
            } else {
                f.marks
            }
        };
    mark_faces(lib, mark, Ghost(dropped(face_ids@)));
}

/// The last place of a value in a list; the list's length if it is not there.
pub open spec fn last_place(list: Seq<i64>, x: i64) -> int
    decreases list.len(),
{
    if !list.contains(x) {
        list.len() as int
    } else {
        choose|k: int|
            0 <= k < list.len() && list[k] == x && forall|j: int|
                k < j < list.len() ==> #[trigger] list[j] != x
    }
}

fn find_last(list: &Vec<i64>, x: i64) -> (at: usize)
    ensures
        at == last_place(list@, x),
        at <= list@.len(),
        at < list@.len() <==> list@.contains(x),
{
    let mut i: usize = list.len();
    while i > 0
        invariant
            i <= list@.len(),
            forall|j: int| i <= j < list@.len() ==> #[trigger] list@[j] != x,
        decreases i,
    {
        i = i - 1;
        if list[i] == x {
            proof {
                assert(list@.contains(x));
                let k = last_place(list@, x);
                assert(0 <= i < list@.len() && list@[i as int] == x && forall|j: int|
                    i < j < list@.len() ==> #[trigger] list@[j] != x);
                assert(k == i) by {
                    if k < i {
                        assert(list@[i as int] != x);
                    }
                }
            }
            return i;
        }
    }
    list.len()
}

/// Scatters the listed faces into fresh clusters, free of any person.
pub open spec fn scattered(ids: Seq<i64>, base: i64) -> spec_fn(FaceView) -> FaceMarks {
    |f: FaceView|
        if ids.contains(f.id) {
            FaceMarks {
                cluster_id: Some((base + last_place(ids, f.id)) as i64),
                identity_id: None,
                ignored: false,
                confirmed: false,
            }
        } else {
            f.marks
        }
}

/// Detach faces from their person without saying who they are: clear the identity and
/// scatter each into its own fresh cluster (starting at `base_cluster`). Unlike ignored
/// faces they stay in the pool.
pub fn detach_faces(lib: &mut Library, face_ids: &Vec<i64>, base_cluster: i64)
    requires
        old(lib).wf(),
        base_cluster + face_ids@.len() <= i64::MAX,
    ensures
        final(lib)@ == old(lib)@.with_marks(scattered(face_ids@, base_cluster)),
        final(lib).wf(),
{
    let mark = |f: &Face| -> (m: FaceMarks)
        ensures
            m == scattered(face_ids@, base_cluster)(f@),
        {
            let at = find_last(face_ids, f.id);
            if at < face_ids.len() {
                let cluster: i128 = base_cluster as i128 + at as i128;
                FaceMarks {
                    cluster_id: Some(cluster as i64),
                    identity_id: None,
                    ignored: false,
                    confirmed: false,
                }
            } else {
                f.marks
            }
        };
    mark_faces(lib, mark, Ghost(scattered(face_ids@, base_cluster)));
}

/// Frees the listed faces of their person; their clusters stay.
pub open spec fn freed(ids: Seq<i64>) -> spec_fn(FaceView) -> FaceMarks {
    |f: FaceView|
        if ids.contains(f.id) {
            FaceMarks { identity_id: None, ignored: false, confirmed: false, ..f.marks }
        } else {
            f.marks
        }
}

/// Free faces of their person without saying who they are. Only the person layer is
/// written: each falls back to its appearance cluster.
pub fn free_faces(lib: &mut Library, face_ids: &Vec<i64>)
    requires
        old(lib).wf(),
    ensures
        final(lib)@ == old(lib)@.with_marks(freed(face_ids@)),
        final(lib).wf(),
{
    let mark = |f: &Face| -> (m: FaceMarks)
        ensures
            m == freed(face_ids@)(f@),
        {
            if holds(face_ids, f.id) {
                FaceMarks { identity_id: None, ignored: false, confirmed: false, ..f.marks }
            } else {
                f.marks
            }
        };
    mark_faces(lib, mark, Ghost(freed(face_ids@)));
}

/// The face with an id.
pub open spec fn find_face(faces: Seq<FaceView>, id: i64) -> Option<FaceView>
    decreases faces.len(),
{
    if faces.len() == 0 {
        None
    } else if faces.last().id == id {
        Some(faces.last())
    } else {
        find_face(faces.drop_last(), id)
    }
}

/// The photo id and bounding box of a face, for cropping.
pub fn face_box(lib: &Library, face_id: i64) -> (found: Option<(i64, FaceBox)>)
    ensures
        found == (match find_face(lib@.faces, face_id) {
            Some(f) => Some((f.photo_id, f.bbox)),
            None => None,
        }),
{
    let ghost all = lib@.faces;
    let n: usize = lib.faces.len();
    let mut i: usize = n;
    assert(all.take(n as int) == all);
    while i > 0
        invariant
            all == lib@.faces,
            n == lib.faces@.len(),
            i <= n,
            find_face(all, face_id) == find_face(all.take(i as int), face_id),
        decreases i,
    {
        i = i - 1;
        assert(all.take(i + 1).drop_last() == all.take(i as int));
        assert(all.take(i + 1).last() == lib.faces@[i as int]@);
        if lib.faces[i].id == face_id {
            return Some((lib.faces[i].photo_id, lib.faces[i].bbox));
        }
    }
    None
}

/// Picks the faces of the listed photos.
pub open spec fn face_of(photo_ids: Seq<i64>) -> spec_fn(FaceView) -> Option<i64> {
    |f: FaceView|
        if photo_ids.contains(f.photo_id) {
            Some(f.id)
        } else {
            None
        }
}

/// Face ids belonging to the given photos, to clean their cached crops before the faces
/// are deleted.
pub fn face_ids_of_photos(lib: &Library, photo_ids: &Vec<i64>) -> (out: Vec<i64>)
    ensures
        out@ == select(lib@.faces, face_of(photo_ids@)),
{
    let pick = |f: &Face| -> (b: Option<i64>)
        ensures
            b == face_of(photo_ids@)(f@),
        {
            if holds(photo_ids, f.photo_id) {
                Some(f.id)
            } else {
                None
            }
        };
    pick_faces(lib, pick, Ghost(face_of(photo_ids@)))
}

/// Tests for a face of another photo.
pub open spec fn outside(photo_ids: Seq<i64>) -> spec_fn(FaceView) -> bool {
    |f: FaceView| !photo_ids.contains(f.photo_id)
}

pub proof fn lemma_kept_faces_wf(faces: Seq<FaceView>, test: spec_fn(FaceView) -> bool)
    requires
        faces_wf(faces),
    ensures
        faces_wf(kept(faces, test)),
        forall|p: int|
            0 <= p < kept(faces, test).len() ==> (#[trigger] kept(faces, test)[p]).id
                <= faces.last().id,
    decreases faces.len(),
{
    if faces.len() > 0 {
        let front = faces.drop_last();
        assert(faces_wf(front)) by {
            assert forall|i: int| 0 <= i < front.len() implies (#[trigger] front[i]).id >= 1 by {
                assert(front[i] == faces[i]);
            }
            assert forall|i: int, j: int| 0 <= i < j < front.len() implies (#[trigger] front[i]).id
                < (#[trigger] front[j]).id by {
                assert(front[i] == faces[i] && front[j] == faces[j]);
            }
        }
        lemma_kept_faces_wf(front, test);
        let rest = kept(front, test);
        let all = kept(faces, test);
        assert(faces[faces.len() - 1] == faces.last());
        assert forall|p: int| 0 <= p < rest.len() implies (#[trigger] rest[p]).id
            < faces.last().id by {
            assert(rest[p].id <= front.last().id);
            lemma_kept_len(front, test);
            assert(front.last() == faces[faces.len() - 2]);
            assert(faces[faces.len() - 2].id < faces[faces.len() - 1].id);
        }
        assert forall|i: int, j: int| 0 <= i < j < all.len() implies (#[trigger] all[i]).id < (
        #[trigger] all[j]).id by {
            assert(all[i] == rest[i]);
            if j < rest.len() {
                assert(all[j] == rest[j]);
            }
        }
        assert forall|p: int| 0 <= p < all.len() implies (#[trigger] all[p]).id
            <= faces.last().id && all[p].id >= 1 by {
            if p < rest.len() {
                assert(all[p] == rest[p]);
            }
        }
    }
}

/// Delete the faces belonging to a set of photos, so that none is left behind when the
/// photos go.
pub fn delete_faces_for_photos(lib: &mut Library, photo_ids: &Vec<i64>)
    requires
        old(lib).wf(),
    ensures
        final(lib)@ == (LibraryView {
            faces: kept(old(lib)@.faces, outside(photo_ids@)),
            ..old(lib)@
        }),
        final(lib).wf(),
{
    proof {
        lemma_kept_faces_wf(lib@.faces, outside(photo_ids@));
    }
    let test = |f: &Face| -> (b: bool)
        ensures
            b == outside(photo_ids@)(f@),
        { !holds(photo_ids, f.photo_id) };
    retain_rows(&mut lib.faces, test, Ghost(outside(photo_ids@)));
}

/// Re-arms the listed photos: to be scanned anew, and cached thumbnails to be redone.
pub open spec fn rearmed(ids: Seq<i64>) -> spec_fn(PhotoView) -> PhotoMarks {
    |p: PhotoView|
        if ids.contains(p.id) {
            PhotoMarks {
                faces_scanned: 0,
                status: if p.marks.status == STATUS_READY {
                    STATUS_PENDING
                } else {
                    p.marks.status
                },
                ..p.marks
            }
        } else {
            p.marks
        }
}

/// Re-arm the given photos for a fresh face sweep and thumbnail regeneration: drop
/// their faces, clear `faces_scanned`, and knock any cached thumbnail back to pending.
/// Cloud-only photos keep their status, so this doesn't trigger a mass download.
pub fn rearm_photos_for_redetect(lib: &mut Library, photo_ids: &Vec<i64>)
    requires
        old(lib).wf(),
    ensures
        final(lib)@ == (LibraryView {
            faces: kept(old(lib)@.faces, outside(photo_ids@)),
            ..old(lib)@
        }).with_photo_marks(rearmed(photo_ids@)),
        final(lib).wf(),
{
    delete_faces_for_photos(lib, photo_ids);
    let mark = |p: &Photo| -> (m: PhotoMarks)
        ensures
            m == rearmed(photo_ids@)(p@),
        {
            if holds(photo_ids, p.id) {
                let status: i64 = if p.marks.status == STATUS_READY {
                    STATUS_PENDING
                } else {
                    p.marks.status
                };
                PhotoMarks { faces_scanned: 0, status, ..p.marks }
            } else {
                p.marks
            }
        };
    mark_photos(lib, mark, Ghost(rearmed(photo_ids@)));
}

/// Forgets what is decided about a face: it becomes a cluster of its own.
pub open spec fn undecided() -> spec_fn(FaceView) -> FaceMarks {
    |f: FaceView|
        FaceMarks {
            cluster_id: Some(f.id),
            identity_id: None,
            ignored: false,
            confirmed: false,
        }
}

/// The library without any decision about its faces.
pub open spec fn decisions_cleared(lib: LibraryView) -> LibraryView {
    (LibraryView {
        identities: Seq::empty(),
        cluster_names: Seq::empty(),
        cannot_link: Seq::empty(),
        ..lib
    }).with_marks(undecided())
}

/// Clear every *decision* (identities, names, cannot-links) while keeping the detected
/// faces and their embeddings, and reset each face to its own singleton cluster, also
/// un-ignoring any. Same-photo exceptions are facts about photos, and stay.
pub fn clear_face_decisions(lib: &mut Library)
    requires
        old(lib).wf(),
    ensures
        final(lib)@ == (LibraryView {
            identities: Seq::empty(),
            cluster_names: Seq::empty(),
            cannot_link: Seq::empty(),
            ..old(lib)@
        }).with_marks(undecided()),
        final(lib)@ == decisions_cleared(old(lib)@),
        final(lib).wf(),
{
    lib.identities = Vec::new();
    lib.cluster_names = Vec::new();
    lib.cannot_link = Vec::new();
    assert(lib@.identities =~= Seq::empty());
    assert(lib@.cluster_names =~= Seq::empty());
    let mark = |f: &Face| -> (m: FaceMarks)
        ensures
            m == undecided()(f@),
        {
            FaceMarks {
                cluster_id: Some(f.id),
                identity_id: None,
                ignored: false,
                confirmed: false,
            }
        };
    mark_faces(lib, mark, Ghost(undecided()));
}

/// Marks a photo as not scanned for faces.
pub open spec fn unscanned() -> spec_fn(PhotoView) -> PhotoMarks {
    |p: PhotoView| PhotoMarks { faces_scanned: 0, ..p.marks }
}

/// The flag that a library was re-clustered since faces were first detected.
pub open spec fn recluster_flag() -> Seq<char> {
    "reclustered_v1"@
}

/// Tests for another flag than the re-cluster one.
pub open spec fn other_flag() -> spec_fn((Seq<char>, Seq<char>)) -> bool {
    |m: (Seq<char>, Seq<char>)| m.0 != recluster_flag()
}

/// The library without faces, every photo to be scanned again.
pub open spec fn faces_reset(lib: LibraryView) -> LibraryView {
    (LibraryView {
        faces: Seq::empty(),
        identities: Seq::empty(),
        cluster_names: Seq::empty(),
        cannot_link: Seq::empty(),
        same_photo_ok: Seq::empty(),
        meta: kept(lib.meta, other_flag()),
        ..lib
    }).with_photo_marks(unscanned())
}

/// Discard all detected faces and re-arm the sweep: for when the embedding pipeline
/// itself changes and every stored embedding is invalid. Decisions and the re-cluster
/// flag go too, since they speak of the old clusters.
pub fn reset_faces_for_recompute(lib: &mut Library)
    requires
        old(lib).wf(),
    ensures
        final(lib)@ == (LibraryView {
            faces: Seq::empty(),
            identities: Seq::empty(),
            cluster_names: Seq::empty(),
            cannot_link: Seq::empty(),
            same_photo_ok: Seq::empty(),
            meta: kept(old(lib)@.meta, other_flag()),
            ..old(lib)@
        }).with_photo_marks(unscanned()),
        final(lib)@ == faces_reset(old(lib)@),
        final(lib).wf(),
{
    lib.faces = Vec::new();
    lib.identities = Vec::new();
    lib.cluster_names = Vec::new();
    lib.cannot_link = Vec::new();
    lib.same_photo_ok = Vec::new();
    assert(lib@.faces =~= Seq::empty());
    assert(lib@.identities =~= Seq::empty());
    assert(lib@.cluster_names =~= Seq::empty());
    let flag = "reclustered_v1".to_owned();
    let test = |m: &(String, String)| -> (b: bool)
        ensures
            b == other_flag()(m@),
        { m.0 != flag };
    retain_rows(&mut lib.meta, test, Ghost(other_flag()));
    let mark = |p: &Photo| -> (m: PhotoMarks)
        ensures
            m == unscanned()(p@),
        { PhotoMarks { faces_scanned: 0, ..p.marks } };
    mark_photos(lib, mark, Ghost(unscanned()));
}

} // verus!
