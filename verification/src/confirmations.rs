//! What the user vouched for: confirmed faces and the persons they speak for.

use vstd::prelude::*;

use crate::library::{
    identities_wf, mark_faces, pick_faces, Face, FaceMarks, FaceView, IdentityView, Library,
    LibraryView,
};
use crate::names::{find_identity, is_named, name_of};
use crate::order::{arrange, arranged, limit_to, limited, order_of, sort_order};
use crate::rows::{distinct, equals, holds, occurrences, select, tally, without_repeats};
use crate::similarity::rows;

verus! {

/// Tests for a face of the cluster confirmed as someone other than `identity`.
pub open spec fn foreign(cluster: i64, identity: Option<i64>) -> spec_fn(FaceView) -> bool {
    |f: FaceView|
        {
            &&& f.marks.cluster_id == Some(cluster)
            &&& f.marks.confirmed
            &&& f.marks.identity_id is Some
            &&& f.marks.identity_id != identity
        }
}

/// True if the cluster holds faces the user confirmed under an identity other than
/// `identity`, so that absorbing it would swallow (part of) a different person. No
/// `identity` means any confirmed identity is foreign.
pub fn cluster_has_foreign_confirmed(lib: &Library, cluster_id: i64, identity: Option<i64>) -> (r:
    bool)
    ensures
        r == exists|i: int|
            0 <= i < lib@.faces.len() && foreign(cluster_id, identity)(#[trigger] lib@.faces[i]),
{
    let ghost all = lib@.faces;
    for i in 0..lib.faces.len()
        invariant
            all == lib@.faces,
            forall|k: int| 0 <= k < i ==> !foreign(cluster_id, identity)(#[trigger] all[k]),
    {
        let marks = lib.faces[i].marks;
        assert(all[i as int].marks == marks);
        if marks.cluster_id == Some(cluster_id) && marks.confirmed && marks.identity_id.is_some()
            && marks.identity_id != identity {
            assert(foreign(cluster_id, identity)(all[i as int]));
            return true;
        }
    }
    false
}

/// Like [`cluster_has_foreign_confirmed`], but only *named* identities count. Faces
/// confirmed under an unnamed competitor don't block an explicit assignment.
pub fn cluster_has_named_foreign_confirmed(
    lib: &Library,
    cluster_id: i64,
    identity: Option<i64>,
) -> (r: bool)
    ensures
        r == exists|i: int|
            0 <= i < lib@.faces.len() && foreign(cluster_id, identity)(#[trigger] lib@.faces[i])
                && name_of(lib@.identities, lib@.faces[i].marks.identity_id->0) is Some,
{
    let ghost all = lib@.faces;
    for i in 0..lib.faces.len()
        invariant
            all == lib@.faces,
            forall|k: int|
                0 <= k < i ==> !(foreign(cluster_id, identity)(#[trigger] all[k]) && name_of(
                    lib@.identities,
                    all[k].marks.identity_id->0,
                ) is Some),
    {
        let marks = lib.faces[i].marks;
        assert(all[i as int].marks == marks);
        if marks.cluster_id == Some(cluster_id) && marks.confirmed && marks.identity_id != identity {
            if let Some(id) = marks.identity_id {
                if is_named(lib, id) {
                    assert(foreign(cluster_id, identity)(all[i as int]));
                    return true;
                }
            }
        }
    }
    false
}

/// Rebinds the cluster's faces confirmed under an unnamed identity.
pub open spec fn adopt(lib: LibraryView, cluster: i64, identity: i64) -> spec_fn(
    FaceView,
) -> FaceMarks {
    |f: FaceView|
        if f.marks.cluster_id == Some(cluster) && f.marks.confirmed && f.marks.identity_id is Some
            && f.marks.identity_id != Some(identity) && (find_identity(
            lib.identities,
            f.marks.identity_id->0,
        ) matches Some(i) && i.name is None) {
            FaceMarks { identity_id: Some(identity), ..f.marks }
        } else {
            f.marks
        }
}

/// Rebind a cluster's faces confirmed under *unnamed* identities to `new_identity`, as
/// when the user explicitly assigns the cluster to a person.
pub fn adopt_unnamed_confirmed(lib: &mut Library, cluster_id: i64, new_identity: i64)
    requires
        old(lib).wf(),
    ensures
        final(lib)@ == old(lib)@.with_marks(adopt(old(lib)@, cluster_id, new_identity)),
        final(lib).wf(),
{
    let before: Ghost<LibraryView> = Ghost(lib@);
    let unnamed = unnamed_ids(lib);
    let mark = |f: &Face| -> (m: FaceMarks)
        ensures
            m == adopt(before@, cluster_id, new_identity)(f@),
        {
            let free = match f.marks.identity_id {
                Some(id) => id != new_identity && holds(&unnamed, id),
                None => false,
            };
            if f.marks.cluster_id == Some(cluster_id) && f.marks.confirmed && free {
                FaceMarks { identity_id: Some(new_identity), ..f.marks }
            } else {
                f.marks
            }
        };
    mark_faces(lib, mark, Ghost(adopt(before@, cluster_id, new_identity)));
}

/// The identities without a name.
pub fn unnamed_ids(lib: &Library) -> (out: Vec<i64>)
    requires
        lib.wf(),
    ensures
        forall|id: i64| #[trigger]
            out@.contains(id) <==> (find_identity(lib@.identities, id) matches Some(i)
                && i.name is None),
{
    let mut out: Vec<i64> = Vec::new();
    let ghost all = lib@.identities;
    for i in 0..lib.identities.len()
        invariant
            all == lib@.identities,
            forall|id: i64| #[trigger]
                out@.contains(id) <==> exists|k: int|
                    0 <= k < i && (#[trigger] all[k]).id == id && all[k].name is None,
    {
        assert(all[i as int] == lib.identities@[i as int]@);
        let ghost was = out@;
        if lib.identities[i].name.is_none() {
            let id: i64 = lib.identities[i].id;
            out.push(id);
            assert forall|x: i64| #[trigger]
                out@.contains(x) <==> exists|k: int|
                    0 <= k < i + 1 && (#[trigger] all[k]).id == x && all[k].name is None by {
                if out@.contains(x) {
                    let p = choose|p: int| 0 <= p < out@.len() && out@[p] == x;
                    if p < was.len() {
                        assert(was[p] == x);
                        assert(was.contains(x));
                    } else {
                        assert(all[i as int].id == x);
                    }
                }
                if was.contains(x) {
                    let p = choose|p: int| 0 <= p < was.len() && was[p] == x;
                    assert(out@[p] == x);
                }
                if x == id {
                    assert(out@[was.len() as int] == x);
                }
            }
        }
    }
    proof {
        assert forall|id: i64| #[trigger]
            out@.contains(id) <==> (find_identity(all, id) matches Some(i) && i.name is None) by {
            lemma_find_identity(all, id);
        }
    }
    out
}

/// In a well-formed library an identity has one record.
pub proof fn lemma_find_identity(
    identities: Seq<IdentityView>,
    id: i64,
)
    requires
        identities_wf(identities),
    ensures
        forall|k: int|
            0 <= k < identities.len() && (#[trigger] identities[k]).id == id ==> find_identity(
                identities,
                id,
            ) == Some(identities[k]),
        find_identity(identities, id) matches Some(i) ==> exists|k: int|
            0 <= k < identities.len() && (#[trigger] identities[k]).id == id && identities[k] == i,
    decreases identities.len(),
{
    if identities.len() > 0 {
        let front = identities.drop_last();
        assert(identities_wf(front)) by {
            assert forall|i: int| 0 <= i < front.len() implies (#[trigger] front[i]).id >= 1 by {
                assert(front[i] == identities[i]);
            }
            assert forall|i: int, j: int| 0 <= i < j < front.len() implies (#[trigger] front[i]).id
                < (#[trigger] front[j]).id by {
                assert(front[i] == identities[i] && front[j] == identities[j]);
            }
        }
        lemma_find_identity(front, id);
        assert(identities[identities.len() - 1] == identities.last());
        assert forall|k: int|
            0 <= k < identities.len() && (#[trigger] identities[k]).id == id implies find_identity(
            identities,
            id,
        ) == Some(identities[k]) by {
            if k < front.len() {
                assert(front[k] == identities[k]);
                assert(identities[k].id < identities[identities.len() - 1].id);
            }
        }
        if identities.last().id != id {
            if let Some(i) = find_identity(front, id) {
                let k = choose|k: int|
                    0 <= k < front.len() && (#[trigger] front[k]).id == id && front[k] == i;
                assert(identities[k] == i);
            }
        }
    }
}

/// Confirms the cluster's unclaimed faces and those of the identity.
pub open spec fn confirm_in(cluster: i64, identity: Option<i64>) -> spec_fn(FaceView) -> FaceMarks {
    |f: FaceView|
        if f.marks.cluster_id == Some(cluster) && (f.marks.identity_id is None
            || f.marks.identity_id == identity) {
            FaceMarks { confirmed: true, ..f.marks }
        } else {
            f.marks
        }
}

/// Mark a cluster's faces as user-confirmed under the identity they're being vouched
/// as: unclaimed faces and that identity's own. A face bound to a *different* identity
/// is untouched.
pub fn confirm_cluster_faces(lib: &mut Library, cluster_id: i64, identity: Option<i64>)
    requires
        old(lib).wf(),
    ensures
        final(lib)@ == old(lib)@.with_marks(confirm_in(cluster_id, identity)),
        final(lib).wf(),
{
    let mark = |f: &Face| -> (m: FaceMarks)
        ensures
            m == confirm_in(cluster_id, identity)(f@),
        {
            if f.marks.cluster_id == Some(cluster_id) && (f.marks.identity_id.is_none()
                || f.marks.identity_id == identity) {
                FaceMarks { confirmed: true, ..f.marks }
            } else {
                f.marks
            }
        };
    mark_faces(lib, mark, Ghost(confirm_in(cluster_id, identity)));
}

/// Picks a confirmed face and its identity.
pub open spec fn confirmed_face() -> spec_fn(FaceView) -> Option<(i64, i64)> {
    |f: FaceView|
        match f.marks.confirmed_identity() {
            Some(id) => Some((f.id, id)),
            None => None,
        }
}

/// `(face_id, identity_id)` for every *confirmed* face: the must-link constraints a
/// re-cluster honors. Auto-folded faces are excluded so they stay free to re-home.
pub fn confirmed_face_identities(lib: &Library) -> (out: Vec<(i64, i64)>)
    ensures
        out@ == select(lib@.faces, confirmed_face()),
{
    let pick = |f: &Face| -> (b: Option<(i64, i64)>)
        ensures
            b == confirmed_face()(f@),
        {
            if f.marks.confirmed {
                match f.marks.identity_id {
                    Some(id) => Some((f.id, id)),
                    None => None,
                }
            } else {
                None
            }
        };
    pick_faces(lib, pick, Ghost(confirmed_face()))
}

/// Picks a confirmed face's identity and photo.
pub open spec fn confirmed_photo() -> spec_fn(FaceView) -> Option<(i64, i64)> {
    |f: FaceView|
        match f.marks.confirmed_identity() {
            Some(id) => Some((id, f.photo_id)),
            None => None,
        }
}

/// `(identity_id, photo_id)` for every *confirmed* face: the person side of the
/// co-occurrence veto.
pub fn confirmed_identity_photos(lib: &Library) -> (out: Vec<(i64, i64)>)
    ensures
        out@ == select(lib@.faces, confirmed_photo()),
{
    let pick = |f: &Face| -> (b: Option<(i64, i64)>)
        ensures
            b == confirmed_photo()(f@),
        {
            if f.marks.confirmed {
                match f.marks.identity_id {
                    Some(id) => Some((id, f.photo_id)),
                    None => None,
                }
            } else {
                None
            }
        };
    pick_faces(lib, pick, Ghost(confirmed_photo()))
}

/// Picks a confirmed face's identity.
pub open spec fn confirmed_person() -> spec_fn(FaceView) -> Option<i64> {
    |f: FaceView| f.marks.confirmed_identity()
}

/// The identities of the confirmed faces, one entry per face.
fn confirmed_persons(lib: &Library) -> (out: Vec<i64>)
    ensures
        out@ == select(lib@.faces, confirmed_person()),
{
    let pick = |f: &Face| -> (b: Option<i64>)
        ensures
            b == confirmed_person()(f@),
        {
            if f.marks.confirmed {
                f.marks.identity_id
            } else {
                None
            }
        };
    pick_faces(lib, pick, Ghost(confirmed_person()))
}

/// Every identity with at least one confirmed face: each person, named or not, that can
/// compete for faces.
pub fn confirmed_identity_ids(lib: &Library) -> (out: Vec<i64>)
    ensures
        out@ == distinct(select(lib@.faces, confirmed_person())),
{
    without_repeats(&confirmed_persons(lib))
}

/// Picks the values a list holds at least `min_count` times.
pub open spec fn at_least(list: Seq<i64>, min_count: int) -> spec_fn(i64) -> Option<i64> {
    |x: i64|
        if tally(list, equals(x)) >= min_count {
            Some(x)
        } else {
            None
        }
}

/// Identities with at least `min_count` confirmed faces: enough evidence to *claim*
/// look-alikes, not just compete defensively for them.
pub fn fold_eligible_identities(lib: &Library, min_count: i64) -> (out: Vec<i64>)
    ensures
        out@ == select(
            distinct(select(lib@.faces, confirmed_person())),
            at_least(select(lib@.faces, confirmed_person()), min_count as int),
        ),
{
    let all = confirmed_persons(lib);
    let ids = without_repeats(&all);
    let mut out: Vec<i64> = Vec::new();
    for i in 0..ids.len()
        invariant
            out@ == select(ids@.take(i as int), at_least(all@, min_count as int)),
    {
        assert(ids@.take(i + 1).drop_last() == ids@.take(i as int));
        if occurrences(&all, ids[i]) as i128 >= min_count as i128 {
            out.push(ids[i]);
        }
    }
    assert(ids@.take(ids@.len() as int) == ids@);
    out
}

/// Picks the cluster of a confirmed face.
pub open spec fn owned_cluster() -> spec_fn(FaceView) -> Option<i64> {
    |f: FaceView|
        if f.marks.confirmed {
            f.marks.cluster_id
        } else {
            None
        }
}

/// Clusters that hold a confirmed face: the "owned" clusters.
pub fn confirmed_clusters(lib: &Library) -> (out: Vec<i64>)
    ensures
        out@ == distinct(select(lib@.faces, owned_cluster())),
{
    let pick = |f: &Face| -> (b: Option<i64>)
        ensures
            b == owned_cluster()(f@),
        {
            if f.marks.confirmed {
                f.marks.cluster_id
            } else {
                None
            }
        };
    without_repeats(&pick_faces(lib, pick, Ghost(owned_cluster())))
}

/// Clears the identity of a tentative face.
pub open spec fn clear_tentative() -> spec_fn(FaceView) -> FaceMarks {
    |f: FaceView|
        if !f.marks.confirmed {
            FaceMarks { identity_id: None, ..f.marks }
        } else {
            f.marks
        }
}

/// Clear the identity binding on every *unconfirmed* (auto-folded) face, before they are
/// re-derived. User labels (confirmed) are untouched.
pub fn clear_unconfirmed_identities(lib: &mut Library)
    requires
        old(lib).wf(),
    ensures
        final(lib)@ == old(lib)@.with_marks(clear_tentative()),
        final(lib).wf(),
{
    let mark = |f: &Face| -> (m: FaceMarks)
        ensures
            m == clear_tentative()(f@),
        {
            if !f.marks.confirmed {
                FaceMarks { identity_id: None, ..f.marks }
            } else {
                f.marks
            }
        };
    mark_faces(lib, mark, Ghost(clear_tentative()));
}

/// Picks the cluster of a face of the identity.
pub open spec fn cluster_under(identity: i64) -> spec_fn(FaceView) -> Option<i64> {
    |f: FaceView|
        if f.marks.identity_id == Some(identity) {
            f.marks.cluster_id
        } else {
            None
        }
}

/// How clusters are ranked by how often a list holds them: most first, then by id.
pub open spec fn by_count(list: Seq<i64>) -> spec_fn(i64) -> (i128, i128, i128) {
    |c: i64| (tally(list, equals(c)) as i128, c as i128, 0)
}

/// The clusters an identity's faces currently sit in, largest first. The first is the
/// natural "into" target when absorbing look-alike groups.
pub fn clusters_of_identity(lib: &Library, identity_id: i64) -> (out: Vec<i64>)
    ensures
        out@ == ({
            let held = select(lib@.faces, cluster_under(identity_id));
            arranged(distinct(held), distinct(held).map_values(by_count(held)))
        }),
{
    let pick = |f: &Face| -> (b: Option<i64>)
        ensures
            b == cluster_under(identity_id)(f@),
        {
            if f.marks.identity_id == Some(identity_id) {
                f.marks.cluster_id
            } else {
                None
            }
        };
    let held = pick_faces(lib, pick, Ghost(cluster_under(identity_id)));
    let ids = without_repeats(&held);
    let mut keys: Vec<(i128, i128, i128)> = Vec::with_capacity(ids.len());
    for i in 0..ids.len()
        invariant
            keys@ == ids@.map_values(by_count(held@)).take(i as int),
    {
        keys.push((occurrences(&held, ids[i]) as i128, ids[i] as i128, 0));
        assert(keys@ =~= ids@.map_values(by_count(held@)).take(i + 1));
    }
    assert(keys@ =~= ids@.map_values(by_count(held@)));
    arrange(&ids, &keys)
}

/// Picks a confirmed face of the identity: its score and embedding.
pub open spec fn exemplar(identity: i64) -> spec_fn(FaceView) -> Option<(i64, Seq<i32>)> {
    |f: FaceView|
        if f.marks.confirmed && f.marks.identity_id == Some(identity) {
            Some((f.score, f.embedding))
        } else {
            None
        }
}

/// How exemplars are ranked: highest detector score first.
pub open spec fn by_score<T>() -> spec_fn((i64, T)) -> (i128, i128, i128) {
    |e: (i64, T)| (e.0 as i128, 0, 0)
}

/// The anchor of an identity: the embeddings of its confirmed faces, best first.
pub open spec fn anchor(faces: Seq<FaceView>, identity: i64, limit: int) -> Seq<Seq<i32>> {
    let all = select(faces, exemplar(identity));
    limited(arranged(all, all.map_values(by_score())), limit).map_values(
        |e: (i64, Seq<i32>)| e.1,
    )
}

/// The highest-confidence *confirmed* exemplars of an identity: the anchor profile that
/// candidates are matched against. Confirmed-only, so the anchor is what the user
/// taught.
pub fn confirmed_anchor_embeddings(lib: &Library, identity_id: i64, limit: i64) -> (out: Vec<Vec<i32>>)
    ensures
        rows(out@) == anchor(lib@.faces, identity_id, limit as int),
{
    let ghost all = lib@.faces;
    let ghost want = select(all, exemplar(identity_id));
    // The positions of the exemplars, and their keys.
    let mut at: Vec<usize> = Vec::new();
    let mut keys: Vec<(i128, i128, i128)> = Vec::new();
    for i in 0..lib.faces.len()
        invariant
            all == lib@.faces,
            at@.len() == select(all.take(i as int), exemplar(identity_id)).len(),
            forall|k: int|
                0 <= k < at@.len() ==> (#[trigger] at@[k]) < all.len() && exemplar(identity_id)(
                    all[at@[k] as int],
                ) == Some(select(all.take(i as int), exemplar(identity_id))[k]),
            keys@ == select(all.take(i as int), exemplar(identity_id)).map_values(by_score()),
    {
        let ghost was = select(all.take(i as int), exemplar(identity_id));
        assert(all.take(i + 1).drop_last() == all.take(i as int));
        let face = &lib.faces[i];
        assert(all[i as int] == face@);
        if face.marks.confirmed && face.marks.identity_id == Some(identity_id) {
            at.push(i);
            keys.push((face.score as i128, 0, 0));
            assert(keys@ =~= select(all.take(i + 1), exemplar(identity_id)).map_values(by_score()));
        }
    }
    assert(all.take(all.len() as int) == all);
    let mut order = sort_order(&keys);
    let ghost arr = arranged(want, keys@);
    let ghost full = order@;
    limit_to(&mut order, limit);
    let mut out: Vec<Vec<i32>> = Vec::with_capacity(order.len());
    let ghost goal = anchor(all, identity_id, limit as int);
    for k in 0..order.len()
        invariant
            all == lib@.faces,
            want == select(all, exemplar(identity_id)),
            at@.len() == want.len(),
            forall|k: int|
                0 <= k < at@.len() ==> (#[trigger] at@[k]) < all.len() && exemplar(identity_id)(
                    all[at@[k] as int],
                ) == Some(want[k]),
            arr == arranged(want, keys@),
            full == order_of(keys@),
            keys@ == want.map_values(by_score()),
            forall|p: int| 0 <= p < full.len() ==> #[trigger] full[p] < keys@.len(),
            order@ == limited(full, limit as int),
            goal == anchor(all, identity_id, limit as int),
            goal.len() == order@.len(),
            rows(out@) == goal.take(k as int),
    {
        assert(order@[k as int] == full[k as int]);
        let j: usize = order[k];
        assert(at@[j as int] < all.len());
        let face = &lib.faces[at[j]];
        assert(all[at@[j as int] as int] == face@);
        assert(goal[k as int] == want[j as int].1);
        assert(exemplar(identity_id)(all[at@[j as int] as int]) == Some(want[j as int]));
        assert(face.embedding@ == want[j as int].1);
        let copy = copy_vec(&face.embedding);
        let ghost was = rows(out@);
        out.push(copy);
        assert(rows(out@) =~= was.push(want[j as int].1));
        assert(goal.take(k + 1) =~= goal.take(k as int).push(goal[k as int]));
        assert(rows(out@) =~= goal.take(k + 1));
    }
    assert(rows(out@) =~= goal);
    out
}

/// A copy of a vector.
pub fn copy_vec(v: &Vec<i32>) -> (c: Vec<i32>)
    ensures
        c@ == v@,
{
    let mut c: Vec<i32> = Vec::with_capacity(v.len());
    for i in 0..v.len()
        invariant
            c@ == v@.take(i as int),
    {
        c.push(v[i]);
        assert(c@ =~= v@.take(i + 1));
    }
    assert(c@ =~= v@);
    c
}

} // verus!
