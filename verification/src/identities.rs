//! Persons: durable identities, and the faces bound to them.

use vstd::prelude::*;

use crate::library::{
    mark_faces, Face, FaceMarks, FaceView, Identity, IdentityView, Library, LibraryView,
};
use crate::rows::{kept, retain_rows, tally};

verus! {

/// Tests for a face of the cluster that carries the identity.
pub open spec fn carries(cluster: i64, identity: i64) -> spec_fn(FaceView) -> bool {
    |f: FaceView| f.marks.cluster_id == Some(cluster) && f.marks.identity_id == Some(identity)
}

/// How many faces of the cluster carry the identity.
pub open spec fn support(faces: Seq<FaceView>, cluster: i64, identity: i64) -> nat {
    tally(faces, carries(cluster, identity))
}

/// The identity most faces of the cluster carry; the smallest of those with as many.
pub open spec fn is_plurality(faces: Seq<FaceView>, cluster: i64, identity: i64) -> bool {
    &&& support(faces, cluster, identity) > 0
    &&& forall|other: i64|
        #![trigger support(faces, cluster, other)]
        support(faces, cluster, other) < support(faces, cluster, identity) || (support(
            faces,
            cluster,
            other,
        ) == support(faces, cluster, identity) && identity <= other)
}

/// The identity bound to a cluster, if any face of it carries one.
pub open spec fn plurality(faces: Seq<FaceView>, cluster: i64) -> Option<i64> {
    if exists|identity: i64| is_plurality(faces, cluster, identity) {
        Some(choose|identity: i64| is_plurality(faces, cluster, identity))
    } else {
        None
    }
}

pub proof fn lemma_plurality(faces: Seq<FaceView>, cluster: i64, identity: i64)
    requires
        is_plurality(faces, cluster, identity),
    ensures
        plurality(faces, cluster) == Some(identity),
{
    let other = choose|other: i64| is_plurality(faces, cluster, other);
    assert(is_plurality(faces, cluster, other));
    assert(support(faces, cluster, other) > 0);
    assert(support(faces, cluster, identity) > 0);
}

proof fn lemma_support_some(faces: Seq<FaceView>, cluster: i64, identity: i64, i: int)
    requires
        0 <= i < faces.len(),
        carries(cluster, identity)(faces[i]),
    ensures
        support(faces, cluster, identity) > 0,
    decreases faces.len(),
{
    if i < faces.len() - 1 {
        lemma_support_some(faces.drop_last(), cluster, identity, i);
    }
}

proof fn lemma_support_none(faces: Seq<FaceView>, cluster: i64, identity: i64)
    requires
        forall|i: int| 0 <= i < faces.len() ==> !carries(cluster, identity)(#[trigger] faces[i]),
    ensures
        support(faces, cluster, identity) == 0,
    decreases faces.len(),
{
    if faces.len() > 0 {
        assert forall|i: int| 0 <= i < faces.drop_last().len() implies !carries(cluster, identity)(
            #[trigger] faces.drop_last()[i],
        ) by {
            assert(faces[i] == faces.drop_last()[i]);
        }
        assert(faces[faces.len() - 1] == faces.last());
        lemma_support_none(faces.drop_last(), cluster, identity);
    }
}

fn count_support(lib: &Library, cluster: i64, identity: i64) -> (n: usize)
    ensures
        n == support(lib@.faces, cluster, identity),
{
    let mut n: usize = 0;
    let ghost faces = lib@.faces;
    for i in 0..lib.faces.len()
        invariant
            faces == lib@.faces,
            n == tally(faces.take(i as int), carries(cluster, identity)),
            n <= i,
    {
        assert(faces.take(i + 1).drop_last() == faces.take(i as int));
        let marks = lib.faces[i].marks;
        assert(faces[i as int].marks == marks);
        if marks.cluster_id == Some(cluster) && marks.identity_id == Some(identity) {
            n = n + 1;
        }
    }
    assert(faces.take(faces.len() as int) == faces);
    n
}

/// The identity bound to a cluster, if any (the one most of its faces carry).
pub fn identity_of_cluster(lib: &Library, cluster_id: i64) -> (found: Option<i64>)
    ensures
        found == plurality(lib@.faces, cluster_id),
{
    let mut best: Option<i64> = None;
    let mut most: usize = 0;
    let ghost faces = lib@.faces;
    for i in 0..lib.faces.len()
        invariant
            faces == lib@.faces,
            most == 0 <==> best is None,
            best matches Some(b) ==> most == support(faces, cluster_id, b) && most > 0,
            forall|k: int|
                #![trigger faces[k]]
                0 <= k < i && faces[k].marks.cluster_id == Some(cluster_id) ==> (
                faces[k].marks.identity_id matches Some(x) ==> {
                    ||| support(faces, cluster_id, x) < most
                    ||| support(faces, cluster_id, x) == most && best->0 <= x
                }),
    {
        let marks = lib.faces[i].marks;
        assert(faces[i as int].marks == marks);
        if marks.cluster_id == Some(cluster_id) {
            if let Some(x) = marks.identity_id {
                let n: usize = count_support(lib, cluster_id, x);
                proof {
                    lemma_support_some(faces, cluster_id, x, i as int);
                }
                let better = match best {
                    Some(b) => n > most || (n == most && x < b),
                    None => true,
                };
                if better {
                    best = Some(x);
                    most = n;
                }
            }
        }
    }
    proof {
        assert forall|other: i64|
            #![trigger support(faces, cluster_id, other)]
            support(faces, cluster_id, other) > 0 implies exists|k: int|
            0 <= k < faces.len() && carries(cluster_id, other)(#[trigger] faces[k]) by {
            if forall|k: int|
                0 <= k < faces.len() ==> !carries(cluster_id, other)(#[trigger] faces[k]) {
                lemma_support_none(faces, cluster_id, other);
            }
        }
        if let Some(b) = best {
            assert forall|other: i64|
                #![trigger support(faces, cluster_id, other)]
                support(faces, cluster_id, other) < support(faces, cluster_id, b) || (support(
                    faces,
                    cluster_id,
                    other,
                ) == support(faces, cluster_id, b) && b <= other) by {
                if support(faces, cluster_id, other) > 0 {
                    let k = choose|k: int|
                        0 <= k < faces.len() && carries(cluster_id, other)(#[trigger] faces[k]);
                    assert(faces[k].marks.cluster_id == Some(cluster_id));
                }
            }
            assert(is_plurality(faces, cluster_id, b));
            lemma_plurality(faces, cluster_id, b);
        } else {
            assert forall|x: i64| !is_plurality(faces, cluster_id, x) by {
                if support(faces, cluster_id, x) > 0 {
                    let k = choose|k: int|
                        0 <= k < faces.len() && carries(cluster_id, x)(#[trigger] faces[k]);
                    assert(faces[k].marks.cluster_id == Some(cluster_id));
                }
            }
        }
    }
    best
}

/// The library with one more identity, unnamed.
pub open spec fn minted(lib: LibraryView) -> LibraryView {
    LibraryView {
        identities: lib.identities.push(
            IdentityView { id: (lib.last_identity() + 1) as i64, name: None },
        ),
        ..lib
    }
}

/// Mint a durable identity, unnamed, under an id above those of all identities on record.
pub fn new_identity(lib: &mut Library) -> (id: i64)
    requires
        old(lib).wf(),
        old(lib)@.last_identity() < i64::MAX,
    ensures
        final(lib)@ == minted(old(lib)@),
        final(lib).wf(),
        id == old(lib)@.last_identity() + 1,
{
    let n: usize = lib.identities.len();
    let ghost before = lib@;
    let id: i64 = if n == 0 {
        1
    } else {
        assert(before.identities[n - 1] == lib.identities@[n - 1]@);
        lib.identities[n - 1].id + 1
    };
    lib.identities.push(Identity { id, name: None });
    assert(lib@.identities =~= minted(before).identities);
    proof {
        let after = lib@.identities;
        assert forall|i: int, j: int| 0 <= i < j < after.len() implies (#[trigger] after[i]).id < (
        #[trigger] after[j]).id by {
            if j == n && i < n - 1 {
                assert(before.identities[i].id < before.identities[n - 1].id);
            }
        }
    }
    id
}

/// Binds a cluster's unclaimed and tentative faces to the identity. A face the user
/// confirmed stays with its person.
pub open spec fn bind_cluster(cluster: i64, identity: i64) -> spec_fn(FaceView) -> FaceMarks {
    |f: FaceView|
        if f.marks.cluster_id == Some(cluster) && (f.marks.identity_id is None
            || !f.marks.confirmed) {
            FaceMarks { identity_id: Some(identity), ..f.marks }
        } else {
            f.marks
        }
}

/// The identity a cluster has, or would be given.
pub open spec fn cluster_identity(lib: LibraryView, cluster: i64) -> i64 {
    match plurality(lib.faces, cluster) {
        Some(id) => id,
        None => (lib.last_identity() + 1) as i64,
    }
}

/// The library after the cluster was given an identity.
pub open spec fn ensured(lib: LibraryView, cluster: i64) -> LibraryView {
    let held = if plurality(lib.faces, cluster) is Some {
        lib
    } else {
        minted(lib)
    };
    held.with_marks(bind_cluster(cluster, cluster_identity(lib, cluster)))
}

/// Get (or create) the identity for a cluster and bind the cluster's faces to it.
/// Reuses an existing identity already present on the cluster so repeated
/// naming/merging doesn't spawn duplicates. Binding never touches a face the user
/// confirmed under a *different* identity.
pub fn ensure_identity_for_cluster(lib: &mut Library, cluster_id: i64) -> (id: i64)
    requires
        old(lib).wf(),
        old(lib)@.last_identity() < i64::MAX,
    ensures
        final(lib)@ == ensured(old(lib)@, cluster_id),
        final(lib).wf(),
        id == cluster_identity(old(lib)@, cluster_id),
{
    let id: i64 = match identity_of_cluster(lib, cluster_id) {
        Some(id) => id,
        None => new_identity(lib),
    };
    let mark = |f: &Face| -> (m: FaceMarks)
        ensures
            m == bind_cluster(cluster_id, id)(f@),
        {
            if f.marks.cluster_id == Some(cluster_id) && (f.marks.identity_id.is_none()
                || !f.marks.confirmed) {
                FaceMarks { identity_id: Some(id), ..f.marks }
            } else {
                f.marks
            }
        };
    mark_faces(lib, mark, Ghost(bind_cluster(cluster_id, id)));
    id
}

/// Moves the faces of one cluster to another.
pub open spec fn move_cluster(from: i64, into: i64) -> spec_fn(FaceView) -> FaceMarks {
    |f: FaceView|
        if f.marks.cluster_id == Some(from) {
            FaceMarks { cluster_id: Some(into), ..f.marks }
        } else {
            f.marks
        }
}

/// Binds the combined cluster to the surviving identity: unclaimed faces, faces that
/// carried the other side's identity, and tentative labels.
pub open spec fn bind_merged(into: i64, identity: i64, from_identity: Option<i64>) -> spec_fn(
    FaceView,
) -> FaceMarks {
    |f: FaceView|
        if f.marks.cluster_id == Some(into) && (f.marks.identity_id is None
            || f.marks.identity_id == from_identity || !f.marks.confirmed) {
            FaceMarks { identity_id: Some(identity), ..f.marks }
        } else {
            f.marks
        }
}

/// Tests for a cluster name of another cluster.
pub open spec fn names_other(cluster: i64) -> spec_fn((i64, Seq<char>)) -> bool {
    |n: (i64, Seq<char>)| n.0 != cluster
}

/// The library after `from` was merged into `into`.
pub open spec fn merged(lib: LibraryView, into: i64, from: i64) -> LibraryView {
    let moved = ensured(lib, into).with_marks(move_cluster(from, into));
    let unnamed = LibraryView {
        cluster_names: kept(moved.cluster_names, names_other(from)),
        ..moved
    };
    unnamed.with_marks(
        bind_merged(into, cluster_identity(lib, into), plurality(lib.faces, from)),
    )
}

/// Forget the name of a cluster.
pub fn drop_cluster_name(lib: &mut Library, cluster_id: i64)
    requires
        old(lib).wf(),
    ensures
        final(lib)@ == (LibraryView {
            cluster_names: kept(old(lib)@.cluster_names, names_other(cluster_id)),
            ..old(lib)@
        }),
        final(lib).wf(),
{
    let test = |n: &(i64, String)| -> (b: bool)
        ensures
            b == names_other(cluster_id)(n@),
        { n.0 != cluster_id };
    retain_rows(&mut lib.cluster_names, test, Ghost(names_other(cluster_id)));
}

/// Merge cluster `from` into `into`: reassign its faces and drop its name. The
/// surviving cluster keeps `into`'s name and identity, and the absorbed faces end up
/// under `into`'s identity. Identities are resolved before any face moves, and a face
/// confirmed under a different identity is never rebound.
pub fn merge_clusters(lib: &mut Library, into: i64, from: i64)
    requires
        old(lib).wf(),
        old(lib)@.last_identity() < i64::MAX,
    ensures
        final(lib)@ == merged(old(lib)@, into, from),
        final(lib).wf(),
{
    let from_identity = identity_of_cluster(lib, from);
    let id: i64 = ensure_identity_for_cluster(lib, into);
    let shift = |f: &Face| -> (m: FaceMarks)
        ensures
            m == move_cluster(from, into)(f@),
        {
            if f.marks.cluster_id == Some(from) {
                FaceMarks { cluster_id: Some(into), ..f.marks }
            } else {
                f.marks
            }
        };
    mark_faces(lib, shift, Ghost(move_cluster(from, into)));
    drop_cluster_name(lib, from);
    let bind = |f: &Face| -> (m: FaceMarks)
        ensures
            m == bind_merged(into, id, from_identity)(f@),
        {
            if f.marks.cluster_id == Some(into) && (f.marks.identity_id.is_none()
                || f.marks.identity_id == from_identity || !f.marks.confirmed) {
                FaceMarks { identity_id: Some(id), ..f.marks }
            } else {
                f.marks
            }
        };
    mark_faces(lib, bind, Ghost(bind_merged(into, id, from_identity)));
}

} // verus!
