//! What each decision does to a face, field by field, and what it leaves alone.

use vstd::prelude::*;

use crate::confirmations::{adopt, clear_tentative, confirm_in, foreign};
use crate::faces::{
    bound_to, dropped, find_state, freed, last_place, moved_to, restored, scattered, undecided,
    FaceState,
};
use crate::groups::{
    adopt_group, assign_free, bind_group, confirm_group, confirm_identity, group_identity,
};
use crate::identities::{bind_cluster, bind_merged, move_cluster};
use crate::library::{identity_key, marked, FaceMarks, FaceView, LibraryView};
use crate::names::{confirm_bound, find_identity};

verus! {

/// Only what is decided about a face may change: its photo, box, score and embedding stay.
pub open spec fn same_face(was: FaceView, now: FaceView) -> bool {
    &&& now.id == was.id
    &&& now.photo_id == was.photo_id
    &&& now.bbox == was.bbox
    &&& now.score == was.score
    &&& now.embedding == was.embedding
}

/// **A face is shown under its person, or else under its cluster.** A person's key is the
/// negated id, so that it is never a cluster's.
pub proof fn law_group_of_a_face(m: FaceMarks)
    ensures
        m.identity_id matches Some(p) ==> m.group() is Some && m.group()->0 < 0 && (p >= 1
            ==> m.group() == Some((-p) as i64)),
        m.identity_id is None ==> m.group() == m.cluster_id,
        m.confirmed ==> m.confirmed_identity() == m.identity_id,
        !m.confirmed ==> m.confirmed_identity() is None,
        forall|p: i64| p >= 1 ==> group_identity(#[trigger] identity_key(p)) == Some(p),
        forall|g: i64| g >= 0 ==> #[trigger] group_identity(g) is None,
        forall|p: i64, q: i64|
            1 <= p && 1 <= q && #[trigger] identity_key(p) == #[trigger] identity_key(q) ==> p == q,
{
}

/// **Moving faces binds them, vouched for.** The listed faces are of the person, confirmed and
/// not ignored; their clusters stay. No other face changes.
pub proof fn law_bound_faces(lib: LibraryView, ids: Seq<i64>, identity: i64, i: int)
    requires
        0 <= i < lib.faces.len(),
    ensures
        ({
            let (was, now) = (lib.faces[i], lib.with_marks(bound_to(ids, identity)).faces[i]);
            &&& same_face(was, now)
            &&& ids.contains(was.id) ==> now.marks.identity_id == Some(identity)
                && now.marks.confirmed && !now.marks.ignored && now.marks.cluster_id
                == was.marks.cluster_id
            &&& !ids.contains(was.id) ==> now == was
        }),
        lib.with_marks(bound_to(ids, identity)).faces.len() == lib.faces.len(),
{
}

/// **Moving faces to a person sets cluster and person, vouched for.**
pub proof fn law_moved_faces(lib: LibraryView, ids: Seq<i64>, cluster: i64, identity: i64, i: int)
    requires
        0 <= i < lib.faces.len(),
    ensures
        ({
            let (was, now) = (
                lib.faces[i],
                lib.with_marks(moved_to(ids, cluster, identity)).faces[i],
            );
            &&& same_face(was, now)
            &&& ids.contains(was.id) ==> now.marks.identity_id == Some(identity)
                && now.marks.cluster_id == Some(cluster) && now.marks.confirmed
                && !now.marks.ignored
            &&& !ids.contains(was.id) ==> now == was
        }),
{
}

/// **An ignored face belongs to nobody.** It has neither a cluster nor a person, and is marked
/// as ignored. No other face changes.
pub proof fn law_ignored_faces(lib: LibraryView, ids: Seq<i64>, i: int)
    requires
        0 <= i < lib.faces.len(),
    ensures
        ({
            let (was, now) = (lib.faces[i], lib.with_marks(dropped(ids)).faces[i]);
            &&& same_face(was, now)
            &&& ids.contains(was.id) ==> now.marks.group() is None && now.marks.cluster_id is None
                && now.marks.identity_id is None && now.marks.ignored
            &&& !ids.contains(was.id) ==> now == was
        }),
{
}

/// **A freed face falls back to its cluster.** It has no person, is not vouched for and not
/// ignored. No other face changes.
pub proof fn law_freed_faces(lib: LibraryView, ids: Seq<i64>, i: int)
    requires
        0 <= i < lib.faces.len(),
    ensures
        ({
            let (was, now) = (lib.faces[i], lib.with_marks(freed(ids)).faces[i]);
            &&& same_face(was, now)
            &&& ids.contains(was.id) ==> now.marks.identity_id is None && !now.marks.confirmed
                && !now.marks.ignored && now.marks.cluster_id == was.marks.cluster_id
                && now.marks.group() == was.marks.cluster_id
            &&& !ids.contains(was.id) ==> now == was
        }),
{
}

/// **Detached faces part.** Each listed face gets a fresh cluster at or above the base, no two
/// the same, and no person; it is not ignored and not vouched for.
pub proof fn law_detached_faces_part(lib: LibraryView, ids: Seq<i64>, base: i64, i: int, j: int)
    requires
        lib.wf(),
        base + ids.len() <= i64::MAX,
        0 <= i < lib.faces.len(),
        0 <= j < lib.faces.len(),
        ids.contains(lib.faces[i].id),
    ensures
        ({
            let after = lib.with_marks(scattered(ids, base)).faces;
            let now = after[i].marks;
            &&& same_face(lib.faces[i], after[i])
            &&& now.identity_id is None && !now.confirmed && !now.ignored
            &&& now.cluster_id matches Some(c) && base <= c < base + ids.len()
            &&& !ids.contains(lib.faces[j].id) ==> after[j] == lib.faces[j]
            &&& i != j && ids.contains(lib.faces[j].id) ==> after[j].marks.cluster_id
                != now.cluster_id
        }),
{
    let after = lib.with_marks(scattered(ids, base)).faces;
    assert(after[i] == marked(scattered(ids, base))(lib.faces[i]));
    assert(after[j] == marked(scattered(ids, base))(lib.faces[j]));
    lemma_last_place(ids, lib.faces[i].id);
    if ids.contains(lib.faces[j].id) {
        lemma_last_place(ids, lib.faces[j].id);
    }
    if i < j {
        assert(lib.faces[i].id < lib.faces[j].id);
    } else if j < i {
        assert(lib.faces[j].id < lib.faces[i].id);
    }
}

proof fn lemma_last_place(list: Seq<i64>, x: i64)
    requires
        list.contains(x),
    ensures
        0 <= last_place(list, x) < list.len(),
        list[last_place(list, x)] == x,
{
    let k = lemma_last_exists(list, x);
    assert(0 <= k < list.len() && list[k] == x && forall|j: int|
        k < j < list.len() ==> #[trigger] list[j] != x);
}

proof fn lemma_last_exists(list: Seq<i64>, x: i64) -> (k: int)
    requires
        list.contains(x),
    ensures
        0 <= k < list.len(),
        list[k] == x,
        forall|j: int| k < j < list.len() ==> #[trigger] list[j] != x,
    decreases list.len(),
{
    let n = list.len() - 1;
    if list[n] == x {
        n
    } else {
        let front = list.drop_last();
        let p = choose|p: int| 0 <= p < list.len() && list[p] == x;
        assert(front[p] == x);
        let k = lemma_last_exists(front, x);
        assert forall|j: int| k < j < list.len() implies #[trigger] list[j] != x by {
            if j < n {
                assert(front[j] == list[j]);
            }
        }
        k
    }
}

/// **Starting over keeps the faces.** Every face becomes a cluster of its own, with no person,
/// not ignored and not vouched for.
pub proof fn law_undecided_faces(lib: LibraryView, i: int)
    requires
        0 <= i < lib.faces.len(),
    ensures
        ({
            let (was, now) = (lib.faces[i], lib.with_marks(undecided()).faces[i]);
            &&& same_face(was, now)
            &&& now.marks.cluster_id == Some(was.id)
            &&& now.marks.identity_id is None
            &&& !now.marks.ignored
            &&& !now.marks.confirmed
        }),
{
}

/// **Wiping guesses keeps what the user said.** A face that was vouched for stays as it is; any
/// other only loses its person.
pub proof fn law_wiped_guesses(lib: LibraryView, i: int)
    requires
        0 <= i < lib.faces.len(),
    ensures
        ({
            let (was, now) = (lib.faces[i], lib.with_marks(clear_tentative()).faces[i]);
            &&& same_face(was, now)
            &&& was.marks.confirmed ==> now == was
            &&& !was.marks.confirmed ==> now.marks.identity_id is None && !now.marks.confirmed
                && now.marks.cluster_id == was.marks.cluster_id && now.marks.ignored
                == was.marks.ignored
        }),
{
}

/// **Vouching for a person vouches for all their faces, and nobody else's.**
pub proof fn law_vouched_faces(lib: LibraryView, identity: i64, i: int)
    requires
        0 <= i < lib.faces.len(),
    ensures
        ({
            let (was, now) = (lib.faces[i], lib.with_marks(confirm_identity(identity)).faces[i]);
            &&& same_face(was, now)
            &&& now.marks.cluster_id == was.marks.cluster_id
            &&& now.marks.identity_id == was.marks.identity_id
            &&& now.marks.ignored == was.marks.ignored
            &&& now.marks.confirmed == (was.marks.confirmed || was.marks.identity_id == Some(
                identity,
            ))
        }),
{
}

/// **Vouching for a group vouches for its free faces and the person's own.** A face bound to
/// someone else is untouched.
pub proof fn law_vouched_groups(
    lib: LibraryView,
    group: i64,
    cluster: i64,
    identity: Option<i64>,
    i: int,
)
    requires
        0 <= i < lib.faces.len(),
    ensures
        ({
            let was = lib.faces[i];
            let now = lib.with_marks(confirm_group(group, identity)).faces[i];
            let then = lib.with_marks(confirm_in(cluster, identity)).faces[i];
            let own = was.marks.identity_id is None || was.marks.identity_id == identity;
            &&& same_face(was, now) && same_face(was, then)
            &&& now.marks == (FaceMarks { confirmed: now.marks.confirmed, ..was.marks })
            &&& then.marks == (FaceMarks { confirmed: then.marks.confirmed, ..was.marks })
            &&& now.marks.confirmed == (was.marks.confirmed || (was.marks.group() == Some(group)
                && own))
            &&& then.marks.confirmed == (was.marks.confirmed || (was.marks.cluster_id == Some(
                cluster,
            ) && own))
        }),
{
}

/// **Vouching for a named cluster vouches for the faces that carry its person.**
pub proof fn law_vouched_clusters(lib: LibraryView, cluster: i64, identity: i64, i: int)
    requires
        0 <= i < lib.faces.len(),
    ensures
        ({
            let was = lib.faces[i];
            let now = lib.with_marks(confirm_bound(cluster, identity)).faces[i];
            &&& same_face(was, now)
            &&& now.marks == (FaceMarks { confirmed: now.marks.confirmed, ..was.marks })
            &&& now.marks.confirmed == (was.marks.confirmed || (was.marks.cluster_id == Some(
                cluster,
            ) && was.marks.identity_id == Some(identity)))
        }),
{
}

/// **Binding a group gives its faces the person**, and changes nothing else about them.
pub proof fn law_bound_groups(lib: LibraryView, group: i64, identity: i64, i: int)
    requires
        0 <= i < lib.faces.len(),
    ensures
        ({
            let (was, now) = (lib.faces[i], lib.with_marks(bind_group(group, identity)).faces[i]);
            &&& same_face(was, now)
            &&& now.marks == (FaceMarks { identity_id: now.marks.identity_id, ..was.marks })
            &&& was.marks.group() == Some(group) ==> now.marks.identity_id == Some(identity)
            &&& was.marks.group() != Some(group) ==> now == was
        }),
{
}

/// **A tentative assignment takes only free faces.** It gives a person to the faces of the
/// cluster that have none and that nobody vouched for, and leaves them tentative.
pub proof fn law_assigned_faces_are_free(lib: LibraryView, cluster: i64, identity: i64, i: int)
    requires
        0 <= i < lib.faces.len(),
    ensures
        ({
            let (was, now) = (lib.faces[i], lib.with_marks(assign_free(cluster, identity)).faces[i]);
            let free = was.marks.cluster_id == Some(cluster) && was.marks.identity_id is None
                && !was.marks.confirmed;
            &&& same_face(was, now)
            &&& free ==> now.marks.identity_id == Some(identity) && !now.marks.confirmed
                && now.marks.cluster_id == was.marks.cluster_id && now.marks.ignored
                == was.marks.ignored
            &&& !free ==> now == was
        }),
{
}

/// **An explicit assignment outranks an unnamed competitor.** Of the group's faces, those
/// confirmed under an unnamed person on record other than this one become this one's; all
/// other faces stay.
pub proof fn law_adopted_faces(lib: LibraryView, group: i64, cluster: i64, identity: i64, i: int)
    requires
        0 <= i < lib.faces.len(),
    ensures
        ({
            let was = lib.faces[i];
            let unnamed = was.marks.confirmed && (was.marks.identity_id matches Some(p) && p
                != identity && (find_identity(lib.identities, p) matches Some(r) && r.name is None));
            let now = lib.with_marks(adopt_group(lib, group, identity)).faces[i];
            let then = lib.with_marks(adopt(lib, cluster, identity)).faces[i];
            &&& same_face(was, now) && same_face(was, then)
            &&& now.marks == (FaceMarks { identity_id: now.marks.identity_id, ..was.marks })
            &&& then.marks == (FaceMarks { identity_id: then.marks.identity_id, ..was.marks })
            &&& now.marks.identity_id == (if was.marks.group() == Some(group) && unnamed {
                Some(identity)
            } else {
                was.marks.identity_id
            })
            &&& then.marks.identity_id == (if was.marks.cluster_id == Some(cluster) && unnamed {
                Some(identity)
            } else {
                was.marks.identity_id
            })
        }),
{
}

/// **A cluster's person takes its free faces and its guesses.** A face that was confirmed as
/// anyone stays theirs; and a binding vouches for nothing.
pub proof fn law_bound_clusters(lib: LibraryView, cluster: i64, identity: i64, i: int)
    requires
        0 <= i < lib.faces.len(),
    ensures
        ({
            let (was, now) = (
                lib.faces[i],
                lib.with_marks(bind_cluster(cluster, identity)).faces[i],
            );
            &&& same_face(was, now)
            &&& now.marks == (FaceMarks { identity_id: now.marks.identity_id, ..was.marks })
            &&& was.marks.cluster_id != Some(cluster) ==> now == was
            &&& was.marks.confirmed && was.marks.identity_id is Some ==> now == was
            &&& was.marks.cluster_id == Some(cluster) && !(was.marks.confirmed
                && was.marks.identity_id is Some) ==> now.marks.identity_id == Some(identity)
        }),
{
}

/// **A merge of clusters moves all faces of the one to the other** and changes nothing else.
pub proof fn law_moved_clusters(lib: LibraryView, from: i64, into: i64, i: int)
    requires
        0 <= i < lib.faces.len(),
    ensures
        ({
            let (was, now) = (lib.faces[i], lib.with_marks(move_cluster(from, into)).faces[i]);
            &&& same_face(was, now)
            &&& now.marks == (FaceMarks { cluster_id: now.marks.cluster_id, ..was.marks })
            &&& was.marks.cluster_id == Some(from) ==> now.marks.cluster_id == Some(into)
            &&& was.marks.cluster_id != Some(from) ==> now == was
        }),
{
}

/// **The survivor of a merge takes the free faces, the guesses and the other side's.** A face
/// confirmed as a third person stays theirs.
pub proof fn law_merged_faces(
    lib: LibraryView,
    into: i64,
    identity: i64,
    other: Option<i64>,
    i: int,
)
    requires
        0 <= i < lib.faces.len(),
    ensures
        ({
            let (was, now) = (
                lib.faces[i],
                lib.with_marks(bind_merged(into, identity, other)).faces[i],
            );
            let third = was.marks.confirmed && was.marks.identity_id is Some
                && was.marks.identity_id != other;
            &&& same_face(was, now)
            &&& now.marks == (FaceMarks { identity_id: now.marks.identity_id, ..was.marks })
            &&& was.marks.cluster_id == Some(into) && !third ==> now.marks.identity_id == Some(
                identity,
            )
            &&& was.marks.cluster_id != Some(into) || third ==> now == was
        }),
{
}

/// **A restored face is as it was when it was captured.**
pub proof fn law_restored_faces(lib: LibraryView, states: Seq<FaceState>, k: int, i: int)
    requires
        0 <= i < lib.faces.len(),
        0 <= k < states.len(),
        states[k].face_id == lib.faces[i].id,
        forall|j: int| k < j < states.len() ==> (#[trigger] states[j]).face_id != lib.faces[i].id,
    ensures
        ({
            let now = lib.with_marks(restored(states)).faces[i];
            &&& same_face(lib.faces[i], now)
            &&& now.marks.cluster_id == states[k].cluster_id
            &&& now.marks.identity_id == states[k].identity_id
            &&& now.marks.ignored == states[k].ignored
            &&& now.marks.confirmed == states[k].confirmed
        }),
{
    lemma_state_at(states, k, lib.faces[i].id);
}

proof fn lemma_state_at(states: Seq<FaceState>, k: int, id: i64)
    requires
        0 <= k < states.len(),
        states[k].face_id == id,
        forall|j: int| k < j < states.len() ==> (#[trigger] states[j]).face_id != id,
    ensures
        find_state(states, id) == Some(states[k]),
    decreases states.len(),
{
    let n = states.len() - 1;
    assert(states[n] == states.last());
    if k < n {
        let front = states.drop_last();
        assert forall|j: int| k < j < front.len() implies (#[trigger] front[j]).face_id != id by {
            assert(front[j] == states[j]);
        }
        lemma_state_at(front, k, id);
    }
}

/// **A face that was not captured is left alone.**
pub proof fn law_uncaptured_faces(lib: LibraryView, states: Seq<FaceState>, i: int)
    requires
        0 <= i < lib.faces.len(),
        forall|j: int| 0 <= j < states.len() ==> (#[trigger] states[j]).face_id != lib.faces[i].id,
    ensures
        lib.with_marks(restored(states)).faces[i] == lib.faces[i],
{
    lemma_no_state_at(states, lib.faces[i].id);
}

proof fn lemma_no_state_at(states: Seq<FaceState>, id: i64)
    requires
        forall|j: int| 0 <= j < states.len() ==> (#[trigger] states[j]).face_id != id,
    ensures
        find_state(states, id) is None,
    decreases states.len(),
{
    if states.len() > 0 {
        assert(states[states.len() - 1] == states.last());
        let front = states.drop_last();
        assert forall|j: int| 0 <= j < front.len() implies (#[trigger] front[j]).face_id != id by {
            assert(front[j] == states[j]);
        }
        lemma_no_state_at(front, id);
    }
}

/// **A cluster that holds someone else is told apart.** A face of the cluster confirmed as a
/// person other than the one given is foreign; nothing else is.
pub proof fn law_foreign_faces(f: FaceView, cluster: i64, identity: Option<i64>)
    ensures
        foreign(cluster, identity)(f) <==> f.marks.cluster_id == Some(cluster) && f.marks.confirmed
            && (f.marks.identity_id matches Some(p) && identity != Some(p)),
{
}

} // verus!
