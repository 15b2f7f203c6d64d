//! What each correction does to people, said of the faces it reaches.

use vstd::prelude::*;

use crate::cluster::pair;
use crate::corrections::{
    absorb_all, apart_from_all, blocked_pairs, both_ensured, confirmed_into, faces_named,
    groups_merged, merge_sides, naming_identity, none_of, not_person, reassigned, rejected,
    reunited, second_identity, split_identity, split_off, stale,
};
use crate::faces::bound_to;
use crate::groups::{
    adopt_group, bind_group, confirm_group, confirm_identity, group_ensured, group_identity,
    group_renamed, identity_for, name_of_group, named_key, other_named,
};
use crate::identities::minted;
use crate::library::{identity_key, marked, FaceMarks, FaceView, IdentityView, LibraryView};
use crate::links::{cooccurring, recorded_apart, with_pair, with_pairs};
use crate::names::{find_identity, name_of, person_called, renamed};
use crate::question_laws::law_side_by_side_faces_are_listed;
use crate::undo_laws::on_record;

verus! {

/// The id of the person a group stands for: its key negated, or, for an appearance group, the
/// next id that is free.
pub open spec fn person_id(lib: LibraryView, group: i64) -> int {
    if group < 0 {
        -group
    } else {
        lib.last_identity() + 1
    }
}

/// Appearance clusters are numbered from zero up, so that no cluster has a person's key.
pub open spec fn clusters_numbered(lib: LibraryView) -> bool {
    forall|i: int|
        0 <= i < lib.faces.len() ==> ((#[trigger] lib.faces[i]).marks.cluster_id matches Some(c)
            ==> c >= 0)
}

/// A key that can be a group's.
pub open spec fn is_key(group: i64) -> bool {
    group > i64::MIN
}

/// The face is the person's, and the user vouched for it.
pub open spec fn vouched_as(f: FaceView, id: int) -> bool {
    f.marks.confirmed && (f.marks.identity_id matches Some(p) && p == id)
}

/// The two ids are recorded as different people.
pub open spec fn recorded_different(lib: LibraryView, a: int, b: int) -> bool {
    exists|p: (i64, i64)| #[trigger]
        lib.cannot_link.contains(p) && p.0 <= p.1 && ((p.0 == a && p.1 == b) || (p.0 == b && p.1
            == a))
}

proof fn lemma_recorded(lib: LibraryView, a: i64, b: i64)
    requires
        lib.cannot_link.contains(pair(a, b)),
    ensures
        recorded_different(lib, a as int, b as int),
{
}

proof fn lemma_with_pair(pairs: Seq<(i64, i64)>, a: i64, b: i64)
    ensures
        with_pair(pairs, a, b).contains(pair(a, b)),
        forall|p: (i64, i64)| #[trigger] pairs.contains(p) ==> with_pair(pairs, a, b).contains(p),
        forall|p: (i64, i64)|
            with_pair(pairs, a, b).contains(p) ==> p == pair(a, b) || #[trigger] pairs.contains(p),
{
    let after = with_pair(pairs, a, b);
    if !pairs.contains(pair(a, b)) {
        assert(after[pairs.len() as int] == pair(a, b));
    }
    assert forall|p: (i64, i64)| #[trigger] pairs.contains(p) implies after.contains(p) by {
        let k = choose|k: int| 0 <= k < pairs.len() && pairs[k] == p;
        assert(after[k] == p);
    }
}

proof fn lemma_last_nonnegative(lib: LibraryView)
    requires
        lib.wf(),
    ensures
        lib.last_identity() >= 0,
{
    if lib.identities.len() > 0 {
        assert(lib.identities[lib.identities.len() - 1].id >= 1);
    }
}

/// **A merge makes one person of both groups.** If just one of them is named, that one
/// survives; else the first does. Every face of either is the survivor's, vouched for, and no
/// other face changes. The survivor keeps their name.
pub proof fn law_merge_makes_one_person(lib: LibraryView, into: i64, from: i64, i: int)
    requires
        lib.wf(),
        on_record(lib),
        clusters_numbered(lib),
        lib.last_identity() < i64::MAX,
        is_key(into),
        is_key(from),
        0 <= i < lib.faces.len(),
    ensures
        ({
            let survivor = if name_of_group(lib, from) is Some && name_of_group(lib, into) is None {
                from
            } else {
                into
            };
            let (was, now) = (lib.faces[i], groups_merged(lib, into, from).faces[i]);
            let member = was.marks.group() == Some(into) || was.marks.group() == Some(from);
            &&& member ==> vouched_as(now, person_id(lib, survivor))
            &&& !member ==> now == was
            &&& now.marks.cluster_id == was.marks.cluster_id
        }),
        name_of_group(lib, from) is Some && name_of_group(lib, into) is None ==> groups_merged(
            lib,
            into,
            from,
        ).identities == lib.identities,
        into < 0 && from < 0 ==> groups_merged(lib, into, from).identities == lib.identities,
        groups_merged(lib, into, from).cannot_link == lib.cannot_link,
{
    lemma_last_nonnegative(lib);
    let (a, b) = merge_sides(lib, into, from);
    let id = identity_for(lib, a);
    let held = group_ensured(lib, a);
    let bound = held.with_marks(bind_group(b, id));
    let done = bound.with_marks(confirm_identity(id));
    let was = lib.faces[i];
    if a >= 0 {
        assert(held.faces[i] == marked(bind_group(a, id))(was));
    } else {
        assert(held.faces[i] == was);
    }
    assert(bound.faces[i] == marked(bind_group(b, id))(held.faces[i]));
    assert(done.faces[i] == marked(confirm_identity(id))(bound.faces[i]));
}

/// **Moved faces are the target's, and the two are different people.** The listed faces become
/// the target's, vouched for; no other face is vouched for or moved from one person to
/// another. Source and target are recorded as different people, unless they are one.
pub proof fn law_moved_faces_change_hands(
    lib: LibraryView,
    ids: Seq<i64>,
    source: i64,
    target: i64,
    i: int,
)
    requires
        lib.wf(),
        on_record(lib),
        clusters_numbered(lib),
        lib.last_identity() < i64::MAX - 1,
        source < 0,
        target < 0,
        is_key(source),
        is_key(target),
        0 <= i < lib.faces.len(),
    ensures
        ({
            let after = reassigned(lib, ids, source, target);
            &&& ids.contains(lib.faces[i].id) ==> vouched_as(
                after.faces[i],
                person_id(lib, target),
            ) && !after.faces[i].marks.ignored
            &&& !ids.contains(lib.faces[i].id) ==> after.faces[i] == lib.faces[i]
            &&& source != target ==> recorded_different(
                after,
                person_id(lib, source),
                person_id(lib, target),
            )
            &&& source == target ==> after.cannot_link == lib.cannot_link
            &&& after.identities == lib.identities
        }),
{
    let (s, t) = (identity_for(lib, source), identity_for(lib, target));
    lemma_with_pair(lib.cannot_link, s, t);
    let after = reassigned(lib, ids, source, target);
    assert(after.faces[i] == marked(bound_to(ids, t))(lib.faces[i]));
    if source != target {
        assert(after.cannot_link.contains(pair(s, t)));
        lemma_recorded(after, s, t);
    }
}

/// **Moving faces out of, or into, an appearance group makes a person of it first.** The
/// listed faces are the target's, vouched for, and the two persons are recorded as different.
pub proof fn law_moved_faces_from_a_group(
    lib: LibraryView,
    ids: Seq<i64>,
    source: i64,
    target: i64,
    i: int,
)
    requires
        lib.wf(),
        on_record(lib),
        clusters_numbered(lib),
        lib.last_identity() < i64::MAX - 1,
        is_key(target),
        source >= 0,
        target < 0,
        -target <= lib.last_identity(),
        0 <= i < lib.faces.len(),
    ensures
        ({
            let after = reassigned(lib, ids, source, target);
            &&& ids.contains(lib.faces[i].id) ==> vouched_as(after.faces[i], -target)
            &&& !ids.contains(lib.faces[i].id) ==> after.faces[i].marks.confirmed
                == lib.faces[i].marks.confirmed && (lib.faces[i].marks.identity_id is Some
                ==> after.faces[i] == lib.faces[i])
            &&& recorded_different(after, person_id(lib, source), -target)
        }),
{
    lemma_last_nonnegative(lib);
    let s = identity_for(lib, source);
    let held = group_ensured(lib, source);
    let t = second_identity(lib, source, target);
    assert(t == -target);
    let after = reassigned(lib, ids, source, target);
    assert(held.faces[i] == marked(bind_group(source, s))(lib.faces[i]));
    assert(after.faces[i] == marked(bound_to(ids, t))(held.faces[i]));
    lemma_with_pair(lib.cannot_link, s, t);
    assert(after.cannot_link.contains(pair(s, t)));
    lemma_recorded(after, s, t);
}

/// **Faces that are split off are a new person.** They get an id that no one has, vouched for,
/// under the name given; the new person and the source are recorded as different people. A
/// face that was not listed keeps its person, if it has one.
pub proof fn law_split_makes_a_new_person(
    lib: LibraryView,
    ids: Seq<i64>,
    source: i64,
    name: Option<Seq<char>>,
    i: int,
)
    requires
        lib.wf(),
        on_record(lib),
        clusters_numbered(lib),
        lib.last_identity() < i64::MAX - 1,
        is_key(source),
        name matches Some(n) ==> n.len() > 0,
        0 <= i < lib.faces.len(),
        source < 0 ==> -source <= lib.last_identity(),
    ensures
        ({
            let after = split_off(lib, ids, source, name);
            let id = split_identity(lib, source);
            &&& id > lib.last_identity()
            &&& ids.contains(lib.faces[i].id) ==> vouched_as(after.faces[i], id as int)
            &&& !ids.contains(lib.faces[i].id) ==> after.faces[i].marks.confirmed
                == lib.faces[i].marks.confirmed && (lib.faces[i].marks.identity_id is Some
                ==> after.faces[i] == lib.faces[i])
            &&& recorded_different(after, person_id(lib, source), id as int)
            &&& after.identities.len() > 0 && after.identities.last() == (IdentityView { id, name })
            &&& forall|k: int|
                0 <= k < lib.identities.len() ==> #[trigger] after.identities[k]
                    == lib.identities[k]
        }),
{
    lemma_last_nonnegative(lib);
    let held = group_ensured(lib, source);
    let id = split_identity(lib, source);
    let s = identity_for(lib, source);
    assert(held.last_identity() >= lib.last_identity() && held.last_identity() < i64::MAX) by {
        if source >= 0 {
            assert(minted(lib).identities.last().id == lib.last_identity() + 1);
        }
    }
    let fresh = minted(held);
    assert(fresh.identities.last() == (IdentityView { id, name: None }));
    let bound = fresh.with_marks(bound_to(ids, id));
    if source >= 0 {
        assert(held.faces[i] == marked(bind_group(source, s))(lib.faces[i]));
    }
    assert(bound.faces[i] == marked(bound_to(ids, id))(held.faces[i]));
    let n = held.identities.len() as int;
    assert forall|k: int| 0 <= k < n implies (#[trigger] held.identities[k]).id < id by {
        if k < lib.identities.len() {
            assert(lib.identities[k].id <= lib.last_identity()) by {
                if k < lib.identities.len() - 1 {
                    assert(lib.identities[k].id < lib.identities[lib.identities.len() - 1].id);
                }
            }
        }
    }
    let called = match name {
        Some(c) => group_renamed(bound, identity_key(id), c),
        None => bound,
    };
    if let Some(c) = name {
        assert(group_identity(identity_key(id)) == Some(id));
        assert(called.identities == bound.identities.map_values(renamed(id, Some(c))));
        assert(called.faces[i] == marked(confirm_identity(id))(bound.faces[i]));
        assert(called.identities.last() == (IdentityView { id, name }));
    }
    assert forall|k: int| 0 <= k < lib.identities.len() implies #[trigger] called.identities[k]
        == lib.identities[k] by {
        assert(held.identities[k].id < id);
    }
    lemma_with_pair(called.cannot_link, s, id);
    let after = split_off(lib, ids, source, name);
    assert(after.cannot_link.contains(pair(s, id)));
    lemma_recorded(after, s, id);
}

/// **Faces confirmed into a person are theirs, and nobody is declared different.**
pub proof fn law_confirmed_faces_join(lib: LibraryView, ids: Seq<i64>, target: i64, i: int)
    requires
        lib.wf(),
        on_record(lib),
        clusters_numbered(lib),
        lib.last_identity() < i64::MAX,
        is_key(target),
        0 <= i < lib.faces.len(),
    ensures
        ({
            let after = confirmed_into(lib, ids, target);
            &&& ids.contains(lib.faces[i].id) ==> vouched_as(
                after.faces[i],
                person_id(lib, target),
            )
            &&& !ids.contains(lib.faces[i].id) ==> after.faces[i].marks.confirmed
                == lib.faces[i].marks.confirmed && (lib.faces[i].marks.identity_id is Some
                || target < 0 ==> after.faces[i] == lib.faces[i])
            &&& after.cannot_link == lib.cannot_link
        }),
{
    let held = group_ensured(lib, target);
    let t = identity_for(lib, target);
    if target >= 0 {
        assert(held.faces[i] == marked(bind_group(target, t))(lib.faces[i]));
    }
    assert(confirmed_into(lib, ids, target).faces[i] == marked(bound_to(ids, t))(held.faces[i]));
}

/// **"Not the same" makes two people of two groups.** The faces of each are vouched for as a
/// person of their own, the two are recorded as different people, and no other face changes.
pub proof fn law_rejected_groups_are_two_people(lib: LibraryView, a: i64, b: i64, i: int)
    requires
        lib.wf(),
        on_record(lib),
        clusters_numbered(lib),
        lib.last_identity() < i64::MAX - 1,
        is_key(a),
        is_key(b),
        a != b,
        0 <= i < lib.faces.len(),
        a < 0 ==> -a <= lib.last_identity(),
        b < 0 ==> -b <= lib.last_identity(),
    ensures
        ({
            let after = rejected(lib, a, b);
            let (p, q) = (identity_for(lib, a) as int, second_identity(lib, a, b) as int);
            let was = lib.faces[i];
            &&& p == person_id(lib, a)
            &&& q == (if b < 0 {
                -b
            } else if a < 0 {
                lib.last_identity() + 1
            } else {
                lib.last_identity() + 2
            })
            &&& p != q
            &&& recorded_different(after, p, q)
            &&& was.marks.group() == Some(a) ==> vouched_as(after.faces[i], p)
            &&& was.marks.group() == Some(b) ==> vouched_as(after.faces[i], q)
            &&& was.marks.group() != Some(a) && was.marks.group() != Some(b) ==> after.faces[i]
                == was
        }),
{
    lemma_last_nonnegative(lib);
    let one = group_ensured(lib, a);
    let both = both_ensured(lib, a, b);
    let (p, q) = (identity_for(lib, a), second_identity(lib, a, b));
    assert(one.last_identity() == if a >= 0 {
        lib.last_identity() + 1
    } else {
        lib.last_identity() as int
    }) by {
        if a >= 0 {
            assert(minted(lib).identities.last().id == lib.last_identity() + 1);
        }
    }
    let was = lib.faces[i];
    if a >= 0 {
        assert(one.faces[i] == marked(bind_group(a, p))(was));
    }
    if b >= 0 {
        assert(both.faces[i] == marked(bind_group(b, q))(one.faces[i]));
    }
    let apart = recorded_apart(both, p, q);
    lemma_with_pair(both.cannot_link, p, q);
    let x = apart.with_marks(confirm_identity(p));
    let y = x.with_marks(confirm_identity(q));
    assert(x.faces[i] == marked(confirm_identity(p))(both.faces[i]));
    assert(y.faces[i] == marked(confirm_identity(q))(x.faces[i]));
    assert(y.cannot_link.contains(pair(p, q)));
    lemma_recorded(y, p, q);
}

/// **"Not this person" makes a competitor of the group.** Its faces are vouched for as someone
/// of their own, recorded as different from the person; the person's own faces are no more
/// vouched for than before.
pub proof fn law_rejected_group_competes(lib: LibraryView, person: i64, other: i64, i: int)
    requires
        lib.wf(),
        on_record(lib),
        clusters_numbered(lib),
        lib.last_identity() < i64::MAX - 1,
        is_key(person),
        is_key(other),
        person < 0,
        person != other,
        -person <= lib.last_identity(),
        other < 0 ==> -other <= lib.last_identity(),
        0 <= i < lib.faces.len(),
    ensures
        ({
            let after = not_person(lib, person, other);
            let o = person_id(lib, other);
            let was = lib.faces[i];
            &&& recorded_different(after, -person, o)
            &&& was.marks.group() == Some(other) ==> vouched_as(after.faces[i], o)
            &&& was.marks.group() != Some(other) ==> after.faces[i] == was
        }),
{
    lemma_last_nonnegative(lib);
    let (p, o) = (identity_for(lib, person), second_identity(lib, person, other));
    let both = both_ensured(lib, person, other);
    let was = lib.faces[i];
    if other >= 0 {
        assert(both.faces[i] == marked(bind_group(other, o))(was));
    }
    lemma_with_pair(both.cannot_link, p, o);
    let after = not_person(lib, person, other);
    assert(after.faces[i] == marked(confirm_identity(o))(both.faces[i]));
    assert(after.cannot_link.contains(pair(p, o)));
    lemma_recorded(after, p, o);
}

proof fn lemma_apart_from_all(lib: LibraryView, id: i64, people: Seq<i64>)
    requires
        forall|k: int| 0 <= k < people.len() ==> (#[trigger] people[k]) < 0,
    ensures
        apart_from_all(lib, id, people).faces == lib.faces,
        apart_from_all(lib, id, people).identities == lib.identities,
        forall|p: (i64, i64)| #[trigger]
            lib.cannot_link.contains(p) ==> apart_from_all(lib, id, people).cannot_link.contains(p),
        forall|k: int|
            0 <= k < people.len() && id != group_identity(#[trigger] people[k])->0
                ==> apart_from_all(lib, id, people).cannot_link.contains(
                pair(id, group_identity(people[k])->0),
            ),
    decreases people.len(),
{
    if people.len() > 0 {
        let front = people.drop_last();
        let n = people.len() - 1;
        assert forall|k: int| 0 <= k < front.len() implies (#[trigger] front[k]) < 0 by {
            assert(front[k] == people[k]);
        }
        lemma_apart_from_all(lib, id, front);
        let held = apart_from_all(lib, id, front);
        let last = people.last();
        assert(people[n] == last);
        let q = group_identity(last)->0;
        lemma_with_pair(held.cannot_link, id, q);
        let after = apart_from_all(lib, id, people);
        assert(after == recorded_apart(held, id, q));
        assert forall|k: int|
            0 <= k < people.len() && id != group_identity(#[trigger] people[k])->0 implies after.cannot_link.contains(
        pair(id, group_identity(people[k])->0)) by {
            if k < n {
                assert(front[k] == people[k]);
            }
        }
    }
}

/// **"Someone else" parts a group from every candidate.** It is vouched for as someone of its
/// own, and recorded as different from each of the persons; their faces do not change.
pub proof fn law_someone_else_is_none_of_them(
    lib: LibraryView,
    other: i64,
    people: Seq<i64>,
    k: int,
    i: int,
)
    requires
        lib.wf(),
        on_record(lib),
        clusters_numbered(lib),
        lib.last_identity() < i64::MAX,
        is_key(other),
        other < 0 ==> -other <= lib.last_identity(),
        forall|j: int|
            0 <= j < people.len() ==> i64::MIN < (#[trigger] people[j]) < 0 && people[j] != other
                && -people[j] <= lib.last_identity(),
        0 <= k < people.len(),
        0 <= i < lib.faces.len(),
    ensures
        ({
            let after = none_of(lib, other, people);
            let o = person_id(lib, other);
            let was = lib.faces[i];
            &&& recorded_different(after, o, -people[k])
            &&& was.marks.group() == Some(other) ==> vouched_as(after.faces[i], o)
            &&& was.marks.group() != Some(other) ==> after.faces[i] == was
        }),
{
    lemma_last_nonnegative(lib);
    let id = identity_for(lib, other);
    let held = group_ensured(lib, other);
    lemma_apart_from_all(held, id, people);
    let apart = apart_from_all(held, id, people);
    let after = none_of(lib, other, people);
    if other >= 0 {
        assert(held.faces[i] == marked(bind_group(other, id))(lib.faces[i]));
    }
    assert(after.faces[i] == marked(confirm_identity(id))(held.faces[i]));
    let q = group_identity(people[k])->0;
    assert(q == -people[k]);
    assert(after.cannot_link.contains(pair(id, q)));
    lemma_recorded(after, id, q);
}

/// What absorbing leaves of a face: it is the person's, or as it was.
spec fn absorbed_or_same(was: FaceView, now: FaceView, id: i64) -> bool {
    now == was || (now.marks.identity_id == Some(id) && (was.marks.confirmed
        || was.marks.identity_id is None ==> now.marks.confirmed) && now == (FaceView {
        marks: FaceMarks {
            identity_id: Some(id),
            confirmed: now.marks.confirmed,
            ..was.marks
        },
        ..was
    }))
}

proof fn lemma_absorb_all(
    lib: LibraryView,
    into: i64,
    id: i64,
    clusters: Seq<i64>,
    k: int,
    i: int,
)
    requires
        0 <= i < lib.faces.len(),
        id >= 1,
        clusters_numbered(lib),
        forall|a: int|
            0 <= a < lib.faces.len() ==> ((#[trigger] lib.faces[a]).marks.identity_id matches Some(p)
                ==> p >= 1 && find_identity(lib.identities, p) is Some),
        find_identity(lib.identities, id) is Some,
    ensures
        absorb_all(lib, into, id, clusters).identities == lib.identities,
        absorb_all(lib, into, id, clusters).cannot_link == lib.cannot_link,
        absorb_all(lib, into, id, clusters).faces.len() == lib.faces.len(),
        absorbed_or_same(lib.faces[i], absorb_all(lib, into, id, clusters).faces[i], id),
        0 <= k < clusters.len() && clusters[k] != into && !other_named(
            lib,
            clusters[k],
            Some(id),
        ) && lib.faces[i].marks.group() == Some(clusters[k]) ==> absorb_all(
            lib,
            into,
            id,
            clusters,
        ).faces[i].marks.identity_id == Some(id),
        (forall|j: int|
            0 <= j < clusters.len() && lib.faces[i].marks.group() == Some(#[trigger] clusters[j])
                ==> clusters[j] == into || other_named(lib, clusters[j], Some(id)))
            && lib.faces[i].marks.identity_id != Some(id) ==> absorb_all(
            lib,
            into,
            id,
            clusters,
        ).faces[i] == lib.faces[i],
    decreases clusters.len(),
{
    if clusters.len() > 0 {
        let front = clusters.drop_last();
        let n = clusters.len() - 1;
        let from = clusters.last();
        assert(clusters[n] == from);
        lemma_absorb_all(lib, into, id, front, k, i);
        let held = absorb_all(lib, into, id, front);
        let after = absorb_all(lib, into, id, clusters);
        if 0 <= k < n {
            assert(front[k] == clusters[k]);
        }
        assert(forall|j: int| 0 <= j < n ==> #[trigger] front[j] == clusters[j]);
        if (forall|j: int|
            0 <= j < clusters.len() && lib.faces[i].marks.group() == Some(#[trigger] clusters[j])
                ==> clusters[j] == into || other_named(lib, clusters[j], Some(id))) {
            assert forall|j: int|
                0 <= j < front.len() && lib.faces[i].marks.group() == Some(
                    #[trigger] front[j],
                ) implies front[j] == into || other_named(lib, front[j], Some(id)) by {
                assert(front[j] == clusters[j]);
            }
        }
        assert(other_named(held, from, Some(id)) == other_named(lib, from, Some(id)));
        if from != into && !other_named(held, from, Some(id)) {
            let x = held.with_marks(adopt_group(held, from, id));
            let y = x.with_marks(confirm_group(from, Some(id)));
            let f = held.faces[i];
            assert(x.faces[i] == marked(adopt_group(held, from, id))(f));
            assert(y.faces[i] == marked(confirm_group(from, Some(id)))(x.faces[i]));
            assert(after.faces[i] == marked(bind_group(from, id))(y.faces[i]));
            assert(lib.faces[i].marks.identity_id matches Some(p) ==> p >= 1);
            if f.marks.group() == Some(from) && f.marks.identity_id is Some
                && f.marks.identity_id != Some(id) {
                let p = f.marks.identity_id->0;
                assert(group_identity(from) == Some(p));
                assert(name_of(lib.identities, p) is None);
            }
        }
    }
}

/// **Absorbing folds every group that is nobody else's.** A group of the batch that is not
/// another named person becomes the person's: its free faces vouched for, those confirmed
/// under an unnamed competitor too. A group that is another named person is left alone, and
/// so is every face outside the batch.
pub proof fn law_absorbed_groups_are_the_persons(
    lib: LibraryView,
    into: i64,
    clusters: Seq<i64>,
    k: int,
    i: int,
)
    requires
        lib.wf(),
        clusters_numbered(lib),
        i64::MIN < into < 0,
        find_identity(lib.identities, (-into) as i64) is Some,
        forall|a: int|
            0 <= a < lib.faces.len() ==> ((#[trigger] lib.faces[a]).marks.identity_id matches Some(p)
                ==> p >= 1 && find_identity(lib.identities, p) is Some),
        0 <= k < clusters.len(),
        0 <= i < lib.faces.len(),
    ensures
        ({
            let after = absorb_all(lib, into, (-into) as i64, clusters);
            let (was, now) = (lib.faces[i], after.faces[i]);
            let named_other = clusters[k] < 0 && name_of_group(lib, clusters[k]) is Some;
            &&& was.marks.group() == Some(clusters[k]) && clusters[k] != into && !named_other
                ==> now.marks.identity_id == Some((-into) as i64) && (was.marks.identity_id is None
                || was.marks.confirmed ==> now.marks.confirmed)
            &&& (forall|j: int|
                0 <= j < clusters.len() ==> was.marks.group() != Some(#[trigger] clusters[j]))
                && was.marks.group() != Some(into) ==> now == was
            &&& was.marks.identity_id is Some && was.marks.identity_id->0 != -into && name_of(
                lib.identities,
                was.marks.identity_id->0,
            ) is Some ==> now == was
            &&& now.marks.cluster_id == was.marks.cluster_id
            &&& after.cannot_link == lib.cannot_link
        }),
{
    let id = (-into) as i64;
    lemma_absorb_all(lib, into, id, clusters, k, i);
    let was = lib.faces[i];
    if was.marks.identity_id is Some {
        let p = was.marks.identity_id->0;
        assert(p >= 1);
        if p != id && name_of(lib.identities, p) is Some {
            assert(group_identity((-p) as i64) == Some(p));
            assert forall|j: int|
                0 <= j < clusters.len() && was.marks.group() == Some(#[trigger] clusters[j]) implies
            clusters[j] == into || other_named(lib, clusters[j], Some(id)) by {
                assert(clusters[j] == -p);
            }
        }
    }
}

/// **"The same person after all" excepts every pair in question and unites the groups.** Each
/// pair of faces of the two groups in one photo is excepted, and the faces of the second group
/// are the first's person, vouched for.
pub proof fn law_reunited_groups_are_one_person(lib: LibraryView, into: i64, from: i64, i: int, j: int)
    requires
        lib.wf(),
        on_record(lib),
        clusters_numbered(lib),
        lib.last_identity() < i64::MAX,
        i64::MIN < into < 0,
        is_key(from),
        0 <= i < lib.faces.len(),
        0 <= j < lib.faces.len(),
    ensures
        ({
            let after = reunited(lib, into, from);
            let (f, g) = (lib.faces[i], lib.faces[j]);
            &&& f.marks.group() == Some(into) && g.marks.group() == Some(from) && f.photo_id
                == g.photo_id ==> after.same_photo_ok.contains((f.id, g.id)) && f.id <= g.id
                || after.same_photo_ok.contains((g.id, f.id)) && g.id <= f.id
            &&& f.marks.group() == Some(from) ==> vouched_as(after.faces[i], -into)
            &&& f.marks.group() == Some(into) ==> vouched_as(after.faces[i], -into)
            &&& f.marks.group() != Some(into) && f.marks.group() != Some(from) ==> after.faces[i]
                == f
            &&& after.cannot_link == lib.cannot_link
            &&& after.identities == lib.identities
        }),
{
    let id = identity_for(lib, into);
    let (f, g) = (lib.faces[i], lib.faces[j]);
    let blocked = blocked_pairs(lib, into, from);
    let ok = LibraryView { same_photo_ok: with_pairs(lib.same_photo_ok, blocked), ..lib };
    let x = ok.with_marks(adopt_group(ok, from, id));
    let y = x.with_marks(bind_group(from, id));
    let after = reunited(lib, into, from);
    assert(x.faces[i] == marked(adopt_group(ok, from, id))(f));
    assert(y.faces[i] == marked(bind_group(from, id))(x.faces[i]));
    assert(after.faces[i] == marked(confirm_identity(id))(y.faces[i]));
    if f.marks.group() == Some(into) && g.marks.group() == Some(from) && f.photo_id == g.photo_id {
        let c = (f.photo_id, f.id, g.id);
        law_side_by_side_faces_are_listed(lib, into, from, c);
        let listed = cooccurring(lib.faces, into, from, lib.faces.len());
        assert(listed.contains(c));
        let k = choose|k: int| 0 <= k < listed.len() && listed[k] == c;
        assert(blocked[k] == (f.id, g.id));
        lemma_with_pairs(lib.same_photo_ok, blocked, k);
    }
}

/// Every pair that is added is there.
pub proof fn lemma_with_pairs(pairs: Seq<(i64, i64)>, more: Seq<(i64, i64)>, k: int)
    ensures
        forall|p: (i64, i64)| #[trigger] pairs.contains(p) ==> with_pairs(pairs, more).contains(p),
        0 <= k < more.len() ==> with_pairs(pairs, more).contains(pair(more[k].0, more[k].1)),
        forall|p: (i64, i64)|
            with_pairs(pairs, more).contains(p) ==> #[trigger] pairs.contains(p) || exists|q: int|
                0 <= q < more.len() && p == pair((#[trigger] more[q]).0, more[q].1),
    decreases more.len(),
{
    if more.len() > 0 {
        let front = more.drop_last();
        let n = more.len() - 1;
        lemma_with_pairs(pairs, front, k);
        let held = with_pairs(pairs, front);
        let after = with_pairs(pairs, more);
        assert(more[n] == more.last());
        lemma_with_pair(held, more.last().0, more.last().1);
        if 0 <= k < n {
            assert(front[k] == more[k]);
        }
        assert forall|p: (i64, i64)| after.contains(p) implies #[trigger] pairs.contains(p)
            || exists|q: int| 0 <= q < more.len() && p == pair((#[trigger] more[q]).0, more[q].1) by {
            if held.contains(p) {
                if !pairs.contains(p) {
                    let q = choose|q: int|
                        0 <= q < front.len() && p == pair((#[trigger] front[q]).0, front[q].1);
                    assert(more[q] == front[q]);
                }
            } else {
                assert(p == pair(more[n].0, more[n].1));
            }
        }
    }
}

/// **Naming a group makes it a named person.** Its faces are vouched for, no other face changes,
/// the name is recorded, and the key to follow is the person's.
pub proof fn law_named_group_is_a_person(lib: LibraryView, group: i64, name: Seq<char>, i: int)
    requires
        lib.wf(),
        on_record(lib),
        clusters_numbered(lib),
        lib.last_identity() < i64::MAX,
        is_key(group),
        name.len() > 0,
        0 <= i < lib.faces.len(),
    ensures
        ({
            let after = group_renamed(lib, group, name);
            let was = lib.faces[i];
            let id = person_id(lib, group);
            &&& was.marks.group() == Some(group) ==> vouched_as(after.faces[i], id)
            &&& was.marks.group() != Some(group) ==> after.faces[i] == was
            &&& named_key(lib, group, name) == -id
            &&& forall|k: int|
                0 <= k < after.identities.len() ==> (#[trigger] after.identities[k]).name == (
                if after.identities[k].id == id {
                    Some(name)
                } else {
                    lib.identities[k].name
                })
            &&& group < 0 ==> after.identities.len() == lib.identities.len()
            &&& group >= 0 ==> after.identities.len() == lib.identities.len() + 1
                && after.identities.last().id == id
            &&& forall|k: int|
                0 <= k < lib.identities.len() ==> (#[trigger] after.identities[k]).id
                    == lib.identities[k].id
        }),
{
    lemma_last_nonnegative(lib);
    let id = identity_for(lib, group);
    let held = group_ensured(lib, group);
    let after = group_renamed(lib, group, name);
    if group >= 0 {
        assert(held.faces[i] == marked(bind_group(group, id))(lib.faces[i]));
        assert(held.identities.last().id == id);
    }
    assert(after.faces[i] == marked(confirm_identity(id))(held.faces[i]));
    assert(after.identities == held.identities.map_values(renamed(id, Some(name))));
}

/// **An empty name clears a person's name** and changes nothing else; an appearance group has
/// none to clear.
pub proof fn law_empty_name_clears(lib: LibraryView, group: i64)
    ensures
        group >= 0 ==> group_renamed(lib, group, Seq::empty()) == lib,
        group_renamed(lib, group, Seq::empty()).faces == lib.faces,
        named_key(lib, group, Seq::empty()) == group,
        i64::MIN < group < 0 ==> forall|k: int|
            0 <= k < lib.identities.len() ==> (#[trigger] group_renamed(
                lib,
                group,
                Seq::empty(),
            ).identities[k]) == (IdentityView {
                id: lib.identities[k].id,
                name: if lib.identities[k].id == -group {
                    None
                } else {
                    lib.identities[k].name
                },
            }),
{
}

/// **Naming faces binds just those faces.** They go to the person who has exactly that name; if
/// there is none, to a new one who gets it. Nobody is declared different.
pub proof fn law_named_faces_find_their_person(
    lib: LibraryView,
    ids: Seq<i64>,
    name: Seq<char>,
    i: int,
)
    requires
        lib.wf(),
        on_record(lib),
        clusters_numbered(lib),
        lib.last_identity() < i64::MAX,
        name.len() > 0,
        0 <= i < lib.faces.len(),
    ensures
        ({
            let after = faces_named(lib, ids, name);
            let id = naming_identity(lib, name) as int;
            &&& ids.contains(lib.faces[i].id) ==> vouched_as(after.faces[i], id)
            &&& !ids.contains(lib.faces[i].id) ==> after.faces[i] == lib.faces[i]
            &&& after.cannot_link == lib.cannot_link
            &&& exists|k: int|
                0 <= k < after.identities.len() && (#[trigger] after.identities[k]).id == id
                    && after.identities[k].name == Some(name)
            &&& (exists|k: int|
                0 <= k < lib.identities.len() && (#[trigger] lib.identities[k]).name == Some(name))
                ==> after.identities == lib.identities
            &&& (forall|k: int|
                0 <= k < lib.identities.len() ==> (#[trigger] lib.identities[k]).name != Some(name))
                ==> id > lib.last_identity()
        }),
{
    lemma_last_nonnegative(lib);
    let after = faces_named(lib, ids, name);
    let id = naming_identity(lib, name);
    lemma_person_called(lib.identities, name);
    if person_called(lib.identities, name) is Some {
        assert(after.faces[i] == marked(bound_to(ids, id))(lib.faces[i]));
        let k = choose|k: int|
            0 <= k < lib.identities.len() && (#[trigger] lib.identities[k]).name == Some(name)
                && person_called(lib.identities, name) == Some(identity_key(lib.identities[k].id));
        assert(lib.identities[k].id >= 1);
        assert(after.identities[k].id == id);
    } else {
        let fresh = minted(lib);
        let held = group_renamed(fresh, identity_key(id), name);
        assert(group_identity(identity_key(id)) == Some(id));
        assert(held.faces[i] == marked(confirm_identity(id))(lib.faces[i]));
        assert(held.faces[i] == lib.faces[i]);
        assert(after.faces[i] == marked(bound_to(ids, id))(held.faces[i]));
        let k = lib.identities.len() as int;
        assert(held.identities == fresh.identities.map_values(renamed(id, Some(name))));
        assert(after.identities[k].id == id);
    }
}

proof fn lemma_person_called(identities: Seq<IdentityView>, name: Seq<char>)
    ensures
        person_called(identities, name) is Some ==> exists|k: int|
            0 <= k < identities.len() && (#[trigger] identities[k]).name == Some(name)
                && person_called(identities, name) == Some(identity_key(identities[k].id)),
        person_called(identities, name) is None ==> forall|k: int|
            0 <= k < identities.len() ==> (#[trigger] identities[k]).name != Some(name),
    decreases identities.len(),
{
    if identities.len() > 0 {
        let rest = identities.drop_first();
        lemma_person_called(rest, name);
        if identities[0].name != Some(name) {
            if person_called(rest, name) is Some {
                let k = choose|k: int|
                    0 <= k < rest.len() && (#[trigger] rest[k]).name == Some(name)
                        && person_called(rest, name) == Some(identity_key(rest[k].id));
                assert(identities[k + 1] == rest[k]);
            } else {
                assert forall|k: int| 0 <= k < identities.len() implies (
                #[trigger] identities[k]).name != Some(name) by {
                    if k > 0 {
                        assert(rest[k - 1] == identities[k]);
                    }
                }
            }
        }
    }
}

/// **An answer to another clustering is refused.** One that expects the current generation, or
/// none, is not.
pub proof fn law_stale_answers(current: i64, expected: Option<i64>)
    ensures
        stale(current, None) == false,
        stale(current, Some(current)) == false,
        expected matches Some(e) && e != current ==> stale(current, expected),
{
}

} // verus!
