//! Undo gives back what was: no correction leaves a trace once it is taken back.

use vstd::prelude::*;

use crate::cluster::pair;
use crate::confirmations::{clear_tentative, lemma_find_identity};
use crate::corrections::{
    absorb_all, apart_added, apart_from_all, apart_undo, blocked_pairs, both_ensured,
    confirmed_into, face_states, faces_back, faces_named, faces_named_undo, group_states,
    groups_merged, identity_under, merge_sides, naming_identity, naming_undo, none_of,
    not_person, reassigned, reassigned_apart, rejected, rejects, rejects_added, reunited,
    second_identity, split_identity, split_off, split_undo, state_in, undone, UndoView,
};
use crate::faces::{bound_to, dropped, find_state, freed, listed, restored, state_of, FaceState};
use crate::groups::{
    adopt_group, bind_group, confirm_group, confirm_identity, group_ensured, group_renamed,
    identity_for,
};
use crate::identities::minted;
use crate::library::{
    faces_wf, identities_wf, identity_key, marked, FaceMarks, FaceView, IdentityView,
    LibraryView,
};
use crate::links::{
    law_removing_undoes_adding, new_pairs, newly_apart, other_than, recorded_apart, with_pairs,
    without_pair, without_pairs,
};
use crate::names::{name_of, person_called, renamed, with_identity_name};
use crate::rows::{kept, select};

verus! {

/// Every face's person is on record.
pub open spec fn on_record(lib: LibraryView) -> bool {
    forall|i: int|
        0 <= i < lib.faces.len() ==> ((#[trigger] lib.faces[i]).marks.identity_id matches Some(id)
            ==> 1 <= id <= lib.last_identity())
}

/// `after` is `before` again: every face, pair and name is as it was. Identities minted
/// in between may remain, without a name and without faces.
pub open spec fn as_before(before: LibraryView, after: LibraryView) -> bool {
    &&& after.faces == before.faces
    &&& after.photos == before.photos
    &&& after.roots == before.roots
    &&& after.cluster_names == before.cluster_names
    &&& after.cannot_link == before.cannot_link
    &&& after.same_photo_ok == before.same_photo_ok
    &&& after.meta == before.meta
    &&& after.identities.len() >= before.identities.len()
    &&& forall|k: int|
        0 <= k < before.identities.len() ==> #[trigger] after.identities[k] == before.identities[k]
    &&& forall|k: int|
        before.identities.len() <= k < after.identities.len() ==> (
        #[trigger] after.identities[k]).name is None
}

/// `after` differs from `before` only in the marks of the faces that `captured` holds of.
spec fn confined(before: Seq<FaceView>, after: Seq<FaceView>, captured: spec_fn(FaceView) -> bool) -> bool {
    &&& after.len() == before.len()
    &&& forall|i: int|
        #![trigger after[i]]
        #![trigger before[i]]
        0 <= i < before.len() ==> {
            &&& after[i] == (FaceView { marks: after[i].marks, ..before[i] })
            &&& !captured(before[i]) ==> after[i].marks == before[i].marks
        }
}

proof fn lemma_confined_start(before: Seq<FaceView>, captured: spec_fn(FaceView) -> bool)
    ensures
        confined(before, before, captured),
{
}

/// A mark that leaves the faces outside alone keeps the change confined.
proof fn lemma_confined_mark(
    before: Seq<FaceView>,
    now: Seq<FaceView>,
    captured: spec_fn(FaceView) -> bool,
    mark: spec_fn(FaceView) -> FaceMarks,
)
    requires
        confined(before, now, captured),
        forall|i: int|
            0 <= i < before.len() && !captured(#[trigger] before[i]) ==> mark(before[i])
                == before[i].marks,
    ensures
        confined(before, now.map_values(marked(mark)), captured),
{
    let after = now.map_values(marked(mark));
    assert forall|i: int|
        #![trigger after[i]]
        #![trigger before[i]]
        0 <= i < before.len() implies {
        &&& after[i] == (FaceView { marks: after[i].marks, ..before[i] })
        &&& !captured(before[i]) ==> after[i].marks == before[i].marks
    } by {
        assert(now[i] == (FaceView { marks: now[i].marks, ..before[i] }));
        if !captured(before[i]) {
            assert(now[i] == before[i]);
        }
    }
}

proof fn lemma_no_state(faces: Seq<FaceView>, pick: spec_fn(FaceView) -> Option<FaceState>, id: i64)
    requires
        forall|i: int|
            0 <= i < faces.len() ==> (pick(#[trigger] faces[i]) matches Some(s) ==> s == state_of(
                faces[i],
            )),
        forall|i: int| 0 <= i < faces.len() ==> (#[trigger] faces[i]).id != id,
    ensures
        find_state(select(faces, pick), id) is None,
    decreases faces.len(),
{
    if faces.len() > 0 {
        let front = faces.drop_last();
        assert forall|i: int| 0 <= i < front.len() implies (pick(#[trigger] front[i]) matches Some(
            s,
        ) ==> s == state_of(front[i])) && front[i].id != id by {
            assert(front[i] == faces[i]);
        }
        lemma_no_state(front, pick, id);
        assert(faces[faces.len() - 1] == faces.last());
        let all = select(faces, pick);
        if pick(faces.last()) is Some {
            assert(all.drop_last() =~= select(front, pick));
        }
    }
}

/// A captured state is found under its face.
proof fn lemma_state_found(
    faces: Seq<FaceView>,
    pick: spec_fn(FaceView) -> Option<FaceState>,
    i: int,
)
    requires
        faces_wf(faces),
        forall|k: int|
            0 <= k < faces.len() ==> (pick(#[trigger] faces[k]) matches Some(s) ==> s == state_of(
                faces[k],
            )),
        0 <= i < faces.len(),
    ensures
        find_state(select(faces, pick), faces[i].id) == pick(faces[i]),
    decreases faces.len(),
{
    let front = faces.drop_last();
    let all = select(faces, pick);
    let last = faces.last();
    assert(faces[faces.len() - 1] == last);
    assert forall|k: int| 0 <= k < front.len() implies (pick(#[trigger] front[k]) matches Some(s)
        ==> s == state_of(front[k])) by {
        assert(front[k] == faces[k]);
    }
    if pick(last) is Some {
        assert(all.drop_last() =~= select(front, pick));
    }
    if i < front.len() {
        assert(faces_wf(front)) by {
            assert forall|a: int| 0 <= a < front.len() implies (#[trigger] front[a]).id >= 1 by {
                assert(front[a] == faces[a]);
            }
            assert forall|a: int, b: int| 0 <= a < b < front.len() implies (#[trigger] front[a]).id
                < (#[trigger] front[b]).id by {
                assert(front[a] == faces[a] && front[b] == faces[b]);
            }
        }
        lemma_state_found(front, pick, i);
        assert(front[i] == faces[i]);
        assert(faces[i].id < faces[faces.len() - 1].id);
    } else {
        assert forall|k: int| 0 <= k < front.len() implies (#[trigger] front[k]).id != last.id by {
            assert(front[k] == faces[k]);
            assert(faces[k].id < faces[faces.len() - 1].id);
        }
        lemma_no_state(front, pick, last.id);
    }
}

/// Restoring what was captured undoes a confined change.
proof fn lemma_restored(
    before: Seq<FaceView>,
    after: Seq<FaceView>,
    captured: spec_fn(FaceView) -> bool,
    pick: spec_fn(FaceView) -> Option<FaceState>,
)
    requires
        faces_wf(before),
        confined(before, after, captured),
        forall|i: int|
            0 <= i < before.len() ==> pick(#[trigger] before[i]) == if captured(before[i]) {
                Some(state_of(before[i]))
            } else {
                None
            },
    ensures
        after.map_values(marked(restored(select(before, pick)))) == before,
{
    let back = after.map_values(marked(restored(select(before, pick))));
    assert forall|i: int| 0 <= i < before.len() implies back[i] == before[i] by {
        assert(pick(before[i]) is Some <==> captured(before[i]));
        lemma_state_found(before, pick, i);
        assert(after[i] == (FaceView { marks: after[i].marks, ..before[i] }));
        if captured(before[i]) {
            assert(restored(select(before, pick))(after[i]) == state_of(before[i]).marks());
        }
    }
    assert(back =~= before);
}

/// The face belongs to one of the groups.
spec fn of_groups(groups: Seq<i64>) -> spec_fn(FaceView) -> bool {
    |f: FaceView| f.marks.group() is Some && groups.contains(f.marks.group()->0)
}

/// The face is one of those listed.
spec fn of_ids(ids: Seq<i64>) -> spec_fn(FaceView) -> bool {
    |f: FaceView| ids.contains(f.id)
}

/// Confirming an identity touches only its own group.
proof fn lemma_confirm_local(lib: LibraryView, groups: Seq<i64>, id: i64)
    requires
        on_record(lib),
        groups.contains(identity_key(id)) || id > lib.last_identity(),
    ensures
        forall|i: int|
            0 <= i < lib.faces.len() && !of_groups(groups)(#[trigger] lib.faces[i])
                ==> confirm_identity(id)(lib.faces[i]) == lib.faces[i].marks,
{
    assert forall|i: int|
        0 <= i < lib.faces.len() && !of_groups(groups)(
            #[trigger] lib.faces[i],
        ) implies confirm_identity(id)(lib.faces[i]) == lib.faces[i].marks by {
        if lib.faces[i].marks.identity_id == Some(id) {
            assert(1 <= id <= lib.last_identity());
            assert(lib.faces[i].marks.group() == Some(identity_key(id)));
        }
    }
}

/// The identities of `before`, with unnamed ones behind them.
spec fn extends(before: Seq<IdentityView>, after: Seq<IdentityView>) -> bool {
    &&& after.len() >= before.len()
    &&& forall|k: int| 0 <= k < before.len() ==> #[trigger] after[k] == before[k]
    &&& forall|k: int| before.len() <= k < after.len() ==> (#[trigger] after[k]).name is None
}

/// Giving a captured group an identity keeps the change confined.
proof fn lemma_ensured(lib: LibraryView, now: LibraryView, groups: Seq<i64>, g: i64)
    requires
        confined(lib.faces, now.faces, of_groups(groups)),
        extends(lib.identities, now.identities),
        groups.contains(g),
    ensures
        confined(lib.faces, group_ensured(now, g).faces, of_groups(groups)),
        extends(lib.identities, group_ensured(now, g).identities),
{
    if g >= 0 {
        let id = identity_for(now, g);
        lemma_confined_mark(lib.faces, now.faces, of_groups(groups), bind_group(g, id));
    }
}

/// The identity of a captured group is captured with it, or new.
proof fn lemma_identity_captured(lib: LibraryView, now: LibraryView, groups: Seq<i64>, g: i64)
    requires
        groups.contains(g),
        lib.last_identity() <= now.last_identity() < i64::MAX,
    ensures
        groups.contains(identity_key(identity_for(now, g))) || identity_for(now, g)
            > lib.last_identity(),
{
    if g < 0 && g > i64::MIN {
        assert(identity_key(identity_for(now, g)) == g);
    }
}

/// Everything but the faces, the pairs and the identities is untouched.
spec fn rest_same(before: LibraryView, after: LibraryView) -> bool {
    &&& after.photos == before.photos
    &&& after.roots == before.roots
    &&& after.cluster_names == before.cluster_names
    &&& after.meta == before.meta
}

/// The identities once the undo has put a name back.
spec fn names_back(identities: Seq<IdentityView>, u: UndoView) -> Seq<IdentityView> {
    match u.renamed {
        Some(r) => identities.map_values(renamed(r.0, r.1)),
        None => identities,
    }
}

/// A group-level correction that only changed faces and minted identities.
proof fn lemma_group_undo(lib: LibraryView, after: LibraryView, groups: Seq<i64>, u: UndoView)
    requires
        lib.wf(),
        confined(lib.faces, after.faces, of_groups(groups)),
        extends(lib.identities, names_back(after.identities, u)),
        rest_same(lib, after),
        u.prior == group_states(lib, groups),
        ({
            let one = match u.added_cannot_link {
                Some(p) => without_pair(after.cannot_link, p.0, p.1),
                None => after.cannot_link,
            };
            without_pairs(one, u.added_cannot_links) == lib.cannot_link
        }),
        without_pairs(after.same_photo_ok, u.added_same_photo_ok) == lib.same_photo_ok,
    ensures
        as_before(lib, undone(after, u)),
{
    lemma_restored(lib.faces, after.faces, of_groups(groups), state_in(groups));
}

/// A face-level correction that only changed faces and minted identities.
proof fn lemma_face_undo(lib: LibraryView, after: LibraryView, ids: Seq<i64>, u: UndoView)
    requires
        lib.wf(),
        confined(lib.faces, after.faces, of_ids(ids)),
        extends(lib.identities, names_back(after.identities, u)),
        rest_same(lib, after),
        u.prior == face_states(lib, ids),
        ({
            let one = match u.added_cannot_link {
                Some(p) => without_pair(after.cannot_link, p.0, p.1),
                None => after.cannot_link,
            };
            without_pairs(one, u.added_cannot_links) == lib.cannot_link
        }),
        without_pairs(after.same_photo_ok, u.added_same_photo_ok) == lib.same_photo_ok,
    ensures
        as_before(lib, undone(after, u)),
{
    lemma_restored(lib.faces, after.faces, of_ids(ids), listed(ids));
}

/// Removing the pair a declaration added gives the pairs back.
proof fn lemma_apart_removed(lib: LibraryView, pairs: Seq<(i64, i64)>, a: i64, b: i64)
    requires
        pairs == lib.cannot_link,
    ensures
        (match newly_apart(lib, a, b) {
            Some(p) => without_pair(recorded_apart(lib, a, b).cannot_link, p.0, p.1),
            None => recorded_apart(lib, a, b).cannot_link,
        }) == pairs,
{
    if newly_apart(lib, a, b) is Some {
        law_removing_undoes_adding(pairs, a, b);
    }
}

/// **Undoing a merge** puts every face of both groups back exactly where it was.
pub proof fn law_undo_merge(lib: LibraryView, into: i64, from: i64)
    requires
        lib.wf(),
        on_record(lib),
        lib.last_identity() < i64::MAX,
    ensures
        ({
            let (a, b) = merge_sides(lib, into, from);
            as_before(
                lib,
                undone(
                    groups_merged(lib, into, from),
                    faces_back(group_states(lib, seq![a, b])),
                ),
            )
        }),
{
    let (a, b) = merge_sides(lib, into, from);
    let groups = seq![a, b];
    let id = identity_for(lib, a);
    let held = group_ensured(lib, a);
    assert(groups[0] == a && groups[1] == b);
    assert(groups.contains(a) && groups.contains(b));
    lemma_confined_start(lib.faces, of_groups(groups));
    lemma_ensured(lib, lib, groups, a);
    lemma_confined_mark(lib.faces, held.faces, of_groups(groups), bind_group(b, id));
    lemma_identity_captured(lib, lib, groups, a);
    lemma_confirm_local(lib, groups, id);
    let bound = held.with_marks(bind_group(b, id));
    lemma_confined_mark(lib.faces, bound.faces, of_groups(groups), confirm_identity(id));
    lemma_group_undo(
        lib,
        groups_merged(lib, into, from),
        groups,
        faces_back(group_states(lib, groups)),
    );
}

proof fn lemma_both_ensured(lib: LibraryView, groups: Seq<i64>, a: i64, b: i64)
    requires
        on_record(lib),
        lib.last_identity() < i64::MAX - 1,
        groups.contains(a),
        groups.contains(b),
    ensures
        confined(lib.faces, both_ensured(lib, a, b).faces, of_groups(groups)),
        extends(lib.identities, both_ensured(lib, a, b).identities),
        forall|i: int|
            0 <= i < lib.faces.len() && !of_groups(groups)(#[trigger] lib.faces[i])
                ==> confirm_identity(identity_for(lib, a))(lib.faces[i]) == lib.faces[i].marks,
        forall|i: int|
            0 <= i < lib.faces.len() && !of_groups(groups)(#[trigger] lib.faces[i])
                ==> confirm_identity(second_identity(lib, a, b))(lib.faces[i])
                == lib.faces[i].marks,
{
    lemma_confined_start(lib.faces, of_groups(groups));
    lemma_ensured(lib, lib, groups, a);
    lemma_ensured(lib, group_ensured(lib, a), groups, b);
    lemma_identity_captured(lib, lib, groups, a);
    assert(lib.last_identity() <= group_ensured(lib, a).last_identity() < i64::MAX) by {
        if a >= 0 {
            assert(minted(lib).identities.last().id == lib.last_identity() + 1);
        }
    }
    lemma_identity_captured(lib, group_ensured(lib, a), groups, b);
    lemma_confirm_local(lib, groups, identity_for(lib, a));
    lemma_confirm_local(lib, groups, second_identity(lib, a, b));
}

/// **Undoing "not the same"** puts both groups and the cannot-links back.
pub proof fn law_undo_reject(lib: LibraryView, into: i64, from: i64)
    requires
        lib.wf(),
        on_record(lib),
        lib.last_identity() < i64::MAX - 1,
    ensures
        as_before(lib, undone(rejected(lib, into, from), apart_undo(lib, into, from))),
{
    let groups = seq![into, from];
    assert(groups[0] == into && groups[1] == from);
    assert(groups.contains(into) && groups.contains(from));
    lemma_both_ensured(lib, groups, into, from);
    let (a, b) = (identity_for(lib, into), second_identity(lib, into, from));
    let both = both_ensured(lib, into, from);
    let apart = recorded_apart(both, a, b);
    let one = apart.with_marks(confirm_identity(a));
    lemma_confined_mark(lib.faces, apart.faces, of_groups(groups), confirm_identity(a));
    lemma_confined_mark(lib.faces, one.faces, of_groups(groups), confirm_identity(b));
    lemma_apart_removed(both, lib.cannot_link, a, b);
    lemma_group_undo(lib, rejected(lib, into, from), groups, apart_undo(lib, into, from));
}

/// **Undoing "not this person"** puts both groups and the cannot-links back.
pub proof fn law_undo_not_this_person(lib: LibraryView, person: i64, other: i64)
    requires
        lib.wf(),
        on_record(lib),
        lib.last_identity() < i64::MAX - 1,
    ensures
        as_before(lib, undone(not_person(lib, person, other), apart_undo(lib, person, other))),
{
    let groups = seq![person, other];
    assert(groups[0] == person && groups[1] == other);
    assert(groups.contains(person) && groups.contains(other));
    lemma_both_ensured(lib, groups, person, other);
    let (a, b) = (identity_for(lib, person), second_identity(lib, person, other));
    let both = both_ensured(lib, person, other);
    let apart = recorded_apart(both, a, b);
    lemma_confined_mark(lib.faces, apart.faces, of_groups(groups), confirm_identity(b));
    lemma_apart_removed(both, lib.cannot_link, a, b);
    lemma_group_undo(lib, not_person(lib, person, other), groups, apart_undo(lib, person, other));
}

/// **Undoing an ignore** puts every face back.
pub proof fn law_undo_ignore(lib: LibraryView, ids: Seq<i64>)
    requires
        lib.wf(),
    ensures
        as_before(lib, undone(lib.with_marks(dropped(ids)), faces_back(face_states(lib, ids)))),
{
    lemma_confined_start(lib.faces, of_ids(ids));
    lemma_confined_mark(lib.faces, lib.faces, of_ids(ids), dropped(ids));
    lemma_face_undo(lib, lib.with_marks(dropped(ids)), ids, faces_back(face_states(lib, ids)));
}

/// **Undoing a detach** puts every face back, vouched for as before.
pub proof fn law_undo_detach(lib: LibraryView, ids: Seq<i64>)
    requires
        lib.wf(),
    ensures
        as_before(lib, undone(lib.with_marks(freed(ids)), faces_back(face_states(lib, ids)))),
{
    lemma_confined_start(lib.faces, of_ids(ids));
    lemma_confined_mark(lib.faces, lib.faces, of_ids(ids), freed(ids));
    lemma_face_undo(lib, lib.with_marks(freed(ids)), ids, faces_back(face_states(lib, ids)));
}

/// Where the group is an appearance group, every face of it is listed.
pub open spec fn all_listed(lib: LibraryView, ids: Seq<i64>, group: i64) -> bool {
    group >= 0 ==> forall|i: int|
        0 <= i < lib.faces.len() && (#[trigger] lib.faces[i]).marks.group() == Some(group)
            ==> ids.contains(lib.faces[i].id)
}

/// Giving a group whose faces are listed an identity keeps the change confined.
proof fn lemma_ensured_listed(lib: LibraryView, now: LibraryView, ids: Seq<i64>, g: i64)
    requires
        confined(lib.faces, now.faces, of_ids(ids)),
        extends(lib.identities, now.identities),
        all_listed(lib, ids, g),
    ensures
        confined(lib.faces, group_ensured(now, g).faces, of_ids(ids)),
        extends(lib.identities, group_ensured(now, g).identities),
{
    if g >= 0 {
        let id = identity_for(now, g);
        lemma_confined_mark(lib.faces, now.faces, of_ids(ids), bind_group(g, id));
    }
}

/// **Undoing a confirmation into a person**, or into an appearance group all of whose
/// faces are listed, puts every face back.
pub proof fn law_undo_confirm_into(lib: LibraryView, ids: Seq<i64>, target: i64)
    requires
        lib.wf(),
        all_listed(lib, ids, target),
    ensures
        as_before(
            lib,
            undone(confirmed_into(lib, ids, target), faces_back(face_states(lib, ids))),
        ),
{
    let held = group_ensured(lib, target);
    lemma_confined_start(lib.faces, of_ids(ids));
    lemma_ensured_listed(lib, lib, ids, target);
    lemma_confined_mark(
        lib.faces,
        held.faces,
        of_ids(ids),
        bound_to(ids, identity_for(lib, target)),
    );
    lemma_face_undo(
        lib,
        confirmed_into(lib, ids, target),
        ids,
        faces_back(face_states(lib, ids)),
    );
}

/// **Undoing a move between persons**, or between appearance groups all of whose faces
/// are listed, puts every face and the cannot-links back.
pub proof fn law_undo_reassign(lib: LibraryView, ids: Seq<i64>, source: i64, target: i64)
    requires
        lib.wf(),
        all_listed(lib, ids, source),
        all_listed(lib, ids, target),
    ensures
        as_before(
            lib,
            undone(
                reassigned(lib, ids, source, target),
                (UndoView {
                    added_cannot_link: reassigned_apart(lib, source, target),
                    ..faces_back(face_states(lib, ids))
                }),
            ),
        ),
{
    let (s, t) = (identity_for(lib, source), second_identity(lib, source, target));
    let u = UndoView {
        added_cannot_link: reassigned_apart(lib, source, target),
        ..faces_back(face_states(lib, ids))
    };
    let both = both_ensured(lib, source, target);
    lemma_confined_start(lib.faces, of_ids(ids));
    lemma_ensured_listed(lib, lib, ids, source);
    lemma_ensured_listed(lib, group_ensured(lib, source), ids, target);
    lemma_confined_mark(lib.faces, both.faces, of_ids(ids), bound_to(ids, t));
    let bound = both.with_marks(bound_to(ids, t));
    lemma_apart_removed(bound, lib.cannot_link, s, t);
    lemma_face_undo(lib, reassigned(lib, ids, source, target), ids, u);
}

proof fn lemma_absorbed(
    lib: LibraryView,
    start: LibraryView,
    into: i64,
    id: i64,
    clusters: Seq<i64>,
    groups: Seq<i64>,
)
    requires
        confined(lib.faces, start.faces, of_groups(groups)),
        forall|k: int| 0 <= k < clusters.len() ==> groups.contains(#[trigger] clusters[k]),
    ensures
        confined(lib.faces, absorb_all(start, into, id, clusters).faces, of_groups(groups)),
        absorb_all(start, into, id, clusters).identities == start.identities,
        absorb_all(start, into, id, clusters).cannot_link == start.cannot_link,
        absorb_all(start, into, id, clusters).same_photo_ok == start.same_photo_ok,
        rest_same(start, absorb_all(start, into, id, clusters)),
    decreases clusters.len(),
{
    if clusters.len() > 0 {
        let front = clusters.drop_last();
        let from = clusters.last();
        assert(clusters[clusters.len() - 1] == from);
        assert forall|k: int| 0 <= k < front.len() implies groups.contains(#[trigger] front[k]) by {
            assert(front[k] == clusters[k]);
        }
        lemma_absorbed(lib, start, into, id, front, groups);
        let held = absorb_all(start, into, id, front);
        lemma_confined_mark(lib.faces, held.faces, of_groups(groups), adopt_group(held, from, id));
        let adopted = held.with_marks(adopt_group(held, from, id));
        lemma_confined_mark(
            lib.faces,
            adopted.faces,
            of_groups(groups),
            confirm_group(from, Some(id)),
        );
        let vouched = adopted.with_marks(confirm_group(from, Some(id)));
        lemma_confined_mark(lib.faces, vouched.faces, of_groups(groups), bind_group(from, id));
    }
}

/// **Undoing a bulk merge** puts every face of every group back exactly where it was.
pub proof fn law_undo_absorb(lib: LibraryView, into: i64, clusters: Seq<i64>)
    requires
        lib.wf(),
        on_record(lib),
        lib.last_identity() < i64::MAX,
    ensures
        as_before(
            lib,
            undone(
                absorb_all(group_ensured(lib, into), into, identity_for(lib, into), clusters),
                faces_back(group_states(lib, clusters.push(into))),
            ),
        ),
{
    let groups = clusters.push(into);
    let id = identity_for(lib, into);
    let held = group_ensured(lib, into);
    assert(groups[clusters.len() as int] == into);
    assert forall|k: int| 0 <= k < clusters.len() implies groups.contains(
        #[trigger] clusters[k],
    ) by {
        assert(groups[k] == clusters[k]);
    }
    lemma_confined_start(lib.faces, of_groups(groups));
    lemma_ensured(lib, lib, groups, into);
    lemma_absorbed(lib, held, into, id, clusters, groups);
    lemma_group_undo(
        lib,
        absorb_all(held, into, id, clusters),
        groups,
        faces_back(group_states(lib, groups)),
    );
}

/// Tests for a pair that is none of those listed.
spec fn none_among(gone: Seq<(i64, i64)>) -> spec_fn((i64, i64)) -> bool {
    |p: (i64, i64)|
        forall|k: int| 0 <= k < gone.len() ==> p != pair((#[trigger] gone[k]).0, gone[k].1)
}

proof fn lemma_kept_twice<V>(
    s: Seq<V>,
    a: spec_fn(V) -> bool,
    b: spec_fn(V) -> bool,
    both: spec_fn(V) -> bool,
)
    requires
        forall|v: V| #[trigger] both(v) == (a(v) && b(v)),
    ensures
        kept(kept(s, a), b) == kept(s, both),
    decreases s.len(),
{
    if s.len() > 0 {
        lemma_kept_twice(s.drop_last(), a, b, both);
        let rest = kept(s.drop_last(), a);
        assert(both(s.last()) == (a(s.last()) && b(s.last())));
        if a(s.last()) {
            assert(rest.push(s.last()).drop_last() =~= rest);
        }
    }
}

proof fn lemma_without_pairs(s: Seq<(i64, i64)>, gone: Seq<(i64, i64)>)
    ensures
        without_pairs(s, gone) == kept(s, none_among(gone)),
    decreases gone.len(),
{
    if gone.len() == 0 {
        lemma_kept_everything(s, none_among(gone));
    } else {
        let front = gone.drop_last();
        let last = gone.last();
        lemma_without_pairs(s, front);
        assert forall|p: (i64, i64)| #[trigger]
            none_among(gone)(p) == (none_among(front)(p) && other_than(last.0, last.1)(p)) by {
            if none_among(gone)(p) {
                assert(p != pair(gone[gone.len() - 1].0, gone[gone.len() - 1].1));
                assert forall|k: int| 0 <= k < front.len() implies p != pair(
                    (#[trigger] front[k]).0,
                    front[k].1,
                ) by {
                    assert(front[k] == gone[k]);
                }
            }
            if none_among(front)(p) && other_than(last.0, last.1)(p) {
                assert forall|k: int| 0 <= k < gone.len() implies p != pair(
                    (#[trigger] gone[k]).0,
                    gone[k].1,
                ) by {
                    if k < front.len() {
                        assert(front[k] == gone[k]);
                    }
                }
            }
        }
        lemma_kept_twice(s, none_among(front), other_than(last.0, last.1), none_among(gone));
    }
}

proof fn lemma_kept_everything<V>(s: Seq<V>, test: spec_fn(V) -> bool)
    requires
        forall|i: int| 0 <= i < s.len() ==> test(#[trigger] s[i]),
    ensures
        kept(s, test) == s,
    decreases s.len(),
{
    if s.len() > 0 {
        let front = s.drop_last();
        assert forall|i: int| 0 <= i < front.len() implies test(#[trigger] front[i]) by {
            assert(front[i] == s[i]);
        }
        lemma_kept_everything(front, test);
        assert(s[s.len() - 1] == s.last());
        assert(front.push(s.last()) =~= s);
    }
}

proof fn lemma_kept_none<V>(s: Seq<V>, tail: Seq<V>, test: spec_fn(V) -> bool)
    requires
        forall|i: int| 0 <= i < tail.len() ==> !test(#[trigger] tail[i]),
    ensures
        kept(s + tail, test) == kept(s, test),
    decreases tail.len(),
{
    if tail.len() == 0 {
        assert(s + tail =~= s);
    } else {
        let front = tail.drop_last();
        assert forall|i: int| 0 <= i < front.len() implies !test(#[trigger] front[i]) by {
            assert(front[i] == tail[i]);
        }
        lemma_kept_none(s, front, test);
        assert((s + tail).drop_last() =~= s + front);
        assert((s + tail).last() == tail[tail.len() - 1]);
    }
}

/// The pairs in ascending order.
spec fn sorted_pairs(pairs: Seq<(i64, i64)>) -> Seq<(i64, i64)> {
    pairs.map_values(|p: (i64, i64)| pair(p.0, p.1))
}

/// Removing the pairs that were appended gives back what was.
proof fn lemma_appended_removed(base: Seq<(i64, i64)>, added: Seq<(i64, i64)>)
    requires
        all_new(base, added),
    ensures
        without_pairs(base + sorted_pairs(added), added) == base,
{
    let tail = sorted_pairs(added);
    lemma_without_pairs(base + tail, added);
    assert forall|i: int| 0 <= i < tail.len() implies !none_among(added)(#[trigger] tail[i]) by {
        assert(tail[i] == pair(added[i].0, added[i].1));
    }
    lemma_kept_none(base, tail, none_among(added));
    assert forall|i: int| 0 <= i < base.len() implies none_among(added)(#[trigger] base[i]) by {
        assert(base.contains(base[i]));
    }
    lemma_kept_everything(base, none_among(added));
}

proof fn lemma_apart_from_all(
    lib: LibraryView,
    start: LibraryView,
    id: i64,
    people: Seq<i64>,
    groups: Seq<i64>,
)
    requires
        confined(lib.faces, start.faces, of_groups(groups)),
        extends(lib.identities, start.identities),
        forall|k: int| 0 <= k < people.len() ==> groups.contains(#[trigger] people[k]),
    ensures
        ({
            let after = apart_from_all(start, id, people);
            let added = apart_added(start, id, people);
            &&& confined(lib.faces, after.faces, of_groups(groups))
            &&& extends(lib.identities, after.identities)
            &&& rest_same(start, after)
            &&& after.same_photo_ok == start.same_photo_ok
            &&& after.cannot_link == start.cannot_link + sorted_pairs(added)
            &&& all_new(start.cannot_link, added)
        }),
    decreases people.len(),
{
    if people.len() == 0 {
        assert(start.cannot_link + sorted_pairs(apart_added(start, id, people))
            =~= start.cannot_link);
    } else {
        let front = people.drop_last();
        let last = people.last();
        assert(people[people.len() - 1] == last);
        assert forall|k: int| 0 <= k < front.len() implies groups.contains(#[trigger] front[k]) by {
            assert(front[k] == people[k]);
        }
        lemma_apart_from_all(lib, start, id, front, groups);
        let held = apart_from_all(start, id, front);
        lemma_ensured(lib, held, groups, last);
        lemma_appended(
            start.cannot_link,
            held,
            group_ensured(held, last),
            apart_added(start, id, front),
            id,
            identity_for(held, last),
        );
        assert(apart_added(start, id, people) == with_one(
            apart_added(start, id, front),
            newly_apart(held, id, identity_for(held, last)),
        ));
    }
}

/// The list with one more pair, if there is one.
spec fn with_one(added: Seq<(i64, i64)>, p: Option<(i64, i64)>) -> Seq<(i64, i64)> {
    match p {
        Some(x) => added.push(x),
        None => added,
    }
}

/// No pair of the list is among the base pairs.
spec fn all_new(base: Seq<(i64, i64)>, added: Seq<(i64, i64)>) -> bool {
    forall|k: int|
        0 <= k < added.len() ==> !base.contains(pair((#[trigger] added[k]).0, added[k].1))
}

/// One more declaration appends at most its pair.
proof fn lemma_appended(
    base: Seq<(i64, i64)>,
    held: LibraryView,
    now: LibraryView,
    added: Seq<(i64, i64)>,
    a: i64,
    b: i64,
)
    requires
        now.cannot_link == held.cannot_link,
        held.cannot_link == base + sorted_pairs(added),
        all_new(base, added),
    ensures
        recorded_apart(now, a, b).cannot_link == base + sorted_pairs(
            with_one(added, newly_apart(held, a, b)),
        ),
        all_new(base, with_one(added, newly_apart(held, a, b))),
{
    if let Some(p) = newly_apart(held, a, b) {
        let more = added.push(p);
        assert(sorted_pairs(more) =~= sorted_pairs(added).push(pair(a, b)));
        assert((base + sorted_pairs(added)).push(pair(a, b)) =~= base + sorted_pairs(more));
        assert forall|k: int| 0 <= k < more.len() implies !base.contains(
            pair((#[trigger] more[k]).0, more[k].1),
        ) by {
            if k < added.len() {
                assert(more[k] == added[k]);
            } else if base.contains(pair(a, b)) {
                let j = choose|j: int| 0 <= j < base.len() && base[j] == pair(a, b);
                assert(held.cannot_link[j] == pair(a, b));
            }
        }
    }
}

/// **Undoing "none of these people"** puts every group and the cannot-links back.
pub proof fn law_undo_none_of(lib: LibraryView, other: i64, people: Seq<i64>)
    requires
        lib.wf(),
        on_record(lib),
        lib.last_identity() < i64::MAX,
    ensures
        as_before(
            lib,
            undone(
                none_of(lib, other, people),
                (UndoView {
                    added_cannot_links: apart_added(
                        group_ensured(lib, other),
                        identity_for(lib, other),
                        people,
                    ),
                    ..faces_back(group_states(lib, people.push(other)))
                }),
            ),
        ),
{
    let groups = people.push(other);
    let id = identity_for(lib, other);
    let held = group_ensured(lib, other);
    assert(groups[people.len() as int] == other);
    assert forall|k: int| 0 <= k < people.len() implies groups.contains(#[trigger] people[k]) by {
        assert(groups[k] == people[k]);
    }
    lemma_confined_start(lib.faces, of_groups(groups));
    lemma_ensured(lib, lib, groups, other);
    lemma_apart_from_all(lib, held, id, people, groups);
    let apart = apart_from_all(held, id, people);
    let added = apart_added(held, id, people);
    lemma_identity_captured(lib, lib, groups, other);
    lemma_confirm_local(lib, groups, id);
    lemma_confined_mark(lib.faces, apart.faces, of_groups(groups), confirm_identity(id));
    lemma_appended_removed(lib.cannot_link, added);
    lemma_group_undo(
        lib,
        none_of(lib, other, people),
        groups,
        UndoView { added_cannot_links: added, ..faces_back(group_states(lib, groups)) },
    );
}

proof fn lemma_rejects(
    lib: LibraryView,
    start: LibraryView,
    person: i64,
    others: Seq<i64>,
    groups: Seq<i64>,
)
    requires
        on_record(lib),
        lib.last_identity() <= start.last_identity(),
        start.last_identity() + others.len() < i64::MAX,
        confined(lib.faces, start.faces, of_groups(groups)),
        extends(lib.identities, start.identities),
        forall|k: int| 0 <= k < others.len() ==> groups.contains(#[trigger] others[k]),
    ensures
        ({
            let after = rejects(start, person, others);
            let added = rejects_added(start, person, others);
            &&& confined(lib.faces, after.faces, of_groups(groups))
            &&& extends(lib.identities, after.identities)
            &&& lib.last_identity() <= after.last_identity() <= start.last_identity() + others.len()
            &&& rest_same(start, after)
            &&& after.same_photo_ok == start.same_photo_ok
            &&& after.cannot_link == start.cannot_link + sorted_pairs(added)
            &&& all_new(start.cannot_link, added)
        }),
    decreases others.len(),
{
    if others.len() == 0 {
        assert(start.cannot_link + sorted_pairs(rejects_added(start, person, others))
            =~= start.cannot_link);
    } else {
        let front = others.drop_last();
        let last = others.last();
        assert(others[others.len() - 1] == last);
        assert forall|k: int| 0 <= k < front.len() implies groups.contains(#[trigger] front[k]) by {
            assert(front[k] == others[k]);
        }
        lemma_rejects(lib, start, person, front, groups);
        let held = rejects(start, person, front);
        let id = identity_for(held, last);
        let now = group_ensured(held, last);
        lemma_ensured(lib, held, groups, last);
        lemma_appended(
            start.cannot_link,
            held,
            now,
            rejects_added(start, person, front),
            person,
            id,
        );
        assert(rejects_added(start, person, others) == with_one(
            rejects_added(start, person, front),
            newly_apart(held, person, id),
        ));
        lemma_identity_captured(lib, held, groups, last);
        lemma_confirm_local(lib, groups, id);
        let apart = recorded_apart(now, person, id);
        lemma_confined_mark(lib.faces, apart.faces, of_groups(groups), confirm_identity(id));
        assert(now.last_identity() <= held.last_identity() + 1) by {
            if last >= 0 {
                assert(minted(held).identities.last().id == held.last_identity() + 1);
            }
        }
        assert(held.last_identity() <= now.last_identity()) by {
            if last >= 0 {
                assert(minted(held).identities.last().id == held.last_identity() + 1);
            }
        }
    }
}

/// **Undoing "none of these are them"** puts every group and the cannot-links back.
pub proof fn law_undo_not_this_person_many(lib: LibraryView, person: i64, others: Seq<i64>)
    requires
        lib.wf(),
        on_record(lib),
        lib.last_identity() + 1 + others.len() < i64::MAX,
    ensures
        as_before(
            lib,
            undone(
                rejects(group_ensured(lib, person), identity_for(lib, person), others),
                (UndoView {
                    added_cannot_links: rejects_added(
                        group_ensured(lib, person),
                        identity_for(lib, person),
                        others,
                    ),
                    ..faces_back(group_states(lib, others.push(person)))
                }),
            ),
        ),
{
    let groups = others.push(person);
    let id = identity_for(lib, person);
    let held = group_ensured(lib, person);
    assert(groups[others.len() as int] == person);
    assert forall|k: int| 0 <= k < others.len() implies groups.contains(#[trigger] others[k]) by {
        assert(groups[k] == others[k]);
    }
    assert(lib.last_identity() <= held.last_identity() <= lib.last_identity() + 1) by {
        if person >= 0 {
            assert(minted(lib).identities.last().id == lib.last_identity() + 1);
        }
    }
    lemma_confined_start(lib.faces, of_groups(groups));
    lemma_ensured(lib, lib, groups, person);
    lemma_rejects(lib, held, id, others, groups);
    let added = rejects_added(held, id, others);
    lemma_appended_removed(lib.cannot_link, added);
    lemma_group_undo(
        lib,
        rejects(held, id, others),
        groups,
        UndoView { added_cannot_links: added, ..faces_back(group_states(lib, groups)) },
    );
}

proof fn lemma_new_pairs(pairs: Seq<(i64, i64)>, more: Seq<(i64, i64)>)
    ensures
        with_pairs(pairs, more) == pairs + sorted_pairs(new_pairs(pairs, more)),
        all_new(pairs, new_pairs(pairs, more)),
    decreases more.len(),
{
    if more.len() == 0 {
        assert(pairs + sorted_pairs(new_pairs(pairs, more)) =~= pairs);
    } else {
        let front = more.drop_last();
        lemma_new_pairs(pairs, front);
        let (a, b) = more.last();
        let held = with_pairs(pairs, front);
        let was = new_pairs(pairs, front);
        let now = new_pairs(pairs, more);
        if !held.contains(pair(a, b)) {
            let p = pair(a, b);
            assert(pair(p.0, p.1) == p);
            assert(sorted_pairs(now) =~= sorted_pairs(was).push(p));
            assert((pairs + sorted_pairs(was)).push(p) =~= pairs + sorted_pairs(now));
            assert forall|k: int| 0 <= k < now.len() implies !pairs.contains(
                pair((#[trigger] now[k]).0, now[k].1),
            ) by {
                if k < was.len() {
                    assert(now[k] == was[k]);
                } else if pairs.contains(p) {
                    let j = choose|j: int| 0 <= j < pairs.len() && pairs[j] == p;
                    assert(held[j] == p);
                }
            }
        }
    }
}

/// **Undoing "same person" on a shared photo** puts both groups and the exceptions back.
pub proof fn law_undo_same_person(lib: LibraryView, into: i64, from: i64)
    requires
        lib.wf(),
        on_record(lib),
        lib.last_identity() < i64::MAX,
    ensures
        as_before(
            lib,
            undone(
                reunited(lib, into, from),
                (UndoView {
                    added_same_photo_ok: new_pairs(
                        lib.same_photo_ok,
                        blocked_pairs(lib, into, from),
                    ),
                    ..faces_back(group_states(lib, seq![into, from]))
                }),
            ),
        ),
{
    let groups = seq![into, from];
    assert(groups[0] == into && groups[1] == from);
    assert(groups.contains(into) && groups.contains(from));
    let id = identity_for(lib, into);
    let held = group_ensured(lib, into);
    let more = blocked_pairs(lib, into, from);
    let ok = LibraryView { same_photo_ok: with_pairs(held.same_photo_ok, more), ..held };
    lemma_confined_start(lib.faces, of_groups(groups));
    lemma_ensured(lib, lib, groups, into);
    lemma_confined_mark(lib.faces, ok.faces, of_groups(groups), adopt_group(ok, from, id));
    let adopted = ok.with_marks(adopt_group(ok, from, id));
    lemma_confined_mark(lib.faces, adopted.faces, of_groups(groups), bind_group(from, id));
    let bound = adopted.with_marks(bind_group(from, id));
    lemma_identity_captured(lib, lib, groups, into);
    lemma_confirm_local(lib, groups, id);
    lemma_confined_mark(lib.faces, bound.faces, of_groups(groups), confirm_identity(id));
    lemma_new_pairs(lib.same_photo_ok, more);
    lemma_appended_removed(lib.same_photo_ok, new_pairs(lib.same_photo_ok, more));
    lemma_group_undo(
        lib,
        reunited(lib, into, from),
        groups,
        UndoView {
            added_same_photo_ok: new_pairs(lib.same_photo_ok, more),
            ..faces_back(group_states(lib, groups))
        },
    );
}

/// Naming an identity and taking the name back gives the identities back.
proof fn lemma_name_back(identities: Seq<IdentityView>, id: i64, name: Option<Seq<char>>)
    requires
        identities_wf(identities),
    ensures
        identities.map_values(renamed(id, name)).map_values(
            renamed(id, name_of(identities, id)),
        ) == identities,
{
    let back = identities.map_values(renamed(id, name)).map_values(
        renamed(id, name_of(identities, id)),
    );
    lemma_find_identity(identities, id);
    assert(back =~= identities);
}

/// Naming a new identity and clearing the name leaves it unnamed.
proof fn lemma_fresh_name_back(lib: LibraryView, id: i64, name: Option<Seq<char>>)
    requires
        identities_wf(lib.identities),
        id == lib.last_identity() + 1,
        lib.last_identity() < i64::MAX,
    ensures
        extends(
            lib.identities,
            minted(lib).identities.map_values(renamed(id, name)).map_values(renamed(id, None)),
        ),
{
    let back = minted(lib).identities.map_values(renamed(id, name)).map_values(renamed(id, None));
    let n = lib.identities.len() as int;
    assert forall|k: int| 0 <= k < n implies #[trigger] back[k] == lib.identities[k] by {
        if k < n - 1 {
            assert(lib.identities[k].id < lib.identities[n - 1].id);
        }
        assert(lib.identities[k].id <= lib.last_identity());
    }
}

/// **Undoing a naming** clears the name and un-vouches the faces, exactly.
pub proof fn law_undo_naming(lib: LibraryView, group: i64, name: Seq<char>)
    requires
        lib.wf(),
        on_record(lib),
        lib.last_identity() < i64::MAX,
    ensures
        as_before(lib, undone(group_renamed(lib, group, name), naming_undo(lib, group, name))),
{
    let groups = seq![group];
    assert(groups[0] == group);
    assert(groups.contains(group));
    let id = identity_for(lib, group);
    let after = group_renamed(lib, group, name);
    let u = naming_undo(lib, group, name);
    lemma_confined_start(lib.faces, of_groups(groups));
    if name.len() == 0 {
        if group < 0 {
            lemma_name_back(lib.identities, id, None);
        }
    } else {
        let given = Some(name);
        let held = group_ensured(lib, group);
        lemma_ensured(lib, lib, groups, group);
        let called = with_identity_name(held, id, given);
        lemma_identity_captured(lib, lib, groups, group);
        lemma_confirm_local(lib, groups, id);
        lemma_confined_mark(lib.faces, called.faces, of_groups(groups), confirm_identity(id));
        if group < 0 {
            assert(identity_under(identity_key(id)) == id);
            lemma_name_back(lib.identities, id, given);
        } else {
            assert(lib.last_identity() >= 0) by {
                if lib.identities.len() > 0 {
                    assert(lib.identities[lib.identities.len() - 1].id >= 1);
                }
            }
            assert(identity_under(identity_key(id)) == id);
            lemma_fresh_name_back(lib, id, given);
        }
    }
    lemma_group_undo(lib, after, groups, u);
}

/// What a split does to the identities, and what is left of it once it is undone.
proof fn lemma_split_names(lib: LibraryView, source: i64, name: Option<Seq<char>>)
    requires
        lib.wf(),
        lib.last_identity() < i64::MAX,
        source >= 0 ==> lib.last_identity() < i64::MAX - 1,
    ensures
        ({
            let id = split_identity(lib, source);
            let fresh = minted(group_ensured(lib, source));
            &&& id > lib.last_identity() >= 0
            &&& source >= 0 ==> identity_for(lib, source) < id
            &&& extends(lib.identities, fresh.identities)
            &&& extends(
                lib.identities,
                fresh.identities.map_values(renamed(id, name)).map_values(renamed(id, None)),
            )
        }),
{
    let id = split_identity(lib, source);
    let held = group_ensured(lib, source);
    let n = lib.identities.len() as int;
    assert(lib.last_identity() >= 0) by {
        if n > 0 {
            assert(lib.identities[n - 1].id >= 1);
        }
    }
    if source >= 0 {
        assert(held.identities.last().id == lib.last_identity() + 1);
        assert forall|k: int| 0 <= k < n implies (#[trigger] lib.identities[k]).id
            <= lib.last_identity() by {
            if k < n - 1 {
                assert(lib.identities[k].id < lib.identities[n - 1].id);
            }
        }
    }
    lemma_fresh_name_back(held, id, name);
}

/// **Undoing a split** off a person, or off an appearance group all of whose faces are
/// listed, puts every face and the cannot-links back and leaves no named ghost.
pub proof fn law_undo_split(
    lib: LibraryView,
    ids: Seq<i64>,
    source: i64,
    name: Option<Seq<char>>,
)
    requires
        lib.wf(),
        on_record(lib),
        lib.last_identity() < i64::MAX,
        source >= 0 ==> lib.last_identity() < i64::MAX - 1,
        all_listed(lib, ids, source),
        name matches Some(n) ==> n.len() > 0,
    ensures
        as_before(
            lib,
            undone(split_off(lib, ids, source, name), split_undo(lib, ids, source, name)),
        ),
{
    let id = split_identity(lib, source);
    let u = split_undo(lib, ids, source, name);
    let held = group_ensured(lib, source);
    let fresh = minted(held);
    lemma_split_names(lib, source, name);
    lemma_confined_start(lib.faces, of_ids(ids));
    lemma_ensured_listed(lib, lib, ids, source);
    lemma_confined_mark(lib.faces, held.faces, of_ids(ids), bound_to(ids, id));
    let bound = fresh.with_marks(bound_to(ids, id));
    if let Some(n) = name {
        let called = with_identity_name(bound, id, Some(n));
        lemma_confirm_fresh(lib, ids, id);
        lemma_confined_mark(lib.faces, called.faces, of_ids(ids), confirm_identity(id));
        let done = called.with_marks(confirm_identity(id));
        lemma_apart_removed(done, lib.cannot_link, identity_for(lib, source), id);
    } else {
        lemma_apart_removed(bound, lib.cannot_link, identity_for(lib, source), id);
    }
    lemma_face_undo(lib, split_off(lib, ids, source, name), ids, u);
}

proof fn lemma_confirm_fresh(lib: LibraryView, ids: Seq<i64>, id: i64)
    requires
        on_record(lib),
        id > lib.last_identity(),
    ensures
        forall|i: int|
            0 <= i < lib.faces.len() && !of_ids(ids)(#[trigger] lib.faces[i]) ==> confirm_identity(
                id,
            )(lib.faces[i]) == lib.faces[i].marks,
{
}

/// **Undoing the naming of faces** puts every face back and leaves no named ghost.
pub proof fn law_undo_name_faces(lib: LibraryView, ids: Seq<i64>, name: Seq<char>)
    requires
        lib.wf(),
        on_record(lib),
        lib.last_identity() < i64::MAX,
        name.len() > 0,
    ensures
        as_before(lib, undone(faces_named(lib, ids, name), faces_named_undo(lib, ids, name))),
{
    let id = naming_identity(lib, name);
    let u = faces_named_undo(lib, ids, name);
    assert(lib.last_identity() >= 0) by {
        if lib.identities.len() > 0 {
            assert(lib.identities[lib.identities.len() - 1].id >= 1);
        }
    }
    lemma_confined_start(lib.faces, of_ids(ids));
    if person_called(lib.identities, name) is Some {
        lemma_confined_mark(lib.faces, lib.faces, of_ids(ids), bound_to(ids, id));
    } else {
        let called = with_identity_name(minted(lib), id, Some(name));
        lemma_confirm_fresh(lib, ids, id);
        lemma_confined_mark(lib.faces, called.faces, of_ids(ids), confirm_identity(id));
        let held = called.with_marks(confirm_identity(id));
        lemma_confined_mark(lib.faces, held.faces, of_ids(ids), bound_to(ids, id));
        lemma_fresh_name_back(lib, id, Some(name));
    }
    lemma_face_undo(lib, faces_named(lib, ids, name), ids, u);
}

/// Where the group is an appearance group, no face of it that is not listed is vouched
/// for.
pub open spec fn rest_tentative(lib: LibraryView, ids: Seq<i64>, group: i64) -> bool {
    group >= 0 ==> forall|i: int|
        0 <= i < lib.faces.len() && (#[trigger] lib.faces[i]).marks.group() == Some(group)
            && !ids.contains(lib.faces[i].id) ==> !lib.faces[i].marks.confirmed
}

/// The library once every tentative label is wiped, as each fold begins.
pub open spec fn unguessed(lib: LibraryView) -> LibraryView {
    lib.with_marks(clear_tentative())
}

/// `after` differs from `before` only in the marks of the listed faces, and in that others,
/// not vouched for, may carry the label of an identity below `bound`.
spec fn labelled(before: Seq<FaceView>, after: Seq<FaceView>, ids: Seq<i64>, bound: int) -> bool {
    &&& after.len() == before.len()
    &&& forall|i: int|
        #![trigger after[i]]
        #![trigger before[i]]
        0 <= i < before.len() ==> {
            &&& after[i] == (FaceView { marks: after[i].marks, ..before[i] })
            &&& ids.contains(before[i].id) || after[i].marks == before[i].marks || {
                &&& !before[i].marks.confirmed
                &&& after[i].marks.identity_id matches Some(x) && 1 <= x < bound
                &&& after[i].marks == (FaceMarks {
                    identity_id: after[i].marks.identity_id,
                    ..before[i].marks
                })
            }
        }
}

/// Giving a group an identity labels only faces that nobody vouched for.
proof fn lemma_ensured_labels(
    lib: LibraryView,
    now: LibraryView,
    ids: Seq<i64>,
    g: i64,
    bound: int,
)
    requires
        labelled(lib.faces, now.faces, ids, bound),
        extends(lib.identities, now.identities),
        rest_tentative(lib, ids, g),
        g >= 0 ==> 1 <= identity_for(now, g) < bound,
    ensures
        labelled(lib.faces, group_ensured(now, g).faces, ids, bound),
        extends(lib.identities, group_ensured(now, g).identities),
{
    if g >= 0 {
        let after = group_ensured(now, g).faces;
        assert forall|i: int| 0 <= i < lib.faces.len() implies {
            &&& #[trigger] after[i] == (FaceView { marks: after[i].marks, ..lib.faces[i] })
            &&& ids.contains(lib.faces[i].id) || after[i].marks == lib.faces[i].marks || {
                &&& !lib.faces[i].marks.confirmed
                &&& after[i].marks.identity_id matches Some(x) && 1 <= x < bound
                &&& after[i].marks == (FaceMarks {
                    identity_id: after[i].marks.identity_id,
                    ..lib.faces[i].marks
                })
            }
        } by {
            assert(now.faces[i] == (FaceView { marks: now.faces[i].marks, ..lib.faces[i] }));
            assert(after[i].marks == bind_group(g, identity_for(now, g))(now.faces[i]));
        }
    }
}

/// Binding listed faces keeps the others labelled at most.
proof fn lemma_bound_labels(
    before: Seq<FaceView>,
    now: Seq<FaceView>,
    ids: Seq<i64>,
    id: i64,
    bound: int,
)
    requires
        labelled(before, now, ids, bound),
    ensures
        labelled(before, now.map_values(marked(bound_to(ids, id))), ids, bound),
{
    let after = now.map_values(marked(bound_to(ids, id)));
    assert forall|i: int| 0 <= i < before.len() implies #[trigger] after[i] == (FaceView {
        marks: after[i].marks,
        ..before[i]
    }) && (ids.contains(before[i].id) || after[i].marks == now[i].marks) by {
        assert(now[i] == (FaceView { marks: now[i].marks, ..before[i] }));
    }
}

/// Vouching for a new identity's faces keeps the others labelled at most.
proof fn lemma_confirmed_labels(
    lib: LibraryView,
    now: Seq<FaceView>,
    ids: Seq<i64>,
    id: i64,
    bound: int,
)
    requires
        on_record(lib),
        labelled(lib.faces, now, ids, bound),
        lib.last_identity() < id,
        bound <= id,
    ensures
        labelled(lib.faces, now.map_values(marked(confirm_identity(id))), ids, bound),
{
    let before = lib.faces;
    let after = now.map_values(marked(confirm_identity(id)));
    assert forall|i: int| 0 <= i < before.len() implies #[trigger] after[i] == (FaceView {
        marks: after[i].marks,
        ..before[i]
    }) && (ids.contains(before[i].id) || after[i].marks == now[i].marks) by {
        assert(now[i] == (FaceView { marks: now[i].marks, ..before[i] }));
        assert(before[i].marks.identity_id != Some(id));
    }
}

/// A face-level correction that changed the listed faces, labelled others and minted
/// identities.
proof fn lemma_labels_undo(
    lib: LibraryView,
    after: LibraryView,
    ids: Seq<i64>,
    bound: int,
    u: UndoView,
)
    requires
        lib.wf(),
        labelled(lib.faces, after.faces, ids, bound),
        extends(lib.identities, names_back(after.identities, u)),
        rest_same(lib, after),
        u.prior == face_states(lib, ids),
        ({
            let one = match u.added_cannot_link {
                Some(p) => without_pair(after.cannot_link, p.0, p.1),
                None => after.cannot_link,
            };
            without_pairs(one, u.added_cannot_links) == lib.cannot_link
        }),
        without_pairs(after.same_photo_ok, u.added_same_photo_ok) == lib.same_photo_ok,
    ensures
        as_before(unguessed(lib), unguessed(undone(after, u))),
{
    let back = undone(after, u);
    assert forall|i: int| 0 <= i < lib.faces.len() implies unguessed(back).faces[i] == unguessed(
        lib,
    ).faces[i] by {
        lemma_state_found(lib.faces, listed(ids), i);
        assert(after.faces[i] == (FaceView { marks: after.faces[i].marks, ..lib.faces[i] }));
        assert(back.faces[i] == (FaceView {
            marks: restored(u.prior)(after.faces[i]),
            ..after.faces[i]
        }));
        if ids.contains(lib.faces[i].id) {
            assert(back.faces[i].marks == state_of(lib.faces[i]).marks());
            assert(back.faces[i] == lib.faces[i]);
        }
    }
    assert(unguessed(back).faces =~= unguessed(lib).faces);
}

proof fn lemma_identity_room(lib: LibraryView, g: i64)
    requires
        lib.wf(),
        lib.last_identity() < i64::MAX,
    ensures
        0 <= lib.last_identity() <= group_ensured(lib, g).last_identity() <= lib.last_identity()
            + 1,
        g >= 0 ==> 1 <= identity_for(lib, g) <= group_ensured(lib, g).last_identity(),
{
    let n = lib.identities.len() as int;
    if n > 0 {
        assert(lib.identities[n - 1].id >= 1);
    }
    if g >= 0 {
        assert(minted(lib).identities.last().id == lib.last_identity() + 1);
    }
}

/// **Undoing a confirmation into any group** puts every face back but for tentative
/// labels, which the next fold wipes.
pub proof fn law_undo_confirm_into_any(lib: LibraryView, ids: Seq<i64>, target: i64)
    requires
        lib.wf(),
        lib.last_identity() < i64::MAX,
        rest_tentative(lib, ids, target),
    ensures
        as_before(
            unguessed(lib),
            unguessed(
                undone(confirmed_into(lib, ids, target), faces_back(face_states(lib, ids))),
            ),
        ),
{
    let bound = i64::MAX + 1;
    let held = group_ensured(lib, target);
    lemma_identity_room(lib, target);
    lemma_ensured_labels(lib, lib, ids, target, bound);
    lemma_bound_labels(lib.faces, held.faces, ids, identity_for(lib, target), bound);
    lemma_labels_undo(
        lib,
        confirmed_into(lib, ids, target),
        ids,
        bound,
        faces_back(face_states(lib, ids)),
    );
}

/// **Undoing a move between any groups** puts the cannot-links back, and every face but
/// for tentative labels, which the next fold wipes.
pub proof fn law_undo_reassign_any(lib: LibraryView, ids: Seq<i64>, source: i64, target: i64)
    requires
        lib.wf(),
        lib.last_identity() < i64::MAX - 1,
        rest_tentative(lib, ids, source),
        rest_tentative(lib, ids, target),
    ensures
        as_before(
            unguessed(lib),
            unguessed(
                undone(
                    reassigned(lib, ids, source, target),
                    (UndoView {
                        added_cannot_link: reassigned_apart(lib, source, target),
                        ..faces_back(face_states(lib, ids))
                    }),
                ),
            ),
        ),
{
    let bound = i64::MAX + 1;
    let (s, t) = (identity_for(lib, source), second_identity(lib, source, target));
    let u = UndoView {
        added_cannot_link: reassigned_apart(lib, source, target),
        ..faces_back(face_states(lib, ids))
    };
    let held = group_ensured(lib, source);
    let both = both_ensured(lib, source, target);
    lemma_identity_room(lib, source);
    lemma_ensured_labels(lib, lib, ids, source, bound);
    lemma_ensured_labels(lib, held, ids, target, bound);
    lemma_bound_labels(lib.faces, both.faces, ids, t, bound);
    let bound_faces = both.with_marks(bound_to(ids, t));
    lemma_apart_removed(bound_faces, lib.cannot_link, s, t);
    lemma_labels_undo(lib, reassigned(lib, ids, source, target), ids, bound, u);
}

/// **Undoing a split off any group** puts the cannot-links back, leaves no named ghost,
/// and puts back every face but for tentative labels, which the next fold wipes.
pub proof fn law_undo_split_any(
    lib: LibraryView,
    ids: Seq<i64>,
    source: i64,
    name: Option<Seq<char>>,
)
    requires
        lib.wf(),
        on_record(lib),
        lib.last_identity() < i64::MAX - 1,
        rest_tentative(lib, ids, source),
        name matches Some(n) ==> n.len() > 0,
    ensures
        as_before(
            unguessed(lib),
            unguessed(
                undone(split_off(lib, ids, source, name), split_undo(lib, ids, source, name)),
            ),
        ),
{
    let id = split_identity(lib, source);
    let bound = id as int;
    let u = split_undo(lib, ids, source, name);
    let held = group_ensured(lib, source);
    lemma_split_names(lib, source, name);
    lemma_identity_room(lib, source);
    lemma_ensured_labels(lib, lib, ids, source, bound);
    lemma_bound_labels(lib.faces, held.faces, ids, id, bound);
    let bound_faces = minted(held).with_marks(bound_to(ids, id));
    if let Some(n) = name {
        let called = with_identity_name(bound_faces, id, Some(n));
        lemma_confirmed_labels(lib, called.faces, ids, id, bound);
        let done = called.with_marks(confirm_identity(id));
        lemma_apart_removed(done, lib.cannot_link, identity_for(lib, source), id);
    } else {
        lemma_apart_removed(bound_faces, lib.cannot_link, identity_for(lib, source), id);
    }
    lemma_labels_undo(lib, split_off(lib, ids, source, name), ids, bound, u);
}

} // verus!
