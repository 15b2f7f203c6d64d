//! Corrections: what the user decides about faces and groups, and how it is taken back.
//!
//! Every correction returns what is needed to undo it exactly. One that speaks of an
//! appearance group says which clustering generation it was shown, and is refused if
//! the clusters have been renumbered since.

use vstd::prelude::*;

use crate::faces::{
    bind_faces, bound_to, capture_face_states, dropped, free_faces, freed, ignore_faces, listed,
    restore_face_states, restored, state_of, FaceState,
};
use crate::groups::{
    adopt_group, adopt_unnamed_group, bind_group, confirm_group, confirm_group_faces,
    confirm_identity, confirm_identity_faces, ensure_identity_for_group, group_ensured,
    group_is_other_named_person, group_name, group_renamed, identity_for,
    merge_group_into_identity, name_group, name_of_group, named_key, other_named,
};
use crate::identities::{minted, new_identity};
use crate::library::{
    identity_key, key_of, pick_faces, Face, FaceView, IdentityView, Library, LibraryView,
};
use crate::links::{
    add_same_photo_ok_returning_new, cooccurring, cooccurring_face_pairs, new_pairs,
    newly_apart, record_cannot_link_if_new, recorded_apart, remove_cannot_link,
    remove_same_photo_ok, with_pairs, without_pair, without_pairs,
};
use crate::names::{
    group_called, group_for_name, person_called, person_named, restore_identity_name,
    with_identity_name,
};
use crate::review::copy_ids;
use crate::rows::{holds, select};
use crate::text::{lemma_trim_twice, opt_text, trim, trimmed};

verus! {

/// Why a correction was refused.
#[derive(Clone, Copy, PartialEq, Eq, Structural, Debug)]
pub enum Refusal {
    /// People were reorganized since the suggestion was shown.
    Stale,
    /// A name is required.
    NameRequired,
    /// The group already belongs to another named person.
    OtherPerson,
}

impl Refusal {
    /// What the user is told.
    pub open spec fn text(&self) -> Seq<char> {
        match self {
            Refusal::Stale => "stale suggestion: people were reorganized since it was shown"@,
            Refusal::NameRequired => "a name is required"@,
            Refusal::OtherPerson => "that group already belongs to another named person"@,
        }
    }

    /// What the user is told.
    pub fn message(&self) -> (m: String)
        ensures
            m@ == self.text(),
    {
        match self {
            Refusal::Stale => {
                "stale suggestion: people were reorganized since it was shown".to_owned()
            },
            Refusal::NameRequired => "a name is required".to_owned(),
            Refusal::OtherPerson => {
                "that group already belongs to another named person".to_owned()
            },
        }
    }
}

/// The generation a correction expects is not the current one.
pub open spec fn stale(current: i64, expected: Option<i64>) -> bool {
    expected is Some && expected != Some(current)
}

/// Refuse what was shown under another clustering generation: a full re-cluster
/// renumbers appearance groups, so acting on an old key would confirm or merge the wrong
/// people. No expectation is not checked.
pub fn ensure_generation(current: i64, expected: Option<i64>) -> (r: Result<(), Refusal>)
    ensures
        r is Err <==> stale(current, expected),
        r matches Err(e) ==> e == Refusal::Stale,
{
    match expected {
        Some(g) => if g != current {
            Err(Refusal::Stale)
        } else {
            Ok(())
        },
        None => Ok(()),
    }
}

/// What a correction returns so it can be undone exactly: the faces' prior state, the
/// new person's group key when one was created, any cannot-link and same-photo exception
/// it added, and any name it wrote.
pub struct CorrectionUndo {
    pub prior: Vec<FaceState>,
    pub new_cluster_id: Option<i64>,
    pub added_cannot_link: Option<(i64, i64)>,
    /// Multi-pair form: a "neither of them" answer links against each candidate.
    pub added_cannot_links: Vec<(i64, i64)>,
    pub added_same_photo_ok: Vec<(i64, i64)>,
    /// A name this action wrote: the identity and its name *before* the action.
    pub renamed: Option<(i64, Option<String>)>,
}

/// What undoes a correction, mathematically.
pub struct UndoView {
    pub prior: Seq<FaceState>,
    pub new_cluster_id: Option<i64>,
    pub added_cannot_link: Option<(i64, i64)>,
    pub added_cannot_links: Seq<(i64, i64)>,
    pub added_same_photo_ok: Seq<(i64, i64)>,
    pub renamed: Option<(i64, Option<Seq<char>>)>,
}

impl View for CorrectionUndo {
    type V = UndoView;

    open spec fn view(&self) -> UndoView {
        UndoView {
            prior: self.prior@,
            new_cluster_id: self.new_cluster_id,
            added_cannot_link: self.added_cannot_link,
            added_cannot_links: self.added_cannot_links@,
            added_same_photo_ok: self.added_same_photo_ok@,
            renamed: match self.renamed {
                Some(r) => Some((r.0, opt_text(r.1))),
                None => None,
            },
        }
    }
}

/// An undo that only puts faces back.
pub open spec fn faces_back(prior: Seq<FaceState>) -> UndoView {
    UndoView {
        prior,
        new_cluster_id: None,
        added_cannot_link: None,
        added_cannot_links: Seq::empty(),
        added_same_photo_ok: Seq::empty(),
        renamed: None,
    }
}

impl CorrectionUndo {
    /// An undo that only puts faces back.
    pub fn faces_only(prior: Vec<FaceState>) -> (u: Self)
        ensures
            u@ == faces_back(prior@),
    {
        CorrectionUndo {
            prior,
            new_cluster_id: None,
            added_cannot_link: None,
            added_cannot_links: Vec::new(),
            added_same_photo_ok: Vec::new(),
            renamed: None,
        }
    }
}

/// A correction that was made: its undo, the groups whose cached suggestions are out of
/// date, and whether the tentative folds are to be derived anew.
pub struct Correction {
    pub undo: CorrectionUndo,
    pub touched: Vec<i64>,
    pub refold: bool,
}

/// Picks the states of the faces of the groups.
pub open spec fn state_in(groups: Seq<i64>) -> spec_fn(FaceView) -> Option<FaceState> {
    |f: FaceView|
        match f.marks.group() {
            Some(g) => if groups.contains(g) {
                Some(state_of(f))
            } else {
                None
            },
            None => None,
        }
}

/// The states of the faces of whole groups.
pub open spec fn group_states(lib: LibraryView, groups: Seq<i64>) -> Seq<FaceState> {
    select(lib.faces, state_in(groups))
}

/// Snapshot the face states of whole groups: what a group-level answer needs captured
/// for exact undo.
pub fn capture_group_states(lib: &Library, groups: &Vec<i64>) -> (out: Vec<FaceState>)
    ensures
        out@ == group_states(lib@, groups@),
{
    let pick = |f: &Face| -> (b: Option<FaceState>)
        ensures
            b == state_in(groups@)(f@),
        {
            match f.marks.display_group() {
                Some(g) => if holds(groups, g) {
                    Some(
                        FaceState {
                            face_id: f.id,
                            cluster_id: f.marks.cluster_id,
                            identity_id: f.marks.identity_id,
                            ignored: f.marks.ignored,
                            confirmed: f.marks.confirmed,
                        },
                    )
                } else {
                    None
                },
                None => None,
            }
        };
    pick_faces(lib, pick, Ghost(state_in(groups@)))
}

fn two(a: i64, b: i64) -> (v: Vec<i64>)
    ensures
        v@ == seq![a, b],
{
    let mut v: Vec<i64> = Vec::new();
    v.push(a);
    v.push(b);
    assert(v@ =~= seq![a, b]);
    v
}

/// The states of the listed faces.
pub open spec fn face_states(lib: LibraryView, ids: Seq<i64>) -> Seq<FaceState> {
    select(lib.faces, listed(ids))
}

/// What naming returns: the canonical group key to keep following, and the correction.
pub struct NameOutcome {
    pub group: i64,
    pub correction: Correction,
}

/// The undo of naming a group.
pub open spec fn naming_undo(lib: LibraryView, group: i64, name: Seq<char>) -> UndoView {
    let key = named_key(lib, group, name);
    UndoView {
        renamed: if key < 0 {
            Some((identity_under(key), name_of_group(lib, group)))
        } else {
            None
        },
        ..faces_back(group_states(lib, seq![group]))
    }
}

/// The identity a (negative) key belongs to.
pub open spec fn identity_under(key: i64) -> i64 {
    if key == i64::MIN {
        i64::MAX
    } else {
        (-key) as i64
    }
}

/// Name a group: it confirms every face of the group as user-vouched exemplars, so it
/// needs the staleness guard too. An empty name clears a person's name.
pub fn name_cluster(
    lib: &mut Library,
    generation: i64,
    cluster_id: i64,
    name: &str,
    expected: Option<i64>,
) -> (r: Result<NameOutcome, Refusal>)
    requires
        old(lib).wf(),
        old(lib)@.last_identity() < i64::MAX,
    ensures
        final(lib).wf(),
        stale(generation, expected) ==> r == Err::<NameOutcome, Refusal>(Refusal::Stale)
            && final(lib)@ == old(lib)@,
        !stale(generation, expected) ==> {
            &&& final(lib)@ == group_renamed(old(lib)@, cluster_id, trimmed(name@))
            &&& r matches Ok(o) && o.group == named_key(old(lib)@, cluster_id, trimmed(name@))
                && o.correction.undo@ == naming_undo(old(lib)@, cluster_id, trimmed(name@))
                && o.correction.touched@.len() == 0 && o.correction.refold == (trimmed(
                name@,
            ).len() > 0)
        },
{
    if let Err(e) = ensure_generation(generation, expected) {
        return Err(e);
    }
    let mut one: Vec<i64> = Vec::new();
    one.push(cluster_id);
    assert(one@ =~= seq![cluster_id]);
    let prior = capture_group_states(lib, &one);
    let prior_name = group_name(lib, cluster_id);
    let group: i64 = name_group(lib, cluster_id, name);
    let renamed: Option<(i64, Option<String>)> = if group == i64::MIN {
        Some((i64::MAX, prior_name))
    } else if group < 0 {
        Some((-group, prior_name))
    } else {
        None
    };
    let refold = !trim(name).as_str().is_empty();
    let mut undo = CorrectionUndo::faces_only(prior);
    undo.renamed = renamed;
    Ok(NameOutcome { group, correction: Correction { undo, touched: Vec::new(), refold } })
}

/// If exactly one side carries a name, that side survives: folding a named person into
/// an unnamed pile would silently un-name them.
pub open spec fn merge_sides(lib: LibraryView, into: i64, from: i64) -> (i64, i64) {
    if name_of_group(lib, from) is Some && name_of_group(lib, into) is None {
        (from, into)
    } else {
        (into, from)
    }
}

/// The library after two groups were merged: everything is under the surviving
/// identity, confirmed.
pub open spec fn groups_merged(lib: LibraryView, into: i64, from: i64) -> LibraryView {
    let (a, b) = merge_sides(lib, into, from);
    let id = identity_for(lib, a);
    group_ensured(lib, a).with_marks(bind_group(b, id)).with_marks(confirm_identity(id))
}

/// Merge two groups. A user merge vouches for *both* sides as one person: everything
/// under the surviving identity is confirmed after the fold.
pub fn merge_clusters(
    lib: &mut Library,
    generation: i64,
    into: i64,
    from: i64,
    expected: Option<i64>,
) -> (r: Result<Correction, Refusal>)
    requires
        old(lib).wf(),
        old(lib)@.last_identity() < i64::MAX,
    ensures
        final(lib).wf(),
        stale(generation, expected) ==> r == Err::<Correction, Refusal>(Refusal::Stale)
            && final(lib)@ == old(lib)@,
        !stale(generation, expected) ==> {
            &&& final(lib)@ == groups_merged(old(lib)@, into, from)
            &&& r matches Ok(c) && c.undo@ == faces_back(
                group_states(
                    old(lib)@,
                    seq![
                        merge_sides(old(lib)@, into, from).0,
                        merge_sides(old(lib)@, into, from).1,
                    ],
                ),
            ) && c.touched@ == seq![into, from] && c.refold
        },
{
    if let Err(e) = ensure_generation(generation, expected) {
        return Err(e);
    }
    let (a, b) = if group_name(lib, from).is_some() && group_name(lib, into).is_none() {
        (from, into)
    } else {
        (into, from)
    };
    let prior = capture_group_states(lib, &two(a, b));
    let id: i64 = ensure_identity_for_group(lib, a);
    merge_group_into_identity(lib, id, b);
    confirm_identity_faces(lib, id);
    Ok(
        Correction {
            undo: CorrectionUndo::faces_only(prior),
            touched: two(into, from),
            refold: true,
        },
    )
}

/// The library after both groups got an identity.
pub open spec fn both_ensured(lib: LibraryView, a: i64, b: i64) -> LibraryView {
    group_ensured(group_ensured(lib, a), b)
}

/// The identity of the second group, after the first got one.
pub open spec fn second_identity(lib: LibraryView, a: i64, b: i64) -> i64 {
    identity_for(group_ensured(lib, a), b)
}

proof fn lemma_room(lib: LibraryView, group: i64)
    requires
        lib.last_identity() < i64::MAX,
    ensures
        lib.last_identity() <= group_ensured(lib, group).last_identity() <= lib.last_identity() + 1,
{
    if group >= 0 {
        assert(minted(lib).identities.last().id == lib.last_identity() + 1);
    }
}

/// The library after faces were moved to an existing person.
pub open spec fn reassigned(lib: LibraryView, ids: Seq<i64>, source: i64, target: i64) -> LibraryView {
    let (s, t) = (identity_for(lib, source), second_identity(lib, source, target));
    recorded_apart(both_ensured(lib, source, target).with_marks(bound_to(ids, t)), s, t)
}

/// The pair that moving faces between two persons adds.
pub open spec fn reassigned_apart(lib: LibraryView, source: i64, target: i64) -> Option<(i64, i64)> {
    newly_apart(
        lib,
        identity_for(lib, source),
        second_identity(lib, source, target),
    )
}

/// Reassign faces to an **existing** person. Binds them to that person's identity and
/// records a cannot-link from the source person, so the two never re-merge.
pub fn reassign_faces_to_cluster(
    lib: &mut Library,
    generation: i64,
    face_ids: &Vec<i64>,
    source_cluster_id: i64,
    target_cluster_id: i64,
    expected: Option<i64>,
) -> (r: Result<Correction, Refusal>)
    requires
        old(lib).wf(),
        old(lib)@.last_identity() < i64::MAX - 1,
    ensures
        final(lib).wf(),
        stale(generation, expected) ==> r == Err::<Correction, Refusal>(Refusal::Stale)
            && final(lib)@ == old(lib)@,
        !stale(generation, expected) ==> {
            &&& final(lib)@ == reassigned(
                old(lib)@,
                face_ids@,
                source_cluster_id,
                target_cluster_id,
            )
            &&& r matches Ok(c) && c.undo@ == (UndoView {
                added_cannot_link: reassigned_apart(
                    old(lib)@,
                    source_cluster_id,
                    target_cluster_id,
                ),
                ..faces_back(face_states(old(lib)@, face_ids@))
            }) && c.touched@.len() == 0 && !c.refold
        },
{
    if let Err(e) = ensure_generation(generation, expected) {
        return Err(e);
    }
    let prior = capture_face_states(lib, face_ids);
    proof {
        lemma_room(lib@, source_cluster_id);
    }
    let source: i64 = ensure_identity_for_group(lib, source_cluster_id);
    let target: i64 = ensure_identity_for_group(lib, target_cluster_id);
    bind_faces(lib, face_ids, target);
    let added = record_cannot_link_if_new(lib, source, target);
    let mut undo = CorrectionUndo::faces_only(prior);
    undo.added_cannot_link = added;
    Ok(Correction { undo, touched: Vec::new(), refold: false })
}

/// The existing person a typed name means, if any: one other than the source.
pub open spec fn same_named(lib: LibraryView, source: i64, name: Option<Seq<char>>) -> Option<i64> {
    match name {
        Some(n) => match person_named(group_ensured(lib, source).identities, n) {
            Some(target) => if target != source {
                Some(target)
            } else {
                None
            },
            None => None,
        },
        None => None,
    }
}

/// A name worth using: not empty after trimming.
pub open spec fn usable(name: Option<String>) -> Option<Seq<char>> {
    match name {
        Some(n) => if trimmed(n@).len() > 0 {
            Some(trimmed(n@))
        } else {
            None
        },
        None => None,
    }
}

/// The library after faces were split off as a new person.
pub open spec fn split_off(
    lib: LibraryView,
    ids: Seq<i64>,
    source: i64,
    name: Option<Seq<char>>,
) -> LibraryView {
    let held = group_ensured(lib, source);
    let id = (held.last_identity() + 1) as i64;
    let bound = minted(held).with_marks(bound_to(ids, id));
    let called = match name {
        Some(n) => group_renamed(bound, identity_key(id), n),
        None => bound,
    };
    recorded_apart(called, identity_for(lib, source), id)
}

/// The new person's identity, when faces are split off.
pub open spec fn split_identity(lib: LibraryView, source: i64) -> i64 {
    (group_ensured(lib, source).last_identity() + 1) as i64
}

/// The undo of splitting faces off as a new person.
pub open spec fn split_undo(
    lib: LibraryView,
    ids: Seq<i64>,
    source: i64,
    name: Option<Seq<char>>,
) -> UndoView {
    let id = split_identity(lib, source);
    UndoView {
        new_cluster_id: Some(identity_key(id)),
        added_cannot_link: newly_apart(lib, identity_for(lib, source), id),
        renamed: match name {
            Some(_) => Some((id, None)),
            None => None,
        },
        ..faces_back(face_states(lib, ids))
    }
}

/// Reassign faces to a **new** person (an optional name): splits them into a fresh
/// identity and cannot-links them from the source person. If the typed name is already a
/// person, they go to that person instead of minting a duplicate.
pub fn reassign_faces_to_new_person(
    lib: &mut Library,
    generation: i64,
    face_ids: &Vec<i64>,
    source_cluster_id: i64,
    name: &Option<String>,
    expected: Option<i64>,
) -> (r: Result<Correction, Refusal>)
    requires
        old(lib).wf(),
        old(lib)@.last_identity() < i64::MAX - 1,
    ensures
        final(lib).wf(),
        stale(generation, expected) ==> r == Err::<Correction, Refusal>(Refusal::Stale)
            && final(lib)@ == old(lib)@,
        !stale(generation, expected) ==> (match same_named(
            old(lib)@,
            source_cluster_id,
            usable(*name),
        ) {
            Some(target) => {
                &&& final(lib)@ == reassigned(old(lib)@, face_ids@, source_cluster_id, target)
                &&& r matches Ok(c) && c.undo@ == (UndoView {
                    added_cannot_link: reassigned_apart(old(lib)@, source_cluster_id, target),
                    ..faces_back(face_states(old(lib)@, face_ids@))
                }) && c.touched@.len() == 0 && !c.refold
            },
            None => {
                &&& final(lib)@ == split_off(
                    old(lib)@,
                    face_ids@,
                    source_cluster_id,
                    usable(*name),
                )
                &&& r matches Ok(c) && c.undo@ == split_undo(
                    old(lib)@,
                    face_ids@,
                    source_cluster_id,
                    usable(*name),
                ) && c.touched@.len() == 0 && !c.refold
            },
        }),
{
    if let Err(e) = ensure_generation(generation, expected) {
        return Err(e);
    }
    let prior = capture_face_states(lib, face_ids);
    proof {
        lemma_room(lib@, source_cluster_id);
    }
    let source: i64 = ensure_identity_for_group(lib, source_cluster_id);
    let wanted: Option<String> = match name {
        Some(n) => {
            let t = trim(n.as_str());
            if t.as_str().is_empty() {
                None
            } else {
                Some(t)
            }
        },
        None => None,
    };
    assert(opt_text(wanted) == usable(*name));
    if let Some(n) = &wanted {
        proof {
            lemma_trim_twice(name->0@);
        }
        if let Some(target) = group_for_name(lib, n.as_str()) {
            if target != source_cluster_id {
                let target_id: i64 = ensure_identity_for_group(lib, target);
                bind_faces(lib, face_ids, target_id);
                let added = record_cannot_link_if_new(lib, source, target_id);
                let mut undo = CorrectionUndo::faces_only(prior);
                undo.added_cannot_link = added;
                return Ok(Correction { undo, touched: Vec::new(), refold: false });
            }
        }
    }
    let id: i64 = new_identity(lib);
    bind_faces(lib, face_ids, id);
    let key: i64 = key_of(id);
    let named = wanted.is_some();
    if let Some(n) = &wanted {
        let _ = name_group(lib, key, n.as_str());
    }
    let added = record_cannot_link_if_new(lib, source, id);
    let mut undo = CorrectionUndo::faces_only(prior);
    undo.new_cluster_id = Some(key);
    undo.added_cannot_link = added;
    undo.renamed = if named {
        Some((id, None))
    } else {
        None
    };
    Ok(Correction { undo, touched: Vec::new(), refold: false })
}

/// The library after faces were confirmed into an existing person.
pub open spec fn confirmed_into(lib: LibraryView, ids: Seq<i64>, target: i64) -> LibraryView {
    group_ensured(lib, target).with_marks(bound_to(ids, identity_for(lib, target)))
}

/// Confirm a subset of faces into an existing person, leaving the rest of their current
/// cluster untouched. Records **no** cannot-link against the source: the untagged
/// remainder may well be one of the two people.
pub fn confirm_faces_into_cluster(
    lib: &mut Library,
    generation: i64,
    face_ids: &Vec<i64>,
    target_cluster_id: i64,
    expected: Option<i64>,
) -> (r: Result<Correction, Refusal>)
    requires
        old(lib).wf(),
        old(lib)@.last_identity() < i64::MAX,
    ensures
        final(lib).wf(),
        stale(generation, expected) ==> r == Err::<Correction, Refusal>(Refusal::Stale)
            && final(lib)@ == old(lib)@,
        !stale(generation, expected) ==> {
            &&& final(lib)@ == confirmed_into(old(lib)@, face_ids@, target_cluster_id)
            &&& r matches Ok(c) && c.undo@ == faces_back(face_states(old(lib)@, face_ids@))
                && c.touched@.len() == 0 && c.refold
        },
{
    if let Err(e) = ensure_generation(generation, expected) {
        return Err(e);
    }
    let prior = capture_face_states(lib, face_ids);
    let target: i64 = ensure_identity_for_group(lib, target_cluster_id);
    bind_faces(lib, face_ids, target);
    Ok(Correction { undo: CorrectionUndo::faces_only(prior), touched: Vec::new(), refold: true })
}

/// Ignore faces (drop from People for good).
pub fn ignore_some_faces(lib: &mut Library, face_ids: &Vec<i64>) -> (c: Correction)
    requires
        old(lib).wf(),
    ensures
        final(lib).wf(),
        final(lib)@ == old(lib)@.with_marks(dropped(face_ids@)),
        c.undo@ == faces_back(face_states(old(lib)@, face_ids@)),
        c.touched@.len() == 0,
        !c.refold,
{
    let prior = capture_face_states(lib, face_ids);
    ignore_faces(lib, face_ids);
    Correction { undo: CorrectionUndo::faces_only(prior), touched: Vec::new(), refold: false }
}

/// "Not this person" without naming who they are: unbind the faces from their current
/// person and let the self-heal pass re-home each by appearance.
pub fn detach_some_faces(lib: &mut Library, face_ids: &Vec<i64>) -> (c: Correction)
    requires
        old(lib).wf(),
    ensures
        final(lib).wf(),
        final(lib)@ == old(lib)@.with_marks(freed(face_ids@)),
        c.undo@ == faces_back(face_states(old(lib)@, face_ids@)),
        c.touched@.len() == 0,
        c.refold,
{
    let prior = capture_face_states(lib, face_ids);
    free_faces(lib, face_ids);
    Correction { undo: CorrectionUndo::faces_only(prior), touched: Vec::new(), refold: true }
}

/// The library after a correction was undone.
pub open spec fn undone(lib: LibraryView, u: UndoView) -> LibraryView {
    let back = lib.with_marks(restored(u.prior));
    let one = match u.added_cannot_link {
        Some(p) => without_pair(back.cannot_link, p.0, p.1),
        None => back.cannot_link,
    };
    let freed = LibraryView {
        cannot_link: without_pairs(one, u.added_cannot_links),
        same_photo_ok: without_pairs(back.same_photo_ok, u.added_same_photo_ok),
        ..back
    };
    match u.renamed {
        Some(r) => with_identity_name(freed, r.0, r.1),
        None => freed,
    }
}

/// Undo any correction: restore the faces' prior grouping and drop any cannot-link or
/// same-photo exceptions the correction added, and put back any name it wrote.
pub fn undo_correction(lib: &mut Library, undo: &CorrectionUndo)
    requires
        old(lib).wf(),
    ensures
        final(lib)@ == undone(old(lib)@, undo@),
        final(lib).wf(),
{
    restore_face_states(lib, &undo.prior);
    if let Some((a, b)) = undo.added_cannot_link {
        remove_cannot_link(lib, a, b);
    }
    let ghost before = lib@;
    for k in 0..undo.added_cannot_links.len()
        invariant
            lib.wf(),
            lib@ == (LibraryView {
                cannot_link: without_pairs(
                    before.cannot_link,
                    undo.added_cannot_links@.take(k as int),
                ),
                ..before
            }),
    {
        assert(undo.added_cannot_links@.take(k + 1).drop_last()
            == undo.added_cannot_links@.take(k as int));
        let (a, b) = undo.added_cannot_links[k];
        remove_cannot_link(lib, a, b);
    }
    assert(undo.added_cannot_links@.take(undo.added_cannot_links@.len() as int)
        == undo.added_cannot_links@);
    remove_same_photo_ok(lib, &undo.added_same_photo_ok);
    if let Some((identity, name)) = &undo.renamed {
        restore_identity_name(lib, *identity, name);
    }
}

/// The library after one more group was absorbed.
pub open spec fn absorb_one(lib: LibraryView, into: i64, id: i64, from: i64) -> LibraryView {
    if from == into || other_named(lib, from, Some(id)) {
        lib
    } else {
        lib.with_marks(adopt_group(lib, from, id)).with_marks(
            confirm_group(from, Some(id)),
        ).with_marks(bind_group(from, id))
    }
}

/// The library after several groups were absorbed.
pub open spec fn absorb_all(lib: LibraryView, into: i64, id: i64, clusters: Seq<i64>) -> LibraryView
    decreases clusters.len(),
{
    if clusters.len() == 0 {
        lib
    } else {
        absorb_one(absorb_all(lib, into, id, clusters.drop_last()), into, id, clusters.last())
    }
}

/// Fold a batch of look-alike groups into a confirmed person in one action. A group that
/// *is* a different named person is never absorbed; an unnamed competitor is adopted.
pub fn absorb_clusters(
    lib: &mut Library,
    generation: i64,
    into: i64,
    clusters: &Vec<i64>,
    expected: Option<i64>,
) -> (r: Result<Correction, Refusal>)
    requires
        old(lib).wf(),
        old(lib)@.last_identity() < i64::MAX,
    ensures
        final(lib).wf(),
        stale(generation, expected) ==> r == Err::<Correction, Refusal>(Refusal::Stale)
            && final(lib)@ == old(lib)@,
        !stale(generation, expected) ==> {
            &&& final(lib)@ == absorb_all(
                group_ensured(old(lib)@, into),
                into,
                identity_for(old(lib)@, into),
                clusters@,
            )
            &&& r matches Ok(c) && c.undo@ == faces_back(
                group_states(old(lib)@, clusters@.push(into)),
            ) && c.touched@ == clusters@.push(into) && c.refold
        },
{
    if let Err(e) = ensure_generation(generation, expected) {
        return Err(e);
    }
    let mut touched = copy_ids(clusters);
    touched.push(into);
    let prior = capture_group_states(lib, &touched);
    let id: i64 = ensure_identity_for_group(lib, into);
    let ghost start = lib@;
    for k in 0..clusters.len()
        invariant
            lib.wf(),
            lib@ == absorb_all(start, into, id, clusters@.take(k as int)),
    {
        assert(clusters@.take(k + 1).drop_last() == clusters@.take(k as int));
        let from: i64 = clusters[k];
        if from != into && !group_is_other_named_person(lib, from, Some(id)) {
            adopt_unnamed_group(lib, from, id);
            confirm_group_faces(lib, from, Some(id));
            merge_group_into_identity(lib, id, from);
        }
    }
    assert(clusters@.take(clusters@.len() as int) == clusters@);
    Ok(Correction { undo: CorrectionUndo::faces_only(prior), touched, refold: true })
}

/// The library after two groups were declared different people: both are durable
/// competitors.
pub open spec fn rejected(lib: LibraryView, into: i64, from: i64) -> LibraryView {
    let (a, b) = (identity_for(lib, into), second_identity(lib, into, from));
    recorded_apart(both_ensured(lib, into, from), a, b).with_marks(confirm_identity(a)).with_marks(
        confirm_identity(b),
    )
}

/// The undo of an answer that declared two groups different people.
pub open spec fn apart_undo(lib: LibraryView, into: i64, from: i64) -> UndoView {
    UndoView {
        added_cannot_link: newly_apart(
            lib,
            identity_for(lib, into),
            second_identity(lib, into, from),
        ),
        ..faces_back(group_states(lib, seq![into, from]))
    }
}

/// Declare two groups different people, both durable competitors.
fn keep_apart(lib: &mut Library, into: i64, from: i64) -> (undo: CorrectionUndo)
    requires
        old(lib).wf(),
        old(lib)@.last_identity() < i64::MAX - 1,
    ensures
        final(lib).wf(),
        final(lib)@ == rejected(old(lib)@, into, from),
        undo@ == apart_undo(old(lib)@, into, from),
{
    let prior = capture_group_states(lib, &two(into, from));
    proof {
        lemma_room(lib@, into);
    }
    let a: i64 = ensure_identity_for_group(lib, into);
    let b: i64 = ensure_identity_for_group(lib, from);
    let added = record_cannot_link_if_new(lib, a, b);
    confirm_identity_faces(lib, a);
    confirm_identity_faces(lib, b);
    let mut undo = CorrectionUndo::faces_only(prior);
    undo.added_cannot_link = added;
    undo
}

/// "Not the same" on a merge prompt: record a durable cannot-link so the pair is never
/// suggested again. Both sides become durable *competitors*.
pub fn reject_merge(
    lib: &mut Library,
    generation: i64,
    into: i64,
    from: i64,
    expected: Option<i64>,
) -> (r: Result<Correction, Refusal>)
    requires
        old(lib).wf(),
        old(lib)@.last_identity() < i64::MAX - 1,
    ensures
        final(lib).wf(),
        stale(generation, expected) ==> r == Err::<Correction, Refusal>(Refusal::Stale)
            && final(lib)@ == old(lib)@,
        !stale(generation, expected) ==> {
            &&& final(lib)@ == rejected(old(lib)@, into, from)
            &&& r matches Ok(c) && c.undo@ == apart_undo(old(lib)@, into, from) && c.touched@
                == seq![into, from] && !c.refold
        },
{
    if let Err(e) = ensure_generation(generation, expected) {
        return Err(e);
    }
    let undo = keep_apart(lib, into, from);
    Ok(Correction { undo, touched: two(into, from), refold: false })
}

/// The library after a group was declared not to be a person: the group is a durable
/// competitor.
pub open spec fn not_person(lib: LibraryView, person: i64, other: i64) -> LibraryView {
    let (p, o) = (identity_for(lib, person), second_identity(lib, person, other));
    recorded_apart(both_ensured(lib, person, other), p, o).with_marks(confirm_identity(o))
}

/// "Not <person>" on a review candidate: confirm the group's faces as their own identity
/// (an unnamed "someone else") and cannot-link it from the person. Because confirmed
/// identities compete for faces, the rejection generalizes.
pub fn not_this_person(
    lib: &mut Library,
    generation: i64,
    person_cluster_id: i64,
    other_cluster_id: i64,
    expected: Option<i64>,
) -> (r: Result<Correction, Refusal>)
    requires
        old(lib).wf(),
        old(lib)@.last_identity() < i64::MAX - 1,
    ensures
        final(lib).wf(),
        stale(generation, expected) ==> r == Err::<Correction, Refusal>(Refusal::Stale)
            && final(lib)@ == old(lib)@,
        !stale(generation, expected) ==> {
            &&& final(lib)@ == not_person(old(lib)@, person_cluster_id, other_cluster_id)
            &&& r matches Ok(c) && c.undo@ == apart_undo(
                old(lib)@,
                person_cluster_id,
                other_cluster_id,
            ) && c.touched@ == seq![person_cluster_id, other_cluster_id] && c.refold
        },
{
    if let Err(e) = ensure_generation(generation, expected) {
        return Err(e);
    }
    let touched = two(person_cluster_id, other_cluster_id);
    let prior = capture_group_states(lib, &touched);
    proof {
        lemma_room(lib@, person_cluster_id);
    }
    let person: i64 = ensure_identity_for_group(lib, person_cluster_id);
    let other: i64 = ensure_identity_for_group(lib, other_cluster_id);
    let added = record_cannot_link_if_new(lib, person, other);
    confirm_identity_faces(lib, other);
    let mut undo = CorrectionUndo::faces_only(prior);
    undo.added_cannot_link = added;
    Ok(Correction { undo, touched, refold: true })
}

/// The library after an identity was declared different from each of several groups.
pub open spec fn apart_from_all(lib: LibraryView, id: i64, groups: Seq<i64>) -> LibraryView
    decreases groups.len(),
{
    if groups.len() == 0 {
        lib
    } else {
        let held = apart_from_all(lib, id, groups.drop_last());
        recorded_apart(
            group_ensured(held, groups.last()),
            id,
            identity_for(held, groups.last()),
        )
    }
}

/// The pairs that declaring an identity different from several groups adds.
pub open spec fn apart_added(lib: LibraryView, id: i64, groups: Seq<i64>) -> Seq<(i64, i64)>
    decreases groups.len(),
{
    if groups.len() == 0 {
        Seq::empty()
    } else {
        let held = apart_from_all(lib, id, groups.drop_last());
        let rest = apart_added(lib, id, groups.drop_last());
        match newly_apart(held, id, identity_for(held, groups.last())) {
            Some(p) => rest.push(p),
            None => rest,
        }
    }
}

proof fn lemma_apart_room(lib: LibraryView, id: i64, groups: Seq<i64>)
    requires
        lib.last_identity() + groups.len() <= i64::MAX,
    ensures
        apart_from_all(lib, id, groups).last_identity() <= lib.last_identity() + groups.len(),
    decreases groups.len(),
{
    if groups.len() > 0 {
        lemma_apart_room(lib, id, groups.drop_last());
        lemma_room(apart_from_all(lib, id, groups.drop_last()), groups.last());
    }
}

/// The library after a group was declared to be none of several people.
pub open spec fn none_of(lib: LibraryView, other: i64, people: Seq<i64>) -> LibraryView {
    let id = identity_for(lib, other);
    apart_from_all(group_ensured(lib, other), id, people).with_marks(confirm_identity(id))
}

/// "Someone else" *without* saying who: cannot-link the group from every candidate and
/// confirm it as its own durable unnamed competitor.
pub fn not_these_people(
    lib: &mut Library,
    generation: i64,
    other_cluster_id: i64,
    person_cluster_ids: &Vec<i64>,
    expected: Option<i64>,
) -> (r: Result<Correction, Refusal>)
    requires
        old(lib).wf(),
        old(lib)@.last_identity() + 1 + person_cluster_ids@.len() <= i64::MAX,
    ensures
        final(lib).wf(),
        stale(generation, expected) ==> r == Err::<Correction, Refusal>(Refusal::Stale)
            && final(lib)@ == old(lib)@,
        !stale(generation, expected) ==> {
            &&& final(lib)@ == none_of(old(lib)@, other_cluster_id, person_cluster_ids@)
            &&& r matches Ok(c) && c.undo@ == (UndoView {
                added_cannot_links: apart_added(
                    group_ensured(old(lib)@, other_cluster_id),
                    identity_for(old(lib)@, other_cluster_id),
                    person_cluster_ids@,
                ),
                ..faces_back(
                    group_states(old(lib)@, person_cluster_ids@.push(other_cluster_id)),
                )
            }) && c.touched@ == person_cluster_ids@.push(other_cluster_id) && c.refold
        },
{
    if let Err(e) = ensure_generation(generation, expected) {
        return Err(e);
    }
    let mut touched = copy_ids(person_cluster_ids);
    touched.push(other_cluster_id);
    let prior = capture_group_states(lib, &touched);
    proof {
        lemma_room(lib@, other_cluster_id);
    }
    let other: i64 = ensure_identity_for_group(lib, other_cluster_id);
    let ghost start = lib@;
    let mut added: Vec<(i64, i64)> = Vec::new();
    for k in 0..person_cluster_ids.len()
        invariant
            lib.wf(),
            start.last_identity() + person_cluster_ids@.len() <= i64::MAX,
            lib@ == apart_from_all(start, other, person_cluster_ids@.take(k as int)),
            added@ == apart_added(start, other, person_cluster_ids@.take(k as int)),
    {
        proof {
            assert(person_cluster_ids@.take(k + 1).drop_last() == person_cluster_ids@.take(
                k as int,
            ));
            lemma_apart_room(start, other, person_cluster_ids@.take(k as int));
        }
        let person: i64 = ensure_identity_for_group(lib, person_cluster_ids[k]);
        if let Some(pair) = record_cannot_link_if_new(lib, other, person) {
            added.push(pair);
        }
    }
    assert(person_cluster_ids@.take(person_cluster_ids@.len() as int) == person_cluster_ids@);
    confirm_identity_faces(lib, other);
    let mut undo = CorrectionUndo::faces_only(prior);
    undo.added_cannot_links = added;
    Ok(Correction { undo, touched, refold: true })
}

/// The library after several groups were declared not to be a person: each is a durable
/// competitor.
pub open spec fn rejects(lib: LibraryView, person: i64, groups: Seq<i64>) -> LibraryView
    decreases groups.len(),
{
    if groups.len() == 0 {
        lib
    } else {
        let held = rejects(lib, person, groups.drop_last());
        let id = identity_for(held, groups.last());
        recorded_apart(group_ensured(held, groups.last()), person, id).with_marks(
            confirm_identity(id),
        )
    }
}

/// The pairs that declaring several groups not to be a person adds.
pub open spec fn rejects_added(lib: LibraryView, person: i64, groups: Seq<i64>) -> Seq<(i64, i64)>
    decreases groups.len(),
{
    if groups.len() == 0 {
        Seq::empty()
    } else {
        let held = rejects(lib, person, groups.drop_last());
        let rest = rejects_added(lib, person, groups.drop_last());
        match newly_apart(held, person, identity_for(held, groups.last())) {
            Some(p) => rest.push(p),
            None => rest,
        }
    }
}

proof fn lemma_rejects_room(lib: LibraryView, person: i64, groups: Seq<i64>)
    requires
        lib.last_identity() + groups.len() <= i64::MAX,
    ensures
        rejects(lib, person, groups).last_identity() <= lib.last_identity() + groups.len(),
    decreases groups.len(),
{
    if groups.len() > 0 {
        lemma_rejects_room(lib, person, groups.drop_last());
        lemma_room(rejects(lib, person, groups.drop_last()), groups.last());
    }
}

/// "Not this person" for a whole batch of candidate groups at once, captured as *one*
/// undoable action.
pub fn not_this_person_many(
    lib: &mut Library,
    generation: i64,
    person_cluster_id: i64,
    other_cluster_ids: &Vec<i64>,
    expected: Option<i64>,
) -> (r: Result<Correction, Refusal>)
    requires
        old(lib).wf(),
        old(lib)@.last_identity() + 1 + other_cluster_ids@.len() <= i64::MAX,
    ensures
        final(lib).wf(),
        stale(generation, expected) ==> r == Err::<Correction, Refusal>(Refusal::Stale)
            && final(lib)@ == old(lib)@,
        !stale(generation, expected) ==> {
            &&& final(lib)@ == rejects(
                group_ensured(old(lib)@, person_cluster_id),
                identity_for(old(lib)@, person_cluster_id),
                other_cluster_ids@,
            )
            &&& r matches Ok(c) && c.undo@ == (UndoView {
                added_cannot_links: rejects_added(
                    group_ensured(old(lib)@, person_cluster_id),
                    identity_for(old(lib)@, person_cluster_id),
                    other_cluster_ids@,
                ),
                ..faces_back(
                    group_states(old(lib)@, other_cluster_ids@.push(person_cluster_id)),
                )
            }) && c.touched@ == other_cluster_ids@.push(person_cluster_id) && c.refold
        },
{
    if let Err(e) = ensure_generation(generation, expected) {
        return Err(e);
    }
    let mut touched = copy_ids(other_cluster_ids);
    touched.push(person_cluster_id);
    let prior = capture_group_states(lib, &touched);
    proof {
        lemma_room(lib@, person_cluster_id);
    }
    let person: i64 = ensure_identity_for_group(lib, person_cluster_id);
    let ghost start = lib@;
    let mut added: Vec<(i64, i64)> = Vec::new();
    for k in 0..other_cluster_ids.len()
        invariant
            lib.wf(),
            start.last_identity() + other_cluster_ids@.len() <= i64::MAX,
            lib@ == rejects(start, person, other_cluster_ids@.take(k as int)),
            added@ == rejects_added(start, person, other_cluster_ids@.take(k as int)),
    {
        proof {
            assert(other_cluster_ids@.take(k + 1).drop_last() == other_cluster_ids@.take(
                k as int,
            ));
            lemma_rejects_room(start, person, other_cluster_ids@.take(k as int));
        }
        let other: i64 = ensure_identity_for_group(lib, other_cluster_ids[k]);
        if let Some(pair) = record_cannot_link_if_new(lib, person, other) {
            added.push(pair);
        }
        confirm_identity_faces(lib, other);
    }
    assert(other_cluster_ids@.take(other_cluster_ids@.len() as int) == other_cluster_ids@);
    let mut undo = CorrectionUndo::faces_only(prior);
    undo.added_cannot_links = added;
    Ok(Correction { undo, touched, refold: true })
}

/// The identity faces get when they are named.
pub open spec fn naming_identity(lib: LibraryView, name: Seq<char>) -> i64 {
    match person_called(lib.identities, name) {
        Some(group) => identity_for(lib, group),
        None => (lib.last_identity() + 1) as i64,
    }
}

/// The library after faces were named.
pub open spec fn faces_named(lib: LibraryView, ids: Seq<i64>, name: Seq<char>) -> LibraryView {
    let id = naming_identity(lib, name);
    let held = if person_called(lib.identities, name) is Some {
        lib
    } else {
        group_renamed(minted(lib), identity_key(id), name)
    };
    held.with_marks(bound_to(ids, id))
}

/// The undo of naming faces.
pub open spec fn faces_named_undo(lib: LibraryView, ids: Seq<i64>, name: Seq<char>) -> UndoView {
    let id = naming_identity(lib, name);
    UndoView {
        new_cluster_id: Some(identity_key(id)),
        renamed: if person_called(lib.identities, name) is Some {
            None
        } else {
            Some((id, None))
        },
        ..faces_back(face_states(lib, ids))
    }
}

/// Name (or assign to an existing person, matched by exact name) a handful of faces,
/// *without* touching the rest of their cluster and *without* a cannot-link.
pub fn name_faces(
    lib: &mut Library,
    generation: i64,
    face_ids: &Vec<i64>,
    name: &str,
    expected: Option<i64>,
) -> (r: Result<Correction, Refusal>)
    requires
        old(lib).wf(),
        old(lib)@.last_identity() < i64::MAX,
    ensures
        final(lib).wf(),
        trimmed(name@).len() == 0 ==> r == Err::<Correction, Refusal>(Refusal::NameRequired)
            && final(lib)@ == old(lib)@,
        trimmed(name@).len() > 0 && stale(generation, expected) ==> r == Err::<
            Correction,
            Refusal,
        >(Refusal::Stale) && final(lib)@ == old(lib)@,
        trimmed(name@).len() > 0 && !stale(generation, expected) ==> {
            &&& final(lib)@ == faces_named(old(lib)@, face_ids@, trimmed(name@))
            &&& r matches Ok(c) && c.undo@ == faces_named_undo(
                old(lib)@,
                face_ids@,
                trimmed(name@),
            ) && c.touched@.len() == 0 && c.refold
        },
{
    let wanted = trim(name);
    if wanted.as_str().is_empty() {
        return Err(Refusal::NameRequired);
    }
    if let Err(e) = ensure_generation(generation, expected) {
        return Err(e);
    }
    proof {
        lemma_trim_twice(name@);
        lemma_person_key(lib@.identities, trimmed(name@));
    }
    let prior = capture_face_states(lib, face_ids);
    let mut renamed: Option<(i64, Option<String>)> = None;
    let id: i64 = match group_called(lib, wanted.as_str()) {
        Some(group) => ensure_identity_for_group(lib, group),
        None => {
            let fresh: i64 = new_identity(lib);
            let _ = name_group(lib, key_of(fresh), wanted.as_str());
            renamed = Some((fresh, None));
            fresh
        },
    };
    bind_faces(lib, face_ids, id);
    let mut undo = CorrectionUndo::faces_only(prior);
    undo.new_cluster_id = Some(key_of(id));
    undo.renamed = renamed;
    Ok(Correction { undo, touched: Vec::new(), refold: true })
}

/// A person found by their exact name is found by a person's key.
proof fn lemma_person_key(identities: Seq<IdentityView>, name: Seq<char>)
    ensures
        person_called(identities, name) matches Some(g) ==> g < 0,
    decreases identities.len(),
{
    if identities.len() > 0 {
        lemma_person_key(identities.drop_first(), name);
    }
}

/// The faces of pairs that share a photo.
pub open spec fn face_pairs(shared: Seq<(i64, i64, i64)>) -> Seq<(i64, i64)> {
    shared.map_values(|p: (i64, i64, i64)| (p.1, p.2))
}

/// The co-occurring face pairs of two groups.
pub open spec fn blocked_pairs(lib: LibraryView, into: i64, from: i64) -> Seq<(i64, i64)> {
    face_pairs(cooccurring(lib.faces, into, from, lib.faces.len()))
}

/// The library after two groups that share photos were declared one person.
pub open spec fn reunited(lib: LibraryView, into: i64, from: i64) -> LibraryView {
    let id = identity_for(lib, into);
    let held = group_ensured(lib, into);
    let ok = LibraryView {
        same_photo_ok: with_pairs(held.same_photo_ok, blocked_pairs(lib, into, from)),
        ..held
    };
    ok.with_marks(adopt_group(ok, from, id)).with_marks(bind_group(from, id)).with_marks(
        confirm_identity(id),
    )
}

/// Resolve a same-photo contradiction. `same_person`: it's a collage or mirror; record
/// durable per-pair exceptions for every co-occurring face pair, then merge and confirm.
/// Otherwise they're two look-alikes (twins): a durable cannot-link. Only a *named*
/// other person blocks the assignment.
pub fn resolve_same_photo(
    lib: &mut Library,
    generation: i64,
    into: i64,
    from: i64,
    same_person: bool,
    expected: Option<i64>,
) -> (r: Result<Correction, Refusal>)
    requires
        old(lib).wf(),
        old(lib)@.last_identity() < i64::MAX - 1,
    ensures
        final(lib).wf(),
        stale(generation, expected) ==> r == Err::<Correction, Refusal>(Refusal::Stale)
            && final(lib)@ == old(lib)@,
        !stale(generation, expected) && !same_person ==> {
            &&& final(lib)@ == rejected(old(lib)@, into, from)
            &&& r matches Ok(c) && c.undo@ == apart_undo(old(lib)@, into, from) && c.touched@
                == seq![into, from] && c.refold
        },
        !stale(generation, expected) && same_person ==> ({
            let blocked = other_named(
                group_ensured(old(lib)@, into),
                from,
                Some(identity_for(old(lib)@, into)),
            );
            &&& blocked ==> r == Err::<Correction, Refusal>(Refusal::OtherPerson)
                && final(lib)@ == group_ensured(old(lib)@, into)
            &&& !blocked ==> {
                &&& final(lib)@ == reunited(old(lib)@, into, from)
                &&& r matches Ok(c) && c.undo@ == (UndoView {
                    added_same_photo_ok: new_pairs(
                        old(lib)@.same_photo_ok,
                        blocked_pairs(old(lib)@, into, from),
                    ),
                    ..faces_back(group_states(old(lib)@, seq![into, from]))
                }) && c.touched@ == seq![into, from] && c.refold
            }
        }),
{
    if let Err(e) = ensure_generation(generation, expected) {
        return Err(e);
    }
    if !same_person {
        let undo = keep_apart(lib, into, from);
        return Ok(Correction { undo, touched: two(into, from), refold: true });
    }
    let prior = capture_group_states(lib, &two(into, from));
    // Resolve the blocked face pairs before any minting shifts the group keys.
    let shared = cooccurring_face_pairs(lib, into, from);
    let mut pairs: Vec<(i64, i64)> = Vec::with_capacity(shared.len());
    for k in 0..shared.len()
        invariant
            pairs@ == face_pairs(shared@).take(k as int),
    {
        pairs.push((shared[k].1, shared[k].2));
        assert(pairs@ =~= face_pairs(shared@).take(k + 1));
    }
    assert(pairs@ =~= face_pairs(shared@));
    let id: i64 = ensure_identity_for_group(lib, into);
    if group_is_other_named_person(lib, from, Some(id)) {
        return Err(Refusal::OtherPerson);
    }
    let added = add_same_photo_ok_returning_new(lib, &pairs);
    adopt_unnamed_group(lib, from, id);
    merge_group_into_identity(lib, id, from);
    confirm_identity_faces(lib, id);
    let mut undo = CorrectionUndo::faces_only(prior);
    undo.added_same_photo_ok = added;
    Ok(Correction { undo, touched: two(into, from), refold: true })
}

} // verus!
