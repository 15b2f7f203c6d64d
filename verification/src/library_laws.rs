//! What every operation keeps: the appearance layer under corrections, the faces that were
//! taken out, and the order of the timeline.

use vstd::prelude::*;

use crate::cluster::LinkConstraints;
use crate::confirmations::clear_tentative;
use crate::corrections::{
    absorb_all, apart_from_all, blocked_pairs, both_ensured, confirmed_into, faces_named,
    groups_merged, merge_sides, naming_identity, none_of, not_person, reassigned, rejected,
    rejects, reunited, second_identity, split_off,
};
use crate::faces::{bound_to, in_pool, reclustered};
use crate::groups::{
    adopt_group, bind_group, confirm_group, confirm_identity, group_ensured, group_renamed,
    identity_for, newest_first, timeline, PhotoRow,
};
use crate::identities::minted;
use crate::library::{identity_key, marked, FaceMarks, FaceView, LibraryView};
use crate::links::{recorded_apart, with_pairs};
use crate::names::{person_called, with_identity_name};
use crate::order::{before, lemma_order_of, order_of};
use crate::passes::{new_clusters, rebuilt};
use crate::photos::window;
use crate::rebuild_laws::lemma_lookup_none;
use crate::recognition::{fold_marks, folds, refolded};
use crate::rows::{lemma_select_from, select};

verus! {

/// The faces are the same, and in the same appearance clusters.
pub open spec fn same_clusters(a: LibraryView, b: LibraryView) -> bool {
    &&& a.faces.len() == b.faces.len()
    &&& forall|i: int|
        0 <= i < a.faces.len() ==> (#[trigger] b.faces[i]).id == a.faces[i].id
            && b.faces[i].marks.cluster_id == a.faces[i].marks.cluster_id
}

spec fn keeps_clusters(mark: spec_fn(FaceView) -> FaceMarks) -> bool {
    forall|f: FaceView| (#[trigger] mark(f)).cluster_id == f.marks.cluster_id
}

proof fn lemma_marked(start: LibraryView, lib: LibraryView, mark: spec_fn(FaceView) -> FaceMarks)
    requires
        same_clusters(start, lib),
        keeps_clusters(mark),
    ensures
        same_clusters(start, lib.with_marks(mark)),
{
    let after = lib.with_marks(mark);
    assert forall|i: int| 0 <= i < start.faces.len() implies (#[trigger] after.faces[i]).id
        == start.faces[i].id && after.faces[i].marks.cluster_id
        == start.faces[i].marks.cluster_id by {
        assert(after.faces[i] == marked(mark)(lib.faces[i]));
        assert(lib.faces[i].id == start.faces[i].id);
    }
}

proof fn lemma_ensured(start: LibraryView, lib: LibraryView, group: i64)
    requires
        same_clusters(start, lib),
    ensures
        same_clusters(start, group_ensured(lib, group)),
{
    if group >= 0 {
        lemma_marked(
            start,
            minted(lib),
            bind_group(group, identity_for(lib, group)),
        );
    }
}

proof fn lemma_renamed(start: LibraryView, lib: LibraryView, group: i64, name: Seq<char>)
    requires
        same_clusters(start, lib),
    ensures
        same_clusters(start, group_renamed(lib, group, name)),
{
    if name.len() > 0 {
        let id = identity_for(lib, group);
        lemma_ensured(start, lib, group);
        lemma_marked(
            start,
            with_identity_name(group_ensured(lib, group), id, Some(name)),
            confirm_identity(id),
        );
    }
}

/// Naming a group touches no appearance cluster.
pub proof fn law_naming_keeps_clusters(lib: LibraryView, group: i64, name: Seq<char>)
    ensures
        same_clusters(lib, group_renamed(lib, group, name)),
{
    lemma_renamed(lib, lib, group, name);
}

/// Merging two groups touches no appearance cluster: there is nothing to un-merge.
pub proof fn law_merging_keeps_clusters(lib: LibraryView, into: i64, from: i64)
    ensures
        same_clusters(lib, groups_merged(lib, into, from)),
        same_clusters(lib, reunited(lib, into, from)),
{
    let (a, b) = merge_sides(lib, into, from);
    let id = identity_for(lib, a);
    lemma_ensured(lib, lib, a);
    lemma_marked(lib, group_ensured(lib, a), bind_group(b, id));
    lemma_marked(lib, group_ensured(lib, a).with_marks(bind_group(b, id)), confirm_identity(id));

    let id = identity_for(lib, into);
    let held = group_ensured(lib, into);
    lemma_ensured(lib, lib, into);
    let ok = LibraryView {
        same_photo_ok: with_pairs(
            held.same_photo_ok,
            blocked_pairs(lib, into, from),
        ),
        ..held
    };
    lemma_marked(lib, ok, adopt_group(ok, from, id));
    let adopted = ok.with_marks(adopt_group(ok, from, id));
    lemma_marked(lib, adopted, bind_group(from, id));
    lemma_marked(lib, adopted.with_marks(bind_group(from, id)), confirm_identity(id));
}

/// Moving faces between persons, splitting them off, confirming them into a person or
/// naming them touches no appearance cluster.
pub proof fn law_moving_keeps_clusters(
    lib: LibraryView,
    ids: Seq<i64>,
    source: i64,
    target: i64,
    name: Seq<char>,
)
    ensures
        same_clusters(lib, reassigned(lib, ids, source, target)),
        same_clusters(lib, split_off(lib, ids, source, None)),
        same_clusters(lib, split_off(lib, ids, source, Some(name))),
        same_clusters(lib, confirmed_into(lib, ids, target)),
        same_clusters(lib, faces_named(lib, ids, name)),
{
    lemma_ensured(lib, lib, source);
    let held = group_ensured(lib, source);
    lemma_ensured(lib, held, target);
    lemma_marked(
        lib,
        group_ensured(held, target),
        bound_to(ids, second_identity(lib, source, target)),
    );

    let id = (held.last_identity() + 1) as i64;
    let bound = minted(held).with_marks(bound_to(ids, id));
    lemma_marked(lib, minted(held), bound_to(ids, id));
    lemma_renamed(lib, bound, identity_key(id), name);

    lemma_ensured(lib, lib, target);
    lemma_marked(lib, group_ensured(lib, target), bound_to(ids, identity_for(lib, target)));

    let nid = naming_identity(lib, name);
    if person_called(lib.identities, name) is Some {
        lemma_marked(lib, lib, bound_to(ids, nid));
    } else {
        let fresh = minted(lib);
        lemma_renamed(lib, fresh, identity_key(nid), name);
        lemma_marked(lib, group_renamed(fresh, identity_key(nid), name), bound_to(ids, nid));
    }
}

proof fn lemma_absorbed(lib: LibraryView, held: LibraryView, into: i64, id: i64, clusters: Seq<i64>)
    requires
        same_clusters(lib, held),
    ensures
        same_clusters(lib, absorb_all(held, into, id, clusters)),
    decreases clusters.len(),
{
    if clusters.len() > 0 {
        let from = clusters.last();
        lemma_absorbed(lib, held, into, id, clusters.drop_last());
        let l = absorb_all(held, into, id, clusters.drop_last());
        lemma_marked(lib, l, adopt_group(l, from, id));
        let adopted = l.with_marks(adopt_group(l, from, id));
        lemma_marked(lib, adopted, confirm_group(from, Some(id)));
        lemma_marked(
            lib,
            adopted.with_marks(confirm_group(from, Some(id))),
            bind_group(from, id),
        );
    }
}

/// Absorbing groups into a person touches no appearance cluster.
pub proof fn law_absorbing_keeps_clusters(lib: LibraryView, into: i64, clusters: Seq<i64>)
    ensures
        same_clusters(
            lib,
            absorb_all(group_ensured(lib, into), into, identity_for(lib, into), clusters),
        ),
{
    lemma_ensured(lib, lib, into);
    lemma_absorbed(lib, group_ensured(lib, into), into, identity_for(lib, into), clusters);
}

proof fn lemma_apart(lib: LibraryView, held: LibraryView, id: i64, groups: Seq<i64>)
    requires
        same_clusters(lib, held),
    ensures
        same_clusters(lib, apart_from_all(held, id, groups)),
    decreases groups.len(),
{
    if groups.len() > 0 {
        lemma_apart(lib, held, id, groups.drop_last());
        lemma_ensured(lib, apart_from_all(held, id, groups.drop_last()), groups.last());
    }
}

proof fn lemma_rejects(lib: LibraryView, held: LibraryView, person: i64, groups: Seq<i64>)
    requires
        same_clusters(lib, held),
    ensures
        same_clusters(lib, rejects(held, person, groups)),
    decreases groups.len(),
{
    if groups.len() > 0 {
        let front = rejects(held, person, groups.drop_last());
        let id = identity_for(front, groups.last());
        lemma_rejects(lib, held, person, groups.drop_last());
        lemma_ensured(lib, front, groups.last());
        lemma_marked(
            lib,
            recorded_apart(group_ensured(front, groups.last()), person, id),
            confirm_identity(id),
        );
    }
}

/// Declaring people different touches no appearance cluster.
pub proof fn law_rejecting_keeps_clusters(lib: LibraryView, a: i64, b: i64, groups: Seq<i64>)
    ensures
        same_clusters(lib, rejected(lib, a, b)),
        same_clusters(lib, not_person(lib, a, b)),
        same_clusters(lib, none_of(lib, a, groups)),
        same_clusters(lib, rejects(group_ensured(lib, a), identity_for(lib, a), groups)),
{
    let (x, y) = (identity_for(lib, a), second_identity(lib, a, b));
    lemma_ensured(lib, lib, a);
    lemma_ensured(lib, group_ensured(lib, a), b);
    let both = recorded_apart(both_ensured(lib, a, b), x, y);
    lemma_marked(lib, both, confirm_identity(x));
    lemma_marked(lib, both.with_marks(confirm_identity(x)), confirm_identity(y));
    lemma_marked(lib, both, confirm_identity(y));
    lemma_apart(lib, group_ensured(lib, a), x, groups);
    lemma_marked(lib, apart_from_all(group_ensured(lib, a), x, groups), confirm_identity(x));
    lemma_rejects(lib, group_ensured(lib, a), x, groups);
}

/// An appearance group is nobody's: none of its faces has a person, confirmed or not. What
/// is offered to a person therefore never holds anyone's confirmed faces.
pub proof fn law_appearance_groups_are_nobodys(f: FaceView, group: i64)
    requires
        group >= 0,
        f.marks.group() == Some(group),
    ensures
        f.marks.identity_id is None,
        f.marks.confirmed_identity() is None,
        f.marks.cluster_id == Some(group),
{
}

/// A face that was taken out of People stays out: neither a rebuild of the clusters nor a
/// fold gives it a cluster or a person.
pub proof fn law_ignored_faces_stay_out(lib: LibraryView, c: LinkConstraints, i: int)
    requires
        lib.wf(),
        0 <= i < lib.faces.len(),
        lib.faces[i].marks.cluster_id is None,
        lib.faces[i].marks.identity_id is None,
    ensures
        refolded(lib).faces[i].marks.group() is None,
        rebuilt(lib, c).faces[i].marks.group() is None,
        rebuilt(lib, c).faces[i].marks.ignored == lib.faces[i].marks.ignored,
{
    lemma_fold_leaves_out(lib, i);
    let pool = select(lib.faces, in_pool());
    if pool.len() > 0 {
        let pairs = new_clusters(lib, c);
        let f = lib.faces[i];
        assert forall|a: int| 0 <= a < pairs.len() implies (#[trigger] pairs[a]).0 != f.id by {
            assert(pairs[a].0 == pool[a].0);
            lemma_select_from(lib.faces, in_pool(), a);
            let k = choose|k: int|
                0 <= k < lib.faces.len() && in_pool()(#[trigger] lib.faces[k]) == Some(pool[a]);
            if k < i {
                assert(lib.faces[k].id < lib.faces[i].id);
            } else if k > i {
                assert(lib.faces[i].id < lib.faces[k].id);
            }
        }
        lemma_lookup_none(pairs, f.id);
        let now = lib.with_marks(reclustered(pairs));
        assert(now.faces[i] == marked(reclustered(pairs))(f));
        lemma_fold_leaves_out(now, i);
    }
}

proof fn lemma_fold_leaves_out(lib: LibraryView, i: int)
    requires
        0 <= i < lib.faces.len(),
        lib.faces[i].marks.cluster_id is None,
        lib.faces[i].marks.identity_id is None,
    ensures
        refolded(lib).faces[i].marks.group() is None,
        refolded(lib).faces[i].marks.ignored == lib.faces[i].marks.ignored,
{
    let clear = clear_tentative();
    let free = lib.with_marks(clear);
    let fold = fold_marks(folds(free));
    assert(free.faces[i] == marked(clear)(lib.faces[i]));
    assert(free.with_marks(fold).faces[i] == marked(fold)(free.faces[i]));
}

/// The timeline is newest first; photos of one moment are in the order of their ids, the
/// latest first.
pub proof fn law_timeline_is_newest_first(rows: Seq<PhotoRow>, i: int, j: int)
    requires
        rows.len() <= usize::MAX,
        0 <= i < j < timeline(rows).len(),
    ensures
        timeline(rows).len() == rows.len(),
        timeline(rows)[i].ts >= timeline(rows)[j].ts,
        timeline(rows)[i].ts == timeline(rows)[j].ts ==> timeline(rows)[i].id
            >= timeline(rows)[j].id,
{
    let keys = rows.map_values(newest_first());
    lemma_order_of(keys);
    let order = order_of(keys);
    assert(before(keys, order[i] as int, order[j] as int));
    assert(order[i] < keys.len() && order[j] < keys.len());
}

/// Pages fit together: a window of the library is its first part followed by the rest.
pub proof fn law_pages_fit_together<T>(s: Seq<T>, offset: int, first: int, rest: int)
    requires
        0 <= offset,
        0 <= first,
        0 <= rest,
    ensures
        window(s, offset, first + rest) == window(s, offset, first) + window(
            s,
            offset + first,
            rest,
        ),
{
    assert(window(s, offset, first + rest) =~= window(s, offset, first) + window(
        s,
        offset + first,
        rest,
    ));
}

} // verus!
