//! What holds of persons as a whole: what the user said is never overwritten, and the
//! machine's guesses never stick.

use vstd::prelude::*;

use crate::cluster::lookup;
use crate::confirmations::{clear_tentative, confirmed_person};
use crate::faces::reclustered;
use crate::groups::in_group;
use crate::identities::{bind_cluster, cluster_identity, ensured, merged, move_cluster, plurality};
use crate::library::{marked, FaceMarks, FaceView, LibraryView};
use crate::recognition::{
    absorbers, all_hits, fold_count, fold_marks, fold_of, folds, match_table, matches_of,
    may_fold, photographed_together, refolded, AUTO_FOLD_MARGIN, AUTO_FOLD_MIN,
};
use crate::rows::{lemma_select_from, select, tally};

verus! {

/// **A merge never steals.** A face the user confirmed under an identity other than the
/// absorbed cluster's keeps that identity.
pub proof fn law_merge_never_steals(lib: LibraryView, into: i64, from: i64, i: int)
    requires
        0 <= i < lib.faces.len(),
        lib.faces[i].marks.confirmed,
        lib.faces[i].marks.identity_id is Some,
        lib.faces[i].marks.identity_id != plurality(lib.faces, from),
    ensures
        merged(lib, into, from).faces[i].marks.identity_id == lib.faces[i].marks.identity_id,
        merged(lib, into, from).faces[i].marks.confirmed,
{
    let id = cluster_identity(lib, into);
    let f0 = lib.faces[i];
    let f1 = marked(bind_cluster(into, id))(f0);
    assert(ensured(lib, into).faces[i] == f1);
    let f2 = marked(move_cluster(from, into))(f1);
    assert(ensured(lib, into).with_marks(move_cluster(from, into)).faces[i] == f2);
}

/// **A merge moves the absorbed side.** A face of the absorbed cluster that is free,
/// tentative, or of that cluster's identity ends up in the surviving cluster under its
/// identity.
pub proof fn law_merge_transfers(lib: LibraryView, into: i64, from: i64, i: int)
    requires
        0 <= i < lib.faces.len(),
        lib.faces[i].marks.cluster_id == Some(from),
        lib.faces[i].marks.identity_id is None || !lib.faces[i].marks.confirmed
            || lib.faces[i].marks.identity_id == plurality(lib.faces, from),
    ensures
        merged(lib, into, from).faces[i].marks.cluster_id == Some(into),
        merged(lib, into, from).faces[i].marks.identity_id == Some(cluster_identity(lib, into)),
{
    let id = cluster_identity(lib, into);
    let f0 = lib.faces[i];
    let f1 = marked(bind_cluster(into, id))(f0);
    assert(ensured(lib, into).faces[i] == f1);
    let f2 = marked(move_cluster(from, into))(f1);
    assert(ensured(lib, into).with_marks(move_cluster(from, into)).faces[i] == f2);
}

/// **Giving a cluster an identity never steals.** A confirmed face keeps its identity.
pub proof fn law_ensuring_never_steals(lib: LibraryView, cluster: i64, i: int)
    requires
        0 <= i < lib.faces.len(),
        lib.faces[i].marks.confirmed,
        lib.faces[i].marks.identity_id is Some,
    ensures
        ensured(lib, cluster).faces[i] == lib.faces[i],
{
}

/// **Persons survive a re-cluster.** Renumbering the appearance clusters leaves the group
/// of every face that has a person as it is.
pub proof fn law_persons_survive_renumbering(lib: LibraryView, pairs: Seq<(i64, i64)>, i: int)
    requires
        0 <= i < lib.faces.len(),
        lib.faces[i].marks.identity_id is Some,
    ensures
        lib.with_marks(reclustered(pairs)).faces[i].marks.group() == lib.faces[i].marks.group(),
        lib.with_marks(reclustered(pairs)).faces[i].marks.confirmed == lib.faces[i].marks.confirmed,
{
}

proof fn lemma_group_sizes(
    faces: Seq<FaceView>,
    mark: spec_fn(FaceView) -> FaceMarks,
    group: i64,
)
    requires
        forall|i: int|
            0 <= i < faces.len() ==> (in_group(group)(marked(mark)(#[trigger] faces[i]))
                <==> in_group(group)(faces[i])),
    ensures
        tally(faces.map_values(marked(mark)), in_group(group)) == tally(faces, in_group(group)),
    decreases faces.len(),
{
    if faces.len() > 0 {
        let front = faces.drop_last();
        assert forall|i: int| 0 <= i < front.len() implies (in_group(group)(
            marked(mark)(#[trigger] front[i]),
        ) <==> in_group(group)(front[i])) by {
            assert(front[i] == faces[i]);
        }
        lemma_group_sizes(front, mark, group);
        assert(faces.map_values(marked(mark)).drop_last() =~= front.map_values(marked(mark)));
        assert(faces[faces.len() - 1] == faces.last());
    }
}

/// **Person tiles survive a re-cluster.** Where appearance clusters have the positive
/// keys they are given, renumbering them changes no person's face count.
pub proof fn law_person_counts_survive_renumbering(
    lib: LibraryView,
    pairs: Seq<(i64, i64)>,
    group: i64,
)
    requires
        group < 0,
        forall|i: int|
            0 <= i < lib.faces.len() ==> ((#[trigger] lib.faces[i]).marks.cluster_id matches Some(c)
                ==> c >= 0),
        forall|k: int| 0 <= k < pairs.len() ==> (#[trigger] pairs[k]).1 >= 0,
    ensures
        tally(lib.with_marks(reclustered(pairs)).faces, in_group(group)) == tally(
            lib.faces,
            in_group(group),
        ),
{
    assert forall|i: int| 0 <= i < lib.faces.len() implies (in_group(group)(
        marked(reclustered(pairs))(#[trigger] lib.faces[i]),
    ) <==> in_group(group)(lib.faces[i])) by {
        lemma_lookup_nonnegative(pairs, lib.faces[i].id);
    }
    lemma_group_sizes(lib.faces, reclustered(pairs), group);
}

proof fn lemma_lookup_nonnegative(pairs: Seq<(i64, i64)>, key: i64)
    requires
        forall|k: int| 0 <= k < pairs.len() ==> (#[trigger] pairs[k]).1 >= 0,
    ensures
        lookup(pairs, key) matches Some(v) ==> v >= 0,
    decreases pairs.len(),
{
    if pairs.len() > 0 {
        let front = pairs.drop_last();
        assert forall|k: int| 0 <= k < front.len() implies (#[trigger] front[k]).1 >= 0 by {
            assert(front[k] == pairs[k]);
        }
        assert(pairs[pairs.len() - 1] == pairs.last());
        lemma_lookup_nonnegative(front, key);
    }
}

/// **A fold writes only tentative persons.** A fold pass changes no cluster and no flag,
/// and no face the user vouched for.
pub proof fn law_fold_keeps_decisions(lib: LibraryView, i: int)
    requires
        0 <= i < lib.faces.len(),
    ensures
        ({
            let (was, now) = (lib.faces[i], refolded(lib).faces[i]);
            &&& now == (FaceView { marks: now.marks, ..was })
            &&& now.marks.cluster_id == was.marks.cluster_id
            &&& now.marks.ignored == was.marks.ignored
            &&& now.marks.confirmed == was.marks.confirmed
            &&& was.marks.confirmed ==> now.marks.identity_id == was.marks.identity_id
        }),
{
    if may_fold(lib) {
        let free = lib.with_marks(clear_tentative());
        assert(free.faces[i] == marked(clear_tentative())(lib.faces[i]));
        assert(refolded(lib).faces[i] == marked(fold_marks(folds(free)))(free.faces[i]));
    }
}

/// **A fold is decisive.** A cluster is folded only if it is an appearance group whose
/// best match clears [`AUTO_FOLD_MIN`], beats every other by [`AUTO_FOLD_MARGIN`], has
/// the evidence to absorb, and shares no photo with it.
pub proof fn law_folds_are_decisive(lib: LibraryView, k: int)
    requires
        0 <= k < folds(lib).len(),
    ensures
        ({
            let (cluster, identity) = folds(lib)[k];
            let ranked = matches_of(all_hits(lib), cluster);
            &&& cluster >= 0
            &&& ranked.len() > 0
            &&& ranked[0].0 == identity
            &&& ranked[0].1 >= AUTO_FOLD_MIN
            &&& ranked.len() > 1 ==> ranked[0].1 - ranked[1].1 >= AUTO_FOLD_MARGIN
            &&& absorbers(lib).contains(identity)
            &&& !photographed_together(lib)(cluster, identity)
        }),
{
    let table = match_table(all_hits(lib));
    lemma_select_from(table, fold_of(lib), k);
    let m = choose|m: int|
        0 <= m < table.len() && fold_of(lib)(#[trigger] table[m]) == Some(folds(lib)[k]);
    assert(table[m].1 == matches_of(all_hits(lib), table[m].0));
}

/// Everything a fold reads is the same once the tentative labels are wiped.
proof fn lemma_same_confirmed(lib: LibraryView)
    ensures
        select(lib.with_marks(clear_tentative()).faces, confirmed_person()) == select(
            lib.faces,
            confirmed_person(),
        ),
{
    lemma_confirmed_kept(lib.faces);
}

proof fn lemma_confirmed_kept(faces: Seq<FaceView>)
    ensures
        select(faces.map_values(marked(clear_tentative())), confirmed_person()) == select(
            faces,
            confirmed_person(),
        ),
    decreases faces.len(),
{
    if faces.len() > 0 {
        let front = faces.drop_last();
        lemma_confirmed_kept(front);
        assert(faces.map_values(marked(clear_tentative())).drop_last() =~= front.map_values(
            marked(clear_tentative()),
        ));
    }
}

/// **Tentative labels are not welded on.** Two libraries that differ only in the
/// machine's guesses are the same after a fold pass.
pub proof fn law_fold_forgets_guesses(a: LibraryView, b: LibraryView)
    requires
        may_fold(a),
        a.with_marks(clear_tentative()) == b.with_marks(clear_tentative()),
    ensures
        refolded(a) == refolded(b),
{
    let free = a.with_marks(clear_tentative());
    lemma_same_confirmed(a);
    lemma_same_confirmed(b);
    assert(a.photos == free.photos && b.photos == free.photos);
    assert(may_fold(b));
}

/// **A fold pass settles at once.** A second pass changes nothing, and folds in as many
/// clusters as the first.
pub proof fn law_fold_is_idempotent(lib: LibraryView)
    ensures
        refolded(refolded(lib)) == refolded(lib),
        fold_count(refolded(lib)) == fold_count(lib),
{
    if may_fold(lib) {
        let free = lib.with_marks(clear_tentative());
        let once = refolded(lib);
        let again = once.with_marks(clear_tentative());
        assert forall|i: int| 0 <= i < lib.faces.len() implies again.faces[i] == free.faces[i] by {
            assert(free.faces[i] == marked(clear_tentative())(lib.faces[i]));
            assert(once.faces[i] == marked(fold_marks(folds(free)))(free.faces[i]));
            assert(again.faces[i] == marked(clear_tentative())(once.faces[i]));
        }
        assert(again.faces =~= free.faces);
        assert(again == free);
        law_fold_forgets_guesses(lib, once);
        lemma_same_confirmed(lib);
        lemma_same_confirmed(once);
        assert(once.photos == lib.photos);
    }
}

} // verus!
