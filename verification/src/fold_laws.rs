//! What a fold pass does, said of the faces and of the matches found.

use vstd::prelude::*;

use crate::cluster::lookup;
use crate::confirmations::{at_least, clear_tentative, confirmed_person, confirmed_photo};
use crate::groups::{free_in, group_photo};
use crate::library::{marked, FaceView, LibraryView, PhotoView};
use crate::listing_laws::{
    law_picking_keeps_the_order, law_ranking_loses_nothing, lemma_tally_filter,
};
use crate::people_laws::law_folds_are_decisive;
use crate::photos::{has_status, ready_scanned, settled};
use crate::recognition::{
    absorbers, all_hits, fold_count, fold_marks, fold_of, folds, hit, hit_clusters, hit_on,
    hits, match_table, matches_of, may_fold, most_similar, photographed_together, reaches,
    refolded, Hit,
};
use crate::rows::{
    distinct, equals, lemma_distinct, lemma_select_contains, lemma_select_from,
    lemma_select_len, select, tally,
};

verus! {

/// The matches of a cluster, and where each stood among the hits.
proof fn lemma_matches(all: Seq<Hit>, cluster: i64) -> (at: Seq<int>)
    requires
        all.len() <= usize::MAX,
    ensures
        at.len() == matches_of(all, cluster).len(),
        forall|p: int|
            0 <= p < at.len() ==> {
                let h = all[#[trigger] at[p]];
                &&& 0 <= at[p] < all.len()
                &&& h.cluster_id == cluster
                &&& matches_of(all, cluster)[p] == (h.identity_id, h.sim)
            },
        forall|p: int, q: int|
            0 <= p < q < at.len() ==> all[#[trigger] at[p]].sim >= all[#[trigger] at[q]].sim && at[p]
                != at[q],
        forall|i: int|
            0 <= i < all.len() && (#[trigger] all[i]).cluster_id == cluster ==> at.contains(i),
{
    let on = select(all, hit_on(cluster));
    let keys = on.map_values(most_similar());
    let places = law_picking_keeps_the_order(all, hit_on(cluster));
    lemma_select_len(all, hit_on(cluster));
    let from = law_ranking_loses_nothing(on, keys);
    let at = Seq::new(from.len(), |p: int| places[from[p]]);
    assert forall|p: int| 0 <= p < at.len() implies {
        let h = all[#[trigger] at[p]];
        &&& 0 <= at[p] < all.len()
        &&& h.cluster_id == cluster
        &&& matches_of(all, cluster)[p] == (h.identity_id, h.sim)
    } by {
        assert(hit_on(cluster)(all[places[from[p]]]) == Some(on[from[p]]));
    }
    assert forall|p: int, q: int| 0 <= p < q < at.len() implies all[#[trigger] at[p]].sim >= all[
    #[trigger] at[q]].sim && at[p] != at[q] by {
        assert(hit_on(cluster)(all[places[from[p]]]) == Some(on[from[p]]));
        assert(hit_on(cluster)(all[places[from[q]]]) == Some(on[from[q]]));
        assert(keys[from[p]].0 >= keys[from[q]].0);
        if from[p] < from[q] {
            assert(places[from[p]] < places[from[q]]);
        } else {
            assert(places[from[q]] < places[from[p]]);
        }
    }
    assert forall|i: int| 0 <= i < all.len() && (#[trigger] all[i]).cluster_id
        == cluster implies at.contains(i) by {
        assert(places.contains(i));
        let k = choose|k: int| 0 <= k < places.len() && places[k] == i;
        assert(from.contains(k));
        let p = choose|p: int| 0 <= p < from.len() && from[p] == k;
        assert(at[p] == i);
    }
    at
}

/// **Matches are listed best first.** The list of a cluster's matches is in descending order
/// of similarity, and each is a hit on that cluster.
pub proof fn law_matches_are_best_first(all: Seq<Hit>, cluster: i64, p: int, q: int)
    requires
        all.len() <= usize::MAX,
        0 <= p < q < matches_of(all, cluster).len(),
    ensures
        matches_of(all, cluster)[p].1 >= matches_of(all, cluster)[q].1,
        exists|i: int|
            0 <= i < all.len() && (#[trigger] all[i]).cluster_id == cluster && (
                all[i].identity_id,
                all[i].sim,
            ) == matches_of(all, cluster)[p],
{
    let at = lemma_matches(all, cluster);
    assert(all[at[p]].sim >= all[at[q]].sim);
    assert(all[at[p]].cluster_id == cluster);
}

/// **Every hit is listed.** A hit on a cluster is among the cluster's matches, and the cluster
/// has its row in the table of matches.
pub proof fn law_every_hit_is_listed(all: Seq<Hit>, i: int)
    requires
        all.len() <= usize::MAX,
        0 <= i < all.len(),
    ensures
        matches_of(all, all[i].cluster_id).contains((all[i].identity_id, all[i].sim)),
        match_table(all).contains((all[i].cluster_id, matches_of(all, all[i].cluster_id))),
{
    let cluster = all[i].cluster_id;
    let at = lemma_matches(all, cluster);
    let p = choose|p: int| 0 <= p < at.len() && at[p] == i;
    assert(matches_of(all, cluster)[p] == (all[at[p]].identity_id, all[at[p]].sim));
    let ids = all.map_values(|h: Hit| h.cluster_id);
    assert(ids[i] == cluster);
    lemma_distinct(ids);
    assert(distinct(ids).contains(cluster));
    let k = choose|k: int| 0 <= k < hit_clusters(all).len() && hit_clusters(all)[k] == cluster;
    assert(match_table(all)[k] == (cluster, matches_of(all, cluster)));
}

/// **A fold goes to the best match, decisively.** The person a group is folded into has a hit
/// on it of at least 0.6, and every hit of anyone else on it is at least 0.06 lower.
pub proof fn law_fold_goes_to_the_best_match(lib: LibraryView, k: int) -> (best: int)
    requires
        all_hits(lib).len() <= usize::MAX,
        0 <= k < folds(lib).len(),
    ensures
        ({
            let (cluster, identity) = folds(lib)[k];
            let all = all_hits(lib);
            &&& 0 <= best < all.len()
            &&& all[best].cluster_id == cluster
            &&& all[best].identity_id == identity
            &&& all[best].sim >= 600_000_000_000
            &&& forall|j: int|
                0 <= j < all.len() && j != best && (#[trigger] all[j]).cluster_id == cluster
                    ==> all[best].sim >= all[j].sim + 60_000_000_000
        }),
{
    let all = all_hits(lib);
    let table = match_table(all);
    lemma_select_from(table, fold_of(lib), k);
    let m = choose|m: int|
        0 <= m < table.len() && fold_of(lib)(#[trigger] table[m]) == Some(folds(lib)[k]);
    let (cluster, identity) = folds(lib)[k];
    let at = lemma_matches(all, cluster);
    let ranked = matches_of(all, cluster);
    assert(table[m].1 == ranked);
    assert(ranked.len() > 0);
    let best = at[0];
    assert(all[at[0]].cluster_id == cluster);
    assert forall|j: int|
        0 <= j < all.len() && j != best && (#[trigger] all[j]).cluster_id == cluster implies
    all[best].sim >= all[j].sim + 60_000_000_000 by {
        assert(at.contains(j));
        let p = choose|p: int| 0 <= p < at.len() && at[p] == j;
        assert(p != 0);
        assert(all[at[1]].cluster_id == cluster);
        if p > 1 {
            assert(all[at[1]].sim >= all[at[p]].sim);
        }
    }
    best
}

/// **A decisive match is folded.** A hit of at least 0.6 on an appearance group, at least 0.06
/// above every other hit on it, folds the group, if the person has four confirmed faces and
/// no photo shows both.
pub proof fn law_decisive_match_is_folded(lib: LibraryView, best: int)
    requires
        all_hits(lib).len() <= usize::MAX,
        0 <= best < all_hits(lib).len(),
        ({
            let all = all_hits(lib);
            let h = all[best];
            &&& h.cluster_id >= 0
            &&& h.sim >= 600_000_000_000
            &&& forall|j: int|
                0 <= j < all.len() && j != best && (#[trigger] all[j]).cluster_id == h.cluster_id
                    ==> h.sim >= all[j].sim + 60_000_000_000
            &&& lib.faces.filter(
                |f: FaceView| f.marks.confirmed && f.marks.identity_id == Some(h.identity_id),
            ).len() >= 4
            &&& forall|i: int, j: int|
                0 <= i < lib.faces.len() && 0 <= j < lib.faces.len() && (
                #[trigger] lib.faces[i]).marks.group() == Some(h.cluster_id) && (
                #[trigger] lib.faces[j]).marks.confirmed && lib.faces[j].marks.identity_id == Some(
                    h.identity_id,
                ) ==> lib.faces[i].photo_id != lib.faces[j].photo_id
        }),
    ensures
        folds(lib).contains((all_hits(lib)[best].cluster_id, all_hits(lib)[best].identity_id)),
{
    let all = all_hits(lib);
    let h = all[best];
    let cluster = h.cluster_id;
    let table = match_table(all);
    let ranked = matches_of(all, cluster);
    law_every_hit_is_listed(all, best);
    let at = lemma_matches(all, cluster);
    let p = choose|p: int| 0 <= p < at.len() && at[p] == best;
    if p > 0 {
        assert(all[at[0]].sim >= all[at[p]].sim);
        assert(all[at[0]].cluster_id == cluster);
    }
    assert(at[0] == best);
    assert(ranked[0] == (h.identity_id, h.sim));
    if ranked.len() > 1 {
        assert(all[at[1]].cluster_id == cluster);
        assert(at[0] != at[1]);
    }
    lemma_absorbers(lib, h.identity_id);
    lemma_together_raw(lib, cluster, h.identity_id);
    let m = choose|m: int| 0 <= m < table.len() && table[m] == (cluster, ranked);
    assert(fold_of(lib)(table[m]) == Some((cluster, h.identity_id)));
    lemma_select_contains(table, fold_of(lib), m);
}

pub proof fn lemma_person_count(faces: Seq<FaceView>, identity: i64)
    ensures
        tally(select(faces, confirmed_person()), equals(identity)) == faces.filter(
            |f: FaceView| f.marks.confirmed && f.marks.identity_id == Some(identity),
        ).len(),
    decreases faces.len(),
{
    reveal(Seq::filter);
    if faces.len() > 0 {
        lemma_person_count(faces.drop_last(), identity);
        let rest = select(faces.drop_last(), confirmed_person());
        if confirmed_person()(faces.last()) is Some {
            let all = select(faces, confirmed_person());
            assert(all.drop_last() == rest);
        }
    }
}

/// Who may absorb: those with four confirmed faces.
pub proof fn lemma_absorbers(lib: LibraryView, identity: i64)
    ensures
        absorbers(lib).contains(identity) <==> lib.faces.filter(
            |f: FaceView| f.marks.confirmed && f.marks.identity_id == Some(identity),
        ).len() >= 4,
{
    let all = select(lib.faces, confirmed_person());
    lemma_person_count(lib.faces, identity);
    lemma_distinct(all);
    if absorbers(lib).contains(identity) {
        let p = choose|p: int| 0 <= p < absorbers(lib).len() && absorbers(lib)[p] == identity;
        lemma_select_from(distinct(all), at_least(all, 4), p);
    }
    if tally(all, equals(identity)) >= 4 {
        assert(all.contains(identity)) by {
            if !all.contains(identity) {
                lemma_tally_absent(all, identity);
            }
        }
        assert(distinct(all).contains(identity));
        let p = choose|p: int| 0 <= p < distinct(all).len() && distinct(all)[p] == identity;
        assert(at_least(all, 4)(distinct(all)[p]) == Some(identity));
        lemma_select_contains(distinct(all), at_least(all, 4), p);
    }
}

proof fn lemma_tally_absent(list: Seq<i64>, x: i64)
    requires
        !list.contains(x),
    ensures
        tally(list, equals(x)) == 0,
    decreases list.len(),
{
    if list.len() > 0 {
        let front = list.drop_last();
        assert(!front.contains(x)) by {
            if front.contains(x) {
                let k = choose|k: int| 0 <= k < front.len() && front[k] == x;
                assert(list[k] == x);
            }
        }
        lemma_tally_absent(front, x);
        assert(list[list.len() - 1] == list.last());
    }
}

/// A photo shows a face of the group and a face confirmed as the person.
pub open spec fn seen_together(faces: Seq<FaceView>, group: i64, identity: i64) -> bool {
    exists|i: int, j: int|
        0 <= i < faces.len() && 0 <= j < faces.len() && (#[trigger] faces[i]).marks.group() == Some(
            group,
        ) && (#[trigger] faces[j]).marks.confirmed && faces[j].marks.identity_id == Some(identity)
            && faces[i].photo_id == faces[j].photo_id
}

pub proof fn lemma_together_raw(lib: LibraryView, cluster: i64, identity: i64)
    ensures
        photographed_together(lib)(cluster, identity) == seen_together(
            lib.faces,
            cluster,
            identity,
        ),
{
    let groups = select(lib.faces, group_photo());
    let people = select(lib.faces, confirmed_photo());
    if photographed_together(lib)(cluster, identity) {
        let p = choose|p: i64| #[trigger]
            groups.contains((cluster, p)) && people.contains((identity, p));
        let a = choose|a: int| 0 <= a < groups.len() && groups[a] == (cluster, p);
        let b = choose|b: int| 0 <= b < people.len() && people[b] == (identity, p);
        lemma_select_from(lib.faces, group_photo(), a);
        lemma_select_from(lib.faces, confirmed_photo(), b);
        let i = choose|i: int|
            0 <= i < lib.faces.len() && group_photo()(#[trigger] lib.faces[i]) == Some(groups[a]);
        let j = choose|j: int|
            0 <= j < lib.faces.len() && confirmed_photo()(#[trigger] lib.faces[j]) == Some(
                people[b],
            );
        assert(lib.faces[i].marks.group() == Some(cluster));
        assert(lib.faces[j].marks.confirmed);
    }
    if seen_together(lib.faces, cluster, identity) {
        let (i, j) = choose|i: int, j: int|
            0 <= i < lib.faces.len() && 0 <= j < lib.faces.len() && (
            #[trigger] lib.faces[i]).marks.group() == Some(cluster) && (
            #[trigger] lib.faces[j]).marks.confirmed && lib.faces[j].marks.identity_id == Some(
                identity,
            ) && lib.faces[i].photo_id == lib.faces[j].photo_id;
        lemma_select_contains(lib.faces, group_photo(), i);
        lemma_select_contains(lib.faces, confirmed_photo(), j);
        assert(groups.contains((cluster, lib.faces[i].photo_id)));
    }
}

/// **Only the well known absorb, and never whom they stand beside.** A group is folded into a
/// person only if it is an appearance group, the person has four confirmed faces, and no
/// photo shows a face of the group beside a confirmed face of the person.
pub proof fn law_folds_need_evidence(lib: LibraryView, k: int)
    requires
        0 <= k < folds(lib).len(),
    ensures
        folds(lib)[k].0 >= 0,
        lib.faces.filter(
            |f: FaceView| f.marks.confirmed && f.marks.identity_id == Some(folds(lib)[k].1),
        ).len() >= 4,
        !seen_together(lib.faces, folds(lib)[k].0, folds(lib)[k].1),
{
    law_folds_are_decisive(lib, k);
    lemma_absorbers(lib, folds(lib)[k].1);
    lemma_together_raw(lib, folds(lib)[k].0, folds(lib)[k].1);
}

/// A group is folded once at most.
proof fn lemma_folds_differ(lib: LibraryView, a: int, b: int)
    requires
        0 <= a < b < folds(lib).len(),
    ensures
        folds(lib)[a].0 != folds(lib)[b].0,
{
    let all = all_hits(lib);
    let table = match_table(all);
    let at = law_picking_keeps_the_order(table, fold_of(lib));
    lemma_distinct(all.map_values(|h: Hit| h.cluster_id));
    assert(fold_of(lib)(table[at[a]]) == Some(folds(lib)[a]));
    assert(fold_of(lib)(table[at[b]]) == Some(folds(lib)[b]));
    assert(hit_clusters(all)[at[a]] != hit_clusters(all)[at[b]]);
}

proof fn lemma_lookup_pair(pairs: Seq<(i64, i64)>, key: i64)
    requires
        forall|a: int, b: int|
            0 <= a < b < pairs.len() ==> (#[trigger] pairs[a]).0 != (#[trigger] pairs[b]).0,
    ensures
        forall|v: i64| (lookup(pairs, key) == Some(v)) <==> #[trigger] pairs.contains((key, v)),
    decreases pairs.len(),
{
    if pairs.len() > 0 {
        let front = pairs.drop_last();
        assert forall|a: int, b: int| 0 <= a < b < front.len() implies (#[trigger] front[a]).0 != (
        #[trigger] front[b]).0 by {
            assert(pairs[a].0 != pairs[b].0);
        }
        lemma_lookup_pair(front, key);
        let last = pairs.len() - 1;
        assert(pairs[last] == pairs.last());
        assert forall|v: i64| (lookup(pairs, key) == Some(v)) <==> #[trigger] pairs.contains(
            (key, v),
        ) by {
            if pairs.contains((key, v)) {
                let k = choose|k: int| 0 <= k < pairs.len() && pairs[k] == (key, v);
                if k < last {
                    assert(front[k] == (key, v));
                    assert(front.contains((key, v)));
                    assert(pairs[k].0 != pairs[last].0);
                }
            }
            if lookup(pairs, key) == Some(v) {
                if pairs.last().0 == key {
                    assert(pairs[last] == (key, v));
                } else {
                    assert(front.contains((key, v)));
                    let k = choose|k: int| 0 <= k < front.len() && front[k] == (key, v);
                    assert(pairs[k] == (key, v));
                }
            }
        }
    }
}

/// **A fold pass labels the faces of folded groups, and no others.** Once a pass may run, a
/// face nobody vouched for has the person its cluster was folded into, and no person where
/// its cluster was not folded. The folds are those of the library without earlier guesses.
pub proof fn law_fold_labels_its_groups(lib: LibraryView, i: int)
    requires
        may_fold(lib),
        0 <= i < lib.faces.len(),
        !lib.faces[i].marks.confirmed,
    ensures
        ({
            let now = refolded(lib).faces[i].marks;
            let free = lib.with_marks(clear_tentative());
            &&& lib.faces[i].marks.cluster_id is None ==> now.identity_id is None
            &&& lib.faces[i].marks.cluster_id matches Some(c) ==> forall|p: i64|
                (now.identity_id == Some(p)) <==> #[trigger] folds(free).contains((c, p))
        }),
{
    let free = lib.with_marks(clear_tentative());
    let pairs = folds(free);
    assert(free.faces[i] == marked(clear_tentative())(lib.faces[i]));
    assert(refolded(lib).faces[i] == marked(fold_marks(pairs))(free.faces[i]));
    assert forall|a: int, b: int| 0 <= a < b < pairs.len() implies (#[trigger] pairs[a]).0 != (
    #[trigger] pairs[b]).0 by {
        lemma_folds_differ(free, a, b);
    }
    if let Some(c) = lib.faces[i].marks.cluster_id {
        lemma_lookup_pair(pairs, c);
        assert forall|p: i64|
            (refolded(lib).faces[i].marks.identity_id == Some(p)) <==> #[trigger] pairs.contains(
                (c, p),
            ) by {}
    }
}

/// **The library is settled once every local photo is scanned.** There must be one with a
/// thumbnail, and each must have been scanned for faces.
pub proof fn law_settled_means_all_scanned(lib: LibraryView)
    ensures
        settled(lib) <==> (exists|i: int|
            0 <= i < lib.photos.len() && (#[trigger] lib.photos[i]).marks.status == 1) && (forall|
            i: int,
        |
            0 <= i < lib.photos.len() && (#[trigger] lib.photos[i]).marks.status == 1
                ==> lib.photos[i].marks.faces_scanned == 1),
{
    lemma_settled(lib.photos);
}

proof fn lemma_settled(photos: Seq<PhotoView>)
    ensures
        tally(photos, ready_scanned()) <= tally(photos, has_status(1)),
        tally(photos, ready_scanned()) == tally(photos, has_status(1)) <==> forall|i: int|
            0 <= i < photos.len() && (#[trigger] photos[i]).marks.status == 1
                ==> photos[i].marks.faces_scanned == 1,
        tally(photos, has_status(1)) > 0 <==> exists|i: int|
            0 <= i < photos.len() && (#[trigger] photos[i]).marks.status == 1,
    decreases photos.len(),
{
    if photos.len() > 0 {
        let front = photos.drop_last();
        let n = photos.len() - 1;
        lemma_settled(front);
        assert(photos[n] == photos.last());
        assert(forall|i: int| 0 <= i < n ==> #[trigger] front[i] == photos[i]);
        if tally(front, has_status(1)) > 0 {
            let i = choose|i: int| 0 <= i < front.len() && (#[trigger] front[i]).marks.status == 1;
            assert(photos[i].marks.status == 1);
        }
        if exists|i: int| 0 <= i < photos.len() && (#[trigger] photos[i]).marks.status == 1 {
            let i = choose|i: int| 0 <= i < photos.len() && (#[trigger] photos[i]).marks.status == 1;
            if i < n {
                assert(front[i].marks.status == 1);
            }
        }
        if forall|i: int|
            0 <= i < front.len() && (#[trigger] front[i]).marks.status == 1
                ==> front[i].marks.faces_scanned == 1 {
            if photos.last().marks.status != 1 || photos.last().marks.faces_scanned == 1 {
                assert forall|i: int|
                    0 <= i < photos.len() && (#[trigger] photos[i]).marks.status == 1 implies
                photos[i].marks.faces_scanned == 1 by {
                    if i < n {
                        assert(front[i] == photos[i]);
                    }
                }
            }
        } else {
            let i = choose|i: int|
                0 <= i < front.len() && (#[trigger] front[i]).marks.status == 1
                    && front[i].marks.faces_scanned != 1;
            assert(photos[i].marks.status == 1 && photos[i].marks.faces_scanned != 1);
        }
    }
}

/// **A fold waits for evidence.** Nothing is folded before every local photo is scanned, nor
/// while the user has vouched for no one.
pub proof fn law_fold_waits(lib: LibraryView)
    requires
        !settled(lib) || forall|i: int|
            0 <= i < lib.faces.len() ==> !((#[trigger] lib.faces[i]).marks.confirmed
                && lib.faces[i].marks.identity_id is Some),
    ensures
        refolded(lib) == lib,
        fold_count(lib) == 0,
{
    let all = select(lib.faces, confirmed_person());
    if settled(lib) && all.len() > 0 {
        lemma_select_from(lib.faces, confirmed_person(), 0);
        let i = choose|i: int|
            0 <= i < lib.faces.len() && confirmed_person()(#[trigger] lib.faces[i]) == Some(all[0]);
        assert(lib.faces[i].marks.confirmed);
    }
}

/// **A fold pass counts the groups it reached.** Its result is the number of folded groups
/// that hold a face nobody vouched for.
pub proof fn law_fold_counts_groups(lib: LibraryView)
    requires
        may_fold(lib),
    ensures
        ({
            let free = lib.with_marks(clear_tentative());
            fold_count(lib) == folds(free).filter(
                |p: (i64, i64)|
                    exists|i: int|
                        0 <= i < free.faces.len() && (#[trigger] free.faces[i]).marks.cluster_id
                            == Some(p.0) && free.faces[i].marks.identity_id is None
                            && !free.faces[i].marks.confirmed,
            ).len()
        }),
{
    let free = lib.with_marks(clear_tentative());
    let g = |p: (i64, i64)|
        exists|i: int|
            0 <= i < free.faces.len() && (#[trigger] free.faces[i]).marks.cluster_id == Some(p.0)
                && free.faces[i].marks.identity_id is None && !free.faces[i].marks.confirmed;
    assert forall|k: int| 0 <= k < folds(free).len() implies reaches(free)(
        #[trigger] folds(free)[k],
    ) == g(folds(free)[k]) by {
        lemma_some_satisfy(free.faces, free_in(folds(free)[k].0));
        if reaches(free)(folds(free)[k]) {
            let i = choose|i: int|
                0 <= i < free.faces.len() && free_in(folds(free)[k].0)(#[trigger] free.faces[i]);
            assert(free.faces[i].marks.cluster_id == Some(folds(free)[k].0));
        }
        if g(folds(free)[k]) {
            let i = choose|i: int|
                0 <= i < free.faces.len() && (#[trigger] free.faces[i]).marks.cluster_id == Some(
                    folds(free)[k].0,
                ) && free.faces[i].marks.identity_id is None && !free.faces[i].marks.confirmed;
            assert(free_in(folds(free)[k].0)(free.faces[i]));
        }
    }
    lemma_tally_filter(folds(free), reaches(free), g);
}

/// A count is above zero where some row satisfies the test.
pub proof fn lemma_some_satisfy<A>(s: Seq<A>, test: spec_fn(A) -> bool)
    ensures
        tally(s, test) > 0 <==> exists|i: int| 0 <= i < s.len() && test(#[trigger] s[i]),
    decreases s.len(),
{
    if s.len() > 0 {
        let front = s.drop_last();
        let n = s.len() - 1;
        lemma_some_satisfy(front, test);
        assert(s[n] == s.last());
        if tally(front, test) > 0 {
            let i = choose|i: int| 0 <= i < front.len() && test(#[trigger] front[i]);
            assert(test(s[i]));
        }
        if exists|i: int| 0 <= i < s.len() && test(#[trigger] s[i]) {
            let i = choose|i: int| 0 <= i < s.len() && test(#[trigger] s[i]);
            if i < n {
                assert(test(front[i]));
            }
        }
    }
}

} // verus!
