//! What the People screens show, said of the faces and the photos.

use vstd::prelude::*;

use crate::confirmations::by_score;
use crate::fold_laws::lemma_some_satisfy;
use crate::groups::{
    by_size, chronicle, dated, find_photo, group_of_face, grouped_in, in_group, most_certain,
    name_of_group, oldest_first, overlay, overview_row, photo_in, photo_overlay, ranked_faces,
    ranked_groups, row_among, scored_in, shown_in, timeline,
};
use crate::identities::{carries, is_plurality, minted, plurality, support};
use crate::library::{
    identities_wf, identity_key, lemma_counts_fit, FaceView, IdentityView, LibraryView,
    PhotoView,
};
use crate::listing_laws::{
    law_picking_keeps_the_order, law_ranking_loses_nothing, lemma_tally_filter,
};
use crate::merge_laws::{face_count, lemma_size};
use crate::names::{
    cluster_named, find_identity, has_cluster_name, name_of, named_like, person_named,
};
use crate::path_laws::{lemma_same_letters, same_letters};
use crate::rows::{
    distinct, lemma_distinct, lemma_select_contains, lemma_select_len, lemma_tally_bound,
    select, tally,
};
use crate::timeline_laws::lemma_timeline;

verus! {

/// **A group's faces are shown best first.** The list holds the id of each face of the group
/// once, from the highest score down.
pub proof fn law_faces_are_shown_best_first(faces: Seq<FaceView>, group: i64) -> (at: Seq<int>)
    requires
        faces.len() <= usize::MAX,
    ensures
        at.len() == ranked_faces(faces, group).len(),
        at.no_duplicates(),
        forall|p: int|
            0 <= p < at.len() ==> {
                let f = faces[#[trigger] at[p]];
                &&& 0 <= at[p] < faces.len()
                &&& f.marks.group() == Some(group)
                &&& f.id == ranked_faces(faces, group)[p]
            },
        forall|p: int, q: int|
            0 <= p < q < at.len() ==> faces[#[trigger] at[p]].score >= faces[#[trigger] at[q]].score,
        forall|i: int|
            0 <= i < faces.len() && (#[trigger] faces[i]).marks.group() == Some(group)
                ==> at.contains(i),
{
    let all = select(faces, scored_in(group));
    let keys = all.map_values(by_score());
    let places = law_picking_keeps_the_order(faces, scored_in(group));
    lemma_select_len(faces, scored_in(group));
    let from = law_ranking_loses_nothing(all, keys);
    let at = Seq::new(from.len(), |p: int| places[from[p]]);
    assert forall|p: int| 0 <= p < at.len() implies {
        let f = faces[#[trigger] at[p]];
        &&& 0 <= at[p] < faces.len()
        &&& f.marks.group() == Some(group)
        &&& f.id == ranked_faces(faces, group)[p]
        &&& f.score == all[from[p]].0
    } by {
        assert(scored_in(group)(faces[places[from[p]]]) == Some(all[from[p]]));
    }
    assert forall|p: int, q: int| 0 <= p < at.len() && 0 <= q < at.len() && p != q implies at[p]
        != at[q] by {
        if p < q {
            assert(from[p] != from[q]);
        } else {
            assert(from[q] != from[p]);
        }
        if from[p] < from[q] {
            assert(places[from[p]] < places[from[q]]);
        } else {
            assert(places[from[q]] < places[from[p]]);
        }
    }
    assert forall|p: int, q: int| 0 <= p < q < at.len() implies faces[#[trigger] at[p]].score
        >= faces[#[trigger] at[q]].score by {
        assert(keys[from[p]].0 >= keys[from[q]].0);
        assert(scored_in(group)(faces[places[from[p]]]) == Some(all[from[p]]));
        assert(scored_in(group)(faces[places[from[q]]]) == Some(all[from[q]]));
    }
    assert forall|i: int|
        0 <= i < faces.len() && (#[trigger] faces[i]).marks.group() == Some(group) implies
    at.contains(i) by {
        assert(scored_in(group)(faces[i]) is Some);
        assert(places.contains(i));
        let k = choose|k: int| 0 <= k < places.len() && places[k] == i;
        assert(from.contains(k));
        let p = choose|p: int| 0 <= p < from.len() && from[p] == k;
        assert(at[p] == i);
    }
    at
}

/// **The overview lists every group once, the biggest first.** Each row counts the group's faces,
/// shows its best face, and has its person's name; of two groups of one size the one with the
/// smaller key comes first.
pub proof fn law_overview_lists_every_group(lib: LibraryView, i: int, j: int)
    requires
        lib.wf(),
        lib.faces.len() <= usize::MAX,
    ensures
        ({
            let rows = ranked_groups(lib.faces).map_values(overview_row(lib));
            &&& 0 <= i < lib.faces.len() && lib.faces[i].marks.group() is Some ==> exists|k: int|
                0 <= k < rows.len() && (#[trigger] rows[k]).cluster_id
                    == lib.faces[i].marks.group()->0
            &&& 0 <= i < rows.len() ==> {
                let r = rows[i];
                &&& r.count == face_count(lib, r.cluster_id) >= 1
                &&& r.name == name_of_group(lib, r.cluster_id)
                &&& exists|k: int|
                    0 <= k < lib.faces.len() && (#[trigger] lib.faces[k]).id == r.cover_face_id
                        && lib.faces[k].marks.group() == Some(r.cluster_id) && forall|l: int|
                        0 <= l < lib.faces.len() && (#[trigger] lib.faces[l]).marks.group() == Some(
                            r.cluster_id,
                        ) ==> lib.faces[l].score <= lib.faces[k].score
            }
            &&& 0 <= i < j < rows.len() ==> rows[i].cluster_id != rows[j].cluster_id && (
            rows[i].count > rows[j].count || (rows[i].count == rows[j].count && rows[i].cluster_id
                < rows[j].cluster_id))
        }),
{
    let held = select(lib.faces, group_of_face());
    let all = distinct(held);
    let keys = all.map_values(by_size(lib.faces));
    lemma_select_len(lib.faces, group_of_face());
    lemma_distinct(held);
    lemma_counts_fit(lib);
    let from = law_ranking_loses_nothing(all, keys);
    let places = law_picking_keeps_the_order(lib.faces, group_of_face());
    let groups = ranked_groups(lib.faces);
    let rows = groups.map_values(overview_row(lib));
    if 0 <= i < lib.faces.len() && lib.faces[i].marks.group() is Some {
        let g = lib.faces[i].marks.group()->0;
        assert(group_of_face()(lib.faces[i]) is Some);
        assert(places.contains(i));
        let p = choose|p: int| 0 <= p < places.len() && places[p] == i;
        assert(group_of_face()(lib.faces[places[p]]) == Some(held[p]));
        assert(held.contains(g));
        assert(all.contains(g));
        let q = choose|q: int| 0 <= q < all.len() && all[q] == g;
        assert(from.contains(q));
        let k = choose|k: int| 0 <= k < from.len() && from[k] == q;
        assert(rows[k].cluster_id == g);
    }
    if 0 <= i < rows.len() {
        let g = groups[i];
        assert(g == all[from[i]]);
        lemma_size(lib, g);
        lemma_tally_bound(lib.faces, in_group(g));
        assert(all.contains(g));
        assert(held.contains(g));
        let p = choose|p: int| 0 <= p < held.len() && held[p] == g;
        assert(group_of_face()(lib.faces[places[p]]) == Some(held[p]));
        let at = law_faces_are_shown_best_first(lib.faces, g);
        assert(at.contains(places[p]));
        let k = at[0];
        assert(lib.faces[at[0]].marks.group() == Some(g));
        assert(in_group(g)(lib.faces[k]));
        lemma_some_satisfy(lib.faces, in_group(g));
        assert(lib.faces[k].id == rows[i].cover_face_id);
        assert forall|l: int|
            0 <= l < lib.faces.len() && (#[trigger] lib.faces[l]).marks.group() == Some(g) implies
        lib.faces[l].score <= lib.faces[k].score by {
            assert(at.contains(l));
            let q = choose|q: int| 0 <= q < at.len() && at[q] == l;
            if q > 0 {
                assert(lib.faces[at[0]].score >= lib.faces[at[q]].score);
            }
        }
    }
    if 0 <= i < j < rows.len() {
        let (g, h) = (groups[i], groups[j]);
        assert(g == all[from[i]] && h == all[from[j]]);
        lemma_size(lib, g);
        lemma_size(lib, h);
        lemma_tally_bound(lib.faces, in_group(g));
        lemma_tally_bound(lib.faces, in_group(h));
        assert(keys[from[i]].0 >= keys[from[j]].0);
        assert(from[i] != from[j]);
        if from[i] < from[j] {
            assert(all[from[i]] != all[from[j]]);
        } else {
            assert(all[from[j]] != all[from[i]]);
        }
        assert(keys[from[i]].0 == tally(lib.faces, in_group(g)));
        assert(keys[from[j]].0 == tally(lib.faces, in_group(h)));
    }
}

/// **A person's page shows just the photos they are in**, each once, newest first.
pub proof fn law_person_page_shows_their_photos(lib: LibraryView, group: i64, i: int, j: int)
    requires
        lib.wf(),
        lib.photos.len() <= usize::MAX,
        0 <= i < lib.photos.len(),
    ensures
        ({
            let rows = timeline(
                select(lib.photos, row_among(distinct(select(lib.faces, photo_in(group))))),
            );
            &&& (exists|p: int| 0 <= p < rows.len() && (#[trigger] rows[p]).id == lib.photos[i].id)
                <==> exists|k: int|
                0 <= k < lib.faces.len() && (#[trigger] lib.faces[k]).marks.group() == Some(group)
                    && lib.faces[k].photo_id == lib.photos[i].id
            &&& 0 <= i < j < rows.len() ==> rows[i].id != rows[j].id && (rows[i].ts > rows[j].ts
                || (rows[i].ts == rows[j].ts && rows[i].id > rows[j].id))
        }),
{
    let held = select(lib.faces, photo_in(group));
    let ids = distinct(held);
    lemma_distinct(held);
    let pick = row_among(ids);
    let base = select(lib.photos, pick);
    let places = law_picking_keeps_the_order(lib.photos, pick);
    lemma_select_len(lib.photos, pick);
    let from = lemma_timeline(base);
    let rows = timeline(base);
    let at_faces = law_picking_keeps_the_order(lib.faces, photo_in(group));
    let id = lib.photos[i].id;
    assert(ids.contains(id) <==> exists|k: int|
        0 <= k < lib.faces.len() && (#[trigger] lib.faces[k]).marks.group() == Some(group)
            && lib.faces[k].photo_id == id) by {
        if ids.contains(id) {
            assert(held.contains(id));
            let p = choose|p: int| 0 <= p < held.len() && held[p] == id;
            assert(photo_in(group)(lib.faces[at_faces[p]]) == Some(held[p]));
        }
        if exists|k: int|
            0 <= k < lib.faces.len() && (#[trigger] lib.faces[k]).marks.group() == Some(group)
                && lib.faces[k].photo_id == id {
            let k = choose|k: int|
                0 <= k < lib.faces.len() && (#[trigger] lib.faces[k]).marks.group() == Some(group)
                    && lib.faces[k].photo_id == id;
            lemma_select_contains(lib.faces, photo_in(group), k);
            assert(held.contains(id));
        }
    }
    assert forall|a: int, b: int|
        0 <= a < lib.photos.len() && 0 <= b < lib.photos.len() && a != b implies (
    #[trigger] lib.photos[a]).id != (#[trigger] lib.photos[b]).id by {
        if a < b {
            assert(lib.photos[a].id < lib.photos[b].id);
        } else {
            assert(lib.photos[b].id < lib.photos[a].id);
        }
    }
    if ids.contains(id) {
        assert(pick(lib.photos[i]) is Some);
        assert(places.contains(i));
        let k = choose|k: int| 0 <= k < places.len() && places[k] == i;
        assert(pick(lib.photos[places[k]]) == Some(base[k]));
        assert(from.contains(k));
        let p = choose|p: int| 0 <= p < from.len() && from[p] == k;
        assert(rows[p].id == id);
    }
    if exists|p: int| 0 <= p < rows.len() && (#[trigger] rows[p]).id == id {
        let p = choose|p: int| 0 <= p < rows.len() && (#[trigger] rows[p]).id == id;
        assert(rows[p] == base[from[p]]);
        assert(pick(lib.photos[places[from[p]]]) == Some(base[from[p]]));
        assert(lib.photos[places[from[p]]].id == id);
    }
    if 0 <= i < j < rows.len() {
        assert(from[i] != from[j]);
        assert(rows[i] == base[from[i]] && rows[j] == base[from[j]]);
        assert(pick(lib.photos[places[from[i]]]) == Some(base[from[i]]));
        assert(pick(lib.photos[places[from[j]]]) == Some(base[from[j]]));
        if from[i] < from[j] {
            assert(places[from[i]] < places[from[j]]);
        } else {
            assert(places[from[j]] < places[from[i]]);
        }
        assert(lib.photos[places[from[i]]].id != lib.photos[places[from[j]]].id);
    }
}

/// **A photo's overlay shows its faces.** Each face of the photo that is not ignored is there
/// once, with its box, its group and its person's name, the most certain first.
pub proof fn law_overlay_shows_the_faces(lib: LibraryView, photo_id: i64) -> (at: Seq<int>)
    requires
        lib.faces.len() <= usize::MAX,
    ensures
        at.len() == photo_overlay(lib, photo_id).len(),
        at.no_duplicates(),
        forall|p: int|
            0 <= p < at.len() ==> {
                let f = lib.faces[#[trigger] at[p]];
                let o = photo_overlay(lib, photo_id)[p];
                &&& 0 <= at[p] < lib.faces.len()
                &&& f.photo_id == photo_id && !f.marks.ignored
                &&& o.face_id == f.id && o.bbox == f.bbox && o.cluster_id == f.marks.group()
                &&& o.name == (if f.marks.group() is Some {
                    name_of_group(lib, f.marks.group()->0)
                } else {
                    None
                })
            },
        forall|p: int, q: int|
            0 <= p < q < at.len() ==> lib.faces[#[trigger] at[p]].score >= lib.faces[
            #[trigger] at[q]].score,
        forall|i: int|
            0 <= i < lib.faces.len() && (#[trigger] lib.faces[i]).photo_id == photo_id
                && !lib.faces[i].marks.ignored ==> at.contains(i),
{
    let all = select(lib.faces, shown_in(photo_id));
    let keys = all.map_values(most_certain());
    let places = law_picking_keeps_the_order(lib.faces, shown_in(photo_id));
    lemma_select_len(lib.faces, shown_in(photo_id));
    let from = law_ranking_loses_nothing(all, keys);
    let at = Seq::new(from.len(), |p: int| places[from[p]]);
    assert forall|p: int| 0 <= p < at.len() implies {
        let f = lib.faces[#[trigger] at[p]];
        &&& 0 <= at[p] < lib.faces.len()
        &&& f == all[from[p]]
        &&& f.photo_id == photo_id && !f.marks.ignored
        &&& photo_overlay(lib, photo_id)[p] == overlay(lib)(f)
    } by {
        assert(shown_in(photo_id)(lib.faces[places[from[p]]]) == Some(all[from[p]]));
    }
    assert forall|p: int, q: int| 0 <= p < at.len() && 0 <= q < at.len() && p != q implies at[p]
        != at[q] by {
        if p < q {
            assert(from[p] != from[q]);
        } else {
            assert(from[q] != from[p]);
        }
        if from[p] < from[q] {
            assert(places[from[p]] < places[from[q]]);
        } else {
            assert(places[from[q]] < places[from[p]]);
        }
    }
    assert forall|p: int, q: int| 0 <= p < q < at.len() implies lib.faces[#[trigger] at[p]].score
        >= lib.faces[#[trigger] at[q]].score by {
        assert(keys[from[p]].0 >= keys[from[q]].0);
        assert(lib.faces[at[p]] == all[from[p]] && lib.faces[at[q]] == all[from[q]]);
    }
    assert forall|i: int|
        0 <= i < lib.faces.len() && (#[trigger] lib.faces[i]).photo_id == photo_id
            && !lib.faces[i].marks.ignored implies at.contains(i) by {
        assert(shown_in(photo_id)(lib.faces[i]) is Some);
        assert(places.contains(i));
        let k = choose|k: int| 0 <= k < places.len() && places[k] == i;
        assert(from.contains(k));
        let p = choose|p: int| 0 <= p < from.len() && from[p] == k;
        assert(at[p] == i);
    }
    at
}

/// **The faces of a selection are the group's in the photos selected.**
pub proof fn law_selected_faces(f: FaceView, group: i64, photos: Seq<i64>)
    ensures
        grouped_in(group, photos)(f) == (if f.marks.group() == Some(group) && photos.contains(
            f.photo_id,
        ) {
            Some(f.id)
        } else {
            None
        }),
{
}

/// **A record is found under its id.**
pub proof fn law_records_are_found(lib: LibraryView, i: int, j: int, id: i64)
    requires
        lib.wf(),
    ensures
        0 <= i < lib.identities.len() ==> find_identity(lib.identities, lib.identities[i].id)
            == Some(lib.identities[i]) && name_of(lib.identities, lib.identities[i].id)
            == lib.identities[i].name,
        (forall|k: int| 0 <= k < lib.identities.len() ==> (#[trigger] lib.identities[k]).id != id)
            ==> find_identity(lib.identities, id) is None && name_of(lib.identities, id) is None,
        0 <= j < lib.photos.len() ==> find_photo(lib.photos, lib.photos[j].id) == Some(
            lib.photos[j],
        ),
        (forall|k: int| 0 <= k < lib.photos.len() ==> (#[trigger] lib.photos[k]).id != id)
            ==> find_photo(lib.photos, id) is None,
{
    if 0 <= i < lib.identities.len() {
        lemma_identity_at(lib.identities, i);
    }
    if forall|k: int| 0 <= k < lib.identities.len() ==> (#[trigger] lib.identities[k]).id != id {
        lemma_no_identity(lib.identities, id);
    }
    if 0 <= j < lib.photos.len() {
        lemma_photo_at(lib.photos, j);
    }
    if forall|k: int| 0 <= k < lib.photos.len() ==> (#[trigger] lib.photos[k]).id != id {
        lemma_no_photo(lib.photos, id);
    }
}

proof fn lemma_identity_at(list: Seq<IdentityView>, i: int)
    requires
        identities_wf(list),
        0 <= i < list.len(),
    ensures
        find_identity(list, list[i].id) == Some(list[i]),
    decreases list.len(),
{
    let n = list.len() - 1;
    assert(list[n] == list.last());
    if i < n {
        assert(list[i].id < list[n].id);
        let front = list.drop_last();
        assert(identities_wf(front)) by {
            assert forall|a: int| 0 <= a < front.len() implies (#[trigger] front[a]).id >= 1 by {
                assert(list[a].id >= 1);
            }
            assert forall|a: int, b: int| 0 <= a < b < front.len() implies (#[trigger] front[a]).id
                < (#[trigger] front[b]).id by {
                assert(list[a].id < list[b].id);
            }
        }
        lemma_identity_at(front, i);
    }
}

proof fn lemma_no_identity(list: Seq<IdentityView>, id: i64)
    requires
        forall|k: int| 0 <= k < list.len() ==> (#[trigger] list[k]).id != id,
    ensures
        find_identity(list, id) is None,
    decreases list.len(),
{
    if list.len() > 0 {
        assert(list[list.len() - 1] == list.last());
        let front = list.drop_last();
        assert forall|k: int| 0 <= k < front.len() implies (#[trigger] front[k]).id != id by {
            assert(front[k] == list[k]);
        }
        lemma_no_identity(front, id);
    }
}

proof fn lemma_photo_at(list: Seq<PhotoView>, i: int)
    requires
        forall|a: int, b: int|
            0 <= a < b < list.len() ==> (#[trigger] list[a]).id < (#[trigger] list[b]).id,
        0 <= i < list.len(),
    ensures
        find_photo(list, list[i].id) == Some(list[i]),
    decreases list.len(),
{
    let n = list.len() - 1;
    assert(list[n] == list.last());
    if i < n {
        assert(list[i].id < list[n].id);
        let front = list.drop_last();
        assert forall|a: int, b: int| 0 <= a < b < front.len() implies (#[trigger] front[a]).id < (
        #[trigger] front[b]).id by {
            assert(list[a].id < list[b].id);
        }
        lemma_photo_at(front, i);
    }
}

proof fn lemma_no_photo(list: Seq<PhotoView>, id: i64)
    requires
        forall|k: int| 0 <= k < list.len() ==> (#[trigger] list[k]).id != id,
    ensures
        find_photo(list, id) is None,
    decreases list.len(),
{
    if list.len() > 0 {
        assert(list[list.len() - 1] == list.last());
        let front = list.drop_last();
        assert forall|k: int| 0 <= k < front.len() implies (#[trigger] front[k]).id != id by {
            assert(front[k] == list[k]);
        }
        lemma_no_photo(front, id);
    }
}

/// **A group is called what its person is called.** An appearance group has no name.
pub proof fn law_group_names(lib: LibraryView, i: int, group: i64)
    requires
        lib.wf(),
        0 <= i < lib.identities.len(),
    ensures
        name_of_group(lib, (-lib.identities[i].id) as i64) == lib.identities[i].name,
        group >= 0 ==> name_of_group(lib, group) is None,
{
    assert(lib.identities[i].id >= 1);
    lemma_identity_at(lib.identities, i);
}

/// **A person is found by name, whatever the case.** The group found is that of the first person
/// whose name has the same letters; if there is none, nobody is found.
pub proof fn law_persons_are_found_by_name(identities: Seq<IdentityView>, name: Seq<char>)
    ensures
        person_named(identities, name) matches Some(g) ==> exists|k: int|
            0 <= k < identities.len() && (#[trigger] identities[k]).name is Some && same_letters(
                identities[k].name->0,
                name,
            ) && g == identity_key(identities[k].id) && forall|j: int|
                0 <= j < k ==> !((#[trigger] identities[j]).name is Some && same_letters(
                    identities[j].name->0,
                    name,
                )),
        person_named(identities, name) is None ==> forall|k: int|
            0 <= k < identities.len() ==> !((#[trigger] identities[k]).name is Some && same_letters(
                identities[k].name->0,
                name,
            )),
    decreases identities.len(),
{
    if identities.len() > 0 {
        let rest = identities.drop_first();
        law_persons_are_found_by_name(rest, name);
        let first = identities[0].name is Some && same_letters(identities[0].name->0, name);
        if identities[0].name is Some {
            lemma_same_letters(identities[0].name->0, name);
        }
        if first {
            assert(person_named(identities, name) == Some(identity_key(identities[0].id)));
        } else if person_named(rest, name) is Some {
            let g = person_named(rest, name)->0;
            let k = choose|k: int|
                0 <= k < rest.len() && (#[trigger] rest[k]).name is Some && same_letters(
                    rest[k].name->0,
                    name,
                ) && g == identity_key(rest[k].id) && forall|j: int|
                    0 <= j < k ==> !((#[trigger] rest[j]).name is Some && same_letters(
                        rest[j].name->0,
                        name,
                    ));
            assert(identities[k + 1] == rest[k]);
            assert forall|j: int| 0 <= j < k + 1 implies !((#[trigger] identities[j]).name is Some
                && same_letters(identities[j].name->0, name)) by {
                if j > 0 {
                    assert(rest[j - 1] == identities[j]);
                }
            }
        } else {
            assert forall|k: int| 0 <= k < identities.len() implies !((
            #[trigger] identities[k]).name is Some && same_letters(identities[k].name->0, name)) by {
                if k > 0 {
                    assert(rest[k - 1] == identities[k]);
                }
            }
        }
    }
}

/// **A cluster's name is looked up whatever the case.**
pub proof fn law_clusters_are_found_by_name(names: Seq<(i64, Seq<char>)>, name: Seq<char>)
    ensures
        named_like(names, name) matches Some(c) ==> exists|k: int|
            0 <= k < names.len() && (#[trigger] names[k]).0 == c && same_letters(names[k].1, name)
                && forall|j: int| 0 <= j < k ==> !same_letters((#[trigger] names[j]).1, name),
        named_like(names, name) is None ==> forall|k: int|
            0 <= k < names.len() ==> !same_letters((#[trigger] names[k]).1, name),
    decreases names.len(),
{
    if names.len() > 0 {
        let rest = names.drop_first();
        law_clusters_are_found_by_name(rest, name);
        lemma_same_letters(names[0].1, name);
        if same_letters(names[0].1, name) {
            assert(named_like(names, name) == Some(names[0].0));
        } else if named_like(rest, name) is Some {
            let c = named_like(rest, name)->0;
            let k = choose|k: int|
                0 <= k < rest.len() && (#[trigger] rest[k]).0 == c && same_letters(rest[k].1, name)
                    && forall|j: int| 0 <= j < k ==> !same_letters((#[trigger] rest[j]).1, name);
            assert(names[k + 1] == rest[k]);
            assert forall|j: int| 0 <= j < k + 1 implies !same_letters(
                (#[trigger] names[j]).1,
                name,
            ) by {
                if j > 0 {
                    assert(rest[j - 1] == names[j]);
                }
            }
        } else {
            assert forall|k: int| 0 <= k < names.len() implies !same_letters(
                (#[trigger] names[k]).1,
                name,
            ) by {
                if k > 0 {
                    assert(rest[k - 1] == names[k]);
                }
            }
        }
    }
}

/// **Naming a cluster replaces its name or adds one**, and touches no other.
pub proof fn law_cluster_names_are_set(
    names: Seq<(i64, Seq<char>)>,
    cluster: i64,
    name: Seq<char>,
    k: int,
)
    ensures
        ({
            let after = cluster_named(names, cluster, name);
            &&& exists|j: int| 0 <= j < after.len() && (#[trigger] after[j]) == (cluster, name)
            &&& forall|j: int|
                0 <= j < after.len() && (#[trigger] after[j]).0 == cluster ==> after[j].1 == name
            &&& 0 <= k < names.len() && names[k].0 != cluster ==> after[k] == names[k]
            &&& names.len() <= after.len() <= names.len() + 1
        }),
{
    let after = cluster_named(names, cluster, name);
    if has_cluster_name(names, cluster) {
        let j = choose|j: int| 0 <= j < names.len() && (#[trigger] names[j]).0 == cluster;
        assert(after[j] == (cluster, name));
    } else {
        assert(after[names.len() as int] == (cluster, name));
        assert forall|j: int|
            0 <= j < after.len() && (#[trigger] after[j]).0 == cluster implies after[j].1
            == name by {
            if j < names.len() {
                assert(names[j].0 == cluster);
            }
        }
    }
}

/// **A cluster's person is whom most of its faces carry**; of several carried by as many, the one
/// with the smallest id. A cluster without any has none.
pub proof fn law_clusters_person_is_the_plurality(faces: Seq<FaceView>, cluster: i64, other: i64)
    ensures
        plurality(faces, cluster) matches Some(p) ==> {
            let count = |q: i64|
                faces.filter(
                    |f: FaceView|
                        f.marks.cluster_id == Some(cluster) && f.marks.identity_id == Some(q),
                ).len();
            &&& count(p) > 0
            &&& count(other) <= count(p)
            &&& count(other) == count(p) ==> p <= other
        },
{
    if let Some(p) = plurality(faces, cluster) {
        assert(is_plurality(faces, cluster, p));
        lemma_tally_filter(
            faces,
            carries(cluster, p),
            |f: FaceView| f.marks.cluster_id == Some(cluster) && f.marks.identity_id == Some(p),
        );
        lemma_tally_filter(
            faces,
            carries(cluster, other),
            |f: FaceView| f.marks.cluster_id == Some(cluster) && f.marks.identity_id == Some(other),
        );
        assert(support(faces, cluster, other) < support(faces, cluster, p) || (support(
            faces,
            cluster,
            other,
        ) == support(faces, cluster, p) && p <= other));
    }
}

/// **A minted identity is new and nameless**, and those on record stay.
pub proof fn law_minted_identities(lib: LibraryView)
    requires
        lib.wf(),
        lib.last_identity() < i64::MAX,
    ensures
        ({
            let after = minted(lib).identities;
            &&& after.len() == lib.identities.len() + 1
            &&& after.last().name is None
            &&& forall|k: int| 0 <= k < lib.identities.len() ==> #[trigger] after[k]
                == lib.identities[k]
            &&& forall|k: int|
                0 <= k < lib.identities.len() ==> (#[trigger] lib.identities[k]).id
                    < after.last().id
            &&& after.last().id >= 1
        }),
        minted(lib).faces == lib.faces,
{
    assert forall|k: int| 0 <= k < lib.identities.len() implies (#[trigger] lib.identities[k]).id
        <= lib.last_identity() by {
        if k < lib.identities.len() - 1 {
            assert(lib.identities[k].id < lib.identities[lib.identities.len() - 1].id);
        }
    }
    if lib.identities.len() > 0 {
        assert(lib.identities[lib.identities.len() - 1].id >= 1);
    }
}

/// **A person's faces read as a chronicle.** Each face of the group whose photo is known is there
/// once, dated by its photo, the oldest first, and by id where two are of one moment.
pub proof fn law_chronicle_is_oldest_first(lib: LibraryView, group: i64) -> (at: Seq<int>)
    requires
        lib.faces.len() <= usize::MAX,
    ensures
        at.len() == chronicle(lib, group).len(),
        at.no_duplicates(),
        forall|p: int|
            0 <= p < at.len() ==> {
                let f = lib.faces[#[trigger] at[p]];
                let c = chronicle(lib, group)[p];
                &&& 0 <= at[p] < lib.faces.len()
                &&& f.marks.group() == Some(group)
                &&& c.face_id == f.id && c.photo_id == f.photo_id && c.score == f.score
                    && c.embedding == f.embedding
                &&& find_photo(lib.photos, f.photo_id) matches Some(photo) && c.ts == (
                match photo.marks.taken_ts {
                    Some(ts) => ts,
                    None => photo.mtime,
                })
            },
        forall|p: int, q: int|
            0 <= p < q < at.len() ==> {
                let (a, b) = (#[trigger] chronicle(lib, group)[p], #[trigger] chronicle(
                    lib,
                    group,
                )[q]);
                a.ts < b.ts || (a.ts == b.ts && a.face_id <= b.face_id)
            },
        forall|i: int|
            0 <= i < lib.faces.len() && (#[trigger] lib.faces[i]).marks.group() == Some(group)
                && find_photo(lib.photos, lib.faces[i].photo_id) is Some ==> at.contains(i),
{
    let pick = dated(lib.photos, group);
    let all = select(lib.faces, pick);
    let keys = all.map_values(oldest_first());
    let places = law_picking_keeps_the_order(lib.faces, pick);
    lemma_select_len(lib.faces, pick);
    let from = law_ranking_loses_nothing(all, keys);
    let at = Seq::new(from.len(), |p: int| places[from[p]]);
    let out = chronicle(lib, group);
    assert forall|p: int| 0 <= p < at.len() implies {
        let f = lib.faces[#[trigger] at[p]];
        &&& 0 <= at[p] < lib.faces.len()
        &&& pick(f) == Some(out[p])
        &&& out[p] == all[from[p]]
    } by {
        assert(pick(lib.faces[places[from[p]]]) == Some(all[from[p]]));
    }
    assert forall|p: int, q: int| 0 <= p < at.len() && 0 <= q < at.len() && p != q implies at[p]
        != at[q] by {
        if p < q {
            assert(from[p] != from[q]);
        } else {
            assert(from[q] != from[p]);
        }
        if from[p] < from[q] {
            assert(places[from[p]] < places[from[q]]);
        } else {
            assert(places[from[q]] < places[from[p]]);
        }
    }
    assert forall|p: int, q: int| 0 <= p < q < at.len() implies {
        let (a, b) = (#[trigger] out[p], #[trigger] out[q]);
        a.ts < b.ts || (a.ts == b.ts && a.face_id <= b.face_id)
    } by {
        let (x, y) = (keys[from[p]], keys[from[q]]);
        assert(x.0 >= y.0);
        assert(out[p] == all[from[p]] && out[q] == all[from[q]]);
    }
    assert forall|i: int|
        0 <= i < lib.faces.len() && (#[trigger] lib.faces[i]).marks.group() == Some(group)
            && find_photo(lib.photos, lib.faces[i].photo_id) is Some implies at.contains(i) by {
        assert(pick(lib.faces[i]) is Some);
        assert(places.contains(i));
        let k = choose|k: int| 0 <= k < places.len() && places[k] == i;
        assert(from.contains(k));
        let p = choose|p: int| 0 <= p < from.len() && from[p] == k;
        assert(at[p] == i);
    }
    at
}

} // verus!
