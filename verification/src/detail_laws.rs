//! The details that cards, pages and lists show, said of what they show.

use vstd::prelude::*;

use crate::confirmations::{
    by_count, cluster_under, confirmed_face, confirmed_person, confirmed_photo, owned_cluster,
};
use crate::constraint_laws::law_pairs_are_kept;
use crate::corrections::{same_named, undone, usable, Refusal, UndoView};
use crate::details::{is_detail, PhotoDetail};
use crate::exif_meta::{meta_in, position_in, taken_in, ExifFieldView, ExifMeta};
use crate::faces::{cluster_of_face, clustered, find_face, in_pool, listed, FaceState};
use crate::flags::{flag_value, with_flag};
use crate::groups::{group_ensured, photo_row, ranked_faces, PhotoRow};
use crate::growth::{chip, claimed_size, Claim};
use crate::identities::{bind_cluster, cluster_identity, ensured};
use crate::images::{crop_rect, cropped, face_jpeg, is_jpeg, jpeg, resampled, PixelsView, Rect};
use crate::library::{faces_wf, marked, FaceBox, FaceView, IdentityView, LibraryView, PhotoView};
use crate::listing_laws::{law_ranking_loses_nothing, lemma_limited};
use crate::magnet::GrowthCandidate;
use crate::names::{all_named, cluster_named, cluster_renamed, confirm_bound, person_named, renamed};
use crate::order::{arranged, limited};
use crate::passes::flagged;
use crate::paths::name_in;
use crate::people_screen_laws::{law_cluster_names_are_set, law_faces_are_shown_best_first};
use crate::places::{is_anniversary, taken_on_day};
use crate::rows::{
    distinct, equals, lemma_distinct, lemma_select_contains, lemma_select_from,
    lemma_select_len, lemma_tally_bound, select, tally,
};
use crate::session_laws::law_flags_are_apart;
use crate::suggestions::{strongest_evidence, suggestion, suggestions_of};
use crate::text::trimmed;

verus! {

/// The id is that of a face of the group.
pub open spec fn is_face_of(lib: LibraryView, group: i64, id: i64) -> bool {
    exists|i: int|
        0 <= i < lib.faces.len() && (#[trigger] lib.faces[i]).id == id
            && lib.faces[i].marks.group() == Some(group)
}

/// The id is that of a face with at least the score.
pub open spec fn scores_at_least(lib: LibraryView, id: i64, score: i64) -> bool {
    exists|i: int|
        0 <= i < lib.faces.len() && (#[trigger] lib.faces[i]).id == id && lib.faces[i].score
            >= score
}

/// The ids are the group's best faces: as many as asked for and there, each of the group, and no
/// face of the group that is left out has a higher score.
pub open spec fn best_faces_of(lib: LibraryView, group: i64, ids: Seq<i64>, limit: int) -> bool {
    &&& ids.len() <= limit
    &&& forall|p: int| 0 <= p < ids.len() ==> is_face_of(lib, group, #[trigger] ids[p])
    &&& forall|i: int, p: int|
        0 <= i < lib.faces.len() && 0 <= p < ids.len() && (
        #[trigger] lib.faces[i]).marks.group() == Some(group) && !ids.contains(lib.faces[i].id)
            ==> scores_at_least(lib, #[trigger] ids[p], lib.faces[i].score)
    &&& ids.len() < limit ==> forall|i: int|
        0 <= i < lib.faces.len() && (#[trigger] lib.faces[i]).marks.group() == Some(group)
            ==> ids.contains(lib.faces[i].id)
}

/// **A card shows the best faces of a group.**
pub proof fn law_cards_show_the_best_faces(lib: LibraryView, group: i64, limit: int)
    requires
        lib.faces.len() <= usize::MAX,
        0 <= limit,
    ensures
        best_faces_of(lib, group, limited(ranked_faces(lib.faces, group), limit), limit),
{
    let all = ranked_faces(lib.faces, group);
    let ids = limited(all, limit);
    let at = law_faces_are_shown_best_first(lib.faces, group);
    lemma_limited(all, limit);
    assert forall|p: int| 0 <= p < ids.len() implies is_face_of(lib, group, #[trigger] ids[p]) by {
        assert(ids[p] == all[p]);
        assert(lib.faces[at[p]].id == all[p]);
    }
    assert forall|i: int, p: int|
        0 <= i < lib.faces.len() && 0 <= p < ids.len() && (
        #[trigger] lib.faces[i]).marks.group() == Some(group) && !ids.contains(
            lib.faces[i].id,
        ) implies scores_at_least(lib, #[trigger] ids[p], lib.faces[i].score) by {
        assert(at.contains(i));
        let q = choose|q: int| 0 <= q < at.len() && at[q] == i;
        assert(lib.faces[at[q]].id == all[q]);
        if q < ids.len() {
            assert(ids[q] == lib.faces[i].id);
        }
        assert(lib.faces[at[p]].score >= lib.faces[at[q]].score);
        assert(lib.faces[at[p]].id == ids[p]);
    }
    if ids.len() < limit {
        assert forall|i: int|
            0 <= i < lib.faces.len() && (#[trigger] lib.faces[i]).marks.group() == Some(
                group,
            ) implies ids.contains(lib.faces[i].id) by {
            assert(at.contains(i));
            let q = choose|q: int| 0 <= q < at.len() && at[q] == i;
            assert(lib.faces[at[q]].id == all[q]);
            assert(ids[q] == lib.faces[i].id);
        }
    }
}

/// **A merge suggestion shows four faces of either side**, the best ones.
pub proof fn law_suggestions_show_both_sides(lib: LibraryView, i: int)
    requires
        lib.faces.len() <= usize::MAX,
        0 <= i < suggestions_of(lib).len(),
    ensures
        ({
            let s = suggestions_of(lib)[i];
            &&& best_faces_of(lib, s.into, s.into_faces, 4)
            &&& best_faces_of(lib, s.from, s.from_faces, 4)
            &&& s.generation == 0
        }),
{
    let all = strongest_evidence(lib);
    lemma_select_from(all, suggestion(lib), i);
    let s = suggestions_of(lib)[i];
    law_cards_show_the_best_faces(lib, s.into, 4);
    law_cards_show_the_best_faces(lib, s.from, 4);
}

/// **A chip shows the group's best face**, if the group has any.
pub proof fn law_chips_show_the_best_face(
    lib: LibraryView,
    c: GrowthCandidate,
    i: int,
)
    requires
        lib.faces.len() <= usize::MAX,
        0 <= i < lib.faces.len(),
        lib.faces[i].marks.group() == Some(c.cluster_id),
    ensures
        ({
            let g = chip(lib.faces)(c);
            &&& g.cluster_id == c.cluster_id
            &&& g.similarity == c.max_sim
            &&& g.face_id is Some
            &&& exists|k: int|
                0 <= k < lib.faces.len() && Some((#[trigger] lib.faces[k]).id) == g.face_id
                    && lib.faces[k].marks.group() == Some(c.cluster_id) && lib.faces[k].score
                    >= lib.faces[i].score
        }),
{
    let at = law_faces_are_shown_best_first(lib.faces, c.cluster_id);
    assert(at.contains(i));
    let q = choose|q: int| 0 <= q < at.len() && at[q] == i;
    assert(lib.faces[at[0]].id == ranked_faces(lib.faces, c.cluster_id)[0]);
    if q > 0 {
        assert(lib.faces[at[0]].score >= lib.faces[at[q]].score);
    }
}

/// **The size a question shows is the size last claimed.**
pub proof fn law_claimed_sizes(all: Seq<Claim>, cluster: i64, k: int)
    requires
        0 <= k < all.len(),
        all[k].cluster_id == cluster,
        forall|j: int| k < j < all.len() ==> (#[trigger] all[j]).cluster_id != cluster,
    ensures
        claimed_size(all, cluster) == all[k].size,
    decreases all.len(),
{
    let n = all.len() - 1;
    assert(all[n] == all.last());
    if k < n {
        let front = all.drop_last();
        assert forall|j: int| k < j < front.len() implies (#[trigger] front[j]).cluster_id
            != cluster by {
            assert(front[j] == all[j]);
        }
        law_claimed_sizes(front, cluster, k);
    }
}

/// **A photo's details are its own.** Its path, its name (or the path where it has none), its
/// capture date or else its file's, and its flags.
pub proof fn law_details(d: PhotoDetail, p: PhotoView)
    requires
        is_detail(d, p),
    ensures
        d.path@ == p.path,
        name_in(p.path) matches Some(n) ==> d.filename@ == n,
        name_in(p.path) is None ==> d.filename@ == p.path,
        d.timestamp == (if p.marks.taken_ts is Some {
            p.marks.taken_ts->0
        } else {
            p.mtime
        }),
        d.favorite == p.marks.favorite,
        d.hidden == p.marks.hidden,
        photo_row(p) == (PhotoRow { id: p.id, status: p.marks.status, ts: d.timestamp }),
{
}

/// **Metadata is what the fields hold.** The date and the position are read from them; a file
/// without fields has neither.
pub proof fn law_metadata(fields: Option<Seq<ExifFieldView>>, meta: ExifMeta)
    requires
        meta_in(fields, meta),
    ensures
        fields is None ==> meta.taken_ts is None && meta.gps is None,
        fields matches Some(f) ==> meta.taken_ts == taken_in(f) && (meta.gps is Some
            <==> position_in(f) is Some),
        fields is Some && meta.gps is Some ==> {
            let (lat, lon) = position_in(fields->0)->0;
            let g = meta.gps->0;
            g.lat.num == lat.0 && g.lat.den == lat.1 && g.lon.num == lon.0 && g.lon.den == lon.1
        },
{
}

/// **"On this day" shows the photos of the day.** A photo shows exactly if it has a capture date
/// that is an anniversary of today; its file's date does not count.
pub proof fn law_on_this_day(p: PhotoView, today: i64)
    ensures
        taken_on_day(today)(p) is Some <==> p.marks.taken_ts is Some && is_anniversary(
            p.marks.taken_ts->0 as int,
            today as int,
        ),
        taken_on_day(today)(p) matches Some(r) ==> r.id == p.id && r.status == p.marks.status && Some(
            r.ts,
        ) == p.marks.taken_ts,
{
}

/// **What is picked of a face.** The lists of confirmed faces, of their photos and persons, of the
/// clusters they own, of the faces in the pool and of those in clusters hold of each face just
/// what they are for.
pub proof fn law_what_is_picked_of_faces(f: FaceView, identity: i64, ids: Seq<i64>)
    ensures
        confirmed_face()(f) == (if f.marks.confirmed && f.marks.identity_id is Some {
            Some((f.id, f.marks.identity_id->0))
        } else {
            None
        }),
        confirmed_photo()(f) == (if f.marks.confirmed && f.marks.identity_id is Some {
            Some((f.marks.identity_id->0, f.photo_id))
        } else {
            None
        }),
        confirmed_person()(f) == (if f.marks.confirmed {
            f.marks.identity_id
        } else {
            None
        }),
        owned_cluster()(f) == (if f.marks.confirmed {
            f.marks.cluster_id
        } else {
            None
        }),
        cluster_under(identity)(f) == (if f.marks.identity_id == Some(identity) {
            f.marks.cluster_id
        } else {
            None
        }),
        in_pool()(f) == (if f.marks.cluster_id is Some {
            Some((f.id, f.embedding))
        } else {
            None
        }),
        clustered()(f) == (if f.marks.cluster_id is Some {
            Some((f.marks.cluster_id->0, f.photo_id, f.embedding))
        } else {
            None
        }),
        cluster_of_face()(f) == f.marks.cluster_id,
        listed(ids)(f) == (if ids.contains(f.id) {
            Some(
                FaceState {
                    face_id: f.id,
                    cluster_id: f.marks.cluster_id,
                    identity_id: f.marks.identity_id,
                    ignored: f.marks.ignored,
                    confirmed: f.marks.confirmed,
                },
            )
        } else {
            None
        }),
{
}

/// **A person's clusters are listed, the one with most of their faces first**, and by id where two
/// hold as many.
pub proof fn law_persons_clusters(faces: Seq<FaceView>, identity: i64, i: int, j: int)
    requires
        faces.len() <= usize::MAX,
    ensures
        ({
            let held = select(faces, cluster_under(identity));
            let out = arranged(distinct(held), distinct(held).map_values(by_count(held)));
            &&& 0 <= i < j < out.len() ==> {
                let (a, b) = (tally(held, equals(out[i])), tally(held, equals(out[j])));
                a > b || (a == b && out[i] < out[j])
            }
            &&& 0 <= i < faces.len() && faces[i].marks.identity_id == Some(identity)
                && faces[i].marks.cluster_id is Some ==> out.contains(faces[i].marks.cluster_id->0)
        }),
{
    let held = select(faces, cluster_under(identity));
    let all = distinct(held);
    let keys = all.map_values(by_count(held));
    lemma_select_len(faces, cluster_under(identity));
    lemma_distinct(held);
    let from = law_ranking_loses_nothing(all, keys);
    let out = arranged(all, keys);
    if 0 <= i < j < out.len() {
        lemma_tally_bound(held, equals(out[i]));
        lemma_tally_bound(held, equals(out[j]));
        assert(out[i] == all[from[i]] && out[j] == all[from[j]]);
        assert(keys[from[i]].0 >= keys[from[j]].0);
        assert(from[i] != from[j]);
        if from[i] < from[j] {
            assert(all[from[i]] != all[from[j]]);
        } else {
            assert(all[from[j]] != all[from[i]]);
        }
    }
    if 0 <= i < faces.len() && faces[i].marks.identity_id == Some(identity)
        && faces[i].marks.cluster_id is Some {
        let c = faces[i].marks.cluster_id->0;
        lemma_select_contains(faces, cluster_under(identity), i);
        assert(held.contains(c));
        assert(all.contains(c));
        let q = choose|q: int| 0 <= q < all.len() && all[q] == c;
        assert(from.contains(q));
        let p = choose|p: int| 0 <= p < from.len() && from[p] == q;
        assert(out[p] == c);
    }
}

/// **A face is found under its id.**
pub proof fn law_faces_are_found(faces: Seq<FaceView>, i: int, id: i64)
    requires
        faces_wf(faces),
    ensures
        0 <= i < faces.len() ==> find_face(faces, faces[i].id) == Some(faces[i]),
        (forall|k: int| 0 <= k < faces.len() ==> (#[trigger] faces[k]).id != id) ==> find_face(
            faces,
            id,
        ) is None,
    decreases faces.len(),
{
    if faces.len() > 0 {
        let front = faces.drop_last();
        let n = faces.len() - 1;
        assert(faces[n] == faces.last());
        assert(faces_wf(front)) by {
            assert forall|a: int| 0 <= a < front.len() implies (#[trigger] front[a]).id >= 1 by {
                assert(faces[a].id >= 1);
            }
            assert forall|a: int, b: int| 0 <= a < b < front.len() implies (#[trigger] front[a]).id
                < (#[trigger] front[b]).id by {
                assert(faces[a].id < faces[b].id);
            }
        }
        law_faces_are_found(front, i, id);
        if 0 <= i < n {
            assert(front[i] == faces[i]);
            assert(faces[i].id < faces[n].id);
        }
        if forall|k: int| 0 <= k < faces.len() ==> (#[trigger] faces[k]).id != id {
            assert forall|k: int| 0 <= k < front.len() implies (#[trigger] front[k]).id != id by {
                assert(front[k] == faces[k]);
            }
        }
    }
}

/// **A typed name means a person who has it**, other than the source, whatever the case; white space
/// around it does not count, and an empty one means nobody.
pub proof fn law_typed_names(lib: LibraryView, source: i64, name: Option<String>)
    ensures
        name is None ==> usable(name) is None,
        name matches Some(n) ==> usable(name) == (if trimmed(n@).len() > 0 {
            Some(trimmed(n@))
        } else {
            None
        }),
        same_named(lib, source, None) is None,
        usable(name) matches Some(n) ==> same_named(lib, source, Some(n)) == (if person_named(
            group_ensured(lib, source).identities,
            n,
        ) == Some(source) {
            None
        } else {
            person_named(group_ensured(lib, source).identities, n)
        }),
{
}

/// **A rebuild is on record.** Both flags are set, and no other changes.
pub proof fn law_rebuilds_are_on_record(lib: LibraryView, other: Seq<char>)
    ensures
        flag_value(flagged(lib).meta, "reclustered_v1"@) == Some("1"@),
        flag_value(flagged(lib).meta, "identity_grouping_v1"@) == Some("1"@),
        other != "reclustered_v1"@ && other != "identity_grouping_v1"@ ==> flag_value(
            flagged(lib).meta,
            other,
        ) == flag_value(lib.meta, other),
        flagged(lib).faces == lib.faces,
{
    reveal_strlit("reclustered_v1");
    reveal_strlit("identity_grouping_v1");
    let (a, b) = ("reclustered_v1"@, "identity_grouping_v1"@);
    assert(a.len() != b.len());
    law_flags_are_apart(lib.meta, a, "1"@, other);
    law_flags_are_apart(lib.meta, a, "1"@, b);
    let first = with_flag(lib.meta, a, "1"@);
    law_flags_are_apart(first, b, "1"@, a);
    law_flags_are_apart(first, b, "1"@, other);
}

/// **An undo takes back what it lists.** The pairs it lists are gone, and every other pair stays;
/// the name it lists is back, and every other name stays.
pub proof fn law_undo_takes_back(lib: LibraryView, u: UndoView, k: int)
    requires
        u.added_cannot_links.len() == 0,
        u.added_same_photo_ok.len() == 0,
        0 <= k < lib.identities.len(),
    ensures
        ({
            let after = undone(lib, u);
            &&& u.added_cannot_link is None ==> after.cannot_link == lib.cannot_link
            &&& u.added_cannot_link matches Some(p) ==> forall|q: (i64, i64)| #[trigger]
                after.cannot_link.contains(q) <==> lib.cannot_link.contains(q) && q != (p.0, p.1)
                    && q != (p.1, p.0) || (lib.cannot_link.contains(q) && q.0 > q.1)
            &&& after.same_photo_ok == lib.same_photo_ok
            &&& u.renamed is None ==> after.identities == lib.identities
            &&& u.renamed matches Some(r) ==> after.identities[k] == (IdentityView {
                id: lib.identities[k].id,
                name: if lib.identities[k].id == r.0 {
                    r.1
                } else {
                    lib.identities[k].name
                },
            })
            &&& after.photos == lib.photos
            &&& after.faces.len() == lib.faces.len()
        }),
{
    if let Some(p) = u.added_cannot_link {
        assert forall|q: (i64, i64)| #[trigger] undone(lib, u).cannot_link.contains(q)
            <==> lib.cannot_link.contains(q) && q != (p.0, p.1) && q != (p.1, p.0) || (
        lib.cannot_link.contains(q) && q.0 > q.1) by {
            law_pairs_are_kept(lib.cannot_link, p.0, p.1, q);
        }
    }
}

/// **Naming a cluster names its person.** Its free faces and guesses become the person's, those that
/// carry the person are vouched for, and a face confirmed as someone else is untouched.
pub proof fn law_named_cluster_is_a_person(lib: LibraryView, cluster: i64, name: Seq<char>, i: int)
    requires
        lib.wf(),
        lib.last_identity() < i64::MAX,
        name.len() > 0,
        0 <= i < lib.faces.len(),
    ensures
        ({
            let after = cluster_renamed(lib, cluster, name);
            let id = cluster_identity(lib, cluster);
            let (was, now) = (lib.faces[i], after.faces[i]);
            let other = was.marks.confirmed && was.marks.identity_id is Some
                && was.marks.identity_id != Some(id);
            &&& was.marks.cluster_id == Some(cluster) && !other ==> now.marks.identity_id == Some(
                id,
            ) && now.marks.confirmed
            &&& was.marks.cluster_id != Some(cluster) || other ==> now == was
            &&& now.marks.cluster_id == was.marks.cluster_id
            &&& exists|k: int|
                0 <= k < after.cluster_names.len() && #[trigger] after.cluster_names[k] == (
                    cluster,
                    name,
                )
            &&& forall|k: int|
                0 <= k < after.identities.len() && (#[trigger] after.identities[k]).id == id
                    ==> after.identities[k].name == Some(name)
        }),
{
    let id = cluster_identity(lib, cluster);
    let names = LibraryView {
        cluster_names: cluster_named(lib.cluster_names, cluster, name),
        ..lib
    };
    let held = ensured(names, cluster);
    let after = cluster_renamed(lib, cluster, name);
    assert(held.faces[i] == marked(bind_cluster(cluster, id))(lib.faces[i]));
    assert(after.faces[i] == marked(confirm_bound(cluster, id))(held.faces[i]));
    law_cluster_names_are_set(lib.cluster_names, cluster, name, 0);
    let now_named = cluster_named(lib.cluster_names, cluster, name);
    let j = choose|j: int| 0 <= j < now_named.len() && (#[trigger] now_named[j]) == (cluster, name);
    assert(after.cluster_names == now_named);
    assert(after.cluster_names[j] == (cluster, name));
    assert(cluster_identity(names, cluster) == id);
    assert(after.identities == held.identities.map_values(renamed(id, Some(name))));
}

/// **Of cluster names listed twice, the later holds.**
pub proof fn law_later_cluster_names_hold(names: Seq<(i64, Seq<char>)>, cluster: i64, name: Seq<char>)
    ensures
        all_named(names.push((cluster, name))) == cluster_named(all_named(names), cluster, name),
        all_named(Seq::empty()).len() == 0,
{
    assert(names.push((cluster, name)).drop_last() =~= names);
}

/// **A cover is cut out, scaled to a square of 256 pixels, and packed.**
pub proof fn law_covers(p: PixelsView, b: FaceBox)
    ensures
        ({
            let (x, y, w, h) = crop_rect(b, p.width as int, p.height as int);
            let r = Rect { x: x as u32, y: y as u32, width: w as u32, height: h as u32 };
            face_jpeg(p, b) == jpeg(resampled(cropped(p, r), 256, 256), 85)
        }),
        forall|bytes: Seq<u8>| #[trigger]
            is_jpeg(bytes) <==> bytes.len() >= 2 && bytes[0] == 255 && bytes[1] == 216,
{
}

/// **What the user is told.**
pub proof fn law_refusals()
    ensures
        Refusal::Stale.text() != Refusal::NameRequired.text(),
        Refusal::Stale.text() != Refusal::OtherPerson.text(),
        Refusal::NameRequired.text() != Refusal::OtherPerson.text(),
{
    reveal_strlit("stale suggestion: people were reorganized since it was shown");
    reveal_strlit("a name is required");
    reveal_strlit("that group already belongs to another named person");
    assert(Refusal::Stale.text().len() == 60);
    assert(Refusal::NameRequired.text().len() == 18);
    assert(Refusal::OtherPerson.text().len() == 50);
}

} // verus!
