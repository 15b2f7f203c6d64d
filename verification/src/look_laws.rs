//! What the looks of a person are, said of their faces.

use vstd::prelude::*;

use crate::confirmations::{anchor, by_score, exemplar};
use crate::groups::{chronicle, PersonFaceView};
use crate::hit_laws::is_confirmed;
use crate::library::{FaceView, LibraryView};
use crate::listing_laws::{
    law_counting_counts, law_keeping_keeps_the_order, law_picking_keeps_the_order,
    law_ranking_loses_nothing, lemma_limited, lemma_select_tally,
};
use crate::names::named;
use crate::order::{arranged, limited};
use crate::person_looks::{
    ascending, biggest_first, by_look_photos, centroid_of, cover, earliest, flaggable,
    flagged_as, is_flagged, is_genuine, latest, look_faces, look_of, look_photos, looks_of,
    mistaken, others_of, photo_of_face, strip, OtherView, PersonLookView,
};
use crate::rows::{distinct, kept, lemma_distinct, lemma_kept_len, lemma_select_len, select};
use crate::similarity::dot;

verus! {

proof fn lemma_dates(fs: Seq<PersonFaceView>, n: nat)
    requires
        1 <= n <= fs.len(),
    ensures
        forall|k: int| 0 <= k < n ==> earliest(fs, n) <= (#[trigger] fs[k]).ts <= latest(fs, n),
        exists|k: int| 0 <= k < n && (#[trigger] fs[k]).ts == earliest(fs, n),
        exists|k: int| 0 <= k < n && (#[trigger] fs[k]).ts == latest(fs, n),
        0 <= cover(fs, n) < n,
        forall|k: int| 0 <= k < n ==> (#[trigger] fs[k]).score <= fs[cover(fs, n)].score,
    decreases n,
{
    if n > 1 {
        lemma_dates(fs, (n - 1) as nat);
        let a = choose|k: int|
            0 <= k < n - 1 && (#[trigger] fs[k]).ts == earliest(fs, (n - 1) as nat);
        let b = choose|k: int|
            0 <= k < n - 1 && (#[trigger] fs[k]).ts == latest(fs, (n - 1) as nat);
        if earliest(fs, n) == fs[n - 1].ts {
            assert(fs[n - 1].ts == earliest(fs, n));
        } else {
            assert(fs[a].ts == earliest(fs, n));
        }
        if latest(fs, n) == fs[n - 1].ts {
            assert(fs[n - 1].ts == latest(fs, n));
        } else {
            assert(fs[b].ts == latest(fs, n));
        }
    } else {
        assert(fs[0].ts == earliest(fs, n) && fs[0].ts == latest(fs, n));
    }
}

/// **A look tells its photos, its dates and its best face.** Its photos are those of its faces,
/// each once and in the order of their ids, and are counted; it runs from the earliest to the
/// latest of its faces; its cover is the face with the highest score.
pub proof fn law_look_tells_its_photos(
    faces: Seq<PersonFaceView>,
    others: Seq<OtherView>,
    own: Seq<i32>,
    g: Seq<usize>,
)
    requires
        0 < g.len() <= i64::MAX,
        g.len() <= usize::MAX,
        look_of(faces, others, own)(g) is Some,
    ensures
        ({
            let l = look_of(faces, others, own)(g)->0;
            &&& l.photos == l.photo_ids.len()
            &&& forall|id: i64| #[trigger]
                l.photo_ids.contains(id) <==> exists|k: int|
                    0 <= k < g.len() && faces[(#[trigger] g[k]) as int].photo_id == id
            &&& forall|p: int, q: int|
                0 <= p < q < l.photo_ids.len() ==> #[trigger] l.photo_ids[p]
                    < #[trigger] l.photo_ids[q]
            &&& forall|k: int|
                0 <= k < g.len() ==> l.from_ts <= faces[(#[trigger] g[k]) as int].ts <= l.to_ts
            &&& exists|k: int| 0 <= k < g.len() && faces[(#[trigger] g[k]) as int].ts == l.from_ts
            &&& exists|k: int| 0 <= k < g.len() && faces[(#[trigger] g[k]) as int].ts == l.to_ts
            &&& exists|k: int|
                0 <= k < g.len() && faces[(#[trigger] g[k]) as int].face_id == l.cover_face_id
                    && forall|j: int|
                    0 <= j < g.len() ==> faces[(#[trigger] g[j]) as int].score
                        <= faces[g[k] as int].score
            &&& l.likely_other_name is None ==> l.photos >= 10
        }),
{
    let fs = look_faces(faces, g);
    let l = look_of(faces, others, own)(g)->0;
    assert(fs.len() == g.len());
    lemma_dates(fs, fs.len());
    let raw = fs.map_values(photo_of_face());
    let ids = distinct(raw);
    lemma_distinct(raw);
    let keys = ids.map_values(ascending());
    let from = law_ranking_loses_nothing(ids, keys);
    assert(l.photo_ids == arranged(ids, keys));
    assert forall|id: i64| #[trigger] l.photo_ids.contains(id) <==> exists|k: int|
        0 <= k < g.len() && faces[(#[trigger] g[k]) as int].photo_id == id by {
        if l.photo_ids.contains(id) {
            let p = choose|p: int| 0 <= p < l.photo_ids.len() && l.photo_ids[p] == id;
            assert(ids[from[p]] == id);
            assert(ids.contains(id));
            assert(raw.contains(id));
            let k = choose|k: int| 0 <= k < raw.len() && raw[k] == id;
            assert(faces[g[k] as int].photo_id == id);
        }
        if exists|k: int| 0 <= k < g.len() && faces[(#[trigger] g[k]) as int].photo_id == id {
            let k = choose|k: int|
                0 <= k < g.len() && faces[(#[trigger] g[k]) as int].photo_id == id;
            assert(raw[k] == id);
            assert(raw.contains(id));
            assert(ids.contains(id));
            let q = choose|q: int| 0 <= q < ids.len() && ids[q] == id;
            assert(from.contains(q));
            let p = choose|p: int| 0 <= p < from.len() && from[p] == q;
            assert(l.photo_ids[p] == id);
        }
    }
    assert forall|p: int, q: int| 0 <= p < q < l.photo_ids.len() implies #[trigger] l.photo_ids[p]
        < #[trigger] l.photo_ids[q] by {
        let (x, y) = (keys[from[p]], keys[from[q]]);
        assert(x.0 >= y.0);
        assert(from[p] != from[q]);
        if from[p] < from[q] {
            assert(ids[from[p]] != ids[from[q]]);
        } else {
            assert(ids[from[q]] != ids[from[p]]);
        }
    }
    assert forall|k: int| 0 <= k < g.len() implies l.from_ts <= faces[(#[trigger] g[k]) as int].ts
        <= l.to_ts by {
        assert(fs[k] == faces[g[k] as int]);
    }
    let a = choose|k: int| 0 <= k < fs.len() && (#[trigger] fs[k]).ts == earliest(fs, fs.len());
    let b = choose|k: int| 0 <= k < fs.len() && (#[trigger] fs[k]).ts == latest(fs, fs.len());
    assert(faces[g[a] as int].ts == l.from_ts);
    assert(faces[g[b] as int].ts == l.to_ts);
    let c = cover(fs, fs.len());
    assert(faces[g[c] as int].face_id == l.cover_face_id);
    assert forall|j: int| 0 <= j < g.len() implies faces[(#[trigger] g[j]) as int].score
        <= faces[g[c] as int].score by {
        assert(fs[j].score <= fs[c].score);
    }
}

/// The look is clearly more like the other person than like its own: by at least one half, and
/// by more than 0.08 better.
pub open spec fn clearly_other(centroid: Seq<i32>, own: Seq<i32>, other: OtherView) -> bool {
    dot(centroid, other.anchor) >= 500_000_000_000 && dot(centroid, other.anchor) > dot(
        centroid,
        own,
    ) + 80_000_000_000
}

proof fn lemma_flag(others: Seq<OtherView>, centroid: Seq<i32>, own: Seq<i32>, n: nat)
    requires
        n <= others.len(),
    ensures
        flagged_as(others, centroid, own, n) is None ==> forall|k: int|
            0 <= k < n ==> !clearly_other(centroid, own, #[trigger] others[k]),
        flagged_as(others, centroid, own, n) matches Some(k) ==> 0 <= k < n && clearly_other(
            centroid,
            own,
            others[k],
        ) && forall|j: int|
            0 <= j < n && clearly_other(centroid, own, #[trigger] others[j]) ==> dot(
                centroid,
                others[j].anchor,
            ) <= dot(centroid, others[k].anchor),
    decreases n,
{
    if n > 0 {
        lemma_flag(others, centroid, own, (n - 1) as nat);
        assert(mistaken(centroid, own, others[n - 1].anchor) == clearly_other(
            centroid,
            own,
            others[n - 1],
        ));
    }
}

/// **A look is flagged as the other person it is most like.** It is flagged exactly if it is
/// clearly more like some other person; and then as the one it is most like, with their name
/// and the group to move it into.
pub proof fn law_look_is_flagged_as_the_likeliest(
    faces: Seq<PersonFaceView>,
    others: Seq<OtherView>,
    own: Seq<i32>,
    g: Seq<usize>,
)
    requires
        look_of(faces, others, own)(g) is Some,
    ensures
        ({
            let l = look_of(faces, others, own)(g)->0;
            let centroid = centroid_of(faces)(g);
            &&& l.likely_other_name is None ==> l.likely_other_cluster is None && forall|k: int|
                0 <= k < others.len() ==> !clearly_other(centroid, own, #[trigger] others[k])
            &&& l.likely_other_name is Some ==> exists|k: int|
                0 <= k < others.len() && clearly_other(centroid, own, #[trigger] others[k])
                    && l.likely_other_name == Some(others[k].name) && l.likely_other_cluster
                    == Some(others[k].group) && forall|j: int|
                    0 <= j < others.len() && clearly_other(centroid, own, #[trigger] others[j])
                        ==> dot(centroid, others[j].anchor) <= dot(centroid, others[k].anchor)
        }),
{
    lemma_flag(others, centroid_of(faces)(g), own, others.len());
}

/// **A look that can be shown is shown.** One of at least ten photos, or one that is clearly more
/// like another person, is kept.
pub proof fn law_looks_worth_keeping(
    faces: Seq<PersonFaceView>,
    others: Seq<OtherView>,
    own: Seq<i32>,
    g: Seq<usize>,
)
    ensures
        look_of(faces, others, own)(g) is Some <==> look_photos(look_faces(faces, g)).len() >= 10
            || exists|k: int|
            0 <= k < others.len() && clearly_other(
                centroid_of(faces)(g),
                own,
                #[trigger] others[k],
            ),
{
    lemma_flag(others, centroid_of(faces)(g), own, others.len());
}

/// **The strip shows the genuine looks first.** It holds nothing or at least two looks: at most
/// eight genuine ones, the biggest first, and then all that are flagged, the biggest first.
pub proof fn law_strip_shows_genuine_looks_first(looks: Seq<PersonLookView>) -> (n: int)
    requires
        looks.len() <= usize::MAX,
    ensures
        ({
            let s = strip(looks);
            &&& s.len() == 0 || s.len() >= 2
            &&& 0 <= n <= s.len() && n <= 8
            &&& forall|k: int| 0 <= k < n ==> (#[trigger] s[k]).likely_other_name is None
            &&& forall|k: int| n <= k < s.len() ==> (#[trigger] s[k]).likely_other_name is Some
            &&& forall|k: int, l: int|
                0 <= k < l < s.len() && (l < n || n <= k) ==> (#[trigger] s[k]).photos >= (
                #[trigger] s[l]).photos
            &&& forall|k: int| 0 <= k < s.len() ==> looks.contains(#[trigger] s[k])
            &&& s.len() > 0 ==> forall|l: PersonLookView|
                looks.contains(l) && l.likely_other_name is Some ==> #[trigger] s.contains(l)
            &&& s.len() > 0 && n < 8 ==> forall|l: PersonLookView|
                looks.contains(l) && l.likely_other_name is None ==> #[trigger] s.contains(l)
        }),
{
    let (good, bad) = (kept(looks, is_genuine()), kept(looks, is_flagged()));
    lemma_kept_len(looks, is_genuine());
    lemma_kept_len(looks, is_flagged());
    let (kg, kb) = (good.map_values(by_look_photos()), bad.map_values(by_look_photos()));
    let fg = law_ranking_loses_nothing(good, kg);
    let fb = law_ranking_loses_nothing(bad, kb);
    let front = limited(biggest_first(good), 8);
    lemma_limited(biggest_first(good), 8);
    let back = biggest_first(bad);
    let all = front + back;
    let s = strip(looks);
    let ag = law_keeping_keeps_the_order(looks, is_genuine());
    let ab = law_keeping_keeps_the_order(looks, is_flagged());
    if all.len() < 2 {
        0
    } else {
        let n = front.len() as int;
        assert forall|k: int| 0 <= k < n implies (#[trigger] s[k]).likely_other_name is None
            && looks.contains(s[k]) && s[k] == good[fg[k]] by {
            assert(s[k] == front[k]);
            assert(front[k] == good[fg[k]]);
            assert(is_genuine()(looks[ag[fg[k]]]) && looks[ag[fg[k]]] == good[fg[k]]);
        }
        assert forall|k: int| n <= k < s.len() implies (#[trigger] s[k]).likely_other_name is Some
            && looks.contains(s[k]) && s[k] == bad[fb[k - n]] by {
            assert(s[k] == back[k - n]);
            assert(back[k - n] == bad[fb[k - n]]);
            assert(is_flagged()(looks[ab[fb[k - n]]]) && looks[ab[fb[k - n]]] == bad[fb[k - n]]);
        }
        assert forall|k: int, l: int| 0 <= k < l < s.len() && (l < n || n <= k) implies (
        #[trigger] s[k]).photos >= (#[trigger] s[l]).photos by {
            if l < n {
                assert(s[k] == good[fg[k]] && s[l] == good[fg[l]]);
                assert(kg[fg[k]].0 >= kg[fg[l]].0);
            } else {
                assert(s[k] == bad[fb[k - n]] && s[l] == bad[fb[l - n]]);
                assert(kb[fb[k - n]].0 >= kb[fb[l - n]].0);
            }
        }
        assert forall|l: PersonLookView| looks.contains(l) && l.likely_other_name is Some implies
        #[trigger] s.contains(l) by {
            let i = choose|i: int| 0 <= i < looks.len() && looks[i] == l;
            assert(is_flagged()(looks[i]));
            assert(ab.contains(i));
            let p = choose|p: int| 0 <= p < ab.len() && ab[p] == i;
            assert(bad[p] == l);
            assert(fb.contains(p));
            let q = choose|q: int| 0 <= q < fb.len() && fb[q] == p;
            assert(s[n + q] == back[q]);
        }
        if n < 8 {
            assert forall|l: PersonLookView|
                looks.contains(l) && l.likely_other_name is None implies #[trigger] s.contains(l) by {
                let i = choose|i: int| 0 <= i < looks.len() && looks[i] == l;
                assert(is_genuine()(looks[i]));
                assert(ag.contains(i));
                let p = choose|p: int| 0 <= p < ag.len() && ag[p] == i;
                assert(good[p] == l);
                assert(fg.contains(p));
                let q = choose|q: int| 0 <= q < fg.len() && fg[q] == p;
                assert(s[q] == front[q]);
            }
        }
        n
    }
}

/// **Few faces make no strip.** A group with fewer than sixteen faces has no looks.
pub proof fn law_few_faces_make_no_strip(lib: LibraryView, group: i64)
    requires
        chronicle(lib, group).len() < 16,
    ensures
        looks_of(lib, group).len() == 0,
{
}

/// **Whom a look may be flagged as.** A named person other than its own, with at least four
/// confirmed faces, who was not declared different from its own person.
pub proof fn law_whom_a_look_may_be(lib: LibraryView, own: Option<i64>, n: int)
    requires
        lib.faces.len() <= usize::MAX,
        0 <= n < lib.identities.len(),
        lib.identities[n].name is Some,
        lib.wf(),
    ensures
        ({
            let id = lib.identities[n].id;
            let eligible = own != Some(id) && !(own matches Some(o) && (lib.cannot_link.contains(
                (o, id),
            ) && o <= id || lib.cannot_link.contains((id, o)) && id <= o)) && lib.faces.filter(
                |f: FaceView| is_confirmed(f, id),
            ).len() >= 4;
            &&& eligible ==> exists|k: int|
                0 <= k < others_of(lib, own).len() && (#[trigger] others_of(lib, own)[k]).group
                    == -id && Some(others_of(lib, own)[k].name) == lib.identities[n].name
            &&& !eligible ==> flaggable(lib, own)((id, lib.identities[n].name->0)) is None
        }),
{
    let id = lib.identities[n].id;
    assert(id >= 1);
    let names = select(lib.identities, named());
    let at = law_picking_keeps_the_order(lib.identities, named());
    assert(named()(lib.identities[n]) is Some);
    assert(at.contains(n));
    let k = choose|k: int| 0 <= k < at.len() && at[k] == n;
    assert(named()(lib.identities[at[k]]) == Some(names[k]));
    let all = select(lib.faces, exemplar(id));
    let sorted = arranged(all, all.map_values(by_score()));
    lemma_select_len(lib.faces, exemplar(id));
    let from = law_ranking_loses_nothing(all, all.map_values(by_score()));
    lemma_limited(sorted, 48);
    let g = |f: FaceView| is_confirmed(f, id);
    lemma_select_tally(lib.faces, exemplar(id), g);
    law_counting_counts(lib.faces, g);
    let places = law_picking_keeps_the_order(names, flaggable(lib, own));
    if flaggable(lib, own)(names[k]) is Some {
        assert(places.contains(k));
        let m = choose|m: int| 0 <= m < places.len() && places[m] == k;
        assert(flaggable(lib, own)(names[places[m]]) == Some(others_of(lib, own)[m]));
        assert(others_of(lib, own)[m].group == -id);
    }
}

} // verus!
