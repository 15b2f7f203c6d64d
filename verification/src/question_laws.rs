//! What a merge suggestion and a same-photo question say, said of the groups.

use vstd::prelude::*;

use crate::cluster::pair;
use crate::evidence::{all_evidence, clusters_of, corroborated, cross_pairs, units_of};
use crate::fold_laws::lemma_some_satisfy;
use crate::groups::{in_group, name_of_group};
use crate::hit_laws::faces_fit;
use crate::library::{lemma_counts_fit, FaceView, LibraryView};
use crate::links::{beside, cooccurring};
use crate::listing_laws::{
    law_counting_counts, law_picking_keeps_the_order, law_ranking_loses_nothing, lemma_limited,
};
use crate::merge_laws::{
    declared_apart, face_count, law_evidence_is_faces_alike, lemma_share, lemma_size,
    share_a_photo,
};
use crate::order::arranged;
use crate::photos::settled;
use crate::recognition::pool;
use crate::review::{ReviewItemView, TwinPairView};
use crate::rows::{
    lemma_distinct, lemma_select_contains, lemma_select_from, lemma_select_len,
    lemma_tally_bound, select,
};
use crate::similarity::{is_root, root};
use crate::suggestion_laws::law_suggestions_respect_answers;
use crate::suggestions::{
    by_twin_photos, closed_question, contradiction, declared_other, evidence_of, leverage,
    shown, sides, size_of, strongest_evidence, suggestion, suggestions_of, twin_card,
    twin_payoff, twin_photos, twins_in, twins_of,
};

verus! {

/// What the strongest evidence is drawn from.
pub proof fn lemma_strongest_from(lib: LibraryView, p: int) -> (k: int)
    requires
        evidence_of(lib).len() <= usize::MAX,
        0 <= p < strongest_evidence(lib).len(),
    ensures
        0 <= k < evidence_of(lib).len(),
        strongest_evidence(lib)[p] == evidence_of(lib)[k],
        face_count(lib, evidence_of(lib)[k].a) > 0,
        face_count(lib, evidence_of(lib)[k].b) > 0,
{
    let all = select(evidence_of(lib), shown(lib));
    let keys = all.map_values(leverage(lib));
    lemma_select_len(evidence_of(lib), shown(lib));
    let from = law_ranking_loses_nothing(all, keys);
    lemma_limited(arranged(all, keys), 20);
    lemma_select_from(evidence_of(lib), shown(lib), from[p]);
    let k = choose|k: int|
        0 <= k < evidence_of(lib).len() && shown(lib)(#[trigger] evidence_of(lib)[k]) == Some(
            all[from[p]],
        );
    lemma_size(lib, evidence_of(lib)[k].a);
    lemma_size(lib, evidence_of(lib)[k].b);
    k
}

proof fn lemma_sizes_fit(lib: LibraryView, group: i64)
    requires
        lib.wf(),
    ensures
        0 <= size_of(lib, group) <= i64::MAX,
{
    lemma_counts_fit(lib);
    lemma_tally_bound(lib.faces, in_group(group));
}

/// The user closed the question: both groups are named, or they were declared different.
pub open spec fn question_is_closed(lib: LibraryView, a: i64, b: i64) -> bool {
    (name_of_group(lib, a) is Some && name_of_group(lib, b) is Some) || declared_apart(lib, a, b)
}

proof fn lemma_closed(lib: LibraryView, a: i64, b: i64)
    requires
        a > i64::MIN,
        b > i64::MIN,
    ensures
        closed_question(lib, a, b) == question_is_closed(lib, a, b),
{
}

/// **A suggestion folds the smaller group into the larger.** The group to merge into holds at
/// least as many faces as the one to merge from, which is another one and not empty; the
/// payoff is the number of faces that move, and the name shown is that of the larger group.
pub proof fn law_suggestion_folds_small_into_large(lib: LibraryView, i: int)
    requires
        lib.wf(),
        faces_fit(lib.faces),
        evidence_of(lib).len() <= usize::MAX,
        0 <= i < suggestions_of(lib).len(),
    ensures
        ({
            let s = suggestions_of(lib)[i];
            &&& s.into != s.from
            &&& face_count(lib, s.into) >= face_count(lib, s.from) >= 1
            &&& s.photos == face_count(lib, s.from)
            &&& s.into_name == name_of_group(lib, s.into)
        }),
{
    let all = strongest_evidence(lib);
    lemma_select_from(all, suggestion(lib), i);
    let p = choose|p: int|
        0 <= p < all.len() && suggestion(lib)(#[trigger] all[p]) == Some(suggestions_of(lib)[i]);
    let k = lemma_strongest_from(lib, p);
    let backing = law_evidence_is_faces_alike(lib, k);
    let e = evidence_of(lib)[k];
    lemma_size(lib, e.a);
    lemma_size(lib, e.b);
    lemma_sizes_fit(lib, e.a);
    lemma_sizes_fit(lib, e.b);
}

/// **A suggestion asks what is open.** It never joins two named persons, nor persons the user
/// declared different, nor groups that some photo shows together; and its faces look alike by
/// at least 0.45.
pub proof fn law_suggestion_asks_what_is_open(lib: LibraryView, i: int)
    requires
        faces_fit(lib.faces),
        evidence_of(lib).len() <= usize::MAX,
        0 <= i < suggestions_of(lib).len(),
    ensures
        ({
            let s = suggestions_of(lib)[i];
            &&& settled(lib)
            &&& name_of_group(lib, s.into) is None || name_of_group(lib, s.from) is None
            &&& !declared_apart(lib, s.into, s.from)
            &&& !share_a_photo(lib, s.into, s.from)
            &&& s.similarity >= 450_000_000_000
        }),
{
    law_suggestions_respect_answers(lib, i);
    let s = suggestions_of(lib)[i];
    lemma_share(lib, s.into, s.from);
    let all = strongest_evidence(lib);
    lemma_select_from(all, suggestion(lib), i);
    let p = choose|p: int|
        0 <= p < all.len() && suggestion(lib)(#[trigger] all[p]) == Some(suggestions_of(lib)[i]);
    let k = lemma_strongest_from(lib, p);
    let backing = law_evidence_is_faces_alike(lib, k);
    assert(450_000_000_000 <= evidence_of(lib)[k].max_sim) by {
        let (x, y) = backing[0];
    }
    if declared_apart(lib, s.into, s.from) {
        assert(declared_other(lib, s.into, s.from));
    }
}

/// **Every open pair of groups is brought up.** In a settled library with no more than twenty
/// pairs of groups that look alike, each pair is suggested, the larger group first; unless
/// the question is closed or a photo shows both.
pub proof fn law_open_pair_is_suggested(lib: LibraryView, k: int) -> (i: int)
    requires
        lib.wf(),
        faces_fit(lib.faces),
        settled(lib),
        evidence_of(lib).len() <= 20,
        0 <= k < evidence_of(lib).len(),
        evidence_of(lib)[k].a > i64::MIN,
        !question_is_closed(lib, evidence_of(lib)[k].a, evidence_of(lib)[k].b),
        !share_a_photo(lib, evidence_of(lib)[k].a, evidence_of(lib)[k].b),
    ensures
        ({
            let (e, s) = (evidence_of(lib)[k], suggestions_of(lib)[i]);
            &&& 0 <= i < suggestions_of(lib).len()
            &&& (s.into == e.a && s.from == e.b) || (s.into == e.b && s.from == e.a)
            &&& s.similarity == e.max_sim
        }),
{
    let e = evidence_of(lib)[k];
    let p = lemma_in_strongest(lib, k);
    lemma_share(lib, e.a, e.b);
    lemma_share(lib, e.b, e.a);
    let backing = law_evidence_is_faces_alike(lib, k);
    lemma_closed(lib, e.a, e.b);
    assert(closed_question(lib, e.b, e.a) == closed_question(lib, e.a, e.b));
    assert(suggestion(lib)(strongest_evidence(lib)[p]) is Some);
    lemma_select_contains(strongest_evidence(lib), suggestion(lib), p);
    let s = suggestion(lib)(strongest_evidence(lib)[p])->0;
    choose|i: int| 0 <= i < suggestions_of(lib).len() && suggestions_of(lib)[i] == s
}

/// Evidence between groups that hold faces is among the strongest, where there is not much.
proof fn lemma_in_strongest(lib: LibraryView, k: int) -> (p: int)
    requires
        faces_fit(lib.faces),
        evidence_of(lib).len() <= 20,
        0 <= k < evidence_of(lib).len(),
    ensures
        0 <= p < strongest_evidence(lib).len(),
        strongest_evidence(lib)[p] == evidence_of(lib)[k],
{
    let e = evidence_of(lib)[k];
    let backing = law_evidence_is_faces_alike(lib, k);
    lemma_size(lib, e.a);
    lemma_size(lib, e.b);
    let (x, y) = backing[0];
    lemma_counts_face(lib, x);
    lemma_counts_face(lib, y);
    let all = select(evidence_of(lib), shown(lib));
    let keys = all.map_values(leverage(lib));
    lemma_select_len(evidence_of(lib), shown(lib));
    let from = law_ranking_loses_nothing(all, keys);
    lemma_limited(arranged(all, keys), 20);
    assert(shown(lib)(e) == Some(e));
    lemma_select_contains(evidence_of(lib), shown(lib), k);
    let q = choose|q: int| 0 <= q < all.len() && all[q] == e;
    assert(from.contains(q));
    choose|p: int| 0 <= p < from.len() && from[p] == q
}

proof fn lemma_counts_face(lib: LibraryView, i: int)
    requires
        0 <= i < lib.faces.len(),
        lib.faces[i].marks.group() is Some,
    ensures
        face_count(lib, lib.faces[i].marks.group()->0) > 0,
{
    let g = lib.faces[i].marks.group()->0;
    let test = |f: FaceView| f.marks.group() == Some(g);
    lemma_some_satisfy(lib.faces, test);
    law_counting_counts(lib.faces, test);
    assert(test(lib.faces[i]));
}

/// **Stronger evidence comes first.** Of two pairs of groups that are brought up, the later one
/// is not at once more alike, backed by as many faces, and between groups as large.
pub proof fn law_stronger_evidence_comes_first(lib: LibraryView, p: int, q: int)
    requires
        faces_fit(lib.faces),
        evidence_of(lib).len() <= usize::MAX,
        0 <= p < q < strongest_evidence(lib).len(),
        ({
            let f = strongest_evidence(lib)[q];
            &&& f.max_sim * f.pairs < i128::MAX
            &&& (f.max_sim * f.pairs) * (face_count(lib, f.a) + face_count(lib, f.b)) * 1_000_000
                < i128::MAX
        }),
    ensures
        ({
            let (e, f) = (strongest_evidence(lib)[p], strongest_evidence(lib)[q]);
            !(f.max_sim > e.max_sim && f.pairs >= e.pairs && face_count(lib, f.a) + face_count(
                lib,
                f.b,
            ) >= face_count(lib, e.a) + face_count(lib, e.b))
        }),
        strongest_evidence(lib).len() <= 20,
{
    let all = select(evidence_of(lib), shown(lib));
    let keys = all.map_values(leverage(lib));
    lemma_select_len(evidence_of(lib), shown(lib));
    let from = law_ranking_loses_nothing(all, keys);
    lemma_limited(arranged(all, keys), 20);
    let (e, f) = (strongest_evidence(lib)[p], strongest_evidence(lib)[q]);
    assert(e == all[from[p]] && f == all[from[q]]);
    assert(keys[from[p]].0 >= keys[from[q]].0);
    let ke = lemma_strongest_from(lib, p);
    let kf = lemma_strongest_from(lib, q);
    lemma_size(lib, e.a);
    lemma_size(lib, e.b);
    lemma_size(lib, f.a);
    lemma_size(lib, f.b);
    if f.max_sim > e.max_sim && f.pairs >= e.pairs && face_count(lib, f.a) + face_count(lib, f.b)
        >= face_count(lib, e.a) + face_count(lib, e.b) {
        let be = law_evidence_is_faces_alike(lib, ke);
        let bf = law_evidence_is_faces_alike(lib, kf);
        let (x, y) = be[0];
        let (u, v) = bf[0];
        let (ne, nf) = (size_of(lib, e.a) + size_of(lib, e.b), size_of(lib, f.a) + size_of(
            lib,
            f.b,
        ));
        let (re, rf) = (root(ne * 1_000_000), root(nf * 1_000_000));
        lemma_root_exists(ne * 1_000_000);
        lemma_root_exists(nf * 1_000_000);
        lemma_root_grows(ne * 1_000_000, nf * 1_000_000);
        crate::question_laws::lemma_pairs_positive(lib, ke);
        crate::question_laws::lemma_pairs_positive(lib, kf);
        let (se, sf) = (e.max_sim * e.pairs, f.max_sim * f.pairs);
        assert(0 < se < sf) by (nonlinear_arith)
            requires
                0 < e.max_sim < f.max_sim,
                0 < e.pairs <= f.pairs,
                se == e.max_sim * e.pairs,
                sf == f.max_sim * f.pairs,
        ;
        assert(rf > 0 && rf <= nf * 1_000_000) by (nonlinear_arith)
            requires
                0 <= rf,
                rf * rf <= nf * 1_000_000 < (rf + 1) * (rf + 1),
                nf >= 1,
        ;
        assert(se * re < sf * rf) by (nonlinear_arith)
            requires
                0 < se < sf,
                0 <= re <= rf,
                rf > 0,
        ;
        assert(sf * rf <= sf * (nf * 1_000_000)) by (nonlinear_arith)
            requires
                0 < sf,
                rf <= nf * 1_000_000,
        ;
        assert(sf * (nf * 1_000_000) == sf * nf * 1_000_000) by (nonlinear_arith);
    }
}

/// Evidence is backed by some pair.
pub proof fn lemma_pairs_positive(lib: LibraryView, k: int)
    requires
        0 <= k < evidence_of(lib).len(),
    ensures
        evidence_of(lib)[k].pairs >= 3,
{
    let all = all_evidence(
        cross_pairs(
            units_of(pool(lib)),
            clusters_of(pool(lib)),
            pool(lib).len(),
        ),
    );
    lemma_select_from(all, corroborated(), k);
}

pub proof fn lemma_root_exists(x: int)
    requires
        0 <= x,
    ensures
        is_root(x, root(x)),
{
    lemma_root_upto(x, 0);
}

proof fn lemma_root_upto(x: int, r: int)
    requires
        0 <= r,
        r * r <= x,
    ensures
        is_root(x, root(x)),
    decreases x - r * r,
{
    if x < (r + 1) * (r + 1) {
        assert(is_root(x, r));
    } else {
        assert((r + 1) * (r + 1) > r * r) by (nonlinear_arith)
            requires
                0 <= r,
        ;
        lemma_root_upto(x, r + 1);
    }
}

pub proof fn lemma_root_grows(x: int, y: int)
    requires
        0 <= x <= y,
        is_root(x, root(x)),
        is_root(y, root(y)),
    ensures
        root(x) <= root(y),
{
    let (a, b) = (root(x), root(y));
    if a > b {
        assert((b + 1) * (b + 1) <= a * a) by (nonlinear_arith)
            requires
                0 <= b < a,
        ;
    }
}

/// The triple names a photo, a face of the first group among the first `n` faces, and a face
/// of the second group, both in the photo.
pub open spec fn side_by_side(
    faces: Seq<FaceView>,
    a: i64,
    b: i64,
    n: nat,
    c: (i64, i64, i64),
) -> bool {
    exists|i: int, j: int|
        0 <= i < n && 0 <= j < faces.len() && (#[trigger] faces[i]).marks.group() == Some(a) && (
        #[trigger] faces[j]).marks.group() == Some(b) && faces[i].photo_id == c.0
            && faces[j].photo_id == c.0 && faces[i].id == c.1 && faces[j].id == c.2
}

/// The faces of two groups that share a photo.
proof fn lemma_cooccurring(faces: Seq<FaceView>, a: i64, b: i64, n: nat)
    requires
        n <= faces.len(),
    ensures
        forall|c: (i64, i64, i64)| #[trigger]
            cooccurring(faces, a, b, n).contains(c) <==> side_by_side(faces, a, b, n, c),
    decreases n,
{
    let now = cooccurring(faces, a, b, n);
    if n > 0 {
        let f = faces[n - 1];
        let earlier = cooccurring(faces, a, b, (n - 1) as nat);
        lemma_cooccurring(faces, a, b, (n - 1) as nat);
        let more = select(faces, beside(f, b));
        assert forall|c: (i64, i64, i64)| #[trigger] now.contains(c) <==> side_by_side(
            faces,
            a,
            b,
            n,
            c,
        ) by {
            if now.contains(c) {
                let p = choose|p: int| 0 <= p < now.len() && now[p] == c;
                if p < earlier.len() {
                    assert(earlier[p] == c);
                    assert(earlier.contains(c));
                } else {
                    let q = p - earlier.len();
                    assert(now[p] == more[q]);
                    lemma_select_from(faces, beside(f, b), q);
                    let j = choose|j: int|
                        0 <= j < faces.len() && beside(f, b)(#[trigger] faces[j]) == Some(more[q]);
                    assert(faces[n - 1].marks.group() == Some(a) && faces[j].marks.group() == Some(
                        b,
                    ));
                }
            }
            if side_by_side(faces, a, b, n, c) {
                let (i, j) = choose|i: int, j: int|
                    0 <= i < n && 0 <= j < faces.len() && (#[trigger] faces[i]).marks.group()
                        == Some(a) && (#[trigger] faces[j]).marks.group() == Some(b)
                        && faces[i].photo_id == c.0 && faces[j].photo_id == c.0 && faces[i].id
                        == c.1 && faces[j].id == c.2;
                if i < n - 1 {
                    assert(side_by_side(faces, a, b, (n - 1) as nat, c));
                    assert(earlier.contains(c));
                    let p = choose|p: int| 0 <= p < earlier.len() && earlier[p] == c;
                    assert(now[p] == c);
                } else {
                    lemma_select_contains(faces, beside(f, b), j);
                    assert(more.contains(c));
                    let q = choose|q: int| 0 <= q < more.len() && more[q] == c;
                    assert(now[earlier.len() + q] == c);
                }
            }
        }
    }
}

/// **Side-by-side faces are listed.** The pairs of faces of two groups in one photo are just
/// those there are: the photo, the face of the first group and the face of the second.
pub proof fn law_side_by_side_faces_are_listed(lib: LibraryView, a: i64, b: i64, c: (i64, i64, i64))
    ensures
        cooccurring(lib.faces, a, b, lib.faces.len()).contains(c) <==> exists|i: int, j: int|
            0 <= i < lib.faces.len() && 0 <= j < lib.faces.len() && (
            #[trigger] lib.faces[i]).marks.group() == Some(a) && (
            #[trigger] lib.faces[j]).marks.group() == Some(b) && lib.faces[i].photo_id == c.0
                && lib.faces[j].photo_id == c.0 && lib.faces[i].id == c.1 && lib.faces[j].id == c.2,
{
    lemma_cooccurring(lib.faces, a, b, lib.faces.len());
}

/// A contested pair says what it shows: the larger group and the smaller, with a face of each
/// in the photo, at least 0.7 alike, and a question that is still open.
pub open spec fn is_contested_pair(lib: LibraryView, photo: i64, t: TwinPairView) -> bool {
    &&& t.into != t.from
    &&& face_count(lib, t.into) >= face_count(lib, t.from) >= 1
    &&& t.photos == face_count(lib, t.from)
    &&& t.into_name == name_of_group(lib, t.into)
    &&& t.similarity >= 700_000_000_000
    &&& name_of_group(lib, t.into) is None || name_of_group(lib, t.from) is None
    &&& !declared_apart(lib, t.into, t.from)
    &&& exists|i: int, j: int|
        0 <= i < lib.faces.len() && 0 <= j < lib.faces.len() && (
        #[trigger] lib.faces[i]).marks.group() == Some(t.into) && (
        #[trigger] lib.faces[j]).marks.group() == Some(t.from) && lib.faces[i].photo_id == photo
            && lib.faces[j].photo_id == photo && lib.faces[i].id == t.face_a && lib.faces[j].id
            == t.face_b
}

proof fn lemma_contested(lib: LibraryView, p: int)
    requires
        lib.wf(),
        faces_fit(lib.faces),
        evidence_of(lib).len() <= usize::MAX,
        0 <= p < select(strongest_evidence(lib), contradiction(lib)).len(),
    ensures
        ({
            let (photo, t) = select(strongest_evidence(lib), contradiction(lib))[p];
            is_contested_pair(lib, photo, t)
        }),
{
    let all = strongest_evidence(lib);
    let pairs = select(all, contradiction(lib));
    lemma_select_from(all, contradiction(lib), p);
    let q = choose|q: int|
        0 <= q < all.len() && contradiction(lib)(#[trigger] all[q]) == Some(pairs[p]);
    let k = lemma_strongest_from(lib, q);
    let backing = law_evidence_is_faces_alike(lib, k);
    let e = evidence_of(lib)[k];
    lemma_size(lib, e.a);
    lemma_size(lib, e.b);
    lemma_sizes_fit(lib, e.a);
    lemma_sizes_fit(lib, e.b);
    let (big, small) = sides(lib, e);
    let listed = cooccurring(lib.faces, big, small, lib.faces.len());
    lemma_cooccurring(lib.faces, big, small, lib.faces.len());
    let c = listed[0];
    assert(listed.contains(c));
    let (i, j) = choose|i: int, j: int|
        0 <= i < lib.faces.len() && 0 <= j < lib.faces.len() && (
        #[trigger] lib.faces[i]).marks.group() == Some(big) && (
        #[trigger] lib.faces[j]).marks.group() == Some(small) && lib.faces[i].photo_id == c.0
            && lib.faces[j].photo_id == c.0 && lib.faces[i].id == c.1 && lib.faces[j].id == c.2;
    assert(lib.faces[i].id == pairs[p].1.face_a);
    if declared_apart(lib, big, small) {
        assert(declared_other(lib, big, small));
    }
}

/// **A same-photo card asks about that photo.** Each of its pairs shows a face of either group
/// in the photo, the smaller group to be folded into the larger; the pairs with the biggest
/// payoff come first, and the card's payoff is theirs together.
pub proof fn law_same_photo_card_asks_about_its_photo(lib: LibraryView, k: int)
    requires
        lib.wf(),
        faces_fit(lib.faces),
        evidence_of(lib).len() <= usize::MAX,
        0 <= k < twins_of(lib).len(),
    ensures
        twins_of(lib)[k] matches ReviewItemView::SamePhotoTwin { photos, photo_id, pairs } && {
            &&& pairs.len() > 0
            &&& forall|p: int|
                0 <= p < pairs.len() ==> is_contested_pair(lib, photo_id, #[trigger] pairs[p])
            &&& forall|p: int, q: int|
                0 <= p < q < pairs.len() ==> (#[trigger] pairs[p]).photos >= (
                #[trigger] pairs[q]).photos
            &&& pairs.len() == 1 ==> photos == pairs[0].photos
        },
        forall|j: int|
            0 <= j < twins_of(lib).len() && j != k ==> (#[trigger] twins_of(
                lib,
            )[j])->SamePhotoTwin_photo_id != twins_of(lib)[k]->SamePhotoTwin_photo_id,
{
    let all = select(strongest_evidence(lib), contradiction(lib));
    let photo = twin_photos(all)[k];
    let on = select(all, twins_in(photo));
    let keys = on.map_values(by_twin_photos());
    lemma_select_len(strongest_evidence(lib), contradiction(lib));
    lemma_limited(
        arranged(
            select(evidence_of(lib), shown(lib)),
            select(evidence_of(lib), shown(lib)).map_values(leverage(lib)),
        ),
        20,
    );
    lemma_select_len(all, twins_in(photo));
    let from = law_ranking_loses_nothing(on, keys);
    let sorted = arranged(on, keys);
    let places = law_picking_keeps_the_order(all, twins_in(photo));
    let photos_listed = all.map_values(|p: (i64, TwinPairView)| p.0);
    lemma_distinct(photos_listed);
    assert(twin_photos(all).contains(photo));
    assert(photos_listed.contains(photo));
    let w = choose|w: int| 0 <= w < photos_listed.len() && photos_listed[w] == photo;
    assert(twins_in(photo)(all[w]) is Some);
    assert(places.contains(w));
    assert forall|p: int| 0 <= p < sorted.len() implies is_contested_pair(
        lib,
        photo,
        #[trigger] sorted[p],
    ) by {
        assert(sorted[p] == on[from[p]]);
        assert(twins_in(photo)(all[places[from[p]]]) == Some(on[from[p]]));
        lemma_contested(lib, places[from[p]]);
    }
    assert forall|p: int, q: int| 0 <= p < q < sorted.len() implies (#[trigger] sorted[p]).photos
        >= (#[trigger] sorted[q]).photos by {
        assert(sorted[p] == on[from[p]] && sorted[q] == on[from[q]]);
        assert(keys[from[p]].0 >= keys[from[q]].0);
    }
    if sorted.len() == 1 {
        assert(sorted.drop_last() =~= Seq::empty());
        reveal_with_fuel(twin_payoff, 2);
    }
    assert forall|j: int| 0 <= j < twins_of(lib).len() && j != k implies (#[trigger] twins_of(
        lib,
    )[j])->SamePhotoTwin_photo_id != twins_of(lib)[k]->SamePhotoTwin_photo_id by {
        if j < k {
            assert(twin_photos(all)[j] != twin_photos(all)[k]);
        } else {
            assert(twin_photos(all)[k] != twin_photos(all)[j]);
        }
    }
}

/// **The payoff of a card is that of its pairs together.** One more pair adds its own, as long
/// as the sum can be counted.
pub proof fn law_payoffs_add_up(pairs: Seq<TwinPairView>, t: TwinPairView)
    requires
        0 <= t.photos,
        0 <= twin_payoff(pairs),
        twin_payoff(pairs) + t.photos <= i64::MAX,
    ensures
        twin_payoff(pairs.push(t)) == twin_payoff(pairs) + t.photos,
        twin_payoff(Seq::empty()) == 0,
{
    assert(pairs.push(t).drop_last() =~= pairs);
}

/// One of the contested pairs is that of the two groups.
pub open spec fn asks_about(pairs: Seq<TwinPairView>, a: i64, b: i64) -> bool {
    exists|p: int|
        0 <= p < pairs.len() && (((#[trigger] pairs[p]).into == a && pairs[p].from == b)
            || (pairs[p].into == b && pairs[p].from == a))
}

/// **A look-alike in one photo is asked about.** In a settled library with no more than twenty
/// pairs of groups that look alike, a pair at least 0.7 alike that some photo shows together,
/// whose question is open and whose smaller group is nobody named, is on the card of a photo.
pub proof fn law_look_alikes_in_one_photo_are_asked_about(lib: LibraryView, k: int) -> (w: int)
    requires
        lib.wf(),
        faces_fit(lib.faces),
        settled(lib),
        evidence_of(lib).len() <= 20,
        0 <= k < evidence_of(lib).len(),
        evidence_of(lib)[k].a > i64::MIN,
        evidence_of(lib)[k].max_sim >= 700_000_000_000,
        !question_is_closed(lib, evidence_of(lib)[k].a, evidence_of(lib)[k].b),
        share_a_photo(lib, evidence_of(lib)[k].a, evidence_of(lib)[k].b),
        name_of_group(lib, evidence_of(lib)[k].a) is None,
        name_of_group(lib, evidence_of(lib)[k].b) is None,
    ensures
        ({
            let e = evidence_of(lib)[k];
            &&& 0 <= w < twins_of(lib).len()
            &&& twins_of(lib)[w] matches ReviewItemView::SamePhotoTwin { pairs, .. } && asks_about(
                pairs,
                e.a,
                e.b,
            )
        }),
{
    let e = evidence_of(lib)[k];
    let q = lemma_in_strongest(lib, k);
    lemma_share(lib, e.a, e.b);
    let backing = law_evidence_is_faces_alike(lib, k);
    lemma_closed(lib, e.a, e.b);
    assert(closed_question(lib, e.b, e.a) == closed_question(lib, e.a, e.b));
    let (big, small) = sides(lib, e);
    let listed = cooccurring(lib.faces, big, small, lib.faces.len());
    lemma_cooccurring(lib.faces, big, small, lib.faces.len());
    let (i, j) = choose|i: int, j: int|
        0 <= i < lib.faces.len() && 0 <= j < lib.faces.len() && (
        #[trigger] lib.faces[i]).marks.group() == Some(e.a) && (
        #[trigger] lib.faces[j]).marks.group() == Some(e.b) && lib.faces[i].photo_id
            == lib.faces[j].photo_id;
    if big == e.a {
        assert(side_by_side(
            lib.faces,
            big,
            small,
            lib.faces.len(),
            (lib.faces[i].photo_id, lib.faces[i].id, lib.faces[j].id),
        ));
        assert(listed.contains((lib.faces[i].photo_id, lib.faces[i].id, lib.faces[j].id)));
    } else {
        assert(side_by_side(
            lib.faces,
            big,
            small,
            lib.faces.len(),
            (lib.faces[j].photo_id, lib.faces[j].id, lib.faces[i].id),
        ));
        assert(listed.contains((lib.faces[j].photo_id, lib.faces[j].id, lib.faces[i].id)));
    }
    let all = select(strongest_evidence(lib), contradiction(lib));
    let t = contradiction(lib)(strongest_evidence(lib)[q]);
    assert(t is Some);
    lemma_select_contains(strongest_evidence(lib), contradiction(lib), q);
    let n = choose|n: int| 0 <= n < all.len() && all[n] == t->0;
    let photo = all[n].0;
    let photos_listed = all.map_values(|p: (i64, TwinPairView)| p.0);
    lemma_distinct(photos_listed);
    assert(photos_listed[n] == photo);
    assert(twin_photos(all).contains(photo));
    let w = choose|w: int| 0 <= w < twin_photos(all).len() && twin_photos(all)[w] == photo;
    let on = select(all, twins_in(photo));
    let keys = on.map_values(by_twin_photos());
    lemma_select_len(strongest_evidence(lib), contradiction(lib));
    lemma_select_len(all, twins_in(photo));
    lemma_limited(
        arranged(
            select(evidence_of(lib), shown(lib)),
            select(evidence_of(lib), shown(lib)).map_values(leverage(lib)),
        ),
        20,
    );
    let from = law_ranking_loses_nothing(on, keys);
    lemma_select_contains(all, twins_in(photo), n);
    let o = choose|o: int| 0 <= o < on.len() && on[o] == all[n].1;
    assert(from.contains(o));
    let p = choose|p: int| 0 <= p < from.len() && from[p] == o;
    let sorted = arranged(on, keys);
    assert(sorted[p] == all[n].1);
    assert(twins_of(lib)[w] == twin_card(all)(photo));
    assert((sorted[p].into == e.a && sorted[p].from == e.b) || (sorted[p].into == e.b
        && sorted[p].from == e.a));
    assert(asks_about(sorted, e.a, e.b));
    assert(twins_of(lib)[w]->SamePhotoTwin_pairs == sorted);
    w
}

} // verus!
