//! What keeps faces together and apart, said of the faces, the names and the boxes.

use vstd::prelude::*;

use crate::cluster::{pair, LinkConstraints};
use crate::cooccurrence::{area, covered_area, doubles, doubles_of, is_double, shared, shared_area};
use crate::correction_laws::lemma_with_pairs;
use crate::faces::{by_photo, clustered_in, crowded, crowded_faces, PlacedFace};
use crate::library::{FaceBox, FaceView, LibraryView};
use crate::links::{newly_apart, other_than, recorded_apart, with_pair, with_pairs, without_pair};
use crate::listing_laws::{
    law_counting_counts, law_keeping_keeps_the_order, law_picking_keeps_the_order,
    law_ranking_loses_nothing,
};
use crate::names::named;
use crate::passes::{constraints_of, differing, differing_from, kept_apart, rebuilt};
use crate::question_laws::lemma_root_exists;
use crate::rebuild_laws::{
    exceptions, law_rebuild_keeps_people_apart, law_rebuild_parts_faces_of_a_photo,
    machine_sized,
};
use crate::review_laws::lemma_kept_contains_iff;
use crate::rows::{lemma_select_len, select, tally};
use crate::similarity::{
    component_sum, dot, dot_upto, is_root, lemma_components, lemma_dot_symmetric, lemma_root,
    length, mean, root, toward_zero, unit,
};

verus! {

/// **Similarity is the sum of products.** It is zero for no components, grows by the product of
/// one more of each, and does not depend on which vector is named first.
pub proof fn law_similarity_adds_up(a: Seq<i32>, b: Seq<i32>, x: i32, y: i32)
    requires
        a.len() == b.len(),
    ensures
        dot(Seq::empty(), b) == 0,
        dot(a.push(x), b.push(y)) == dot(a, b) + x * y,
        dot(a, b) == dot(b, a),
{
    lemma_dot_symmetric(a, b);
    lemma_dot_prefix(a, b, a.push(x), b.push(y), a.len());
}

proof fn lemma_dot_prefix(a: Seq<i32>, b: Seq<i32>, c: Seq<i32>, d: Seq<i32>, n: nat)
    requires
        n <= a.len(),
        n <= b.len(),
        n <= c.len(),
        n <= d.len(),
        forall|k: int| 0 <= k < n ==> a[k] == c[k] && b[k] == d[k],
    ensures
        dot_upto(a, b, n) == dot_upto(c, d, n),
    decreases n,
{
    if n > 0 {
        lemma_dot_prefix(a, b, c, d, (n - 1) as nat);
        assert(a[n - 1] == c[n - 1] && b[n - 1] == d[n - 1]);
    }
}

/// **Scaling keeps the direction.** A vector scaled to unit length has as many components, each of
/// the same sign and in proportion: a million times the component over the vector's length,
/// rounded toward zero. The length is the whole part of the root of the vector's product with
/// itself. The zero vector stays zero.
pub proof fn law_scaling_keeps_the_direction(v: Seq<i32>, k: int)
    requires
        0 <= k < v.len() <= usize::MAX,
    ensures
        unit(v).len() == v.len(),
        dot(v, v) >= 1 ==> {
            let l = length(v);
            &&& l >= 1
            &&& l * l <= dot(v, v) < (l + 1) * (l + 1)
            &&& v[k] >= 0 ==> unit(v)[k] >= 0 && unit(v)[k] * l <= v[k] * 1_000_000 < (unit(v)[k]
                + 1) * l
            &&& v[k] <= 0 ==> unit(v)[k] <= 0 && -unit(v)[k] * l <= -v[k] * 1_000_000 < (
            -unit(v)[k] + 1) * l
        },
        dot(v, v) < 1 ==> length(v) == 1,
{
    if dot(v, v) >= 1 {
        lemma_root_exists(dot(v, v));
        let l = length(v);
        assert(is_root(dot(v, v), l));
        assert(l >= 1) by (nonlinear_arith)
            requires
                0 <= l,
                1 <= dot(v, v) < (l + 1) * (l + 1),
        ;
        lemma_components(v, l);
        let a = v[k] * 1_000_000;
        if v[k] >= 0 {
            let u = a / l;
            assert(u * l <= a < (u + 1) * l && u >= 0) by (nonlinear_arith)
                requires
                    u == a / l,
                    l >= 1,
                    a >= 0,
            ;
            assert(u <= 1_000_000) by (nonlinear_arith)
                requires
                    u * l <= a,
                    a <= l * 1_000_000,
                    l >= 1,
            ;
        } else {
            let b = -a;
            let u = b / l;
            assert(u * l <= b < (u + 1) * l && u >= 0) by (nonlinear_arith)
                requires
                    u == b / l,
                    l >= 1,
                    b >= 0,
            ;
            assert(u <= 1_000_000) by (nonlinear_arith)
                requires
                    u * l <= b,
                    b <= l * 1_000_000,
                    l >= 1,
            ;
        }
    }
}

/// **The root of a square is what was squared.**
pub proof fn law_roots(r: int)
    requires
        0 <= r,
    ensures
        root(r * r) == r,
{
    assert(is_root(r * r, r)) by {
        assert(r * r < (r + 1) * (r + 1)) by (nonlinear_arith)
            requires
                0 <= r,
        ;
    }
    lemma_root(r * r, r);
}

/// **The mean is the sum over the number.** One more vector adds its components to the sums; a
/// component of the mean times the number of vectors is the sum, but for the rest of the
/// division.
pub proof fn law_means(vs: Seq<Seq<i32>>, v: Seq<i32>, k: int)
    requires
        vs.len() > 0,
        0 <= k < vs[0].len(),
    ensures
        component_sum(vs.push(v), k, vs.len() + 1) == component_sum(vs, k, vs.len()) + (if k
            < v.len() {
            v[k] as int
        } else {
            0
        }),
        mean(vs).len() == vs[0].len(),
        mean(vs)[k] == toward_zero(component_sum(vs, k, vs.len()), vs.len() as int) as i32,
{
    lemma_sum_prefix(vs, vs.push(v), k, vs.len());
}

proof fn lemma_sum_prefix(a: Seq<Seq<i32>>, b: Seq<Seq<i32>>, k: int, n: nat)
    requires
        n <= a.len(),
        n <= b.len(),
        forall|i: int| 0 <= i < n ==> a[i] == b[i],
    ensures
        component_sum(a, k, n) == component_sum(b, k, n),
    decreases n,
{
    if n > 0 {
        lemma_sum_prefix(a, b, k, (n - 1) as nat);
        assert(a[n - 1] == b[n - 1]);
    }
}

/// **A pair is written smaller first**, and so does not depend on which is named first.
pub proof fn law_pairs(a: i64, b: i64)
    ensures
        pair(a, b) == pair(b, a),
        pair(a, b).0 <= pair(a, b).1,
        a <= b ==> pair(a, b) == (a, b),
{
}

/// **Adding and removing pairs.** A pair that is added is there, one that is removed is not, in
/// either order of its members; every other pair stays as it was.
pub proof fn law_pairs_are_kept(pairs: Seq<(i64, i64)>, a: i64, b: i64, p: (i64, i64))
    ensures
        with_pair(pairs, a, b).contains(p) <==> pairs.contains(p) || (a <= b && p == (a, b)) || (b
            <= a && p == (b, a)),
        without_pair(pairs, a, b).contains(p) <==> pairs.contains(p) && !(a <= b && p == (a, b))
            && !(b <= a && p == (b, a)),
{
    lemma_kept_contains_iff(pairs, other_than(a, b), p);
    let after = with_pair(pairs, a, b);
    if !pairs.contains(pair(a, b)) {
        assert(after[pairs.len() as int] == pair(a, b));
        if pairs.contains(p) {
            let k = choose|k: int| 0 <= k < pairs.len() && pairs[k] == p;
            assert(after[k] == p);
        }
        if after.contains(p) && p != pair(a, b) {
            let k = choose|k: int| 0 <= k < after.len() && after[k] == p;
            assert(pairs[k] == p);
        }
    }
}

/// **Nobody is different from themselves.** Declaring two persons different adds their pair,
/// and reports it if it is new; one person twice adds nothing.
pub proof fn law_declared_different(lib: LibraryView, a: i64, b: i64)
    ensures
        recorded_apart(lib, a, a) == lib,
        newly_apart(lib, a, a) is None,
        a < b ==> recorded_apart(lib, a, b).cannot_link.contains((a, b)) && recorded_apart(
            lib,
            b,
            a,
        ).cannot_link.contains((a, b)),
        a < b ==> (newly_apart(lib, a, b) is Some <==> !lib.cannot_link.contains((a, b))),
        recorded_apart(lib, a, b).faces == lib.faces,
{
    law_pairs_are_kept(lib.cannot_link, a, b, pair(a, b));
    law_pairs_are_kept(lib.cannot_link, b, a, pair(a, b));
}

/// **Boxes that cover the same place are one face.** A box that is not empty is one face with
/// itself; boxes that share no place are two; and it does not matter which is named first.
pub proof fn law_double_detections(a: FaceBox, b: FaceBox)
    ensures
        a.x1 < a.x2 && a.y1 < a.y2 ==> is_double(a, a),
        a.x2 <= b.x1 || b.x2 <= a.x1 || a.y2 <= b.y1 || b.y2 <= a.y1 ==> !is_double(a, b),
        is_double(a, b) == is_double(b, a),
        is_double(a, b) <==> 10 * shared_area(a, b) >= 4 * covered_area(a, b),
{
    let (w, h) = (a.x2 - a.x1, a.y2 - a.y1);
    if w > 0 && h > 0 {
        assert(w * h >= 1) by (nonlinear_arith)
            requires
                w >= 1,
                h >= 1,
        ;
        assert(area(a) == w * h);
        assert(shared_area(a, a) == w * h);
    }
    let (sx, sy) = (
        shared(a.x1 as int, a.x2 as int, b.x1 as int, b.x2 as int),
        shared(a.y1 as int, a.y2 as int, b.y1 as int, b.y2 as int),
    );
    if sx == 0 || sy == 0 {
        assert(sx * sy == 0) by (nonlinear_arith)
            requires
                sx == 0 || sy == 0,
        ;
    }
}

/// **What boxes share and cover.** The shared part of two intervals is where both are; a box's
/// area is its sides multiplied; two boxes cover what each does, the shared part once.
pub proof fn law_box_areas(a: FaceBox, b: FaceBox)
    requires
        a.x1 <= a.x2 && a.y1 <= a.y2 && b.x1 <= b.x2 && b.y1 <= b.y2,
    ensures
        area(a) == (a.x2 - a.x1) * (a.y2 - a.y1),
        b.x1 <= a.x1 && a.x2 <= b.x2 && b.y1 <= a.y1 && a.y2 <= b.y2 ==> shared_area(a, b) == area(
            a,
        ),
        a.x1 <= b.x1 <= a.x2 <= b.x2 && a.y1 <= b.y1 <= a.y2 <= b.y2 ==> shared_area(a, b) == (
        a.x2 - b.x1) * (a.y2 - b.y1),
        area(a) + area(b) - shared_area(a, b) > 1 ==> covered_area(a, b) == area(a) + area(b)
            - shared_area(a, b),
{
    let (w, h) = (a.x2 - a.x1, a.y2 - a.y1);
    if w == 0 || h == 0 {
        assert(w * h == 0) by (nonlinear_arith)
            requires
                w == 0 || h == 0,
        ;
    }
}

/// Another clustered face is in the photo.
pub open spec fn shares_its_photo(faces: Seq<FaceView>, i: int) -> bool {
    exists|j: int|
        0 <= j < faces.len() && j != i && (#[trigger] faces[j]).photo_id == faces[i].photo_id
            && faces[j].marks.cluster_id is Some
}

proof fn lemma_two_in_photo(faces: Seq<FaceView>, i: int)
    requires
        0 <= i < faces.len(),
        faces[i].marks.cluster_id is Some,
    ensures
        tally(faces, clustered_in(faces[i].photo_id)) > 1 <==> shares_its_photo(faces, i),
{
    let test = clustered_in(faces[i].photo_id);
    law_counting_counts(faces, test);
    let at = law_keeping_keeps_the_order(faces, test);
    assert(test(faces[i]));
    assert(at.contains(i));
    let p = choose|p: int| 0 <= p < at.len() && at[p] == i;
    if tally(faces, test) > 1 {
        let q = if p == 0 {
            1int
        } else {
            0int
        };
        assert(at[q] != at[p]) by {
            if p == 0 {
                assert(at[0] < at[1]);
            } else {
                assert(at[0] < at[p]);
            }
        }
        assert(test(faces[at[q]]));
        assert(faces[at[q]].photo_id == faces[i].photo_id);
    }
    if shares_its_photo(faces, i) {
        let j = choose|j: int|
            0 <= j < faces.len() && j != i && (#[trigger] faces[j]).photo_id == faces[i].photo_id
                && faces[j].marks.cluster_id is Some;
        assert(test(faces[j]));
        assert(at.contains(j));
        let q = choose|q: int| 0 <= q < at.len() && at[q] == j;
        assert(p != q);
    }
}

/// **The faces that can conflict are those that share a photo.** A clustered face is listed, once,
/// exactly if another clustered face is in its photo; the list goes photo by photo.
pub proof fn law_crowded_faces(faces: Seq<FaceView>) -> (at: Seq<int>)
    requires
        faces.len() <= usize::MAX,
    ensures
        at.len() == crowded_faces(faces).len(),
        at.no_duplicates(),
        forall|p: int|
            0 <= p < at.len() ==> {
                let f = faces[#[trigger] at[p]];
                let c = crowded_faces(faces)[p];
                &&& 0 <= at[p] < faces.len()
                &&& f.marks.cluster_id is Some
                &&& shares_its_photo(faces, at[p])
                &&& c.photo_id == f.photo_id && c.face_id == f.id && c.bbox == f.bbox
            },
        forall|i: int|
            0 <= i < faces.len() && (#[trigger] faces[i]).marks.cluster_id is Some
                && shares_its_photo(faces, i) ==> at.contains(i),
        forall|p: int, q: int|
            0 <= p < q < at.len() ==> (#[trigger] crowded_faces(faces)[p]).photo_id <= (
            #[trigger] crowded_faces(faces)[q]).photo_id,
{
    let pick = crowded(faces);
    let all = select(faces, pick);
    let keys = all.map_values(by_photo());
    let places = law_picking_keeps_the_order(faces, pick);
    lemma_select_len(faces, pick);
    let from = law_ranking_loses_nothing(all, keys);
    let out = crowded_faces(faces);
    let at = Seq::new(from.len(), |p: int| places[from[p]]);
    assert forall|p: int| 0 <= p < at.len() implies {
        let f = faces[#[trigger] at[p]];
        &&& 0 <= at[p] < faces.len()
        &&& f.marks.cluster_id is Some
        &&& shares_its_photo(faces, at[p])
        &&& out[p].photo_id == f.photo_id && out[p].face_id == f.id && out[p].bbox == f.bbox
        &&& out[p] == all[from[p]]
    } by {
        assert(pick(faces[places[from[p]]]) == Some(all[from[p]]));
        lemma_two_in_photo(faces, at[p]);
    }
    assert forall|p: int, q: int| 0 <= p < at.len() && 0 <= q < at.len() && p != q implies at[p]
        != at[q] by {
        if p < q {
            assert(from[p] != from[q]);
        } else {
            assert(from[q] != from[p]);
        }
        if from[p] < from[q] {
            assert(places[from[p]] < places[from[q]]);
        } else {
            assert(places[from[q]] < places[from[p]]);
        }
    }
    assert forall|i: int|
        0 <= i < faces.len() && (#[trigger] faces[i]).marks.cluster_id is Some && shares_its_photo(
            faces,
            i,
        ) implies at.contains(i) by {
        lemma_two_in_photo(faces, i);
        assert(pick(faces[i]) is Some);
        assert(places.contains(i));
        let k = choose|k: int| 0 <= k < places.len() && places[k] == i;
        assert(from.contains(k));
        let p = choose|p: int| 0 <= p < from.len() && from[p] == k;
        assert(at[p] == i);
    }
    assert forall|p: int, q: int| 0 <= p < q < at.len() implies (#[trigger] out[p]).photo_id <= (
    #[trigger] out[q]).photo_id by {
        let (x, y) = (keys[from[p]], keys[from[q]]);
        assert(x.0 >= y.0);
        assert(out[p] == all[from[p]] && out[q] == all[from[q]]);
    }
    at
}

proof fn lemma_doubles_of(rows: Seq<PlacedFace>, i: int, n: int)
    requires
        0 <= i < rows.len(),
        n <= rows.len(),
    ensures
        forall|p: (i64, i64)| #[trigger]
            doubles_of(rows, i, n).contains(p) <==> exists|j: int|
                i < j < n && (#[trigger] rows[j]).photo_id == rows[i].photo_id && is_double(
                    rows[i].bbox,
                    rows[j].bbox,
                ) && p == (rows[i].face_id, rows[j].face_id),
    decreases n - i,
{
    if n > i + 1 {
        let earlier = doubles_of(rows, i, n - 1);
        let now = doubles_of(rows, i, n);
        lemma_doubles_of(rows, i, n - 1);
        let hit = rows[i].photo_id == rows[n - 1].photo_id && is_double(
            rows[i].bbox,
            rows[n - 1].bbox,
        );
        let e = (rows[i].face_id, rows[n - 1].face_id);
        assert forall|p: (i64, i64)| #[trigger] now.contains(p) <==> exists|j: int|
            i < j < n && (#[trigger] rows[j]).photo_id == rows[i].photo_id && is_double(
                rows[i].bbox,
                rows[j].bbox,
            ) && p == (rows[i].face_id, rows[j].face_id) by {
            if now.contains(p) {
                let k = choose|k: int| 0 <= k < now.len() && now[k] == p;
                if k < earlier.len() {
                    assert(earlier[k] == p);
                    assert(earlier.contains(p));
                    let j = choose|j: int|
                        i < j < n - 1 && (#[trigger] rows[j]).photo_id == rows[i].photo_id
                            && is_double(rows[i].bbox, rows[j].bbox) && p == (
                            rows[i].face_id,
                            rows[j].face_id,
                        );
                    assert(rows[j].photo_id == rows[i].photo_id);
                } else {
                    assert(rows[n - 1].photo_id == rows[i].photo_id);
                }
            }
            if exists|j: int|
                i < j < n && (#[trigger] rows[j]).photo_id == rows[i].photo_id && is_double(
                    rows[i].bbox,
                    rows[j].bbox,
                ) && p == (rows[i].face_id, rows[j].face_id) {
                let j = choose|j: int|
                    i < j < n && (#[trigger] rows[j]).photo_id == rows[i].photo_id && is_double(
                        rows[i].bbox,
                        rows[j].bbox,
                    ) && p == (rows[i].face_id, rows[j].face_id);
                if j < n - 1 {
                    assert(earlier.contains(p));
                    let k = choose|k: int| 0 <= k < earlier.len() && earlier[k] == p;
                    assert(now[k] == p);
                } else {
                    assert(now[earlier.len() as int] == p);
                }
            }
        }
    } else {
        assert forall|p: (i64, i64)| !(#[trigger] doubles_of(rows, i, n).contains(p)) by {}
    }
}

/// Two of the placed faces are one face detected twice.
pub open spec fn detected_twice(rows: Seq<PlacedFace>, k: nat, p: (i64, i64)) -> bool {
    exists|i: int, j: int|
        0 <= i < k && i < j < rows.len() && (#[trigger] rows[i]).photo_id == (
        #[trigger] rows[j]).photo_id && is_double(rows[i].bbox, rows[j].bbox) && p == (
            rows[i].face_id,
            rows[j].face_id,
        )
}

pub proof fn lemma_doubles(rows: Seq<PlacedFace>, k: nat)
    requires
        k <= rows.len(),
    ensures
        forall|p: (i64, i64)| #[trigger]
            doubles(rows, k).contains(p) <==> detected_twice(rows, k, p),
    decreases k,
{
    if k > 0 {
        let i = k - 1;
        let was = doubles(rows, i as nat);
        let more = doubles_of(rows, i, rows.len() as int);
        let now = doubles(rows, k);
        lemma_doubles(rows, i as nat);
        lemma_doubles_of(rows, i, rows.len() as int);
        assert forall|p: (i64, i64)| #[trigger] now.contains(p) <==> detected_twice(rows, k, p) by {
            if now.contains(p) {
                let q = choose|q: int| 0 <= q < now.len() && now[q] == p;
                if q < was.len() {
                    assert(was[q] == p);
                    assert(was.contains(p));
                } else {
                    assert(more[q - was.len()] == p);
                    assert(more.contains(p));
                    let j = choose|j: int|
                        i < j < rows.len() && (#[trigger] rows[j]).photo_id == rows[i].photo_id
                            && is_double(rows[i].bbox, rows[j].bbox) && p == (
                            rows[i].face_id,
                            rows[j].face_id,
                        );
                    assert(rows[i].photo_id == rows[j].photo_id);
                }
            }
            if detected_twice(rows, k, p) {
                let (a, j) = choose|a: int, j: int|
                    0 <= a < k && a < j < rows.len() && (#[trigger] rows[a]).photo_id == (
                    #[trigger] rows[j]).photo_id && is_double(rows[a].bbox, rows[j].bbox) && p == (
                        rows[a].face_id,
                        rows[j].face_id,
                    );
                if a < i {
                    assert(detected_twice(rows, i as nat, p));
                    assert(was.contains(p));
                    let q = choose|q: int| 0 <= q < was.len() && was[q] == p;
                    assert(now[q] == p);
                } else {
                    assert(rows[j].photo_id == rows[i].photo_id);
                    assert(more.contains(p));
                    let q = choose|q: int| 0 <= q < more.len() && more[q] == p;
                    assert(now[was.len() + q] == p);
                }
            }
        }
    }
}

/// **After a rebuild, two faces of one photo are two clusters.** Unless the user excepted the two,
/// their boxes are one face detected twice, or both were confirmed as one person.
pub proof fn law_one_photo_two_clusters(lib: LibraryView, c: LinkConstraints, i: int, j: int)
    requires
        lib.wf(),
        lib.faces.len() <= usize::MAX,
        machine_sized(lib),
        constraints_of(lib, c),
        0 <= i < lib.faces.len(),
        0 <= j < lib.faces.len(),
        i != j,
        lib.faces[i].marks.cluster_id is Some,
        lib.faces[j].marks.cluster_id is Some,
        lib.faces[i].photo_id == lib.faces[j].photo_id,
        !lib.same_photo_ok.contains((lib.faces[i].id, lib.faces[j].id)),
        !lib.same_photo_ok.contains((lib.faces[j].id, lib.faces[i].id)),
        !is_double(lib.faces[i].bbox, lib.faces[j].bbox),
        !(lib.faces[i].marks.confirmed && lib.faces[j].marks.confirmed
            && lib.faces[i].marks.identity_id is Some && lib.faces[i].marks.identity_id
            == lib.faces[j].marks.identity_id),
    ensures
        rebuilt(lib, c).faces[i].marks.cluster_id != rebuilt(lib, c).faces[j].marks.cluster_id,
{
    let rows = crowded_faces(lib.faces);
    let base = with_pairs(Seq::empty(), lib.same_photo_ok);
    let twice = doubles(rows, rows.len());
    let p = pair(lib.faces[i].id, lib.faces[j].id);
    let at = law_crowded_faces(lib.faces);
    lemma_doubles(rows, rows.len());
    law_double_detections(lib.faces[i].bbox, lib.faces[j].bbox);
    assert forall|a: int, b: int|
        0 <= a < lib.faces.len() && 0 <= b < lib.faces.len() && a != b implies (
    #[trigger] lib.faces[a]).id != (#[trigger] lib.faces[b]).id by {
        if a < b {
            assert(lib.faces[a].id < lib.faces[b].id);
        } else {
            assert(lib.faces[b].id < lib.faces[a].id);
        }
    }
    assert(!exceptions(lib).contains(p)) by {
        if exceptions(lib).contains(p) {
            lemma_with_pairs(base, twice, 0);
            if base.contains(p) {
                lemma_with_pairs(Seq::empty(), lib.same_photo_ok, 0);
                assert(!Seq::<(i64, i64)>::empty().contains(p));
                let q = choose|q: int|
                    0 <= q < lib.same_photo_ok.len() && p == pair(
                        (#[trigger] lib.same_photo_ok[q]).0,
                        lib.same_photo_ok[q].1,
                    );
                let e = lib.same_photo_ok[q];
                assert(lib.same_photo_ok.contains(e));
                assert(e.0 <= e.1);
                assert(e == p);
            } else {
                let q = choose|q: int|
                    0 <= q < twice.len() && p == pair((#[trigger] twice[q]).0, twice[q].1);
                let e = twice[q];
                assert(twice.contains(e));
                assert(detected_twice(rows, rows.len(), e));
                let (a, b) = choose|a: int, b: int|
                    0 <= a < rows.len() && a < b < rows.len() && (#[trigger] rows[a]).photo_id == (
                    #[trigger] rows[b]).photo_id && is_double(rows[a].bbox, rows[b].bbox) && e == (
                        rows[a].face_id,
                        rows[b].face_id,
                    );
                let (x, y) = (at[a], at[b]);
                assert(rows[a].face_id == lib.faces[x].id && rows[b].face_id == lib.faces[y].id);
                assert(rows[a].bbox == lib.faces[x].bbox && rows[b].bbox == lib.faces[y].bbox);
                assert((x == i && y == j) || (x == j && y == i));
            }
        }
    }
    law_rebuild_parts_faces_of_a_photo(lib, c, i, j);
}

pub proof fn lemma_differing_from(people: Seq<(i64, Seq<char>)>, i: int, n: int, j: int)
    requires
        0 <= i < j < n <= people.len(),
        people[i].1 != people[j].1,
    ensures
        differing_from(people, i, n).contains((people[i].0, people[j].0)),
    decreases n - i,
{
    let now = differing_from(people, i, n);
    let earlier = differing_from(people, i, n - 1);
    let e = (people[i].0, people[j].0);
    if j < n - 1 {
        lemma_differing_from(people, i, n - 1, j);
        let k = choose|k: int| 0 <= k < earlier.len() && earlier[k] == e;
        assert(now[k] == e);
    } else {
        assert(now[earlier.len() as int] == e);
    }
}

pub proof fn lemma_differing(people: Seq<(i64, Seq<char>)>, k: nat, i: int, j: int)
    requires
        0 <= i < k <= people.len(),
        i < j < people.len(),
        people[i].1 != people[j].1,
    ensures
        differing(people, k).contains((people[i].0, people[j].0)),
    decreases k,
{
    let now = differing(people, k);
    let was = differing(people, (k - 1) as nat);
    let more = differing_from(people, k - 1, people.len() as int);
    let e = (people[i].0, people[j].0);
    if i < k - 1 {
        lemma_differing(people, (k - 1) as nat, i, j);
        let q = choose|q: int| 0 <= q < was.len() && was[q] == e;
        assert(now[q] == e);
    } else {
        lemma_differing_from(people, i, people.len() as int, j);
        let q = choose|q: int| 0 <= q < more.len() && more[q] == e;
        assert(now[was.len() + q] == e);
    }
}

/// **After a rebuild, two people are two clusters.** Faces confirmed as persons who are declared
/// different, or who have different names, are in different clusters.
pub proof fn law_two_people_two_clusters(
    lib: LibraryView,
    c: LinkConstraints,
    i: int,
    j: int,
    a: int,
    b: int,
)
    requires
        lib.wf(),
        machine_sized(lib),
        constraints_of(lib, c),
        0 <= i < lib.faces.len(),
        0 <= j < lib.faces.len(),
        0 <= a < b < lib.identities.len(),
        lib.faces[i].marks.cluster_id is Some,
        lib.faces[j].marks.cluster_id is Some,
        lib.faces[i].marks.confirmed && lib.faces[i].marks.identity_id == Some(
            lib.identities[a].id,
        ),
        lib.faces[j].marks.confirmed && lib.faces[j].marks.identity_id == Some(
            lib.identities[b].id,
        ),
        lib.cannot_link.contains((lib.identities[a].id, lib.identities[b].id)) || (
        lib.identities[a].name is Some && lib.identities[b].name is Some && lib.identities[a].name
            != lib.identities[b].name),
    ensures
        rebuilt(lib, c).faces[i].marks.cluster_id != rebuilt(lib, c).faces[j].marks.cluster_id,
{
    let (x, y) = (lib.identities[a].id, lib.identities[b].id);
    assert(x < y);
    let people = select(lib.identities, named());
    let more = differing(people, people.len());
    lemma_with_pairs(lib.cannot_link, more, 0);
    if !lib.cannot_link.contains((x, y)) {
        let at = law_picking_keeps_the_order(lib.identities, named());
        assert(named()(lib.identities[a]) is Some && named()(lib.identities[b]) is Some);
        assert(at.contains(a) && at.contains(b));
        let p = choose|p: int| 0 <= p < at.len() && at[p] == a;
        let q = choose|q: int| 0 <= q < at.len() && at[q] == b;
        assert(named()(lib.identities[at[p]]) == Some(people[p]));
        assert(named()(lib.identities[at[q]]) == Some(people[q]));
        if q < p {
            assert(at[q] < at[p]);
        }
        assert(p < q);
        lemma_differing(people, people.len(), p, q);
        let k = choose|k: int| 0 <= k < more.len() && more[k] == (x, y);
        lemma_with_pairs(lib.cannot_link, more, k);
    }
    assert(kept_apart(lib).contains(pair(x, y)));
    law_rebuild_keeps_people_apart(lib, c, i, j, x, y);
}

} // verus!
