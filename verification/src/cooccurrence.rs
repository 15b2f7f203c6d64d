//! Who is photographed with whom: two faces in one photo are two different people.

use std::collections::{HashMap, HashSet};

use vstd::prelude::*;

use crate::cluster::contains_pair;
use crate::confirmations::{confirmed_identity_photos, confirmed_photo};
use crate::faces::{by_photo, crowded, crowded_faces, multi_face_boxes, PlacedFace};
use crate::groups::{cluster_photo_pairs, group_photo};
use crate::library::{FaceBox, FaceView, Library};
use crate::links::with_pairs;
use crate::order::{before, lemma_order_of, order_of};
use crate::rows::{lemma_select_len, select};

verus! {

broadcast use vstd::std_specs::hash::group_hash_axioms;

/// The map holds, for each first element of the pairs, the set of the second elements.
pub open spec fn gathers(map: Map<i64, HashSet<i64>>, pairs: Seq<(i64, i64)>) -> bool {
    &&& forall|k: int| 0 <= k < pairs.len() ==> map.contains_key((#[trigger] pairs[k]).0)
    &&& forall|a: i64| #[trigger]
        map.contains_key(a) ==> exists|k: int| 0 <= k < pairs.len() && (#[trigger] pairs[k]).0 == a
    &&& forall|a: i64, p: i64|
        map.contains_key(a) ==> (#[trigger] map[a]@.contains(p) <==> pairs.contains((a, p)))
}

/// The photo sets of `(owner, photo)` pairs.
fn photo_sets(pairs: &Vec<(i64, i64)>) -> (map: HashMap<i64, HashSet<i64>>)
    ensures
        gathers(map@, pairs@),
{
    let mut map: HashMap<i64, HashSet<i64>> = HashMap::new();
    for i in 0..pairs.len()
        invariant
            gathers(map@, pairs@.take(i as int)),
    {
        let (a, p) = pairs[i];
        let ghost seen = pairs@.take(i as int);
        let ghost now = pairs@.take(i + 1);
        let ghost was = map@;
        let mut set: HashSet<i64> = match map.remove(&a) {
            Some(s) => s,
            None => HashSet::new(),
        };
        let ghost held = set@;
        set.insert(p);
        map.insert(a, set);
        proof {
            assert(now =~= seen.push((a, p)));
            assert forall|x: (i64, i64)| now.contains(x) <==> seen.contains(x) || x == (a, p) by {
                if seen.contains(x) {
                    let k = choose|k: int| 0 <= k < seen.len() && seen[k] == x;
                    assert(now[k] == x);
                }
                if x == (a, p) {
                    assert(now[i as int] == x);
                }
                if now.contains(x) && x != (a, p) {
                    let k = choose|k: int| 0 <= k < now.len() && now[k] == x;
                    assert(seen[k] == x);
                }
            }
            assert forall|k: int| 0 <= k < now.len() implies map@.contains_key(
                (#[trigger] now[k]).0,
            ) by {
                if k < seen.len() {
                    assert(seen[k] == now[k]);
                }
            }
            assert forall|b: i64| #[trigger] map@.contains_key(b) implies exists|k: int|
                0 <= k < now.len() && (#[trigger] now[k]).0 == b by {
                if b == a {
                    assert(now[i as int].0 == b);
                } else {
                    assert(was.contains_key(b));
                    let k = choose|k: int| 0 <= k < seen.len() && (#[trigger] seen[k]).0 == b;
                    assert(now[k].0 == b);
                }
            }
            assert forall|b: i64, q: i64| map@.contains_key(b) implies (
            #[trigger] map@[b]@.contains(q) <==> now.contains((b, q))) by {
                if b == a {
                    assert(map@[b]@ == held.insert(p));
                    if was.contains_key(a) {
                        assert(held == was[a]@);
                        assert(was[a]@.contains(q) <==> seen.contains((a, q)));
                    } else {
                        assert(!seen.contains((a, q))) by {
                            if seen.contains((a, q)) {
                                let k = choose|k: int| 0 <= k < seen.len() && seen[k] == (a, q);
                                assert(was.contains_key(seen[k].0));
                            }
                        }
                    }
                } else {
                    assert(was.contains_key(b));
                    assert(map@[b] == was[b]);
                    assert(was[b]@.contains(q) <==> seen.contains((b, q)));
                }
            }
        }
    }
    assert(pairs@.take(pairs@.len() as int) == pairs@);
    map
}

/// Per-group and per-confirmed-identity photo sets, for the co-occurrence veto: a
/// candidate group photographed *alongside* a person cannot *be* that person.
pub fn cooccurrence_maps(lib: &Library) -> (maps: (
    HashMap<i64, HashSet<i64>>,
    HashMap<i64, HashSet<i64>>,
))
    ensures
        gathers(maps.0@, select(lib@.faces, group_photo())),
        gathers(maps.1@, select(lib@.faces, confirmed_photo())),
{
    let groups = cluster_photo_pairs(lib);
    let persons = confirmed_identity_photos(lib);
    (photo_sets(&groups), photo_sets(&persons))
}

/// Both own a photo in common.
pub open spec fn share_photo(
    groups: Map<i64, HashSet<i64>>,
    a: i64,
    persons: Map<i64, HashSet<i64>>,
    b: i64,
) -> bool {
    &&& groups.contains_key(a)
    &&& persons.contains_key(b)
    &&& exists|p: i64| #[trigger] groups[a]@.contains(p) && persons[b]@.contains(p)
}

/// Whether two sets have an element in common.
fn intersect(a: &HashSet<i64>, b: &HashSet<i64>) -> (r: bool)
    ensures
        r == exists|p: i64| #[trigger] a@.contains(p) && b@.contains(p),
{
    for p in it: a.iter()
        invariant
            forall|k: int| 0 <= k < it.index() ==> !b@.contains(*#[trigger] it.seq()[k]),
    {
        if b.contains(p) {
            assert(a@.contains(*p));
            return true;
        }
    }
    false
}

/// True if the cluster shares at least one photo with the identity's confirmed faces:
/// they appear together, so they're two different people.
pub fn cooccurs(
    cluster_photos: &HashMap<i64, HashSet<i64>>,
    cid: i64,
    identity_photos: &HashMap<i64, HashSet<i64>>,
    identity: i64,
) -> (r: bool)
    ensures
        r == share_photo(cluster_photos@, cid, identity_photos@, identity),
{
    match (cluster_photos.get(&cid), identity_photos.get(&identity)) {
        (Some(cp), Some(ip)) => {
            if cp.len() <= ip.len() {
                intersect(cp, ip)
            } else {
                intersect(ip, cp)
            }
        },
        _ => false,
    }
}

/// How much two boxes overlap: the area they share, and the area they cover together.
#[derive(Clone, Copy, PartialEq, Eq, Structural, Debug)]
pub struct Overlap {
    pub inter: i128,
    pub union: i128,
}

/// The length of the overlap of two intervals, zero if they are apart.
pub open spec fn shared(a1: int, a2: int, b1: int, b2: int) -> int {
    let lo = if a1 > b1 {
        a1
    } else {
        b1
    };
    let hi = if a2 < b2 {
        a2
    } else {
        b2
    };
    if hi > lo {
        hi - lo
    } else {
        0
    }
}

/// The area of a box, zero for an inside-out one.
pub open spec fn area(b: FaceBox) -> int {
    shared(b.x1 as int, b.x2 as int, b.x1 as int, b.x2 as int) * shared(
        b.y1 as int,
        b.y2 as int,
        b.y1 as int,
        b.y2 as int,
    )
}

/// The area two boxes share.
pub open spec fn shared_area(a: FaceBox, b: FaceBox) -> int {
    shared(a.x1 as int, a.x2 as int, b.x1 as int, b.x2 as int) * shared(
        a.y1 as int,
        a.y2 as int,
        b.y1 as int,
        b.y2 as int,
    )
}

/// The area two boxes cover together, at least one.
pub open spec fn covered_area(a: FaceBox, b: FaceBox) -> int {
    let u = area(a) + area(b) - shared_area(a, b);
    if u > 1 {
        u
    } else {
        1
    }
}

fn shared_length(a1: i32, a2: i32, b1: i32, b2: i32) -> (n: i128)
    ensures
        n == shared(a1 as int, a2 as int, b1 as int, b2 as int),
        0 <= n <= 0xffff_ffff,
{
    let lo: i32 = if a1 > b1 {
        a1
    } else {
        b1
    };
    let hi: i32 = if a2 < b2 {
        a2
    } else {
        b2
    };
    if hi > lo {
        hi as i128 - lo as i128
    } else {
        0
    }
}

fn product(a: i128, b: i128) -> (n: i128)
    requires
        0 <= a <= 0xffff_ffff,
        0 <= b <= 0xffff_ffff,
    ensures
        n == a * b,
        0 <= n <= 0xffff_ffff_ffff_ffff,
{
    assert(0 <= a * b <= 0xffff_ffff_ffff_ffff) by (nonlinear_arith)
        requires
            0 <= a <= 0xffff_ffff,
            0 <= b <= 0xffff_ffff,
    ;
    a * b
}

/// Intersection and union of two face boxes: detects double detections of one face (the
/// only case where two same-photo boxes may be the same person).
pub fn box_iou(a: FaceBox, b: FaceBox) -> (o: Overlap)
    ensures
        o.inter == shared_area(a, b),
        o.union == covered_area(a, b),
        0 <= o.inter <= 0xffff_ffff_ffff_ffff,
        1 <= o.union <= 0x2_0000_0000_0000_0000,
{
    let inter: i128 = product(
        shared_length(a.x1, a.x2, b.x1, b.x2),
        shared_length(a.y1, a.y2, b.y1, b.y2),
    );
    let area_a: i128 = product(
        shared_length(a.x1, a.x2, a.x1, a.x2),
        shared_length(a.y1, a.y2, a.y1, a.y2),
    );
    let area_b: i128 = product(
        shared_length(b.x1, b.x2, b.x1, b.x2),
        shared_length(b.y1, b.y2, b.y1, b.y2),
    );
    let u: i128 = area_a + area_b - inter;
    Overlap {
        inter,
        union: if u > 1 {
            u
        } else {
            1
        },
    }
}

/// Boxes that share at least this part of what they cover, in tenths, are one face
/// detected twice, not two people.
pub const DOUBLE_DETECTION_TENTHS: i128 = 4;

/// Two boxes are one face detected twice.
pub open spec fn is_double(a: FaceBox, b: FaceBox) -> bool {
    10 * shared_area(a, b) >= DOUBLE_DETECTION_TENTHS * covered_area(a, b)
}

/// Whether two boxes are one face detected twice.
pub fn double_detection(a: FaceBox, b: FaceBox) -> (r: bool)
    ensures
        r == is_double(a, b),
{
    let o = box_iou(a, b);
    10 * o.inter >= DOUBLE_DETECTION_TENTHS * o.union
}

/// The double detections of face `i` among the faces after it, up to `n`.
pub open spec fn doubles_of(rows: Seq<PlacedFace>, i: int, n: int) -> Seq<(i64, i64)>
    decreases n - i,
{
    if n <= i + 1 {
        Seq::empty()
    } else {
        let earlier = doubles_of(rows, i, n - 1);
        let (a, b) = (rows[i], rows[n - 1]);
        if a.photo_id == b.photo_id && is_double(a.bbox, b.bbox) {
            earlier.push((a.face_id, b.face_id))
        } else {
            earlier
        }
    }
}

/// The double detections of the first `k` faces.
pub open spec fn doubles(rows: Seq<PlacedFace>, k: nat) -> Seq<(i64, i64)>
    decreases k,
{
    if k == 0 {
        Seq::empty()
    } else {
        doubles(rows, (k - 1) as nat) + doubles_of(rows, k - 1, rows.len() as int)
    }
}

/// The photo of each face.
pub open spec fn face_photos(rows: Seq<PlacedFace>) -> Seq<(i64, i64)> {
    rows.map_values(|f: PlacedFace| (f.face_id, f.photo_id))
}

/// Faces come photo by photo.
spec fn photo_runs(rows: Seq<PlacedFace>) -> bool {
    forall|p: int, q: int|
        0 <= p < q < rows.len() ==> (#[trigger] rows[p]).photo_id <= (#[trigger] rows[q]).photo_id
}

proof fn lemma_photo_runs(faces: Seq<FaceView>)
    requires
        faces.len() <= usize::MAX,
    ensures
        photo_runs(crowded_faces(faces)),
{
    let all = select(faces, crowded(faces));
    let keys = all.map_values(by_photo());
    lemma_select_len(faces, crowded(faces));
    lemma_order_of(keys);
    let rows = crowded_faces(faces);
    assert forall|p: int, q: int| 0 <= p < q < rows.len() implies (#[trigger] rows[p]).photo_id <= (
    #[trigger] rows[q]).photo_id by {
        assert(before(keys, order_of(keys)[p] as int, order_of(keys)[q] as int));
    }
}

/// A face of a later photo ends the run: no further double detections.
proof fn lemma_run_ends(rows: Seq<PlacedFace>, i: int, j: int, n: int)
    requires
        photo_runs(rows),
        0 <= i < j <= n <= rows.len(),
        j < rows.len(),
        rows[i].photo_id != rows[j].photo_id,
    ensures
        doubles_of(rows, i, n) == doubles_of(rows, i, j),
    decreases n,
{
    if n > j {
        lemma_run_ends(rows, i, j, n - 1);
        assert(rows[i].photo_id <= rows[j].photo_id);
        if j < n - 1 {
            assert(rows[j].photo_id <= rows[n - 1].photo_id);
        }
    }
}

/// Same-photo constraint data for clustering: `(face, photo)` for multi-face photos
/// only (singletons can't conflict), and the exception pairs: the user's "same person
/// (collage/mirror)" answers plus double detections.
pub fn photo_constraints(lib: &Library) -> (c: (Vec<(i64, i64)>, Vec<(i64, i64)>))
    ensures
        c.0@ == face_photos(crowded_faces(lib@.faces)),
        c.1@ == ({
            let rows = crowded_faces(lib@.faces);
            with_pairs(
                with_pairs(Seq::empty(), lib@.same_photo_ok),
                doubles(rows, rows.len()),
            )
        }),
{
    let rows = multi_face_boxes(lib);
    let mut photo_of: Vec<(i64, i64)> = Vec::with_capacity(rows.len());
    let mut found: Vec<(i64, i64)> = Vec::new();
    proof {
        assert(lib.faces.len() <= usize::MAX);
        lemma_photo_runs(lib@.faces);
    }
    for i in 0..rows.len()
        invariant
            photo_runs(rows@),
            photo_of@ == face_photos(rows@).take(i as int),
            found@ == doubles(rows@, i as nat),
    {
        photo_of.push((rows[i].face_id, rows[i].photo_id));
        assert(photo_of@ =~= face_photos(rows@).take(i + 1));
        let mut j: usize = i + 1;
        let ghost held = found@;
        assert(found@ =~= held + doubles_of(rows@, i as int, j as int));
        while j < rows.len() && rows[j].photo_id == rows[i].photo_id
            invariant
                i < j <= rows@.len(),
                found@ == held + doubles_of(rows@, i as int, j as int),
            decreases rows@.len() - j,
        {
            if double_detection(rows[i].bbox, rows[j].bbox) {
                found.push((rows[i].face_id, rows[j].face_id));
            }
            j = j + 1;
            assert(found@ =~= held + doubles_of(rows@, i as int, j as int));
        }
        proof {
            if j < rows@.len() {
                lemma_run_ends(rows@, i as int, j as int, rows@.len() as int);
            }
        }
    }
    assert(photo_of@ =~= face_photos(rows@));
    let mut ok: Vec<(i64, i64)> = Vec::new();
    add_pairs(&mut ok, &lib.same_photo_ok);
    add_pairs(&mut ok, &found);
    (photo_of, ok)
}

/// Add pairs to a list, in ascending order, each once.
fn add_pairs(pairs: &mut Vec<(i64, i64)>, more: &Vec<(i64, i64)>)
    ensures
        final(pairs)@ == with_pairs(old(pairs)@, more@),
{
    let ghost before = pairs@;
    for i in 0..more.len()
        invariant
            pairs@ == with_pairs(before, more@.take(i as int)),
    {
        assert(more@.take(i + 1).drop_last() == more@.take(i as int));
        let (a, b) = more[i];
        if !contains_pair(pairs, a, b) {
            if a < b {
                pairs.push((a, b));
            } else {
                pairs.push((b, a));
            }
        }
    }
    assert(more@.take(more@.len() as int) == more@);
}

} // verus!
