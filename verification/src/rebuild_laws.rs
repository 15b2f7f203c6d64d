//! What holds of the library after its appearance clusters were rebuilt.

use vstd::prelude::*;

use crate::cluster::{face_ids, lookup, pair, unit_matrix, LinkConstraints};
use crate::cluster_laws::{
    law_confirmed_faces_stay_together, law_constraints_are_honored, machine_rows,
};
use crate::confirmations::confirmed_face;
use crate::cooccurrence::{doubles, face_photos};
use crate::faces::{
    by_photo, clustered_in, crowded, crowded_faces, in_pool, reclustered, PlacedFace,
};
use crate::library::{faces_wf, marked, FaceView, LibraryView};
use crate::links::with_pairs;
use crate::order::{before, lemma_order_of, order_of};
use crate::passes::{constraints_of, kept_apart, new_clusters, rebuilt};
use crate::people_laws::law_fold_keeps_decisions;
use crate::rows::{lemma_select_contains, lemma_select_from, lemma_select_len, select, tally};

verus! {

/// The library's faces, and the edges between them, are few and short enough for a machine.
pub open spec fn machine_sized(lib: LibraryView) -> bool {
    machine_rows(unit_matrix(select(lib.faces, in_pool())))
}

/// Picked faces are in the order of their ids.
proof fn lemma_select_ascends<B>(
    faces: Seq<FaceView>,
    pick: spec_fn(FaceView) -> Option<B>,
    id: spec_fn(B) -> i64,
)
    requires
        faces_wf(faces),
        forall|f: FaceView| #[trigger] pick(f) is Some ==> id(pick(f)->0) == f.id,
    ensures
        forall|p: int, q: int|
            0 <= p < q < select(faces, pick).len() ==> id(#[trigger] select(faces, pick)[p]) < id(
                #[trigger] select(faces, pick)[q],
            ),
    decreases faces.len(),
{
    if faces.len() > 0 {
        let front = faces.drop_last();
        assert(faces_wf(front)) by {
            assert forall|i: int| 0 <= i < front.len() implies (#[trigger] front[i]).id >= 1 by {
                assert(front[i] == faces[i]);
            }
            assert forall|i: int, j: int| 0 <= i < j < front.len() implies (#[trigger] front[i]).id
                < (#[trigger] front[j]).id by {
                assert(front[i] == faces[i] && front[j] == faces[j]);
            }
        }
        lemma_select_ascends(front, pick, id);
        let rest = select(front, pick);
        let all = select(faces, pick);
        assert forall|p: int, q: int| 0 <= p < q < all.len() implies id(#[trigger] all[p]) < id(
            #[trigger] all[q],
        ) by {
            assert(all[p] == rest[p]);
            if q < rest.len() {
                assert(all[q] == rest[q]);
            } else {
                lemma_select_from(front, pick, p);
                let i = choose|i: int|
                    0 <= i < front.len() && pick(#[trigger] front[i]) == Some(rest[p]);
                assert(front[i] == faces[i]);
                assert(faces[i].id < faces[faces.len() - 1].id);
            }
        }
    }
}

/// The value of a key that is listed once.
proof fn lemma_lookup_once(pairs: Seq<(i64, i64)>, p: int)
    requires
        0 <= p < pairs.len(),
        forall|a: int, b: int|
            0 <= a < b < pairs.len() ==> (#[trigger] pairs[a]).0 != (#[trigger] pairs[b]).0,
    ensures
        lookup(pairs, pairs[p].0) == Some(pairs[p].1),
    decreases pairs.len(),
{
    if p < pairs.len() - 1 {
        let front = pairs.drop_last();
        assert forall|a: int, b: int| 0 <= a < b < front.len() implies (#[trigger] front[a]).0 != (
        #[trigger] front[b]).0 by {
            assert(front[a] == pairs[a] && front[b] == pairs[b]);
        }
        lemma_lookup_once(front, p);
        assert(pairs[p].0 != pairs[pairs.len() - 1].0);
        assert(front[p] == pairs[p]);
    }
}

/// A key that is not listed has no value.
pub proof fn lemma_lookup_none(pairs: Seq<(i64, i64)>, key: i64)
    requires
        forall|a: int| 0 <= a < pairs.len() ==> (#[trigger] pairs[a]).0 != key,
    ensures
        lookup(pairs, key) is None,
    decreases pairs.len(),
{
    if pairs.len() > 0 {
        let front = pairs.drop_last();
        assert forall|a: int| 0 <= a < front.len() implies (#[trigger] front[a]).0 != key by {
            assert(front[a] == pairs[a]);
        }
        assert(pairs[pairs.len() - 1].0 != key);
        lemma_lookup_none(front, key);
    }
}

/// The must-link of a face is the person the user vouched for.
proof fn lemma_identity_of(lib: LibraryView, c: LinkConstraints, i: int)
    requires
        lib.wf(),
        constraints_of(lib, c),
        0 <= i < lib.faces.len(),
    ensures
        c.identity(lib.faces[i].id) == lib.faces[i].marks.confirmed_identity(),
{
    let pick = confirmed_face();
    let pairs = select(lib.faces, pick);
    let f = lib.faces[i];
    lemma_select_ascends(lib.faces, pick, |x: (i64, i64)| x.0);
    assert forall|a: int, b: int| 0 <= a < b < pairs.len() implies (#[trigger] pairs[a]).0 != (
    #[trigger] pairs[b]).0 by {}
    match f.marks.confirmed_identity() {
        Some(identity) => {
            lemma_select_contains(lib.faces, pick, i);
            let p = choose|p: int| 0 <= p < pairs.len() && pairs[p] == (f.id, identity);
            lemma_lookup_once(pairs, p);
        },
        None => {
            assert forall|a: int| 0 <= a < pairs.len() implies (#[trigger] pairs[a]).0 != f.id by {
                lemma_select_from(lib.faces, pick, a);
                let k = choose|k: int|
                    0 <= k < lib.faces.len() && pick(#[trigger] lib.faces[k]) == Some(pairs[a]);
                if k < i {
                    assert(lib.faces[k].id < lib.faces[i].id);
                } else if k > i {
                    assert(lib.faces[i].id < lib.faces[k].id);
                }
            }
            lemma_lookup_none(pairs, f.id);
        },
    }
}

/// The new cluster of a face: that of its place in the pool.
pub proof fn lemma_new_cluster(lib: LibraryView, c: LinkConstraints, i: int) -> (p: int)
    requires
        lib.wf(),
        0 <= i < lib.faces.len(),
        lib.faces[i].marks.cluster_id is Some,
    ensures
        0 <= p < select(lib.faces, in_pool()).len(),
        face_ids(select(lib.faces, in_pool()))[p] == lib.faces[i].id,
        rebuilt(lib, c).faces[i].marks.cluster_id == Some(new_clusters(lib, c)[p].1),
{
    let pool = select(lib.faces, in_pool());
    let f = lib.faces[i];
    lemma_select_ascends(lib.faces, in_pool(), |x: (i64, Seq<i32>)| x.0);
    lemma_select_contains(lib.faces, in_pool(), i);
    let p = choose|p: int| 0 <= p < pool.len() && pool[p] == (f.id, f.embedding);
    let pairs = new_clusters(lib, c);
    assert forall|a: int, b: int| 0 <= a < b < pairs.len() implies (#[trigger] pairs[a]).0 != (
    #[trigger] pairs[b]).0 by {
        assert(pairs[a].0 == pool[a].0 && pairs[b].0 == pool[b].0);
    }
    assert(pairs[p].0 == f.id);
    lemma_lookup_once(pairs, p);
    let now = lib.with_marks(reclustered(pairs));
    assert(now.faces[i] == marked(reclustered(pairs))(f));
    law_fold_keeps_decisions(now, i);
    p
}

/// After a rebuild, faces confirmed as one person are in one cluster.
pub proof fn law_rebuild_unites_confirmed_faces(
    lib: LibraryView,
    c: LinkConstraints,
    i: int,
    j: int,
)
    requires
        lib.wf(),
        machine_sized(lib),
        constraints_of(lib, c),
        0 <= i < lib.faces.len(),
        0 <= j < lib.faces.len(),
        lib.faces[i].marks.cluster_id is Some,
        lib.faces[j].marks.cluster_id is Some,
        lib.faces[i].marks.confirmed_identity() is Some,
        lib.faces[i].marks.confirmed_identity() == lib.faces[j].marks.confirmed_identity(),
    ensures
        rebuilt(lib, c).faces[i].marks.cluster_id == rebuilt(lib, c).faces[j].marks.cluster_id,
{
    let pool = select(lib.faces, in_pool());
    let (p, q) = (lemma_new_cluster(lib, c, i), lemma_new_cluster(lib, c, j));
    lemma_identity_of(lib, c, i);
    lemma_identity_of(lib, c, j);
    law_confirmed_faces_stay_together(unit_matrix(pool), face_ids(pool), c, p, q);
}

/// After a rebuild, faces confirmed as people that must be kept apart (declared different,
/// or with different names) are in different clusters.
pub proof fn law_rebuild_keeps_people_apart(
    lib: LibraryView,
    c: LinkConstraints,
    i: int,
    j: int,
    a: i64,
    b: i64,
)
    requires
        lib.wf(),
        machine_sized(lib),
        constraints_of(lib, c),
        0 <= i < lib.faces.len(),
        0 <= j < lib.faces.len(),
        lib.faces[i].marks.cluster_id is Some,
        lib.faces[j].marks.cluster_id is Some,
        lib.faces[i].marks.confirmed_identity() == Some(a),
        lib.faces[j].marks.confirmed_identity() == Some(b),
        a != b,
        kept_apart(lib).contains(pair(a, b)),
    ensures
        rebuilt(lib, c).faces[i].marks.cluster_id != rebuilt(lib, c).faces[j].marks.cluster_id,
{
    let pool = select(lib.faces, in_pool());
    let (p, q) = (lemma_new_cluster(lib, c, i), lemma_new_cluster(lib, c, j));
    lemma_identity_of(lib, c, i);
    lemma_identity_of(lib, c, j);
    law_constraints_are_honored(unit_matrix(pool), face_ids(pool), c, p, q);
}

/// The faces of one photo that may be one person: excepted by the user, or one face detected
/// twice.
pub open spec fn exceptions(lib: LibraryView) -> Seq<(i64, i64)> {
    let rows = crowded_faces(lib.faces);
    with_pairs(with_pairs(Seq::empty(), lib.same_photo_ok), doubles(rows, rows.len()))
}

proof fn lemma_tally_two<A>(s: Seq<A>, test: spec_fn(A) -> bool, i: int, j: int)
    requires
        0 <= i < j < s.len(),
        test(s[i]),
        test(s[j]),
    ensures
        tally(s, test) >= 2,
    decreases s.len(),
{
    let front = s.drop_last();
    if j < s.len() - 1 {
        assert(front[i] == s[i] && front[j] == s[j]);
        lemma_tally_two(front, test, i, j);
    } else {
        assert(front[i] == s[i]);
        lemma_tally_one(front, test, i);
    }
}

proof fn lemma_tally_one<A>(s: Seq<A>, test: spec_fn(A) -> bool, i: int)
    requires
        0 <= i < s.len(),
        test(s[i]),
    ensures
        tally(s, test) >= 1,
    decreases s.len(),
{
    if i < s.len() - 1 {
        assert(s.drop_last()[i] == s[i]);
        lemma_tally_one(s.drop_last(), test, i);
    }
}

/// A clustered face that shares its photo with another has its photo on record.
proof fn lemma_photo_of(lib: LibraryView, c: LinkConstraints, i: int, j: int)
    requires
        lib.wf(),
        lib.faces.len() <= usize::MAX,
        constraints_of(lib, c),
        0 <= i < lib.faces.len(),
        0 <= j < lib.faces.len(),
        i != j,
        lib.faces[i].marks.cluster_id is Some,
        lib.faces[j].marks.cluster_id is Some,
        lib.faces[i].photo_id == lib.faces[j].photo_id,
    ensures
        c.photo(lib.faces[i].id) == Some(lib.faces[i].photo_id),
{
    let f = lib.faces[i];
    let test = clustered_in(f.photo_id);
    if i < j {
        lemma_tally_two(lib.faces, test, i, j);
    } else {
        lemma_tally_two(lib.faces, test, j, i);
    }
    let pick = crowded(lib.faces);
    let all = select(lib.faces, pick);
    let keys = all.map_values(by_photo());
    lemma_select_len(lib.faces, pick);
    lemma_select_ascends(lib.faces, pick, |x: PlacedFace| x.face_id);
    lemma_order_of(keys);
    let order = order_of(keys);
    let rows = crowded_faces(lib.faces);
    let pairs = face_photos(rows);
    lemma_select_contains(lib.faces, pick, i);
    let k = choose|k: int| 0 <= k < all.len() && all[k] == pick(f)->0;
    assert(order.contains(k as usize));
    let p = choose|p: int| 0 <= p < order.len() && order[p] == k as usize;
    assert(rows[p] == all[k]);
    assert forall|a: int, b: int| 0 <= a < b < pairs.len() implies (#[trigger] pairs[a]).0 != (
    #[trigger] pairs[b]).0 by {
        let (x, y) = (order[a] as int, order[b] as int);
        assert(before(keys, x, y));
        assert(order[a] < keys.len() && order[b] < keys.len());
        assert(pairs[a].0 == all[x].face_id && pairs[b].0 == all[y].face_id);
        if x < y {
            assert(all[x].face_id < all[y].face_id);
        } else {
            assert(x != y);
            assert(all[y].face_id < all[x].face_id);
        }
    }
    assert(pairs[p] == (f.id, f.photo_id));
    lemma_lookup_once(pairs, p);
}

/// After a rebuild, two faces of one photo are in different clusters, unless the user
/// excepted them, they are one face detected twice, or both were confirmed as one person.
pub proof fn law_rebuild_parts_faces_of_a_photo(
    lib: LibraryView,
    c: LinkConstraints,
    i: int,
    j: int,
)
    requires
        lib.wf(),
        lib.faces.len() <= usize::MAX,
        machine_sized(lib),
        constraints_of(lib, c),
        0 <= i < lib.faces.len(),
        0 <= j < lib.faces.len(),
        i != j,
        lib.faces[i].marks.cluster_id is Some,
        lib.faces[j].marks.cluster_id is Some,
        lib.faces[i].photo_id == lib.faces[j].photo_id,
        !exceptions(lib).contains(pair(lib.faces[i].id, lib.faces[j].id)),
        lib.faces[i].marks.confirmed_identity() is None || lib.faces[i].marks.confirmed_identity()
            != lib.faces[j].marks.confirmed_identity(),
    ensures
        rebuilt(lib, c).faces[i].marks.cluster_id != rebuilt(lib, c).faces[j].marks.cluster_id,
{
    let pool = select(lib.faces, in_pool());
    let (p, q) = (lemma_new_cluster(lib, c, i), lemma_new_cluster(lib, c, j));
    lemma_identity_of(lib, c, i);
    lemma_identity_of(lib, c, j);
    lemma_photo_of(lib, c, i, j);
    lemma_photo_of(lib, c, j, i);
    if i < j {
        assert(lib.faces[i].id < lib.faces[j].id);
    } else {
        assert(lib.faces[j].id < lib.faces[i].id);
    }
    law_constraints_are_honored(unit_matrix(pool), face_ids(pool), c, p, q);
}

} // verus!
