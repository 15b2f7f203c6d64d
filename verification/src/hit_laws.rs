//! Which groups match which persons, said of the faces of a library.

use vstd::prelude::*;

use crate::confirmations::{anchor, by_score, confirmed_person, exemplar};
use crate::evidence::{clusters_of, units_of};
use crate::fold_laws::lemma_some_satisfy;
use crate::groups::group_embedding;
use crate::library::{identity_key, FaceView, LibraryView};
use crate::listing_laws::{
    law_counting_counts, law_picking_keeps_the_order, law_ranking_loses_nothing,
    lemma_select_tally,
};
use crate::match_laws::{
    law_anchor_holds_the_best_confirmed, law_candidate_mostly_looks_like_the_person,
    law_core_is_a_clear_majority, law_look_alike_is_a_candidate, of_cluster,
    of_cluster_and_alike, paired,
};
use crate::order::arranged;
use crate::recognition::{all_hits, candidates_for, core_of, hit, hits, pool};
use crate::rows::{
    distinct, lemma_distinct, lemma_select_contains, lemma_select_from, lemma_select_len,
    select,
};
use crate::similarity::{dot, unit, unit_rows};

verus! {

/// The user confirmed the face as the person.
pub open spec fn is_confirmed(f: FaceView, identity: i64) -> bool {
    f.marks.confirmed && f.marks.identity_id == Some(identity)
}

/// How alike two faces are.
pub open spec fn alike(a: FaceView, b: FaceView) -> int {
    dot(unit(a.embedding), unit(b.embedding))
}

/// A library whose faces are few and short enough for a machine.
pub open spec fn faces_fit(faces: Seq<FaceView>) -> bool {
    &&& faces.len() <= usize::MAX
    &&& forall|i: int| 0 <= i < faces.len() ==> (#[trigger] faces[i]).embedding.len() <= usize::MAX
}

/// A hit is a candidate of some person.
proof fn lemma_hits_from(lib: LibraryView, ids: Seq<i64>, n: nat, k: int) -> (r: (int, int))
    requires
        n <= ids.len(),
        0 <= k < hits(lib, ids, n).len(),
    ensures
        0 <= r.0 < n,
        0 <= r.1 < candidates_for(lib, ids[r.0]).len(),
        hits(lib, ids, n)[k] == hit(ids[r.0])(candidates_for(lib, ids[r.0])[r.1]),
    decreases n,
{
    let front = hits(lib, ids, (n - 1) as nat);
    if k < front.len() {
        lemma_hits_from(lib, ids, (n - 1) as nat, k)
    } else {
        (n - 1, k - front.len())
    }
}

/// A candidate of a person is a hit.
proof fn lemma_hits_hold(lib: LibraryView, ids: Seq<i64>, n: nat, q: int, j: int) -> (k: int)
    requires
        0 <= q < n <= ids.len(),
        0 <= j < candidates_for(lib, ids[q]).len(),
    ensures
        0 <= k < hits(lib, ids, n).len(),
        hits(lib, ids, n)[k] == hit(ids[q])(candidates_for(lib, ids[q])[j]),
    decreases n,
{
    let front = hits(lib, ids, (n - 1) as nat);
    if q < n - 1 {
        lemma_hits_hold(lib, ids, (n - 1) as nat, q, j)
    } else {
        front.len() + j
    }
}

/// Counting faces of the pool is counting faces of the library.
pub proof fn lemma_pool_counts(
    faces: Seq<FaceView>,
    test: spec_fn((i64, Seq<i32>)) -> bool,
    raw: spec_fn(FaceView) -> bool,
)
    requires
        forall|i: int|
            0 <= i < faces.len() ==> raw(#[trigger] faces[i]) == (faces[i].marks.group() is Some
                && test((faces[i].marks.group()->0, unit(faces[i].embedding)))),
    ensures
        ({
            let p = select(faces, group_embedding());
            paired(units_of(p), clusters_of(p)).filter(test).len() == faces.filter(raw).len()
        }),
    decreases faces.len(),
{
    reveal(Seq::filter);
    let p = select(faces, group_embedding());
    if faces.len() > 0 {
        let front = faces.drop_last();
        let q = select(front, group_embedding());
        assert forall|i: int| 0 <= i < front.len() implies raw(#[trigger] front[i]) == (
        front[i].marks.group() is Some && test(
            (front[i].marks.group()->0, unit(front[i].embedding)),
        )) by {
            assert(front[i] == faces[i]);
        }
        lemma_pool_counts(front, test, raw);
        assert(faces[faces.len() - 1] == faces.last());
        if faces.last().marks.group() is Some {
            let all = paired(units_of(p), clusters_of(p));
            assert(all.drop_last() =~= paired(units_of(q), clusters_of(q)));
            assert(all.last() == (faces.last().marks.group()->0, unit(faces.last().embedding)));
        }
    }
}

/// The anchor of a person with fewer than six confirmed faces is all of them.
proof fn lemma_small_anchor(faces: Seq<FaceView>, identity: i64) -> (at: Seq<int>)
    requires
        faces.len() <= usize::MAX,
        faces.filter(|f: FaceView| is_confirmed(f, identity)).len() < 6,
    ensures
        ({
            let a = core_of(anchor(faces, identity, 64));
            &&& a == anchor(faces, identity, 64)
            &&& a.len() == at.len()
            &&& forall|p: int|
                0 <= p < at.len() ==> 0 <= #[trigger] at[p] < faces.len() && is_confirmed(
                    faces[at[p]],
                    identity,
                ) && faces[at[p]].embedding == a[p]
            &&& forall|i: int|
                0 <= i < faces.len() && is_confirmed(#[trigger] faces[i], identity) ==> at.contains(
                    i,
                )
        }),
{
    let at = law_anchor_holds_the_best_confirmed(faces, identity, 64);
    let a = anchor(faces, identity, 64);
    let g = |f: FaceView| is_confirmed(f, identity);
    lemma_select_len(faces, exemplar(identity));
    lemma_select_tally(faces, exemplar(identity), g);
    law_counting_counts(faces, g);
    let all = select(faces, exemplar(identity));
    let sorted = arranged(all, all.map_values(by_score()));
    let from = law_ranking_loses_nothing(
        all,
        all.map_values(by_score()),
    );
    assert(sorted.len() == all.len());
    assert(a.len() < 6);
    let idx = law_core_is_a_clear_majority(a);
    assert forall|i: int| 0 <= i < faces.len() && is_confirmed(#[trigger] faces[i], identity) implies
    at.contains(i) by {
        assert(faces[i].marks.confirmed);
    }
    at
}

proof fn lemma_anchor_members(faces: Seq<FaceView>, identity: i64, p: int) -> (i: int)
    requires
        faces.len() <= usize::MAX,
        0 <= p < core_of(anchor(faces, identity, 64)).len(),
    ensures
        0 <= i < faces.len(),
        is_confirmed(faces[i], identity),
        faces[i].embedding == core_of(anchor(faces, identity, 64))[p],
{
    let a = anchor(faces, identity, 64);
    let at = law_anchor_holds_the_best_confirmed(faces, identity, 64);
    let idx = law_core_is_a_clear_majority(a);
    if core_of(a) == a {
        assert(faces[at[p]].marks.confirmed);
        at[p]
    } else {
        assert(idx[p] < a.len());
        let q = idx[p] as int;
        assert(faces[at[q]].marks.confirmed);
        at[q]
    }
}

pub proof fn lemma_unit_lens(lib: LibraryView, identity: i64)
    requires
        faces_fit(lib.faces),
    ensures
        ({
            let m = units_of(pool(lib));
            let a = unit_rows(core_of(anchor(lib.faces, identity, 64)));
            &&& m.len() <= usize::MAX
            &&& forall|i: int| 0 <= i < m.len() ==> (#[trigger] m[i]).len() <= usize::MAX
            &&& forall|i: int| 0 <= i < a.len() ==> (#[trigger] a[i]).len() <= usize::MAX
        }),
{
    let m = units_of(pool(lib));
    let a = unit_rows(core_of(anchor(lib.faces, identity, 64)));
    lemma_select_len(lib.faces, group_embedding());
    assert forall|i: int| 0 <= i < m.len() implies (#[trigger] m[i]).len() <= usize::MAX by {
        lemma_select_from(lib.faces, group_embedding(), i);
        let k = choose|k: int|
            0 <= k < lib.faces.len() && group_embedding()(#[trigger] lib.faces[k]) == Some(
                pool(lib)[i],
            );
        assert(lib.faces[k].embedding.len() <= usize::MAX);
    }
    assert forall|i: int| 0 <= i < a.len() implies (#[trigger] a[i]).len() <= usize::MAX by {
        let k = lemma_anchor_members(lib.faces, identity, i);
        assert(lib.faces[k].embedding.len() <= usize::MAX);
    }
}

/// **A hit measures a group against a person.** Its person is confirmed, its group is not the
/// person's own, and its similarity, at least one half, is that of a face of the group and a
/// confirmed face of the person. Where the person has fewer than six confirmed faces, no face
/// of the group is more like one of them.
pub proof fn law_hit_measures_the_group(lib: LibraryView, k: int) -> (at: (int, int))
    requires
        faces_fit(lib.faces),
        0 <= k < all_hits(lib).len(),
    ensures
        ({
            let h = all_hits(lib)[k];
            let (i, j) = at;
            &&& 0 <= i < lib.faces.len() && 0 <= j < lib.faces.len()
            &&& lib.faces[i].marks.group() == Some(h.cluster_id)
            &&& is_confirmed(lib.faces[j], h.identity_id)
            &&& alike(lib.faces[i], lib.faces[j]) == h.sim
            &&& h.sim >= 500_000_000_000
            &&& h.identity_id >= 1 ==> h.cluster_id != -h.identity_id
            &&& lib.faces.filter(|f: FaceView| is_confirmed(f, h.identity_id)).len() < 6
                ==> forall|a: int, b: int|
                0 <= a < lib.faces.len() && 0 <= b < lib.faces.len()
                    && lib.faces[a].marks.group() == Some(h.cluster_id) && is_confirmed(
                    lib.faces[b],
                    h.identity_id,
                ) ==> #[trigger] alike(lib.faces[a], lib.faces[b]) <= h.sim
        }),
{
    let ids = distinct(select(lib.faces, confirmed_person()));
    let h = all_hits(lib)[k];
    let (q, c) = lemma_hits_from(lib, ids, ids.len(), k);
    let id = ids[q];
    let m = units_of(pool(lib));
    let cl = clusters_of(pool(lib));
    let ms = unit_rows(core_of(anchor(lib.faces, id, 64)));
    lemma_unit_lens(lib, id);
    law_candidate_mostly_looks_like_the_person(ms, m, cl, Some(identity_key(id)), c);
    let (x, y) = choose|x: int, y: int|
        0 <= x < m.len() && 0 <= y < ms.len() && cl[x] == h.cluster_id && #[trigger] dot(
            m[x],
            ms[y],
        ) == h.sim;
    lemma_select_from(lib.faces, group_embedding(), x);
    let i = choose|i: int|
        0 <= i < lib.faces.len() && group_embedding()(#[trigger] lib.faces[i]) == Some(pool(lib)[x]);
    let j = lemma_anchor_members(lib.faces, id, y);
    assert(m[x] == unit(lib.faces[i].embedding));
    assert(ms[y] == unit(lib.faces[j].embedding));
    if lib.faces.filter(|f: FaceView| is_confirmed(f, id)).len() < 6 {
        let at = lemma_small_anchor(lib.faces, id);
        assert forall|a: int, b: int|
            0 <= a < lib.faces.len() && 0 <= b < lib.faces.len() && lib.faces[a].marks.group()
                == Some(h.cluster_id) && is_confirmed(lib.faces[b], id) implies #[trigger] alike(
            lib.faces[a],
            lib.faces[b],
        ) <= h.sim by {
            assert(at.contains(b));
            let p = choose|p: int| 0 <= p < at.len() && at[p] == b;
            let places = law_picking_keeps_the_order(lib.faces, group_embedding());
            assert(group_embedding()(lib.faces[a]) is Some);
            assert(places.contains(a));
            let r = choose|r: int| 0 <= r < places.len() && places[r] == a;
            assert(group_embedding()(lib.faces[places[r]]) == Some(pool(lib)[r]));
            assert(cl[r] == h.cluster_id);
            assert(m[r] == unit(lib.faces[a].embedding));
            assert(ms[p] == unit(lib.faces[b].embedding));
            assert(dot(m[r], ms[p]) <= h.sim);
        }
    }
    (i, j)
}

/// **A group that mostly looks like a person is a hit of theirs.** For a person with one to
/// five confirmed faces and a group that is not their own: if more than half of the group's
/// faces, and at least two unless it has only one, are at least half like a confirmed face
/// of the person, the person has a hit on the group.
pub proof fn law_look_alike_is_a_hit(lib: LibraryView, group: i64, identity: i64) -> (k: int)
    requires
        faces_fit(lib.faces),
        group != identity_key(identity),
        1 <= lib.faces.filter(|f: FaceView| is_confirmed(f, identity)).len() < 6,
        ({
            let size = lib.faces.filter(|f: FaceView| f.marks.group() == Some(group)).len();
            let matched = lib.faces.filter(
                |f: FaceView|
                    f.marks.group() == Some(group) && exists|j: int|
                        0 <= j < lib.faces.len() && is_confirmed(#[trigger] lib.faces[j], identity)
                            && alike(f, lib.faces[j]) >= 500_000_000_000,
            ).len();
            matched * 2 > size && (matched >= 2 || size == 1)
        }),
    ensures
        0 <= k < all_hits(lib).len(),
        all_hits(lib)[k].cluster_id == group,
        all_hits(lib)[k].identity_id == identity,
{
    let persons = select(lib.faces, confirmed_person());
    let ids = distinct(persons);
    let m = units_of(pool(lib));
    let cl = clusters_of(pool(lib));
    let ms = unit_rows(core_of(anchor(lib.faces, identity, 64)));
    let g = |f: FaceView| is_confirmed(f, identity);
    law_counting_counts(lib.faces, g);
    lemma_some_satisfy(lib.faces, g);
    let w = choose|w: int| 0 <= w < lib.faces.len() && g(#[trigger] lib.faces[w]);
    lemma_select_contains(lib.faces, confirmed_person(), w);
    lemma_distinct(persons);
    assert(ids.contains(identity));
    let q = choose|q: int| 0 <= q < ids.len() && ids[q] == identity;
    lemma_select_len(lib.faces, group_embedding());
    let at = lemma_small_anchor(lib.faces, identity);
    assert(at.contains(w));
    lemma_pool_counts(
        lib.faces,
        of_cluster(group),
        |f: FaceView| f.marks.group() == Some(group),
    );
    let near = |f: FaceView|
        f.marks.group() == Some(group) && exists|j: int|
            0 <= j < lib.faces.len() && is_confirmed(#[trigger] lib.faces[j], identity) && alike(
                f,
                lib.faces[j],
            ) >= 500_000_000_000;
    assert forall|i: int| 0 <= i < lib.faces.len() implies near(#[trigger] lib.faces[i]) == (
    lib.faces[i].marks.group() is Some && of_cluster_and_alike(group, ms)(
        (lib.faces[i].marks.group()->0, unit(lib.faces[i].embedding)),
    )) by {
        let f = lib.faces[i];
        let x = (f.marks.group()->0, unit(f.embedding));
        if near(f) {
            let j = choose|j: int|
                0 <= j < lib.faces.len() && is_confirmed(#[trigger] lib.faces[j], identity)
                    && alike(f, lib.faces[j]) >= 500_000_000_000;
            assert(at.contains(j));
            let p = choose|p: int| 0 <= p < at.len() && at[p] == j;
            assert(ms[p] == unit(lib.faces[j].embedding));
            assert(dot(x.1, ms[p]) >= 500_000_000_000);
        }
        if f.marks.group() is Some && of_cluster_and_alike(group, ms)(x) {
            let p = choose|p: int|
                0 <= p < ms.len() && #[trigger] dot(x.1, ms[p]) >= 500_000_000_000;
            assert(ms[p] == unit(lib.faces[at[p]].embedding));
            assert(is_confirmed(lib.faces[at[p]], identity));
        }
    }
    lemma_pool_counts(lib.faces, of_cluster_and_alike(group, ms), near);
    let c = law_look_alike_is_a_candidate(ms, m, cl, Some(identity_key(identity)), group);
    lemma_hits_hold(lib, ids, ids.len(), q, c)
}

} // verus!
