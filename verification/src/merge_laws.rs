//! Which merges are suggested and which questions are asked, said of the faces.

use vstd::prelude::*;

use crate::cluster::pair;
use crate::evidence::{
    all_evidence, clusters_of, corroborated, cross_from, cross_pairs, evidence_for, is_pair,
    keys_of, strongest, units_of,
};
use crate::grouping_laws::lemma_pigeons;
use crate::groups::{group_embedding, group_photo, in_group};
use crate::hit_laws::{alike, faces_fit};
use crate::library::{FaceView, LibraryView};
use crate::listing_laws::{
    law_counting_counts, law_keeping_keeps_the_order, law_picking_keeps_the_order,
    lemma_tally_filter,
};
use crate::neighbors::{
    lemma_ranked_complete, lemma_ranked_descending, lemma_ranked_entries, nearest, ranked,
};
use crate::recognition::pool;
use crate::rows::{
    distinct, lemma_distinct, lemma_select_contains, lemma_select_from, lemma_select_len,
    lemma_tally_bound, select,
};
use crate::similarity::{dot, lemma_dot_fits, unit};
use crate::suggestions::{evidence_of, groups_together, size_of};

verus! {

/// How many faces a group holds.
pub open spec fn face_count(lib: LibraryView, group: i64) -> nat {
    lib.faces.filter(|f: FaceView| f.marks.group() == Some(group)).len()
}

pub proof fn lemma_size(lib: LibraryView, group: i64)
    ensures
        size_of(lib, group) == face_count(lib, group),
{
    lemma_tally_filter(
        lib.faces,
        in_group(group),
        |f: FaceView| f.marks.group() == Some(group),
    );
}

/// Some photo shows a face of each group.
pub open spec fn share_a_photo(lib: LibraryView, a: i64, b: i64) -> bool {
    exists|i: int, j: int|
        0 <= i < lib.faces.len() && 0 <= j < lib.faces.len() && (
        #[trigger] lib.faces[i]).marks.group() == Some(a) && (
        #[trigger] lib.faces[j]).marks.group() == Some(b) && lib.faces[i].photo_id
            == lib.faces[j].photo_id
}

pub proof fn lemma_share(lib: LibraryView, a: i64, b: i64)
    ensures
        groups_together(lib, a, b) == share_a_photo(lib, a, b),
{
    let all = select(lib.faces, group_photo());
    if groups_together(lib, a, b) {
        let p = choose|p: i64| #[trigger] all.contains((a, p)) && all.contains((b, p));
        let x = choose|x: int| 0 <= x < all.len() && all[x] == (a, p);
        let y = choose|y: int| 0 <= y < all.len() && all[y] == (b, p);
        lemma_select_from(lib.faces, group_photo(), x);
        lemma_select_from(lib.faces, group_photo(), y);
        let i = choose|i: int|
            0 <= i < lib.faces.len() && group_photo()(#[trigger] lib.faces[i]) == Some(all[x]);
        let j = choose|j: int|
            0 <= j < lib.faces.len() && group_photo()(#[trigger] lib.faces[j]) == Some(all[y]);
        assert(lib.faces[i].marks.group() == Some(a) && lib.faces[j].marks.group() == Some(b));
    }
    if share_a_photo(lib, a, b) {
        let (i, j) = choose|i: int, j: int|
            0 <= i < lib.faces.len() && 0 <= j < lib.faces.len() && (
            #[trigger] lib.faces[i]).marks.group() == Some(a) && (
            #[trigger] lib.faces[j]).marks.group() == Some(b) && lib.faces[i].photo_id
                == lib.faces[j].photo_id;
        lemma_select_contains(lib.faces, group_photo(), i);
        lemma_select_contains(lib.faces, group_photo(), j);
        assert(all.contains((a, lib.faces[i].photo_id)));
    }
}

/// The user declared the persons of the two groups different people.
pub open spec fn declared_apart(lib: LibraryView, a: i64, b: i64) -> bool {
    a < 0 && b < 0 && a > i64::MIN && b > i64::MIN && (lib.cannot_link.contains(
        ((-a) as i64, (-b) as i64),
    ) && -a <= -b || lib.cannot_link.contains(((-b) as i64, (-a) as i64)) && -b <= -a)
}

/// Every pair of clusters that is listed comes from two faces.
proof fn lemma_cross_from_trace(m: Seq<Seq<i32>>, cl: Seq<i64>, i: int, n: nat) -> (at: Seq<int>)
    requires
        0 <= i < m.len() <= usize::MAX,
        cl.len() == m.len(),
        forall|j: int| 0 <= j < m.len() ==> (#[trigger] m[j]).len() <= usize::MAX,
        n <= nearest(m, 450_000_000_000, i).len(),
    ensures
        at.len() == cross_from(m, cl, i, n).len(),
        forall|p: int|
            0 <= p < at.len() ==> {
                let j = #[trigger] at[p];
                &&& i < j < m.len()
                &&& cl[i] != cl[j]
                &&& cross_from(m, cl, i, n)[p] == (pair(cl[i], cl[j]), dot(m[i], m[j]) as i128)
                &&& dot(m[i], m[j]) >= 450_000_000_000
                &&& exists|q: int|
                    0 <= q < n && (#[trigger] nearest(m, 450_000_000_000, i)[q]).0 == j
            },
        forall|p: int, q: int| 0 <= p < q < at.len() ==> #[trigger] at[p] != #[trigger] at[q],
        forall|q: int|
            0 <= q < n && i < (#[trigger] nearest(m, 450_000_000_000, i)[q]).0
                && cl[nearest(m, 450_000_000_000, i)[q].0 as int] != cl[i] ==> at.contains(
                nearest(m, 450_000_000_000, i)[q].0 as int,
            ),
    decreases n,
{
    if n == 0 {
        Seq::empty()
    } else {
        let h = (n - 1) as nat;
        let near = nearest(m, 450_000_000_000, i);
        let rest = lemma_cross_from_trace(m, cl, i, h);
        lemma_entries(m, 450_000_000_000, i);
        let (j, sim) = near[h as int];
        let at = if i < j && cl[i] != cl[j as int] {
            rest.push(j as int)
        } else {
            rest
        };
        assert forall|p: int| 0 <= p < at.len() implies {
            let k = #[trigger] at[p];
            &&& i < k < m.len()
            &&& cl[i] != cl[k]
            &&& cross_from(m, cl, i, n)[p] == (pair(cl[i], cl[k]), dot(m[i], m[k]) as i128)
            &&& dot(m[i], m[k]) >= 450_000_000_000
            &&& exists|q: int| 0 <= q < n && (#[trigger] near[q]).0 == k
        } by {
            if p < rest.len() {
                assert(at[p] == rest[p]);
                let q = choose|q: int| 0 <= q < h && (#[trigger] near[q]).0 == rest[p];
                assert(near[q].0 == at[p]);
            } else {
                assert(near[h as int].0 == at[p]);
            }
        }
        assert forall|p: int, q: int| 0 <= p < q < at.len() implies #[trigger] at[p]
            != #[trigger] at[q] by {
            if q == rest.len() {
                let r = choose|r: int| 0 <= r < h && (#[trigger] near[r]).0 == rest[p];
                assert(near[r].0 != near[h as int].0);
            }
        }
        assert forall|q: int|
            0 <= q < n && i < (#[trigger] near[q]).0 && cl[near[q].0 as int] != cl[i] implies at.contains(
        near[q].0 as int) by {
            if q < h {
                assert(rest.contains(near[q].0 as int));
                let p = choose|p: int| 0 <= p < rest.len() && rest[p] == near[q].0 as int;
                assert(at[p] == near[q].0 as int);
            } else {
                assert(at[rest.len() as int] == near[q].0 as int);
            }
        }
        at
    }
}

/// What a neighbor list holds.
proof fn lemma_entries(m: Seq<Seq<i32>>, floor: int, i: int)
    requires
        0 <= i < m.len() <= usize::MAX,
        forall|j: int| 0 <= j < m.len() ==> (#[trigger] m[j]).len() <= usize::MAX,
    ensures
        ({
            let near = nearest(m, floor, i);
            &&& near.len() <= 10
            &&& forall|p: int|
                0 <= p < near.len() ==> {
                    let e = #[trigger] near[p];
                    &&& e.0 < m.len()
                    &&& e.0 != i
                    &&& e.1 == dot(m[i], m[e.0 as int])
                    &&& e.1 >= floor
                }
            &&& forall|p: int, q: int|
                0 <= p < q < near.len() ==> (#[trigger] near[p]).0 != (#[trigger] near[q]).0
        }),
{
    assert forall|j: int| 0 <= j < m.len() implies i128::MIN <= dot(m[i], #[trigger] m[j])
        <= i128::MAX by {
        lemma_dot_fits(m[i], m[j]);
    }
    lemma_ranked_entries(m, floor, i, m.len());
    let all = ranked(m, floor, i, m.len());
    let near = nearest(m, floor, i);
    assert forall|p: int| 0 <= p < near.len() implies #[trigger] near[p] == all[p] by {}
}

/// Every listed pair comes from two faces, and no two from the same.
proof fn lemma_cross_trace(m: Seq<Seq<i32>>, cl: Seq<i64>, n: nat) -> (at: Seq<(int, int)>)
    requires
        n <= m.len() <= usize::MAX,
        cl.len() == m.len(),
        forall|j: int| 0 <= j < m.len() ==> (#[trigger] m[j]).len() <= usize::MAX,
    ensures
        at.len() == cross_pairs(m, cl, n).len(),
        forall|p: int|
            0 <= p < at.len() ==> {
                let (i, j) = #[trigger] at[p];
                &&& 0 <= i < n && i < j < m.len()
                &&& cl[i] != cl[j]
                &&& cross_pairs(m, cl, n)[p] == (pair(cl[i], cl[j]), dot(m[i], m[j]) as i128)
                &&& dot(m[i], m[j]) >= 450_000_000_000
            },
        forall|p: int, q: int| 0 <= p < q < at.len() ==> #[trigger] at[p] != #[trigger] at[q],
        forall|i: int, q: int|
            0 <= i < n && 0 <= q < nearest(m, 450_000_000_000, i).len() && i < (
            #[trigger] nearest(m, 450_000_000_000, i)[q]).0 && cl[nearest(
                m,
                450_000_000_000,
                i,
            )[q].0 as int] != cl[i] ==> at.contains(
                (i, nearest(m, 450_000_000_000, i)[q].0 as int),
            ),
    decreases n,
{
    if n == 0 {
        Seq::empty()
    } else {
        let h = n - 1;
        let rest = lemma_cross_trace(m, cl, h as nat);
        let more = lemma_cross_from_trace(m, cl, h, nearest(m, 450_000_000_000, h).len());
        let last = Seq::new(more.len(), |p: int| (h, more[p]));
        let at = rest + last;
        assert forall|p: int| 0 <= p < at.len() implies {
            let (i, j) = #[trigger] at[p];
            &&& 0 <= i < n && i < j < m.len()
            &&& cl[i] != cl[j]
            &&& cross_pairs(m, cl, n)[p] == (pair(cl[i], cl[j]), dot(m[i], m[j]) as i128)
            &&& dot(m[i], m[j]) >= 450_000_000_000
        } by {
            if p < rest.len() {
                assert(at[p] == rest[p]);
            } else {
                assert(at[p] == (h, more[p - rest.len()]));
            }
        }
        assert forall|p: int, q: int| 0 <= p < q < at.len() implies #[trigger] at[p]
            != #[trigger] at[q] by {
            if q < rest.len() {
                assert(rest[p] != rest[q]);
            } else if p < rest.len() {
                assert(at[p] == rest[p] && at[p].0 < h);
            } else {
                assert(more[p - rest.len()] != more[q - rest.len()]);
            }
        }
        assert forall|i: int, q: int|
            0 <= i < n && 0 <= q < nearest(m, 450_000_000_000, i).len() && i < (
            #[trigger] nearest(m, 450_000_000_000, i)[q]).0 && cl[nearest(
                m,
                450_000_000_000,
                i,
            )[q].0 as int] != cl[i] implies at.contains(
            (i, nearest(m, 450_000_000_000, i)[q].0 as int),
        ) by {
            let j = nearest(m, 450_000_000_000, i)[q].0 as int;
            if i < h {
                assert(rest.contains((i, j)));
                let p = choose|p: int| 0 <= p < rest.len() && rest[p] == (i, j);
                assert(at[p] == (i, j));
            } else {
                assert(more.contains(j));
                let p = choose|p: int| 0 <= p < more.len() && more[p] == j;
                assert(at[rest.len() + p] == (i, j));
            }
        }
        at
    }
}

proof fn lemma_strongest_of(pairs: Seq<((i64, i64), i128)>, key: (i64, i64))
    ensures
        strongest(pairs, key) >= 0,
        forall|p: int|
            0 <= p < pairs.len() && (#[trigger] pairs[p]).0 == key ==> pairs[p].1 <= strongest(
                pairs,
                key,
            ),
        strongest(pairs, key) > 0 ==> exists|p: int|
            0 <= p < pairs.len() && (#[trigger] pairs[p]).0 == key && pairs[p].1 == strongest(
                pairs,
                key,
            ),
    decreases pairs.len(),
{
    if pairs.len() > 0 {
        let front = pairs.drop_last();
        let n = pairs.len() - 1;
        lemma_strongest_of(front, key);
        assert(pairs[n] == pairs.last());
        assert forall|p: int| 0 <= p < pairs.len() && (#[trigger] pairs[p]).0 == key implies
        pairs[p].1 <= strongest(pairs, key) by {
            if p < n {
                assert(front[p] == pairs[p]);
            }
        }
        if strongest(front, key) > 0 {
            let p = choose|p: int|
                0 <= p < front.len() && (#[trigger] front[p]).0 == key && front[p].1 == strongest(
                    front,
                    key,
                );
            assert(pairs[p] == front[p]);
        }
    }
}

/// The faces of the pool are faces of the library.
proof fn lemma_pool(lib: LibraryView) -> (places: Seq<int>)
    requires
        faces_fit(lib.faces),
    ensures
        places.len() == pool(lib).len(),
        pool(lib).len() <= usize::MAX,
        forall|p: int|
            0 <= p < places.len() ==> {
                let f = lib.faces[#[trigger] places[p]];
                &&& 0 <= places[p] < lib.faces.len()
                &&& f.marks.group() == Some(clusters_of(pool(lib))[p])
                &&& units_of(pool(lib))[p] == unit(f.embedding)
                &&& units_of(pool(lib))[p].len() <= usize::MAX
            },
        forall|p: int, q: int|
            0 <= p < q < places.len() ==> #[trigger] places[p] < #[trigger] places[q],
        forall|i: int|
            0 <= i < lib.faces.len() && (#[trigger] lib.faces[i]).marks.group() is Some
                ==> places.contains(i),
{
    let places = law_picking_keeps_the_order(lib.faces, group_embedding());
    lemma_select_len(lib.faces, group_embedding());
    assert forall|p: int| 0 <= p < places.len() implies {
        let f = lib.faces[#[trigger] places[p]];
        &&& 0 <= places[p] < lib.faces.len()
        &&& f.marks.group() == Some(clusters_of(pool(lib))[p])
        &&& units_of(pool(lib))[p] == unit(f.embedding)
        &&& units_of(pool(lib))[p].len() <= usize::MAX
    } by {
        assert(group_embedding()(lib.faces[places[p]]) == Some(pool(lib)[p]));
        assert(lib.faces[places[p]].embedding.len() <= usize::MAX);
    }
    assert forall|i: int|
        0 <= i < lib.faces.len() && (#[trigger] lib.faces[i]).marks.group() is Some implies
    places.contains(i) by {
        assert(group_embedding()(lib.faces[i]) is Some);
    }
    places
}

/// **Evidence is faces that look alike.** Evidence between two groups speaks of two different
/// ones, is backed by at least three pairs of faces across them that are at least 0.45 alike,
/// and its similarity is the highest of those pairs.
pub proof fn law_evidence_is_faces_alike(lib: LibraryView, k: int) -> (backing: Seq<(int, int)>)
    requires
        faces_fit(lib.faces),
        0 <= k < evidence_of(lib).len(),
    ensures
        ({
            let e = evidence_of(lib)[k];
            &&& e.a < e.b
            &&& backing.len() >= 3
            &&& backing.no_duplicates()
            &&& forall|p: int|
                0 <= p < backing.len() ==> {
                    let (i, j) = #[trigger] backing[p];
                    let (f, g) = (lib.faces[i], lib.faces[j]);
                    &&& 0 <= i < j < lib.faces.len()
                    &&& (f.marks.group() == Some(e.a) && g.marks.group() == Some(e.b))
                        || (f.marks.group() == Some(e.b) && g.marks.group() == Some(e.a))
                    &&& 450_000_000_000 <= alike(f, g) <= e.max_sim
                }
            &&& exists|p: int|
                0 <= p < backing.len() && alike(
                    lib.faces[(#[trigger] backing[p]).0],
                    lib.faces[backing[p].1],
                ) == e.max_sim
        }),
{
    let m = units_of(pool(lib));
    let cl = clusters_of(pool(lib));
    let places = lemma_pool(lib);
    assert forall|j: int| 0 <= j < m.len() implies (#[trigger] m[j]).len() <= usize::MAX by {
        assert(0 <= places[j]);
    }
    let cross = cross_pairs(m, cl, m.len());
    let all = all_evidence(cross);
    lemma_select_from(all, corroborated(), k);
    let q = choose|q: int|
        0 <= q < all.len() && corroborated()(#[trigger] all[q]) == Some(evidence_of(lib)[k]);
    let e = evidence_of(lib)[k];
    let key = distinct(keys_of(cross))[q];
    assert(e == evidence_for(cross, key));
    let trace = lemma_cross_trace(m, cl, m.len());
    let at = law_keeping_keeps_the_order(cross, is_pair(key));
    law_counting_counts(cross, is_pair(key));
    lemma_distinct(keys_of(cross));
    assert(distinct(keys_of(cross)).contains(key));
    let r = choose|r: int| 0 <= r < keys_of(cross).len() && keys_of(cross)[r] == key;
    assert(cross[r].0 == key);
    assert(at.contains(r));
    let (x, y) = trace[r];
    assert(key == pair(cl[x], cl[y]));
    lemma_strongest_of(cross, key);
    lemma_dot_fits(m[x], m[y]);
    assert(cross[r].1 >= 450_000_000_000);
    let backing = Seq::new(
        at.len(),
        |p: int| (places[trace[at[p]].0], places[trace[at[p]].1]),
    );
    assert forall|p: int| 0 <= p < backing.len() implies {
        let (i, j) = #[trigger] backing[p];
        let (f, g) = (lib.faces[i], lib.faces[j]);
        &&& 0 <= i < j < lib.faces.len()
        &&& (f.marks.group() == Some(e.a) && g.marks.group() == Some(e.b)) || (f.marks.group()
            == Some(e.b) && g.marks.group() == Some(e.a))
        &&& 450_000_000_000 <= alike(f, g) <= e.max_sim
        &&& alike(f, g) == cross[at[p]].1
    } by {
        let (u, v) = trace[at[p]];
        assert(is_pair(key)(cross[at[p]]));
        assert(places[u] < places[v]);
        assert(m[u] == unit(lib.faces[places[u]].embedding));
        assert(m[v] == unit(lib.faces[places[v]].embedding));
        lemma_dot_fits(m[u], m[v]);
        assert(cross[at[p]].1 <= strongest(cross, key));
    }
    assert forall|p: int, q: int| 0 <= p < backing.len() && 0 <= q < backing.len() && p != q implies
    backing[p] != backing[q] by {
        let (a, b) = (trace[at[p]], trace[at[q]]);
        assert(at[p] != at[q]);
        if at[p] < at[q] {
            assert(trace[at[p]] != trace[at[q]]);
        } else {
            assert(trace[at[q]] != trace[at[p]]);
        }
        if a.0 < b.0 {
            assert(places[a.0] < places[b.0]);
        } else if b.0 < a.0 {
            assert(places[b.0] < places[a.0]);
        } else if a.1 < b.1 {
            assert(places[a.1] < places[b.1]);
        } else {
            assert(places[b.1] < places[a.1]);
        }
    }
    let top = choose|p: int|
        0 <= p < cross.len() && (#[trigger] cross[p]).0 == key && cross[p].1 == strongest(
            cross,
            key,
        );
    assert(is_pair(key)(cross[top]));
    assert(at.contains(top));
    let t = choose|t: int| 0 <= t < at.len() && at[t] == top;
    assert(alike(lib.faces[backing[t].0], lib.faces[backing[t].1]) == e.max_sim);
    backing
}

/// At most nine other faces of the library that belong to a group are as much like face `i`
/// as face `j` is.
pub open spec fn nearest_in_library(faces: Seq<FaceView>, i: int, j: int) -> bool {
    exists|w: Seq<int>| #[trigger]
        w.len() <= 9 && forall|k: int|
            0 <= k < faces.len() && k != i && k != j && (#[trigger] faces[k]).marks.group() is Some
                && alike(faces[i], faces[k]) >= alike(faces[i], faces[j]) ==> w.contains(k)
}

proof fn lemma_near_listed(lib: LibraryView, places: Seq<int>, x: int, y: int) -> (q: int)
    requires
        faces_fit(lib.faces),
        places.len() == pool(lib).len(),
        pool(lib).len() <= usize::MAX,
        0 <= x < places.len(),
        0 <= y < places.len(),
        x != y,
        forall|p: int|
            0 <= p < places.len() ==> {
                let f = lib.faces[#[trigger] places[p]];
                &&& 0 <= places[p] < lib.faces.len()
                &&& f.marks.group() == Some(clusters_of(pool(lib))[p])
                &&& units_of(pool(lib))[p] == unit(f.embedding)
                &&& units_of(pool(lib))[p].len() <= usize::MAX
            },
        forall|p: int, q: int|
            0 <= p < q < places.len() ==> #[trigger] places[p] < #[trigger] places[q],
        alike(lib.faces[places[x]], lib.faces[places[y]]) >= 450_000_000_000,
        nearest_in_library(lib.faces, places[x], places[y]),
    ensures
        0 <= q < nearest(units_of(pool(lib)), 450_000_000_000, x).len(),
        nearest(units_of(pool(lib)), 450_000_000_000, x)[q].0 == y,
{
    let m = units_of(pool(lib));
    let all = ranked(m, 450_000_000_000, x, m.len());
    assert forall|j: int| 0 <= j < m.len() implies (#[trigger] m[j]).len() <= usize::MAX by {
        assert(0 <= places[j]);
    }
    assert forall|j: int| 0 <= j < m.len() implies i128::MIN <= dot(m[x], #[trigger] m[j])
        <= i128::MAX by {
        lemma_dot_fits(m[x], m[j]);
    }
    assert(m[x] == unit(lib.faces[places[x]].embedding));
    assert(m[y] == unit(lib.faces[places[y]].embedding));
    lemma_ranked_complete(m, 450_000_000_000, x, m.len(), y);
    lemma_ranked_entries(m, 450_000_000_000, x, m.len());
    lemma_ranked_descending(m, 450_000_000_000, x, m.len());
    let p = choose|p: int| 0 <= p < all.len() && (#[trigger] all[p]).0 == y;
    if p >= 10 {
        let w = choose|w: Seq<int>| #[trigger]
            w.len() <= 9 && forall|k: int|
                0 <= k < lib.faces.len() && k != places[x] && k != places[y] && (
                #[trigger] lib.faces[k]).marks.group() is Some && alike(
                    lib.faces[places[x]],
                    lib.faces[k],
                ) >= alike(lib.faces[places[x]], lib.faces[places[y]]) ==> w.contains(k);
        let s = Seq::new(10, |r: int| places[all[r].0 as int]);
        assert forall|r: int| 0 <= r < s.len() implies w.contains(#[trigger] s[r]) by {
            let z = all[r].0 as int;
            assert(all[r].0 != all[p].0);
            assert(all[r].1 >= all[p].1);
            assert(m[z] == unit(lib.faces[places[z]].embedding));
            if z < x {
                assert(places[z] < places[x]);
            } else {
                assert(places[x] < places[z]);
            }
            if z < y {
                assert(places[z] < places[y]);
            } else {
                assert(places[y] < places[z]);
            }
            let f = lib.faces[places[z]];
            assert(f.marks.group() is Some);
        }
        assert forall|q: int, r: int| 0 <= q < s.len() && 0 <= r < s.len() && q != r implies s[q]
            != s[r] by {
            let (u, v) = (all[q].0 as int, all[r].0 as int);
            if q < r {
                assert(all[q].0 != all[r].0);
            } else {
                assert(all[r].0 != all[q].0);
            }
            if u < v {
                assert(places[u] < places[v]);
            } else {
                assert(places[v] < places[u]);
            }
        }
        lemma_pigeons(s, w);
    }
    assert(nearest(m, 450_000_000_000, x)[p].0 == y);
    p
}

/// **Faces that look alike are evidence.** Where three pairs of faces across two groups are at
/// least 0.45 alike, the later face of each among the ten nearest of the earlier one, there is
/// evidence between the groups, at least as strong as each of the pairs.
pub proof fn law_faces_alike_are_evidence(
    lib: LibraryView,
    a: i64,
    b: i64,
    backing: Seq<(int, int)>,
) -> (k: int)
    requires
        faces_fit(lib.faces),
        a < b,
        backing.len() == 3,
        backing.no_duplicates(),
        forall|p: int|
            0 <= p < backing.len() ==> {
                let (i, j) = #[trigger] backing[p];
                let (f, g) = (lib.faces[i], lib.faces[j]);
                &&& 0 <= i < j < lib.faces.len()
                &&& (f.marks.group() == Some(a) && g.marks.group() == Some(b)) || (f.marks.group()
                    == Some(b) && g.marks.group() == Some(a))
                &&& alike(f, g) >= 450_000_000_000
                &&& nearest_in_library(lib.faces, i, j)
            },
        cross_pairs(
            units_of(pool(lib)),
            clusters_of(pool(lib)),
            pool(lib).len(),
        ).len() <= usize::MAX,
    ensures
        0 <= k < evidence_of(lib).len(),
        evidence_of(lib)[k].a == a,
        evidence_of(lib)[k].b == b,
        forall|p: int|
            0 <= p < backing.len() ==> alike(
                lib.faces[(#[trigger] backing[p]).0],
                lib.faces[backing[p].1],
            ) <= evidence_of(lib)[k].max_sim,
{
    let m = units_of(pool(lib));
    let cl = clusters_of(pool(lib));
    let places = lemma_pool(lib);
    assert forall|j: int| 0 <= j < m.len() implies (#[trigger] m[j]).len() <= usize::MAX by {
        assert(0 <= places[j]);
    }
    let cross = cross_pairs(m, cl, m.len());
    let key = (a, b);
    let trace = lemma_cross_trace(m, cl, m.len());
    // Where each pair is listed.
    let listed = Seq::new(
        3,
        |p: int|
            choose|t: int|
                0 <= t < trace.len() && places[(#[trigger] trace[t]).0] == backing[p].0
                    && places[trace[t].1] == backing[p].1,
    );
    assert forall|p: int| 0 <= p < 3 implies {
        let t = #[trigger] listed[p];
        &&& 0 <= t < cross.len()
        &&& places[trace[t].0] == backing[p].0
        &&& places[trace[t].1] == backing[p].1
        &&& cross[t].0 == key
        &&& cross[t].1 == alike(lib.faces[backing[p].0], lib.faces[backing[p].1])
    } by {
        let (i, j) = backing[p];
        assert(places.contains(i) && places.contains(j));
        let x = choose|x: int| 0 <= x < places.len() && places[x] == i;
        let y = choose|y: int| 0 <= y < places.len() && places[y] == j;
        if y <= x {
            if y < x {
                assert(places[y] < places[x]);
            }
        }
        let q = lemma_near_listed(lib, places, x, y);
        assert(cl[x] != cl[y]) by {
            assert(lib.faces[places[x]].marks.group() == Some(cl[x]));
            assert(lib.faces[places[y]].marks.group() == Some(cl[y]));
        }
        assert(trace.contains((x, nearest(m, 450_000_000_000, x)[q].0 as int)));
        let t0 = choose|t: int| 0 <= t < trace.len() && trace[t] == (x, y);
        assert(places[trace[t0].0] == backing[p].0 && places[trace[t0].1] == backing[p].1);
        let t = listed[p];
        let (u, v) = trace[t];
        assert(m[u] == unit(lib.faces[places[u]].embedding));
        assert(m[v] == unit(lib.faces[places[v]].embedding));
        assert(lib.faces[places[u]].marks.group() == Some(cl[u]));
        assert(lib.faces[places[v]].marks.group() == Some(cl[v]));
        lemma_dot_fits(m[u], m[v]);
    }
    let at = law_keeping_keeps_the_order(cross, is_pair(key));
    law_counting_counts(cross, is_pair(key));
    assert forall|p: int| 0 <= p < listed.len() implies at.contains(#[trigger] listed[p]) by {
        assert(is_pair(key)(cross[listed[p]]));
    }
    assert forall|p: int, q: int| 0 <= p < listed.len() && 0 <= q < listed.len() && p != q implies
    listed[p] != listed[q] by {
        if listed[p] == listed[q] {
            assert(backing[p] == backing[q]);
        }
    }
    lemma_pigeons(listed, at);
    let t = listed[0];
    assert(cross[t].0 == key);
    lemma_distinct(keys_of(cross));
    assert(keys_of(cross)[t] == key);
    assert(distinct(keys_of(cross)).contains(key));
    let all = all_evidence(cross);
    let q = choose|q: int| 0 <= q < distinct(keys_of(cross)).len() && distinct(keys_of(cross))[q]
        == key;
    assert(all[q] == evidence_for(cross, key));
    lemma_tally_bound(cross, is_pair(key));
    assert(corroborated()(all[q]) == Some(all[q]));
    lemma_select_contains(all, corroborated(), q);
    let k = choose|k: int| 0 <= k < evidence_of(lib).len() && evidence_of(lib)[k] == all[q];
    lemma_strongest_of(cross, key);
    assert forall|p: int| 0 <= p < backing.len() implies alike(
        lib.faces[(#[trigger] backing[p]).0],
        lib.faces[backing[p].1],
    ) <= evidence_of(lib)[k].max_sim by {
        assert(cross[listed[p]].1 <= strongest(cross, key));
    }
    k
}

} // verus!
