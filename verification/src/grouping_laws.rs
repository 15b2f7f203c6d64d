//! Which faces end up in one cluster, said of the faces themselves.

use vstd::prelude::*;

use crate::cluster::{
    agglomerate, components, edge_keys, edges_within, face_ids, groups_link, is_grouping,
    lemma_agglomerate_grouping, lemma_joined, lemma_mutual_edges_within, lemma_ordinal,
    lemma_welded, linkable, lists, lookup, must, mutual_edges, numbered, ordinal, pair,
    unit_matrix, walk_edge, welded, LinkConstraints, TAU_LINK,
};
use crate::cluster_laws::{
    law_no_merge_is_left, lemma_components, lemma_groups_only_grow, lemma_linkable_symmetric,
    lemma_numbered, machine_rows,
};
use crate::cluster_order::{lemma_mutual_edges, lemma_mutual_edges_complete, mutual};
use crate::neighbors::{
    lemma_ranked_complete, lemma_ranked_descending, lemma_ranked_entries, nearest, ranked,
};
use crate::order::{before, is_order, lemma_order_of, order_of};
use crate::similarity::{dot, lemma_dot_fits, lemma_dot_symmetric, unit};

verus! {

/// What [`crate::cluster::recluster`] returns for faces and constraints.
pub open spec fn clusters_for(faces: Seq<(i64, Seq<i32>)>, c: LinkConstraints) -> Seq<(i64, i64)> {
    numbered(face_ids(faces), components(unit_matrix(faces), face_ids(faces), c))
}

/// How alike two faces are.
pub open spec fn likeness(faces: Seq<(i64, Seq<i32>)>, i: int, j: int) -> int {
    dot(unit(faces[i].1), unit(faces[j].1))
}

/// The user confirmed the two faces as one person.
pub open spec fn one_person(c: LinkConstraints, a: i64, b: i64) -> bool {
    exists|x: i64| #[trigger]
        c.face_identity@.contains((a, x)) && c.face_identity@.contains((b, x))
}

/// The user confirmed the two faces as two people who are declared different.
pub open spec fn two_people(c: LinkConstraints, a: i64, b: i64) -> bool {
    exists|x: i64, y: i64| #[trigger]
        c.face_identity@.contains((a, x)) && #[trigger] c.face_identity@.contains((b, y)) && (
        c.cannot_link@.contains((x, y)) && x <= y || c.cannot_link@.contains((y, x)) && y <= x)
}

/// The two faces are in one photo, and not excepted.
pub open spec fn photographed_side_by_side(c: LinkConstraints, a: i64, b: i64) -> bool {
    exists|p: i64| #[trigger]
        c.photo_of@.contains((a, p)) && c.photo_of@.contains((b, p)) && !(
        c.same_photo_ok@.contains((a, b)) && a <= b) && !(c.same_photo_ok@.contains((b, a)) && b
            <= a)
}

/// No face has two persons or two photos.
pub open spec fn unambiguous(c: LinkConstraints) -> bool {
    &&& forall|f: i64, x: i64, y: i64| #[trigger]
        c.face_identity@.contains((f, x)) && #[trigger] c.face_identity@.contains((f, y)) ==> x
            == y
    &&& forall|f: i64, x: i64, y: i64| #[trigger]
        c.photo_of@.contains((f, x)) && #[trigger] c.photo_of@.contains((f, y)) ==> x == y
}

/// The value of a key in a list that gives each key one.
proof fn lemma_lookup(pairs: Seq<(i64, i64)>, key: i64)
    ensures
        lookup(pairs, key) matches Some(v) ==> pairs.contains((key, v)),
        lookup(pairs, key) is None ==> forall|v: i64| !#[trigger] pairs.contains((key, v)),
    decreases pairs.len(),
{
    if pairs.len() > 0 {
        let front = pairs.drop_last();
        lemma_lookup(front, key);
        if pairs.last().0 == key {
            assert(pairs[pairs.len() - 1] == (key, pairs.last().1));
        } else {
            assert forall|v: i64| #[trigger] pairs.contains((key, v)) implies front.contains(
                (key, v),
            ) by {
                let k = choose|k: int| 0 <= k < pairs.len() && pairs[k] == (key, v);
                assert(front[k] == (key, v));
            }
            if let Some(v) = lookup(front, key) {
                let k = choose|k: int| 0 <= k < front.len() && front[k] == (key, v);
                assert(pairs[k] == (key, v));
            }
        }
    }
}

/// The constraints, read off the lists.
proof fn lemma_constraints(c: LinkConstraints, a: i64, b: i64)
    requires
        unambiguous(c),
    ensures
        c.must_link(a, b) <==> one_person(c, a, b),
        c.allows(a, b) <==> !two_people(c, a, b) && !photographed_side_by_side(c, a, b),
{
    lemma_lookup(c.face_identity@, a);
    lemma_lookup(c.face_identity@, b);
    lemma_lookup(c.photo_of@, a);
    lemma_lookup(c.photo_of@, b);
    if c.must_link(a, b) {
        let x = c.identity(a)->0;
        assert(c.face_identity@.contains((a, x)) && c.face_identity@.contains((b, x)));
    }
    if !c.allows(a, b) {
        if c.photo(a) is Some && c.photo(a) == c.photo(b) && !c.same_photo_ok@.contains(pair(a, b)) {
            let p = c.photo(a)->0;
            assert(c.photo_of@.contains((a, p)) && c.photo_of@.contains((b, p)));
            assert(photographed_side_by_side(c, a, b));
        } else {
            let (x, y) = (c.identity(a)->0, c.identity(b)->0);
            assert(c.face_identity@.contains((a, x)) && c.face_identity@.contains((b, y)));
            assert(two_people(c, a, b));
        }
    }
}

/// At most nine other faces are as much like face `a` as face `b` is.
pub open spec fn among_the_nearest(faces: Seq<(i64, Seq<i32>)>, a: int, b: int) -> bool {
    exists|w: Seq<int>| #[trigger]
        w.len() <= 9 && forall|k: int|
            0 <= k < faces.len() && k != a && k != b && #[trigger] likeness(faces, a, k)
                >= likeness(faces, a, b) ==> w.contains(k)
}

/// Ten other faces are all more like face `a` than face `b` is.
pub open spec fn crowded_out(faces: Seq<(i64, Seq<i32>)>, a: int, b: int) -> bool {
    exists|w: Seq<int>| #[trigger]
        w.len() == 10 && w.no_duplicates() && forall|q: int|
            0 <= q < w.len() ==> 0 <= #[trigger] w[q] < faces.len() && w[q] != a && likeness(
                faces,
                a,
                w[q],
            ) > likeness(faces, a, b)
}

/// Distinct values of a list are no more than the list is long.
pub proof fn lemma_pigeons(s: Seq<int>, w: Seq<int>)
    requires
        s.no_duplicates(),
        forall|p: int| 0 <= p < s.len() ==> w.contains(#[trigger] s[p]),
    ensures
        s.len() <= w.len(),
{
    s.unique_seq_to_set();
    w.lemma_cardinality_of_set();
    assert(s.to_set().subset_of(w.to_set()));
    vstd::set_lib::lemma_len_subset(s.to_set(), w.to_set());
}

proof fn lemma_fits(m: Seq<Seq<i32>>, i: int)
    requires
        machine_rows(m),
        0 <= i < m.len(),
    ensures
        forall|j: int| 0 <= j < m.len() ==> i128::MIN <= dot(m[i], #[trigger] m[j]) <= i128::MAX,
{
    assert forall|j: int| 0 <= j < m.len() implies i128::MIN <= dot(m[i], #[trigger] m[j])
        <= i128::MAX by {
        lemma_dot_fits(m[i], m[j]);
    }
}

proof fn lemma_near_is_listed(faces: Seq<(i64, Seq<i32>)>, a: int, b: int)
    requires
        machine_rows(unit_matrix(faces)),
        0 <= a < faces.len(),
        0 <= b < faces.len(),
        a != b,
        likeness(faces, a, b) >= 500_000_000_000,
        among_the_nearest(faces, a, b),
    ensures
        lists(nearest(unit_matrix(faces), TAU_LINK as int, a), b),
{
    let m = unit_matrix(faces);
    let all = ranked(m, TAU_LINK as int, a, m.len());
    lemma_fits(m, a);
    lemma_ranked_complete(m, TAU_LINK as int, a, m.len(), b);
    lemma_ranked_entries(m, TAU_LINK as int, a, m.len());
    lemma_ranked_descending(m, TAU_LINK as int, a, m.len());
    let p = choose|p: int| 0 <= p < all.len() && (#[trigger] all[p]).0 == b;
    if p >= 10 {
        let w = choose|w: Seq<int>| #[trigger]
            w.len() <= 9 && forall|k: int|
                0 <= k < faces.len() && k != a && k != b && #[trigger] likeness(faces, a, k)
                    >= likeness(faces, a, b) ==> w.contains(k);
        let s = Seq::new(10, |q: int| all[q].0 as int);
        assert forall|q: int| 0 <= q < s.len() implies w.contains(#[trigger] s[q]) by {
            let e = all[q];
            assert(e.0 != all[p].0);
            assert(e.1 >= all[p].1);
            assert(likeness(faces, a, e.0 as int) == dot(m[a], m[e.0 as int]));
            assert(likeness(faces, a, b) == dot(m[a], m[b]));
        }
        assert forall|q: int, r: int| 0 <= q < s.len() && 0 <= r < s.len() && q != r implies s[q]
            != s[r] by {
            if q < r {
                assert(all[q].0 != all[r].0);
            } else {
                assert(all[r].0 != all[q].0);
            }
        }
        lemma_pigeons(s, w);
    }
    assert(nearest(m, TAU_LINK as int, a)[p].0 == b);
}

proof fn lemma_listed_is_near(faces: Seq<(i64, Seq<i32>)>, a: int, b: int)
    requires
        machine_rows(unit_matrix(faces)),
        0 <= a < faces.len(),
        lists(nearest(unit_matrix(faces), TAU_LINK as int, a), b),
    ensures
        !crowded_out(faces, a, b),
{
    let m = unit_matrix(faces);
    let all = ranked(m, TAU_LINK as int, a, m.len());
    lemma_fits(m, a);
    lemma_ranked_entries(m, TAU_LINK as int, a, m.len());
    lemma_ranked_descending(m, TAU_LINK as int, a, m.len());
    let near = nearest(m, TAU_LINK as int, a);
    let p = choose|p: int| 0 <= p < near.len() && (#[trigger] near[p]).0 == b;
    assert(all[p] == near[p]);
    assert(p < 10);
    assert(likeness(faces, a, b) == dot(m[a], m[b]));
    if crowded_out(faces, a, b) {
        let w = choose|w: Seq<int>| #[trigger]
            w.len() == 10 && w.no_duplicates() && forall|q: int|
                0 <= q < w.len() ==> 0 <= #[trigger] w[q] < faces.len() && w[q] != a && likeness(
                    faces,
                    a,
                    w[q],
                ) > likeness(faces, a, b);
        let front = Seq::new(p as nat, |q: int| all[q].0 as int);
        assert forall|q: int| 0 <= q < w.len() implies front.contains(#[trigger] w[q]) by {
            let k = w[q];
            assert(likeness(faces, a, k) == dot(m[a], m[k]));
            assert(all[p].1 >= TAU_LINK);
            lemma_ranked_complete(m, TAU_LINK as int, a, m.len(), k);
            let r = choose|r: int| 0 <= r < all.len() && (#[trigger] all[r]).0 == k;
            assert(all[r].1 > all[p].1);
            if r >= p {
                if r > p {
                    assert(all[p].1 >= all[r].1);
                }
            }
            assert(front[r] == k);
        }
        lemma_pigeons(w, front);
    }
}

/// A face that no walked edge touches stays alone.
proof fn lemma_untouched_stays_alone(
    m: Seq<Seq<i32>>,
    ids: Seq<i64>,
    c: LinkConstraints,
    edges: Seq<(i128, usize, usize)>,
    order: Seq<usize>,
    t: nat,
    a: int,
)
    requires
        edges_within(edges, ids.len()),
        is_order(edge_keys(edges), order),
        t <= edges.len(),
        0 <= a < ids.len(),
        forall|k: int| 0 <= k < ids.len() && k != a ==> !#[trigger] must(ids, c, k, a),
        forall|s: int|
            0 <= s < t ==> edges[(#[trigger] order[s]) as int].1 != a && edges[order[s] as int].2
                != a,
    ensures
        forall|k: int|
            0 <= k < ids.len() && #[trigger] agglomerate(m, ids, c, edges, order, t)[k]
                == agglomerate(m, ids, c, edges, order, t)[a] ==> k == a,
    decreases t,
{
    if t == 0 {
        lemma_welded(ids, c);
        assert forall|k: int|
            0 <= k < ids.len() && #[trigger] agglomerate(m, ids, c, edges, order, t)[k]
                == agglomerate(m, ids, c, edges, order, t)[a] implies k == a by {
            assert(welded(ids, c)[k] == welded(ids, c)[a]);
            if k != a {
                assert(must(ids, c, k, a));
            }
        }
    } else {
        let s = (t - 1) as nat;
        lemma_untouched_stays_alone(m, ids, c, edges, order, s, a);
        lemma_agglomerate_grouping(m, ids, c, edges, order, s);
        let was = agglomerate(m, ids, c, edges, order, s);
        let edge = edges[order[s as int] as int];
        assert(0 <= order[s as int] < edges.len());
        let (x, y) = (edge.1 as int, edge.2 as int);
        assert(was[x] != was[a] && was[y] != was[a]);
        if was[x] != was[y] {
            lemma_joined(was, x, y);
        }
    }
}

/// **Mutual nearest faces share a cluster.** Two faces that are alike enough, that nothing
/// keeps apart and that nobody tied to other faces, each more like the other than like any
/// third face, end up in one cluster: tight pairs form before any looser one is considered.
pub proof fn law_mutual_nearest_share_a_cluster(
    faces: Seq<(i64, Seq<i32>)>,
    c: LinkConstraints,
    a: int,
    b: int,
)
    requires
        machine_rows(unit_matrix(faces)),
        unambiguous(c),
        0 <= a < faces.len(),
        0 <= b < faces.len(),
        a != b,
        likeness(faces, a, b) >= 500_000_000_000,
        !two_people(c, faces[a].0, faces[b].0),
        !photographed_side_by_side(c, faces[a].0, faces[b].0),
        forall|k: int|
            0 <= k < faces.len() && k != a ==> !one_person(c, (#[trigger] faces[k]).0, faces[a].0),
        forall|k: int|
            0 <= k < faces.len() && k != b ==> !one_person(c, (#[trigger] faces[k]).0, faces[b].0),
        forall|k: int|
            0 <= k < faces.len() && k != a && k != b ==> #[trigger] likeness(faces, a, k)
                < likeness(faces, a, b),
        forall|k: int|
            0 <= k < faces.len() && k != a && k != b ==> #[trigger] likeness(faces, b, k)
                < likeness(faces, a, b),
    ensures
        clusters_for(faces, c)[a].1 == clusters_for(faces, c)[b].1,
    decreases a,
{
    if a > b {
        lemma_dot_symmetric(unit(faces[a].1), unit(faces[b].1));
        lemma_constraints(c, faces[a].0, faces[b].0);
        lemma_constraints(c, faces[b].0, faces[a].0);
        assert(c.allows(faces[b].0, faces[a].0));
        law_mutual_nearest_share_a_cluster(faces, c, b, a);
    } else {
        let m = unit_matrix(faces);
        let ids = face_ids(faces);
        let edges = mutual_edges(m, m.len());
        let order = order_of(edge_keys(edges));
        let comp = components(m, ids, c);
        lemma_dot_symmetric(unit(faces[a].1), unit(faces[b].1));
        assert(likeness(faces, a, b) == dot(m[a], m[b]));
        assert(likeness(faces, b, a) == dot(m[b], m[a]));
        assert(among_the_nearest(faces, a, b)) by {
            assert(Seq::<int>::empty().len() <= 9);
        }
        assert(among_the_nearest(faces, b, a)) by {
            assert(Seq::<int>::empty().len() <= 9);
        }
        lemma_near_is_listed(faces, a, b);
        lemma_near_is_listed(faces, b, a);
        assert(mutual(m, a, b));
        lemma_mutual_edges_complete(m, m.len(), a, b);
        lemma_mutual_edges(m, m.len());
        lemma_mutual_edges_within(m, m.len());
        lemma_order_of(edge_keys(edges));
        lemma_fits(m, a);
        let e = (dot(m[a], m[b]) as i128, a as usize, b as usize);
        let at = choose|at: int| 0 <= at < edges.len() && edges[at] == e;
        assert(order.contains(at as usize));
        let t = choose|t: int| 0 <= t < order.len() && order[t] == at as usize;
        let keys = edge_keys(edges);
        assert forall|s: int| 0 <= s < t implies {
            let f = edges[(#[trigger] order[s]) as int];
            f.1 != a && f.2 != a && f.1 != b && f.2 != b
        } by {
            assert(0 <= order[s] < edges.len());
            let f = edges[order[s] as int];
            assert(before(keys, order[s] as int, order[t] as int));
            assert(f.0 >= e.0);
            let (x, y) = (f.1 as int, f.2 as int);
            lemma_dot_symmetric(m[x], m[y]);
            assert(likeness(faces, x, y) == dot(m[x], m[y]));
            assert(likeness(faces, y, x) == dot(m[y], m[x]));
            if x == a || y == a || x == b || y == b {
                if x == a && y == b {
                    if order[s] < at {
                        assert(edges[order[s] as int].1 == edges[at].1);
                    }
                    assert(order[s] as int != at);
                }
                assert(x < y);
            }
        }
        assert forall|k: int| 0 <= k < ids.len() && k != a implies !#[trigger] must(ids, c, k, a) by {
            lemma_constraints(c, faces[k].0, faces[a].0);
        }
        assert forall|k: int| 0 <= k < ids.len() && k != b implies !#[trigger] must(ids, c, k, b) by {
            lemma_constraints(c, faces[k].0, faces[b].0);
        }
        lemma_untouched_stays_alone(m, ids, c, edges, order, t as nat, a);
        lemma_untouched_stays_alone(m, ids, c, edges, order, t as nat, b);
        lemma_agglomerate_grouping(m, ids, c, edges, order, t as nat);
        let was = agglomerate(m, ids, c, edges, order, t as nat);
        let now = agglomerate(m, ids, c, edges, order, (t + 1) as nat);
        lemma_constraints(c, faces[a].0, faces[b].0);
        assert(linkable(m, ids, c, a, b));
        assert(groups_link(m, ids, c, was, a, b));
        assert(now == walk_edge(m, ids, c, was, e));
        lemma_joined(was, a, b);
        assert(now[a] == now[b]);
        lemma_groups_only_grow(m, ids, c, edges, order, (t + 1) as nat, edges.len());
        lemma_components(m, ids, c);
        lemma_numbered(ids, comp, a, b);
    }
}

/// **Clusters are pure.** Two faces that share a cluster were confirmed as one person, or
/// they are at least half alike, were not confirmed as two people declared different, and
/// are not in one photo (unless excepted).
pub proof fn law_clusters_hold_one_person(
    faces: Seq<(i64, Seq<i32>)>,
    c: LinkConstraints,
    a: int,
    b: int,
)
    requires
        machine_rows(unit_matrix(faces)),
        unambiguous(c),
        0 <= a < faces.len(),
        0 <= b < faces.len(),
        a != b,
        clusters_for(faces, c)[a].1 == clusters_for(faces, c)[b].1,
    ensures
        one_person(c, faces[a].0, faces[b].0) || {
            &&& likeness(faces, a, b) >= 500_000_000_000
            &&& !two_people(c, faces[a].0, faces[b].0)
            &&& !photographed_side_by_side(c, faces[a].0, faces[b].0)
        },
{
    let m = unit_matrix(faces);
    let ids = face_ids(faces);
    lemma_components(m, ids, c);
    lemma_numbered(ids, components(m, ids, c), a, b);
    lemma_constraints(c, faces[a].0, faces[b].0);
    assert(must(ids, c, a, b) || linkable(m, ids, c, a, b));
}

/// **What the user confirmed as one person is one cluster.**
pub proof fn law_one_person_is_one_cluster(
    faces: Seq<(i64, Seq<i32>)>,
    c: LinkConstraints,
    a: int,
    b: int,
)
    requires
        machine_rows(unit_matrix(faces)),
        unambiguous(c),
        0 <= a < faces.len(),
        0 <= b < faces.len(),
        one_person(c, faces[a].0, faces[b].0),
    ensures
        clusters_for(faces, c)[a].1 == clusters_for(faces, c)[b].1,
{
    let m = unit_matrix(faces);
    let ids = face_ids(faces);
    lemma_components(m, ids, c);
    lemma_constraints(c, faces[a].0, faces[b].0);
    assert(must(ids, c, a, b));
    lemma_numbered(ids, components(m, ids, c), a, b);
}

/// **Neighbors are parted only for a reason.** Two faces at least half alike, each among the
/// ten nearest of the other, share a cluster, unless some face of the one's cluster and some
/// face of the other's are too unlike each other or must be kept apart.
pub proof fn law_neighbors_are_parted_for_a_reason(
    faces: Seq<(i64, Seq<i32>)>,
    c: LinkConstraints,
    a: int,
    b: int,
)
    requires
        machine_rows(unit_matrix(faces)),
        unambiguous(c),
        0 <= a < faces.len(),
        0 <= b < faces.len(),
        a != b,
        likeness(faces, a, b) >= 500_000_000_000,
        among_the_nearest(faces, a, b),
        among_the_nearest(faces, b, a),
    ensures
        ({
            let out = clusters_for(faces, c);
            out[a].1 == out[b].1 || exists|i: int, j: int|
                0 <= i < faces.len() && 0 <= j < faces.len() && out[i].1 == out[a].1 && out[j].1
                    == out[b].1 && (#[trigger] likeness(faces, i, j) < 500_000_000_000
                    || two_people(c, faces[i].0, faces[j].0) || photographed_side_by_side(
                    c,
                    faces[i].0,
                    faces[j].0,
                ))
        }),
{
    let m = unit_matrix(faces);
    let ids = face_ids(faces);
    let out = clusters_for(faces, c);
    lemma_dot_symmetric(unit(faces[a].1), unit(faces[b].1));
    lemma_near_is_listed(faces, a, b);
    lemma_near_is_listed(faces, b, a);
    let (x, y) = if a < b {
        (a, b)
    } else {
        (b, a)
    };
    assert(mutual(m, x, y));
    lemma_mutual_edges_complete(m, m.len(), x, y);
    let e = (dot(m[x], m[y]) as i128, x as usize, y as usize);
    let edges = mutual_edges(m, m.len());
    let p = choose|p: int| 0 <= p < edges.len() && edges[p] == e;
    law_no_merge_is_left(m, ids, c, p);
    if out[a].1 != out[b].1 {
        let (i, j) = choose|i: int, j: int|
            0 <= i < ids.len() && 0 <= j < ids.len() && out[i].1 == out[x].1 && out[j].1
                == out[y].1 && !#[trigger] linkable(m, ids, c, i, j);
        lemma_constraints(c, faces[i].0, faces[j].0);
        lemma_constraints(c, faces[j].0, faces[i].0);
        lemma_linkable_symmetric(m, ids, c, i, j);
        assert(!linkable(m, ids, c, j, i));
        assert(likeness(faces, i, j) == dot(m[i], m[j]));
        assert(likeness(faces, j, i) == dot(m[j], m[i]));
        lemma_dot_symmetric(m[i], m[j]);
        if a < b {
            assert(out[i].1 == out[a].1 && out[j].1 == out[b].1);
        } else {
            assert(out[j].1 == out[a].1 && out[i].1 == out[b].1);
        }
    }
}

/// The two faces were confirmed as one identity, or an edge joins them.
spec fn tied(
    ids: Seq<i64>,
    c: LinkConstraints,
    edges: Seq<(i128, usize, usize)>,
    i: int,
    j: int,
) -> bool {
    must(ids, c, i, j) || exists|p: int|
        0 <= p < edges.len() && ((#[trigger] edges[p]).1 == i && edges[p].2 == j || edges[p].1 == j
            && edges[p].2 == i)
}

/// However a group is parted, some two faces across the parts are tied.
proof fn lemma_chained(
    m: Seq<Seq<i32>>,
    ids: Seq<i64>,
    c: LinkConstraints,
    edges: Seq<(i128, usize, usize)>,
    order: Seq<usize>,
    t: nat,
    part: spec_fn(int) -> bool,
    a: int,
    b: int,
) -> (found: (int, int))
    requires
        edges_within(edges, ids.len()),
        is_order(edge_keys(edges), order),
        t <= edges.len(),
        0 <= a < ids.len(),
        0 <= b < ids.len(),
        part(a),
        !part(b),
        agglomerate(m, ids, c, edges, order, t)[a] == agglomerate(m, ids, c, edges, order, t)[b],
    ensures
        0 <= found.0 < ids.len(),
        0 <= found.1 < ids.len(),
        agglomerate(m, ids, c, edges, order, t)[found.0] == agglomerate(
            m,
            ids,
            c,
            edges,
            order,
            t,
        )[a],
        agglomerate(m, ids, c, edges, order, t)[found.1] == agglomerate(
            m,
            ids,
            c,
            edges,
            order,
            t,
        )[a],
        part(found.0),
        !part(found.1),
        tied(ids, c, edges, found.0, found.1),
    decreases t,
{
    let now = agglomerate(m, ids, c, edges, order, t);
    if t == 0 {
        lemma_welded(ids, c);
        assert(welded(ids, c)[a] == welded(ids, c)[b]);
        assert(must(ids, c, a, b));
        (a, b)
    } else {
        let s = (t - 1) as nat;
        let was = agglomerate(m, ids, c, edges, order, s);
        lemma_agglomerate_grouping(m, ids, c, edges, order, s);
        lemma_agglomerate_grouping(m, ids, c, edges, order, t);
        lemma_groups_only_grow(m, ids, c, edges, order, s, t);
        assert(0 <= order[s as int] < edges.len());
        let at = order[s as int] as int;
        let (x, y) = (edges[at].1 as int, edges[at].2 as int);
        if was[a] == was[b] {
            lemma_chained(m, ids, c, edges, order, s, part, a, b)
        } else {
            assert(was[x] != was[y]);
            lemma_joined(was, x, y);
            let (u, v) = if was[a] == was[x] {
                (x, y)
            } else {
                (y, x)
            };
            assert(was[a] == was[u] && was[b] == was[v]);
            assert(now[u] == now[a] && now[v] == now[a]);
            if !part(u) {
                lemma_chained(m, ids, c, edges, order, s, part, a, u)
            } else if part(v) {
                lemma_chained(m, ids, c, edges, order, s, part, v, b)
            } else {
                assert(edges[at].1 == u && edges[at].2 == v || edges[at].1 == v && edges[at].2
                    == u);
                (u, v)
            }
        }
    }
}

/// **Clusters grow along mutual neighbors.** However the faces of a cluster are parted in
/// two, some face of the one part and some face of the other were confirmed as one person, or
/// are at least half alike and each so near the other that no ten faces are nearer.
pub proof fn law_clusters_grow_along_mutual_neighbors(
    faces: Seq<(i64, Seq<i32>)>,
    c: LinkConstraints,
    part: spec_fn(int) -> bool,
    a: int,
    b: int,
) -> (found: (int, int))
    requires
        machine_rows(unit_matrix(faces)),
        unambiguous(c),
        0 <= a < faces.len(),
        0 <= b < faces.len(),
        clusters_for(faces, c)[a].1 == clusters_for(faces, c)[b].1,
        part(a),
        !part(b),
    ensures
        ({
            let (i, j) = found;
            &&& 0 <= i < faces.len() && 0 <= j < faces.len()
            &&& clusters_for(faces, c)[i].1 == clusters_for(faces, c)[a].1
            &&& clusters_for(faces, c)[j].1 == clusters_for(faces, c)[a].1
            &&& part(i) && !part(j)
            &&& one_person(c, faces[i].0, faces[j].0) || (likeness(faces, i, j) >= 500_000_000_000
                && !crowded_out(faces, i, j) && !crowded_out(faces, j, i))
        }),
{
    let m = unit_matrix(faces);
    let ids = face_ids(faces);
    let comp = components(m, ids, c);
    let edges = mutual_edges(m, m.len());
    let order = order_of(edge_keys(edges));
    lemma_components(m, ids, c);
    lemma_numbered(ids, comp, a, b);
    lemma_mutual_edges(m, m.len());
    lemma_mutual_edges_within(m, m.len());
    lemma_order_of(edge_keys(edges));
    let (i, j) = lemma_chained(m, ids, c, edges, order, edges.len(), part, a, b);
    lemma_numbered(ids, comp, i, a);
    lemma_numbered(ids, comp, j, a);
    lemma_constraints(c, faces[i].0, faces[j].0);
    if !must(ids, c, i, j) {
        let p = choose|p: int|
            0 <= p < edges.len() && ((#[trigger] edges[p]).1 == i && edges[p].2 == j
                || edges[p].1 == j && edges[p].2 == i);
        lemma_listed_is_near(faces, i, j);
        lemma_listed_is_near(faces, j, i);
        lemma_dot_symmetric(m[i], m[j]);
    }
    (i, j)
}

/// The names of the groups before `g` are counted without gaps.
proof fn lemma_ordinal_reached(comp: Seq<int>, g: int, v: int) -> (r: int)
    requires
        is_grouping(comp),
        0 <= g < comp.len(),
        1 <= v <= ordinal(comp, g),
    ensures
        0 <= r <= g,
        comp[r] == r,
        ordinal(comp, r) == v,
    decreases g,
{
    lemma_ordinal(comp, g);
    if comp[g] == g && ordinal(comp, g) == v {
        g
    } else {
        lemma_ordinal(comp, g - 1);
        lemma_ordinal_reached(comp, g - 1, v)
    }
}

/// **Clusters are numbered as they are met.** Every face gets a cluster, in the order given;
/// the numbers start at one, and a number is used only after the one below it.
pub proof fn law_clusters_are_numbered_as_met(
    faces: Seq<(i64, Seq<i32>)>,
    c: LinkConstraints,
    k: int,
) -> (j: int)
    requires
        machine_rows(unit_matrix(faces)),
        0 <= k < faces.len(),
    ensures
        clusters_for(faces, c).len() == faces.len(),
        clusters_for(faces, c)[k].0 == faces[k].0,
        clusters_for(faces, c)[k].1 >= 1,
        clusters_for(faces, c)[k].1 > 1 ==> 0 <= j < k && clusters_for(faces, c)[j].1
            == clusters_for(faces, c)[k].1 - 1,
{
    let m = unit_matrix(faces);
    let ids = face_ids(faces);
    let comp = components(m, ids, c);
    lemma_components(m, ids, c);
    lemma_numbered(ids, comp, k, k);
    let g = comp[k];
    assert(comp[g] == g && 0 <= g <= k);
    lemma_ordinal(comp, g);
    if ordinal(comp, g) > 1 {
        let r = lemma_ordinal_reached(comp, g, ordinal(comp, g) - 1);
        lemma_numbered(ids, comp, r, r);
        r
    } else {
        0
    }
}

} // verus!
