//! What clustering promises as a whole.

use vstd::prelude::*;

use crate::cluster::{
    agglomerate, components, edge_keys, edges_within, groups_link, is_grouping, joined,
    lemma_agglomerate_grouping, lemma_joined, lemma_mutual_edges_within, lemma_ordinal,
    lemma_welded, linkable, must, mutual_edges, numbered, ordinal, walk_edge, welded,
    LinkConstraints, TAU_LINK,
};
use crate::order::{is_order, lemma_order_of, order_of};
use crate::similarity::{dot, lemma_dot_symmetric};

verus! {

/// Rows, and their edges, few and short enough for a machine.
pub open spec fn machine_rows(m: Seq<Seq<i32>>) -> bool {
    &&& m.len() <= i64::MAX
    &&& m.len() <= usize::MAX
    &&& mutual_edges(m, m.len()).len() <= usize::MAX
    &&& forall|j: int| 0 <= j < m.len() ==> (#[trigger] m[j]).len() <= usize::MAX
}

/// Linkability does not depend on which face is named first.
pub proof fn lemma_linkable_symmetric(
    m: Seq<Seq<i32>>,
    ids: Seq<i64>,
    c: LinkConstraints,
    i: int,
    j: int,
)
    ensures
        linkable(m, ids, c, i, j) == linkable(m, ids, c, j, i),
{
    lemma_dot_symmetric(m[i], m[j]);
}

/// Any two faces of one group were confirmed as one identity or are linkable.
pub open spec fn pure(m: Seq<Seq<i32>>, ids: Seq<i64>, c: LinkConstraints, comp: Seq<int>) -> bool {
    forall|i: int, j: int|
        0 <= i < comp.len() && 0 <= j < comp.len() && i != j && #[trigger] comp[i]
            == #[trigger] comp[j] ==> must(ids, c, i, j) || linkable(m, ids, c, i, j)
}

proof fn lemma_agglomerate_pure(
    m: Seq<Seq<i32>>,
    ids: Seq<i64>,
    c: LinkConstraints,
    edges: Seq<(i128, usize, usize)>,
    order: Seq<usize>,
    t: nat,
)
    requires
        edges_within(edges, ids.len()),
        is_order(edge_keys(edges), order),
        t <= edges.len(),
    ensures
        pure(m, ids, c, agglomerate(m, ids, c, edges, order, t)),
        forall|i: int, j: int|
            0 <= i < ids.len() && 0 <= j < ids.len() && #[trigger] must(ids, c, i, j)
                ==> agglomerate(m, ids, c, edges, order, t)[i] == agglomerate(
                m,
                ids,
                c,
                edges,
                order,
                t,
            )[j],
    decreases t,
{
    if t == 0 {
        lemma_welded(ids, c);
        assert forall|i: int, j: int|
            0 <= i < ids.len() && 0 <= j < ids.len() && #[trigger] must(
                ids,
                c,
                i,
                j,
            ) implies welded(ids, c)[i] == welded(ids, c)[j] by {}
    } else {
        let s = (t - 1) as nat;
        lemma_agglomerate_pure(m, ids, c, edges, order, s);
        lemma_agglomerate_grouping(m, ids, c, edges, order, s);
        let before = agglomerate(m, ids, c, edges, order, s);
        assert(0 <= order[s as int] < edges.len());
        let edge = edges[order[s as int] as int];
        let (a, b) = (edge.1 as int, edge.2 as int);
        if before[a] != before[b] && groups_link(m, ids, c, before, a, b) {
            lemma_joined(before, a, b);
            let after = joined(before, a, b);
            assert(agglomerate(m, ids, c, edges, order, t) == after);
            assert forall|i: int, j: int|
                0 <= i < after.len() && 0 <= j < after.len() && i != j && #[trigger] after[i]
                    == #[trigger] after[j] implies must(ids, c, i, j) || linkable(
                m,
                ids,
                c,
                i,
                j,
            ) by {
                if before[i] == before[j] {
                } else if before[i] == before[a] {
                    assert(linkable(m, ids, c, i, j));
                } else {
                    assert(linkable(m, ids, c, j, i));
                    lemma_linkable_symmetric(m, ids, c, i, j);
                }
            }
        }
    }
}

pub proof fn lemma_components(m: Seq<Seq<i32>>, ids: Seq<i64>, c: LinkConstraints)
    requires
        machine_rows(m),
        ids.len() == m.len(),
    ensures
        components(m, ids, c).len() == ids.len(),
        is_grouping(components(m, ids, c)),
        pure(m, ids, c, components(m, ids, c)),
        forall|i: int, j: int|
            0 <= i < ids.len() && 0 <= j < ids.len() && #[trigger] must(ids, c, i, j)
                ==> components(m, ids, c)[i] == components(m, ids, c)[j],
{
    let edges = mutual_edges(m, m.len());
    lemma_mutual_edges_within(m, m.len());
    lemma_order_of(edge_keys(edges));
    lemma_agglomerate_grouping(m, ids, c, edges, order_of(edge_keys(edges)), edges.len());
    lemma_agglomerate_pure(m, ids, c, edges, order_of(edge_keys(edges)), edges.len());
}

proof fn lemma_ordinal_monotone(comp: Seq<int>, g: int, h: int)
    requires
        -1 <= g <= h < comp.len(),
    ensures
        ordinal(comp, g) <= ordinal(comp, h),
        g < h && comp[h] == h ==> ordinal(comp, g) < ordinal(comp, h),
    decreases h - g,
{
    if g < h {
        lemma_ordinal_monotone(comp, g, h - 1);
    }
}

/// Two faces get one cluster id exactly when they are in one group.
pub proof fn lemma_numbered(ids: Seq<i64>, comp: Seq<int>, i: int, j: int)
    requires
        is_grouping(comp),
        comp.len() == ids.len(),
        ids.len() <= i64::MAX,
        0 <= i < ids.len(),
        0 <= j < ids.len(),
    ensures
        numbered(ids, comp)[i].1 == numbered(ids, comp)[j].1 <==> comp[i] == comp[j],
        1 <= numbered(ids, comp)[i].1 <= ids.len(),
{
    let (g, h) = (comp[i], comp[j]);
    assert(comp[g] == g && comp[h] == h);
    lemma_ordinal(comp, g);
    lemma_ordinal(comp, h);
    if g < h {
        lemma_ordinal_monotone(comp, g, h);
    } else if h < g {
        lemma_ordinal_monotone(comp, h, g);
    }
}

/// The clusters of a run: what [`crate::cluster::recluster`] returns.
pub open spec fn clustering(m: Seq<Seq<i32>>, ids: Seq<i64>, c: LinkConstraints) -> Seq<(i64, i64)> {
    numbered(ids, components(m, ids, c))
}

/// **Purity.** Any two faces that share a cluster were confirmed as one identity or
/// clear [`TAU_LINK`] against each other; no third face can bridge them together.
pub proof fn law_clusters_are_pure(
    m: Seq<Seq<i32>>,
    ids: Seq<i64>,
    c: LinkConstraints,
    i: int,
    j: int,
)
    requires
        machine_rows(m),
        ids.len() == m.len(),
        0 <= i < ids.len(),
        0 <= j < ids.len(),
        i != j,
        clustering(m, ids, c)[i].1 == clustering(m, ids, c)[j].1,
    ensures
        c.must_link(ids[i], ids[j]) || dot(m[i], m[j]) >= TAU_LINK,
{
    lemma_components(m, ids, c);
    lemma_numbered(ids, components(m, ids, c), i, j);
    assert(must(ids, c, i, j) || linkable(m, ids, c, i, j));
}

/// **Constraints hold.** Two faces whose identities were declared different people, or
/// that appear in one photo without an exception, never share a cluster, unless both
/// were confirmed as the same identity.
pub proof fn law_constraints_are_honored(
    m: Seq<Seq<i32>>,
    ids: Seq<i64>,
    c: LinkConstraints,
    i: int,
    j: int,
)
    requires
        machine_rows(m),
        ids.len() == m.len(),
        0 <= i < ids.len(),
        0 <= j < ids.len(),
        i != j,
        !c.must_link(ids[i], ids[j]),
        !c.allows(ids[i], ids[j]),
    ensures
        clustering(m, ids, c)[i].1 != clustering(m, ids, c)[j].1,
{
    lemma_components(m, ids, c);
    lemma_numbered(ids, components(m, ids, c), i, j);
    if clustering(m, ids, c)[i].1 == clustering(m, ids, c)[j].1 {
        assert(must(ids, c, i, j) || linkable(m, ids, c, i, j));
    }
}

/// **Must-links hold.** Faces confirmed as one identity share a cluster.
pub proof fn law_confirmed_faces_stay_together(
    m: Seq<Seq<i32>>,
    ids: Seq<i64>,
    c: LinkConstraints,
    i: int,
    j: int,
)
    requires
        machine_rows(m),
        ids.len() == m.len(),
        0 <= i < ids.len(),
        0 <= j < ids.len(),
        c.must_link(ids[i], ids[j]),
    ensures
        clustering(m, ids, c)[i].1 == clustering(m, ids, c)[j].1,
{
    lemma_components(m, ids, c);
    assert(must(ids, c, i, j));
    lemma_numbered(ids, components(m, ids, c), i, j);
}

pub proof fn lemma_groups_only_grow(
    m: Seq<Seq<i32>>,
    ids: Seq<i64>,
    c: LinkConstraints,
    edges: Seq<(i128, usize, usize)>,
    order: Seq<usize>,
    s: nat,
    t: nat,
)
    requires
        edges_within(edges, ids.len()),
        is_order(edge_keys(edges), order),
        s <= t <= edges.len(),
    ensures
        forall|i: int, j: int|
            0 <= i < ids.len() && 0 <= j < ids.len() && agglomerate(m, ids, c, edges, order, s)[i]
                == agglomerate(m, ids, c, edges, order, s)[j] ==> #[trigger] agglomerate(
                m,
                ids,
                c,
                edges,
                order,
                t,
            )[i] == #[trigger] agglomerate(m, ids, c, edges, order, t)[j],
    decreases t,
{
    if s < t {
        let r = (t - 1) as nat;
        lemma_groups_only_grow(m, ids, c, edges, order, s, r);
        lemma_agglomerate_grouping(m, ids, c, edges, order, r);
        let before = agglomerate(m, ids, c, edges, order, r);
        assert(0 <= order[r as int] < edges.len());
        let edge = edges[order[r as int] as int];
        let (a, b) = (edge.1 as int, edge.2 as int);
        if before[a] != before[b] {
            lemma_joined(before, a, b);
        }
    }
}

/// **Nothing left to merge.** Across every mutual edge whose ends are in different
/// clusters, some cross-pair of the two clusters is too dissimilar or forbidden.
pub proof fn law_no_merge_is_left(m: Seq<Seq<i32>>, ids: Seq<i64>, c: LinkConstraints, p: int)
    requires
        machine_rows(m),
        ids.len() == m.len(),
        0 <= p < mutual_edges(m, m.len()).len(),
    ensures
        ({
            let out = clustering(m, ids, c);
            let (_, a, b) = mutual_edges(m, m.len())[p];
            out[a as int].1 != out[b as int].1 ==> exists|i: int, j: int|
                0 <= i < ids.len() && 0 <= j < ids.len() && out[i].1 == out[a as int].1 && out[j].1
                    == out[b as int].1 && !#[trigger] linkable(m, ids, c, i, j)
        }),
{
    let edges = mutual_edges(m, m.len());
    let order = order_of(edge_keys(edges));
    let out = clustering(m, ids, c);
    let comp = components(m, ids, c);
    let (_, ua, ub) = edges[p];
    let (a, b) = (ua as int, ub as int);
    lemma_mutual_edges_within(m, m.len());
    assert(edges[p].1 < m.len() && edges[p].2 < m.len());
    lemma_order_of(edge_keys(edges));
    lemma_components(m, ids, c);
    lemma_numbered(ids, comp, a, b);
    if out[a].1 != out[b].1 {
        assert(order.contains(p as usize));
        let t = choose|t: int| 0 <= t < order.len() && order[t] == p as usize;
        let before = agglomerate(m, ids, c, edges, order, t as nat);
        let after = agglomerate(m, ids, c, edges, order, (t + 1) as nat);
        assert(after == walk_edge(m, ids, c, before, edges[p]));
        lemma_agglomerate_grouping(m, ids, c, edges, order, t as nat);
        lemma_groups_only_grow(m, ids, c, edges, order, (t + 1) as nat, edges.len());
        lemma_groups_only_grow(m, ids, c, edges, order, t as nat, edges.len());
        if before[a] != before[b] && groups_link(m, ids, c, before, a, b) {
            lemma_joined(before, a, b);
            assert(after[a] == after[b]);
            assert(comp[a] == comp[b]);
        }
        assert(before[a] != before[b]) by {
            if before[a] == before[b] {
                assert(comp[a] == comp[b]);
            }
        }
        let (i, j) = choose|i: int, j: int|
            0 <= i < before.len() && 0 <= j < before.len() && before[i] == before[a] && before[j]
                == before[b] && !#[trigger] linkable(m, ids, c, i, j);
        assert(comp[i] == comp[a]);
        assert(comp[j] == comp[b]);
        lemma_numbered(ids, comp, i, a);
        lemma_numbered(ids, comp, j, b);
        assert(!linkable(m, ids, c, i, j));
    }
}

} // verus!
