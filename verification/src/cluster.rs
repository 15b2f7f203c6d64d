//! Clustering of face embeddings into people: purity first.
//!
//! Merging two pure piles is one batch click; un-mixing a polluted pile is
//! face-by-face misery. So the clustering is biased toward *not* merging: a person
//! split across a few clean clusters is fine, a cluster holding two people is not.
//! There is no centroid; evidence is face-to-face only.
//!
//! [`recluster`] works in four steps.
//! 1. Faces that the user confirmed as one identity start in one group.
//! 2. Each face's nearest other faces at or above [`TAU_LINK`] are listed, at most
//!    [`K`](crate::neighbors::K) of them.
//! 3. An edge is kept only where each face is in the other's list. Mutuality kills
//!    "hub" faces that are near everyone.
//! 4. The edges are walked strongest first. Two groups merge only if *every*
//!    cross-pair clears [`TAU_LINK`] and no constraint forbids it, so a bridge face
//!    can never fuse two groups.

use vstd::prelude::*;

use crate::neighbors::{knn_graph, lemma_ranked_entries, nearest, ranked};
use crate::order::{is_order, order_of, sort_order};
use crate::rows::views;
use crate::similarity::{cos, dot, lemma_dot_fits, lemma_row_lengths, normalized, rows, unit};
use crate::unionfind::UnionFind;

verus! {

/// Minimum cosine similarity for two faces to be considered linkable.
pub const TAU_LINK: i128 = 500_000_000_000;

/// Similarity at which two faces are treated as near-duplicates.
pub const TAU_DUP: i128 = 800_000_000_000;

/// Incremental: how many neighbors must agree on a cluster to join it.
pub const MIN_VOTE: usize = 2;

/// Merge suggestions: the lowest similarity a cross-cluster face pair may have and
/// still count as evidence the two clusters are one person.
pub const TAU_SUGGEST: i128 = 450_000_000_000;

/// Merge suggestions: how many qualifying cross-cluster face pairs two clusters need
/// before they are suggested.
pub const MIN_PAIRS: usize = 3;

/// What the user (and the photos) say about which faces may share a cluster.
pub struct LinkConstraints {
    /// `(face, identity)` of every confirmed face: one identity's faces must link.
    pub face_identity: Vec<(i64, i64)>,
    /// `(smaller, larger)` identities that are different people.
    pub cannot_link: Vec<(i64, i64)>,
    /// `(face, photo)` of every face that shares its photo with another.
    pub photo_of: Vec<(i64, i64)>,
    /// `(smaller, larger)` faces of one photo that may be one person after all.
    pub same_photo_ok: Vec<(i64, i64)>,
}

/// The pair in ascending order.
pub open spec fn pair(a: i64, b: i64) -> (i64, i64) {
    if a < b {
        (a, b)
    } else {
        (b, a)
    }
}

/// The value last listed for `key`.
pub open spec fn lookup(pairs: Seq<(i64, i64)>, key: i64) -> Option<i64>
    decreases pairs.len(),
{
    if pairs.len() == 0 {
        None
    } else if pairs.last().0 == key {
        Some(pairs.last().1)
    } else {
        lookup(pairs.drop_last(), key)
    }
}

impl LinkConstraints {
    /// The confirmed identity of a face.
    pub open spec fn identity(&self, face: i64) -> Option<i64> {
        lookup(self.face_identity@, face)
    }

    /// The photo of a face that shares it with another.
    pub open spec fn photo(&self, face: i64) -> Option<i64> {
        lookup(self.photo_of@, face)
    }

    /// Two faces the user confirmed as one identity.
    pub open spec fn must_link(&self, a: i64, b: i64) -> bool {
        self.identity(a) is Some && self.identity(a) == self.identity(b)
    }

    /// Nothing keeps the two faces apart: their identities are not declared different
    /// people, and they do not share a photo (unless excepted).
    pub open spec fn allows(&self, a: i64, b: i64) -> bool {
        &&& !(self.identity(a) is Some && self.identity(b) is Some && self.cannot_link@.contains(
            pair(self.identity(a)->0, self.identity(b)->0),
        ))
        &&& !(self.photo(a) is Some && self.photo(a) == self.photo(b)
            && !self.same_photo_ok@.contains(pair(a, b)))
    }

    /// No constraints.
    pub fn none() -> (c: LinkConstraints)
        ensures
            c.face_identity@.len() == 0,
            c.cannot_link@.len() == 0,
            c.photo_of@.len() == 0,
            c.same_photo_ok@.len() == 0,
    {
        LinkConstraints {
            face_identity: Vec::new(),
            cannot_link: Vec::new(),
            photo_of: Vec::new(),
            same_photo_ok: Vec::new(),
        }
    }
}

/// The value last listed for `key`.
pub fn lookup_last(pairs: &Vec<(i64, i64)>, key: i64) -> (found: Option<i64>)
    ensures
        found == lookup(pairs@, key),
{
    let mut i: usize = pairs.len();
    assert(pairs@.take(i as int) == pairs@);
    while i > 0
        invariant
            i <= pairs@.len(),
            lookup(pairs@, key) == lookup(pairs@.take(i as int), key),
        decreases i,
    {
        i = i - 1;
        assert(pairs@.take(i + 1).drop_last() == pairs@.take(i as int));
        if pairs[i].0 == key {
            return Some(pairs[i].1);
        }
    }
    None
}

/// Whether a list of pairs holds the pair of `a` and `b`, in ascending order.
pub fn contains_pair(pairs: &Vec<(i64, i64)>, a: i64, b: i64) -> (found: bool)
    ensures
        found == pairs@.contains(pair(a, b)),
{
    let (lo, hi) = if a < b {
        (a, b)
    } else {
        (b, a)
    };
    for i in 0..pairs.len()
        invariant
            (lo, hi) == pair(a, b),
            forall|k: int| 0 <= k < i ==> pairs@[k] != pair(a, b),
    {
        if pairs[i].0 == lo && pairs[i].1 == hi {
            assert(pairs@[i as int] == pair(a, b));
            return true;
        }
    }
    false
}

/// The faces of a clustering run: ids, unit vectors and constraints.
pub struct Faces<'a> {
    pub ids: Vec<i64>,
    pub mat: Vec<Vec<i32>>,
    pub identity: Vec<Option<i64>>,
    pub photo: Vec<Option<i64>>,
    pub constraints: &'a LinkConstraints,
}

impl<'a> Faces<'a> {
    /// The lists are parallel, and the looked-up constraints are those of the faces.
    pub open spec fn wf(&self) -> bool {
        &&& self.mat@.len() == self.ids@.len()
        &&& self.identity@.len() == self.ids@.len()
        &&& self.photo@.len() == self.ids@.len()
        &&& forall|i: int|
            0 <= i < self.ids@.len() ==> #[trigger] self.identity@[i] == self.constraints.identity(
                self.ids@[i],
            ) && self.photo@[i] == self.constraints.photo(self.ids@[i])
    }
}

/// The ids of a list of faces.
pub open spec fn face_ids(faces: Seq<(i64, Seq<i32>)>) -> Seq<i64> {
    faces.map_values(|f: (i64, Seq<i32>)| f.0)
}

/// The embeddings of a list of faces, each scaled to unit length.
pub open spec fn unit_matrix(faces: Seq<(i64, Seq<i32>)>) -> Seq<Seq<i32>> {
    faces.map_values(|f: (i64, Seq<i32>)| unit(f.1))
}

/// Faces `i` and `j` were confirmed as one identity.
pub open spec fn must(ids: Seq<i64>, c: LinkConstraints, i: int, j: int) -> bool {
    c.must_link(ids[i], ids[j])
}

/// Faces `i` and `j` may share a cluster: they look alike and no constraint keeps them
/// apart.
pub open spec fn linkable(
    m: Seq<Seq<i32>>,
    ids: Seq<i64>,
    c: LinkConstraints,
    i: int,
    j: int,
) -> bool {
    dot(m[i], m[j]) >= TAU_LINK && c.allows(ids[i], ids[j])
}

/// Row `i`, position `p` of the neighbor lists is a mutual edge, seen from its smaller
/// end.
pub open spec fn is_mutual(m: Seq<Seq<i32>>, i: int, j: int) -> bool {
    i < j && lists(nearest(m, TAU_LINK as int, j), i)
}

/// A neighbor list names `j`.
pub open spec fn lists(top: Seq<(usize, i128)>, j: int) -> bool {
    exists|p: int| 0 <= p < top.len() && (#[trigger] top[p]).0 == j
}

/// The mutual edges from `i` to a larger index, among the first `n` entries of its
/// list: `(similarity, i, j)`.
pub open spec fn edges_from(m: Seq<Seq<i32>>, i: int, n: nat) -> Seq<(i128, usize, usize)>
    decreases n,
{
    if n == 0 {
        Seq::empty()
    } else {
        let earlier = edges_from(m, i, (n - 1) as nat);
        let (j, sim) = nearest(m, TAU_LINK as int, i)[n - 1];
        if is_mutual(m, i, j as int) {
            earlier.push((sim, i as usize, j))
        } else {
            earlier
        }
    }
}

/// The mutual edges whose smaller end is below `n`.
pub open spec fn mutual_edges(m: Seq<Seq<i32>>, n: nat) -> Seq<(i128, usize, usize)>
    decreases n,
{
    if n == 0 {
        Seq::empty()
    } else {
        mutual_edges(m, (n - 1) as nat) + edges_from(
            m,
            n - 1,
            nearest(m, TAU_LINK as int, n - 1).len(),
        )
    }
}

/// How edges are ranked: strongest first, then by their ends.
pub open spec fn edge_keys(edges: Seq<(i128, usize, usize)>) -> Seq<(i128, i128, i128)> {
    edges.map_values(|e: (i128, usize, usize)| (e.0, e.1 as i128, e.2 as i128))
}

/// The smallest index welded to `i`: the first face confirmed as the same identity.
pub open spec fn weld(ids: Seq<i64>, c: LinkConstraints, i: int, n: nat) -> int
    decreases n,
{
    if n == 0 {
        i
    } else {
        let first = weld(ids, c, i, (n - 1) as nat);
        if first == i && must(ids, c, n - 1, i) {
            n - 1
        } else {
            first
        }
    }
}

/// The groups before any edge is walked. A group is named by its smallest index.
pub open spec fn welded(ids: Seq<i64>, c: LinkConstraints) -> Seq<int> {
    Seq::new(ids.len(), |i: int| weld(ids, c, i, i as nat))
}

/// Every cross-pair of the groups of `a` and `b` is linkable (complete linkage).
pub open spec fn groups_link(
    m: Seq<Seq<i32>>,
    ids: Seq<i64>,
    c: LinkConstraints,
    comp: Seq<int>,
    a: int,
    b: int,
) -> bool {
    forall|i: int, j: int|
        0 <= i < comp.len() && 0 <= j < comp.len() && comp[i] == comp[a] && comp[j] == comp[b]
            ==> #[trigger] linkable(m, ids, c, i, j)
}

/// The groups of `a` and `b` become one.
pub open spec fn joined(comp: Seq<int>, a: int, b: int) -> Seq<int> {
    let lo = if comp[a] < comp[b] {
        comp[a]
    } else {
        comp[b]
    };
    let hi = if comp[a] < comp[b] {
        comp[b]
    } else {
        comp[a]
    };
    comp.map_values(
        |g: int|
            if g == hi {
                lo
            } else {
                g
            },
    )
}

/// One edge is walked.
pub open spec fn walk_edge(
    m: Seq<Seq<i32>>,
    ids: Seq<i64>,
    c: LinkConstraints,
    comp: Seq<int>,
    edge: (i128, usize, usize),
) -> Seq<int> {
    let (a, b) = (edge.1 as int, edge.2 as int);
    if comp[a] != comp[b] && groups_link(m, ids, c, comp, a, b) {
        joined(comp, a, b)
    } else {
        comp
    }
}

/// The groups after the `t` strongest edges.
pub open spec fn agglomerate(
    m: Seq<Seq<i32>>,
    ids: Seq<i64>,
    c: LinkConstraints,
    edges: Seq<(i128, usize, usize)>,
    order: Seq<usize>,
    t: nat,
) -> Seq<int>
    decreases t,
{
    if t == 0 {
        welded(ids, c)
    } else {
        walk_edge(
            m,
            ids,
            c,
            agglomerate(m, ids, c, edges, order, (t - 1) as nat),
            edges[order[t - 1] as int],
        )
    }
}

/// The groups of faces after every edge: element `i` is the smallest index in the
/// group of face `i`.
pub open spec fn components(m: Seq<Seq<i32>>, ids: Seq<i64>, c: LinkConstraints) -> Seq<int> {
    let edges = mutual_edges(m, m.len());
    agglomerate(m, ids, c, edges, order_of(edge_keys(edges)), edges.len())
}

/// How many groups start at or before index `g`.
pub open spec fn ordinal(comp: Seq<int>, g: int) -> int
    decreases g + 1,
{
    if g < 0 {
        0
    } else {
        ordinal(comp, g - 1) + if comp[g] == g {
            1int
        } else {
            0
        }
    }
}

/// Each face with its cluster id; clusters are numbered from one, in the order of
/// their first faces.
pub open spec fn numbered(ids: Seq<i64>, comp: Seq<int>) -> Seq<(i64, i64)> {
    Seq::new(ids.len(), |i: int| (ids[i], ordinal(comp, comp[i]) as i64))
}

/// Two faces look alike enough and no constraint keeps them apart.
fn can_link(f: &Faces, i: usize, j: usize) -> (ok: bool)
    requires
        f.wf(),
        i < f.ids@.len(),
        j < f.ids@.len(),
    ensures
        ok == linkable(rows(f.mat@), f.ids@, *f.constraints, i as int, j as int),
{
    if cos(f.mat[i].as_slice(), f.mat[j].as_slice()) < TAU_LINK {
        return false;
    }
    if let (Some(a), Some(b)) = (f.identity[i], f.identity[j]) {
        if contains_pair(&f.constraints.cannot_link, a, b) {
            return false;
        }
    }
    if let (Some(p), Some(q)) = (f.photo[i], f.photo[j]) {
        if p == q && !contains_pair(&f.constraints.same_photo_ok, f.ids[i], f.ids[j]) {
            return false;
        }
    }
    true
}

/// Complete-linkage test: true iff *every* cross-pair between the two member sets may
/// link. Early-exits on the first pair that fails.
fn complete_link(f: &Faces, a: &Vec<usize>, b: &Vec<usize>) -> (ok: bool)
    requires
        f.wf(),
        forall|p: int| 0 <= p < a@.len() ==> #[trigger] a@[p] < f.ids@.len(),
        forall|p: int| 0 <= p < b@.len() ==> #[trigger] b@[p] < f.ids@.len(),
    ensures
        ok == forall|p: int, q: int|
            0 <= p < a@.len() && 0 <= q < b@.len() ==> linkable(
                rows(f.mat@),
                f.ids@,
                *f.constraints,
                #[trigger] a@[p] as int,
                #[trigger] b@[q] as int,
            ),
{
    for i in 0..a.len()
        invariant
            f.wf(),
            forall|p: int| 0 <= p < a@.len() ==> #[trigger] a@[p] < f.ids@.len(),
            forall|p: int| 0 <= p < b@.len() ==> #[trigger] b@[p] < f.ids@.len(),
            forall|p: int, q: int|
                0 <= p < i && 0 <= q < b@.len() ==> linkable(
                    rows(f.mat@),
                    f.ids@,
                    *f.constraints,
                    #[trigger] a@[p] as int,
                    #[trigger] b@[q] as int,
                ),
    {
        for j in 0..b.len()
            invariant
                f.wf(),
                i < a@.len(),
                forall|p: int| 0 <= p < a@.len() ==> #[trigger] a@[p] < f.ids@.len(),
                forall|p: int| 0 <= p < b@.len() ==> #[trigger] b@[p] < f.ids@.len(),
                forall|q: int|
                    0 <= q < j ==> linkable(
                        rows(f.mat@),
                        f.ids@,
                        *f.constraints,
                        a@[i as int] as int,
                        #[trigger] b@[q] as int,
                    ),
        {
            if !can_link(f, a[i], b[j]) {
                return false;
            }
        }
    }
    true
}

/// The faces with their vectors scaled to unit length and their constraints looked up.
fn prepare<'a>(faces: &Vec<(i64, Vec<i32>)>, constraints: &'a LinkConstraints) -> (f: Faces<'a>)
    ensures
        f.wf(),
        f.ids@ == face_ids(views(faces@)),
        rows(f.mat@) == unit_matrix(views(faces@)),
        f.constraints == constraints,
{
    let mut ids: Vec<i64> = Vec::with_capacity(faces.len());
    let mut mat: Vec<Vec<i32>> = Vec::with_capacity(faces.len());
    let mut identity: Vec<Option<i64>> = Vec::with_capacity(faces.len());
    let mut photo: Vec<Option<i64>> = Vec::with_capacity(faces.len());
    for i in 0..faces.len()
        invariant
            ids@ == face_ids(views(faces@)).take(i as int),
            rows(mat@) == unit_matrix(views(faces@)).take(i as int),
            ids@.len() == i,
            mat@.len() == i,
            identity@.len() == i,
            photo@.len() == i,
            forall|k: int| 0 <= k < i ==> #[trigger] identity@[k] == constraints.identity(ids@[k]),
            forall|k: int| 0 <= k < i ==> #[trigger] photo@[k] == constraints.photo(ids@[k]),
    {
        ids.push(faces[i].0);
        mat.push(normalized(faces[i].1.as_slice()));
        identity.push(lookup_last(&constraints.face_identity, faces[i].0));
        photo.push(lookup_last(&constraints.photo_of, faces[i].0));
        assert(ids@ =~= face_ids(views(faces@)).take(i + 1));
        assert(rows(mat@) =~= unit_matrix(views(faces@)).take(i + 1));
    }
    assert(ids@ =~= face_ids(views(faces@)));
    assert(rows(mat@) =~= unit_matrix(views(faces@)));
    Faces { ids, mat, identity, photo, constraints }
}

pub proof fn lemma_nearest_entries(m: Seq<Seq<i32>>, i: int)
    requires
        m.len() <= usize::MAX,
        forall|j: int| 0 <= j < m.len() ==> (#[trigger] m[j]).len() <= usize::MAX,
        0 <= i < m.len(),
    ensures
        forall|p: int|
            0 <= p < nearest(m, TAU_LINK as int, i).len() ==> {
                let e = #[trigger] nearest(m, TAU_LINK as int, i)[p];
                &&& e.0 < m.len()
                &&& e.0 != i
                &&& e.1 == dot(m[i], m[e.0 as int])
                &&& e.1 >= TAU_LINK
            },
        forall|p: int, q: int|
            0 <= p < q < nearest(m, TAU_LINK as int, i).len() ==> (#[trigger] nearest(
                m,
                TAU_LINK as int,
                i,
            )[p]).0 != (#[trigger] nearest(m, TAU_LINK as int, i)[q]).0,
{
    assert forall|j: int| 0 <= j < m.len() implies i128::MIN <= dot(m[i], #[trigger] m[j])
        <= i128::MAX by {
        lemma_dot_fits(m[i], m[j]);
    }
    lemma_ranked_entries(m, TAU_LINK as int, i, m.len());
    let all = ranked(m, TAU_LINK as int, i, m.len());
    assert forall|p: int| 0 <= p < nearest(m, TAU_LINK as int, i).len() implies #[trigger] nearest(
        m,
        TAU_LINK as int,
        i,
    )[p] == all[p] by {}
}

/// Whether a neighbor list names `j`.
fn names(top: &Vec<(usize, i128)>, j: usize) -> (found: bool)
    ensures
        found == lists(top@, j as int),
{
    for p in 0..top.len()
        invariant
            forall|q: int| 0 <= q < p ==> (#[trigger] top@[q]).0 != j,
    {
        if top[p].0 == j {
            return true;
        }
    }
    false
}

/// Every mutual edge of the neighbor graph, by its smaller end.
fn mutual_edge_list(mat: &Vec<Vec<i32>>) -> (edges: Vec<(i128, usize, usize)>)
    ensures
        edges@ == mutual_edges(rows(mat@), mat@.len()),
{
    let graph = knn_graph(mat, TAU_LINK);
    let ghost m = rows(mat@);
    proof {
        lemma_row_lengths(mat@);
    }
    let mut edges: Vec<(i128, usize, usize)> = Vec::new();
    for i in 0..graph.len()
        invariant
            m == rows(mat@),
            forall|j: int| 0 <= j < m.len() ==> (#[trigger] m[j]).len() <= usize::MAX,
            graph@.len() == mat@.len(),
            forall|k: int|
                0 <= k < mat@.len() ==> (#[trigger] graph@[k])@ == nearest(m, TAU_LINK as int, k),
            edges@ == mutual_edges(m, i as nat),
    {
        proof {
            lemma_nearest_entries(m, i as int);
            assert(graph@[i as int]@ == nearest(m, TAU_LINK as int, i as int));
        }
        let len: usize = graph[i].len();
        for p in 0..len
            invariant
                m == rows(mat@),
                i < mat@.len(),
                graph@.len() == mat@.len(),
                forall|k: int|
                    0 <= k < mat@.len() ==> (#[trigger] graph@[k])@ == nearest(m, TAU_LINK as int, k),
                len == nearest(m, TAU_LINK as int, i as int).len(),
                edges@ == mutual_edges(m, i as nat) + edges_from(m, i as int, p as nat),
                forall|q: int|
                    0 <= q < len ==> (#[trigger] nearest(m, TAU_LINK as int, i as int)[q]).0
                        < m.len(),
        {
            assert(graph@[i as int]@ == nearest(m, TAU_LINK as int, i as int));
            let (j, sim) = graph[i][p];
            assert((j, sim) == nearest(m, TAU_LINK as int, i as int)[p as int]);
            assert(graph@[j as int]@ == nearest(m, TAU_LINK as int, j as int));
            if i < j && names(&graph[j], i) {
                edges.push((sim, i, j));
            }
            assert(edges@ =~= mutual_edges(m, i as nat) + edges_from(m, i as int, (p + 1) as nat));
        }
    }
    edges
}

/// Each group is named by its smallest index.
pub open spec fn is_grouping(comp: Seq<int>) -> bool {
    forall|i: int|
        0 <= i < comp.len() ==> 0 <= #[trigger] comp[i] <= i && comp[comp[i]] == comp[i]
}

/// Representatives and group names tell the same indices apart.
spec fn same_groups(roots: Seq<usize>, comp: Seq<int>) -> bool {
    &&& roots.len() == comp.len()
    &&& forall|i: int, j: int|
        0 <= i < comp.len() && 0 <= j < comp.len() ==> (#[trigger] roots[i] == #[trigger] roots[j]
            <==> comp[i] == comp[j])
}

/// `members[r]` lists the indices whose representative is `r`.
spec fn members_of(roots: Seq<usize>, members: Seq<Vec<usize>>) -> bool {
    &&& members.len() == roots.len()
    &&& forall|x: int| 0 <= x < roots.len() ==> members[#[trigger] roots[x] as int]@.contains(x as usize)
    &&& forall|r: int, p: int|
        0 <= r < members.len() && 0 <= p < members[r]@.len() ==> {
            &&& #[trigger] members[r]@[p] < roots.len()
            &&& roots[members[r]@[p] as int] == r
        }
}

/// The two sets become one.
fn unite(uf: &mut UnionFind, members: &mut Vec<Vec<usize>>, a: usize, b: usize)
    requires
        old(uf).wf(),
        members_of(old(uf)@, old(members)@),
        a < old(uf)@.len(),
        b < old(uf)@.len(),
        old(uf)@[a as int] == a,
        old(uf)@[b as int] == b,
        a != b,
    ensures
        final(uf).wf(),
        members_of(final(uf)@, final(members)@),
        final(uf)@.len() == old(uf)@.len(),
        forall|i: int, j: int|
            0 <= i < old(uf)@.len() && 0 <= j < old(uf)@.len() ==> (#[trigger] final(uf)@[i]
                == #[trigger] final(uf)@[j] <==> {
                ||| old(uf)@[i] == old(uf)@[j]
                ||| old(uf)@[i] == a && old(uf)@[j] == b
                ||| old(uf)@[i] == b && old(uf)@[j] == a
            }),
{
    let (keep, gone) = if members[a].len() >= members[b].len() {
        (a, b)
    } else {
        (b, a)
    };
    let ghost roots = uf@;
    let ghost was = members@;
    proof {
        uf.lemma_roots();
        assert(members.len() <= usize::MAX);
    }
    let mut moved: Vec<usize> = Vec::new();
    std::mem::swap(&mut moved, &mut members[gone]);
    members[keep].append(&mut moved);
    uf.link(keep, gone);
    proof {
        assert(members@[keep as int]@ == was[keep as int]@ + was[gone as int]@);
        assert(members@[gone as int]@ == Seq::<usize>::empty());
        assert forall|x: int| 0 <= x < roots.len() implies members@[#[trigger] uf@[x] as int]@.contains(
            x as usize,
        ) by {
            let r = roots[x] as int;
            assert(was[r]@.contains(x as usize));
            let p = choose|p: int| 0 <= p < was[r]@.len() && was[r]@[p] == x;
            if r == gone {
                assert(members@[keep as int]@[was[keep as int]@.len() + p] == x);
            } else {
                assert(members@[r]@[p] == x);
            }
        }
        assert forall|r: int, p: int| 0 <= r < members@.len() && 0 <= p < members@[r]@.len() implies {
            &&& #[trigger] members@[r]@[p] < uf@.len()
            &&& uf@[members@[r]@[p] as int] == r
        } by {
            if r == keep && p >= was[keep as int]@.len() {
                let q = p - was[keep as int]@.len();
                assert(members@[r]@[p] == was[gone as int]@[q]);
            } else {
                assert(members@[r]@[p] == was[r]@[p]);
            }
        }
    }
}

proof fn lemma_weld(ids: Seq<i64>, c: LinkConstraints, i: int, n: nat)
    requires
        n <= i,
    ensures
        ({
            let w = weld(ids, c, i, n);
            ||| w == i && forall|j: int| 0 <= j < n ==> !#[trigger] must(ids, c, j, i)
            ||| 0 <= w < n && must(ids, c, w, i) && forall|j: int|
                0 <= j < w ==> !#[trigger] must(ids, c, j, i)
        }),
    decreases n,
{
    if n > 0 {
        lemma_weld(ids, c, i, (n - 1) as nat);
    }
}

pub proof fn lemma_welded(ids: Seq<i64>, c: LinkConstraints)
    ensures
        is_grouping(welded(ids, c)),
        forall|i: int, j: int|
            0 <= i < ids.len() && 0 <= j < ids.len() ==> (#[trigger] welded(ids, c)[i]
                == #[trigger] welded(ids, c)[j] <==> i == j || must(ids, c, i, j)),
{
    let comp = welded(ids, c);
    assert forall|i: int| 0 <= i < comp.len() implies 0 <= #[trigger] comp[i] <= i && comp[comp[i]]
        == comp[i] by {
        lemma_weld(ids, c, i, i as nat);
        let w = comp[i];
        lemma_weld(ids, c, w, w as nat);
        if w != i && comp[w] != w {
            assert(must(ids, c, comp[w], i));
        }
    }
    assert forall|i: int, j: int| 0 <= i < ids.len() && 0 <= j < ids.len() implies (
    #[trigger] comp[i] == #[trigger] comp[j] <==> i == j || must(ids, c, i, j)) by {
        lemma_weld(ids, c, i, i as nat);
        lemma_weld(ids, c, j, j as nat);
        if must(ids, c, i, j) {
            if comp[i] < comp[j] {
                if comp[i] != i {
                    assert(must(ids, c, comp[i], j));
                }
                assert(must(ids, c, comp[i], j));
            }
            if comp[j] < comp[i] {
                if comp[j] != j {
                    assert(must(ids, c, comp[j], i));
                }
                assert(must(ids, c, comp[j], i));
            }
        }
    }
}

pub proof fn lemma_joined(comp: Seq<int>, a: int, b: int)
    requires
        is_grouping(comp),
        0 <= a < comp.len(),
        0 <= b < comp.len(),
        comp[a] != comp[b],
    ensures
        is_grouping(joined(comp, a, b)),
        joined(comp, a, b).len() == comp.len(),
        forall|i: int, j: int|
            0 <= i < comp.len() && 0 <= j < comp.len() ==> (#[trigger] joined(comp, a, b)[i]
                == #[trigger] joined(comp, a, b)[j] <==> {
                ||| comp[i] == comp[j]
                ||| comp[i] == comp[a] && comp[j] == comp[b]
                ||| comp[i] == comp[b] && comp[j] == comp[a]
            }),
{
    assert(comp[comp[a]] == comp[a]);
    assert(comp[comp[b]] == comp[b]);
    let after = joined(comp, a, b);
    assert forall|i: int| 0 <= i < after.len() implies 0 <= #[trigger] after[i] <= i
        && after[after[i]] == after[i] by {
        assert(0 <= comp[i] <= i && comp[comp[i]] == comp[i]);
    }
}

/// Put the faces of each confirmed identity into one group.
fn weld_identities(f: &Faces, uf: &mut UnionFind, members: &mut Vec<Vec<usize>>)
    requires
        f.wf(),
        old(uf).wf(),
        old(uf)@ == Seq::new(f.ids@.len(), |i: int| i as usize),
        members_of(old(uf)@, old(members)@),
    ensures
        final(uf).wf(),
        members_of(final(uf)@, final(members)@),
        same_groups(final(uf)@, welded(f.ids@, *f.constraints)),
{
    let n: usize = f.ids.len();
    let ghost ids = f.ids@;
    let ghost c = *f.constraints;
    let ghost comp = welded(ids, c);
    proof {
        lemma_welded(ids, c);
    }
    for i in 0..n
        invariant
            f.wf(),
            n == f.ids@.len(),
            ids == f.ids@,
            c == *f.constraints,
            comp == welded(ids, c),
            is_grouping(comp),
            forall|x: int, y: int|
                0 <= x < n && 0 <= y < n ==> (#[trigger] comp[x] == #[trigger] comp[y] <==> x == y
                    || must(ids, c, x, y)),
            uf.wf(),
            uf@.len() == n,
            members_of(uf@, members@),
            forall|x: int, y: int|
                0 <= x < i && 0 <= y < i ==> (#[trigger] uf@[x] == #[trigger] uf@[y] <==> comp[x]
                    == comp[y]),
            forall|x: int, y: int|
                i <= x < n && 0 <= y < n && x != y ==> #[trigger] uf@[x] != #[trigger] uf@[y],
    {
        if let Some(identity) = f.identity[i] {
            let mut j: usize = 0;
            while j < i && f.identity[j] != Some(identity)
                invariant
                    f.wf(),
                    i < n,
                    n == f.ids@.len(),
                    ids == f.ids@,
                    c == *f.constraints,
                    c.identity(ids[i as int]) == Some(identity),
                    j <= i,
                    forall|k: int| 0 <= k < j ==> !#[trigger] must(ids, c, k, i as int),
                decreases i - j,
            {
                assert(f.identity@[j as int] == c.identity(ids[j as int]));
                j = j + 1;
            }
            if j < i {
                assert(f.identity@[j as int] == c.identity(ids[j as int]));
                assert(must(ids, c, j as int, i as int));
                let ghost was = uf@;
                let a: usize = uf.find(j);
                let b: usize = uf.find(i);
                proof {
                    uf.lemma_roots();
                }
                unite(uf, members, a, b);
                assert forall|x: int, y: int| 0 <= x < i + 1 && 0 <= y < i + 1 implies (
                #[trigger] uf@[x] == #[trigger] uf@[y] <==> comp[x] == comp[y]) by {
                    assert(comp[x] == comp[y] <==> x == y || must(ids, c, x, y));
                    assert(comp[j as int] == comp[i as int]);
                    assert(was[x] == was[y] <==> was[x] == was[y]);
                    if x < i && y < i {
                        assert(was[x] == was[y] <==> comp[x] == comp[y]);
                        assert(was[x] != was[i as int]);
                        assert(was[y] != was[i as int]);
                    } else if x < i {
                        assert(was[x] != was[i as int]);
                        assert(was[x] == was[j as int] <==> comp[x] == comp[j as int]);
                    } else if y < i {
                        assert(was[y] != was[i as int]);
                        assert(was[y] == was[j as int] <==> comp[y] == comp[j as int]);
                    }
                }
                assert forall|x: int, y: int| i + 1 <= x < n && 0 <= y < n && x != y implies
                #[trigger] uf@[x] != #[trigger] uf@[y] by {
                    assert(was[x] != was[y]);
                    assert(was[x] != was[i as int]);
                    assert(was[x] != was[j as int]);
                }
            } else {
                assert forall|x: int| 0 <= x < i implies comp[x] != comp[i as int] by {
                    assert(!must(ids, c, x, i as int));
                }
            }
        } else {
            assert forall|x: int| 0 <= x < i implies comp[x] != comp[i as int] by {
                assert(!must(ids, c, x, i as int));
            }
        }
    }
}

/// Ends of an edge list lie below `n`.
pub open spec fn edges_within(edges: Seq<(i128, usize, usize)>, n: nat) -> bool {
    forall|p: int| 0 <= p < edges.len() ==> (#[trigger] edges[p]).1 < n && edges[p].2 < n
}

proof fn lemma_edges_from_within(m: Seq<Seq<i32>>, i: int, n: nat)
    requires
        m.len() <= usize::MAX,
        forall|j: int| 0 <= j < m.len() ==> (#[trigger] m[j]).len() <= usize::MAX,
        0 <= i < m.len(),
        n <= nearest(m, TAU_LINK as int, i).len(),
    ensures
        edges_within(edges_from(m, i, n), m.len()),
    decreases n,
{
    if n > 0 {
        lemma_edges_from_within(m, i, (n - 1) as nat);
        lemma_nearest_entries(m, i);
    }
}

pub proof fn lemma_mutual_edges_within(m: Seq<Seq<i32>>, n: nat)
    requires
        m.len() <= usize::MAX,
        forall|j: int| 0 <= j < m.len() ==> (#[trigger] m[j]).len() <= usize::MAX,
        n <= m.len(),
    ensures
        edges_within(mutual_edges(m, n), m.len()),
    decreases n,
{
    if n > 0 {
        lemma_mutual_edges_within(m, (n - 1) as nat);
        lemma_edges_from_within(m, n - 1, nearest(m, TAU_LINK as int, n - 1).len());
    }
}

pub proof fn lemma_agglomerate_grouping(
    m: Seq<Seq<i32>>,
    ids: Seq<i64>,
    c: LinkConstraints,
    edges: Seq<(i128, usize, usize)>,
    order: Seq<usize>,
    t: nat,
)
    requires
        edges_within(edges, ids.len()),
        is_order(edge_keys(edges), order),
        t <= edges.len(),
    ensures
        agglomerate(m, ids, c, edges, order, t).len() == ids.len(),
        is_grouping(agglomerate(m, ids, c, edges, order, t)),
    decreases t,
{
    if t == 0 {
        lemma_welded(ids, c);
    } else {
        let s = (t - 1) as nat;
        lemma_agglomerate_grouping(m, ids, c, edges, order, s);
        let before = agglomerate(m, ids, c, edges, order, s);
        assert(0 <= order[s as int] < edges.len());
        let edge = edges[order[s as int] as int];
        let (a, b) = (edge.1 as int, edge.2 as int);
        if before[a] != before[b] {
            lemma_joined(before, a, b);
        }
    }
}

/// Walk the edges strongest first, merging the two ends' groups where complete linkage
/// and the constraints allow it.
fn link_groups(f: &Faces) -> (uf: UnionFind)
    requires
        f.wf(),
    ensures
        uf.wf(),
        uf@.len() == f.ids@.len(),
        same_groups(uf@, components(rows(f.mat@), f.ids@, *f.constraints)),
        is_grouping(components(rows(f.mat@), f.ids@, *f.constraints)),
{
    let n: usize = f.ids.len();
    let ghost m = rows(f.mat@);
    let ghost ids = f.ids@;
    let ghost c = *f.constraints;
    let edges = mutual_edge_list(&f.mat);
    proof {
        lemma_row_lengths(f.mat@);
        lemma_mutual_edges_within(m, m.len());
    }
    let mut keys: Vec<(i128, i128, i128)> = Vec::with_capacity(edges.len());
    for p in 0..edges.len()
        invariant
            keys@ == edge_keys(edges@).take(p as int),
    {
        keys.push((edges[p].0, edges[p].1 as i128, edges[p].2 as i128));
        assert(keys@ =~= edge_keys(edges@).take(p + 1));
    }
    assert(keys@ =~= edge_keys(edges@));
    let order = sort_order(&keys);

    let mut uf = UnionFind::new(n);
    let mut members: Vec<Vec<usize>> = Vec::with_capacity(n);
    for i in 0..n
        invariant
            members@.len() == i,
            forall|k: int| 0 <= k < i ==> (#[trigger] members@[k])@ == seq![k as usize],
    {
        let mut one: Vec<usize> = Vec::new();
        one.push(i);
        members.push(one);
        assert(members@[i as int]@ =~= seq![i]);
    }
    assert forall|x: int| 0 <= x < n implies members@[#[trigger] uf@[x] as int]@.contains(
        x as usize,
    ) by {
        assert(members@[x]@ == seq![x as usize]);
        assert(members@[x]@[0] == x);
    }
    weld_identities(f, &mut uf, &mut members);

    let total: usize = order.len();
    for t in 0..total
        invariant
            f.wf(),
            n == f.ids@.len(),
            m == rows(f.mat@),
            ids == f.ids@,
            c == *f.constraints,
            total == edges@.len(),
            is_order(edge_keys(edges@), order@),
            edges_within(edges@, n as nat),
            uf.wf(),
            members_of(uf@, members@),
            same_groups(uf@, agglomerate(m, ids, c, edges@, order@, t as nat)),
    {
        let ghost comp = agglomerate(m, ids, c, edges@, order@, t as nat);
        proof {
            lemma_agglomerate_grouping(m, ids, c, edges@, order@, t as nat);
            assert(0 <= order@[t as int] < edges@.len());
        }
        let (_, a, b) = edges[order[t]];
        let ghost was = uf@;
        let ra: usize = uf.find(a);
        let rb: usize = uf.find(b);
        proof {
            uf.lemma_roots();
            assert(was[a as int] == was[b as int] <==> comp[a as int] == comp[b as int]);
        }
        if ra != rb {
            let fits = complete_link(f, &members[ra], &members[rb]);
            proof {
                lemma_complete_link(f, was, members@, comp, a as int, b as int);
            }
            if fits {
                unite(&mut uf, &mut members, ra, rb);
                proof {
                    lemma_joined(comp, a as int, b as int);
                    let after = joined(comp, a as int, b as int);
                    assert forall|i: int, j: int| 0 <= i < n && 0 <= j < n implies (
                    #[trigger] uf@[i] == #[trigger] uf@[j] <==> after[i] == after[j]) by {
                        assert(was[i] == was[j] <==> comp[i] == comp[j]);
                        assert(was[i] == was[a as int] <==> comp[i] == comp[a as int]);
                        assert(was[j] == was[a as int] <==> comp[j] == comp[a as int]);
                        assert(was[i] == was[b as int] <==> comp[i] == comp[b as int]);
                        assert(was[j] == was[b as int] <==> comp[j] == comp[b as int]);
                    }
                }
            }
        }
    }
    proof {
        lemma_agglomerate_grouping(m, ids, c, edges@, order@, total as nat);
    }
    uf
}

proof fn lemma_complete_link(
    f: &Faces,
    roots: Seq<usize>,
    members: Seq<Vec<usize>>,
    comp: Seq<int>,
    a: int,
    b: int,
)
    requires
        members_of(roots, members),
        same_groups(roots, comp),
        roots.len() == f.ids@.len(),
        roots.len() <= usize::MAX,
        0 <= a < roots.len(),
        0 <= b < roots.len(),
        0 <= roots[a] < roots.len(),
        0 <= roots[b] < roots.len(),
    ensures
        groups_link(rows(f.mat@), f.ids@, *f.constraints, comp, a, b) <==> forall|p: int, q: int|
            0 <= p < members[roots[a] as int]@.len() && 0 <= q < members[roots[b] as int]@.len()
                ==> linkable(
                rows(f.mat@),
                f.ids@,
                *f.constraints,
                #[trigger] members[roots[a] as int]@[p] as int,
                #[trigger] members[roots[b] as int]@[q] as int,
            ),
{
    let m = rows(f.mat@);
    let (sa, sb) = (members[roots[a] as int]@, members[roots[b] as int]@);
    let crossed = forall|p: int, q: int|
        0 <= p < sa.len() && 0 <= q < sb.len() ==> linkable(
            m,
            f.ids@,
            *f.constraints,
            #[trigger] sa[p] as int,
            #[trigger] sb[q] as int,
        );
    if crossed {
        assert forall|i: int, j: int|
            0 <= i < comp.len() && 0 <= j < comp.len() && comp[i] == comp[a] && comp[j]
                == comp[b] implies #[trigger] linkable(m, f.ids@, *f.constraints, i, j) by {
            assert(roots[i] == roots[a]);
            assert(roots[j] == roots[b]);
            assert(sa.contains(i as usize));
            assert(sb.contains(j as usize));
            let p = choose|p: int| 0 <= p < sa.len() && sa[p] == i as usize;
            let q = choose|q: int| 0 <= q < sb.len() && sb[q] == j as usize;
            assert(linkable(m, f.ids@, *f.constraints, sa[p] as int, sb[q] as int));
        }
    }
    if groups_link(m, f.ids@, *f.constraints, comp, a, b) {
        assert forall|p: int, q: int| 0 <= p < sa.len() && 0 <= q < sb.len() implies linkable(
            m,
            f.ids@,
            *f.constraints,
            #[trigger] sa[p] as int,
            #[trigger] sb[q] as int,
        ) by {
            let (i, j) = (sa[p] as int, sb[q] as int);
            assert(members[roots[a] as int]@[p] < roots.len());
            assert(members[roots[b] as int]@[q] < roots.len());
            assert(roots[i] == roots[a]);
            assert(roots[j] == roots[b]);
        }
    }
}

pub proof fn lemma_ordinal(comp: Seq<int>, g: int)
    requires
        g < comp.len(),
    ensures
        0 <= ordinal(comp, g),
        ordinal(comp, g) <= g + 1 || g < 0,
        g >= 0 && comp[g] == g ==> ordinal(comp, g) >= 1,
    decreases g + 1,
{
    if g >= 0 {
        lemma_ordinal(comp, g - 1);
    }
}

/// Re-cluster every face from scratch: purity-biased, honoring the constraints.
///
/// Input is `(face_id, embedding)`; output maps every input `face_id` to a new
/// 1-based `cluster_id`.
pub fn recluster(faces: &Vec<(i64, Vec<i32>)>, constraints: &LinkConstraints) -> (out: Vec<(i64, i64)>)
    requires
        faces@.len() <= i64::MAX,
    ensures
        out@ == numbered(
            face_ids(views(faces@)),
            components(unit_matrix(views(faces@)), face_ids(views(faces@)), *constraints),
        ),
{
    let n: usize = faces.len();
    let f = prepare(faces, constraints);
    let mut uf = link_groups(&f);
    let ghost ids = face_ids(views(faces@));
    let ghost comp = components(unit_matrix(views(faces@)), ids, *constraints);
    let ghost roots = uf@;
    proof {
        uf.lemma_roots();
    }
    // The cluster id given to each representative; zero until its first face is met.
    let mut cid_of: Vec<i64> = Vec::with_capacity(n);
    for i in 0..n
        invariant
            cid_of@.len() == i,
            forall|k: int| 0 <= k < i ==> #[trigger] cid_of@[k] == 0,
    {
        cid_of.push(0);
    }
    let mut last: i64 = 0;
    let mut out: Vec<(i64, i64)> = Vec::with_capacity(n);
    for i in 0..n
        invariant
            n == faces@.len(),
            n <= i64::MAX,
            ids == face_ids(views(faces@)),
            uf.wf(),
            uf@ == roots,
            roots.len() == n,
            forall|x: int| 0 <= x < n ==> 0 <= #[trigger] roots[x] < n,
            same_groups(roots, comp),
            is_grouping(comp),
            comp.len() == n,
            cid_of@.len() == n,
            last == ordinal(comp, i - 1),
            0 <= last <= i,
            out@.len() == i,
            forall|k: int| 0 <= k < i ==> #[trigger] out@[k] == numbered(ids, comp)[k],
            forall|k: int|
                0 <= k < i ==> cid_of@[#[trigger] roots[k] as int] == ordinal(comp, comp[k])
                    && cid_of@[roots[k] as int] >= 1,
            forall|k: int|
                i <= k < n && comp[k] >= i ==> cid_of@[#[trigger] roots[k] as int] == 0,
    {
        let root: usize = uf.find(i);
        proof {
            lemma_ordinal(comp, i as int);
            assert(0 <= comp[i as int] <= i && comp[comp[i as int]] == comp[i as int]);
        }
        let seen: i64 = cid_of[root];
        let ghost cids = cid_of@;
        let cid: i64 = if seen == 0 {
            last = last + 1;
            cid_of[root] = last;
            last
        } else {
            seen
        };
        proof {
            let g = comp[i as int];
            if g < i {
                assert(comp[g] == g);
                assert(roots[g] == roots[i as int]);
                assert(cids[roots[g] as int] == ordinal(comp, comp[g]));
                assert(seen != 0);
            } else {
                assert(seen == 0);
            }
            assert(cid == ordinal(comp, g));
            assert forall|k: int| 0 <= k < i + 1 implies cid_of@[#[trigger] roots[k] as int]
                == ordinal(comp, comp[k]) && cid_of@[roots[k] as int] >= 1 by {
                assert(roots[k] == roots[i as int] <==> comp[k] == comp[i as int]);
            }
            assert forall|k: int| i + 1 <= k < n && comp[k] >= i + 1 implies
            cid_of@[#[trigger] roots[k] as int] == 0 by {
                assert(roots[k] == roots[i as int] <==> comp[k] == comp[i as int]);
                assert(cids[roots[k] as int] == 0);
            }
        }
        out.push((faces[i].0, cid));
    }
    assert(out@ =~= numbered(ids, comp));
    out
}

/// The similarity of every mutual edge over a face set.
pub open spec fn edge_sims(faces: Seq<(i64, Seq<i32>)>) -> Seq<i128> {
    mutual_edges(unit_matrix(faces), faces.len()).map_values(|e: (i128, usize, usize)| e.0)
}

/// Cosine similarities of every mutual edge over the face set: the distribution that
/// should set [`TAU_LINK`] from a real library.
pub fn mutual_edge_sims(faces: &Vec<(i64, Vec<i32>)>) -> (sims: Vec<i128>)
    ensures
        sims@ == edge_sims(views(faces@)),
{
    let none = LinkConstraints::none();
    let f = prepare(faces, &none);
    let edges = mutual_edge_list(&f.mat);
    let mut sims: Vec<i128> = Vec::with_capacity(edges.len());
    for p in 0..edges.len()
        invariant
            sims@ == edges@.map_values(|e: (i128, usize, usize)| e.0).take(p as int),
    {
        sims.push(edges[p].0);
        assert(sims@ =~= edges@.map_values(|e: (i128, usize, usize)| e.0).take(p + 1));
    }
    assert(sims@ =~= edges@.map_values(|e: (i128, usize, usize)| e.0));
    sims
}

} // verus!
