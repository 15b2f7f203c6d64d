//! Leader grouping of one person's faces into looks.

use vstd::prelude::*;

use crate::similarity::{cos, dot, normalized, rows, unit_rows};

verus! {

/// The first group, from group `k` on, whose leader is at least `tau` similar to face
/// `i`; the number of groups if there is none.
pub open spec fn first_fit(
    m: Seq<Seq<i32>>,
    tau: int,
    groups: Seq<Seq<usize>>,
    i: int,
    k: int,
) -> int
    decreases groups.len() - k,
{
    if k >= groups.len() {
        groups.len() as int
    } else if dot(m[groups[k][0] as int], m[i]) >= tau {
        k
    } else {
        first_fit(m, tau, groups, i, k + 1)
    }
}

/// The groups of the first `n` faces. A face joins the first group whose leader (its
/// first face) it resembles, or leads a new one.
pub open spec fn led(m: Seq<Seq<i32>>, tau: int, n: nat) -> Seq<Seq<usize>>
    decreases n,
{
    if n == 0 {
        Seq::empty()
    } else {
        let i = n - 1;
        let groups = led(m, tau, i as nat);
        let k = first_fit(m, tau, groups, i, 0);
        if k < groups.len() {
            groups.update(k, groups[k].push(i as usize))
        } else {
            groups.push(seq![i as usize])
        }
    }
}

/// Groups, each by its view.
pub open spec fn nested(groups: Seq<Vec<usize>>) -> Seq<Seq<usize>> {
    groups.map_values(|g: Vec<usize>| g@)
}

/// Each group has a first face, and every face of it is below `n`.
pub open spec fn groups_within(groups: Seq<Seq<usize>>, n: int) -> bool {
    forall|k: int|
        0 <= k < groups.len() ==> (#[trigger] groups[k]).len() > 0 && forall|p: int|
            0 <= p < groups[k].len() ==> #[trigger] groups[k][p] < n
}

pub proof fn lemma_first_fit(m: Seq<Seq<i32>>, tau: int, groups: Seq<Seq<usize>>, i: int, k: int)
    requires
        0 <= k <= groups.len(),
    ensures
        k <= first_fit(m, tau, groups, i, k) <= groups.len(),
        forall|g: int|
            k <= g < first_fit(m, tau, groups, i, k) ==> dot(
                m[(#[trigger] groups[g])[0] as int],
                m[i],
            ) < tau,
        first_fit(m, tau, groups, i, k) < groups.len() ==> dot(
            m[groups[first_fit(m, tau, groups, i, k)][0] as int],
            m[i],
        ) >= tau,
    decreases groups.len() - k,
{
    if k < groups.len() && !(dot(m[groups[k][0] as int], m[i]) >= tau) {
        lemma_first_fit(m, tau, groups, i, k + 1);
    }
}

pub proof fn lemma_led_within(m: Seq<Seq<i32>>, tau: int, n: nat)
    requires
        n <= usize::MAX,
    ensures
        groups_within(led(m, tau, n), n as int),
    decreases n,
{
    if n > 0 {
        let i = n - 1;
        lemma_led_within(m, tau, i as nat);
        let groups = led(m, tau, i as nat);
        let after = led(m, tau, n);
        let k = first_fit(m, tau, groups, i, 0);
        lemma_first_fit(m, tau, groups, i, 0);
        assert forall|g: int| 0 <= g < after.len() implies (#[trigger] after[g]).len() > 0 && forall|
            p: int,
        |
            0 <= p < after[g].len() ==> #[trigger] after[g][p] < n by {
            if g < groups.len() {
                assert(groups[g].len() > 0);
                assert forall|p: int| 0 <= p < after[g].len() implies #[trigger] after[g][p] < n by {
                    if p < groups[g].len() {
                        assert(after[g][p] == groups[g][p]);
                    }
                }
            }
        }
    }
}

/// The first group whose leader resembles face `i`; the number of groups if none does.
fn fit(
    mat: &Vec<Vec<i32>>,
    tau: i128,
    groups: &Vec<Vec<usize>>,
    i: usize,
    Ghost(m): Ghost<Seq<Seq<i32>>>,
) -> (k: usize)
    requires
        i < mat@.len(),
        mat@.len() == m.len(),
        forall|j: int| 0 <= j < mat@.len() ==> (#[trigger] mat@[j])@ == m[j],
        groups_within(nested(groups@), i as int),
    ensures
        k == first_fit(m, tau as int, nested(groups@), i as int, 0),
{
    for k in 0..groups.len()
        invariant
            i < mat@.len(),
            mat@.len() == m.len(),
            forall|j: int| 0 <= j < mat@.len() ==> (#[trigger] mat@[j])@ == m[j],
            groups_within(nested(groups@), i as int),
            first_fit(m, tau as int, nested(groups@), i as int, 0) == first_fit(
                m,
                tau as int,
                nested(groups@),
                i as int,
                k as int,
            ),
    {
        assert(nested(groups@)[k as int] == groups@[k as int]@);
        assert(nested(groups@)[k as int][0] < i);
        if cos(mat[groups[k][0]].as_slice(), mat[i].as_slice()) >= tau {
            return k;
        }
    }
    groups.len()
}

/// Group faces by appearance: a face joins the first group whose leader is at least
/// `tau` similar, else leads a new one. No centroids, no merging.
pub fn group_looks(embs: &Vec<Vec<i32>>, tau: i128) -> (groups: Vec<Vec<usize>>)
    ensures
        nested(groups@) == led(unit_rows(rows(embs@)), tau as int, embs@.len()),
{
    let ghost m = unit_rows(rows(embs@));
    let mut mat: Vec<Vec<i32>> = Vec::with_capacity(embs.len());
    for i in 0..embs.len()
        invariant
            mat@.len() == i,
            m == unit_rows(rows(embs@)),
            forall|k: int| 0 <= k < i ==> (#[trigger] mat@[k])@ == m[k],
    {
        mat.push(normalized(embs[i].as_slice()));
    }
    let mut groups: Vec<Vec<usize>> = Vec::new();
    for i in 0..embs.len()
        invariant
            m.len() == embs@.len(),
            mat@.len() == embs@.len(),
            forall|k: int| 0 <= k < mat@.len() ==> (#[trigger] mat@[k])@ == m[k],
            nested(groups@) == led(m, tau as int, i as nat),
    {
        let ghost before = led(m, tau as int, i as nat);
        proof {
            lemma_led_within(m, tau as int, i as nat);
        }
        let k: usize = fit(&mat, tau, &groups, i, Ghost(m));
        if k < groups.len() {
            assert(nested(groups@)[k as int] == groups@[k as int]@);
            groups[k].push(i);
        } else {
            let mut one: Vec<usize> = Vec::new();
            one.push(i);
            assert(one@ =~= seq![i]);
            groups.push(one);
        }
        assert(nested(groups@) =~= led(m, tau as int, (i + 1) as nat));
    }
    groups
}

/// Face `i` belongs to group `k`.
pub open spec fn belongs(groups: Seq<Seq<usize>>, k: int, i: int) -> bool {
    0 <= k < groups.len() && groups[k].contains(i as usize)
}

/// **Looks partition the faces.** Every face belongs to exactly one look.
pub proof fn law_looks_partition(m: Seq<Seq<i32>>, tau: int, n: nat, i: int)
    requires
        n <= usize::MAX,
        0 <= i < n,
    ensures
        exists|k: int| #[trigger] belongs(led(m, tau, n), k, i),
        forall|k: int, l: int| #[trigger]
            belongs(led(m, tau, n), k, i) && #[trigger] belongs(led(m, tau, n), l, i) ==> k == l,
    decreases n,
{
    let last = n - 1;
    let groups = led(m, tau, last as nat);
    let after = led(m, tau, n);
    let k = first_fit(m, tau, groups, last, 0);
    lemma_first_fit(m, tau, groups, last, 0);
    lemma_led_within(m, tau, last as nat);
    assert forall|g: int, j: int| 0 <= j < last && #[trigger] belongs(after, g, j) implies belongs(
        groups,
        g,
        j,
    ) by {
        let p = choose|p: int| 0 <= p < after[g].len() && after[g][p] == j as usize;
        assert(g < groups.len());
        assert(groups[g][p] == j);
    }
    assert forall|g: int| #[trigger] belongs(after, g, last) implies g == k by {
        if g != k {
            assert(after[g] == groups[g]);
            let p = choose|p: int| 0 <= p < groups[g].len() && groups[g][p] == last as usize;
            assert(groups[g][p] < last);
        }
    }
    if i == last {
        if k < groups.len() {
            assert(after[k][groups[k].len() as int] == last);
        } else {
            assert(after[k][0] == last);
        }
        assert(belongs(after, k, last));
    } else {
        law_looks_partition(m, tau, last as nat, i);
        let g = choose|g: int| #[trigger] belongs(groups, g, i);
        let p = choose|p: int| 0 <= p < groups[g].len() && groups[g][p] == i as usize;
        assert(after[g][p] == i);
        assert(belongs(after, g, i));
    }
}

/// **Looks gather around leaders.** Every face of a look resembles the look's first
/// face, and the first faces of two looks do not resemble each other.
pub proof fn law_looks_resemble_their_leader(m: Seq<Seq<i32>>, tau: int, n: nat)
    requires
        n <= usize::MAX,
    ensures
        forall|k: int, p: int|
            0 <= k < led(m, tau, n).len() && 1 <= p < led(m, tau, n)[k].len() ==> dot(
                m[led(m, tau, n)[k][0] as int],
                m[#[trigger] led(m, tau, n)[k][p] as int],
            ) >= tau,
        forall|k: int, l: int|
            0 <= k < l < led(m, tau, n).len() ==> dot(
                m[(#[trigger] led(m, tau, n)[k])[0] as int],
                m[(#[trigger] led(m, tau, n)[l])[0] as int],
            ) < tau,
    decreases n,
{
    if n > 0 {
        let last = n - 1;
        law_looks_resemble_their_leader(m, tau, last as nat);
        let groups = led(m, tau, last as nat);
        let after = led(m, tau, n);
        let fit = first_fit(m, tau, groups, last, 0);
        lemma_first_fit(m, tau, groups, last, 0);
        lemma_led_within(m, tau, last as nat);
        assert forall|k: int, p: int| 0 <= k < after.len() && 1 <= p < after[k].len() implies dot(
            m[after[k][0] as int],
            m[#[trigger] after[k][p] as int],
        ) >= tau by {
            assert(k < groups.len());
            assert(groups[k].len() > 0);
            assert(after[k][0] == groups[k][0]);
            if p < groups[k].len() {
                assert(after[k][p] == groups[k][p]);
            }
        }
        assert forall|k: int, l: int| 0 <= k < l < after.len() implies dot(
            m[(#[trigger] after[k])[0] as int],
            m[(#[trigger] after[l])[0] as int],
        ) < tau by {
            assert(groups[k].len() > 0);
            assert(after[k][0] == groups[k][0]);
            if l < groups.len() {
                assert(groups[l].len() > 0);
                assert(after[l][0] == groups[l][0]);
            }
        }
    }
}

} // verus!
