//! What a match between a group and a person is, said of their faces.

use vstd::prelude::*;

use crate::confirmations::{anchor, by_score, exemplar};
use crate::fold_laws::lemma_some_satisfy;
use crate::library::FaceView;
use crate::listing_laws::{
    ascending_places, law_picking_keeps_the_order, law_ranking_loses_nothing, lemma_limited,
};
use crate::looks::{
    first_fit, law_looks_resemble_their_leader, led, lemma_first_fit, lemma_led_within,
};
use crate::magnet::{
    best_match, candidate, candidates, in_cluster, law_candidates_match_the_anchor, matches_in,
    not_own, scored_clusters, scores, strongest_match,
};
use crate::order::{arranged, limited};
use crate::recognition::{biggest, core_of, lemma_biggest, lemma_led_some, members};
use crate::rows::{
    distinct, lemma_distinct, lemma_select_contains, lemma_select_from, lemma_select_len,
    lemma_tally_bound, select, tally,
};
use crate::similarity::{dot, lemma_dot_fits, unit, unit_rows};

verus! {

/// **An anchor holds the best of what the user taught.** It is made of confirmed faces of
/// the person, each once, from the highest score down; a confirmed face is left out only
/// where the anchor is full, and for better ones.
pub proof fn law_anchor_holds_the_best_confirmed(
    faces: Seq<FaceView>,
    identity: i64,
    limit: int,
) -> (at: Seq<int>)
    requires
        faces.len() <= usize::MAX,
        limit >= 0,
    ensures
        at.len() == anchor(faces, identity, limit).len(),
        at.len() <= limit,
        at.no_duplicates(),
        forall|p: int|
            0 <= p < at.len() ==> {
                let f = faces[#[trigger] at[p]];
                &&& 0 <= at[p] < faces.len()
                &&& f.marks.confirmed
                &&& f.marks.identity_id == Some(identity)
                &&& f.embedding == anchor(faces, identity, limit)[p]
            },
        forall|p: int, q: int|
            0 <= p < q < at.len() ==> faces[#[trigger] at[p]].score >= faces[#[trigger] at[q]].score,
        forall|i: int|
            0 <= i < faces.len() && (#[trigger] faces[i]).marks.confirmed
                && faces[i].marks.identity_id == Some(identity) && !at.contains(i) ==> at.len()
                == limit && forall|p: int|
                0 <= p < at.len() ==> faces[#[trigger] at[p]].score >= faces[i].score,
{
    let all = select(faces, exemplar(identity));
    let keys = all.map_values(by_score());
    let places = law_picking_keeps_the_order(faces, exemplar(identity));
    lemma_select_len(faces, exemplar(identity));
    let from = law_ranking_loses_nothing(all, keys);
    let sorted = arranged(all, keys);
    lemma_limited(sorted, limit);
    let n = limited(sorted, limit).len();
    let at = Seq::new(n, |p: int| places[from[p]]);
    assert forall|p: int| 0 <= p < at.len() implies {
        let f = faces[#[trigger] at[p]];
        &&& 0 <= at[p] < faces.len()
        &&& f.marks.confirmed
        &&& f.marks.identity_id == Some(identity)
        &&& f.embedding == anchor(faces, identity, limit)[p]
        &&& f.score == all[from[p]].0
    } by {
        assert(exemplar(identity)(faces[places[from[p]]]) == Some(all[from[p]]));
        assert(sorted[p] == all[from[p]]);
    }
    assert forall|p: int, q: int| 0 <= p < at.len() && 0 <= q < at.len() && p != q implies at[p]
        != at[q] by {
        if from[p] < from[q] {
            assert(places[from[p]] < places[from[q]]);
        } else if p < q {
            assert(from[p] != from[q]);
            assert(places[from[q]] < places[from[p]]);
        } else {
            assert(from[q] != from[p]);
            assert(places[from[q]] < places[from[p]]);
        }
    }
    assert forall|p: int, q: int| 0 <= p < q < at.len() implies faces[#[trigger] at[p]].score
        >= faces[#[trigger] at[q]].score by {
        assert(keys[from[p]].0 >= keys[from[q]].0);
        assert(exemplar(identity)(faces[places[from[p]]]) == Some(all[from[p]]));
        assert(exemplar(identity)(faces[places[from[q]]]) == Some(all[from[q]]));
    }
    assert forall|i: int|
        0 <= i < faces.len() && (#[trigger] faces[i]).marks.confirmed && faces[i].marks.identity_id
            == Some(identity) && !at.contains(i) implies at.len() == limit && forall|p: int|
        0 <= p < at.len() ==> faces[#[trigger] at[p]].score >= faces[i].score by {
        assert(exemplar(identity)(faces[i]) is Some);
        assert(places.contains(i));
        let k = choose|k: int| 0 <= k < places.len() && places[k] == i;
        assert(from.contains(k));
        let q = choose|q: int| 0 <= q < from.len() && from[q] == k;
        if q < n {
            assert(at[q] == i);
        }
        assert forall|p: int| 0 <= p < at.len() implies faces[#[trigger] at[p]].score
            >= faces[i].score by {
            assert(keys[from[p]].0 >= keys[from[q]].0);
            assert(exemplar(identity)(faces[places[from[p]]]) == Some(all[from[p]]));
            assert(exemplar(identity)(faces[places[from[q]]]) == Some(all[from[q]]));
        }
    }
    at
}

/// **A core is the whole anchor or a clear majority of one look.** Fewer than six exemplars
/// are never trimmed; what is kept of more is all of them, or more than half, which all
/// resemble one of them.
pub proof fn law_core_is_a_clear_majority(embs: Seq<Seq<i32>>) -> (idx: Seq<usize>)
    requires
        embs.len() <= usize::MAX,
    ensures
        embs.len() < 6 ==> core_of(embs) == embs,
        core_of(embs) == embs || {
            &&& idx.len() * 2 > embs.len()
            &&& core_of(embs).len() == idx.len()
            &&& forall|p: int|
                0 <= p < idx.len() ==> (#[trigger] idx[p]) < embs.len() && core_of(embs)[p]
                    == embs[idx[p] as int]
            &&& forall|p: int|
                1 <= p < idx.len() ==> dot(
                    unit(embs[idx[0] as int]),
                    unit(embs[(#[trigger] idx[p]) as int]),
                ) >= 500_000_000_000
        },
{
    if embs.len() < 6 {
        Seq::empty()
    } else {
        let m = unit_rows(embs);
        let tau = 500_000_000_000int;
        let groups = led(m, tau, embs.len());
        lemma_led_some(m, tau, embs.len());
        lemma_led_within(m, tau, embs.len());
        lemma_biggest(groups, groups.len());
        law_looks_resemble_their_leader(m, tau, embs.len());
        let b = biggest(groups, groups.len());
        let idx = groups[b];
        assert forall|p: int| 0 <= p < idx.len() implies (#[trigger] idx[p]) < embs.len() by {
            assert(groups[b][p] < embs.len());
        }
        assert forall|p: int| 1 <= p < idx.len() implies dot(
            unit(embs[idx[0] as int]),
            unit(embs[(#[trigger] idx[p]) as int]),
        ) >= 500_000_000_000 by {
            assert(dot(m[groups[b][0] as int], m[groups[b][p] as int]) >= tau);
            assert(m[idx[0] as int] == unit(embs[idx[0] as int]));
            assert(m[idx[p] as int] == unit(embs[idx[p] as int]));
        }
        idx
    }
}

/// The first look holds the first face and just those that resemble it, in order; no two
/// looks hold more faces than there are.
proof fn lemma_first_look(m: Seq<Seq<i32>>, tau: int, n: nat)
    requires
        1 <= n <= usize::MAX,
    ensures
        ({
            let groups = led(m, tau, n);
            &&& groups.len() > 0
            &&& forall|p: int| 0 <= p < groups[0].len() ==> (#[trigger] groups[0][p]) < n
            &&& forall|p: int, q: int|
                0 <= p < q < groups[0].len() ==> #[trigger] groups[0][p] < #[trigger] groups[0][q]
            &&& groups[0][0] == 0
            &&& forall|i: int|
                0 <= i < n ==> (#[trigger] groups[0].contains(i as usize) <==> i == 0 || dot(
                    m[0],
                    m[i],
                ) >= tau)
            &&& forall|a: int, b: int|
                0 <= a < b < groups.len() ==> (#[trigger] groups[a]).len() + (
                #[trigger] groups[b]).len() <= n
            &&& forall|a: int| 0 <= a < groups.len() ==> (#[trigger] groups[a]).len() <= n
        }),
    decreases n,
{
    let last = n - 1;
    let before = led(m, tau, last as nat);
    let after = led(m, tau, n);
    let k = first_fit(m, tau, before, last, 0);
    lemma_first_fit(m, tau, before, last, 0);
    lemma_led_within(m, tau, n);
    if n == 1 {
        assert(before.len() == 0);
        assert(after =~= seq![seq![0usize]]);
        assert(after[0][0] == 0);
        assert forall|i: int| 0 <= i < n implies (#[trigger] after[0].contains(i as usize) <==> i == 0
            || dot(m[0], m[i]) >= tau) by {
            assert(after[0][0] == 0usize);
        }
    } else {
        lemma_first_look(m, tau, last as nat);
        lemma_led_within(m, tau, last as nat);
        assert(before[0].len() > 0);
        assert(after[0][0] == 0);
        assert(dot(m[0], m[last]) >= tau <==> k == 0) by {
            assert(before[0][0] == 0);
            if k > 0 {
                assert(dot(m[before[0][0] as int], m[last]) < tau);
            }
        }
        assert forall|i: int| 0 <= i < n implies (#[trigger] after[0].contains(i as usize) <==> i == 0
            || dot(m[0], m[i]) >= tau) by {
            if i == last {
                if k == 0 {
                    assert(after[0][before[0].len() as int] == last);
                } else {
                    assert(after[0] == before[0]);
                    if after[0].contains(i as usize) {
                        let p = choose|p: int|
                            0 <= p < before[0].len() && before[0][p] == i as usize;
                        assert(before[0][p] < last);
                    }
                }
            } else {
                assert(before[0].contains(i as usize) <==> i == 0 || dot(m[0], m[i]) >= tau);
                if before[0].contains(i as usize) {
                    let p = choose|p: int| 0 <= p < before[0].len() && before[0][p] == i as usize;
                    assert(after[0][p] == i as usize);
                }
                if after[0].contains(i as usize) {
                    let p = choose|p: int| 0 <= p < after[0].len() && after[0][p] == i as usize;
                    assert(before[0][p] == i as usize);
                }
            }
        }
        assert forall|p: int, q: int| 0 <= p < q < after[0].len() implies #[trigger] after[0][p]
            < #[trigger] after[0][q] by {
            if q < before[0].len() {
                assert(before[0][p] < before[0][q]);
            } else {
                assert(before[0][p] < last);
            }
        }
        assert forall|a: int, b: int| 0 <= a < b < after.len() implies (#[trigger] after[a]).len() + (
        #[trigger] after[b]).len() <= n by {
            if b < before.len() {
                assert(before[a].len() + before[b].len() <= last);
            } else {
                assert(before[a].len() <= last);
            }
        }
        assert forall|a: int| 0 <= a < after.len() implies (#[trigger] after[a]).len() <= n by {
            if a < before.len() {
                assert(before[a].len() <= last);
            }
        }
    }
}

/// Ascending lists of the same places are one list.
proof fn lemma_ascending_unique(a: Seq<usize>, b: Seq<int>, n: nat)
    requires
        n <= usize::MAX,
        ascending_places(b, n),
        forall|p: int| 0 <= p < a.len() ==> (#[trigger] a[p]) < n,
        forall|p: int, q: int| 0 <= p < q < a.len() ==> #[trigger] a[p] < #[trigger] a[q],
        forall|i: int| 0 <= i < n ==> (#[trigger] a.contains(i as usize) <==> b.contains(i)),
    ensures
        a.len() == b.len(),
        forall|p: int| 0 <= p < a.len() ==> #[trigger] a[p] == b[p],
    decreases n,
{
    if n == 0 {
        if b.len() > 0 {
            assert(0 <= b[0] < n);
        }
        if a.len() > 0 {
            assert(a[0] < n);
        }
    } else {
        let last = n - 1;
        let has = a.contains(last as usize);
        assert(has == b.contains(last));
        let a2 = if has {
            a.drop_last()
        } else {
            a
        };
        let b2 = if has {
            b.drop_last()
        } else {
            b
        };
        if has {
            let p = choose|p: int| 0 <= p < a.len() && a[p] == last as usize;
            let q = choose|q: int| 0 <= q < b.len() && b[q] == last;
            if p < a.len() - 1 {
                assert(a[p] < a[a.len() - 1]);
            }
            if q < b.len() - 1 {
                assert(b[q] < b[b.len() - 1]);
            }
        }
        assert forall|p: int| 0 <= p < a2.len() implies (#[trigger] a2[p]) < last by {
            assert(a2[p] == a[p]);
            if has {
                assert(a[p] < a[a.len() - 1]);
            } else {
                if a[p] == last {
                    assert(a.contains(last as usize));
                }
            }
        }
        assert forall|p: int| 0 <= p < b2.len() implies 0 <= (#[trigger] b2[p]) < last by {
            assert(b2[p] == b[p]);
            if has {
                assert(b[p] < b[b.len() - 1]);
            } else {
                if b[p] == last {
                    assert(b.contains(last));
                }
            }
        }
        assert forall|p: int, q: int| 0 <= p < q < a2.len() implies #[trigger] a2[p]
            < #[trigger] a2[q] by {
            assert(a[p] < a[q]);
        }
        assert forall|p: int, q: int| 0 <= p < q < b2.len() implies #[trigger] b2[p]
            < #[trigger] b2[q] by {
            assert(b[p] < b[q]);
        }
        assert forall|i: int| 0 <= i < last implies (#[trigger] a2.contains(i as usize)
            <==> b2.contains(i)) by {
            assert(a.contains(i as usize) <==> b.contains(i));
            if a2.contains(i as usize) {
                let p = choose|p: int| 0 <= p < a2.len() && a2[p] == i as usize;
                assert(a[p] == i as usize);
                assert(b.contains(i));
                let q = choose|q: int| 0 <= q < b.len() && b[q] == i;
                assert(q < b2.len());
                assert(b2[q] == i);
            }
            if b2.contains(i) {
                let q = choose|q: int| 0 <= q < b2.len() && b2[q] == i;
                assert(b[q] == i);
                assert(a.contains(i as usize));
                let p = choose|p: int| 0 <= p < a.len() && a[p] == i as usize;
                assert(p < a2.len());
                assert(a2[p] == i as usize);
            }
        }
        lemma_ascending_unique(a2, b2, last as nat);
        assert forall|p: int| 0 <= p < a.len() implies #[trigger] a[p] == b[p] by {
            if p < a2.len() {
                assert(a2[p] == b2[p]);
            }
        }
    }
}

/// **Outliers are trimmed.** Where more than half of at least six exemplars resemble the first
/// one, the core is just those, in order: the others cannot drag the anchor off the person.
pub proof fn law_outliers_are_trimmed(embs: Seq<Seq<i32>>, idx: Seq<int>)
    requires
        6 <= embs.len() <= usize::MAX,
        ascending_places(idx, embs.len()),
        forall|i: int|
            0 <= i < embs.len() ==> (#[trigger] idx.contains(i) <==> i == 0 || dot(
                unit(embs[0]),
                unit(embs[i]),
            ) >= 500_000_000_000),
        idx.len() * 2 > embs.len(),
    ensures
        core_of(embs) == Seq::new(idx.len(), |p: int| embs[idx[p]]),
{
    let m = unit_rows(embs);
    let tau = 500_000_000_000int;
    let groups = led(m, tau, embs.len());
    lemma_first_look(m, tau, embs.len());
    lemma_biggest(groups, groups.len());
    assert forall|i: int| 0 <= i < embs.len() implies (#[trigger] groups[0].contains(i as usize)
        <==> idx.contains(i)) by {
        assert(m[0] == unit(embs[0]) && m[i] == unit(embs[i]));
    }
    lemma_ascending_unique(groups[0], idx, embs.len());
    let b = biggest(groups, groups.len());
    if b != 0 {
        assert(groups[0].len() + groups[b].len() <= embs.len());
        assert(groups[0].len() <= groups[b].len());
    }
    assert(core_of(embs) =~= Seq::new(idx.len(), |p: int| embs[idx[p]])) by {
        assert forall|p: int| 0 <= p < idx.len() implies members(embs, groups[0])[p] == embs[idx[p]] by {
            assert(groups[0][p] == idx[p]);
        }
    }
}

/// The strongest similarity is that of some anchor vector, and no other is stronger.
pub proof fn lemma_best_match(anchor: Seq<Seq<i32>>, q: Seq<i32>, n: nat)
    requires
        1 <= n <= anchor.len(),
    ensures
        exists|j: int| 0 <= j < n && #[trigger] dot(q, anchor[j]) == best_match(anchor, q, n),
        forall|j: int| 0 <= j < n ==> #[trigger] dot(q, anchor[j]) <= best_match(anchor, q, n),
    decreases n,
{
    if n > 1 {
        lemma_best_match(anchor, q, (n - 1) as nat);
        let j = choose|j: int|
            0 <= j < n - 1 && #[trigger] dot(q, anchor[j]) == best_match(anchor, q, (n - 1) as nat);
        assert(dot(q, anchor[j]) <= best_match(anchor, q, n));
        assert(dot(q, anchor[n - 1]) <= best_match(anchor, q, n));
    } else {
        assert(dot(q, anchor[0]) == best_match(anchor, q, n));
    }
}

proof fn lemma_strongest(s: Seq<(i64, int)>, c: i64)
    ensures
        strongest_match(s, c) >= 0,
        forall|i: int|
            0 <= i < s.len() && (#[trigger] s[i]).0 == c && s[i].1 >= 500_000_000_000 ==> s[i].1
                <= strongest_match(s, c),
        strongest_match(s, c) > 0 ==> exists|i: int|
            0 <= i < s.len() && (#[trigger] s[i]).0 == c && s[i].1 >= 500_000_000_000 && s[i].1
                == strongest_match(s, c),
    decreases s.len(),
{
    if s.len() > 0 {
        let front = s.drop_last();
        let n = s.len() - 1;
        lemma_strongest(front, c);
        assert(s[n] == s.last());
        assert forall|i: int|
            0 <= i < s.len() && (#[trigger] s[i]).0 == c && s[i].1 >= 500_000_000_000 implies s[i].1
            <= strongest_match(s, c) by {
            if i < n {
                assert(front[i] == s[i]);
            }
        }
        if strongest_match(front, c) > 0 {
            let i = choose|i: int|
                0 <= i < front.len() && (#[trigger] front[i]).0 == c && front[i].1
                    >= 500_000_000_000 && front[i].1 == strongest_match(front, c);
            assert(s[i] == front[i]);
        }
    }
}

proof fn lemma_some_in_cluster(s: Seq<(i64, int)>, c: i64)
    ensures
        tally(s, matches_in(c)) <= tally(s, in_cluster(c)),
    decreases s.len(),
{
    if s.len() > 0 {
        lemma_some_in_cluster(s.drop_last(), c);
    }
}

/// Leaving out another cluster does not change how many faces of a cluster there are.
proof fn lemma_own_left_out(
    s: Seq<(i64, int)>,
    own: Option<i64>,
    c: i64,
    test: spec_fn((i64, int)) -> bool,
)
    requires
        own != Some(c),
        forall|x: (i64, int)| #[trigger] test(x) ==> x.0 == c,
    ensures
        tally(select(s, not_own(own)), test) == tally(s, test),
    decreases s.len(),
{
    if s.len() > 0 {
        lemma_own_left_out(s.drop_last(), own, c, test);
        if not_own(own)(s.last()) is Some {
            let all = select(s, not_own(own));
            assert(all.drop_last() == select(s.drop_last(), not_own(own)));
        }
    }
}

/// The faces, each with its cluster.
pub open spec fn paired(m: Seq<Seq<i32>>, cl: Seq<i64>) -> Seq<(i64, Seq<i32>)> {
    Seq::new(m.len(), |i: int| (cl[i], m[i]))
}

/// Tests for a face of the cluster.
pub open spec fn of_cluster(c: i64) -> spec_fn((i64, Seq<i32>)) -> bool {
    |x: (i64, Seq<i32>)| x.0 == c
}

/// Tests for a face of the cluster that is at least half like some anchor face.
pub open spec fn of_cluster_and_alike(c: i64, anchor: Seq<Seq<i32>>) -> spec_fn(
    (i64, Seq<i32>),
) -> bool {
    |x: (i64, Seq<i32>)|
        x.0 == c && exists|j: int|
            0 <= j < anchor.len() && #[trigger] dot(x.1, anchor[j]) >= 500_000_000_000
}

proof fn lemma_counted(anchor: Seq<Seq<i32>>, m: Seq<Seq<i32>>, cl: Seq<i64>, c: i64)
    requires
        anchor.len() > 0,
        cl.len() == m.len(),
    ensures
        tally(scores(anchor, m, cl), in_cluster(c)) == paired(m, cl).filter(of_cluster(c)).len(),
        tally(scores(anchor, m, cl), matches_in(c)) == paired(m, cl).filter(
            of_cluster_and_alike(c, anchor),
        ).len(),
    decreases m.len(),
{
    reveal(Seq::filter);
    let (s, p) = (scores(anchor, m, cl), paired(m, cl));
    if m.len() > 0 {
        lemma_counted(anchor, m.drop_last(), cl.drop_last(), c);
        assert(s.drop_last() =~= scores(anchor, m.drop_last(), cl.drop_last()));
        assert(p.drop_last() =~= paired(m.drop_last(), cl.drop_last()));
        let n = m.len() - 1;
        lemma_best_match(anchor, m[n], anchor.len());
        let j = choose|j: int|
            0 <= j < anchor.len() && #[trigger] dot(m[n], anchor[j]) == best_match(
                anchor,
                m[n],
                anchor.len(),
            );
        assert(matches_in(c)(s.last()) == of_cluster_and_alike(c, anchor)(p.last())) by {
            if matches_in(c)(s.last()) {
                assert(dot(p.last().1, anchor[j]) >= 500_000_000_000);
            }
        }
    }
}

proof fn lemma_dots_fit(anchor: Seq<Seq<i32>>, m: Seq<Seq<i32>>)
    requires
        anchor.len() > 0,
        forall|i: int| 0 <= i < m.len() ==> (#[trigger] m[i]).len() <= usize::MAX,
        forall|i: int| 0 <= i < anchor.len() ==> (#[trigger] anchor[i]).len() <= usize::MAX,
    ensures
        forall|i: int|
            0 <= i < m.len() ==> i128::MIN <= best_match(anchor, #[trigger] m[i], anchor.len())
                <= i128::MAX,
{
    assert forall|i: int| 0 <= i < m.len() implies i128::MIN <= best_match(
        anchor,
        #[trigger] m[i],
        anchor.len(),
    ) <= i128::MAX by {
        lemma_best_match(anchor, m[i], anchor.len());
        let j = choose|j: int|
            0 <= j < anchor.len() && #[trigger] dot(m[i], anchor[j]) == best_match(
                anchor,
                m[i],
                anchor.len(),
            );
        lemma_dot_fits(m[i], anchor[j]);
    }
}

/// **A candidate is a group most of which looks like the person.** It is not the person's own
/// group; more than half of its faces, and at least two unless it has only one, are at least
/// half like some anchor face; its size is its number of faces; and its similarity is that of
/// its face most like an anchor face.
pub proof fn law_candidate_mostly_looks_like_the_person(
    anchor: Seq<Seq<i32>>,
    m: Seq<Seq<i32>>,
    cl: Seq<i64>,
    own: Option<i64>,
    k: int,
)
    requires
        cl.len() == m.len(),
        m.len() <= usize::MAX,
        forall|i: int| 0 <= i < m.len() ==> (#[trigger] m[i]).len() <= usize::MAX,
        forall|i: int| 0 <= i < anchor.len() ==> (#[trigger] anchor[i]).len() <= usize::MAX,
        0 <= k < candidates(anchor, m, cl, own).len(),
    ensures
        ({
            let g = candidates(anchor, m, cl, own)[k];
            let c = g.cluster_id;
            let matched = paired(m, cl).filter(of_cluster_and_alike(c, anchor)).len();
            &&& own != Some(c)
            &&& g.size == paired(m, cl).filter(of_cluster(c)).len()
            &&& matched * 2 > g.size
            &&& matched >= 2 || g.size == 1
            &&& g.max_sim >= 500_000_000_000
            &&& exists|i: int, j: int|
                0 <= i < m.len() && 0 <= j < anchor.len() && cl[i] == c && #[trigger] dot(
                    m[i],
                    anchor[j],
                ) == g.max_sim
            &&& forall|i: int, j: int|
                0 <= i < m.len() && 0 <= j < anchor.len() && cl[i] == c ==> #[trigger] dot(
                    m[i],
                    anchor[j],
                ) <= g.max_sim
        }),
{
    let all = scores(anchor, m, cl);
    let s = select(all, not_own(own));
    let groups = distinct(scored_clusters(s));
    let g = candidates(anchor, m, cl, own)[k];
    let c = g.cluster_id;
    lemma_dots_fit(anchor, m);
    law_candidates_match_the_anchor(anchor, m, cl, own, k);
    lemma_select_from(groups, candidate(s), k);
    let q = choose|q: int| 0 <= q < groups.len() && candidate(s)(#[trigger] groups[q]) == Some(g);
    assert(groups[q] == c);
    lemma_own_left_out(all, own, c, in_cluster(c));
    lemma_own_left_out(all, own, c, matches_in(c));
    lemma_counted(anchor, m, cl, c);
    lemma_select_len(all, not_own(own));
    lemma_tally_bound(s, in_cluster(c));
    lemma_strongest(s, c);
    lemma_some_in_cluster(s, c);
    // The strongest match is some face's.
    assert forall|p: int| 0 <= p < s.len() implies exists|i: int|
        0 <= i < m.len() && cl[i] == (#[trigger] s[p]).0 && #[trigger] best_match(
            anchor,
            m[i],
            anchor.len(),
        ) == s[p].1 by {
        lemma_select_from(all, not_own(own), p);
        let i = choose|i: int| 0 <= i < all.len() && not_own(own)(#[trigger] all[i]) == Some(s[p]);
        assert(best_match(anchor, m[i], anchor.len()) == s[p].1);
    }
    let top = strongest_match(s, c);
    assert(top > 0) by {
        lemma_some_satisfy(s, matches_in(c));
        let p = choose|p: int| 0 <= p < s.len() && matches_in(c)(#[trigger] s[p]);
        assert(s[p].1 <= top);
    }
    let p = choose|p: int|
        0 <= p < s.len() && (#[trigger] s[p]).0 == c && s[p].1 >= 500_000_000_000 && s[p].1 == top;
    let i = choose|i: int|
        0 <= i < m.len() && cl[i] == s[p].0 && #[trigger] best_match(anchor, m[i], anchor.len())
            == s[p].1;
    lemma_best_match(anchor, m[i], anchor.len());
    let j = choose|j: int|
        0 <= j < anchor.len() && #[trigger] dot(m[i], anchor[j]) == best_match(
            anchor,
            m[i],
            anchor.len(),
        );
    assert(i128::MIN <= best_match(anchor, m[i], anchor.len()) <= i128::MAX);
    assert(g.max_sim == top);
    assert(dot(m[i], anchor[j]) == g.max_sim);
    assert forall|i: int, j: int| 0 <= i < m.len() && 0 <= j < anchor.len() && cl[i] == c implies
    #[trigger] dot(m[i], anchor[j]) <= g.max_sim by {
        lemma_best_match(anchor, m[i], anchor.len());
        if dot(m[i], anchor[j]) > g.max_sim {
            assert(all[i] == (cl[i], best_match(anchor, m[i], anchor.len())));
            lemma_select_contains(all, not_own(own), i);
            let p = choose|p: int| 0 <= p < s.len() && s[p] == all[i];
            assert(s[p].0 == c && s[p].1 >= 500_000_000_000);
            assert(s[p].1 <= top);
        }
    }
}

/// **A group that mostly looks like the person is a candidate**, once.
pub proof fn law_look_alike_is_a_candidate(
    anchor: Seq<Seq<i32>>,
    m: Seq<Seq<i32>>,
    cl: Seq<i64>,
    own: Option<i64>,
    c: i64,
) -> (k: int)
    requires
        cl.len() == m.len(),
        m.len() <= usize::MAX,
        anchor.len() > 0,
        own != Some(c),
        ({
            let size = paired(m, cl).filter(of_cluster(c)).len();
            let matched = paired(m, cl).filter(of_cluster_and_alike(c, anchor)).len();
            matched * 2 > size && (matched >= 2 || size == 1)
        }),
    ensures
        0 <= k < candidates(anchor, m, cl, own).len(),
        candidates(anchor, m, cl, own)[k].cluster_id == c,
        forall|q: int|
            0 <= q < candidates(anchor, m, cl, own).len() && (#[trigger] candidates(
                anchor,
                m,
                cl,
                own,
            )[q]).cluster_id == c ==> q == k,
{
    let all = scores(anchor, m, cl);
    let s = select(all, not_own(own));
    let groups = distinct(scored_clusters(s));
    let out = candidates(anchor, m, cl, own);
    lemma_own_left_out(all, own, c, in_cluster(c));
    lemma_own_left_out(all, own, c, matches_in(c));
    lemma_counted(anchor, m, cl, c);
    lemma_some_satisfy(s, matches_in(c));
    let p = choose|p: int| 0 <= p < s.len() && matches_in(c)(#[trigger] s[p]);
    lemma_distinct(scored_clusters(s));
    assert(scored_clusters(s)[p] == c);
    assert(groups.contains(c));
    let g = choose|g: int| 0 <= g < groups.len() && groups[g] == c;
    let at = law_picking_keeps_the_order(groups, candidate(s));
    assert(candidate(s)(groups[g]) is Some);
    assert(at.contains(g));
    let k = choose|k: int| 0 <= k < at.len() && at[k] == g;
    assert(candidate(s)(groups[at[k]]) == Some(out[k]));
    assert forall|q: int| 0 <= q < out.len() && (#[trigger] out[q]).cluster_id == c implies q == k by {
        assert(candidate(s)(groups[at[q]]) == Some(out[q]));
        assert(groups[at[q]] == c);
        if at[q] < g {
            assert(groups[at[q]] != groups[g]);
        } else if g < at[q] {
            assert(groups[g] != groups[at[q]]);
        }
        assert(at[q] == at[k]);
        if q < k {
            assert(at[q] < at[k]);
        } else if k < q {
            assert(at[k] < at[q]);
        }
    }
    k
}

} // verus!
