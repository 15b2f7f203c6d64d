//! What the numbers on the cards add up to, and what a rebuild goes by.

use vstd::prelude::*;

use crate::cluster::{pair, LinkConstraints};
use crate::constraint_laws::{
    detected_twice, law_crowded_faces, law_double_detections, law_pairs_are_kept, lemma_doubles,
    shares_its_photo,
};
use crate::cooccurrence::{doubles, is_double};
use crate::correction_laws::{is_key, lemma_with_pairs, person_id, recorded_different, vouched_as};
use crate::corrections::rejects;
use crate::faces::{crowded_faces, in_pool};
use crate::grouping_laws::clusters_for;
use crate::groups::{
    bind_group, chronicle, confirm_identity, group_ensured, group_identity, identity_for,
    ranked_faces,
};
use crate::growth::{
    all_claims, by_photos, chip, claim_by, claimed_clusters, claimed_size, face_on, growth_of,
    lemma_offer_totals, offers, pending, strong, total, uncertain, uncontested, who_card,
    who_of, Claim,
};
use crate::growth_laws::{
    law_offers_may_be_the_person, law_only_the_known_grow, lemma_candidate_size, lemma_card,
    lemma_chip_totals, lemma_claims, lemma_count_bound, lemma_found_fit, lemma_offers_len,
    photos_of_chips,
};
use crate::hit_laws::faces_fit;
use crate::library::{lemma_counts_fit, marked, LibraryView};
use crate::links::{recorded_apart, with_pairs};
use crate::listing_laws::{
    law_keeping_keeps_the_order, law_picking_keeps_the_order, law_ranking_loses_nothing,
    lemma_limited,
};
use crate::look_laws::law_strip_shows_genuine_looks_first;
use crate::looks::{law_looks_resemble_their_leader, led, lemma_first_fit, lemma_led_within};
use crate::magnet::GrowthCandidate;
use crate::merge_laws::{face_count, law_evidence_is_faces_alike, lemma_size};
use crate::names::named;
use crate::order::{arranged, limited};
use crate::passes::{differing, differing_from, kept_apart, rebuilt};
use crate::path_laws::law_file_names;
use crate::person_looks::{centroid_of, embeddings, look_of, looks_of, others_of, own_reference};
use crate::question_laws::{
    lemma_pairs_positive, lemma_root_exists, lemma_root_grows, lemma_strongest_from,
};
use crate::rebuild_laws::{exceptions, lemma_new_cluster};
use crate::recognition::{biggest, candidates_for, ANCHOR_CORE_TAU, ANCHOR_FACES};
use crate::review::{GrowthCluster, ReviewItemView};
use crate::rows::{
    kept, lemma_distinct, lemma_kept_len, lemma_select_from, lemma_select_len, select,
};
use crate::scan::named_date;
use crate::similarity::{dot, root, unit, unit_rows};
use crate::suggestions::{evidence_of, leverage, shown, size_of, strongest_evidence};

verus! {

proof fn lemma_total_split(list: Seq<GrowthCandidate>)
    ensures
        total(list) == total(kept(list, strong())) + total(kept(list, uncertain())),
    decreases list.len(),
{
    if list.len() > 0 {
        let front = list.drop_last();
        lemma_total_split(front);
        let (a, b) = (kept(front, strong()), kept(front, uncertain()));
        if strong()(list.last()) {
            assert(a.push(list.last()).drop_last() =~= a);
        } else {
            assert(uncertain()(list.last()));
            assert(b.push(list.last()).drop_last() =~= b);
        }
    }
}

/// Chips in another order have as many photos.
proof fn lemma_reordered_total(chips: Seq<GrowthCluster>, from: Seq<int>)
    requires
        from.len() == chips.len(),
        from.no_duplicates(),
        forall|p: int| 0 <= p < from.len() ==> 0 <= #[trigger] from[p] < chips.len(),
    ensures
        photos_of_chips(Seq::new(from.len(), |p: int| chips[from[p]])) == photos_of_chips(chips),
    decreases chips.len(),
{
    let out = Seq::new(from.len(), |p: int| chips[from[p]]);
    if chips.len() > 0 {
        let n = chips.len() - 1;
        let t = from[n];
        // Without the chip that is listed last.
        let rest = chips.remove(t);
        let places = Seq::new(
            n as nat,
            |p: int|
                if from[p] < t {
                    from[p]
                } else {
                    from[p] - 1
                },
        );
        assert forall|p: int| 0 <= p < places.len() implies 0 <= #[trigger] places[p]
            < rest.len() by {
            assert(from[p] != from[n]);
            assert(0 <= from[p] < chips.len());
        }
        assert forall|p: int, q: int| 0 <= p < places.len() && 0 <= q < places.len() && p != q implies
        places[p] != places[q] by {
            assert(from[p] != from[q]);
            assert(from[p] != from[n] && from[q] != from[n]);
        }
        lemma_reordered_total(rest, places);
        assert(out.drop_last() =~= Seq::new(places.len(), |p: int| rest[places[p]])) by {
            assert forall|p: int| 0 <= p < n implies out[p] == rest[places[p]] by {
                assert(from[p] != from[n]);
            }
        }
        lemma_removed_total(chips, t);
    }
}

proof fn lemma_removed_total(chips: Seq<GrowthCluster>, t: int)
    requires
        0 <= t < chips.len(),
    ensures
        photos_of_chips(chips) == photos_of_chips(chips.remove(t)) + chips[t].photos,
    decreases chips.len(),
{
    let n = chips.len() - 1;
    if t == n {
        assert(chips.remove(t) =~= chips.drop_last());
    } else {
        lemma_removed_total(chips.drop_last(), t);
        assert(chips.remove(t).drop_last() =~= chips.drop_last().remove(t));
        assert(chips.remove(t).last() == chips.last());
    }
}

/// **A growth card's payoff is that of its groups.** It is at least that of its strong groups, and
/// is that of its strong and its uncertain groups together where fewer than twelve uncertain
/// ones leave room for all. It shows at most four of the person's faces and four of the strong
/// groups'.
pub proof fn law_growth_payoffs_add_up(lib: LibraryView, i: int)
    requires
        lib.wf(),
        faces_fit(lib.faces),
        pending(lib).len() <= usize::MAX,
        0 <= i < growth_of(lib).len(),
    ensures
        ({
            let g = growth_of(lib)[i];
            &&& g.photos >= g.strong_photos
            &&& g.maybe.len() < 12 ==> g.photos == photos_of_chips(g.strong_groups)
                + photos_of_chips(g.maybe)
            &&& g.anchor_faces == limited(ranked_faces(lib.faces, g.into), 4)
            &&& g.strong_faces.len() <= 4
            &&& forall|p: int|
                0 <= p < g.strong_faces.len() ==> exists|k: int|
                    0 <= k < g.strong_groups.len() && (#[trigger] g.strong_groups[k]).face_id
                        == Some(#[trigger] g.strong_faces[p])
        }),
{
    let m = lemma_card(lib, i);
    let n = law_only_the_known_grow(lib, m);
    let p = pending(lib)[m];
    let g = growth_of(lib)[i];
    let all = all_claims(lib);
    let own = kept(p.candidates, uncontested(all));
    let sure = kept(own, strong());
    let rest = kept(own, uncertain());
    lemma_counts_fit(lib);
    lemma_offer_totals(lib, p.identity_id, uncontested(all), strong());
    lemma_offer_totals(lib, p.identity_id, uncontested(all), uncertain());
    lemma_total_split(own);
    lemma_found_fit(lib, p.identity_id);
    let found = candidates_for(lib, p.identity_id);
    let at_own = law_keeping_keeps_the_order(p.candidates, uncontested(all));
    let at_sure = law_keeping_keeps_the_order(own, strong());
    let at_rest = law_keeping_keeps_the_order(own, uncertain());
    assert forall|k: int| 0 <= k < p.candidates.len() implies (#[trigger] p.candidates[k]).size
        <= i64::MAX by {
        let c = p.candidates[k];
        law_offers_may_be_the_person(lib, p.identity_id, c);
        assert(offers(lib, p.identity_id).contains(c));
        let q = choose|q: int| 0 <= q < found.len() && found[q] == c;
        lemma_candidate_size(lib, p.identity_id, q);
        lemma_count_bound(lib, c.cluster_id);
    }
    assert forall|k: int| 0 <= k < sure.len() implies (#[trigger] sure[k]).size <= i64::MAX by {
        assert(own[at_sure[k]] == sure[k]);
        assert(p.candidates[at_own[at_sure[k]]] == sure[k]);
    }
    assert forall|k: int| 0 <= k < rest.len() implies (#[trigger] rest[k]).size <= i64::MAX by {
        assert(own[at_rest[k]] == rest[k]);
        assert(p.candidates[at_own[at_rest[k]]] == rest[k]);
    }
    lemma_chip_totals(lib.faces, sure);
    lemma_chip_totals(lib.faces, rest);
    let chips = rest.map_values(chip(lib.faces));
    let keys = chips.map_values(by_photos());
    lemma_offers_len(lib, p.identity_id);
    lemma_kept_len(p.candidates, uncontested(all));
    lemma_kept_len(own, uncertain());
    let from = law_ranking_loses_nothing(chips, keys);
    lemma_limited(arranged(chips, keys), 12);
    if g.maybe.len() < 12 {
        assert(g.maybe == arranged(chips, keys));
        assert(from.no_duplicates()) by {
            assert forall|a: int, b: int| 0 <= a < from.len() && 0 <= b < from.len() && a
                != b implies from[a] != from[b] by {
                if a < b {
                    assert(from[a] != from[b]);
                } else {
                    assert(from[b] != from[a]);
                }
            }
        }
        lemma_reordered_total(chips, from);
        assert(g.maybe =~= Seq::new(from.len(), |q: int| chips[from[q]]));
    }
    let groups = sure.map_values(chip(lib.faces));
    let shown = select(groups, face_on());
    lemma_limited(shown, 4);
    let at = law_picking_keeps_the_order(groups, face_on());
    assert forall|q: int| 0 <= q < g.strong_faces.len() implies exists|k: int|
        0 <= k < g.strong_groups.len() && (#[trigger] g.strong_groups[k]).face_id == Some(
            #[trigger] g.strong_faces[q],
        ) by {
        assert(g.strong_faces[q] == shown[q]);
        assert(face_on()(groups[at[q]]) == Some(shown[q]));
        assert(g.strong_groups[at[q]].face_id == Some(g.strong_faces[q]));
    }
}

/// **A "who is this?" card counts the group's faces.**
pub proof fn law_who_cards_count_their_group(lib: LibraryView, k: int)
    requires
        lib.wf(),
        faces_fit(lib.faces),
        pending(lib).len() <= usize::MAX,
        0 <= k < who_of(lib).len(),
    ensures
        who_of(lib)[k] matches ReviewItemView::WhoIsThis {
            photos,
            cluster_id,
            group_faces,
            candidates,
        } && photos == face_count(lib, cluster_id) && group_faces == limited(
            ranked_faces(lib.faces, cluster_id),
            3,
        ),
{
    let all = all_claims(lib);
    let ask = who_card(lib, pending(lib), all);
    lemma_select_from(claimed_clusters(all), ask, k);
    let q = choose|q: int|
        0 <= q < claimed_clusters(all).len() && ask(#[trigger] claimed_clusters(all)[q]) == Some(
            who_of(lib)[k],
        );
    let cluster = claimed_clusters(all)[q];
    let ids = all.map_values(|c: Claim| c.cluster_id);
    lemma_distinct(ids);
    assert(claimed_clusters(all).contains(cluster));
    assert(ids.contains(cluster));
    let w = choose|w: int| 0 <= w < ids.len() && ids[w] == cluster;
    assert(all[w].cluster_id == cluster);
    lemma_claims(pending(lib), pending(lib).len());
    assert forall|j: int| 0 <= j < all.len() && (#[trigger] all[j]).cluster_id == cluster implies
    all[j].size == face_count(lib, cluster) by {
        let c = all[j];
        let m = c.by as int;
        let n = law_only_the_known_grow(lib, m);
        let p = pending(lib)[m];
        let x = choose|x: int|
            0 <= x < p.candidates.len() && claim_by(c.by)(#[trigger] p.candidates[x]) == c;
        lemma_found_fit(lib, p.identity_id);
        law_offers_may_be_the_person(lib, p.identity_id, p.candidates[x]);
        assert(offers(lib, p.identity_id).contains(p.candidates[x]));
        let found = candidates_for(lib, p.identity_id);
        let y = choose|y: int| 0 <= y < found.len() && found[y] == p.candidates[x];
        lemma_candidate_size(lib, p.identity_id, y);
    }
    lemma_claimed(all, cluster, face_count(lib, cluster), w);
    lemma_count_bound(lib, cluster);
}

proof fn lemma_claimed(all: Seq<Claim>, cluster: i64, size: nat, w: int)
    requires
        0 <= w < all.len(),
        all[w].cluster_id == cluster,
        forall|j: int| 0 <= j < all.len() && (#[trigger] all[j]).cluster_id == cluster
            ==> all[j].size == size,
    ensures
        claimed_size(all, cluster) == size,
    decreases all.len(),
{
    let n = all.len() - 1;
    assert(all[n] == all.last());
    if all.last().cluster_id != cluster {
        let front = all.drop_last();
        assert forall|j: int| 0 <= j < front.len() && (#[trigger] front[j]).cluster_id
            == cluster implies front[j].size == size by {
            assert(front[j] == all[j]);
        }
        assert(front[w] == all[w]);
        lemma_claimed(front, cluster, size, w);
    }
}

/// **More evidence and larger groups come first.** Of two pairs of groups that are brought up, the
/// later one is not at once as alike, backed by more faces and between groups as large; nor as
/// alike, backed as well, and between groups four times as large.
pub proof fn law_more_evidence_comes_first(lib: LibraryView, p: int, q: int)
    requires
        faces_fit(lib.faces),
        evidence_of(lib).len() <= usize::MAX,
        0 <= p < q < strongest_evidence(lib).len(),
        ({
            let f = strongest_evidence(lib)[q];
            &&& f.max_sim * f.pairs < i128::MAX
            &&& (f.max_sim * f.pairs) * (face_count(lib, f.a) + face_count(lib, f.b)) * 1_000_000
                < i128::MAX
        }),
    ensures
        ({
            let (e, f) = (strongest_evidence(lib)[p], strongest_evidence(lib)[q]);
            let (m, n) = (
                face_count(lib, e.a) + face_count(lib, e.b),
                face_count(lib, f.a) + face_count(lib, f.b),
            );
            &&& !(f.max_sim >= e.max_sim && f.pairs > e.pairs && n >= m)
            &&& !(f.max_sim >= e.max_sim && f.pairs >= e.pairs && n >= 4 * m)
        }),
{
    let all = select(evidence_of(lib), shown(lib));
    let keys = all.map_values(leverage(lib));
    lemma_select_len(evidence_of(lib), shown(lib));
    let from = law_ranking_loses_nothing(all, keys);
    lemma_limited(arranged(all, keys), 20);
    let (e, f) = (strongest_evidence(lib)[p], strongest_evidence(lib)[q]);
    assert(e == all[from[p]] && f == all[from[q]]);
    assert(keys[from[p]].0 >= keys[from[q]].0);
    let ke = lemma_strongest_from(lib, p);
    let kf = lemma_strongest_from(lib, q);
    lemma_size(lib, e.a);
    lemma_size(lib, e.b);
    lemma_size(lib, f.a);
    lemma_size(lib, f.b);
    let be = law_evidence_is_faces_alike(lib, ke);
    let bf = law_evidence_is_faces_alike(lib, kf);
    let (x, y) = be[0];
    let (u, v) = bf[0];
    let (m, n) = (size_of(lib, e.a) + size_of(lib, e.b), size_of(lib, f.a) + size_of(lib, f.b));
    let (re, rf) = (root(m * 1_000_000), root(n * 1_000_000));
    lemma_root_exists(m * 1_000_000);
    lemma_root_exists(n * 1_000_000);
    lemma_pairs_positive(lib, ke);
    lemma_pairs_positive(lib, kf);
    let (se, sf) = (e.max_sim * e.pairs, f.max_sim * f.pairs);
    assert(se > 0 && sf > 0) by (nonlinear_arith)
        requires
            0 < e.max_sim,
            0 < f.max_sim,
            0 < e.pairs,
            0 < f.pairs,
            se == e.max_sim * e.pairs,
            sf == f.max_sim * f.pairs,
    ;
    assert(re > 0) by (nonlinear_arith)
        requires
            0 <= re,
            re * re <= m * 1_000_000 < (re + 1) * (re + 1),
            m >= 1,
    ;
    assert(rf > 0 && rf <= n * 1_000_000) by (nonlinear_arith)
        requires
            0 <= rf,
            rf * rf <= n * 1_000_000 < (rf + 1) * (rf + 1),
            n >= 1,
    ;
    assert(sf * rf <= sf * (n * 1_000_000)) by (nonlinear_arith)
        requires
            0 < sf,
            rf <= n * 1_000_000,
    ;
    assert(sf * (n * 1_000_000) == sf * n * 1_000_000) by (nonlinear_arith);
    if f.max_sim >= e.max_sim && f.pairs > e.pairs && n >= m {
        lemma_root_grows(m * 1_000_000, n * 1_000_000);
        assert(se < sf) by (nonlinear_arith)
            requires
                0 < e.max_sim <= f.max_sim,
                0 < e.pairs < f.pairs,
                se == e.max_sim * e.pairs,
                sf == f.max_sim * f.pairs,
        ;
        assert(se * re < sf * rf) by (nonlinear_arith)
            requires
                0 < se < sf,
                0 < re <= rf,
        ;
    }
    if f.max_sim >= e.max_sim && f.pairs >= e.pairs && n >= 4 * m {
        assert(se <= sf) by (nonlinear_arith)
            requires
                0 < e.max_sim <= f.max_sim,
                0 < e.pairs <= f.pairs,
                se == e.max_sim * e.pairs,
                sf == f.max_sim * f.pairs,
        ;
        assert(rf >= 2 * re) by (nonlinear_arith)
            requires
                re * re <= m * 1_000_000,
                n * 1_000_000 < (rf + 1) * (rf + 1),
                n >= 4 * m,
                re > 0,
                rf > 0,
        ;
        assert(se * re < sf * rf) by (nonlinear_arith)
            requires
                0 < se <= sf,
                0 < re,
                2 * re <= rf,
        ;
    }
}

/// **A rebuild gives each face the cluster it belongs to.** Every face of the pool has, after a
/// rebuild, the cluster that clustering the pool gives it.
pub proof fn law_rebuild_gives_the_clusters(lib: LibraryView, c: LinkConstraints, i: int) -> (p: int)
    requires
        lib.wf(),
        0 <= i < lib.faces.len(),
        lib.faces[i].marks.cluster_id is Some,
    ensures
        ({
            let pool = select(lib.faces, in_pool());
            &&& 0 <= p < pool.len()
            &&& pool[p].0 == lib.faces[i].id
            &&& rebuilt(lib, c).faces[i].marks.cluster_id == Some(clusters_for(pool, c)[p].1)
        }),
{
    lemma_new_cluster(lib, c, i)
}

/// **The exceptions are the user's and the double detections.** Two clustered faces of one photo
/// may share a cluster exactly if the user excepted them or their boxes are one face.
pub proof fn law_exceptions(lib: LibraryView, i: int, j: int)
    requires
        lib.wf(),
        lib.faces.len() <= usize::MAX,
        0 <= i < j < lib.faces.len(),
        lib.faces[i].marks.cluster_id is Some,
        lib.faces[j].marks.cluster_id is Some,
        lib.faces[i].photo_id == lib.faces[j].photo_id,
        lib.same_photo_ok.contains((lib.faces[i].id, lib.faces[j].id)) || is_double(
            lib.faces[i].bbox,
            lib.faces[j].bbox,
        ),
    ensures
        exceptions(lib).contains((lib.faces[i].id, lib.faces[j].id)),
{
    let rows = crowded_faces(lib.faces);
    let base = with_pairs(Seq::empty(), lib.same_photo_ok);
    let twice = doubles(rows, rows.len());
    let e = (lib.faces[i].id, lib.faces[j].id);
    assert(lib.faces[i].id < lib.faces[j].id);
    let at = law_crowded_faces(lib.faces);
    lemma_doubles(rows, rows.len());
    law_double_detections(lib.faces[i].bbox, lib.faces[j].bbox);
    lemma_with_pairs(base, twice, 0);
    if lib.same_photo_ok.contains(e) {
        let k = choose|k: int| 0 <= k < lib.same_photo_ok.len() && lib.same_photo_ok[k] == e;
        lemma_with_pairs(Seq::empty(), lib.same_photo_ok, k);
        assert(base.contains(e));
    } else {
        assert(shares_its_photo(lib.faces, i));
        assert(shares_its_photo(lib.faces, j));
        assert(at.contains(i) && at.contains(j));
        let p = choose|p: int| 0 <= p < at.len() && at[p] == i;
        let q = choose|q: int| 0 <= q < at.len() && at[q] == j;
        assert(rows[p].bbox == lib.faces[at[p]].bbox && rows[q].bbox == lib.faces[at[q]].bbox);
        assert(rows[p].photo_id == rows[q].photo_id);
        let (a, b) = if p < q {
            (p, q)
        } else {
            (q, p)
        };
        let d = (rows[a].face_id, rows[b].face_id);
        assert(rows[a].photo_id == rows[b].photo_id && is_double(rows[a].bbox, rows[b].bbox));
        assert(detected_twice(rows, rows.len(), d));
        assert(twice.contains(d));
        let k = choose|k: int| 0 <= k < twice.len() && twice[k] == d;
        lemma_with_pairs(base, twice, k);
        assert(pair(d.0, d.1) == e);
    }
}

proof fn lemma_differing_only(people: Seq<(i64, Seq<char>)>, k: nat, p: (i64, i64))
    requires
        k <= people.len(),
        differing(people, k).contains(p),
    ensures
        exists|i: int, j: int|
            0 <= i < j < people.len() && (#[trigger] people[i]).0 == p.0 && (
            #[trigger] people[j]).0 == p.1 && people[i].1 != people[j].1,
    decreases k,
{
    let now = differing(people, k);
    let was = differing(people, (k - 1) as nat);
    let more = differing_from(people, k - 1, people.len() as int);
    let q = choose|q: int| 0 <= q < now.len() && now[q] == p;
    if q < was.len() {
        assert(was[q] == p);
        lemma_differing_only(people, (k - 1) as nat, p);
    } else {
        assert(more[q - was.len()] == p);
        lemma_differing_from_only(people, k - 1, people.len() as int, p);
    }
}

proof fn lemma_differing_from_only(people: Seq<(i64, Seq<char>)>, i: int, n: int, p: (i64, i64))
    requires
        0 <= i < people.len(),
        n <= people.len(),
        differing_from(people, i, n).contains(p),
    ensures
        exists|j: int|
            i < j < n && people[i].0 == p.0 && (#[trigger] people[j]).0 == p.1 && people[i].1
                != people[j].1,
    decreases n - i,
{
    let now = differing_from(people, i, n);
    let q = choose|q: int| 0 <= q < now.len() && now[q] == p;
    let earlier = differing_from(people, i, n - 1);
    if q < earlier.len() {
        assert(earlier[q] == p);
        lemma_differing_from_only(people, i, n - 1, p);
    } else {
        assert(people[n - 1].0 == p.1);
    }
}

/// **People are kept apart only for a reason.** Two persons are kept apart if they were declared
/// different, or if both have names, and different ones; and for nothing else.
pub proof fn law_people_are_kept_apart_for_a_reason(lib: LibraryView, p: (i64, i64))
    requires
        lib.wf(),
        kept_apart(lib).contains(p),
    ensures
        lib.cannot_link.contains(p) || exists|a: int, b: int|
            0 <= a < b < lib.identities.len() && (#[trigger] lib.identities[a]).id == p.0 && (
            #[trigger] lib.identities[b]).id == p.1 && lib.identities[a].name is Some
                && lib.identities[b].name is Some && lib.identities[a].name
                != lib.identities[b].name,
{
    let people = select(lib.identities, named());
    let more = differing(people, people.len());
    lemma_with_pairs(lib.cannot_link, more, 0);
    if !lib.cannot_link.contains(p) {
        let k = choose|k: int| 0 <= k < more.len() && p == pair((#[trigger] more[k]).0, more[k].1);
        assert(more.contains(more[k]));
        lemma_differing_only(people, people.len(), more[k]);
        let (i, j) = choose|i: int, j: int|
            0 <= i < j < people.len() && (#[trigger] people[i]).0 == more[k].0 && (
            #[trigger] people[j]).0 == more[k].1 && people[i].1 != people[j].1;
        let at = law_picking_keeps_the_order(lib.identities, named());
        assert(named()(lib.identities[at[i]]) == Some(people[i]));
        assert(named()(lib.identities[at[j]]) == Some(people[j]));
        assert(at[i] < at[j]);
        assert(lib.identities[at[i]].id < lib.identities[at[j]].id);
        assert(p == (lib.identities[at[i]].id, lib.identities[at[j]].id));
    }
}

/// **Groups are rejected one after the other.** Each group of a batch that is said not to be a
/// person becomes someone of its own, vouched for, and is recorded as different from the
/// person; and every other face stays as the groups before left it.
pub proof fn law_batches_are_rejected_in_turn(
    lib: LibraryView,
    person: i64,
    groups: Seq<i64>,
    g: i64,
    i: int,
)
    requires
        0 <= i < rejects(lib, person, groups).faces.len(),
        is_key(g),
        rejects(lib, person, groups).last_identity() < i64::MAX,
        rejects(lib, person, groups).last_identity() >= 0,
        forall|a: int|
            0 <= a < rejects(lib, person, groups).faces.len() ==> {
                let f = #[trigger] rejects(lib, person, groups).faces[a];
                &&& f.marks.identity_id matches Some(p) ==> 1 <= p <= rejects(
                    lib,
                    person,
                    groups,
                ).last_identity()
                &&& f.marks.cluster_id matches Some(c) ==> c >= 0
            },
    ensures
        rejects(lib, person, Seq::empty()) == lib,
        ({
            let held = rejects(lib, person, groups);
            let after = rejects(lib, person, groups.push(g));
            let id = person_id(held, g);
            let was = held.faces[i];
            &&& was.marks.group() == Some(g) ==> vouched_as(after.faces[i], id)
            &&& was.marks.group() != Some(g) ==> after.faces[i] == was
            &&& person != id ==> recorded_different(after, person as int, id)
        }),
{
    let held = rejects(lib, person, groups);
    let after = rejects(lib, person, groups.push(g));
    assert(groups.push(g).drop_last() =~= groups);
    let id = identity_for(held, g);
    let one = group_ensured(held, g);
    let was = held.faces[i];
    if g >= 0 {
        assert(one.faces[i] == marked(bind_group(g, id))(was));
    }
    let apart = recorded_apart(one, person, id);
    assert(after.faces[i] == marked(confirm_identity(id))(one.faces[i]));
    law_pairs_are_kept(one.cannot_link, person, id, pair(person, id));
    if person != id {
        assert(after.cannot_link.contains(pair(person, id)));
    }
}

/// **A look is one appearance.** Each look that is shown is made of faces of the group that all
/// resemble one of them by at least one half.
pub proof fn law_look_is_one_appearance(lib: LibraryView, group: i64, k: int) -> (g: Seq<usize>)
    requires
        chronicle(lib, group).len() <= usize::MAX,
        0 <= k < looks_of(lib, group).len(),
    ensures
        ({
            let faces = chronicle(lib, group);
            &&& g.len() > 0
            &&& forall|p: int| 0 <= p < g.len() ==> (#[trigger] g[p]) < faces.len()
            &&& forall|p: int|
                1 <= p < g.len() ==> dot(
                    unit(faces[g[0] as int].embedding),
                    unit(faces[(#[trigger] g[p]) as int].embedding),
                ) >= 500_000_000_000
            &&& exists|own: Seq<i32>| #[trigger]
                look_of(faces, others_of(lib, group_identity(group)), own)(g) == Some(
                    looks_of(lib, group)[k],
                )
        }),
{
    let faces = chronicle(lib, group);
    let m = unit_rows(embeddings(faces));
    let tau = 500_000_000_000int;
    let groups = led(m, tau, faces.len());
    let dominant = centroid_of(faces)(
        groups[biggest(groups, groups.len())],
    );
    let own = own_reference(lib, group, dominant);
    let others = others_of(lib, group_identity(group));
    let pick = look_of(faces, others, own);
    let looks = select(groups, pick);
    lemma_select_len(groups, pick);
    lemma_led_len(m, tau, faces.len());
    let n = law_strip_shows_genuine_looks_first(looks);
    let l = looks_of(lib, group)[k];
    assert(looks.contains(l));
    let q = choose|q: int| 0 <= q < looks.len() && looks[q] == l;
    lemma_select_from(groups, pick, q);
    let a = choose|a: int| 0 <= a < groups.len() && pick(#[trigger] groups[a]) == Some(looks[q]);
    lemma_led_within(m, tau, faces.len());
    law_looks_resemble_their_leader(m, tau, faces.len());
    let g = groups[a];
    assert forall|p: int| 0 <= p < g.len() implies (#[trigger] g[p]) < faces.len() by {
        assert(groups[a][p] < faces.len());
    }
    assert forall|p: int| 1 <= p < g.len() implies dot(
        unit(faces[g[0] as int].embedding),
        unit(faces[(#[trigger] g[p]) as int].embedding),
    ) >= 500_000_000_000 by {
        assert(dot(m[groups[a][0] as int], m[groups[a][p] as int]) >= tau);
        assert(m[g[0] as int] == unit(faces[g[0] as int].embedding));
        assert(m[g[p] as int] == unit(faces[g[p] as int].embedding));
    }
    assert(look_of(faces, others, own)(g) == Some(l));
    g
}

proof fn lemma_led_len(m: Seq<Seq<i32>>, tau: int, n: nat)
    ensures
        led(m, tau, n).len() <= n,
    decreases n,
{
    if n > 0 {
        lemma_led_len(m, tau, (n - 1) as nat);
        lemma_first_fit(m, tau, led(m, tau, (n - 1) as nat), n - 1, 0);
    }
}

/// **A folder's name dates nothing.** The date in a path is that in the file's name.
pub proof fn law_folders_date_nothing(dir: Seq<char>, name: Seq<char>)
    requires
        !name.contains('/'),
        name.len() > 0,
        name != seq!['.'],
        name != seq!['.', '.'],
    ensures
        named_date(dir.push('/') + name) == named_date(name),
{
    law_file_names(dir, name);
}

/// **How much of a person is looked at.** An anchor holds at most sixty-four faces, and its core is
/// found at one half.
pub proof fn law_anchor_limits()
    ensures
        ANCHOR_FACES == 64,
        ANCHOR_CORE_TAU == 500_000_000_000,
{
}

} // verus!
