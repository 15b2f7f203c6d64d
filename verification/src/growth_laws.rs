//! What is offered to a person and what is asked about, said of the matches and the groups.

use vstd::prelude::*;

use crate::confirmations::{anchor, by_score, exemplar};
use crate::evidence::{clusters_of, units_of};
use crate::fold_laws::{lemma_together_raw, seen_together};
use crate::groups::{group_embedding, in_group, ranked_faces};
use crate::growth::{
    all_claims, by_impact, by_match, by_photos, card_of, chip, claim_by, claimant,
    claimed_clusters, claims, claims_on, contested, decisively_other, growth_of,
    lemma_offer_totals, likeliest, offered, offers, pending, pending_person, strong, total,
    uncertain, uncontested, who_card, who_of, PendingView,
};
use crate::hit_laws::{faces_fit, is_confirmed, lemma_pool_counts, lemma_unit_lens};
use crate::library::{identity_key, lemma_counts_fit, FaceView, LibraryView};
use crate::listing_laws::{
    law_counting_counts, law_keeping_keeps_the_order, law_picking_keeps_the_order,
    law_ranking_loses_nothing, lemma_limited, lemma_select_tally,
};
use crate::magnet::{candidate, not_own, scored_clusters, scores, GrowthCandidate};
use crate::match_laws::{law_candidate_mostly_looks_like_the_person, of_cluster};
use crate::merge_laws::{face_count, lemma_size};
use crate::names::named;
use crate::order::{arranged, limited};
use crate::photos::settled;
use crate::recognition::{all_hits, candidates_for, core_of, pool};
use crate::review::{GrowthCluster, ReviewItemView, WhoCandidateView};
use crate::rows::{
    distinct, kept, lemma_distinct, lemma_kept_len, lemma_select_from, lemma_select_len,
    lemma_tally_bound, select, tally,
};
use crate::similarity::unit_rows;

verus! {

/// Someone else's hit on the group is more than 0.06 above the similarity.
pub open spec fn someone_else_is_closer(
    lib: LibraryView,
    group: i64,
    identity: i64,
    sim: i128,
) -> bool {
    exists|k: int|
        0 <= k < all_hits(lib).len() && (#[trigger] all_hits(lib)[k]).cluster_id == group
            && all_hits(lib)[k].identity_id != identity && all_hits(lib)[k].sim > sim
            + 60_000_000_000
}

/// **What is offered may well be the person.** An offer is a match of the person that is an
/// appearance group, that no photo shows beside the person, and that is not decisively someone
/// else's. Every such match is offered, the strongest first.
pub proof fn law_offers_may_be_the_person(lib: LibraryView, identity: i64, c: GrowthCandidate)
    requires
        candidates_for(lib, identity).len() <= usize::MAX,
    ensures
        offers(lib, identity).contains(c) <==> candidates_for(lib, identity).contains(c)
            && c.cluster_id >= 0 && !seen_together(lib.faces, c.cluster_id, identity)
            && !someone_else_is_closer(lib, c.cluster_id, identity, c.max_sim),
        forall|p: int, q: int|
            0 <= p < q < offers(lib, identity).len() ==> (#[trigger] offers(
                lib,
                identity,
            )[p]).max_sim >= (#[trigger] offers(lib, identity)[q]).max_sim,
{
    let found = candidates_for(lib, identity);
    let keys = found.map_values(by_match());
    let from = law_ranking_loses_nothing(found, keys);
    let sorted = arranged(found, keys);
    let out = offers(lib, identity);
    let at = law_keeping_keeps_the_order(sorted, offered(lib, identity));
    lemma_together_raw(lib, c.cluster_id, identity);
    if out.contains(c) {
        let p = choose|p: int| 0 <= p < out.len() && out[p] == c;
        assert(offered(lib, identity)(sorted[at[p]]) && sorted[at[p]] == c);
        assert(sorted[at[p]] == found[from[at[p]]]);
        if someone_else_is_closer(lib, c.cluster_id, identity, c.max_sim) {
            assert(decisively_other(all_hits(lib), c.cluster_id, identity, c.max_sim));
        }
    }
    if found.contains(c) && c.cluster_id >= 0 && !seen_together(lib.faces, c.cluster_id, identity)
        && !someone_else_is_closer(lib, c.cluster_id, identity, c.max_sim) {
        if decisively_other(all_hits(lib), c.cluster_id, identity, c.max_sim) {
            let k = choose|k: int|
                0 <= k < all_hits(lib).len() && (#[trigger] all_hits(lib)[k]).cluster_id
                    == c.cluster_id && all_hits(lib)[k].identity_id != identity
                    && all_hits(lib)[k].sim > c.max_sim + 60_000_000_000;
            assert(someone_else_is_closer(lib, c.cluster_id, identity, c.max_sim));
        }
        let k = choose|k: int| 0 <= k < found.len() && found[k] == c;
        assert(from.contains(k));
        let q = choose|q: int| 0 <= q < from.len() && from[q] == k;
        assert(sorted[q] == c);
        assert(offered(lib, identity)(sorted[q]));
        assert(at.contains(q));
        let p = choose|p: int| 0 <= p < at.len() && at[p] == q;
        assert(out[p] == c);
    }
    assert forall|p: int, q: int| 0 <= p < q < out.len() implies (#[trigger] out[p]).max_sim >= (
    #[trigger] out[q]).max_sim by {
        assert(at[p] < at[q]);
        assert(sorted[at[p]] == out[p] && sorted[at[q]] == out[q]);
        assert(sorted[at[p]] == found[from[at[p]]] && sorted[at[q]] == found[from[at[q]]]);
        assert(keys[from[at[p]]].0 >= keys[from[at[q]]].0);
    }
}

/// A match's size is the number of its faces.
pub proof fn lemma_candidate_size(lib: LibraryView, identity: i64, k: int)
    requires
        faces_fit(lib.faces),
        0 <= k < candidates_for(lib, identity).len(),
    ensures
        candidates_for(lib, identity)[k].size == face_count(
            lib,
            candidates_for(lib, identity)[k].cluster_id,
        ),
        candidates_for(lib, identity)[k].max_sim >= 500_000_000_000,
{
    let c = candidates_for(lib, identity)[k].cluster_id;
    let m = units_of(pool(lib));
    let cl = clusters_of(pool(lib));
    let ms = unit_rows(core_of(anchor(lib.faces, identity, 64)));
    lemma_unit_lens(lib, identity);
    law_candidate_mostly_looks_like_the_person(ms, m, cl, Some(identity_key(identity)), k);
    lemma_pool_counts(lib.faces, of_cluster(c), |f: FaceView| f.marks.group() == Some(c));
}

/// **Who may grow.** A person is offered something only if they have a name and four confirmed
/// faces; and then it is all that is on offer for them.
pub proof fn law_only_the_known_grow(lib: LibraryView, m: int) -> (n: int)
    requires
        lib.faces.len() <= usize::MAX,
        0 <= m < pending(lib).len(),
    ensures
        ({
            let p = pending(lib)[m];
            &&& 0 <= n < lib.identities.len()
            &&& lib.identities[n].id == p.identity_id
            &&& lib.identities[n].name == Some(p.name)
            &&& p.candidates == offers(lib, p.identity_id)
            &&& p.candidates.len() > 0
            &&& lib.faces.filter(|f: FaceView| is_confirmed(f, p.identity_id)).len() >= 4
        }),
{
    let names = select(lib.identities, named());
    lemma_select_from(names, pending_person(lib), m);
    let k = choose|k: int|
        0 <= k < names.len() && pending_person(lib)(#[trigger] names[k]) == Some(pending(lib)[m]);
    lemma_select_from(lib.identities, named(), k);
    let n = choose|n: int|
        0 <= n < lib.identities.len() && named()(#[trigger] lib.identities[n]) == Some(names[k]);
    let id = names[k].0;
    let all = select(lib.faces, exemplar(id));
    let sorted = arranged(all, all.map_values(by_score()));
    lemma_select_len(lib.faces, exemplar(id));
    let from = law_ranking_loses_nothing(all, all.map_values(by_score()));
    lemma_limited(sorted, 64);
    let g = |f: FaceView| is_confirmed(f, id);
    lemma_select_tally(lib.faces, exemplar(id), g);
    law_counting_counts(lib.faces, g);
    n
}

/// **A known person with something on offer grows.** One who has a name, four confirmed faces
/// and an offer is listed with it.
pub proof fn law_the_known_grow(lib: LibraryView, n: int) -> (m: int)
    requires
        lib.faces.len() <= usize::MAX,
        0 <= n < lib.identities.len(),
        lib.identities[n].name is Some,
        lib.faces.filter(|f: FaceView| is_confirmed(f, lib.identities[n].id)).len() >= 4,
        offers(lib, lib.identities[n].id).len() > 0,
    ensures
        0 <= m < pending(lib).len(),
        pending(lib)[m].identity_id == lib.identities[n].id,
        Some(pending(lib)[m].name) == lib.identities[n].name,
{
    let names = select(lib.identities, named());
    let id = lib.identities[n].id;
    let at = law_picking_keeps_the_order(lib.identities, named());
    assert(named()(lib.identities[n]) is Some);
    assert(at.contains(n));
    let k = choose|k: int| 0 <= k < at.len() && at[k] == n;
    assert(named()(lib.identities[at[k]]) == Some(names[k]));
    let all = select(lib.faces, exemplar(id));
    let sorted = arranged(all, all.map_values(by_score()));
    lemma_select_len(lib.faces, exemplar(id));
    let from = law_ranking_loses_nothing(all, all.map_values(by_score()));
    lemma_limited(sorted, 64);
    let g = |f: FaceView| is_confirmed(f, id);
    lemma_select_tally(lib.faces, exemplar(id), g);
    law_counting_counts(lib.faces, g);
    let places = law_picking_keeps_the_order(names, pending_person(lib));
    assert(pending_person(lib)(names[k]) is Some);
    assert(places.contains(k));
    let m = choose|m: int| 0 <= m < places.len() && places[m] == k;
    assert(pending_person(lib)(names[places[m]]) == Some(pending(lib)[m]));
    m
}

/// The photos of a list of chips together.
pub open spec fn photos_of_chips(chips: Seq<GrowthCluster>) -> int
    decreases chips.len(),
{
    if chips.len() == 0 {
        0
    } else {
        photos_of_chips(chips.drop_last()) + chips.last().photos
    }
}

pub proof fn lemma_chip_totals(faces: Seq<FaceView>, list: Seq<GrowthCandidate>)
    requires
        forall|k: int| 0 <= k < list.len() ==> (#[trigger] list[k]).size <= i64::MAX,
    ensures
        photos_of_chips(list.map_values(chip(faces))) == total(list),
    decreases list.len(),
{
    let chips = list.map_values(chip(faces));
    if list.len() > 0 {
        let front = list.drop_last();
        assert forall|k: int| 0 <= k < front.len() implies (#[trigger] front[k]).size
            <= i64::MAX by {
            assert(front[k] == list[k]);
        }
        lemma_chip_totals(faces, front);
        assert(chips.drop_last() =~= front.map_values(chip(faces)));
        assert(list[list.len() - 1] == list.last());
    }
}

/// The pending person behind a growth card.
pub proof fn lemma_card(lib: LibraryView, i: int) -> (m: int)
    requires
        pending(lib).len() <= usize::MAX,
        0 <= i < growth_of(lib).len(),
    ensures
        settled(lib),
        0 <= m < pending(lib).len(),
        card_of(lib, all_claims(lib))(pending(lib)[m]) == Some(growth_of(lib)[i]),
{
    let cards = select(pending(lib), card_of(lib, all_claims(lib)));
    let keys = cards.map_values(by_impact());
    lemma_select_len(pending(lib), card_of(lib, all_claims(lib)));
    let from = law_ranking_loses_nothing(cards, keys);
    lemma_select_from(pending(lib), card_of(lib, all_claims(lib)), from[i]);
    choose|m: int|
        0 <= m < pending(lib).len() && card_of(lib, all_claims(lib))(#[trigger] pending(lib)[m])
            == Some(cards[from[i]])
}

/// The chip is of a group on offer to the person, and shows how large and how alike it is.
pub open spec fn is_chip_for(lib: LibraryView, identity: i64, g: GrowthCluster) -> bool {
    &&& g.photos == face_count(lib, g.cluster_id)
    &&& exists|k: int|
        0 <= k < offers(lib, identity).len() && (#[trigger] offers(lib, identity)[k]).cluster_id
            == g.cluster_id && offers(lib, identity)[k].max_sim == g.similarity
}

/// **A growth card is a person's.** It speaks of a named person and folds into their own group;
/// its strong groups are at least 0.6 alike, its uncertain ones less; both are on offer to the
/// person and show their sizes; the uncertain ones are at most twelve, the largest first. Its
/// payoff is that of all its groups.
pub proof fn law_growth_card_is_a_persons(lib: LibraryView, i: int) -> (n: int)
    requires
        lib.wf(),
        faces_fit(lib.faces),
        pending(lib).len() <= usize::MAX,
        0 <= i < growth_of(lib).len(),
    ensures
        ({
            let g = growth_of(lib)[i];
            &&& 0 <= n < lib.identities.len()
            &&& lib.identities[n].id == g.identity_id && lib.identities[n].name == Some(g.name)
            &&& g.into == -g.identity_id
            &&& g.strong_clusters.len() == g.strong_groups.len()
            &&& forall|k: int|
                0 <= k < g.strong_groups.len() ==> (#[trigger] g.strong_groups[k]).similarity
                    >= 600_000_000_000 && is_chip_for(lib, g.identity_id, g.strong_groups[k])
                    && g.strong_clusters[k] == g.strong_groups[k].cluster_id
            &&& g.maybe.len() <= 12
            &&& forall|k: int|
                0 <= k < g.maybe.len() ==> (#[trigger] g.maybe[k]).similarity < 600_000_000_000
                    && is_chip_for(lib, g.identity_id, g.maybe[k])
            &&& forall|k: int, l: int|
                0 <= k < l < g.maybe.len() ==> (#[trigger] g.maybe[k]).photos >= (
                #[trigger] g.maybe[l]).photos
            &&& g.strong_photos == photos_of_chips(g.strong_groups)
            &&& g.strong_groups.len() + g.maybe.len() > 0
        }),
{
    let m = lemma_card(lib, i);
    let n = law_only_the_known_grow(lib, m);
    let p = pending(lib)[m];
    let g = growth_of(lib)[i];
    let all = all_claims(lib);
    let own = kept(p.candidates, uncontested(all));
    let sure = kept(own, strong());
    let rest = kept(own, uncertain());
    let found = candidates_for(lib, p.identity_id);
    lemma_counts_fit(lib);
    lemma_offer_totals(lib, p.identity_id, uncontested(all), strong());
    let at_own = law_keeping_keeps_the_order(p.candidates, uncontested(all));
    let at_sure = law_keeping_keeps_the_order(own, strong());
    let at_rest = law_keeping_keeps_the_order(own, uncertain());
    lemma_found_fit(lib, p.identity_id);
    assert forall|k: int| 0 <= k < p.candidates.len() implies (#[trigger] p.candidates[k]).size
        == face_count(lib, p.candidates[k].cluster_id) && p.candidates[k].size <= i64::MAX by {
        let c = p.candidates[k];
        law_offers_may_be_the_person(lib, p.identity_id, c);
        assert(offers(lib, p.identity_id).contains(c));
        let q = choose|q: int| 0 <= q < found.len() && found[q] == c;
        lemma_candidate_size(lib, p.identity_id, q);
        lemma_count_bound(lib, c.cluster_id);
    }
    assert forall|k: int| 0 <= k < sure.len() implies (#[trigger] sure[k]).size <= i64::MAX
        && is_chip_for(lib, p.identity_id, chip(lib.faces)(sure[k])) && sure[k].max_sim
        >= 600_000_000_000 by {
        let c = p.candidates[at_own[at_sure[k]]];
        assert(own[at_sure[k]] == sure[k] && c == sure[k]);
        assert(offers(lib, p.identity_id)[at_own[at_sure[k]]] == c);
    }
    assert forall|k: int| 0 <= k < rest.len() implies is_chip_for(
        lib,
        p.identity_id,
        chip(lib.faces)(#[trigger] rest[k]),
    ) && rest[k].max_sim < 600_000_000_000 by {
        let c = p.candidates[at_own[at_rest[k]]];
        assert(own[at_rest[k]] == rest[k] && c == rest[k]);
        assert(c.size <= i64::MAX);
        assert(offers(lib, p.identity_id)[at_own[at_rest[k]]] == c);
    }
    lemma_chip_totals(lib.faces, sure);
    let chips = rest.map_values(chip(lib.faces));
    let keys = chips.map_values(by_photos());
    lemma_offers_len(lib, p.identity_id);
    lemma_kept_len(p.candidates, uncontested(all));
    lemma_kept_len(own, uncertain());
    let from = law_ranking_loses_nothing(chips, keys);
    lemma_limited(arranged(chips, keys), 12);
    assert forall|k: int| 0 <= k < g.maybe.len() implies (#[trigger] g.maybe[k]).similarity
        < 600_000_000_000 && is_chip_for(lib, g.identity_id, g.maybe[k]) by {
        assert(g.maybe[k] == chips[from[k]]);
        assert(chips[from[k]] == chip(lib.faces)(rest[from[k]]));
    }
    assert forall|k: int, l: int| 0 <= k < l < g.maybe.len() implies (#[trigger] g.maybe[k]).photos
        >= (#[trigger] g.maybe[l]).photos by {
        assert(g.maybe[k] == chips[from[k]] && g.maybe[l] == chips[from[l]]);
        assert(keys[from[k]].0 >= keys[from[l]].0);
    }
    assert forall|k: int| 0 <= k < g.strong_groups.len() implies (
    #[trigger] g.strong_groups[k]).similarity >= 600_000_000_000 && is_chip_for(
        lib,
        g.identity_id,
        g.strong_groups[k],
    ) && g.strong_clusters[k] == g.strong_groups[k].cluster_id by {
        assert(g.strong_groups[k] == chip(lib.faces)(sure[k]));
    }
    assert(lib.identities[n].id >= 1);
    assert(g.strong_groups.len() + g.maybe.len() > 0) by {
        let c = own[0];
        if strong()(c) {
            assert(at_sure.contains(0));
        } else {
            assert(uncertain()(c));
            assert(at_rest.contains(0));
            assert(rest.len() > 0);
            assert(chips.len() > 0);
        }
    }
    n
}

pub proof fn lemma_count_bound(lib: LibraryView, group: i64)
    requires
        lib.wf(),
    ensures
        face_count(lib, group) <= i64::MAX,
{
    lemma_counts_fit(lib);
    lemma_size(lib, group);
    lemma_tally_bound(lib.faces, in_group(group));
}

pub proof fn lemma_found_fit(lib: LibraryView, identity: i64)
    requires
        faces_fit(lib.faces),
    ensures
        candidates_for(lib, identity).len() <= lib.faces.len(),
{
    let all = pool(lib);
    let ms = unit_rows(core_of(anchor(lib.faces, identity, 64)));
    lemma_select_len(lib.faces, group_embedding());
    if ms.len() > 0 {
        let scored = scores(ms, units_of(all), clusters_of(all));
        let test = not_own(Some(identity_key(identity)));
        let s = select(scored, test);
        lemma_select_len(scored, test);
        lemma_distinct(scored_clusters(s));
        lemma_select_len(
            distinct(scored_clusters(s)),
            candidate(s),
        );
    }
}

pub proof fn lemma_offers_len(lib: LibraryView, identity: i64)
    requires
        faces_fit(lib.faces),
    ensures
        offers(lib, identity).len() <= lib.faces.len(),
{
    lemma_found_fit(lib, identity);
    let found = candidates_for(lib, identity);
    let from = law_ranking_loses_nothing(found, found.map_values(by_match()));
    lemma_kept_len(
        arranged(found, found.map_values(by_match())),
        offered(lib, identity),
    );
}

/// **The most impactful person comes first.** Growth cards are in descending order of payoff,
/// and no two are of one place in the list of persons.
pub proof fn law_growth_cards_are_ranked(lib: LibraryView, i: int, j: int)
    requires
        pending(lib).len() <= usize::MAX,
        0 <= i < j < growth_of(lib).len(),
    ensures
        growth_of(lib)[i].photos >= growth_of(lib)[j].photos,
{
    let cards = select(pending(lib), card_of(lib, all_claims(lib)));
    let keys = cards.map_values(by_impact());
    lemma_select_len(pending(lib), card_of(lib, all_claims(lib)));
    let from = law_ranking_loses_nothing(cards, keys);
    assert(keys[from[i]].0 >= keys[from[j]].0);
}

/// A person of the list claims the group.
pub open spec fn claims_group(lib: LibraryView, m: int, group: i64) -> bool {
    exists|k: int|
        0 <= k < pending(lib)[m].candidates.len() && (
        #[trigger] pending(lib)[m].candidates[k]).cluster_id == group
}

pub proof fn lemma_claims(p: Seq<PendingView>, n: nat)
    requires
        n <= p.len() <= usize::MAX,
    ensures
        forall|q: int|
            0 <= q < claims(p, n).len() ==> {
                let c = #[trigger] claims(p, n)[q];
                &&& c.by < n
                &&& exists|k: int|
                    0 <= k < p[c.by as int].candidates.len() && claim_by(c.by)(
                        #[trigger] p[c.by as int].candidates[k],
                    ) == c
            },
        forall|m: int, k: int|
            0 <= m < n && 0 <= k < p[m].candidates.len() ==> claims(p, n).contains(
                claim_by(m as usize)(#[trigger] p[m].candidates[k]),
            ),
    decreases n,
{
    if n > 0 {
        let h = (n - 1) as nat;
        lemma_claims(p, h);
        let was = claims(p, h);
        let more = p[n - 1].candidates.map_values(claim_by((n - 1) as usize));
        let now = claims(p, n);
        assert forall|q: int| 0 <= q < now.len() implies {
            let c = #[trigger] now[q];
            &&& c.by < n
            &&& exists|k: int|
                0 <= k < p[c.by as int].candidates.len() && claim_by(c.by)(
                    #[trigger] p[c.by as int].candidates[k],
                ) == c
        } by {
            if q < was.len() {
                assert(now[q] == was[q]);
            } else {
                let k = q - was.len();
                assert(now[q] == more[k]);
                assert(claim_by((n - 1) as usize)(p[n - 1].candidates[k]) == now[q]);
            }
        }
        assert forall|m: int, k: int| 0 <= m < n && 0 <= k < p[m].candidates.len() implies now.contains(
        claim_by(m as usize)(#[trigger] p[m].candidates[k])) by {
            let c = claim_by(m as usize)(p[m].candidates[k]);
            if m < n - 1 {
                assert(was.contains(c));
                let q = choose|q: int| 0 <= q < was.len() && was[q] == c;
                assert(now[q] == c);
            } else {
                assert(more[k] == c);
                assert(now[was.len() + k] == c);
            }
        }
    }
}

/// Two rows make a count of two.
proof fn lemma_two_counted<A>(s: Seq<A>, test: spec_fn(A) -> bool, a: int, b: int)
    requires
        0 <= a < b < s.len(),
        test(s[a]),
        test(s[b]),
    ensures
        tally(s, test) >= 2,
{
    law_counting_counts(s, test);
    let at = law_keeping_keeps_the_order(s, test);
    assert(at.contains(a) && at.contains(b));
    let p = choose|p: int| 0 <= p < at.len() && at[p] == a;
    let q = choose|q: int| 0 <= q < at.len() && at[q] == b;
    assert(p != q);
}

/// **A group that two persons claim is contested**, and so is on neither's card.
pub proof fn law_claimed_twice_is_contested(lib: LibraryView, group: i64, m: int, l: int)
    requires
        pending(lib).len() <= usize::MAX,
        0 <= m < pending(lib).len(),
        0 <= l < pending(lib).len(),
        m != l,
        claims_group(lib, m, group),
        claims_group(lib, l, group),
    ensures
        contested(all_claims(lib), group),
{
    let p = pending(lib);
    let all = all_claims(lib);
    lemma_claims(p, p.len());
    let x = choose|x: int|
        0 <= x < p[m].candidates.len() && (#[trigger] p[m].candidates[x]).cluster_id == group;
    let y = choose|y: int|
        0 <= y < p[l].candidates.len() && (#[trigger] p[l].candidates[y]).cluster_id == group;
    let (c, d) = (claim_by(m as usize)(p[m].candidates[x]), claim_by(l as usize)(
        p[l].candidates[y],
    ));
    assert(all.contains(c) && all.contains(d));
    let i = choose|i: int| 0 <= i < all.len() && all[i] == c;
    let j = choose|j: int| 0 <= j < all.len() && all[j] == d;
    assert(c.by != d.by);
    if i < j {
        lemma_two_counted(all, claims_on(group), i, j);
    } else {
        lemma_two_counted(all, claims_on(group), j, i);
    }
}

/// **A "who is this?" card offers its claimants.** It asks about a group that is contested, shows
/// at most three faces of it, and offers at most three answers, the likeliest first: named
/// persons who claim the group, each with how alike they are.
pub proof fn law_who_card_offers_its_claimants(lib: LibraryView, k: int)
    requires
        lib.faces.len() <= usize::MAX,
        pending(lib).len() <= usize::MAX,
        all_claims(lib).len() <= usize::MAX,
        0 <= k < who_of(lib).len(),
    ensures
        who_of(lib)[k] matches ReviewItemView::WhoIsThis {
            photos,
            cluster_id,
            group_faces,
            candidates,
        } && {
            &&& settled(lib)
            &&& contested(all_claims(lib), cluster_id)
            &&& group_faces.len() <= 3
            &&& 2 <= candidates.len() <= 3
            &&& forall|p: int, q: int|
                0 <= p < q < candidates.len() ==> (#[trigger] candidates[p]).similarity >= (
                #[trigger] candidates[q]).similarity
            &&& forall|p: int|
                0 <= p < candidates.len() ==> answers_for(
                    lib,
                    cluster_id,
                    #[trigger] candidates[p],
                )
        },
{
    let all = all_claims(lib);
    let ask = who_card(lib, pending(lib), all);
    lemma_select_from(claimed_clusters(all), ask, k);
    let q = choose|q: int|
        0 <= q < claimed_clusters(all).len() && ask(#[trigger] claimed_clusters(all)[q]) == Some(
            who_of(lib)[k],
        );
    let cluster = claimed_clusters(all)[q];
    let pick = claimant(lib, pending(lib), cluster);
    let answers = select(all, pick);
    let keys = answers.map_values(likeliest());
    lemma_select_len(all, pick);
    let from = law_ranking_loses_nothing(answers, keys);
    let sorted = arranged(answers, keys);
    lemma_limited(sorted, 3);
    lemma_limited(ranked_faces(lib.faces, cluster), 3);
    lemma_select_tally(all, pick, claims_on(cluster));
    lemma_claims(pending(lib), pending(lib).len());
    let places = law_picking_keeps_the_order(all, pick);
    let shown = limited(sorted, 3);
    assert forall|p: int| 0 <= p < shown.len() implies answers_for(
        lib,
        cluster,
        #[trigger] shown[p],
    ) by {
        let c = all[places[from[p]]];
        assert(shown[p] == answers[from[p]]);
        assert(pick(c) == Some(answers[from[p]]));
        let m = c.by as int;
        let x = choose|x: int|
            0 <= x < pending(lib)[m].candidates.len() && claim_by(c.by)(
                #[trigger] pending(lib)[m].candidates[x],
            ) == c;
        assert(pending(lib)[m].candidates[x].cluster_id == cluster);
        assert(pending(lib)[m].identity_id == shown[p].identity_id);
    }
    assert forall|p: int, r: int| 0 <= p < r < shown.len() implies (#[trigger] shown[p]).similarity
        >= (#[trigger] shown[r]).similarity by {
        assert(shown[p] == answers[from[p]] && shown[r] == answers[from[r]]);
        assert(keys[from[p]].0 >= keys[from[r]].0);
    }
}

/// The answer names a person of the list who claims the group, and how alike they are.
pub open spec fn answers_for(lib: LibraryView, group: i64, w: WhoCandidateView) -> bool {
    exists|m: int, x: int|
        0 <= m < pending(lib).len() && (#[trigger] pending(lib)[m]).identity_id == w.identity_id
            && pending(lib)[m].name == w.name && w.into == identity_key(w.identity_id) && 0 <= x
            < pending(lib)[m].candidates.len() && (
        #[trigger] pending(lib)[m].candidates[x]).cluster_id == group
            && pending(lib)[m].candidates[x].max_sim == w.similarity
}

} // verus!
