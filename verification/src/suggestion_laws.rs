//! What holds of every suggestion: which questions are asked, and which never are.

use vstd::prelude::*;

use crate::confirmations::anchor;
use crate::evidence::{clusters_of, units_of};
use crate::groups::{group_embedding, group_photo, PersonFaceView};
use crate::growth::{
    all_claims, by_impact, by_match, by_photos, card_of, chip, claimed_clusters, contested,
    growth_of, offered, offers, pending, pending_person, strong, uncertain, uncontested,
    who_card, who_of, Claim,
};
use crate::library::{identity_key, LibraryView, FACES_CLAIMED};
use crate::magnet::{candidate, not_own, scored_clusters, scores};
use crate::names::named;
use crate::order::{arranged, before, lemma_order_of, limited, order_of};
use crate::person_looks::{
    biggest_first, by_look_photos, is_flagged, is_genuine, look_of, strip, OtherView,
    LOOK_ABS_MIN, MAX_LOOKS,
};
use crate::photos::{claimed, job_ids, job_where, next_claim, settled, unclaimed};
use crate::recognition::{candidates_for, core_of, photographed_together, pool, ANCHOR_FACES};
use crate::review::{
    by_payoff, queue_of, worthwhile, GrowthCluster, IdentityGrowthView, ReviewItemView,
    MAX_QUEUE, REVIEW_MIN_PHOTOS,
};
use crate::rows::{
    distinct, kept, lemma_distinct, lemma_kept_contains, lemma_kept_from, lemma_kept_len,
    lemma_select_contains, lemma_select_from, lemma_select_len, select,
};
use crate::similarity::unit_rows;
use crate::suggestions::{
    closed_question, groups_together, strongest_evidence, suggestion, suggestions_of, twins_of,
};

verus! {

/// What is arranged comes from the list.
proof fn lemma_arranged_from<T>(items: Seq<T>, keys: Seq<(i128, i128, i128)>, p: int) -> (i: int)
    requires
        items.len() == keys.len(),
        keys.len() <= usize::MAX,
        0 <= p < arranged(items, keys).len(),
    ensures
        0 <= i < items.len(),
        arranged(items, keys)[p] == items[i],
{
    lemma_order_of(keys);
    assert(order_of(keys)[p] < keys.len());
    order_of(keys)[p] as int
}

/// Everything in the list is arranged.
proof fn lemma_arranged_contains<T>(items: Seq<T>, keys: Seq<(i128, i128, i128)>, i: int) -> (p: int)
    requires
        items.len() == keys.len(),
        keys.len() <= usize::MAX,
        0 <= i < items.len(),
    ensures
        0 <= p < arranged(items, keys).len(),
        arranged(items, keys)[p] == items[i],
{
    lemma_order_of(keys);
    assert(order_of(keys).contains(i as usize));
    let p = choose|p: int| 0 <= p < order_of(keys).len() && order_of(keys)[p] == i as usize;
    p
}

/// The review queue asks the questions with the biggest payoff first.
pub proof fn law_queue_is_sorted_by_payoff(cards: Seq<ReviewItemView>, i: int, j: int)
    requires
        cards.len() <= usize::MAX,
        0 <= i < j < queue_of(cards).len(),
    ensures
        queue_of(cards)[i].payoff() >= queue_of(cards)[j].payoff(),
{
    let good = kept(cards, worthwhile());
    lemma_kept_len(cards, worthwhile());
    let keys = good.map_values(by_payoff());
    lemma_order_of(keys);
    let order = order_of(keys);
    assert(before(keys, order[i] as int, order[j] as int));
    assert(order[i] < keys.len() && order[j] < keys.len());
}

/// Every question in the review queue is worth asking, and was one of those found.
pub proof fn law_queue_is_floored(cards: Seq<ReviewItemView>, i: int)
    requires
        cards.len() <= usize::MAX,
        0 <= i < queue_of(cards).len(),
    ensures
        queue_of(cards)[i].payoff() >= REVIEW_MIN_PHOTOS,
        cards.contains(queue_of(cards)[i]),
{
    let good = kept(cards, worthwhile());
    lemma_kept_len(cards, worthwhile());
    let keys = good.map_values(by_payoff());
    let k = lemma_arranged_from(good, keys, i);
    lemma_kept_from(cards, worthwhile(), k);
}

/// The review queue is capped, and nothing worth asking is left out of one that is not
/// full.
pub proof fn law_queue_is_capped(cards: Seq<ReviewItemView>, i: int)
    requires
        cards.len() <= usize::MAX,
        0 <= i < cards.len(),
    ensures
        queue_of(cards).len() <= MAX_QUEUE,
        queue_of(cards).len() < MAX_QUEUE && cards[i].payoff() >= REVIEW_MIN_PHOTOS ==> queue_of(
            cards,
        ).contains(cards[i]),
{
    let good = kept(cards, worthwhile());
    lemma_kept_len(cards, worthwhile());
    let keys = good.map_values(by_payoff());
    lemma_order_of(keys);
    if cards[i].payoff() >= REVIEW_MIN_PHOTOS && queue_of(cards).len() < MAX_QUEUE {
        lemma_kept_contains(cards, worthwhile(), i);
        let k = choose|k: int| 0 <= k < good.len() && good[k] == cards[i];
        let p = lemma_arranged_contains(good, keys, k);
        assert(queue_of(cards)[p] == cards[i]);
    }
}

/// A merge is never suggested between two named people, between people the user declared
/// different, or between groups that have a photo in common.
pub proof fn law_suggestions_respect_answers(lib: LibraryView, i: int)
    requires
        0 <= i < suggestions_of(lib).len(),
    ensures
        !closed_question(lib, suggestions_of(lib)[i].into, suggestions_of(lib)[i].from),
        !groups_together(lib, suggestions_of(lib)[i].into, suggestions_of(lib)[i].from),
        !groups_together(lib, suggestions_of(lib)[i].from, suggestions_of(lib)[i].into),
{
    let all = strongest_evidence(lib);
    lemma_select_from(all, suggestion(lib), i);
    let k = choose|k: int|
        0 <= k < all.len() && suggestion(lib)(#[trigger] all[k]) == Some(suggestions_of(lib)[i]);
    lemma_together_symmetric(lib, all[k].a, all[k].b);
}

proof fn lemma_together_symmetric(lib: LibraryView, a: i64, b: i64)
    ensures
        groups_together(lib, a, b) == groups_together(lib, b, a),
{
    let photos = select(lib.faces, group_photo());
    if groups_together(lib, a, b) {
        let p = choose|p: i64| #[trigger] photos.contains((a, p)) && photos.contains((b, p));
        assert(photos.contains((b, p)));
    }
    if groups_together(lib, b, a) {
        let p = choose|p: i64| #[trigger] photos.contains((b, p)) && photos.contains((a, p));
        assert(photos.contains((a, p)));
    }
}

/// The chip is one of a growth card's.
pub open spec fn on_card(g: IdentityGrowthView, c: GrowthCluster) -> bool {
    g.strong_groups.contains(c) || g.maybe.contains(c)
}

proof fn lemma_offers_fit(lib: LibraryView, identity: i64)
    requires
        lib.faces.len() <= usize::MAX,
    ensures
        offers(lib, identity).len() <= lib.faces.len(),
{
    let found = candidates_for(lib, identity);
    let all = pool(lib);
    let ms = unit_rows(core_of(anchor(lib.faces, identity, ANCHOR_FACES as int)));
    lemma_select_len(lib.faces, group_embedding());
    if ms.len() > 0 {
        let scored = scores(ms, units_of(all), clusters_of(all));
        let s = select(scored, not_own(Some(identity_key(identity))));
        lemma_select_len(scored, not_own(Some(identity_key(identity))));
        lemma_distinct(scored_clusters(s));
        lemma_select_len(distinct(scored_clusters(s)), candidate(s));
    }
    assert(found.len() <= lib.faces.len());
    lemma_order_of(found.map_values(by_match()));
    lemma_kept_len(arranged(found, found.map_values(by_match())), offered(lib, identity));
}

/// A growth card offers a person only groups that nobody else claims, that were never
/// photographed with the person, and that are nobody's yet.
pub proof fn law_growth_is_uncontested(lib: LibraryView, i: int, c: GrowthCluster)
    requires
        lib.identities.len() <= usize::MAX,
        lib.faces.len() <= usize::MAX,
        0 <= i < growth_of(lib).len(),
        on_card(growth_of(lib)[i], c),
    ensures
        !contested(all_claims(lib), c.cluster_id),
        c.cluster_id >= 0,
        !photographed_together(lib)(c.cluster_id, growth_of(lib)[i].identity_id),
{
    let all = all_claims(lib);
    let people = pending(lib);
    let cards = select(people, card_of(lib, all));
    lemma_select_len(people, card_of(lib, all));
    lemma_select_len(select(lib.identities, named()), pending_person(lib));
    lemma_select_len(lib.identities, named());
    let k = lemma_arranged_from(cards, cards.map_values(by_impact()), i);
    lemma_select_from(people, card_of(lib, all), k);
    let m = choose|m: int|
        0 <= m < people.len() && card_of(lib, all)(#[trigger] people[m]) == Some(cards[k]);
    let person = people[m];
    let names = select(lib.identities, named());
    lemma_select_from(names, pending_person(lib), m);
    let n = choose|n: int|
        0 <= n < names.len() && pending_person(lib)(#[trigger] names[n]) == Some(people[m]);
    lemma_offers_fit(lib, names[n].0);
    let own = kept(person.candidates, uncontested(all));
    let sure = kept(own, strong());
    let rest = kept(own, uncertain());
    let g = growth_of(lib)[i];
    let chips = rest.map_values(chip(lib.faces));
    lemma_kept_len(person.candidates, uncontested(all));
    lemma_kept_len(own, uncertain());
    // The candidate behind the chip.
    let cand = if g.strong_groups.contains(c) {
        let q = choose|q: int| 0 <= q < g.strong_groups.len() && g.strong_groups[q] == c;
        lemma_kept_from(own, strong(), q);
        sure[q]
    } else {
        let q = choose|q: int| 0 <= q < g.maybe.len() && g.maybe[q] == c;
        let arr = arranged(chips, chips.map_values(by_photos()));
        assert(g.maybe[q] == arr[q]);
        let r = lemma_arranged_from(chips, chips.map_values(by_photos()), q);
        lemma_kept_from(own, uncertain(), r);
        rest[r]
    };
    assert(cand.cluster_id == c.cluster_id);
    assert(own.contains(cand));
    let o = choose|o: int| 0 <= o < own.len() && own[o] == cand;
    lemma_kept_from(person.candidates, uncontested(all), o);
    assert(person.candidates.contains(cand));
    // The person's candidates are the ones on offer.
    let found = candidates_for(lib, names[n].0);
    let sorted = arranged(found, found.map_values(by_match()));
    let f = choose|f: int| 0 <= f < person.candidates.len() && person.candidates[f] == cand;
    lemma_kept_from(sorted, offered(lib, names[n].0), f);
}

/// A group that two people claim is asked about: it has its "who is this?" card.
pub proof fn law_contested_groups_are_asked_about(lib: LibraryView, i: int)
    requires
        settled(lib),
        0 <= i < all_claims(lib).len(),
        contested(all_claims(lib), all_claims(lib)[i].cluster_id),
    ensures
        exists|k: int|
            0 <= k < who_of(lib).len() && (#[trigger] who_of(lib)[k] matches ReviewItemView::WhoIsThis {
                cluster_id,
                ..
            } && cluster_id == all_claims(lib)[i].cluster_id),
{
    let all = all_claims(lib);
    let cluster = all[i].cluster_id;
    let clusters = all.map_values(|c: Claim| c.cluster_id);
    assert(clusters[i] == cluster);
    lemma_distinct(clusters);
    assert(distinct(clusters).contains(cluster));
    let p = choose|p: int| 0 <= p < distinct(clusters).len() && distinct(clusters)[p] == cluster;
    let ask = who_card(lib, pending(lib), all);
    lemma_select_contains(claimed_clusters(all), ask, p);
    let k = choose|k: int| 0 <= k < who_of(lib).len() && who_of(lib)[k] == ask(cluster)->0;
    assert(who_of(lib)[k] == ask(cluster)->0);
}

/// While photos are still being scanned for faces, nothing is suggested.
pub proof fn law_no_questions_while_scanning(lib: LibraryView)
    requires
        !settled(lib),
    ensures
        growth_of(lib).len() == 0,
        who_of(lib).len() == 0,
        suggestions_of(lib).len() == 0,
        twins_of(lib).len() == 0,
{
}

/// Two claims never hand out the same photo: what the first claim took, the next does not
/// offer.
pub proof fn law_photos_are_claimed_once(lib: LibraryView, first: int, next: int, id: i64)
    requires
        lib.wf(),
        job_ids(next_claim(lib.photos, first)).contains(id),
    ensures
        !job_ids(
            next_claim(
                lib.with_photo_marks(claimed(job_ids(next_claim(lib.photos, first)))).photos,
                next,
            ),
        ).contains(id),
{
    let taken = job_ids(next_claim(lib.photos, first));
    let after = lib.with_photo_marks(claimed(taken)).photos;
    let jobs = select(after, job_where(unclaimed()));
    let again = job_ids(next_claim(after, next));
    if again.contains(id) {
        let k = choose|k: int| 0 <= k < again.len() && again[k] == id;
        assert(jobs[k].id == id);
        lemma_select_from(after, job_where(unclaimed()), k);
        let i = choose|i: int|
            0 <= i < after.len() && job_where(unclaimed())(#[trigger] after[i]) == Some(jobs[k]);
        assert(after[i].id == id);
        assert(after[i].marks == claimed(taken)(lib.photos[i]));
        assert(lib.photos[i].id == id);
        assert(after[i].marks.faces_scanned == FACES_CLAIMED);
    }
}

/// The looks strip shows nothing or at least two looks; each is flagged as another person's
/// or has enough photos to be genuine.
pub proof fn law_looks_are_worth_showing(
    faces: Seq<PersonFaceView>,
    others: Seq<OtherView>,
    own: Seq<i32>,
    groups: Seq<Seq<usize>>,
    i: int,
)
    requires
        groups.len() <= usize::MAX,
        0 <= i < strip(select(groups, look_of(faces, others, own))).len(),
    ensures
        strip(select(groups, look_of(faces, others, own))).len() >= 2,
        ({
            let look = strip(select(groups, look_of(faces, others, own)))[i];
            look.likely_other_name is Some || look.photo_ids.len() >= LOOK_ABS_MIN
        }),
{
    let looks = select(groups, look_of(faces, others, own));
    lemma_select_len(groups, look_of(faces, others, own));
    lemma_kept_len(looks, is_genuine());
    lemma_kept_len(looks, is_flagged());
    let (good, bad) = (kept(looks, is_genuine()), kept(looks, is_flagged()));
    let shown = limited(biggest_first(good), MAX_LOOKS as int);
    if i < shown.len() {
        let k = lemma_arranged_from(good, good.map_values(by_look_photos()), i);
        lemma_kept_from(looks, is_genuine(), k);
        let p = choose|p: int| k <= p < looks.len() && #[trigger] looks[p] == good[k];
        lemma_select_from(groups, look_of(faces, others, own), p);
    } else {
        let k = lemma_arranged_from(bad, bad.map_values(by_look_photos()), i - shown.len());
        lemma_kept_from(looks, is_flagged(), k);
    }
}

} // verus!
