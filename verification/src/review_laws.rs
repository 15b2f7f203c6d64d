//! What the review queue asks, and what a decision takes out of it.

use vstd::prelude::*;

use crate::growth::{growth_of, who_of};
use crate::library::LibraryView;
use crate::listing_laws::{law_keeping_keeps_the_order, law_ranking_loses_nothing};
use crate::order::arranged;
use crate::review::{
    all_cards, all_growth_cards, by_payoff, growth_cards, maybe_card, pair_card, queue_of,
    strong_card, worthwhile, GrowthCluster, IdentityGrowthView, MergeSuggestionView,
    ReviewItemView,
};
use crate::rows::{kept, lemma_kept_len};
use crate::suggestion_cache::{
    fresh_cache, other_chip, other_group, pruned, stamped, still_offers, touches, trimmed_card,
    untouched, SuggestionCacheView,
};
use crate::suggestions::{suggestions_of, twins_of};

verus! {

/// The number of photos a card says it moves.
pub open spec fn photos_moved(item: ReviewItemView) -> i64 {
    match item {
        ReviewItemView::StrongBatch { photos, name, into, anchor_faces, groups } => photos,
        ReviewItemView::Maybe { photos, name, into, anchor_faces, group } => photos,
        ReviewItemView::WhoIsThis { photos, cluster_id, group_faces, candidates } => photos,
        ReviewItemView::Pairwise { photos, into, from, into_name, into_faces, from_faces } => photos,
        ReviewItemView::SamePhotoTwin { photos, photo_id, pairs } => photos,
    }
}

/// **The queue holds the sixty biggest questions worth asking.** Each moves at least four photos
/// and was one of the cards; they come biggest first; and a card that moves four photos is
/// left out only where sixty at least as big are in.
pub proof fn law_queue_holds_the_biggest(cards: Seq<ReviewItemView>, i: int)
    requires
        cards.len() <= usize::MAX,
        0 <= i < cards.len(),
    ensures
        ({
            let q = queue_of(cards);
            &&& q.len() <= 60
            &&& forall|k: int|
                0 <= k < q.len() ==> photos_moved(#[trigger] q[k]) >= 4 && cards.contains(q[k])
            &&& forall|k: int, l: int|
                0 <= k < l < q.len() ==> photos_moved(#[trigger] q[k]) >= photos_moved(
                    #[trigger] q[l],
                )
            &&& photos_moved(cards[i]) >= 4 && !q.contains(cards[i]) ==> q.len() == 60 && forall|k:
                int|
                0 <= k < q.len() ==> photos_moved(#[trigger] q[k]) >= photos_moved(cards[i])
        }),
{
    let good = kept(cards, worthwhile());
    let keys = good.map_values(by_payoff());
    lemma_kept_len(cards, worthwhile());
    let at = law_keeping_keeps_the_order(cards, worthwhile());
    let from = law_ranking_loses_nothing(good, keys);
    let sorted = arranged(good, keys);
    let q = queue_of(cards);
    assert forall|k: int| 0 <= k < q.len() implies photos_moved(#[trigger] q[k]) >= 4
        && cards.contains(q[k]) by {
        assert(q[k] == good[from[k]]);
        assert(worthwhile()(cards[at[from[k]]]) && cards[at[from[k]]] == good[from[k]]);
    }
    assert forall|k: int, l: int| 0 <= k < l < q.len() implies photos_moved(#[trigger] q[k])
        >= photos_moved(#[trigger] q[l]) by {
        assert(q[k] == good[from[k]] && q[l] == good[from[l]]);
        assert(keys[from[k]].0 >= keys[from[l]].0);
    }
    if photos_moved(cards[i]) >= 4 && !q.contains(cards[i]) {
        assert(worthwhile()(cards[i]));
        assert(at.contains(i));
        let g = choose|g: int| 0 <= g < at.len() && at[g] == i;
        assert(good[g] == cards[i]);
        assert(from.contains(g));
        let s = choose|s: int| 0 <= s < from.len() && from[s] == g;
        assert(sorted[s] == cards[i]);
        if s < q.len() {
            assert(q[s] == cards[i]);
        }
        assert forall|k: int| 0 <= k < q.len() implies photos_moved(#[trigger] q[k])
            >= photos_moved(cards[i]) by {
            assert(q[k] == good[from[k]]);
            assert(keys[from[k]].0 >= keys[from[s]].0);
        }
    }
}

/// The card asks whether to fold all of a person's strong matches.
pub open spec fn asks_for_strong(g: IdentityGrowthView, item: ReviewItemView) -> bool {
    g.strong_groups.len() > 0 && item == (ReviewItemView::StrongBatch {
        photos: g.strong_photos,
        name: g.name,
        into: g.into,
        anchor_faces: g.anchor_faces,
        groups: g.strong_groups,
    })
}

/// The card asks whether one group may be the person.
pub open spec fn asks_for_one(g: IdentityGrowthView, item: ReviewItemView) -> bool {
    exists|k: int|
        0 <= k < g.maybe.len() && item == (ReviewItemView::Maybe {
            photos: (#[trigger] g.maybe[k]).photos,
            name: g.name,
            into: g.into,
            anchor_faces: g.anchor_faces,
            group: g.maybe[k],
        })
}

/// The card asks whether two groups are one person.
pub open spec fn asks_for_two(s: MergeSuggestionView, item: ReviewItemView) -> bool {
    item == (ReviewItemView::Pairwise {
        photos: s.photos,
        into: s.into,
        from: s.from,
        into_name: s.into_name,
        into_faces: s.into_faces,
        from_faces: s.from_faces,
    })
}

proof fn lemma_growth_cards(g: IdentityGrowthView, item: ReviewItemView)
    ensures
        growth_cards(g).contains(item) <==> asks_for_strong(g, item) || asks_for_one(g, item),
{
    let (a, b) = (strong_card(g), g.maybe.map_values(maybe_card(g)));
    let all = growth_cards(g);
    if all.contains(item) {
        let k = choose|k: int| 0 <= k < all.len() && all[k] == item;
        if k >= a.len() {
            assert(b[k - a.len()] == item);
            assert(maybe_card(g)(g.maybe[k - a.len()]) == item);
        }
    }
    if asks_for_strong(g, item) {
        assert(all[0] == item);
    }
    if asks_for_one(g, item) {
        let k = choose|k: int|
            0 <= k < g.maybe.len() && item == (ReviewItemView::Maybe {
                photos: (#[trigger] g.maybe[k]).photos,
                name: g.name,
                into: g.into,
                anchor_faces: g.anchor_faces,
                group: g.maybe[k],
            });
        assert(all[a.len() + k] == item);
    }
}

proof fn lemma_all_growth_cards(growth: Seq<IdentityGrowthView>, n: nat, item: ReviewItemView)
    requires
        n <= growth.len(),
    ensures
        all_growth_cards(growth, n).contains(item) <==> exists|k: int|
            0 <= k < n && (asks_for_strong(#[trigger] growth[k], item) || asks_for_one(
                growth[k],
                item,
            )),
    decreases n,
{
    if n > 0 {
        let was = all_growth_cards(growth, (n - 1) as nat);
        let more = growth_cards(growth[n - 1]);
        let now = all_growth_cards(growth, n);
        lemma_all_growth_cards(growth, (n - 1) as nat, item);
        lemma_growth_cards(growth[n - 1], item);
        if now.contains(item) {
            let k = choose|k: int| 0 <= k < now.len() && now[k] == item;
            if k < was.len() {
                assert(was[k] == item);
                assert(was.contains(item));
            } else {
                assert(more[k - was.len()] == item);
                assert(more.contains(item));
            }
        }
        if was.contains(item) {
            let k = choose|k: int| 0 <= k < was.len() && was[k] == item;
            assert(now[k] == item);
        }
        if more.contains(item) {
            let k = choose|k: int| 0 <= k < more.len() && more[k] == item;
            assert(now[was.len() + k] == item);
        }
    }
}

/// **Every engine is heard.** The cards before ranking are those that were asked separately, one
/// for the strong matches of each person who has any, one for each uncertain match, and one
/// for each merge suggestion; and no others.
pub proof fn law_every_engine_is_heard(
    merges: Seq<MergeSuggestionView>,
    growth: Seq<IdentityGrowthView>,
    special: Seq<ReviewItemView>,
    item: ReviewItemView,
)
    ensures
        all_cards(merges, growth, special).contains(item) <==> {
            ||| special.contains(item)
            ||| exists|k: int|
                0 <= k < growth.len() && (asks_for_strong(#[trigger] growth[k], item)
                    || asks_for_one(growth[k], item))
            ||| exists|k: int| 0 <= k < merges.len() && asks_for_two(#[trigger] merges[k], item)
        },
        all_cards(merges, growth, special).len() >= special.len() + merges.len(),
{
    let all = all_cards(merges, growth, special);
    let mid = all_growth_cards(growth, growth.len());
    let last = merges.map_values(pair_card());
    lemma_all_growth_cards(growth, growth.len(), item);
    if all.contains(item) {
        let k = choose|k: int| 0 <= k < all.len() && all[k] == item;
        if k < special.len() {
            assert(special[k] == item);
        } else if k < special.len() + mid.len() {
            assert(mid[k - special.len()] == item);
            assert(mid.contains(item));
        } else {
            let m = k - special.len() - mid.len();
            assert(last[m] == item);
            assert(asks_for_two(merges[m], item));
        }
    }
    if special.contains(item) {
        let k = choose|k: int| 0 <= k < special.len() && special[k] == item;
        assert(all[k] == item);
    }
    if mid.contains(item) {
        let k = choose|k: int| 0 <= k < mid.len() && mid[k] == item;
        assert(all[special.len() + k] == item);
    }
    if exists|k: int| 0 <= k < merges.len() && asks_for_two(#[trigger] merges[k], item) {
        let k = choose|k: int| 0 <= k < merges.len() && asks_for_two(#[trigger] merges[k], item);
        assert(last[k] == item);
        assert(all[special.len() + mid.len() + k] == item);
    }
}

/// **A fresh cache is the library's, stamped.** Its growth cards are the library's, each with the
/// generation; its queue is made of the library's suggestions, questions and growth cards.
pub proof fn law_fresh_cache_is_the_librarys(lib: LibraryView, generation: i64, k: int)
    ensures
        ({
            let cache = fresh_cache(lib, generation);
            &&& cache.generation == generation
            &&& cache.growth.len() == growth_of(lib).len()
            &&& 0 <= k < cache.growth.len() ==> cache.growth[k].generation == generation
                && cache.growth[k] == (IdentityGrowthView { generation, ..growth_of(lib)[k] })
            &&& cache.queue == queue_of(
                all_cards(suggestions_of(lib), cache.growth, who_of(lib) + twins_of(lib)),
            )
        }),
{
}

/// The item names one of the groups: as what it folds, as what it folds into, or as an answer.
pub open spec fn names_a_group(item: ReviewItemView, set: Seq<i64>) -> bool {
    match item {
        ReviewItemView::StrongBatch { photos, name, into, anchor_faces, groups } => set.contains(
            into,
        ) || exists|k: int|
            0 <= k < groups.len() && set.contains((#[trigger] groups[k]).cluster_id),
        ReviewItemView::Maybe { photos, name, into, anchor_faces, group } => set.contains(into)
            || set.contains(group.cluster_id),
        ReviewItemView::WhoIsThis { photos, cluster_id, group_faces, candidates } => set.contains(
            cluster_id,
        ) || exists|k: int|
            0 <= k < candidates.len() && set.contains((#[trigger] candidates[k]).into),
        ReviewItemView::Pairwise { photos, into, from, into_name, into_faces, from_faces } =>
            set.contains(into) || set.contains(from),
        ReviewItemView::SamePhotoTwin { photos, photo_id, pairs } => exists|k: int|
            0 <= k < pairs.len() && (set.contains((#[trigger] pairs[k]).into) || set.contains(
                pairs[k].from,
            )),
    }
}

/// **A decision takes out just the cards that name its groups.** A queued card stays exactly if
/// it names none of them, and in its place.
pub proof fn law_decisions_take_out_their_cards(
    cache: SuggestionCacheView,
    set: Seq<i64>,
    item: ReviewItemView,
)
    ensures
        pruned(cache, set).queue.contains(item) <==> cache.queue.contains(item) && !names_a_group(
            item,
            set,
        ),
        pruned(cache, set).generation == cache.generation,
{
    let q = cache.queue;
    let out = pruned(cache, set).queue;
    let at = law_keeping_keeps_the_order(q, untouched(set));
    assert(touches(set)(item) == names_a_group(item, set));
    if out.contains(item) {
        let p = choose|p: int| 0 <= p < out.len() && out[p] == item;
        assert(untouched(set)(q[at[p]]) && q[at[p]] == item);
    }
    if q.contains(item) && !names_a_group(item, set) {
        let k = choose|k: int| 0 <= k < q.len() && q[k] == item;
        assert(untouched(set)(q[k]));
        assert(at.contains(k));
        let p = choose|p: int| 0 <= p < at.len() && at[p] == k;
        assert(out[p] == item);
    }
}

/// **A decision takes its groups off the growth cards.** A card for another person keeps its
/// other groups, and stays as long as it has any; a card for one of the groups goes.
pub proof fn law_decisions_trim_growth_cards(cache: SuggestionCacheView, set: Seq<i64>, k: int)
    requires
        0 <= k < cache.growth.len(),
    ensures
        ({
            let g = cache.growth[k];
            let t = trimmed_card(set)(g);
            let stays = !set.contains(g.into) && (t.strong_clusters.len() > 0 || t.maybe.len() > 0);
            &&& stays ==> pruned(cache, set).growth.contains(t)
            &&& t == (IdentityGrowthView {
                strong_groups: t.strong_groups,
                strong_clusters: t.strong_clusters,
                maybe: t.maybe,
                ..g
            })
            &&& forall|c: GrowthCluster| #[trigger]
                t.strong_groups.contains(c) <==> g.strong_groups.contains(c) && !set.contains(
                    c.cluster_id,
                )
            &&& forall|c: GrowthCluster| #[trigger]
                t.maybe.contains(c) <==> g.maybe.contains(c) && !set.contains(c.cluster_id)
            &&& forall|c: i64| #[trigger]
                t.strong_clusters.contains(c) <==> g.strong_clusters.contains(c) && !set.contains(c)
        }),
        forall|x: IdentityGrowthView| #[trigger]
            pruned(cache, set).growth.contains(x) ==> !set.contains(x.into) && exists|l: int|
                0 <= l < cache.growth.len() && x == trimmed_card(set)(#[trigger] cache.growth[l]),
{
    let g = cache.growth[k];
    let t = trimmed_card(set)(g);
    let all = cache.growth.map_values(trimmed_card(set));
    let out = pruned(cache, set).growth;
    let at = law_keeping_keeps_the_order(all, still_offers(set));
    if !set.contains(g.into) && (t.strong_clusters.len() > 0 || t.maybe.len() > 0) {
        assert(all[k] == t);
        assert(still_offers(set)(all[k]));
        assert(at.contains(k));
        let p = choose|p: int| 0 <= p < at.len() && at[p] == k;
        assert(out[p] == t);
    }
    assert forall|x: IdentityGrowthView| #[trigger] out.contains(x) implies !set.contains(x.into)
        && exists|l: int|
        0 <= l < cache.growth.len() && x == trimmed_card(set)(#[trigger] cache.growth[l]) by {
        let p = choose|p: int| 0 <= p < out.len() && out[p] == x;
        assert(still_offers(set)(all[at[p]]) && all[at[p]] == x);
        assert(x == trimmed_card(set)(cache.growth[at[p]]));
    }
    assert forall|c: GrowthCluster| #[trigger] t.strong_groups.contains(c)
        <==> g.strong_groups.contains(c) && !set.contains(c.cluster_id) by {
        lemma_kept_contains_iff(g.strong_groups, other_chip(set), c);
    }
    assert forall|c: GrowthCluster| #[trigger] t.maybe.contains(c) <==> g.maybe.contains(c)
        && !set.contains(c.cluster_id) by {
        lemma_kept_contains_iff(g.maybe, other_chip(set), c);
    }
    assert forall|c: i64| #[trigger] t.strong_clusters.contains(c) <==> g.strong_clusters.contains(
        c,
    ) && !set.contains(c) by {
        lemma_kept_contains_iff(g.strong_clusters, other_group(set), c);
    }
}

/// What is kept is what was there and satisfies the test.
pub proof fn lemma_kept_contains_iff<A>(s: Seq<A>, test: spec_fn(A) -> bool, a: A)
    ensures
        kept(s, test).contains(a) <==> s.contains(a) && test(a),
{
    let out = kept(s, test);
    let at = law_keeping_keeps_the_order(s, test);
    if out.contains(a) {
        let p = choose|p: int| 0 <= p < out.len() && out[p] == a;
        assert(test(s[at[p]]) && s[at[p]] == a);
    }
    if s.contains(a) && test(a) {
        let k = choose|k: int| 0 <= k < s.len() && s[k] == a;
        assert(test(s[k]));
        assert(at.contains(k));
        let p = choose|p: int| 0 <= p < at.len() && at[p] == k;
        assert(out[p] == a);
    }
}

} // verus!
