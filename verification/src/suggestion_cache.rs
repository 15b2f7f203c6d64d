//! The cached suggestions: computed once per pass, served instantly, pruned as the user
//! decides.

use vstd::prelude::*;

use crate::growth::{compute_identity_growth, growth_of, who_of};
use crate::library::{Library, LibraryView};
use crate::review::{
    all_cards, build_review_queue, queue_of, GrowthCluster, IdentityGrowth, IdentityGrowthView,
    ReviewItem, ReviewItemView, TwinPair, TwinPairView, WhoCandidate, WhoCandidateView,
};
use crate::rows::{holds, kept, lemma_kept_from, retain_rows, views};
use crate::suggestions::{compute_merge_suggestions, suggestions_of, twins_of};

verus! {

/// The People suggestions as of one clustering generation. Served only while the
/// generation still matches: serving nothing beats serving cards whose cluster ids now
/// point elsewhere.
pub struct SuggestionCache {
    pub generation: i64,
    pub growth: Vec<IdentityGrowth>,
    pub queue: Vec<ReviewItem>,
}

/// The cached suggestions, mathematically.
pub struct SuggestionCacheView {
    pub generation: i64,
    pub growth: Seq<IdentityGrowthView>,
    pub queue: Seq<ReviewItemView>,
}

impl View for SuggestionCache {
    type V = SuggestionCacheView;

    open spec fn view(&self) -> SuggestionCacheView {
        SuggestionCacheView {
            generation: self.generation,
            growth: views(self.growth@),
            queue: views(self.queue@),
        }
    }
}

/// A card stamped with the generation.
pub open spec fn stamped(generation: i64) -> spec_fn(IdentityGrowthView) -> IdentityGrowthView {
    |g: IdentityGrowthView| IdentityGrowthView { generation, ..g }
}

/// The suggestions of a library, stamped with a generation.
pub open spec fn fresh_cache(lib: LibraryView, generation: i64) -> SuggestionCacheView {
    let growth = growth_of(lib).map_values(stamped(generation));
    SuggestionCacheView {
        generation,
        growth,
        queue: queue_of(all_cards(suggestions_of(lib), growth, who_of(lib) + twins_of(lib))),
    }
}

/// One of the chips is of one of the groups.
pub open spec fn chips_touch(groups: Seq<GrowthCluster>, set: Seq<i64>) -> bool {
    exists|k: int| 0 <= k < groups.len() && set.contains((#[trigger] groups[k]).cluster_id)
}

/// One of the candidates is one of the groups.
pub open spec fn candidates_touch(candidates: Seq<WhoCandidateView>, set: Seq<i64>) -> bool {
    exists|k: int| 0 <= k < candidates.len() && set.contains((#[trigger] candidates[k]).into)
}

/// One of the contested pairs names one of the groups.
pub open spec fn pairs_touch(pairs: Seq<TwinPairView>, set: Seq<i64>) -> bool {
    exists|k: int|
        0 <= k < pairs.len() && (set.contains((#[trigger] pairs[k]).into) || set.contains(
            pairs[k].from,
        ))
}

/// The item speaks of one of the groups.
pub open spec fn touches(set: Seq<i64>) -> spec_fn(ReviewItemView) -> bool {
    |item: ReviewItemView|
        match item {
            ReviewItemView::StrongBatch { into, groups, .. } => set.contains(into) || chips_touch(
                groups,
                set,
            ),
            ReviewItemView::Maybe { into, group, .. } => set.contains(into) || set.contains(
                group.cluster_id,
            ),
            ReviewItemView::WhoIsThis { cluster_id, candidates, .. } => set.contains(cluster_id)
                || candidates_touch(candidates, set),
            ReviewItemView::Pairwise { into, from, .. } => set.contains(into) || set.contains(from),
            ReviewItemView::SamePhotoTwin { pairs, .. } => pairs_touch(pairs, set),
        }
}

/// Tests for an item that speaks of none of the groups.
pub open spec fn untouched(set: Seq<i64>) -> spec_fn(ReviewItemView) -> bool {
    |item: ReviewItemView| !touches(set)(item)
}

/// Tests for a chip of another group.
pub open spec fn other_chip(set: Seq<i64>) -> spec_fn(GrowthCluster) -> bool {
    |g: GrowthCluster| !set.contains(g.cluster_id)
}

/// Tests for another group.
pub open spec fn other_group(set: Seq<i64>) -> spec_fn(i64) -> bool {
    |c: i64| !set.contains(c)
}

/// A growth card without the groups.
pub open spec fn trimmed_card(set: Seq<i64>) -> spec_fn(IdentityGrowthView) -> IdentityGrowthView {
    |g: IdentityGrowthView|
        IdentityGrowthView {
            strong_groups: kept(g.strong_groups, other_chip(set)),
            strong_clusters: kept(g.strong_clusters, other_group(set)),
            maybe: kept(g.maybe, other_chip(set)),
            ..g
        }
}

/// Tests for a growth card that still offers something, to someone else.
pub open spec fn still_offers(set: Seq<i64>) -> spec_fn(IdentityGrowthView) -> bool {
    |g: IdentityGrowthView|
        !set.contains(g.into) && !(g.strong_clusters.len() == 0 && g.maybe.len() == 0)
}

/// The cache without what speaks of the groups.
pub open spec fn pruned(cache: SuggestionCacheView, set: Seq<i64>) -> SuggestionCacheView {
    SuggestionCacheView {
        generation: cache.generation,
        growth: kept(cache.growth.map_values(trimmed_card(set)), still_offers(set)),
        queue: kept(cache.queue, untouched(set)),
    }
}

impl SuggestionCacheView {
    /// The cached suggestions may be served: no pass is running, and the clusters were not
    /// renumbered since.
    pub open spec fn current(self, reclustering: bool, cluster_gen: i64) -> bool {
        !reclustering && self.generation == cluster_gen
    }
}

/// Whether any of the chips is of one of the groups.
fn any_chip(groups: &Vec<GrowthCluster>, set: &Vec<i64>) -> (r: bool)
    ensures
        r == chips_touch(groups@, set@),
{
    for k in 0..groups.len()
        invariant
            forall|j: int| 0 <= j < k ==> !set@.contains((#[trigger] groups@[j]).cluster_id),
    {
        if holds(set, groups[k].cluster_id) {
            return true;
        }
    }
    false
}

/// Whether an item speaks of one of the groups.
fn item_touches(item: &ReviewItem, set: &Vec<i64>) -> (r: bool)
    ensures
        r == touches(set@)(item@),
{
    match item {
        ReviewItem::StrongBatch { into, groups, .. } => {
            holds(set, *into) || any_chip(groups, set)
        },
        ReviewItem::Maybe { into, group, .. } => {
            holds(set, *into) || holds(set, group.cluster_id)
        },
        ReviewItem::WhoIsThis { cluster_id, candidates, .. } => {
            holds(set, *cluster_id) || any_candidate(candidates, set)
        },
        ReviewItem::Pairwise { into, from, .. } => holds(set, *into) || holds(set, *from),
        ReviewItem::SamePhotoTwin { pairs, .. } => any_pair(pairs, set),
    }
}

/// Whether any of the candidates is one of the groups.
fn any_candidate(candidates: &Vec<WhoCandidate>, set: &Vec<i64>) -> (r: bool)
    ensures
        r == candidates_touch(views(candidates@), set@),
{
    let ghost all = views(candidates@);
    for k in 0..candidates.len()
        invariant
            all == views(candidates@),
            forall|j: int| 0 <= j < k ==> !set@.contains((#[trigger] all[j]).into),
    {
        assert(all[k as int] == candidates@[k as int]@);
        if holds(set, candidates[k].into) {
            assert(set@.contains(views(candidates@)[k as int].into));
            return true;
        }
    }
    false
}

/// Whether any of the contested pairs names one of the groups.
fn any_pair(pairs: &Vec<TwinPair>, set: &Vec<i64>) -> (r: bool)
    ensures
        r == pairs_touch(views(pairs@), set@),
{
    let ghost all = views(pairs@);
    for k in 0..pairs.len()
        invariant
            all == views(pairs@),
            forall|j: int|
                0 <= j < k ==> !(set@.contains((#[trigger] all[j]).into) || set@.contains(
                    all[j].from,
                )),
    {
        assert(all[k as int] == pairs@[k as int]@);
        if holds(set, pairs[k].into) || holds(set, pairs[k].from) {
            assert(set@.contains(views(pairs@)[k as int].into) || set@.contains(
                views(pairs@)[k as int].from,
            ));
            return true;
        }
    }
    false
}

fn other_chips(groups: &Vec<GrowthCluster>, set: &Vec<i64>) -> (out: Vec<GrowthCluster>)
    ensures
        out@ == kept(groups@, other_chip(set@)),
{
    let mut out: Vec<GrowthCluster> = Vec::new();
    for k in 0..groups.len()
        invariant
            out@ == kept(groups@.take(k as int), other_chip(set@)),
    {
        assert(groups@.take(k + 1).drop_last() == groups@.take(k as int));
        if !holds(set, groups[k].cluster_id) {
            out.push(groups[k]);
        }
    }
    assert(groups@.take(groups@.len() as int) == groups@);
    out
}

fn other_groups(ids: &Vec<i64>, set: &Vec<i64>) -> (out: Vec<i64>)
    ensures
        out@ == kept(ids@, other_group(set@)),
{
    let mut out: Vec<i64> = Vec::new();
    for k in 0..ids.len()
        invariant
            out@ == kept(ids@.take(k as int), other_group(set@)),
    {
        assert(ids@.take(k + 1).drop_last() == ids@.take(k as int));
        if !holds(set, ids[k]) {
            out.push(ids[k]);
        }
    }
    assert(ids@.take(ids@.len() as int) == ids@);
    out
}

impl SuggestionCache {
    /// Nothing cached yet.
    pub fn new() -> (cache: Self)
        ensures
            cache@ == (SuggestionCacheView {
                generation: 0,
                growth: Seq::empty(),
                queue: Seq::empty(),
            }),
    {
        let cache = SuggestionCache { generation: 0, growth: Vec::new(), queue: Vec::new() };
        assert(cache@.growth =~= Seq::empty());
        assert(cache@.queue =~= Seq::empty());
        cache
    }

    /// Recompute the suggestions after a clustering pass, stamped with the generation.
    pub fn refresh(lib: &Library, generation: i64) -> (cache: Self)
        requires
            lib.wf(),
        ensures
            cache@ == fresh_cache(lib@, generation),
    {
        let (merges, mut twins) = compute_merge_suggestions(lib);
        let (mut growth, mut special) = compute_identity_growth(lib);
        let ghost cards = views(growth@);
        let n: usize = growth.len();
        for k in 0..n
            invariant
                n == growth@.len(),
                n == cards.len(),
                forall|j: int|
                    0 <= j < k ==> (#[trigger] growth@[j])@ == stamped(generation)(cards[j]),
                forall|j: int| k <= j < n ==> (#[trigger] growth@[j])@ == cards[j],
        {
            assert(growth@[k as int]@ == cards[k as int]);
            growth[k].generation = generation;
        }
        assert(views(growth@) =~= cards.map_values(stamped(generation)));
        let ghost who = views(special@);
        let ghost asks = views(twins@);
        special.append(&mut twins);
        assert(views(special@) =~= who + asks);
        let queue = build_review_queue(&merges, &growth, special);
        SuggestionCache { generation, growth, queue }
    }

    /// Whether the cached suggestions may be served: no pass is running, and the clusters
    /// were not renumbered since.
    pub fn is_current(&self, reclustering: bool, cluster_gen: i64) -> (r: bool)
        ensures
            r == self@.current(reclustering, cluster_gen),
            r == (!reclustering && self@.generation == cluster_gen),
    {
        !reclustering && self.generation == cluster_gen
    }

    /// The cached growth cards; none while a pass is running or the cache is of an older
    /// generation.
    pub fn get_identity_growth(&self, reclustering: bool, cluster_gen: i64) -> (r: Option<
        &Vec<IdentityGrowth>,
    >)
        ensures
            r is Some <==> self@.current(reclustering, cluster_gen),
            r is Some <==> !reclustering && self@.generation == cluster_gen,
            r matches Some(g) ==> views(g@) == self@.growth,
    {
        if self.is_current(reclustering, cluster_gen) {
            Some(&self.growth)
        } else {
            None
        }
    }

    /// The cached review queue; none while a pass is running or the cache is of an older
    /// generation.
    pub fn get_review_queue(&self, reclustering: bool, cluster_gen: i64) -> (r: Option<
        &Vec<ReviewItem>,
    >)
        ensures
            r is Some <==> self@.current(reclustering, cluster_gen),
            r is Some <==> !reclustering && self@.generation == cluster_gen,
            r matches Some(q) ==> views(q@) == self@.queue,
    {
        if self.is_current(reclustering, cluster_gen) {
            Some(&self.queue)
        } else {
            None
        }
    }

    /// Drop cached suggestions that touch any of these groups, as soon as a user decision
    /// lands, so that no card re-offers it.
    pub fn prune_suggestion_cache(&mut self, clusters: &Vec<i64>)
        ensures
            final(self)@ == pruned(old(self)@, clusters@),
    {
        let test = |i: &ReviewItem| -> (b: bool)
            ensures
                b == untouched(clusters@)(i@),
            { !item_touches(i, clusters) };
        retain_rows(&mut self.queue, test, Ghost(untouched(clusters@)));
        let ghost cards = views(self.growth@);
        let n: usize = self.growth.len();
        let ghost queue = views(self.queue@);
        let ghost generation = self.generation;
        for k in 0..n
            invariant
                n == self.growth@.len(),
                n == cards.len(),
                queue == views(self.queue@),
                generation == self.generation,
                forall|j: int|
                    0 <= j < k ==> (#[trigger] self.growth@[j])@ == trimmed_card(clusters@)(
                        cards[j],
                    ),
                forall|j: int| k <= j < n ==> (#[trigger] self.growth@[j])@ == cards[j],
        {
            assert(self.growth@[k as int]@ == cards[k as int]);
            let groups = other_chips(&self.growth[k].strong_groups, clusters);
            let ids = other_groups(&self.growth[k].strong_clusters, clusters);
            let tail = other_chips(&self.growth[k].maybe, clusters);
            self.growth[k].strong_groups = groups;
            self.growth[k].strong_clusters = ids;
            self.growth[k].maybe = tail;
        }
        assert(views(self.growth@) =~= cards.map_values(trimmed_card(clusters@)));
        let keep = |g: &IdentityGrowth| -> (b: bool)
            ensures
                b == still_offers(clusters@)(g@),
            {
                !holds(clusters, g.into) && !(g.strong_clusters.len() == 0 && g.maybe.len() == 0)
            };
        retain_rows(&mut self.growth, keep, Ghost(still_offers(clusters@)));
    }
}

/// **A decision silences its cards.** After pruning, no queued card and no growth card
/// speaks of the groups that were decided.
pub proof fn law_pruned_cache_is_silent(cache: SuggestionCacheView, set: Seq<i64>)
    ensures
        forall|k: int|
            0 <= k < pruned(cache, set).queue.len() ==> !touches(set)(
                #[trigger] pruned(cache, set).queue[k],
            ),
        forall|k: int|
            0 <= k < pruned(cache, set).growth.len() ==> {
                let g = #[trigger] pruned(cache, set).growth[k];
                &&& !set.contains(g.into)
                &&& forall|j: int|
                    0 <= j < g.strong_clusters.len() ==> !set.contains(#[trigger] g.strong_clusters[j])
                &&& forall|j: int|
                    0 <= j < g.maybe.len() ==> !set.contains((#[trigger] g.maybe[j]).cluster_id)
            },
{
    let after = pruned(cache, set);
    assert forall|k: int| 0 <= k < after.queue.len() implies !touches(set)(
        #[trigger] after.queue[k],
    ) by {
        lemma_kept_from(cache.queue, untouched(set), k);
    }
    let cards = cache.growth.map_values(trimmed_card(set));
    assert forall|k: int| 0 <= k < after.growth.len() implies {
        let g = #[trigger] after.growth[k];
        &&& !set.contains(g.into)
        &&& forall|j: int|
            0 <= j < g.strong_clusters.len() ==> !set.contains(#[trigger] g.strong_clusters[j])
        &&& forall|j: int| 0 <= j < g.maybe.len() ==> !set.contains((#[trigger] g.maybe[j]).cluster_id)
    } by {
        lemma_kept_from(cards, still_offers(set), k);
        let g = after.growth[k];
        let i = choose|i: int| k <= i < cards.len() && #[trigger] cards[i] == g;
        let was = cache.growth[i];
        assert(g == trimmed_card(set)(was));
        assert forall|j: int| 0 <= j < g.strong_clusters.len() implies !set.contains(
            #[trigger] g.strong_clusters[j],
        ) by {
            lemma_kept_from(was.strong_clusters, other_group(set), j);
        }
        assert forall|j: int| 0 <= j < g.maybe.len() implies !set.contains(
            (#[trigger] g.maybe[j]).cluster_id,
        ) by {
            lemma_kept_from(was.maybe, other_chip(set), j);
        }
    }
}

} // verus!
