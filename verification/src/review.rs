//! The review queue: every engine's questions, biggest payoff first.

use vstd::prelude::*;

use crate::order::{arrange_owned, arranged, lemma_arranged_views};
use crate::rows::{kept, retain_rows, views};
use crate::text::{copy_opt, opt_text};

verus! {

/// A single growth candidate: one group with its example face and photo count.
#[derive(Clone, Copy, PartialEq, Eq, Structural, Debug)]
pub struct GrowthCluster {
    pub cluster_id: i64,
    pub face_id: Option<i64>,
    pub photos: i64,
    pub similarity: i128,
}

/// A "same person?" suggestion: two groups with several near-neighbor face pairs across
/// them. The card shows a strip of example faces from each side.
pub struct MergeSuggestion {
    pub into: i64,
    pub from: i64,
    /// Example face ids from each side (highest detector confidence), for the card.
    pub into_faces: Vec<i64>,
    pub from_faces: Vec<i64>,
    pub into_name: Option<String>,
    pub similarity: i128,
    /// Faces on the smaller side: the payoff of resolving this suggestion.
    pub photos: i64,
    /// Clustering generation this card was computed at.
    pub generation: i64,
}

/// A merge suggestion, mathematically.
pub struct MergeSuggestionView {
    pub into: i64,
    pub from: i64,
    pub into_faces: Seq<i64>,
    pub from_faces: Seq<i64>,
    pub into_name: Option<Seq<char>>,
    pub similarity: i128,
    pub photos: i64,
    pub generation: i64,
}

impl View for MergeSuggestion {
    type V = MergeSuggestionView;

    open spec fn view(&self) -> MergeSuggestionView {
        MergeSuggestionView {
            into: self.into,
            from: self.from,
            into_faces: self.into_faces@,
            from_faces: self.from_faces@,
            into_name: opt_text(self.into_name),
            similarity: self.similarity,
            photos: self.photos,
            generation: self.generation,
        }
    }
}

/// One candidate answer on a "Who is this?" card.
pub struct WhoCandidate {
    pub identity_id: i64,
    pub name: String,
    /// The group an "it's them" answer folds the cluster into.
    pub into: i64,
    pub anchor_faces: Vec<i64>,
    pub similarity: i128,
}

/// A candidate answer, mathematically.
pub struct WhoCandidateView {
    pub identity_id: i64,
    pub name: Seq<char>,
    pub into: i64,
    pub anchor_faces: Seq<i64>,
    pub similarity: i128,
}

impl View for WhoCandidate {
    type V = WhoCandidateView;

    open spec fn view(&self) -> WhoCandidateView {
        WhoCandidateView {
            identity_id: self.identity_id,
            name: self.name@,
            into: self.into,
            anchor_faces: self.anchor_faces@,
            similarity: self.similarity,
        }
    }
}

/// One contested pair on a same-photo card: the group the fragment would fold into, and
/// the co-occurring face from each side.
pub struct TwinPair {
    pub into: i64,
    pub from: i64,
    pub into_name: Option<String>,
    pub face_a: i64,
    pub face_b: i64,
    pub similarity: i128,
    pub photos: i64,
}

/// A contested pair, mathematically.
pub struct TwinPairView {
    pub into: i64,
    pub from: i64,
    pub into_name: Option<Seq<char>>,
    pub face_a: i64,
    pub face_b: i64,
    pub similarity: i128,
    pub photos: i64,
}

impl View for TwinPair {
    type V = TwinPairView;

    open spec fn view(&self) -> TwinPairView {
        TwinPairView {
            into: self.into,
            from: self.from,
            into_name: opt_text(self.into_name),
            face_a: self.face_a,
            face_b: self.face_b,
            similarity: self.similarity,
            photos: self.photos,
        }
    }
}

/// One decision in the unified review queue. Every engine's output is normalized to
/// this shape, so the user answers the biggest questions first with one grammar.
pub enum ReviewItem {
    /// "N groups strongly match <name>": bulk-mergeable, with per-group verbs.
    StrongBatch {
        photos: i64,
        name: String,
        into: i64,
        anchor_faces: Vec<i64>,
        groups: Vec<GrowthCluster>,
    },
    /// "Might also be <name>?": one group, yes / no / someone else.
    Maybe { photos: i64, name: String, into: i64, anchor_faces: Vec<i64>, group: GrowthCluster },
    /// Two or more named people both plausibly match this group: the near-tie the model
    /// can't resolve.
    WhoIsThis {
        photos: i64,
        cluster_id: i64,
        group_faces: Vec<i64>,
        candidates: Vec<WhoCandidate>,
    },
    /// "Same person?": face-to-face evidence between two groups.
    Pairwise {
        photos: i64,
        into: i64,
        from: i64,
        into_name: Option<String>,
        into_faces: Vec<i64>,
        from_faces: Vec<i64>,
    },
    /// The same-photo contradiction: groups that look like one person but share a photo.
    /// One card per photo carries every contested pair.
    SamePhotoTwin { photos: i64, photo_id: i64, pairs: Vec<TwinPair> },
}

/// A decision in the review queue, mathematically.
pub enum ReviewItemView {
    StrongBatch {
        photos: i64,
        name: Seq<char>,
        into: i64,
        anchor_faces: Seq<i64>,
        groups: Seq<GrowthCluster>,
    },
    Maybe {
        photos: i64,
        name: Seq<char>,
        into: i64,
        anchor_faces: Seq<i64>,
        group: GrowthCluster,
    },
    WhoIsThis {
        photos: i64,
        cluster_id: i64,
        group_faces: Seq<i64>,
        candidates: Seq<WhoCandidateView>,
    },
    Pairwise {
        photos: i64,
        into: i64,
        from: i64,
        into_name: Option<Seq<char>>,
        into_faces: Seq<i64>,
        from_faces: Seq<i64>,
    },
    SamePhotoTwin { photos: i64, photo_id: i64, pairs: Seq<TwinPairView> },
}

impl View for ReviewItem {
    type V = ReviewItemView;

    open spec fn view(&self) -> ReviewItemView {
        match self {
            ReviewItem::StrongBatch { photos, name, into, anchor_faces, groups } => {
                ReviewItemView::StrongBatch {
                    photos: *photos,
                    name: name@,
                    into: *into,
                    anchor_faces: anchor_faces@,
                    groups: groups@,
                }
            },
            ReviewItem::Maybe { photos, name, into, anchor_faces, group } => {
                ReviewItemView::Maybe {
                    photos: *photos,
                    name: name@,
                    into: *into,
                    anchor_faces: anchor_faces@,
                    group: *group,
                }
            },
            ReviewItem::WhoIsThis { photos, cluster_id, group_faces, candidates } => {
                ReviewItemView::WhoIsThis {
                    photos: *photos,
                    cluster_id: *cluster_id,
                    group_faces: group_faces@,
                    candidates: views(candidates@),
                }
            },
            ReviewItem::Pairwise { photos, into, from, into_name, into_faces, from_faces } => {
                ReviewItemView::Pairwise {
                    photos: *photos,
                    into: *into,
                    from: *from,
                    into_name: opt_text(*into_name),
                    into_faces: into_faces@,
                    from_faces: from_faces@,
                }
            },
            ReviewItem::SamePhotoTwin { photos, photo_id, pairs } => {
                ReviewItemView::SamePhotoTwin {
                    photos: *photos,
                    photo_id: *photo_id,
                    pairs: views(pairs@),
                }
            },
        }
    }
}

impl ReviewItemView {
    /// The payoff of answering: how many photos move.
    pub open spec fn payoff(&self) -> i64 {
        match self {
            ReviewItemView::StrongBatch { photos, .. } => *photos,
            ReviewItemView::Maybe { photos, .. } => *photos,
            ReviewItemView::WhoIsThis { photos, .. } => *photos,
            ReviewItemView::Pairwise { photos, .. } => *photos,
            ReviewItemView::SamePhotoTwin { photos, .. } => *photos,
        }
    }
}

impl ReviewItem {
    /// The payoff of answering: how many photos move.
    pub fn payoff(&self) -> (n: i64)
        ensures
            n == self@.payoff(),
    {
        match self {
            ReviewItem::StrongBatch { photos, .. } => *photos,
            ReviewItem::Maybe { photos, .. } => *photos,
            ReviewItem::WhoIsThis { photos, .. } => *photos,
            ReviewItem::Pairwise { photos, .. } => *photos,
            ReviewItem::SamePhotoTwin { photos, .. } => *photos,
        }
    }
}

/// The review queue as of one clustering generation. All items share the generation;
/// mutations pass it back so stale answers are refused.
pub struct ReviewQueue {
    pub generation: i64,
    pub items: Vec<ReviewItem>,
}

/// A batch offer from a confirmed person, split by confidence. The `strong` matches fold
/// in with one bulk click; the less-certain `maybe` tail is reviewed one face at a time.
pub struct IdentityGrowth {
    pub identity_id: i64,
    pub name: String,
    /// The group everything folds into: the identity's own stable group key.
    pub into: i64,
    /// Example faces of the confirmed person, for the card.
    pub anchor_faces: Vec<i64>,
    /// Strong matches, offered as a single bulk merge.
    pub strong_clusters: Vec<i64>,
    /// Per-group chip data for the strong matches.
    pub strong_groups: Vec<GrowthCluster>,
    /// Example faces drawn from the strong matches, for the card strip.
    pub strong_faces: Vec<i64>,
    /// Total photos across the strong matches.
    pub strong_photos: i64,
    /// The less-certain tail, each reviewed individually.
    pub maybe: Vec<GrowthCluster>,
    /// Total photos across strong and maybe (ranks the most impactful person first).
    pub photos: i64,
    /// Clustering generation this card was computed at.
    pub generation: i64,
}

/// A batch offer, mathematically.
pub struct IdentityGrowthView {
    pub identity_id: i64,
    pub name: Seq<char>,
    pub into: i64,
    pub anchor_faces: Seq<i64>,
    pub strong_clusters: Seq<i64>,
    pub strong_groups: Seq<GrowthCluster>,
    pub strong_faces: Seq<i64>,
    pub strong_photos: i64,
    pub maybe: Seq<GrowthCluster>,
    pub photos: i64,
    pub generation: i64,
}

impl View for IdentityGrowth {
    type V = IdentityGrowthView;

    open spec fn view(&self) -> IdentityGrowthView {
        IdentityGrowthView {
            identity_id: self.identity_id,
            name: self.name@,
            into: self.into,
            anchor_faces: self.anchor_faces@,
            strong_clusters: self.strong_clusters@,
            strong_groups: self.strong_groups@,
            strong_faces: self.strong_faces@,
            strong_photos: self.strong_photos,
            maybe: self.maybe@,
            photos: self.photos,
            generation: self.generation,
        }
    }
}

/// A card must move at least this many photos to earn a spot in the session.
pub const REVIEW_MIN_PHOTOS: i64 = 4;

/// A session has a visible end.
pub const MAX_QUEUE: usize = 60;

/// A copy of a list.
pub fn copy_ids(v: &Vec<i64>) -> (c: Vec<i64>)
    ensures
        c@ == v@,
{
    let mut c: Vec<i64> = Vec::with_capacity(v.len());
    for i in 0..v.len()
        invariant
            c@ == v@.take(i as int),
    {
        c.push(v[i]);
        assert(c@ =~= v@.take(i + 1));
    }
    assert(c@ =~= v@);
    c
}

/// A copy of a list.
pub fn copy_groups(v: &Vec<GrowthCluster>) -> (c: Vec<GrowthCluster>)
    ensures
        c@ == v@,
{
    let mut c: Vec<GrowthCluster> = Vec::with_capacity(v.len());
    for i in 0..v.len()
        invariant
            c@ == v@.take(i as int),
    {
        c.push(v[i]);
        assert(c@ =~= v@.take(i + 1));
    }
    assert(c@ =~= v@);
    c
}

/// The card for a person's strong matches, if there are any.
pub open spec fn strong_card(g: IdentityGrowthView) -> Seq<ReviewItemView> {
    if g.strong_groups.len() == 0 {
        Seq::empty()
    } else {
        seq![
            ReviewItemView::StrongBatch {
                photos: g.strong_photos,
                name: g.name,
                into: g.into,
                anchor_faces: g.anchor_faces,
                groups: g.strong_groups,
            },
        ]
    }
}

/// The card for one less-certain match.
pub open spec fn maybe_card(g: IdentityGrowthView) -> spec_fn(GrowthCluster) -> ReviewItemView {
    |m: GrowthCluster|
        ReviewItemView::Maybe {
            photos: m.photos,
            name: g.name,
            into: g.into,
            anchor_faces: g.anchor_faces,
            group: m,
        }
}

/// The cards of one person.
pub open spec fn growth_cards(g: IdentityGrowthView) -> Seq<ReviewItemView> {
    strong_card(g) + g.maybe.map_values(maybe_card(g))
}

/// The cards of the first `n` persons.
pub open spec fn all_growth_cards(growth: Seq<IdentityGrowthView>, n: nat) -> Seq<ReviewItemView>
    decreases n,
{
    if n == 0 {
        Seq::empty()
    } else {
        all_growth_cards(growth, (n - 1) as nat) + growth_cards(growth[n - 1])
    }
}

/// The card for a merge suggestion.
pub open spec fn pair_card() -> spec_fn(MergeSuggestionView) -> ReviewItemView {
    |s: MergeSuggestionView|
        ReviewItemView::Pairwise {
            photos: s.photos,
            into: s.into,
            from: s.from,
            into_name: s.into_name,
            into_faces: s.into_faces,
            from_faces: s.from_faces,
        }
}

/// Tests for a card worth a spot in the session.
pub open spec fn worthwhile() -> spec_fn(ReviewItemView) -> bool {
    |i: ReviewItemView| i.payoff() >= REVIEW_MIN_PHOTOS
}

/// How cards are ranked: biggest payoff first.
pub open spec fn by_payoff() -> spec_fn(ReviewItemView) -> (i128, i128, i128) {
    |i: ReviewItemView| (i.payoff() as i128, 0, 0)
}

/// The queue made of a list of cards: those worth it, biggest payoff first, capped.
pub open spec fn queue_of(cards: Seq<ReviewItemView>) -> Seq<ReviewItemView> {
    let good = kept(cards, worthwhile());
    let sorted = arranged(good, good.map_values(by_payoff()));
    if sorted.len() > MAX_QUEUE {
        sorted.take(MAX_QUEUE as int)
    } else {
        sorted
    }
}

/// Every card, before ranking.
pub open spec fn all_cards(
    merges: Seq<MergeSuggestionView>,
    growth: Seq<IdentityGrowthView>,
    special: Seq<ReviewItemView>,
) -> Seq<ReviewItemView> {
    special + all_growth_cards(growth, growth.len()) + merges.map_values(pair_card())
}

/// Normalize every engine's suggestions into the single payoff-sorted review queue:
/// strong batches and uncertain growth per person, contested cards, and pairwise
/// evidence, biggest photos first, floored and capped.
pub fn build_review_queue(
    merges: &Vec<MergeSuggestion>,
    growth: &Vec<IdentityGrowth>,
    special: Vec<ReviewItem>,
) -> (out: Vec<ReviewItem>)
    ensures
        views(out@) == queue_of(all_cards(views(merges@), views(growth@), views(special@))),
{
    let ghost start = views(special@);
    let mut items = special;
    let ghost gs = views(growth@);
    assert(views(items@) =~= start + all_growth_cards(gs, 0));
    for n in 0..growth.len()
        invariant
            gs == views(growth@),
            views(items@) == start + all_growth_cards(gs, n as nat),
    {
        let g = &growth[n];
        let ghost before = views(items@);
        assert(gs[n as int] == g@);
        push_growth_cards(&mut items, g);
        assert(views(items@) =~= start + all_growth_cards(gs, (n + 1) as nat));
    }
    let ghost first = views(items@);
    let ghost pairs = views(merges@).map_values(pair_card());
    assert(first + pairs.take(0) =~= first);
    for n in 0..merges.len()
        invariant
            pairs == views(merges@).map_values(pair_card()),
            views(items@) == first + pairs.take(n as int),
    {
        let s = &merges[n];
        let ghost was = items@;
        items.push(
            ReviewItem::Pairwise {
                photos: s.photos,
                into: s.into,
                from: s.from,
                into_name: copy_opt(&s.into_name),
                into_faces: copy_ids(&s.into_faces),
                from_faces: copy_ids(&s.from_faces),
            },
        );
        assert(views(items@) =~= views(was).push(pairs[n as int]));
        assert(pairs.take(n + 1) =~= pairs.take(n as int).push(pairs[n as int]));
        assert(views(items@) =~= first + pairs.take(n + 1));
    }
    assert(pairs.take(merges@.len() as int) =~= pairs);
    rank_cards(items)
}

fn push_growth_cards(items: &mut Vec<ReviewItem>, g: &IdentityGrowth)
    ensures
        views(final(items)@) == views(old(items)@) + growth_cards(g@),
{
    let ghost before = views(items@);
    if g.strong_groups.len() > 0 {
        items.push(
            ReviewItem::StrongBatch {
                photos: g.strong_photos,
                name: g.name.clone(),
                into: g.into,
                anchor_faces: copy_ids(&g.anchor_faces),
                groups: copy_groups(&g.strong_groups),
            },
        );
    }
    assert(views(items@) =~= before + strong_card(g@));
    let ghost held = views(items@);
    let ghost tail = g@.maybe.map_values(maybe_card(g@));
    assert(held + tail.take(0) =~= held);
    for k in 0..g.maybe.len()
        invariant
            tail == g@.maybe.map_values(maybe_card(g@)),
            views(items@) == held + tail.take(k as int),
    {
        let m = g.maybe[k];
        let ghost was = items@;
        items.push(
            ReviewItem::Maybe {
                photos: m.photos,
                name: g.name.clone(),
                into: g.into,
                anchor_faces: copy_ids(&g.anchor_faces),
                group: m,
            },
        );
        assert(views(items@) =~= views(was).push(tail[k as int]));
        assert(tail.take(k + 1) =~= tail.take(k as int).push(tail[k as int]));
        assert(views(items@) =~= held + tail.take(k + 1));
    }
    assert(tail.take(g.maybe@.len() as int) =~= tail);
    assert(views(items@) =~= before + growth_cards(g@));
}

/// The cards worth a spot, biggest payoff first, capped.
fn rank_cards(items: Vec<ReviewItem>) -> (out: Vec<ReviewItem>)
    ensures
        views(out@) == queue_of(views(items@)),
{
    let ghost cards = views(items@);
    let mut items = items;
    let test = |i: &ReviewItem| -> (b: bool)
        ensures
            b == worthwhile()(i@),
        { i.payoff() >= REVIEW_MIN_PHOTOS };
    retain_rows(&mut items, test, Ghost(worthwhile()));
    let ghost good = views(items@);
    let mut keys: Vec<(i128, i128, i128)> = Vec::with_capacity(items.len());
    for k in 0..items.len()
        invariant
            good == views(items@),
            keys@ == good.map_values(by_payoff()).take(k as int),
    {
        keys.push((items[k].payoff() as i128, 0, 0));
        assert(good[k as int] == items@[k as int]@);
        assert(keys@ =~= good.map_values(by_payoff()).take(k + 1));
    }
    assert(keys@ =~= good.map_values(by_payoff()));
    let ghost held = items@;
    let mut out = arrange_owned(items, &keys);
    proof {
        assert(keys.len() <= usize::MAX);
        lemma_arranged_views(held, keys@);
    }
    if out.len() > MAX_QUEUE {
        out.truncate(MAX_QUEUE);
    }
    assert(views(out@) =~= queue_of(cards));
    out
}

} // verus!
