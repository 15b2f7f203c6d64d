//! Growth: the over-split fragments each confirmed person may absorb.
//!
//! A cluster claimed by two people is dropped from both cards and becomes a "who is
//! this?" question instead: a near-tie is asked, never guessed.

use std::collections::{HashMap, HashSet};

use vstd::prelude::*;

use crate::confirmations::{anchor, confirmed_anchor_embeddings, confirmed_photo};
use crate::cooccurrence::{cooccurrence_maps, cooccurs, gathers};
use crate::evidence::{clusters_of, units_of};
use crate::groups::{
    face_cluster_embeddings, group_embedding, group_photo, ranked_faces, top_face_ids,
};
use crate::library::{identity_key, key_of, lemma_counts_fit, FaceView, Library, LibraryView};
use crate::magnet::{
    candidate, in_cluster, not_own, scored_clusters, scores, FaceMatrix, GrowthCandidate,
};
use crate::names::{named, named_identities};
use crate::order::{
    arrange, arrange_owned, arranged, before, lemma_arranged_views, lemma_order_of, limit_to,
    limited, order_of,
};
use crate::photos::{is_settled, settled};
use crate::recognition::{
    all_hits, candidates_for, core_of, find_candidates, find_hits, lemma_together,
    photographed_together, pool, Hit, ANCHOR_FACES, AUTO_FOLD_MARGIN, MIN_ANCHOR,
};
use crate::review::{
    GrowthCluster, IdentityGrowth, IdentityGrowthView, ReviewItem, ReviewItemView, WhoCandidate,
    WhoCandidateView,
};
use crate::rows::{
    distinct, kept, lemma_distinct, lemma_select_from, lemma_select_len, lemma_tally_bound,
    select, tally, views, without_repeats,
};
use crate::similarity::{rows, unit_rows};

verus! {

/// Above this a match is folded in by the bulk button.
pub const STRONG: i128 = 600_000_000_000;

/// The review tail is capped so the chip row stays glanceable.
pub const MAX_MAYBE: usize = 12;

/// Someone else matches the cluster decisively better.
pub open spec fn decisively_other(all: Seq<Hit>, cluster: i64, identity: i64, sim: i128) -> bool {
    exists|k: int|
        0 <= k < all.len() && (#[trigger] all[k]).cluster_id == cluster && all[k].identity_id
            != identity && all[k].sim > sim + AUTO_FOLD_MARGIN
}

/// Tests for a candidate that may be offered to an identity: an appearance group, never
/// photographed with the person, and not decisively someone else's.
pub open spec fn offered(lib: LibraryView, identity: i64) -> spec_fn(GrowthCandidate) -> bool {
    |c: GrowthCandidate|
        {
            &&& c.cluster_id >= 0
            &&& !photographed_together(lib)(c.cluster_id, identity)
            &&& !decisively_other(all_hits(lib), c.cluster_id, identity, c.max_sim)
        }
}

/// How candidates are ranked: strongest match first.
pub open spec fn by_match() -> spec_fn(GrowthCandidate) -> (i128, i128, i128) {
    |c: GrowthCandidate| (c.max_sim, 0, 0)
}

/// What may be offered to an identity, strongest match first.
pub open spec fn offers(lib: LibraryView, identity: i64) -> Seq<GrowthCandidate> {
    let found = candidates_for(lib, identity);
    kept(arranged(found, found.map_values(by_match())), offered(lib, identity))
}

/// A person and what may be offered to them.
pub struct Pending {
    pub identity_id: i64,
    pub name: String,
    pub candidates: Vec<GrowthCandidate>,
}

/// A person and what may be offered to them, mathematically.
pub struct PendingView {
    pub identity_id: i64,
    pub name: Seq<char>,
    pub candidates: Seq<GrowthCandidate>,
}

impl View for Pending {
    type V = PendingView;

    open spec fn view(&self) -> PendingView {
        PendingView {
            identity_id: self.identity_id,
            name: self.name@,
            candidates: self.candidates@,
        }
    }
}

/// Picks a named person with enough confirmed evidence and something on offer.
pub open spec fn pending_person(lib: LibraryView) -> spec_fn((i64, Seq<char>)) -> Option<
    PendingView,
> {
    |n: (i64, Seq<char>)|
        if anchor(lib.faces, n.0, ANCHOR_FACES as int).len() < MIN_ANCHOR || offers(
            lib,
            n.0,
        ).len() == 0 {
            None
        } else {
            Some(PendingView { identity_id: n.0, name: n.1, candidates: offers(lib, n.0) })
        }
}

/// Every person with something on offer.
pub open spec fn pending(lib: LibraryView) -> Seq<PendingView> {
    select(select(lib.identities, named()), pending_person(lib))
}

/// A person (by place in the pending list) claims a cluster.
#[derive(Clone, Copy)]
pub struct Claim {
    pub cluster_id: i64,
    pub by: usize,
    pub size: usize,
    pub sim: i128,
}

/// A candidate as a claim.
pub open spec fn claim_by(by: usize) -> spec_fn(GrowthCandidate) -> Claim {
    |c: GrowthCandidate| Claim { cluster_id: c.cluster_id, by, size: c.size, sim: c.max_sim }
}

/// The claims of the first `n` persons.
pub open spec fn claims(p: Seq<PendingView>, n: nat) -> Seq<Claim>
    decreases n,
{
    if n == 0 {
        Seq::empty()
    } else {
        claims(p, (n - 1) as nat) + p[n - 1].candidates.map_values(claim_by((n - 1) as usize))
    }
}

/// Tests for a claim on the cluster.
pub open spec fn claims_on(cluster: i64) -> spec_fn(Claim) -> bool {
    |c: Claim| c.cluster_id == cluster
}

/// Two or more people claim the cluster.
pub open spec fn contested(all: Seq<Claim>, cluster: i64) -> bool {
    tally(all, claims_on(cluster)) >= 2
}

/// Tests for a candidate no one else claims.
pub open spec fn uncontested(all: Seq<Claim>) -> spec_fn(GrowthCandidate) -> bool {
    |c: GrowthCandidate| !contested(all, c.cluster_id)
}

/// Tests for a strong match.
pub open spec fn strong() -> spec_fn(GrowthCandidate) -> bool {
    |c: GrowthCandidate| c.max_sim >= STRONG
}

/// Tests for a match that is not strong.
pub open spec fn uncertain() -> spec_fn(GrowthCandidate) -> bool {
    |c: GrowthCandidate| c.max_sim < STRONG
}

/// The first of a list.
pub open spec fn first(ids: Seq<i64>) -> Option<i64> {
    if ids.len() == 0 {
        None
    } else {
        Some(ids[0])
    }
}

/// A candidate's chip.
pub open spec fn chip(faces: Seq<FaceView>) -> spec_fn(GrowthCandidate) -> GrowthCluster {
    |c: GrowthCandidate|
        GrowthCluster {
            cluster_id: c.cluster_id,
            face_id: first(ranked_faces(faces, c.cluster_id)),
            photos: c.size as i64,
            similarity: c.max_sim,
        }
}

/// The sum of the sizes of candidates.
pub open spec fn total(list: Seq<GrowthCandidate>) -> int
    decreases list.len(),
{
    if list.len() == 0 {
        0
    } else {
        total(list.drop_last()) + list.last().size
    }
}

/// Picks a chip's example face.
pub open spec fn face_on() -> spec_fn(GrowthCluster) -> Option<i64> {
    |g: GrowthCluster| g.face_id
}

/// How chips are ranked: biggest payoff first.
pub open spec fn by_photos() -> spec_fn(GrowthCluster) -> (i128, i128, i128) {
    |g: GrowthCluster| (g.photos as i128, 0, 0)
}

/// The review tail: chips by payoff, capped.
pub open spec fn tail_of(chips: Seq<GrowthCluster>) -> Seq<GrowthCluster> {
    limited(arranged(chips, chips.map_values(by_photos())), MAX_MAYBE as int)
}

/// A person's growth card, unless everything on offer is contested.
pub open spec fn card_of(lib: LibraryView, all: Seq<Claim>) -> spec_fn(PendingView) -> Option<
    IdentityGrowthView,
> {
    |p: PendingView|
        {
            let own = kept(p.candidates, uncontested(all));
            let sure = kept(own, strong());
            let rest = kept(own, uncertain());
            let groups = sure.map_values(chip(lib.faces));
            if own.len() == 0 {
                None
            } else {
                Some(
                    IdentityGrowthView {
                        identity_id: p.identity_id,
                        name: p.name,
                        into: identity_key(p.identity_id),
                        anchor_faces: limited(
                            ranked_faces(lib.faces, identity_key(p.identity_id)),
                            4,
                        ),
                        strong_clusters: sure.map_values(|c: GrowthCandidate| c.cluster_id),
                        strong_groups: groups,
                        strong_faces: limited(select(groups, face_on()), 4),
                        strong_photos: total(sure) as i64,
                        maybe: tail_of(rest.map_values(chip(lib.faces))),
                        photos: total(own) as i64,
                        generation: 0,
                    },
                )
            }
        }
}

/// How cards are ranked: most impactful person first.
pub open spec fn by_impact() -> spec_fn(IdentityGrowthView) -> (i128, i128, i128) {
    |g: IdentityGrowthView| (g.photos as i128, 0, 0)
}

/// Every claim of a library.
pub open spec fn all_claims(lib: LibraryView) -> Seq<Claim> {
    claims(pending(lib), pending(lib).len())
}

/// The growth cards of a library.
pub open spec fn growth_of(lib: LibraryView) -> Seq<IdentityGrowthView> {
    if settled(lib) {
        let cards = select(pending(lib), card_of(lib, all_claims(lib)));
        arranged(cards, cards.map_values(by_impact()))
    } else {
        Seq::empty()
    }
}

/// Picks the claimants of a cluster, as candidate answers.
pub open spec fn claimant(lib: LibraryView, p: Seq<PendingView>, cluster: i64) -> spec_fn(
    Claim,
) -> Option<WhoCandidateView> {
    |c: Claim|
        if c.cluster_id == cluster {
            let person = p[c.by as int];
            let into = identity_key(person.identity_id);
            Some(
                WhoCandidateView {
                    identity_id: person.identity_id,
                    name: person.name,
                    into,
                    anchor_faces: limited(ranked_faces(lib.faces, into), 2),
                    similarity: c.sim,
                },
            )
        } else {
            None
        }
}

/// How answers are ranked: most similar first.
pub open spec fn likeliest() -> spec_fn(WhoCandidateView) -> (i128, i128, i128) {
    |w: WhoCandidateView| (w.similarity, 0, 0)
}

/// The size last claimed for a cluster.
pub open spec fn claimed_size(all: Seq<Claim>, cluster: i64) -> usize
    decreases all.len(),
{
    if all.len() == 0 {
        0
    } else if all.last().cluster_id == cluster {
        all.last().size
    } else {
        claimed_size(all.drop_last(), cluster)
    }
}

/// The "who is this?" card of a contested cluster.
pub open spec fn who_card(lib: LibraryView, p: Seq<PendingView>, all: Seq<Claim>) -> spec_fn(
    i64,
) -> Option<ReviewItemView> {
    |cluster: i64|
        {
            let answers = select(all, claimant(lib, p, cluster));
            if contested(all, cluster) {
                Some(
                    ReviewItemView::WhoIsThis {
                        photos: claimed_size(all, cluster) as i64,
                        cluster_id: cluster,
                        group_faces: limited(ranked_faces(lib.faces, cluster), 3),
                        candidates: limited(
                            arranged(answers, answers.map_values(likeliest())),
                            3,
                        ),
                    },
                )
            } else {
                None
            }
        }
}

/// The clusters that are claimed.
pub open spec fn claimed_clusters(all: Seq<Claim>) -> Seq<i64> {
    distinct(all.map_values(|c: Claim| c.cluster_id))
}

/// The "who is this?" cards of a library.
pub open spec fn who_of(lib: LibraryView) -> Seq<ReviewItemView> {
    if settled(lib) {
        select(
            claimed_clusters(all_claims(lib)),
            who_card(lib, pending(lib), all_claims(lib)),
        )
    } else {
        Seq::empty()
    }
}

/// The scored faces an identity's candidates are counted in.
spec fn scored(lib: LibraryView, identity: i64) -> Seq<(i64, int)> {
    select(
        scores(
            unit_rows(core_of(anchor(lib.faces, identity, ANCHOR_FACES as int))),
            units_of(pool(lib)),
            clusters_of(pool(lib)),
        ),
        not_own(Some(identity_key(identity))),
    )
}

/// Each candidate is a different cluster of `s`, and its size is the cluster's.
spec fn sized(list: Seq<GrowthCandidate>, s: Seq<(i64, int)>) -> bool {
    &&& forall|k: int|
        0 <= k < list.len() ==> (#[trigger] list[k]).size == tally(s, in_cluster(list[k].cluster_id))
    &&& forall|j: int, k: int|
        0 <= j < k < list.len() ==> (#[trigger] list[j]).cluster_id != (
        #[trigger] list[k]).cluster_id
}

/// How many of the candidates are the cluster.
spec fn matching(list: Seq<GrowthCandidate>, cluster: i64) -> int
    decreases list.len(),
{
    if list.len() == 0 {
        0
    } else {
        matching(list.drop_last(), cluster) + if list.last().cluster_id == cluster {
            1int
        } else {
            0
        }
    }
}

proof fn lemma_matching(list: Seq<GrowthCandidate>, cluster: i64)
    requires
        forall|j: int, k: int|
            0 <= j < k < list.len() ==> (#[trigger] list[j]).cluster_id != (
            #[trigger] list[k]).cluster_id,
    ensures
        0 <= matching(list, cluster) <= 1,
        matching(list, cluster) == 1 ==> exists|k: int|
            0 <= k < list.len() && (#[trigger] list[k]).cluster_id == cluster,
    decreases list.len(),
{
    if list.len() > 0 {
        let front = list.drop_last();
        assert forall|j: int, k: int| 0 <= j < k < front.len() implies (
        #[trigger] front[j]).cluster_id != (#[trigger] front[k]).cluster_id by {
            assert(front[j] == list[j] && front[k] == list[k]);
        }
        lemma_matching(front, cluster);
        assert(list[list.len() - 1] == list.last());
        if matching(front, cluster) == 1 {
            let k = choose|k: int| 0 <= k < front.len() && (#[trigger] front[k]).cluster_id == cluster;
            assert(list[k] == front[k]);
            assert(list[k].cluster_id != list[list.len() - 1].cluster_id);
        }
    }
}

/// The sizes in `s` of the clusters of a list.
spec fn total_in(list: Seq<GrowthCandidate>, s: Seq<(i64, int)>) -> int
    decreases list.len(),
{
    if list.len() == 0 {
        0
    } else {
        total_in(list.drop_last(), s) + tally(s, in_cluster(list.last().cluster_id))
    }
}

proof fn lemma_total_in_step(list: Seq<GrowthCandidate>, s: Seq<(i64, int)>)
    requires
        s.len() > 0,
    ensures
        total_in(list, s) == total_in(list, s.drop_last()) + matching(list, s.last().0),
    decreases list.len(),
{
    if list.len() > 0 {
        lemma_total_in_step(list.drop_last(), s);
    }
}

proof fn lemma_total_in(list: Seq<GrowthCandidate>, s: Seq<(i64, int)>)
    requires
        forall|j: int, k: int|
            0 <= j < k < list.len() ==> (#[trigger] list[j]).cluster_id != (
            #[trigger] list[k]).cluster_id,
    ensures
        0 <= total_in(list, s) <= s.len(),
    decreases s.len(),
{
    if s.len() == 0 {
        lemma_total_in_empty(list, s);
    } else {
        lemma_total_in(list, s.drop_last());
        lemma_total_in_step(list, s);
        lemma_matching(list, s.last().0);
    }
}

proof fn lemma_total_in_empty(list: Seq<GrowthCandidate>, s: Seq<(i64, int)>)
    requires
        s.len() == 0,
    ensures
        total_in(list, s) == 0,
    decreases list.len(),
{
    if list.len() > 0 {
        lemma_total_in_empty(list.drop_last(), s);
    }
}

/// The sizes of different clusters add up to no more than all faces.
proof fn lemma_total(list: Seq<GrowthCandidate>, s: Seq<(i64, int)>)
    requires
        sized(list, s),
    ensures
        0 <= total(list) <= s.len(),
{
    lemma_total_is(list, s);
    lemma_total_in(list, s);
}

proof fn lemma_total_is(list: Seq<GrowthCandidate>, s: Seq<(i64, int)>)
    requires
        forall|k: int|
            0 <= k < list.len() ==> (#[trigger] list[k]).size == tally(
                s,
                in_cluster(list[k].cluster_id),
            ),
    ensures
        total(list) == total_in(list, s),
    decreases list.len(),
{
    if list.len() > 0 {
        let front = list.drop_last();
        assert forall|k: int| 0 <= k < front.len() implies (#[trigger] front[k]).size == tally(
            s,
            in_cluster(front[k].cluster_id),
        ) by {
            assert(front[k] == list[k]);
        }
        lemma_total_is(front, s);
        assert(list[list.len() - 1] == list.last());
    }
}

proof fn lemma_kept_sized(
    list: Seq<GrowthCandidate>,
    s: Seq<(i64, int)>,
    test: spec_fn(GrowthCandidate) -> bool,
)
    requires
        sized(list, s),
    ensures
        sized(kept(list, test), s),
        forall|p: int|
            0 <= p < kept(list, test).len() ==> exists|i: int|
                0 <= i < list.len() && #[trigger] list[i] == (#[trigger] kept(list, test)[p]),
    decreases list.len(),
{
    if list.len() > 0 {
        let front = list.drop_last();
        assert(sized(front, s)) by {
            assert forall|k: int| 0 <= k < front.len() implies (#[trigger] front[k]).size == tally(
                s,
                in_cluster(front[k].cluster_id),
            ) by {
                assert(front[k] == list[k]);
            }
            assert forall|j: int, k: int| 0 <= j < k < front.len() implies (
            #[trigger] front[j]).cluster_id != (#[trigger] front[k]).cluster_id by {
                assert(front[j] == list[j] && front[k] == list[k]);
            }
        }
        lemma_kept_sized(front, s, test);
        let rest = kept(front, test);
        let all = kept(list, test);
        assert(list[list.len() - 1] == list.last());
        assert forall|p: int| 0 <= p < all.len() implies exists|i: int|
            0 <= i < list.len() && #[trigger] list[i] == (#[trigger] all[p]) by {
            if p < rest.len() {
                assert(all[p] == rest[p]);
                let i = choose|i: int| 0 <= i < front.len() && #[trigger] front[i] == rest[p];
                assert(list[i] == all[p]);
            } else {
                assert(list[list.len() - 1] == all[p]);
            }
        }
        assert forall|k: int| 0 <= k < all.len() implies (#[trigger] all[k]).size == tally(
            s,
            in_cluster(all[k].cluster_id),
        ) by {
            let i = choose|i: int| 0 <= i < list.len() && #[trigger] list[i] == all[k];
            assert(list[i].size == tally(s, in_cluster(list[i].cluster_id)));
        }
        assert forall|j: int, k: int| 0 <= j < k < all.len() implies (
        #[trigger] all[j]).cluster_id != (#[trigger] all[k]).cluster_id by {
            assert(all[j] == rest[j]);
            if k < rest.len() {
                assert(all[k] == rest[k]);
            } else {
                let i = choose|i: int| 0 <= i < front.len() && #[trigger] front[i] == rest[j];
                assert(list[i] == rest[j]);
                assert(list[i].cluster_id != list[list.len() - 1].cluster_id);
            }
        }
    }
}

proof fn lemma_arranged_sized(
    list: Seq<GrowthCandidate>,
    s: Seq<(i64, int)>,
    keys: Seq<(i128, i128, i128)>,
)
    requires
        sized(list, s),
        keys.len() == list.len(),
        keys.len() <= usize::MAX,
    ensures
        sized(arranged(list, keys), s),
{
    lemma_order_of(keys);
    let order = order_of(keys);
    let after = arranged(list, keys);
    assert forall|k: int| 0 <= k < after.len() implies (#[trigger] after[k]).size == tally(
        s,
        in_cluster(after[k].cluster_id),
    ) by {
        assert(order[k] < keys.len());
        assert(list[order[k] as int].size == tally(
            s,
            in_cluster(list[order[k] as int].cluster_id),
        ));
    }
    assert forall|j: int, k: int| 0 <= j < k < after.len() implies (
    #[trigger] after[j]).cluster_id != (#[trigger] after[k]).cluster_id by {
        assert(order[j] < keys.len() && order[k] < keys.len());
        assert(before(keys, order[j] as int, order[k] as int));
        let (a, b) = (order[j] as int, order[k] as int);
        assert(a != b);
        if a < b {
            assert(list[a].cluster_id != list[b].cluster_id);
        } else {
            assert(list[b].cluster_id != list[a].cluster_id);
        }
    }
}

/// Candidates of different clusters.
proof fn lemma_candidates_sized(groups: Seq<i64>, s: Seq<(i64, int)>)
    requires
        s.len() <= usize::MAX,
        forall|j: int, k: int|
            0 <= j < k < groups.len() ==> #[trigger] groups[j] != #[trigger] groups[k],
    ensures
        sized(select(groups, candidate(s)), s),
        select(groups, candidate(s)).len() <= groups.len(),
        forall|p: int|
            0 <= p < select(groups, candidate(s)).len() ==> groups.contains(
                (#[trigger] select(groups, candidate(s))[p]).cluster_id,
            ),
    decreases groups.len(),
{
    if groups.len() > 0 {
        let front = groups.drop_last();
        assert forall|j: int, k: int| 0 <= j < k < front.len() implies #[trigger] front[j]
            != #[trigger] front[k] by {
            assert(front[j] == groups[j] && front[k] == groups[k]);
        }
        lemma_candidates_sized(front, s);
        let rest = select(front, candidate(s));
        let all = select(groups, candidate(s));
        let last = groups.last();
        assert(groups[groups.len() - 1] == last);
        lemma_tally_bound(s, in_cluster(last));
        assert forall|p: int| 0 <= p < all.len() implies groups.contains(
            (#[trigger] all[p]).cluster_id,
        ) by {
            if p < rest.len() {
                assert(all[p] == rest[p]);
                assert(front.contains(rest[p].cluster_id));
                let i = choose|i: int| 0 <= i < front.len() && front[i] == rest[p].cluster_id;
                assert(groups[i] == all[p].cluster_id);
            }
        }
        assert forall|k: int| 0 <= k < all.len() implies (#[trigger] all[k]).size == tally(
            s,
            in_cluster(all[k].cluster_id),
        ) by {
            if k < rest.len() {
                assert(all[k] == rest[k]);
            }
        }
        assert forall|j: int, k: int| 0 <= j < k < all.len() implies (
        #[trigger] all[j]).cluster_id != (#[trigger] all[k]).cluster_id by {
            assert(all[j] == rest[j]);
            if k < rest.len() {
                assert(all[k] == rest[k]);
            } else {
                assert(front.contains(rest[j].cluster_id));
                let i = choose|i: int| 0 <= i < front.len() && front[i] == rest[j].cluster_id;
                assert(groups[i] != groups[groups.len() - 1]);
            }
        }
    }
}

/// What is offered to a person are different clusters, of the sizes they have.
proof fn lemma_offers_sized(lib: LibraryView, identity: i64)
    requires
        lib.faces.len() <= usize::MAX,
    ensures
        sized(offers(lib, identity), scored(lib, identity)),
        scored(lib, identity).len() <= lib.faces.len(),
{
    let found = candidates_for(lib, identity);
    let s = scored(lib, identity);
    lemma_select_len(lib.faces, group_embedding());
    lemma_select_len(
        scores(
            unit_rows(core_of(anchor(lib.faces, identity, ANCHOR_FACES as int))),
            units_of(pool(lib)),
            clusters_of(pool(lib)),
        ),
        not_own(Some(identity_key(identity))),
    );
    if unit_rows(core_of(anchor(lib.faces, identity, ANCHOR_FACES as int))).len() != 0 {
        let groups = distinct(scored_clusters(s));
        lemma_distinct(scored_clusters(s));
        lemma_candidates_sized(groups, s);
        assert(found == select(groups, candidate(s)));
    }
    lemma_arranged_sized(found, s, found.map_values(by_match()));
    lemma_kept_sized(
        arranged(found, found.map_values(by_match())),
        s,
        offered(lib, identity),
    );
}

/// Whether someone else matches the cluster decisively better.
fn is_decisively_other(all: &Vec<Hit>, cluster: i64, identity: i64, sim: i128) -> (r: bool)
    ensures
        r == decisively_other(all@, cluster, identity, sim),
{
    if sim > i128::MAX - AUTO_FOLD_MARGIN {
        return false;
    }
    let bar: i128 = sim + AUTO_FOLD_MARGIN;
    for k in 0..all.len()
        invariant
            bar == sim + AUTO_FOLD_MARGIN,
            forall|j: int|
                0 <= j < k ==> !((#[trigger] all@[j]).cluster_id == cluster && all@[j].identity_id
                    != identity && all@[j].sim > sim + AUTO_FOLD_MARGIN),
    {
        let h = all[k];
        if h.cluster_id == cluster && h.identity_id != identity && h.sim > bar {
            assert(all@[k as int].sim > sim + AUTO_FOLD_MARGIN);
            return true;
        }
    }
    false
}

/// What may be offered to an identity, strongest match first.
fn find_offers(
    lib: &Library,
    fm: &FaceMatrix,
    all: &Vec<Hit>,
    group_photos: &HashMap<i64, HashSet<i64>>,
    identity_photos: &HashMap<i64, HashSet<i64>>,
    identity: i64,
) -> (out: Vec<GrowthCandidate>)
    requires
        fm.wf(),
        fm.units() == units_of(pool(lib@)),
        fm.clusters() == clusters_of(pool(lib@)),
        all@ == all_hits(lib@),
        gathers(group_photos@, select(lib@.faces, group_photo())),
        gathers(identity_photos@, select(lib@.faces, confirmed_photo())),
    ensures
        out@ == offers(lib@, identity),
{
    let found = find_candidates(lib, fm, identity);
    let mut keys: Vec<(i128, i128, i128)> = Vec::with_capacity(found.len());
    for k in 0..found.len()
        invariant
            keys@ == found@.map_values(by_match()).take(k as int),
    {
        keys.push((found[k].max_sim, 0, 0));
        assert(keys@ =~= found@.map_values(by_match()).take(k + 1));
    }
    assert(keys@ =~= found@.map_values(by_match()));
    let sorted = arrange(&found, &keys);
    let mut out: Vec<GrowthCandidate> = Vec::new();
    for k in 0..sorted.len()
        invariant
            all@ == all_hits(lib@),
            gathers(group_photos@, select(lib@.faces, group_photo())),
            gathers(identity_photos@, select(lib@.faces, confirmed_photo())),
            out@ == kept(sorted@.take(k as int), offered(lib@, identity)),
    {
        assert(sorted@.take(k + 1).drop_last() == sorted@.take(k as int));
        let c = sorted[k];
        proof {
            lemma_together(lib@, group_photos@, identity_photos@, c.cluster_id, identity);
        }
        if c.cluster_id >= 0 && !cooccurs(group_photos, c.cluster_id, identity_photos, identity)
            && !is_decisively_other(all, c.cluster_id, identity, c.max_sim) {
            out.push(c);
        }
    }
    assert(sorted@.take(sorted@.len() as int) == sorted@);
    out
}

/// Every person with something on offer.
fn find_pending(lib: &Library) -> (out: Vec<Pending>)
    ensures
        views(out@) == pending(lib@),
{
    let people = named_identities(lib);
    let faces = face_cluster_embeddings(lib);
    let fm = FaceMatrix::pack(&faces);
    let all = find_hits(lib, &fm);
    let (group_photos, identity_photos) = cooccurrence_maps(lib);
    let ghost names = views(people@);
    let mut out: Vec<Pending> = Vec::new();
    assert(views(out@) =~= select(names.take(0), pending_person(lib@)));
    for k in 0..people.len()
        invariant
            fm.wf(),
            fm.units() == units_of(pool(lib@)),
            fm.clusters() == clusters_of(pool(lib@)),
            all@ == all_hits(lib@),
            gathers(group_photos@, select(lib@.faces, group_photo())),
            gathers(identity_photos@, select(lib@.faces, confirmed_photo())),
            names == views(people@),
            views(out@) == select(names.take(k as int), pending_person(lib@)),
    {
        assert(names.take(k + 1).drop_last() == names.take(k as int));
        assert(names[k as int] == people@[k as int]@);
        let id: i64 = people[k].0;
        let exemplars = confirmed_anchor_embeddings(lib, id, ANCHOR_FACES);
        assert(exemplars@.len() == rows(exemplars@).len());
        if exemplars.len() >= MIN_ANCHOR {
            let offer = find_offers(lib, &fm, &all, &group_photos, &identity_photos, id);
            if offer.len() > 0 {
                out.push(Pending { identity_id: id, name: people[k].1.clone(), candidates: offer });
            }
        }
        assert(views(out@) =~= select(names.take(k + 1), pending_person(lib@)));
    }
    assert(names.take(names.len() as int) == names);
    out
}

/// The claims of every person.
fn list_claims(people: &Vec<Pending>) -> (out: Vec<Claim>)
    ensures
        out@ == claims(views(people@), people@.len()),
{
    let mut out: Vec<Claim> = Vec::new();
    let ghost p = views(people@);
    for n in 0..people.len()
        invariant
            p == views(people@),
            out@ == claims(p, n as nat),
    {
        assert(p[n as int] == people@[n as int]@);
        let ghost before = out@;
        let ghost more = p[n as int].candidates.map_values(claim_by(n));
        assert(before + more.take(0) =~= before);
        let len: usize = people[n].candidates.len();
        for k in 0..len
            invariant
                n < people@.len(),
                len == people@[n as int].candidates@.len(),
                more == people@[n as int].candidates@.map_values(claim_by(n)),
                out@ == before + more.take(k as int),
        {
            let c = people[n].candidates[k];
            out.push(Claim { cluster_id: c.cluster_id, by: n, size: c.size, sim: c.max_sim });
            assert(out@ =~= before + more.take(k + 1));
        }
        assert(more.take(more.len() as int) =~= more);
    }
    out
}

/// Whether two or more people claim the cluster.
fn is_contested(all: &Vec<Claim>, cluster: i64) -> (r: bool)
    ensures
        r == contested(all@, cluster),
{
    let mut n: usize = 0;
    for k in 0..all.len()
        invariant
            n == tally(all@.take(k as int), claims_on(cluster)),
            n <= k,
    {
        assert(all@.take(k + 1).drop_last() == all@.take(k as int));
        if all[k].cluster_id == cluster {
            n = n + 1;
        }
    }
    assert(all@.take(all@.len() as int) == all@);
    n >= 2
}

fn chip_of(lib: &Library, c: GrowthCandidate) -> (g: GrowthCluster)
    requires
        c.size <= i64::MAX,
    ensures
        g == chip(lib@.faces)(c),
{
    let top = top_face_ids(lib, c.cluster_id, 1);
    assert(top@.len() > 0 <==> ranked_faces(lib@.faces, c.cluster_id).len() > 0);
    let face_id: Option<i64> = if top.len() > 0 {
        Some(top[0])
    } else {
        None
    };
    GrowthCluster {
        cluster_id: c.cluster_id,
        face_id,
        photos: c.size as i64,
        similarity: c.max_sim,
    }
}

/// The review tail: chips by payoff, capped.
fn tail(chips: &Vec<GrowthCluster>) -> (out: Vec<GrowthCluster>)
    ensures
        out@ == tail_of(chips@),
{
    let mut keys: Vec<(i128, i128, i128)> = Vec::with_capacity(chips.len());
    for k in 0..chips.len()
        invariant
            keys@ == chips@.map_values(by_photos()).take(k as int),
    {
        keys.push((chips[k].photos as i128, 0, 0));
        assert(keys@ =~= chips@.map_values(by_photos()).take(k + 1));
    }
    assert(keys@ =~= chips@.map_values(by_photos()));
    let mut out = arrange(chips, &keys);
    limit_to(&mut out, MAX_MAYBE as i64);
    out
}

/// A person's growth card, unless everything on offer is contested.
fn make_card(lib: &Library, p: &Pending, all: &Vec<Claim>, Ghost(s): Ghost<Seq<(i64, int)>>) -> (out:
    Option<IdentityGrowth>)
    requires
        lib.wf(),
        sized(p.candidates@, s),
        s.len() <= i64::MAX,
    ensures
        match card_of(lib@, all@)(p@) {
            Some(c) => out matches Some(g) && g@ == c,
            None => out is None,
        },
{
    let ghost own = kept(p.candidates@, uncontested(all@));
    let mut strong_clusters: Vec<i64> = Vec::new();
    let mut strong_groups: Vec<GrowthCluster> = Vec::new();
    let mut strong_faces: Vec<i64> = Vec::new();
    let mut strong_photos: i64 = 0;
    let mut weak: Vec<GrowthCluster> = Vec::new();
    let mut photos: i64 = 0;
    let mut any = false;
    let ghost ids = |c: GrowthCandidate| c.cluster_id;
    proof {
        lemma_kept_sized(p.candidates@, s, uncontested(all@));
        lemma_total(own, s);
        let e = kept(p.candidates@.take(0), uncontested(all@));
        assert(strong_clusters@ =~= kept(e, strong()).map_values(ids));
        assert(strong_groups@ =~= kept(e, strong()).map_values(chip(lib@.faces)));
        assert(weak@ =~= kept(e, uncertain()).map_values(chip(lib@.faces)));
        assert(strong_faces@ =~= limited(select(strong_groups@, face_on()), 4));
    }
    for k in 0..p.candidates.len()
        invariant
            sized(p.candidates@, s),
            s.len() <= i64::MAX,
            own == kept(p.candidates@, uncontested(all@)),
            total(own) <= s.len(),
            ids == (|c: GrowthCandidate| c.cluster_id),
            ({
                let seen = kept(p.candidates@.take(k as int), uncontested(all@));
                let sure = kept(seen, strong());
                let rest = kept(seen, uncertain());
                &&& any == (seen.len() > 0)
                &&& strong_clusters@ == sure.map_values(ids)
                &&& strong_groups@ == sure.map_values(chip(lib@.faces))
                &&& strong_faces@ == limited(select(strong_groups@, face_on()), 4)
                &&& strong_photos == total(sure)
                &&& weak@ == rest.map_values(chip(lib@.faces))
                &&& photos == total(seen)
                &&& 0 <= strong_photos <= photos
            }),
    {
        let ghost seen = kept(p.candidates@.take(k as int), uncontested(all@));
        let ghost sure = kept(seen, strong());
        let ghost rest = kept(seen, uncertain());
        let c = p.candidates[k];
        proof {
            assert(p.candidates@.take(k + 1).drop_last() == p.candidates@.take(k as int));
        }
        if !is_contested(all, c.cluster_id) {
            let ghost now = seen.push(c);
            proof {
                assert(kept(p.candidates@.take(k + 1), uncontested(all@)) == now);
                assert(now.drop_last() =~= seen);
                lemma_prefix_total(p.candidates@, uncontested(all@), (k + 1) as nat);
                lemma_tally_bound(s, in_cluster(c.cluster_id));
                assert(p.candidates@[k as int].size == tally(s, in_cluster(c.cluster_id)));
                assert(total(now) == total(seen) + c.size);
            }
            any = true;
            photos = photos + c.size as i64;
            let one = chip_of(lib, c);
            if c.max_sim >= STRONG {
                let ghost before = strong_groups@;
                strong_clusters.push(c.cluster_id);
                strong_groups.push(one);
                strong_photos = strong_photos + c.size as i64;
                proof {
                    assert(kept(now, strong()) == sure.push(c));
                    assert(sure.push(c).drop_last() =~= sure);
                    assert(strong_clusters@ =~= sure.push(c).map_values(ids));
                    assert(strong_groups@ =~= sure.push(c).map_values(chip(lib@.faces)));
                    assert(strong_groups@.drop_last() =~= before);
                }
                if strong_faces.len() < 4 {
                    if let Some(f) = one.face_id {
                        strong_faces.push(f);
                    }
                }
                assert(strong_faces@ =~= limited(select(strong_groups@, face_on()), 4));
            } else {
                weak.push(one);
                assert(kept(now, uncertain()) == rest.push(c));
                assert(weak@ =~= rest.push(c).map_values(chip(lib@.faces)));
            }
        }
    }
    assert(p.candidates@.take(p.candidates@.len() as int) == p.candidates@);
    if !any {
        return None;
    }
    let into: i64 = key_of(p.identity_id);
    Some(
        IdentityGrowth {
            identity_id: p.identity_id,
            name: p.name.clone(),
            into,
            anchor_faces: top_face_ids(lib, into, 4),
            strong_clusters,
            strong_groups,
            strong_faces,
            strong_photos,
            maybe: tail(&weak),
            photos,
            generation: 0,
        },
    )
}

/// What is kept of a prefix adds up to no more than what is kept of all.
proof fn lemma_prefix_total(
    list: Seq<GrowthCandidate>,
    test: spec_fn(GrowthCandidate) -> bool,
    n: nat,
)
    requires
        n <= list.len(),
    ensures
        total(kept(list.take(n as int), test)) <= total(kept(list, test)),
    decreases list.len() - n,
{
    if n < list.len() {
        lemma_prefix_total(list, test, n + 1);
        let now = list.take(n as int + 1);
        assert(now.drop_last() =~= list.take(n as int));
        let rest = kept(list.take(n as int), test);
        if test(now.last()) {
            assert(rest.push(now.last()).drop_last() =~= rest);
        }
    } else {
        assert(list.take(n as int) =~= list);
    }
}

/// Claims name persons of the list.
spec fn claims_within(all: Seq<Claim>, n: nat) -> bool {
    forall|k: int| 0 <= k < all.len() ==> (#[trigger] all[k]).by < n
}

proof fn lemma_claims_within(p: Seq<PendingView>, n: nat)
    requires
        n <= p.len(),
        p.len() <= usize::MAX,
    ensures
        claims_within(claims(p, n), n),
    decreases n,
{
    if n > 0 {
        lemma_claims_within(p, (n - 1) as nat);
        let was = claims(p, (n - 1) as nat);
        let all = claims(p, n);
        assert forall|k: int| 0 <= k < all.len() implies (#[trigger] all[k]).by < n by {
            if k < was.len() {
                assert(all[k] == was[k]);
            }
        }
    }
}

/// The claimants of a cluster, as candidate answers.
fn list_claimants(lib: &Library, people: &Vec<Pending>, all: &Vec<Claim>, cluster: i64) -> (out: Vec<
    WhoCandidate,
>)
    requires
        claims_within(all@, people@.len()),
    ensures
        views(out@) == ({
            let answers = select(all@, claimant(lib@, views(people@), cluster));
            limited(arranged(answers, answers.map_values(likeliest())), 3)
        }),
{
    let ghost pick = claimant(lib@, views(people@), cluster);
    let mut found: Vec<WhoCandidate> = Vec::new();
    let mut keys: Vec<(i128, i128, i128)> = Vec::new();
    assert(views(found@) =~= select(all@.take(0), pick));
    assert(keys@ =~= views(found@).map_values(likeliest()));
    for k in 0..all.len()
        invariant
            claims_within(all@, people@.len()),
            pick == claimant(lib@, views(people@), cluster),
            views(found@) == select(all@.take(k as int), pick),
            keys@ == views(found@).map_values(likeliest()),
    {
        assert(all@.take(k + 1).drop_last() == all@.take(k as int));
        let c = all[k];
        if c.cluster_id == cluster {
            assert(all@[k as int].by < people@.len());
            let person = &people[c.by];
            assert(views(people@)[c.by as int] == person@);
            let into: i64 = key_of(person.identity_id);
            found.push(
                WhoCandidate {
                    identity_id: person.identity_id,
                    name: person.name.clone(),
                    into,
                    anchor_faces: top_face_ids(lib, into, 2),
                    similarity: c.sim,
                },
            );
            keys.push((c.sim, 0, 0));
        }
        assert(views(found@) =~= select(all@.take(k + 1), pick));
        assert(keys@ =~= views(found@).map_values(likeliest()));
    }
    assert(all@.take(all@.len() as int) == all@);
    let ghost held = found@;
    let mut out = arrange_owned(found, &keys);
    proof {
        assert(keys.len() <= usize::MAX);
        lemma_arranged_views(held, keys@);
    }
    let ghost whole = out@;
    limit_to(&mut out, 3);
    assert(views(out@) =~= limited(views(whole), 3));
    out
}

/// The size last claimed for a cluster.
fn find_claimed_size(all: &Vec<Claim>, cluster: i64) -> (n: usize)
    ensures
        n == claimed_size(all@, cluster),
{
    let mut i: usize = all.len();
    assert(all@.take(i as int) == all@);
    while i > 0
        invariant
            i <= all@.len(),
            claimed_size(all@, cluster) == claimed_size(all@.take(i as int), cluster),
        decreases i,
    {
        i = i - 1;
        assert(all@.take(i + 1).drop_last() == all@.take(i as int));
        if all[i].cluster_id == cluster {
            return all[i].size;
        }
    }
    0
}

/// Claimed sizes fit in an `i64`.
spec fn claims_fit(all: Seq<Claim>) -> bool {
    forall|k: int| 0 <= k < all.len() ==> (#[trigger] all[k]).size <= i64::MAX
}

proof fn lemma_claimed_size_fits(all: Seq<Claim>, cluster: i64)
    requires
        claims_fit(all),
    ensures
        claimed_size(all, cluster) <= i64::MAX,
    decreases all.len(),
{
    if all.len() > 0 {
        assert(all[all.len() - 1] == all.last());
        assert(claims_fit(all.drop_last())) by {
            assert forall|k: int| 0 <= k < all.drop_last().len() implies (
            #[trigger] all.drop_last()[k]).size <= i64::MAX by {
                assert(all.drop_last()[k] == all[k]);
            }
        }
        lemma_claimed_size_fits(all.drop_last(), cluster);
    }
}

/// The pending list of a library, and the bounds its sizes keep.
proof fn lemma_pending_sized(lib: LibraryView, n: nat)
    requires
        lib.faces.len() <= usize::MAX,
        n <= pending(lib).len(),
    ensures
        forall|k: int|
            0 <= k < n ==> {
                let p = #[trigger] pending(lib)[k];
                sized(p.candidates, scored(lib, p.identity_id)) && scored(
                    lib,
                    p.identity_id,
                ).len() <= lib.faces.len()
            },
{
    let names = select(lib.identities, named());
    assert forall|k: int| 0 <= k < n implies {
        let p = #[trigger] pending(lib)[k];
        sized(p.candidates, scored(lib, p.identity_id)) && scored(lib, p.identity_id).len()
            <= lib.faces.len()
    } by {
        lemma_select_from(names, pending_person(lib), k);
        let i = choose|i: int|
            0 <= i < names.len() && pending_person(lib)(#[trigger] names[i]) == Some(
                pending(lib)[k],
            );
        lemma_offers_sized(lib, names[i].0);
    }
}

/// What a person is offered adds up to no more than all faces, and to each cluster its size.
pub proof fn lemma_offer_totals(
    lib: LibraryView,
    identity: i64,
    f: spec_fn(GrowthCandidate) -> bool,
    g: spec_fn(GrowthCandidate) -> bool,
)
    requires
        lib.faces.len() <= usize::MAX,
    ensures
        0 <= total(kept(offers(lib, identity), f)) <= lib.faces.len(),
        0 <= total(kept(kept(offers(lib, identity), f), g)) <= lib.faces.len(),
        forall|j: int, k: int|
            0 <= j < k < offers(lib, identity).len() ==> (#[trigger] offers(
                lib,
                identity,
            )[j]).cluster_id != (#[trigger] offers(lib, identity)[k]).cluster_id,
{
    let s = scored(lib, identity);
    lemma_offers_sized(lib, identity);
    lemma_kept_sized(offers(lib, identity), s, f);
    lemma_kept_sized(kept(offers(lib, identity), f), s, g);
    lemma_total(kept(offers(lib, identity), f), s);
    lemma_total(kept(kept(offers(lib, identity), f), g), s);
}

proof fn lemma_claims_fit(lib: LibraryView, n: nat)
    requires
        lib.faces.len() <= i64::MAX,
        lib.faces.len() <= usize::MAX,
        n <= pending(lib).len(),
    ensures
        claims_fit(claims(pending(lib), n)),
    decreases n,
{
    if n > 0 {
        lemma_claims_fit(lib, (n - 1) as nat);
        lemma_pending_sized(lib, n);
        let was = claims(pending(lib), (n - 1) as nat);
        let all = claims(pending(lib), n);
        let p = pending(lib)[n - 1];
        assert forall|k: int| 0 <= k < all.len() implies (#[trigger] all[k]).size
            <= i64::MAX by {
            if k < was.len() {
                assert(all[k] == was[k]);
            } else {
                let c = p.candidates[k - was.len()];
                let s = scored(lib, p.identity_id);
                assert(c.size == tally(s, in_cluster(c.cluster_id)));
                lemma_tally_bound(s, in_cluster(c.cluster_id));
            }
        }
    }
}

/// For each named person, the over-split fragments that confidently match them, split
/// by confidence; and the clusters two or more people claim, as "who is this?"
/// questions. Empty until the sweep has settled.
pub fn compute_identity_growth(lib: &Library) -> (r: (Vec<IdentityGrowth>, Vec<ReviewItem>))
    requires
        lib.wf(),
    ensures
        views(r.0@) == growth_of(lib@),
        views(r.1@) == who_of(lib@),
{
    if !is_settled(lib) {
        let cards: Vec<IdentityGrowth> = Vec::new();
        let who: Vec<ReviewItem> = Vec::new();
        assert(views(cards@) =~= growth_of(lib@));
        assert(views(who@) =~= who_of(lib@));
        return (cards, who);
    }
    let people = find_pending(lib);
    let all = list_claims(&people);
    let ghost p = pending(lib@);
    proof {
        lemma_counts_fit(lib@);
        assert(lib.faces.len() <= usize::MAX);
        assert(people.len() <= usize::MAX);
        lemma_pending_sized(lib@, p.len());
        lemma_claims_within(p, p.len());
        lemma_claims_fit(lib@, p.len());
    }
    let ghost pick = card_of(lib@, all@);
    let mut cards: Vec<IdentityGrowth> = Vec::new();
    let mut keys: Vec<(i128, i128, i128)> = Vec::new();
    assert(views(cards@) =~= select(p.take(0), pick));
    assert(keys@ =~= views(cards@).map_values(by_impact()));
    for k in 0..people.len()
        invariant
            lib.wf(),
            p == pending(lib@),
            p == views(people@),
            lib@.faces.len() <= i64::MAX,
            forall|k: int|
                0 <= k < p.len() ==> {
                    let x = #[trigger] p[k];
                    sized(x.candidates, scored(lib@, x.identity_id)) && scored(
                        lib@,
                        x.identity_id,
                    ).len() <= lib@.faces.len()
                },
            pick == card_of(lib@, all@),
            views(cards@) == select(p.take(k as int), pick),
            keys@ == views(cards@).map_values(by_impact()),
    {
        assert(p.take(k + 1).drop_last() == p.take(k as int));
        assert(p[k as int] == people@[k as int]@);
        let card = make_card(
            lib,
            &people[k],
            &all,
            Ghost(scored(lib@, people@[k as int].identity_id)),
        );
        if let Some(c) = card {
            keys.push((c.photos as i128, 0, 0));
            cards.push(c);
        }
        assert(views(cards@) =~= select(p.take(k + 1), pick));
        assert(keys@ =~= views(cards@).map_values(by_impact()));
    }
    assert(p.take(p.len() as int) == p);
    let ghost held = cards@;
    let growth = arrange_owned(cards, &keys);
    proof {
        assert(keys.len() <= usize::MAX);
        lemma_arranged_views(held, keys@);
    }
    let who = list_who(lib, &people, &all);
    (growth, who)
}

/// The "who is this?" cards.
fn list_who(lib: &Library, people: &Vec<Pending>, all: &Vec<Claim>) -> (who: Vec<ReviewItem>)
    requires
        claims_within(all@, people@.len()),
        claims_fit(all@),
    ensures
        views(who@) == select(
            claimed_clusters(all@),
            who_card(lib@, views(people@), all@),
        ),
{
    let mut list: Vec<i64> = Vec::with_capacity(all.len());
    for i in 0..all.len()
        invariant
            list@ == all@.map_values(|c: Claim| c.cluster_id).take(i as int),
    {
        list.push(all[i].cluster_id);
        assert(list@ =~= all@.map_values(|c: Claim| c.cluster_id).take(i + 1));
    }
    assert(list@ =~= all@.map_values(|c: Claim| c.cluster_id));
    let clusters = without_repeats(&list);
    let ghost pick = who_card(lib@, views(people@), all@);
    let mut who: Vec<ReviewItem> = Vec::new();
    assert(views(who@) =~= select(clusters@.take(0), pick));
    for k in 0..clusters.len()
        invariant
            claims_within(all@, people@.len()),
            claims_fit(all@),
            pick == who_card(lib@, views(people@), all@),
            views(who@) == select(clusters@.take(k as int), pick),
    {
        assert(clusters@.take(k + 1).drop_last() == clusters@.take(k as int));
        let cid: i64 = clusters[k];
        if is_contested(all, cid) {
            proof {
                lemma_claimed_size_fits(all@, cid);
            }
            who.push(
                ReviewItem::WhoIsThis {
                    photos: find_claimed_size(all, cid) as i64,
                    cluster_id: cid,
                    group_faces: top_face_ids(lib, cid, 3),
                    candidates: list_claimants(lib, people, all, cid),
                },
            );
        }
        assert(views(who@) =~= select(clusters@.take(k + 1), pick));
    }
    assert(clusters@.take(clusters@.len() as int) == clusters@);
    who
}

} // verus!
