//! The recognition engine: what turns clustered faces into automatic folds.
//!
//! Every match is to a *confirmed* person, never cluster to cluster, and people
//! compete: a group goes to a person only if it matches them decisively better than
//! anyone else. A near-tie is left for review.

use vstd::prelude::*;

use crate::cluster::{lookup, lookup_last};
use crate::confirmations::{
    anchor, at_least, clear_tentative, clear_unconfirmed_identities,
    confirmed_anchor_embeddings, confirmed_identity_ids, confirmed_person, confirmed_photo,
    copy_vec, fold_eligible_identities,
};
use crate::cooccurrence::{cooccurrence_maps, cooccurs, gathers, share_photo};
use crate::evidence::{clusters_of, units_of};
use crate::groups::{face_cluster_embeddings, free_in, free_size, group_embedding, group_photo};
use crate::library::{
    identity_key, key_of, mark_faces, Face, FaceMarks, FaceView, Library, LibraryView,
};
use crate::looks::{group_looks, led, lemma_first_fit, lemma_led_within, nested};
use crate::magnet::{candidates, FaceMatrix, GrowthCandidate};
use crate::order::{arrange, arranged};
use crate::photos::{is_settled, settled};
use crate::rows::{
    distinct, holds, lemma_distinct, lemma_next_row, select, tally, views, without_repeats,
};
use crate::similarity::{rows, unit_rows};

verus! {

/// The evidence floor: only an identity with at least this many *confirmed* faces may
/// absorb look-alikes, generate suggestions, or be a "looks like" target.
pub const MIN_ANCHOR: usize = 4;

/// Minimum confirmed faces for an identity to *compete*. Lower than [`MIN_ANCHOR`] on
/// purpose: a competitor can only ever push a face into review.
pub const COMPETITOR_MIN: usize = 1;

/// How similar a candidate must be to a confirmed anchor before it is folded in without
/// asking.
pub const AUTO_FOLD_MIN: i128 = 600_000_000_000;

/// How much the best-matching person must beat the runner-up before a cluster is
/// auto-assigned.
pub const AUTO_FOLD_MARGIN: i128 = 60_000_000_000;

/// Similarity used to find an anchor's dominant appearance when trimming it to a core.
pub const ANCHOR_CORE_TAU: i128 = 500_000_000_000;

/// How many exemplars an anchor holds at most.
pub const ANCHOR_FACES: i64 = 64;

/// The last of the biggest groups among the first `n`.
pub open spec fn biggest(groups: Seq<Seq<usize>>, n: nat) -> int
    decreases n,
{
    if n <= 1 {
        0
    } else {
        let best = biggest(groups, (n - 1) as nat);
        if groups[n - 1].len() >= groups[best].len() {
            n - 1
        } else {
            best
        }
    }
}

/// The vectors a group lists.
pub open spec fn members(embs: Seq<Seq<i32>>, group: Seq<usize>) -> Seq<Seq<i32>> {
    group.map_values(|i: usize| embs[i as int])
}

/// The dominant appearance of an anchor, where a clear majority has it.
pub open spec fn core_of(embs: Seq<Seq<i32>>) -> Seq<Seq<i32>> {
    if embs.len() < 6 {
        embs
    } else {
        let groups = led(unit_rows(embs), ANCHOR_CORE_TAU as int, embs.len());
        let dominant = groups[biggest(groups, groups.len())];
        if dominant.len() * 2 > embs.len() {
            members(embs, dominant)
        } else {
            embs
        }
    }
}

pub proof fn lemma_biggest(groups: Seq<Seq<usize>>, n: nat)
    requires
        1 <= n <= groups.len(),
    ensures
        0 <= biggest(groups, n) < n,
        forall|k: int| 0 <= k < n ==> (#[trigger] groups[k]).len() <= groups[biggest(groups, n)].len(),
    decreases n,
{
    if n > 1 {
        lemma_biggest(groups, (n - 1) as nat);
    }
}

/// Where the last of the biggest groups stands.
pub fn find_biggest(groups: &Vec<Vec<usize>>) -> (at: usize)
    requires
        groups@.len() > 0,
    ensures
        at == biggest(nested(groups@), groups@.len()),
        at < groups@.len(),
{
    let mut at: usize = 0;
    for n in 1..groups.len()
        invariant
            groups@.len() > 0,
            at < n,
            at == biggest(nested(groups@), n as nat),
    {
        assert(nested(groups@)[n as int] == groups@[n as int]@);
        assert(nested(groups@)[at as int] == groups@[at as int]@);
        if groups[n].len() >= groups[at].len() {
            at = n;
        }
    }
    at
}

/// Copies of the vectors a group lists.
pub fn gather(embs: &Vec<Vec<i32>>, group: &Vec<usize>) -> (out: Vec<Vec<i32>>)
    requires
        forall|p: int| 0 <= p < group@.len() ==> #[trigger] group@[p] < embs@.len(),
    ensures
        rows(out@) == members(rows(embs@), group@),
{
    let mut out: Vec<Vec<i32>> = Vec::with_capacity(group.len());
    let ghost goal = members(rows(embs@), group@);
    for p in 0..group.len()
        invariant
            forall|p: int| 0 <= p < group@.len() ==> #[trigger] group@[p] < embs@.len(),
            goal == members(rows(embs@), group@),
            rows(out@) == goal.take(p as int),
    {
        assert(group@[p as int] < embs@.len());
        let ghost was = rows(out@);
        let one = copy_vec(&embs[group[p]]);
        out.push(one);
        assert(rows(out@) =~= was.push(rows(embs@)[group@[p as int] as int]));
        assert(goal.take(p + 1) =~= goal.take(p as int).push(goal[p as int]));
    }
    assert(rows(out@) =~= goal);
    out
}

pub proof fn lemma_led_some(m: Seq<Seq<i32>>, tau: int, n: nat)
    requires
        n > 0,
    ensures
        led(m, tau, n).len() > 0,
    decreases n,
{
    let earlier = led(m, tau, (n - 1) as nat);
    lemma_first_fit(m, tau, earlier, n - 1, 0);
    if n > 1 {
        lemma_led_some(m, tau, (n - 1) as nat);
    }
}

/// A cleaned "core" of an identity's anchor: only the dominant appearance group, so a
/// few outliers can't drag the anchor off the person. The full set when there's no clear
/// majority, or too few exemplars to bother.
pub fn anchor_core(embs: Vec<Vec<i32>>) -> (out: Vec<Vec<i32>>)
    ensures
        rows(out@) == core_of(rows(embs@)),
{
    if embs.len() < 6 {
        return embs;
    }
    let groups = group_looks(&embs, ANCHOR_CORE_TAU);
    let ghost m = unit_rows(rows(embs@));
    proof {
        lemma_led_some(m, ANCHOR_CORE_TAU as int, embs@.len());
        lemma_led_within(m, ANCHOR_CORE_TAU as int, embs@.len());
        assert(nested(groups@).len() > 0);
    }
    let at = find_biggest(&groups);
    assert(nested(groups@)[at as int] == groups@[at as int]@);
    let dominant = &groups[at];
    if dominant.len() as u128 * 2 > embs.len() as u128 {
        assert forall|p: int| 0 <= p < dominant@.len() implies #[trigger] dominant@[p]
            < embs@.len() by {
            assert(nested(groups@)[at as int][p] < embs@.len());
        }
        gather(&embs, dominant)
    } else {
        embs
    }
}

/// A cluster matches a confirmed identity this well.
#[derive(Clone, Copy)]
pub struct Hit {
    pub cluster_id: i64,
    pub identity_id: i64,
    pub sim: i128,
}

/// The grouped faces of a library: id, group, embedding.
pub open spec fn pool(lib: LibraryView) -> Seq<(i64, i64, Seq<i32>)> {
    select(lib.faces, group_embedding())
}

/// The clusters that confidently match an identity's anchor.
pub open spec fn candidates_for(lib: LibraryView, identity: i64) -> Seq<GrowthCandidate> {
    candidates(
        unit_rows(core_of(anchor(lib.faces, identity, ANCHOR_FACES as int))),
        units_of(pool(lib)),
        clusters_of(pool(lib)),
        Some(identity_key(identity)),
    )
}

/// A candidate as a hit of an identity.
pub open spec fn hit(identity: i64) -> spec_fn(GrowthCandidate) -> Hit {
    |c: GrowthCandidate| Hit { cluster_id: c.cluster_id, identity_id: identity, sim: c.max_sim }
}

/// The hits of the first `n` identities.
pub open spec fn hits(lib: LibraryView, ids: Seq<i64>, n: nat) -> Seq<Hit>
    decreases n,
{
    if n == 0 {
        Seq::empty()
    } else {
        hits(lib, ids, (n - 1) as nat) + candidates_for(lib, ids[n - 1]).map_values(hit(ids[n - 1]))
    }
}

/// Every hit of a confirmed identity.
pub open spec fn all_hits(lib: LibraryView) -> Seq<Hit> {
    let ids = distinct(select(lib.faces, confirmed_person()));
    hits(lib, ids, ids.len())
}

/// Picks the hits on a cluster: identity and similarity.
pub open spec fn hit_on(cluster: i64) -> spec_fn(Hit) -> Option<(i64, i128)> {
    |h: Hit|
        if h.cluster_id == cluster {
            Some((h.identity_id, h.sim))
        } else {
            None
        }
}

/// How matches are ranked: most similar first.
pub open spec fn most_similar() -> spec_fn((i64, i128)) -> (i128, i128, i128) {
    |m: (i64, i128)| (m.1, 0, 0)
}

/// How well a cluster matches each identity, best first.
pub open spec fn matches_of(all: Seq<Hit>, cluster: i64) -> Seq<(i64, i128)> {
    let on = select(all, hit_on(cluster));
    arranged(on, on.map_values(most_similar()))
}

/// The clusters of a list of hits.
pub open spec fn hit_clusters(all: Seq<Hit>) -> Seq<i64> {
    distinct(all.map_values(|h: Hit| h.cluster_id))
}

/// The matches of every cluster that has any.
pub open spec fn match_table(all: Seq<Hit>) -> Seq<(i64, Seq<(i64, i128)>)> {
    hit_clusters(all).map_values(|c: i64| (c, matches_of(all, c)))
}

/// The hits of every confirmed identity. Each competes, named or not: a face that looks
/// like a rejected look-alike is pulled toward that competitor.
pub fn find_hits(lib: &Library, fm: &FaceMatrix) -> (out: Vec<Hit>)
    requires
        fm.wf(),
        fm.units() == units_of(pool(lib@)),
        fm.clusters() == clusters_of(pool(lib@)),
    ensures
        out@ == all_hits(lib@),
{
    let ids = confirmed_identity_ids(lib);
    let mut out: Vec<Hit> = Vec::new();
    for n in 0..ids.len()
        invariant
            fm.wf(),
            fm.units() == units_of(pool(lib@)),
            fm.clusters() == clusters_of(pool(lib@)),
            out@ == hits(lib@, ids@, n as nat),
    {
        let id: i64 = ids[n];
        let found = find_candidates(lib, fm, id);
        let ghost before = out@;
        let ghost more = found@.map_values(hit(id));
        for k in 0..found.len()
            invariant
                more == found@.map_values(hit(id)),
                out@ == before + more.take(k as int),
        {
            let c = found[k];
            out.push(Hit { cluster_id: c.cluster_id, identity_id: id, sim: c.max_sim });
            assert(out@ =~= before + more.take(k + 1));
        }
        assert(more.take(found@.len() as int) =~= more);
    }
    out
}

/// The clusters that confidently match an identity's anchor. Without confirmed evidence
/// there are none.
pub fn find_candidates(lib: &Library, fm: &FaceMatrix, identity: i64) -> (out: Vec<GrowthCandidate>)
    requires
        fm.wf(),
        fm.units() == units_of(pool(lib@)),
        fm.clusters() == clusters_of(pool(lib@)),
    ensures
        out@ == candidates_for(lib@, identity),
{
    let exemplars = confirmed_anchor_embeddings(lib, identity, ANCHOR_FACES);
    let trimmed = anchor_core(exemplars);
    fm.identity_candidates(&trimmed, Some(key_of(identity)))
}

/// The matches of a cluster, best first.
fn rank_matches(all: &Vec<Hit>, cluster: i64) -> (out: Vec<(i64, i128)>)
    ensures
        out@ == matches_of(all@, cluster),
{
    let mut on: Vec<(i64, i128)> = Vec::new();
    let mut keys: Vec<(i128, i128, i128)> = Vec::new();
    assert(keys@ =~= on@.map_values(most_similar()));
    for i in 0..all.len()
        invariant
            on@ == select(all@.take(i as int), hit_on(cluster)),
            keys@ == on@.map_values(most_similar()),
    {
        assert(all@.take(i + 1).drop_last() == all@.take(i as int));
        if all[i].cluster_id == cluster {
            on.push((all[i].identity_id, all[i].sim));
            keys.push((all[i].sim, 0, 0));
            assert(keys@ =~= on@.map_values(most_similar()));
        }
    }
    assert(all@.take(all@.len() as int) == all@);
    arrange(&on, &keys)
}

/// For every candidate cluster, how well it matches *each confirmed identity* (named or
/// not), best first: the shared basis for auto-fold and review.
pub fn cluster_identity_matches(lib: &Library) -> (out: Vec<(i64, Vec<(i64, i128)>)>)
    ensures
        views(out@) == match_table(all_hits(lib@)),
{
    let faces = face_cluster_embeddings(lib);
    let fm = FaceMatrix::pack(&faces);
    let all = find_hits(lib, &fm);
    let clusters = clusters_hit(&all);
    let mut out: Vec<(i64, Vec<(i64, i128)>)> = Vec::with_capacity(clusters.len());
    let ghost goal = match_table(all@);
    assert(views(out@) =~= goal.take(0));
    for k in 0..clusters.len()
        invariant
            clusters@ == hit_clusters(all@),
            goal == match_table(all@),
            views(out@) == goal.take(k as int),
    {
        let ranked = rank_matches(&all, clusters[k]);
        let ghost was = out@;
        out.push((clusters[k], ranked));
        proof {
            assert(out@.drop_last() =~= was);
            lemma_next_row(was, out@, goal, k as int);
        }
    }
    assert(views(out@) =~= goal);
    out
}

fn clusters_hit(all: &Vec<Hit>) -> (out: Vec<i64>)
    ensures
        out@ == hit_clusters(all@),
{
    let mut list: Vec<i64> = Vec::with_capacity(all.len());
    for i in 0..all.len()
        invariant
            list@ == all@.map_values(|h: Hit| h.cluster_id).take(i as int),
    {
        list.push(all[i].cluster_id);
        assert(list@ =~= all@.map_values(|h: Hit| h.cluster_id).take(i + 1));
    }
    assert(list@ =~= all@.map_values(|h: Hit| h.cluster_id));
    without_repeats(&list)
}

/// The identity a cluster is decisively a match of, if any: an appearance group whose
/// best match clears [`AUTO_FOLD_MIN`], beats the runner-up by [`AUTO_FOLD_MARGIN`], has
/// enough confirmed evidence to absorb, and was never photographed with it.
pub open spec fn fold_target(
    cluster: i64,
    ranked: Seq<(i64, i128)>,
    eligible: Seq<i64>,
    together: spec_fn(i64, i64) -> bool,
) -> Option<i64> {
    let (best, sim) = ranked[0];
    if cluster < 0 || ranked.len() == 0 {
        None
    } else if sim < AUTO_FOLD_MIN {
        None
    } else if ranked.len() > 1 && sim - ranked[1].1 < AUTO_FOLD_MARGIN {
        None
    } else if !eligible.contains(best) || together(cluster, best) {
        None
    } else {
        Some(best)
    }
}

/// The group and the identity's confirmed faces have a photo in common.
pub open spec fn photographed_together(lib: LibraryView) -> spec_fn(i64, i64) -> bool {
    |cluster: i64, identity: i64|
        exists|p: i64| #[trigger]
            select(lib.faces, group_photo()).contains((cluster, p)) && select(
                lib.faces,
                confirmed_photo(),
            ).contains((identity, p))
}

/// The identities with enough confirmed faces to absorb.
pub open spec fn absorbers(lib: LibraryView) -> Seq<i64> {
    let all = select(lib.faces, confirmed_person());
    select(distinct(all), at_least(all, MIN_ANCHOR as int))
}

/// Picks a cluster and the identity it folds into.
pub open spec fn fold_of(lib: LibraryView) -> spec_fn((i64, Seq<(i64, i128)>)) -> Option<
    (i64, i64),
> {
    |m: (i64, Seq<(i64, i128)>)|
        match fold_target(m.0, m.1, absorbers(lib), photographed_together(lib)) {
            Some(identity) => Some((m.0, identity)),
            None => None,
        }
}

/// The folds of a library without tentative labels: `(cluster, identity)`.
pub open spec fn folds(lib: LibraryView) -> Seq<(i64, i64)> {
    select(match_table(all_hits(lib)), fold_of(lib))
}

/// Puts the free faces of folded clusters under their identities, tentatively. A face the
/// user vouched for is never the machine's to label.
pub open spec fn fold_marks(pairs: Seq<(i64, i64)>) -> spec_fn(FaceView) -> FaceMarks {
    |f: FaceView|
        if f.marks.identity_id is None && !f.marks.confirmed && f.marks.cluster_id is Some {
            match lookup(pairs, f.marks.cluster_id->0) {
                Some(identity) => FaceMarks { identity_id: Some(identity), ..f.marks },
                None => f.marks,
            }
        } else {
            f.marks
        }
}

/// The machine may fold: the sweep is done and someone is confirmed.
pub open spec fn may_fold(lib: LibraryView) -> bool {
    settled(lib) && select(lib.faces, confirmed_person()).len() > 0
}

/// The library after a fold pass: the tentative labels are wiped and derived anew.
pub open spec fn refolded(lib: LibraryView) -> LibraryView {
    if may_fold(lib) {
        let free = lib.with_marks(clear_tentative());
        free.with_marks(fold_marks(folds(free)))
    } else {
        lib
    }
}

/// Tests for a fold that reaches a face.
pub open spec fn reaches(lib: LibraryView) -> spec_fn((i64, i64)) -> bool {
    |p: (i64, i64)| tally(lib.faces, free_in(p.0)) > 0
}

/// How many clusters a fold pass folds in.
pub open spec fn fold_count(lib: LibraryView) -> nat {
    if may_fold(lib) {
        let free = lib.with_marks(clear_tentative());
        tally(folds(free), reaches(free))
    } else {
        0
    }
}

pub proof fn lemma_together(
    lib: LibraryView,
    groups: Map<i64, std::collections::HashSet<i64>>,
    persons: Map<i64, std::collections::HashSet<i64>>,
    cluster: i64,
    identity: i64,
)
    requires
        gathers(groups, select(lib.faces, group_photo())),
        gathers(persons, select(lib.faces, confirmed_photo())),
    ensures
        share_photo(groups, cluster, persons, identity) == photographed_together(lib)(
            cluster,
            identity,
        ),
{
    let gs = select(lib.faces, group_photo());
    let ps = select(lib.faces, confirmed_photo());
    if share_photo(groups, cluster, persons, identity) {
        let p = choose|p: i64| #[trigger]
            groups[cluster]@.contains(p) && persons[identity]@.contains(p);
        assert(gs.contains((cluster, p)));
        assert(ps.contains((identity, p)));
    }
    if photographed_together(lib)(cluster, identity) {
        let p = choose|p: i64| #[trigger] gs.contains((cluster, p)) && ps.contains((identity, p));
        let i = choose|i: int| 0 <= i < gs.len() && gs[i] == (cluster, p);
        let j = choose|j: int| 0 <= j < ps.len() && ps[j] == (identity, p);
        assert(groups.contains_key(gs[i].0));
        assert(persons.contains_key(ps[j].0));
        assert(groups[cluster]@.contains(p));
        assert(persons[identity]@.contains(p));
    }
}

/// The folds of a library without tentative labels.
fn find_folds(lib: &Library) -> (out: Vec<(i64, i64)>)
    ensures
        out@ == folds(lib@),
{
    let eligible = fold_eligible_identities(lib, MIN_ANCHOR as i64);
    let table = cluster_identity_matches(lib);
    let (group_photos, identity_photos) = cooccurrence_maps(lib);
    let mut out: Vec<(i64, i64)> = Vec::new();
    let ghost all = match_table(all_hits(lib@));
    for k in 0..table.len()
        invariant
            eligible@ == absorbers(lib@),
            all == match_table(all_hits(lib@)),
            views(table@) == all,
            gathers(group_photos@, select(lib@.faces, group_photo())),
            gathers(identity_photos@, select(lib@.faces, confirmed_photo())),
            out@ == select(all.take(k as int), fold_of(lib@)),
    {
        assert(all.take(k + 1).drop_last() == all.take(k as int));
        assert(all[k as int] == table@[k as int]@);
        let cluster: i64 = table[k].0;
        let ranked = &table[k].1;
        if cluster >= 0 && ranked.len() > 0 {
            let (best, sim) = ranked[0];
            let decisive = sim >= AUTO_FOLD_MIN && (ranked.len() < 2 || decisively(
                sim,
                ranked[1].1,
            ));
            if decisive && holds(&eligible, best) {
                proof {
                    lemma_together(lib@, group_photos@, identity_photos@, cluster, best);
                }
                if !cooccurs(&group_photos, cluster, &identity_photos, best) {
                    out.push((cluster, best));
                }
            }
        }
    }
    assert(all.take(all.len() as int) == all);
    out
}

/// The best match beats the runner-up by the margin.
fn decisively(best: i128, other: i128) -> (r: bool)
    ensures
        r == !(best - other < AUTO_FOLD_MARGIN),
{
    if other >= best {
        false
    } else if other < 0 && best >= 0 {
        // The difference may not fit; compare with the margin on one side.
        best >= AUTO_FOLD_MARGIN || best - AUTO_FOLD_MARGIN >= other
    } else {
        best - other >= AUTO_FOLD_MARGIN
    }
}

/// Fold every cluster that confidently matches a *confirmed* identity's anchor into that
/// identity. The machine's previous tentative labels are wiped and re-derived against
/// the confirmed exemplars, so a wrong fold corrects itself; clusters keep their ids.
/// Runs only on a settled library. Returns how many clusters folded in.
pub fn auto_fold_confident(lib: &mut Library) -> (folded: usize)
    requires
        old(lib).wf(),
    ensures
        final(lib)@ == refolded(old(lib)@),
        final(lib).wf(),
        folded == fold_count(old(lib)@),
{
    if !is_settled(lib) || confirmed_identity_ids(lib).len() == 0 {
        proof {
            lemma_distinct(select(lib@.faces, confirmed_person()));
            lemma_distinct_some(select(lib@.faces, confirmed_person()));
        }
        return 0;
    }
    proof {
        lemma_distinct(select(lib@.faces, confirmed_person()));
    }
    clear_unconfirmed_identities(lib);
    let pairs = find_folds(lib);
    let mut folded: usize = 0;
    for k in 0..pairs.len()
        invariant
            folded == tally(pairs@.take(k as int), reaches(lib@)),
            folded <= k,
    {
        assert(pairs@.take(k + 1).drop_last() == pairs@.take(k as int));
        if free_size(lib, pairs[k].0) > 0 {
            folded = folded + 1;
        }
    }
    assert(pairs@.take(pairs@.len() as int) == pairs@);
    let mark = |f: &Face| -> (m: FaceMarks)
        ensures
            m == fold_marks(pairs@)(f@),
        {
            if f.marks.identity_id.is_none() && !f.marks.confirmed {
                match f.marks.cluster_id {
                    Some(c) => match lookup_last(&pairs, c) {
                        Some(identity) => FaceMarks { identity_id: Some(identity), ..f.marks },
                        None => f.marks,
                    },
                    None => f.marks,
                }
            } else {
                f.marks
            }
        };
    mark_faces(lib, mark, Ghost(fold_marks(pairs@)));
    folded
}

proof fn lemma_distinct_some<A>(s: Seq<A>)
    ensures
        s.len() > 0 ==> distinct(s).len() > 0,
    decreases s.len(),
{
    if s.len() > 1 {
        lemma_distinct_some(s.drop_last());
    }
}

} // verus!
