//! Merge suggestions: likely over-splits, found from face-to-face evidence.
//!
//! Two groups that appear in one photo are two people, and are never suggested. Where
//! they look like one person all the same, the contradiction is raised as a question
//! that shows the shared photo: a collage and twins are told apart by a human glance.

use std::collections::{HashMap, HashSet};

use vstd::prelude::*;

use crate::cluster::{contains_pair, pair};
use crate::cooccurrence::{cooccurrence_maps, cooccurs, gathers, share_photo};
use crate::evidence::{
    all_evidence, clusters_of, corroborated, cross_pairs, evidence_for, keys_of, merge_evidence,
    strongest, units_of, PairEvidence,
};
use crate::groups::{
    face_cluster_embeddings, group_identity, group_is_other_named_person, group_name,
    group_photo, group_size, identity_of_group, in_group, name_of_group, other_named,
    ranked_faces, top_face_ids,
};
use crate::library::{lemma_counts_fit, Library, LibraryView};
use crate::links::{cooccurring, cooccurring_face_pairs};
use crate::order::{arrange, arrange_owned, arranged, lemma_arranged_views, limit_to, limited};
use crate::photos::{is_settled, settled};
use crate::recognition::pool;
use crate::review::{
    MergeSuggestion, MergeSuggestionView, ReviewItem, ReviewItemView, TwinPair, TwinPairView,
};
use crate::rows::{
    distinct, lemma_next_row, lemma_select_from, select, tally, views, without_repeats,
};
use crate::similarity::{isqrt, root};
use crate::text::copy_opt;

verus! {

/// Two co-occurring groups must look at least this alike before the same-photo
/// contradiction is raised as a question.
pub const SAME_PHOTO_ASK_MIN: i128 = 700_000_000_000;

/// How many of the strongest cluster pairs are considered.
pub const MAX_SUGGESTIONS: i64 = 20;

/// The merge evidence of a library.
pub open spec fn evidence_of(lib: LibraryView) -> Seq<PairEvidence> {
    select(
        all_evidence(cross_pairs(units_of(pool(lib)), clusters_of(pool(lib)), pool(lib).len())),
        corroborated(),
    )
}

/// How many faces a group holds.
pub open spec fn size_of(lib: LibraryView, group: i64) -> int {
    tally(lib.faces, in_group(group)) as int
}

/// At most the largest `i128`.
pub open spec fn capped(x: int) -> i128 {
    if x > i128::MAX {
        i128::MAX
    } else {
        x as i128
    }
}

/// Evidence strength times impact: the best cross-pair similarity, weighted by how many
/// pairs corroborate it, times the square root (in thousandths) of the combined size.
pub open spec fn leverage(lib: LibraryView) -> spec_fn(PairEvidence) -> (i128, i128, i128) {
    |e: PairEvidence|
        {
            let strength = capped(e.max_sim * e.pairs);
            let impact = root((size_of(lib, e.a) + size_of(lib, e.b)) * 1_000_000);
            (capped(strength * impact), 0, 0)
        }
}

/// Picks the evidence whose groups both exist.
pub open spec fn shown(lib: LibraryView) -> spec_fn(PairEvidence) -> Option<PairEvidence> {
    |e: PairEvidence|
        if size_of(lib, e.a) > 0 && size_of(lib, e.b) > 0 {
            Some(e)
        } else {
            None
        }
}

/// The strongest evidence, by leverage.
pub open spec fn strongest_evidence(lib: LibraryView) -> Seq<PairEvidence> {
    let all = select(evidence_of(lib), shown(lib));
    limited(arranged(all, all.map_values(leverage(lib))), MAX_SUGGESTIONS as int)
}

/// The larger group and the smaller one.
pub open spec fn sides(lib: LibraryView, e: PairEvidence) -> (i64, i64) {
    if size_of(lib, e.a) >= size_of(lib, e.b) {
        (e.a, e.b)
    } else {
        (e.b, e.a)
    }
}

/// The user has said that the two groups are not the same person.
pub open spec fn declared_other(lib: LibraryView, a: i64, b: i64) -> bool {
    group_identity(a) is Some && group_identity(b) is Some && lib.cannot_link.contains(
        pair(group_identity(a)->0, group_identity(b)->0),
    )
}

/// Two groups have a photo in common.
pub open spec fn groups_together(lib: LibraryView, a: i64, b: i64) -> bool {
    exists|p: i64| #[trigger]
        select(lib.faces, group_photo()).contains((a, p)) && select(
            lib.faces,
            group_photo(),
        ).contains((b, p))
}

/// The question is closed: both sides are named, or the user has said no.
pub open spec fn closed_question(lib: LibraryView, big: i64, small: i64) -> bool {
    ||| name_of_group(lib, big) is Some && name_of_group(lib, small) is Some
    ||| declared_other(lib, big, small)
}

/// Picks the suggestion a pair of groups makes.
pub open spec fn suggestion(lib: LibraryView) -> spec_fn(PairEvidence) -> Option<
    MergeSuggestionView,
> {
    |e: PairEvidence|
        {
            let (big, small) = sides(lib, e);
            if closed_question(lib, big, small) || groups_together(lib, e.a, e.b) {
                None
            } else {
                Some(
                    MergeSuggestionView {
                        into: big,
                        from: small,
                        into_faces: limited(ranked_faces(lib.faces, big), 4),
                        from_faces: limited(ranked_faces(lib.faces, small), 4),
                        into_name: name_of_group(lib, big),
                        similarity: e.max_sim,
                        photos: size_of(lib, small) as i64,
                        generation: 0,
                    },
                )
            }
        }
}

/// Picks the same-photo contradiction a pair of groups makes: the shared photo and the
/// contested pair. A pair whose "same person" answer would be refused is not asked.
pub open spec fn contradiction(lib: LibraryView) -> spec_fn(PairEvidence) -> Option<
    (i64, TwinPairView),
> {
    |e: PairEvidence|
        {
            let (big, small) = sides(lib, e);
            let shared = cooccurring(lib.faces, big, small, lib.faces.len());
            if !closed_question(lib, big, small) && groups_together(lib, e.a, e.b) && e.max_sim
                >= SAME_PHOTO_ASK_MIN && !other_named(lib, small, group_identity(big))
                && shared.len() > 0 {
                Some(
                    (
                        shared[0].0,
                        TwinPairView {
                            into: big,
                            from: small,
                            into_name: name_of_group(lib, big),
                            face_a: shared[0].1,
                            face_b: shared[0].2,
                            similarity: e.max_sim,
                            photos: size_of(lib, small) as i64,
                        },
                    ),
                )
            } else {
                None
            }
        }
}

/// The merge suggestions of a library.
pub open spec fn suggestions_of(lib: LibraryView) -> Seq<MergeSuggestionView> {
    if settled(lib) {
        select(strongest_evidence(lib), suggestion(lib))
    } else {
        Seq::empty()
    }
}

/// The photos of contradictions.
pub open spec fn twin_photos(pairs: Seq<(i64, TwinPairView)>) -> Seq<i64> {
    distinct(pairs.map_values(|p: (i64, TwinPairView)| p.0))
}

/// Picks the contested pairs of a photo.
pub open spec fn twins_in(photo: i64) -> spec_fn((i64, TwinPairView)) -> Option<TwinPairView> {
    |p: (i64, TwinPairView)|
        if p.0 == photo {
            Some(p.1)
        } else {
            None
        }
}

/// How contested pairs are ranked: biggest payoff first.
pub open spec fn by_twin_photos() -> spec_fn(TwinPairView) -> (i128, i128, i128) {
    |p: TwinPairView| (p.photos as i128, 0, 0)
}

/// The payoff of a card: that of its pairs together, at most the largest `i64`.
pub open spec fn twin_payoff(pairs: Seq<TwinPairView>) -> i64
    decreases pairs.len(),
{
    if pairs.len() == 0 {
        0
    } else {
        let sum = twin_payoff(pairs.drop_last()) + pairs.last().photos;
        if sum > i64::MAX {
            i64::MAX
        } else if sum < i64::MIN {
            i64::MIN
        } else {
            sum as i64
        }
    }
}

/// The card of a photo: every contested pair in it.
pub open spec fn twin_card(pairs: Seq<(i64, TwinPairView)>) -> spec_fn(i64) -> ReviewItemView {
    |photo: i64|
        {
            let on = select(pairs, twins_in(photo));
            let sorted = arranged(on, on.map_values(by_twin_photos()));
            ReviewItemView::SamePhotoTwin {
                photos: twin_payoff(sorted),
                photo_id: photo,
                pairs: sorted,
            }
        }
}

/// The same-photo cards of a library, one per photo.
pub open spec fn twins_of(lib: LibraryView) -> Seq<ReviewItemView> {
    if settled(lib) {
        let pairs = select(strongest_evidence(lib), contradiction(lib));
        twin_photos(pairs).map_values(twin_card(pairs))
    } else {
        Seq::empty()
    }
}

/// `a` times `b`, at most the largest `i128`.
fn capped_product(a: i128, b: i128) -> (c: i128)
    requires
        0 <= a,
        0 <= b,
    ensures
        c == capped(a * b),
        0 <= c,
{
    proof {
        assert(a * b >= 0) by (nonlinear_arith)
            requires
                0 <= a,
                0 <= b,
        ;
    }
    match a.checked_mul(b) {
        Some(c) => c,
        None => i128::MAX,
    }
}

/// The strongest evidence, by leverage.
fn rank_evidence(lib: &Library) -> (out: Vec<PairEvidence>)
    requires
        lib.wf(),
    ensures
        out@ == strongest_evidence(lib@),
{
    let faces = face_cluster_embeddings(lib);
    let evidence = merge_evidence(&faces);
    assert(evidence@ == evidence_of(lib@));
    let mut all: Vec<PairEvidence> = Vec::new();
    let mut keys: Vec<(i128, i128, i128)> = Vec::new();
    proof {
        lemma_counts_fit(lib@);
    }
    assert(keys@ =~= all@.map_values(leverage(lib@)));
    for k in 0..evidence.len()
        invariant
            lib@.faces.len() <= i64::MAX,
            evidence@ == evidence_of(lib@),
            all@ == select(evidence@.take(k as int), shown(lib@)),
            keys@ == all@.map_values(leverage(lib@)),
    {
        assert(evidence@.take(k + 1).drop_last() == evidence@.take(k as int));
        let e = evidence[k];
        let ca: usize = group_size(lib, e.a);
        let cb: usize = group_size(lib, e.b);
        if ca > 0 && cb > 0 {
            proof {
                lemma_evidence_sim(lib@, k as int);
            }
            let strength: i128 = capped_product(e.max_sim, e.pairs as i128);
            let impact: i128 = isqrt((ca as i128 + cb as i128) * 1_000_000);
            all.push(e);
            keys.push((capped_product(strength, impact), 0, 0));
            assert(keys@ =~= all@.map_values(leverage(lib@)));
        }
    }
    assert(evidence@.take(evidence@.len() as int) == evidence@);
    let mut out = arrange(&all, &keys);
    limit_to(&mut out, MAX_SUGGESTIONS);
    out
}

/// Similarities of evidence are not negative.
proof fn lemma_evidence_sim(lib: LibraryView, k: int)
    requires
        0 <= k < evidence_of(lib).len(),
    ensures
        evidence_of(lib)[k].max_sim >= 0,
{
    let pairs = cross_pairs(units_of(pool(lib)), clusters_of(pool(lib)), pool(lib).len());
    let all = all_evidence(pairs);
    lemma_select_from(all, corroborated(), k);
    let i = choose|i: int|
        0 <= i < all.len() && corroborated()(#[trigger] all[i]) == Some(evidence_of(lib)[k]);
    let key = distinct(keys_of(pairs))[i];
    assert(all[i] == evidence_for(pairs, key));
    lemma_strongest_floor(pairs, key);
}

proof fn lemma_strongest_floor(pairs: Seq<((i64, i64), i128)>, key: (i64, i64))
    ensures
        strongest(pairs, key) >= 0,
    decreases pairs.len(),
{
    if pairs.len() > 0 {
        lemma_strongest_floor(pairs.drop_last(), key);
    }
}

/// What a pair of groups makes: a suggestion, a contradiction, or nothing.
enum Verdict {
    Suggest(MergeSuggestion),
    Ask(i64, TwinPair),
    Nothing,
}

proof fn lemma_groups_together(
    lib: LibraryView,
    groups: Map<i64, HashSet<i64>>,
    a: i64,
    b: i64,
)
    requires
        gathers(groups, select(lib.faces, group_photo())),
    ensures
        share_photo(groups, a, groups, b) == groups_together(lib, a, b),
{
    let gs = select(lib.faces, group_photo());
    if share_photo(groups, a, groups, b) {
        let p = choose|p: i64| #[trigger] groups[a]@.contains(p) && groups[b]@.contains(p);
        assert(gs.contains((a, p)));
        assert(gs.contains((b, p)));
    }
    if groups_together(lib, a, b) {
        let p = choose|p: i64| #[trigger] gs.contains((a, p)) && gs.contains((b, p));
        let i = choose|i: int| 0 <= i < gs.len() && gs[i] == (a, p);
        let j = choose|j: int| 0 <= j < gs.len() && gs[j] == (b, p);
        assert(groups.contains_key(gs[i].0));
        assert(groups.contains_key(gs[j].0));
        assert(groups[a]@.contains(p));
        assert(groups[b]@.contains(p));
    }
}

fn judge(lib: &Library, photos: &HashMap<i64, HashSet<i64>>, e: PairEvidence) -> (v: Verdict)
    requires
        lib.wf(),
        gathers(photos@, select(lib@.faces, group_photo())),
    ensures
        match v {
            Verdict::Suggest(s) => suggestion(lib@)(e) == Some(s@) && contradiction(lib@)(
                e,
            ) is None,
            Verdict::Ask(photo, t) => suggestion(lib@)(e) is None && contradiction(lib@)(e)
                == Some((photo, t@)),
            Verdict::Nothing => suggestion(lib@)(e) is None && contradiction(lib@)(e) is None,
        },
{
    let ca: usize = group_size(lib, e.a);
    let cb: usize = group_size(lib, e.b);
    let (big, small) = if ca >= cb {
        (e.a, e.b)
    } else {
        (e.b, e.a)
    };
    let count: usize = if ca >= cb {
        cb
    } else {
        ca
    };
    proof {
        lemma_counts_fit(lib@);
        lemma_groups_together(lib@, photos@, e.a, e.b);
        assert((big, small) == sides(lib@, e));
        assert(count == size_of(lib@, small));
    }
    let into_name = group_name(lib, big);
    // Merging two *named* people is only ever an explicit action.
    if into_name.is_some() && group_name(lib, small).is_some() {
        return Verdict::Nothing;
    }
    // Skip a pair the user has already declared "not the same".
    if let (Some(ia), Some(ib)) = (identity_of_group(big), identity_of_group(small)) {
        if contains_pair(&lib.cannot_link, ia, ib) {
            return Verdict::Nothing;
        }
    }
    if cooccurs(photos, e.a, photos, e.b) {
        if e.max_sim < SAME_PHOTO_ASK_MIN || group_is_other_named_person(
            lib,
            small,
            identity_of_group(big),
        ) {
            return Verdict::Nothing;
        }
        let shared = cooccurring_face_pairs(lib, big, small);
        if shared.len() == 0 {
            return Verdict::Nothing;
        }
        let (photo_id, fa, fb) = shared[0];
        return Verdict::Ask(
            photo_id,
            TwinPair {
                into: big,
                from: small,
                into_name,
                face_a: fa,
                face_b: fb,
                similarity: e.max_sim,
                photos: count as i64,
            },
        );
    }
    Verdict::Suggest(
        MergeSuggestion {
            into: big,
            from: small,
            into_faces: top_face_ids(lib, big, 4),
            from_faces: top_face_ids(lib, small, 4),
            into_name,
            similarity: e.max_sim,
            photos: count as i64,
            generation: 0,
        },
    )
}

fn copy_twin(p: &TwinPair) -> (c: TwinPair)
    ensures
        c@ == p@,
{
    TwinPair {
        into: p.into,
        from: p.from,
        into_name: copy_opt(&p.into_name),
        face_a: p.face_a,
        face_b: p.face_b,
        similarity: p.similarity,
        photos: p.photos,
    }
}

/// The contested pairs of a photo, biggest payoff first.
fn twins_on(pairs: &Vec<(i64, TwinPair)>, photo: i64) -> (out: Vec<TwinPair>)
    ensures
        views(out@) == ({
            let on = select(views(pairs@), twins_in(photo));
            arranged(on, on.map_values(by_twin_photos()))
        }),
{
    let ghost all = views(pairs@);
    let mut on: Vec<TwinPair> = Vec::new();
    let mut keys: Vec<(i128, i128, i128)> = Vec::new();
    assert(views(on@) =~= select(all.take(0), twins_in(photo)));
    assert(keys@ =~= views(on@).map_values(by_twin_photos()));
    for k in 0..pairs.len()
        invariant
            all == views(pairs@),
            views(on@) == select(all.take(k as int), twins_in(photo)),
            keys@ == views(on@).map_values(by_twin_photos()),
    {
        assert(all.take(k + 1).drop_last() == all.take(k as int));
        assert(all[k as int] == pairs@[k as int]@);
        if pairs[k].0 == photo {
            keys.push((pairs[k].1.photos as i128, 0, 0));
            on.push(copy_twin(&pairs[k].1));
        }
        assert(views(on@) =~= select(all.take(k + 1), twins_in(photo)));
        assert(keys@ =~= views(on@).map_values(by_twin_photos()));
    }
    assert(all.take(all.len() as int) == all);
    let ghost held = on@;
    let out = arrange_owned(on, &keys);
    proof {
        assert(keys.len() <= usize::MAX);
        lemma_arranged_views(held, keys@);
    }
    out
}

/// The payoff of contested pairs together.
fn payoff_of(pairs: &Vec<TwinPair>) -> (n: i64)
    ensures
        n == twin_payoff(views(pairs@)),
{
    let ghost all = views(pairs@);
    let mut n: i64 = 0;
    for k in 0..pairs.len()
        invariant
            all == views(pairs@),
            n == twin_payoff(all.take(k as int)),
    {
        assert(all.take(k + 1).drop_last() == all.take(k as int));
        assert(all[k as int] == pairs@[k as int]@);
        let sum: i128 = n as i128 + pairs[k].photos as i128;
        n = if sum > i64::MAX as i128 {
            i64::MAX
        } else if sum < i64::MIN as i128 {
            i64::MIN
        } else {
            sum as i64
        };
    }
    assert(all.take(all.len() as int) == all);
    n
}

/// One card per photo, every contested pair on it.
fn twin_cards(pairs: &Vec<(i64, TwinPair)>) -> (out: Vec<ReviewItem>)
    ensures
        views(out@) == twin_photos(views(pairs@)).map_values(twin_card(views(pairs@))),
{
    let ghost all = views(pairs@);
    let ghost photo_of = |p: (i64, TwinPairView)| p.0;
    let mut list: Vec<i64> = Vec::with_capacity(pairs.len());
    for k in 0..pairs.len()
        invariant
            all == views(pairs@),
            photo_of == (|p: (i64, TwinPairView)| p.0),
            list@ == all.map_values(photo_of).take(k as int),
    {
        assert(all[k as int] == pairs@[k as int]@);
        list.push(pairs[k].0);
        assert(list@ =~= all.map_values(photo_of).take(k + 1));
    }
    assert(list@ =~= all.map_values(photo_of));
    let photos = without_repeats(&list);
    let ghost goal = twin_photos(all).map_values(twin_card(all));
    let mut out: Vec<ReviewItem> = Vec::with_capacity(photos.len());
    assert(views(out@) =~= goal.take(0));
    for k in 0..photos.len()
        invariant
            all == views(pairs@),
            photos@ == twin_photos(all),
            goal == twin_photos(all).map_values(twin_card(all)),
            views(out@) == goal.take(k as int),
    {
        let sorted = twins_on(pairs, photos[k]);
        let ghost was = out@;
        out.push(
            ReviewItem::SamePhotoTwin {
                photos: payoff_of(&sorted),
                photo_id: photos[k],
                pairs: sorted,
            },
        );
        proof {
            assert(out@.drop_last() =~= was);
            lemma_next_row(was, out@, goal, k as int);
        }
    }
    assert(views(out@) =~= goal);
    out
}

/// Find likely over-splits from **face-to-face** evidence, ranked by leverage. The
/// larger group is the "into" side. Also returns the same-photo contradictions: pairs
/// the co-occurrence rule blocks even though the faces look like one person. Empty until
/// the sweep has settled.
pub fn compute_merge_suggestions(lib: &Library) -> (r: (Vec<MergeSuggestion>, Vec<ReviewItem>))
    requires
        lib.wf(),
    ensures
        views(r.0@) == suggestions_of(lib@),
        views(r.1@) == twins_of(lib@),
{
    let mut out: Vec<MergeSuggestion> = Vec::new();
    if !is_settled(lib) {
        let none: Vec<ReviewItem> = Vec::new();
        assert(views(out@) =~= suggestions_of(lib@));
        assert(views(none@) =~= twins_of(lib@));
        return (out, none);
    }
    let ranked = rank_evidence(lib);
    let (photos, _) = cooccurrence_maps(lib);
    let mut pairs: Vec<(i64, TwinPair)> = Vec::new();
    assert(views(out@) =~= select(ranked@.take(0), suggestion(lib@)));
    assert(views(pairs@) =~= select(ranked@.take(0), contradiction(lib@)));
    for k in 0..ranked.len()
        invariant
            lib.wf(),
            gathers(photos@, select(lib@.faces, group_photo())),
            views(out@) == select(ranked@.take(k as int), suggestion(lib@)),
            views(pairs@) == select(ranked@.take(k as int), contradiction(lib@)),
    {
        assert(ranked@.take(k + 1).drop_last() == ranked@.take(k as int));
        match judge(lib, &photos, ranked[k]) {
            Verdict::Suggest(s) => {
                out.push(s);
            },
            Verdict::Ask(photo, t) => {
                pairs.push((photo, t));
            },
            Verdict::Nothing => {},
        }
        assert(views(out@) =~= select(ranked@.take(k + 1), suggestion(lib@)));
        assert(views(pairs@) =~= select(ranked@.take(k + 1), contradiction(lib@)));
    }
    assert(ranked@.take(ranked@.len() as int) == ranked@);
    let twins = twin_cards(&pairs);
    (out, twins)
}

} // verus!
