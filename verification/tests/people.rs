//! Persons: identities, merges, corrections and their undo, folds and suggestions.

use solar::confirmations::{clear_unconfirmed_identities, cluster_has_foreign_confirmed};
use solar::cooccurrence::{box_iou, cooccurrence_maps, cooccurs, photo_constraints};
use solar::corrections;
use solar::corrections::{undo_correction, Refusal};
use solar::faces::{
    capture_face_states, restore_face_states, set_face_clusters, set_faces_person,
};
use solar::groups::{
    cluster_face_ids, clusters_overview, faces_in_photo, person_photos, top_face_ids,
};
use solar::growth::compute_identity_growth;
use solar::identities::{ensure_identity_for_cluster, identity_of_cluster, merge_clusters};
use solar::library::{Face, FaceBox, FaceMarks, Identity, Library, Photo, PhotoMarks};
use solar::links::{
    add_cannot_link_ids, add_same_photo_ok, cannot_link_exists, cannot_link_pairs,
    cooccurring_face_pairs, remove_cannot_link, same_photo_ok_pairs,
};
use solar::names::{
    cluster_for_name, group_called, group_for_name, identity_name, named_identities,
};
use solar::passes::rebuild_clusters;
use solar::person_looks::person_looks;
use solar::recognition::{anchor_core, auto_fold_confident, cluster_identity_matches};
use solar::review::{
    build_review_queue, GrowthCluster, IdentityGrowth, MergeSuggestion, ReviewItem,
    REVIEW_MIN_PHOTOS,
};
use solar::suggestion_cache::SuggestionCache;
use solar::suggestions::compute_merge_suggestions;

fn test_lib() -> Library {
    Library::new()
}

fn add_identity(lib: &mut Library, id: i64, name: Option<&str>) {
    lib.identities.push(Identity { id, name: name.map(|n| n.to_string()) });
    lib.identities.sort_by_key(|i| i.id);
}

/// A settled, face-scanned photo (the engines refuse to run mid-sweep).
fn add_photo(lib: &mut Library, id: i64) {
    lib.photos.push(Photo {
        id,
        path: format!("/p/{id}.jpg"),
        mtime: 0,
        size: 0,
        cache_key: String::new(),
        content_hash: None,
        marks: PhotoMarks {
            status: 1,
            taken_ts: None,
            seen: 0,
            faces_scanned: 1,
            favorite: false,
            hidden: false,
            gps: None,
            geo_scanned: false,
        },
    });
    lib.photos.sort_by_key(|p| p.id);
}

fn push_face(
    lib: &mut Library,
    id: i64,
    photo_id: i64,
    bbox: FaceBox,
    embedding: Vec<i32>,
    marks: FaceMarks,
) {
    lib.faces.push(Face { id, photo_id, bbox, score: 900_000, embedding, marks });
    lib.faces.sort_by_key(|f| f.id);
}

fn marks(cluster: i64, identity: Option<i64>, confirmed: bool) -> FaceMarks {
    FaceMarks { cluster_id: Some(cluster), identity_id: identity, ignored: false, confirmed }
}

fn insert_face(lib: &mut Library, id: i64, cluster: i64, identity: Option<i64>, confirmed: bool) {
    let bbox = FaceBox { x1: 0, y1: 0, x2: 1_000_000, y2: 1_000_000 };
    push_face(lib, id, 1, bbox, vec![0], marks(cluster, identity, confirmed));
}

fn add_face(
    lib: &mut Library,
    id: i64,
    photo: i64,
    cluster: i64,
    identity: Option<i64>,
    confirmed: bool,
    emb: &[f32],
) {
    let bbox = FaceBox { x1: 100_000, y1: 100_000, x2: 200_000, y2: 200_000 };
    push_face(lib, id, photo, bbox, fixed(emb), marks(cluster, identity, confirmed));
}

fn fixed(v: &[f32]) -> Vec<i32> {
    v.iter().map(|x| (x * 1_000_000.0).round() as i32).collect()
}

/// A unit vector on `axis` with a small per-`k` wobble: one synthetic person.
/// Wobble lands on dims axis+1..axis+6, so axes 8 or more apart never bleed together.
fn near(axis: usize, k: usize) -> Vec<f32> {
    let dim = 16;
    let mut v = vec![0.0f32; dim];
    v[axis] = 1.0;
    v[(axis + 1 + k) % dim] += 0.03 * (k as f32 + 1.0);
    let n = v.iter().map(|x| x * x).sum::<f32>().sqrt();
    v.iter().map(|x| x / n).collect()
}

fn face(lib: &Library, id: i64) -> &Face {
    lib.faces.iter().find(|f| f.id == id).unwrap()
}

fn identity_of_face(lib: &Library, id: i64) -> Option<i64> {
    face(lib, id).marks.identity_id
}

fn cluster_of_face(lib: &Library, id: i64) -> Option<i64> {
    face(lib, id).marks.cluster_id
}

fn confirmed_of(lib: &Library, id: i64) -> bool {
    face(lib, id).marks.confirmed
}

/// Merging a BIG cluster into a small one must not let the big side's plurality hijack the
/// small side's confirmed identity.
#[test]
fn merge_transfers_from_side_but_never_steals_other_confirmed() {
    let mut lib = test_lib();
    add_identity(&mut lib, 1, Some("Mía"));
    add_identity(&mut lib, 2, Some("Camila"));
    add_identity(&mut lib, 3, Some("Lianny"));
    // Mía: 2 confirmed faces in cluster 10. A stray confirmed Lianny face also
    // sits in cluster 10 (transient states like this exist mid-correction).
    insert_face(&mut lib, 1, 10, Some(1), true);
    insert_face(&mut lib, 2, 10, Some(1), true);
    insert_face(&mut lib, 8, 10, Some(3), true);
    // Camila: 5 confirmed faces in cluster 20 (the bigger side), plus one
    // tentative machine-labeled face.
    for f in 3..=7 {
        insert_face(&mut lib, f, 20, Some(2), true);
    }
    insert_face(&mut lib, 9, 20, Some(2), false);

    // Explicit user merge: fold Camila's cluster INTO Mía's.
    merge_clusters(&mut lib, 10, 20);

    // Mía's confirmed faces keep HER identity.
    assert_eq!(identity_of_face(&lib, 1), Some(1));
    assert_eq!(identity_of_face(&lib, 2), Some(1));
    // The from-side faces transfer to Mía: that's what the merge means.
    for f in [3, 4, 5, 6, 7, 9] {
        assert_eq!(identity_of_face(&lib, f), Some(1), "face {f} should now be Mía");
    }
    // The stray confirmed Lianny face is untouched: never stolen by a merge.
    assert_eq!(identity_of_face(&lib, 8), Some(3));
}

/// Ensuring an identity must bind unclaimed/tentative faces without re-stamping faces the
/// user confirmed under a different identity.
#[test]
fn ensure_identity_leaves_foreign_confirmed_faces_alone() {
    let mut lib = test_lib();
    add_identity(&mut lib, 1, Some("Omar"));
    add_identity(&mut lib, 2, Some("Kevin"));
    insert_face(&mut lib, 1, 10, Some(1), true); // Omar, confirmed (plurality)
    insert_face(&mut lib, 2, 10, Some(1), true);
    insert_face(&mut lib, 6, 10, Some(1), true);
    insert_face(&mut lib, 3, 10, None, false); // unclaimed
    insert_face(&mut lib, 4, 10, Some(2), true); // Kevin, confirmed: must survive
    insert_face(&mut lib, 5, 10, Some(2), false); // tentative Kevin: rebindable

    let id = ensure_identity_for_cluster(&mut lib, 10);
    assert_eq!(id, 1, "plurality identity is reused, no duplicate minted");
    assert_eq!(identity_of_face(&lib, 3), Some(1));
    assert_eq!(identity_of_face(&lib, 5), Some(1));
    assert_eq!(identity_of_face(&lib, 4), Some(2), "confirmed Kevin face stolen");
}

/// The absorb-path guard.
#[test]
fn foreign_confirmed_detection() {
    let mut lib = test_lib();
    add_identity(&mut lib, 1, Some("Omar"));
    add_identity(&mut lib, 2, Some("Kevin"));
    insert_face(&mut lib, 1, 10, Some(2), true);
    insert_face(&mut lib, 2, 20, Some(1), true);
    insert_face(&mut lib, 3, 30, None, false);
    // Cluster 10 holds Kevin-confirmed: foreign to Omar (1) and to "no identity".
    assert!(cluster_has_foreign_confirmed(&lib, 10, Some(1)));
    assert!(cluster_has_foreign_confirmed(&lib, 10, None));
    assert!(!cluster_has_foreign_confirmed(&lib, 10, Some(2)));
    // Cluster 30 has no confirmed faces at all.
    assert!(!cluster_has_foreign_confirmed(&lib, 30, Some(1)));
}

/// Undo must restore `confirmed` exactly.
#[test]
fn undo_restores_confirmed_flag() {
    let mut lib = test_lib();
    add_identity(&mut lib, 1, Some("Omar"));
    add_identity(&mut lib, 2, Some("Kevin"));
    // Face 1: tentatively auto-folded to Omar. Face 2: user-confirmed Omar.
    insert_face(&mut lib, 1, 10, Some(1), false);
    insert_face(&mut lib, 2, 10, Some(1), true);
    let prior = capture_face_states(&lib, &vec![1, 2]);

    // Move both to Kevin (a user label: confirms both).
    set_faces_person(&mut lib, &vec![1, 2], 20, 2);
    assert!(confirmed_of(&lib, 1) && confirmed_of(&lib, 2));

    restore_face_states(&mut lib, &prior);
    assert_eq!(identity_of_face(&lib, 1), Some(1));
    assert_eq!(identity_of_face(&lib, 2), Some(1));
    assert!(!confirmed_of(&lib, 1), "tentative face must return to unconfirmed");
    assert!(confirmed_of(&lib, 2), "user-vouched face must stay confirmed");
}

/// The same-photo exception round-trip: the pairs the rule blocks are exactly
/// the ones a "same person (collage)" answer whitelists.
#[test]
fn same_photo_exception_roundtrip() {
    let mut lib = test_lib();
    // Photo 9 holds face 1 (cluster 10) and face 2 (cluster 20): a collage
    // split. Photos 8 and 7 hold unrelated faces of the same clusters.
    let unit = FaceBox { x1: 0, y1: 0, x2: 1_000_000, y2: 1_000_000 };
    let apart = FaceBox { x1: 2_000_000, y1: 2_000_000, x2: 3_000_000, y2: 3_000_000 };
    push_face(&mut lib, 1, 9, unit, vec![], marks(10, None, false));
    push_face(&mut lib, 2, 9, apart, vec![], marks(20, None, false));
    push_face(&mut lib, 3, 8, unit, vec![], marks(10, None, false));
    push_face(&mut lib, 4, 7, unit, vec![], marks(20, None, false));
    let pairs = cooccurring_face_pairs(&lib, 10, 20);
    assert_eq!(pairs, vec![(9, 1, 2)], "only the shared-photo pair is blocked");
    add_same_photo_ok(&mut lib, &pairs.iter().map(|&(_, a, b)| (a, b)).collect::<Vec<_>>());
    add_same_photo_ok(&mut lib, &vec![(2, 1)]); // reversed + duplicate: idempotent
    assert_eq!(same_photo_ok_pairs(&lib), vec![(1, 2)]);
}

/// Omar (4 confirmed exemplars) decisively matches a free look-alike cluster:
/// auto-fold must absorb it tentatively and WITHOUT touching the appearance layer.
#[test]
fn auto_fold_absorbs_decisive_match() {
    let mut lib = test_lib();
    add_identity(&mut lib, 1, Some("Omar"));
    for k in 0..4 {
        add_photo(&mut lib, 1 + k as i64);
        add_face(&mut lib, 1 + k as i64, 1 + k as i64, 1, Some(1), true, &near(0, k));
    }
    for k in 0..3 {
        add_photo(&mut lib, 11 + k as i64);
        add_face(&mut lib, 11 + k as i64, 11 + k as i64, 2, None, false, &near(0, k + 1));
    }
    let folded = auto_fold_confident(&mut lib);
    assert_eq!(folded, 1, "the free cluster should fold into Omar");
    for f in 11..14 {
        assert_eq!(identity_of_face(&lib, f), Some(1), "displays under Omar");
        assert_eq!(cluster_of_face(&lib, f), Some(2), "appearance cluster untouched");
        assert!(!confirmed_of(&lib, f), "auto-folds are tentative, never welded on");
    }
}

/// A cluster tentatively folded onto Omar is re-decided, and ejected to Kevin, the moment
/// Kevin's confirmed anchor matches it decisively better. Appearance ids never move.
#[test]
fn refold_ejects_wrong_tentative_fold() {
    // A face part-way between Omar (axis 0) and a distinct axis-7 component:
    // ~0.65 to Omar (foldable when unopposed), ~1.0 to its own kind.
    fn mix(k: usize) -> Vec<f32> {
        let mut v = vec![0.0f32; 16];
        v[0] = 0.65;
        v[7] = 0.76;
        v[1 + k] += 0.02 * (k as f32 + 1.0);
        let n = v.iter().map(|x| x * x).sum::<f32>().sqrt();
        v.iter().map(|x| x / n).collect()
    }
    let mut lib = test_lib();
    add_identity(&mut lib, 1, Some("Omar"));
    for k in 0..4 {
        add_photo(&mut lib, 1 + k as i64);
        add_face(&mut lib, 1 + k as i64, 1 + k as i64, 1, Some(1), true, &near(0, k));
    }
    for k in 0..3 {
        add_photo(&mut lib, 11 + k as i64);
        add_face(&mut lib, 11 + k as i64, 11 + k as i64, 2, None, false, &mix(k));
    }
    auto_fold_confident(&mut lib);
    assert_eq!(identity_of_face(&lib, 11), Some(1), "unopposed, the fold goes to Omar");

    // Kevin arrives: 4 confirmed faces of the candidate's own kind.
    add_identity(&mut lib, 2, Some("Kevin"));
    for k in 0..4 {
        add_photo(&mut lib, 21 + k as i64);
        add_face(&mut lib, 21 + k as i64, 21 + k as i64, 3, Some(2), true, &mix(k));
    }
    auto_fold_confident(&mut lib);
    for f in 11..14 {
        assert_eq!(identity_of_face(&lib, f), Some(2), "re-decided: ejected to Kevin");
        assert_eq!(cluster_of_face(&lib, f), Some(2), "appearance cluster untouched");
    }
}

/// A full re-cluster may renumber every appearance id, but a person's group is
/// keyed by their durable identity and survives verbatim.
#[test]
fn identity_groups_survive_appearance_renumbering() {
    let mut lib = test_lib();
    add_identity(&mut lib, 1, Some("Omar"));
    for k in 0..3 {
        add_photo(&mut lib, 1 + k as i64);
        add_face(&mut lib, 1 + k as i64, 1 + k as i64, 5, Some(1), true, &near(0, k));
    }
    set_face_clusters(&mut lib, &vec![(1, 99), (2, 99), (3, 42)]);
    let rows = clusters_overview(&lib);
    let omar = rows.iter().find(|r| r.cluster_id == -1).expect("Omar's stable group");
    assert_eq!((omar.count, omar.name.as_deref()), (3, Some("Omar")));
}

/// Two confirmed people with (synthetically) identical anchors both match the
/// candidate: a near-tie. Auto-fold must hold it for review, never guess.
#[test]
fn auto_fold_near_tie_is_left_for_review() {
    let mut lib = test_lib();
    add_identity(&mut lib, 1, Some("Omar"));
    add_identity(&mut lib, 2, Some("Kevin"));
    for k in 0..4 {
        add_photo(&mut lib, 1 + k as i64);
        add_face(&mut lib, 1 + k as i64, 1 + k as i64, 1, Some(1), true, &near(0, k));
        add_photo(&mut lib, 21 + k as i64);
        add_face(&mut lib, 21 + k as i64, 21 + k as i64, 2, Some(2), true, &near(0, k));
    }
    add_photo(&mut lib, 31);
    add_face(&mut lib, 31, 31, 3, None, false, &near(0, 5));
    let folded = auto_fold_confident(&mut lib);
    assert_eq!(folded, 0, "a near-tie between two people must not be guessed");
    assert_eq!(cluster_of_face(&lib, 31), Some(3));
    assert_eq!(identity_of_face(&lib, 31), None);
}

/// A one-face identity (a fresh "not X" competitor) may compete but must not
/// absorb: it lacks the evidence to claim a whole cluster.
#[test]
fn auto_fold_thin_competitor_cannot_absorb() {
    let mut lib = test_lib();
    add_identity(&mut lib, 1, None);
    add_photo(&mut lib, 1);
    add_face(&mut lib, 1, 1, 1, Some(1), true, &near(0, 0));
    for k in 0..3 {
        add_photo(&mut lib, 11 + k as i64);
        add_face(&mut lib, 11 + k as i64, 11 + k as i64, 2, None, false, &near(0, k + 1));
    }
    let folded = auto_fold_confident(&mut lib);
    assert_eq!(folded, 0, "a thin competitor must not vacuum up a cluster");
    assert_eq!(identity_of_face(&lib, 11), None);
    assert_eq!(cluster_of_face(&lib, 11), Some(2));
}

/// A candidate photographed alongside the person's confirmed faces cannot BE
/// the person (two faces in one photo are two people), however similar.
#[test]
fn auto_fold_cooccurrence_veto() {
    let mut lib = test_lib();
    add_identity(&mut lib, 1, Some("Omar"));
    for k in 0..4 {
        add_photo(&mut lib, 1 + k as i64);
        add_face(&mut lib, 1 + k as i64, 1 + k as i64, 1, Some(1), true, &near(0, k));
    }
    // Candidate shares photo 4 with a confirmed Omar face.
    add_face(&mut lib, 11, 4, 2, None, false, &near(0, 5));
    add_photo(&mut lib, 12);
    add_face(&mut lib, 12, 12, 2, None, false, &near(0, 6));
    let folded = auto_fold_confident(&mut lib);
    assert_eq!(folded, 0, "a co-occurring cluster must never fold in");
    assert_eq!(identity_of_face(&lib, 11), None);
    assert_eq!(cluster_of_face(&lib, 11), Some(2));
}

/// Omar and Kevin, with identical anchors, and a group of three faces that both match.
fn contested_lib() -> Library {
    let mut lib = test_lib();
    add_identity(&mut lib, 1, Some("Omar"));
    add_identity(&mut lib, 2, Some("Kevin"));
    for k in 0..4 {
        add_photo(&mut lib, 1 + k as i64);
        add_face(&mut lib, 1 + k as i64, 1 + k as i64, 1, Some(1), true, &near(0, k));
        add_photo(&mut lib, 21 + k as i64);
        add_face(&mut lib, 21 + k as i64, 21 + k as i64, 2, Some(2), true, &near(0, k));
    }
    for k in 0..3 {
        add_photo(&mut lib, 31 + k as i64);
        add_face(&mut lib, 31 + k as i64, 31 + k as i64, 3, None, false, &near(0, k + 4));
    }
    lib
}

/// A cluster claimed by two named people is dropped from BOTH growth cards and
/// surfaces as a who-is-this review card instead.
#[test]
fn growth_conflict_becomes_who_is_this() {
    let lib = contested_lib();
    let (growth, who) = compute_identity_growth(&lib);
    for g in &growth {
        assert!(
            !g.strong_clusters.contains(&3) && g.maybe.iter().all(|m| m.cluster_id != 3),
            "a contested cluster must not appear on {}'s growth card",
            g.name
        );
    }
    assert_eq!(who.len(), 1, "the contested cluster becomes one who-is-this card");
    match &who[0] {
        ReviewItem::WhoIsThis { cluster_id, candidates, .. } => {
            assert_eq!(*cluster_id, 3);
            assert_eq!(candidates.len(), 2);
        }
        other => panic!("expected WhoIsThis, got {:?}", std::mem::discriminant(other)),
    }
}

fn suggestion(into: i64, from: i64, photos: i64) -> MergeSuggestion {
    MergeSuggestion {
        into,
        from,
        into_faces: vec![],
        from_faces: vec![],
        into_name: None,
        similarity: 800_000_000_000,
        photos,
        generation: 0,
    }
}

/// The queue is payoff-sorted (photos descending) across every item kind.
#[test]
fn review_queue_sorts_by_payoff() {
    let merges = vec![suggestion(1, 2, 5)];
    let growth = vec![IdentityGrowth {
        identity_id: 1,
        name: "Omar".into(),
        into: 1,
        anchor_faces: vec![],
        strong_clusters: vec![9],
        strong_groups: vec![GrowthCluster {
            cluster_id: 9,
            face_id: None,
            photos: 50,
            similarity: 900_000_000_000,
        }],
        strong_faces: vec![],
        strong_photos: 50,
        maybe: vec![GrowthCluster {
            cluster_id: 8,
            face_id: None,
            photos: 20,
            similarity: 550_000_000_000,
        }],
        photos: 70,
        generation: 0,
    }];
    let queue = build_review_queue(&merges, &growth, Vec::new());
    let photos: Vec<i64> = queue
        .iter()
        .map(|i| match i {
            ReviewItem::StrongBatch { photos, .. }
            | ReviewItem::Maybe { photos, .. }
            | ReviewItem::WhoIsThis { photos, .. }
            | ReviewItem::Pairwise { photos, .. }
            | ReviewItem::SamePhotoTwin { photos, .. } => *photos,
        })
        .collect();
    assert_eq!(photos, vec![50, 20, 5], "biggest payoff first");
}

/// Cards below the payoff floor stay out of the focus session.
#[test]
fn review_queue_drops_low_payoff_cards() {
    let merges = vec![
        suggestion(1, 2, REVIEW_MIN_PHOTOS), // exactly at the floor: stays
        suggestion(3, 4, 1),                 // a singleton: filtered
    ];
    let queue = build_review_queue(&merges, &vec![], Vec::new());
    assert_eq!(queue.len(), 1, "only the at-floor card survives");
    assert!(
        matches!(&queue[0], ReviewItem::Pairwise { photos, .. } if *photos == REVIEW_MIN_PHOTOS)
    );
}

/// The anchor core drops a minority outlier so it can't drag the anchor off the person.
#[test]
fn anchor_core_drops_outlier() {
    let mut embs: Vec<Vec<i32>> = (0..5).map(|k| fixed(&near(0, k))).collect();
    embs.push(fixed(&near(8, 0))); // the pollution
    let core = anchor_core(embs);
    assert_eq!(core.len(), 5, "the dominant appearance group is the core");
    assert!(core.iter().all(|e| e[0] > 900_000), "the outlier must be dropped");
}

#[test]
fn review_queue_is_capped() {
    let merges: Vec<MergeSuggestion> = (0..80).map(|k| suggestion(1, 2, 10 + k)).collect();
    let queue = build_review_queue(&merges, &vec![], Vec::new());
    assert_eq!(queue.len(), solar::review::MAX_QUEUE);
    assert!(queue.windows(2).all(|w| w[0].payoff() >= w[1].payoff()));
    assert_eq!(queue[0].payoff(), 89);
}

#[test]
fn nothing_is_suggested_while_scanning() {
    let mut lib = contested_lib();
    lib.photos[0].marks.faces_scanned = 0;
    let (growth, who) = compute_identity_growth(&lib);
    assert!(growth.is_empty() && who.is_empty());
    let (merges, twins) = compute_merge_suggestions(&lib);
    assert!(merges.is_empty() && twins.is_empty());
    assert_eq!(auto_fold_confident(&mut lib), 0);
}

#[test]
fn a_group_nobody_else_claims_grows_its_person() {
    let mut lib = test_lib();
    add_identity(&mut lib, 1, Some("Omar"));
    for k in 0..4 {
        add_photo(&mut lib, 1 + k as i64);
        add_face(&mut lib, 1 + k as i64, 1 + k as i64, 1, Some(1), true, &near(0, k));
    }
    for k in 0..3 {
        add_photo(&mut lib, 11 + k as i64);
        add_face(&mut lib, 11 + k as i64, 11 + k as i64, 2, None, false, &near(0, k + 1));
    }
    let (growth, who) = compute_identity_growth(&lib);
    assert!(who.is_empty());
    assert_eq!(growth.len(), 1);
    assert_eq!(growth[0].name, "Omar");
    assert_eq!(growth[0].into, -1);
    assert_eq!(growth[0].strong_clusters, vec![2]);
    assert_eq!(growth[0].photos, 3);
    let matches = cluster_identity_matches(&lib);
    assert!(matches.iter().any(|(c, ids)| *c == 2 && ids[0].0 == 1));
}

/// Two groups of five faces each on one axis: one person, split.
fn split_lib() -> Library {
    let mut lib = test_lib();
    for k in 0..5 {
        add_photo(&mut lib, 1 + k as i64);
        add_face(&mut lib, 1 + k as i64, 1 + k as i64, 1, None, false, &near(0, k));
    }
    for k in 0..5 {
        add_photo(&mut lib, 11 + k as i64);
        add_face(&mut lib, 11 + k as i64, 11 + k as i64, 2, None, false, &near(0, k));
    }
    lib
}

#[test]
fn a_split_person_is_suggested() {
    let lib = split_lib();
    let (merges, twins) = compute_merge_suggestions(&lib);
    assert_eq!(merges.len(), 1);
    assert_eq!((merges[0].into, merges[0].from, merges[0].photos), (1, 2, 5));
    assert!(twins.is_empty());
}

#[test]
fn a_shared_photo_turns_the_suggestion_into_a_question() {
    let mut lib = split_lib();
    lib.faces[5].photo_id = 1;
    let (merges, twins) = compute_merge_suggestions(&lib);
    assert!(merges.is_empty());
    assert_eq!(twins.len(), 1);
    match &twins[0] {
        ReviewItem::SamePhotoTwin { photo_id, pairs, .. } => {
            assert_eq!(*photo_id, 1);
            assert_eq!((pairs[0].face_a, pairs[0].face_b), (1, 11));
        }
        other => panic!("expected SamePhotoTwin, got {:?}", std::mem::discriminant(other)),
    }
}

#[test]
fn named_or_declared_people_are_never_suggested() {
    let mut lib = split_lib();
    add_identity(&mut lib, 1, Some("Ana"));
    add_identity(&mut lib, 2, Some("Eva"));
    for f in lib.faces.iter_mut() {
        f.marks.identity_id = Some(if f.id < 10 { 1 } else { 2 });
        f.marks.confirmed = true;
    }
    assert!(compute_merge_suggestions(&lib).0.is_empty());
    lib.identities[1].name = None;
    assert_eq!(compute_merge_suggestions(&lib).0.len(), 1);
    add_cannot_link_ids(&mut lib, 2, 1);
    assert!(compute_merge_suggestions(&lib).0.is_empty());
}

#[test]
fn rebuild_keeps_people_and_renumbers_clusters() {
    let mut lib = split_lib();
    add_identity(&mut lib, 1, Some("Ana"));
    for f in lib.faces.iter_mut().filter(|f| f.id < 10) {
        f.marks.identity_id = Some(1);
        f.marks.confirmed = true;
        f.marks.cluster_id = Some(77);
    }
    assert!(rebuild_clusters(&mut lib));
    assert_eq!(cluster_of_face(&lib, 1), Some(1));
    assert!((1..=5).all(|f| identity_of_face(&lib, f) == Some(1) && confirmed_of(&lib, f)));
    assert!((1..=5).all(|f| cluster_of_face(&lib, f) == Some(1)));
    let mut empty = test_lib();
    assert!(!rebuild_clusters(&mut empty));
}

#[test]
fn people_with_different_names_part_in_a_rebuild() {
    let mut lib = split_lib();
    add_identity(&mut lib, 1, Some("Ana"));
    add_identity(&mut lib, 2, Some("Eva"));
    for f in lib.faces.iter_mut() {
        f.marks.identity_id = Some(if f.id < 10 { 1 } else { 2 });
        f.marks.confirmed = true;
    }
    assert!(rebuild_clusters(&mut lib));
    assert_ne!(cluster_of_face(&lib, 1), cluster_of_face(&lib, 11));
}

#[test]
fn cannot_links_are_unordered_and_can_be_taken_back() {
    let mut lib = test_lib();
    add_cannot_link_ids(&mut lib, 5, 3);
    add_cannot_link_ids(&mut lib, 3, 5);
    assert_eq!(cannot_link_pairs(&lib), vec![(3, 5)]);
    assert!(cannot_link_exists(&lib, 5, 3));
    remove_cannot_link(&mut lib, 5, 3);
    assert!(!cannot_link_exists(&lib, 3, 5));
}

/// Everything a correction may change about persons.
fn snapshot(lib: &Library) -> (Vec<(i64, FaceMarks)>, Vec<(i64, i64)>, Vec<(i64, i64)>) {
    (
        lib.faces.iter().map(|f| (f.id, f.marks)).collect(),
        cannot_link_pairs(lib),
        same_photo_ok_pairs(lib),
    )
}

#[test]
fn merging_people_keeps_the_name_and_can_be_undone() {
    let mut lib = split_lib();
    add_identity(&mut lib, 1, Some("Ana"));
    for f in lib.faces.iter_mut().filter(|f| f.id >= 10) {
        f.marks.identity_id = Some(1);
    }
    let before = snapshot(&lib);
    // The unnamed pile is the target, but the named side survives.
    let c = corrections::merge_clusters(&mut lib, 3, 1, -1, Some(3)).ok().unwrap();
    assert!(lib.faces.iter().all(|f| f.marks.identity_id == Some(1) && f.marks.confirmed));
    undo_correction(&mut lib, &c.undo);
    assert_eq!(snapshot(&lib), before);
}

#[test]
fn stale_suggestions_are_refused() {
    let mut lib = split_lib();
    let before = snapshot(&lib);
    let r = corrections::merge_clusters(&mut lib, 4, 1, 2, Some(3));
    match r {
        Err(e) => {
            assert_eq!(e, Refusal::Stale);
            assert_eq!(
                e.message(),
                "stale suggestion: people were reorganized since it was shown"
            );
        }
        Ok(_) => panic!("a stale merge was applied"),
    }
    assert_eq!(snapshot(&lib), before);
    assert!(corrections::merge_clusters(&mut lib, 4, 1, 2, None).is_ok());
}

#[test]
fn naming_confirms_and_can_be_undone() {
    let mut lib = split_lib();
    let before = snapshot(&lib);
    let o = corrections::name_cluster(&mut lib, 0, 1, "  Ana ", None).ok().unwrap();
    assert_eq!(o.group, -1);
    assert!(o.correction.refold);
    assert_eq!(identity_name(&lib, 1), Some("Ana".to_string()));
    assert_eq!(named_identities(&lib), vec![(1, "Ana".to_string())]);
    assert_eq!(group_for_name(&lib, "Ana"), Some(-1));
    assert!((1..=5).all(|f| confirmed_of(&lib, f) && identity_of_face(&lib, f) == Some(1)));
    undo_correction(&mut lib, &o.correction.undo);
    assert_eq!(snapshot(&lib), before);
    assert_eq!(identity_name(&lib, 1), None);
}

#[test]
fn faces_need_a_name_to_be_named() {
    let mut lib = split_lib();
    match corrections::name_faces(&mut lib, 0, &vec![1], "  ", None) {
        Err(e) => {
            assert_eq!(e, Refusal::NameRequired);
            assert_eq!(e.message(), "a name is required");
        }
        Ok(_) => panic!("an empty name was accepted"),
    }
    assert!(corrections::name_faces(&mut lib, 0, &vec![1], "Ana", None).is_ok());
    assert_eq!(identity_of_face(&lib, 1), Some(1));
    assert!(confirmed_of(&lib, 1));
}

#[test]
fn faces_are_named_by_exact_name() {
    let mut lib = split_lib();
    add_identity(&mut lib, 1, Some("Ana"));
    let c = corrections::name_faces(&mut lib, 0, &vec![1], " Ana ", None).ok().unwrap();
    assert_eq!(identity_of_face(&lib, 1), Some(1));
    assert!(c.undo.renamed.is_none());
    assert_eq!(group_called(&lib, " Ana"), Some(-1));
    // Another case is another name here, though not to the lookup that ignores case.
    assert_eq!(group_called(&lib, "ana"), None);
    assert_eq!(group_for_name(&lib, "ana"), Some(-1));
    corrections::name_faces(&mut lib, 0, &vec![2], "ana", None).ok().unwrap();
    assert_eq!(identity_of_face(&lib, 2), Some(2));
    assert_eq!(identity_name(&lib, 2), Some("ana".to_string()));
    assert_eq!(group_called(&lib, "ana"), Some(-2));
}

#[test]
fn undo_is_exact_where_a_whole_group_is_listed() {
    let ids = vec![1, 2, 3, 4, 5];
    let ida = Some("Ida".to_string());
    let mut lib = split_lib();
    let before = snapshot(&lib);
    let c = corrections::confirm_faces_into_cluster(&mut lib, 0, &ids, 1, None).ok().unwrap();
    assert!(confirmed_of(&lib, 5));
    undo_correction(&mut lib, &c.undo);
    assert_eq!(snapshot(&lib), before);
    add_identity(&mut lib, 9, Some("Ana"));
    let c = corrections::reassign_faces_to_cluster(&mut lib, 0, &ids, 1, -9, None).ok().unwrap();
    assert_eq!(identity_of_face(&lib, 5), Some(9));
    assert_eq!(cannot_link_pairs(&lib).len(), 1);
    undo_correction(&mut lib, &c.undo);
    assert_eq!(snapshot(&lib), before);
    let c = corrections::reassign_faces_to_new_person(&mut lib, 0, &ids, 1, &ida, None)
        .ok()
        .unwrap();
    assert_eq!(identity_name(&lib, 12), ida);
    undo_correction(&mut lib, &c.undo);
    assert_eq!(snapshot(&lib), before);
    assert_eq!(identity_name(&lib, 12), None);
}

#[test]
fn undo_leaves_only_guesses_in_the_rest_of_a_group() {
    let before = snapshot(&split_lib());
    let acts: [&dyn Fn(&mut Library) -> corrections::Correction; 3] = [
        &|l| corrections::confirm_faces_into_cluster(l, 0, &vec![1], 2, None).ok().unwrap(),
        &|l| corrections::reassign_faces_to_cluster(l, 0, &vec![1], 1, 2, None).ok().unwrap(),
        &|l| {
            let ida = Some("Ida".to_string());
            corrections::reassign_faces_to_new_person(l, 0, &vec![1], 1, &ida, None).ok().unwrap()
        },
    ];
    for act in acts {
        let mut lib = split_lib();
        let c = act(&mut lib);
        undo_correction(&mut lib, &c.undo);
        // The rest of the group was given an identity, tentatively.
        assert_ne!(snapshot(&lib), before);
        clear_unconfirmed_identities(&mut lib);
        assert_eq!(snapshot(&lib), before);
    }
}

#[test]
fn another_named_person_is_never_absorbed() {
    let mut lib = split_lib();
    add_identity(&mut lib, 1, Some("Ana"));
    add_identity(&mut lib, 2, Some("Eva"));
    lib.faces[0].marks.identity_id = Some(1);
    lib.faces[0].marks.confirmed = true;
    for f in lib.faces.iter_mut().filter(|f| f.id >= 10) {
        f.marks.identity_id = Some(2);
        f.marks.confirmed = true;
    }
    match corrections::resolve_same_photo(&mut lib, 0, -1, -2, true, None) {
        Err(e) => {
            assert_eq!(e, Refusal::OtherPerson);
            assert_eq!(e.message(), "that group already belongs to another named person");
        }
        Ok(_) => panic!("a named person was absorbed"),
    }
    assert_eq!(identity_of_face(&lib, 11), Some(2));
}

#[test]
fn corrections_can_be_undone() {
    let lib = {
        let mut lib = split_lib();
        add_identity(&mut lib, 1, Some("Ana"));
        add_identity(&mut lib, 2, Some("Eva"));
        for f in lib.faces.iter_mut().filter(|f| f.id < 5) {
            f.marks.identity_id = Some(1);
            f.marks.confirmed = f.id < 3;
        }
        for f in lib.faces.iter_mut().filter(|f| f.id > 13) {
            f.marks.identity_id = Some(2);
            f.marks.confirmed = true;
        }
        lib
    };
    let run = |act: &dyn Fn(&mut Library) -> corrections::Correction| {
        let mut l = Library::new();
        l.photos = split_lib().photos;
        add_identity(&mut l, 1, Some("Ana"));
        add_identity(&mut l, 2, Some("Eva"));
        for f in &lib.faces {
            push_face(&mut l, f.id, f.photo_id, f.bbox, f.embedding.clone(), f.marks);
        }
        let before = snapshot(&l);
        let c = act(&mut l);
        assert_ne!(snapshot(&l), before);
        undo_correction(&mut l, &c.undo);
        assert_eq!(snapshot(&l), before);
    };
    run(&|l| corrections::ignore_some_faces(l, &vec![1, 11]));
    run(&|l| corrections::detach_some_faces(l, &vec![1, 2]));
    run(&|l| corrections::reject_merge(l, 0, -1, 2, None).ok().unwrap());
    run(&|l| corrections::not_this_person(l, 0, -1, 2, None).ok().unwrap());
    run(&|l| corrections::not_these_people(l, 0, 2, &vec![-1], None).ok().unwrap());
    run(&|l| corrections::not_this_person_many(l, 0, -1, &vec![2], None).ok().unwrap());
    run(&|l| corrections::absorb_clusters(l, 0, -1, &vec![2], None).ok().unwrap());
    run(&|l| {
        corrections::reassign_faces_to_cluster(l, 0, &vec![1], -1, -2, None).ok().unwrap()
    });
    run(&|l| {
        corrections::reassign_faces_to_new_person(l, 0, &vec![1], -1, &Some("Ida".into()), None)
            .ok()
            .unwrap()
    });
    run(&|l| corrections::confirm_faces_into_cluster(l, 0, &vec![11], -1, None).ok().unwrap());
    run(&|l| corrections::resolve_same_photo(l, 0, -1, 2, true, None).ok().unwrap());
    run(&|l| corrections::name_faces(l, 0, &vec![11], "Ida", None).ok().unwrap());
}

#[test]
fn ignored_faces_leave_people() {
    let mut lib = split_lib();
    corrections::ignore_some_faces(&mut lib, &vec![1]);
    assert_eq!(cluster_of_face(&lib, 1), None);
    assert!(face(&lib, 1).marks.ignored);
    assert_eq!(cluster_face_ids(&lib, 1), vec![2, 3, 4, 5]);
    assert!(faces_in_photo(&lib, 1).is_empty());
}

#[test]
fn groups_are_listed_biggest_first() {
    let mut lib = split_lib();
    corrections::ignore_some_faces(&mut lib, &vec![1]);
    let rows = clusters_overview(&lib);
    assert_eq!(rows.len(), 2);
    assert_eq!((rows[0].cluster_id, rows[0].count), (2, 5));
    assert_eq!((rows[1].cluster_id, rows[1].count), (1, 4));
    assert_eq!(top_face_ids(&lib, 2, 2).len(), 2);
    assert_eq!(person_photos(&lib, 1).len(), 4);
}

#[test]
fn plurality_decides_a_clusters_person() {
    let mut lib = test_lib();
    insert_face(&mut lib, 1, 10, Some(2), true);
    insert_face(&mut lib, 2, 10, Some(1), false);
    insert_face(&mut lib, 3, 10, Some(2), false);
    assert_eq!(identity_of_cluster(&lib, 10), Some(2));
    assert_eq!(identity_of_cluster(&lib, 11), None);
    lib.cluster_names.push((10, "Ana".to_string()));
    assert_eq!(cluster_for_name(&lib, "Ana"), Some(10));
}

#[test]
fn cooccurrence_is_by_photo() {
    let mut lib = contested_lib();
    lib.faces.iter_mut().find(|f| f.id == 31).unwrap().photo_id = 1;
    let (groups, people) = cooccurrence_maps(&lib);
    assert!(cooccurs(&groups, 3, &people, 1));
    assert!(!cooccurs(&groups, 3, &people, 2));
    let (photo_of, _) = photo_constraints(&lib);
    assert!(photo_of.contains(&(1, 1)) && photo_of.contains(&(31, 1)));
}

#[test]
fn overlap_is_exact() {
    let a = FaceBox { x1: 0, y1: 0, x2: 100, y2: 100 };
    let b = FaceBox { x1: 50, y1: 0, x2: 150, y2: 100 };
    let o = box_iou(a, b);
    assert_eq!((o.inter, o.union), (5_000, 15_000));
    let far = FaceBox { x1: 500, y1: 500, x2: 600, y2: 600 };
    assert_eq!(box_iou(a, far).inter, 0);
}

#[test]
fn looks_of_a_person() {
    let mut lib = test_lib();
    add_identity(&mut lib, 1, Some("Ana"));
    for k in 0..24 {
        add_photo(&mut lib, 1 + k as i64);
        let axis = if k < 12 { 0 } else { 8 };
        add_face(&mut lib, 1 + k as i64, 1 + k as i64, 1, Some(1), true, &near(axis, k % 3));
    }
    let looks = person_looks(&lib, -1);
    assert_eq!(looks.len(), 2);
    let mut photos: Vec<Vec<i64>> = looks.iter().map(|l| l.photo_ids.clone()).collect();
    for p in photos.iter_mut() {
        p.sort();
    }
    photos.sort();
    let range = |a: i64, b: i64| (a..=b).collect::<Vec<i64>>();
    assert_eq!(photos, vec![range(1, 12), range(13, 24)]);
    assert!(person_looks(&lib, -9).is_empty());
}

#[test]
fn answered_cards_leave_the_cache() {
    let mut lib = contested_lib();
    for k in 3..5 {
        add_photo(&mut lib, 31 + k as i64);
        add_face(&mut lib, 31 + k as i64, 31 + k as i64, 3, None, false, &near(0, k + 4));
    }
    let mut cache = SuggestionCache::refresh(&lib, 5);
    assert!(cache.is_current(false, 5));
    assert!(!cache.is_current(false, 6));
    assert!(!cache.is_current(true, 5));
    assert!(cache.get_review_queue(false, 6).is_none());
    assert_eq!(cache.get_review_queue(false, 5).unwrap().len(), 3);
    cache.prune_suggestion_cache(&vec![3]);
    assert_eq!(cache.get_review_queue(false, 5).unwrap().len(), 0);
}

#[test]
fn ignored_faces_stay_out_of_a_rebuild() {
    let mut lib = split_lib();
    corrections::ignore_some_faces(&mut lib, &vec![1]);
    assert!(rebuild_clusters(&mut lib));
    assert_eq!(cluster_of_face(&lib, 1), None);
    assert_eq!(identity_of_face(&lib, 1), None);
    assert!(face(&lib, 1).marks.ignored);
}

#[test]
fn corrections_never_touch_clusters() {
    let mut lib = split_lib();
    let clusters = |l: &Library| l.faces.iter().map(|f| f.marks.cluster_id).collect::<Vec<_>>();
    let before = clusters(&lib);
    corrections::name_cluster(&mut lib, 0, 1, "Ana", None).ok().unwrap();
    corrections::merge_clusters(&mut lib, 0, -1, 2, None).ok().unwrap();
    corrections::reassign_faces_to_new_person(&mut lib, 0, &vec![3], -1, &None, None)
        .ok()
        .unwrap();
    corrections::name_faces(&mut lib, 0, &vec![4], "Eva", None).ok().unwrap();
    assert_eq!(clusters(&lib), before);
}

#[test]
fn confirmed_people_are_united_by_a_rebuild() {
    let mut lib = test_lib();
    add_identity(&mut lib, 1, Some("Ana"));
    for k in 0..2 {
        add_photo(&mut lib, 1 + k as i64);
        add_face(&mut lib, 1 + k as i64, 1 + k as i64, 5 + k as i64, Some(1), true, &near(8 * k, 0));
    }
    assert!(rebuild_clusters(&mut lib));
    assert_eq!(cluster_of_face(&lib, 1), cluster_of_face(&lib, 2));
}

#[test]
fn an_even_split_has_no_core() {
    // Three and three: no clear majority, so the whole set is kept.
    let mut embs: Vec<Vec<i32>> = (0..3).map(|k| fixed(&near(0, k))).collect();
    embs.extend((0..3).map(|k| fixed(&near(8, k))));
    assert_eq!(anchor_core(embs).len(), 6);
}

#[test]
fn a_second_fold_changes_nothing() {
    let mut lib = test_lib();
    add_identity(&mut lib, 1, Some("Omar"));
    for k in 0..5 {
        add_photo(&mut lib, 1 + k as i64);
        add_face(&mut lib, 1 + k as i64, 1 + k as i64, 1, Some(1), true, &near(0, k));
    }
    for k in 0..3 {
        add_photo(&mut lib, 11 + k as i64);
        add_face(&mut lib, 11 + k as i64, 11 + k as i64, 2, None, false, &near(0, k + 1));
    }
    // Vouched for, but nobody's: the machine has no say.
    add_photo(&mut lib, 14);
    add_face(&mut lib, 14, 14, 2, None, true, &near(0, 1));
    corrections::ignore_some_faces(&mut lib, &vec![5]);
    assert_eq!(auto_fold_confident(&mut lib), 1);
    assert_eq!(identity_of_face(&lib, 11), Some(1));
    assert_eq!(identity_of_face(&lib, 14), None);
    assert_eq!(identity_of_face(&lib, 5), None);
    let once = snapshot(&lib);
    assert_eq!(auto_fold_confident(&mut lib), 1);
    assert_eq!(snapshot(&lib), once);
}
