//! Clustering: purity, votes, evidence and the identity magnet.

use solar::cluster::{mutual_edge_sims, recluster, LinkConstraints, MIN_PAIRS};
use solar::cluster_index::ClusterIndex;
use solar::cluster_report::histogram_report;
use solar::evidence::merge_evidence;
use solar::looks::group_looks;
use solar::magnet::identity_candidates;
use solar::similarity::{cos, mean_normalized, normalized as normalized_fixed};

fn fixed(v: &[f32]) -> Vec<i32> {
    v.iter().map(|x| (x * 1_000_000.0).round() as i32).collect()
}

fn normalized(v: &[f32]) -> Vec<i32> {
    let n = v.iter().map(|x| x * x).sum::<f32>().sqrt();
    let unit: Vec<f32> = v.iter().map(|x| x / n).collect();
    fixed(&unit)
}

/// A unit vector pointing mostly along axis `axis` with a little spread, so a
/// "blob" is a set of near-but-not-identical faces of one synthetic person.
fn vec_near(dim: usize, axis: usize, jitter: usize, scale: f32) -> Vec<i32> {
    let mut v = vec![0.0f32; dim];
    v[axis] = 1.0;
    v[(jitter + 1) % dim] += scale;
    normalized(&v)
}

fn blob(dim: usize, axis: usize, count: usize) -> Vec<Vec<i32>> {
    (0..count).map(|k| vec_near(dim, axis, axis * 10 + k, 0.05 * k as f32)).collect()
}

fn cluster_of(assignments: &[(i64, i64)], face_id: i64) -> i64 {
    assignments.iter().find(|(f, _)| *f == face_id).unwrap().1
}

#[test]
fn well_separated_blobs_do_not_merge() {
    // Two tight groups on orthogonal axes: cross-similarity ~0, far below the threshold.
    let mut faces = Vec::new();
    for (k, e) in blob(16, 0, 5).into_iter().enumerate() {
        faces.push((k as i64, e));
    }
    for (k, e) in blob(16, 8, 5).into_iter().enumerate() {
        faces.push((100 + k as i64, e));
    }
    let a = recluster(&faces, &LinkConstraints::none());
    // All of group A share one cluster; all of group B share another; distinct.
    let ca = cluster_of(&a, 0);
    let cb = cluster_of(&a, 100);
    assert_ne!(ca, cb, "orthogonal blobs must not merge");
    for k in 0..5 {
        assert_eq!(cluster_of(&a, k), ca);
        assert_eq!(cluster_of(&a, 100 + k), cb);
    }
}

#[test]
fn single_bridge_does_not_chain_two_blobs() {
    // Two blobs plus one face sitting partway between them, weakly linked to a
    // single member of each.
    let dim = 16;
    let mut faces = Vec::new();
    for (k, e) in blob(dim, 0, 5).into_iter().enumerate() {
        faces.push((k as i64, e));
    }
    for (k, e) in blob(dim, 8, 5).into_iter().enumerate() {
        faces.push((100 + k as i64, e));
    }
    // Bridge: equal mix of the two axes, similar to each blob but not a member.
    let mut bridge = vec![0.0f32; dim];
    bridge[0] = 0.72;
    bridge[8] = 0.72;
    faces.push((999, normalized(&bridge)));

    let a = recluster(&faces, &LinkConstraints::none());
    let ca = cluster_of(&a, 0);
    let cb = cluster_of(&a, 100);
    assert_ne!(ca, cb, "bridge must not chain the two blobs together");
}

#[test]
fn near_duplicates_group() {
    // A pair of almost-identical faces must land in the same cluster even without a
    // third face to form a triangle.
    let dim = 16;
    let mut a = vec![0.0f32; dim];
    a[3] = 1.0;
    a[4] = 0.02;
    let mut b = vec![0.0f32; dim];
    b[3] = 1.0;
    b[4] = 0.01;
    let faces = vec![(1i64, normalized(&a)), (2i64, normalized(&b))];
    let asn = recluster(&faces, &LinkConstraints::none());
    assert_eq!(cluster_of(&asn, 1), cluster_of(&asn, 2));
}

#[test]
fn incremental_outlier_starts_its_own_cluster() {
    // Seed a cluster, then assign a far-away face: it must NOT join (no magnet).
    let seed: Vec<(i64, Vec<i32>)> = blob(16, 0, 4).into_iter().map(|e| (1, e)).collect();
    let mut idx = ClusterIndex::load(seed);
    let mut outlier = vec![0.0f32; 16];
    outlier[8] = 1.0;
    let cid = idx.assign(&normalized(&outlier));
    assert_ne!(cid, 1, "an outlier must start a new cluster, not pollute cluster 1");
}

#[test]
fn merge_evidence_finds_split_person_not_strangers() {
    // Clusters 1 and 2 are the same person split in two (both near axis 0). Cluster 3 is
    // a stranger on axis 8.
    let dim = 16;
    let mut faces: Vec<(i64, i64, Vec<i32>)> = Vec::new();
    for (k, e) in blob(dim, 0, 5).into_iter().enumerate() {
        faces.push((k as i64, 1, e));
    }
    for (k, e) in blob(dim, 0, 5).into_iter().enumerate() {
        faces.push((100 + k as i64, 2, e));
    }
    for (k, e) in blob(dim, 8, 5).into_iter().enumerate() {
        faces.push((200 + k as i64, 3, e));
    }
    let ev = merge_evidence(&faces);
    let has = |x: i64, y: i64| {
        ev.iter().any(|e| (e.a, e.b) == (x.min(y), x.max(y)) && e.pairs >= MIN_PAIRS)
    };
    assert!(has(1, 2), "the split person (1,2) should be suggested");
    assert!(!has(1, 3) && !has(2, 3), "strangers must not be suggested");
}

#[test]
fn incremental_neighbor_joins_cluster() {
    let seed: Vec<(i64, Vec<i32>)> = blob(16, 0, 4).into_iter().map(|e| (7, e)).collect();
    let mut idx = ClusterIndex::load(seed);
    // A new face squarely inside the blob should join cluster 7.
    let cid = idx.assign(&vec_near(16, 0, 3, 0.04));
    assert_eq!(cid, 7);
}

#[test]
fn incremental_complete_linkage_blocks_bridge() {
    // A cluster that has spread: two near members on axis 0 plus a far member only
    // ~0.45 to them. A new face links to the two near members by the 2-vote rule but
    // sits below the threshold from the far member, so it starts its own cluster.
    let dim = 16;
    let mut m1 = vec![0.0f32; dim];
    m1[0] = 1.0;
    let mut m2 = vec![0.0f32; dim];
    m2[0] = 1.0;
    m2[1] = 0.05;
    // Far member: 0.45 cosine to the axis-0 pair (rest of its mass on axis 5).
    let mut m3 = vec![0.0f32; dim];
    m3[0] = 0.45;
    m3[5] = (1.0f32 - 0.45 * 0.45).sqrt();
    let seed = vec![(1i64, normalized(&m1)), (1, normalized(&m2)), (1, normalized(&m3))];
    let mut idx = ClusterIndex::load(seed);
    let mut cand = vec![0.0f32; dim];
    cand[0] = 0.6;
    cand[7] = 0.8;
    let cid = idx.assign(&normalized(&cand));
    assert_ne!(cid, 1, "a bridge face must not join a cluster it fails complete-linkage against");
}

#[test]
fn identity_magnet_pulls_same_person_not_strangers() {
    // Anchor = a confirmed person on axis 0. Cluster 2 is the same person split off;
    // cluster 3 is a stranger on axis 8.
    let dim = 16;
    let anchor: Vec<Vec<i32>> = blob(dim, 0, 5);
    let mut others: Vec<(i64, i64, Vec<i32>)> = Vec::new();
    for (k, e) in blob(dim, 0, 4).into_iter().enumerate() {
        others.push((k as i64, 2, e));
    }
    for (k, e) in blob(dim, 8, 4).into_iter().enumerate() {
        others.push((100 + k as i64, 3, e));
    }
    let cands = identity_candidates(&anchor, &others);
    assert!(cands.iter().any(|c| c.cluster_id == 2), "same person must be offered");
    assert!(!cands.iter().any(|c| c.cluster_id == 3), "a stranger must never be offered");
}

#[test]
fn half_of_a_cluster_is_no_majority() {
    let (x, y) = (vec![1_000_000, 0], vec![0, 1_000_000]);
    let mut others: Vec<(i64, i64, Vec<i32>)> =
        vec![(1, 7, x.clone()), (2, 7, x.clone()), (3, 7, y.clone()), (4, 7, y.clone())];
    assert!(identity_candidates(&vec![x.clone()], &others).is_empty());
    // Three of five are.
    others.push((5, 7, x.clone()));
    assert_eq!(identity_candidates(&vec![x], &others)[0].cluster_id, 7);
}

#[test]
fn clusters_are_numbered_in_order_of_first_faces() {
    let faces = vec![
        (7i64, vec_near(16, 8, 0, 0.0)),
        (5, vec_near(16, 0, 0, 0.01)),
        (9, vec_near(16, 8, 1, 0.01)),
        (4, vec_near(16, 0, 1, 0.01)),
    ];
    let a = recluster(&faces, &LinkConstraints::none());
    assert_eq!(a, vec![(7, 1), (5, 2), (9, 1), (4, 2)]);
}

#[test]
fn empty_input_clusters_to_nothing() {
    assert!(recluster(&vec![], &LinkConstraints::none()).is_empty());
    assert!(mutual_edge_sims(&vec![]).is_empty());
    assert!(merge_evidence(&vec![]).is_empty());
    assert!(identity_candidates(&vec![], &vec![(1, 2, vec![1_000_000])]).is_empty());
}

#[test]
fn declared_strangers_never_share_a_cluster() {
    // Near-duplicates, but confirmed as two people that are not the same.
    let faces = vec![(1i64, vec![1_000_000, 0]), (2, vec![999_900, 10_000])];
    let mut c = LinkConstraints::none();
    c.face_identity = vec![(1, 1), (2, 2)];
    c.cannot_link = vec![(1, 2)];
    let a = recluster(&faces, &c);
    assert_ne!(cluster_of(&a, 1), cluster_of(&a, 2));
}

#[test]
fn confirmed_faces_of_one_person_are_welded() {
    // Nothing alike, but the user vouched for both.
    let faces = vec![(1i64, vec![1_000_000, 0]), (2, vec![0, 1_000_000])];
    let mut c = LinkConstraints::none();
    c.face_identity = vec![(1, 5), (2, 5)];
    let a = recluster(&faces, &c);
    assert_eq!(cluster_of(&a, 1), cluster_of(&a, 2));
}

#[test]
fn faces_of_one_photo_stay_apart_unless_excepted() {
    let faces = vec![(1i64, vec![1_000_000, 0]), (2, vec![999_900, 10_000])];
    let mut c = LinkConstraints::none();
    c.photo_of = vec![(1, 30), (2, 30)];
    let a = recluster(&faces, &c);
    assert_ne!(cluster_of(&a, 1), cluster_of(&a, 2));
    c.same_photo_ok = vec![(1, 2)];
    let a = recluster(&faces, &c);
    assert_eq!(cluster_of(&a, 1), cluster_of(&a, 2));
}

#[test]
fn result_does_not_depend_on_input_order() {
    let mut faces = Vec::new();
    for (k, e) in blob(16, 0, 4).into_iter().enumerate() {
        faces.push((k as i64 + 1, e));
    }
    for (k, e) in blob(16, 8, 4).into_iter().enumerate() {
        faces.push((k as i64 + 11, e));
    }
    let a = recluster(&faces, &LinkConstraints::none());
    faces.reverse();
    let b = recluster(&faces, &LinkConstraints::none());
    for &(x, cx) in &a {
        for &(y, cy) in &a {
            assert_eq!(cx == cy, cluster_of(&b, x) == cluster_of(&b, y));
        }
    }
}

#[test]
fn a_face_does_not_join_a_cluster_of_its_own_photo() {
    let rows = vec![(3i64, 20i64, vec![1_000_000, 0]), (3, 21, vec![1_000_000, 1000])];
    let mut idx = ClusterIndex::load_with_photos(rows);
    assert_ne!(idx.assign_in_photo(&[1_000_000, 500], 20), 3);
    let rows = vec![(3i64, 20i64, vec![1_000_000, 0]), (3, 21, vec![1_000_000, 1000])];
    let mut idx = ClusterIndex::load_with_photos(rows);
    assert_eq!(idx.assign_in_photo(&[1_000_000, 500], 22), 3);
}

#[test]
fn only_the_plurality_cluster_is_joined() {
    // Cluster 1 has the most votes, but a member that the face does not resemble; cluster 2
    // would have it, with fewer votes.
    let far = vec![0, 0, 1_000_000, 0];
    let a = vec![600_000, 800_000, 0, 0];
    let b = vec![600_000, 0, 0, 800_000];
    let rows = |first: usize| -> Vec<(i64, Vec<i32>)> {
        let mut rows: Vec<(i64, Vec<i32>)> = vec![(1, a.clone()); first];
        rows.push((1, far.clone()));
        rows.extend(vec![(2, b.clone()), (2, b.clone())]);
        rows
    };
    let face = [1_000_000, 0, 0, 0];
    assert_eq!(ClusterIndex::load(rows(3)).assign(&face), 3);
    assert_eq!(ClusterIndex::load(rows(1)).assign(&face), 2);
}

#[test]
fn fresh_clusters_are_numbered_above_all_others() {
    let mut idx = ClusterIndex::load(vec![(41, vec![1_000_000, 0])]);
    assert_eq!(idx.assign(&[0, 1_000_000]), 42);
    assert_eq!(idx.assign(&[0, -1_000_000]), 43);
    let mut empty = ClusterIndex::load(vec![]);
    assert_eq!(empty.assign(&[1_000_000]), 1);
}

#[test]
fn similarity_is_exact() {
    // 3-4-5: both components are a whole number of millionths.
    assert_eq!(normalized_fixed(&[3_000_000, 4_000_000]), vec![600_000, 800_000]);
    assert_eq!(cos(&[600_000, 800_000], &[1_000_000, 0]), 600_000_000_000);
    let mean = mean_normalized(&vec![vec![3, 0], vec![0, 4]]);
    assert_eq!(mean.len(), 2);
}

#[test]
fn looks_follow_their_first_face() {
    let embs = vec![
        vec![1_000_000, 0],
        vec![0, 1_000_000],
        vec![999_000, 10_000],
        vec![10_000, 999_000],
    ];
    assert_eq!(group_looks(&embs, 900_000_000_000), vec![vec![0, 2], vec![1, 3]]);
}

#[test]
fn histogram_shows_the_link_band() {
    let report = histogram_report(4, &vec![310_000_000_000, 320_000_000_000, 990_000_000_000]);
    let lines: Vec<&str> = report.lines().collect();
    assert_eq!(lines[0], "cluster_debug: 4 faces, 3 mutual-kNN edges");
    assert_eq!(lines.len(), 15);
    assert_eq!(lines[1], format!("  0.30-0.35 | {} 2", "#".repeat(40)));
    assert_eq!(lines[2], "  0.35-0.40 |  0");
    assert_eq!(lines[14], format!("  0.95-1.00 | {} 1", "#".repeat(20)));
    // What lies outside the band goes to its ends.
    let report = histogram_report(2, &vec![-5]);
    assert_eq!(report.lines().nth(1).unwrap(), format!("  0.30-0.35 | {} 1", "#".repeat(40)));
    assert_eq!(histogram_report(0, &vec![]), "cluster_debug: 0 faces, 0 mutual-kNN edges\n");
}
