//! Photos: scanning, the timeline, curation, places, the thumbnail queues and the passes.

use solar::cluster_index::ClusterIndex;
use solar::curation::{
    apply_curation, curation_rows, set_favorite, set_favorite_many, set_hidden, set_hidden_many,
    CurationEntry,
};
use solar::details::{
    backfill_dates, count_photos, get_photo_detail, normalized_search, photo_file_info,
};
use solar::digest::{cache_key, content_hash, hex_text};
use solar::exif_meta::{Degrees, Position};
use solar::faces::DetectedFace;
use solar::flags::{get_meta, heic_photo_ids, init, set_meta, startup};
use solar::library::{
    Face, FaceBox, FaceMarks, Library, Photo, PhotoMarks, FACES_CLAIMED, STATUS_CLOUD,
    STATUS_DOWNLOADING, STATUS_FAILED, STATUS_PENDING, STATUS_READY,
};
use solar::passes::{Next, Passes};
use solar::paths::{
    event_touches_photos, extension, face_crop_path, file_name, is_supported, picture_requested,
    preview_path, thumb_path, Picture,
};
use solar::photos::{
    claim_faces_batch, cloud_jobs_after, detail, face_progress, get_library_stats,
    get_photos_range, lookup, null_date_photos, path_for_id, pending_jobs, photos_range,
    reset_claimed_faces, set_status_many_where_downloading, set_taken_ts_batch,
    set_taken_ts_if_empty, stats, take_unseen, Job, PhotoFilter,
};
use solar::places::{
    geo_backfill_batch, geo_points, on_this_day, range_allowed, set_geo_scanned, MAX_RANGE,
};
use solar::prof::{enabled, record, Stage};
use solar::roots::{add_root, list_roots, remove_folder, remove_root, watch_changes};
use solar::scan::{prune_unseen, run_scan, Item};
use solar::sweep::{record_faces, Idle, Sweep};
use solar::text::placeholders;
use solar::thumb_queue::ThumbQueue;
use solar::viewport::{
    backfill_step, finish_thumb, set_content_hash, set_visible_range, unhashed_local_batch,
};

fn photo(id: i64, path: &str, status: i64) -> Photo {
    Photo {
        id,
        path: path.to_string(),
        mtime: 100 * id,
        size: 10,
        cache_key: String::new(),
        content_hash: None,
        marks: PhotoMarks {
            status,
            taken_ts: None,
            seen: 0,
            faces_scanned: 0,
            favorite: false,
            hidden: false,
            gps: None,
            geo_scanned: false,
        },
    }
}

fn lib_of(rows: &[(i64, i64)]) -> Library {
    let mut lib = Library::new();
    for &(id, status) in rows {
        lib.photos.push(photo(id, &format!("/p/{id}.jpg"), status));
    }
    lib
}

fn item(path: &str, mtime: i64, cloud: bool) -> Item {
    Item { path: path.to_string(), mtime, size: 5, cloud, exif_ts: None }
}

fn ids(jobs: &[Job]) -> Vec<i64> {
    jobs.iter().map(|j| j.id).collect()
}

#[test]
fn paths_are_bucketed_by_thousands() {
    assert_eq!(thumb_path("/c", 1), "/c/0/1.jpg");
    assert_eq!(thumb_path("/c/", 12_345), "/c/12/12345.jpg");
    assert_eq!(preview_path("", 999), "0/999.jpg");
    assert_eq!(face_crop_path("faces", -1_001), "faces/-1/-1001.jpg");
    assert_eq!(thumb_path("/c", i64::MIN), "/c/-9223372036854775/-9223372036854775808.jpg");
    // The same as std makes of it.
    let p = std::path::Path::new("/c").join((42_000i64 / 1000).to_string()).join("42000.jpg");
    assert_eq!(thumb_path("/c", 42_000), p.to_str().unwrap());
}

#[test]
fn file_names_and_extensions() {
    for path in [
        "/a/b.jpg", "b", "/a/.jpg", "/a/b.", "/a/b.tar.gz", "/a/..", "/a/.", "/a/b.JPG/", "/", "",
        "./x.png", "a//b.png", ".", "..", "/a/...", "x/.hidden.jpg",
    ] {
        let p = std::path::Path::new(path);
        let name = p.file_name().map(|n| n.to_str().unwrap().to_string());
        let ext = p.extension().map(|e| e.to_str().unwrap().to_string());
        assert_eq!(file_name(path), name, "name of {path}");
        assert_eq!(extension(path), ext, "extension of {path}");
    }
}

#[test]
fn supported_formats() {
    for yes in ["/a/b.jpg", "b.JPEG", "c.png", "d.WebP", "e.heic", "f.HEIF"] {
        assert!(is_supported(yes), "{yes}");
    }
    for no in ["/a/b.gif", "jpg", ".jpg", "a.mov", "a.jpg.txt", "a.cr2", ""] {
        assert!(!is_supported(no), "{no}");
    }
}

#[test]
fn only_relevant_events_wake_a_rescan() {
    let touches = |structural: bool, path: &str| {
        event_touches_photos(structural, &vec![path.to_string()])
    };
    assert!(touches(false, "/photos/a.jpg"));
    assert!(!touches(false, "/photos/a.txt"));
    assert!(!touches(false, "/photos/holiday"));
    assert!(touches(true, "/photos/holiday"));
    assert!(!touches(true, "/photos/a.txt"));
    assert!(!touches(true, "/photos/.caches/a.jpg"));
    assert!(!touches(true, "/photos/.stfolder"));
    assert!(!event_touches_photos(true, &vec![]));
}

#[test]
fn picture_requests() {
    assert_eq!(picture_requested("17"), Some(Picture::Thumb(17)));
    assert_eq!(picture_requested("preview/17"), Some(Picture::Preview(17)));
    assert_eq!(picture_requested("face/9"), Some(Picture::Face(9)));
    assert_eq!(picture_requested("face/"), None);
    assert_eq!(picture_requested("preview"), None);
    assert_eq!(picture_requested("face/x"), None);
}

#[test]
fn digests_are_sha256() {
    // The well-known digest of "abc".
    assert_eq!(
        content_hash(b"abc"),
        "ba7816bf8f01cfea414140de5dae2223b00361a396177a9cb410ff61f20015ad"
    );
    assert_eq!(hex_text(&vec![0, 15, 16, 255]), "000f10ff");
    let mut bytes = b"/p/1.jpg|".to_vec();
    bytes.extend((-2i64).to_le_bytes());
    bytes.push(b'|');
    bytes.extend(77i64.to_le_bytes());
    assert_eq!(cache_key("/p/1.jpg", -2, 77), content_hash(&bytes));
    assert_ne!(cache_key("/p/1.jpg", -2, 77), cache_key("/p/1.jpg", -2, 78));
}

#[test]
fn a_scan_appends_new_photos() {
    let mut lib = Library::new();
    let items = vec![item("/p/b_20230101.jpg", 7, false), item("/p/a.jpg", 8, true)];
    let (jobs, total) = run_scan(&mut lib, 1, &items);
    assert_eq!(total, 2);
    assert_eq!(ids(&jobs), vec![1]);
    assert_eq!(lib.photos[0].path, "/p/b_20230101.jpg");
    assert_eq!(lib.photos[0].marks.status, STATUS_PENDING);
    assert_eq!(lib.photos[0].marks.taken_ts, Some(1_672_531_200));
    assert_eq!(lib.photos[0].cache_key, cache_key("/p/b_20230101.jpg", 7, 5));
    assert_eq!(lib.photos[1].marks.status, STATUS_CLOUD);
    assert_eq!(lib.photos[1].marks.taken_ts, None);
    // A second scan finds one more, which comes last.
    let (_, total) = run_scan(&mut lib, 2, &vec![item("/p/0.jpg", 9, false)]);
    assert_eq!(total, 3);
    assert_eq!(lib.photos[2].id, 3);
}

#[test]
fn an_unchanged_photo_is_only_touched() {
    let mut lib = Library::new();
    run_scan(&mut lib, 1, &vec![item("/p/a.jpg", 7, false)]);
    lib.photos[0].marks.status = STATUS_READY;
    lib.photos[0].marks.favorite = true;
    let (jobs, _) = run_scan(&mut lib, 2, &vec![item("/p/a.jpg", 7, false)]);
    assert!(jobs.is_empty());
    assert_eq!((lib.photos[0].marks.status, lib.photos[0].marks.seen), (STATUS_READY, 2));
    // An edit queues it again, and keeps the star.
    let (jobs, total) = run_scan(&mut lib, 3, &vec![item("/p/a.jpg", 8, false)]);
    assert_eq!((ids(&jobs), total), (vec![1], 1));
    assert_eq!(lib.photos[0].marks.status, STATUS_PENDING);
    assert!(lib.photos[0].marks.favorite);
}

#[test]
fn exif_dates_count_for_local_files_only() {
    let mut lib = Library::new();
    let mut local = item("/p/IMG_20230101.jpg", 7, false);
    local.exif_ts = Some(99);
    let mut cloud = item("/p/IMG_20230102.jpg", 7, true);
    cloud.exif_ts = Some(99);
    run_scan(&mut lib, 1, &vec![local, cloud]);
    assert_eq!(lib.photos[0].marks.taken_ts, Some(99));
    assert_eq!(lib.photos[1].marks.taken_ts, Some(1_672_617_600));
}

fn face_in(id: i64, photo_id: i64) -> Face {
    Face {
        id,
        photo_id,
        bbox: FaceBox { x1: 0, y1: 0, x2: 1, y2: 1 },
        score: 0,
        embedding: vec![],
        marks: FaceMarks {
            cluster_id: Some(1),
            identity_id: None,
            ignored: false,
            confirmed: false,
        },
    }
}

#[test]
fn an_outage_prunes_nothing() {
    let mut lib = lib_of(&[(1, STATUS_READY), (2, STATUS_READY)]);
    lib.faces.push(face_in(1, 2));
    lib.photos[0].marks.seen = 5;
    let gone = prune_unseen(&mut lib, 5, false);
    assert!(gone.photos.is_empty() && gone.faces.is_empty());
    assert_eq!((lib.photos.len(), lib.faces.len()), (2, 1));
    let gone = prune_unseen(&mut lib, 5, true);
    assert_eq!((gone.photos, gone.faces), (vec![2], vec![1]));
    assert_eq!((lib.photos.len(), lib.faces.len()), (1, 0));
}

#[test]
fn unseen_photos_are_taken() {
    let mut lib = lib_of(&[(1, 1), (2, 1), (3, 1)]);
    lib.photos[1].marks.seen = 9;
    assert_eq!(take_unseen(&mut lib, 9), vec![1, 3]);
    assert_eq!(lib.photos.len(), 1);
}

#[test]
fn roots_are_sorted_and_unique() {
    let mut lib = Library::new();
    for r in ["/b", "/a", "/b", "/a/x", "/B"] {
        add_root(&mut lib, r);
    }
    assert_eq!(list_roots(&lib), vec!["/B", "/a", "/a/x", "/b"]);
}

#[test]
fn removing_a_root_takes_its_photos() {
    let mut lib = Library::new();
    add_root(&mut lib, "/a");
    add_root(&mut lib, "/ab");
    for (id, path) in [(1, "/a/1.jpg"), (2, "/ab/2.jpg"), (3, "/a/x/3.jpg"), (4, "/A/4.jpg")] {
        lib.photos.push(photo(id, path, STATUS_READY));
    }
    lib.faces.push(face_in(1, 1));
    lib.faces.push(face_in(2, 2));
    let gone = remove_folder(&mut lib, "/a");
    assert_eq!((gone.photos, gone.faces), (vec![1, 3], vec![1]));
    assert_eq!(list_roots(&lib), vec!["/ab"]);
    assert_eq!(lib.photos.len(), 2);
    assert_eq!(lib.faces.len(), 1);
    assert!(remove_root(&mut lib, "/nowhere").is_empty());
}

#[test]
fn the_watch_list_follows_the_roots() {
    let s = |v: &[&str]| v.iter().map(|x| x.to_string()).collect::<Vec<_>>();
    let (add, drop) = watch_changes(&s(&["/a", "/b"]), &s(&["/b", "/c"]));
    assert_eq!((add, drop), (s(&["/c"]), s(&["/a"])));
}

#[test]
fn curation_flags() {
    let mut lib = lib_of(&[(1, 1), (2, 1), (3, 1)]);
    set_favorite(&mut lib, 1, true);
    set_hidden_many(&mut lib, &vec![2, 3], true);
    set_hidden(&mut lib, 3, false);
    set_favorite_many(&mut lib, &vec![1, 2], true);
    let rows = curation_rows(&lib);
    let plain: Vec<(String, bool, bool)> =
        rows.iter().map(|r| (r.path.clone(), r.favorite, r.hidden)).collect();
    assert_eq!(
        plain,
        vec![("/p/1.jpg".to_string(), true, false), ("/p/2.jpg".to_string(), true, true)]
    );
    let s = get_library_stats(&lib);
    assert_eq!((s.total, s.favorites, s.hidden), (3, 2, 1));
    // A hidden photo shows under no other filter.
    assert_eq!(count_photos(&lib, PhotoFilter::parse("favorites"), &None), 1);
    assert_eq!(count_photos(&lib, PhotoFilter::parse("hidden"), &None), 1);
    assert_eq!(count_photos(&lib, PhotoFilter::parse("visible"), &None), 2);
}

#[test]
fn an_import_adds_flags_by_path() {
    let mut lib = lib_of(&[(1, 1), (2, 1)]);
    set_favorite(&mut lib, 1, true);
    let entries = vec![
        CurationEntry { path: "/p/1.jpg".into(), favorite: false, hidden: true },
        CurationEntry { path: "/p/2.jpg".into(), favorite: true, hidden: false },
        CurationEntry { path: "/p/9.jpg".into(), favorite: true, hidden: true },
    ];
    assert_eq!(apply_curation(&mut lib, &entries), 2);
    assert!(lib.photos[0].marks.favorite && lib.photos[0].marks.hidden);
    assert!(lib.photos[1].marks.favorite && !lib.photos[1].marks.hidden);
}

#[test]
fn the_timeline_is_newest_first() {
    let mut lib = lib_of(&[(1, 1), (2, 1), (3, 1)]);
    lib.photos[0].marks.taken_ts = Some(1_000);
    let row_ids = |rows: Vec<solar::groups::PhotoRow>| rows.iter().map(|r| r.id).collect::<Vec<_>>();
    assert_eq!(row_ids(photos_range(&lib, 0, 10, false)), vec![1, 2, 3]);
    assert_eq!(row_ids(photos_range(&lib, 0, 10, true)), vec![1, 3, 2]);
    assert_eq!(row_ids(photos_range(&lib, 1, 1, true)), vec![3]);
    set_hidden(&mut lib, 3, true);
    let visible = PhotoFilter::parse("visible");
    assert_eq!(row_ids(get_photos_range(&lib, 0, 10, true, visible, &None)), vec![1, 2]);
    // A search narrows the timeline.
    let found = Some([2i64, 3].into_iter().collect::<std::collections::HashSet<i64>>());
    assert_eq!(row_ids(get_photos_range(&lib, 0, 10, true, visible, &found)), vec![2]);
    assert_eq!(count_photos(&lib, visible, &found), 1);
    assert_eq!(count_photos(&lib, PhotoFilter::parse("hidden"), &found), 1);
    assert_eq!(detail(&lib, 1), Some(("/p/1.jpg".to_string(), 1_000)));
    assert_eq!(detail(&lib, 2), Some(("/p/2.jpg".to_string(), 200)));
    assert_eq!(detail(&lib, 9), None);
    assert_eq!(path_for_id(&lib, 3), Some("/p/3.jpg".to_string()));
    assert_eq!(stats(&lib), (3, 3));
}

#[test]
fn dates_are_only_filled_in() {
    let mut lib = lib_of(&[(1, 1), (2, 1), (3, 1)]);
    lib.photos[0].marks.taken_ts = Some(5);
    assert_eq!(ids(&null_date_photos(&lib)), vec![2, 3]);
    set_taken_ts_batch(&mut lib, &vec![(1, 7), (2, 8), (2, 9)]);
    set_taken_ts_if_empty(&mut lib, 1, 10);
    set_taken_ts_if_empty(&mut lib, 3, 11);
    let dates: Vec<Option<i64>> = lib.photos.iter().map(|p| p.marks.taken_ts).collect();
    assert_eq!(dates, vec![Some(5), Some(8), Some(11)]);
    let mut lib = Library::new();
    lib.photos.push(photo(1, "/p/IMG_20230101.jpg", STATUS_CLOUD));
    lib.photos.push(photo(2, "/p/x.jpg", STATUS_CLOUD));
    assert_eq!(backfill_dates(&mut lib), 1);
    assert_eq!(lib.photos[0].marks.taken_ts, Some(1_672_531_200));
    assert_eq!(lib.photos[1].marks.taken_ts, None);
}

#[test]
fn photo_details() {
    let mut lib = Library::new();
    lib.photos.push(photo(1, "/p/a.jpg", STATUS_CLOUD));
    lib.photos.push(photo(2, "/p/..", STATUS_READY));
    let d = get_photo_detail(&lib, 1).unwrap();
    assert_eq!((d.filename.as_str(), d.path.as_str(), d.timestamp), ("a.jpg", "/p/a.jpg", 100));
    assert_eq!(get_photo_detail(&lib, 2).unwrap().filename, "/p/..");
    assert!(get_photo_detail(&lib, 3).is_none());
    assert!(photo_file_info(&lib, 1).unwrap().cloud);
    let f = photo_file_info(&lib, 2).unwrap();
    assert_eq!((f.cloud, f.bytes), (false, 10));
    assert_eq!(normalized_search(&Some("  sea ".to_string())), Some("sea".to_string()));
    assert_eq!(normalized_search(&Some("  ".to_string())), None);
    assert_eq!(normalized_search(&None), None);
}

#[test]
fn a_photo_is_claimed_once() {
    let mut lib = lib_of(&[(1, STATUS_READY), (2, STATUS_PENDING), (3, STATUS_READY), (4, 1)]);
    assert_eq!(ids(&claim_faces_batch(&mut lib, 2)), vec![1, 3]);
    assert_eq!(lib.photos[0].marks.faces_scanned, FACES_CLAIMED);
    assert_eq!(ids(&claim_faces_batch(&mut lib, 2)), vec![4]);
    assert!(claim_faces_batch(&mut lib, 2).is_empty());
    assert_eq!(reset_claimed_faces(&mut lib), 3);
    assert_eq!(face_progress(&lib), (0, 3));
}

#[test]
fn the_sweep_assigns_and_saves() {
    let mut lib = lib_of(&[(1, STATUS_READY), (2, STATUS_READY)]);
    let mut index = ClusterIndex::load_with_photos(vec![]);
    let found = |embs: &[[i32; 2]]| -> Vec<DetectedFace> {
        embs.iter()
            .map(|e| DetectedFace {
                x1: 0,
                y1: 0,
                x2: 10,
                y2: 10,
                score: 700_000,
                embedding: e.to_vec(),
            })
            .collect()
    };
    record_faces(&mut lib, &mut index, 1, &found(&[[1_000_000, 0], [1_000_000, 10]]));
    // Two faces of one photo never share a cluster.
    assert_eq!(lib.faces[0].marks.cluster_id, Some(1));
    assert_eq!(lib.faces[1].marks.cluster_id, Some(2));
    assert_eq!(lib.photos[0].marks.faces_scanned, 1);
    record_faces(&mut lib, &mut index, 2, &found(&[[1_000_000, 5]]));
    assert_eq!(lib.faces[2].id, 3);
    assert!(lib.faces[2].marks.cluster_id == Some(1) || lib.faces[2].marks.cluster_id == Some(2));
    record_faces(&mut lib, &mut index, 2, &vec![]);
    assert_eq!(lib.faces.len(), 3);
}

#[test]
fn the_sweep_consolidates_when_drained() {
    let mut s = Sweep::new();
    assert!(s.wants_more());
    s.hand_out(8);
    assert!(!s.wants_more());
    assert_eq!(s.idle(false), Idle::Wait);
    for _ in 0..8 {
        s.finish(2);
    }
    assert_eq!(s.unconsolidated, 16);
    assert_eq!(s.idle(true), Idle::Rest);
    assert_eq!(s.idle(false), Idle::Consolidate);
    s.consolidated();
    assert_eq!(s.idle(false), Idle::Rest);
}

fn job(id: i64) -> Job {
    Job { id, path: format!("/p/{id}.jpg") }
}

#[test]
fn visible_jobs_come_first() {
    let mut q = ThumbQueue::new();
    q.enqueue(vec![job(1), job(2), job(3), job(2)]);
    q.set_priority(&vec![3, 9, 3]);
    assert_eq!(q.take().unwrap().id, 3);
    // In flight: not queued again until it is complete.
    q.enqueue(vec![job(3)]);
    assert_eq!(q.take().unwrap().id, 1);
    assert_eq!(q.take().unwrap().id, 2);
    assert!(q.take().is_none());
    q.complete(3);
    q.enqueue(vec![job(3)]);
    assert_eq!(q.take().unwrap().id, 3);
}

#[test]
fn the_background_lane_is_first_in_first_out() {
    let mut q = ThumbQueue::new();
    q.enqueue(vec![job(1), job(2)]);
    q.set_priority(&vec![2]);
    assert_eq!(q.take().unwrap().id, 2);
    q.complete(2);
    q.enqueue(vec![job(3)]);
    q.enqueue(vec![job(2)]);
    assert_eq!(q.take().unwrap().id, 1);
    // The copy of 2 that was taken by priority is gone: it waits behind 3.
    assert_eq!(q.take().unwrap().id, 3);
    assert_eq!(q.take().unwrap().id, 2);
    assert!(q.take().is_none());
    // A cancelled job that is queued again goes last, too.
    q.enqueue(vec![job(4), job(5)]);
    q.cancel(&vec![4]);
    q.enqueue(vec![job(6), job(4)]);
    let order: Vec<i64> = (0..3).map(|_| q.take().unwrap().id).collect();
    assert_eq!(order, vec![5, 6, 4]);
}

#[test]
fn pending_jobs_can_be_replaced_and_cancelled() {
    let mut q = ThumbQueue::new();
    q.enqueue(vec![job(1), job(2)]);
    q.replace_pending(vec![job(3), job(4)]);
    q.cancel(&vec![4]);
    assert_eq!(q.take().unwrap().id, 3);
    assert!(q.take().is_none());
    q.enqueue(vec![job(5)]);
    q.shut_down();
    assert!(q.is_shut_down());
    assert!(q.take().is_none());
}

#[test]
fn visible_cloud_photos_are_fetched_first() {
    let mut lib = lib_of(&[(1, STATUS_CLOUD), (2, STATUS_PENDING), (3, STATUS_DOWNLOADING)]);
    let mut local = ThumbQueue::new();
    let mut cloud = ThumbQueue::new();
    local.enqueue(vec![job(7), job(2)]);
    cloud.enqueue(vec![job(8)]);
    let started = set_visible_range(&mut lib, &mut local, &mut cloud, &vec![1, 2, 3]);
    assert_eq!(started, vec![1]);
    assert_eq!(lib.photos[0].marks.status, STATUS_DOWNLOADING);
    assert_eq!(local.take().unwrap().id, 2);
    assert_eq!(cloud.take().unwrap().id, 1);
    assert_eq!(cloud.take().unwrap().id, 3);
    assert_eq!(cloud.take().unwrap().id, 8);
    set_status_many_where_downloading(&mut lib);
    assert_eq!(lib.photos[2].marks.status, STATUS_CLOUD);
    assert_eq!(lookup(&lib, &vec![3]), vec![(3, STATUS_CLOUD, "/p/3.jpg".to_string())]);
}

#[test]
fn the_backfill_starts_over_at_the_end() {
    let lib = lib_of(&[(1, STATUS_CLOUD), (2, STATUS_READY), (3, STATUS_CLOUD)]);
    let step = backfill_step(&lib, 0);
    assert_eq!((ids(&step.jobs), step.after_id), (vec![1, 3], 3));
    let step = backfill_step(&lib, step.after_id);
    assert_eq!((step.jobs.len(), step.after_id), (0, 0));
    assert_eq!(ids(&cloud_jobs_after(&lib, 0, 1)), vec![1]);
    assert!(pending_jobs(&lib).is_empty());
}

#[test]
fn a_failed_download_can_be_retried() {
    let mut lib = lib_of(&[(1, STATUS_DOWNLOADING), (2, STATUS_PENDING)]);
    let mut q = ThumbQueue::new();
    q.enqueue(vec![job(1)]);
    q.take();
    assert!(!finish_thumb(&mut lib, &mut q, 1, false, STATUS_CLOUD, Some(5)));
    assert_eq!(lib.photos[0].marks.status, STATUS_CLOUD);
    assert_eq!(lib.photos[0].marks.taken_ts, None);
    q.enqueue(vec![job(1)]);
    q.take();
    assert!(finish_thumb(&mut lib, &mut q, 1, true, STATUS_CLOUD, Some(5)));
    assert_eq!(lib.photos[0].marks.status, STATUS_READY);
    assert_eq!(lib.photos[0].marks.taken_ts, Some(5));
    assert!(!finish_thumb(&mut lib, &mut q, 2, false, STATUS_FAILED, None));
    assert_eq!(lib.photos[1].marks.status, STATUS_FAILED);
}

#[test]
fn local_originals_are_hashed_once() {
    let mut lib = lib_of(&[(1, STATUS_READY), (2, STATUS_CLOUD), (3, STATUS_FAILED)]);
    assert_eq!(ids(&unhashed_local_batch(&lib, 100)), vec![1, 3]);
    set_content_hash(&mut lib, 1, "ab");
    set_content_hash(&mut lib, 3, "");
    assert!(unhashed_local_batch(&lib, 100).is_empty());
    assert_eq!(lib.photos[0].content_hash.as_deref(), Some("ab"));
}

#[test]
fn located_photos_are_on_the_map() {
    let mut lib = lib_of(&[(1, STATUS_READY), (2, STATUS_CLOUD), (3, STATUS_READY)]);
    assert_eq!(ids(&geo_backfill_batch(&lib, 10)), vec![1, 3]);
    let here = Position { lat: Degrees { num: 1, den: 2 }, lon: Degrees { num: -3, den: 4 } };
    set_geo_scanned(&mut lib, 1, Some(here));
    set_geo_scanned(&mut lib, 3, None);
    assert!(geo_backfill_batch(&lib, 10).is_empty());
    let points = geo_points(&lib);
    assert_eq!(points.len(), 1);
    assert_eq!((points[0].id, points[0].position, points[0].ts), (1, here, 100));
    assert!(range_allowed(MAX_RANGE) && !range_allowed(MAX_RANGE + 1));
}

#[test]
fn on_this_day_looks_back_years() {
    let mut lib = lib_of(&[(1, 1), (2, 1), (3, 1), (4, 1)]);
    lib.photos[0].marks.taken_ts = Some(1_718_380_330); // 2024-06-14
    lib.photos[1].marks.taken_ts = Some(1_655_164_800); // 2022-06-14
    lib.photos[2].marks.taken_ts = Some(1_655_251_200); // 2022-06-15
    let rows = on_this_day(&lib, 1_718_323_200);
    assert_eq!(rows.iter().map(|r| r.id).collect::<Vec<_>>(), vec![2]);
    let rows = on_this_day(&lib, 1_749_859_200); // 2025-06-14
    assert_eq!(rows.iter().map(|r| r.id).collect::<Vec<_>>(), vec![1, 2]);
}

#[test]
fn flags_read_back_and_repairs_run_once() {
    let mut lib = lib_of(&[(1, STATUS_READY)]);
    lib.photos[0].path = "/p/a.HEIC".to_string();
    lib.photos[0].marks.faces_scanned = 1;
    lib.faces.push(face_in(1, 1));
    set_meta(&mut lib, "k", "1");
    set_meta(&mut lib, "k", "2");
    assert_eq!(get_meta(&lib, "k").as_deref(), Some("2"));
    assert_eq!(get_meta(&lib, "none"), None);
    assert_eq!(heic_photo_ids(&lib), vec![1]);
    init(&mut lib);
    let s = startup(&mut lib);
    assert!(s.clear_crops && s.needs_recluster);
    assert!(lib.faces.is_empty());
    lib.faces.push(face_in(1, 1));
    let s = startup(&mut lib);
    assert!(!s.clear_crops && s.stale_crops.is_empty() && s.stale_previews.is_empty());
    assert_eq!(lib.faces.len(), 1);
}

#[test]
fn passes_queue_behind_each_other() {
    let mut p = Passes::new();
    assert_eq!(p.run_recluster(), Next::Recluster);
    assert_eq!(p.run_auto_fold(), Next::Nothing);
    assert_eq!(p.run_recluster(), Next::Nothing);
    p.renumbered();
    assert_eq!(p.cluster_gen, 1);
    assert_eq!(p.finish(), Next::Recluster);
    assert_eq!(p.finish(), Next::Fold);
    assert_eq!(p.finish(), Next::Nothing);
    // Only the newest scheduled fold fires, and not during a review.
    let old = p.schedule_refold();
    let new = p.schedule_refold();
    assert_eq!(p.quiet(old), Next::Nothing);
    assert_eq!(p.set_review_active(true), None);
    assert_eq!(p.quiet(new), Next::Nothing);
    let held = p.set_review_active(false).unwrap();
    assert_eq!(p.quiet(held), Next::Fold);
}

#[test]
fn overlapping_rescans_coalesce() {
    let mut p = Passes::new();
    assert!(p.request_rescan());
    assert!(!p.request_rescan());
    assert!(!p.request_rescan());
    assert!(p.finish_rescan());
    assert!(!p.finish_rescan());
    assert!(p.request_rescan());
}

#[test]
fn profiling_is_opt_in() {
    for off in [None, Some(""), Some("0")] {
        let mut p = solar::prof::init(off);
        assert!(!enabled(&p));
        assert!(!record(&mut p, Stage::Decode, 5));
        assert_eq!(p.samples(Stage::Decode).count, 0);
    }
    let mut p = solar::prof::init(Some("1"));
    assert!(enabled(&p));
    let due: Vec<usize> = (1..=400).filter(|_| record(&mut p, Stage::Decode, 3)).collect();
    assert_eq!(due, vec![200, 400]);
    assert!(!record(&mut p, Stage::Embed, 9));
    assert_eq!((p.samples(Stage::Decode).count, p.samples(Stage::Decode).nanos), (400, 1_200));
    assert_eq!((p.samples(Stage::Embed).count, p.samples(Stage::Embed).nanos), (1, 9));
}

#[test]
fn placeholder_lists() {
    assert_eq!(placeholders(0), "");
    assert_eq!(placeholders(1), "?");
    assert_eq!(placeholders(3), "?,?,?");
}

#[test]
fn pages_fit_together() {
    let rows: Vec<(i64, i64)> = (1..=7).map(|id| (id, STATUS_READY)).collect();
    let lib = lib_of(&rows);
    let page = |offset, limit| -> Vec<i64> {
        photos_range(&lib, offset, limit, true).iter().map(|r| r.id).collect()
    };
    let mut pages = page(0, 3);
    pages.extend(page(3, 3));
    pages.extend(page(6, 3));
    assert_eq!(pages, vec![7, 6, 5, 4, 3, 2, 1]);
    assert_eq!(page(0, 9), pages);
    assert!(page(9, 3).is_empty());
}
