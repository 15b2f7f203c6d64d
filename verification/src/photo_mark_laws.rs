//! What each step does to a photo, field by field, and which photos each list holds.

use vstd::prelude::*;

use crate::curation::{archived, starred};
use crate::details::{datable, dated_by_name};
use crate::exif_meta::Position;
use crate::faces::{face_of, outside, rearmed, scanned, unscanned};
use crate::library::{photos_wf, FaceView, LibraryView, PhotoMarks, PhotoView};
use crate::listing_laws::{
    law_keeping_keeps_the_order, law_picking_keeps_the_order, lemma_limited, lemma_tally_filter,
};
use crate::photos::{
    claimed, cloud_after, date_if_empty, first_for, has_status, id_unless, is_claimed, job_ids,
    job_where, next_claim, not_downloading, ready_scanned, seen_in, status_of, unclaim,
    unclaimed, undated, with_status,
};
use crate::places::{located, unlocated, with_position};
use crate::roots::{ids_in, not_in, other_root, without_root};
use crate::rows::{kept, select, tally};
use crate::scan::{named_date, pruned, unseen};
use crate::viewport::{hashed, outcome, unhashed, visible_cloud, visible_placeholder};

verus! {

/// Only what changes about a photo may change: its path, file and key stay.
pub open spec fn same_photo(was: PhotoView, now: PhotoView) -> bool {
    &&& now.id == was.id
    &&& now.path == was.path
    &&& now.mtime == was.mtime
    &&& now.size == was.size
    &&& now.cache_key == was.cache_key
    &&& now.content_hash == was.content_hash
}

/// **Which photos wait for what.** Local files without a thumbnail; cloud-only files after an
/// id; thumbnails whose faces were not looked for; photos without a date; local files whose
/// position, or whose digest, was not looked for; and cloud-only files on screen, whether
/// they wait or are being fetched.
pub proof fn law_what_waits(p: PhotoView, after_id: i64, ids: Seq<i64>)
    ensures
        has_status(0)(p) <==> p.marks.status == 0,
        cloud_after(after_id)(p) <==> p.marks.status == 3 && p.id > after_id,
        unclaimed()(p) <==> p.marks.status == 1 && p.marks.faces_scanned == 0,
        ready_scanned()(p) <==> p.marks.status == 1 && p.marks.faces_scanned == 1,
        undated()(p) <==> p.marks.taken_ts is None,
        unlocated()(p) <==> !p.marks.geo_scanned && p.marks.status != 3 && p.marks.status != 4,
        unhashed()(p) <==> p.content_hash is None && p.marks.status != 3 && p.marks.status != 4,
        visible_cloud(ids)(p) <==> ids.contains(p.id) && (p.marks.status == 3 || p.marks.status
            == 4),
        visible_placeholder(ids)(p) == (if ids.contains(p.id) && p.marks.status == 3 {
            Some(p.id)
        } else {
            None
        }),
        is_claimed()(p) <==> p.marks.faces_scanned == 2,
        datable()(p) <==> p.marks.taken_ts is None && named_date(p.path) is Some,
{
}

/// **A list of work is in the order of ids, and complete.** Each entry is the id and the path
/// of a photo that satisfies the test; each such photo has its entry.
pub proof fn law_work_is_listed(photos: Seq<PhotoView>, test: spec_fn(PhotoView) -> bool, i: int)
    requires
        photos_wf(photos),
        0 <= i < photos.len(),
    ensures
        ({
            let jobs = select(photos, job_where(test));
            &&& test(photos[i]) <==> exists|k: int|
                0 <= k < jobs.len() && (#[trigger] jobs[k]).id == photos[i].id && jobs[k].path
                    == photos[i].path
            &&& forall|k: int, l: int|
                0 <= k < l < jobs.len() ==> (#[trigger] jobs[k]).id < (#[trigger] jobs[l]).id
            &&& forall|k: int|
                0 <= k < jobs.len() ==> exists|j: int|
                    0 <= j < photos.len() && (#[trigger] photos[j]).id == (#[trigger] jobs[k]).id
                        && photos[j].path == jobs[k].path && test(photos[j])
        }),
{
    let jobs = select(photos, job_where(test));
    let at = law_picking_keeps_the_order(photos, job_where(test));
    assert forall|k: int| 0 <= k < jobs.len() implies {
        let p = photos[at[k]];
        &&& (#[trigger] jobs[k]).id == p.id && jobs[k].path == p.path && test(p)
        &&& 0 <= at[k] < photos.len()
    } by {
        assert(job_where(test)(photos[at[k]]) == Some(jobs[k]));
    }
    assert forall|k: int, l: int| 0 <= k < l < jobs.len() implies (#[trigger] jobs[k]).id < (
    #[trigger] jobs[l]).id by {
        assert(at[k] < at[l]);
        assert(photos[at[k]].id < photos[at[l]].id);
    }
    assert forall|k: int| 0 <= k < jobs.len() implies exists|j: int|
        0 <= j < photos.len() && (#[trigger] photos[j]).id == (#[trigger] jobs[k]).id
            && photos[j].path == jobs[k].path && test(photos[j]) by {
        assert(photos[at[k]].id == jobs[k].id);
    }
    if test(photos[i]) {
        assert(job_where(test)(photos[i]) is Some);
        assert(at.contains(i));
        let k = choose|k: int| 0 <= k < at.len() && at[k] == i;
        assert(jobs[k].id == photos[i].id);
    }
    if exists|k: int|
        0 <= k < jobs.len() && (#[trigger] jobs[k]).id == photos[i].id && jobs[k].path
            == photos[i].path {
        let k = choose|k: int|
            0 <= k < jobs.len() && (#[trigger] jobs[k]).id == photos[i].id && jobs[k].path
                == photos[i].path;
        if at[k] < i {
            assert(photos[at[k]].id < photos[i].id);
        } else if i < at[k] {
            assert(photos[i].id < photos[at[k]].id);
        }
        assert(at[k] == i);
    }
}

/// **A claim takes the first photos that are ready and not scanned**, no more than asked for,
/// and marks just those.
pub proof fn law_claims_take_the_first(lib: LibraryView, limit: int, i: int)
    requires
        lib.wf(),
        0 <= limit,
        0 <= i < lib.photos.len(),
    ensures
        ({
            let jobs = next_claim(lib.photos, limit);
            let taken = job_ids(jobs);
            let was = lib.photos[i];
            let now = lib.with_photo_marks(claimed(taken)).photos[i];
            let wanted = was.marks.status == 1 && was.marks.faces_scanned == 0;
            &&& taken.len() == jobs.len() <= limit
            &&& taken.contains(was.id) ==> wanted && now.marks.faces_scanned == 2
            &&& wanted && !taken.contains(was.id) ==> taken.len() == limit && forall|k: int|
                0 <= k < taken.len() ==> #[trigger] taken[k] < was.id
            &&& !taken.contains(was.id) ==> now == was
            &&& same_photo(was, now)
            &&& now.marks == (PhotoMarks { faces_scanned: now.marks.faces_scanned, ..was.marks })
        }),
{
    let all = select(lib.photos, job_where(unclaimed()));
    let jobs = next_claim(lib.photos, limit);
    let taken = job_ids(jobs);
    let was = lib.photos[i];
    lemma_limited(all, limit);
    law_work_is_listed(lib.photos, unclaimed(), i);
    if taken.contains(was.id) {
        let k = choose|k: int| 0 <= k < taken.len() && taken[k] == was.id;
        assert(all[k].id == was.id);
        let j = choose|j: int|
            0 <= j < lib.photos.len() && (#[trigger] lib.photos[j]).id == all[k].id
                && lib.photos[j].path == all[k].path && unclaimed()(lib.photos[j]);
        if j < i {
            assert(lib.photos[j].id < lib.photos[i].id);
        } else if i < j {
            assert(lib.photos[i].id < lib.photos[j].id);
        }
    }
    if unclaimed()(was) && !taken.contains(was.id) {
        let k = choose|k: int|
            0 <= k < all.len() && (#[trigger] all[k]).id == was.id && all[k].path == was.path;
        if k < jobs.len() {
            assert(taken[k] == was.id);
        }
        assert forall|l: int| 0 <= l < taken.len() implies #[trigger] taken[l] < was.id by {
            assert(all[l].id < all[k].id);
        }
    }
}

/// **Claims that were left behind are freed**, and nothing else about the photos changes.
pub proof fn law_claims_are_freed(lib: LibraryView, i: int)
    requires
        0 <= i < lib.photos.len(),
    ensures
        ({
            let (was, now) = (lib.photos[i], lib.with_photo_marks(unclaim()).photos[i]);
            &&& same_photo(was, now)
            &&& was.marks.faces_scanned == 2 ==> now.marks == (PhotoMarks {
                faces_scanned: 0,
                ..was.marks
            })
            &&& was.marks.faces_scanned != 2 ==> now == was
        }),
        tally(lib.photos, is_claimed()) == lib.photos.filter(
            |p: PhotoView| p.marks.faces_scanned == 2,
        ).len(),
{
    lemma_tally_filter(
        lib.photos,
        is_claimed(),
        |p: PhotoView| p.marks.faces_scanned == 2,
    );
}

/// **A status is given to the listed photos, and to no other.**
pub proof fn law_status_is_set(lib: LibraryView, ids: Seq<i64>, status: i64, i: int)
    requires
        0 <= i < lib.photos.len(),
    ensures
        ({
            let (was, now) = (lib.photos[i], lib.with_photo_marks(with_status(ids, status)).photos[i]);
            &&& same_photo(was, now)
            &&& ids.contains(was.id) ==> now.marks == (PhotoMarks { status, ..was.marks })
            &&& !ids.contains(was.id) ==> now == was
        }),
{
}

/// **An interrupted download is a placeholder again.**
pub proof fn law_interrupted_downloads(lib: LibraryView, i: int)
    requires
        0 <= i < lib.photos.len(),
    ensures
        ({
            let (was, now) = (lib.photos[i], lib.with_photo_marks(not_downloading()).photos[i]);
            &&& same_photo(was, now)
            &&& was.marks.status == 4 ==> now.marks == (PhotoMarks { status: 3, ..was.marks })
            &&& was.marks.status != 4 ==> now == was
        }),
{
}

/// **A date fills a gap.** A photo without a date gets the one first listed for it; one that
/// has a date keeps it.
pub proof fn law_dates_fill_gaps(lib: LibraryView, pairs: Seq<(i64, i64)>, k: int, i: int)
    requires
        0 <= i < lib.photos.len(),
    ensures
        ({
            let (was, now) = (lib.photos[i], lib.with_photo_marks(date_if_empty(pairs)).photos[i]);
            &&& same_photo(was, now)
            &&& now.marks == (PhotoMarks { taken_ts: now.marks.taken_ts, ..was.marks })
            &&& was.marks.taken_ts is Some ==> now == was
            &&& was.marks.taken_ts is None && 0 <= k < pairs.len() && pairs[k].0 == was.id && (
            forall|j: int| 0 <= j < k ==> (#[trigger] pairs[j]).0 != was.id) ==> now.marks.taken_ts
                == Some(pairs[k].1)
            &&& was.marks.taken_ts is None && (forall|j: int|
                0 <= j < pairs.len() ==> (#[trigger] pairs[j]).0 != was.id) ==> now == was
        }),
{
    lemma_first_for(pairs, lib.photos[i].id, k);
}

proof fn lemma_first_for(pairs: Seq<(i64, i64)>, key: i64, k: int)
    ensures
        0 <= k < pairs.len() && pairs[k].0 == key && (forall|j: int|
            0 <= j < k ==> (#[trigger] pairs[j]).0 != key) ==> first_for(pairs, key) == Some(
            pairs[k].1,
        ),
        (forall|j: int| 0 <= j < pairs.len() ==> (#[trigger] pairs[j]).0 != key) ==> first_for(
            pairs,
            key,
        ) is None,
    decreases pairs.len(),
{
    if pairs.len() > 0 {
        let rest = pairs.drop_first();
        lemma_first_for(rest, key, k - 1);
        if forall|j: int| 0 <= j < pairs.len() ==> (#[trigger] pairs[j]).0 != key {
            assert forall|j: int| 0 <= j < rest.len() implies (#[trigger] rest[j]).0 != key by {
                assert(pairs[j + 1] == rest[j]);
            }
            assert(pairs[0].0 != key);
        }
        if 1 <= k < pairs.len() && pairs[k].0 == key && (forall|j: int|
            0 <= j < k ==> (#[trigger] pairs[j]).0 != key) {
            assert(pairs[0].0 != key);
            assert forall|j: int| 0 <= j < k - 1 implies (#[trigger] rest[j]).0 != key by {
                assert(pairs[j + 1] == rest[j]);
            }
            assert(rest[k - 1] == pairs[k]);
        }
    }
}

/// **A name dates the undated.** A photo without a date gets the one in its file's name, if
/// there is one; and as many are counted as get one.
pub proof fn law_names_date_the_undated(lib: LibraryView, i: int)
    requires
        0 <= i < lib.photos.len(),
    ensures
        ({
            let (was, now) = (lib.photos[i], lib.with_photo_marks(dated_by_name()).photos[i]);
            &&& same_photo(was, now)
            &&& now.marks == (PhotoMarks { taken_ts: now.marks.taken_ts, ..was.marks })
            &&& was.marks.taken_ts is Some ==> now == was
            &&& was.marks.taken_ts is None ==> now.marks.taken_ts == named_date(was.path)
        }),
        tally(lib.photos, datable()) == lib.photos.filter(
            |p: PhotoView| p.marks.taken_ts is None && named_date(p.path) is Some,
        ).len(),
{
    lemma_tally_filter(
        lib.photos,
        datable(),
        |p: PhotoView| p.marks.taken_ts is None && named_date(p.path) is Some,
    );
}

/// **A star is a star, and hiding is hiding.** Starring sets or clears the favorite flag of the
/// listed photos and nothing else; archiving the hidden flag.
pub proof fn law_flags_are_set(lib: LibraryView, ids: Seq<i64>, on: bool, i: int)
    requires
        0 <= i < lib.photos.len(),
    ensures
        ({
            let was = lib.photos[i];
            let star = lib.with_photo_marks(starred(ids, on)).photos[i];
            let hide = lib.with_photo_marks(archived(ids, on)).photos[i];
            &&& same_photo(was, star) && same_photo(was, hide)
            &&& ids.contains(was.id) ==> star.marks == (PhotoMarks { favorite: on, ..was.marks })
                && hide.marks == (PhotoMarks { hidden: on, ..was.marks })
            &&& !ids.contains(was.id) ==> star == was && hide == was
        }),
{
}

/// **A position is recorded once it was looked for**, found or not.
pub proof fn law_positions_are_recorded(
    lib: LibraryView,
    id: i64,
    gps: Option<Position>,
    i: int,
)
    requires
        0 <= i < lib.photos.len(),
    ensures
        ({
            let (was, now) = (lib.photos[i], lib.with_photo_marks(with_position(id, gps)).photos[i]);
            &&& same_photo(was, now)
            &&& was.id == id ==> now.marks == (PhotoMarks { gps, geo_scanned: true, ..was.marks })
            &&& was.id != id ==> now == was
        }),
{
}

/// **The map shows every photo with a position**, where it is and when it was taken.
pub proof fn law_map_shows_positions(p: PhotoView)
    ensures
        located()(p) is Some <==> p.marks.gps is Some,
        located()(p) matches Some(g) ==> g.id == p.id && Some(g.position) == p.marks.gps && g.ts
            == (match p.marks.taken_ts {
            Some(ts) => ts,
            None => p.mtime,
        }),
{
}

/// **A photo is scanned, or to be scanned again.** Saving its faces marks it as scanned; re-arming
/// clears that, and knocks a cached thumbnail back to pending, but no other status.
pub proof fn law_scans_are_marked(lib: LibraryView, id: i64, ids: Seq<i64>, i: int)
    requires
        0 <= i < lib.photos.len(),
    ensures
        ({
            let was = lib.photos[i];
            let done = lib.with_photo_marks(scanned(id)).photos[i];
            let again = lib.with_photo_marks(rearmed(ids)).photos[i];
            let reset = lib.with_photo_marks(unscanned()).photos[i];
            &&& same_photo(was, done) && same_photo(was, again) && same_photo(was, reset)
            &&& was.id == id ==> done.marks == (PhotoMarks { faces_scanned: 1, ..was.marks })
            &&& was.id != id ==> done == was
            &&& ids.contains(was.id) ==> again.marks == (PhotoMarks {
                faces_scanned: 0,
                status: if was.marks.status == 1 {
                    0
                } else {
                    was.marks.status
                },
                ..was.marks
            })
            &&& !ids.contains(was.id) ==> again == was
            &&& reset.marks == (PhotoMarks { faces_scanned: 0, ..was.marks })
        }),
{
}

/// **A worker's outcome is ready or the failure's status.**
pub proof fn law_outcomes(fail_status: i64)
    ensures
        outcome(true, fail_status) == 1,
        outcome(false, fail_status) == fail_status,
{
}

/// **A digest is recorded for its photo alone.**
pub proof fn law_digests_are_recorded(photos: Seq<PhotoView>, id: i64, hash: Seq<char>, i: int)
    requires
        0 <= i < photos.len(),
    ensures
        hashed(photos, id, hash).len() == photos.len(),
        photos[i].id == id ==> hashed(photos, id, hash)[i] == (PhotoView {
            content_hash: Some(hash),
            ..photos[i]
        }),
        photos[i].id != id ==> hashed(photos, id, hash)[i] == photos[i],
{
}

/// **Status and path of the photos asked about.**
pub proof fn law_status_is_reported(p: PhotoView, ids: Seq<i64>)
    ensures
        status_of(ids)(p) == (if ids.contains(p.id) {
            Some((p.id, p.marks.status, p.path))
        } else {
            None
        }),
{
}

/// **A rescan deletes what it did not see, and only that.** A photo stays exactly if it was seen
/// in this generation; the faces of a photo that goes, go with it, and no others.
pub proof fn law_prune_deletes_the_unseen(lib: LibraryView, gen: i64, i: int, j: int)
    requires
        lib.wf(),
        0 <= i < lib.photos.len(),
        0 <= j < lib.faces.len(),
    ensures
        pruned(lib, gen).photos.contains(lib.photos[i]) <==> lib.photos[i].marks.seen == gen,
        unseen(lib, gen).contains(lib.photos[i].id) <==> lib.photos[i].marks.seen != gen,
        lib.faces[j].photo_id == lib.photos[i].id ==> (pruned(lib, gen).faces.contains(lib.faces[j])
            <==> lib.photos[i].marks.seen == gen),
        (forall|k: int|
            0 <= k < lib.photos.len() ==> (#[trigger] lib.photos[k]).id != lib.faces[j].photo_id)
            ==> pruned(lib, gen).faces.contains(lib.faces[j]),
        pruned(lib, gen).identities == lib.identities,
        pruned(lib, gen).cannot_link == lib.cannot_link,
        pruned(lib, gen).roots == lib.roots,
{
    lemma_gone(lib.photos, seen_in(gen), i);
    let ids = unseen(lib, gen);
    lemma_kept_face(lib.faces, ids, j);
    if (forall|k: int|
        0 <= k < lib.photos.len() ==> (#[trigger] lib.photos[k]).id != lib.faces[j].photo_id) {
        if ids.contains(lib.faces[j].photo_id) {
            let at = law_picking_keeps_the_order(lib.photos, id_unless(seen_in(gen)));
            let p = choose|p: int| 0 <= p < ids.len() && ids[p] == lib.faces[j].photo_id;
            assert(id_unless(seen_in(gen))(lib.photos[at[p]]) == Some(ids[p]));
        }
    }
}

proof fn lemma_gone(photos: Seq<PhotoView>, test: spec_fn(PhotoView) -> bool, i: int)
    requires
        photos_wf(photos),
        0 <= i < photos.len(),
    ensures
        kept(photos, test).contains(photos[i]) <==> test(photos[i]),
        select(photos, id_unless(test)).contains(photos[i].id) <==> !test(photos[i]),
{
    let at = law_keeping_keeps_the_order(photos, test);
    let gone = law_picking_keeps_the_order(photos, id_unless(test));
    let (stay, go) = (kept(photos, test), select(photos, id_unless(test)));
    if test(photos[i]) {
        assert(at.contains(i));
        let p = choose|p: int| 0 <= p < at.len() && at[p] == i;
        assert(stay[p] == photos[at[p]]);
    } else {
        assert(id_unless(test)(photos[i]) is Some);
        assert(gone.contains(i));
        let p = choose|p: int| 0 <= p < gone.len() && gone[p] == i;
        assert(id_unless(test)(photos[gone[p]]) == Some(go[p]));
    }
    if stay.contains(photos[i]) {
        let p = choose|p: int| 0 <= p < stay.len() && stay[p] == photos[i];
        assert(test(photos[at[p]]) && photos[at[p]] == photos[i]);
    }
    if go.contains(photos[i].id) {
        let p = choose|p: int| 0 <= p < go.len() && go[p] == photos[i].id;
        assert(id_unless(test)(photos[gone[p]]) == Some(go[p]));
        if gone[p] < i {
            assert(photos[gone[p]].id < photos[i].id);
        } else if i < gone[p] {
            assert(photos[i].id < photos[gone[p]].id);
        }
    }
}

proof fn lemma_kept_face(faces: Seq<FaceView>, ids: Seq<i64>, j: int)
    requires
        0 <= j < faces.len(),
    ensures
        kept(faces, outside(ids)).contains(faces[j]) <==> !ids.contains(faces[j].photo_id),
{
    let stay = kept(faces, outside(ids));
    let at = law_keeping_keeps_the_order(faces, outside(ids));
    if !ids.contains(faces[j].photo_id) {
        assert(outside(ids)(faces[j]));
        assert(at.contains(j));
        let p = choose|p: int| 0 <= p < at.len() && at[p] == j;
        assert(stay[p] == faces[at[p]]);
    }
    if stay.contains(faces[j]) {
        let p = choose|p: int| 0 <= p < stay.len() && stay[p] == faces[j];
        assert(outside(ids)(faces[at[p]]) && faces[at[p]] == faces[j]);
    }
}

/// **The faces of photos that go, go.** Of a list of photos, just their faces are named and
/// deleted.
pub proof fn law_faces_go_with_their_photos(lib: LibraryView, ids: Seq<i64>, j: int)
    requires
        lib.wf(),
        0 <= j < lib.faces.len(),
    ensures
        kept(lib.faces, outside(ids)).contains(lib.faces[j]) <==> !ids.contains(
            lib.faces[j].photo_id,
        ),
        select(lib.faces, face_of(ids)).contains(lib.faces[j].id) <==> ids.contains(
            lib.faces[j].photo_id,
        ),
{
    lemma_kept_face(lib.faces, ids, j);
    let go = select(lib.faces, face_of(ids));
    let at = law_picking_keeps_the_order(lib.faces, face_of(ids));
    if ids.contains(lib.faces[j].photo_id) {
        assert(face_of(ids)(lib.faces[j]) is Some);
        assert(at.contains(j));
        let p = choose|p: int| 0 <= p < at.len() && at[p] == j;
        assert(face_of(ids)(lib.faces[at[p]]) == Some(go[p]));
    }
    if go.contains(lib.faces[j].id) {
        let p = choose|p: int| 0 <= p < go.len() && go[p] == lib.faces[j].id;
        assert(face_of(ids)(lib.faces[at[p]]) == Some(go[p]));
        if at[p] < j {
            assert(lib.faces[at[p]].id < lib.faces[j].id);
        } else if j < at[p] {
            assert(lib.faces[j].id < lib.faces[at[p]].id);
        }
    }
}

/// **Forgetting a folder forgets the photos in it, and no others.** A photo goes exactly if its
/// path is the folder's, or continues it after a slash; a folder whose name only starts the
/// same keeps its photos.
pub proof fn law_forgotten_folder(lib: LibraryView, root: Seq<char>, i: int, rest: Seq<char>)
    requires
        lib.wf(),
        0 <= i < lib.photos.len(),
    ensures
        ({
            let path = lib.photos[i].path;
            let gone = !without_root(lib, root).photos.contains(lib.photos[i]);
            &&& gone <==> ids_in(lib, root).contains(lib.photos[i].id)
            &&& path == root ==> gone
            &&& root.len() > 0 && root.last() != '/' && path == root + seq!['/'] + rest ==> gone
            &&& root.len() > 0 && root.last() == '/' && path == root + rest ==> gone
            &&& gone ==> path == root || (path.len() > root.len() && path.take(root.len() as int)
                == root) || (path.len() == root.len() && root.len() > 0 && path == root)
            &&& gone && path != root && root.len() > 0 && root.last() != '/'
                ==> path[root.len() as int] == '/'
        }),
        without_root(lib, root).roots.contains(root) == false,
        forall|r: Seq<char>|
            r != root ==> (#[trigger] without_root(lib, root).roots.contains(r)
                <==> lib.roots.contains(r)),
        without_root(lib, root).identities == lib.identities,
{
    let path = lib.photos[i].path;
    lemma_gone(lib.photos, not_in(root), i);
    let below = if root.len() > 0 && root.last() == '/' {
        root
    } else {
        root.push('/')
    };
    assert(root + seq!['/'] =~= root.push('/'));
    if path == root + seq!['/'] + rest {
        assert(path.take(root.len() as int + 1) =~= root.push('/'));
        assert(root.push('/').is_prefix_of(path)) by {
            assert(path.take(root.push('/').len() as int) =~= root.push('/'));
        }
    }
    if path == root + rest {
        assert(path.take(root.len() as int) =~= root);
    }
    if below.is_prefix_of(path) {
        assert(path.take(root.len() as int) =~= root) by {
            assert forall|k: int| 0 <= k < root.len() implies path[k] == root[k] by {
                assert(path[k] == below[k]);
            }
        }
        if root.len() > 0 && root.last() != '/' {
            assert(path[root.len() as int] == below[root.len() as int]);
        }
        if path.len() == root.len() {
            assert(path =~= root);
        }
    }
    let roots = without_root(lib, root).roots;
    let at = law_keeping_keeps_the_order(lib.roots, other_root(root));
    if roots.contains(root) {
        let p = choose|p: int| 0 <= p < roots.len() && roots[p] == root;
        assert(other_root(root)(lib.roots[at[p]]));
    }
    assert forall|r: Seq<char>| r != root implies (#[trigger] roots.contains(r)
        <==> lib.roots.contains(r)) by {
        if roots.contains(r) {
            let p = choose|p: int| 0 <= p < roots.len() && roots[p] == r;
            assert(lib.roots[at[p]] == r);
        }
        if lib.roots.contains(r) {
            let k = choose|k: int| 0 <= k < lib.roots.len() && lib.roots[k] == r;
            assert(other_root(root)(lib.roots[k]));
            assert(at.contains(k));
            let p = choose|p: int| 0 <= p < at.len() && at[p] == k;
            assert(roots[p] == r);
        }
    }
}

} // verus!
