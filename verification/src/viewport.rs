//! What is fetched and made next: the photos on screen first, the rest in the background.

use vstd::prelude::*;

use crate::library::{
    Library, LibraryView, PhotoView, STATUS_CLOUD, STATUS_DOWNLOADING, STATUS_READY,
};
use crate::order::{limit_to, limited};
use crate::photos::{
    cloud_after, cloud_jobs_after, date_if_empty, ids_of, job_ids, job_of, job_where,
    set_status, set_status_many, set_taken_ts_if_empty, with_status, Job,
};
use crate::rows::{holds, select, views};
use crate::thumb_queue::{QueueView, ThumbQueue};

verus! {

/// How many concurrent cloud downloads are allowed.
pub const CLOUD_WORKERS: usize = 3;

/// How many cloud-only photos the background pass queues at once.
pub const BACKFILL_BATCH: i64 = 50;

/// How many originals are hashed per batch.
pub const HASH_BATCH: i64 = 100;

/// Tests for a listed photo whose original is not on this disk.
pub open spec fn visible_cloud(ids: Seq<i64>) -> spec_fn(PhotoView) -> bool {
    |p: PhotoView|
        ids.contains(p.id) && (p.marks.status == STATUS_CLOUD || p.marks.status
            == STATUS_DOWNLOADING)
}

/// Picks the listed photos that wait as placeholders.
pub open spec fn visible_placeholder(ids: Seq<i64>) -> spec_fn(PhotoView) -> Option<i64> {
    |p: PhotoView|
        if ids.contains(p.id) && p.marks.status == STATUS_CLOUD {
            Some(p.id)
        } else {
            None
        }
}

/// The cloud queue after the jobs were queued and moved to the front.
pub open spec fn promoted(q: QueueView, jobs: Seq<Job>) -> QueueView {
    q.with_jobs(jobs).with_priority(job_ids(views(jobs)))
}

/// Which photos are on screen. Local thumbnails for those photos jump the queue;
/// cloud-only photos among them are marked as downloading and promoted to the priority
/// lane of the cloud queue. Returns the photos that start to download.
pub fn set_visible_range(
    lib: &mut Library,
    local: &mut ThumbQueue,
    cloud: &mut ThumbQueue,
    ids: &Vec<i64>,
) -> (started: Vec<i64>)
    requires
        old(lib).wf(),
        old(local).wf(),
        old(cloud).wf(),
    ensures
        final(lib).wf(),
        final(local).wf(),
        final(cloud).wf(),
        final(local)@ == old(local)@.with_priority(ids@),
        started@ == select(old(lib)@.photos, visible_placeholder(ids@)),
        final(lib)@ == old(lib)@.with_photo_marks(with_status(started@, STATUS_DOWNLOADING)),
        exists|jobs: Seq<Job>| #[trigger]
            views(jobs) == select(old(lib)@.photos, job_where(visible_cloud(ids@))) && final(cloud)@
                == promoted(old(cloud)@, jobs),
{
    local.set_priority(ids);
    let ghost rows = lib@.photos;
    let mut jobs: Vec<Job> = Vec::new();
    let mut started: Vec<i64> = Vec::new();
    assert(views(jobs@) =~= Seq::empty());
    for i in 0..lib.photos.len()
        invariant
            rows == lib@.photos,
            views(jobs@) == select(rows.take(i as int), job_where(visible_cloud(ids@))),
            started@ == select(rows.take(i as int), visible_placeholder(ids@)),
    {
        assert(rows.take(i + 1).drop_last() == rows.take(i as int));
        let p = &lib.photos[i];
        assert(rows[i as int] == p@);
        let ghost held = views(jobs@);
        let status: i64 = p.marks.status;
        if holds(ids, p.id) && (status == STATUS_CLOUD || status == STATUS_DOWNLOADING) {
            let job = Job { id: p.id, path: p.path.clone() };
            jobs.push(job);
            assert(views(jobs@) =~= held.push(job_of(p@)));
            if status == STATUS_CLOUD {
                started.push(p.id);
            }
        }
    }
    assert(rows.take(rows.len() as int) == rows);
    set_status_many(lib, &started, STATUS_DOWNLOADING);
    let job_list = ids_of(&jobs);
    let ghost queued = jobs@;
    cloud.enqueue(jobs);
    cloud.set_priority(&job_list);
    assert(views(queued) == select(rows, job_where(visible_cloud(ids@))));
    started
}

/// One step of the background pass over the cloud-only photos.
pub struct Backfill {
    /// What to queue now; empty at the end of the library.
    pub jobs: Vec<Job>,
    /// Where the next step starts; zero to start over.
    pub after_id: i64,
}

/// Where the background pass goes on after some jobs: behind the last, or from the start.
pub open spec fn goes_on_after(jobs: Seq<Job>) -> i64 {
    if jobs.len() == 0 {
        0
    } else {
        jobs.last().id
    }
}

/// The next cloud-only photos after `after_id`, and where to go on. At the end of the
/// library the pass starts over.
pub fn backfill_step(lib: &Library, after_id: i64) -> (step: Backfill)
    ensures
        views(step.jobs@) == limited(
            select(lib@.photos, job_where(cloud_after(after_id))),
            BACKFILL_BATCH as int,
        ),
        step.after_id == goes_on_after(step.jobs@),
        step.after_id == if step.jobs@.len() == 0 {
            0
        } else {
            step.jobs@.last().id
        },
{
    let jobs = cloud_jobs_after(lib, after_id, BACKFILL_BATCH);
    let n: usize = jobs.len();
    let after_id: i64 = if n == 0 {
        0
    } else {
        jobs[n - 1].id
    };
    Backfill { jobs, after_id }
}

/// The status of a photo after a worker was at it: a thumbnail is cached, or it could not
/// be made. (Local photos then count as failed; cloud photos fall back to placeholders, so
/// that a later visit can retry the download.)
pub open spec fn outcome(ok: bool, fail_status: i64) -> i64 {
    if ok {
        STATUS_READY
    } else {
        fail_status
    }
}

/// The library after a worker was at a photo.
pub open spec fn thumb_finished(
    lib: LibraryView,
    id: i64,
    ok: bool,
    fail_status: i64,
    taken_ts: Option<i64>,
) -> LibraryView {
    let set = lib.with_photo_marks(with_status(seq![id], outcome(ok, fail_status)));
    match taken_ts {
        Some(ts) if outcome(ok, fail_status) == STATUS_READY => set.with_photo_marks(
            date_if_empty(seq![(id, ts)]),
        ),
        _ => set,
    }
}

/// Record a worker's outcome. The capture date that was read from a file that is local now
/// is filled in where there is none yet. Returns whether a thumbnail exists now: a failed
/// cloud download must not be shown as a (missing) image.
pub fn finish_thumb(
    lib: &mut Library,
    queue: &mut ThumbQueue,
    id: i64,
    ok: bool,
    fail_status: i64,
    taken_ts: Option<i64>,
) -> (shown: bool)
    requires
        old(lib).wf(),
        old(queue).wf(),
    ensures
        final(lib).wf(),
        final(queue).wf(),
        final(queue)@ == old(queue)@.finished(id),
        final(lib)@ == thumb_finished(old(lib)@, id, ok, fail_status, taken_ts),
        shown == (outcome(ok, fail_status) == STATUS_READY),
        final(lib)@ == (match taken_ts {
            Some(ts) if outcome(ok, fail_status) == STATUS_READY => old(lib)@.with_photo_marks(
                with_status(seq![id], outcome(ok, fail_status)),
            ).with_photo_marks(date_if_empty(seq![(id, ts)])),
            _ => old(lib)@.with_photo_marks(with_status(seq![id], outcome(ok, fail_status))),
        }),
{
    let status: i64 = if ok {
        STATUS_READY
    } else {
        fail_status
    };
    set_status(lib, id, status);
    if status == STATUS_READY {
        if let Some(ts) = taken_ts {
            set_taken_ts_if_empty(lib, id, ts);
        }
    }
    queue.complete(id);
    status == STATUS_READY
}

/// Tests for a local photo whose original was not hashed. Placeholders are never touched:
/// reading one would download it.
pub open spec fn unhashed() -> spec_fn(PhotoView) -> bool {
    |p: PhotoView|
        p.content_hash is None && p.marks.status != STATUS_CLOUD && p.marks.status
            != STATUS_DOWNLOADING
}

/// The next local originals to hash, by id.
pub fn unhashed_local_batch(lib: &Library, limit: i64) -> (out: Vec<Job>)
    ensures
        views(out@) == limited(select(lib@.photos, job_where(unhashed())), limit as int),
{
    let ghost rows = lib@.photos;
    let mut out: Vec<Job> = Vec::new();
    assert(views(out@) =~= Seq::empty());
    for i in 0..lib.photos.len()
        invariant
            rows == lib@.photos,
            views(out@) == select(rows.take(i as int), job_where(unhashed())),
    {
        assert(rows.take(i + 1).drop_last() == rows.take(i as int));
        let p = &lib.photos[i];
        assert(rows[i as int] == p@);
        let ghost held = views(out@);
        let status: i64 = p.marks.status;
        if p.content_hash.is_none() && status != STATUS_CLOUD && status != STATUS_DOWNLOADING {
            out.push(Job { id: p.id, path: p.path.clone() });
            assert(views(out@) =~= held.push(job_of(p@)));
        }
    }
    assert(rows.take(rows.len() as int) == rows);
    let ghost all = out@;
    limit_to(&mut out, limit);
    assert(views(out@) =~= limited(views(all), limit as int));
    out
}

/// The photos with one photo's digest recorded.
pub open spec fn hashed(photos: Seq<PhotoView>, id: i64, hash: Seq<char>) -> Seq<PhotoView> {
    photos.map_values(
        |p: PhotoView|
            if p.id == id {
                PhotoView { content_hash: Some(hash), ..p }
            } else {
                p
            },
    )
}

/// Record the digest of a photo's original; the empty text for a file that cannot be read,
/// so that it is never retried.
pub fn set_content_hash(lib: &mut Library, id: i64, hash: &str)
    requires
        old(lib).wf(),
    ensures
        final(lib)@ == (LibraryView { photos: hashed(old(lib)@.photos, id, hash@), ..old(lib)@ }),
        final(lib).wf(),
{
    let ghost before = lib@;
    let n: usize = lib.photos.len();
    for i in 0..n
        invariant
            n == lib.photos@.len(),
            n == before.photos.len(),
            lib@ == (LibraryView { photos: lib@.photos, ..before }),
            forall|k: int|
                0 <= k < i ==> (#[trigger] lib.photos@[k])@ == hashed(before.photos, id, hash@)[k],
            forall|k: int| i <= k < n ==> (#[trigger] lib.photos@[k])@ == before.photos[k],
    {
        assert(lib.photos@[i as int]@ == before.photos[i as int]);
        if lib.photos[i].id == id {
            lib.photos[i].content_hash = Some(hash.to_owned());
        }
    }
    assert(lib@.photos =~= hashed(before.photos, id, hash@));
    proof {
        let after = lib@.photos;
        assert forall|i: int| 0 <= i < after.len() implies (#[trigger] after[i]).id
            == before.photos[i].id && after[i].path == before.photos[i].path by {}
    }
}

} // verus!
