//! Photos: what exists, what is cached, and how the timeline reads it.

use std::collections::HashSet;

use vstd::prelude::*;

use crate::groups::{find_photo, photo_position, photo_row, row_of, timeline, to_timeline, PhotoRow};
use crate::library::{
    lemma_counts_fit, mark_photos, photos_wf, pick_photos, Library, LibraryView, Photo,
    PhotoMarks, PhotoView, FACES_CLAIMED, STATUS_CLOUD, STATUS_DOWNLOADING, STATUS_PENDING,
    STATUS_READY,
};
use crate::order::{limit_to, limited};
use crate::rows::{holds, kept, retain_rows, select, tally, views};
use crate::text::opt_text;

verus! {

broadcast use vstd::std_specs::hash::group_hash_axioms;

/// A unit of work for the thumbnail pipeline: which photo, and where its original
/// lives.
#[derive(Clone, Debug)]
pub struct Job {
    pub id: i64,
    pub path: String,
}

/// A unit of work, mathematically.
pub struct JobView {
    pub id: i64,
    pub path: Seq<char>,
}

impl View for Job {
    type V = JobView;

    open spec fn view(&self) -> JobView {
        JobView { id: self.id, path: self.path@ }
    }
}

/// The work on a photo.
pub open spec fn job_of(p: PhotoView) -> JobView {
    JobView { id: p.id, path: p.path }
}

/// Picks the work on the photos that satisfy `test`.
pub open spec fn job_where(test: spec_fn(PhotoView) -> bool) -> spec_fn(PhotoView) -> Option<
    JobView,
> {
    |p: PhotoView|
        if test(p) {
            Some(job_of(p))
        } else {
            None
        }
}

/// The work on the photos that satisfy a test, by id.
fn list_jobs<F: Fn(&Photo) -> bool>(
    lib: &Library,
    test: F,
    Ghost(g): Ghost<spec_fn(PhotoView) -> bool>,
) -> (out: Vec<Job>)
    requires
        forall|p: &Photo| call_requires(test, (p,)),
        forall|p: &Photo, b: bool| call_ensures(test, (p,), b) ==> b == g(p@),
    ensures
        views(out@) == select(lib@.photos, job_where(g)),
{
    let ghost rows = lib@.photos;
    let mut out: Vec<Job> = Vec::new();
    assert(views(out@) =~= select(rows.take(0), job_where(g)));
    for i in 0..lib.photos.len()
        invariant
            rows == lib@.photos,
            forall|p: &Photo| call_requires(test, (p,)),
            forall|p: &Photo, b: bool| call_ensures(test, (p,), b) ==> b == g(p@),
            views(out@) == select(rows.take(i as int), job_where(g)),
    {
        assert(rows.take(i + 1).drop_last() == rows.take(i as int));
        assert(rows[i as int] == lib.photos@[i as int]@);
        if test(&lib.photos[i]) {
            out.push(Job { id: lib.photos[i].id, path: lib.photos[i].path.clone() });
        }
        assert(views(out@) =~= select(rows.take(i + 1), job_where(g)));
    }
    assert(rows.take(rows.len() as int) == rows);
    out
}

/// Tests for a photo of the status.
pub open spec fn has_status(status: i64) -> spec_fn(PhotoView) -> bool {
    |p: PhotoView| p.marks.status == status
}

/// Local photos that still need a thumbnail, by id. Used at startup to resume an
/// interrupted indexing run. Cloud-only photos wait for the user to look at them.
pub fn pending_jobs(lib: &Library) -> (out: Vec<Job>)
    ensures
        views(out@) == select(lib@.photos, job_where(has_status(STATUS_PENDING))),
{
    let test = |p: &Photo| -> (b: bool)
        ensures
            b == has_status(STATUS_PENDING)(p@),
        { p.marks.status == STATUS_PENDING };
    list_jobs(lib, test, Ghost(has_status(STATUS_PENDING)))
}

/// Tests for a cloud-only photo with a larger id.
pub open spec fn cloud_after(after_id: i64) -> spec_fn(PhotoView) -> bool {
    |p: PhotoView| p.marks.status == STATUS_CLOUD && p.id > after_id
}

/// A page of cloud-only photos with id above `after_id`, by id.
pub fn cloud_jobs_after(lib: &Library, after_id: i64, limit: i64) -> (out: Vec<Job>)
    ensures
        views(out@) == limited(select(lib@.photos, job_where(cloud_after(after_id))), limit as int),
{
    let test = |p: &Photo| -> (b: bool)
        ensures
            b == cloud_after(after_id)(p@),
        { p.marks.status == STATUS_CLOUD && p.id > after_id };
    let mut out = list_jobs(lib, test, Ghost(cloud_after(after_id)));
    let ghost all = out@;
    limit_to(&mut out, limit);
    assert(views(out@) =~= limited(views(all), limit as int));
    out
}

/// Tests for a photo that is ready to be scanned for faces.
pub open spec fn unclaimed() -> spec_fn(PhotoView) -> bool {
    |p: PhotoView| p.marks.status == STATUS_READY && p.marks.faces_scanned == 0
}

/// The photos the next claim takes.
pub open spec fn next_claim(photos: Seq<PhotoView>, limit: int) -> Seq<JobView> {
    limited(select(photos, job_where(unclaimed())), limit)
}

/// The ids of a list of jobs.
pub open spec fn job_ids(jobs: Seq<JobView>) -> Seq<i64> {
    jobs.map_values(|j: JobView| j.id)
}

/// Marks the listed photos as claimed.
pub open spec fn claimed(ids: Seq<i64>) -> spec_fn(PhotoView) -> PhotoMarks {
    |p: PhotoView|
        if ids.contains(p.id) {
            PhotoMarks { faces_scanned: FACES_CLAIMED, ..p.marks }
        } else {
            p.marks
        }
}

/// Take up to `limit` unscanned photos and mark them in-flight, so a pool of face
/// workers can run in parallel without processing the same photo twice.
pub fn claim_faces_batch(lib: &mut Library, limit: i64) -> (out: Vec<Job>)
    requires
        old(lib).wf(),
    ensures
        views(out@) == next_claim(old(lib)@.photos, limit as int),
        final(lib)@ == old(lib)@.with_photo_marks(
            claimed(job_ids(next_claim(old(lib)@.photos, limit as int))),
        ),
        final(lib).wf(),
{
    let test = |p: &Photo| -> (b: bool)
        ensures
            b == unclaimed()(p@),
        { p.marks.status == STATUS_READY && p.marks.faces_scanned == 0 };
    let mut out = list_jobs(lib, test, Ghost(unclaimed()));
    let ghost all = out@;
    limit_to(&mut out, limit);
    assert(views(out@) =~= limited(views(all), limit as int));
    let ids = ids_of(&out);
    let mark = |p: &Photo| -> (m: PhotoMarks)
        ensures
            m == claimed(ids@)(p@),
        {
            if holds(&ids, p.id) {
                PhotoMarks { faces_scanned: FACES_CLAIMED, ..p.marks }
            } else {
                p.marks
            }
        };
    mark_photos(lib, mark, Ghost(claimed(ids@)));
    out
}

/// The ids of a list of jobs.
pub fn ids_of(jobs: &Vec<Job>) -> (ids: Vec<i64>)
    ensures
        ids@ == job_ids(views(jobs@)),
{
    let mut ids: Vec<i64> = Vec::with_capacity(jobs.len());
    for i in 0..jobs.len()
        invariant
            ids@ == job_ids(views(jobs@)).take(i as int),
    {
        ids.push(jobs[i].id);
        assert(ids@ =~= job_ids(views(jobs@)).take(i + 1));
    }
    assert(ids@ =~= job_ids(views(jobs@)));
    ids
}

/// Frees a claimed photo.
pub open spec fn unclaim() -> spec_fn(PhotoView) -> PhotoMarks {
    |p: PhotoView|
        if p.marks.faces_scanned == FACES_CLAIMED {
            PhotoMarks { faces_scanned: 0, ..p.marks }
        } else {
            p.marks
        }
}

/// Tests for a claimed photo.
pub open spec fn is_claimed() -> spec_fn(PhotoView) -> bool {
    |p: PhotoView| p.marks.faces_scanned == FACES_CLAIMED
}

/// Clear any in-flight claims left behind by a crash/quit, so those photos are scanned
/// again on the next run. Returns how many were reset.
pub fn reset_claimed_faces(lib: &mut Library) -> (n: usize)
    requires
        old(lib).wf(),
    ensures
        final(lib)@ == old(lib)@.with_photo_marks(unclaim()),
        final(lib).wf(),
        n == tally(old(lib)@.photos, is_claimed()),
{
    let test = |p: &Photo| -> (b: bool)
        ensures
            b == is_claimed()(p@),
        { p.marks.faces_scanned == FACES_CLAIMED };
    let n: usize = count_where(lib, test, Ghost(is_claimed()));
    let mark = |p: &Photo| -> (m: PhotoMarks)
        ensures
            m == unclaim()(p@),
        {
            if p.marks.faces_scanned == FACES_CLAIMED {
                PhotoMarks { faces_scanned: 0, ..p.marks }
            } else {
                p.marks
            }
        };
    mark_photos(lib, mark, Ghost(unclaim()));
    n
}

/// How many photos satisfy a test.
fn count_where<F: Fn(&Photo) -> bool>(
    lib: &Library,
    test: F,
    Ghost(g): Ghost<spec_fn(PhotoView) -> bool>,
) -> (n: usize)
    requires
        forall|p: &Photo| call_requires(test, (p,)),
        forall|p: &Photo, b: bool| call_ensures(test, (p,), b) ==> b == g(p@),
    ensures
        n == tally(lib@.photos, g),
        n <= lib@.photos.len(),
{
    let ghost rows = lib@.photos;
    let mut n: usize = 0;
    for i in 0..lib.photos.len()
        invariant
            rows == lib@.photos,
            forall|p: &Photo| call_requires(test, (p,)),
            forall|p: &Photo, b: bool| call_ensures(test, (p,), b) ==> b == g(p@),
            n == tally(rows.take(i as int), g),
            n <= i,
    {
        assert(rows.take(i + 1).drop_last() == rows.take(i as int));
        assert(rows[i as int] == lib.photos@[i as int]@);
        if test(&lib.photos[i]) {
            n = n + 1;
        }
    }
    assert(rows.take(rows.len() as int) == rows);
    n
}

/// Tests for a photo with a thumbnail whose faces were scanned.
pub open spec fn ready_scanned() -> spec_fn(PhotoView) -> bool {
    |p: PhotoView| p.marks.status == STATUS_READY && p.marks.faces_scanned == 1
}

/// `(photos scanned for faces, photos eligible)`: drives the "Finding people…" readout.
/// Eligible means it has a thumbnail (is local).
pub fn face_progress(lib: &Library) -> (r: (i64, i64))
    requires
        lib.wf(),
    ensures
        r.0 == tally(lib@.photos, ready_scanned()),
        r.1 == tally(lib@.photos, has_status(STATUS_READY)),
{
    proof {
        lemma_counts_fit(lib@);
    }
    let done = |p: &Photo| -> (b: bool)
        ensures
            b == ready_scanned()(p@),
        { p.marks.status == STATUS_READY && p.marks.faces_scanned == 1 };
    let ready = |p: &Photo| -> (b: bool)
        ensures
            b == has_status(STATUS_READY)(p@),
        { p.marks.status == STATUS_READY };
    let scanned: usize = count_where(lib, done, Ghost(ready_scanned()));
    let eligible: usize = count_where(lib, ready, Ghost(has_status(STATUS_READY)));
    (scanned as i64, eligible as i64)
}

/// The face sweep is done: there are local photos, and each is scanned.
pub open spec fn settled(lib: LibraryView) -> bool {
    let eligible = tally(lib.photos, has_status(STATUS_READY));
    eligible > 0 && tally(lib.photos, ready_scanned()) >= eligible
}

/// Whether the face sweep is done. Suggestions and folds wait for it: half-built
/// clusters would misfire.
pub fn is_settled(lib: &Library) -> (r: bool)
    requires
        lib.wf(),
    ensures
        r == settled(lib@),
{
    let (scanned, eligible) = face_progress(lib);
    eligible > 0 && scanned >= eligible
}

/// `(total photos, thumbnails ready)`: drives the header readout and lets a cold start
/// render the grid immediately.
pub fn stats(lib: &Library) -> (r: (i64, i64))
    requires
        lib.wf(),
    ensures
        r.0 == lib@.photos.len(),
        r.1 == tally(lib@.photos, has_status(STATUS_READY)),
{
    proof {
        lemma_counts_fit(lib@);
    }
    let ready = |p: &Photo| -> (b: bool)
        ensures
            b == has_status(STATUS_READY)(p@),
        { p.marks.status == STATUS_READY };
    let n: usize = count_where(lib, ready, Ghost(has_status(STATUS_READY)));
    (lib.photos.len() as i64, n as i64)
}

/// Tests for a favorite.
pub open spec fn is_favorite() -> spec_fn(PhotoView) -> bool {
    |p: PhotoView| p.marks.favorite
}

/// Tests for a hidden photo.
pub open spec fn is_hidden() -> spec_fn(PhotoView) -> bool {
    |p: PhotoView| p.marks.hidden
}

/// Library counts for the header readout.
#[derive(Clone, Copy, PartialEq, Eq, Structural, Debug)]
pub struct LibraryStats {
    pub total: i64,
    pub ready: i64,
    pub favorites: i64,
    pub hidden: i64,
}

/// The library's counts.
pub fn get_library_stats(lib: &Library) -> (s: LibraryStats)
    requires
        lib.wf(),
    ensures
        s.total == lib@.photos.len(),
        s.ready == tally(lib@.photos, has_status(STATUS_READY)),
        s.favorites == tally(lib@.photos, is_favorite()),
        s.hidden == tally(lib@.photos, is_hidden()),
{
    proof {
        lemma_counts_fit(lib@);
    }
    let (total, ready) = stats(lib);
    let starred = |p: &Photo| -> (b: bool)
        ensures
            b == is_favorite()(p@),
        { p.marks.favorite };
    let archived = |p: &Photo| -> (b: bool)
        ensures
            b == is_hidden()(p@),
        { p.marks.hidden };
    let favorites: usize = count_where(lib, starred, Ghost(is_favorite()));
    let hidden: usize = count_where(lib, archived, Ghost(is_hidden()));
    LibraryStats { total, ready, favorites: favorites as i64, hidden: hidden as i64 }
}

/// Which photos a grid shows.
#[derive(Clone, Copy, PartialEq, Eq, Structural, Debug)]
pub enum PhotoFilter {
    Visible,
    Favorites,
    Hidden,
}

impl PhotoFilter {
    /// The filter a word stands for: `"favorites"`, `"hidden"`, and anything else for
    /// what is visible.
    pub open spec fn of(word: Seq<char>) -> PhotoFilter {
        if word == "favorites"@ {
            PhotoFilter::Favorites
        } else if word == "hidden"@ {
            PhotoFilter::Hidden
        } else {
            PhotoFilter::Visible
        }
    }

    /// The photo passes the filter. A hidden photo shows under no other filter.
    pub open spec fn shows(&self, p: PhotoView) -> bool {
        match self {
            PhotoFilter::Visible => !p.marks.hidden,
            PhotoFilter::Favorites => p.marks.favorite && !p.marks.hidden,
            PhotoFilter::Hidden => p.marks.hidden,
        }
    }

    /// The filter a word stands for.
    pub fn parse(word: &str) -> (f: PhotoFilter)
        ensures
            f == PhotoFilter::of(word@),
    {
        let given = word.to_owned();
        if given == "favorites".to_owned() {
            PhotoFilter::Favorites
        } else if given == "hidden".to_owned() {
            PhotoFilter::Hidden
        } else {
            PhotoFilter::Visible
        }
    }

    /// Whether the photo passes the filter.
    pub fn passes(&self, p: &Photo) -> (r: bool)
        ensures
            r == self.shows(p@),
    {
        match self {
            PhotoFilter::Visible => !p.marks.hidden,
            PhotoFilter::Favorites => p.marks.favorite && !p.marks.hidden,
            PhotoFilter::Hidden => p.marks.hidden,
        }
    }
}

/// The photo is among what a search found; everything is, without a search.
pub open spec fn found_in(found: Option<Set<i64>>, p: PhotoView) -> bool {
    found matches Some(ids) ==> ids.contains(p.id)
}

/// What a search found, mathematically.
pub open spec fn found_ids(found: Option<HashSet<i64>>) -> Option<Set<i64>> {
    match found {
        Some(ids) => Some(ids@),
        None => None,
    }
}

/// Whether a photo is among what a search found.
pub fn is_found(found: &Option<HashSet<i64>>, p: &Photo) -> (r: bool)
    ensures
        r == found_in(found_ids(*found), p@),
{
    match found {
        Some(ids) => ids.contains(&p.id),
        None => true,
    }
}

/// Picks the rows of the photos that pass a filter and that a search found.
pub open spec fn row_if(filter: Option<PhotoFilter>, found: Option<Set<i64>>) -> spec_fn(
    PhotoView,
) -> Option<PhotoRow> {
    |p: PhotoView|
        if (filter matches Some(f) ==> f.shows(p)) && found_in(found, p) {
            Some(photo_row(p))
        } else {
            None
        }
}

/// Rows in discovery order or in date order.
pub open spec fn ordered_rows(
    photos: Seq<PhotoView>,
    filter: Option<PhotoFilter>,
    found: Option<Set<i64>>,
    by_date: bool,
) -> Seq<PhotoRow> {
    let rows = select(photos, row_if(filter, found));
    if by_date {
        timeline(rows)
    } else {
        rows
    }
}

/// A window of a list: `limit` items from `offset` on. A negative offset is none, a
/// negative limit is no limit.
pub open spec fn window<T>(s: Seq<T>, offset: int, limit: int) -> Seq<T> {
    let from = if offset < 0 {
        0
    } else if offset > s.len() {
        s.len() as int
    } else {
        offset
    };
    limited(s.skip(from), limit)
}

fn window_of(rows: &Vec<PhotoRow>, offset: i64, limit: i64) -> (out: Vec<PhotoRow>)
    ensures
        out@ == window(rows@, offset as int, limit as int),
{
    let n: usize = rows.len();
    let from: usize = if offset < 0 {
        0
    } else if offset as u64 > n as u64 {
        n
    } else {
        offset as usize
    };
    let mut out: Vec<PhotoRow> = Vec::new();
    for i in from..n
        invariant
            from <= n,
            n == rows@.len(),
            out@ == rows@.subrange(from as int, i as int),
    {
        out.push(rows[i]);
        assert(out@ =~= rows@.subrange(from as int, i + 1));
    }
    assert(out@ =~= rows@.skip(from as int));
    limit_to(&mut out, limit);
    out
}

fn rows_of(
    lib: &Library,
    filter: Option<PhotoFilter>,
    found: &Option<HashSet<i64>>,
    by_date: bool,
) -> (out: Vec<PhotoRow>)
    ensures
        out@ == ordered_rows(lib@.photos, filter, found_ids(*found), by_date),
{
    let pick = |p: &Photo| -> (b: Option<PhotoRow>)
        ensures
            b == row_if(filter, found_ids(*found))(p@),
        {
            let passes = match filter {
                Some(f) => f.passes(p),
                None => true,
            };
            if passes && is_found(found, p) {
                Some(row_of(p))
            } else {
                None
            }
        };
    let rows = pick_photos(lib, pick, Ghost(row_if(filter, found_ids(*found))));
    if by_date {
        to_timeline(&rows)
    } else {
        rows
    }
}

/// Fetch a contiguous window of the library, in one of two orders: *discovery* (by id),
/// used during a live scan so that new photos only ever append; or *date*, newest first
/// by capture date (mtime fallback).
pub fn photos_range(lib: &Library, offset: i64, limit: i64, by_date: bool) -> (out: Vec<PhotoRow>)
    ensures
        out@ == window(
            ordered_rows(lib@.photos, None, None, by_date),
            offset as int,
            limit as int,
        ),
{
    let rows = rows_of(lib, None, &None, by_date);
    window_of(&rows, offset, limit)
}

/// [`photos_range`] under a curation filter, and among what a search found (everything,
/// without a search).
pub fn get_photos_range(
    lib: &Library,
    offset: i64,
    limit: i64,
    by_date: bool,
    filter: PhotoFilter,
    found: &Option<HashSet<i64>>,
) -> (out: Vec<PhotoRow>)
    ensures
        out@ == window(
            ordered_rows(lib@.photos, Some(filter), found_ids(*found), by_date),
            offset as int,
            limit as int,
        ),
{
    let rows = rows_of(lib, Some(filter), found, by_date);
    window_of(&rows, offset, limit)
}

/// Picks the photos without a capture date.
pub open spec fn undated() -> spec_fn(PhotoView) -> bool {
    |p: PhotoView| p.marks.taken_ts is None
}

/// Photos missing a capture date, to backfill filename dates.
pub fn null_date_photos(lib: &Library) -> (out: Vec<Job>)
    ensures
        views(out@) == select(lib@.photos, job_where(undated())),
{
    let test = |p: &Photo| -> (b: bool)
        ensures
            b == undated()(p@),
        { p.marks.taken_ts.is_none() };
    list_jobs(lib, test, Ghost(undated()))
}

/// The value first listed for a key.
pub open spec fn first_for(pairs: Seq<(i64, i64)>, key: i64) -> Option<i64>
    decreases pairs.len(),
{
    if pairs.len() == 0 {
        None
    } else if pairs[0].0 == key {
        Some(pairs[0].1)
    } else {
        first_for(pairs.drop_first(), key)
    }
}

fn find_first(pairs: &Vec<(i64, i64)>, key: i64) -> (found: Option<i64>)
    ensures
        found == first_for(pairs@, key),
{
    assert(pairs@.skip(0) == pairs@);
    for i in 0..pairs.len()
        invariant
            first_for(pairs@, key) == first_for(pairs@.skip(i as int), key),
    {
        assert(pairs@.skip(i as int).drop_first() == pairs@.skip(i + 1));
        if pairs[i].0 == key {
            return Some(pairs[i].1);
        }
    }
    None
}

/// Dates the listed photos that have no date; the first entry for a photo holds.
pub open spec fn date_if_empty(pairs: Seq<(i64, i64)>) -> spec_fn(PhotoView) -> PhotoMarks {
    |p: PhotoView|
        if p.marks.taken_ts is None {
            PhotoMarks { taken_ts: first_for(pairs, p.id), ..p.marks }
        } else {
            p.marks
        }
}

/// Set capture dates for many photos, where still empty. Pairs are `(id, date)`.
pub fn set_taken_ts_batch(lib: &mut Library, pairs: &Vec<(i64, i64)>)
    requires
        old(lib).wf(),
    ensures
        final(lib)@ == old(lib)@.with_photo_marks(date_if_empty(pairs@)),
        final(lib).wf(),
{
    let mark = |p: &Photo| -> (m: PhotoMarks)
        ensures
            m == date_if_empty(pairs@)(p@),
        {
            if p.marks.taken_ts.is_none() {
                PhotoMarks { taken_ts: find_first(pairs, p.id), ..p.marks }
            } else {
                p.marks
            }
        };
    mark_photos(lib, mark, Ghost(date_if_empty(pairs@)));
}

/// Record a photo's capture date once we've read it from a now-local file. Only fills it
/// when still empty, so a date set at scan time is never clobbered.
pub fn set_taken_ts_if_empty(lib: &mut Library, id: i64, ts: i64)
    requires
        old(lib).wf(),
    ensures
        final(lib)@ == old(lib)@.with_photo_marks(date_if_empty(seq![(id, ts)])),
        final(lib).wf(),
{
    let mut pairs: Vec<(i64, i64)> = Vec::new();
    pairs.push((id, ts));
    assert(pairs@ =~= seq![(id, ts)]);
    set_taken_ts_batch(lib, &pairs);
}

/// Picks the status and path of the listed photos.
pub open spec fn status_of(ids: Seq<i64>) -> spec_fn(PhotoView) -> Option<(i64, i64, Seq<char>)> {
    |p: PhotoView|
        if ids.contains(p.id) {
            Some((p.id, p.marks.status, p.path))
        } else {
            None
        }
}

/// Status and path for a set of ids: decides which of the visible photos are cloud-only
/// and need fetching.
pub fn lookup(lib: &Library, ids: &Vec<i64>) -> (out: Vec<(i64, i64, String)>)
    ensures
        views(out@) == select(lib@.photos, status_of(ids@)),
{
    let ghost rows = lib@.photos;
    let mut out: Vec<(i64, i64, String)> = Vec::new();
    assert(views(out@) =~= select(rows.take(0), status_of(ids@)));
    for i in 0..lib.photos.len()
        invariant
            rows == lib@.photos,
            views(out@) == select(rows.take(i as int), status_of(ids@)),
    {
        assert(rows.take(i + 1).drop_last() == rows.take(i as int));
        let p = &lib.photos[i];
        assert(rows[i as int] == p@);
        if holds(ids, p.id) {
            out.push((p.id, p.marks.status, p.path.clone()));
        }
        assert(views(out@) =~= select(rows.take(i + 1), status_of(ids@)));
    }
    assert(rows.take(rows.len() as int) == rows);
    out
}

/// The original file path for one photo id.
pub fn path_for_id(lib: &Library, id: i64) -> (path: Option<String>)
    ensures
        opt_text(path) == (match find_photo(lib@.photos, id) {
            Some(p) => Some(p.path),
            None => None,
        }),
{
    let at = photo_position(lib, id);
    if at < lib.photos.len() {
        Some(lib.photos[at].path.clone())
    } else {
        None
    }
}

/// Detail shown in the viewer chrome: full path and timestamp (the capture date once we
/// have it, else the file's modified-time).
pub fn detail(lib: &Library, id: i64) -> (found: Option<(String, i64)>)
    ensures
        match find_photo(lib@.photos, id) {
            Some(p) => found matches Some(d) && d.0@ == p.path && d.1 == p.ts(),
            None => found is None,
        },
{
    let at = photo_position(lib, id);
    if at < lib.photos.len() {
        let row = row_of(&lib.photos[at]);
        Some((lib.photos[at].path.clone(), row.ts))
    } else {
        None
    }
}

/// Sets the status of the listed photos.
pub open spec fn with_status(ids: Seq<i64>, status: i64) -> spec_fn(PhotoView) -> PhotoMarks {
    |p: PhotoView|
        if ids.contains(p.id) {
            PhotoMarks { status, ..p.marks }
        } else {
            p.marks
        }
}

/// Mark a thumbnail's outcome (ready / failed / downloading / cloud).
pub fn set_status(lib: &mut Library, id: i64, status: i64)
    requires
        old(lib).wf(),
    ensures
        final(lib)@ == old(lib)@.with_photo_marks(with_status(seq![id], status)),
        final(lib).wf(),
{
    let mut ids: Vec<i64> = Vec::new();
    ids.push(id);
    assert(ids@ =~= seq![id]);
    set_status_many(lib, &ids, status);
}

/// Move a set of ids to a status (used when we start fetching the cloud-only photos the
/// user just scrolled to).
pub fn set_status_many(lib: &mut Library, ids: &Vec<i64>, status: i64)
    requires
        old(lib).wf(),
    ensures
        final(lib)@ == old(lib)@.with_photo_marks(with_status(ids@, status)),
        final(lib).wf(),
{
    let mark = |p: &Photo| -> (m: PhotoMarks)
        ensures
            m == with_status(ids@, status)(p@),
        {
            if holds(ids, p.id) {
                PhotoMarks { status, ..p.marks }
            } else {
                p.marks
            }
        };
    mark_photos(lib, mark, Ghost(with_status(ids@, status)));
}

/// Turns an interrupted download back into a placeholder.
pub open spec fn not_downloading() -> spec_fn(PhotoView) -> PhotoMarks {
    |p: PhotoView|
        if p.marks.status == STATUS_DOWNLOADING {
            PhotoMarks { status: STATUS_CLOUD, ..p.marks }
        } else {
            p.marks
        }
}

/// At startup, any photo left downloading wasn't actually being fetched (the previous
/// run ended). Reset it to cloud so it gets re-fetched the next time it's visible.
pub fn set_status_many_where_downloading(lib: &mut Library)
    requires
        old(lib).wf(),
    ensures
        final(lib)@ == old(lib)@.with_photo_marks(not_downloading()),
        final(lib).wf(),
{
    let mark = |p: &Photo| -> (m: PhotoMarks)
        ensures
            m == not_downloading()(p@),
        {
            if p.marks.status == STATUS_DOWNLOADING {
                PhotoMarks { status: STATUS_CLOUD, ..p.marks }
            } else {
                p.marks
            }
        };
    mark_photos(lib, mark, Ghost(not_downloading()));
}

/// Picks the ids of the photos that fail a test.
pub open spec fn id_unless(test: spec_fn(PhotoView) -> bool) -> spec_fn(PhotoView) -> Option<i64> {
    |p: PhotoView|
        if test(p) {
            None
        } else {
            Some(p.id)
        }
}

pub proof fn lemma_kept_photos_wf(photos: Seq<PhotoView>, test: spec_fn(PhotoView) -> bool)
    requires
        photos_wf(photos),
    ensures
        photos_wf(kept(photos, test)),
        forall|p: int|
            0 <= p < kept(photos, test).len() ==> exists|i: int|
                0 <= i < photos.len() && #[trigger] photos[i] == (#[trigger] kept(photos, test)[p]),
    decreases photos.len(),
{
    if photos.len() > 0 {
        let front = photos.drop_last();
        assert(photos_wf(front)) by {
            assert forall|i: int| 0 <= i < front.len() implies (#[trigger] front[i]).id >= 1 by {
                assert(front[i] == photos[i]);
            }
            assert forall|i: int, j: int| 0 <= i < j < front.len() implies (#[trigger] front[i]).id
                < (#[trigger] front[j]).id by {
                assert(front[i] == photos[i] && front[j] == photos[j]);
            }
            assert forall|i: int, j: int| 0 <= i < j < front.len() implies (
            #[trigger] front[i]).path != (#[trigger] front[j]).path by {
                assert(front[i] == photos[i] && front[j] == photos[j]);
            }
        }
        lemma_kept_photos_wf(front, test);
        let rest = kept(front, test);
        let all = kept(photos, test);
        assert(photos[photos.len() - 1] == photos.last());
        assert forall|p: int| 0 <= p < all.len() implies exists|i: int|
            0 <= i < photos.len() && #[trigger] photos[i] == (#[trigger] all[p]) by {
            if p < rest.len() {
                assert(all[p] == rest[p]);
                let i = choose|i: int| 0 <= i < front.len() && #[trigger] front[i] == rest[p];
                assert(photos[i] == all[p]);
            } else {
                assert(photos[photos.len() - 1] == all[p]);
            }
        }
        assert forall|i: int, j: int| 0 <= i < j < all.len() implies (#[trigger] all[i]).id < (
        #[trigger] all[j]).id && all[i].path != all[j].path by {
            assert(all[i] == rest[i]);
            let a = choose|a: int| 0 <= a < front.len() && #[trigger] front[a] == rest[i];
            assert(photos[a] == all[i]);
            if j < rest.len() {
                assert(all[j] == rest[j]);
            } else {
                assert(photos[a].id < photos[photos.len() - 1].id);
                assert(photos[a].path != photos[photos.len() - 1].path);
            }
        }
        assert forall|i: int| 0 <= i < all.len() implies (#[trigger] all[i]).id >= 1 by {
            if i < rest.len() {
                assert(all[i] == rest[i]);
            }
        }
    }
}

/// Tests for a photo seen in the generation.
pub open spec fn seen_in(gen: i64) -> spec_fn(PhotoView) -> bool {
    |p: PhotoView| p.marks.seen == gen
}

/// After a full rescan, delete every photo not marked with the current generation (its
/// file is gone, or its root was removed). Returns the deleted ids.
pub fn take_unseen(lib: &mut Library, gen: i64) -> (ids: Vec<i64>)
    requires
        old(lib).wf(),
    ensures
        final(lib)@ == (LibraryView { photos: kept(old(lib)@.photos, seen_in(gen)), ..old(lib)@ }),
        final(lib).wf(),
        ids@ == select(old(lib)@.photos, id_unless(seen_in(gen))),
{
    let pick = |p: &Photo| -> (b: Option<i64>)
        ensures
            b == id_unless(seen_in(gen))(p@),
        {
            if p.marks.seen == gen {
                None
            } else {
                Some(p.id)
            }
        };
    let ids = pick_photos(lib, pick, Ghost(id_unless(seen_in(gen))));
    proof {
        lemma_kept_photos_wf(lib@.photos, seen_in(gen));
    }
    let test = |p: &Photo| -> (b: bool)
        ensures
            b == seen_in(gen)(p@),
        { p.marks.seen == gen };
    retain_rows(&mut lib.photos, test, Ghost(seen_in(gen)));
    ids
}

} // verus!
