//! Places and days: where photos were taken, and what was taken on this day.

use vstd::prelude::*;

use crate::dates::{date_of, day_number, day_of, is_date, law_dates_are_ordered};
use crate::exif_meta::Position;
use crate::groups::{photo_row, row_of, timeline, to_timeline, PhotoRow};
use crate::library::{
    mark_photos, pick_photos, Library, Photo, PhotoMarks, PhotoView, STATUS_CLOUD,
    STATUS_DOWNLOADING,
};
use crate::order::{limit_to, limited};
use crate::photos::{job_of, job_where, Job};
use crate::rows::{select, views};

verus! {

/// The largest byte range of the basemap that is served at once. A vector tile is at most
/// a few megabytes; anything bigger is a confused caller.
pub const MAX_RANGE: u64 = 33_554_432;

/// How many photos are looked at per batch of the position backfill.
pub const GEO_BATCH: i64 = 500;

/// One located photo on the map: its position, and the moment the timeline sorts it by.
#[derive(Clone, Copy, PartialEq, Eq, Structural, Debug)]
pub struct GeoPoint {
    pub id: i64,
    pub position: Position,
    pub ts: i64,
}

/// Picks the photos with a position.
pub open spec fn located() -> spec_fn(PhotoView) -> Option<GeoPoint> {
    |p: PhotoView|
        match p.marks.gps {
            Some(position) => Some(GeoPoint { id: p.id, position, ts: p.ts() }),
            None => None,
        }
}

/// Every photo with a GPS fix: the map's whole dataset in one read.
pub fn geo_points(lib: &Library) -> (out: Vec<GeoPoint>)
    ensures
        out@ == select(lib@.photos, located()),
{
    let pick = |p: &Photo| -> (b: Option<GeoPoint>)
        ensures
            b == located()(p@),
        {
            match p.marks.gps {
                Some(position) => Some(GeoPoint { id: p.id, position, ts: row_of(p).ts }),
                None => None,
            }
        };
    pick_photos(lib, pick, Ghost(located()))
}

/// Tests for a local photo whose position was not looked for.
pub open spec fn unlocated() -> spec_fn(PhotoView) -> bool {
    |p: PhotoView|
        !p.marks.geo_scanned && p.marks.status != STATUS_CLOUD && p.marks.status
            != STATUS_DOWNLOADING
}

/// The next local photos whose EXIF was never checked for a position, by id.
pub fn geo_backfill_batch(lib: &Library, limit: i64) -> (out: Vec<Job>)
    ensures
        views(out@) == limited(select(lib@.photos, job_where(unlocated())), limit as int),
{
    let ghost rows = lib@.photos;
    let mut out: Vec<Job> = Vec::new();
    assert(views(out@) =~= Seq::empty());
    for i in 0..lib.photos.len()
        invariant
            rows == lib@.photos,
            views(out@) == select(rows.take(i as int), job_where(unlocated())),
    {
        assert(rows.take(i + 1).drop_last() == rows.take(i as int));
        let p = &lib.photos[i];
        assert(rows[i as int] == p@);
        let ghost held = views(out@);
        let status: i64 = p.marks.status;
        if !p.marks.geo_scanned && status != STATUS_CLOUD && status != STATUS_DOWNLOADING {
            out.push(Job { id: p.id, path: p.path.clone() });
            assert(views(out@) =~= held.push(job_of(p@)));
        }
    }
    assert(rows.take(rows.len() as int) == rows);
    let ghost all = out@;
    limit_to(&mut out, limit);
    assert(views(out@) =~= limited(views(all), limit as int));
    out
}

/// Records what was found out about a photo's position.
pub open spec fn with_position(id: i64, gps: Option<Position>) -> spec_fn(PhotoView) -> PhotoMarks {
    |p: PhotoView|
        if p.id == id {
            PhotoMarks { gps, geo_scanned: true, ..p.marks }
        } else {
            p.marks
        }
}

/// Record a photo's position, or that it has none.
pub fn set_geo_scanned(lib: &mut Library, id: i64, gps: Option<Position>)
    requires
        old(lib).wf(),
    ensures
        final(lib)@ == old(lib)@.with_photo_marks(with_position(id, gps)),
        final(lib).wf(),
{
    let mark = |p: &Photo| -> (m: PhotoMarks)
        ensures
            m == with_position(id, gps)(p@),
        {
            let mut m = p.marks;
            if p.id == id {
                m.gps = gps;
                m.geo_scanned = true;
            }
            m
        };
    mark_photos(lib, mark, Ghost(with_position(id, gps)));
}

/// A byte range of the basemap is small enough to be served.
pub open spec fn servable(length: u64) -> bool {
    length <= MAX_RANGE
}

/// Whether a byte range of the basemap is served: not if it is too large.
pub fn range_allowed(length: u64) -> (r: bool)
    ensures
        r == servable(length),
        r == (length <= MAX_RANGE),
{
    length <= MAX_RANGE
}

/// The moment falls on the date, UTC.
pub open spec fn falls_on(ts: int, year: int, month: int, day: int) -> bool {
    is_date(year, month, day) && day_number(year, month, day) == day_of(ts)
}

/// The moment falls on the same month and day as today, in an earlier year.
pub open spec fn is_anniversary(ts: int, today: int) -> bool {
    exists|y1: int, y2: int, m: int, d: int| #[trigger]
        falls_on(ts, y1, m, d) && #[trigger] falls_on(today, y2, m, d) && y1 < y2
}

proof fn lemma_one_date(ts: int, y1: int, m1: int, d1: int, y2: int, m2: int, d2: int)
    requires
        falls_on(ts, y1, m1, d1),
        falls_on(ts, y2, m2, d2),
    ensures
        y1 == y2 && m1 == m2 && d1 == d2,
{
    if y1 != y2 || m1 != m2 || d1 != d2 {
        if y1 < y2 || (y1 == y2 && (m1 < m2 || (m1 == m2 && d1 < d2))) {
            law_dates_are_ordered(y1, m1, d1, y2, m2, d2);
        } else {
            law_dates_are_ordered(y2, m2, d2, y1, m1, d1);
        }
    }
}

fn anniversary(ts: i64, today: i64) -> (r: bool)
    ensures
        r == is_anniversary(ts as int, today as int),
{
    let a = date_of(ts);
    let b = date_of(today);
    let r = a.month == b.month && a.day == b.day && a.year < b.year;
    proof {
        let (y1, m1, d1) = (a.year as int, a.month as int, a.day as int);
        let (y2, m2, d2) = (b.year as int, b.month as int, b.day as int);
        assert(falls_on(ts as int, y1, m1, d1));
        assert(falls_on(today as int, y2, m2, d2));
        if is_anniversary(ts as int, today as int) {
            let (p, q, m, d) = choose|p: int, q: int, m: int, d: int| #[trigger]
                falls_on(ts as int, p, m, d) && #[trigger] falls_on(today as int, q, m, d) && p < q;
            lemma_one_date(ts as int, y1, m1, d1, p, m, d);
            lemma_one_date(today as int, y2, m2, d2, q, m, d);
        }
    }
    r
}

/// Picks the photos taken on the day's month and day in past years.
pub open spec fn taken_on_day(today: i64) -> spec_fn(PhotoView) -> Option<PhotoRow> {
    |p: PhotoView|
        match p.marks.taken_ts {
            Some(ts) if is_anniversary(ts as int, today as int) => Some(photo_row(p)),
            _ => None,
        }
}

/// "On this day": photos taken on today's month and day in past years, newest first. Empty
/// when nothing was captured on this date.
pub fn on_this_day(lib: &Library, today: i64) -> (out: Vec<PhotoRow>)
    ensures
        out@ == timeline(select(lib@.photos, taken_on_day(today))),
{
    let pick = |p: &Photo| -> (b: Option<PhotoRow>)
        ensures
            b == taken_on_day(today)(p@),
        {
            match p.marks.taken_ts {
                Some(ts) => if anniversary(ts, today) {
                    Some(row_of(p))
                } else {
                    None
                },
                None => None,
            }
        };
    let rows = pick_photos(lib, pick, Ghost(taken_on_day(today)));
    to_timeline(&rows)
}

} // verus!
