//! What the viewer and the grid ask about photos.

use std::collections::HashSet;

use vstd::prelude::*;

use crate::capture::parse_filename_date;
use crate::groups::{find_photo, photo_position, row_of};
use crate::library::{
    lemma_counts_fit, mark_photos, Library, Photo, PhotoMarks, PhotoView, STATUS_CLOUD,
    STATUS_DOWNLOADING,
};
use crate::paths::{file_name, name_in};
use crate::photos::{date_if_empty, found_ids, found_in, is_found, PhotoFilter};
use crate::rows::tally;
use crate::scan::named_date;
use crate::text::{opt_text, trim, trimmed};

verus! {

/// Detail for the viewer chrome.
pub struct PhotoDetail {
    pub filename: String,
    /// Full path on disk.
    pub path: String,
    /// The capture date when we have it, else the file's modified-time.
    pub timestamp: i64,
    pub favorite: bool,
    pub hidden: bool,
}

/// The detail is the photo's.
pub open spec fn is_detail(d: PhotoDetail, p: PhotoView) -> bool {
    &&& d.filename@ == (match name_in(p.path) {
        Some(name) => name,
        None => p.path,
    })
    &&& d.path@ == p.path
    &&& d.timestamp == p.ts()
    &&& d.favorite == p.marks.favorite
    &&& d.hidden == p.marks.hidden
}

/// Detail for the viewer chrome: file name and a timestamp.
pub fn get_photo_detail(lib: &Library, id: i64) -> (found: Option<PhotoDetail>)
    ensures
        match find_photo(lib@.photos, id) {
            Some(p) => found matches Some(d) && is_detail(d, p),
            None => found is None,
        },
{
    let at = photo_position(lib, id);
    if at >= lib.photos.len() {
        return None;
    }
    let p = &lib.photos[at];
    let filename = match file_name(p.path.as_str()) {
        Some(name) => name,
        None => p.path.clone(),
    };
    Some(
        PhotoDetail {
            filename,
            path: p.path.clone(),
            timestamp: row_of(p).ts,
            favorite: p.marks.favorite,
            hidden: p.marks.hidden,
        },
    )
}

/// What the info card needs of a photo's file.
pub struct PhotoFile {
    pub path: String,
    pub bytes: i64,
    /// The original is a placeholder that must not be read: its bytes would download.
    pub cloud: bool,
}

/// The photo's original is not on this disk.
pub open spec fn is_placeholder(p: PhotoView) -> bool {
    p.marks.status == STATUS_CLOUD || p.marks.status == STATUS_DOWNLOADING
}

/// What the info card needs of a photo's file: its EXIF may be read only if it is local.
pub fn photo_file_info(lib: &Library, id: i64) -> (found: Option<PhotoFile>)
    ensures
        match find_photo(lib@.photos, id) {
            Some(p) => found matches Some(f) && f.path@ == p.path && f.bytes == p.size && f.cloud
                == is_placeholder(p) && f.cloud == (p.marks.status == STATUS_CLOUD || p.marks.status == STATUS_DOWNLOADING),
            None => found is None,
        },
{
    let at = photo_position(lib, id);
    if at >= lib.photos.len() {
        return None;
    }
    let p = &lib.photos[at];
    let status: i64 = p.marks.status;
    Some(
        PhotoFile {
            path: p.path.clone(),
            bytes: p.size,
            cloud: status == STATUS_CLOUD || status == STATUS_DOWNLOADING,
        },
    )
}

/// Tests for a photo a filter shows and a search found.
pub open spec fn shown_by(filter: PhotoFilter, found: Option<Set<i64>>) -> spec_fn(
    PhotoView,
) -> bool {
    |p: PhotoView| filter.shows(p) && found_in(found, p)
}

/// How many photos a filter and a search match: the grid's cell count.
pub fn count_photos(lib: &Library, filter: PhotoFilter, found: &Option<HashSet<i64>>) -> (n: i64)
    requires
        lib.wf(),
    ensures
        n == tally(lib@.photos, shown_by(filter, found_ids(*found))),
{
    let ghost rows = lib@.photos;
    proof {
        lemma_counts_fit(lib@);
    }
    let mut n: i64 = 0;
    for i in 0..lib.photos.len()
        invariant
            rows == lib@.photos,
            rows.len() <= i64::MAX,
            n == tally(rows.take(i as int), shown_by(filter, found_ids(*found))),
            0 <= n <= i,
    {
        assert(rows.take(i + 1).drop_last() == rows.take(i as int));
        assert(rows[i as int] == lib.photos@[i as int]@);
        if filter.passes(&lib.photos[i]) && is_found(found, &lib.photos[i]) {
            n = n + 1;
        }
    }
    assert(rows.take(rows.len() as int) == rows);
    n
}

/// The search that a text asks for: none, if it is empty after trimming.
pub open spec fn search_of(text: Option<Seq<char>>) -> Option<Seq<char>> {
    match text {
        Some(t) if trimmed(t).len() > 0 => Some(trimmed(t)),
        _ => None,
    }
}

/// A search argument worth passing down: non-empty after trimming.
pub fn normalized_search(search: &Option<String>) -> (s: Option<String>)
    ensures
        opt_text(s) == search_of(opt_text(*search)),
        opt_text(s) == (match *search {
            Some(t) if trimmed(t@).len() > 0 => Some(trimmed(t@)),
            _ => None,
        }),
{
    match search {
        Some(t) => {
            let s = trim(t.as_str());
            if s.as_str().unicode_len() > 0 {
                Some(s)
            } else {
                None
            }
        },
        None => None,
    }
}

/// Gives a photo without a capture date the date in its file name.
pub open spec fn dated_by_name() -> spec_fn(PhotoView) -> PhotoMarks {
    |p: PhotoView|
        match p.marks.taken_ts {
            Some(_) => p.marks,
            None => PhotoMarks { taken_ts: named_date(p.path), ..p.marks },
        }
}

/// Tests for a photo that a date can be given to.
pub open spec fn datable() -> spec_fn(PhotoView) -> bool {
    |p: PhotoView| p.marks.taken_ts is None && named_date(p.path) is Some
}

fn date_in_name(p: &Photo) -> (ts: Option<i64>)
    ensures
        ts == named_date(p@.path),
{
    match file_name(p.path.as_str()) {
        Some(name) => parse_filename_date(name.as_str()),
        None => None,
    }
}

/// Give photos missing a capture date one parsed from their file name, so a cloud library
/// still gets a sensible timeline. Returns how many were dated.
pub fn backfill_dates(lib: &mut Library) -> (n: usize)
    requires
        old(lib).wf(),
    ensures
        final(lib)@ == old(lib)@.with_photo_marks(dated_by_name()),
        final(lib).wf(),
        n == tally(old(lib)@.photos, datable()),
{
    let ghost rows = lib@.photos;
    let mut n: usize = 0;
    for i in 0..lib.photos.len()
        invariant
            rows == lib@.photos,
            n == tally(rows.take(i as int), datable()),
            n <= i,
    {
        assert(rows.take(i + 1).drop_last() == rows.take(i as int));
        assert(rows[i as int] == lib.photos@[i as int]@);
        if lib.photos[i].marks.taken_ts.is_none() && date_in_name(&lib.photos[i]).is_some() {
            n = n + 1;
        }
    }
    assert(rows.take(rows.len() as int) == rows);
    let mark = |p: &Photo| -> (m: PhotoMarks)
        ensures
            m == dated_by_name()(p@),
        {
            let mut m = p.marks;
            if m.taken_ts.is_none() {
                m.taken_ts = date_in_name(p);
            }
            m
        };
    mark_photos(lib, mark, Ghost(dated_by_name()));
    n
}

/// A capture date that is set is never overwritten by a backfill.
pub proof fn law_dates_are_never_clobbered(
    p: PhotoView,
    pairs: Seq<(i64, i64)>,
)
    requires
        p.marks.taken_ts is Some,
    ensures
        dated_by_name()(p) == p.marks,
        date_if_empty(pairs)(p) == p.marks,
{
}

} // verus!
