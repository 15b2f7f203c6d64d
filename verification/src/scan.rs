//! Folder scanning: what a walk of the disk makes of the library.
//!
//! A scan reads file metadata only. New photos only ever append (discovery order), a file
//! that did not change is only marked as still there, and a cloud-only original becomes a
//! placeholder.

use vstd::prelude::*;
use vstd::utf8::encode_utf8;

use crate::capture::{first_date, parse_filename_date};
use crate::digest::{cache_key, key_of_file};
use crate::faces::{delete_faces_for_photos, face_ids_of_photos, face_of, outside};
use crate::library::{
    lemma_counts_fit, photos_wf, Library, LibraryView, Photo, PhotoMarks, PhotoView,
    STATUS_CLOUD, STATUS_PENDING, STATUS_READY,
};
use crate::paths::{file_name, name_in};
use crate::photos::{id_unless, seen_in, take_unseen, Job, JobView};
use crate::rows::{kept, lemma_kept_contains, select, views};

verus! {

/// How many files are registered per progress tick.
pub const BATCH: usize = 256;

/// One supported file's metadata, gathered before the library is touched.
pub struct Item {
    pub path: String,
    pub mtime: i64,
    pub size: i64,
    /// The content is not on this disk; reading it would download it.
    pub cloud: bool,
    /// The capture date in the file's EXIF block; of no account for a cloud-only file.
    pub exif_ts: Option<i64>,
}

/// One supported file's metadata, mathematically.
pub struct ItemView {
    pub path: Seq<char>,
    pub mtime: i64,
    pub size: i64,
    pub cloud: bool,
    pub exif_ts: Option<i64>,
}

impl View for Item {
    type V = ItemView;

    open spec fn view(&self) -> ItemView {
        ItemView {
            path: self.path@,
            mtime: self.mtime,
            size: self.size,
            cloud: self.cloud,
            exif_ts: self.exif_ts,
        }
    }
}

/// The date in a file's name.
pub open spec fn named_date(path: Seq<char>) -> Option<i64> {
    match name_in(path) {
        Some(name) => match first_date(encode_utf8(name), 0) {
            Some(ts) => Some(ts as i64),
            None => None,
        },
        None => None,
    }
}

impl ItemView {
    /// The capture date: of the EXIF block for a local file, else parsed from the name.
    pub open spec fn taken(self) -> Option<i64> {
        if !self.cloud && self.exif_ts is Some {
            self.exif_ts
        } else {
            named_date(self.path)
        }
    }

    /// Cloud-only files become placeholders; local files are queued.
    pub open spec fn status(self) -> i64 {
        if self.cloud {
            STATUS_CLOUD
        } else {
            STATUS_PENDING
        }
    }

    pub open spec fn key(self) -> Seq<char> {
        key_of_file(self.path, self.mtime, self.size)
    }

    /// The photo that is registered for a file that is new.
    pub open spec fn new_photo(self, id: i64, gen: i64) -> PhotoView {
        PhotoView {
            id,
            path: self.path,
            mtime: self.mtime,
            size: self.size,
            cache_key: self.key(),
            content_hash: None,
            marks: PhotoMarks {
                status: self.status(),
                taken_ts: self.taken(),
                seen: gen,
                faces_scanned: 0,
                favorite: false,
                hidden: false,
                gps: None,
                geo_scanned: false,
            },
        }
    }

    /// What becomes of the photo of a file that was registered before: one that is
    /// unchanged and already cached is just marked still here.
    pub open spec fn renewed(self, p: PhotoView, gen: i64) -> PhotoView {
        if self.unchanged(p) {
            PhotoView { marks: PhotoMarks { seen: gen, ..p.marks }, ..p }
        } else {
            PhotoView {
                mtime: self.mtime,
                size: self.size,
                cache_key: self.key(),
                marks: PhotoMarks {
                    status: self.status(),
                    taken_ts: self.taken(),
                    seen: gen,
                    ..p.marks
                },
                ..p
            }
        }
    }

    /// The photo is the file as it is, and has its thumbnail.
    pub open spec fn unchanged(self, p: PhotoView) -> bool {
        p.cache_key == self.key() && p.marks.status == STATUS_READY
    }
}

/// Where the photo of a path stands; the list's length if there is none.
pub open spec fn path_at(photos: Seq<PhotoView>, path: Seq<char>) -> int
    decreases photos.len(),
{
    if photos.len() == 0 {
        0
    } else {
        let at = path_at(photos.drop_last(), path);
        if at < photos.len() - 1 {
            at
        } else if photos.last().path == path {
            photos.len() - 1
        } else {
            photos.len() as int
        }
    }
}

/// The largest photo id, zero if there is none.
pub open spec fn last_id(photos: Seq<PhotoView>) -> i64 {
    if photos.len() == 0 {
        0
    } else {
        photos.last().id
    }
}

/// The photos after a file was registered, and the thumbnail it needs.
pub open spec fn registered(photos: Seq<PhotoView>, gen: i64, item: ItemView) -> (
    Seq<PhotoView>,
    Option<JobView>,
) {
    let at = path_at(photos, item.path);
    if at < photos.len() {
        let p = photos[at];
        (
            photos.update(at, item.renewed(p, gen)),
            if item.unchanged(p) || item.cloud {
                None
            } else {
                Some(JobView { id: p.id, path: item.path })
            },
        )
    } else {
        let id = (last_id(photos) + 1) as i64;
        (
            photos.push(item.new_photo(id, gen)),
            if item.cloud {
                None
            } else {
                Some(JobView { id, path: item.path })
            },
        )
    }
}

/// The photos after files were registered one after the other, and the thumbnails they
/// need.
pub open spec fn registered_all(photos: Seq<PhotoView>, gen: i64, items: Seq<ItemView>) -> (
    Seq<PhotoView>,
    Seq<JobView>,
)
    decreases items.len(),
{
    if items.len() == 0 {
        (photos, Seq::empty())
    } else {
        let (before, jobs) = registered_all(photos, gen, items.drop_last());
        let (after, job) = registered(before, gen, items.last());
        (
            after,
            match job {
                Some(j) => jobs.push(j),
                None => jobs,
            },
        )
    }
}

pub proof fn lemma_path_at(photos: Seq<PhotoView>, path: Seq<char>)
    ensures
        0 <= path_at(photos, path) <= photos.len(),
        path_at(photos, path) < photos.len() ==> photos[path_at(photos, path)].path == path,
        forall|i: int|
            0 <= i < path_at(photos, path) ==> (#[trigger] photos[i]).path != path,
    decreases photos.len(),
{
    if photos.len() > 0 {
        let front = photos.drop_last();
        lemma_path_at(front, path);
        assert forall|i: int| 0 <= i < path_at(photos, path) implies (
        #[trigger] photos[i]).path != path by {
            if i < front.len() {
                assert(front[i] == photos[i]);
            }
        }
        let at = path_at(front, path);
        if at < front.len() {
            assert(front[at] == photos[at]);
        }
    }
}

proof fn lemma_registered_wf(photos: Seq<PhotoView>, gen: i64, item: ItemView)
    requires
        photos_wf(photos),
        last_id(photos) < i64::MAX,
    ensures
        photos_wf(registered(photos, gen, item).0),
        last_id(registered(photos, gen, item).0) <= last_id(photos) + 1,
        photos.len() <= registered(photos, gen, item).0.len() <= photos.len() + 1,
{
    lemma_path_at(photos, item.path);
    let after = registered(photos, gen, item).0;
    let at = path_at(photos, item.path);
    if at < photos.len() {
        assert forall|i: int| 0 <= i < after.len() implies (#[trigger] after[i]).id == photos[i].id
            && after[i].path == photos[i].path by {
            if i == at {
                assert(after[i] == item.renewed(photos[at], gen));
            }
        }
    } else {
        assert forall|i: int, j: int| 0 <= i < j < after.len() implies (#[trigger] after[i]).id < (
        #[trigger] after[j]).id by {
            assert(after[i] == photos[i]);
            if j < photos.len() {
                assert(after[j] == photos[j]);
            } else if i < photos.len() - 1 {
                assert(photos[i].id < photos[photos.len() - 1].id);
            }
        }
        assert forall|i: int, j: int| 0 <= i < j < after.len() implies (
        #[trigger] after[i]).path != (#[trigger] after[j]).path by {
            assert(after[i] == photos[i]);
            if j < photos.len() {
                assert(after[j] == photos[j]);
            }
        }
        assert forall|i: int| 0 <= i < after.len() implies (#[trigger] after[i]).id >= 1 by {
            if i < photos.len() {
                assert(after[i] == photos[i]);
            } else if photos.len() > 0 {
                assert(photos[photos.len() - 1].id >= 1);
            }
        }
    }
}

proof fn lemma_registered_all_wf(photos: Seq<PhotoView>, gen: i64, items: Seq<ItemView>)
    requires
        photos_wf(photos),
        last_id(photos) + items.len() <= i64::MAX,
    ensures
        photos_wf(registered_all(photos, gen, items).0),
        last_id(registered_all(photos, gen, items).0) <= last_id(photos) + items.len(),
        photos.len() <= registered_all(photos, gen, items).0.len(),
    decreases items.len(),
{
    if items.len() > 0 {
        let front = items.drop_last();
        lemma_registered_all_wf(photos, gen, front);
        lemma_registered_wf(registered_all(photos, gen, front).0, gen, items.last());
    }
}

/// Where the photo of a path stands; the list's length if there is none.
pub fn find_path(lib: &Library, path: &String) -> (at: usize)
    ensures
        at == path_at(lib@.photos, path@),
{
    let ghost all = lib@.photos;
    let n: usize = lib.photos.len();
    for i in 0..n
        invariant
            n == lib.photos@.len(),
            all == lib@.photos,
            forall|k: int| 0 <= k < i ==> (#[trigger] all[k]).path != path@,
    {
        assert(all[i as int] == lib.photos@[i as int]@);
        if lib.photos[i].path == *path {
            proof {
                lemma_path_at(all, path@);
                let at = path_at(all, path@);
                if at < i {
                    assert(all[at].path == path@);
                }
                assert(all[i as int].path == path@);
            }
            return i;
        }
    }
    proof {
        lemma_path_at(all, path@);
    }
    n
}

/// The capture date of a file. EXIF for local files (reading a cloud original's EXIF would
/// force a download), else the date parsed from the file name.
fn taken_of(item: &Item) -> (ts: Option<i64>)
    ensures
        ts == item@.taken(),
{
    if !item.cloud && item.exif_ts.is_some() {
        return item.exif_ts;
    }
    match file_name(item.path.as_str()) {
        Some(name) => parse_filename_date(name.as_str()),
        None => None,
    }
}

fn register(lib: &mut Library, gen: i64, item: &Item) -> (job: Option<Job>)
    requires
        old(lib).wf(),
        old(lib)@.last_photo() < i64::MAX,
    ensures
        final(lib).wf(),
        final(lib)@ == (LibraryView {
            photos: registered(old(lib)@.photos, gen, item@).0,
            ..old(lib)@
        }),
        match registered(old(lib)@.photos, gen, item@).1 {
            Some(j) => job matches Some(r) && r@ == j,
            None => job is None,
        },
{
    let ghost before = lib@;
    proof {
        lemma_registered_wf(before.photos, gen, item@);
        lemma_path_at(before.photos, item.path@);
    }
    let key = cache_key(item.path.as_str(), item.mtime, item.size);
    let fresh_status: i64 = if item.cloud {
        STATUS_CLOUD
    } else {
        STATUS_PENDING
    };
    let taken_ts = taken_of(item);
    let at = find_path(lib, &item.path);
    if at < lib.photos.len() {
        assert(before.photos[at as int] == lib.photos@[at as int]@);
        let mut marks = lib.photos[at].marks;
        marks.seen = gen;
        if lib.photos[at].cache_key == key && marks.status == STATUS_READY {
            lib.photos[at].marks = marks;
            assert(lib@.photos =~= registered(before.photos, gen, item@).0);
            return None;
        }
        marks.status = fresh_status;
        marks.taken_ts = taken_ts;
        let id: i64 = lib.photos[at].id;
        lib.photos[at].mtime = item.mtime;
        lib.photos[at].size = item.size;
        lib.photos[at].cache_key = key;
        lib.photos[at].marks = marks;
        assert(lib@.photos =~= registered(before.photos, gen, item@).0);
        if item.cloud {
            None
        } else {
            Some(Job { id, path: item.path.clone() })
        }
    } else {
        let n: usize = lib.photos.len();
        let id: i64 = if n == 0 {
            1
        } else {
            assert(before.photos.last() == lib.photos@[n - 1]@);
            lib.photos[n - 1].id + 1
        };
        let marks = PhotoMarks {
            status: fresh_status,
            taken_ts,
            seen: gen,
            faces_scanned: 0,
            favorite: false,
            hidden: false,
            gps: None,
            geo_scanned: false,
        };
        lib.photos.push(
            Photo {
                id,
                path: item.path.clone(),
                mtime: item.mtime,
                size: item.size,
                cache_key: key,
                content_hash: None,
                marks,
            },
        );
        assert(lib@.photos =~= registered(before.photos, gen, item@).0);
        if item.cloud {
            None
        } else {
            Some(Job { id, path: item.path.clone() })
        }
    }
}

/// Register a batch of files in the generation. Returns the thumbnails to make, and how
/// many photos the library now has.
pub fn run_scan(lib: &mut Library, gen: i64, items: &Vec<Item>) -> (r: (Vec<Job>, i64))
    requires
        old(lib).wf(),
        old(lib)@.last_photo() + items@.len() <= i64::MAX,
    ensures
        final(lib).wf(),
        final(lib)@ == (LibraryView {
            photos: registered_all(old(lib)@.photos, gen, views(items@)).0,
            ..old(lib)@
        }),
        views(r.0@) == registered_all(old(lib)@.photos, gen, views(items@)).1,
        r.1 == final(lib)@.photos.len(),
{
    let ghost before = lib@;
    let ghost all = views(items@);
    let mut jobs: Vec<Job> = Vec::new();
    assert(views(jobs@) =~= Seq::empty());
    for i in 0..items.len()
        invariant
            all == views(items@),
            before.wf(),
            before.last_photo() + items@.len() <= i64::MAX,
            lib.wf(),
            lib@ == (LibraryView {
                photos: registered_all(before.photos, gen, all.take(i as int)).0,
                ..before
            }),
            views(jobs@) == registered_all(before.photos, gen, all.take(i as int)).1,
    {
        assert(all.take(i + 1).drop_last() == all.take(i as int));
        assert(all[i as int] == items@[i as int]@);
        proof {
            lemma_registered_all_wf(before.photos, gen, all.take(i as int));
        }
        let ghost held = views(jobs@);
        if let Some(job) = register(lib, gen, &items[i]) {
            jobs.push(job);
            assert(views(jobs@) =~= held.push(job@));
        }
    }
    assert(all.take(all.len() as int) == all);
    proof {
        lemma_counts_fit(lib@);
    }
    (jobs, lib.photos.len() as i64)
}

/// What was removed from the library: the cached files of these photos and faces can go.
pub struct Removed {
    pub photos: Vec<i64>,
    pub faces: Vec<i64>,
}

/// The ids of the photos a rescan did not see.
pub open spec fn unseen(lib: LibraryView, gen: i64) -> Seq<i64> {
    select(lib.photos, id_unless(seen_in(gen)))
}

/// The library without the photos that a rescan did not see, and without their faces.
pub open spec fn pruned(lib: LibraryView, gen: i64) -> LibraryView {
    LibraryView {
        photos: kept(lib.photos, seen_in(gen)),
        faces: kept(lib.faces, outside(unseen(lib, gen))),
        ..lib
    }
}

/// The library after a rescan: without what is gone, if every root was reachable.
pub open spec fn rescanned(lib: LibraryView, gen: i64, all_roots_ok: bool) -> LibraryView {
    if all_roots_ok {
        pruned(lib, gen)
    } else {
        lib
    }
}

/// End a rescan: delete what is gone from disk, but only when every root was reachable. A
/// drive that is unplugged or a cloud that is not mounted must not delete the library.
pub fn prune_unseen(lib: &mut Library, gen: i64, all_roots_ok: bool) -> (removed: Removed)
    requires
        old(lib).wf(),
    ensures
        final(lib).wf(),
        final(lib)@ == rescanned(old(lib)@, gen, all_roots_ok),
        !all_roots_ok ==> final(lib)@ == old(lib)@ && removed.photos@.len() == 0
            && removed.faces@.len() == 0,
        all_roots_ok ==> {
            &&& final(lib)@ == pruned(old(lib)@, gen)
            &&& removed.photos@ == unseen(old(lib)@, gen)
            &&& removed.faces@ == select(old(lib)@.faces, face_of(unseen(old(lib)@, gen)))
        },
{
    if !all_roots_ok {
        return Removed { photos: Vec::new(), faces: Vec::new() };
    }
    let photos = take_unseen(lib, gen);
    let faces = face_ids_of_photos(lib, &photos);
    delete_faces_for_photos(lib, &photos);
    Removed { photos, faces }
}

/// New photos only ever append: what the library already shows keeps its id, its path and
/// the user's marks, in the same order.
pub proof fn law_discovery_only_appends(
    photos: Seq<PhotoView>,
    gen: i64,
    items: Seq<ItemView>,
    i: int,
)
    requires
        0 <= i < photos.len(),
    ensures
        photos.len() <= registered_all(photos, gen, items).0.len(),
        registered_all(photos, gen, items).0[i].id == photos[i].id,
        registered_all(photos, gen, items).0[i].path == photos[i].path,
        registered_all(photos, gen, items).0[i].marks.favorite == photos[i].marks.favorite,
        registered_all(photos, gen, items).0[i].marks.hidden == photos[i].marks.hidden,
        registered_all(photos, gen, items).0[i].marks.faces_scanned
            == photos[i].marks.faces_scanned,
    decreases items.len(),
{
    if items.len() > 0 {
        law_discovery_only_appends(photos, gen, items.drop_last(), i);
        let before = registered_all(photos, gen, items.drop_last()).0;
        let item = items.last();
        lemma_path_at(before, item.path);
        let at = path_at(before, item.path);
        if at < before.len() && at == i {
            assert(registered(before, gen, item).0[i] == item.renewed(before[i], gen));
        }
    }
}

/// A file the scan found is in the library, marked as seen.
pub proof fn law_scanned_files_are_seen(
    photos: Seq<PhotoView>,
    gen: i64,
    items: Seq<ItemView>,
    k: int,
) -> (at: int)
    requires
        0 <= k < items.len(),
    ensures
        0 <= at < registered_all(photos, gen, items).0.len(),
        registered_all(photos, gen, items).0[at].path == items[k].path,
        registered_all(photos, gen, items).0[at].marks.seen == gen,
    decreases items.len(),
{
    let before = registered_all(photos, gen, items.drop_last()).0;
    let item = items.last();
    let after = registered(before, gen, item).0;
    lemma_path_at(before, item.path);
    let at = path_at(before, item.path);
    if k == items.len() - 1 {
        if at < before.len() {
            assert(after[at] == item.renewed(before[at], gen));
        }
        at
    } else {
        let here = law_scanned_files_are_seen(photos, gen, items.drop_last(), k);
        if at < before.len() && at == here {
            assert(after[here] == item.renewed(before[here], gen));
        }
        here
    }
}

/// A file the scan found is still in the library after the rescan deleted what is gone.
pub proof fn law_found_files_survive_the_prune(
    lib: LibraryView,
    gen: i64,
    items: Seq<ItemView>,
    k: int,
)
    requires
        0 <= k < items.len(),
    ensures
        exists|p: PhotoView| #[trigger]
            pruned(
                LibraryView { photos: registered_all(lib.photos, gen, items).0, ..lib },
                gen,
            ).photos.contains(p) && p.path == items[k].path,
{
    let photos = registered_all(lib.photos, gen, items).0;
    let at = law_scanned_files_are_seen(lib.photos, gen, items, k);
    lemma_kept_contains(photos, seen_in(gen), at);
    assert(pruned(LibraryView { photos, ..lib }, gen).photos.contains(photos[at]));
}

/// A file that did not change since its thumbnail was cached is only marked as still
/// there: nothing is queued for it.
pub proof fn law_unchanged_file_costs_nothing(photos: Seq<PhotoView>, gen: i64, item: ItemView)
    requires
        path_at(photos, item.path) < photos.len(),
        item.unchanged(photos[path_at(photos, item.path)]),
    ensures
        registered(photos, gen, item).1 is None,
        registered(photos, gen, item).0 == photos.update(
            path_at(photos, item.path),
            PhotoView {
                marks: PhotoMarks { seen: gen, ..photos[path_at(photos, item.path)].marks },
                ..photos[path_at(photos, item.path)]
            },
        ),
{
}

} // verus!
