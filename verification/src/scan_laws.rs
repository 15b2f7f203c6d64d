//! What a scan makes of a file, said of the file and of the photo it becomes.

use vstd::prelude::*;

use crate::curation::{flagged_photo, imported, law_import_never_clears_a_star, CurationView};
use crate::digest::key_of_file;
use crate::library::{photos_wf, roots_wf, text_before, PhotoMarks, PhotoView};
use crate::listing_laws::law_keeping_keeps_the_order;
use crate::photos::JobView;
use crate::roots::{comes_before, missing_from, with_root};
use crate::rows::{kept, lemma_tally_bound, tally};
use crate::scan::{
    last_id, lemma_path_at, named_date, path_at, registered, registered_all, ItemView,
};

verus! {

/// The capture date of a file: that of its EXIF block, if it is local and has one; else the one
/// in its name.
pub open spec fn date_of_file(item: ItemView) -> Option<i64> {
    if item.cloud || item.exif_ts is None {
        named_date(item.path)
    } else {
        item.exif_ts
    }
}

/// **A new file becomes a photo.** It is appended under an id above all others, with the file's
/// path, date and size; a local file waits for its thumbnail, which is queued, a cloud-only one
/// is a placeholder, for which nothing is. Nobody has starred, hidden or scanned it yet.
pub proof fn law_new_file_becomes_a_photo(photos: Seq<PhotoView>, gen: i64, item: ItemView)
    requires
        photos_wf(photos),
        last_id(photos) < i64::MAX,
        forall|k: int| 0 <= k < photos.len() ==> (#[trigger] photos[k]).path != item.path,
    ensures
        ({
            let (after, job) = registered(photos, gen, item);
            let p = after.last();
            &&& after.len() == photos.len() + 1
            &&& forall|k: int| 0 <= k < photos.len() ==> #[trigger] after[k] == photos[k]
            &&& forall|k: int| 0 <= k < photos.len() ==> (#[trigger] photos[k]).id < p.id
            &&& p.path == item.path && p.mtime == item.mtime && p.size == item.size
            &&& p.cache_key == key_of_file(item.path, item.mtime, item.size)
            &&& p.content_hash is None
            &&& p.marks == (PhotoMarks {
                status: if item.cloud {
                    3
                } else {
                    0
                },
                taken_ts: date_of_file(item),
                seen: gen,
                faces_scanned: 0,
                favorite: false,
                hidden: false,
                gps: None,
                geo_scanned: false,
            })
            &&& item.cloud ==> job is None
            &&& !item.cloud ==> job == Some(JobView { id: p.id, path: item.path })
        }),
{
    lemma_path_at(photos, item.path);
    let (after, job) = registered(photos, gen, item);
    assert forall|k: int| 0 <= k < photos.len() implies (#[trigger] photos[k]).id <= last_id(
        photos,
    ) by {
        if k < photos.len() - 1 {
            assert(photos[k].id < photos[photos.len() - 1].id);
        }
    }
}

/// **A file that changed is looked at again.** Its photo keeps its id, its path, its flags and
/// what is known of its faces; it has the file's new date and size, waits for a new thumbnail
/// or is a placeholder, and counts as seen.
pub proof fn law_changed_file_is_renewed(photos: Seq<PhotoView>, gen: i64, item: ItemView, i: int)
    requires
        photos_wf(photos),
        0 <= i < photos.len(),
        photos[i].path == item.path,
        photos[i].cache_key != key_of_file(item.path, item.mtime, item.size)
            || photos[i].marks.status != 1,
    ensures
        ({
            let (after, job) = registered(photos, gen, item);
            let (was, now) = (photos[i], after[i]);
            &&& after.len() == photos.len()
            &&& forall|k: int|
                0 <= k < photos.len() && k != i ==> #[trigger] after[k] == photos[k]
            &&& now.id == was.id && now.path == was.path && now.mtime == item.mtime && now.size
                == item.size
            &&& now.cache_key == key_of_file(item.path, item.mtime, item.size)
            &&& now.marks == (PhotoMarks {
                status: if item.cloud {
                    3
                } else {
                    0
                },
                taken_ts: date_of_file(item),
                seen: gen,
                ..was.marks
            })
            &&& item.cloud ==> job is None
            &&& !item.cloud ==> job == Some(JobView { id: was.id, path: item.path })
        }),
{
    lemma_at(photos, item.path, i);
}

proof fn lemma_at(photos: Seq<PhotoView>, path: Seq<char>, i: int)
    requires
        photos_wf(photos),
        0 <= i < photos.len(),
        photos[i].path == path,
    ensures
        path_at(photos, path) == i,
{
    lemma_path_at(photos, path);
    let at = path_at(photos, path);
    if at < i {
        assert(photos[at].path != photos[i].path);
    } else if i < at && at < photos.len() {
        assert(photos[i].path != photos[at].path);
    }
}

/// **A file that did not change is only marked as seen.** With the same path, date and size and
/// a thumbnail in the cache, its photo changes in nothing else, and nothing is queued.
pub proof fn law_unchanged_file_is_only_seen(
    photos: Seq<PhotoView>,
    gen: i64,
    item: ItemView,
    i: int,
)
    requires
        photos_wf(photos),
        0 <= i < photos.len(),
        photos[i].path == item.path,
        photos[i].cache_key == key_of_file(item.path, item.mtime, item.size),
        photos[i].marks.status == 1,
    ensures
        ({
            let (after, job) = registered(photos, gen, item);
            &&& job is None
            &&& after.len() == photos.len()
            &&& after[i] == (PhotoView {
                marks: PhotoMarks { seen: gen, ..photos[i].marks },
                ..photos[i]
            })
            &&& forall|k: int|
                0 <= k < photos.len() && k != i ==> #[trigger] after[k] == photos[k]
        }),
{
    lemma_at(photos, item.path, i);
}

/// **A scan registers its files one after the other.** What a scan of several files makes is
/// what its first files make, and then the last.
pub proof fn law_scans_add_up(photos: Seq<PhotoView>, gen: i64, items: Seq<ItemView>, item: ItemView)
    ensures
        registered_all(photos, gen, Seq::empty()) == (photos, Seq::<JobView>::empty()),
        ({
            let (before, jobs) = registered_all(photos, gen, items);
            let (after, job) = registered(before, gen, item);
            registered_all(photos, gen, items.push(item)) == (
                after,
                if job is Some {
                    jobs.push(job->0)
                } else {
                    jobs
                },
            )
        }),
{
    assert(items.push(item).drop_last() =~= items);
    assert(items.push(item).last() == item);
}

/// **Folders are listed once.** Adding one lists it with those that were there, and no others.
pub proof fn law_added_folder_is_listed(roots: Seq<Seq<char>>, path: Seq<char>, r: Seq<char>)
    requires
        roots_wf(roots),
    ensures
        with_root(roots, path).contains(r) <==> roots.contains(r) || r == path,
{
    lemma_tally_bound(roots, comes_before(path));
    let after = with_root(roots, path);
    let at = tally(roots, comes_before(path)) as int;
    if !roots.contains(path) {
        assert(after[at] == path);
        if roots.contains(r) {
            let k = choose|k: int| 0 <= k < roots.len() && roots[k] == r;
            if k < at {
                assert(after[k] == r);
            } else {
                assert(after[k + 1] == r);
            }
        }
        if after.contains(r) && r != path {
            let k = choose|k: int| 0 <= k < after.len() && after[k] == r;
            if k < at {
                assert(roots[k] == r);
            } else {
                assert(roots[k - 1] == r);
            }
        }
    }
}

/// **The watch list follows the folders.** What is to be watched is a folder that is not; what
/// is to be dropped is watched and no folder.
pub proof fn law_watches_follow_folders(list: Seq<Seq<char>>, from: Seq<Seq<char>>, r: Seq<char>)
    ensures
        kept(from, missing_from(list)).contains(r) <==> from.contains(r) && !list.contains(r),
{
    let out = kept(from, missing_from(list));
    let at = law_keeping_keeps_the_order(from, missing_from(list));
    if out.contains(r) {
        let p = choose|p: int| 0 <= p < out.len() && out[p] == r;
        assert(missing_from(list)(from[at[p]]) && from[at[p]] == r);
    }
    if from.contains(r) && !list.contains(r) {
        let k = choose|k: int| 0 <= k < from.len() && from[k] == r;
        assert(missing_from(list)(from[k]));
        assert(at.contains(k));
        let p = choose|p: int| 0 <= p < at.len() && at[p] == k;
        assert(out[p] == r);
    }
}

/// **Texts are ordered as in a dictionary.** A text comes before another if it is a proper start
/// of it, or is smaller where they first differ.
pub proof fn law_dictionary_order(a: Seq<char>, b: Seq<char>, k: int)
    requires
        0 <= k <= a.len(),
        k <= b.len(),
        forall|i: int| 0 <= i < k ==> a[i] == b[i],
    ensures
        k == a.len() && k < b.len() ==> text_before(a, b),
        k == b.len() ==> !text_before(a, b),
        k < a.len() && k < b.len() && a[k] < b[k] ==> text_before(a, b),
        k < a.len() && k < b.len() && b[k] < a[k] ==> !text_before(a, b),
    decreases k,
{
    if k > 0 {
        let (x, y) = (a.drop_first(), b.drop_first());
        assert forall|i: int| 0 <= i < k - 1 implies x[i] == y[i] by {
            assert(a[i + 1] == b[i + 1]);
        }
        law_dictionary_order(x, y, k - 1);
        assert(a[0] == b[0]);
    }
}

/// **What is exported is what is flagged.** Just the favorites and the hidden photos are, each
/// by its path and with both flags.
pub proof fn law_flagged_photos_are_exported(p: PhotoView)
    ensures
        flagged_photo()(p) == (if p.marks.favorite || p.marks.hidden {
            Some(
                CurationView { path: p.path, favorite: p.marks.favorite, hidden: p.marks.hidden },
            )
        } else {
            None
        }),
{
}

/// **An import counts the entries that found their photo**, and adds no photo.
pub proof fn law_import_counts_its_matches(photos: Seq<PhotoView>, entries: Seq<CurationView>)
    ensures
        imported(photos, entries).0.len() == photos.len(),
        imported(photos, entries).1 == entries.filter(
            |e: CurationView|
                exists|i: int| 0 <= i < photos.len() && (#[trigger] photos[i]).path == e.path,
        ).len(),
    decreases entries.len(),
{
    reveal(Seq::filter);
    let test = |e: CurationView|
        exists|i: int| 0 <= i < photos.len() && (#[trigger] photos[i]).path == e.path;
    if entries.len() > 0 {
        let front = entries.drop_last();
        let e = entries.last();
        law_import_counts_its_matches(photos, front);
        let (before, n) = imported(photos, front);
        lemma_path_at(before, e.path);
        assert forall|i: int| 0 <= i < photos.len() implies before[i].path == (
        #[trigger] photos[i]).path by {
            law_import_never_clears_a_star(photos, front, i);
        }
        let at = path_at(before, e.path);
        if at < before.len() {
            assert(photos[at].path == e.path);
            assert(test(e));
        } else {
            assert(!test(e)) by {
                if test(e) {
                    let i = choose|i: int|
                        0 <= i < photos.len() && (#[trigger] photos[i]).path == e.path;
                    assert(before[i].path == e.path);
                }
            }
        }
    }
}

/// **An import touches only the photos it names**, and only to add a flag that an entry of
/// theirs has.
pub proof fn law_import_adds_only_its_flags(
    photos: Seq<PhotoView>,
    entries: Seq<CurationView>,
    i: int,
)
    requires
        0 <= i < photos.len(),
    ensures
        ({
            let now = imported(photos, entries).0[i];
            &&& now == (PhotoView {
                marks: PhotoMarks {
                    favorite: now.marks.favorite,
                    hidden: now.marks.hidden,
                    ..photos[i].marks
                },
                ..photos[i]
            })
            &&& now.marks.favorite ==> photos[i].marks.favorite || exists|k: int|
                0 <= k < entries.len() && (#[trigger] entries[k]).path == photos[i].path
                    && entries[k].favorite
            &&& now.marks.hidden ==> photos[i].marks.hidden || exists|k: int|
                0 <= k < entries.len() && (#[trigger] entries[k]).path == photos[i].path
                    && entries[k].hidden
        }),
    decreases entries.len(),
{
    if entries.len() > 0 {
        let front = entries.drop_last();
        let n = entries.len() - 1;
        let e = entries.last();
        assert(entries[n] == e);
        law_import_adds_only_its_flags(photos, front, i);
        law_import_counts_its_matches(photos, front);
        let (before, c) = imported(photos, front);
        lemma_path_at(before, e.path);
        let now = imported(photos, entries).0[i];
        if before[i].marks.favorite && !photos[i].marks.favorite {
            let k = choose|k: int|
                0 <= k < front.len() && (#[trigger] front[k]).path == photos[i].path
                    && front[k].favorite;
            assert(entries[k] == front[k]);
        }
        if before[i].marks.hidden && !photos[i].marks.hidden {
            let k = choose|k: int|
                0 <= k < front.len() && (#[trigger] front[k]).path == photos[i].path
                    && front[k].hidden;
            assert(entries[k] == front[k]);
        }
    }
}

} // verus!
