//! Curation: the favorite and hidden flags, and their export and import. They are the one
//! slice of state that cannot be derived from the photos themselves.

use vstd::prelude::*;

use crate::library::{mark_photos, Library, LibraryView, Photo, PhotoMarks, PhotoView};
use crate::photos::{is_favorite, is_hidden};
use crate::rows::{holds, lemma_select_contains, select, views};
use crate::scan::{find_path, lemma_path_at, path_at};

verus! {

/// Stars (or unstars) the listed photos.
pub open spec fn starred(ids: Seq<i64>, favorite: bool) -> spec_fn(PhotoView) -> PhotoMarks {
    |p: PhotoView|
        if ids.contains(p.id) {
            PhotoMarks { favorite, ..p.marks }
        } else {
            p.marks
        }
}

/// Archives (or restores) the listed photos.
pub open spec fn archived(ids: Seq<i64>, hidden: bool) -> spec_fn(PhotoView) -> PhotoMarks {
    |p: PhotoView|
        if ids.contains(p.id) {
            PhotoMarks { hidden, ..p.marks }
        } else {
            p.marks
        }
}

/// Toggle a photo's favorite star.
pub fn set_favorite(lib: &mut Library, id: i64, favorite: bool)
    requires
        old(lib).wf(),
    ensures
        final(lib)@ == old(lib)@.with_photo_marks(starred(seq![id], favorite)),
        final(lib).wf(),
{
    let ids = vec![id];
    assert(ids@ =~= seq![id]);
    set_favorite_many(lib, &ids, favorite);
}

/// Soft-archive (or restore) a photo: a flag only, the file is never touched.
pub fn set_hidden(lib: &mut Library, id: i64, hidden: bool)
    requires
        old(lib).wf(),
    ensures
        final(lib)@ == old(lib)@.with_photo_marks(archived(seq![id], hidden)),
        final(lib).wf(),
{
    let ids = vec![id];
    assert(ids@ =~= seq![id]);
    set_hidden_many(lib, &ids, hidden);
}

/// Toggle the favorite star on a whole selection at once.
pub fn set_favorite_many(lib: &mut Library, ids: &Vec<i64>, favorite: bool)
    requires
        old(lib).wf(),
    ensures
        final(lib)@ == old(lib)@.with_photo_marks(starred(ids@, favorite)),
        final(lib).wf(),
{
    let mark = |p: &Photo| -> (m: PhotoMarks)
        ensures
            m == starred(ids@, favorite)(p@),
        {
            let mut m = p.marks;
            if holds(ids, p.id) {
                m.favorite = favorite;
            }
            m
        };
    mark_photos(lib, mark, Ghost(starred(ids@, favorite)));
}

/// Soft-archive (or restore) a whole selection at once.
pub fn set_hidden_many(lib: &mut Library, ids: &Vec<i64>, hidden: bool)
    requires
        old(lib).wf(),
    ensures
        final(lib)@ == old(lib)@.with_photo_marks(archived(ids@, hidden)),
        final(lib).wf(),
{
    let mark = |p: &Photo| -> (m: PhotoMarks)
        ensures
            m == archived(ids@, hidden)(p@),
        {
            let mut m = p.marks;
            if holds(ids, p.id) {
                m.hidden = hidden;
            }
            m
        };
    mark_photos(lib, mark, Ghost(archived(ids@, hidden)));
}

/// One flagged photo of the curation snapshot.
pub struct CurationEntry {
    pub path: String,
    pub favorite: bool,
    pub hidden: bool,
}

/// One flagged photo of the curation snapshot, mathematically.
pub struct CurationView {
    pub path: Seq<char>,
    pub favorite: bool,
    pub hidden: bool,
}

impl View for CurationEntry {
    type V = CurationView;

    open spec fn view(&self) -> CurationView {
        CurationView { path: self.path@, favorite: self.favorite, hidden: self.hidden }
    }
}

/// Picks the photos with a flag.
pub open spec fn flagged_photo() -> spec_fn(PhotoView) -> Option<CurationView> {
    |p: PhotoView|
        if is_favorite()(p) || is_hidden()(p) {
            Some(
                CurationView { path: p.path, favorite: p.marks.favorite, hidden: p.marks.hidden },
            )
        } else {
            None
        }
}

/// The favorites and hidden photos, by path: what the user's curation is exported as.
pub fn curation_rows(lib: &Library) -> (out: Vec<CurationEntry>)
    ensures
        views(out@) == select(lib@.photos, flagged_photo()),
{
    let ghost rows = lib@.photos;
    let mut out: Vec<CurationEntry> = Vec::new();
    assert(views(out@) =~= Seq::empty());
    for i in 0..lib.photos.len()
        invariant
            rows == lib@.photos,
            views(out@) == select(rows.take(i as int), flagged_photo()),
    {
        assert(rows.take(i + 1).drop_last() == rows.take(i as int));
        assert(rows[i as int] == lib.photos@[i as int]@);
        let ghost held = views(out@);
        let p = &lib.photos[i];
        if p.marks.favorite || p.marks.hidden {
            let entry = CurationEntry {
                path: p.path.clone(),
                favorite: p.marks.favorite,
                hidden: p.marks.hidden,
            };
            out.push(entry);
            assert(views(out@) =~= held.push(entry@));
        }
    }
    assert(rows.take(rows.len() as int) == rows);
    out
}

/// The photo with the flags of an entry added to its own.
pub open spec fn adopting(p: PhotoView, e: CurationView) -> PhotoView {
    PhotoView {
        marks: PhotoMarks {
            favorite: p.marks.favorite || e.favorite,
            hidden: p.marks.hidden || e.hidden,
            ..p.marks
        },
        ..p
    }
}

/// The photos after entries were merged, and how many matched a photo.
pub open spec fn imported(photos: Seq<PhotoView>, entries: Seq<CurationView>) -> (
    Seq<PhotoView>,
    nat,
)
    decreases entries.len(),
{
    if entries.len() == 0 {
        (photos, 0)
    } else {
        let (before, n) = imported(photos, entries.drop_last());
        let e = entries.last();
        let at = path_at(before, e.path);
        if at < before.len() {
            (before.update(at, adopting(before[at], e)), n + 1)
        } else {
            (before, n)
        }
    }
}

/// Importing keeps everything about the photos but their flags.
proof fn lemma_imported(photos: Seq<PhotoView>, entries: Seq<CurationView>)
    ensures
        imported(photos, entries).0.len() == photos.len(),
        imported(photos, entries).1 <= entries.len(),
        forall|i: int|
            0 <= i < photos.len() ==> (#[trigger] imported(photos, entries).0[i]) == (PhotoView {
                marks: PhotoMarks {
                    favorite: imported(photos, entries).0[i].marks.favorite,
                    hidden: imported(photos, entries).0[i].marks.hidden,
                    ..photos[i].marks
                },
                ..photos[i]
            }),
        forall|i: int|
            0 <= i < photos.len() && photos[i].marks.favorite ==> (#[trigger] imported(
                photos,
                entries,
            ).0[i]).marks.favorite,
        forall|i: int|
            0 <= i < photos.len() && photos[i].marks.hidden ==> (#[trigger] imported(
                photos,
                entries,
            ).0[i]).marks.hidden,
    decreases entries.len(),
{
    if entries.len() > 0 {
        lemma_imported(photos, entries.drop_last());
        let before = imported(photos, entries.drop_last()).0;
        lemma_path_at(before, entries.last().path);
    }
}

/// Merge an exported curation into the library by path. Flags are added, never cleared: an
/// import never takes away a star. Returns how many entries matched a photo of this library.
pub fn apply_curation(lib: &mut Library, entries: &Vec<CurationEntry>) -> (n: usize)
    requires
        old(lib).wf(),
    ensures
        final(lib)@ == (LibraryView {
            photos: imported(old(lib)@.photos, views(entries@)).0,
            ..old(lib)@
        }),
        n == imported(old(lib)@.photos, views(entries@)).1,
        final(lib).wf(),
{
    let ghost before = lib@;
    let ghost all = views(entries@);
    let mut n: usize = 0;
    for i in 0..entries.len()
        invariant
            all == views(entries@),
            lib@ == (LibraryView {
                photos: imported(before.photos, all.take(i as int)).0,
                ..before
            }),
            n == imported(before.photos, all.take(i as int)).1,
            n <= i,
    {
        assert(all.take(i + 1).drop_last() == all.take(i as int));
        assert(all[i as int] == entries@[i as int]@);
        let ghost now = lib@;
        let e = &entries[i];
        let at = find_path(lib, &e.path);
        proof {
            lemma_path_at(now.photos, e.path@);
        }
        if at < lib.photos.len() {
            assert(now.photos[at as int] == lib.photos@[at as int]@);
            let mut marks = lib.photos[at].marks;
            marks.favorite = marks.favorite || e.favorite;
            marks.hidden = marks.hidden || e.hidden;
            lib.photos[at].marks = marks;
            n = n + 1;
            assert(lib@.photos =~= now.photos.update(
                at as int,
                adopting(now.photos[at as int], e@),
            ));
        }
    }
    assert(all.take(all.len() as int) == all);
    proof {
        lemma_imported(before.photos, all);
        let after = lib@.photos;
        assert forall|i: int| 0 <= i < after.len() implies (#[trigger] after[i]).id
            == before.photos[i].id && after[i].path == before.photos[i].path by {}
    }
    n
}

/// An import never clears a flag, and touches nothing but flags.
pub proof fn law_import_never_clears_a_star(
    photos: Seq<PhotoView>,
    entries: Seq<CurationView>,
    i: int,
)
    requires
        0 <= i < photos.len(),
    ensures
        photos[i].marks.favorite ==> imported(photos, entries).0[i].marks.favorite,
        photos[i].marks.hidden ==> imported(photos, entries).0[i].marks.hidden,
        imported(photos, entries).0[i].id == photos[i].id,
        imported(photos, entries).0[i].path == photos[i].path,
        imported(photos, entries).0[i].marks.taken_ts == photos[i].marks.taken_ts,
        imported(photos, entries).0[i].marks.status == photos[i].marks.status,
{
    lemma_imported(photos, entries);
}

/// After an import, the photo of an entry has the entry's flags.
pub proof fn law_import_restores_flags(
    photos: Seq<PhotoView>,
    entries: Seq<CurationView>,
    k: int,
    i: int,
)
    requires
        0 <= k < entries.len(),
        0 <= i < photos.len(),
        photos[i].path == entries[k].path,
        forall|a: int, b: int|
            0 <= a < b < photos.len() ==> (#[trigger] photos[a]).path != (#[trigger] photos[b]).path,
    ensures
        entries[k].favorite ==> imported(photos, entries).0[i].marks.favorite,
        entries[k].hidden ==> imported(photos, entries).0[i].marks.hidden,
    decreases entries.len(),
{
    let front = entries.drop_last();
    let before = imported(photos, front).0;
    let e = entries.last();
    lemma_imported(photos, front);
    lemma_path_at(before, e.path);
    let at = path_at(before, e.path);
    if k < entries.len() - 1 {
        law_import_restores_flags(photos, front, k, i);
    } else {
        assert(before[i].path == photos[i].path);
        if at < i {
            assert(before[at].path == photos[at].path);
            assert(photos[at].path != photos[i].path);
        }
        assert(at == i);
    }
}

/// Exporting a library and importing into the same photos gives every flag back.
pub proof fn law_export_then_import_restores(lib: LibraryView, bare: Seq<PhotoView>, i: int)
    requires
        lib.wf(),
        bare.len() == lib.photos.len(),
        forall|k: int| 0 <= k < bare.len() ==> (#[trigger] bare[k]).path == lib.photos[k].path,
        0 <= i < bare.len(),
    ensures
        lib.photos[i].marks.favorite ==> imported(
            bare,
            select(lib.photos, flagged_photo()),
        ).0[i].marks.favorite,
        lib.photos[i].marks.hidden ==> imported(
            bare,
            select(lib.photos, flagged_photo()),
        ).0[i].marks.hidden,
{
    let p = lib.photos[i];
    if p.marks.favorite || p.marks.hidden {
        let entries = select(lib.photos, flagged_photo());
        let e = flagged_photo()(p)->0;
        lemma_select_contains(lib.photos, flagged_photo(), i);
        let k = choose|k: int| 0 <= k < entries.len() && entries[k] == e;
        assert forall|a: int, b: int| 0 <= a < b < bare.len() implies (
        #[trigger] bare[a]).path != (#[trigger] bare[b]).path by {
            assert(lib.photos[a].path != lib.photos[b].path);
        }
        law_import_restores_flags(bare, entries, k, i);
    }
}

} // verus!
