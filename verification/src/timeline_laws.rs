//! What the grid shows, said of the photos.

use vstd::prelude::*;

use crate::details::shown_by;
use crate::grouping_laws::lemma_pigeons;
use crate::groups::{newest_first, timeline, PhotoRow};
use crate::library::{LibraryView, PhotoView};
use crate::listing_laws::{
    law_picking_keeps_the_order, law_ranking_loses_nothing, lemma_select_tally,
    lemma_tally_filter,
};
use crate::order::{lemma_order_of, order_of};
use crate::photos::{has_status, is_favorite, is_hidden, ordered_rows, row_if, window, PhotoFilter};
use crate::rows::{lemma_select_len, select, tally};

verus! {

/// The photo belongs to what a grid under the filter shows: what is hidden shows only where
/// hidden photos are asked for.
pub open spec fn belongs_to(filter: PhotoFilter, p: PhotoView) -> bool {
    match filter {
        PhotoFilter::Visible => !p.marks.hidden,
        PhotoFilter::Favorites => p.marks.favorite && !p.marks.hidden,
        PhotoFilter::Hidden => p.marks.hidden,
    }
}

/// The rows of a timeline, and which of the rows each was.
pub proof fn lemma_timeline(rows: Seq<PhotoRow>) -> (from: Seq<int>)
    requires
        rows.len() <= usize::MAX,
    ensures
        timeline(rows).len() == rows.len(),
        from.len() == rows.len(),
        from.no_duplicates(),
        forall|p: int| 0 <= p < from.len() ==> 0 <= #[trigger] from[p] < rows.len(),
        forall|i: int| 0 <= i < rows.len() ==> #[trigger] from.contains(i),
        forall|p: int| 0 <= p < from.len() ==> timeline(rows)[p] == rows[#[trigger] from[p]],
        forall|p: int, q: int|
            0 <= p < q < from.len() ==> {
                let (a, b) = (rows[#[trigger] from[p]], rows[#[trigger] from[q]]);
                a.ts > b.ts || (a.ts == b.ts && a.id >= b.id)
            },
{
    let keys = rows.map_values(newest_first());
    let from = law_ranking_loses_nothing(rows, keys);
    assert forall|p: int, q: int| 0 <= p < q < from.len() implies {
        let (a, b) = (rows[#[trigger] from[p]], rows[#[trigger] from[q]]);
        a.ts > b.ts || (a.ts == b.ts && a.id >= b.id)
    } by {
        let (a, b) = (keys[from[p]], keys[from[q]]);
        assert(a.0 >= b.0);
    }
    from
}

/// The rows of a grid, and which photo each shows.
pub proof fn lemma_rows(
    photos: Seq<PhotoView>,
    filter: Option<PhotoFilter>,
    found: Option<Set<i64>>,
    by_date: bool,
) -> (at: Seq<int>)
    requires
        photos.len() <= usize::MAX,
    ensures
        at.len() == ordered_rows(photos, filter, found, by_date).len(),
        at.no_duplicates(),
        forall|p: int|
            0 <= p < at.len() ==> {
                let f = photos[#[trigger] at[p]];
                &&& 0 <= at[p] < photos.len()
                &&& ordered_rows(photos, filter, found, by_date)[p] == (PhotoRow {
                    id: f.id,
                    status: f.marks.status,
                    ts: if f.marks.taken_ts is Some {
                        f.marks.taken_ts->0
                    } else {
                        f.mtime
                    },
                })
                &&& filter matches Some(x) ==> belongs_to(x, f)
                &&& found matches Some(ids) ==> ids.contains(f.id)
            },
        forall|i: int|
            0 <= i < photos.len() && (filter matches Some(x) ==> belongs_to(x, #[trigger] photos[i]))
                && (found matches Some(ids) ==> ids.contains(photos[i].id)) ==> at.contains(i),
        !by_date ==> forall|p: int, q: int|
            0 <= p < q < at.len() ==> #[trigger] at[p] < #[trigger] at[q],
{
    let pick = row_if(filter, found);
    let rows = select(photos, pick);
    let places = law_picking_keeps_the_order(photos, pick);
    lemma_select_len(photos, pick);
    assert forall|p: int| 0 <= p < places.len() implies {
        let f = photos[#[trigger] places[p]];
        &&& rows[p] == (PhotoRow {
            id: f.id,
            status: f.marks.status,
            ts: if f.marks.taken_ts is Some {
                f.marks.taken_ts->0
            } else {
                f.mtime
            },
        })
        &&& filter matches Some(x) ==> belongs_to(x, f)
        &&& found matches Some(ids) ==> ids.contains(f.id)
    } by {
        assert(pick(photos[places[p]]) == Some(rows[p]));
    }
    assert forall|i: int|
        0 <= i < photos.len() && (filter matches Some(x) ==> belongs_to(x, #[trigger] photos[i]))
            && (found matches Some(ids) ==> ids.contains(photos[i].id)) implies places.contains(
        i,
    ) by {
        assert(pick(photos[i]) is Some);
    }
    if by_date {
        let from = lemma_timeline(rows);
        let at = Seq::new(from.len(), |p: int| places[from[p]]);
        assert forall|p: int, q: int| 0 <= p < at.len() && 0 <= q < at.len() && p != q implies at[p]
            != at[q] by {
            assert(from[p] != from[q]);
            if from[p] < from[q] {
                assert(places[from[p]] < places[from[q]]);
            } else {
                assert(places[from[q]] < places[from[p]]);
            }
        }
        assert forall|i: int|
            0 <= i < photos.len() && (filter matches Some(x) ==> belongs_to(x, #[trigger] photos[i]))
                && (found matches Some(ids) ==> ids.contains(photos[i].id)) implies at.contains(
            i,
        ) by {
            assert(places.contains(i));
            let k = choose|k: int| 0 <= k < places.len() && places[k] == i;
            assert(from.contains(k));
            let p = choose|p: int| 0 <= p < from.len() && from[p] == k;
            assert(at[p] == i);
        }
        assert forall|p: int| 0 <= p < at.len() implies {
            let f = photos[#[trigger] at[p]];
            &&& 0 <= at[p] < photos.len()
            &&& ordered_rows(photos, filter, found, by_date)[p] == rows[from[p]]
        } by {
            assert(0 <= places[from[p]] < photos.len());
        }
        at
    } else {
        places
    }
}

/// **The grid shows just the photos of its filter.** Without a search, a photo has a row
/// exactly if the filter is for it: whatever its thumbnail's status, its date or its file,
/// and never twice. The row holds the photo's id, its status, and its capture date, or its
/// file's date where it has none.
pub proof fn law_grid_shows_its_photos(
    lib: LibraryView,
    filter: PhotoFilter,
    found: Option<Set<i64>>,
    by_date: bool,
    i: int,
)
    requires
        lib.wf(),
        lib.photos.len() <= usize::MAX,
        0 <= i < lib.photos.len(),
    ensures
        ({
            let rows = ordered_rows(lib.photos, Some(filter), found, by_date);
            let photo = lib.photos[i];
            &&& (exists|p: int| 0 <= p < rows.len() && (#[trigger] rows[p]).id == photo.id) <==> (
            match filter {
                PhotoFilter::Visible => !photo.marks.hidden,
                PhotoFilter::Favorites => photo.marks.favorite && !photo.marks.hidden,
                PhotoFilter::Hidden => photo.marks.hidden,
            } && (found matches Some(ids) ==> ids.contains(photo.id)))
            &&& forall|p: int, q: int|
                0 <= p < q < rows.len() ==> (#[trigger] rows[p]).id != (#[trigger] rows[q]).id
            &&& forall|p: int|
                0 <= p < rows.len() && (#[trigger] rows[p]).id == photo.id ==> rows[p].status
                    == photo.marks.status && rows[p].ts == (match photo.marks.taken_ts {
                    Some(ts) => ts,
                    None => photo.mtime,
                })
        }),
{
    let photos = lib.photos;
    let rows = ordered_rows(photos, Some(filter), found, by_date);
    let at = lemma_rows(photos, Some(filter), found, by_date);
    assert forall|a: int, b: int| 0 <= a < photos.len() && 0 <= b < photos.len() && a != b implies (
    #[trigger] photos[a]).id != (#[trigger] photos[b]).id by {
        if a < b {
            assert(photos[a].id < photos[b].id);
        } else {
            assert(photos[b].id < photos[a].id);
        }
    }
    assert forall|p: int, q: int| 0 <= p < q < rows.len() implies (#[trigger] rows[p]).id != (
    #[trigger] rows[q]).id by {
        assert(at[p] != at[q]);
        assert(photos[at[p]].id != photos[at[q]].id);
    }
    assert forall|p: int| 0 <= p < rows.len() && (#[trigger] rows[p]).id == photos[i].id implies
    at[p] == i by {
        assert(photos[at[p]].id == photos[i].id);
    }
    let shown = belongs_to(filter, photos[i]) && (found matches Some(ids) ==> ids.contains(
        photos[i].id,
    ));
    if shown {
        assert(at.contains(i));
        let p = choose|p: int| 0 <= p < at.len() && at[p] == i;
        assert(rows[p].id == photos[i].id);
    }
    if exists|p: int| 0 <= p < rows.len() && (#[trigger] rows[p]).id == photos[i].id {
        let p = choose|p: int| 0 <= p < rows.len() && (#[trigger] rows[p]).id == photos[i].id;
        assert(at[p] == i);
        assert(belongs_to(filter, photos[at[p]]));
    }
}

/// **Every row is a photo's**, in the order asked for: as discovered, or newest first, the
/// later discovered first where two are of one moment.
pub proof fn law_rows_are_in_order(
    lib: LibraryView,
    filter: Option<PhotoFilter>,
    found: Option<Set<i64>>,
    by_date: bool,
    p: int,
    q: int,
)
    requires
        lib.wf(),
        lib.photos.len() <= usize::MAX,
        0 <= p < q < ordered_rows(lib.photos, filter, found, by_date).len(),
    ensures
        ({
            let rows = ordered_rows(lib.photos, filter, found, by_date);
            &&& exists|i: int| 0 <= i < lib.photos.len() && (#[trigger] lib.photos[i]).id
                == rows[p].id
            &&& exists|i: int| 0 <= i < lib.photos.len() && (#[trigger] lib.photos[i]).id
                == rows[q].id
            &&& by_date ==> rows[p].ts > rows[q].ts || (rows[p].ts == rows[q].ts && rows[p].id
                > rows[q].id)
            &&& !by_date ==> rows[p].id < rows[q].id
        }),
{
    let photos = lib.photos;
    let at = lemma_rows(photos, filter, found, by_date);
    assert(at[p] != at[q]);
    if by_date {
        lemma_select_len(photos, row_if(filter, found));
        let order = lemma_timeline(select(photos, row_if(filter, found)));
        assert(order[p] != order[q]);
    }
    assert(photos[at[p]].id == ordered_rows(photos, filter, found, by_date)[p].id);
    assert(photos[at[q]].id == ordered_rows(photos, filter, found, by_date)[q].id);
    if at[p] < at[q] {
        assert(photos[at[p]].id < photos[at[q]].id);
    } else if at[q] < at[p] {
        assert(photos[at[q]].id < photos[at[p]].id);
    }
}

/// **Without a filter every photo is listed**, once.
pub proof fn law_nothing_is_left_out(lib: LibraryView, by_date: bool, i: int)
    requires
        lib.wf(),
        lib.photos.len() <= usize::MAX,
        0 <= i < lib.photos.len(),
    ensures
        ordered_rows(lib.photos, None, None, by_date).len() == lib.photos.len(),
        exists|p: int|
            0 <= p < lib.photos.len() && (#[trigger] ordered_rows(
                lib.photos,
                None,
                None,
                by_date,
            )[p]).id == lib.photos[i].id,
{
    let rows = ordered_rows(lib.photos, None, None, by_date);
    let at = lemma_rows(lib.photos, None, None, by_date);
    assert forall|k: int| 0 <= k < lib.photos.len() implies #[trigger] at.contains(k) by {
        let f = lib.photos[k];
    }
    assert(at.contains(i));
    let p = choose|p: int| 0 <= p < at.len() && at[p] == i;
    assert(rows[p].id == lib.photos[at[p]].id);
    let all = Seq::new(lib.photos.len(), |k: int| k);
    assert forall|k: int| 0 <= k < all.len() implies at.contains(#[trigger] all[k]) by {}
    lemma_pigeons(all, at);
    assert forall|p: int| 0 <= p < at.len() implies all.contains(#[trigger] at[p]) by {
        assert(all[at[p]] == at[p]);
    }
    lemma_pigeons(at, all);
}

/// **Status does not decide what is shown.** Photos that differ only in the status of their
/// thumbnails, or in what was found out about their faces, make the same grid, photo by
/// photo, under every filter.
pub proof fn law_status_decides_no_membership(
    a: Seq<PhotoView>,
    b: Seq<PhotoView>,
    filter: Option<PhotoFilter>,
    found: Option<Set<i64>>,
    by_date: bool,
)
    requires
        a.len() == b.len(),
        a.len() <= usize::MAX,
        forall|i: int|
            0 <= i < a.len() ==> {
                let (x, y) = (#[trigger] a[i], b[i]);
                &&& x.id == y.id
                &&& x.mtime == y.mtime
                &&& x.marks.taken_ts == y.marks.taken_ts
                &&& x.marks.hidden == y.marks.hidden
                &&& x.marks.favorite == y.marks.favorite
            },
    ensures
        ordered_rows(a, filter, found, by_date).len() == ordered_rows(
            b,
            filter,
            found,
            by_date,
        ).len(),
        forall|p: int|
            0 <= p < ordered_rows(a, filter, found, by_date).len() ==> (#[trigger] ordered_rows(
                a,
                filter,
                found,
                by_date,
            )[p]).id == ordered_rows(b, filter, found, by_date)[p].id,
{
    let (ra, rb) = (select(a, row_if(filter, found)), select(b, row_if(filter, found)));
    lemma_same_rows(a, b, filter, found);
    if by_date {
        let (ka, kb) = (ra.map_values(newest_first()), rb.map_values(newest_first()));
        assert(ka =~= kb);
        lemma_select_len(a, row_if(filter, found));
        let from = lemma_timeline(ra);
        let back = lemma_timeline(rb);
        assert forall|p: int| 0 <= p < timeline(ra).len() implies (#[trigger] timeline(ra)[p]).id
            == timeline(rb)[p].id by {
            lemma_order_of(ka);
            assert(order_of(ka)[p] < ka.len());
        }
    }
}

proof fn lemma_same_rows(
    a: Seq<PhotoView>,
    b: Seq<PhotoView>,
    filter: Option<PhotoFilter>,
    found: Option<Set<i64>>,
)
    requires
        a.len() == b.len(),
        forall|i: int|
            0 <= i < a.len() ==> {
                let (x, y) = (#[trigger] a[i], b[i]);
                &&& x.id == y.id
                &&& x.mtime == y.mtime
                &&& x.marks.taken_ts == y.marks.taken_ts
                &&& x.marks.hidden == y.marks.hidden
                &&& x.marks.favorite == y.marks.favorite
            },
    ensures
        select(a, row_if(filter, found)).len() == select(b, row_if(filter, found)).len(),
        forall|p: int|
            0 <= p < select(a, row_if(filter, found)).len() ==> {
                let (x, y) = (
                    #[trigger] select(a, row_if(filter, found))[p],
                    select(b, row_if(filter, found))[p],
                );
                x.id == y.id && x.ts == y.ts
            },
    decreases a.len(),
{
    if a.len() > 0 {
        let (fa, fb) = (a.drop_last(), b.drop_last());
        assert forall|i: int| 0 <= i < fa.len() implies {
            let (x, y) = (#[trigger] fa[i], fb[i]);
            &&& x.id == y.id
            &&& x.mtime == y.mtime
            &&& x.marks.taken_ts == y.marks.taken_ts
            &&& x.marks.hidden == y.marks.hidden
            &&& x.marks.favorite == y.marks.favorite
        } by {
            assert(a[i].id == b[i].id);
        }
        lemma_same_rows(fa, fb, filter, found);
        let n = a.len() - 1;
        assert(a[n].id == b[n].id);
    }
}

/// **The grid has as many cells as rows.** The count under a filter and a search is the
/// number of rows under them.
pub proof fn law_cells_are_counted(
    lib: LibraryView,
    filter: PhotoFilter,
    found: Option<Set<i64>>,
    by_date: bool,
)
    requires
        lib.photos.len() <= usize::MAX,
    ensures
        tally(lib.photos, shown_by(filter, found)) == ordered_rows(
            lib.photos,
            Some(filter),
            found,
            by_date,
        ).len(),
        tally(lib.photos, shown_by(filter, found)) == lib.photos.filter(
            |p: PhotoView|
                belongs_to(filter, p) && (found matches Some(ids) ==> ids.contains(p.id)),
        ).len(),
{
    let pick = row_if(Some(filter), found);
    lemma_select_tally(lib.photos, pick, shown_by(filter, found));
    lemma_select_len(lib.photos, pick);
    let rows = select(lib.photos, pick);
    let from = lemma_timeline(rows);
    lemma_tally_filter(
        lib.photos,
        shown_by(filter, found),
        |p: PhotoView| belongs_to(filter, p) && (found matches Some(ids) ==> ids.contains(p.id)),
    );
}

/// **What is hidden and what is visible make the library.**
pub proof fn law_hidden_and_visible_make_all(lib: LibraryView)
    ensures
        tally(lib.photos, shown_by(PhotoFilter::Visible, None)) + tally(
            lib.photos,
            shown_by(PhotoFilter::Hidden, None),
        ) == lib.photos.len(),
        tally(lib.photos, shown_by(PhotoFilter::Hidden, None)) == tally(lib.photos, is_hidden()),
        tally(lib.photos, shown_by(PhotoFilter::Favorites, None)) <= tally(
            lib.photos,
            is_favorite(),
        ),
{
    lemma_hidden_and_visible(lib.photos);
}

proof fn lemma_hidden_and_visible(photos: Seq<PhotoView>)
    ensures
        tally(photos, shown_by(PhotoFilter::Visible, None)) + tally(
            photos,
            shown_by(PhotoFilter::Hidden, None),
        ) == photos.len(),
        tally(photos, shown_by(PhotoFilter::Hidden, None)) == tally(photos, is_hidden()),
        tally(photos, shown_by(PhotoFilter::Favorites, None)) <= tally(photos, is_favorite()),
    decreases photos.len(),
{
    if photos.len() > 0 {
        lemma_hidden_and_visible(photos.drop_last());
    }
}

/// **The header counts what is there.** Thumbnails that are ready, favorites and hidden
/// photos are counted one by one.
pub proof fn law_header_counts(lib: LibraryView)
    ensures
        tally(lib.photos, has_status(1)) == lib.photos.filter(
            |p: PhotoView| p.marks.status == 1,
        ).len(),
        tally(lib.photos, is_favorite()) == lib.photos.filter(
            |p: PhotoView| p.marks.favorite,
        ).len(),
        tally(lib.photos, is_hidden()) == lib.photos.filter(|p: PhotoView| p.marks.hidden).len(),
{
    lemma_tally_filter(lib.photos, has_status(1), |p: PhotoView| p.marks.status == 1);
    lemma_tally_filter(lib.photos, is_favorite(), |p: PhotoView| p.marks.favorite);
    lemma_tally_filter(lib.photos, is_hidden(), |p: PhotoView| p.marks.hidden);
}

/// **A page starts where it is asked to.** It holds the rows from the offset on, as many as
/// asked for and there; without a limit, all that follow.
pub proof fn law_page_starts_at_its_offset<T>(s: Seq<T>, offset: int, limit: int, k: int)
    requires
        0 <= offset,
    ensures
        offset >= s.len() ==> window(s, offset, limit).len() == 0,
        offset < s.len() ==> window(s, offset, limit).len() == (if limit < 0 || limit > s.len()
            - offset {
            s.len() - offset
        } else {
            limit
        }),
        0 <= k < window(s, offset, limit).len() ==> window(s, offset, limit)[k] == s[offset + k],
        window(s, 0, -1) == s,
        window(s, -1 - offset, limit) == window(s, 0, limit),
{
    assert(s.skip(0) =~= s);
}

/// **The words of the filters.** Favorites and hidden photos are asked for by name; any other
/// word asks for what is visible.
pub proof fn law_filter_words(word: Seq<char>)
    ensures
        PhotoFilter::of(seq!['f', 'a', 'v', 'o', 'r', 'i', 't', 'e', 's'])
            == PhotoFilter::Favorites,
        PhotoFilter::of(seq!['h', 'i', 'd', 'd', 'e', 'n']) == PhotoFilter::Hidden,
        word != seq!['f', 'a', 'v', 'o', 'r', 'i', 't', 'e', 's'] && word != seq![
            'h',
            'i',
            'd',
            'd',
            'e',
            'n',
        ] ==> PhotoFilter::of(word) == PhotoFilter::Visible,
{
    reveal_strlit("favorites");
    reveal_strlit("hidden");
    assert("favorites"@ =~= seq!['f', 'a', 'v', 'o', 'r', 'i', 't', 'e', 's']);
    assert("hidden"@ =~= seq!['h', 'i', 'd', 'd', 'e', 'n']);
    assert("favorites"@.len() != "hidden"@.len());
}

} // verus!
