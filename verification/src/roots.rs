//! Roots: the folders the library is built from.

use vstd::prelude::*;

use crate::faces::{delete_faces_for_photos, face_ids_of_photos, face_of, outside};
use crate::library::{pick_photos, roots_wf, text_before, Library, LibraryView, Photo, PhotoView};
use crate::paths::starts_with;
use crate::photos::{id_unless, lemma_kept_photos_wf};
use crate::rows::{kept, lemma_views_insert, retain_rows, select, tally, views};
use crate::scan::Removed;
use crate::text::chars_of;

verus! {

proof fn lemma_before_irreflexive(a: Seq<char>)
    ensures
        !text_before(a, a),
    decreases a.len(),
{
    if a.len() > 0 {
        lemma_before_irreflexive(a.drop_first());
    }
}

proof fn lemma_before_total(a: Seq<char>, b: Seq<char>)
    ensures
        text_before(a, b) || text_before(b, a) || a == b,
    decreases a.len(),
{
    if a.len() > 0 && b.len() > 0 {
        lemma_before_total(a.drop_first(), b.drop_first());
        if a[0] == b[0] && a.drop_first() == b.drop_first() {
            assert(a =~= seq![a[0]] + a.drop_first());
            assert(b =~= seq![b[0]] + b.drop_first());
        }
    } else if a.len() == 0 && b.len() == 0 {
        assert(a =~= b);
    }
}

proof fn lemma_before_transitive(a: Seq<char>, b: Seq<char>, c: Seq<char>)
    requires
        text_before(a, b),
        text_before(b, c),
    ensures
        text_before(a, c),
    decreases a.len(),
{
    if a.len() > 0 && a[0] == b[0] && b[0] == c[0] {
        lemma_before_transitive(a.drop_first(), b.drop_first(), c.drop_first());
    }
}

fn is_before(a: &str, b: &str) -> (r: bool)
    ensures
        r == text_before(a@, b@),
{
    let x = chars_of(a);
    let y = chars_of(b);
    let mut i: usize = 0;
    assert(x@.skip(0) =~= x@);
    assert(y@.skip(0) =~= y@);
    while i < x.len() && i < y.len()
        invariant
            i <= x@.len(),
            i <= y@.len(),
            x@ == a@,
            y@ == b@,
            text_before(a@, b@) == text_before(x@.skip(i as int), y@.skip(i as int)),
        decreases x@.len() - i,
    {
        assert(x@.skip(i as int).drop_first() =~= x@.skip(i + 1));
        assert(y@.skip(i as int).drop_first() =~= y@.skip(i + 1));
        if x[i] < y[i] {
            return true;
        }
        if x[i] != y[i] {
            return false;
        }
        i = i + 1;
    }
    i < y.len()
}

/// Tests for a text that comes before another.
pub open spec fn comes_before(path: Seq<char>) -> spec_fn(Seq<char>) -> bool {
    |r: Seq<char>| text_before(r, path)
}

/// The roots with one more, in order; a root that is there is not added again.
pub open spec fn with_root(roots: Seq<Seq<char>>, path: Seq<char>) -> Seq<Seq<char>> {
    if roots.contains(path) {
        roots
    } else {
        roots.insert(tally(roots, comes_before(path)) as int, path)
    }
}

/// In a sorted list, what comes before a text stands before its place.
proof fn lemma_place(roots: Seq<Seq<char>>, path: Seq<char>)
    requires
        roots_wf(roots),
    ensures
        tally(roots, comes_before(path)) <= roots.len(),
        forall|i: int|
            0 <= i < roots.len() ==> (text_before(#[trigger] roots[i], path) <==> i < tally(
                roots,
                comes_before(path),
            )),
    decreases roots.len(),
{
    if roots.len() > 0 {
        let front = roots.drop_last();
        assert(roots_wf(front)) by {
            assert forall|i: int, j: int| 0 <= i < j < front.len() implies text_before(
                #[trigger] front[i],
                #[trigger] front[j],
            ) by {
                assert(front[i] == roots[i] && front[j] == roots[j]);
            }
        }
        lemma_place(front, path);
        let n = roots.len() - 1;
        assert forall|i: int| 0 <= i < roots.len() implies (text_before(#[trigger] roots[i], path)
            <==> i < tally(roots, comes_before(path))) by {
            if i < n {
                assert(front[i] == roots[i]);
                if text_before(roots[n], path) {
                    lemma_before_transitive(roots[i], roots[n], path);
                }
            } else {
                assert(roots[n] == roots.last());
                if text_before(roots[n], path) {
                    if tally(front, comes_before(path)) < n {
                        let k = tally(front, comes_before(path)) as int;
                        assert(front[k] == roots[k]);
                        lemma_before_transitive(roots[k], roots[n], path);
                        assert(text_before(front[k], path));
                    }
                }
            }
        }
    }
}

proof fn lemma_with_root(roots: Seq<Seq<char>>, path: Seq<char>)
    requires
        roots_wf(roots),
    ensures
        roots_wf(with_root(roots, path)),
{
    if !roots.contains(path) {
        lemma_place(roots, path);
        let at = tally(roots, comes_before(path)) as int;
        let after = roots.insert(at, path);
        assert forall|i: int, j: int| 0 <= i < j < after.len() implies text_before(
            #[trigger] after[i],
            #[trigger] after[j],
        ) by {
            let a = if i < at {
                i
            } else {
                i - 1
            };
            let b = if j < at {
                j
            } else {
                j - 1
            };
            if i != at && j != at {
                assert(after[i] == roots[a] && after[j] == roots[b]);
            } else if i == at {
                assert(after[j] == roots[b]);
                lemma_before_total(roots[b], path);
                assert(roots.contains(roots[b]));
            } else {
                assert(after[i] == roots[a]);
            }
        }
    }
}

/// Remember a folder the user added. Idempotent.
pub fn add_root(lib: &mut Library, path: &str)
    requires
        old(lib).wf(),
    ensures
        final(lib)@ == (LibraryView { roots: with_root(old(lib)@.roots, path@), ..old(lib)@ }),
        final(lib).wf(),
{
    let ghost before = lib@;
    let ghost all = lib@.roots;
    let n: usize = lib.roots.len();
    let mut at: usize = 0;
    proof {
        lemma_with_root(all, path@);
        lemma_place(all, path@);
    }
    while at < n && is_before(lib.roots[at].as_str(), path)
        invariant
            n == lib.roots@.len(),
            lib@ == before,
            all == lib@.roots,
            at <= n,
            forall|k: int| 0 <= k < at ==> text_before(#[trigger] all[k], path@),
        decreases n - at,
    {
        assert(all[at as int] == lib.roots@[at as int]@);
        at = at + 1;
    }
    proof {
        let place = tally(all, comes_before(path@)) as int;
        if at < n {
            assert(all[at as int] == lib.roots@[at as int]@);
        }
        if at < place {
            assert(text_before(all[at as int], path@));
        }
        if place < at {
            assert(text_before(all[place], path@));
        }
        assert(at == place);
    }
    let name = path.to_owned();
    if at < n && lib.roots[at] == name {
        assert(all[at as int] == path@);
        return ;
    }
    assert(!all.contains(path@)) by {
        if all.contains(path@) {
            let k = choose|k: int| 0 <= k < all.len() && all[k] == path@;
            lemma_before_irreflexive(path@);
            assert(!text_before(all[k], path@));
            assert(k >= at);
            if k > at {
                assert(text_before(all[at as int], all[k]));
            } else {
                assert(all[at as int] == lib.roots@[at as int]@);
            }
        }
    }
    proof {
        lemma_views_insert(lib.roots@, at as int, name);
    }
    lib.roots.insert(at, name);
}

/// The folders the library is built from, in order.
pub fn list_roots(lib: &Library) -> (out: Vec<String>)
    ensures
        views(out@) == lib@.roots,
{
    let mut out: Vec<String> = Vec::new();
    for i in 0..lib.roots.len()
        invariant
            out@.len() == i,
            forall|k: int| 0 <= k < i ==> (#[trigger] out@[k])@ == lib.roots@[k]@,
    {
        out.push(lib.roots[i].clone());
    }
    assert(views(out@) =~= lib@.roots);
    out
}

/// The path is the folder, or lies below it.
pub open spec fn lies_in(root: Seq<char>, path: Seq<char>) -> bool {
    let below = if root.len() > 0 && root.last() == '/' {
        root
    } else {
        root.push('/')
    };
    path == root || below.is_prefix_of(path)
}

/// Tests for a photo outside a folder.
pub open spec fn not_in(root: Seq<char>) -> spec_fn(PhotoView) -> bool {
    |p: PhotoView| !lies_in(root, p.path)
}

/// Tests for another root.
pub open spec fn other_root(root: Seq<char>) -> spec_fn(Seq<char>) -> bool {
    |r: Seq<char>| r != root
}

/// The ids of the photos in a folder.
pub open spec fn ids_in(lib: LibraryView, root: Seq<char>) -> Seq<i64> {
    select(lib.photos, id_unless(not_in(root)))
}

/// The library without a root and its photos.
pub open spec fn without_root(lib: LibraryView, root: Seq<char>) -> LibraryView {
    LibraryView {
        roots: kept(lib.roots, other_root(root)),
        photos: kept(lib.photos, not_in(root)),
        ..lib
    }
}

proof fn lemma_kept_roots(roots: Seq<Seq<char>>, test: spec_fn(Seq<char>) -> bool)
    requires
        roots_wf(roots),
    ensures
        roots_wf(kept(roots, test)),
        forall|p: int|
            0 <= p < kept(roots, test).len() ==> roots.contains(#[trigger] kept(roots, test)[p]),
    decreases roots.len(),
{
    if roots.len() > 0 {
        let front = roots.drop_last();
        assert(roots_wf(front)) by {
            assert forall|i: int, j: int| 0 <= i < j < front.len() implies text_before(
                #[trigger] front[i],
                #[trigger] front[j],
            ) by {
                assert(front[i] == roots[i] && front[j] == roots[j]);
            }
        }
        lemma_kept_roots(front, test);
        let rest = kept(front, test);
        let all = kept(roots, test);
        assert forall|p: int| 0 <= p < all.len() implies roots.contains(#[trigger] all[p]) by {
            if p < rest.len() {
                assert(all[p] == rest[p]);
                let i = choose|i: int| 0 <= i < front.len() && front[i] == rest[p];
                assert(roots[i] == all[p]);
            } else {
                assert(roots[roots.len() - 1] == all[p]);
            }
        }
        assert forall|i: int, j: int| 0 <= i < j < all.len() implies text_before(
            #[trigger] all[i],
            #[trigger] all[j],
        ) by {
            assert(all[i] == rest[i]);
            if j < rest.len() {
                assert(all[j] == rest[j]);
            } else {
                assert(front.contains(rest[i]));
                let k = choose|k: int| 0 <= k < front.len() && front[k] == rest[i];
                assert(text_before(roots[k], roots[roots.len() - 1]));
            }
        }
    }
}

fn in_folder(root: &str, path: &str) -> (r: bool)
    ensures
        r == lies_in(root@, path@),
{
    let n: usize = root.unicode_len();
    let p: usize = path.unicode_len();
    let whole = starts_with(path, root);
    if whole && p == n {
        assert(path@ =~= root@);
        return true;
    }
    assert(path@ != root@) by {
        if path@ == root@ {
            assert(path@.subrange(0, n as int) =~= root@);
        }
    }
    if n > 0 && root.get_char(n - 1) == '/' {
        return whole;
    }
    let mut below = root.to_owned();
    below.push('/');
    starts_with(path, below.as_str())
}

/// Forget a root and return the ids of the photos it contained (so the caller can delete
/// their cached files). The photos are deleted here.
pub fn remove_root(lib: &mut Library, path: &str) -> (ids: Vec<i64>)
    requires
        old(lib).wf(),
    ensures
        final(lib)@ == without_root(old(lib)@, path@),
        final(lib).wf(),
        ids@ == ids_in(old(lib)@, path@),
{
    let pick = |p: &Photo| -> (b: Option<i64>)
        ensures
            b == id_unless(not_in(path@))(p@),
        {
            if in_folder(path, p.path.as_str()) {
                Some(p.id)
            } else {
                None
            }
        };
    let ids = pick_photos(lib, pick, Ghost(id_unless(not_in(path@))));
    proof {
        lemma_kept_photos_wf(lib@.photos, not_in(path@));
        lemma_kept_roots(lib@.roots, other_root(path@));
    }
    let test = |p: &Photo| -> (b: bool)
        ensures
            b == not_in(path@)(p@),
        { !in_folder(path, p.path.as_str()) };
    retain_rows(&mut lib.photos, test, Ghost(not_in(path@)));
    let name = path.to_owned();
    let other = |r: &String| -> (b: bool)
        ensures
            b == other_root(path@)(r@),
        { *r != name };
    retain_rows(&mut lib.roots, other, Ghost(other_root(path@)));
    ids
}

/// Remove a folder from the library: drop its photos, and the faces in them.
pub fn remove_folder(lib: &mut Library, path: &str) -> (removed: Removed)
    requires
        old(lib).wf(),
    ensures
        final(lib).wf(),
        removed.photos@ == ids_in(old(lib)@, path@),
        removed.faces@ == select(old(lib)@.faces, face_of(removed.photos@)),
        final(lib)@ == (LibraryView {
            faces: kept(old(lib)@.faces, outside(removed.photos@)),
            ..without_root(old(lib)@, path@)
        }),
{
    let photos = remove_root(lib, path);
    let faces = face_ids_of_photos(lib, &photos);
    delete_faces_for_photos(lib, &photos);
    Removed { photos, faces }
}

/// Tests for a text that a list lacks.
pub open spec fn missing_from(list: Seq<Seq<char>>) -> spec_fn(Seq<char>) -> bool {
    |r: Seq<char>| !list.contains(r)
}

fn texts_missing(list: &Vec<String>, from: &Vec<String>) -> (out: Vec<String>)
    ensures
        views(out@) == kept(views(list@), missing_from(views(from@))),
{
    let ghost rows = views(list@);
    let ghost have = views(from@);
    let mut out: Vec<String> = Vec::new();
    assert(views(out@) =~= Seq::empty());
    for i in 0..list.len()
        invariant
            rows == views(list@),
            have == views(from@),
            views(out@) == kept(rows.take(i as int), missing_from(have)),
    {
        assert(rows.take(i + 1).drop_last() == rows.take(i as int));
        assert(rows[i as int] == list@[i as int]@);
        let mut found = false;
        let mut k: usize = 0;
        while k < from.len() && !found
            invariant
                k <= from@.len(),
                i < list@.len(),
                rows == views(list@),
                have == views(from@),
                found ==> have.contains(list@[i as int]@),
                !found ==> forall|j: int| 0 <= j < k ==> #[trigger] have[j] != list@[i as int]@,
            decreases from@.len() - k + if found {
                0int
            } else {
                1
            },
        {
            assert(have[k as int] == from@[k as int]@);
            if from[k] == list[i] {
                found = true;
            } else {
                k = k + 1;
            }
        }
        let ghost held = views(out@);
        if !found {
            let text = list[i].clone();
            out.push(text);
            assert(views(out@) =~= held.push(list@[i as int]@));
        }
    }
    assert(rows.take(rows.len() as int) == rows);
    out
}

/// What the watch list lacks of the roots, and what it has beyond them.
pub fn watch_changes(watched: &Vec<String>, roots: &Vec<String>) -> (r: (Vec<String>, Vec<String>))
    ensures
        views(r.0@) == kept(views(roots@), missing_from(views(watched@))),
        views(r.1@) == kept(views(watched@), missing_from(views(roots@))),
{
    (texts_missing(roots, watched), texts_missing(watched, roots))
}

/// A folder that was added is listed, and adding it again changes nothing.
pub proof fn law_adding_a_root_is_idempotent(roots: Seq<Seq<char>>, path: Seq<char>)
    requires
        roots_wf(roots),
    ensures
        with_root(roots, path).contains(path),
        with_root(with_root(roots, path), path) == with_root(roots, path),
{
    if !roots.contains(path) {
        lemma_place(roots, path);
        let at = tally(roots, comes_before(path)) as int;
        assert(roots.insert(at, path)[at] == path);
    }
}

} // verus!
