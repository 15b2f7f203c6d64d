//! Declared facts about pairs: identities that are different people, and faces of one
//! photo that are one person after all.

use vstd::prelude::*;

use crate::cluster::{contains_pair, pair};
use crate::identities::{cluster_identity, ensure_identity_for_cluster, ensured};
use crate::library::{pairs_wf, pick_faces, Face, FaceView, Library, LibraryView};
use crate::rows::{kept, retain_rows, select, views};

verus! {

/// The pairs with one more, unless it is there already.
pub open spec fn with_pair(pairs: Seq<(i64, i64)>, a: i64, b: i64) -> Seq<(i64, i64)> {
    if pairs.contains(pair(a, b)) {
        pairs
    } else {
        pairs.push(pair(a, b))
    }
}

/// Tests for another pair.
pub open spec fn other_than(a: i64, b: i64) -> spec_fn((i64, i64)) -> bool {
    |p: (i64, i64)| p != pair(a, b)
}

/// The pairs without one.
pub open spec fn without_pair(pairs: Seq<(i64, i64)>, a: i64, b: i64) -> Seq<(i64, i64)> {
    kept(pairs, other_than(a, b))
}

/// The pairs with several more.
pub open spec fn with_pairs(pairs: Seq<(i64, i64)>, more: Seq<(i64, i64)>) -> Seq<(i64, i64)>
    decreases more.len(),
{
    if more.len() == 0 {
        pairs
    } else {
        let rest = with_pairs(pairs, more.drop_last());
        with_pair(rest, more.last().0, more.last().1)
    }
}

/// The pairs without several.
pub open spec fn without_pairs(pairs: Seq<(i64, i64)>, gone: Seq<(i64, i64)>) -> Seq<(i64, i64)>
    decreases gone.len(),
{
    if gone.len() == 0 {
        pairs
    } else {
        without_pair(
            without_pairs(pairs, gone.drop_last()),
            gone.last().0,
            gone.last().1,
        )
    }
}

/// The pairs that are new when several are added.
pub open spec fn new_pairs(pairs: Seq<(i64, i64)>, more: Seq<(i64, i64)>) -> Seq<(i64, i64)>
    decreases more.len(),
{
    if more.len() == 0 {
        Seq::empty()
    } else {
        let front = more.drop_last();
        let (a, b) = more.last();
        if with_pairs(pairs, front).contains(pair(a, b)) {
            new_pairs(pairs, front)
        } else {
            new_pairs(pairs, front).push(pair(a, b))
        }
    }
}

pub proof fn lemma_with_pair_wf(pairs: Seq<(i64, i64)>, a: i64, b: i64)
    requires
        pairs_wf(pairs),
    ensures
        pairs_wf(with_pair(pairs, a, b)),
{
    let after = with_pair(pairs, a, b);
    if !pairs.contains(pair(a, b)) {
        assert forall|i: int, j: int| 0 <= i < j < after.len() implies #[trigger] after[i]
            != #[trigger] after[j] by {
            assert(after[i] == pairs[i]);
            if j == pairs.len() {
                assert(pairs.contains(pairs[i]));
            }
        }
    }
}

pub proof fn lemma_without_pair_wf(pairs: Seq<(i64, i64)>, a: i64, b: i64)
    requires
        pairs_wf(pairs),
    ensures
        pairs_wf(without_pair(pairs, a, b)),
        forall|p: (i64, i64)| #[trigger]
            without_pair(pairs, a, b).contains(p) ==> pairs.contains(p),
    decreases pairs.len(),
{
    if pairs.len() > 0 {
        let front = pairs.drop_last();
        assert(pairs_wf(front)) by {
            assert forall|i: int| 0 <= i < front.len() implies (#[trigger] front[i]).0
                <= front[i].1 by {
                assert(front[i] == pairs[i]);
            }
            assert forall|i: int, j: int| 0 <= i < j < front.len() implies #[trigger] front[i]
                != #[trigger] front[j] by {
                assert(front[i] == pairs[i] && front[j] == pairs[j]);
            }
        }
        lemma_without_pair_wf(front, a, b);
        let rest = without_pair(front, a, b);
        let after = without_pair(pairs, a, b);
        assert(pairs[pairs.len() - 1] == pairs.last());
        assert forall|p: (i64, i64)| #[trigger] after.contains(p) implies pairs.contains(p) by {
            let i = choose|i: int| 0 <= i < after.len() && after[i] == p;
            if i < rest.len() {
                assert(rest[i] == p);
                assert(rest.contains(p));
                let k = choose|k: int| 0 <= k < front.len() && front[k] == p;
                assert(pairs[k] == p);
            }
        }
        assert forall|i: int, j: int| 0 <= i < j < after.len() implies #[trigger] after[i]
            != #[trigger] after[j] by {
            if j == rest.len() {
                assert(rest.contains(rest[i]));
                let k = choose|k: int| 0 <= k < front.len() && front[k] == rest[i];
                assert(pairs[k] == rest[i]);
                assert(pairs[k] != pairs[pairs.len() - 1]);
            }
        }
        assert forall|i: int| 0 <= i < after.len() implies (#[trigger] after[i]).0
            <= after[i].1 by {
            if i < rest.len() {
                assert(after[i] == rest[i]);
            }
        }
    }
}

/// Record a cannot-link directly between two **identity** ids, normalized.
pub fn add_cannot_link_ids(lib: &mut Library, a: i64, b: i64)
    requires
        old(lib).wf(),
    ensures
        final(lib)@ == (LibraryView {
            cannot_link: with_pair(old(lib)@.cannot_link, a, b),
            ..old(lib)@
        }),
        final(lib).wf(),
{
    proof {
        lemma_with_pair_wf(lib@.cannot_link, a, b);
    }
    if !contains_pair(&lib.cannot_link, a, b) {
        let (lo, hi) = if a < b {
            (a, b)
        } else {
            (b, a)
        };
        lib.cannot_link.push((lo, hi));
    }
}

/// The library after two clusters were declared different people.
pub open spec fn declared_apart(lib: LibraryView, into: i64, from: i64) -> LibraryView {
    let one = ensured(lib, into);
    let both = ensured(one, from);
    LibraryView {
        cannot_link: with_pair(
            both.cannot_link,
            cluster_identity(lib, into),
            cluster_identity(one, from),
        ),
        ..both
    }
}

/// Record that two clusters are *not* the same person, promoting each side to a durable
/// identity so the barrier survives re-clusters.
pub fn add_cannot_link(lib: &mut Library, into: i64, from: i64)
    requires
        old(lib).wf(),
        old(lib)@.last_identity() < i64::MAX - 1,
    ensures
        final(lib)@ == declared_apart(old(lib)@, into, from),
        final(lib).wf(),
{
    let a: i64 = ensure_identity_for_cluster(lib, into);
    let b: i64 = ensure_identity_for_cluster(lib, from);
    add_cannot_link_ids(lib, a, b);
}

/// All declared "not the same" identity pairs, each in ascending order.
pub fn cannot_link_pairs(lib: &Library) -> (out: Vec<(i64, i64)>)
    ensures
        out@ == lib@.cannot_link,
{
    copy_pairs(&lib.cannot_link)
}

fn copy_pairs(pairs: &Vec<(i64, i64)>) -> (out: Vec<(i64, i64)>)
    ensures
        out@ == pairs@,
{
    let mut out: Vec<(i64, i64)> = Vec::with_capacity(pairs.len());
    for i in 0..pairs.len()
        invariant
            out@ == pairs@.take(i as int),
    {
        out.push(pairs[i]);
        assert(out@ =~= pairs@.take(i + 1));
    }
    assert(out@ =~= pairs@);
    out
}

/// Whether a cannot-link already exists for this (unordered) identity pair.
pub fn cannot_link_exists(lib: &Library, a: i64, b: i64) -> (found: bool)
    ensures
        found == lib@.cannot_link.contains(pair(a, b)),
{
    contains_pair(&lib.cannot_link, a, b)
}

fn drop_pair(pairs: &mut Vec<(i64, i64)>, a: i64, b: i64)
    ensures
        final(pairs)@ == without_pair(old(pairs)@, a, b),
{
    let (lo, hi) = if a < b {
        (a, b)
    } else {
        (b, a)
    };
    let ghost before = pairs@;
    let test = |p: &(i64, i64)| -> (r: bool)
        ensures
            r == other_than(a, b)(p@),
        { p.0 != lo || p.1 != hi };
    assert(views(pairs@) =~= pairs@);
    retain_rows(pairs, test, Ghost(other_than(a, b)));
    assert(views(pairs@) =~= pairs@);
}

/// Drop a cannot-link (undo of a reassign that recorded one).
pub fn remove_cannot_link(lib: &mut Library, a: i64, b: i64)
    requires
        old(lib).wf(),
    ensures
        final(lib)@ == (LibraryView {
            cannot_link: without_pair(old(lib)@.cannot_link, a, b),
            ..old(lib)@
        }),
        final(lib).wf(),
{
    proof {
        lemma_without_pair_wf(lib@.cannot_link, a, b);
    }
    drop_pair(&mut lib.cannot_link, a, b);
}

/// Record a cannot-link between two identities unless it already exists or they're the
/// same identity. Returns the pair when newly added (so undo can remove it).
pub fn record_cannot_link_if_new(lib: &mut Library, a: i64, b: i64) -> (added: Option<(i64, i64)>)
    requires
        old(lib).wf(),
    ensures
        final(lib)@ == recorded_apart(old(lib)@, a, b),
        final(lib).wf(),
        added == newly_apart(old(lib)@, a, b),
{
    if a == b || cannot_link_exists(lib, a, b) {
        return None;
    }
    add_cannot_link_ids(lib, a, b);
    Some((a, b))
}

/// The pair that declaring two identities different people adds, if any.
pub open spec fn newly_apart(lib: LibraryView, a: i64, b: i64) -> Option<(i64, i64)> {
    if a == b || lib.cannot_link.contains(pair(a, b)) {
        None
    } else {
        Some((a, b))
    }
}

/// The library after two identities were declared different people.
pub open spec fn recorded_apart(lib: LibraryView, a: i64, b: i64) -> LibraryView {
    if a == b {
        lib
    } else {
        LibraryView { cannot_link: with_pair(lib.cannot_link, a, b), ..lib }
    }
}

/// The user-confirmed same-photo exceptions (collages, mirrors), as normalized pairs.
pub fn same_photo_ok_pairs(lib: &Library) -> (out: Vec<(i64, i64)>)
    ensures
        out@ == lib@.same_photo_ok,
{
    copy_pairs(&lib.same_photo_ok)
}

/// Record same-photo exceptions for a set of face pairs (normalized, idempotent).
pub fn add_same_photo_ok(lib: &mut Library, pairs: &Vec<(i64, i64)>)
    requires
        old(lib).wf(),
    ensures
        final(lib)@ == (LibraryView {
            same_photo_ok: with_pairs(old(lib)@.same_photo_ok, pairs@),
            ..old(lib)@
        }),
        final(lib).wf(),
{
    let added = add_same_photo_ok_returning_new(lib, pairs);
}

/// [`add_same_photo_ok`], returning the pairs that were not there before.
pub fn add_same_photo_ok_returning_new(lib: &mut Library, pairs: &Vec<(i64, i64)>) -> (added: Vec<
    (i64, i64),
>)
    requires
        old(lib).wf(),
    ensures
        final(lib)@ == (LibraryView {
            same_photo_ok: with_pairs(old(lib)@.same_photo_ok, pairs@),
            ..old(lib)@
        }),
        final(lib).wf(),
        added@ == new_pairs(old(lib)@.same_photo_ok, pairs@),
{
    let ghost before = lib@;
    let mut added: Vec<(i64, i64)> = Vec::new();
    for i in 0..pairs.len()
        invariant
            lib.wf(),
            lib@ == (LibraryView {
                same_photo_ok: with_pairs(before.same_photo_ok, pairs@.take(i as int)),
                ..before
            }),
            added@ == new_pairs(before.same_photo_ok, pairs@.take(i as int)),
    {
        let (a, b) = pairs[i];
        proof {
            assert(pairs@.take(i + 1).drop_last() == pairs@.take(i as int));
            lemma_with_pair_wf(lib@.same_photo_ok, a, b);
        }
        if !contains_pair(&lib.same_photo_ok, a, b) {
            let (lo, hi) = if a < b {
                (a, b)
            } else {
                (b, a)
            };
            lib.same_photo_ok.push((lo, hi));
            added.push((lo, hi));
        }
    }
    assert(pairs@.take(pairs@.len() as int) == pairs@);
    added
}

/// Drop same-photo exceptions (undo of an answer that recorded them).
pub fn remove_same_photo_ok(lib: &mut Library, pairs: &Vec<(i64, i64)>)
    requires
        old(lib).wf(),
    ensures
        final(lib)@ == (LibraryView {
            same_photo_ok: without_pairs(old(lib)@.same_photo_ok, pairs@),
            ..old(lib)@
        }),
        final(lib).wf(),
{
    let ghost before = lib@;
    for i in 0..pairs.len()
        invariant
            lib.wf(),
            lib@ == (LibraryView {
                same_photo_ok: without_pairs(before.same_photo_ok, pairs@.take(i as int)),
                ..before
            }),
    {
        proof {
            assert(pairs@.take(i + 1).drop_last() == pairs@.take(i as int));
            lemma_without_pair_wf(lib@.same_photo_ok, pairs@[i as int].0, pairs@[i as int].1);
        }
        drop_pair(&mut lib.same_photo_ok, pairs[i].0, pairs[i].1);
    }
    assert(pairs@.take(pairs@.len() as int) == pairs@);
}

/// Picks the faces of a group that share a photo with a face.
pub open spec fn beside(f: FaceView, group: i64) -> spec_fn(FaceView) -> Option<(i64, i64, i64)> {
    |g: FaceView|
        if g.photo_id == f.photo_id && g.marks.group() == Some(group) {
            Some((f.photo_id, f.id, g.id))
        } else {
            None
        }
}

/// The face pairs across two groups that share a photo, for the first `n` faces.
pub open spec fn cooccurring(faces: Seq<FaceView>, a: i64, b: i64, n: nat) -> Seq<(i64, i64, i64)>
    decreases n,
{
    if n == 0 {
        Seq::empty()
    } else {
        let f = faces[n - 1];
        let earlier = cooccurring(faces, a, b, (n - 1) as nat);
        if f.marks.group() == Some(a) {
            earlier + select(faces, beside(f, b))
        } else {
            earlier
        }
    }
}

/// Face pairs across two groups that share a photo: `(photo_id, face_in_a,
/// face_in_b)`. These are the pairs the same-photo rule blocks, and the ones a "same
/// person (collage)" answer marks as exceptions.
pub fn cooccurring_face_pairs(lib: &Library, cluster_a: i64, cluster_b: i64) -> (out: Vec<
    (i64, i64, i64),
>)
    ensures
        out@ == cooccurring(lib@.faces, cluster_a, cluster_b, lib@.faces.len()),
{
    let ghost faces = lib@.faces;
    let mut out: Vec<(i64, i64, i64)> = Vec::new();
    for i in 0..lib.faces.len()
        invariant
            faces == lib@.faces,
            out@ == cooccurring(faces, cluster_a, cluster_b, i as nat),
    {
        let face = &lib.faces[i];
        assert(faces[i as int] == face@);
        if face.marks.display_group() == Some(cluster_a) {
            let pick = |g: &Face| -> (r: Option<(i64, i64, i64)>)
                ensures
                    r == beside(face@, cluster_b)(g@),
                {
                    if g.photo_id == face.photo_id && g.marks.display_group() == Some(cluster_b) {
                        Some((face.photo_id, face.id, g.id))
                    } else {
                        None
                    }
                };
            let mut more = pick_faces(lib, pick, Ghost(beside(face@, cluster_b)));
            out.append(&mut more);
        }
    }
    out
}

/// **Exceptions are idempotent.** Recording an exception that is already there, in
/// either order of its faces, changes nothing.
pub proof fn law_exceptions_are_idempotent(pairs: Seq<(i64, i64)>, a: i64, b: i64)
    ensures
        with_pair(with_pair(pairs, a, b), b, a) == with_pair(pairs, a, b),
        with_pair(pairs, a, b).contains(pair(a, b)),
{
    let once = with_pair(pairs, a, b);
    if !pairs.contains(pair(a, b)) {
        assert(once[pairs.len() as int] == pair(a, b));
    }
    assert(once.contains(pair(a, b)));
    assert(pair(a, b) == pair(b, a));
}

proof fn lemma_kept_all(pairs: Seq<(i64, i64)>, a: i64, b: i64)
    requires
        !pairs.contains(pair(a, b)),
    ensures
        without_pair(pairs, a, b) == pairs,
    decreases pairs.len(),
{
    if pairs.len() > 0 {
        let front = pairs.drop_last();
        assert(!front.contains(pair(a, b))) by {
            if front.contains(pair(a, b)) {
                let i = choose|i: int| 0 <= i < front.len() && front[i] == pair(a, b);
                assert(pairs[i] == pair(a, b));
            }
        }
        lemma_kept_all(front, a, b);
        assert(pairs[pairs.len() - 1] == pairs.last());
        assert(front.push(pairs.last()) =~= pairs);
    }
}

/// **A removed pair leaves no trace.** Removing a pair that was newly added gives back
/// the pairs as they were.
pub proof fn law_removing_undoes_adding(pairs: Seq<(i64, i64)>, a: i64, b: i64)
    requires
        !pairs.contains(pair(a, b)),
    ensures
        without_pair(with_pair(pairs, a, b), a, b) == pairs,
{
    lemma_kept_all(pairs, a, b);
    assert(with_pair(pairs, a, b).drop_last() =~= pairs);
}

} // verus!
