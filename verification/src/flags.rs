//! Flags of the program, and what they decide at startup.

use vstd::prelude::*;

use crate::faces::{
    face_ids_of_photos, face_of, other_flag, outside, rearm_photos_for_redetect, rearmed,
    recluster_flag, reset_faces_for_recompute, unscanned,
};
use crate::library::{
    mark_faces, pick_photos, Face, FaceMarks, FaceView, Library, LibraryView, Photo, PhotoView,
};
use crate::photos::{not_downloading, set_status_many_where_downloading};
use crate::rows::{kept, select};
use crate::text::{chars_of, lower, lowered, opt_text, to_lower};

verus! {

/// The value of a flag.
pub open spec fn flag_value(meta: Seq<(Seq<char>, Seq<char>)>, key: Seq<char>) -> Option<Seq<char>>
    decreases meta.len(),
{
    if meta.len() == 0 {
        None
    } else if meta.last().0 == key {
        Some(meta.last().1)
    } else {
        flag_value(meta.drop_last(), key)
    }
}

/// The flag is set.
pub open spec fn has_flag(meta: Seq<(Seq<char>, Seq<char>)>, key: Seq<char>) -> bool {
    exists|k: int| 0 <= k < meta.len() && (#[trigger] meta[k]).0 == key
}

/// Replaces the value of a flag.
pub open spec fn revalued(key: Seq<char>, value: Seq<char>) -> spec_fn((Seq<char>, Seq<char>)) -> (
    Seq<char>,
    Seq<char>,
) {
    |m: (Seq<char>, Seq<char>)|
        if m.0 == key {
            (key, value)
        } else {
            m
        }
}

/// The flags with one set.
pub open spec fn with_flag(meta: Seq<(Seq<char>, Seq<char>)>, key: Seq<char>, value: Seq<char>) -> Seq<
    (Seq<char>, Seq<char>),
> {
    if has_flag(meta, key) {
        meta.map_values(revalued(key, value))
    } else {
        meta.push((key, value))
    }
}

/// Read a flag of the program (e.g. "have we run the one-time re-cluster").
pub fn get_meta(lib: &Library, key: &str) -> (value: Option<String>)
    ensures
        opt_text(value) == flag_value(lib@.meta, key@),
{
    let wanted = key.to_owned();
    let ghost all = lib@.meta;
    let n: usize = lib.meta.len();
    let mut i: usize = n;
    assert(all.take(n as int) == all);
    while i > 0
        invariant
            all == lib@.meta,
            n == lib.meta@.len(),
            n == all.len(),
            wanted@ == key@,
            i <= n,
            flag_value(all, key@) == flag_value(all.take(i as int), key@),
        decreases i,
    {
        i = i - 1;
        assert(all.take(i + 1).drop_last() == all.take(i as int));
        assert(all.take(i + 1).last() == lib.meta@[i as int]@);
        if lib.meta[i].0 == wanted {
            return Some(lib.meta[i].1.clone());
        }
    }
    None
}

/// Set a flag of the program.
pub fn set_meta(lib: &mut Library, key: &str, value: &str)
    requires
        old(lib).wf(),
    ensures
        final(lib)@ == (LibraryView { meta: with_flag(old(lib)@.meta, key@, value@), ..old(lib)@ }),
        final(lib).wf(),
{
    let wanted = key.to_owned();
    let ghost before = lib@;
    let ghost all = before.meta;
    let n: usize = lib.meta.len();
    let mut found = false;
    for i in 0..n
        invariant
            n == lib.meta@.len(),
            all == before.meta,
            n == all.len(),
            wanted@ == key@,
            forall|k: int|
                0 <= k < i ==> (#[trigger] lib.meta@[k])@ == revalued(key@, value@)(all[k]),
            forall|k: int| i <= k < n ==> (#[trigger] lib.meta@[k])@ == all[k],
            found <==> exists|k: int| 0 <= k < i && (#[trigger] all[k]).0 == key@,
            lib@.photos == before.photos,
            lib@.faces == before.faces,
            lib@.roots == before.roots,
            lib@.identities == before.identities,
            lib@.cluster_names == before.cluster_names,
            lib@.cannot_link == before.cannot_link,
            lib@.same_photo_ok == before.same_photo_ok,
    {
        assert(lib.meta@[i as int]@ == all[i as int]);
        if lib.meta[i].0 == wanted {
            lib.meta[i].1 = value.to_owned();
            found = true;
            assert(all[i as int].0 == key@);
        }
    }
    assert(lib@.meta =~= all.map_values(revalued(key@, value@)));
    if !found {
        lib.meta.push((wanted, value.to_owned()));
        assert(lib@.meta =~= all.push((key@, value@)));
    }
}

/// Vouches for every face that has a person.
pub open spec fn vouch_bound() -> spec_fn(FaceView) -> FaceMarks {
    |f: FaceView|
        if f.marks.identity_id is Some {
            FaceMarks { confirmed: true, ..f.marks }
        } else {
            f.marks
        }
}

/// The library once it is brought up to date.
pub open spec fn initialized(lib: LibraryView) -> LibraryView {
    if flag_value(lib.meta, "confirmed_backfill_v1"@) is None {
        let vouched = lib.with_marks(vouch_bound());
        LibraryView {
            meta: with_flag(vouched.meta, "confirmed_backfill_v1"@, "1"@),
            ..vouched
        }
    } else {
        lib
    }
}

/// Bring a library up to date. Once: every face bound to a person counts as confirmed, so
/// that a library curated before faces were confirmed isn't blown away by the next
/// re-cluster.
pub fn init(lib: &mut Library)
    requires
        old(lib).wf(),
    ensures
        final(lib)@ == initialized(old(lib)@),
        final(lib).wf(),
{
    if get_meta(lib, "confirmed_backfill_v1").is_none() {
        let mark = |f: &Face| -> (m: FaceMarks)
            ensures
                m == vouch_bound()(f@),
            {
                if f.marks.identity_id.is_some() {
                    FaceMarks { confirmed: true, ..f.marks }
                } else {
                    f.marks
                }
            };
        mark_faces(lib, mark, Ghost(vouch_bound()));
        set_meta(lib, "confirmed_backfill_v1", "1");
    }
}

/// The text ends with the suffix, but for the case of ASCII letters.
pub open spec fn ends_like(text: Seq<char>, suffix: Seq<char>) -> bool {
    &&& suffix.len() <= text.len()
    &&& lowered(text.skip(text.len() - suffix.len())) == lowered(suffix)
}

/// Whether a text ends with a suffix, but for the case of ASCII letters.
pub fn has_suffix(text: &str, suffix: &str) -> (r: bool)
    ensures
        r == ends_like(text@, suffix@),
{
    let t = chars_of(text);
    let s = chars_of(suffix);
    if s.len() > t.len() {
        return false;
    }
    let n: usize = t.len();
    let from: usize = n - s.len();
    for k in 0..s.len()
        invariant
            n == t@.len(),
            t@ == text@,
            s@ == suffix@,
            s@.len() <= t@.len(),
            from == t@.len() - s@.len(),
            forall|j: int| 0 <= j < k ==> lower(#[trigger] t@[from + j]) == lower(s@[j]),
    {
        if to_lower(t[from + k]) != to_lower(s[k]) {
            proof {
                let tail = text@.skip(text@.len() - suffix@.len());
                assert(lowered(tail)[k as int] == lower(t@[from + k]));
                assert(lowered(suffix@)[k as int] == lower(s@[k as int]));
            }
            return false;
        }
    }
    proof {
        let tail = text@.skip(text@.len() - suffix@.len());
        assert forall|j: int| 0 <= j < tail.len() implies lowered(tail)[j] == lowered(
            suffix@,
        )[j] by {
            assert(lower(t@[from + j]) == lower(s@[j]));
        }
        assert(lowered(tail) =~= lowered(suffix@));
    }
    true
}

/// Picks the photos whose original is a genuine HEIC/HEIF, by extension.
pub open spec fn heic_id() -> spec_fn(PhotoView) -> Option<i64> {
    |p: PhotoView|
        if ends_like(p.path, ".heic"@) || ends_like(p.path, ".heif"@) {
            Some(p.id)
        } else {
            None
        }
}

/// Photo ids whose original is a genuine HEIC/HEIF (by extension). Drives the one-time
/// orientation repair.
pub fn heic_photo_ids(lib: &Library) -> (out: Vec<i64>)
    ensures
        out@ == select(lib@.photos, heic_id()),
{
    let pick = |p: &Photo| -> (b: Option<i64>)
        ensures
            b == heic_id()(p@),
        {
            if has_suffix(p.path.as_str(), ".heic") || has_suffix(p.path.as_str(), ".heif") {
                Some(p.id)
            } else {
                None
            }
        };
    pick_photos(lib, pick, Ghost(heic_id()))
}

/// What startup leaves to be done outside the library.
pub struct Startup {
    /// Every cached face crop is stale.
    pub clear_crops: bool,
    /// Faces whose cached crop is stale.
    pub stale_crops: Vec<i64>,
    /// Photos whose cached preview is stale.
    pub stale_previews: Vec<i64>,
    /// The appearance clusters must be rebuilt.
    pub needs_recluster: bool,
}

/// The library after the repair of the face alignment.
pub open spec fn realigned(lib: LibraryView) -> LibraryView {
    if flag_value(lib.meta, "faces_aligned_v2"@) is None {
        let reset = (LibraryView {
            faces: Seq::empty(),
            identities: Seq::empty(),
            cluster_names: Seq::empty(),
            cannot_link: Seq::empty(),
            same_photo_ok: Seq::empty(),
            meta: kept(lib.meta, other_flag()),
            ..lib
        }).with_photo_marks(unscanned());
        LibraryView { meta: with_flag(reset.meta, "faces_aligned_v2"@, "1"@), ..reset }
    } else {
        lib
    }
}

/// The library after the repair of the HEIC orientation.
pub open spec fn reoriented(lib: LibraryView) -> LibraryView {
    if flag_value(lib.meta, "heic_orient_v1"@) is None {
        let ids = select(lib.photos, heic_id());
        let armed = (LibraryView {
            faces: kept(lib.faces, outside(ids)),
            ..lib
        }).with_photo_marks(rearmed(ids));
        LibraryView { meta: with_flag(armed.meta, "heic_orient_v1"@, "1"@), ..armed }
    } else {
        lib
    }
}

/// The library once the program has started.
pub open spec fn started(lib: LibraryView) -> LibraryView {
    reoriented(realigned(initialized(lib))).with_photo_marks(not_downloading())
}

/// Start up: bring the library up to date, run the one-time repairs that are still due,
/// and reset interrupted downloads.
pub fn startup(lib: &mut Library) -> (s: Startup)
    requires
        old(lib).wf(),
    ensures
        final(lib)@ == started(old(lib)@),
        final(lib).wf(),
        s.clear_crops == (flag_value(initialized(old(lib)@).meta, "faces_aligned_v2"@) is None),
        ({
            let held = realigned(initialized(old(lib)@));
            let due = flag_value(held.meta, "heic_orient_v1"@) is None;
            let ids = select(held.photos, heic_id());
            &&& s.stale_previews@ == if due {
                ids
            } else {
                Seq::empty()
            }
            &&& s.stale_crops@ == if due {
                select(held.faces, face_of(ids))
            } else {
                Seq::empty()
            }
        }),
        s.needs_recluster == (flag_value(started(old(lib)@).meta, "reclustered_v1"@) is None
            || flag_value(started(old(lib)@).meta, "identity_grouping_v1"@) is None),
{
    init(lib);
    let clear_crops = get_meta(lib, "faces_aligned_v2").is_none();
    if clear_crops {
        reset_faces_for_recompute(lib);
        set_meta(lib, "faces_aligned_v2", "1");
    }
    let mut stale_previews: Vec<i64> = Vec::new();
    let mut stale_crops: Vec<i64> = Vec::new();
    if get_meta(lib, "heic_orient_v1").is_none() {
        stale_previews = heic_photo_ids(lib);
        stale_crops = face_ids_of_photos(lib, &stale_previews);
        rearm_photos_for_redetect(lib, &stale_previews);
        set_meta(lib, "heic_orient_v1", "1");
    }
    let needs_recluster = get_meta(lib, "reclustered_v1").is_none() || get_meta(
        lib,
        "identity_grouping_v1",
    ).is_none();
    set_status_many_where_downloading(lib);
    Startup { clear_crops, stale_crops, stale_previews, needs_recluster }
}

/// A flag that was set is found.
pub proof fn lemma_flag_set(meta: Seq<(Seq<char>, Seq<char>)>, key: Seq<char>, value: Seq<char>)
    ensures
        flag_value(with_flag(meta, key, value), key) == Some(value),
    decreases meta.len(),
{
    let after = with_flag(meta, key, value);
    if has_flag(meta, key) {
        let k = choose|k: int| 0 <= k < meta.len() && (#[trigger] meta[k]).0 == key;
        lemma_flag_found(meta, key, value, k);
    } else {
        assert(after.last() == (key, value));
    }
}

proof fn lemma_flag_found(
    meta: Seq<(Seq<char>, Seq<char>)>,
    key: Seq<char>,
    value: Seq<char>,
    k: int,
)
    requires
        0 <= k < meta.len(),
        meta[k].0 == key,
    ensures
        flag_value(meta.map_values(revalued(key, value)), key) == Some(value),
    decreases meta.len(),
{
    let after = meta.map_values(revalued(key, value));
    if meta.last().0 != key {
        assert(after.drop_last() =~= meta.drop_last().map_values(revalued(key, value)));
        lemma_flag_found(meta.drop_last(), key, value, k);
    }
}

/// **Flags read back.** A flag that was set has the value it was set to.
pub proof fn law_flags_read_back(lib: LibraryView, key: Seq<char>, value: Seq<char>)
    ensures
        flag_value(with_flag(lib.meta, key, value), key) == Some(value),
{
    lemma_flag_set(lib.meta, key, value);
}

pub proof fn lemma_other_flag(
    meta: Seq<(Seq<char>, Seq<char>)>,
    key: Seq<char>,
    value: Seq<char>,
    other: Seq<char>,
)
    requires
        other != key,
    ensures
        flag_value(with_flag(meta, key, value), other) == flag_value(meta, other),
{
    if has_flag(meta, key) {
        lemma_other_revalued(meta, key, value, other);
    } else {
        assert(meta.push((key, value)).drop_last() =~= meta);
    }
}

proof fn lemma_other_revalued(
    meta: Seq<(Seq<char>, Seq<char>)>,
    key: Seq<char>,
    value: Seq<char>,
    other: Seq<char>,
)
    requires
        other != key,
    ensures
        flag_value(meta.map_values(revalued(key, value)), other) == flag_value(meta, other),
    decreases meta.len(),
{
    if meta.len() > 0 {
        assert(meta.map_values(revalued(key, value)).drop_last() =~= meta.drop_last().map_values(
            revalued(key, value),
        ));
        lemma_other_revalued(meta.drop_last(), key, value, other);
    }
}

/// **Repairs run once.** Starting a library a second time repairs nothing more: the
/// faces it then has stay.
pub proof fn law_repairs_run_once(lib: LibraryView)
    ensures
        started(started(lib)).faces == started(lib).faces,
        started(started(lib)).identities == started(lib).identities,
{
    reveal_strlit("confirmed_backfill_v1");
    reveal_strlit("faces_aligned_v2");
    reveal_strlit("heic_orient_v1");
    let (a, b, c) = ("confirmed_backfill_v1"@, "faces_aligned_v2"@, "heic_orient_v1"@);
    assert(a.len() == 21 && b.len() == 16 && c.len() == 14);
    let one = "1"@;
    let l1 = initialized(lib);
    let l2 = realigned(l1);
    let l3 = reoriented(l2);
    let reset_meta = kept(l1.meta, other_flag());
    lemma_flag_set(lib.meta, a, one);
    assert(flag_value(l1.meta, a) is Some);
    lemma_flag_set(reset_meta, b, one);
    assert(flag_value(l2.meta, b) is Some);
    reveal_strlit("reclustered_v1");
    lemma_flag_kept(l1.meta, a);
    lemma_other_flag(reset_meta, b, one, a);
    assert(flag_value(l2.meta, a) is Some);
    lemma_flag_set(l2.meta, c, one);
    lemma_other_flag(l2.meta, c, one, a);
    lemma_other_flag(l2.meta, c, one, b);
    assert(flag_value(l3.meta, a) is Some);
    assert(flag_value(l3.meta, b) is Some);
    assert(flag_value(l3.meta, c) is Some);
    assert(started(lib).meta == l3.meta);
}

/// Dropping the re-cluster flag keeps every other.
proof fn lemma_flag_kept(meta: Seq<(Seq<char>, Seq<char>)>, key: Seq<char>)
    requires
        key != recluster_flag(),
    ensures
        flag_value(kept(meta, other_flag()), key) == flag_value(
            meta,
            key,
        ),
    decreases meta.len(),
{
    if meta.len() > 0 {
        lemma_flag_kept(meta.drop_last(), key);
        let rest = kept(meta.drop_last(), other_flag());
        if meta.last().0 != recluster_flag() {
            assert(rest.push(meta.last()).drop_last() =~= rest);
        }
    }
}

} // verus!
