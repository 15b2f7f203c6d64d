//! What happens when: the passes, the startup repairs, and the program's limits.

use vstd::prelude::*;

use crate::cluster_report::bucket_of;
use crate::details::{is_placeholder, search_of};
use crate::detect::margin;
use crate::digest::{hex, hex_digit};
use crate::faces::{decisions_cleared, faces_reset, other_flag, outside};
use crate::flags::{
    ends_like, flag_value, heic_id, initialized, lemma_flag_set, lemma_other_flag, realigned,
    reoriented, started, vouch_bound, with_flag,
};
use crate::library::{marked, photo_marked, FaceMarks, FaceView, LibraryView, PhotoMarks, PhotoView};
use crate::listing_laws::law_picking_keeps_the_order;
use crate::passes::{Next, Passes};
use crate::path_laws::same_letters;
use crate::photo_mark_laws::law_faces_go_with_their_photos;
use crate::photos::{first_for, not_downloading, with_status, Job};
use crate::places::{servable, GEO_BATCH, MAX_RANGE};
use crate::prof::{sampled, switched_on, Samples};
use crate::recognition::{AUTO_FOLD_MARGIN, AUTO_FOLD_MIN, MIN_ANCHOR};
use crate::review_laws::lemma_kept_contains_iff;
use crate::rows::{kept, select};
use crate::scan::{pruned, rescanned};
use crate::suggestion_cache::SuggestionCacheView;
use crate::sweep::{Sweep, CLAIM_BATCH, FACE_WORKERS, TARGET_OUTSTANDING};
use crate::text::{lower, lowered, question_marks, trimmed};
use crate::viewport::{
    goes_on_after, outcome, thumb_finished, BACKFILL_BATCH, CLOUD_WORKERS, HASH_BATCH,
};

verus! {

/// **A pass starts at once if none runs, and is queued if one does.** Asking for a pass changes
/// nothing else.
pub proof fn law_passes_start_or_wait(p: Passes)
    ensures
        ({
            let (r, next) = p.after_recluster_request();
            &&& !p.busy ==> next == Next::Recluster && r == (Passes {
                busy: true,
                recluster_pending: false,
                ..p
            })
            &&& p.busy ==> next == Next::Nothing && r == (Passes { recluster_pending: true, ..p })
        }),
        ({
            let (f, next) = p.after_fold_request();
            &&& !p.busy ==> next == Next::Fold && f == (Passes { busy: true, ..p })
            &&& p.busy ==> next == Next::Nothing && f == (Passes { fold_pending: true, ..p })
        }),
{
}

/// **A finished pass makes way for what waits, the re-cluster first.** Where nothing waits, nothing
/// runs then.
pub proof fn law_finished_pass_makes_way(p: Passes)
    ensures
        ({
            let (after, next) = p.after_finish();
            &&& p.recluster_pending ==> next == Next::Recluster && after == (Passes {
                busy: true,
                recluster_pending: false,
                ..p
            })
            &&& !p.recluster_pending && p.fold_pending ==> next == Next::Fold && after == (Passes {
                busy: true,
                fold_pending: false,
                ..p
            })
            &&& !p.recluster_pending && !p.fold_pending ==> next == Next::Nothing && after == (
            Passes { busy: false, ..p })
        }),
{
}

/// **A review holds the fold back.** The newest scheduled fold is put off while a review session is
/// open, and otherwise runs as one that is asked for.
pub proof fn law_review_holds_the_fold_back(p: Passes)
    ensures
        ({
            let (after, next) = p.after_quiet(p.epoch);
            &&& p.review_active ==> next == Next::Nothing && after == (Passes { deferred: true, ..p })
            &&& !p.review_active && !p.busy ==> next == Next::Fold && after.busy
            &&& !p.review_active && p.busy ==> next == Next::Nothing && after.fold_pending
            &&& after.cluster_gen == p.cluster_gen
        }),
{
}

/// **Setting a flag sets no other.**
pub proof fn law_flags_are_apart(
    meta: Seq<(Seq<char>, Seq<char>)>,
    key: Seq<char>,
    value: Seq<char>,
    other: Seq<char>,
)
    ensures
        flag_value(with_flag(meta, key, value), key) == Some(value),
        other != key ==> flag_value(with_flag(meta, key, value), other) == flag_value(meta, other),
        flag_value(Seq::empty(), key) is None,
{
    lemma_flag_set(meta, key, value);
    if other != key {
        lemma_other_flag(meta, key, value, other);
    }
}

/// **Bringing a library up to date vouches for what it holds, once.** Every face that has a person
/// counts as confirmed then, and nothing else about it changes; the second time nothing does.
pub proof fn law_old_libraries_are_vouched_for(lib: LibraryView, i: int)
    requires
        0 <= i < lib.faces.len(),
    ensures
        ({
            let after = initialized(lib);
            let (was, now) = (lib.faces[i], after.faces[i]);
            &&& flag_value(lib.meta, "confirmed_backfill_v1"@) is Some ==> after == lib
            &&& flag_value(lib.meta, "confirmed_backfill_v1"@) is None ==> now == (FaceView {
                marks: FaceMarks {
                    confirmed: was.marks.confirmed || was.marks.identity_id is Some,
                    ..was.marks
                },
                ..was
            }) && after.faces.len() == lib.faces.len() && after.photos == lib.photos
                && after.identities == lib.identities
            &&& flag_value(after.meta, "confirmed_backfill_v1"@) is Some
        }),
{
    lemma_flag_set(lib.meta, "confirmed_backfill_v1"@, "1"@);
    if flag_value(lib.meta, "confirmed_backfill_v1"@) is None {
        assert(initialized(lib).faces[i] == marked(vouch_bound())(lib.faces[i]));
    }
}

/// **The alignment repair forgets all faces and scans anew, once.** Faces, persons and what was
/// declared of them go; the photos stay, to be scanned; the next time nothing is done.
pub proof fn law_alignment_repair(lib: LibraryView, i: int)
    requires
        0 <= i < lib.photos.len(),
    ensures
        ({
            let after = realigned(lib);
            let due = flag_value(lib.meta, "faces_aligned_v2"@) is None;
            &&& !due ==> after == lib
            &&& due ==> after.faces.len() == 0 && after.identities.len() == 0
                && after.cannot_link.len() == 0 && after.same_photo_ok.len() == 0
                && after.cluster_names.len() == 0 && after.photos.len() == lib.photos.len()
                && after.photos[i] == (PhotoView {
                marks: PhotoMarks { faces_scanned: 0, ..lib.photos[i].marks },
                ..lib.photos[i]
            }) && after.roots == lib.roots
            &&& flag_value(after.meta, "faces_aligned_v2"@) is Some
        }),
{
    lemma_flag_set(kept(lib.meta, other_flag()), "faces_aligned_v2"@, "1"@);
}

/// The path ends in one of the extensions of HEIC files.
pub open spec fn ends_in_heic(path: Seq<char>) -> bool {
    let n = path.len() as int;
    n >= 5 && (same_letters(path.subrange(n - 5, n), seq!['.', 'h', 'e', 'i', 'c'])
        || same_letters(path.subrange(n - 5, n), seq!['.', 'h', 'e', 'i', 'f']))
}

proof fn lemma_ends(path: Seq<char>, suffix: Seq<char>)
    requires
        suffix.len() == 5,
    ensures
        ends_like(path, suffix) <==> path.len() >= 5 && same_letters(
            path.subrange(path.len() - 5, path.len() as int),
            suffix,
        ),
{
    if path.len() >= 5 {
        let tail = path.subrange(path.len() - 5, path.len() as int);
        assert(path.skip(path.len() - 5) =~= tail);
        if lowered(tail) == lowered(suffix) {
            assert forall|k: int| 0 <= k < tail.len() implies lower(#[trigger] tail[k]) == lower(
                suffix[k],
            ) by {
                assert(lowered(tail)[k] == lowered(suffix)[k]);
            }
        }
        if same_letters(tail, suffix) {
            assert(lowered(tail) =~= lowered(suffix)) by {
                assert forall|k: int| 0 <= k < 5 implies lowered(tail)[k] == lowered(suffix)[k] by {
                    assert(lower(tail[k]) == lower(suffix[k]));
                }
            }
        }
    }
}

/// **HEIC files are told by the end of their path**, in small letters or capitals.
pub proof fn law_heic_photos(p: PhotoView)
    ensures
        heic_id()(p) == (if ends_in_heic(p.path) {
            Some(p.id)
        } else {
            None
        }),
{
    reveal_strlit(".heic");
    reveal_strlit(".heif");
    assert(".heic"@ =~= seq!['.', 'h', 'e', 'i', 'c']);
    assert(".heif"@ =~= seq!['.', 'h', 'e', 'i', 'f']);
    lemma_ends(p.path, ".heic"@);
    lemma_ends(p.path, ".heif"@);
}

/// **The orientation repair redoes the HEIC files, once.** Their faces go, they are to be scanned
/// again, and their thumbnails to be made again; other photos and faces stay.
pub proof fn law_orientation_repair(lib: LibraryView, i: int, j: int)
    requires
        lib.wf(),
        0 <= i < lib.photos.len(),
        0 <= j < lib.faces.len(),
    ensures
        ({
            let after = reoriented(lib);
            let due = flag_value(lib.meta, "heic_orient_v1"@) is None;
            let p = lib.photos[i];
            &&& !due ==> after == lib
            &&& due && ends_in_heic(p.path) ==> after.photos[i] == (PhotoView {
                marks: PhotoMarks {
                    faces_scanned: 0,
                    status: if p.marks.status == 1 {
                        0
                    } else {
                        p.marks.status
                    },
                    ..p.marks
                },
                ..p
            })
            &&& due && !ends_in_heic(p.path) ==> after.photos[i] == p
            &&& due && lib.faces[j].photo_id == p.id ==> (after.faces.contains(lib.faces[j])
                <==> !ends_in_heic(p.path))
            &&& after.identities == lib.identities
        }),
{
    let ids = select(lib.photos, heic_id());
    let at = law_picking_keeps_the_order(lib.photos, heic_id());
    law_heic_photos(lib.photos[i]);
    assert(ids.contains(lib.photos[i].id) <==> ends_in_heic(lib.photos[i].path)) by {
        if ends_in_heic(lib.photos[i].path) {
            assert(at.contains(i));
            let p = choose|p: int| 0 <= p < at.len() && at[p] == i;
            assert(heic_id()(lib.photos[at[p]]) == Some(ids[p]));
        }
        if ids.contains(lib.photos[i].id) {
            let p = choose|p: int| 0 <= p < ids.len() && ids[p] == lib.photos[i].id;
            assert(heic_id()(lib.photos[at[p]]) == Some(ids[p]));
            law_heic_photos(lib.photos[at[p]]);
            if at[p] < i {
                assert(lib.photos[at[p]].id < lib.photos[i].id);
            } else if i < at[p] {
                assert(lib.photos[i].id < lib.photos[at[p]].id);
            }
        }
    }
    law_faces_go_with_their_photos(lib, ids, j);
}

/// **Starting up repairs in order, and resets downloads.** What was being fetched is a placeholder
/// again.
pub proof fn law_startup(lib: LibraryView, i: int)
    requires
        0 <= i < started(lib).photos.len(),
    ensures
        started(lib).photos[i].marks.status != 4,
        started(lib).faces == reoriented(realigned(initialized(lib))).faces,
        started(lib).identities == reoriented(realigned(initialized(lib))).identities,
{
    let held = reoriented(realigned(initialized(lib)));
    assert(started(lib).photos[i] == photo_marked(not_downloading())(held.photos[i]));
}

/// **Hexadecimal is two digits a byte**, and tells any two bytes apart.
pub proof fn law_hexadecimal(bytes: Seq<u8>, k: int)
    requires
        0 <= k < bytes.len(),
    ensures
        hex(bytes).len() == 2 * bytes.len(),
        hex(bytes)[2 * k] == hex_digit(bytes[k] as int / 16),
        hex(bytes)[2 * k + 1] == hex_digit(bytes[k] as int % 16),
        forall|d: int| 0 <= d < 10 ==> #[trigger] hex_digit(d) as int == '0' as int + d,
        forall|d: int| 10 <= d < 16 ==> #[trigger] hex_digit(d) as int == 'a' as int + d - 10,
    decreases bytes.len(),
{
    let front = bytes.drop_last();
    let n = bytes.len() - 1;
    assert(bytes[n] == bytes.last());
    lemma_hex_length(front);
    if k < n {
        law_hexadecimal(front, k);
        assert(front[k] == bytes[k]);
    }
}

proof fn lemma_hex_length(bytes: Seq<u8>)
    ensures
        hex(bytes).len() == 2 * bytes.len(),
    decreases bytes.len(),
{
    if bytes.len() > 0 {
        lemma_hex_length(bytes.drop_last());
    }
}

/// **The report's buckets are a twentieth wide**, from 0.30 on; what lies outside goes to the first
/// or the last of fourteen.
pub proof fn law_buckets(sim: i128)
    ensures
        0 <= bucket_of(sim) <= 13,
        300_000_000_000 <= sim < 1_000_000_000_000 ==> 300_000_000_000 + 50_000_000_000 * bucket_of(
            sim,
        ) <= sim < 350_000_000_000 + 50_000_000_000 * bucket_of(sim),
        sim < 300_000_000_000 ==> bucket_of(sim) == 0,
        sim >= 1_000_000_000_000 ==> bucket_of(sim) == 13,
{
}

/// **A sample adds one to the count and its time to the sum**, until they wrap around.
pub proof fn law_samples_add_up(s: Samples, nanos: u64)
    ensures
        s.count < u64::MAX ==> sampled(s, nanos).count == s.count + 1,
        s.nanos + nanos <= u64::MAX ==> sampled(s, nanos).nanos == s.nanos + nanos,
        switched_on(None) == false,
        switched_on(Some(Seq::empty())) == false,
        switched_on(Some(seq!['0'])) == false,
        switched_on(Some(seq!['1'])) == true,
{
    reveal_strlit("0");
    assert("0"@ =~= seq!['0']);
    assert(seq!['1'][0] != seq!['0'][0]);
}

/// **A query has a mark for each parameter**, and commas between.
pub proof fn law_placeholders(n: nat, k: int)
    requires
        0 <= k < n,
    ensures
        question_marks(n).len() == 2 * n - 1,
        question_marks(n)[2 * k] == '?',
        k < n - 1 ==> question_marks(n)[2 * k + 1] == ',',
        question_marks(0).len() == 0,
    decreases n,
{
    if n > 1 {
        lemma_marks_length((n - 1) as nat);
        if k < n - 1 {
            law_placeholders((n - 1) as nat, k);
        }
    }
}

proof fn lemma_marks_length(n: nat)
    requires
        n > 0,
    ensures
        question_marks(n).len() == 2 * n - 1,
    decreases n,
{
    if n > 1 {
        lemma_marks_length((n - 1) as nat);
    }
}

/// **The program's limits.** How much is done at once, how much is served at once, and how much
/// evidence a fold needs.
pub proof fn law_limits()
    ensures
        MAX_RANGE == 33_554_432,
        GEO_BATCH == 500,
        FACE_WORKERS == 4,
        TARGET_OUTSTANDING == 8,
        CLAIM_BATCH == 8,
        CLOUD_WORKERS == 3,
        BACKFILL_BATCH == 50,
        HASH_BATCH == 100,
        MIN_ANCHOR == 4,
        AUTO_FOLD_MIN == 600_000_000_000,
        AUTO_FOLD_MARGIN == 60_000_000_000,
{
}

/// **An unplugged drive deletes nothing.** Unless every root was reachable, a rescan changes
/// nothing.
pub proof fn law_unreachable_roots_delete_nothing(lib: LibraryView, gen: i64)
    ensures
        rescanned(lib, gen, false) == lib,
        rescanned(lib, gen, true) == pruned(lib, gen),
{
}

/// **A rescan that is asked for runs.** It starts at once if none runs; one asked for while another
/// runs starts when that one is done, once for all who asked.
pub proof fn law_rescans_are_never_lost(p: Passes)
    ensures
        ({
            let (q, starts) = p.after_rescan_request();
            &&& q.rescanning
            &&& starts == !p.rescanning
            &&& p.rescanning ==> q.after_rescan().1 && q.after_rescan().0.rescanning
                && !q.after_rescan().0.after_rescan().1 && !q.after_rescan().0.after_rescan().0.rescanning
            &&& !p.rescanning && !p.rescan_pending ==> !q.after_rescan().1
                && !q.after_rescan().0.rescanning
            &&& q == (Passes {
                rescanning: true,
                rescan_pending: q.rescan_pending,
                ..p
            })
        }),
{
}

/// **A fold that a review held back runs after it.** Ending the review schedules it under a new
/// ticket, which fires; a review that held nothing back schedules nothing.
pub proof fn law_deferred_folds_run_after_the_review(p: Passes)
    requires
        !p.busy,
    ensures
        ({
            let (q, ticket) = p.after_review(false);
            &&& !q.review_active && !q.deferred
            &&& p.deferred <==> ticket is Some
            &&& ticket matches Some(t) ==> q.after_quiet(t).1 == Next::Fold && t != p.epoch
            &&& ticket is None ==> q.epoch == p.epoch
        }),
        ({
            let (q, ticket) = p.after_review(true);
            q.review_active && ticket is None && q.deferred == p.deferred && q.epoch == p.epoch
        }),
{
}

/// **Only the newest ticket fires.** A fold that is scheduled voids the ticket before it.
pub proof fn law_newest_ticket_fires(p: Passes)
    ensures
        ({
            let (q, ticket) = p.after_schedule();
            &&& q.epoch == ticket
            &&& ticket != p.epoch
            &&& q.after_quiet(p.epoch).1 == Next::Nothing
            &&& !q.review_active && !q.busy ==> q.after_quiet(ticket).1 == Next::Fold
            &&& q == (Passes { epoch: ticket, ..p })
        }),
{
}

/// **The sweep consolidates once it has drained.** While photos are in flight it waits; then, if
/// faces were assigned one by one and no re-cluster runs, it asks for one; else it rests.
pub proof fn law_sweep_steps(s: Sweep, reclustering: bool)
    ensures
        s.outstanding > 0 ==> s.next_step(reclustering) is Wait,
        s.outstanding == 0 && s.unconsolidated > 0 && !reclustering ==> s.next_step(
            reclustering,
        ) is Consolidate,
        s.outstanding == 0 && (s.unconsolidated == 0 || reclustering) ==> s.next_step(
            reclustering,
        ) is Rest,
{
}

/// **Stale suggestions are not served.** A cache is served only while no pass runs and the clusters
/// are those it was made of.
pub proof fn law_stale_suggestions_are_not_served(c: SuggestionCacheView, cluster_gen: i64)
    ensures
        !c.current(true, cluster_gen),
        c.generation != cluster_gen ==> !c.current(false, cluster_gen),
        c.current(false, c.generation),
{
}

/// **A placeholder is never read.** What is in the cloud, or being fetched, is a placeholder; what
/// has a thumbnail, waits for one or failed is not.
pub proof fn law_placeholders_are_told(p: PhotoView)
    ensures
        is_placeholder(p) <==> p.marks.status == 3 || p.marks.status == 4,
{
}

/// **The basemap is served in small parts.** A range of up to 32 MiB is, a larger one is not.
pub proof fn law_small_ranges_are_served(length: u64)
    ensures
        servable(length) <==> length <= 33_554_432,
{
}

/// **A thumbnail that was made is ready, and may date its photo.** One that failed leaves the status
/// of a failure and no date; a date that is there stays; other photos do not change.
pub proof fn law_finished_thumbs(
    lib: LibraryView,
    id: i64,
    ok: bool,
    fail_status: i64,
    taken_ts: Option<i64>,
    i: int,
)
    requires
        0 <= i < lib.photos.len(),
        fail_status != 1,
    ensures
        ({
            let (was, now) = (
                lib.photos[i],
                thumb_finished(lib, id, ok, fail_status, taken_ts).photos[i],
            );
            &&& was.id != id ==> now == was
            &&& was.id == id ==> now == (PhotoView {
                marks: PhotoMarks {
                    status: if ok {
                        1
                    } else {
                        fail_status
                    },
                    taken_ts: if ok && was.marks.taken_ts is None {
                        taken_ts
                    } else {
                        was.marks.taken_ts
                    },
                    ..was.marks
                },
                ..was
            })
        }),
{
    let set = lib.with_photo_marks(with_status(seq![id], outcome(ok, fail_status)));
    assert(seq![id].contains(lib.photos[i].id) <==> lib.photos[i].id == id) by {
        assert(seq![id][0] == id);
    }
    assert(set.photos[i] == photo_marked(with_status(seq![id], outcome(ok, fail_status)))(
        lib.photos[i],
    ));
    if let Some(ts) = taken_ts {
        let pairs = seq![(id, ts)];
        assert(pairs[0] == (id, ts));
        assert(pairs.drop_first().len() == 0);
        assert(first_for(pairs.drop_first(), lib.photos[i].id) is None);
    }
}

/// **The background pass goes on behind the last photo**, and starts over at the end.
pub proof fn law_background_pass_goes_on(jobs: Seq<Job>)
    ensures
        jobs.len() == 0 ==> goes_on_after(jobs) == 0,
        jobs.len() > 0 ==> goes_on_after(jobs) == jobs[jobs.len() - 1].id,
{
}

/// **Starting people over keeps the faces.** Every face stays, with its embedding, as a cluster of
/// its own; persons, names and what was declared of them go; what was said of photos stays.
pub proof fn law_people_start_over(lib: LibraryView, i: int)
    requires
        0 <= i < lib.faces.len(),
    ensures
        ({
            let after = decisions_cleared(lib);
            &&& after.faces.len() == lib.faces.len()
            &&& after.faces[i] == (FaceView {
                marks: FaceMarks {
                    cluster_id: Some(lib.faces[i].id),
                    identity_id: None,
                    ignored: false,
                    confirmed: false,
                },
                ..lib.faces[i]
            })
            &&& after.identities.len() == 0 && after.cluster_names.len() == 0
                && after.cannot_link.len() == 0
            &&& after.same_photo_ok == lib.same_photo_ok
            &&& after.photos == lib.photos && after.roots == lib.roots && after.meta == lib.meta
        }),
{
}

/// **New embeddings start from nothing.** No face, person or declaration stays; every photo is to be
/// scanned again and otherwise stays; the next re-cluster is due.
pub proof fn law_faces_start_over(lib: LibraryView, i: int)
    requires
        0 <= i < lib.photos.len(),
    ensures
        ({
            let after = faces_reset(lib);
            &&& after.faces.len() == 0 && after.identities.len() == 0
                && after.cluster_names.len() == 0 && after.cannot_link.len() == 0
                && after.same_photo_ok.len() == 0
            &&& after.photos.len() == lib.photos.len()
            &&& after.photos[i] == (PhotoView {
                marks: PhotoMarks { faces_scanned: 0, ..lib.photos[i].marks },
                ..lib.photos[i]
            })
            &&& after.roots == lib.roots
            &&& forall|k: int|
                0 <= k < after.meta.len() ==> (#[trigger] after.meta[k]).0 != "reclustered_v1"@
            &&& forall|m: (Seq<char>, Seq<char>)|
                m.0 != "reclustered_v1"@ ==> (#[trigger] after.meta.contains(m)
                    <==> lib.meta.contains(m))
        }),
{
    let after = faces_reset(lib);
    assert forall|k: int| 0 <= k < after.meta.len() implies (#[trigger] after.meta[k]).0
        != "reclustered_v1"@ by {
        assert(after.meta.contains(after.meta[k]));
        lemma_kept_contains_iff(lib.meta, other_flag(), after.meta[k]);
    }
    assert forall|m: (Seq<char>, Seq<char>)| m.0 != "reclustered_v1"@ implies (
    #[trigger] after.meta.contains(m) <==> lib.meta.contains(m)) by {
        lemma_kept_contains_iff(lib.meta, other_flag(), m);
    }
}

/// **A fitted picture is centered.** The margin before it is that behind it, or one pixel less.
pub proof fn law_fitted_pictures_are_centered(edge: int)
    requires
        1 <= edge <= 640,
    ensures
        margin(edge) >= 0,
        640 - 1 <= 2 * margin(edge) + edge <= 640,
{
}

/// **A search of white space is none.**
pub proof fn law_searches(text: Seq<char>)
    ensures
        search_of(None) is None,
        trimmed(text).len() == 0 ==> search_of(Some(text)) is None,
        trimmed(text).len() > 0 ==> search_of(Some(text)) == Some(trimmed(text)),
{
}

} // verus!
