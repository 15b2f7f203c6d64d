//! The background passes: when they run, and what they do to the library.
//!
//! A full re-cluster rebuilds the appearance layer; a fold re-derives the tentative
//! persons. The two never overlap, and a request that arrives while one runs is queued,
//! never dropped.

use vstd::prelude::*;

use crate::cluster::{
    components, contains_pair, face_ids, numbered, recluster, unit_matrix, LinkConstraints,
};
use crate::confirmations::{confirmed_face, confirmed_face_identities};
use crate::cooccurrence::{doubles, face_photos, photo_constraints};
use crate::faces::{all_face_embeddings, crowded_faces, in_pool, reclustered, set_face_clusters};
use crate::flags::{set_meta, with_flag};
use crate::library::{lemma_counts_fit, Library, LibraryView};
use crate::links::{cannot_link_pairs, with_pairs};
use crate::names::{named, named_identities};
use crate::recognition::{auto_fold_confident, refolded};
use crate::rows::{lemma_select_len, select, views};

verus! {

/// The pairs of the first `n` people with person `i`, where their names differ.
pub open spec fn differing_from(people: Seq<(i64, Seq<char>)>, i: int, n: int) -> Seq<(i64, i64)>
    decreases n - i,
{
    if n <= i + 1 {
        Seq::empty()
    } else {
        let earlier = differing_from(people, i, n - 1);
        if people[i].1 != people[n - 1].1 {
            earlier.push((people[i].0, people[n - 1].0))
        } else {
            earlier
        }
    }
}

/// The pairs of people with different names: by definition different people.
pub open spec fn differing(people: Seq<(i64, Seq<char>)>, k: nat) -> Seq<(i64, i64)>
    decreases k,
{
    if k == 0 {
        Seq::empty()
    } else {
        differing(people, (k - 1) as nat) + differing_from(people, k - 1, people.len() as int)
    }
}

/// The identities that must not share a cluster: those declared different, and those with
/// different names.
pub open spec fn kept_apart(lib: LibraryView) -> Seq<(i64, i64)> {
    let people = select(lib.identities, named());
    with_pairs(lib.cannot_link, differing(people, people.len()))
}

/// The constraints are the library's: confirmed faces must link, different people must
/// not, and faces of one photo must not (unless excepted).
pub open spec fn constraints_of(lib: LibraryView, c: LinkConstraints) -> bool {
    let rows = crowded_faces(lib.faces);
    &&& c.face_identity@ == select(lib.faces, confirmed_face())
    &&& c.cannot_link@ == kept_apart(lib)
    &&& c.photo_of@ == face_photos(rows)
    &&& c.same_photo_ok@ == with_pairs(
        with_pairs(Seq::empty(), lib.same_photo_ok),
        doubles(rows, rows.len()),
    )
}

fn differing_pairs(people: &Vec<(i64, String)>) -> (out: Vec<(i64, i64)>)
    ensures
        out@ == differing(views(people@), people@.len()),
{
    let ghost all = views(people@);
    let n: usize = people.len();
    let mut out: Vec<(i64, i64)> = Vec::new();
    for i in 0..n
        invariant
            n == people@.len(),
            all == views(people@),
            out@ == differing(all, i as nat),
    {
        let ghost held = out@;
        assert(held + differing_from(all, i as int, i + 1) =~= held);
        let mut j: usize = i + 1;
        while j < n
            invariant
                n == people@.len(),
                all == views(people@),
                i < j <= n,
                out@ == held + differing_from(all, i as int, j as int),
            decreases n - j,
        {
            assert(all[i as int] == people@[i as int]@);
            assert(all[j as int] == people@[j as int]@);
            if people[i].1 != people[j].1 {
                out.push((people[i].0, people[j].0));
            }
            j = j + 1;
            assert(out@ =~= held + differing_from(all, i as int, j as int));
        }
    }
    out
}

/// The constraints a re-cluster honors.
pub fn link_constraints(lib: &Library) -> (c: LinkConstraints)
    ensures
        constraints_of(lib@, c),
{
    let people = named_identities(lib);
    let apart = differing_pairs(&people);
    let mut cannot_link = cannot_link_pairs(lib);
    let ghost before = cannot_link@;
    for k in 0..apart.len()
        invariant
            cannot_link@ == with_pairs(before, apart@.take(k as int)),
    {
        assert(apart@.take(k + 1).drop_last() == apart@.take(k as int));
        let (a, b) = apart[k];
        if !contains_pair(&cannot_link, a, b) {
            if a < b {
                cannot_link.push((a, b));
            } else {
                cannot_link.push((b, a));
            }
        }
    }
    assert(apart@.take(apart@.len() as int) == apart@);
    let (photo_of, same_photo_ok) = photo_constraints(lib);
    LinkConstraints {
        face_identity: confirmed_face_identities(lib),
        cannot_link,
        photo_of,
        same_photo_ok,
    }
}

/// The library with both re-cluster flags set.
pub open spec fn flagged(lib: LibraryView) -> LibraryView {
    LibraryView {
        meta: with_flag(
            with_flag(lib.meta, "reclustered_v1"@, "1"@),
            "identity_grouping_v1"@,
            "1"@,
        ),
        ..lib
    }
}

/// The clusters a re-cluster gives the faces of the pool.
pub open spec fn new_clusters(lib: LibraryView, c: LinkConstraints) -> Seq<(i64, i64)> {
    let pool = select(lib.faces, in_pool());
    numbered(face_ids(pool), components(unit_matrix(pool), face_ids(pool), c))
}

/// The library after a re-cluster under the constraints: the clusters are renumbered,
/// and the tentative persons derived anew.
pub open spec fn rebuilt(lib: LibraryView, c: LinkConstraints) -> LibraryView {
    if select(lib.faces, in_pool()).len() == 0 {
        flagged(lib)
    } else {
        flagged(refolded(lib.with_marks(reclustered(new_clusters(lib, c)))))
    }
}

/// Rebuild the *appearance* layer from the embeddings, then re-derive the tentative folds
/// against it. Persons (names, confirmations, the tiles the user curated) pass through
/// untouched. Returns whether the clusters were renumbered: if so, the clustering
/// generation must move on.
pub fn rebuild_clusters(lib: &mut Library) -> (renumbered: bool)
    requires
        old(lib).wf(),
    ensures
        final(lib).wf(),
        exists|c: LinkConstraints| #[trigger]
            constraints_of(old(lib)@, c) && final(lib)@ == rebuilt(old(lib)@, c),
        renumbered == (select(old(lib)@.faces, in_pool()).len() > 0),
{
    let constraints = link_constraints(lib);
    let faces = all_face_embeddings(lib);
    assert(views(faces@).len() == faces@.len());
    if faces.len() == 0 {
        set_meta(lib, "reclustered_v1", "1");
        set_meta(lib, "identity_grouping_v1", "1");
        assert(constraints_of(old(lib)@, constraints));
        return false;
    }
    proof {
        lemma_counts_fit(lib@);
        lemma_select_len(lib@.faces, in_pool());
    }
    let clusters = recluster(&faces, &constraints);
    set_face_clusters(lib, &clusters);
    let _ = auto_fold_confident(lib);
    set_meta(lib, "reclustered_v1", "1");
    set_meta(lib, "identity_grouping_v1", "1");
    assert(constraints_of(old(lib)@, constraints));
    true
}

/// What is to be done next.
#[derive(Clone, Copy, PartialEq, Eq, Structural, Debug)]
pub enum Next {
    Nothing,
    Recluster,
    Fold,
}

/// Which passes run, wait, or are held back.
#[derive(Clone, Copy, PartialEq, Eq, Structural, Debug)]
pub struct Passes {
    /// A re-cluster or a fold is running.
    pub busy: bool,
    /// A re-cluster was requested while one was running.
    pub recluster_pending: bool,
    /// A fold was requested while a pass was running.
    pub fold_pending: bool,
    /// Bumped only when a full re-cluster renumbers the appearance groups.
    pub cluster_gen: i64,
    /// Only the newest scheduled fold fires.
    pub epoch: u64,
    /// A review session is open.
    pub review_active: bool,
    /// A due fold was held by an open review session.
    pub deferred: bool,
    /// A full rescan is running.
    pub rescanning: bool,
    /// A rescan was requested while one was running.
    pub rescan_pending: bool,
}

impl Passes {
    /// Nothing runs and nothing waits.
    pub fn new() -> (p: Self)
        ensures
            !p.busy && !p.recluster_pending && !p.fold_pending && p.cluster_gen == 0 && p.epoch == 0
                && !p.review_active && !p.deferred && !p.rescanning && !p.rescan_pending,
    {
        Passes {
            busy: false,
            recluster_pending: false,
            fold_pending: false,
            cluster_gen: 0,
            epoch: 0,
            review_active: false,
            deferred: false,
            rescanning: false,
            rescan_pending: false,
        }
    }

    /// A re-cluster was requested.
    pub open spec fn after_recluster_request(self) -> (Passes, Next) {
        if self.busy {
            (Passes { recluster_pending: true, ..self }, Next::Nothing)
        } else {
            (Passes { busy: true, recluster_pending: false, ..self }, Next::Recluster)
        }
    }

    /// A fold was requested.
    pub open spec fn after_fold_request(self) -> (Passes, Next) {
        if self.busy {
            (Passes { fold_pending: true, ..self }, Next::Nothing)
        } else {
            (Passes { busy: true, ..self }, Next::Fold)
        }
    }

    /// The running pass finished.
    pub open spec fn after_finish(self) -> (Passes, Next) {
        if self.recluster_pending {
            (Passes { busy: true, recluster_pending: false, ..self }, Next::Recluster)
        } else if self.fold_pending {
            (Passes { busy: true, fold_pending: false, ..self }, Next::Fold)
        } else {
            (Passes { busy: false, ..self }, Next::Nothing)
        }
    }

    /// The quiet time after a scheduled fold is over.
    pub open spec fn after_quiet(self, ticket: u64) -> (Passes, Next) {
        if self.epoch != ticket {
            (self, Next::Nothing)
        } else if self.review_active {
            (Passes { deferred: true, ..self }, Next::Nothing)
        } else {
            self.after_fold_request()
        }
    }

    /// A fold was scheduled: its ticket is the next one.
    pub open spec fn after_schedule(self) -> (Passes, u64) {
        let ticket = if self.epoch == u64::MAX {
            0
        } else {
            (self.epoch + 1) as u64
        };
        (Passes { epoch: ticket, ..self }, ticket)
    }

    /// A review session was opened or ended; ending one that held a fold back schedules it.
    pub open spec fn after_review(self, active: bool) -> (Passes, Option<u64>) {
        let set = Passes { review_active: active, deferred: self.deferred && active, ..self };
        if !active && self.deferred {
            (set.after_schedule().0, Some(set.after_schedule().1))
        } else {
            (set, None)
        }
    }

    /// A rescan was requested, and whether it starts now.
    pub open spec fn after_rescan_request(self) -> (Passes, bool) {
        (
            Passes {
                rescanning: true,
                rescan_pending: self.rescan_pending || self.rescanning,
                ..self
            },
            !self.rescanning,
        )
    }

    /// The running rescan finished, and whether a follow-up starts now.
    pub open spec fn after_rescan(self) -> (Passes, bool) {
        (
            Passes { rescanning: self.rescan_pending, rescan_pending: false, ..self },
            self.rescan_pending,
        )
    }

    /// Request a full re-cluster. One that arrives while a pass runs is queued.
    pub fn run_recluster(&mut self) -> (next: Next)
        ensures
            (*final(self), next) == old(self).after_recluster_request(),
    {
        if self.busy {
            self.recluster_pending = true;
            return Next::Nothing;
        }
        self.busy = true;
        self.recluster_pending = false;
        Next::Recluster
    }

    /// Request a self-heal fold. One that arrives while a pass runs is queued.
    pub fn run_auto_fold(&mut self) -> (next: Next)
        ensures
            (*final(self), next) == old(self).after_fold_request(),
    {
        if self.busy {
            self.fold_pending = true;
            return Next::Nothing;
        }
        self.busy = true;
        Next::Fold
    }

    /// The running pass finished: what was queued meanwhile runs now. A full re-cluster
    /// outranks a fold (it ends with one).
    pub fn finish(&mut self) -> (next: Next)
        ensures
            (*final(self), next) == old(self).after_finish(),
    {
        if self.recluster_pending {
            self.recluster_pending = false;
            self.busy = true;
            return Next::Recluster;
        }
        if self.fold_pending {
            self.fold_pending = false;
            self.busy = true;
            return Next::Fold;
        }
        self.busy = false;
        Next::Nothing
    }

    /// The clusters were renumbered: whatever was shown before is stale.
    pub fn renumbered(&mut self)
        requires
            old(self).cluster_gen < i64::MAX,
        ensures
            *final(self) == (Passes {
                cluster_gen: (old(self).cluster_gen + 1) as i64,
                ..*old(self)
            }),
    {
        self.cluster_gen = self.cluster_gen + 1;
    }

    /// Schedule a fold for a quiet moment: each call supersedes any still-pending one.
    /// Returns the ticket to come back with once the quiet time is over.
    pub fn schedule_refold(&mut self) -> (ticket: u64)
        ensures
            ticket == if old(self).epoch == u64::MAX {
                0
            } else {
                (old(self).epoch + 1) as u64
            },
            *final(self) == (Passes { epoch: ticket, ..*old(self) }),
            (*final(self), ticket) == old(self).after_schedule(),
    {
        let ticket: u64 = if self.epoch == u64::MAX {
            0
        } else {
            self.epoch + 1
        };
        self.epoch = ticket;
        ticket
    }

    /// The quiet time of a scheduled fold is over: it runs unless superseded, and is held
    /// while a review session is open.
    pub fn quiet(&mut self, ticket: u64) -> (next: Next)
        ensures
            (*final(self), next) == old(self).after_quiet(ticket),
    {
        if self.epoch != ticket {
            return Next::Nothing;
        }
        if self.review_active {
            self.deferred = true;
            return Next::Nothing;
        }
        self.run_auto_fold()
    }

    /// A review session opens or ends. Ending one that held a fold back schedules it:
    /// the ticket is returned.
    pub fn set_review_active(&mut self, active: bool) -> (ticket: Option<u64>)
        ensures
            (*final(self), ticket) == old(self).after_review(active),
            ticket is Some <==> !active && old(self).deferred,
            final(self).review_active == active,
            final(self).deferred == (old(self).deferred && active),
            ticket matches Some(t) ==> final(self).epoch == t && t == (if old(self).epoch
                == u64::MAX {
                0
            } else {
                (old(self).epoch + 1) as u64
            }),
            ticket is None ==> final(self).epoch == old(self).epoch,
            final(self).busy == old(self).busy,
            final(self).recluster_pending == old(self).recluster_pending,
            final(self).fold_pending == old(self).fold_pending,
            final(self).cluster_gen == old(self).cluster_gen,
            final(self).rescanning == old(self).rescanning,
            final(self).rescan_pending == old(self).rescan_pending,
    {
        self.review_active = active;
        if !active && self.deferred {
            self.deferred = false;
            return Some(self.schedule_refold());
        }
        None
    }

    /// Request a full rescan. Overlapping requests coalesce into one follow-up. Returns
    /// whether to start one now.
    pub fn request_rescan(&mut self) -> (start: bool)
        ensures
            (*final(self), start) == old(self).after_rescan_request(),
            start == !old(self).rescanning,
            *final(self) == (Passes {
                rescanning: true,
                rescan_pending: old(self).rescan_pending || old(self).rescanning,
                ..*old(self)
            }),
    {
        if self.rescanning {
            self.rescan_pending = true;
            return false;
        }
        self.rescanning = true;
        true
    }

    /// The running rescan finished. Returns whether to start the follow-up now.
    pub fn finish_rescan(&mut self) -> (again: bool)
        ensures
            (*final(self), again) == old(self).after_rescan(),
            again == old(self).rescan_pending,
            *final(self) == (Passes {
                rescanning: old(self).rescan_pending,
                rescan_pending: false,
                ..*old(self)
            }),
    {
        let again = self.rescan_pending;
        self.rescan_pending = false;
        self.rescanning = again;
        again
    }
}

/// **A queued re-cluster runs.** One requested while a pass runs starts as soon as that
/// pass finishes, whatever else was requested meanwhile.
pub proof fn law_queued_recluster_runs(p: Passes)
    requires
        p.busy,
    ensures
        ({
            let queued = p.after_recluster_request().0;
            &&& queued.after_finish().1 == Next::Recluster
            &&& queued.after_fold_request().0.after_finish().1 == Next::Recluster
        }),
{
}

/// **A queued fold runs.** One requested while a pass runs starts when that pass finishes,
/// or after the re-cluster that outranks it.
pub proof fn law_queued_fold_runs(p: Passes)
    requires
        p.busy,
    ensures
        ({
            let (after, next) = p.after_fold_request().0.after_finish();
            &&& next == Next::Fold || next == Next::Recluster
            &&& next == Next::Recluster ==> after.after_finish().1 == Next::Fold
        }),
{
}

/// **Passes never overlap.** A pass is started only when none runs, and the library is
/// busy from then on until it finishes.
pub proof fn law_passes_never_overlap(p: Passes)
    ensures
        p.busy ==> p.after_recluster_request().1 == Next::Nothing && p.after_fold_request().1
            == Next::Nothing,
        p.after_recluster_request().0.busy,
        p.after_fold_request().0.busy,
        p.after_finish().0.busy <==> p.after_finish().1 != Next::Nothing,
{
}

/// **Only the newest scheduled fold fires.** A superseded ticket does nothing.
pub proof fn law_superseded_ticket_is_void(p: Passes, ticket: u64)
    requires
        p.epoch != ticket,
    ensures
        p.after_quiet(ticket) == (p, Next::Nothing),
{
}

} // verus!
