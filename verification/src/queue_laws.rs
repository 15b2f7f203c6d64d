//! What the work queue holds and hands out, lane by lane.

use vstd::prelude::*;

use crate::listing_laws::law_keeping_keeps_the_order;
use crate::photos::{job_ids, Job};
use crate::review_laws::lemma_kept_contains_iff;
use crate::rows::{distinct, kept, lemma_distinct, views};
use crate::thumb_queue::{no_repeats, unlisted, QueueView};
use crate::viewport::promoted;

verus! {

/// **A job is queued once.** One that is neither pending nor in flight goes last in the background
/// lane; one that is changes nothing. The priority lane and what is in flight stay.
pub proof fn law_jobs_are_queued_once(q: QueueView, job: Job)
    ensures
        ({
            let after = q.with_job(job);
            let known = q.jobs.contains_key(job.id) || q.in_flight.contains(job.id);
            &&& known ==> after == q
            &&& !known ==> after.jobs == q.jobs.insert(job.id, job) && after.normal
                == q.normal.push(job.id)
            &&& after.priority == q.priority
            &&& after.in_flight == q.in_flight
            &&& after.shutdown == q.shutdown
        }),
{
}

/// **Several jobs are queued one after the other.**
pub proof fn law_queued_jobs_add_up(q: QueueView, jobs: Seq<Job>, job: Job)
    ensures
        q.with_jobs(Seq::empty()) == q,
        q.with_jobs(jobs.push(job)) == q.with_jobs(jobs).with_job(job),
{
    assert(jobs.push(job).drop_last() =~= jobs);
}

/// **Every job that can be is pending once it was queued.**
pub proof fn law_queued_jobs_are_pending(q: QueueView, jobs: Seq<Job>, k: int)
    requires
        0 <= k < jobs.len(),
    ensures
        q.with_jobs(jobs).in_flight == q.in_flight,
        q.with_jobs(jobs).priority == q.priority,
        q.with_jobs(jobs).shutdown == q.shutdown,
        !q.in_flight.contains(jobs[k].id) ==> q.with_jobs(jobs).jobs.contains_key(jobs[k].id),
        forall|id: i64| #[trigger]
            q.jobs.contains_key(id) ==> q.with_jobs(jobs).jobs.contains_key(id)
                && q.with_jobs(jobs).jobs[id] == q.jobs[id],
    decreases jobs.len(),
{
    let front = jobs.drop_last();
    let n = jobs.len() - 1;
    assert(jobs[n] == jobs.last());
    if front.len() > 0 {
        let j = if k < n {
            k
        } else {
            0
        };
        law_queued_jobs_are_pending(q, front, j);
        assert(front[j] == jobs[j]);
    } else {
        assert(q.with_jobs(front) == q);
    }
}

/// **What is on screen is put first.** The priority lane holds just the pending ones of the photos
/// on screen, each once; nothing else changes.
pub proof fn law_what_is_on_screen_goes_first(q: QueueView, ids: Seq<i64>, id: i64)
    ensures
        ({
            let after = q.with_priority(ids);
            &&& after.priority.contains(id) <==> ids.contains(id) && q.jobs.contains_key(id)
            &&& no_repeats(after.priority)
            &&& after.normal == q.normal
            &&& after.jobs == q.jobs
            &&& after.in_flight == q.in_flight
            &&& after.shutdown == q.shutdown
        }),
{
    let pending = kept(ids, q.is_pending());
    lemma_distinct(pending);
    lemma_kept_contains_iff(ids, q.is_pending(), id);
}

/// **The photo first on screen comes first.** The head of the priority lane is the first of the ids
/// that is pending.
pub proof fn law_first_on_screen_comes_first(q: QueueView, ids: Seq<i64>, k: int)
    requires
        0 <= k < ids.len(),
        q.jobs.contains_key(ids[k]),
        forall|j: int| 0 <= j < k ==> !q.jobs.contains_key(#[trigger] ids[j]),
    ensures
        q.with_priority(ids).priority.len() > 0,
        q.with_priority(ids).priority[0] == ids[k],
        !q.shutdown ==> q.with_priority(ids).taken().1 == Some(q.jobs[ids[k]]),
{
    let pending = kept(ids, q.is_pending());
    let at = law_keeping_keeps_the_order(ids, q.is_pending());
    assert(q.is_pending()(ids[k]));
    assert(at.contains(k));
    let p = choose|p: int| 0 <= p < at.len() && at[p] == k;
    if p > 0 {
        assert(at[0] < at[p]);
        assert(q.is_pending()(ids[at[0]]));
    }
    assert(pending[0] == ids[k]);
    lemma_distinct_head(pending);
}

proof fn lemma_distinct_head(s: Seq<i64>)
    requires
        s.len() > 0,
    ensures
        distinct(s).len() > 0,
        distinct(s)[0] == s[0],
    decreases s.len(),
{
    if s.len() == 1 {
        assert(s.drop_last() =~= Seq::empty());
        assert(distinct(s.drop_last()) =~= Seq::empty());
        assert(distinct(s) =~= seq![s[0]]);
    } else {
        lemma_distinct_head(s.drop_last());
        assert(s.drop_last()[0] == s[0]);
    }
}

/// **A worker gets the first job, what is on screen before the rest.** The job is then in flight
/// and in no lane; every other job stays where it was. After shutdown nobody gets any.
pub proof fn law_workers_get_the_first_job(q: QueueView, id: i64)
    requires
        q.wf(),
    ensures
        ({
            let (after, job) = q.taken();
            &&& q.shutdown ==> job is None && after == q
            &&& !q.shutdown && q.priority.len() > 0 ==> job == Some(q.jobs[q.priority[0]])
            &&& !q.shutdown && q.priority.len() == 0 && q.normal.len() > 0 ==> job == Some(
                q.jobs[q.normal[0]],
            )
            &&& !q.shutdown && q.priority.len() == 0 && q.normal.len() == 0 ==> job is None && after
                == q
            &&& job matches Some(j) ==> {
                &&& after.in_flight == q.in_flight.insert(j.id)
                &&& after.jobs == q.jobs.remove(j.id)
                &&& after.normal.contains(id) <==> q.normal.contains(id) && id != j.id
                &&& after.priority.contains(id) <==> q.priority.contains(id) && id != j.id
                &&& after.shutdown == q.shutdown
            }
        }),
{
    let (after, job) = q.taken();
    if let Some(j) = job {
        let first = if q.priority.len() > 0 {
            q.priority[0]
        } else {
            q.normal[0]
        };
        assert(q.jobs.contains_key(first)) by {
            if q.priority.len() > 0 {
                assert(q.priority.contains(q.priority[0]));
            } else {
                assert(q.normal.contains(q.normal[0]));
            }
        }
        assert(j.id == first);
        lemma_kept_contains_iff(q.normal, unlisted(seq![first]), id);
        lemma_kept_contains_iff(q.priority, unlisted(seq![first]), id);
        assert(seq![first].contains(id) <==> id == first) by {
            assert(seq![first][0] == first);
        }
    }
}

/// **A finished job is no longer in flight**, and can be queued again.
pub proof fn law_finished_jobs(q: QueueView, id: i64)
    ensures
        q.finished(id).in_flight == q.in_flight.remove(id),
        q.finished(id).jobs == q.jobs,
        q.finished(id).normal == q.normal,
        q.finished(id).priority == q.priority,
        q.finished(id).shutdown == q.shutdown,
{
}

/// **What is cancelled is dropped, and only that.** What is in flight keeps running.
pub proof fn law_cancelled_jobs(q: QueueView, ids: Seq<i64>, id: i64)
    ensures
        ({
            let after = q.without(ids);
            &&& after.jobs.contains_key(id) <==> q.jobs.contains_key(id) && !ids.contains(id)
            &&& after.jobs.contains_key(id) ==> after.jobs[id] == q.jobs[id]
            &&& after.normal.contains(id) <==> q.normal.contains(id) && !ids.contains(id)
            &&& after.priority.contains(id) <==> q.priority.contains(id) && !ids.contains(id)
            &&& after.in_flight == q.in_flight
            &&& after.shutdown == q.shutdown
        }),
{
    lemma_kept_contains_iff(q.normal, unlisted(ids), id);
    lemma_kept_contains_iff(q.priority, unlisted(ids), id);
    assert(ids.to_set().contains(id) <==> ids.contains(id));
}

/// **Replacing what is pending keeps what is in flight.** Only the new jobs are pending then.
pub proof fn law_replaced_jobs(q: QueueView, id: i64)
    ensures
        !q.emptied().jobs.contains_key(id),
        q.emptied().normal.len() == 0,
        q.emptied().priority.len() == 0,
        q.emptied().in_flight == q.in_flight,
        q.emptied().shutdown == q.shutdown,
{
}

/// **What is promoted is queued and put first.** A cloud-only photo on screen that is not being
/// fetched is in the priority lane.
pub proof fn law_promoted_jobs_go_first(q: QueueView, jobs: Seq<Job>, k: int)
    requires
        0 <= k < jobs.len(),
        !q.in_flight.contains(jobs[k].id),
    ensures
        promoted(q, jobs).jobs.contains_key(jobs[k].id),
        promoted(q, jobs).priority.contains(jobs[k].id),
        promoted(q, jobs).in_flight == q.in_flight,
{
    law_queued_jobs_are_pending(q, jobs, k);
    let ids = job_ids(views(jobs));
    assert(ids[k] == jobs[k].id);
    law_what_is_on_screen_goes_first(q.with_jobs(jobs), ids, jobs[k].id);
}

} // verus!
