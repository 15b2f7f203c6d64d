//! The thumbnail queue: two lanes of work, what the user looks at first.

use std::collections::{HashMap, HashSet, VecDeque};

use vstd::prelude::*;

use crate::photos::Job;
use crate::rows::{
    distinct, holds, kept, lemma_distinct, lemma_distinct_push, lemma_kept_distinct,
    lemma_kept_from, reversed,
};

verus! {

broadcast use vstd::std_specs::hash::group_hash_axioms;

/// The work-queue: a `priority` lane for what the user is looking at, and a `normal`
/// lane for everything else.
pub struct ThumbQueue {
    /// Every still-pending job, by id. Removed when a worker takes it.
    jobs: HashMap<i64, Job>,
    /// Background order (first in, first out): every pending job, in the order in which it
    /// was last queued.
    normal: VecDeque<i64>,
    /// What the user is looking at right now: drained before `normal`.
    priority: VecDeque<i64>,
    priority_set: HashSet<i64>,
    /// Jobs a worker has taken but not yet finished.
    in_flight: HashSet<i64>,
    /// Set on shutdown so workers can exit their loop.
    shutdown: bool,
}

/// The work-queue, mathematically.
#[verifier::ext_equal]
pub struct QueueView {
    pub jobs: Map<i64, Job>,
    pub normal: Seq<i64>,
    pub priority: Seq<i64>,
    pub in_flight: Set<i64>,
    pub shutdown: bool,
}

impl View for ThumbQueue {
    type V = QueueView;

    closed spec fn view(&self) -> QueueView {
        QueueView {
            jobs: self.jobs@,
            normal: self.normal@,
            priority: self.priority@,
            in_flight: self.in_flight@,
            shutdown: self.shutdown,
        }
    }
}

/// No value occurs twice.
pub open spec fn no_repeats(lane: Seq<i64>) -> bool {
    forall|j: int, k: int| 0 <= j < k < lane.len() ==> #[trigger] lane[j] != #[trigger] lane[k]
}

/// Tests for an id that is not listed.
pub open spec fn unlisted(ids: Seq<i64>) -> spec_fn(i64) -> bool {
    |id: i64| !ids.contains(id)
}

impl QueueView {
    /// The normal lane holds just the pending jobs, each once; the priority lane some of
    /// them, each once. A pending job is under its own id, and not in flight.
    pub open spec fn wf(&self) -> bool {
        &&& forall|id: i64| #[trigger]
            self.jobs.contains_key(id) ==> !self.in_flight.contains(id) && self.jobs[id].id == id
        &&& forall|id: i64| #[trigger] self.normal.contains(id) <==> self.jobs.contains_key(id)
        &&& no_repeats(self.normal)
        &&& forall|id: i64| #[trigger] self.priority.contains(id) ==> self.jobs.contains_key(id)
        &&& no_repeats(self.priority)
    }

    /// One more job in the normal lane, unless it is already queued or in flight.
    pub open spec fn with_job(self, job: Job) -> QueueView {
        if self.jobs.contains_key(job.id) || self.in_flight.contains(job.id) {
            self
        } else {
            QueueView {
                normal: self.normal.push(job.id),
                jobs: self.jobs.insert(job.id, job),
                ..self
            }
        }
    }

    /// Several more jobs in the normal lane.
    pub open spec fn with_jobs(self, jobs: Seq<Job>) -> QueueView
        decreases jobs.len(),
    {
        if jobs.len() == 0 {
            self
        } else {
            self.with_jobs(jobs.drop_last()).with_job(jobs.last())
        }
    }

    /// Tests for a pending id.
    pub open spec fn is_pending(self) -> spec_fn(i64) -> bool {
        |id: i64| self.jobs.contains_key(id)
    }

    /// The queue with another priority lane: the pending ones of the ids, each once.
    pub open spec fn with_priority(self, ids: Seq<i64>) -> QueueView {
        QueueView { priority: distinct(kept(ids, self.is_pending())), ..self }
    }

    /// Nothing is pending; what is in flight stays.
    pub open spec fn emptied(self) -> QueueView {
        QueueView {
            jobs: Map::empty(),
            normal: Seq::empty(),
            priority: Seq::empty(),
            ..self
        }
    }

    /// The job a worker takes next, and the queue then: the first of the priority lane, else
    /// of the normal lane.
    pub open spec fn taken(self) -> (QueueView, Option<Job>) {
        if self.shutdown {
            (self, None)
        } else if self.priority.len() > 0 {
            (self.started(self.priority[0]), Some(self.jobs[self.priority[0]]))
        } else if self.normal.len() > 0 {
            (self.started(self.normal[0]), Some(self.jobs[self.normal[0]]))
        } else {
            (self, None)
        }
    }

    /// A job moved from pending to in flight: no copy of it is left in a lane.
    pub open spec fn started(self, id: i64) -> QueueView {
        QueueView {
            jobs: self.jobs.remove(id),
            in_flight: self.in_flight.insert(id),
            priority: kept(self.priority, unlisted(seq![id])),
            normal: kept(self.normal, unlisted(seq![id])),
            ..self
        }
    }

    /// The jobs that the next `n` workers take.
    pub open spec fn handed_out(self, n: nat) -> Seq<Job>
        decreases n,
    {
        if n == 0 {
            Seq::empty()
        } else {
            match self.taken().1 {
                Some(job) => seq![job] + self.taken().0.handed_out((n - 1) as nat),
                None => Seq::empty(),
            }
        }
    }

    /// A job finished.
    pub open spec fn finished(self, id: i64) -> QueueView {
        QueueView { in_flight: self.in_flight.remove(id), ..self }
    }

    /// The listed jobs are no longer wanted.
    pub open spec fn without(self, ids: Seq<i64>) -> QueueView {
        QueueView {
            jobs: self.jobs.remove_keys(ids.to_set()),
            priority: kept(self.priority, unlisted(ids)),
            normal: kept(self.normal, unlisted(ids)),
            ..self
        }
    }
}

proof fn lemma_with_job_wf(q: QueueView, job: Job)
    requires
        q.wf(),
    ensures
        q.with_job(job).wf(),
{
    let after = q.with_job(job);
    if !q.jobs.contains_key(job.id) && !q.in_flight.contains(job.id) {
        assert(!q.normal.contains(job.id));
        assert forall|id: i64| #[trigger] after.normal.contains(id) <==> after.jobs.contains_key(
            id,
        ) by {
            if after.normal.contains(id) && id != job.id {
                let k = choose|k: int| 0 <= k < after.normal.len() && after.normal[k] == id;
                assert(q.normal[k] == id);
            }
            if id == job.id {
                assert(after.normal[q.normal.len() as int] == id);
            } else if q.normal.contains(id) {
                let k = choose|k: int| 0 <= k < q.normal.len() && q.normal[k] == id;
                assert(after.normal[k] == id);
            }
        }
        assert(no_repeats(after.normal));
    }
}

proof fn lemma_started_wf(q: QueueView, id: i64)
    requires
        q.wf(),
    ensures
        q.started(id).wf(),
{
    lemma_kept_distinct(q.normal, unlisted(seq![id]));
    lemma_kept_distinct(q.priority, unlisted(seq![id]));
    let after = q.started(id);
    assert forall|x: i64| #[trigger] after.normal.contains(x) <==> after.jobs.contains_key(x) by {
        assert(seq![id].contains(x) <==> x == id) by {
            assert(seq![id][0] == id);
        }
    }
    assert forall|x: i64| #[trigger] after.priority.contains(x) implies after.jobs.contains_key(
        x,
    ) by {
        assert(q.priority.contains(x));
        assert(seq![id][0] == id);
    }
}

proof fn lemma_without_wf(q: QueueView, ids: Seq<i64>)
    requires
        q.wf(),
    ensures
        q.without(ids).wf(),
{
    lemma_kept_distinct(q.normal, unlisted(ids));
    lemma_kept_distinct(q.priority, unlisted(ids));
    let after = q.without(ids);
    assert forall|x: i64| #[trigger] after.normal.contains(x) <==> after.jobs.contains_key(x) by {
        assert(ids.to_set().contains(x) <==> ids.contains(x));
    }
    assert forall|x: i64| #[trigger] after.priority.contains(x) implies after.jobs.contains_key(
        x,
    ) by {
        assert(q.priority.contains(x));
        assert(ids.to_set().contains(x) <==> ids.contains(x));
    }
}

/// What is first in a lane without repetitions is dropped from its front alone.
proof fn lemma_front_dropped(lane: Seq<i64>)
    requires
        no_repeats(lane),
        lane.len() > 0,
    ensures
        kept(lane, unlisted(seq![lane[0]])) == lane.skip(1),
    decreases lane.len(),
{
    let test = unlisted(seq![lane[0]]);
    let front = lane.drop_last();
    assert(seq![lane[0]][0] == lane[0]);
    if front.len() > 0 {
        assert forall|j: int, k: int| 0 <= j < k < front.len() implies #[trigger] front[j]
            != #[trigger] front[k] by {
            assert(front[j] == lane[j] && front[k] == lane[k]);
        }
        assert(front[0] == lane[0]);
        lemma_front_dropped(front);
        assert(lane[0] != lane[lane.len() - 1]);
        assert(test(lane.last()));
        assert(lane.skip(1) =~= front.skip(1).push(lane.last()));
    } else {
        assert(!test(lane.last()));
        assert(kept(front, test) =~= Seq::empty());
        assert(lane.skip(1) =~= Seq::empty());
    }
}

/// Drop the listed ids from a lane.
fn drop_listed(lane: &mut VecDeque<i64>, ids: &Vec<i64>)
    ensures
        final(lane)@ == kept(old(lane)@, unlisted(ids@)),
{
    let ghost all = lane@;
    let ghost test = unlisted(ids@);
    let n: usize = lane.len();
    assert(lane@ =~= all.skip(0) + kept(all.take(0), test));
    for i in 0..n
        invariant
            n == all.len(),
            test == unlisted(ids@),
            lane@ == all.skip(i as int) + kept(all.take(i as int), test),
    {
        assert(all.take(i + 1).drop_last() == all.take(i as int));
        let ghost was = lane@;
        if let Some(id) = lane.pop_front() {
            assert(id == all[i as int]);
            assert(lane@ =~= all.skip(i + 1) + kept(all.take(i as int), test));
            if !holds(ids, id) {
                lane.push_back(id);
                assert(lane@ =~= all.skip(i + 1) + kept(all.take(i as int), test).push(id));
            }
        }
    }
    assert(all.take(n as int) == all);
    assert(lane@ =~= kept(all, test));
}

impl ThumbQueue {
    /// The priority set mirrors the priority lane, and the queue is in order.
    pub closed spec fn wf(&self) -> bool {
        &&& self@.wf()
        &&& forall|id: i64| #[trigger]
            self.priority_set@.contains(id) <==> self.priority@.contains(id)
    }

    /// A queue in order is one mathematically.
    pub proof fn lemma_wf(&self)
        requires
            self.wf(),
        ensures
            self@.wf(),
    {
    }

    /// An empty queue.
    pub fn new() -> (q: Self)
        ensures
            q.wf(),
            q@ == (QueueView {
                jobs: Map::empty(),
                normal: Seq::empty(),
                priority: Seq::empty(),
                in_flight: Set::empty(),
                shutdown: false,
            }),
    {
        ThumbQueue {
            jobs: HashMap::new(),
            normal: VecDeque::new(),
            priority: VecDeque::new(),
            priority_set: HashSet::new(),
            in_flight: HashSet::new(),
            shutdown: false,
        }
    }

    fn add_jobs(&mut self, jobs: Vec<Job>)
        requires
            old(self).wf(),
        ensures
            final(self).wf(),
            final(self)@ == old(self)@.with_jobs(jobs@),
    {
        let ghost given = jobs@;
        let ghost start = self@;
        let mut back = reversed(jobs);
        assert(given.take(0) =~= Seq::<Job>::empty());
        while back.len() > 0
            invariant
                self.wf(),
                back@.len() <= given.len(),
                back@ == given.reverse().take(back@.len() as int),
                self@ == start.with_jobs(given.take(given.len() - back@.len())),
            decreases back@.len(),
        {
            let ghost done = given.len() - back@.len();
            let ghost held = self@;
            if let Some(job) = back.pop() {
                proof {
                    assert(given.reverse()[back@.len() as int] == given[done]);
                    assert(job == given[done]);
                    assert(given.take(done + 1).drop_last() =~= given.take(done));
                    assert(given.take(done + 1).last() == job);
                    lemma_with_job_wf(held, job);
                }
                if !self.jobs.contains_key(&job.id) && !self.in_flight.contains(&job.id) {
                    self.normal.push_back(job.id);
                    self.jobs.insert(job.id, job);
                }
                assert(self@ == held.with_job(job));
            }
        }
        assert(given.take(given.len() as int) =~= given);
    }

    /// Add jobs to the background lane. Skips ids already queued or in flight.
    pub fn enqueue(&mut self, jobs: Vec<Job>)
        requires
            old(self).wf(),
        ensures
            final(self).wf(),
            final(self)@ == old(self)@.with_jobs(jobs@),
    {
        self.add_jobs(jobs);
    }

    /// Replace the priority lane with the photos currently visible. Ids that are no longer
    /// pending are ignored.
    pub fn set_priority(&mut self, ids: &Vec<i64>)
        requires
            old(self).wf(),
        ensures
            final(self).wf(),
            final(self)@ == old(self)@.with_priority(ids@),
    {
        let ghost start = self@;
        let ghost test = start.is_pending();
        self.priority.clear();
        self.priority_set.clear();
        for k in 0..ids.len()
            invariant
                start.wf(),
                test == start.is_pending(),
                self.jobs@ == start.jobs,
                self.normal@ == start.normal,
                self.in_flight@ == start.in_flight,
                self.shutdown == start.shutdown,
                self.priority@ == distinct(kept(ids@.take(k as int), test)),
                forall|id: i64| #[trigger]
                    self.priority_set@.contains(id) <==> self.priority@.contains(id),
        {
            let id: i64 = ids[k];
            proof {
                assert(ids@.take(k + 1).drop_last() == ids@.take(k as int));
                let seen = kept(ids@.take(k as int), test);
                lemma_distinct_push(seen, id);
                lemma_distinct(seen);
                assert(distinct(seen).contains(id) <==> seen.contains(id));
            }
            let ghost lane = self.priority@;
            if self.jobs.contains_key(&id) && self.priority_set.insert(id) {
                self.priority.push_back(id);
                assert forall|x: i64| #[trigger]
                    self.priority_set@.contains(x) <==> self.priority@.contains(x) by {
                    if lane.contains(x) {
                        let j = choose|j: int| 0 <= j < lane.len() && lane[j] == x;
                        assert(self.priority@[j] == x);
                    }
                    if x == id {
                        assert(self.priority@[lane.len() as int] == x);
                    }
                    if self.priority@.contains(x) && x != id {
                        let j = choose|j: int|
                            0 <= j < self.priority@.len() && self.priority@[j] == x;
                        assert(lane[j] == x);
                    }
                }
            }
        }
        assert(ids@.take(ids@.len() as int) == ids@);
        proof {
            lemma_distinct(kept(ids@, test));
            assert forall|x: i64| #[trigger] self@.priority.contains(x) implies self@.jobs.contains_key(
                x,
            ) by {
                assert(distinct(kept(ids@, test)).contains(x));
                assert(kept(ids@, test).contains(x));
                let p = choose|p: int| 0 <= p < kept(ids@, test).len() && kept(ids@, test)[p] == x;
                lemma_kept_from(ids@, test, p);
            }
        }
    }

    /// Replace the *entire* pending set with exactly these jobs. Jobs already taken by a
    /// worker (a download in flight) keep running.
    pub fn replace_pending(&mut self, jobs: Vec<Job>)
        requires
            old(self).wf(),
        ensures
            final(self).wf(),
            final(self)@ == old(self)@.emptied().with_jobs(jobs@),
    {
        let ghost start = self@;
        self.jobs.clear();
        self.normal.clear();
        self.priority.clear();
        self.priority_set.clear();
        assert(self@ == start.emptied());
        self.add_jobs(jobs);
    }

    /// Drop pending jobs that are no longer wanted.
    pub fn cancel(&mut self, ids: &Vec<i64>)
        requires
            old(self).wf(),
        ensures
            final(self).wf(),
            final(self)@ == old(self)@.without(ids@),
    {
        let ghost start = self@;
        let ghost mirror = self.priority_set@;
        assert(start.jobs.remove_keys(ids@.take(0).to_set()) =~= start.jobs);
        for k in 0..ids.len()
            invariant
                self.jobs@ == start.jobs.remove_keys(ids@.take(k as int).to_set()),
                self.normal@ == start.normal,
                self.priority@ == start.priority,
                self.in_flight@ == start.in_flight,
                self.shutdown == start.shutdown,
                forall|id: i64| #[trigger]
                    self.priority_set@.contains(id) <==> mirror.contains(id) && !ids@.take(
                        k as int,
                    ).contains(id),
        {
            let _ = self.jobs.remove(&ids[k]);
            let _ = self.priority_set.remove(&ids[k]);
            proof {
                let now = ids@.take(k + 1);
                let seen = ids@.take(k as int);
                let id = ids@[k as int];
                assert(now =~= seen.push(id));
                assert forall|x: i64| #[trigger] now.contains(x) <==> seen.contains(x) || x == id by {
                    if seen.contains(x) {
                        let j = choose|j: int| 0 <= j < seen.len() && seen[j] == x;
                        assert(now[j] == x);
                    }
                    if now.contains(x) {
                        let j = choose|j: int| 0 <= j < now.len() && now[j] == x;
                        if j < seen.len() {
                            assert(seen[j] == x);
                        }
                    }
                    assert(now[k as int] == id);
                }
                assert(now.to_set() =~= seen.to_set().insert(id));
                assert(self.jobs@ =~= start.jobs.remove_keys(now.to_set()));
            }
        }
        assert(ids@.take(ids@.len() as int) == ids@);
        drop_listed(&mut self.priority, ids);
        drop_listed(&mut self.normal, ids);
        proof {
            lemma_without_wf(start, ids@);
            lemma_kept_distinct(start.priority, unlisted(ids@));
        }
    }

    /// Move a pending job to in flight.
    fn start(&mut self, id: i64, Ghost(before): Ghost<QueueView>) -> (job: Option<Job>)
        requires
            before.wf(),
            before.jobs.contains_key(id),
            old(self).jobs@ == before.jobs,
            old(self).in_flight@ == before.in_flight,
            old(self).shutdown == before.shutdown,
            old(self).normal@ == kept(before.normal, unlisted(seq![id])),
            old(self).priority@ == kept(before.priority, unlisted(seq![id])),
            forall|x: i64| #[trigger]
                old(self).priority_set@.contains(x) <==> old(self).priority@.contains(x),
        ensures
            final(self).wf(),
            final(self)@ == before.started(id),
            job == Some(before.jobs[id]),
    {
        let job = self.jobs.remove(&id);
        self.in_flight.insert(id);
        proof {
            lemma_started_wf(before, id);
        }
        job
    }

    /// Take the next job (priority first), or none if nothing is pending or the queue was
    /// shut down. No copy of a taken job is left in the other lane.
    pub fn take(&mut self) -> (job: Option<Job>)
        requires
            old(self).wf(),
        ensures
            final(self).wf(),
            (final(self)@, job) == old(self)@.taken(),
    {
        if self.shutdown {
            return None;
        }
        let ghost start = self@;
        if let Some(id) = self.priority.pop_front() {
            assert(start.priority[0] == id);
            assert(start.priority.contains(id));
            let listed = vec![id];
            assert(listed@ =~= seq![id]);
            drop_listed(&mut self.normal, &listed);
            self.priority_set.remove(&id);
            proof {
                lemma_front_dropped(start.priority);
                lemma_kept_distinct(start.priority, unlisted(seq![id]));
                assert(self.priority@ =~= start.priority.skip(1));
                assert forall|x: i64| #[trigger]
                    self.priority_set@.contains(x) <==> self.priority@.contains(x) by {
                    assert(seq![id].contains(x) <==> x == id) by {
                        assert(seq![id][0] == id);
                    }
                }
            }
            return self.start(id, Ghost(start));
        }
        assert(start.priority.len() == 0);
        if let Some(id) = self.normal.pop_front() {
            assert(start.normal[0] == id);
            assert(start.normal.contains(id));
            proof {
                lemma_front_dropped(start.normal);
                assert(self.normal@ =~= start.normal.skip(1));
                assert(self.priority@ =~= kept(start.priority, unlisted(seq![id])));
            }
            return self.start(id, Ghost(start));
        }
        None
    }

    /// Mark a taken job finished, so its id can be queued again later if needed.
    pub fn complete(&mut self, id: i64)
        requires
            old(self).wf(),
        ensures
            final(self).wf(),
            final(self)@ == old(self)@.finished(id),
    {
        let ghost start = self@;
        let _ = self.in_flight.remove(&id);
        assert(self@ == start.finished(id));
        assert forall|x: i64| #[trigger] self@.jobs.contains_key(x) implies !self@.in_flight.contains(
            x,
        ) && self@.jobs[x].id == x by {
            assert(start.jobs.contains_key(x));
        }
        assert forall|x: i64| #[trigger] self@.normal.contains(x) <==> self@.jobs.contains_key(x) by {
            assert(start.normal.contains(x) <==> start.jobs.contains_key(x));
        }
    }

    /// Let the workers go.
    pub fn shut_down(&mut self)
        requires
            old(self).wf(),
        ensures
            final(self).wf(),
            final(self)@ == (QueueView { shutdown: true, ..old(self)@ }),
    {
        self.shutdown = true;
    }

    /// Whether the queue was shut down.
    pub fn is_shut_down(&self) -> (r: bool)
        ensures
            r == self@.shutdown,
    {
        self.shutdown
    }
}

/// **Nothing pending is lost.** A worker is sent away only when nothing is pending, or the
/// queue was shut down.
pub proof fn law_nothing_pending_is_lost(q: QueueView)
    requires
        q.wf(),
        !q.shutdown,
        q.taken().1 is None,
    ensures
        forall|id: i64| !q.jobs.contains_key(id),
{
    assert forall|id: i64| !q.jobs.contains_key(id) by {
        assert(q.normal.contains(id) <==> q.jobs.contains_key(id));
    }
}

/// **What is on screen comes first.** While a visible photo is pending, the next job is a
/// visible one.
pub proof fn law_visible_work_comes_first(q: QueueView, id: i64)
    requires
        q.wf(),
        !q.shutdown,
        q.priority.contains(id),
    ensures
        q.jobs.contains_key(id),
        q.taken().1 matches Some(job) && q.priority.contains(job.id),
{
    assert(q.priority.contains(q.priority[0]));
}

/// **No job runs twice at once.** A job that was taken is no longer pending, and cannot
/// be queued again until it is finished.
pub proof fn law_taken_job_is_not_requeued(q: QueueView, again: Job)
    requires
        q.wf(),
        q.taken().1 is Some,
        again.id == q.taken().1->0.id,
    ensures
        !q.taken().0.jobs.contains_key(again.id),
        q.taken().0.in_flight.contains(again.id),
        q.taken().0.with_job(again) == q.taken().0,
        q.taken().0.finished(again.id).with_job(again).jobs.contains_key(again.id),
{
    if q.priority.len() > 0 {
        assert(q.priority.contains(q.priority[0]));
    } else {
        assert(q.normal.contains(q.normal[0]));
    }
}

/// **A job that is queued goes last.** Whatever was queued, taken or finished before, a job
/// that is neither pending nor in flight joins the background lane at its end, and no old
/// copy of it stands before.
pub proof fn law_queued_job_goes_last(q: QueueView, job: Job)
    requires
        q.wf(),
        !q.jobs.contains_key(job.id),
        !q.in_flight.contains(job.id),
    ensures
        q.with_job(job).wf(),
        q.with_job(job).normal == q.normal.push(job.id),
        !q.normal.contains(job.id),
{
    lemma_with_job_wf(q, job);
}

/// **Taking keeps the background order.** What stays pending stays in the order in which it
/// was queued, whichever lane the taken job came through.
pub proof fn law_taking_keeps_the_order(q: QueueView)
    requires
        q.wf(),
    ensures
        q.taken().0.wf(),
        q.taken().1 matches Some(job) ==> q.taken().0.normal == kept(
            q.normal,
            unlisted(seq![job.id]),
        ),
{
    if !q.shutdown {
        if q.priority.len() > 0 {
            assert(q.priority.contains(q.priority[0]));
            lemma_started_wf(q, q.priority[0]);
        } else if q.normal.len() > 0 {
            assert(q.normal.contains(q.normal[0]));
            lemma_started_wf(q, q.normal[0]);
        }
    }
}

/// **The background lane is first in, first out.** Without a priority lane, jobs leave in
/// the order in which they were last queued.
pub proof fn law_background_is_first_in_first_out(q: QueueView, n: nat)
    requires
        q.wf(),
        !q.shutdown,
        q.priority.len() == 0,
        n <= q.normal.len(),
    ensures
        q.handed_out(n) == q.normal.take(n as int).map_values(|id: i64| q.jobs[id]),
    decreases n,
{
    let goal = q.normal.take(n as int).map_values(|id: i64| q.jobs[id]);
    if n > 0 {
        let first = q.normal[0];
        let next = q.taken().0;
        lemma_front_dropped(q.normal);
        law_taking_keeps_the_order(q);
        assert(q.normal.contains(first));
        assert(kept(q.priority, unlisted(seq![first])).len() == 0);
        law_background_is_first_in_first_out(next, (n - 1) as nat);
        let rest = next.normal.take(n - 1).map_values(|id: i64| next.jobs[id]);
        assert forall|k: int| 0 <= k < n - 1 implies #[trigger] rest[k] == goal[k + 1] by {
            assert(next.normal[k] == q.normal[k + 1]);
            assert(q.normal[0] != q.normal[k + 1]);
        }
        assert(seq![q.jobs[first]] + rest =~= goal);
    } else {
        assert(goal =~= Seq::empty());
    }
}

} // verus!
