//! Which job of a pipeline runs when.
//!
//! A `Runner` decides what happens next; whoever drives it does that, and
//! reports the exit code of each step back.

use vstd::prelude::*;

use crate::pipeline::{jobs_view, steps_view, strings, Job, JobView, Pipeline};
use crate::text::same;

verus! {

// ---------------------------------------------------------------------- model
/// The place of the first job with the name `name`; the number of jobs where
/// there is none.
pub open spec fn job_index(jobs: Seq<JobView>, name: Seq<char>) -> int
    decreases jobs.len(),
{
    if jobs.len() == 0 || jobs[0].name == name {
        0
    } else {
        1 + job_index(jobs.skip(1), name)
    }
}

/// What the next move of a run is.
pub enum Move {
    /// The job is skipped, since the job that its need at `need` names failed.
    Skip { job: int, need: int },
    /// The job begins.
    Start { job: int },
    /// The step of the job that has begun is to run.
    Step { job: int, step: int },
    /// The job that has begun ends.
    End { job: int, ok: bool },
    /// Nothing is left to do.
    Finish,
}

/// The move speaks of jobs, needs and steps that there are.
pub open spec fn is_of(m: Move, jobs: Seq<JobView>) -> bool {
    match m {
        Move::Skip { job, need } => 0 <= job < jobs.len() && 0 <= need < jobs[job].needs.len(),
        Move::Start { job } => 0 <= job < jobs.len(),
        Move::Step { job, step } => 0 <= job < jobs.len() && 0 <= step < jobs[job].steps.len(),
        Move::End { job, ok } => 0 <= job < jobs.len(),
        Move::Finish => true,
    }
}

/// Where a run stands.
pub struct RunnerView {
    pub jobs: Seq<JobView>,
    /// The jobs that have ended or were skipped.
    pub done: Seq<bool>,
    /// The jobs all of whose steps have succeeded.
    pub passed: Seq<bool>,
    /// A job that ran has failed.
    pub failed: bool,
    /// How many jobs are done.
    pub executed: int,
    /// How many passes over the jobs lie behind.
    pub pass: int,
    /// The job at which the pass goes on.
    pub cursor: int,
    /// The job that has begun, its next step, and whether the steps so far have
    /// succeeded.
    pub current: Option<(int, int, bool)>,
    /// The run was cancelled.
    pub stopped: bool,
}

/// Whether a job can run.
pub enum Readiness {
    /// A job that it needs is not done, or there is none of that name.
    Wait,
    /// The job that its need at this place names is done and has not passed.
    Skip(int),
    /// All the jobs that it needs have passed.
    Ready,
}

impl RunnerView {
    pub open spec fn initial(jobs: Seq<JobView>) -> RunnerView {
        RunnerView {
            jobs,
            done: Seq::new(jobs.len(), |i: int| false),
            passed: Seq::new(jobs.len(), |i: int| false),
            failed: false,
            executed: 0,
            pass: 0,
            cursor: 0,
            current: None,
            stopped: false,
        }
    }

    /// The job named `need` has passed.
    pub open spec fn is_met(self, need: Seq<char>) -> bool {
        let d = job_index(self.jobs, need);
        0 <= d < self.jobs.len() && self.done[d] && self.passed[d]
    }

    /// The job named `need` is done and has not passed.
    pub open spec fn is_failed(self, need: Seq<char>) -> bool {
        let d = job_index(self.jobs, need);
        0 <= d < self.jobs.len() && self.done[d] && !self.passed[d]
    }

    /// The place of the first failed need of the job at `job`, from `k` on; the
    /// number of needs where there is none.
    pub open spec fn failed_need(self, job: int, k: int) -> int
        decreases self.jobs[job].needs.len() - k,
    {
        if k >= self.jobs[job].needs.len() || self.is_failed(self.jobs[job].needs[k]) {
            k
        } else {
            self.failed_need(job, k + 1)
        }
    }

    pub open spec fn all_met(self, job: int) -> bool {
        forall|k: int|
            0 <= k < self.jobs[job].needs.len() ==> self.is_met(
                #[trigger] self.jobs[job].needs[k],
            )
    }

    pub open spec fn readiness(self, job: int) -> Readiness {
        if self.failed_need(job, 0) < self.jobs[job].needs.len() {
            Readiness::Skip(self.failed_need(job, 0))
        } else if self.all_met(job) {
            Readiness::Ready
        } else {
            Readiness::Wait
        }
    }

    /// The job at `job` is done, with or without having passed.
    pub open spec fn settle(self, job: int, ok: bool) -> RunnerView {
        RunnerView {
            done: self.done.update(job, true),
            passed: self.passed.update(job, ok),
            executed: self.executed + 1,
            current: None,
            ..self
        }
    }

    /// The job at `job`, which ran, ends.
    pub open spec fn end(self, job: int, ok: bool) -> RunnerView {
        RunnerView { failed: self.failed || !ok, ..self.settle(job, ok) }
    }

    /// Looks for the next job that can begin or must be skipped: in as many
    /// passes as there are jobs, unless all are done before.
    pub open spec fn seek(self) -> (RunnerView, Move)
        decreases self.jobs.len() - self.pass, self.jobs.len() - self.cursor,
    {
        let n = self.jobs.len();
        if self.pass >= n {
            (self, Move::Finish)
        } else if self.cursor >= n {
            RunnerView { pass: self.pass + 1, cursor: 0, ..self }.seek()
        } else if self.cursor == 0 && self.executed == n {
            (self, Move::Finish)
        } else {
            let job = self.cursor;
            let ahead = RunnerView { cursor: job + 1, ..self };
            if self.done[job] {
                ahead.seek()
            } else {
                match self.readiness(job) {
                    Readiness::Wait => ahead.seek(),
                    Readiness::Skip(need) => (ahead.settle(job, false), Move::Skip { job, need }),
                    Readiness::Ready => (
                        RunnerView { current: Some((job, 0, true)), ..ahead },
                        Move::Start { job },
                    ),
                }
            }
        }
    }

    /// The next move, and where the run stands then. A job that has begun goes
    /// on until a step fails or none is left. Nothing is left to do in a run that
    /// was cancelled.
    pub open spec fn next(self) -> (RunnerView, Move) {
        if self.stopped {
            (self, Move::Finish)
        } else {
            match self.current {
                Some((job, step, ok)) => if ok && step < self.jobs[job].steps.len() {
                    (self, Move::Step { job, step })
                } else {
                    (self.end(job, ok), Move::End { job, ok })
                },
                None => self.seek(),
            }
        }
    }

    /// Where the run stands when it has been cancelled.
    pub open spec fn cancelled(self) -> RunnerView {
        RunnerView { stopped: true, ..self }
    }

    /// The exit code of the run.
    pub open spec fn code(self) -> int {
        if self.failed || self.stopped {
            1
        } else {
            0
        }
    }

    /// A step is to run.
    pub open spec fn awaits_step(self) -> bool {
        self.next().1 is Step
    }

    /// Where the run stands after the step that was to run has ended with `rc`.
    pub open spec fn exited(self, rc: int) -> RunnerView {
        match self.current {
            Some((job, step, ok)) => RunnerView { current: Some((job, step + 1, rc == 0)), ..self },
            None => self,
        }
    }
}

// ------------------------------------------------------------------ invariant
/// How many of `s` are true.
pub open spec fn count_true(s: Seq<bool>) -> int
    decreases s.len(),
{
    if s.len() == 0 {
        0
    } else {
        count_true(s.drop_last()) + if s.last() {
            1int
        } else {
            0
        }
    }
}

/// The jobs can be put in an order in which each one stands behind those that
/// it needs, all of which exist.
pub open spec fn orderable(jobs: Seq<JobView>) -> bool {
    exists|rank: Seq<int>| is_order(jobs, rank)
}

pub open spec fn is_order(jobs: Seq<JobView>, rank: Seq<int>) -> bool {
    &&& rank.len() == jobs.len()
    &&& forall|j: int, k: int|
        0 <= j < jobs.len() && 0 <= k < jobs[j].needs.len() ==> {
            let d = job_index(jobs, #[trigger] jobs[j].needs[k]);
            0 <= d < jobs.len() && rank[d] < rank[j]
        }
}

impl RunnerView {
    /// What holds at every point of a run.
    pub open spec fn inv(self) -> bool {
        let n = self.jobs.len();
        &&& self.done.len() == n
        &&& self.passed.len() == n
        &&& 0 <= self.pass <= n
        &&& 0 <= self.cursor <= n
        &&& self.executed == count_true(self.done)
        &&& self.current matches Some((job, step, ok)) ==> {
            &&& 0 <= job < n
            &&& 0 <= step <= self.jobs[job].steps.len()
            &&& !self.done[job]
            &&& self.all_met(job)
            &&& self.cursor == job + 1
            &&& self.pass < n
        }
        &&& forall|j: int| 0 <= j < n && #[trigger] self.passed[j] ==> self.done[j] && self.all_met(j)
        &&& self.failed <==> exists|j: int|
            0 <= j < n && #[trigger] self.done[j] && !self.passed[j]
        &&& self.all_wait() || self.on_time()
    }

    /// No job runs, and none that is left can begin or must be skipped.
    pub open spec fn all_wait(self) -> bool {
        &&& self.current is None
        &&& forall|j: int|
            0 <= j < self.jobs.len() && !(#[trigger] self.done[j]) ==> self.readiness(j) is Wait
    }

    /// In each pass a job gets done: so far this pass has done one, or all that
    /// lie behind it wait.
    pub open spec fn on_time(self) -> bool {
        &&& self.executed >= self.pass
        &&& self.executed > self.pass || forall|j: int|
            0 <= j < self.cursor && !(#[trigger] self.done[j]) && !(self.current matches Some(
                (job, step, ok),
            ) && job == j) ==> self.readiness(j) is Wait
    }
}

// --------------------------------------------------------------------- lemmas
pub proof fn lemma_job_index(jobs: Seq<JobView>, name: Seq<char>)
    ensures
        0 <= job_index(jobs, name) <= jobs.len(),
        forall|j: int| 0 <= j < job_index(jobs, name) ==> (#[trigger] jobs[j]).name != name,
        job_index(jobs, name) < jobs.len() ==> jobs[job_index(jobs, name)].name == name,
    decreases jobs.len(),
{
    if jobs.len() > 0 && jobs[0].name != name {
        lemma_job_index(jobs.skip(1), name);
        assert forall|j: int| 0 <= j < job_index(jobs, name) implies (#[trigger] jobs[j]).name
            != name by {
            if j > 0 {
                assert(jobs.skip(1)[j - 1] == jobs[j]);
            }
        }
    }
}

proof fn lemma_count(s: Seq<bool>)
    ensures
        0 <= count_true(s) <= s.len(),
        count_true(s) == s.len() <==> forall|j: int| 0 <= j < s.len() ==> s[j],
    decreases s.len(),
{
    if s.len() > 0 {
        lemma_count(s.drop_last());
        if forall|j: int| 0 <= j < s.len() ==> s[j] {
            assert forall|j: int| 0 <= j < s.drop_last().len() implies s.drop_last()[j] by {
                assert(s[j]);
            }
        }
        if count_true(s) == s.len() {
            assert forall|j: int| 0 <= j < s.len() implies s[j] by {
                if j < s.len() - 1 {
                    assert(s.drop_last()[j]);
                }
            }
        }
    }
}

proof fn lemma_count_set(s: Seq<bool>, j: int)
    requires
        0 <= j < s.len(),
        !s[j],
    ensures
        count_true(s.update(j, true)) == count_true(s) + 1,
    decreases s.len(),
{
    let t = s.update(j, true);
    if j == s.len() - 1 {
        assert(t.drop_last() =~= s.drop_last());
    } else {
        lemma_count_set(s.drop_last(), j);
        assert(t.drop_last() =~= s.drop_last().update(j, true));
    }
}

proof fn lemma_failed_need(v: RunnerView, job: int, k: int)
    requires
        0 <= k <= v.jobs[job].needs.len(),
    ensures
        k <= v.failed_need(job, k) <= v.jobs[job].needs.len(),
        forall|i: int|
            k <= i < v.failed_need(job, k) ==> !v.is_failed(#[trigger] v.jobs[job].needs[i]),
        v.failed_need(job, k) < v.jobs[job].needs.len() ==> v.is_failed(
            v.jobs[job].needs[v.failed_need(job, k)],
        ),
    decreases v.jobs[job].needs.len() - k,
{
    if !(k >= v.jobs[job].needs.len() || v.is_failed(v.jobs[job].needs[k])) {
        lemma_failed_need(v, job, k + 1);
    }
}

/// Readiness depends on what is done and what has passed alone.
proof fn lemma_same_readiness(v: RunnerView, w: RunnerView, job: int)
    requires
        v.jobs == w.jobs,
        v.done == w.done,
        v.passed == w.passed,
    ensures
        v.readiness(job) == w.readiness(job),
        v.all_met(job) == w.all_met(job),
{
    lemma_same_failed_need(v, w, job, 0);
    assert forall|need: Seq<char>| v.is_met(need) == w.is_met(need) by {}
    if v.all_met(job) {
        assert(w.all_met(job));
    }
    if w.all_met(job) {
        assert(v.all_met(job));
    }
}

proof fn lemma_same_failed_need(v: RunnerView, w: RunnerView, job: int, k: int)
    requires
        v.jobs == w.jobs,
        v.done == w.done,
        v.passed == w.passed,
    ensures
        v.failed_need(job, k) == w.failed_need(job, k),
    decreases v.jobs[job].needs.len() - k,
{
    if !(k >= v.jobs[job].needs.len() || v.is_failed(v.jobs[job].needs[k])) {
        lemma_same_failed_need(v, w, job, k + 1);
    }
}

/// Of the first `m` jobs, one that is not done and has the least rank.
proof fn lemma_least(done: Seq<bool>, rank: Seq<int>, m: int) -> (j: int)
    requires
        0 <= m <= done.len(),
        rank.len() == done.len(),
        exists|i: int| 0 <= i < m && !done[i],
    ensures
        0 <= j < m,
        !done[j],
        forall|i: int| 0 <= i < m && !(#[trigger] done[i]) ==> rank[j] <= rank[i],
    decreases m,
{
    if exists|i: int| 0 <= i < m - 1 && !done[i] {
        let j = lemma_least(done, rank, m - 1);
        if !done[m - 1] && rank[m - 1] < rank[j] {
            m - 1
        } else {
            j
        }
    } else {
        m - 1
    }
}

/// Where the jobs can be ordered and one is not done, one does not wait.
proof fn lemma_one_moves(v: RunnerView) -> (j: int)
    requires
        v.done.len() == v.jobs.len(),
        v.passed.len() == v.jobs.len(),
        orderable(v.jobs),
        exists|i: int| 0 <= i < v.jobs.len() && !v.done[i],
    ensures
        0 <= j < v.jobs.len(),
        !v.done[j],
        !(v.readiness(j) is Wait),
{
    let rank = choose|rank: Seq<int>| is_order(v.jobs, rank);
    let j = lemma_least(v.done, rank, v.jobs.len() as int);
    lemma_failed_need(v, j, 0);
    if v.failed_need(j, 0) >= v.jobs[j].needs.len() {
        assert forall|k: int| 0 <= k < v.jobs[j].needs.len() implies v.is_met(
            #[trigger] v.jobs[j].needs[k],
        ) by {
            let d = job_index(v.jobs, v.jobs[j].needs[k]);
            assert(rank[d] < rank[j]);
            assert(v.done[d]);
            assert(!v.is_failed(v.jobs[j].needs[k]));
        }
        assert(v.all_met(j));
    }
    j
}

/// Getting a job done keeps what holds at every point.
proof fn lemma_settle(v: RunnerView, job: int, ok: bool)
    requires
        v.done.len() == v.jobs.len(),
        v.passed.len() == v.jobs.len(),
        0 <= v.pass <= v.jobs.len(),
        0 <= v.cursor <= v.jobs.len(),
        v.executed == count_true(v.done),
        forall|j: int|
            0 <= j < v.jobs.len() && #[trigger] v.passed[j] ==> v.done[j] && v.all_met(j),
        v.failed <==> exists|j: int|
            0 <= j < v.jobs.len() && #[trigger] v.done[j] && !v.passed[j],
        v.executed >= v.pass,
        0 <= job < v.jobs.len(),
        !v.done[job],
        ok ==> v.all_met(job),
    ensures
        v.end(job, ok).inv(),
{
    let w = v.end(job, ok);
    lemma_count_set(v.done, job);
    assert forall|need: Seq<char>| #[trigger] v.is_met(need) implies w.is_met(need) by {
        assert(job_index(v.jobs, need) != job);
    }
    assert forall|j: int| 0 <= j < w.jobs.len() && #[trigger] w.passed[j] implies w.done[j]
        && w.all_met(j) by {
        if j != job {
            assert(v.passed[j]);
        }
        assert(v.all_met(j));
        assert forall|k: int| 0 <= k < w.jobs[j].needs.len() implies w.is_met(
            #[trigger] w.jobs[j].needs[k],
        ) by {
            assert(v.is_met(v.jobs[j].needs[k]));
        }
    }
    if w.failed {
        if v.failed {
            let j = choose|j: int| 0 <= j < v.jobs.len() && #[trigger] v.done[j] && !v.passed[j];
            assert(w.done[j] && !w.passed[j]);
        } else {
            assert(w.done[job] && !w.passed[job]);
        }
    }
    if exists|j: int| 0 <= j < w.jobs.len() && #[trigger] w.done[j] && !w.passed[j] {
        let j = choose|j: int| 0 <= j < w.jobs.len() && #[trigger] w.done[j] && !w.passed[j];
        if j != job {
            assert(v.done[j] && !v.passed[j]);
        }
    }
}

/// What looking for the next job from `v` on finds, `w` being where the run
/// stands then.
spec fn sought(v: RunnerView, w: RunnerView, m: Move) -> bool {
    &&& w.jobs == v.jobs
    &&& match m {
        Move::Finish => {
            &&& w.done == v.done
            &&& w.passed == v.passed
            &&& w.failed == v.failed
            &&& w.current is None
            &&& v.all_wait()
        },
        Move::Start { job } => {
            &&& 0 <= job < v.jobs.len()
            &&& !v.done[job]
            &&& v.all_met(job)
            &&& w.current == Some((job, 0int, true))
            &&& w.done == v.done
            &&& w.passed == v.passed
            &&& w.executed == v.executed
        },
        Move::Skip { job, need } => {
            &&& 0 <= job < v.jobs.len()
            &&& 0 <= need < v.jobs[job].needs.len()
            &&& !v.done[job]
            &&& v.is_failed(v.jobs[job].needs[need])
            &&& w.current is None
            &&& w.done == v.done.update(job, true)
            &&& w.passed == v.passed.update(job, false)
            &&& w.executed == v.executed + 1
        },
        _ => false,
    }
}

/// Going on to the next job or the next pass, where nothing can be done at the
/// cursor, keeps what holds at every point.
proof fn lemma_seek_step(v: RunnerView)
    requires
        v.inv(),
        v.current is None,
        v.pass < v.jobs.len(),
        v.cursor < v.jobs.len() ==> v.done[v.cursor] || v.readiness(v.cursor) is Wait,
    ensures
        step_ahead(v).inv(),
{
    let n = v.jobs.len();
    let w = step_ahead(v);
    lemma_count(v.done);
    assert forall|j: int| v.all_met(j) == w.all_met(j) && v.readiness(j) == w.readiness(j) by {
        lemma_same_readiness(v, w, j);
    }
    assert forall|j: int| 0 <= j < n && #[trigger] w.passed[j] implies w.done[j] && w.all_met(
        j,
    ) by {
        assert(v.passed[j]);
    }
    if v.failed {
        let j = choose|j: int| 0 <= j < n && #[trigger] v.done[j] && !v.passed[j];
        assert(w.done[j] && !w.passed[j]);
    }
    assert(forall|j: int|
        0 <= j < n ==> #[trigger] w.done[j] == v.done[j] && w.passed[j] == v.passed[j]);
    if v.all_wait() || (v.cursor >= n && v.executed <= v.pass) {
        assert(w.all_wait());
    } else {
        assert(w.on_time());
    }
}

spec fn step_ahead(v: RunnerView) -> RunnerView {
    if v.cursor >= v.jobs.len() {
        RunnerView { pass: v.pass + 1, cursor: 0, ..v }
    } else {
        RunnerView { cursor: v.cursor + 1, ..v }
    }
}

/// Looking for the next job keeps what holds at every point.
proof fn lemma_seek(v: RunnerView)
    requires
        v.inv(),
        v.current is None,
    ensures
        v.seek().0.inv(),
        sought(v, v.seek().0, v.seek().1),
    decreases v.jobs.len() - v.pass, v.jobs.len() - v.cursor,
{
    let n = v.jobs.len();
    lemma_count(v.done);
    if v.pass >= n {
    } else if v.cursor >= n {
        let w = step_ahead(v);
        lemma_seek_step(v);
        lemma_seek(w);
        assert forall|j: int| v.all_met(j) == w.all_met(j) && v.readiness(j) == w.readiness(j) by {
            lemma_same_readiness(v, w, j);
        }
    } else if v.cursor == 0 && v.executed == n {
    } else {
        let job = v.cursor;
        let ahead = RunnerView { cursor: job + 1, ..v };
        assert forall|j: int| v.all_met(j) == ahead.all_met(j) && v.readiness(j)
            == ahead.readiness(j) by {
            lemma_same_readiness(v, ahead, j);
        }
        assert forall|j: int| 0 <= j < n && #[trigger] ahead.passed[j] implies ahead.done[j]
            && ahead.all_met(j) by {
            assert(v.passed[j]);
        }
        lemma_failed_need(v, job, 0);
        if v.done[job] || v.readiness(job) is Wait {
            lemma_seek_step(v);
            lemma_seek(ahead);
        } else if let Readiness::Skip(need) = v.readiness(job) {
            let d = job_index(v.jobs, v.jobs[job].needs[need]);
            assert(v.done[d] && !v.passed[d]);
            lemma_settle(ahead, job, false);
            assert(ahead.end(job, false) == ahead.settle(job, false));
        } else {
            let w = RunnerView { current: Some((job, 0int, true)), ..ahead };
            assert forall|j: int| v.all_met(j) == w.all_met(j) && v.readiness(j)
                == w.readiness(j) by {
                lemma_same_readiness(v, w, j);
            }
            assert(w.inv()) by {
                assert forall|j: int| 0 <= j < n && #[trigger] w.passed[j] implies w.done[j]
                    && w.all_met(j) by {
                    assert(v.passed[j]);
                }
                if v.failed {
                    let j = choose|j: int| 0 <= j < n && #[trigger] v.done[j] && !v.passed[j];
                    assert(w.done[j] && !w.passed[j]);
                }
                assert(forall|j: int|
                    0 <= j < n ==> #[trigger] w.done[j] == v.done[j] && w.passed[j]
                        == v.passed[j]);
                assert(!v.done[job]);
                assert(w.on_time());
            }
        }
    }
}

// ----------------------------------------------------------------------- laws
/// Nothing is done before the first move, and what holds at every point holds
/// there.
pub proof fn law_first(jobs: Seq<JobView>)
    ensures
        RunnerView::initial(jobs).inv(),
{
    let v = RunnerView::initial(jobs);
    lemma_none(v.done);
    assert(forall|j: int| 0 <= j < jobs.len() ==> !v.done[j] && !v.passed[j]);
}

proof fn lemma_none(s: Seq<bool>)
    requires
        forall|j: int| 0 <= j < s.len() ==> !s[j],
    ensures
        count_true(s) == 0,
    decreases s.len(),
{
    if s.len() > 0 {
        lemma_none(s.drop_last());
    }
}

/// Every move keeps what holds at every point, and speaks of jobs, needs and
/// steps that there are.
pub proof fn law_move(v: RunnerView)
    requires
        v.inv(),
    ensures
        v.next().0.inv(),
        v.next().0.jobs == v.jobs,
        is_of(v.next().1, v.jobs),
{
    if !v.stopped {
        match v.current {
            Some((job, step, ok)) => if !(ok && step < v.jobs[job].steps.len()) {
                lemma_settle(v, job, ok);
            },
            None => {
                lemma_seek(v);
            },
        }
    }
}

/// The end of a step, whatever its exit code, keeps what holds at every point.
pub proof fn law_exit(v: RunnerView, rc: int)
    requires
        v.inv(),
        v.awaits_step(),
    ensures
        v.exited(rc).inv(),
        v.exited(rc).jobs == v.jobs,
        v.exited(rc).done == v.done,
        v.exited(rc).passed == v.passed,
{
    lemma_awaits(v);
    let w = v.exited(rc);
    assert forall|j: int| v.all_met(j) == w.all_met(j) && v.readiness(j) == w.readiness(j) by {
        lemma_same_readiness(v, w, j);
    }
    assert forall|j: int| 0 <= j < w.jobs.len() && #[trigger] w.passed[j] implies w.done[j]
        && w.all_met(j) by {
        assert(v.passed[j]);
    }
    if v.failed {
        let j = choose|j: int| 0 <= j < v.jobs.len() && #[trigger] v.done[j] && !v.passed[j];
        assert(w.done[j] && !w.passed[j]);
    }
    assert(forall|j: int|
        0 <= j < w.jobs.len() ==> #[trigger] w.done[j] == v.done[j] && w.passed[j] == v.passed[j]);
}

/// A step is to run only in a job that has begun and has a step left.
pub proof fn lemma_awaits(v: RunnerView)
    requires
        v.inv(),
        v.awaits_step(),
    ensures
        v.current matches Some((job, step, ok)) && ok && step < v.jobs[job].steps.len()
            && v.next().1 == (Move::Step { job, step }),
{
    if v.current is None {
        lemma_seek(v);
    }
}

/// A job begins only when it has not run yet and every job that it needs is
/// done and has passed.
pub proof fn law_needs_come_first(v: RunnerView, job: int)
    requires
        v.inv(),
        v.next().1 == (Move::Start { job }),
    ensures
        0 <= job < v.jobs.len(),
        !v.done[job],
        v.all_met(job),
{
    if v.current is None {
        lemma_seek(v);
    }
}

/// A job one of whose needs has failed neither runs nor begins to run, and the
/// failed job stays failed.
pub proof fn law_failed_need_never_runs(v: RunnerView, job: int, k: int)
    requires
        v.inv(),
        0 <= job < v.jobs.len(),
        0 <= k < v.jobs[job].needs.len(),
        v.is_failed(v.jobs[job].needs[k]),
    ensures
        !v.passed[job],
        v.next().1 != (Move::Start { job }),
        v.current matches Some((running, step, ok)) ==> running != job,
        v.next().0.is_failed(v.jobs[job].needs[k]),
{
    let need = v.jobs[job].needs[k];
    let d = job_index(v.jobs, need);
    if v.all_met(job) {
        assert(v.is_met(need));
    }
    if v.next().1 == (Move::Start { job }) {
        law_needs_come_first(v, job);
    }
    law_done_stays(v, d);
}

/// What is done stays done, and stays passed or not passed.
pub proof fn law_done_stays(v: RunnerView, job: int)
    requires
        v.inv(),
        0 <= job < v.jobs.len(),
        v.done[job],
    ensures
        v.next().0.done[job],
        v.next().0.passed[job] == v.passed[job],
        v.next().0.jobs == v.jobs,
{
    if v.current is None {
        lemma_seek(v);
    }
}

/// When a run finishes that was not cancelled, no job that is left can begin or
/// must be skipped.
pub proof fn law_finish_leaves_nothing(v: RunnerView, job: int)
    requires
        v.inv(),
        !v.stopped,
        v.next().1 is Finish,
        0 <= job < v.jobs.len(),
    ensures
        v.done[job] || v.readiness(job) is Wait,
{
    lemma_seek(v);
}

/// Where the jobs can be ordered, no job is left when a run finishes that was not
/// cancelled.
pub proof fn law_every_job_is_settled(v: RunnerView, job: int)
    requires
        v.inv(),
        !v.stopped,
        v.next().1 is Finish,
        orderable(v.jobs),
        0 <= job < v.jobs.len(),
    ensures
        v.done[job],
{
    if !v.done[job] {
        let j = lemma_one_moves(v);
        law_finish_leaves_nothing(v, j);
    }
}

/// A job one of whose needs has failed is skipped by the time a run finishes that
/// was not cancelled.
pub proof fn law_dependents_of_failed_are_skipped(v: RunnerView, job: int, k: int)
    requires
        v.inv(),
        !v.stopped,
        v.next().1 is Finish,
        0 <= job < v.jobs.len(),
        0 <= k < v.jobs[job].needs.len(),
        v.is_failed(v.jobs[job].needs[k]),
    ensures
        v.done[job],
        !v.passed[job],
{
    law_finish_leaves_nothing(v, job);
    lemma_failed_need(v, job, 0);
    if v.passed[job] {
        assert(v.all_met(job));
        assert(v.is_met(v.jobs[job].needs[k]));
    }
}

/// A cancelled run is at its end: no step and no job begins any more, whatever
/// is asked, and what is done stays as it is.
pub proof fn law_cancelled_run_is_over(v: RunnerView)
    requires
        v.inv(),
    ensures
        v.cancelled().inv(),
        v.cancelled().next() == (v.cancelled(), Move::Finish),
        v.cancelled().done == v.done,
        v.cancelled().passed == v.passed,
{
    let w = v.cancelled();
    assert forall|j: int| v.all_met(j) == w.all_met(j) && v.readiness(j) == w.readiness(j) by {
        lemma_same_readiness(v, w, j);
    }
    assert forall|j: int| 0 <= j < w.jobs.len() && #[trigger] w.passed[j] implies w.done[j]
        && w.all_met(j) by {
        assert(v.passed[j]);
    }
    if v.failed {
        let j = choose|j: int| 0 <= j < v.jobs.len() && #[trigger] v.done[j] && !v.passed[j];
        assert(w.done[j] && !w.passed[j]);
    }
    assert(forall|j: int|
        0 <= j < w.jobs.len() ==> #[trigger] w.done[j] == v.done[j] && w.passed[j] == v.passed[j]);
    if v.all_wait() {
        assert(w.all_wait());
    } else {
        assert(w.on_time());
    }
}

/// Where the jobs can be ordered, a run that finishes without a failure and was
/// not cancelled has passed every job.
pub proof fn law_success_is_complete(v: RunnerView, job: int)
    requires
        v.inv(),
        !v.stopped,
        v.next().1 is Finish,
        orderable(v.jobs),
        !v.failed,
        0 <= job < v.jobs.len(),
    ensures
        v.passed[job],
{
    law_every_job_is_settled(v, job);
}

/// A run fails exactly when a job is done that has not passed.
pub proof fn law_failure(v: RunnerView)
    requires
        v.inv(),
    ensures
        v.failed <==> exists|j: int|
            0 <= j < v.jobs.len() && #[trigger] v.done[j] && !v.passed[j],
{
}

/// Where the run stands after the steps that were to run have ended with
/// `codes`, one after the other.
pub open spec fn after(v: RunnerView, codes: Seq<int>) -> RunnerView
    decreases codes.len(),
{
    if codes.len() == 0 {
        v
    } else {
        after(v, codes.drop_last()).exited(codes.last())
    }
}

proof fn lemma_after(v: RunnerView, job: int, codes: Seq<int>)
    requires
        v.current == Some((job, 0int, true)),
        codes.len() > 0,
    ensures
        after(v, codes).current == Some((job, codes.len() as int, codes.last() == 0)),
        after(v, codes).jobs == v.jobs,
        after(v, codes).stopped == v.stopped,
    decreases codes.len(),
{
    if codes.len() > 1 {
        lemma_after(v, job, codes.drop_last());
    } else {
        assert(after(v, codes.drop_last()) == v);
    }
}

/// As long as the steps of a job succeed, the next one is to run; when the last
/// one has succeeded, the job ends well.
pub proof fn law_job_goes_on(v: RunnerView, job: int, codes: Seq<int>)
    requires
        v.current == Some((job, 0int, true)),
        !v.stopped,
        codes.len() <= v.jobs[job].steps.len(),
        forall|i: int| 0 <= i < codes.len() ==> codes[i] == 0,
    ensures
        codes.len() < v.jobs[job].steps.len() ==> after(v, codes).next().1 == (Move::Step {
            job,
            step: codes.len() as int,
        }),
        codes.len() == v.jobs[job].steps.len() ==> after(v, codes).next().1 == (Move::End {
            job,
            ok: true,
        }),
{
    if codes.len() > 0 {
        lemma_after(v, job, codes);
    }
}

/// A step that fails ends its job, which has then failed.
pub proof fn law_job_stops(v: RunnerView, job: int, codes: Seq<int>)
    requires
        v.current == Some((job, 0int, true)),
        !v.stopped,
        0 < codes.len() <= v.jobs[job].steps.len(),
        codes.last() != 0,
    ensures
        after(v, codes).next().1 == (Move::End { job, ok: false }),
        after(v, codes).next().0.failed,
{
    lemma_after(v, job, codes);
}

impl RunnerView {
    /// How much of a run is left: jobs, then whether one has yet to begin, then
    /// steps of the one that has begun.
    pub open spec fn left(self) -> (int, int, int) {
        match self.current {
            Some((job, step, ok)) => (
                self.jobs.len() - self.executed,
                0,
                self.jobs[job].steps.len() - step,
            ),
            None => (self.jobs.len() - self.executed, 1, 0),
        }
    }
}

/// `b` is less than `a`, and no part of it is negative.
pub open spec fn lowers(a: (int, int, int), b: (int, int, int)) -> bool {
    &&& 0 <= b.0 && 0 <= b.1 && 0 <= b.2
    &&& b.0 < a.0 || (b.0 == a.0 && (b.1 < a.1 || (b.1 == a.1 && b.2 < a.2)))
}

/// A run ends: each move but the last, with the exit of a step where the move
/// is a step, leaves less to do.
pub proof fn law_run_ends(v: RunnerView, rc: int)
    requires
        v.inv(),
    ensures
        v.next().1 is Step ==> lowers(v.left(), v.exited(rc).left()),
        !(v.next().1 is Step) && !(v.next().1 is Finish) ==> lowers(v.left(), v.next().0.left()),
{
    lemma_count(v.done);
    law_move(v);
    lemma_count(v.next().0.done);
    if !v.stopped {
        match v.current {
            Some((job, step, ok)) => {
                if v.next().1 is Step {
                    lemma_awaits(v);
                } else {
                    lemma_count_set(v.done, job);
                }
            },
            None => {
                lemma_seek(v);
            },
        }
    }
}

/// The job at `d` is the first one with the name `name`.
pub open spec fn is_first(jobs: Seq<JobView>, d: int, name: Seq<char>) -> bool {
    &&& 0 <= d < jobs.len()
    &&& jobs[d].name == name
    &&& forall|j: int| 0 <= j < d ==> (#[trigger] jobs[j]).name != name
}

proof fn lemma_first(jobs: Seq<JobView>, d: int, name: Seq<char>)
    ensures
        is_first(jobs, d, name) <==> d == job_index(jobs, name) && d < jobs.len(),
{
    lemma_job_index(jobs, name);
    let i = job_index(jobs, name);
    if is_first(jobs, d, name) && d != i {
        if i < d {
            assert(jobs[i].name != name);
        } else {
            assert(jobs[d].name != name);
        }
    }
}

/// What was found at the next move could be found where the run stands.
proof fn lemma_found(v: RunnerView)
    requires
        v.inv(),
        v.current is None,
    ensures
        v.seek().1 matches Move::Start { job } ==> 0 <= job < v.jobs.len() && v.readiness(
            job,
        ) is Ready,
        v.seek().1 matches Move::Skip { job, need } ==> 0 <= job < v.jobs.len() && v.readiness(job)
            == Readiness::Skip(need),
        v.seek().0.stopped == v.stopped,
        v.seek().1 is Skip ==> v.seek().0.failed == v.failed,
    decreases v.jobs.len() - v.pass, v.jobs.len() - v.cursor,
{
    let n = v.jobs.len();
    if v.pass < n && !(v.cursor == 0 && v.executed == n) && (v.cursor >= n || v.done[v.cursor]
        || v.readiness(v.cursor) is Wait) {
        let w = step_ahead(v);
        lemma_seek_step(v);
        lemma_found(w);
        lemma_seek(w);
        assert forall|j: int| v.readiness(j) == w.readiness(j) by {
            lemma_same_readiness(v, w, j);
        }
    }
}

/// Before the first move of a run nothing is done, nothing has failed and nothing
/// has been cancelled.
pub proof fn law_fresh_run(jobs: Seq<JobView>, job: int)
    requires
        0 <= job < jobs.len(),
    ensures
        RunnerView::initial(jobs).jobs == jobs,
        !RunnerView::initial(jobs).done[job],
        !RunnerView::initial(jobs).passed[job],
        !RunnerView::initial(jobs).failed,
        !RunnerView::initial(jobs).stopped,
        RunnerView::initial(jobs).current is None,
        RunnerView::initial(jobs).code() == 0,
{
}

/// When a job begins, each of its needs names a job that is done and has passed; of
/// several jobs with one name the first counts. Its first step is then to run, and
/// nothing else has changed.
pub proof fn law_begun_job_has_what_it_needs(v: RunnerView, job: int, k: int)
    requires
        v.inv(),
        v.next().1 == (Move::Start { job }),
    ensures
        0 <= job < v.jobs.len(),
        !v.done[job],
        0 <= k < v.jobs[job].needs.len() ==> exists|d: int| #[trigger]
            is_first(v.jobs, d, v.jobs[job].needs[k]) && v.done[d] && v.passed[d],
        v.next().0.current == Some((job, 0int, true)),
        v.next().0.done == v.done,
        v.next().0.passed == v.passed,
        v.jobs[job].steps.len() > 0 ==> v.next().0.next().1 == (Move::Step { job, step: 0 }),
{
    lemma_seek(v);
    lemma_found(v);
    if 0 <= k < v.jobs[job].needs.len() {
        let need = v.jobs[job].needs[k];
        assert(v.is_met(need));
        lemma_first(v.jobs, job_index(v.jobs, need), need);
    }
}

/// A job is skipped when one of its needs names a job that is done and has not
/// passed, and the first such need is told. It is then done and has not passed,
/// and no other job has changed.
pub proof fn law_skipped_job_lacks_a_need(v: RunnerView, job: int, need: int)
    requires
        v.inv(),
        v.next().1 == (Move::Skip { job, need }),
    ensures
        0 <= job < v.jobs.len(),
        !v.done[job],
        0 <= need < v.jobs[job].needs.len(),
        exists|d: int| #[trigger]
            is_first(v.jobs, d, v.jobs[job].needs[need]) && v.done[d] && !v.passed[d],
        forall|k: int, d: int|
            0 <= k < need && #[trigger] is_first(v.jobs, d, v.jobs[job].needs[k]) && v.done[d]
                ==> v.passed[d],
        v.next().0.current is None,
        v.next().0.done == v.done.update(job, true),
        v.next().0.passed == v.passed.update(job, false),
        v.failed && v.next().0.failed,
{
    lemma_seek(v);
    lemma_found(v);
    lemma_failed_need(v, job, 0);
    let name = v.jobs[job].needs[need];
    let first = job_index(v.jobs, name);
    lemma_first(v.jobs, first, name);
    assert(v.done[first] && !v.passed[first]);
    assert forall|k: int, d: int|
        0 <= k < need && #[trigger] is_first(v.jobs, d, v.jobs[job].needs[k])
            && v.done[d] implies v.passed[d] by {
        lemma_first(v.jobs, d, v.jobs[job].needs[k]);
        assert(!v.is_failed(v.jobs[job].needs[k]));
    }
}

/// A job that is left when a run finishes that was not cancelled needs a job that
/// is not done or that there is not, and no job that has failed.
pub proof fn law_job_left_has_no_chance(v: RunnerView, job: int)
    requires
        v.inv(),
        !v.stopped,
        v.next().1 is Finish,
        0 <= job < v.jobs.len(),
        !v.done[job],
    ensures
        exists|k: int|
            0 <= k < v.jobs[job].needs.len() && forall|d: int| #[trigger]
                is_first(v.jobs, d, #[trigger] v.jobs[job].needs[k]) ==> !v.done[d],
        forall|k: int, d: int|
            0 <= k < v.jobs[job].needs.len() && #[trigger] is_first(
                v.jobs,
                d,
                v.jobs[job].needs[k],
            ) && v.done[d] ==> v.passed[d],
{
    law_finish_leaves_nothing(v, job);
    lemma_failed_need(v, job, 0);
    let needs = v.jobs[job].needs;
    let k = choose|k: int| 0 <= k < needs.len() && !v.is_met(#[trigger] needs[k]);
    assert(!v.is_failed(v.jobs[job].needs[k]));
    assert forall|d: int| #[trigger] is_first(v.jobs, d, v.jobs[job].needs[k]) implies !v.done[d] by {
        lemma_first(v.jobs, d, v.jobs[job].needs[k]);
    }
    assert forall|k: int, d: int|
        0 <= k < needs.len() && #[trigger] is_first(v.jobs, d, v.jobs[job].needs[k])
            && v.done[d] implies v.passed[d] by {
        lemma_first(v.jobs, d, v.jobs[job].needs[k]);
        assert(!v.is_failed(v.jobs[job].needs[k]));
    }
}

/// Going through the jobs from `from` on, and from the first on behind the last,
/// `j` comes before `job`.
pub open spec fn comes_before(from: int, j: int, job: int) -> bool {
    from <= j < job || (job < from && (j < job || from <= j))
}

proof fn lemma_in_line(v: RunnerView, j: int)
    requires
        v.inv(),
        v.current is None,
        0 <= j < v.jobs.len(),
    ensures
        v.seek().1 matches Move::Start { job } && comes_before(v.cursor, j, job) ==> v.done[j]
            || v.readiness(j) is Wait,
        v.seek().1 matches Move::Skip { job, need } && comes_before(v.cursor, j, job) ==> v.done[j]
            || v.readiness(j) is Wait,
    decreases v.jobs.len() - v.pass, v.jobs.len() - v.cursor,
{
    let n = v.jobs.len();
    if v.pass < n && !(v.cursor == 0 && v.executed == n) && (v.cursor >= n || v.done[v.cursor]
        || v.readiness(v.cursor) is Wait) {
        let w = step_ahead(v);
        lemma_seek_step(v);
        lemma_seek(w);
        lemma_in_line(w, j);
        lemma_same_readiness(v, w, j);
    }
}

/// The jobs take their turns in the order of the pipeline: those that come before
/// the one that begins or is skipped are done, or one of their needs names a job that
/// is not done or that there is not.
pub proof fn law_jobs_take_turns(v: RunnerView, job: int, need: int, j: int)
    requires
        v.inv(),
        v.next().1 == (Move::Start { job }) || v.next().1 == (Move::Skip { job, need }),
        0 <= j < v.jobs.len(),
        comes_before(v.cursor, j, job),
        !v.done[j],
    ensures
        exists|k: int|
            0 <= k < v.jobs[j].needs.len() && forall|d: int| #[trigger]
                is_first(v.jobs, d, #[trigger] v.jobs[j].needs[k]) ==> !v.done[d],
        v.next().0.cursor == job + 1,
{
    lemma_in_line(v, j);
    lemma_cursor(v);
    lemma_failed_need(v, j, 0);
    let needs = v.jobs[j].needs;
    let k = choose|k: int| 0 <= k < needs.len() && !v.is_met(#[trigger] needs[k]);
    assert(!v.is_failed(v.jobs[j].needs[k]));
    assert forall|d: int| #[trigger] is_first(v.jobs, d, v.jobs[j].needs[k]) implies !v.done[d] by {
        lemma_first(v.jobs, d, v.jobs[j].needs[k]);
    }
}

proof fn lemma_cursor(v: RunnerView)
    requires
        v.inv(),
        v.current is None,
    ensures
        v.seek().1 matches Move::Start { job } ==> v.seek().0.cursor == job + 1,
        v.seek().1 matches Move::Skip { job, need } ==> v.seek().0.cursor == job + 1,
    decreases v.jobs.len() - v.pass, v.jobs.len() - v.cursor,
{
    let n = v.jobs.len();
    if v.pass < n && !(v.cursor == 0 && v.executed == n) && (v.cursor >= n || v.done[v.cursor]
        || v.readiness(v.cursor) is Wait) {
        let w = step_ahead(v);
        lemma_seek_step(v);
        lemma_cursor(w);
    }
}

/// A job that ends is done, has passed exactly when it ends well, and no other job
/// has changed; the run has failed from then on where it ends badly.
pub proof fn law_ended_job_is_done(v: RunnerView, job: int, ok: bool)
    requires
        v.inv(),
        v.next().1 == (Move::End { job, ok }),
    ensures
        v.next().0.done == v.done.update(job, true),
        v.next().0.passed == v.passed.update(job, ok),
        v.next().0.failed == (v.failed || !ok),
        v.next().0.current is None,
        v.current matches Some((running, step, well)) && running == job && well == ok,
        ok ==> (v.current->0).1 == v.jobs[job].steps.len(),
{
    if v.current is None {
        lemma_seek(v);
    }
}

/// The exit code of a run is 0 exactly when it was not cancelled and every job that
/// is done has passed, and 1 otherwise.
pub proof fn law_exit_code_tells_the_result(v: RunnerView)
    requires
        v.inv(),
    ensures
        v.code() == 0 <==> !v.stopped && forall|j: int|
            0 <= j < v.jobs.len() && #[trigger] v.done[j] ==> v.passed[j],
        v.code() == 0 || v.code() == 1,
        v.cancelled().code() == 1,
        v.cancelled().stopped,
{
}

/// Where the jobs can be ordered, a run that finishes has the exit code 0 exactly
/// when it was not cancelled and every job has passed.
pub proof fn law_run_succeeds_with_its_jobs(v: RunnerView)
    requires
        v.inv(),
        v.next().1 is Finish,
        orderable(v.jobs),
    ensures
        v.code() == 0 <==> !v.stopped && forall|j: int|
            0 <= j < v.jobs.len() ==> #[trigger] v.passed[j],
{
    if !v.stopped {
        if v.code() == 0 {
            assert forall|j: int| 0 <= j < v.jobs.len() implies #[trigger] v.passed[j] by {
                law_success_is_complete(v, j);
            }
        }
    }
}

// --------------------------------------------------------------------- runner
/// What is to be done next in a run.
#[derive(Debug, Clone, Copy, PartialEq, Eq, Structural)]
pub enum Action {
    /// Note that the job is skipped, since the job that its need at `need`
    /// names did not pass.
    Skip { job: usize, need: usize },
    /// Note that the job begins.
    Start { job: usize },
    /// Run the step of the job, and report its exit code.
    Step { job: usize, step: usize },
    /// Note that the job has ended.
    End { job: usize, ok: bool },
    /// Nothing more.
    Finish,
}

impl View for Action {
    type V = Move;

    open spec fn view(&self) -> Move {
        match self {
            Action::Skip { job, need } => Move::Skip { job: *job as int, need: *need as int },
            Action::Start { job } => Move::Start { job: *job as int },
            Action::Step { job, step } => Move::Step { job: *job as int, step: *step as int },
            Action::End { job, ok } => Move::End { job: *job as int, ok: *ok },
            Action::Finish => Move::Finish,
        }
    }
}

/// A run of a pipeline.
pub struct Runner {
    pipeline: Pipeline,
    done: Vec<bool>,
    passed: Vec<bool>,
    failed: bool,
    executed: usize,
    pass: usize,
    cursor: usize,
    current: Option<(usize, usize, bool)>,
    stopped: bool,
}

/// Whether a job can run.
enum Ready {
    Wait,
    Skip(usize),
    Now,
}

impl View for Runner {
    type V = RunnerView;

    closed spec fn view(&self) -> RunnerView {
        RunnerView {
            jobs: jobs_view(self.pipeline.jobs@),
            done: self.done@,
            passed: self.passed@,
            failed: self.failed,
            executed: self.executed as int,
            pass: self.pass as int,
            cursor: self.cursor as int,
            current: match self.current {
                Some((job, step, ok)) => Some((job as int, step as int, ok)),
                None => None,
            },
            stopped: self.stopped,
        }
    }
}

impl Runner {
    /// The pipeline is well-formed.
    pub closed spec fn wf(&self) -> bool {
        self.pipeline.wf()
    }

    /// A run of `pipeline` in which nothing is done.
    pub fn new(pipeline: Pipeline) -> (r: Runner)
        ensures
            r@ == RunnerView::initial(pipeline@.jobs),
            r@.inv(),
            r.wf() == pipeline.wf(),
    {
        let n = pipeline.jobs.len();
        let mut done: Vec<bool> = Vec::new();
        let mut passed: Vec<bool> = Vec::new();
        let mut i: usize = 0;
        while i < n
            invariant
                i <= n,
                done.len() == i,
                passed.len() == i,
                forall|j: int| 0 <= j < i ==> !done@[j] && !passed@[j],
            decreases n - i,
        {
            done.push(false);
            passed.push(false);
            i += 1;
        }
        let r = Runner {
            pipeline,
            done,
            passed,
            failed: false,
            executed: 0,
            pass: 0,
            cursor: 0,
            current: None,
            stopped: false,
        };
        proof {
            let v = RunnerView::initial(pipeline@.jobs);
            assert(r@.done =~= v.done);
            assert(r@.passed =~= v.passed);
            law_first(pipeline@.jobs);
        }
        r
    }

    /// The place of the job named `name`.
    fn find_job(&self, name: &str) -> (r: Option<usize>)
        ensures
            match r {
                Some(d) => d == job_index(self@.jobs, name@) && d < self@.jobs.len(),
                None => job_index(self@.jobs, name@) >= self@.jobs.len(),
            },
    {
        let ghost jobs = self@.jobs;
        let mut i: usize = 0;
        assert(jobs.skip(0) =~= jobs);
        while i < self.pipeline.jobs.len()
            invariant
                i <= self.pipeline.jobs@.len(),
                jobs == jobs_view(self.pipeline.jobs@),
                jobs == self@.jobs,
                job_index(jobs, name@) == i + job_index(jobs.skip(i as int), name@),
            decreases self.pipeline.jobs.len() - i,
        {
            assert(jobs.skip(i as int).skip(1) =~= jobs.skip(i + 1));
            assert(jobs.skip(i as int)[0] == self.pipeline.jobs@[i as int]@);
            if same(self.pipeline.jobs[i].name.as_str(), name) {
                return Some(i);
            }
            i += 1;
        }
        None
    }

    /// Whether the job at `job` can run.
    fn ready(&self, job: usize) -> (r: Ready)
        requires
            self@.inv(),
            job < self@.jobs.len(),
        ensures
            match r {
                Ready::Wait => self@.readiness(job as int) is Wait,
                Ready::Skip(need) => self@.readiness(job as int) == Readiness::Skip(need as int),
                Ready::Now => self@.readiness(job as int) is Ready,
            },
    {
        let ghost v = self@;
        let ghost j = job as int;
        let mut waits = false;
        let mut k: usize = 0;
        let needs = &self.pipeline.jobs[job].needs;
        assert(v.jobs[j].needs == strings(needs@));
        while k < needs.len()
            invariant
                k <= needs.len(),
                v == self@,
                v.inv(),
                j == job as int,
                0 <= j < v.jobs.len(),
                v.jobs[j].needs == strings(needs@),
                v.failed_need(j, 0) == v.failed_need(j, k as int),
                waits <==> exists|i: int|
                    0 <= i < k && !v.is_met(#[trigger] v.jobs[j].needs[i]),
            decreases needs.len() - k,
        {
            let need = needs[k].as_str();
            assert(v.jobs[j].needs[k as int] == need@);
            match self.find_job(need) {
                None => {
                    assert(!v.is_met(v.jobs[j].needs[k as int]));
                    waits = true;
                },
                Some(d) => {
                    if !self.done[d] {
                        assert(!v.is_met(v.jobs[j].needs[k as int]));
                        waits = true;
                    } else if !self.passed[d] {
                        assert(v.is_failed(v.jobs[j].needs[k as int]));
                        return Ready::Skip(k);
                    } else {
                        assert(v.is_met(v.jobs[j].needs[k as int]));
                    }
                },
            }
            k += 1;
        }
        if waits {
            assert(!v.all_met(j));
            Ready::Wait
        } else {
            assert(v.all_met(j));
            Ready::Now
        }
    }

    /// Decides what is to be done next.
    pub fn next(&mut self) -> (r: Action)
        requires
            old(self)@.inv(),
        ensures
            final(self)@ == old(self)@.next().0,
            r@ == old(self)@.next().1,
            final(self)@.inv(),
            is_of(r@, final(self)@.jobs),
            final(self).wf() == old(self).wf(),
    {
        let ghost start = self@;
        proof {
            law_move(start);
        }
        if self.stopped {
            return Action::Finish;
        }
        if let Some((job, step, ok)) = self.current {
            let steps = self.pipeline.jobs[job].steps.len();
            assert(start.jobs[job as int].steps == steps_view(
                self.pipeline.jobs@[job as int].steps@,
            ));
            if ok && step < steps {
                return Action::Step { job, step };
            }
            assert(start.current == Some((job as int, step as int, ok)));
            proof {
                lemma_count(start.next().0.done);
            }
            assert(start.next().0.executed == self.executed + 1);
            assert(start.next().0.done.len() == self.done.len());
            self.done.set(job, true);
            self.passed.set(job, ok);
            self.executed = self.executed + 1;
            if !ok {
                self.failed = true;
            }
            self.current = None;
            assert(self@ == start.next().0);
            return Action::End { job, ok };
        }
        let n = self.pipeline.jobs.len();
        while self.pass < n
            invariant
                n == self@.jobs.len(),
                start == old(self)@,
                start.next() == self@.seek(),
                self@.inv(),
                self@.current is None,
                !self@.stopped,
                self@.jobs == start.jobs,
                self.wf() == old(self).wf(),
            decreases n - self.pass, n - self.cursor,
        {
            let ghost v = self@;
            if self.cursor >= n {
                self.pass = self.pass + 1;
                self.cursor = 0;
                proof {
                    lemma_seek_step(v);
                }
                continue;
            }
            if self.cursor == 0 && self.executed == n {
                return Action::Finish;
            }
            let job = self.cursor;
            let ready = if self.done[job] {
                Ready::Wait
            } else {
                self.ready(job)
            };
            match ready {
                Ready::Wait => {
                    proof {
                        lemma_seek_step(v);
                    }
                    self.cursor = job + 1;
                },
                Ready::Skip(need) => {
                    proof {
                        lemma_seek(v);
                        lemma_count(v.seek().0.done);
                    }
                    self.cursor = job + 1;
                    self.done.set(job, true);
                    self.passed.set(job, false);
                    self.executed = self.executed + 1;
                    assert(self@ == v.seek().0);
                    return Action::Skip { job, need };
                },
                Ready::Now => {
                    proof {
                        lemma_seek(v);
                    }
                    self.cursor = job + 1;
                    self.current = Some((job, 0, true));
                    assert(self@ == v.seek().0);
                    return Action::Start { job };
                },
            }
        }
        Action::Finish
    }

    /// Takes note that the step that was to run has ended with the exit code
    /// `rc`.
    pub fn exited(&mut self, rc: i32)
        requires
            old(self)@.inv(),
            old(self)@.awaits_step(),
        ensures
            final(self)@ == old(self)@.exited(rc as int),
            final(self)@.inv(),
            final(self).wf() == old(self).wf(),
    {
        proof {
            lemma_awaits(self@);
            law_exit(self@, rc as int);
        }
        if let Some((job, step, ok)) = self.current {
            assert(self@.jobs[job as int].steps == steps_view(
                self.pipeline.jobs@[job as int].steps@,
            ));
            let steps = self.pipeline.jobs[job].steps.len();
            assert(step < steps);
            self.current = Some((job, step + 1, rc == 0));
        }
    }

    /// Cancels the run: nothing more is to be done.
    pub fn cancel(&mut self)
        requires
            old(self)@.inv(),
        ensures
            final(self)@ == old(self)@.cancelled(),
            final(self)@.inv(),
            final(self)@.next().1 is Finish,
            final(self).wf() == old(self).wf(),
    {
        proof {
            law_cancelled_run_is_over(self@);
        }
        self.stopped = true;
    }

    /// Whether the run was cancelled.
    pub fn is_cancelled(&self) -> (r: bool)
        ensures
            r == self@.stopped,
    {
        self.stopped
    }

    /// The exit code of the run: 1 where a job failed or the run was cancelled.
    pub fn result(&self) -> (r: i32)
        ensures
            r == if self@.failed || self@.stopped {
                1i32
            } else {
                0i32
            },
            r == self@.code(),
    {
        if self.failed || self.stopped {
            1
        } else {
            0
        }
    }

    /// The job at `job`.
    pub fn job(&self, job: usize) -> (r: &Job)
        requires
            job < self@.jobs.len(),
        ensures
            r@ == self@.jobs[job as int],
            self.wf() ==> r.wf(),
    {
        &self.pipeline.jobs[job]
    }
}

} // verus!
