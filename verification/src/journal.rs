//! What the log of a run says, and how a step is set up and judged.

use vstd::prelude::*;
use vstd::string::*;

use crate::number::{
    decimal, digits, i32_text, integer, law_integer_round_trip, lemma_digits, u64_text,
};
use crate::paths::{join_path, path_join};
use crate::pipeline::{assign, assignments, names_differ, Job, JobView, Step, StepView};
use crate::runner::{is_of, lemma_awaits, Action, Move, Runner, RunnerView};
use crate::text::{lemma_lines_concat, lemma_one_line, lines_of, without_cr};

verus! {

// ---------------------------------------------------------------------- steps
/// How a step ended.
#[derive(Debug, Clone, Copy, PartialEq, Eq, Structural)]
pub enum StepEnd {
    /// The command has ended, with an exit code unless a signal ended it.
    Exited { code: Option<i32> },
    /// The command was stopped, or not started any more, because the time of its
    /// job was up.
    Stopped,
    /// The end of the command could not be awaited.
    Lost,
    /// The command could not be started.
    NotStarted,
}

/// The exit code that a step counts with.
pub open spec fn end_code(end: StepEnd) -> i32 {
    match end {
        StepEnd::Exited { code: Some(n) } => n,
        StepEnd::Exited { code: None } => 1,
        StepEnd::Stopped => 124,
        StepEnd::Lost => 1,
        StepEnd::NotStarted => 127,
    }
}

/// The exit code that a step counts with.
pub fn exit_code(end: StepEnd) -> (r: i32)
    ensures
        r == end_code(end),
        end matches StepEnd::Exited { code: Some(n) } ==> r == n,
        r == 0 <==> end == (StepEnd::Exited { code: Some(0) }),
{
    match end {
        StepEnd::Exited { code: Some(n) } => n,
        StepEnd::Exited { code: None } => 1,
        StepEnd::Stopped => 124,
        StepEnd::Lost => 1,
        StepEnd::NotStarted => 127,
    }
}

/// How many of the `limit` seconds of a job are left when `spent` have gone by; a
/// limit of 0 is none.
pub open spec fn time_left(limit: nat, spent: nat) -> Option<nat> {
    if limit == 0 {
        None
    } else if spent < limit {
        Some((limit - spent) as nat)
    } else {
        Some(0)
    }
}

/// How many seconds the next step of a job may take when the job has taken
/// `spent`; where the job has no limit, nothing is said.
pub fn step_limit(job: &Job, spent: u64) -> (r: Option<u64>)
    ensures
        r is None <==> job.timeout == 0,
        r matches Some(n) ==> n == if spent < job.timeout {
            job.timeout - spent
        } else {
            0
        },
        r matches Some(n) ==> time_left(job.timeout as nat, spent as nat) == Some(n as nat),
{
    if job.timeout == 0 {
        None
    } else if spent < job.timeout {
        Some(job.timeout - spent)
    } else {
        Some(0)
    }
}

/// How much time steps took together.
pub open spec fn total_time(times: Seq<nat>) -> nat
    decreases times.len(),
{
    if times.len() == 0 {
        0
    } else {
        total_time(times.drop_last()) + times.last()
    }
}

/// A job whose steps take no more than what is left of its time before each of
/// them keeps its limit.
pub proof fn law_job_keeps_its_limit(limit: nat, times: Seq<nat>)
    requires
        limit > 0,
        forall|k: int|
            0 <= k < times.len() ==> #[trigger] times[k] <= time_left(
                limit,
                total_time(times.take(k)),
            )->0,
    ensures
        total_time(times) <= limit,
    decreases times.len(),
{
    if times.len() > 0 {
        let front = times.drop_last();
        assert forall|k: int| 0 <= k < front.len() implies #[trigger] front[k] <= time_left(
            limit,
            total_time(front.take(k)),
        )->0 by {
            assert(front.take(k) =~= times.take(k));
            assert(times[k] == front[k]);
        }
        law_job_keeps_its_limit(limit, front);
        assert(times.take(times.len() - 1) =~= front);
        assert(times[times.len() - 1] == times.last());
    }
}

/// What a job has taken and what is left to it are together its limit, until the
/// limit is used up; from then on nothing is left. Only a job without a limit may go
/// on for ever.
pub proof fn law_time_left_is_the_rest(limit: nat, spent: nat)
    ensures
        time_left(limit, spent) is None <==> limit == 0,
        time_left(limit, spent) is Some && spent <= limit ==> spent + time_left(limit, spent)->0
            == limit,
        time_left(limit, spent) is Some && spent >= limit ==> time_left(limit, spent)->0 == 0,
{
}

/// A command that has ended with an exit code counts with that code, whatever it
/// is.
pub proof fn law_command_counts_with_its_code(n: i32)
    ensures
        end_code(StepEnd::Exited { code: Some(n) }) == n,
{
}

/// A step succeeds only where its command has ended by itself with exit code 0.
pub proof fn law_only_exit_code_zero_succeeds(end: StepEnd)
    ensures
        end_code(end) == 0 <==> end == (StepEnd::Exited { code: Some(0) }),
{
}

/// However else a step ends, the next move of the run is the end of its job as
/// failed, and the run has failed.
pub proof fn law_other_ends_fail_the_job(v: RunnerView, job: int, step: int, end: StepEnd)
    requires
        v.inv(),
        v.next().1 == (Move::Step { job, step }),
        end != (StepEnd::Exited { code: Some(0) }),
    ensures
        v.exited(end_code(end) as int).next().1 == (Move::End { job, ok: false }),
        v.exited(end_code(end) as int).next().0.done[job],
        !v.exited(end_code(end) as int).next().0.passed[job],
        v.exited(end_code(end) as int).next().0.failed,
{
    lemma_awaits(v);
}

/// A step whose command ends with exit code 0 is followed by the next step of its
/// job, or by the end of the job as passed where there is none.
pub proof fn law_exit_code_zero_goes_on(v: RunnerView, job: int, step: int)
    requires
        v.inv(),
        v.next().1 == (Move::Step { job, step }),
    ensures
        ({
            let w = v.exited(end_code(StepEnd::Exited { code: Some(0) }) as int);
            if step + 1 < v.jobs[job].steps.len() {
                w.next().1 == (Move::Step { job, step: step + 1 })
            } else {
                &&& w.next().1 == (Move::End { job, ok: true })
                &&& w.next().0.passed[job]
                &&& w.next().0.failed == v.failed
            }
        }),
{
    lemma_awaits(v);
}

/// A job whose time is up ends as a failed job.
pub proof fn law_stopped_step_fails_its_job(v: RunnerView, job: int, step: int)
    requires
        v.inv(),
        v.next().1 == (Move::Step { job, step }),
    ensures
        v.exited(end_code(StepEnd::Stopped) as int).next().1 == (Move::End { job, ok: false }),
        v.exited(end_code(StepEnd::Stopped) as int).next().0.failed,
{
    lemma_awaits(v);
}

/// The directory in which the steps of a job run.
pub open spec fn job_dir(workdir: Seq<char>, repo_root: Seq<char>) -> Seq<char> {
    if workdir.len() == 0 {
        repo_root
    } else {
        path_join(repo_root, workdir)
    }
}

/// The directory in which the steps of a job run.
pub fn step_dir(job: &Job, repo_root: &str) -> (r: String)
    ensures
        r@ == job_dir(job@.workdir, repo_root@),
{
    if job.workdir.as_str().is_empty() {
        repo_root.to_string()
    } else {
        join_path(repo_root, job.workdir.as_str())
    }
}

/// Steps run at the root of the repository or below it, unless their job names an
/// absolute directory, which is then where they run.
pub proof fn law_step_directory(workdir: Seq<char>, repo_root: Seq<char>)
    ensures
        workdir.len() == 0 ==> job_dir(workdir, repo_root) == repo_root,
        workdir.len() > 0 && workdir[0] == '/' ==> job_dir(workdir, repo_root) == workdir,
        workdir.len() > 0 && workdir[0] != '/' ==> {
            let d = job_dir(workdir, repo_root);
            &&& d.take(repo_root.len() as int) == repo_root
            &&& d.skip(d.len() - workdir.len()) == workdir
            &&& repo_root.len() > 0 && repo_root.last() != '/' ==> d == repo_root + seq!['/']
                + workdir
        },
{
    reveal_strlit("/");
    let d = job_dir(workdir, repo_root);
    if workdir.len() > 0 && workdir[0] != '/' {
        assert(d.take(repo_root.len() as int) =~= repo_root);
        assert(d.skip(d.len() - workdir.len()) =~= workdir);
        assert("/"@ =~= seq!['/']);
    }
}

/// The variables that every step has.
pub open spec fn base_env(repo_root: Seq<char>) -> Map<Seq<char>, Seq<char>> {
    Map::empty().insert("HEP_CI"@, "1"@).insert("HEP_REPO"@, repo_root)
}

/// The variables of the steps of a job: those of the job come before those that
/// every step has.
pub fn step_env(job: &Job, repo_root: &str) -> (r: Vec<(String, String)>)
    ensures
        names_differ(r@),
        assignments(r@) == base_env(repo_root@).union_prefer_right(job@.env),
{
    let mut out: Vec<(String, String)> = Vec::new();
    assign(&mut out, "HEP_CI".to_string(), "1".to_string());
    assign(&mut out, "HEP_REPO".to_string(), repo_root.to_string());
    let ghost base = base_env(repo_root@);
    let mut i: usize = 0;
    assert(assignments(job.env@.take(0)) =~= Map::empty());
    assert(assignments(out@) =~= base.union_prefer_right(assignments(job.env@.take(0))));
    while i < job.env.len()
        invariant
            i <= job.env.len(),
            names_differ(out@),
            assignments(out@) == base.union_prefer_right(assignments(job.env@.take(i as int))),
        decreases job.env.len() - i,
    {
        let ghost before = assignments(job.env@.take(i as int));
        let name = job.env[i].0.clone();
        let value = job.env[i].1.clone();
        proof {
            assert(job.env@.take(i + 1).drop_last() =~= job.env@.take(i as int));
            assert(base.union_prefer_right(before).insert(name@, value@)
                =~= base.union_prefer_right(before.insert(name@, value@)));
        }
        assign(&mut out, name, value);
        i += 1;
    }
    assert(job.env@.take(i as int) =~= job.env@);
    out
}

/// A step has the variables that its job sets, with the values that it sets them
/// to; of others it has `HEP_CI`, which is 1, and `HEP_REPO`, which is the root of
/// the repository, and no more.
pub proof fn law_step_variables(env: Map<Seq<char>, Seq<char>>, repo_root: Seq<char>, name: Seq<char>)
    ensures
        ({
            let all = base_env(repo_root).union_prefer_right(env);
            &&& env.contains_key(name) ==> all.contains_key(name) && all[name] == env[name]
            &&& !env.contains_key(name) ==> (all.contains_key(name) <==> name == "HEP_CI"@ || name
                == "HEP_REPO"@)
            &&& !env.contains_key("HEP_CI"@) ==> all["HEP_CI"@] == seq!['1']
            &&& !env.contains_key("HEP_REPO"@) ==> all["HEP_REPO"@] == repo_root
        }),
{
    reveal_strlit("1");
    reveal_strlit("HEP_CI");
    reveal_strlit("HEP_REPO");
    assert("HEP_CI"@.len() != "HEP_REPO"@.len());
    assert("1"@ =~= seq!['1']);
}

// ------------------------------------------------------------------- the log
/// The double line that opens and closes a log.
pub open spec fn rule() -> Seq<char> {
    "════════════════════════════════════════"@
}

/// The head of a log.
pub open spec fn head_text(
    run_id: Seq<char>,
    pipeline: Seq<char>,
    started: Seq<char>,
    repo: Seq<char>,
) -> Seq<char> {
    "hep-ci run "@ + run_id + "\npipeline: "@ + pipeline + "\nstarted:  "@ + started
        + "\nrepo:     "@ + repo + "\n"@ + rule() + "\n"@
}

/// The head of a log.
pub fn run_header(run_id: &str, pipeline: &str, started: &str, repo: &str) -> (r: String)
    ensures
        r@ == head_text(run_id@, pipeline@, started@, repo@),
        r@ == "hep-ci run "@ + run_id@ + "\npipeline: "@ + pipeline@ + "\nstarted:  "@ + started@
            + "\nrepo:     "@ + repo@ + "\n"@ + rule() + "\n"@,
{
    let mut out = "hep-ci run ".to_string();
    out.append(run_id);
    out.append("\npipeline: ");
    out.append(pipeline);
    out.append("\nstarted:  ");
    out.append(started);
    out.append("\nrepo:     ");
    out.append(repo);
    out.append("\n");
    out.append("════════════════════════════════════════");
    out.append("\n");
    out
}

/// The word for the outcome of a job or a run.
pub open spec fn outcome(ok: bool) -> Seq<char> {
    if ok {
        "PASS"@
    } else {
        "FAIL"@
    }
}

/// The word for the outcome of a job or a run.
pub fn outcome_word(ok: bool) -> (r: &'static str)
    ensures
        r@ == outcome(ok),
{
    if ok {
        "PASS"
    } else {
        "FAIL"
    }
}

/// The foot of the log of a run that took `seconds`.
pub open spec fn foot_text(finished: Seq<char>, seconds: nat, code: i32) -> Seq<char> {
    "\n"@ + rule() + "\nfinished: "@ + finished + "\nduration: "@ + digits(seconds)
        + "s\nresult:   "@ + outcome(code == 0) + "\n"@
}

/// The foot of the log of a run that took from `start` to `end`.
pub fn run_footer(finished: &str, start: u64, end: u64, code: i32) -> (r: String)
    requires
        start <= end,
    ensures
        r@ == "\n"@ + rule() + "\nfinished: "@ + finished@ + "\nduration: "@ + digits(
            (end - start) as nat,
        ) + "s\nresult:   "@ + outcome(code == 0) + "\n"@,
        r@ == foot_text(finished@, (end - start) as nat, code),
{
    let mut out = "\n".to_string();
    out.append("════════════════════════════════════════");
    out.append("\nfinished: ");
    out.append(finished);
    out.append("\nduration: ");
    let seconds = u64_text(end - start);
    out.append(seconds.as_str());
    out.append("s\nresult:   ");
    out.append(outcome_word(code == 0));
    out.append("\n");
    out
}

/// What the log says before the output of a step.
pub open spec fn step_head(step: StepView) -> Seq<char> {
    "\n── step: "@ + step.name + " ──\n$ "@ + step.run + "\n"@
}

/// What the log says before the output of a step.
pub fn step_header(step: &Step) -> (r: String)
    ensures
        r@ == step_head(step@),
{
    let mut out = "\n── step: ".to_string();
    out.append(step.name.as_str());
    out.append(" ──\n$ ");
    out.append(step.run.as_str());
    out.append("\n");
    out
}

/// What the log says of a command that could not be started.
pub open spec fn spawn_text(error: Seq<char>) -> Seq<char> {
    "failed to spawn: "@ + error + "\n"@
}

/// What the log says of a command that could not be started.
pub fn spawn_line(error: &str) -> (r: String)
    ensures
        r@ == spawn_text(error@),
        r@ == "failed to spawn: "@ + error@ + "\n"@,
{
    let mut out = "failed to spawn: ".to_string();
    out.append(error);
    out.append("\n");
    out
}

/// What the log says behind the output of a step.
pub open spec fn exit_text(code: i32) -> Seq<char> {
    "── exit: "@ + decimal(code as int) + " ──\n"@
}

/// What the log says behind the output of a step.
pub fn exit_line(code: i32) -> (r: String)
    ensures
        r@ == exit_text(code),
        r@ == "── exit: "@ + decimal(code as int) + " ──\n"@,
{
    let mut out = "── exit: ".to_string();
    let n = i32_text(code);
    out.append(n.as_str());
    out.append(" ──\n");
    out
}

/// What the log says of the step `name` when it has ended with `code`: nothing
/// more where it succeeded.
pub open spec fn step_failure(name: Seq<char>, code: i32) -> Seq<char> {
    if code == 0 {
        Seq::empty()
    } else {
        "step '"@ + name + "' failed (exit "@ + decimal(code as int) + ") — stopping job\n"@
    }
}

/// What the log says of the step `name` when it has ended with `code`.
pub fn step_failed_line(name: &str, code: i32) -> (r: String)
    ensures
        r@ == step_failure(name@, code),
{
    if code == 0 {
        return String::new();
    }
    let mut out = "step '".to_string();
    out.append(name);
    out.append("' failed (exit ");
    let n = i32_text(code);
    out.append(n.as_str());
    out.append(") — stopping job\n");
    out
}

/// What the log says when a job begins.
pub open spec fn job_head(name: Seq<char>) -> Seq<char> {
    "\n══ job: "@ + name + " ══\n"@
}

/// What the log says when a job begins.
pub fn job_header(name: &str) -> (r: String)
    ensures
        r@ == job_head(name@),
{
    let mut out = "\n══ job: ".to_string();
    out.append(name);
    out.append(" ══\n");
    out
}

/// What the log says of a job that is skipped because `need` did not pass.
pub open spec fn job_skip(name: Seq<char>, need: Seq<char>) -> Seq<char> {
    "\n══ job: "@ + name + " — SKIPPED (dep "@ + need + " failed)\n"@
}

/// What the log says of a job that is skipped because `need` did not pass.
pub fn job_skipped_line(name: &str, need: &str) -> (r: String)
    ensures
        r@ == job_skip(name@, need@),
{
    let mut out = "\n══ job: ".to_string();
    out.append(name);
    out.append(" — SKIPPED (dep ");
    out.append(need);
    out.append(" failed)\n");
    out
}

/// What the log says when a job has ended.
pub open spec fn job_end(name: Seq<char>, ok: bool) -> Seq<char> {
    "══ job: "@ + name + " — "@ + outcome(ok) + " ══\n"@
}

/// What the log says when a job has ended.
pub fn job_result_line(name: &str, ok: bool) -> (r: String)
    ensures
        r@ == job_end(name@, ok),
{
    let mut out = "══ job: ".to_string();
    out.append(name);
    out.append(" — ");
    out.append(outcome_word(ok));
    out.append(" ══\n");
    out
}

/// What the log says of a move of a run.
pub open spec fn move_line(jobs: Seq<JobView>, m: Move) -> Seq<char> {
    match m {
        Move::Skip { job, need } => job_skip(jobs[job].name, jobs[job].needs[need]),
        Move::Start { job } => job_head(jobs[job].name),
        Move::Step { job, step } => step_head(jobs[job].steps[step]),
        Move::End { job, ok } => job_end(jobs[job].name, ok),
        Move::Finish => Seq::empty(),
    }
}

/// What the log says of what is to be done next in a run.
pub fn action_text(runner: &Runner, action: Action) -> (r: String)
    requires
        is_of(action@, runner@.jobs),
    ensures
        r@ == move_line(runner@.jobs, action@),
{
    match action {
        Action::Skip { job, need } => {
            let job = runner.job(job);
            assert(job@.needs[need as int] == job.needs@[need as int]@);
            job_skipped_line(job.name.as_str(), job.needs[need].as_str())
        },
        Action::Start { job } => job_header(runner.job(job).name.as_str()),
        Action::Step { job, step } => {
            let job = runner.job(job);
            assert(job@.steps[step as int] == job.steps@[step as int]@);
            step_header(&job.steps[step])
        },
        Action::End { job, ok } => job_result_line(runner.job(job).name.as_str(), ok),
        Action::Finish => String::new(),
    }
}

// -------------------------------------------------------------- laws of the log
/// The line behind the output of a step gives the exit code back.
pub proof fn law_exit_line_tells_the_code(code: i32)
    ensures
        exit_text(code).len() > 13,
        exit_text(code).take(9) == "── exit: "@,
        integer(exit_text(code).subrange(9, exit_text(code).len() - 4)) == Some(code as int),
        exit_text(code).skip(exit_text(code).len() - 4) == " ──\n"@,
{
    let t = exit_text(code);
    reveal_strlit("── exit: ");
    reveal_strlit(" ──\n");
    law_integer_round_trip(code as int);
    lemma_digits(if code < 0 {
        (-code) as nat
    } else {
        code as nat
    });
    assert(t.take(9) =~= "── exit: "@);
    assert(t.subrange(9, t.len() - 4) =~= decimal(code as int));
    assert(t.skip(t.len() - 4) =~= " ──\n"@);
}

/// What the log says of a command that could not be started is one line, which ends
/// with the reason, whatever it is.
pub proof fn law_spawn_line_tells_the_reason(error: Seq<char>)
    ensures
        spawn_text(error).len() == 18 + error.len(),
        spawn_text(error).take(17) == "failed to spawn: "@,
        spawn_text(error).subrange(17, 17int + error.len()) == error,
        spawn_text(error).last() == '\n',
{
    reveal_strlit("failed to spawn: ");
    reveal_strlit("\n");
    let t = spawn_text(error);
    assert(t.take(17) =~= "failed to spawn: "@);
    assert(t.subrange(17, 17int + error.len()) =~= error);
}

/// A log says more of a step that has ended only where the step failed, and then
/// says which step it was and with which code it failed.
pub proof fn law_failure_is_told(name: Seq<char>, code: i32)
    ensures
        step_failure(name, code).len() == 0 <==> code == 0,
        code != 0 ==> step_failure(name, code) == "step '"@ + name + "' failed (exit "@ + decimal(
            code as int,
        ) + ") — stopping job\n"@,
{
    reveal_strlit("step '");
}

/// The foot of a log says that the run has passed exactly where its code is 0, and
/// else that it has failed; it says when it ended and how many seconds it took.
pub proof fn law_foot_tells_the_result(finished: Seq<char>, seconds: nat, code: i32)
    ensures
        ({
            let t = foot_text(finished, seconds, code);
            let front = "\n"@ + rule() + "\nfinished: "@ + finished + "\nduration: "@ + digits(seconds)
                + "s\nresult:   "@;
            &&& t.len() > 5
            &&& t.take(t.len() - 5) == front
            &&& t.skip(t.len() - 5) == "PASS\n"@ <==> code == 0
            &&& t.skip(t.len() - 5) == "FAIL\n"@ <==> code != 0
        }),
{
    reveal_strlit("PASS\n");
    reveal_strlit("FAIL\n");
    reveal_strlit("PASS");
    reveal_strlit("FAIL");
    reveal_strlit("\n");
    assert("PASS\n"@[0] != "FAIL\n"@[0]);
    let t = foot_text(finished, seconds, code);
    let front = "\n"@ + rule() + "\nfinished: "@ + finished + "\nduration: "@ + digits(seconds)
        + "s\nresult:   "@;
    assert(t.take(t.len() - 5) =~= front);
    if code == 0 {
        assert(t.skip(t.len() - 5) =~= "PASS\n"@);
    } else {
        assert(t.skip(t.len() - 5) =~= "FAIL\n"@);
    }
}

/// The head of a log names the run, its pipeline, the time at which it began and
/// its repository, each on a line of its own.
pub proof fn law_head_tells_the_run(
    run_id: Seq<char>,
    pipeline: Seq<char>,
    started: Seq<char>,
    repo: Seq<char>,
)
    requires
        !run_id.contains('\n'),
        !pipeline.contains('\n'),
        !started.contains('\n'),
        !repo.contains('\n'),
    ensures
        ({
            let ls = lines_of(head_text(run_id, pipeline, started, repo).push('\n'));
            &&& without_cr("hep-ci run "@ + run_id) == ls[0]
            &&& without_cr("pipeline: "@ + pipeline) == ls[1]
            &&& without_cr("started:  "@ + started) == ls[2]
            &&& without_cr("repo:     "@ + repo) == ls[3]
        }),
{
    reveal_strlit("hep-ci run ");
    reveal_strlit("pipeline: ");
    reveal_strlit("\npipeline: ");
    reveal_strlit("started:  ");
    reveal_strlit("\nstarted:  ");
    reveal_strlit("repo:     ");
    reveal_strlit("\nrepo:     ");
    reveal_strlit("\n");
    let a = "hep-ci run "@ + run_id;
    let b = "pipeline: "@ + pipeline;
    let c = "started:  "@ + started;
    let d = "repo:     "@ + repo;
    let e = rule() + "\n"@;
    let t = head_text(run_id, pipeline, started, repo).push('\n');
    let rest3 = e.push('\n');
    let rest2 = d.push('\n') + rest3;
    let rest1 = c.push('\n') + rest2;
    let rest0 = b.push('\n') + rest1;
    assert(t =~= a.push('\n') + rest0);
    lemma_no_break("hep-ci run "@, run_id);
    lemma_no_break("pipeline: "@, pipeline);
    lemma_no_break("started:  "@, started);
    lemma_no_break("repo:     "@, repo);
    lemma_one_line(a);
    lemma_one_line(b);
    lemma_one_line(c);
    lemma_one_line(d);
    lemma_lines_concat(a.push('\n'), rest0);
    lemma_lines_concat(b.push('\n'), rest1);
    lemma_lines_concat(c.push('\n'), rest2);
    lemma_lines_concat(d.push('\n'), rest3);
}

proof fn lemma_no_break(a: Seq<char>, b: Seq<char>)
    requires
        !a.contains('\n'),
        !b.contains('\n'),
    ensures
        !(a + b).contains('\n'),
{
    assert forall|i: int| 0 <= i < (a + b).len() implies (a + b)[i] != '\n' by {
        if i < a.len() {
            assert(a.contains(a[i]));
        } else {
            assert(b.contains(b[i - a.len()]));
        }
    }
}

/// What the log says of a move names the job that it is about: of a job that is
/// skipped also the need that failed, of a job that has ended whether it passed,
/// and of a step its name and its command.
pub proof fn law_log_names_what_is_done(jobs: Seq<JobView>, job: int, k: int)
    ensures
        move_line(jobs, Move::Start { job }) == "\n══ job: "@ + jobs[job].name + " ══\n"@,
        move_line(jobs, Move::Skip { job, need: k }) == "\n══ job: "@ + jobs[job].name
            + " — SKIPPED (dep "@ + jobs[job].needs[k] + " failed)\n"@,
        move_line(jobs, Move::Step { job, step: k }) == "\n── step: "@ + jobs[job].steps[k].name
            + " ──\n$ "@ + jobs[job].steps[k].run + "\n"@,
        move_line(jobs, Move::End { job, ok: true }) == "══ job: "@ + jobs[job].name
            + " — PASS ══\n"@,
        move_line(jobs, Move::End { job, ok: false }) == "══ job: "@ + jobs[job].name
            + " — FAIL ══\n"@,
        move_line(jobs, Move::Finish).len() == 0,
{
    reveal_strlit(" — PASS ══\n");
    reveal_strlit(" — FAIL ══\n");
    reveal_strlit(" — ");
    reveal_strlit(" ══\n");
    reveal_strlit("PASS");
    reveal_strlit("FAIL");
    let n = "══ job: "@ + jobs[job].name;
    assert(n + " — "@ + "PASS"@ + " ══\n"@ =~= n + " — PASS ══\n"@);
    assert(n + " — "@ + "FAIL"@ + " ══\n"@ =~= n + " — FAIL ══\n"@);
}

} // verus!
