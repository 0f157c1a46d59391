//! What the commands decide from their arguments and the log of runs.

use vstd::prelude::*;
use vstd::string::*;

use crate::number::{
    digits, law_natural_round_trip, natural, natural_up_to, parse_u16, parse_usize,
};
use crate::report::{verdict, verdict_text};
use crate::run::{
    closed_record, complete, ended_record, has_id, last_with, latest, law_latest_ends_with_last,
    law_latest_ids_differ, law_latest_is_among, law_latest_is_last, law_load_gives_last_save,
    law_loaded_is_storable, law_log_round_trip, law_save_appends, law_saves_append, line_of,
    log_of, one_line, run_list_dedup, run_load, runs_in, runs_view, storable, CiStatus, Run,
    RunView,
};
use crate::text::same;

verus! {

// ------------------------------------------------------------------- arguments
/// The number in an argument; `default` where there is none that a `usize` can
/// hold.
pub open spec fn count_in(arg: Option<Seq<char>>, default: usize) -> usize {
    match arg {
        Some(s) => match natural_up_to(s, usize::MAX as int) {
            Some(n) => n as usize,
            None => default,
        },
        None => default,
    }
}

/// The text of an argument.
pub open spec fn arg_text(arg: Option<&str>) -> Option<Seq<char>> {
    match arg {
        Some(s) => Some(s@),
        None => None,
    }
}

/// The number in an argument; `default` where there is none that a `usize` can
/// hold.
pub fn count_or(arg: Option<&str>, default: usize) -> (r: usize)
    ensures
        r == count_in(arg_text(arg), default),
{
    match arg {
        Some(s) => match parse_usize(s) {
            Some(n) => n,
            None => default,
        },
        None => default,
    }
}

/// The port on which pushes are awaited.
pub const CI_PORT: u16 = 7071;

/// The arguments of `serve`, read from the front: the port behind `-p` and the
/// directory behind `-d`. An argument that comes later takes the place of an
/// earlier one; a port that is none stands for the default.
pub open spec fn options_from(args: Seq<Seq<char>>, port: u16, dir: Seq<char>) -> (u16, Seq<char>)
    decreases args.len(),
{
    if args.len() == 0 {
        (port, dir)
    } else if args[0] == "-p"@ && args.len() > 1 {
        options_from(
            args.skip(2),
            match natural_up_to(args[1], u16::MAX as int) {
                Some(n) => n as u16,
                None => CI_PORT,
            },
            dir,
        )
    } else if args[0] == "-d"@ && args.len() > 1 {
        options_from(args.skip(2), port, args[1])
    } else {
        options_from(args.skip(1), port, dir)
    }
}

/// The texts of `args`.
pub open spec fn arg_texts(args: Seq<String>) -> Seq<Seq<char>> {
    args.map_values(|s: String| s@)
}

/// The port and the directory of repositories that the arguments of `serve` give.
pub fn serve_options(args: &[String]) -> (r: (u16, String))
    ensures
        (r.0, r.1@) == options_from(arg_texts(args@), CI_PORT, "./repos"@),
{
    let ghost all = arg_texts(args@);
    let mut port: u16 = CI_PORT;
    let mut dir = "./repos".to_string();
    let mut i: usize = 0;
    assert(all.skip(0) =~= all);
    proof {
        reveal_strlit("-p");
        reveal_strlit("-d");
        assert("-p"@[1] != "-d"@[1]);
    }
    while i < args.len()
        invariant
            i <= args.len(),
            all == arg_texts(args@),
            "-p"@ != "-d"@,
            options_from(all, CI_PORT, "./repos"@) == options_from(all.skip(i as int), port, dir@),
        decreases args.len() - i,
    {
        let ghost rest = all.skip(i as int);
        assert(rest[0] == args@[i as int]@);
        assert(rest.skip(1) =~= all.skip(i + 1));
        if i + 1 < args.len() {
            assert(rest[1] == args@[i + 1]@);
            assert(rest.skip(2) =~= all.skip(i + 2));
        }
        if same(args[i].as_str(), "-p") {
            i += 1;
            if i < args.len() {
                port = match parse_u16(args[i].as_str()) {
                    Some(n) => n,
                    None => CI_PORT,
                };
                i += 1;
            }
        } else if same(args[i].as_str(), "-d") {
            i += 1;
            if i < args.len() {
                dir = args[i].clone();
                i += 1;
            }
        } else {
            i += 1;
        }
    }
    assert(all.skip(i as int).len() == 0);
    (port, dir)
}

/// An argument that is a number stands for that number where a `usize` can hold it;
/// one that is none, and none at all, for the default.
pub proof fn law_count_is_the_number(n: nat, s: Seq<char>, default: usize)
    ensures
        n <= usize::MAX ==> count_in(Some(digits(n)), default) == n,
        natural(s) is Some && natural(s)->0 <= usize::MAX ==> count_in(Some(s), default)
            == natural(s)->0,
        natural(s) is None || natural(s)->0 > usize::MAX ==> count_in(Some(s), default) == default,
        count_in(None, default) == default,
{
    law_natural_round_trip(n);
}

/// Behind `-p` stands the port and behind `-d` the directory, in any order and
/// among other arguments, which say nothing; the last of each counts.
pub proof fn law_options_are_read(
    rest: Seq<Seq<char>>,
    n: nat,
    s: Seq<char>,
    other: Seq<char>,
    port: u16,
    dir: Seq<char>,
)
    requires
        other != "-p"@ && other != "-d"@,
    ensures
        options_from(Seq::empty(), port, dir) == (port, dir),
        n <= u16::MAX ==> options_from(seq!["-p"@, digits(n)] + rest, port, dir) == options_from(
            rest,
            n as u16,
            dir,
        ),
        n <= u16::MAX ==> options_from(seq!["-p"@, digits(n)], port, dir) == (n as u16, dir),
        natural(s) is None || natural(s)->0 > u16::MAX ==> options_from(
            seq!["-p"@, s] + rest,
            port,
            dir,
        ) == options_from(rest, 7071, dir),
        options_from(seq!["-d"@, s] + rest, port, dir) == options_from(rest, port, s),
        options_from(seq!["-d"@, s], port, dir) == (port, s),
        options_from(seq![other] + rest, port, dir) == options_from(rest, port, dir),
        options_from(seq!["-p"@], port, dir) == (port, dir),
        options_from(seq!["-d"@], port, dir) == (port, dir),
{
    reveal_strlit("-p");
    reveal_strlit("-d");
    assert("-p"@[1] != "-d"@[1]);
    law_natural_round_trip(n);
    let none = Seq::<Seq<char>>::empty();
    assert((seq!["-p"@, digits(n)] + rest).skip(2) =~= rest);
    assert((seq!["-p"@, s] + rest).skip(2) =~= rest);
    assert((seq!["-d"@, s] + rest).skip(2) =~= rest);
    assert((seq![other] + rest).skip(1) =~= rest);
    assert(seq!["-p"@, digits(n)].skip(2) =~= none);
    assert(seq!["-d"@, s].skip(2) =~= none);
    assert(seq!["-p"@].skip(1) =~= none);
    assert(seq!["-d"@].skip(1) =~= none);
    assert(options_from(none, n as u16, dir) == (n as u16, dir));
    assert(options_from(none, port, s) == (port, s));
    assert(options_from(none, port, dir) == (port, dir));
}

// ---------------------------------------------------------------------- status
/// The newest `limit` of the runs, newest first.
pub open spec fn newest(s: Seq<RunView>, limit: int) -> Seq<RunView> {
    s.reverse().take(if limit < s.len() {
        limit
    } else {
        s.len() as int
    })
}

/// The newest `limit` of the runs, newest first.
pub fn newest_first(runs: &[Run], limit: usize) -> (r: Vec<Run>)
    ensures
        runs_view(r@) == newest(runs_view(runs@), limit as int),
{
    let ghost all = runs_view(runs@);
    let mut out: Vec<Run> = Vec::new();
    let mut i: usize = 0;
    while i < runs.len() && i < limit
        invariant
            i <= runs.len(),
            i <= limit,
            all == runs_view(runs@),
            runs_view(out@) =~= all.reverse().take(i as int),
        decreases runs.len() - i,
    {
        let ghost before = out@;
        let run = runs[runs.len() - 1 - i].clone();
        assert(run@ == all.reverse()[i as int]);
        out.push(run);
        i += 1;
        proof {
            assert(runs_view(out@) =~= runs_view(before).push(run@));
            assert(all.reverse().take(i as int) =~= all.reverse().take(i - 1).push(run@));
        }
    }
    out
}

/// As many runs are shown as are asked for and there are, from the last one back,
/// each as it is.
pub proof fn law_newest_come_first(s: Seq<RunView>, limit: int, i: int)
    requires
        limit >= 0,
    ensures
        newest(s, limit).len() == if limit < s.len() {
            limit
        } else {
            s.len() as int
        },
        0 <= i < newest(s, limit).len() ==> newest(s, limit)[i] == s[s.len() - 1 - i],
{
}

// ------------------------------------------------------------------------ logs
/// What there is to show of a log.
pub enum LogChoice {
    /// There are no runs.
    NoRuns,
    /// There is no such run.
    Unknown { run_id: String },
    /// The run has no log.
    NoLog { run_id: String },
    /// The log at `path`.
    Show { path: String },
}

pub enum LogChoiceView {
    NoRuns,
    Unknown { run_id: Seq<char> },
    NoLog { run_id: Seq<char> },
    Show { path: Seq<char> },
}

impl View for LogChoice {
    type V = LogChoiceView;

    open spec fn view(&self) -> LogChoiceView {
        match self {
            LogChoice::NoRuns => LogChoiceView::NoRuns,
            LogChoice::Unknown { run_id } => LogChoiceView::Unknown { run_id: run_id@ },
            LogChoice::NoLog { run_id } => LogChoiceView::NoLog { run_id: run_id@ },
            LogChoice::Show { path } => LogChoiceView::Show { path: path@ },
        }
    }
}

/// The log of the run `run_id`.
pub open spec fn log_shown_of(runs: Seq<RunView>, run_id: Seq<char>) -> LogChoiceView {
    match last_with(runs, run_id) {
        None => LogChoiceView::Unknown { run_id },
        Some(v) => if v.log_path.len() == 0 {
            LogChoiceView::NoLog { run_id }
        } else {
            LogChoiceView::Show { path: v.log_path }
        },
    }
}

/// The log of the run that `arg` names, or of the newest run where it names none.
pub open spec fn log_shown(runs: Seq<RunView>, arg: Option<Seq<char>>) -> LogChoiceView {
    match arg {
        Some(run_id) => log_shown_of(runs, run_id),
        None => if latest(runs).len() == 0 {
            LogChoiceView::NoRuns
        } else {
            log_shown_of(runs, latest(runs).last().run_id)
        },
    }
}

/// What to show of the log of the run that `arg` names, or of the newest run.
pub fn choose_log(log: &str, arg: Option<&str>) -> (r: LogChoice)
    ensures
        r@ == log_shown(runs_in(log@), arg_text(arg)),
{
    let run_id = match arg {
        Some(id) => id.to_string(),
        None => {
            let runs = run_list_dedup(log);
            if runs.len() == 0 {
                return LogChoice::NoRuns;
            }
            runs[runs.len() - 1].run_id.clone()
        },
    };
    match run_load(log, run_id.as_str()) {
        None => LogChoice::Unknown { run_id },
        Some(run) => if run.log_path.as_str().is_empty() {
            LogChoice::NoLog { run_id }
        } else {
            LogChoice::Show { path: run.log_path }
        },
    }
}

/// Where no run is named, the log of the last record is shown.
pub proof fn law_newest_log_is_shown(runs: Seq<RunView>)
    ensures
        log_shown(runs, None) == if runs.len() == 0 {
            LogChoiceView::NoRuns
        } else if runs.last().log_path.len() == 0 {
            LogChoiceView::NoLog { run_id: runs.last().run_id }
        } else {
            LogChoiceView::Show { path: runs.last().log_path }
        },
{
    if runs.len() > 0 {
        law_latest_ends_with_last(runs);
    }
}

/// The log that is shown of a run is that of its last record: one more record of
/// the run gives its log, and one of another run changes nothing. Of a run that has
/// no record, none is shown.
pub proof fn law_last_log_is_shown(runs: Seq<RunView>, v: RunView, id: Seq<char>)
    ensures
        v.log_path.len() > 0 ==> log_shown(runs.push(v), Some(v.run_id)) == (LogChoiceView::Show {
            path: v.log_path,
        }),
        v.log_path.len() == 0 ==> log_shown(runs.push(v), Some(v.run_id)) == (
        LogChoiceView::NoLog { run_id: v.run_id }),
        id != v.run_id ==> log_shown(runs.push(v), Some(id)) == log_shown(runs, Some(id)),
        log_shown(Seq::empty(), Some(id)) == (LogChoiceView::Unknown { run_id: id }),
{
    assert(runs.push(v).drop_last() =~= runs);
}

// ----------------------------------------------------------------------- watch
/// The newest run that goes on.
pub open spec fn newest_running(s: Seq<RunView>) -> Option<RunView>
    decreases s.len(),
{
    if s.len() == 0 {
        None
    } else if s.last().status is Running {
        Some(s.last())
    } else {
        newest_running(s.drop_last())
    }
}

/// The newest run of the log that goes on.
pub fn active_run(log: &str) -> (r: Option<Run>)
    ensures
        match r {
            Some(run) => newest_running(latest(runs_in(log@))) == Some(run@),
            None => newest_running(latest(runs_in(log@))) is None,
        },
{
    let runs = run_list_dedup(log);
    let ghost all = runs_view(runs@);
    let mut n: usize = runs.len();
    assert(all.take(n as int) =~= all);
    while n > 0
        invariant
            n <= runs.len(),
            all == runs_view(runs@),
            all == latest(runs_in(log@)),
            newest_running(all) == newest_running(all.take(n as int)),
        decreases n,
    {
        assert(all.take(n as int).drop_last() =~= all.take(n - 1));
        assert(all.take(n as int).last() == runs@[n - 1]@);
        match runs[n - 1].status {
            CiStatus::Running => {
                return Some(runs[n - 1].clone());
            },
            _ => {},
        }
        n -= 1;
    }
    None
}

/// The verdict on the run `run_id` once it no longer goes on.
pub open spec fn watched(runs: Seq<RunView>, run_id: Seq<char>) -> Option<Seq<char>> {
    match last_with(runs, run_id) {
        Some(v) => if v.status is Running {
            None
        } else {
            Some(verdict(v.status))
        },
        None => None,
    }
}

/// The verdict on the run `run_id` once it no longer goes on.
pub fn watch_verdict(log: &str, run_id: &str) -> (r: Option<String>)
    ensures
        match r {
            Some(text) => watched(runs_in(log@), run_id@) == Some(text@),
            None => watched(runs_in(log@), run_id@) is None,
        },
{
    match run_load(log, run_id) {
        Some(run) => match run.status {
            CiStatus::Running => None,
            _ => Some(verdict_text(run.status)),
        },
        None => None,
    }
}

/// The run that is watched is the last of those that go on; there is none exactly
/// where none goes on.
pub proof fn law_newest_running_is_watched(s: Seq<RunView>, v: RunView)
    ensures
        v.status is Running ==> newest_running(s.push(v)) == Some(v),
        !(v.status is Running) ==> newest_running(s.push(v)) == newest_running(s),
        newest_running(s) is None <==> forall|i: int|
            0 <= i < s.len() ==> !((#[trigger] s[i]).status is Running),
    decreases s.len(),
{
    assert(s.push(v).drop_last() =~= s);
    if s.len() > 0 {
        law_newest_running_is_watched(s.drop_last(), v);
        let t = s.drop_last();
        if s.last().status is Running {
            assert(s[s.len() - 1].status is Running);
        } else if forall|i: int| 0 <= i < t.len() ==> !((#[trigger] t[i]).status is Running) {
            assert forall|i: int| 0 <= i < s.len() implies !((#[trigger] s[i]).status is Running) by {
                if i < t.len() {
                    assert(!(t[i].status is Running));
                }
            }
        } else {
            let i = choose|i: int| 0 <= i < t.len() && (#[trigger] t[i]).status is Running;
            assert(s[i].status is Running);
        }
    }
}

/// A watch ends with the last record of its run that says anything but that the run
/// goes on, and with the verdict on that status; records of other runs do not
/// matter.
pub proof fn law_watch_ends_with_the_run(runs: Seq<RunView>, v: RunView, id: Seq<char>)
    ensures
        v.status is Running ==> watched(runs.push(v), v.run_id) is None,
        !(v.status is Running) ==> watched(runs.push(v), v.run_id) == Some(verdict(v.status)),
        id != v.run_id ==> watched(runs.push(v), id) == watched(runs, id),
        watched(Seq::empty(), id) is None,
{
    assert(runs.push(v).drop_last() =~= runs);
}

/// A run that is watched goes on: its verdict is still out.
pub proof fn law_watched_run_goes_on(runs: Seq<RunView>)
    ensures
        newest_running(latest(runs)) matches Some(v) ==> {
            &&& runs.contains(v)
            &&& v.status is Running
            &&& watched(runs, v.run_id) is None
        },
{
    if newest_running(latest(runs)) is Some {
        let i = lemma_running_index(latest(runs));
        let v = latest(runs)[i];
        law_latest_is_among(runs, i);
        law_latest_is_last(runs, v.run_id);
        lemma_last_with_index(latest(runs), i, runs);
    }
}

proof fn lemma_running_index(s: Seq<RunView>) -> (i: int)
    requires
        newest_running(s) is Some,
    ensures
        0 <= i < s.len(),
        newest_running(s) == Some(s[i]),
        s[i].status is Running,
    decreases s.len(),
{
    if s.last().status is Running {
        s.len() - 1
    } else {
        lemma_running_index(s.drop_last())
    }
}

proof fn lemma_last_with_index(s: Seq<RunView>, i: int, runs: Seq<RunView>)
    requires
        s == latest(runs),
        0 <= i < s.len(),
    ensures
        last_with(s, s[i].run_id) == Some(s[i]),
{
    assert forall|k: int| i < k <= s.len() implies last_with(#[trigger] s.take(k), s[i].run_id)
        == Some(s[i]) by {
        lemma_last_with_take(s, i, k, runs);
    }
    assert(s.take(s.len() as int) =~= s);
}

proof fn lemma_last_with_take(s: Seq<RunView>, i: int, k: int, runs: Seq<RunView>)
    requires
        s == latest(runs),
        0 <= i < k <= s.len(),
    ensures
        last_with(s.take(k), s[i].run_id) == Some(s[i]),
    decreases k,
{
    let t = s.take(k);
    assert(t.last() == s[k - 1]);
    if i < k - 1 {
        law_latest_ids_differ(runs, i, k - 1);
        lemma_last_with_take(s, i, k - 1, runs);
        assert(t.drop_last() =~= s.take(k - 1));
    }
}

// ---------------------------------------------------------------------- cancel
/// What comes of a request to cancel a run.
pub enum CancelChoice {
    /// There is no such run.
    Unknown,
    /// The run no longer goes on.
    NotRunning { status: CiStatus },
    /// The run is cancelled; this is its new record.
    Cancel { run: Run },
}

pub enum CancelChoiceView {
    Unknown,
    NotRunning { status: CiStatus },
    Cancel { run: RunView },
}

impl View for CancelChoice {
    type V = CancelChoiceView;

    open spec fn view(&self) -> CancelChoiceView {
        match self {
            CancelChoice::Unknown => CancelChoiceView::Unknown,
            CancelChoice::NotRunning { status } => CancelChoiceView::NotRunning { status: *status },
            CancelChoice::Cancel { run } => CancelChoiceView::Cancel { run: run@ },
        }
    }
}

/// What comes of cancelling the run `run_id` at the time `now`.
pub open spec fn cancel_of(runs: Seq<RunView>, run_id: Seq<char>, now: u64) -> CancelChoiceView {
    match last_with(runs, run_id) {
        None => CancelChoiceView::Unknown,
        Some(v) => if v.status is Running {
            CancelChoiceView::Cancel { run: ended_record(v, now, CiStatus::Cancelled) }
        } else {
            CancelChoiceView::NotRunning { status: v.status }
        },
    }
}

/// What comes of cancelling the run `run_id` at the time `now`.
pub fn cancel_run(log: &str, run_id: &str, now: u64) -> (r: CancelChoice)
    ensures
        r@ == cancel_of(runs_in(log@), run_id@, now),
{
    match run_load(log, run_id) {
        None => CancelChoice::Unknown,
        Some(run) => match run.status {
            CiStatus::Running => CancelChoice::Cancel { run: run.cancelled(now) },
            _ => CancelChoice::NotRunning { status: run.status },
        },
    }
}

/// A run is cancelled only while it goes on: a request yields a record to save if
/// and only if the last record of the run says that it goes on, and that record
/// then differs from the last one in its end and its status alone. Where the last
/// record says anything else, the request is answered with exactly that status;
/// where there is none, the run is unknown.
pub proof fn law_only_running_runs_are_cancelled(runs: Seq<RunView>, run_id: Seq<char>, now: u64)
    ensures
        cancel_of(runs, run_id, now) is Cancel <==> last_with(runs, run_id) is Some && last_with(
            runs,
            run_id,
        )->0.status is Running,
        cancel_of(runs, run_id, now) matches CancelChoiceView::Cancel { run } ==> run == (RunView {
            finished: now,
            status: CiStatus::Cancelled,
            ..last_with(runs, run_id)->0
        }),
        last_with(runs, run_id) matches Some(v) ==> !(v.status is Running) ==> cancel_of(
            runs,
            run_id,
            now,
        ) == (CancelChoiceView::NotRunning { status: v.status }),
        last_with(runs, run_id) is None <==> cancel_of(runs, run_id, now) is Unknown,
{
}

/// What comes of a request to cancel a run is decided by the last record that was
/// saved of it.
pub proof fn law_cancel_looks_at_the_last_record(
    runs: Seq<RunView>,
    v: RunView,
    id: Seq<char>,
    now: u64,
)
    ensures
        v.status is Running ==> cancel_of(runs.push(v), v.run_id, now) == (
        CancelChoiceView::Cancel {
            run: RunView { finished: now, status: CiStatus::Cancelled, ..v },
        }),
        !(v.status is Running) ==> cancel_of(runs.push(v), v.run_id, now) == (
        CancelChoiceView::NotRunning { status: v.status }),
        id != v.run_id ==> cancel_of(runs.push(v), id, now) == cancel_of(runs, id, now),
        cancel_of(Seq::empty(), id, now) is Unknown,
{
    assert(runs.push(v).drop_last() =~= runs);
}

/// A cancelled run is loaded as cancelled and cannot be cancelled again.
pub proof fn law_cancel_once(log: Seq<char>, run_id: Seq<char>, now: u64, later: u64)
    requires
        complete(log),
    ensures
        cancel_of(runs_in(log), run_id, now) matches CancelChoiceView::Cancel { run } ==> {
            let after = runs_in(log + line_of(run));
            &&& last_with(after, run_id) == Some(run)
            &&& cancel_of(after, run_id, later) == (CancelChoiceView::NotRunning {
                status: CiStatus::Cancelled,
            })
        },
{
    if let CancelChoiceView::Cancel { run } = cancel_of(runs_in(log), run_id, now) {
        let i = lemma_loaded_index(runs_in(log), run_id);
        law_loaded_is_storable(log, i);
        law_load_gives_last_save(log, run, run_id);
    }
}

proof fn lemma_loaded_index(s: Seq<RunView>, run_id: Seq<char>) -> (i: int)
    requires
        last_with(s, run_id) is Some,
    ensures
        0 <= i < s.len(),
        last_with(s, run_id) == Some(s[i]),
        s[i].run_id == run_id,
    decreases s.len(),
{
    if s.last().run_id == run_id {
        s.len() - 1
    } else {
        lemma_loaded_index(s.drop_last(), run_id)
    }
}

// ----------------------------------------------------------------------- close
/// The run `run_id` is recorded as cancelled.
pub open spec fn recorded_cancelled(runs: Seq<RunView>, run_id: Seq<char>) -> bool {
    last_with(runs, run_id) matches Some(v) && v.status is Cancelled
}

/// The record that closes the run `v`, which has ended with `code`. Where it was
/// cancelled, be it that the log says so or that it was stopped, it stays
/// cancelled.
pub open spec fn closing_record(
    runs: Seq<RunView>,
    v: RunView,
    finished: u64,
    code: i32,
    stopped: bool,
) -> RunView {
    if stopped || recorded_cancelled(runs, v.run_id) {
        ended_record(v, finished, CiStatus::Cancelled)
    } else {
        closed_record(v, finished, code)
    }
}

/// The record that closes `run`, which has ended with `code`; `stopped` says
/// whether it was stopped because it was cancelled.
pub fn close_run(log: &str, run: Run, finished: u64, code: i32, stopped: bool) -> (r: Run)
    ensures
        r@ == closing_record(runs_in(log@), run@, finished, code, stopped),
{
    let recorded = match run_load(log, run.run_id.as_str()) {
        Some(last) => match last.status {
            CiStatus::Cancelled => true,
            _ => false,
        },
        None => false,
    };
    if stopped || recorded {
        run.cancelled(finished)
    } else {
        run.ended(finished, code)
    }
}

/// A run that is recorded as cancelled, or was stopped, is closed as cancelled
/// whatever its steps came to, and is loaded as cancelled from then on.
pub proof fn law_cancelled_run_is_closed_as_cancelled(
    log: Seq<char>,
    v: RunView,
    finished: u64,
    code: i32,
    stopped: bool,
)
    requires
        complete(log),
        storable(v),
        one_line(v),
        stopped || recorded_cancelled(runs_in(log), v.run_id),
    ensures
        ({
            let closing = closing_record(runs_in(log), v, finished, code, stopped);
            &&& closing.status is Cancelled
            &&& last_with(runs_in(log + line_of(closing)), v.run_id) == Some(closing)
            &&& recorded_cancelled(runs_in(log + line_of(closing)), v.run_id)
        }),
{
    let closing = closing_record(runs_in(log), v, finished, code, stopped);
    law_load_gives_last_save(log, closing, v.run_id);
}

/// A run that nobody cancelled is closed as passed exactly where it ended with the
/// code 0, and else as failed. Closing a run changes its end and its status alone.
pub proof fn law_run_is_closed_by_its_code(
    runs: Seq<RunView>,
    v: RunView,
    finished: u64,
    code: i32,
    stopped: bool,
)
    ensures
        ({
            let c = closing_record(runs, v, finished, code, stopped);
            &&& c == (RunView { finished, status: c.status, ..v })
            &&& c.status is Cancelled <==> stopped || v.status is Cancelled || (last_with(
                runs,
                v.run_id,
            ) is Some && last_with(runs, v.run_id)->0.status is Cancelled)
            &&& !(c.status is Cancelled) ==> (c.status is Pass <==> code == 0) && (c.status is Fail
                <==> code != 0)
        }),
{
}

proof fn lemma_others_change_nothing(s: Seq<RunView>, others: Seq<RunView>, run_id: Seq<char>)
    requires
        forall|i: int| 0 <= i < others.len() ==> (#[trigger] others[i]).run_id != run_id,
    ensures
        last_with(s + others, run_id) == last_with(s, run_id),
    decreases others.len(),
{
    if others.len() == 0 {
        assert(s + others =~= s);
    } else {
        assert(others[others.len() - 1].run_id != run_id);
        assert((s + others).drop_last() =~= s + others.drop_last());
        assert forall|i: int| 0 <= i < others.drop_last().len() implies (
        #[trigger] others.drop_last()[i]).run_id != run_id by {
            assert(others[i].run_id != run_id);
        }
        lemma_others_change_nothing(s, others.drop_last(), run_id);
    }
}

/// A run that is cancelled while it goes on stays cancelled: whatever is recorded
/// of other runs meanwhile, and whatever its steps come to, it is loaded as
/// cancelled once its closing record is saved.
pub proof fn law_cancel_lasts(
    log: Seq<char>,
    v: RunView,
    now: u64,
    others: Seq<RunView>,
    finished: u64,
    code: i32,
    stopped: bool,
)
    requires
        complete(log),
        storable(v),
        one_line(v),
        forall|i: int|
            0 <= i < others.len() ==> storable(#[trigger] others[i]) && one_line(others[i])
                && others[i].run_id != v.run_id,
    ensures
        cancel_of(runs_in(log), v.run_id, now) matches CancelChoiceView::Cancel { run } ==> {
            let before = log + line_of(run) + log_of(others);
            let closing = closing_record(runs_in(before), v, finished, code, stopped);
            &&& recorded_cancelled(runs_in(before), v.run_id)
            &&& last_with(runs_in(before + line_of(closing)), v.run_id) == Some(closing)
            &&& closing.status is Cancelled
        },
{
    if let CancelChoiceView::Cancel { run } = cancel_of(runs_in(log), v.run_id, now) {
        law_cancel_once(log, v.run_id, now, now);
        let i = lemma_loaded_index(runs_in(log), v.run_id);
        law_loaded_is_storable(log, i);
        law_save_appends(log, run);
        let after = log + line_of(run);
        law_saves_append(after, others);
        lemma_others_change_nothing(runs_in(after), others, v.run_id);
        law_cancelled_run_is_closed_as_cancelled(
            after + log_of(others),
            v,
            finished,
            code,
            stopped,
        );
    }
}

// ----------------------------------------------------------------------- clean
/// What cleaning the log comes to.
pub enum CleanPlan {
    /// There are only `count` runs.
    Nothing { count: usize },
    /// The logs at `paths` go, `removed` runs in all, and `log` is what stays.
    Remove { paths: Vec<String>, removed: usize, log: String },
}

pub enum CleanPlanView {
    Nothing { count: nat },
    Remove { paths: Seq<Seq<char>>, removed: nat, log: Seq<char> },
}

impl View for CleanPlan {
    type V = CleanPlanView;

    open spec fn view(&self) -> CleanPlanView {
        match self {
            CleanPlan::Nothing { count } => CleanPlanView::Nothing { count: *count as nat },
            CleanPlan::Remove { paths, removed, log } => CleanPlanView::Remove {
                paths: arg_texts(paths@),
                removed: *removed as nat,
                log: log@,
            },
        }
    }
}

/// The paths of the logs that the runs have.
pub open spec fn log_paths(s: Seq<RunView>) -> Seq<Seq<char>>
    decreases s.len(),
{
    if s.len() == 0 {
        Seq::empty()
    } else if s.last().log_path.len() == 0 {
        log_paths(s.drop_last())
    } else {
        log_paths(s.drop_last()).push(s.last().log_path)
    }
}

/// What cleaning comes to where the newest `keep` of the runs `s` stay.
pub open spec fn clean_of(s: Seq<RunView>, keep: nat) -> CleanPlanView {
    if s.len() <= keep {
        CleanPlanView::Nothing { count: s.len() }
    } else {
        let n = s.len() - keep;
        CleanPlanView::Remove {
            paths: log_paths(s.take(n)),
            removed: n as nat,
            log: log_of(s.skip(n)),
        }
    }
}

/// What cleaning the log comes to where its newest `keep` runs stay.
pub fn clean_plan(log: &str, keep: usize) -> (r: CleanPlan)
    ensures
        r@ == clean_of(latest(runs_in(log@)), keep as nat),
{
    let runs = run_list_dedup(log);
    let ghost all = runs_view(runs@);
    if runs.len() <= keep {
        return CleanPlan::Nothing { count: runs.len() };
    }
    let removed: usize = runs.len() - keep;
    let mut paths: Vec<String> = Vec::new();
    let mut i: usize = 0;
    while i < removed
        invariant
            i <= removed <= runs.len(),
            all == runs_view(runs@),
            arg_texts(paths@) =~= log_paths(all.take(i as int)),
        decreases removed - i,
    {
        assert(all.take(i + 1).drop_last() =~= all.take(i as int));
        assert(all.take(i + 1).last() == runs@[i as int]@);
        if !runs[i].log_path.as_str().is_empty() {
            paths.push(runs[i].log_path.clone());
        }
        i += 1;
    }
    let mut rest = String::new();
    let ghost kept = all.skip(removed as int);
    assert(kept.take(0) =~= Seq::empty());
    while i < runs.len()
        invariant
            removed <= i <= runs.len(),
            all == runs_view(runs@),
            kept == all.skip(removed as int),
            rest@ == log_of(kept.take(i - removed)),
        decreases runs.len() - i,
    {
        let ghost t = kept.take(i + 1 - removed);
        assert(t.drop_last() =~= kept.take(i - removed));
        assert(t.last() == runs@[i as int]@);
        let line = runs[i].to_line();
        rest.append(line.as_str());
        i += 1;
    }
    assert(kept.take(kept.len() as int) =~= kept);
    CleanPlan::Remove { paths, removed, log: rest }
}

/// Cleaning removes runs exactly where there are more than are to be kept, and as
/// many as there are more. The files that go are the logs of the runs that go, all
/// of them and no others, the oldest first.
pub proof fn law_clean_removes_the_oldest(s: Seq<RunView>, keep: nat, i: int)
    ensures
        clean_of(s, keep) is Nothing <==> s.len() <= keep,
        clean_of(s, keep) matches CleanPlanView::Nothing { count } ==> count == s.len(),
        clean_of(s, keep) matches CleanPlanView::Remove { paths, removed, log } ==> {
            &&& removed == s.len() - keep
            &&& 0 <= i < removed && s[i].log_path.len() > 0 ==> paths.contains(s[i].log_path)
            &&& 0 <= i < paths.len() ==> paths[i].len() > 0 && exists|j: int|
                0 <= j < removed && (#[trigger] s[j]).log_path == paths[i]
            &&& paths.len() <= removed
            &&& (forall|j: int| 0 <= j < removed ==> (#[trigger] s[j]).log_path.len() > 0) ==> paths
                == Seq::new(removed, |j: int| s[j].log_path)
        },
{
    if s.len() > keep {
        let n = s.len() - keep;
        let old = s.take(n);
        lemma_log_paths(old);
        let paths = log_paths(old);
        if 0 <= i < n && s[i].log_path.len() > 0 {
            assert(old[i] == s[i]);
            assert(paths.contains(old[i].log_path));
        }
        if 0 <= i < paths.len() {
            let j = choose|j: int| 0 <= j < old.len() && (#[trigger] old[j]).log_path == paths[i];
            assert(s[j].log_path == paths[i]);
        }
        if forall|j: int| 0 <= j < n ==> (#[trigger] s[j]).log_path.len() > 0 {
            assert forall|j: int| 0 <= j < old.len() implies (#[trigger] old[j]).log_path.len() > 0 by {
                assert(s[j].log_path.len() > 0);
            }
            assert(paths =~= Seq::new(n as nat, |j: int| s[j].log_path));
        }
    }
}

proof fn lemma_log_paths(s: Seq<RunView>)
    ensures
        log_paths(s).len() <= s.len(),
        forall|i: int|
            0 <= i < s.len() && (#[trigger] s[i]).log_path.len() > 0 ==> log_paths(s).contains(
                s[i].log_path,
            ),
        forall|i: int|
            0 <= i < log_paths(s).len() ==> (#[trigger] log_paths(s)[i]).len() > 0 && exists|j: int|
                0 <= j < s.len() && (#[trigger] s[j]).log_path == log_paths(s)[i],
        (forall|j: int| 0 <= j < s.len() ==> (#[trigger] s[j]).log_path.len() > 0) ==> log_paths(s)
            == Seq::new(s.len(), |j: int| s[j].log_path),
    decreases s.len(),
{
    if s.len() > 0 {
        let t = s.drop_last();
        let p = log_paths(s);
        let q = log_paths(t);
        lemma_log_paths(t);
        assert forall|i: int| 0 <= i < s.len() && (#[trigger] s[i]).log_path.len() > 0 implies p.contains(
            s[i].log_path,
        ) by {
            if i < t.len() {
                assert(t[i].log_path == s[i].log_path);
                assert(q.contains(t[i].log_path));
                let k = choose|k: int| 0 <= k < q.len() && q[k] == s[i].log_path;
                assert(p[k] == s[i].log_path);
            } else {
                assert(p[p.len() - 1] == s[i].log_path);
            }
        }
        assert forall|i: int| 0 <= i < p.len() implies (#[trigger] p[i]).len() > 0 && exists|j: int|
            0 <= j < s.len() && (#[trigger] s[j]).log_path == p[i] by {
            if i < q.len() {
                assert(q[i].len() > 0);
                let j = choose|j: int| 0 <= j < t.len() && (#[trigger] t[j]).log_path == q[i];
                assert(s[j].log_path == p[i]);
            } else {
                assert(s[s.len() - 1].log_path == p[i]);
            }
        }
        if forall|j: int| 0 <= j < s.len() ==> (#[trigger] s[j]).log_path.len() > 0 {
            assert forall|j: int| 0 <= j < t.len() implies (#[trigger] t[j]).log_path.len() > 0 by {
                assert(s[j].log_path.len() > 0);
            }
            assert(s[s.len() - 1].log_path.len() > 0);
            assert(p =~= Seq::new(s.len(), |j: int| s[j].log_path));
        }
    } else {
        assert(log_paths(s) =~= Seq::new(s.len(), |j: int| s[j].log_path));
    }
}

/// Cleaning keeps the newest `keep` runs as they are, and there is nothing left
/// to clean.
pub proof fn law_clean_keeps_newest(log: Seq<char>, keep: nat)
    ensures
        clean_of(latest(runs_in(log)), keep) matches CleanPlanView::Remove {
            paths,
            removed,
            log: rest,
        } ==> {
            let all = latest(runs_in(log));
            &&& removed + keep == all.len()
            &&& runs_in(rest) == all.skip(removed as int)
            &&& latest(runs_in(rest)) == all.skip(removed as int)
            &&& clean_of(latest(runs_in(rest)), keep) == (CleanPlanView::Nothing { count: keep })
        },
{
    let all = latest(runs_in(log));
    if all.len() > keep {
        let n = all.len() - keep;
        let kept = all.skip(n);
        assert forall|i: int| 0 <= i < kept.len() implies storable(#[trigger] kept[i])
            && one_line(kept[i]) by {
            law_latest_is_among(runs_in(log), i + n);
            let j = choose|j: int| 0 <= j < runs_in(log).len() && runs_in(log)[j] == all[i + n];
            law_loaded_is_storable(log, j);
        }
        law_log_round_trip(kept);
        assert forall|i: int, j: int| 0 <= i < j < kept.len() implies (#[trigger] kept[i]).run_id != (
        #[trigger] kept[j]).run_id by {
            law_latest_ids_differ(runs_in(log), i + n, j + n);
        }
        lemma_distinct_latest(kept);
    }
}

/// Records with different ids are their own latest records.
proof fn lemma_distinct_latest(s: Seq<RunView>)
    requires
        forall|i: int, j: int|
            0 <= i < j < s.len() ==> (#[trigger] s[i]).run_id != (#[trigger] s[j]).run_id,
    ensures
        latest(s) == s,
    decreases s.len(),
{
    if s.len() > 0 {
        let t = s.skip(1);
        assert forall|i: int, j: int| 0 <= i < j < t.len() implies (#[trigger] t[i]).run_id != (
        #[trigger] t[j]).run_id by {
            assert(s[i + 1].run_id != s[j + 1].run_id);
        }
        lemma_distinct_latest(t);
        assert forall|k: int| 0 <= k < t.len() implies (#[trigger] t[k]).run_id != s[0].run_id by {
            assert(s[0].run_id != s[k + 1].run_id);
        }
        assert(!has_id(t, s[0].run_id));
        assert(seq![s[0]] + t =~= s);
        assert(latest(s) =~= s);
    } else {
        assert(latest(s) =~= s);
    }
}

/// A run that cleaning keeps is loaded as before, and one that it removes is no
/// longer found.
pub proof fn law_clean_changes_no_kept_run(log: Seq<char>, keep: nat, i: int)
    requires
        0 <= i < latest(runs_in(log)).len(),
    ensures
        clean_of(latest(runs_in(log)), keep) matches CleanPlanView::Remove {
            paths,
            removed,
            log: rest,
        } ==> {
            let v = latest(runs_in(log))[i];
            &&& last_with(runs_in(log), v.run_id) == Some(v)
            &&& last_with(runs_in(rest), v.run_id) == if i < removed {
                None
            } else {
                Some(v)
            }
        },
{
    let s = runs_in(log);
    let all = latest(s);
    law_clean_keeps_newest(log, keep);
    law_latest_is_last(s, all[i].run_id);
    lemma_last_with_index(all, i, s);
    if let CleanPlanView::Remove { paths, removed, log: rest } = clean_of(all, keep) {
        let kept = runs_in(rest);
        let v = all[i];
        if i < removed {
            if last_with(kept, v.run_id) is Some {
                let j = lemma_loaded_index(kept, v.run_id);
                law_latest_ids_differ(s, i, j + removed);
            }
        } else {
            assert(kept[i - removed] == v);
            lemma_last_with_index(kept, i - removed, kept);
        }
    }
}

} // verus!
