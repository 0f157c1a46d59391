//! Records of runs, and the log that keeps them: one line for each change of a
//! run's status, its fields between bars.

use vstd::prelude::*;
use vstd::string::*;
use vstd::utf8::*;

use crate::number::{
    decimal, digits, i32_text, integer, integer_i32, is_digit, law_integer_round_trip,
    law_natural_round_trip, lemma_digits, natural, natural_up_to, parse_i32, parse_u64, u64_text,
};
use crate::text::{
    cut_bytes, cuts_at, first_bytes, is_white, law_ascii_cut, lemma_lines_concat, lemma_one_line,
    lemma_trimmed_ends, lemma_trimmed_same, lemma_until, lemma_until_is, lines, lines_of,
    pieces_at_most, same, split_at_most, texts, trim, trimmed, trimmed_start, until, without_cr,
};

verus! {

// --------------------------------------------------------------------- status
/// Where a run stands.
#[derive(Debug, Clone, Copy, PartialEq, Eq, Structural)]
pub enum CiStatus {
    Running,
    Pass,
    Fail,
    Cancelled,
}

/// The word for a status.
pub open spec fn status_word(s: CiStatus) -> Seq<char> {
    match s {
        CiStatus::Running => "running"@,
        CiStatus::Pass => "pass"@,
        CiStatus::Fail => "fail"@,
        CiStatus::Cancelled => "cancelled"@,
    }
}

/// The terminal sequence that turns on the colour of a status.
pub open spec fn status_color(s: CiStatus) -> Seq<char> {
    match s {
        CiStatus::Pass => "\x1b[32m"@,
        CiStatus::Fail => "\x1b[31m"@,
        CiStatus::Running => "\x1b[33m"@,
        CiStatus::Cancelled => "\x1b[90m"@,
    }
}

/// The number that stands for a status in the log.
pub open spec fn status_number(s: CiStatus) -> int {
    match s {
        CiStatus::Running => 0,
        CiStatus::Pass => 1,
        CiStatus::Fail => 2,
        CiStatus::Cancelled => 3,
    }
}

/// The status that a number stands for; a number that stands for none is a
/// failure.
pub open spec fn status_of(n: int) -> CiStatus {
    if n == 0 {
        CiStatus::Running
    } else if n == 1 {
        CiStatus::Pass
    } else if n == 3 {
        CiStatus::Cancelled
    } else {
        CiStatus::Fail
    }
}

/// The exit code of a program whose run has ended with `s`.
pub open spec fn status_code(s: CiStatus) -> i32 {
    if s is Pass {
        0
    } else {
        1
    }
}

impl CiStatus {
    /// The exit code of a program whose run has ended so.
    pub fn exit_code(&self) -> (r: i32)
        ensures
            r == status_code(*self),
    {
        match self {
            CiStatus::Pass => 0,
            _ => 1,
        }
    }

    pub fn as_str(&self) -> (r: &str)
        ensures
            r@ == status_word(*self),
    {
        match self {
            CiStatus::Running => "running",
            CiStatus::Pass => "pass",
            CiStatus::Fail => "fail",
            CiStatus::Cancelled => "cancelled",
        }
    }

    pub fn color(&self) -> (r: &str)
        ensures
            r@ == status_color(*self),
    {
        match self {
            CiStatus::Pass => "\x1b[32m",
            CiStatus::Fail => "\x1b[31m",
            CiStatus::Running => "\x1b[33m",
            CiStatus::Cancelled => "\x1b[90m",
        }
    }

    pub fn from_int(n: i32) -> (r: Self)
        ensures
            r == status_of(n as int),
    {
        if n == 0 {
            CiStatus::Running
        } else if n == 1 {
            CiStatus::Pass
        } else if n == 3 {
            CiStatus::Cancelled
        } else {
            CiStatus::Fail
        }
    }

    pub fn to_int(&self) -> (r: i32)
        ensures
            r == status_number(*self),
    {
        match self {
            CiStatus::Running => 0,
            CiStatus::Pass => 1,
            CiStatus::Fail => 2,
            CiStatus::Cancelled => 3,
        }
    }
}

/// The number of a status stands for that status.
pub proof fn law_status_round_trip(s: CiStatus)
    ensures
        status_of(status_number(s)) == s,
{
}

// -------------------------------------------------------------------- records
/// A run as the log knows it.
#[derive(Debug)]
pub struct Run {
    pub run_id: String,
    pub pipeline: String,
    pub commit: String,
    pub branch: String,
    pub triggered_by: String,
    /// In seconds since 1970.
    pub started: u64,
    /// In seconds since 1970; 0 while the run goes on.
    pub finished: u64,
    pub status: CiStatus,
    pub log_path: String,
}

pub struct RunView {
    pub run_id: Seq<char>,
    pub pipeline: Seq<char>,
    pub commit: Seq<char>,
    pub branch: Seq<char>,
    pub triggered_by: Seq<char>,
    pub started: u64,
    pub finished: u64,
    pub status: CiStatus,
    pub log_path: Seq<char>,
}

impl View for Run {
    type V = RunView;

    open spec fn view(&self) -> RunView {
        RunView {
            run_id: self.run_id@,
            pipeline: self.pipeline@,
            commit: self.commit@,
            branch: self.branch@,
            triggered_by: self.triggered_by@,
            started: self.started,
            finished: self.finished,
            status: self.status,
            log_path: self.log_path@,
        }
    }
}

impl Clone for Run {
    fn clone(&self) -> (r: Self)
        ensures
            r@ == self@,
    {
        Run {
            run_id: self.run_id.clone(),
            pipeline: self.pipeline.clone(),
            commit: self.commit.clone(),
            branch: self.branch.clone(),
            triggered_by: self.triggered_by.clone(),
            started: self.started,
            finished: self.finished,
            status: self.status,
            log_path: self.log_path.clone(),
        }
    }
}

pub open spec fn runs_view(s: Seq<Run>) -> Seq<RunView> {
    s.map_values(|r: Run| r@)
}

// ---------------------------------------------------------------------- lines
/// The texts of `fs` with `sep` between them.
pub open spec fn joined(fs: Seq<Seq<char>>, sep: char) -> Seq<char>
    decreases fs.len(),
{
    if fs.len() == 0 {
        Seq::empty()
    } else if fs.len() == 1 {
        fs[0]
    } else {
        joined(fs.drop_last(), sep).push(sep) + fs.last()
    }
}

/// The fields of a record, in the order of the log.
pub open spec fn row_of(v: RunView) -> Seq<Seq<char>> {
    seq![
        v.run_id,
        v.pipeline,
        v.commit,
        v.branch,
        v.triggered_by,
        digits(v.started as nat),
        digits(v.finished as nat),
        decimal(status_number(v.status)),
        v.log_path,
    ]
}

/// The line that records `v`, with its end.
pub open spec fn line_of(v: RunView) -> Seq<char> {
    joined(row_of(v), '|').push('\n')
}

/// The number in a field; 0 where there is none that a `u64` can hold.
pub open spec fn number_in(s: Seq<char>) -> u64 {
    match natural_up_to(s, u64::MAX as int) {
        Some(n) => n as u64,
        None => 0,
    }
}

/// The status in a field; a failure where there is none.
pub open spec fn status_in(s: Seq<char>) -> CiStatus {
    match integer_i32(s) {
        Some(n) => status_of(n),
        None => CiStatus::Fail,
    }
}

/// The record that a line holds. Only the path of the log may be missing, and
/// only that path may hold bars.
pub open spec fn record_of(line: Seq<char>) -> Option<RunView> {
    let parts = pieces_at_most(trimmed(line), '|', 9);
    if parts.len() < 8 {
        None
    } else {
        Some(
            RunView {
                run_id: parts[0],
                pipeline: parts[1],
                commit: parts[2],
                branch: parts[3],
                triggered_by: parts[4],
                started: number_in(parts[5]),
                finished: number_in(parts[6]),
                status: status_in(parts[7]),
                log_path: if parts.len() > 8 {
                    parts[8]
                } else {
                    Seq::empty()
                },
            },
        )
    }
}

/// `fs` with bars between them.
fn join_fields(fs: &Vec<&str>) -> (r: String)
    ensures
        r@ == joined(texts(fs@), '|'),
{
    let ghost all = texts(fs@);
    let mut out = String::new();
    let mut i: usize = 0;
    proof {
        reveal_strlit("|");
        assert("|"@ =~= seq!['|']);
        assert(all.take(0) =~= Seq::empty());
    }
    while i < fs.len()
        invariant
            i <= fs.len(),
            all == texts(fs@),
            "|"@ == seq!['|'],
            out@ == joined(all.take(i as int), '|'),
        decreases fs.len() - i,
    {
        let ghost before = out@;
        if i > 0 {
            out.append("|");
        }
        out.append(fs[i]);
        proof {
            let t = all.take(i + 1);
            assert(t.drop_last() =~= all.take(i as int));
            assert(t.last() == fs@[i as int]@);
            if i > 0 {
                assert(out@ =~= before.push('|') + t.last());
            } else {
                assert(out@ =~= t[0]);
            }
        }
        i += 1;
    }
    assert(all.take(i as int) =~= all);
    out
}

impl Run {
    /// The line that records the run, with its end.
    pub fn to_line(&self) -> (r: String)
        ensures
            r@ == line_of(self@),
    {
        let started = u64_text(self.started);
        let finished = u64_text(self.finished);
        let status = i32_text(self.status.to_int());
        let mut fields: Vec<&str> = Vec::new();
        fields.push(self.run_id.as_str());
        fields.push(self.pipeline.as_str());
        fields.push(self.commit.as_str());
        fields.push(self.branch.as_str());
        fields.push(self.triggered_by.as_str());
        fields.push(started.as_str());
        fields.push(finished.as_str());
        fields.push(status.as_str());
        fields.push(self.log_path.as_str());
        assert(texts(fields@) =~= row_of(self@));
        let mut out = join_fields(&fields);
        let ghost before = out@;
        out.append("\n");
        proof {
            reveal_strlit("\n");
            assert(out@ =~= before.push('\n'));
        }
        out
    }

    /// The run that a line records.
    pub fn from_line(line: &str) -> (r: Option<Self>)
        ensures
            match r {
                Some(run) => record_of(line@) == Some(run@),
                None => record_of(line@) is None,
            },
    {
        let parts = split_at_most(trim(line), '|', 9);
        let ghost all = pieces_at_most(trimmed(line@), '|', 9);
        assert(all.len() == parts.len());
        assert(forall|i: int| 0 <= i < all.len() ==> all[i] == #[trigger] parts@[i]@);
        if parts.len() < 8 {
            return None;
        }
        let started: u64 = match parse_u64(parts[5]) {
            Some(n) => n,
            None => 0,
        };
        let finished: u64 = match parse_u64(parts[6]) {
            Some(n) => n,
            None => 0,
        };
        let number: i32 = match parse_i32(parts[7]) {
            Some(n) => n,
            None => 2,
        };
        let log_path = if parts.len() > 8 {
            parts[8].to_string()
        } else {
            String::new()
        };
        let run = Run {
            run_id: parts[0].to_string(),
            pipeline: parts[1].to_string(),
            commit: parts[2].to_string(),
            branch: parts[3].to_string(),
            triggered_by: parts[4].to_string(),
            started,
            finished,
            status: CiStatus::from_int(number),
            log_path,
        };
        assert(run@ == record_of(line@)->0);
        Some(run)
    }
}

// -------------------------------------------------------------------- the log
/// The records that lines hold; lines that hold none are passed over.
pub open spec fn records(lines: Seq<Seq<char>>) -> Seq<RunView>
    decreases lines.len(),
{
    if lines.len() == 0 {
        Seq::empty()
    } else {
        match record_of(lines.last()) {
            Some(v) => records(lines.drop_last()).push(v),
            None => records(lines.drop_last()),
        }
    }
}

/// The records of a log.
pub open spec fn runs_in(log: Seq<char>) -> Seq<RunView> {
    records(lines_of(log))
}

/// A record of `s` has the id `id`.
pub open spec fn has_id(s: Seq<RunView>, id: Seq<char>) -> bool {
    exists|i: int| 0 <= i < s.len() && (#[trigger] s[i]).run_id == id
}

/// The last record with the id `id`.
pub open spec fn last_with(s: Seq<RunView>, id: Seq<char>) -> Option<RunView>
    decreases s.len(),
{
    if s.len() == 0 {
        None
    } else if s.last().run_id == id {
        Some(s.last())
    } else {
        last_with(s.drop_last(), id)
    }
}

/// Those records behind which none of the same id follows, in their order.
pub open spec fn latest(s: Seq<RunView>) -> Seq<RunView>
    decreases s.len(),
{
    if s.len() == 0 {
        Seq::empty()
    } else if has_id(s.skip(1), s[0].run_id) {
        latest(s.skip(1))
    } else {
        seq![s[0]] + latest(s.skip(1))
    }
}

/// The records of a log.
pub fn run_list(log: &str) -> (r: Vec<Run>)
    ensures
        runs_view(r@) == runs_in(log@),
{
    let all = lines(log);
    let ghost seen = texts(all@);
    let mut out: Vec<Run> = Vec::new();
    let mut i: usize = 0;
    assert(runs_view(out@) =~= records(seen.take(0)));
    while i < all.len()
        invariant
            i <= all.len(),
            seen == texts(all@),
            runs_view(out@) == records(seen.take(i as int)),
        decreases all.len() - i,
    {
        let ghost before = out@;
        proof {
            assert(seen.take(i + 1).drop_last() =~= seen.take(i as int));
            assert(seen.take(i + 1).last() == all@[i as int]@);
        }
        if let Some(run) = Run::from_line(all[i]) {
            out.push(run);
            assert(runs_view(out@) =~= runs_view(before).push(run@));
        }
        i += 1;
    }
    assert(seen.take(i as int) =~= seen);
    out
}

/// The last record of the run `run_id` in a log.
pub fn run_load(log: &str, run_id: &str) -> (r: Option<Run>)
    ensures
        match r {
            Some(run) => last_with(runs_in(log@), run_id@) == Some(run@),
            None => last_with(runs_in(log@), run_id@) is None,
        },
{
    let runs = run_list(log);
    let ghost all = runs_view(runs@);
    let mut i: usize = runs.len();
    assert(all.take(i as int) =~= all);
    while i > 0
        invariant
            i <= runs.len(),
            all == runs_view(runs@),
            all == runs_in(log@),
            last_with(all, run_id@) == last_with(all.take(i as int), run_id@),
        decreases i,
    {
        let ghost t = all.take(i as int);
        assert(t.drop_last() =~= all.take(i - 1));
        assert(t.last() == runs@[i - 1]@);
        if same(runs[i - 1].run_id.as_str(), run_id) {
            return Some(runs[i - 1].clone());
        }
        i -= 1;
    }
    None
}

/// A run among `runs` has the id `id`.
fn holds_id(runs: &Vec<Run>, id: &str) -> (r: bool)
    ensures
        r == has_id(runs_view(runs@), id@),
{
    let ghost all = runs_view(runs@);
    let mut i: usize = 0;
    while i < runs.len()
        invariant
            i <= runs.len(),
            all == runs_view(runs@),
            forall|j: int| 0 <= j < i ==> (#[trigger] all[j]).run_id != id@,
        decreases runs.len() - i,
    {
        assert(all[i as int] == runs@[i as int]@);
        if same(runs[i].run_id.as_str(), id) {
            return true;
        }
        i += 1;
    }
    false
}

/// A record has an id exactly where a latest one has it.
pub proof fn lemma_latest_ids(s: Seq<RunView>, id: Seq<char>)
    ensures
        has_id(latest(s), id) == has_id(s, id),
    decreases s.len(),
{
    if s.len() > 0 {
        let t = s.skip(1);
        lemma_latest_ids(t, id);
        lemma_latest_ids(t, s[0].run_id);
        let l = latest(s);
        if has_id(t, id) {
            let i = choose|i: int| 0 <= i < t.len() && (#[trigger] t[i]).run_id == id;
            assert(s[i + 1].run_id == id);
            let k = choose|k: int| 0 <= k < latest(t).len() && (#[trigger] latest(t)[k]).run_id == id;
            if !has_id(t, s[0].run_id) {
                assert(l[k + 1].run_id == id);
            } else {
                assert(l[k].run_id == id);
            }
        }
        if has_id(s, id) && !has_id(t, id) {
            let i = choose|i: int| 0 <= i < s.len() && (#[trigger] s[i]).run_id == id;
            if i > 0 {
                assert(t[i - 1].run_id == id);
            }
            assert(l[0].run_id == id);
        }
        if has_id(l, id) && !has_id(t, id) {
            let k = choose|k: int| 0 <= k < l.len() && (#[trigger] l[k]).run_id == id;
            if has_id(t, s[0].run_id) {
                assert(latest(t)[k].run_id == id);
            } else if k > 0 {
                assert(latest(t)[k - 1].run_id == id);
            }
            assert(s[0].run_id == id);
        }
    }
}

/// Those of `runs` behind which none of the same id follows, in their order.
pub fn dedup_runs(runs: &[Run]) -> (r: Vec<Run>)
    ensures
        runs_view(r@) == latest(runs_view(runs@)),
{
    let ghost all = runs_view(runs@);
    let mut kept: Vec<Run> = Vec::new();
    let mut i: usize = runs.len();
    assert(runs_view(kept@).reverse() =~= latest(all.skip(i as int)));
    while i > 0
        invariant
            i <= runs.len(),
            all == runs_view(runs@),
            runs_view(kept@).reverse() == latest(all.skip(i as int)),
        decreases i,
    {
        let run = &runs[i - 1];
        let ghost s = all.skip(i - 1);
        let ghost before = runs_view(kept@);
        proof {
            assert(s.skip(1) =~= all.skip(i as int));
            assert(s[0] == run@);
            lemma_latest_ids(all.skip(i as int), run@.run_id);
            lemma_reverse_ids(before, run@.run_id);
        }
        if !holds_id(&kept, run.run_id.as_str()) {
            kept.push(run.clone());
            proof {
                assert(runs_view(kept@) =~= before.push(run@));
                assert(before.push(run@).reverse() =~= seq![run@] + before.reverse());
            }
        }
        i -= 1;
    }
    assert(all.skip(0) =~= all);
    let ghost target = runs_view(kept@).reverse();
    let mut out: Vec<Run> = Vec::new();
    assert(runs_view(out@) + runs_view(kept@).reverse() =~= target);
    while kept.len() > 0
        invariant
            runs_view(out@) + runs_view(kept@).reverse() == target,
        decreases kept.len(),
    {
        let ghost k = runs_view(kept@);
        let ghost o = runs_view(out@);
        if let Some(run) = kept.pop() {
            out.push(run);
            proof {
                assert(k =~= runs_view(kept@).push(run@));
                assert(runs_view(out@) =~= o.push(run@));
                assert(o + k.reverse() =~= o.push(run@) + runs_view(kept@).reverse());
            }
        }
    }
    assert(runs_view(out@) =~= target);
    out
}

proof fn lemma_reverse_ids(s: Seq<RunView>, id: Seq<char>)
    ensures
        has_id(s.reverse(), id) == has_id(s, id),
{
    if has_id(s, id) {
        let i = choose|i: int| 0 <= i < s.len() && (#[trigger] s[i]).run_id == id;
        assert(s.reverse()[s.len() - 1 - i].run_id == id);
    }
    if has_id(s.reverse(), id) {
        let i = choose|i: int| 0 <= i < s.len() && (#[trigger] s.reverse()[i]).run_id == id;
        assert(s[s.len() - 1 - i].run_id == id);
    }
}

/// The latest record of each run in a log, in the order of the log.
pub fn run_list_dedup(log: &str) -> (r: Vec<Run>)
    ensures
        runs_view(r@) == latest(runs_in(log@)),
{
    let all = run_list(log);
    dedup_runs(all.as_slice())
}

// -------------------------------------------------------------- life of a run
/// The record of a run by hand, when it begins.
pub open spec fn manual_record(
    run_id: Seq<char>,
    pipeline: Seq<char>,
    commit: Seq<char>,
    branch: Seq<char>,
    started: u64,
    log_path: Seq<char>,
) -> RunView {
    RunView {
        run_id,
        pipeline,
        commit: if commit.len() == 0 {
            "none"@
        } else {
            first_bytes(commit, 40)
        },
        branch: if branch.len() == 0 {
            "unknown"@
        } else {
            branch
        },
        triggered_by: "manual"@,
        started,
        finished: 0,
        status: CiStatus::Running,
        log_path,
    }
}

/// The record of a run that a push has caused, when it begins.
pub open spec fn push_record(
    run_id: Seq<char>,
    pipeline: Seq<char>,
    commit: Seq<char>,
    branch: Seq<char>,
    started: u64,
    log_path: Seq<char>,
) -> RunView {
    RunView {
        run_id,
        pipeline,
        commit: if commit.len() == 0 {
            "none"@
        } else {
            commit
        },
        branch,
        triggered_by: "push"@,
        started,
        finished: 0,
        status: CiStatus::Running,
        log_path,
    }
}

/// The status of a run that has ended with `code`.
pub open spec fn status_for(code: i32) -> CiStatus {
    if code == 0 {
        CiStatus::Pass
    } else {
        CiStatus::Fail
    }
}

/// The record of a run that has ended.
pub open spec fn ended_record(v: RunView, finished: u64, status: CiStatus) -> RunView {
    RunView { finished, status, ..v }
}

/// The record of a run that has ended with `code`. One that was cancelled stays
/// cancelled.
pub open spec fn closed_record(v: RunView, finished: u64, code: i32) -> RunView {
    ended_record(
        v,
        finished,
        if v.status is Cancelled {
            CiStatus::Cancelled
        } else {
            status_for(code)
        },
    )
}

impl Run {
    /// The record of a run by hand, when it begins. A commit is kept to its first
    /// 40 bytes.
    pub fn manual(
        run_id: &str,
        pipeline: &str,
        commit: &str,
        branch: &str,
        started: u64,
        log_path: &str,
    ) -> (r: Run)
        requires
            cuts_at(commit@, 40),
        ensures
            r@ == manual_record(run_id@, pipeline@, commit@, branch@, started, log_path@),
    {
        Run {
            run_id: run_id.to_string(),
            pipeline: pipeline.to_string(),
            commit: if commit.is_empty() {
                "none".to_string()
            } else {
                cut_bytes(commit, 40).to_string()
            },
            branch: if branch.is_empty() {
                "unknown".to_string()
            } else {
                branch.to_string()
            },
            triggered_by: "manual".to_string(),
            started,
            finished: 0,
            status: CiStatus::Running,
            log_path: log_path.to_string(),
        }
    }

    /// The record of a run that a push has caused, when it begins.
    pub fn pushed(
        run_id: &str,
        pipeline: &str,
        commit: &str,
        branch: &str,
        started: u64,
        log_path: &str,
    ) -> (r: Run)
        ensures
            r@ == push_record(run_id@, pipeline@, commit@, branch@, started, log_path@),
    {
        Run {
            run_id: run_id.to_string(),
            pipeline: pipeline.to_string(),
            commit: if commit.is_empty() {
                "none".to_string()
            } else {
                commit.to_string()
            },
            branch: branch.to_string(),
            triggered_by: "push".to_string(),
            started,
            finished: 0,
            status: CiStatus::Running,
            log_path: log_path.to_string(),
        }
    }

    /// The record of the run once it has ended with `code`. One that was cancelled
    /// stays cancelled.
    pub fn ended(self, finished: u64, code: i32) -> (r: Run)
        ensures
            r@ == closed_record(self@, finished, code),
    {
        let mut r = self;
        r.finished = finished;
        r.status = match r.status {
            CiStatus::Cancelled => CiStatus::Cancelled,
            _ => if code == 0 {
                CiStatus::Pass
            } else {
                CiStatus::Fail
            },
        };
        r
    }

    /// The record of the run once it has been cancelled.
    pub fn cancelled(self, finished: u64) -> (r: Run)
        ensures
            r@ == ended_record(self@, finished, CiStatus::Cancelled),
    {
        let mut r = self;
        r.finished = finished;
        r.status = CiStatus::Cancelled;
        r
    }
}

// ------------------------------------------------------------ laws of the log
/// A record that its line gives back: no bar stands in a field before the path
/// of the log, and trimming the line takes nothing off it.
pub open spec fn storable(v: RunView) -> bool {
    &&& !v.run_id.contains('|')
    &&& !v.pipeline.contains('|')
    &&& !v.commit.contains('|')
    &&& !v.branch.contains('|')
    &&& !v.triggered_by.contains('|')
    &&& v.run_id.len() > 0 ==> !is_white(v.run_id[0])
    &&& v.log_path.len() > 0 ==> !is_white(v.log_path.last())
}

/// No field of `v` breaks the line.
pub open spec fn one_line(v: RunView) -> bool {
    &&& !v.run_id.contains('\n')
    &&& !v.pipeline.contains('\n')
    &&& !v.commit.contains('\n')
    &&& !v.branch.contains('\n')
    &&& !v.triggered_by.contains('\n')
    &&& !v.log_path.contains('\n')
}

/// A log that is empty or ends with the end of a line.
pub open spec fn complete(log: Seq<char>) -> bool {
    log.len() > 0 ==> log.last() == '\n'
}

/// The log that holds the lines of `vs`.
pub open spec fn log_of(vs: Seq<RunView>) -> Seq<char>
    decreases vs.len(),
{
    if vs.len() == 0 {
        Seq::empty()
    } else {
        log_of(vs.drop_last()) + line_of(vs.last())
    }
}

/// Joining texts puts the first one and a separator before the rest.
proof fn lemma_joined_front(fs: Seq<Seq<char>>, sep: char)
    requires
        fs.len() > 1,
    ensures
        joined(fs, sep) == fs[0].push(sep) + joined(fs.skip(1), sep),
    decreases fs.len(),
{
    if fs.len() == 2 {
        assert(joined(fs.drop_last(), sep) == fs[0]);
        assert(joined(fs.skip(1), sep) == fs[1]);
        assert(joined(fs, sep) =~= fs[0].push(sep) + joined(fs.skip(1), sep));
    } else {
        lemma_joined_front(fs.drop_last(), sep);
        assert(fs.drop_last().skip(1) =~= fs.skip(1).drop_last());
        assert(joined(fs, sep) =~= fs[0].push(sep) + joined(fs.skip(1), sep));
    }
}

/// Splitting what was joined gives the texts back, where at most the last one
/// holds the separator.
pub proof fn lemma_split_joined(fs: Seq<Seq<char>>, sep: char)
    requires
        fs.len() > 0,
        forall|i: int| 0 <= i < fs.len() - 1 ==> !(#[trigger] fs[i]).contains(sep),
    ensures
        pieces_at_most(joined(fs, sep), sep, fs.len()) == fs,
    decreases fs.len(),
{
    let s = joined(fs, sep);
    if fs.len() == 1 {
        assert(seq![s] =~= fs);
    } else {
        lemma_joined_front(fs, sep);
        let k = fs[0].len() as int;
        assert forall|j: int| 0 <= j < k implies s[j] != sep by {
            assert(fs[0][j] == s[j]);
            assert(!fs[0].contains(sep));
        }
        lemma_until_is(s, sep, k);
        assert(s.take(k) =~= fs[0]);
        assert(s.skip(k + 1) =~= joined(fs.skip(1), sep));
        assert forall|i: int| 0 <= i < fs.skip(1).len() - 1 implies !(#[trigger] fs.skip(
            1,
        )[i]).contains(sep) by {
            assert(!fs[i + 1].contains(sep));
        }
        lemma_split_joined(fs.skip(1), sep);
        assert(seq![fs[0]] + fs.skip(1) =~= fs);
    }
}

proof fn lemma_digits_free(n: nat, c: char)
    requires
        c == '|' || c == '\n',
    ensures
        !digits(n).contains(c),
{
    lemma_digits(n);
    if digits(n).contains(c) {
        let i = choose|i: int| 0 <= i < digits(n).len() && digits(n)[i] == c;
        assert(is_digit(digits(n)[i]));
    }
}

/// The body of a record's line: where it begins and ends, and what it holds.
proof fn lemma_body(v: RunView)
    requires
        storable(v),
    ensures
        joined(row_of(v), '|').len() > 0,
        !is_white(joined(row_of(v), '|')[0]),
        !is_white(joined(row_of(v), '|').last()),
{
    let fs = row_of(v);
    let body = joined(fs, '|');
    lemma_joined_front(fs, '|');
    assert(body == joined(fs.drop_last(), '|').push('|') + fs.last());
    assert(fs[0] == v.run_id);
    assert(fs.last() == v.log_path);
    if v.run_id.len() > 0 {
        assert(body[0] == v.run_id[0]);
    } else {
        assert(body[0] == '|');
    }
    if v.log_path.len() > 0 {
        assert(body.last() == v.log_path.last());
    } else {
        assert(body.last() == '|');
    }
}

/// Reading the body of a record's line gives the record back.
proof fn lemma_body_read(v: RunView)
    requires
        storable(v),
    ensures
        record_of(joined(row_of(v), '|')) == Some(v),
{
    let fs = row_of(v);
    let body = joined(fs, '|');
    lemma_body(v);
    lemma_trimmed_same(body);
    lemma_digits_free(v.started as nat, '|');
    lemma_digits_free(v.finished as nat, '|');
    lemma_digits_free(status_number(v.status) as nat, '|');
    assert forall|i: int| 0 <= i < fs.len() - 1 implies !(#[trigger] fs[i]).contains('|') by {}
    lemma_split_joined(fs, '|');
    law_natural_round_trip(v.started as nat);
    law_natural_round_trip(v.finished as nat);
    law_integer_round_trip(status_number(v.status));
    law_status_round_trip(v.status);
}

/// Reading the line of a record gives the record back.
pub proof fn law_record_round_trip(v: RunView)
    requires
        storable(v),
    ensures
        record_of(line_of(v)) == Some(v),
{
    let body = joined(row_of(v), '|');
    let line = line_of(v);
    lemma_body(v);
    lemma_body_read(v);
    lemma_trimmed_same(body);
    assert(line[0] == body[0]);
    assert(trimmed_start(line) == line);
    assert(line.drop_last() =~= body);
    assert(is_white('\n'));
    assert(trimmed(line) == trimmed(body));
}

/// The lines of a complete log with one more line.
proof fn lemma_lines_append(log: Seq<char>, body: Seq<char>)
    requires
        complete(log),
        !body.contains('\n'),
    ensures
        lines_of(log + body.push('\n')) == lines_of(log).push(without_cr(body)),
{
    lemma_lines_concat(log, body.push('\n'));
    lemma_one_line(body);
    assert(lines_of(log + body.push('\n')) =~= lines_of(log).push(without_cr(body)));
}

proof fn lemma_joined_free(fs: Seq<Seq<char>>, c: char)
    requires
        c != '|',
        forall|i: int| 0 <= i < fs.len() ==> !(#[trigger] fs[i]).contains(c),
    ensures
        !joined(fs, '|').contains(c),
    decreases fs.len(),
{
    let s = joined(fs, '|');
    if s.contains(c) {
        let j = choose|j: int| 0 <= j < s.len() && s[j] == c;
        if fs.len() == 1 {
            assert(fs[0][j] == c);
            assert(fs[0].contains(c));
        } else {
            let front = joined(fs.drop_last(), '|');
            lemma_joined_free(fs.drop_last(), c);
            if j < front.len() {
                assert(front[j] == c);
            } else if j > front.len() {
                assert(fs.last()[j - front.len() - 1] == c);
                assert(fs[fs.len() - 1].contains(c));
            }
        }
    }
}

/// Appending the line of a record to a log appends the record to what the log
/// holds.
pub proof fn law_save_appends(log: Seq<char>, v: RunView)
    requires
        complete(log),
        storable(v),
        one_line(v),
    ensures
        runs_in(log + line_of(v)) == runs_in(log).push(v),
        complete(log + line_of(v)),
{
    let fs = row_of(v);
    let body = joined(fs, '|');
    lemma_digits_free(v.started as nat, '\n');
    lemma_digits_free(v.finished as nat, '\n');
    lemma_digits_free(status_number(v.status) as nat, '\n');
    assert forall|i: int| 0 <= i < fs.len() implies !(#[trigger] fs[i]).contains('\n') by {}
    lemma_joined_free(fs, '\n');
    lemma_lines_append(log, body);
    lemma_body(v);
    assert(is_white('\r'));
    lemma_body_read(v);
    let before = lines_of(log);
    assert(before.push(body).drop_last() =~= before);
}

/// What a log of records holds is those records.
pub proof fn law_log_round_trip(vs: Seq<RunView>)
    requires
        forall|i: int| 0 <= i < vs.len() ==> storable(#[trigger] vs[i]) && one_line(vs[i]),
    ensures
        runs_in(log_of(vs)) == vs,
        complete(log_of(vs)),
    decreases vs.len(),
{
    if vs.len() == 0 {
        assert(records(lines_of(Seq::<char>::empty())) =~= vs);
    } else {
        assert forall|i: int| 0 <= i < vs.drop_last().len() implies storable(
            #[trigger] vs.drop_last()[i],
        ) && one_line(vs.drop_last()[i]) by {
            assert(storable(vs[i]));
        }
        law_log_round_trip(vs.drop_last());
        assert(storable(vs[vs.len() - 1]));
        law_save_appends(log_of(vs.drop_last()), vs.last());
        assert(vs.drop_last().push(vs.last()) =~= vs);
    }
}

/// Appending the lines of records to a log appends the records to what the log
/// holds.
pub proof fn law_saves_append(log: Seq<char>, vs: Seq<RunView>)
    requires
        complete(log),
        forall|i: int| 0 <= i < vs.len() ==> storable(#[trigger] vs[i]) && one_line(vs[i]),
    ensures
        runs_in(log + log_of(vs)) == runs_in(log) + vs,
        complete(log + log_of(vs)),
    decreases vs.len(),
{
    if vs.len() == 0 {
        assert(log + log_of(vs) =~= log);
        assert(runs_in(log) + vs =~= runs_in(log));
    } else {
        let front = vs.drop_last();
        assert forall|i: int| 0 <= i < front.len() implies storable(#[trigger] front[i])
            && one_line(front[i]) by {
            assert(storable(vs[i]));
        }
        law_saves_append(log, front);
        assert(storable(vs[vs.len() - 1]));
        law_save_appends(log + log_of(front), vs.last());
        assert(log + log_of(vs) =~= log + log_of(front) + line_of(vs.last()));
        assert((runs_in(log) + front).push(vs.last()) =~= runs_in(log) + vs);
    }
}

/// Loading a run gives back the record that was saved last; what is loaded of
/// other runs does not change.
pub proof fn law_load_gives_last_save(log: Seq<char>, v: RunView, id: Seq<char>)
    requires
        complete(log),
        storable(v),
        one_line(v),
    ensures
        last_with(runs_in(log + line_of(v)), v.run_id) == Some(v),
        id != v.run_id ==> last_with(runs_in(log + line_of(v)), id) == last_with(runs_in(log), id),
{
    law_save_appends(log, v);
    assert(runs_in(log).push(v).drop_last() =~= runs_in(log));
}

proof fn lemma_pieces(s: Seq<char>, sep: char, n: nat)
    requires
        n > 0,
    ensures
        0 < pieces_at_most(s, sep, n).len() <= n,
        forall|i: int|
            0 <= i < pieces_at_most(s, sep, n).len() && i < n - 1 ==> !(#[trigger] pieces_at_most(
                s,
                sep,
                n,
            )[i]).contains(sep),
        forall|i: int, c: char|
            0 <= i < pieces_at_most(s, sep, n).len() && (#[trigger] pieces_at_most(
                s,
                sep,
                n,
            )[i].contains(c)) ==> s.contains(c),
        pieces_at_most(s, sep, n)[0].len() > 0 ==> s.len() > 0 && pieces_at_most(s, sep, n)[0][0]
            == s[0],
        pieces_at_most(s, sep, n).last().len() > 0 ==> s.len() > 0 && pieces_at_most(
            s,
            sep,
            n,
        ).last().last() == s.last(),
    decreases n,
{
    let p = pieces_at_most(s, sep, n);
    lemma_until(s, sep);
    let k = until(s, sep);
    if n == 1 || k >= s.len() {
        assert(p =~= seq![s]);
        if n > 1 {
            assert(!s.contains(sep));
        }
    } else {
        let rest = s.skip(k + 1);
        let q = pieces_at_most(rest, sep, (n - 1) as nat);
        lemma_pieces(rest, sep, (n - 1) as nat);
        assert(p =~= seq![s.take(k)] + q);
        assert(p.last() == q.last());
        assert forall|i: int| 0 <= i < p.len() && i < n - 1 implies !(#[trigger] p[i]).contains(
            sep,
        ) by {
            if i == 0 {
                if p[0].contains(sep) {
                    let j = choose|j: int| 0 <= j < p[0].len() && p[0][j] == sep;
                    assert(s[j] == sep);
                }
            } else {
                assert(p[i] == q[i - 1]);
            }
        }
        assert forall|i: int, c: char| 0 <= i < p.len() && (#[trigger] p[i].contains(c)) implies
            s.contains(c) by {
            if i == 0 {
                let j = choose|j: int| 0 <= j < p[0].len() && p[0][j] == c;
                assert(s[j] == c);
            } else {
                assert(q[i - 1].contains(c));
                let j = choose|j: int| 0 <= j < rest.len() && rest[j] == c;
                assert(s[j + k + 1] == c);
            }
        }
        if q.last().len() > 0 {
            assert(rest.last() == s.last());
        }
    }
}

/// No line holds the end of a line.
proof fn lemma_lines_free(s: Seq<char>, i: int)
    requires
        0 <= i < lines_of(s).len(),
    ensures
        !lines_of(s)[i].contains('\n'),
    decreases s.len(),
{
    lemma_until(s, '\n');
    let k = until(s, '\n');
    let l = lines_of(s)[i];
    if k < s.len() {
        if i == 0 {
            assert(l == without_cr(s.take(k)));
            if l.contains('\n') {
                let j = choose|j: int| 0 <= j < l.len() && l[j] == '\n';
                assert(s[j] == '\n');
            }
        } else {
            lemma_lines_free(s.skip(k + 1), i - 1);
        }
    } else {
        assert(l == s);
    }
}

/// What a line records can be stored again, and on one line where the line is
/// one.
proof fn lemma_record_storable(line: Seq<char>)
    requires
        record_of(line) is Some,
    ensures
        storable(record_of(line)->0),
        !line.contains('\n') ==> one_line(record_of(line)->0),
{
    let t = trimmed(line);
    let parts = pieces_at_most(t, '|', 9);
    lemma_trimmed_ends(line);
    lemma_pieces(t, '|', 9);
    let v = record_of(line)->0;
    assert(!parts[0].contains('|') && !parts[1].contains('|') && !parts[2].contains('|')
        && !parts[3].contains('|') && !parts[4].contains('|'));
    if parts.len() > 8 {
        assert(parts.last() == parts[8]);
    }
    if !line.contains('\n') {
        assert(!t.contains('\n'));
        assert(!parts[0].contains('\n') && !parts[1].contains('\n') && !parts[2].contains('\n')
            && !parts[3].contains('\n') && !parts[4].contains('\n'));
        if parts.len() > 8 {
            assert(!parts[8].contains('\n'));
        }
    }
}

proof fn lemma_records_storable(lines: Seq<Seq<char>>, i: int)
    requires
        0 <= i < records(lines).len(),
        forall|j: int| 0 <= j < lines.len() ==> !(#[trigger] lines[j]).contains('\n'),
    ensures
        storable(records(lines)[i]),
        one_line(records(lines)[i]),
    decreases lines.len(),
{
    let init = lines.drop_last();
    assert forall|j: int| 0 <= j < init.len() implies !(#[trigger] init[j]).contains('\n') by {
        assert(!lines[j].contains('\n'));
    }
    if i < records(init).len() {
        lemma_records_storable(init, i);
    } else {
        assert(!lines[lines.len() - 1].contains('\n'));
        lemma_record_storable(lines.last());
    }
}

/// Whatever a log holds can be stored again.
pub proof fn law_loaded_is_storable(log: Seq<char>, i: int)
    requires
        0 <= i < runs_in(log).len(),
    ensures
        storable(runs_in(log)[i]),
        one_line(runs_in(log)[i]),
{
    let ls = lines_of(log);
    assert forall|j: int| 0 <= j < ls.len() implies !(#[trigger] ls[j]).contains('\n') by {
        lemma_lines_free(log, j);
    }
    lemma_records_storable(ls, i);
}

/// Only a record that is storable and takes one line is given back.
pub proof fn law_only_storable_is_given_back(log: Seq<char>, v: RunView)
    ensures
        record_of(line_of(v)) == Some(v) <==> storable(v),
        complete(log) ==> (runs_in(log + line_of(v)) == runs_in(log).push(v) <==> storable(v)
            && one_line(v)),
{
    if storable(v) {
        law_record_round_trip(v);
        if complete(log) && one_line(v) {
            law_save_appends(log, v);
        }
    } else if record_of(line_of(v)) is Some {
        lemma_record_storable(line_of(v));
    }
    let after = runs_in(log + line_of(v));
    if after == runs_in(log).push(v) {
        law_loaded_is_storable(log + line_of(v), after.len() - 1);
    }
}

/// A run that is recorded when it begins and when it ends is loaded as it ended,
/// and listed once, as it ended and behind what was listed of other runs.
pub proof fn law_ended_run_is_loaded(log: Seq<char>, v: RunView, finished: u64, status: CiStatus)
    requires
        complete(log),
        storable(v),
        one_line(v),
    ensures
        ({
            let w = ended_record(v, finished, status);
            let after = runs_in(log + line_of(v) + line_of(w));
            &&& last_with(after, v.run_id) == Some(w)
            &&& latest(after).last() == w
            &&& forall|i: int|
                0 <= i < latest(after).len() - 1 ==> (#[trigger] latest(after)[i]).run_id != v.run_id
        }),
{
    let w = ended_record(v, finished, status);
    law_save_appends(log, v);
    law_load_gives_last_save(log + line_of(v), w, v.run_id);
    law_save_appends(log + line_of(v), w);
    let after = runs_in(log + line_of(v) + line_of(w));
    law_latest_ends_with_last(after);
    assert forall|i: int| 0 <= i < latest(after).len() - 1 implies (#[trigger] latest(
        after,
    )[i]).run_id != v.run_id by {
        law_latest_ids_differ(after, i, latest(after).len() - 1);
    }
}

// ---------------------------------------------------------- laws of the fields
/// The line of a record holds its fields in this order, between bars: the run, its
/// pipeline, its commit, its branch, what caused it, when it began and when it
/// ended in seconds, the number of its status, and the path of its log.
pub proof fn law_line_holds_the_fields(v: RunView)
    ensures
        line_of(v) == v.run_id + seq!['|'] + v.pipeline + seq!['|'] + v.commit + seq!['|']
            + v.branch + seq!['|'] + v.triggered_by + seq!['|'] + digits(v.started as nat)
            + seq!['|'] + digits(v.finished as nat) + seq!['|'] + decimal(status_number(v.status))
            + seq!['|'] + v.log_path + seq!['\n'],
{
    let f = row_of(v);
    let b = seq!['|'];
    let f8 = f.drop_last();
    let f7 = f8.drop_last();
    let f6 = f7.drop_last();
    let f5 = f6.drop_last();
    let f4 = f5.drop_last();
    let f3 = f4.drop_last();
    let f2 = f3.drop_last();
    let f1 = f2.drop_last();
    assert(joined(f1, '|') == v.run_id);
    assert(joined(f2, '|') =~= v.run_id + b + v.pipeline);
    assert(joined(f3, '|') =~= joined(f2, '|') + b + v.commit);
    assert(joined(f4, '|') =~= joined(f3, '|') + b + v.branch);
    assert(joined(f5, '|') =~= joined(f4, '|') + b + v.triggered_by);
    assert(joined(f6, '|') =~= joined(f5, '|') + b + digits(v.started as nat));
    assert(joined(f7, '|') =~= joined(f6, '|') + b + digits(v.finished as nat));
    assert(joined(f8, '|') =~= joined(f7, '|') + b + decimal(status_number(v.status)));
    assert(joined(f, '|') =~= joined(f8, '|') + b + v.log_path);
    assert(line_of(v) =~= joined(f, '|') + seq!['\n']);
}

proof fn lemma_split_all(fs: Seq<Seq<char>>, sep: char, n: nat)
    requires
        0 < fs.len() <= n,
        forall|i: int| 0 <= i < fs.len() ==> !(#[trigger] fs[i]).contains(sep),
    ensures
        pieces_at_most(joined(fs, sep), sep, n) == fs,
    decreases fs.len(),
{
    let s = joined(fs, sep);
    lemma_until(s, sep);
    if fs.len() == 1 {
        assert(!fs[0].contains(sep));
        if until(s, sep) < s.len() {
            assert(fs[0].contains(s[until(s, sep)]));
        }
        assert(seq![s] =~= fs);
    } else {
        lemma_joined_front(fs, sep);
        let k = fs[0].len() as int;
        assert forall|j: int| 0 <= j < k implies s[j] != sep by {
            assert(!fs[0].contains(sep));
            assert(s[j] == fs[0][j]);
        }
        assert(s[k] == sep);
        lemma_until_is(s, sep, k);
        assert(s.take(k) =~= fs[0]);
        assert(s.skip(k + 1) =~= joined(fs.skip(1), sep));
        assert forall|i: int| 0 <= i < fs.skip(1).len() implies !(
        #[trigger] fs.skip(1)[i]).contains(sep) by {
            assert(!fs[i + 1].contains(sep));
        }
        lemma_split_all(fs.skip(1), sep, (n - 1) as nat);
        assert(seq![fs[0]] + fs.skip(1) =~= fs);
    }
}

/// A line of eight fields, whatever they hold, is a record without a log; a number
/// that is none counts as 0, and a status that is none as a failure.
pub proof fn law_eight_fields_are_a_record(fs: Seq<Seq<char>>)
    requires
        fs.len() == 8,
        forall|i: int| 0 <= i < 8 ==> !(#[trigger] fs[i]).contains('|'),
        fs[0].len() > 0 ==> !is_white(fs[0][0]),
        fs[7].len() > 0 ==> !is_white(fs[7].last()),
    ensures
        record_of(joined(fs, '|')) matches Some(v) && {
            &&& v.run_id == fs[0] && v.pipeline == fs[1] && v.commit == fs[2] && v.branch == fs[3]
            &&& v.triggered_by == fs[4] && v.log_path.len() == 0
            &&& natural(fs[5]) is Some && natural(fs[5])->0 <= u64::MAX ==> v.started == natural(fs[5])->0
            &&& (natural(fs[5]) is None || natural(fs[5])->0 > u64::MAX) ==> v.started == 0
            &&& natural(fs[6]) is Some && natural(fs[6])->0 <= u64::MAX ==> v.finished == natural(fs[6])->0
            &&& (natural(fs[6]) is None || natural(fs[6])->0 > u64::MAX) ==> v.finished == 0
            &&& v.status is Running <==> integer(fs[7]) == Some(0int)
            &&& v.status is Pass <==> integer(fs[7]) == Some(1int)
            &&& v.status is Cancelled <==> integer(fs[7]) == Some(3int)
        },
{
    let body = joined(fs, '|');
    lemma_joined_front(fs, '|');
    assert(body == joined(fs.drop_last(), '|').push('|') + fs.last());
    if fs[0].len() > 0 {
        assert(body[0] == fs[0][0]);
    } else {
        assert(body[0] == '|');
    }
    if fs[7].len() > 0 {
        assert(body.last() == fs[7].last());
    } else {
        assert(body.last() == '|');
    }
    lemma_trimmed_same(body);
    lemma_split_all(fs, '|', 9);
}

/// A line with fewer than eight fields holds no record.
pub proof fn law_fewer_fields_are_no_record(fs: Seq<Seq<char>>)
    requires
        0 < fs.len() < 8,
        forall|i: int| 0 <= i < fs.len() ==> !(#[trigger] fs[i]).contains('|'),
        trimmed(joined(fs, '|')) == joined(fs, '|'),
    ensures
        record_of(joined(fs, '|')) is None,
{
    lemma_split_all(fs, '|', 9);
}

/// A line that holds no record changes nothing of what a log holds.
pub proof fn law_other_lines_are_passed_over(log: Seq<char>, line: Seq<char>)
    requires
        complete(log),
        !line.contains('\n'),
        record_of(without_cr(line)) is None,
    ensures
        runs_in(log + line.push('\n')) == runs_in(log),
{
    lemma_lines_append(log, line);
    let before = lines_of(log);
    assert(before.push(without_cr(line)).drop_last() =~= before);
}

/// An empty log holds no run.
pub proof fn law_empty_log_holds_nothing(id: Seq<char>)
    ensures
        runs_in(Seq::empty()).len() == 0,
        last_with(runs_in(Seq::empty()), id) is None,
        latest(runs_in(Seq::empty())).len() == 0,
{
}

// ---------------------------------------------------------- laws of the records
/// Statuses have different words, colors and numbers. Every number but three stands
/// for a failure.
pub proof fn law_statuses_differ(a: CiStatus, b: CiStatus, n: int)
    ensures
        a != b ==> status_word(a) != status_word(b) && status_color(a) != status_color(b)
            && status_number(a) != status_number(b),
        status_of(n) is Fail <==> n != 0 && n != 1 && n != 3,
        status_of(status_number(a)) == a,
        status_number(a) == 0 <==> a is Running,
        status_number(a) == 1 <==> a is Pass,
        status_number(a) == 3 <==> a is Cancelled,
{
    reveal_strlit("\x1b[33m");
    reveal_strlit("\x1b[32m");
    reveal_strlit("\x1b[31m");
    reveal_strlit("\x1b[90m");
    reveal_strlit("running");
    reveal_strlit("pass");
    reveal_strlit("fail");
    reveal_strlit("cancelled");
    assert("running"@[0] == 'r' && "pass"@[0] == 'p' && "fail"@[0] == 'f' && "cancelled"@[0] == 'c');
    assert("\x1b[33m"@[3] == '3' && "\x1b[32m"@[3] == '2' && "\x1b[31m"@[3] == '1'
        && "\x1b[90m"@[3] == '0');
}

/// A run passes exactly where it ends with the code 0, and then the program ends
/// with 0 too; it fails with every other code.
pub proof fn law_only_code_zero_passes(code: i32, status: CiStatus)
    ensures
        status_for(code) is Pass <==> code == 0,
        status_for(code) is Fail <==> code != 0,
        status_code(status) == 0 <==> status is Pass,
        status_code(status_for(code)) == 0 <==> code == 0,
{
}

/// The record of a run by hand carries what it was begun with: the run, its
/// pipeline, when it began and where its log lies; its branch wherever it has a
/// name; and of its commit the first 40 bytes, which is all of one that is no
/// longer. The run goes on and has not ended.
pub proof fn law_manual_record_carries_its_run(
    run_id: Seq<char>,
    pipeline: Seq<char>,
    commit: Seq<char>,
    branch: Seq<char>,
    started: u64,
    log_path: Seq<char>,
)
    ensures
        ({
            let v = manual_record(run_id, pipeline, commit, branch, started, log_path);
            &&& v.run_id == run_id && v.pipeline == pipeline && v.started == started && v.log_path
                == log_path
            &&& branch.len() > 0 ==> v.branch == branch
            &&& branch.len() == 0 ==> v.branch == "unknown"@
            &&& commit.len() > 0 ==> v.commit == first_bytes(commit, 40)
            &&& commit.len() > 0 && encode_utf8(commit).len() <= 40 ==> v.commit == commit
            &&& is_ascii_chars(commit) && commit.len() > 40 ==> v.commit == commit.take(40)
            &&& commit.len() == 0 ==> v.commit == "none"@
            &&& v.triggered_by == "manual"@ && v.status is Running && v.finished == 0
        }),
{
    if is_ascii_chars(commit) {
        law_ascii_cut(commit, 40);
    }
}

/// The record of a run that a push has caused carries what was announced: its
/// branch is that of the push, whatever it is, and its commit is that of the push
/// wherever it names one. The run goes on and has not ended.
pub proof fn law_push_record_carries_its_push(
    run_id: Seq<char>,
    pipeline: Seq<char>,
    commit: Seq<char>,
    branch: Seq<char>,
    started: u64,
    log_path: Seq<char>,
)
    ensures
        ({
            let v = push_record(run_id, pipeline, commit, branch, started, log_path);
            &&& v.run_id == run_id && v.pipeline == pipeline && v.started == started && v.log_path
                == log_path
            &&& v.branch == branch
            &&& commit.len() > 0 ==> v.commit == commit
            &&& commit.len() == 0 ==> v.commit == "none"@
            &&& v.triggered_by == "push"@ && v.status is Running && v.finished == 0
        }),
{
}

/// The end of a run changes when it ended and its status, and nothing else. The
/// status is that of its code, unless the run was cancelled, which it then stays.
pub proof fn law_end_changes_only_the_end(v: RunView, finished: u64, status: CiStatus, code: i32)
    ensures
        ended_record(v, finished, status) == (RunView { finished, status, ..v }),
        closed_record(v, finished, code).finished == finished,
        (RunView { finished: v.finished, status: v.status, ..closed_record(v, finished, code) }) == v,
        v.status is Cancelled ==> closed_record(v, finished, code).status is Cancelled,
        !(v.status is Cancelled) ==> (closed_record(v, finished, code).status is Pass <==> code
            == 0) && (closed_record(v, finished, code).status is Fail <==> code != 0),
{
}

// ------------------------------------------------------ laws of latest records
/// Every latest record is a record.
pub proof fn law_latest_is_among(s: Seq<RunView>, i: int)
    requires
        0 <= i < latest(s).len(),
    ensures
        s.contains(latest(s)[i]),
    decreases s.len(),
{
    let t = s.skip(1);
    if has_id(t, s[0].run_id) {
        law_latest_is_among(t, i);
        let j = choose|j: int| 0 <= j < t.len() && t[j] == latest(s)[i];
        assert(s[j + 1] == latest(s)[i]);
    } else if i > 0 {
        law_latest_is_among(t, i - 1);
        let j = choose|j: int| 0 <= j < t.len() && t[j] == latest(s)[i];
        assert(s[j + 1] == latest(s)[i]);
    } else {
        assert(s[0] == latest(s)[i]);
    }
}

/// No two latest records have the same id.
pub proof fn law_latest_ids_differ(s: Seq<RunView>, i: int, j: int)
    requires
        0 <= i < j < latest(s).len(),
    ensures
        latest(s)[i].run_id != latest(s)[j].run_id,
    decreases s.len(),
{
    let t = s.skip(1);
    if has_id(t, s[0].run_id) {
        law_latest_ids_differ(t, i, j);
    } else if i > 0 {
        law_latest_ids_differ(t, i - 1, j - 1);
    } else {
        lemma_latest_ids(t, s[0].run_id);
        if latest(s)[j].run_id == s[0].run_id {
            assert(latest(t)[j - 1].run_id == s[0].run_id);
        }
    }
}

proof fn lemma_last_with_front(s: Seq<RunView>, id: Seq<char>)
    requires
        s.len() > 0,
    ensures
        has_id(s.skip(1), id) ==> last_with(s, id) == last_with(s.skip(1), id),
        !has_id(s.skip(1), id) ==> last_with(s, id) == if s[0].run_id == id {
            Some(s[0])
        } else {
            None
        },
    decreases s.len(),
{
    let t = s.skip(1);
    if s.len() == 1 {
        assert(last_with(s.drop_last(), id) is None);
    } else {
        assert(t.last() == s.last());
        let u = s.drop_last();
        lemma_last_with_front(u, id);
        assert(u.skip(1) =~= t.drop_last());
        if s.last().run_id == id {
            assert(t[t.len() - 1].run_id == id);
        } else {
            if has_id(t, id) {
                let i = choose|i: int| 0 <= i < t.len() && (#[trigger] t[i]).run_id == id;
                assert(u.skip(1)[i].run_id == id);
            } else if has_id(u.skip(1), id) {
                let i = choose|i: int|
                    0 <= i < u.skip(1).len() && (#[trigger] u.skip(1)[i]).run_id == id;
                assert(t[i].run_id == id);
            }
        }
    }
}

proof fn lemma_last_with_none(s: Seq<RunView>, id: Seq<char>)
    ensures
        last_with(s, id) is None <==> !has_id(s, id),
        last_with(s, id) matches Some(v) ==> v.run_id == id && s.contains(v),
    decreases s.len(),
{
    if s.len() > 0 {
        let u = s.drop_last();
        if s.last().run_id == id {
            assert(s[s.len() - 1].run_id == id);
            assert(s[s.len() - 1] == s.last());
        } else {
            lemma_last_with_none(u, id);
            if has_id(u, id) {
                let i = choose|i: int| 0 <= i < u.len() && (#[trigger] u[i]).run_id == id;
                assert(s[i].run_id == id);
                let v = last_with(s, id)->0;
                let j = choose|j: int| 0 <= j < u.len() && u[j] == v;
                assert(s[j] == v);
            }
            if has_id(s, id) {
                let i = choose|i: int| 0 <= i < s.len() && (#[trigger] s[i]).run_id == id;
                assert(u[i].run_id == id);
            }
        }
    }
}

/// The latest record of a run is the last one, as loading gives it.
pub proof fn law_latest_is_last(s: Seq<RunView>, id: Seq<char>)
    ensures
        last_with(latest(s), id) == last_with(s, id),
    decreases s.len(),
{
    if s.len() > 0 {
        let t = s.skip(1);
        law_latest_is_last(t, id);
        lemma_last_with_front(s, id);
        lemma_latest_ids(t, id);
        lemma_last_with_none(t, id);
        if !has_id(t, s[0].run_id) {
            lemma_last_with_front(latest(s), id);
            assert(latest(s).skip(1) =~= latest(t));
        }
    }
}

/// The newest of the latest records is the last record.
pub proof fn law_latest_ends_with_last(s: Seq<RunView>)
    requires
        s.len() > 0,
    ensures
        latest(s).len() > 0,
        latest(s).last() == s.last(),
    decreases s.len(),
{
    let t = s.skip(1);
    if t.len() > 0 {
        law_latest_ends_with_last(t);
        assert(t.last() == s.last());
    } else {
        assert(!has_id(t, s[0].run_id));
        assert(latest(t).len() == 0);
    }
}

/// Latest records are their own latest records.
pub proof fn law_latest_is_stable(s: Seq<RunView>)
    ensures
        latest(latest(s)) == latest(s),
    decreases s.len(),
{
    if s.len() > 0 {
        let t = s.skip(1);
        law_latest_is_stable(t);
        if !has_id(t, s[0].run_id) {
            lemma_latest_ids(t, s[0].run_id);
            assert(latest(s).skip(1) =~= latest(t));
        }
    }
}

/// Latest records stand in the order in which they were recorded.
pub proof fn law_latest_keeps_order(s: Seq<RunView>, i: int, j: int)
    requires
        0 <= i < j < latest(s).len(),
    ensures
        exists|a: int, b: int|
            0 <= a < b < s.len() && s[a] == latest(s)[i] && s[b] == latest(s)[j],
    decreases s.len(),
{
    let t = s.skip(1);
    if has_id(t, s[0].run_id) || i > 0 {
        let d: int = if has_id(t, s[0].run_id) {
            0
        } else {
            1
        };
        law_latest_keeps_order(t, i - d, j - d);
        let (a, b) = choose|a: int, b: int|
            0 <= a < b < t.len() && t[a] == latest(t)[i - d] && t[b] == latest(t)[j - d];
        assert(s[a + 1] == latest(s)[i] && s[b + 1] == latest(s)[j]);
    } else {
        law_latest_is_among(t, j - 1);
        let b = choose|b: int| 0 <= b < t.len() && t[b] == latest(t)[j - 1];
        assert(s[0] == latest(s)[i] && s[b + 1] == latest(s)[j]);
    }
}

} // verus!
