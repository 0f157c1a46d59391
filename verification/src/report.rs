//! What the commands print of runs: durations, the rows of the status table and
//! of the history, and the totals of the history.

use vstd::prelude::*;
use vstd::string::*;

use crate::number::{digits, u64_text};
use crate::run::{runs_view, status_color, status_word, CiStatus, Run, RunView};
use crate::text::{cut_bytes, cuts_at, first_bytes};

verus! {

// ----------------------------------------------------------------- durations
/// A duration in seconds, or in minutes and seconds from a minute on.
pub open spec fn duration_text(secs: nat) -> Seq<char> {
    if secs < 60 {
        digits(secs) + "s"@
    } else {
        digits(secs / 60) + "m"@ + digits(secs % 60) + "s"@
    }
}

/// A duration in seconds, or in minutes and seconds from a minute on.
pub fn fmt_duration(secs: u64) -> (r: String)
    ensures
        r@ == duration_text(secs as nat),
{
    let mut out: String;
    if secs < 60 {
        out = u64_text(secs);
    } else {
        out = u64_text(secs / 60);
        out.append("m");
        let rest = u64_text(secs % 60);
        out.append(rest.as_str());
    }
    out.append("s");
    out
}

/// How long a run took; nothing while it goes on.
pub open spec fn elapsed(v: RunView) -> nat {
    if v.finished > v.started {
        (v.finished - v.started) as nat
    } else {
        0
    }
}

/// How long a run took; nothing while it goes on.
pub fn duration_of(run: &Run) -> (r: u64)
    ensures
        r == elapsed(run@),
{
    if run.finished > run.started {
        run.finished - run.started
    } else {
        0
    }
}

// ------------------------------------------------------------------- columns
/// `n` spaces.
pub open spec fn spaces(n: nat) -> Seq<char> {
    Seq::new(n, |i: int| ' ')
}

/// `s` in a column of `width` characters; a longer text stands as it is.
pub open spec fn left(s: Seq<char>, width: nat) -> Seq<char> {
    if s.len() < width {
        s + spaces((width - s.len()) as nat)
    } else {
        s
    }
}

/// `s` in a column of `width` characters; a longer text stands as it is.
pub fn pad(s: &str, width: usize) -> (r: String)
    ensures
        r@ == left(s@, width as nat),
{
    let mut out = s.to_string();
    let n = s.unicode_len();
    let mut i: usize = n;
    proof {
        reveal_strlit(" ");
        assert(spaces(0) =~= Seq::empty());
        assert(s@ + spaces(0) =~= s@);
    }
    while i < width
        invariant
            s@.len() == n <= i,
            i <= width || i == n,
            out@ == s@ + spaces((i - n) as nat),
            " "@ =~= seq![' '],
        decreases width - i,
    {
        out.append(" ");
        i += 1;
        assert(out@ =~= s@ + spaces((i - n) as nat));
    }
    out
}

/// A row of the status table.
pub open spec fn columns(
    run_id: Seq<char>,
    status: Seq<char>,
    pipeline: Seq<char>,
    branch: Seq<char>,
    duration: Seq<char>,
    commit: Seq<char>,
) -> Seq<char> {
    left(run_id, 20) + "  "@ + status + "  "@ + left(pipeline, 12) + "  "@ + left(branch, 10)
        + "  "@ + left(duration, 8) + "  "@ + commit
}

fn row(
    run_id: &str,
    status: &str,
    pipeline: &str,
    branch: &str,
    duration: &str,
    commit: &str,
) -> (r: String)
    ensures
        r@ == columns(run_id@, status@, pipeline@, branch@, duration@, commit@),
{
    let mut out = pad(run_id, 20);
    out.append("  ");
    out.append(status);
    out.append("  ");
    let pipeline = pad(pipeline, 12);
    out.append(pipeline.as_str());
    out.append("  ");
    let branch = pad(branch, 10);
    out.append(branch.as_str());
    out.append("  ");
    let duration = pad(duration, 8);
    out.append(duration.as_str());
    out.append("  ");
    out.append(commit);
    out
}

/// The titles of the status table.
pub fn status_titles() -> (r: String)
    ensures
        r@ == columns(
            "run id"@,
            left("status"@, 8),
            "pipeline"@,
            "branch"@,
            "duration"@,
            "commit"@,
        ),
{
    let status = pad("status", 8);
    row("run id", status.as_str(), "pipeline", "branch", "duration", "commit")
}

/// The line below the titles of the status table.
pub fn status_rule() -> (r: String)
    ensures
        r@ == columns(
            "────────────────────"@,
            left("────────"@, 8),
            "────────────"@,
            "──────────"@,
            "────────"@,
            "───────"@,
        ),
{
    let status = pad("────────", 8);
    row(
        "────────────────────",
        status.as_str(),
        "────────────",
        "──────────",
        "────────",
        "───────",
    )
}

/// The word of a status in its color, in a column of its own.
pub open spec fn colored(status: CiStatus) -> Seq<char> {
    status_color(status) + left(status_word(status), 8) + "\u{1b}[0m"@
}

fn colored_word(status: CiStatus) -> (r: String)
    ensures
        r@ == colored(status),
{
    let mut out = status.color().to_string();
    let word = pad(status.as_str(), 8);
    out.append(word.as_str());
    out.append("\u{1b}[0m");
    out
}

/// The row of a run in the status table, with the first seven bytes of its
/// commit.
pub open spec fn status_line(v: RunView) -> Seq<char> {
    columns(
        v.run_id,
        colored(v.status),
        v.pipeline,
        v.branch,
        duration_text(elapsed(v)),
        first_bytes(v.commit, 7),
    )
}

/// The row of a run in the status table.
pub fn status_row(run: &Run) -> (r: String)
    requires
        cuts_at(run@.commit, 7),
    ensures
        r@ == status_line(run@),
{
    let status = colored_word(run.status);
    let duration = fmt_duration(duration_of(run));
    row(
        run.run_id.as_str(),
        status.as_str(),
        run.pipeline.as_str(),
        run.branch.as_str(),
        duration.as_str(),
        cut_bytes(run.commit.as_str(), 7),
    )
}

/// The row of a run in the history, which began at the time `stamp`.
pub open spec fn history_line(v: RunView, stamp: Seq<char>) -> Seq<char> {
    "  "@ + colored(v.status) + "  "@ + v.run_id + "  "@ + stamp + "  branch:"@ + left(v.branch, 12)
        + "  "@ + v.pipeline
}

/// The row of a run in the history, which began at the time `stamp`.
pub fn history_row(run: &Run, stamp: &str) -> (r: String)
    ensures
        r@ == history_line(run@, stamp@),
{
    let mut out = "  ".to_string();
    let status = colored_word(run.status);
    out.append(status.as_str());
    out.append("  ");
    out.append(run.run_id.as_str());
    out.append("  ");
    out.append(stamp);
    out.append("  branch:");
    let branch = pad(run.branch.as_str(), 12);
    out.append(branch.as_str());
    out.append("  ");
    out.append(run.pipeline.as_str());
    out
}

// -------------------------------------------------------------------- verdicts
/// The verdict on a run that has ended.
pub open spec fn verdict(status: CiStatus) -> Seq<char> {
    "\n"@ + status_color(status) + if status is Pass {
        "PASS ✓"@
    } else {
        "FAIL ✗"@
    } + "\u{1b}[0m"@
}

/// The verdict on a run that has ended.
pub fn verdict_text(status: CiStatus) -> (r: String)
    ensures
        r@ == verdict(status),
{
    let mut out = "\n".to_string();
    out.append(status.color());
    match status {
        CiStatus::Pass => out.append("PASS ✓"),
        _ => out.append("FAIL ✗"),
    }
    out.append("\u{1b}[0m");
    out
}

/// The verdict on a run that took `seconds`.
pub open spec fn timed_verdict(status: CiStatus, seconds: nat) -> Seq<char> {
    verdict(status) + " — "@ + digits(seconds) + "s"@
}

/// The verdict on a run that took from `start` to `end`.
pub fn run_verdict(status: CiStatus, start: u64, end: u64) -> (r: String)
    requires
        start <= end,
    ensures
        r@ == verdict(status) + " — "@ + digits((end - start) as nat) + "s"@,
        r@ == timed_verdict(status, (end - start) as nat),
{
    let mut out = verdict_text(status);
    out.append(" — ");
    let seconds = u64_text(end - start);
    out.append(seconds.as_str());
    out.append("s");
    out
}

// ---------------------------------------------------------------------- totals
/// How many of the runs have the status `status`.
pub open spec fn count_status(s: Seq<RunView>, status: CiStatus) -> nat
    decreases s.len(),
{
    if s.len() == 0 {
        0
    } else {
        count_status(s.drop_last(), status) + if s.last().status == status {
            1nat
        } else {
            0nat
        }
    }
}

/// How long the runs took that have passed or failed, together.
pub open spec fn total_elapsed(s: Seq<RunView>) -> nat
    decreases s.len(),
{
    if s.len() == 0 {
        0
    } else {
        total_elapsed(s.drop_last()) + if s.last().status is Pass || s.last().status is Fail {
            elapsed(s.last())
        } else {
            0nat
        }
    }
}

/// The totals of a history.
pub open spec fn totals(s: Seq<RunView>) -> Seq<char> {
    let pass = count_status(s, CiStatus::Pass);
    let fail = count_status(s, CiStatus::Fail);
    let line = "\n"@ + digits(pass + fail) + " total  |  "@ + digits(pass) + " pass  |  "@ + digits(
        fail,
    ) + " fail"@;
    if pass + fail > 0 {
        line + "  |  avg duration: "@ + duration_text(total_elapsed(s) / (pass + fail))
    } else {
        line
    }
}

proof fn lemma_totals_grow(s: Seq<RunView>, k: int)
    requires
        0 <= k <= s.len(),
    ensures
        total_elapsed(s.take(k)) <= total_elapsed(s),
    decreases s.len(),
{
    if k == s.len() {
        assert(s.take(k) =~= s);
    } else {
        lemma_totals_grow(s.drop_last(), k);
        assert(s.drop_last().take(k) =~= s.take(k));
    }
}

/// Whether the durations of the runs add up to a number that a `u64` can hold.
pub fn totals_fit(runs: &[Run]) -> (r: bool)
    ensures
        r == (total_elapsed(runs_view(runs@)) <= u64::MAX),
{
    let ghost all = runs_view(runs@);
    let mut total: u64 = 0;
    let mut i: usize = 0;
    while i < runs.len()
        invariant
            i <= runs.len(),
            all == runs_view(runs@),
            total == total_elapsed(all.take(i as int)),
        decreases runs.len() - i,
    {
        proof {
            assert(all.take(i + 1).drop_last() =~= all.take(i as int));
            lemma_totals_grow(all, i + 1);
        }
        let took: u64 = match runs[i].status {
            CiStatus::Pass | CiStatus::Fail => duration_of(&runs[i]),
            _ => 0,
        };
        match total.checked_add(took) {
            Some(n) => {
                total = n;
            },
            None => {
                return false;
            },
        }
        i += 1;
    }
    assert(all.take(i as int) =~= all);
    true
}

/// The totals of a history.
pub fn history_totals(runs: &[Run]) -> (r: String)
    requires
        total_elapsed(runs_view(runs@)) <= u64::MAX,
    ensures
        r@ == totals(runs_view(runs@)),
{
    let ghost all = runs_view(runs@);
    let mut pass: u64 = 0;
    let mut fail: u64 = 0;
    let mut total: u64 = 0;
    let mut i: usize = 0;
    while i < runs.len()
        invariant
            i <= runs.len(),
            all == runs_view(runs@),
            pass == count_status(all.take(i as int), CiStatus::Pass),
            fail == count_status(all.take(i as int), CiStatus::Fail),
            pass + fail <= i,
            total == total_elapsed(all.take(i as int)),
            total_elapsed(all) <= u64::MAX,
        decreases runs.len() - i,
    {
        proof {
            assert(all.take(i + 1).drop_last() =~= all.take(i as int));
            lemma_totals_grow(all, i + 1);
        }
        match runs[i].status {
            CiStatus::Pass => {
                pass += 1;
                total += duration_of(&runs[i]);
            },
            CiStatus::Fail => {
                fail += 1;
                total += duration_of(&runs[i]);
            },
            _ => {},
        }
        i += 1;
    }
    assert(all.take(i as int) =~= all);
    let ended = pass + fail;
    let mut out = "\n".to_string();
    let n = u64_text(ended);
    out.append(n.as_str());
    out.append(" total  |  ");
    let n = u64_text(pass);
    out.append(n.as_str());
    out.append(" pass  |  ");
    let n = u64_text(fail);
    out.append(n.as_str());
    out.append(" fail");
    if ended > 0 {
        out.append("  |  avg duration: ");
        let average = fmt_duration(total / ended);
        out.append(average.as_str());
    }
    out
}

/// The runs of a history count as passed, failed, going on or cancelled, each as
/// one of these.
pub proof fn law_every_run_counts_once(s: Seq<RunView>)
    ensures
        count_status(s, CiStatus::Pass) + count_status(s, CiStatus::Fail) + count_status(
            s,
            CiStatus::Running,
        ) + count_status(s, CiStatus::Cancelled) == s.len(),
    decreases s.len(),
{
    if s.len() > 0 {
        law_every_run_counts_once(s.drop_last());
    }
}

// ---------------------------------------------------------------- laws of tables
/// A duration of `m` minutes and `s` seconds is written with these two numbers, and
/// one of less than a minute with its seconds alone.
pub proof fn law_durations_are_minutes_and_seconds(m: nat, s: nat)
    requires
        s < 60,
    ensures
        m == 0 ==> duration_text(60 * m + s) == digits(s) + seq!['s'],
        m > 0 ==> duration_text(60 * m + s) == digits(m) + seq!['m'] + digits(s) + seq!['s'],
{
    reveal_strlit("s");
    reveal_strlit("m");
    assert("s"@ =~= seq!['s']);
    assert("m"@ =~= seq!['m']);
    assert((60 * m + s) / 60 == m && (60 * m + s) % 60 == s);
}

/// A run that ended `d` seconds after it began took `d` seconds. One that has not
/// ended yet, or ended before it began, took none.
pub proof fn law_run_takes_from_start_to_end(v: RunView, d: nat)
    ensures
        v.finished == v.started + d ==> elapsed(v) == d,
        v.finished <= v.started ==> elapsed(v) == 0,
        v.finished == 0 ==> elapsed(v) == 0,
{
}

/// A column holds its text, with nothing but spaces behind it, and is as wide as it
/// must be; a text that is too long for it is not cut.
pub proof fn law_column_holds_its_text(s: Seq<char>, width: nat, i: int)
    ensures
        left(s, width).len() == if s.len() < width {
            width
        } else {
            s.len()
        },
        left(s, width).take(s.len() as int) == s,
        s.len() <= i < left(s, width).len() ==> left(s, width)[i] == ' ',
{
    assert(left(s, width).take(s.len() as int) =~= s);
}

/// How wide the word of a status is in its column.
spec fn word_width(status: CiStatus) -> int {
    left(status_word(status), 8).len() as int
}

proof fn lemma_colored(status: CiStatus)
    ensures
        status_color(status).len() == 5,
        word_width(status) == if status is Cancelled {
            9int
        } else {
            8
        },
        colored(status).len() == 9 + word_width(status),
        colored(status).take(5) == status_color(status),
        colored(status).subrange(5, 5int + status_word(status).len()) == status_word(status),
        0 < status_word(status).len() <= word_width(status),
{
    reveal_strlit("\x1b[33m");
    reveal_strlit("\x1b[32m");
    reveal_strlit("\x1b[31m");
    reveal_strlit("\x1b[90m");
    reveal_strlit("\u{1b}[0m");
    reveal_strlit("running");
    reveal_strlit("pass");
    reveal_strlit("fail");
    reveal_strlit("cancelled");
    let c = colored(status);
    assert(c.take(5) =~= status_color(status));
    assert(c.subrange(5, 5int + status_word(status).len()) =~= status_word(status));
}

/// How wide a column of `width` characters is with `n` characters in it.
pub open spec fn wide(n: nat, width: int) -> int {
    if n < width {
        width
    } else {
        n as int
    }
}

/// `s` stands in `t` from `at` on.
pub open spec fn holds_at(t: Seq<char>, at: int, s: Seq<char>) -> bool {
    0 <= at && at + s.len() <= t.len() && t.subrange(at, at + s.len()) == s
}

/// Nothing but spaces stands in `t` from `from` to `to`.
pub open spec fn is_blank(t: Seq<char>, from: int, to: int) -> bool {
    forall|i: int| from <= i < to ==> #[trigger] t[i] == ' '
}

/// The row of a run in the status table shows, in this order and each at its place:
/// the run, its status in the color of that status, its pipeline, its branch, how
/// long it took, and the first seven bytes of its commit. None but the commit is
/// cut, and nothing but spaces stands between them.
pub proof fn law_status_row_shows_the_run(v: RunView)
    ensures
        ({
            let t = status_line(v);
            let time = duration_text(elapsed(v));
            let word = status_word(v.status);
            let a = wide(v.run_id.len(), 20) + 2;
            let b = a + 11 + wide(word.len(), 8);
            let c = b + wide(v.pipeline.len(), 12) + 2;
            let d = c + wide(v.branch.len(), 10) + 2;
            let e = d + wide(time.len(), 8) + 2;
            &&& holds_at(t, 0, v.run_id) && is_blank(t, v.run_id.len() as int, a)
            &&& holds_at(t, a, status_color(v.status)) && status_color(v.status).len() == 5
            &&& holds_at(t, a + 5, word) && is_blank(t, a + 5 + word.len(), b - 6)
            &&& holds_at(t, b - 6, "\u{1b}[0m"@) && is_blank(t, b - 2, b)
            &&& holds_at(t, b, v.pipeline) && is_blank(t, b + v.pipeline.len(), c)
            &&& holds_at(t, c, v.branch) && is_blank(t, c + v.branch.len(), d)
            &&& holds_at(t, d, time) && is_blank(t, d + time.len(), e)
            &&& t.skip(e) == first_bytes(v.commit, 7)
        }),
{
    reveal_strlit("  ");
    reveal_strlit("\u{1b}[0m");
    lemma_colored(v.status);
    let t = status_line(v);
    let time = duration_text(elapsed(v));
    let word = status_word(v.status);
    let col = colored(v.status);
    let a = wide(v.run_id.len(), 20) + 2;
    let b = a + 11 + wide(word.len(), 8);
    let c = b + wide(v.pipeline.len(), 12) + 2;
    let d = c + wide(v.branch.len(), 10) + 2;
    let e = d + wide(time.len(), 8) + 2;
    let p1 = left(v.run_id, 20) + "  "@;
    let p2 = p1 + col + "  "@;
    let p3 = p2 + left(v.pipeline, 12) + "  "@;
    let p4 = p3 + left(v.branch, 10) + "  "@;
    let p5 = p4 + left(time, 8) + "  "@;
    assert(p1.len() == a && p2.len() == b && p3.len() == c && p4.len() == d && p5.len() == e);
    assert(t == p5 + first_bytes(v.commit, 7));
    assert(t.subrange(0, 0int + v.run_id.len()) =~= v.run_id);
    assert(col.take(5) == status_color(v.status));
    assert(t.subrange(a, a + 5) =~= col.take(5));
    assert(t.subrange(a + 5, a + 5 + word.len()) =~= col.subrange(5, 5int + word.len()));
    assert(col =~= status_color(v.status) + left(word, 8) + "\u{1b}[0m"@);
    assert(t.subrange(b - 6, b - 2) =~= "\u{1b}[0m"@);
    assert(t.subrange(b, b + v.pipeline.len()) =~= v.pipeline);
    assert(t.subrange(c, c + v.branch.len()) =~= v.branch);
    assert(t.subrange(d, d + time.len()) =~= time);
    assert(t.skip(e) =~= first_bytes(v.commit, 7));
}

/// The row of a run in the history shows its status in the color of that status,
/// the run, when it began, its branch, and at its end its pipeline.
pub proof fn law_history_row_shows_the_run(v: RunView, stamp: Seq<char>)
    ensures
        ({
            let t = history_line(v, stamp);
            let w: int = if v.status is Cancelled {
                9
            } else {
                8
            };
            let a = 13 + w;
            let b = a + v.run_id.len() + 2;
            let c = b + stamp.len() + 9;
            &&& t.subrange(2, 7) == status_color(v.status)
            &&& t.subrange(7, 7int + status_word(v.status).len()) == status_word(v.status)
            &&& t.subrange(a, a + v.run_id.len()) == v.run_id
            &&& t.subrange(b, b + stamp.len()) == stamp
            &&& t.subrange(c - 7, c) == "branch:"@
            &&& t.subrange(c, c + v.branch.len()) == v.branch
            &&& t.skip(c + wide(v.branch.len(), 12) + 2) == v.pipeline
            &&& is_blank(t, 0, 2) && is_blank(t, 7int + status_word(v.status).len(), a - 6)
            &&& holds_at(t, a - 6, "\u{1b}[0m"@) && is_blank(t, a - 2, a)
            &&& is_blank(t, b - 2, b) && is_blank(t, c - 9, c - 7)
            &&& is_blank(t, c + v.branch.len(), c + wide(v.branch.len(), 12) + 2)
        }),
{
    reveal_strlit("  ");
    reveal_strlit("  branch:");
    reveal_strlit("branch:");
    lemma_colored(v.status);
    let t = history_line(v, stamp);
    let w: int = if v.status is Cancelled {
        9
    } else {
        8
    };
    let a = 13 + w;
    let b = a + v.run_id.len() + 2;
    let c = b + stamp.len() + 9;
    let col = colored(v.status);
    assert(col.subrange(0, 5) =~= col.take(5));
    let p1 = "  "@ + col + "  "@;
    let p2 = p1 + v.run_id + "  "@;
    let p3 = p2 + stamp + "  branch:"@;
    let p4 = p3 + left(v.branch, 12) + "  "@;
    assert(p1.len() == a && p2.len() == b && p3.len() == c);
    assert(t == p4 + v.pipeline);
    assert(forall|i: int| 0 <= i < col.len() ==> t[2 + i] == col[i]);
    assert(t.subrange(2, 7) =~= col.subrange(0, 5));
    assert(t.subrange(7, 7int + status_word(v.status).len()) =~= col.subrange(
        5,
        5int + status_word(v.status).len(),
    ));
    assert(t.subrange(a, a + v.run_id.len()) =~= v.run_id);
    assert(t.subrange(b, b + stamp.len()) =~= stamp);
    assert(t.subrange(c - 7, c) =~= "branch:"@);
    assert(t.subrange(c, c + v.branch.len()) =~= v.branch);
    assert(t.skip(c + wide(v.branch.len(), 12) + 2) =~= v.pipeline);
    reveal_strlit("\u{1b}[0m");
    assert(col =~= status_color(v.status) + left(status_word(v.status), 8) + "\u{1b}[0m"@);
    assert(t.subrange(a - 6, a - 2) =~= "\u{1b}[0m"@);
}

/// The verdict on a run says in the color of its status that it has passed exactly
/// where it has, and else that it has failed; with the time it ends with that time.
pub proof fn law_verdict_tells_the_status(status: CiStatus, seconds: nat)
    ensures
        verdict(status)[0] == '\n',
        verdict(status).subrange(1, 6) == status_color(status),
        verdict(status).subrange(6, 12) == "PASS ✓"@ <==> status is Pass,
        verdict(status).subrange(6, 12) == "FAIL ✗"@ <==> !(status is Pass),
        verdict(status).skip(12) == "\u{1b}[0m"@,
        verdict(status).len() == 16,
        timed_verdict(status, seconds).take(16) == verdict(status),
        timed_verdict(status, seconds).subrange(16, 19) == " — "@,
        timed_verdict(status, seconds).skip(19) == digits(seconds) + seq!['s'],
{
    reveal_strlit("\n");
    reveal_strlit("PASS ✓");
    reveal_strlit("FAIL ✗");
    reveal_strlit("\u{1b}[0m");
    reveal_strlit(" — ");
    reveal_strlit("s");
    lemma_colored(status);
    assert("PASS ✓"@[0] != "FAIL ✗"@[0]);
    let t = verdict(status);
    let word = if status is Pass {
        "PASS ✓"@
    } else {
        "FAIL ✗"@
    };
    assert(t.subrange(1, 6) =~= status_color(status));
    assert(t.subrange(6, 12) =~= word);
    assert(t.skip(12) =~= "\u{1b}[0m"@);
    let u = timed_verdict(status, seconds);
    assert(u.take(16) =~= t);
    assert(u.subrange(16, 19) =~= " — "@);
    assert(u.skip(19) =~= digits(seconds) + seq!['s']);
}

// --------------------------------------------------------------- laws of totals
/// How many runs have a status is how many are left when the others are taken out.
pub proof fn law_runs_are_counted(s: Seq<RunView>, status: CiStatus)
    ensures
        count_status(s, status) == s.filter(|v: RunView| v.status == status).len(),
    decreases s.len(),
{
    reveal(Seq::filter);
    if s.len() > 0 {
        law_runs_are_counted(s.drop_last(), status);
    }
}

/// The totals of a history begin with three numbers: that of the runs that have
/// passed or failed, then, before the word `pass`, that of those that have passed,
/// and then, before the word `fail`, that of those that have failed.
pub proof fn law_totals_tell_passes_and_failures(s: Seq<RunView>)
    ensures
        ({
            let passed = s.filter(|v: RunView| v.status == CiStatus::Pass).len();
            let failed = s.filter(|v: RunView| v.status == CiStatus::Fail).len();
            ("\n"@ + digits(passed + failed) + " total  |  "@ + digits(passed) + " pass  |  "@
                + digits(failed) + " fail"@).is_prefix_of(totals(s))
        }),
{
    law_runs_are_counted(s, CiStatus::Pass);
    law_runs_are_counted(s, CiStatus::Fail);
    let pass = count_status(s, CiStatus::Pass);
    let fail = count_status(s, CiStatus::Fail);
    let line = "\n"@ + digits(pass + fail) + " total  |  "@ + digits(pass) + " pass  |  "@ + digits(
        fail,
    ) + " fail"@;
    assert(line =~= totals(s).take(line.len() as int));
}

/// One more run that has passed raises the number of passes by one and leaves that
/// of failures as it is; the other way round for a run that has failed; a run that
/// goes on or was cancelled changes neither, nor the average.
pub proof fn law_one_more_run(s: Seq<RunView>, v: RunView)
    ensures
        v.status is Pass ==> count_status(s.push(v), CiStatus::Pass) == count_status(
            s,
            CiStatus::Pass,
        ) + 1 && count_status(s.push(v), CiStatus::Fail) == count_status(s, CiStatus::Fail),
        v.status is Fail ==> count_status(s.push(v), CiStatus::Fail) == count_status(
            s,
            CiStatus::Fail,
        ) + 1 && count_status(s.push(v), CiStatus::Pass) == count_status(s, CiStatus::Pass),
        v.status is Running || v.status is Cancelled ==> totals(s.push(v)) == totals(s),
        v.status is Pass || v.status is Fail ==> total_elapsed(s.push(v)) == total_elapsed(s)
            + if v.finished > v.started {
            v.finished - v.started
        } else {
            0
        },
{
    assert(s.push(v).drop_last() =~= s);
}

/// A history of passed runs alone counts all of them as passed and none as failed,
/// and one of failed runs the other way round.
pub proof fn law_equal_runs_are_counted_alike(s: Seq<RunView>, status: CiStatus)
    requires
        forall|i: int| 0 <= i < s.len() ==> (#[trigger] s[i]).status == status,
    ensures
        status is Pass ==> ("\n"@ + digits(s.len()) + " total  |  "@ + digits(s.len())
            + " pass  |  "@ + digits(0) + " fail"@).is_prefix_of(totals(s)),
        status is Fail ==> ("\n"@ + digits(s.len()) + " total  |  "@ + digits(0) + " pass  |  "@
            + digits(s.len()) + " fail"@).is_prefix_of(totals(s)),
        !(status is Pass) && !(status is Fail) ==> totals(s) == "\n"@ + digits(0) + " total  |  "@
            + digits(0) + " pass  |  "@ + digits(0) + " fail"@,
{
    lemma_all_alike(s, status, CiStatus::Pass);
    lemma_all_alike(s, status, CiStatus::Fail);
    law_totals_tell_passes_and_failures(s);
    law_runs_are_counted(s, CiStatus::Pass);
    law_runs_are_counted(s, CiStatus::Fail);
}

proof fn lemma_all_alike(s: Seq<RunView>, status: CiStatus, other: CiStatus)
    requires
        forall|i: int| 0 <= i < s.len() ==> (#[trigger] s[i]).status == status,
    ensures
        count_status(s, other) == if other == status {
            s.len()
        } else {
            0
        },
    decreases s.len(),
{
    if s.len() > 0 {
        assert(s[s.len() - 1].status == status);
        assert forall|i: int| 0 <= i < s.drop_last().len() implies (
        #[trigger] s.drop_last()[i]).status == status by {
            assert(s[i].status == status);
        }
        lemma_all_alike(s.drop_last(), status, other);
    }
}

/// Where a run has passed or failed, the totals go on with the average alone: the
/// time that these runs took together, shared among them in whole seconds.
pub proof fn law_totals_tell_the_average(s: Seq<RunView>, average: nat)
    requires
        count_status(s, CiStatus::Pass) + count_status(s, CiStatus::Fail) > 0,
        average * (count_status(s, CiStatus::Pass) + count_status(s, CiStatus::Fail))
            <= total_elapsed(s),
        total_elapsed(s) < (average + 1) * (count_status(s, CiStatus::Pass) + count_status(
            s,
            CiStatus::Fail,
        )),
    ensures
        ({
            let passed = s.filter(|v: RunView| v.status == CiStatus::Pass).len();
            let failed = s.filter(|v: RunView| v.status == CiStatus::Fail).len();
            let end = "  |  avg duration: "@ + duration_text(average);
            &&& totals(s).len() >= end.len()
            &&& totals(s).skip(totals(s).len() - end.len()) == end
            &&& totals(s) == "\n"@ + digits(passed + failed) + " total  |  "@ + digits(passed)
                + " pass  |  "@ + digits(failed) + " fail"@ + end
        }),
{
    let n = count_status(s, CiStatus::Pass) + count_status(s, CiStatus::Fail);
    let total = total_elapsed(s);
    assert(total / n == average) by (nonlinear_arith)
        requires
            n > 0,
            average * n <= total,
            total < (average + 1) * n,
    ;
    law_runs_are_counted(s, CiStatus::Pass);
    law_runs_are_counted(s, CiStatus::Fail);
    let end = "  |  avg duration: "@ + duration_text(average);
    let t = totals(s);
    assert(t.skip(t.len() - end.len()) =~= end);
}

/// Runs that all took `d` seconds took `d` seconds on average.
pub proof fn law_average_of_equal_runs(s: Seq<RunView>, d: nat)
    requires
        s.len() > 0,
        forall|i: int|
            0 <= i < s.len() ==> ((#[trigger] s[i]).status is Pass || s[i].status is Fail)
                && s[i].finished == s[i].started + d,
    ensures
        ({
            let end = "  |  avg duration: "@ + duration_text(d);
            &&& totals(s).len() >= end.len()
            &&& totals(s).skip(totals(s).len() - end.len()) == end
        }),
{
    lemma_equal_times(s, d);
    let n = s.len();
    assert(d * n < (d + 1) * n) by (nonlinear_arith)
        requires
            n > 0,
    ;
    law_totals_tell_the_average(s, d);
}

proof fn lemma_equal_times(s: Seq<RunView>, d: nat)
    requires
        forall|i: int|
            0 <= i < s.len() ==> ((#[trigger] s[i]).status is Pass || s[i].status is Fail)
                && s[i].finished == s[i].started + d,
    ensures
        count_status(s, CiStatus::Pass) + count_status(s, CiStatus::Fail) == s.len(),
        total_elapsed(s) == d * s.len(),
    decreases s.len(),
{
    if s.len() > 0 {
        let t = s.drop_last();
        assert forall|i: int| 0 <= i < t.len() implies ((#[trigger] t[i]).status is Pass
            || t[i].status is Fail) && t[i].finished == t[i].started + d by {
            assert(s[i].finished == s[i].started + d);
        }
        lemma_equal_times(t, d);
        assert(s[s.len() - 1].finished == s[s.len() - 1].started + d);
        assert(d * s.len() == d * t.len() + d) by (nonlinear_arith)
            requires
                s.len() == t.len() + 1,
        ;
    } else {
        assert(d * s.len() == 0) by (nonlinear_arith)
            requires
                s.len() == 0,
        ;
    }
}

} // verus!
