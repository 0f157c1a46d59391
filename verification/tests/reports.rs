use hep_ci::report::{
    duration_of, fmt_duration, history_row, history_totals, pad, run_verdict, status_row,
    status_rule, status_titles, totals_fit, verdict_text,
};
use hep_ci::run::{CiStatus, Run};

fn run(status: CiStatus, started: u64, finished: u64) -> Run {
    Run {
        run_id: "20240229-123456".to_string(),
        pipeline: "build".to_string(),
        commit: "0123456789".to_string(),
        branch: "main".to_string(),
        triggered_by: "manual".to_string(),
        started,
        finished,
        status,
        log_path: String::new(),
    }
}

#[test]
fn durations_are_in_seconds_or_minutes() {
    assert_eq!(fmt_duration(0), "0s");
    assert_eq!(fmt_duration(59), "59s");
    assert_eq!(fmt_duration(60), "1m0s");
    assert_eq!(fmt_duration(61), "1m1s");
    assert_eq!(fmt_duration(3725), "62m5s");
    assert_eq!(fmt_duration(u64::MAX), "307445734561825860m15s");
}

#[test]
fn a_run_that_goes_on_has_no_duration() {
    assert_eq!(duration_of(&run(CiStatus::Running, 5, 0)), 0);
    assert_eq!(duration_of(&run(CiStatus::Pass, 5, 5)), 0);
    assert_eq!(duration_of(&run(CiStatus::Pass, 5, 12)), 7);
}

#[test]
fn columns_are_padded_by_characters() {
    for s in ["", "a", "üß", "────", "abcdefghij"] {
        for w in [0usize, 3, 8] {
            assert_eq!(pad(s, w), format!("{:<w$}", s, w = w));
        }
    }
}

#[test]
fn the_status_table_has_a_head() {
    assert_eq!(
        status_titles(),
        format!(
            "{:<20}  {:<8}  {:<12}  {:<10}  {:<8}  {}",
            "run id", "status", "pipeline", "branch", "duration", "commit"
        )
    );
    assert_eq!(
        status_rule(),
        format!(
            "{:<20}  {:<8}  {:<12}  {:<10}  {:<8}  {}",
            "─".repeat(20),
            "─".repeat(8),
            "─".repeat(12),
            "─".repeat(10),
            "─".repeat(8),
            "─".repeat(7)
        )
    );
}

#[test]
fn a_run_is_a_row_of_the_status_table() {
    let mut r = run(CiStatus::Pass, 100, 165);
    assert_eq!(
        status_row(&r),
        "20240229-123456       \x1b[32mpass    \x1b[0m  build         main        1m5s      0123456"
    );
    r.commit = "none".to_string();
    r.status = CiStatus::Cancelled;
    assert_eq!(
        status_row(&r),
        "20240229-123456       \x1b[90mcancelled\x1b[0m  build         main        1m5s      none"
    );
}

#[test]
fn a_run_is_a_row_of_the_history() {
    let r = run(CiStatus::Fail, 100, 165);
    assert_eq!(
        history_row(&r, "2024-02-29 12:34"),
        "  \x1b[31mfail    \x1b[0m  20240229-123456  2024-02-29 12:34  branch:main          build"
    );
    assert_eq!(
        history_row(&r, ""),
        "  \x1b[31mfail    \x1b[0m  20240229-123456    branch:main          build"
    );
}

#[test]
fn the_history_has_totals() {
    let runs = [
        run(CiStatus::Pass, 0, 100),
        run(CiStatus::Fail, 0, 51),
        run(CiStatus::Running, 0, 0),
        run(CiStatus::Cancelled, 0, 1000),
    ];
    assert!(totals_fit(&runs));
    assert_eq!(
        history_totals(&runs),
        "\n2 total  |  1 pass  |  1 fail  |  avg duration: 1m15s"
    );
    assert_eq!(history_totals(&runs[2..]), "\n0 total  |  0 pass  |  0 fail");
    assert_eq!(history_totals(&[]), "\n0 total  |  0 pass  |  0 fail");
}

#[test]
fn durations_may_be_too_long_to_add() {
    let runs = [run(CiStatus::Pass, 0, u64::MAX), run(CiStatus::Fail, 0, 1)];
    assert!(!totals_fit(&runs));
    assert!(totals_fit(&runs[..1]));
    let runs = [run(CiStatus::Pass, 0, u64::MAX), run(CiStatus::Cancelled, 0, 1)];
    assert!(totals_fit(&runs));
}

#[test]
fn a_run_has_a_verdict() {
    assert_eq!(run_verdict(CiStatus::Pass, 10, 15), "\n\x1b[32mPASS ✓\x1b[0m — 5s");
    assert_eq!(run_verdict(CiStatus::Fail, 10, 10), "\n\x1b[31mFAIL ✗\x1b[0m — 0s");
    assert_eq!(run_verdict(CiStatus::Cancelled, 1, 3), "\n\x1b[90mFAIL ✗\x1b[0m — 2s");
    assert_eq!(verdict_text(CiStatus::Running), "\n\x1b[33mFAIL ✗\x1b[0m");
}
