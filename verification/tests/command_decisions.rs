use hep_ci::commands::{
    active_run, cancel_run, choose_log, clean_plan, close_run, count_or, newest_first,
    serve_options, watch_verdict, CancelChoice, CleanPlan, LogChoice, CI_PORT,
};
use hep_ci::run::{run_list, run_list_dedup, run_load, CiStatus, Run};

fn run(id: &str, status: CiStatus, path: &str) -> Run {
    Run {
        run_id: id.to_string(),
        pipeline: "p".to_string(),
        commit: "c".to_string(),
        branch: "main".to_string(),
        triggered_by: "manual".to_string(),
        started: 1,
        finished: 2,
        status,
        log_path: path.to_string(),
    }
}

fn log_of(runs: &[Run]) -> String {
    runs.iter().map(|r| r.to_line()).collect()
}

fn ids(runs: &[Run]) -> Vec<&str> {
    runs.iter().map(|r| r.run_id.as_str()).collect()
}

fn args(v: &[&str]) -> Vec<String> {
    v.iter().map(|s| s.to_string()).collect()
}

#[test]
fn counts_have_defaults() {
    assert_eq!(count_or(None, 10), 10);
    assert_eq!(count_or(Some("3"), 10), 3);
    assert_eq!(count_or(Some("0"), 10), 0);
    assert_eq!(count_or(Some("-3"), 10), 10);
    assert_eq!(count_or(Some("many"), 20), 20);
    assert_eq!(count_or(Some(""), 20), 20);
}

#[test]
fn serve_has_a_port_and_a_directory() {
    assert_eq!(CI_PORT, 7071);
    assert_eq!(serve_options(&args(&[])), (7071, "./repos".to_string()));
    assert_eq!(serve_options(&args(&["-p", "8080"])), (8080, "./repos".to_string()));
    assert_eq!(serve_options(&args(&["-d", "/r", "-p", "1"])), (1, "/r".to_string()));
    assert_eq!(serve_options(&args(&["-p", "1", "-p", "2"])), (2, "./repos".to_string()));
    assert_eq!(serve_options(&args(&["-p", "8080", "-p", "x"])), (7071, "./repos".to_string()));
    assert_eq!(serve_options(&args(&["-p", "65536"])), (7071, "./repos".to_string()));
    assert_eq!(serve_options(&args(&["-p"])), (7071, "./repos".to_string()));
    assert_eq!(serve_options(&args(&["-p", "5", "-d"])), (5, "./repos".to_string()));
    assert_eq!(serve_options(&args(&["-p", "-d", "x"])), (7071, "./repos".to_string()));
    assert_eq!(serve_options(&args(&["-d", "-p", "9"])), (7071, "-p".to_string()));
    assert_eq!(serve_options(&args(&["x", "-p", "9", "y"])), (9, "./repos".to_string()));
}

#[test]
fn the_newest_runs_come_first() {
    let runs = [
        run("a", CiStatus::Pass, ""),
        run("b", CiStatus::Pass, ""),
        run("c", CiStatus::Pass, ""),
    ];
    assert_eq!(ids(&newest_first(&runs, 2)), vec!["c", "b"]);
    assert_eq!(ids(&newest_first(&runs, 9)), vec!["c", "b", "a"]);
    assert!(newest_first(&runs, 0).is_empty());
    assert!(newest_first(&[], 3).is_empty());
}

#[test]
fn logs_are_chosen_by_id_or_newest() {
    let log = log_of(&[
        run("a", CiStatus::Running, "/a"),
        run("b", CiStatus::Fail, "/b"),
        run("a", CiStatus::Pass, "/a2"),
    ]);
    assert!(matches!(choose_log(&log, Some("b")), LogChoice::Show { path } if path == "/b"));
    assert!(matches!(choose_log(&log, Some("a")), LogChoice::Show { path } if path == "/a2"));
    assert!(matches!(choose_log(&log, None), LogChoice::Show { path } if path == "/a2"));
    assert!(matches!(choose_log(&log, Some("x")), LogChoice::Unknown { run_id } if run_id == "x"));
    assert!(matches!(choose_log("", None), LogChoice::NoRuns));
    assert!(matches!(choose_log("", Some("x")), LogChoice::Unknown { .. }));
    let log = log_of(&[run("a", CiStatus::Pass, "")]);
    assert!(matches!(choose_log(&log, None), LogChoice::NoLog { run_id } if run_id == "a"));
}

#[test]
fn the_newest_running_run_is_watched() {
    let log = log_of(&[
        run("a", CiStatus::Running, "/a"),
        run("b", CiStatus::Running, "/b"),
        run("c", CiStatus::Running, "/c"),
        run("c", CiStatus::Pass, "/c"),
    ]);
    let active = active_run(&log).unwrap();
    assert_eq!(active.run_id, "b");
    assert!(watch_verdict(&log, "b").is_none());
    assert_eq!(watch_verdict(&log, "c").unwrap(), "\n\x1b[32mPASS ✓\x1b[0m");
    assert!(watch_verdict(&log, "z").is_none());
    let more = format!("{}{}", log, run("b", CiStatus::Fail, "").to_line());
    assert_eq!(watch_verdict(&more, "b").unwrap(), "\n\x1b[31mFAIL ✗\x1b[0m");
    let more = format!("{}{}", log, run("b", CiStatus::Cancelled, "").to_line());
    assert_eq!(watch_verdict(&more, "b").unwrap(), "\n\x1b[90mFAIL ✗\x1b[0m");
    assert_eq!(active_run(&more).unwrap().run_id, "a");
    assert!(active_run("").is_none());
}

#[test]
fn a_running_run_is_cancelled_once() {
    let mut log = log_of(&[run("a", CiStatus::Running, "/a"), run("b", CiStatus::Pass, "/b")]);
    assert!(matches!(cancel_run(&log, "x", 9), CancelChoice::Unknown));
    assert!(matches!(
        cancel_run(&log, "b", 9),
        CancelChoice::NotRunning { status: CiStatus::Pass }
    ));
    match cancel_run(&log, "a", 9) {
        CancelChoice::Cancel { run } => {
            assert_eq!(run.to_line(), "a|p|c|main|manual|1|9|3|/a\n");
            log.push_str(&run.to_line());
        }
        _ => panic!("not cancelled"),
    }
    assert_eq!(run_load(&log, "a").unwrap().status, CiStatus::Cancelled);
    assert!(matches!(
        cancel_run(&log, "a", 10),
        CancelChoice::NotRunning { status: CiStatus::Cancelled }
    ));
}

#[test]
fn cleaning_keeps_the_newest_runs() {
    let log = log_of(&[
        run("a", CiStatus::Running, "/a"),
        run("b", CiStatus::Pass, ""),
        run("c", CiStatus::Pass, "/c"),
        run("a", CiStatus::Pass, "/a"),
        run("d", CiStatus::Fail, "/d"),
    ]);
    match clean_plan(&log, 2) {
        CleanPlan::Remove { paths, removed, log: rest } => {
            assert_eq!(paths, vec!["/c"]);
            assert_eq!(removed, 2);
            assert_eq!(ids(&run_list(&rest)), vec!["a", "d"]);
            assert_eq!(run_load(&rest, "a").unwrap().status, CiStatus::Pass);
            assert!(run_load(&rest, "c").is_none());
            assert!(matches!(clean_plan(&rest, 2), CleanPlan::Nothing { count: 2 }));
        }
        _ => panic!("nothing to clean"),
    }
    assert!(matches!(clean_plan(&log, 4), CleanPlan::Nothing { count: 4 }));
    assert!(matches!(clean_plan(&log, 20), CleanPlan::Nothing { count: 4 }));
    match clean_plan(&log, 0) {
        CleanPlan::Remove { paths, removed, log: rest } => {
            assert_eq!(paths, vec!["/c", "/a", "/d"]);
            assert_eq!(removed, 4);
            assert_eq!(rest, "");
        }
        _ => panic!("nothing to clean"),
    }
    assert_eq!(run_list_dedup(&log).len(), 4);
    assert!(matches!(clean_plan("", 0), CleanPlan::Nothing { count: 0 }));
}

#[test]
fn a_cancelled_run_stays_cancelled() {
    let begun = run("a", CiStatus::Running, "/a");
    let mut log = log_of(&[begun.clone()]);
    assert_eq!(close_run(&log, begun.clone(), 9, 0, false).status, CiStatus::Pass);
    assert_eq!(close_run(&log, begun.clone(), 9, 1, false).status, CiStatus::Fail);
    assert_eq!(close_run(&log, begun.clone(), 9, 1, true).status, CiStatus::Cancelled);
    match cancel_run(&log, "a", 5) {
        CancelChoice::Cancel { run } => log.push_str(&run.to_line()),
        _ => panic!("not cancelled"),
    }
    log.push_str(&run("b", CiStatus::Pass, "/b").to_line());
    let closing = close_run(&log, begun, 9, 0, false);
    assert_eq!(closing.status, CiStatus::Cancelled);
    assert_eq!(closing.finished, 9);
    log.push_str(&closing.to_line());
    assert_eq!(run_load(&log, "a").unwrap().status, CiStatus::Cancelled);
    assert_eq!(run_load(&log, "b").unwrap().status, CiStatus::Pass);
}
