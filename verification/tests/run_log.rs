use hep_ci::run::{dedup_runs, run_list, run_list_dedup, run_load, CiStatus, Run};

fn run(id: &str, status: CiStatus) -> Run {
    Run {
        run_id: id.to_string(),
        pipeline: "p".to_string(),
        commit: "c".to_string(),
        branch: "main".to_string(),
        triggered_by: "manual".to_string(),
        started: 100,
        finished: 160,
        status,
        log_path: format!("/l/{}.log", id),
    }
}

fn ids(runs: &[Run]) -> Vec<String> {
    runs.iter().map(|r| format!("{}:{}", r.run_id, r.status.as_str())).collect()
}

const ALL: [CiStatus; 4] =
    [CiStatus::Running, CiStatus::Pass, CiStatus::Fail, CiStatus::Cancelled];

#[test]
fn statuses_have_words_colors_and_numbers() {
    let words = ["running", "pass", "fail", "cancelled"];
    let colors = ["\x1b[33m", "\x1b[32m", "\x1b[31m", "\x1b[90m"];
    for i in 0..4usize {
        assert_eq!(ALL[i].as_str(), words[i]);
        assert_eq!(ALL[i].color(), colors[i]);
        assert_eq!(ALL[i].to_int(), i as i32);
        assert_eq!(CiStatus::from_int(i as i32), ALL[i]);
    }
    assert_eq!(CiStatus::Pass.exit_code(), 0);
    assert_eq!(CiStatus::Fail.exit_code(), 1);
    assert_eq!(CiStatus::Cancelled.exit_code(), 1);
    for n in [-1i32, 4, 100, i32::MIN, i32::MAX] {
        assert_eq!(CiStatus::from_int(n), CiStatus::Fail);
    }
}

#[test]
fn a_record_is_a_line() {
    let r = run("20240102-030405", CiStatus::Pass);
    assert_eq!(
        r.to_line(),
        "20240102-030405|p|c|main|manual|100|160|1|/l/20240102-030405.log\n"
    );
}

#[test]
fn a_line_gives_the_record_back() {
    for status in ALL {
        let r = run("x", status);
        let back = Run::from_line(&r.to_line()).unwrap();
        assert_eq!(back.to_line(), r.to_line());
        assert_eq!(back.status, status);
        assert_eq!(back.started, 100);
        assert_eq!(back.finished, 160);
    }
    let mut r = run("", CiStatus::Running);
    r.log_path = "/a|b|c".to_string();
    r.started = u64::MAX;
    let back = Run::from_line(&r.to_line()).unwrap();
    assert_eq!(back.log_path, "/a|b|c");
    assert_eq!(back.started, u64::MAX);
    assert_eq!(back.run_id, "");
}

#[test]
fn a_bar_in_a_field_is_not_given_back() {
    let mut r = run("x", CiStatus::Pass);
    r.pipeline = "a|b".to_string();
    let back = Run::from_line(&r.to_line()).unwrap();
    assert_eq!(back.pipeline, "a");
    let mut r = run(" x", CiStatus::Pass);
    r.log_path = "/l ".to_string();
    let back = Run::from_line(&r.to_line()).unwrap();
    assert_eq!(back.run_id, "x");
    assert_eq!(back.log_path, "/l");
}

#[test]
fn short_lines_hold_no_record() {
    assert!(Run::from_line("").is_none());
    assert!(Run::from_line("a|b|c|d|e|1|2").is_none());
    let r = Run::from_line("  a|b|c|d|e|1|2|3  \n").unwrap();
    assert_eq!(r.run_id, "a");
    assert_eq!(r.status, CiStatus::Cancelled);
    assert_eq!(r.log_path, "");
}

#[test]
fn what_is_no_number_has_a_default() {
    let r = Run::from_line("a|b|c|d|e|x|-1|y|z").unwrap();
    assert_eq!(r.started, 0);
    assert_eq!(r.finished, 0);
    assert_eq!(r.status, CiStatus::Fail);
    let r = Run::from_line("a|b|c|d|e|+5|007|9|z").unwrap();
    assert_eq!(r.started, 5);
    assert_eq!(r.finished, 7);
    assert_eq!(r.status, CiStatus::Fail);
}

fn log_of(runs: &[Run]) -> String {
    runs.iter().map(|r| r.to_line()).collect()
}

#[test]
fn a_log_holds_what_was_saved() {
    let saved = [run("a", CiStatus::Running), run("b", CiStatus::Fail), run("a", CiStatus::Pass)];
    let log = log_of(&saved);
    assert_eq!(ids(&run_list(&log)), vec!["a:running", "b:fail", "a:pass"]);
    let noisy = format!("garbage\n\n{}half|a|line\n", log);
    assert_eq!(ids(&run_list(&noisy)), vec!["a:running", "b:fail", "a:pass"]);
    assert!(run_list("").is_empty());
}

#[test]
fn loading_gives_the_last_record() {
    let log = log_of(&[
        run("a", CiStatus::Running),
        run("b", CiStatus::Fail),
        run("a", CiStatus::Pass),
    ]);
    assert_eq!(run_load(&log, "a").unwrap().status, CiStatus::Pass);
    assert_eq!(run_load(&log, "b").unwrap().status, CiStatus::Fail);
    assert!(run_load(&log, "c").is_none());
    let more = format!("{}{}", log, run("b", CiStatus::Cancelled).to_line());
    assert_eq!(run_load(&more, "b").unwrap().status, CiStatus::Cancelled);
    assert_eq!(run_load(&more, "a").unwrap().status, CiStatus::Pass);
}

#[test]
fn each_run_is_listed_once_as_it_stands() {
    let all = [
        run("a", CiStatus::Running),
        run("b", CiStatus::Running),
        run("a", CiStatus::Pass),
        run("c", CiStatus::Running),
        run("b", CiStatus::Fail),
    ];
    let listed = dedup_runs(&all);
    assert_eq!(ids(&listed), vec!["a:pass", "c:running", "b:fail"]);
    assert_eq!(ids(&dedup_runs(&listed)), ids(&listed));
    assert_eq!(ids(&run_list_dedup(&log_of(&all))), ids(&listed));
    for r in &listed {
        let last = run_load(&log_of(&all), &r.run_id).unwrap();
        assert_eq!(last.status, r.status);
    }
    assert!(dedup_runs(&[]).is_empty());
}

#[test]
fn what_a_log_holds_can_be_stored_again() {
    let odd = " a|b|c|d|e|x|2|y|/p q \r\nz|z|z|z|z|1|2|1|\n";
    let runs = run_list(odd);
    assert_eq!(runs.len(), 2);
    let again = run_list(&log_of(&runs));
    assert_eq!(log_of(&again), log_of(&runs));
    assert_eq!(again[0].log_path, "/p q");
}

#[test]
fn a_run_by_hand_begins_and_ends() {
    let commit = "0123456789012345678901234567890123456789ab";
    let r = Run::manual("id", "p", commit, "dev", 7, "/l");
    assert_eq!(
        r.to_line(),
        "id|p|0123456789012345678901234567890123456789|dev|manual|7|0|0|/l\n"
    );
    assert_eq!(r.clone().ended(9, 0).to_line(), "id|p|0123456789012345678901234567890123456789|dev|manual|7|9|1|/l\n");
    assert_eq!(r.clone().ended(9, 1).status, CiStatus::Fail);
    assert_eq!(r.clone().ended(9, -5).status, CiStatus::Fail);
    assert_eq!(r.clone().cancelled(8).ended(9, 0).status, CiStatus::Cancelled);
    assert_eq!(r.cancelled(8).to_line(), "id|p|0123456789012345678901234567890123456789|dev|manual|7|8|3|/l\n");
    let r = Run::manual("id", "p", "", "", 7, "/l");
    assert_eq!(r.to_line(), "id|p|none|unknown|manual|7|0|0|/l\n");
}

#[test]
fn a_run_by_push_begins() {
    let commit = "0123456789012345678901234567890123456789ab";
    let r = Run::pushed("id", "p", commit, "", 7, "/l");
    assert_eq!(r.to_line(), format!("id|p|{}||push|7|0|0|/l\n", commit));
    let r = Run::pushed("id", "p", "", "main", 7, "/l");
    assert_eq!(r.to_line(), "id|p|none|main|push|7|0|0|/l\n");
}

#[test]
fn an_ended_run_is_loaded_as_it_ended() {
    let begun = Run::manual("new", "p", "c", "b", 5, "/l");
    let mut log = log_of(&[run("old", CiStatus::Pass)]);
    log.push_str(&begun.to_line());
    log.push_str(&begun.ended(6, 0).to_line());
    let r = run_load(&log, "new").unwrap();
    assert_eq!(r.status, CiStatus::Pass);
    assert_eq!(r.finished, 6);
    assert_eq!(ids(&run_list_dedup(&log)), vec!["old:pass", "new:pass"]);
}
