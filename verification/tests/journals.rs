use hep_ci::journal::{
    action_text, exit_code, exit_line, job_header, job_result_line, job_skipped_line, run_footer,
    run_header, spawn_line, step_dir, step_env, step_failed_line, step_header, step_limit,
    StepEnd,
};
use hep_ci::pipeline::{pipeline_parse, Job, Step};
use hep_ci::runner::{Action, Runner};

fn job(env: &[(&str, &str)], workdir: &str) -> Job {
    Job {
        name: "j".to_string(),
        needs: vec![],
        steps: vec![],
        env: env.iter().map(|(k, v)| (k.to_string(), v.to_string())).collect(),
        workdir: workdir.to_string(),
        timeout: 0,
    }
}

#[test]
fn a_log_has_a_head_and_a_foot() {
    assert_eq!(
        run_header("id", "p", "t", "/r"),
        format!("hep-ci run id\npipeline: p\nstarted:  t\nrepo:     /r\n{}\n", "═".repeat(40))
    );
    assert_eq!(
        run_footer("t", 10, 73, 0),
        format!("\n{}\nfinished: t\nduration: 63s\nresult:   PASS\n", "═".repeat(40))
    );
    assert_eq!(
        run_footer("t", 10, 10, 1),
        format!("\n{}\nfinished: t\nduration: 0s\nresult:   FAIL\n", "═".repeat(40))
    );
}

#[test]
fn steps_and_jobs_have_lines() {
    let step = Step { name: "n".to_string(), run: "make".to_string() };
    assert_eq!(step_header(&step), "\n── step: n ──\n$ make\n");
    assert_eq!(exit_line(-3), "── exit: -3 ──\n");
    assert_eq!(spawn_line("no sh"), "failed to spawn: no sh\n");
    assert_eq!(step_failed_line("n", 2), "step 'n' failed (exit 2) — stopping job\n");
    assert_eq!(step_failed_line("n", 0), "");
    assert_eq!(job_header("j"), "\n══ job: j ══\n");
    assert_eq!(job_skipped_line("j", "k"), "\n══ job: j — SKIPPED (dep k failed)\n");
    assert_eq!(job_result_line("j", true), "══ job: j — PASS ══\n");
    assert_eq!(job_result_line("j", false), "══ job: j — FAIL ══\n");
}

#[test]
fn a_run_is_logged_move_by_move() {
    let p = pipeline_parse("jobs:\n  a:\n    steps:\n      - false\n  b:\n    needs: a\n").unwrap();
    let mut runner = Runner::new(p);
    let mut log = String::new();
    loop {
        let action = runner.next();
        log.push_str(&action_text(&runner, action));
        match action {
            Action::Step { .. } => runner.exited(1),
            Action::Finish => break,
            _ => {}
        }
    }
    assert_eq!(
        log,
        "\n══ job: a ══\n\n── step: step 1 ──\n$ false\n══ job: a — FAIL ══\n\n══ job: b — SKIPPED (dep a failed)\n"
    );
}

#[test]
fn every_end_of_a_step_has_a_code() {
    assert_eq!(exit_code(StepEnd::Exited { code: Some(0) }), 0);
    assert_eq!(exit_code(StepEnd::Exited { code: Some(42) }), 42);
    assert_eq!(exit_code(StepEnd::Exited { code: None }), 1);
    assert_eq!(exit_code(StepEnd::Stopped), 124);
    assert_eq!(exit_code(StepEnd::Lost), 1);
    assert_eq!(exit_code(StepEnd::NotStarted), 127);
}

#[test]
fn steps_run_in_the_directory_of_their_job() {
    assert_eq!(step_dir(&job(&[], ""), "/repo"), "/repo");
    assert_eq!(step_dir(&job(&[], "sub/dir"), "/repo"), "/repo/sub/dir");
    assert_eq!(step_dir(&job(&[], "/abs"), "/repo"), "/abs");
}

#[test]
fn the_variables_of_a_job_come_first() {
    let sorted = |j: &Job| {
        let mut env = step_env(j, "/repo");
        env.sort();
        env
    };
    let pair = |a: &str, b: &str| (a.to_string(), b.to_string());
    assert_eq!(sorted(&job(&[], "")), vec![pair("HEP_CI", "1"), pair("HEP_REPO", "/repo")]);
    assert_eq!(
        sorted(&job(&[("HEP_CI", "0"), ("A", "b")], "")),
        vec![pair("A", "b"), pair("HEP_CI", "0"), pair("HEP_REPO", "/repo")]
    );
}

#[test]
fn a_job_has_as_much_time_as_its_limit() {
    let mut j = job(&[], "");
    assert_eq!(step_limit(&j, 0), None);
    assert_eq!(step_limit(&j, u64::MAX), None);
    j.timeout = 10;
    assert_eq!(step_limit(&j, 0), Some(10));
    assert_eq!(step_limit(&j, 9), Some(1));
    assert_eq!(step_limit(&j, 10), Some(0));
    assert_eq!(step_limit(&j, 11), Some(0));
    // steps that take all that is left keep the limit
    let mut spent: u64 = 0;
    for _ in 0..3usize {
        spent += step_limit(&j, spent).unwrap().min(4);
    }
    assert_eq!(spent, 10);
    assert_eq!(step_limit(&j, spent), Some(0));
}

#[test]
fn a_step_whose_time_is_up_fails_its_job() {
    let p = pipeline_parse("jobs:\n  a:\n    timeout: 1\n    steps:\n      - one\n      - two\n").unwrap();
    let mut runner = Runner::new(p);
    assert_eq!(runner.next(), Action::Start { job: 0 });
    assert_eq!(runner.next(), Action::Step { job: 0, step: 0 });
    runner.exited(exit_code(StepEnd::Stopped));
    assert_eq!(runner.next(), Action::End { job: 0, ok: false });
    assert_eq!(runner.next(), Action::Finish);
    assert_eq!(runner.result(), 1);
}

#[test]
fn of_variables_with_one_name_the_last_counts() {
    let env = step_env(&job(&[("A", "1"), ("A", "2")], ""), "/repo");
    assert_eq!(env.len(), 3);
    assert!(env.contains(&("A".to_string(), "2".to_string())));
}
