use hep_ci::pipeline::{pipeline_parse, Pipeline};
use hep_ci::runner::{Action, Runner};

fn job(name: &str, needs: &[&str], steps: usize) -> String {
    let mut out = format!("  {}:\n", name);
    if !needs.is_empty() {
        out.push_str("    needs:\n");
        for n in needs {
            out.push_str(&format!("      - {}\n", n));
        }
    }
    if steps > 0 {
        out.push_str("    steps:\n");
        for i in 0..steps {
            out.push_str(&format!("      - {}-{}\n", name, i));
        }
    }
    out
}

fn pipeline(jobs: &[String]) -> Pipeline {
    pipeline_parse(&format!("jobs:\n{}", jobs.concat())).unwrap()
}

/// Runs a pipeline in which the commands of `failing` exit with 1.
fn drive(p: Pipeline, failing: &[&str]) -> (Vec<String>, i32) {
    let mut runner = Runner::new(p);
    let mut said: Vec<String> = Vec::new();
    loop {
        match runner.next() {
            Action::Skip { job, need } => {
                let j = runner.job(job);
                said.push(format!("skip {} for {}", j.name, j.needs[need]));
            }
            Action::Start { job } => said.push(format!("start {}", runner.job(job).name)),
            Action::Step { job, step } => {
                let run = runner.job(job).steps[step].run.clone();
                let code: i32 = if failing.contains(&run.as_str()) { 1 } else { 0 };
                said.push(format!("run {} -> {}", run, code));
                runner.exited(code);
            }
            Action::End { job, ok } => {
                said.push(format!("end {} {}", runner.job(job).name, ok));
            }
            Action::Finish => return (said, runner.result()),
        }
    }
}

#[test]
fn jobs_run_in_order() {
    let (said, code) = drive(pipeline(&[job("a", &[], 2), job("b", &[], 1)]), &[]);
    assert_eq!(
        said,
        vec![
            "start a", "run a-0 -> 0", "run a-1 -> 0", "end a true", "start b", "run b-0 -> 0",
            "end b true",
        ]
    );
    assert_eq!(code, 0);
}

#[test]
fn needed_jobs_come_first() {
    let jobs = [job("c", &["b"], 1), job("b", &["a"], 1), job("a", &[], 1)];
    let (said, code) = drive(pipeline(&jobs), &[]);
    assert_eq!(
        said,
        vec![
            "start a", "run a-0 -> 0", "end a true", "start b", "run b-0 -> 0", "end b true",
            "start c", "run c-0 -> 0", "end c true",
        ]
    );
    assert_eq!(code, 0);
}

#[test]
fn a_failed_step_stops_its_job() {
    let (said, code) = drive(pipeline(&[job("a", &[], 3), job("b", &[], 1)]), &["a-1"]);
    assert_eq!(
        said,
        vec![
            "start a", "run a-0 -> 0", "run a-1 -> 1", "end a false", "start b", "run b-0 -> 0",
            "end b true",
        ]
    );
    assert_eq!(code, 1);
}

#[test]
fn dependents_of_a_failed_job_are_skipped() {
    let jobs = [job("a", &[], 1), job("b", &["a"], 1), job("c", &["b"], 1), job("d", &[], 1)];
    let (said, code) = drive(pipeline(&jobs), &["a-0"]);
    assert_eq!(
        said,
        vec![
            "start a", "run a-0 -> 1", "end a false", "skip b for a", "skip c for b", "start d",
            "run d-0 -> 0", "end d true",
        ]
    );
    assert_eq!(code, 1);
}

#[test]
fn a_job_is_skipped_for_its_first_failed_need() {
    let jobs = [job("d", &["c", "a", "b"], 1), job("a", &[], 1), job("b", &[], 1), job("c", &["x"], 1)];
    let (said, code) = drive(pipeline(&jobs), &["a-0", "b-0"]);
    assert_eq!(
        said,
        vec![
            "start a", "run a-0 -> 1", "end a false", "start b", "run b-0 -> 1", "end b false",
            "skip d for a",
        ]
    );
    assert_eq!(code, 1);
}

#[test]
fn jobs_that_wait_for_each_other_never_run() {
    let jobs = [job("a", &["b"], 1), job("b", &["a"], 1), job("c", &["none"], 1)];
    let (said, code) = drive(pipeline(&jobs), &[]);
    assert!(said.is_empty());
    assert_eq!(code, 0);
}

#[test]
fn a_job_without_steps_passes() {
    let (said, code) = drive(pipeline(&[job("a", &[], 0), job("b", &["a"], 0)]), &[]);
    assert_eq!(said, vec!["start a", "end a true", "start b", "end b true"]);
    assert_eq!(code, 0);
}

#[test]
fn a_pipeline_without_jobs_finishes_at_once() {
    let p = Pipeline { name: "p".to_string(), on_event: "push".to_string(), jobs: vec![] };
    let (said, code) = drive(p, &[]);
    assert!(said.is_empty());
    assert_eq!(code, 0);
}

#[test]
fn every_job_of_an_ordered_pipeline_is_settled() {
    let mut jobs: Vec<String> = Vec::new();
    for i in 0..20usize {
        let need = format!("j{}", i + 1);
        jobs.push(job(&format!("j{}", i), if i < 19 { vec![need.as_str()] } else { vec![] }.as_slice(), 1));
    }
    let (said, code) = drive(pipeline(&jobs), &[]);
    let ends: Vec<&String> = said.iter().filter(|s| s.starts_with("end")).collect();
    assert_eq!(ends.len(), 20);
    assert_eq!(ends[0], "end j19 true");
    assert_eq!(ends[19], "end j0 true");
    assert_eq!(code, 0);
}

#[test]
fn a_negative_exit_code_is_a_failure() {
    let mut runner = Runner::new(pipeline(&[job("a", &[], 2)]));
    assert_eq!(runner.next(), Action::Start { job: 0 });
    assert_eq!(runner.next(), Action::Step { job: 0, step: 0 });
    assert_eq!(runner.next(), Action::Step { job: 0, step: 0 });
    runner.exited(-1);
    assert_eq!(runner.next(), Action::End { job: 0, ok: false });
    assert_eq!(runner.next(), Action::Finish);
    assert_eq!(runner.next(), Action::Finish);
    assert_eq!(runner.result(), 1);
}

#[test]
fn of_jobs_with_one_name_the_first_is_needed() {
    let jobs = [job("a", &[], 1), job("a", &[], 2), job("b", &["a"], 1)];
    let (said, _) = drive(pipeline(&jobs), &["a-1"]);
    assert!(said.contains(&"end b true".to_string()));
    assert_eq!(said.iter().filter(|s| s.as_str() == "start a").count(), 2);
}

#[test]
fn a_cancelled_run_begins_nothing_more() {
    let mut runner = Runner::new(pipeline(&[job("a", &[], 2), job("b", &[], 1)]));
    assert_eq!(runner.next(), Action::Start { job: 0 });
    assert_eq!(runner.next(), Action::Step { job: 0, step: 0 });
    runner.exited(0);
    assert!(!runner.is_cancelled());
    runner.cancel();
    assert!(runner.is_cancelled());
    assert_eq!(runner.next(), Action::Finish);
    assert_eq!(runner.next(), Action::Finish);
    assert_eq!(runner.result(), 1);
}

#[test]
fn dependents_are_skipped_though_other_jobs_never_run() {
    let jobs = [
        job("x", &["y"], 1),
        job("y", &["x"], 1),
        job("c", &["b", "y"], 1),
        job("b", &["a"], 1),
        job("a", &[], 1),
    ];
    let (said, code) = drive(pipeline(&jobs), &["a-0"]);
    assert_eq!(
        said,
        vec!["start a", "run a-0 -> 1", "end a false", "skip b for a", "skip c for b"]
    );
    assert_eq!(code, 1);
}
