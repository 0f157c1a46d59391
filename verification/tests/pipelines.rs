use hep_ci::pipeline::{pipeline_from, pipeline_parse, Pipeline, TEMPLATE};
use hep_ci::yaml::{is_readable, yaml_parse, YamlValue};

fn read(text: &str) -> Pipeline {
    assert!(is_readable(text));
    pipeline_parse(text).unwrap()
}

fn strs(v: &[String]) -> Vec<&str> {
    v.iter().map(|s| s.as_str()).collect()
}

const README: &str = "name: my pipeline

on: push

jobs:
  build:
    steps:
      - name: compile
        run: gcc -o app main.c
      - name: test
        run: ./app --test

  deploy:
    needs: build        # only runs if build passes
    steps:
      - name: ship
        run: ./deploy.sh
";

#[test]
fn the_documented_file_is_read() {
    let p = read(README);
    assert_eq!(p.name, "my pipeline");
    assert_eq!(p.on_event, "push");
    assert_eq!(p.jobs.len(), 2);
    let build = &p.jobs[0];
    assert_eq!(build.name, "build");
    assert!(build.needs.is_empty());
    assert_eq!(build.steps.len(), 2);
    assert_eq!(build.steps[0].name, "compile");
    assert_eq!(build.steps[0].run, "gcc -o app main.c");
    assert_eq!(build.steps[1].name, "test");
    assert_eq!(build.steps[1].run, "./app --test");
    assert_eq!(build.workdir, "");
    assert_eq!(build.timeout, 0);
    assert!(build.env.is_empty());
    let deploy = &p.jobs[1];
    assert_eq!(deploy.name, "deploy");
    assert_eq!(strs(&deploy.needs), vec!["build"]);
    assert_eq!(deploy.steps.len(), 1);
    assert_eq!(deploy.steps[0].run, "./deploy.sh");
}

#[test]
fn the_example_of_the_usage_text_is_read() {
    let p = read("  name: build\n  on: push\n  jobs:\n    build:\n      steps:\n        - name: compile\n          run: gcc -o app main.c\n        - name: test\n          run: ./app --test\n");
    assert_eq!(p.name, "build");
    assert_eq!(p.jobs.len(), 1);
    assert_eq!(p.jobs[0].steps[1].run, "./app --test");
}

#[test]
fn the_template_is_a_pipeline() {
    let p = read(TEMPLATE);
    assert_eq!(p.name, "my pipeline");
    assert_eq!(p.on_event, "push");
    assert_eq!(p.jobs.len(), 1);
    assert_eq!(p.jobs[0].name, "build");
    assert_eq!(p.jobs[0].steps.len(), 2);
    assert_eq!(p.jobs[0].steps[0].name, "compile");
    assert_eq!(p.jobs[0].steps[0].run, "echo 'add your build command here'");
    assert_eq!(p.jobs[0].steps[1].name, "test");
    assert_eq!(p.jobs[0].steps[1].run, "echo 'add your test command here'");
}

#[test]
fn fields_have_defaults() {
    let p = read("jobs:\n  a:\n    steps:\n      - make\n      - run: x\n      - name: n\n");
    assert_eq!(p.name, "pipeline");
    assert_eq!(p.on_event, "push");
    let steps = &p.jobs[0].steps;
    assert_eq!((steps[0].name.as_str(), steps[0].run.as_str()), ("step 1", "make"));
    assert_eq!((steps[1].name.as_str(), steps[1].run.as_str()), ("step 2", "x"));
    assert_eq!((steps[2].name.as_str(), steps[2].run.as_str()), ("n", ""));
}

#[test]
fn every_field_of_a_job_is_read() {
    let p = read("jobs:\n  a:\n    workdir: sub\n    timeout: 90\n    needs:\n      - x\n      - k: v\n      - y\n    env:\n      A: 1\n      B: two words\n      A: 3\n      C:\n        D: 4\n");
    let a = &p.jobs[0];
    assert_eq!(a.workdir, "sub");
    assert_eq!(a.timeout, 90);
    assert_eq!(strs(&a.needs), vec!["x", "y"]);
    let mut env: Vec<(&str, &str)> =
        a.env.iter().map(|(k, v)| (k.as_str(), v.as_str())).collect();
    env.sort();
    assert_eq!(env, vec![("A", "3"), ("B", "two words")]);
}

#[test]
fn a_timeout_that_is_no_number_is_none() {
    for t in ["soon", "-1", "18446744073709551616", "1.5"] {
        let p = read(&format!("jobs:\n  a:\n    timeout: {}\n", t));
        assert_eq!(p.jobs[0].timeout, 0);
    }
    let p = read("jobs:\n  a:\n    timeout: +7\n");
    assert_eq!(p.jobs[0].timeout, 7);
}

#[test]
fn one_need_may_stand_alone_or_in_a_list() {
    let alone = read("jobs:\n  a:\n    needs: b\n");
    let list = read("jobs:\n  a:\n    needs:\n      - b\n");
    assert_eq!(strs(&alone.jobs[0].needs), vec!["b"]);
    assert_eq!(strs(&list.jobs[0].needs), vec!["b"]);
    let map = read("jobs:\n  a:\n    needs:\n      b: c\n");
    assert!(map.jobs[0].needs.is_empty());
}

#[test]
fn steps_that_are_lists_keep_the_count() {
    let p = read("jobs:\n  a:\n    steps:\n      -\n        - nested\n      - make\n");
    assert_eq!(p.jobs[0].steps.len(), 1);
    assert_eq!(p.jobs[0].steps[0].name, "step 2");
}

#[test]
fn a_file_without_jobs_is_refused() {
    assert_eq!(pipeline_parse("name: x\n").unwrap_err(), "no 'jobs' section found");
    assert_eq!(pipeline_parse("").unwrap_err(), "no 'jobs' section found");
    assert_eq!(pipeline_parse("- jobs\n").unwrap_err(), "no 'jobs' section found");
}

#[test]
fn jobs_must_be_a_map() {
    assert_eq!(pipeline_parse("jobs: none\n").unwrap_err(), "'jobs' must be a map");
    assert_eq!(pipeline_parse("jobs:\n  - a\n").unwrap_err(), "'jobs' must be a map");
    assert_eq!(pipeline_parse("jobs:\n").unwrap_err(), "'jobs' must be a map");
}

#[test]
fn a_pipeline_in_the_layout_is_read_back() {
    let text = "name: \"# ci\"\non: push\njobs:\n  one:\n    workdir: \"\"\n    timeout: 5\n    needs:\n      - two\n    env:\n      A: \" b \"\n    steps:\n      - name: x\n        run: echo \"it's\" done\n  two:\n    workdir: d\n    timeout: 0\n";
    let p = read(text);
    assert_eq!(p.name, "# ci");
    assert_eq!(p.jobs[0].timeout, 5);
    assert_eq!(strs(&p.jobs[0].needs), vec!["two"]);
    assert_eq!(p.jobs[0].env, vec![("A".to_string(), " b ".to_string())]);
    assert_eq!(p.jobs[0].steps[0].run, "echo \"it's\" done");
    assert_eq!(p.jobs[1].workdir, "d");
    assert!(p.jobs[1].steps.is_empty());
}

#[test]
fn a_value_is_read_like_its_text() {
    let doc = yaml_parse(README).unwrap();
    let p = pipeline_from(&doc).unwrap();
    assert_eq!(p.jobs.len(), 2);
    let bare = YamlValue::Scalar("x".to_string());
    assert_eq!(pipeline_from(&bare).unwrap_err(), "no 'jobs' section found");
}
