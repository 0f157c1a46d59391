use std::path::Path;

use hep_ci::paths::{
    cancel_path_for, ci_dir_for, join_path, log_path_for, read_head, resolve_head, root_step, Head,
    RootStep, CI_DIR, CI_YML, ROOT_DEPTH,
};

#[test]
fn paths_join_as_in_std() {
    for base in ["", "/", ".", "/a", "/a/", "a/b", "./repos", "a//"] {
        for part in ["", "b", "b/c", "/b", ".hep-ci", "b/"] {
            let wanted = Path::new(base).join(part);
            assert_eq!(join_path(base, part).as_str(), wanted.to_str().unwrap());
        }
    }
}

#[test]
fn runs_lie_in_one_directory() {
    assert_eq!(CI_DIR, ".hep-ci");
    assert_eq!(CI_YML, ".hep-ci.yml");
    assert_eq!(ci_dir_for("/r"), "/r/.hep-ci");
    assert_eq!(log_path_for("/r/.hep-ci", "20240229-123456"), "/r/.hep-ci/logs/20240229-123456.log");
    assert_eq!(cancel_path_for("/r/.hep-ci", "x"), "/r/.hep-ci/cancel_x");
}

fn head(content: &str, branch_file: &str) -> (String, String) {
    resolve_head(read_head(content), branch_file)
}

#[test]
fn a_head_points_at_a_branch() {
    match read_head("ref: refs/heads/main\n") {
        Head::Branch { path, branch } => {
            assert_eq!(path, "refs/heads/main");
            assert_eq!(branch, "main");
        }
        Head::Detached { .. } => panic!("detached"),
    }
    assert_eq!(head("ref: refs/heads/a/b\n", " abc \n"), ("abc".to_string(), "b".to_string()));
    assert_eq!(head("ref: main", ""), (String::new(), "main".to_string()));
    assert_eq!(head("ref: x/", "abc"), ("abc".to_string(), String::new()));
}

#[test]
fn a_head_points_at_a_commit() {
    assert_eq!(head(" abc\n", "other"), ("abc".to_string(), "HEAD".to_string()));
    assert_eq!(head("", ""), (String::new(), "HEAD".to_string()));
    assert_eq!(head("ref:x", ""), ("ref:x".to_string(), "HEAD".to_string()));
    assert_eq!(head("ref: ", ""), ("ref:".to_string(), "HEAD".to_string()));
}

#[test]
fn the_root_is_looked_for_on_the_way_up() {
    assert_eq!(ROOT_DEPTH, 20);
    assert_eq!(root_step(0, true), RootStep::Found);
    assert_eq!(root_step(0, false), RootStep::Climb);
    assert_eq!(root_step(19, true), RootStep::Found);
    assert_eq!(root_step(19, false), RootStep::Climb);
    assert_eq!(root_step(20, true), RootStep::GiveUp);
}
