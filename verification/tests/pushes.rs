use hep_ci::webhook::{answer_to, handle_webhook, read_push, Webhook, REPLY};

fn push(request: &str) -> (String, String, String) {
    let p = read_push(request);
    (p.repo, p.commit, p.branch)
}

fn triple(a: &str, b: &str, c: &str) -> (String, String, String) {
    (a.to_string(), b.to_string(), c.to_string())
}

#[test]
fn a_push_is_read_from_the_body() {
    let request = "POST /hook HTTP/1.1\r\nHost: x\r\n\r\nrepo=app&commit=abc123&branch=dev";
    assert_eq!(push(request), triple("app", "abc123", "dev"));
    let request = "POST /hook HTTP/1.1\nHost: x\n\nrepo=app&commit=abc123&branch=dev\n";
    assert_eq!(push(request), triple("app", "abc123", "dev"));
}

#[test]
fn the_branch_has_a_default() {
    assert_eq!(push("\r\n\r\nrepo=app"), triple("app", "", "main"));
    assert_eq!(push("\r\n\r\nrepo=app&branch="), triple("app", "", ""));
}

#[test]
fn fields_come_in_any_order_and_the_last_one_counts() {
    assert_eq!(push("\n\nbranch=b&x=1&repo=r1&commit=c&repo= r2 "), triple("r2", "c", "b"));
    assert_eq!(push("\n\nxrepo=a&Repo=b"), triple("", "", "main"));
    assert_eq!(push("\n\nrepo=a=b"), triple("a=b", "", "main"));
}

#[test]
fn the_body_begins_behind_the_first_empty_line() {
    assert_eq!(push("a\n\nrepo=x\r\n\r\nrepo=y"), triple("y", "", "main"));
    assert_eq!(push("a\r\n\r\nrepo=x\r\n\r\n&commit=y"), triple("x", "y", "main"));
    assert_eq!(push("repo=x"), triple("", "", "main"));
    assert_eq!(push(""), triple("", "", "main"));
}

#[test]
fn only_a_named_repository_is_run() {
    assert!(matches!(answer_to("\n\nrepo="), Webhook::Answer));
    assert!(matches!(answer_to("\n\nrepo=  &commit=c"), Webhook::Answer));
    assert!(matches!(answer_to("GET / HTTP/1.1\r\n\r\n"), Webhook::Answer));
    match answer_to("\n\nrepo=a&commit=c") {
        Webhook::Run { push } => {
            assert_eq!(push.repo, "a");
            assert_eq!(push.commit, "c");
        }
        _ => panic!("not run"),
    }
}

#[test]
fn nothing_is_answered_to_nothing() {
    assert!(matches!(handle_webhook(&[]), Webhook::Drop));
    assert!(matches!(handle_webhook(b"x"), Webhook::Answer));
}

#[test]
fn bytes_are_read_as_text() {
    match handle_webhook("POST\r\n\r\nrepo=é🙂&branch=ü".as_bytes()) {
        Webhook::Run { push } => {
            assert_eq!(push.repo, "é🙂");
            assert_eq!(push.branch, "ü");
        }
        _ => panic!("not run"),
    }
}

#[test]
fn bytes_that_are_no_text_are_replaced() {
    match handle_webhook(b"\n\nrepo=a\xffb&commit=\xe2\x82") {
        Webhook::Run { push } => {
            assert_eq!(push.repo, "a\u{fffd}b");
            assert_eq!(push.commit, "\u{fffd}");
        }
        _ => panic!("not run"),
    }
}

#[test]
fn the_answer_is_short() {
    assert_eq!(REPLY.as_bytes(), b"HTTP/1.1 200 OK\r\nContent-Length: 2\r\n\r\nok");
}
