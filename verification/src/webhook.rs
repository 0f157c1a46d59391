//! Requests that announce a push: `repo=name&commit=id&branch=name` behind the
//! head of an HTTP request.

use vstd::prelude::*;
use vstd::string::*;
use vstd::utf8::*;

use crate::run::{
    complete, last_with, law_load_gives_last_save, law_push_record_carries_its_push, line_of,
    one_line, push_record, runs_in, storable, CiStatus, RunView,
};
use crate::text::{
    find_text, lemma_until, lemma_until_is, pieces, split, strip_prefix, tail, texts, trim, trimmed,
    until_text,
};

verus! {

/// What every request is answered.
pub const REPLY: &'static str = "HTTP/1.1 200 OK\r\nContent-Length: 2\r\n\r\nok";

/// A push that a request announces.
pub struct Push {
    /// The repository; empty where the request names none.
    pub repo: String,
    pub commit: String,
    pub branch: String,
}

pub struct PushView {
    pub repo: Seq<char>,
    pub commit: Seq<char>,
    pub branch: Seq<char>,
}

impl View for Push {
    type V = PushView;

    open spec fn view(&self) -> PushView {
        PushView { repo: self.repo@, commit: self.commit@, branch: self.branch@ }
    }
}

/// What follows the head of a request: it ends with the first empty line, by
/// `\r\n` or else by `\n`.
pub open spec fn body_of(request: Seq<char>) -> Seq<char> {
    match until_text(request, "\r\n\r\n"@) {
        Some(k) => request.skip(k + 4),
        None => match until_text(request, "\n\n"@) {
            Some(k) => request.skip(k + 2),
            None => Seq::empty(),
        },
    }
}

/// `p` with the field that `part` sets.
pub open spec fn with_field(p: PushView, part: Seq<char>) -> PushView {
    if "repo="@.is_prefix_of(part) {
        PushView { repo: trimmed(part.skip(5)), ..p }
    } else if "commit="@.is_prefix_of(part) {
        PushView { commit: trimmed(part.skip(7)), ..p }
    } else if "branch="@.is_prefix_of(part) {
        PushView { branch: trimmed(part.skip(7)), ..p }
    } else {
        p
    }
}

/// The push whose fields `parts` set, one after the other.
pub open spec fn fields_of(parts: Seq<Seq<char>>) -> PushView
    decreases parts.len(),
{
    if parts.len() == 0 {
        PushView { repo: Seq::empty(), commit: Seq::empty(), branch: "main"@ }
    } else {
        with_field(fields_of(parts.drop_last()), parts.last())
    }
}

/// The push that a request announces.
pub open spec fn push_of(request: Seq<char>) -> PushView {
    fields_of(pieces(body_of(request), '&'))
}

/// What follows the head of a request.
fn body_text<'a>(request: &'a str) -> (r: &'a str)
    ensures
        r@ == body_of(request@),
{
    proof {
        reveal_strlit("\r\n\r\n");
        reveal_strlit("\n\n");
        reveal_strlit("");
    }
    match find_text(request, "\r\n\r\n") {
        Some(k) => tail(request, k + 4),
        None => match find_text(request, "\n\n") {
            Some(k) => tail(request, k + 2),
            None => {
                assert(""@ =~= Seq::empty());
                ""
            },
        },
    }
}

/// The push that a request announces.
pub fn read_push(request: &str) -> (r: Push)
    ensures
        r@ == push_of(request@),
{
    let parts = split(body_text(request), '&');
    let ghost all = pieces(body_of(request@), '&');
    let mut push = Push { repo: String::new(), commit: String::new(), branch: "main".to_string() };
    let mut i: usize = 0;
    proof {
        reveal_strlit("repo=");
        reveal_strlit("commit=");
        reveal_strlit("branch=");
        assert("repo="@[0] != "commit="@[0]);
        assert(all.take(0) =~= Seq::empty());
        assert(push@ == fields_of(all.take(0)));
    }
    while i < parts.len()
        invariant
            i <= parts.len(),
            all == texts(parts@),
            push@ == fields_of(all.take(i as int)),
            "repo="@.len() == 5,
            "commit="@.len() == 7,
            "branch="@.len() == 7,
        decreases parts.len() - i,
    {
        proof {
            assert(all.take(i + 1).drop_last() =~= all.take(i as int));
            assert(all.take(i + 1).last() == parts@[i as int]@);
        }
        if let Some(v) = strip_prefix(parts[i], "repo=") {
            push.repo = trim(v).to_string();
        } else if let Some(v) = strip_prefix(parts[i], "commit=") {
            push.commit = trim(v).to_string();
        } else if let Some(v) = strip_prefix(parts[i], "branch=") {
            push.branch = trim(v).to_string();
        }
        i += 1;
    }
    assert(all.take(i as int) =~= all);
    push
}

/// What to do with what came over a connection.
pub enum Webhook {
    /// Nothing came: no answer.
    Drop,
    /// Answer; there is nothing to run.
    Answer,
    /// Answer, and run the pipeline of the repository.
    Run { push: Push },
}

pub enum WebhookView {
    Drop,
    Answer,
    Run { push: PushView },
}

impl View for Webhook {
    type V = WebhookView;

    open spec fn view(&self) -> WebhookView {
        match self {
            Webhook::Drop => WebhookView::Drop,
            Webhook::Answer => WebhookView::Answer,
            Webhook::Run { push } => WebhookView::Run { push: push@ },
        }
    }
}

/// What to do with a request: a push of a repository that has a name is run.
pub open spec fn answer_of(request: Seq<char>) -> WebhookView {
    let push = push_of(request);
    if push.repo.len() == 0 {
        WebhookView::Answer
    } else {
        WebhookView::Run { push }
    }
}

/// What to do with a request.
pub fn answer_to(request: &str) -> (r: Webhook)
    ensures
        r@ == answer_of(request@),
{
    let push = read_push(request);
    if push.repo.as_str().is_empty() {
        Webhook::Answer
    } else {
        Webhook::Run { push }
    }
}

/// The text that `String::from_utf8_lossy` makes of bytes.
pub uninterp spec fn lossy_text(bytes: Seq<u8>) -> Seq<char>;

/// The text that `String::from_utf8_lossy` makes of bytes. Where they are UTF-8
/// it is what they encode; elsewhere it stands as the function gives it, which
/// puts replacement characters in the place of what is not UTF-8.
#[verifier::external_body]
fn decode_lossy(bytes: &[u8]) -> (r: String)
    ensures
        r@ == lossy_text(bytes@),
        valid_utf8(bytes@) ==> r@ == decode_utf8(bytes@),
{
    String::from_utf8_lossy(bytes).into_owned()
}

/// What to do with the bytes that came over a connection.
pub fn handle_webhook(bytes: &[u8]) -> (r: Webhook)
    ensures
        r@ == if bytes@.len() == 0 {
            WebhookView::Drop
        } else {
            answer_of(lossy_text(bytes@))
        },
        bytes@.len() > 0 && valid_utf8(bytes@) ==> r@ == answer_of(decode_utf8(bytes@)),
{
    if bytes.len() == 0 {
        return Webhook::Drop;
    }
    let request = decode_lossy(bytes);
    answer_to(request.as_str())
}

// ------------------------------------------------------------------------ laws
/// The body that announces `p`.
pub open spec fn push_body(p: PushView) -> Seq<char> {
    "repo="@ + p.repo + "&commit="@ + p.commit + "&branch="@ + p.branch
}

/// A push whose body gives it back: no field holds `&` or is trimmed.
pub open spec fn sendable(p: PushView) -> bool {
    &&& !p.repo.contains('&') && trimmed(p.repo) == p.repo
    &&& !p.commit.contains('&') && trimmed(p.commit) == p.commit
    &&& !p.branch.contains('&') && trimmed(p.branch) == p.branch
}

/// The first piece of a text, and the others.
proof fn lemma_first_piece(a: Seq<char>, b: Seq<char>, sep: char)
    requires
        !a.contains(sep),
    ensures
        pieces(a, sep) == seq![a],
        pieces(a.push(sep) + b, sep) == seq![a] + pieces(b, sep),
{
    lemma_until(a, sep);
    let s = a.push(sep) + b;
    lemma_until_is(s, sep, a.len() as int);
    assert(s.take(a.len() as int) =~= a);
    assert(s.skip(a.len() as int + 1) =~= b);
}

/// A request whose body announces a push is read as that push.
pub proof fn law_push_is_read(request: Seq<char>, p: PushView)
    requires
        body_of(request) == push_body(p),
        sendable(p),
    ensures
        push_of(request) == p,
        p.repo.len() > 0 ==> answer_of(request) == (WebhookView::Run { push: p }),
{
    reveal_strlit("repo=");
    reveal_strlit("commit=");
    reveal_strlit("branch=");
    reveal_strlit("&commit=");
    reveal_strlit("&branch=");
    let r = "repo="@ + p.repo;
    let c = "commit="@ + p.commit;
    let b = "branch="@ + p.branch;
    assert(push_body(p) =~= r.push('&') + (c.push('&') + b));
    lemma_field_free("repo="@, p.repo);
    lemma_field_free("commit="@, p.commit);
    lemma_field_free("branch="@, p.branch);
    lemma_first_piece(r, c.push('&') + b, '&');
    lemma_first_piece(c, b, '&');
    lemma_first_piece(b, b, '&');
    let parts = pieces(push_body(p), '&');
    assert(parts =~= seq![r, c, b]);
    assert("repo="@.is_prefix_of(r) && r.skip(5) =~= p.repo);
    assert(!"repo="@.is_prefix_of(c)) by {
        assert(c[0] == 'c' && "repo="@[0] == 'r');
    }
    assert("commit="@.is_prefix_of(c) && c.skip(7) =~= p.commit);
    assert(!"repo="@.is_prefix_of(b) && !"commit="@.is_prefix_of(b)) by {
        assert(b[0] == 'b' && "repo="@[0] == 'r' && "commit="@[0] == 'c');
    }
    assert("branch="@.is_prefix_of(b) && b.skip(7) =~= p.branch);
    let p0 = fields_of(Seq::empty());
    assert(parts.drop_last().drop_last().drop_last() =~= Seq::empty());
    assert(parts.drop_last().drop_last().last() == r);
    assert(parts.drop_last().last() == c);
    let p1 = fields_of(parts.drop_last().drop_last());
    assert(p1 == with_field(p0, r));
    let p2 = fields_of(parts.drop_last());
    assert(p2 == with_field(p1, c));
    assert(fields_of(parts) == with_field(p2, b));
}

proof fn lemma_field_free(name: Seq<char>, value: Seq<char>)
    requires
        !name.contains('&'),
        !value.contains('&'),
    ensures
        !(name + value).contains('&'),
{
    assert forall|i: int| 0 <= i < (name + value).len() implies (name + value)[i] != '&' by {
        if i < name.len() {
            assert(name.contains(name[i]));
        } else {
            assert(value.contains(value[i - name.len()]));
        }
    }
}

/// An occurrence stays the first one when text follows.
proof fn lemma_until_text_longer(a: Seq<char>, b: Seq<char>, pat: Seq<char>)
    requires
        until_text(a, pat) is Some,
    ensures
        until_text(a + b, pat) == until_text(a, pat),
        0 <= until_text(a, pat)->0 <= a.len() - pat.len(),
    decreases a.len(),
{
    if pat.is_prefix_of(a) {
        assert(pat =~= (a + b).take(pat.len() as int));
        assert(pat.is_prefix_of(a + b));
    } else {
        lemma_until_text_longer(a.skip(1), b, pat);
        assert((a + b).skip(1) =~= a.skip(1) + b);
        if pat.is_prefix_of(a + b) {
            assert(pat =~= a.take(pat.len() as int));
        }
    }
}

/// The body of a request is what follows the empty line behind its head, whether
/// lines end with `\r\n` or `\n`.
pub proof fn law_body_follows_head(head: Seq<char>, body: Seq<char>)
    ensures
        until_text(head + "\r\n\r\n"@, "\r\n\r\n"@) == Some(head.len() as int) ==> body_of(
            head + "\r\n\r\n"@ + body,
        ) == body,
        until_text(head + "\n\n"@, "\n\n"@) == Some(head.len() as int) && until_text(
            head + "\n\n"@ + body,
            "\r\n\r\n"@,
        ) is None ==> body_of(head + "\n\n"@ + body) == body,
{
    reveal_strlit("\r\n\r\n");
    reveal_strlit("\n\n");
    let a = head + "\r\n\r\n"@;
    if until_text(a, "\r\n\r\n"@) == Some(head.len() as int) {
        lemma_until_text_longer(a, body, "\r\n\r\n"@);
        assert((a + body).skip(head.len() as int + 4) =~= body);
    }
    let a = head + "\n\n"@;
    if until_text(a, "\n\n"@) == Some(head.len() as int) {
        lemma_until_text_longer(a, body, "\n\n"@);
        assert((a + body).skip(head.len() as int + 2) =~= body);
    }
}

/// Each part of a body that sets a field sets that field, to what stands behind the
/// sign of equality, and changes no other, whatever came before; another part sets
/// none. Before the first part there is neither a repository nor a commit, and the
/// branch is `main`.
pub proof fn law_parts_set_fields(parts: Seq<Seq<char>>, x: Seq<char>, other: Seq<char>)
    ensures
        ({
            let p = fields_of(parts.push("repo="@ + x));
            let q = fields_of(parts);
            p.repo == trimmed(x) && p.commit == q.commit && p.branch == q.branch
        }),
        ({
            let p = fields_of(parts.push("commit="@ + x));
            let q = fields_of(parts);
            p.commit == trimmed(x) && p.repo == q.repo && p.branch == q.branch
        }),
        ({
            let p = fields_of(parts.push("branch="@ + x));
            let q = fields_of(parts);
            p.branch == trimmed(x) && p.repo == q.repo && p.commit == q.commit
        }),
        !"repo="@.is_prefix_of(other) && !"commit="@.is_prefix_of(other)
            && !"branch="@.is_prefix_of(other) ==> fields_of(parts.push(other)) == fields_of(parts),
        fields_of(Seq::empty()).repo.len() == 0,
        fields_of(Seq::empty()).commit.len() == 0,
        fields_of(Seq::empty()).branch == "main"@,
{
    reveal_strlit("repo=");
    reveal_strlit("commit=");
    reveal_strlit("branch=");
    let r = "repo="@ + x;
    let c = "commit="@ + x;
    let b = "branch="@ + x;
    assert("repo="@ =~= r.take(5));
    assert("commit="@ =~= c.take(7));
    assert("branch="@ =~= b.take(7));
    assert("repo="@.is_prefix_of(r) && "commit="@.is_prefix_of(c) && "branch="@.is_prefix_of(b));
    assert(r.skip(5) =~= x && c.skip(7) =~= x && b.skip(7) =~= x);
    assert(c[0] == 'c' && b[0] == 'b' && "repo="@[0] == 'r' && "commit="@[0] == 'c');
    assert(parts.push(r).drop_last() =~= parts);
    assert(parts.push(c).drop_last() =~= parts);
    assert(parts.push(b).drop_last() =~= parts);
    assert(parts.push(other).drop_last() =~= parts);
}

/// A pipeline is run exactly where a request names a repository, and then for the
/// push that it announces. A request without an empty line announces none.
pub proof fn law_named_repositories_are_run(request: Seq<char>)
    ensures
        answer_of(request) is Run <==> push_of(request).repo.len() > 0,
        answer_of(request) matches WebhookView::Run { push } ==> push == push_of(request),
        !(answer_of(request) is Drop),
        until_text(request, "\r\n\r\n"@) is None && until_text(request, "\n\n"@) is None ==> answer_of(
            request,
        ) is Answer,
{
    if until_text(request, "\r\n\r\n"@) is None && until_text(request, "\n\n"@) is None {
        let none = Seq::<char>::empty();
        assert(pieces(none, '&') =~= seq![none]);
        reveal_strlit("repo=");
        reveal_strlit("commit=");
        reveal_strlit("branch=");
        assert(!"repo="@.is_prefix_of(none));
        assert(!"commit="@.is_prefix_of(none));
        assert(!"branch="@.is_prefix_of(none));
        assert(seq![none].drop_last() =~= Seq::empty());
        assert(fields_of(seq![none].drop_last()).repo.len() == 0);
    }
}

/// A push that a request announces is what is recorded of the run that it causes:
/// when the run is saved and loaded again, its branch and its commit are those of
/// the push, and it is a run by push that goes on.
pub proof fn law_announced_push_is_recorded(
    request: Seq<char>,
    p: PushView,
    log: Seq<char>,
    run_id: Seq<char>,
    pipeline: Seq<char>,
    started: u64,
    log_path: Seq<char>,
)
    requires
        body_of(request) == push_body(p),
        sendable(p),
        p.repo.len() > 0,
        complete(log),
        ({
            let v = RunView {
                run_id,
                pipeline,
                commit: p.commit,
                branch: p.branch,
                triggered_by: Seq::empty(),
                started,
                finished: 0,
                status: CiStatus::Running,
                log_path,
            };
            storable(v) && one_line(v)
        }),
    ensures
        answer_of(request) matches WebhookView::Run { push } && {
            let saved = push_record(run_id, pipeline, push.commit, push.branch, started, log_path);
            &&& push.repo == p.repo
            &&& last_with(runs_in(log + line_of(saved)), run_id) matches Some(v) && {
                &&& v.branch == p.branch
                &&& p.commit.len() > 0 ==> v.commit == p.commit
                &&& v.run_id == run_id && v.pipeline == pipeline && v.log_path == log_path
                &&& v.started == started && v.finished == 0 && v.status is Running
                &&& v.triggered_by == "push"@
            }
        },
{
    law_push_is_read(request, p);
    let saved = push_record(run_id, pipeline, p.commit, p.branch, started, log_path);
    law_push_record_carries_its_push(run_id, pipeline, p.commit, p.branch, started, log_path);
    reveal_strlit("push");
    reveal_strlit("none");
    assert(storable(saved) && one_line(saved));
    law_load_gives_last_save(log, saved, run_id);
}

} // verus!
