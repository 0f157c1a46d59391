//! Where the files of a repository and of its runs lie, on Unix, and what its
//! head file says.

use vstd::prelude::*;
use vstd::string::*;

use crate::text::{
    after_last, is_white, last_piece, law_last_piece_follows_the_last,
    law_trimming_takes_white_space_off, strip_prefix, trim, trimmed,
};

verus! {

/// The directory of a repository that holds its runs.
pub const CI_DIR: &'static str = ".hep-ci";

/// The pipeline file of a repository.
pub const CI_YML: &'static str = ".hep-ci.yml";

/// How many directories are looked at on the way up to the root of a repository.
pub const ROOT_DEPTH: usize = 20;

// ---------------------------------------------------------------------- paths
/// The path of `part` as seen from `base`: an absolute part stands for itself.
/// Paths here are those of Unix, with `/` between their parts: there this is the
/// text of what `std::path::Path::join` gives. Elsewhere a path may begin with a
/// drive and have another sign between its parts, and is for the system to join.
pub open spec fn path_join(base: Seq<char>, part: Seq<char>) -> Seq<char> {
    if part.len() > 0 && part[0] == '/' {
        part
    } else if base.len() == 0 || base.last() == '/' {
        base + part
    } else {
        base + "/"@ + part
    }
}

/// The path of `part` as seen from `base`.
pub fn join_path(base: &str, part: &str) -> (r: String)
    ensures
        r@ == path_join(base@, part@),
{
    let n = base.unicode_len();
    if part.unicode_len() > 0 && part.get_char(0) == '/' {
        return part.to_string();
    }
    let mut out = base.to_string();
    if n > 0 && base.get_char(n - 1) != '/' {
        out.append("/");
    }
    out.append(part);
    out
}

/// The directory that holds the runs of a repository.
pub open spec fn ci_dir(repo_root: Seq<char>) -> Seq<char> {
    path_join(repo_root, CI_DIR@)
}

/// The directory that holds the runs of a repository.
pub fn ci_dir_for(repo_root: &str) -> (r: String)
    ensures
        r@ == ci_dir(repo_root@),
{
    join_path(repo_root, CI_DIR)
}

/// The log of the run `run_id`.
pub open spec fn log_file(dir: Seq<char>, run_id: Seq<char>) -> Seq<char> {
    path_join(path_join(dir, "logs"@), run_id + ".log"@)
}

/// The log of the run `run_id`, where runs lie in `dir`.
pub fn log_path_for(dir: &str, run_id: &str) -> (r: String)
    ensures
        r@ == log_file(dir@, run_id@),
{
    let logs = join_path(dir, "logs");
    let mut name = run_id.to_string();
    name.append(".log");
    join_path(logs.as_str(), name.as_str())
}

/// The file that marks the run `run_id` as cancelled.
pub open spec fn cancel_file(dir: Seq<char>, run_id: Seq<char>) -> Seq<char> {
    path_join(dir, "cancel_"@ + run_id)
}

/// The file that marks the run `run_id` as cancelled, where runs lie in `dir`.
pub fn cancel_path_for(dir: &str, run_id: &str) -> (r: String)
    ensures
        r@ == cancel_file(dir@, run_id@),
{
    let mut name = "cancel_".to_string();
    name.append(run_id);
    join_path(dir, name.as_str())
}

// ----------------------------------------------------------------- repository
/// What to do when one directory has been looked at.
#[derive(Debug, Clone, Copy, PartialEq, Eq, Structural)]
pub enum RootStep {
    /// The directory is the root.
    Found,
    /// The directory above is next.
    Climb,
    /// There is no root.
    GiveUp,
}

/// What to do at a directory when `looked` directories have been looked at
/// before it, given whether it holds a repository.
pub fn root_step(looked: usize, marked: bool) -> (r: RootStep)
    ensures
        r is GiveUp <==> looked >= ROOT_DEPTH,
        r is Found <==> looked < ROOT_DEPTH && marked,
{
    if looked >= ROOT_DEPTH {
        RootStep::GiveUp
    } else if marked {
        RootStep::Found
    } else {
        RootStep::Climb
    }
}

/// What a head file points at.
pub enum Head {
    /// A branch, whose commit stands in the file at `path`.
    Branch { path: String, branch: String },
    /// A commit.
    Detached { commit: String },
}

pub enum HeadView {
    Branch { path: Seq<char>, branch: Seq<char> },
    Detached { commit: Seq<char> },
}

impl View for Head {
    type V = HeadView;

    open spec fn view(&self) -> HeadView {
        match self {
            Head::Branch { path, branch } => HeadView::Branch { path: path@, branch: branch@ },
            Head::Detached { commit } => HeadView::Detached { commit: commit@ },
        }
    }
}

/// What a head file with this content points at: behind `ref: ` a branch, which
/// is named by what follows the last slash, and else a commit.
pub open spec fn head_of(content: Seq<char>) -> HeadView {
    let t = trimmed(content);
    if "ref: "@.is_prefix_of(t) {
        let path = t.skip("ref: "@.len() as int);
        HeadView::Branch { path, branch: after_last(path, '/') }
    } else {
        HeadView::Detached { commit: t }
    }
}

/// What a head file with this content points at.
pub fn read_head(content: &str) -> (r: Head)
    ensures
        r@ == head_of(content@),
{
    let t = trim(content);
    match strip_prefix(t, "ref: ") {
        Some(path) => Head::Branch {
            path: path.to_string(),
            branch: last_piece(path, '/').to_string(),
        },
        None => Head::Detached { commit: t.to_string() },
    }
}

/// The commit and the branch of a repository.
pub open spec fn head_commit(head: HeadView, branch_file: Seq<char>) -> (Seq<char>, Seq<char>) {
    match head {
        HeadView::Branch { path, branch } => (trimmed(branch_file), branch),
        HeadView::Detached { commit } => (commit, "HEAD"@),
    }
}

/// The commit and the branch of a repository, given what the file of its branch
/// holds.
pub fn resolve_head(head: Head, branch_file: &str) -> (r: (String, String))
    ensures
        (r.0@, r.1@) == head_commit(head@, branch_file@),
{
    match head {
        Head::Branch { path, branch } => (trim(branch_file).to_string(), branch),
        Head::Detached { commit } => (commit, "HEAD".to_string()),
    }
}

// ------------------------------------------------------------------------ laws
/// A part that begins with a slash is a path of its own. Any other stands at the end
/// of the joined path, which begins with the base, with one slash between them where
/// the base does not end with one.
pub proof fn law_joined_path(base: Seq<char>, part: Seq<char>)
    ensures
        part.len() > 0 && part[0] == '/' ==> path_join(base, part) == part,
        part.len() == 0 || part[0] != '/' ==> {
            &&& base.len() == 0 ==> path_join(base, part) == part
            &&& base.len() > 0 && base.last() == '/' ==> path_join(base, part) == base + part
            &&& base.len() > 0 && base.last() != '/' ==> path_join(base, part) == base + seq!['/']
                + part
        },
{
    reveal_strlit("/");
    assert("/"@ =~= seq!['/']);
    assert(base.len() == 0 ==> base + part =~= part);
}

/// Joining two relative parts one after the other is joining them at once.
pub proof fn law_joining_parts(a: Seq<char>, b: Seq<char>, c: Seq<char>)
    requires
        b.len() > 0,
        c.len() == 0 || c[0] != '/',
    ensures
        path_join(path_join(a, b), c) == path_join(a, path_join(b, c)),
{
    reveal_strlit("/");
    assert("/"@ =~= seq!['/']);
    let ab = path_join(a, b);
    assert(ab.last() == b.last());
    assert(path_join(b, c)[0] == b[0]);
    assert(path_join(ab, c) =~= path_join(a, path_join(b, c)));
}

/// The runs of a repository lie below it in `.hep-ci`, the log of a run in `logs`
/// under the name of the run, and the mark of a cancelled run beside them.
pub proof fn law_runs_lie_in_their_repository(root: Seq<char>, run_id: Seq<char>)
    requires
        root.len() > 0,
        root.last() != '/',
        run_id.len() > 0,
        run_id[0] != '/',
    ensures
        ci_dir(root) == root + "/.hep-ci"@,
        log_file(ci_dir(root), run_id) == root + "/.hep-ci/logs/"@ + run_id + ".log"@,
        cancel_file(ci_dir(root), run_id) == root + "/.hep-ci/cancel_"@ + run_id,
{
    reveal_strlit("/");
    reveal_strlit(".hep-ci");
    reveal_strlit("/.hep-ci");
    reveal_strlit("logs");
    reveal_strlit("/.hep-ci/logs/");
    reveal_strlit("cancel_");
    reveal_strlit("/.hep-ci/cancel_");
    reveal_strlit(".log");
    let d = ci_dir(root);
    assert(d =~= root + "/.hep-ci"@);
    assert(d.last() == 'i');
    let logs = path_join(d, "logs"@);
    assert(logs =~= d + "/"@ + "logs"@);
    assert(logs.last() == 's');
    assert((run_id + ".log"@)[0] == run_id[0]);
    assert(log_file(d, run_id) =~= root + "/.hep-ci/logs/"@ + run_id + ".log"@);
    assert(("cancel_"@ + run_id)[0] == 'c');
    assert(cancel_file(d, run_id) =~= root + "/.hep-ci/cancel_"@ + run_id);
}

/// Different runs of a repository have different logs and different marks.
pub proof fn law_runs_have_their_own_files(root: Seq<char>, a: Seq<char>, b: Seq<char>)
    requires
        root.len() > 0,
        root.last() != '/',
        a.len() > 0 && a[0] != '/',
        b.len() > 0 && b[0] != '/',
        a != b,
    ensures
        log_file(ci_dir(root), a) != log_file(ci_dir(root), b),
        cancel_file(ci_dir(root), a) != cancel_file(ci_dir(root), b),
{
    law_runs_lie_in_their_repository(root, a);
    law_runs_lie_in_their_repository(root, b);
    let p = root + "/.hep-ci/logs/"@;
    let q = root + "/.hep-ci/cancel_"@;
    if p + a + ".log"@ == p + b + ".log"@ {
        assert((p + a + ".log"@).len() == (p + b + ".log"@).len());
        assert forall|i: int| 0 <= i < a.len() implies a[i] == b[i] by {
            assert((p + a + ".log"@)[p.len() + i] == a[i]);
            assert((p + b + ".log"@)[p.len() + i] == b[i]);
        }
        assert(a =~= b);
    }
    if q + a == q + b {
        assert((q + a).len() == (q + b).len());
        assert forall|i: int| 0 <= i < a.len() implies a[i] == b[i] by {
            assert((q + a)[q.len() + i] == a[i]);
            assert((q + b)[q.len() + i] == b[i]);
        }
        assert(a =~= b);
    }
}

/// A head file that names a path behind `ref: `, with white space round it or not,
/// points at the branch whose name follows the last slash of that path; its commit
/// is what the file of the branch holds.
pub proof fn law_head_names_its_branch(
    a: Seq<char>,
    dir: Seq<char>,
    branch: Seq<char>,
    b: Seq<char>,
    branch_file: Seq<char>,
)
    requires
        forall|i: int| 0 <= i < a.len() ==> is_white(#[trigger] a[i]),
        forall|i: int| 0 <= i < b.len() ==> is_white(#[trigger] b[i]),
        !branch.contains('/'),
        branch.len() > 0,
        !is_white(branch.last()),
    ensures
        head_of(a + ("ref: "@ + dir + seq!['/'] + branch) + b) == (HeadView::Branch {
            path: dir + seq!['/'] + branch,
            branch,
        }),
        head_of(a + ("ref: "@ + branch) + b) == (HeadView::Branch { path: branch, branch }),
        head_commit(HeadView::Branch { path: dir, branch }, branch_file) == (
            trimmed(branch_file),
            branch,
        ),
{
    reveal_strlit("ref: ");
    let path = dir + seq!['/'] + branch;
    let t = "ref: "@ + dir + seq!['/'] + branch;
    assert(!is_white('r'));
    assert(t[0] == 'r' && t.last() == branch.last());
    law_trimming_takes_white_space_off(a, t, b);
    assert("ref: "@ =~= t.take(5));
    assert(t.skip(5) =~= path);
    law_last_piece_follows_the_last(dir, branch, '/');
    let u = "ref: "@ + branch;
    assert(u[0] == 'r' && u.last() == branch.last());
    law_trimming_takes_white_space_off(a, u, b);
    assert("ref: "@ =~= u.take(5));
    assert(u.skip(5) =~= branch);
}

/// A head file that holds anything else points at the commit that it holds, and the
/// branch is called `HEAD`, whatever any other file holds.
pub proof fn law_head_names_its_commit(
    a: Seq<char>,
    commit: Seq<char>,
    b: Seq<char>,
    branch_file: Seq<char>,
)
    requires
        forall|i: int| 0 <= i < a.len() ==> is_white(#[trigger] a[i]),
        forall|i: int| 0 <= i < b.len() ==> is_white(#[trigger] b[i]),
        commit.len() > 0 && !is_white(commit[0]) && !is_white(commit.last()),
        !"ref: "@.is_prefix_of(commit),
    ensures
        head_of(a + commit + b) == (HeadView::Detached { commit }),
        head_commit(head_of(a + commit + b), branch_file) == (commit, "HEAD"@),
{
    law_trimming_takes_white_space_off(a, commit, b);
}

} // verus!
