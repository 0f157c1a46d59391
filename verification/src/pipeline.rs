//! Pipelines: jobs with steps, and how a document describes them.

use vstd::prelude::*;
use vstd::string::*;

use crate::number::{
    digits, law_natural_round_trip, natural, natural_up_to, parse_u64, u64_text,
};
use crate::text::same;
use crate::yaml::{
    document, lookup, pairs_view, readable, text_or, values_view, yaml_parse, YamlValue, YamlView,
};

verus! {

// ---------------------------------------------------------------------- types
/// A command of a job.
#[derive(Debug, Clone)]
pub struct Step {
    pub name: String,
    pub run: String,
}

/// A row of steps that runs when the jobs that it needs have passed.
#[derive(Debug, Clone)]
pub struct Job {
    pub name: String,
    pub needs: Vec<String>,
    pub steps: Vec<Step>,
    /// The variables of the job, each name once.
    pub env: Vec<(String, String)>,
    pub workdir: String,
    /// In seconds; 0 is no limit.
    pub timeout: u64,
}

#[derive(Debug, Clone)]
pub struct Pipeline {
    pub name: String,
    pub on_event: String,
    pub jobs: Vec<Job>,
}

/// The pipeline file that a repository starts with.
pub const TEMPLATE: &'static str = "name: my pipeline\n\non: push\n\njobs:\n  build:\n    steps:\n      - name: compile\n        run: echo 'add your build command here'\n      - name: test\n        run: echo 'add your test command here'\n\n  # example: job that only runs after build passes\n  # deploy:\n  #   needs: build\n  #   steps:\n  #     - name: ship\n  #       run: ./deploy.sh\n";

pub struct StepView {
    pub name: Seq<char>,
    pub run: Seq<char>,
}

pub struct JobView {
    pub name: Seq<char>,
    pub needs: Seq<Seq<char>>,
    pub steps: Seq<StepView>,
    pub env: Map<Seq<char>, Seq<char>>,
    pub workdir: Seq<char>,
    pub timeout: u64,
}

pub struct PipelineView {
    pub name: Seq<char>,
    pub on_event: Seq<char>,
    pub jobs: Seq<JobView>,
}

impl View for Step {
    type V = StepView;

    open spec fn view(&self) -> StepView {
        StepView { name: self.name@, run: self.run@ }
    }
}

/// The texts of a sequence of strings.
pub open spec fn strings(s: Seq<String>) -> Seq<Seq<char>> {
    s.map_values(|t: String| t@)
}

pub open spec fn steps_view(s: Seq<Step>) -> Seq<StepView> {
    s.map_values(|t: Step| t@)
}

pub open spec fn jobs_view(s: Seq<Job>) -> Seq<JobView> {
    s.map_values(|t: Job| t@)
}

/// The assignments of a sequence of pairs, where a later one wins.
pub open spec fn assignments(s: Seq<(String, String)>) -> Map<Seq<char>, Seq<char>>
    decreases s.len(),
{
    if s.len() == 0 {
        Map::empty()
    } else {
        assignments(s.drop_last()).insert(s.last().0@, s.last().1@)
    }
}

/// No name stands twice.
pub open spec fn names_differ(s: Seq<(String, String)>) -> bool {
    forall|i: int, j: int| 0 <= i < j < s.len() ==> (#[trigger] s[i]).0@ != (#[trigger] s[j]).0@
}

impl View for Job {
    type V = JobView;

    open spec fn view(&self) -> JobView {
        JobView {
            name: self.name@,
            needs: strings(self.needs@),
            steps: steps_view(self.steps@),
            env: assignments(self.env@),
            workdir: self.workdir@,
            timeout: self.timeout,
        }
    }
}

impl Job {
    pub open spec fn wf(&self) -> bool {
        names_differ(self.env@)
    }
}

impl View for Pipeline {
    type V = PipelineView;

    open spec fn view(&self) -> PipelineView {
        PipelineView {
            name: self.name@,
            on_event: self.on_event@,
            jobs: jobs_view(self.jobs@),
        }
    }
}

impl Pipeline {
    pub open spec fn wf(&self) -> bool {
        forall|i: int| 0 <= i < self.jobs@.len() ==> (#[trigger] self.jobs@[i]).wf()
    }
}

// -------------------------------------------------------------------- meaning
/// The name of a step that has none: its place in the list, counted from one.
pub open spec fn default_step_name(index: int) -> Seq<char> {
    "step "@ + digits((index + 1) as nat)
}

/// The step that the item at `index` describes: a command, or a map with a
/// name and a command.
pub open spec fn step_of(item: YamlView, index: int) -> Option<StepView> {
    match item {
        YamlView::Scalar(command) => Some(
            StepView { name: default_step_name(index), run: command },
        ),
        YamlView::Mapping(pairs) => Some(
            StepView {
                name: text_or(item, "name"@, default_step_name(index)),
                run: text_or(item, "run"@, ""@),
            },
        ),
        YamlView::Sequence(items) => None,
    }
}

pub open spec fn steps_from(items: Seq<YamlView>) -> Seq<StepView>
    decreases items.len(),
{
    if items.len() == 0 {
        Seq::empty()
    } else {
        match step_of(items.last(), items.len() - 1) {
            Some(step) => steps_from(items.drop_last()).push(step),
            None => steps_from(items.drop_last()),
        }
    }
}

/// The texts of those items that are scalars.
pub open spec fn scalars(items: Seq<YamlView>) -> Seq<Seq<char>>
    decreases items.len(),
{
    if items.len() == 0 {
        Seq::empty()
    } else {
        match items.last() {
            YamlView::Scalar(s) => scalars(items.drop_last()).push(s),
            _ => scalars(items.drop_last()),
        }
    }
}

/// The assignments of those pairs whose values are scalars; a later one wins.
pub open spec fn scalar_map(pairs: Seq<(Seq<char>, YamlView)>) -> Map<Seq<char>, Seq<char>>
    decreases pairs.len(),
{
    if pairs.len() == 0 {
        Map::empty()
    } else {
        match pairs.last().1 {
            YamlView::Scalar(s) => scalar_map(pairs.drop_last()).insert(pairs.last().0, s),
            _ => scalar_map(pairs.drop_last()),
        }
    }
}

pub open spec fn needs_of(node: YamlView) -> Seq<Seq<char>> {
    match lookup(node, "needs"@) {
        Some(YamlView::Scalar(s)) => seq![s],
        Some(YamlView::Sequence(items)) => scalars(items),
        _ => Seq::empty(),
    }
}

pub open spec fn env_of(node: YamlView) -> Map<Seq<char>, Seq<char>> {
    match lookup(node, "env"@) {
        Some(YamlView::Mapping(pairs)) => scalar_map(pairs),
        _ => Map::empty(),
    }
}

pub open spec fn steps_of(node: YamlView) -> Seq<StepView> {
    match lookup(node, "steps"@) {
        Some(YamlView::Sequence(items)) => steps_from(items),
        _ => Seq::empty(),
    }
}

/// The time limit of a job; 0 where it is not a number that fits.
pub open spec fn timeout_of(node: YamlView) -> u64 {
    match natural_up_to(text_or(node, "timeout"@, "0"@), u64::MAX as int) {
        Some(n) => n as u64,
        None => 0,
    }
}

pub open spec fn job_of(name: Seq<char>, node: YamlView) -> JobView {
    JobView {
        name,
        needs: needs_of(node),
        steps: steps_of(node),
        env: env_of(node),
        workdir: text_or(node, "workdir"@, ""@),
        timeout: timeout_of(node),
    }
}

/// The pipeline that a document describes, or what is wrong with it.
pub open spec fn pipeline_of(doc: YamlView) -> Result<PipelineView, Seq<char>> {
    match lookup(doc, "jobs"@) {
        None => Err("no 'jobs' section found"@),
        Some(YamlView::Mapping(pairs)) => Ok(
            PipelineView {
                name: text_or(doc, "name"@, "pipeline"@),
                on_event: text_or(doc, "on"@, "push"@),
                jobs: pairs.map_values(|p: (Seq<char>, YamlView)| job_of(p.0, p.1)),
            },
        ),
        Some(_) => Err("'jobs' must be a map"@),
    }
}

// ------------------------------------------------------------------ functions
/// Sets the variable `name` to `value`.
pub(crate) fn assign(env: &mut Vec<(String, String)>, name: String, value: String)
    requires
        names_differ(old(env)@),
    ensures
        names_differ(final(env)@),
        assignments(final(env)@) == assignments(old(env)@).insert(name@, value@),
{
    let mut i: usize = 0;
    let ghost before = env@;
    while i < env.len()
        invariant
            i <= env.len(),
            env@ == before,
            names_differ(before),
            before == old(env)@,
            forall|j: int| 0 <= j < i ==> (#[trigger] before[j]).0@ != name@,
        decreases env.len() - i,
    {
        if same(env[i].0.as_str(), name.as_str()) {
            proof {
                lemma_reassign(before, i as int, (name, value));
            }
            env.set(i, (name, value));
            return;
        }
        i += 1;
    }
    env.push((name, value));
    assert(env@.drop_last() =~= before);
}

proof fn lemma_reassign(s: Seq<(String, String)>, i: int, p: (String, String))
    requires
        0 <= i < s.len(),
        names_differ(s),
        s[i].0@ == p.0@,
    ensures
        names_differ(s.update(i, p)),
        assignments(s.update(i, p)) == assignments(s).insert(p.0@, p.1@),
    decreases s.len(),
{
    let t = s.update(i, p);
    assert(names_differ(t));
    if i == s.len() - 1 {
        assert(t.drop_last() =~= s.drop_last());
        assert(assignments(t) =~= assignments(s).insert(p.0@, p.1@));
    } else {
        lemma_reassign(s.drop_last(), i, p);
        assert(t.drop_last() =~= s.drop_last().update(i, p));
        assert(s[i].0@ != s.last().0@);
        assert(assignments(t) =~= assignments(s).insert(p.0@, p.1@));
    }
}

fn step_name(index: usize) -> (r: String)
    requires
        index < usize::MAX,
    ensures
        r@ == default_step_name(index as int),
{
    let mut name = "step ".to_string();
    let n = u64_text(index as u64 + 1);
    name.append(n.as_str());
    name
}

/// The steps that a list describes.
fn read_steps(items: &Vec<YamlValue>) -> (r: Vec<Step>)
    ensures
        steps_view(r@) == steps_from(values_view(items@)),
{
    let ghost all = values_view(items@);
    let mut out: Vec<Step> = Vec::new();
    assert(steps_view(out@) =~= steps_from(all.take(0)));
    let mut i: usize = 0;
    while i < items.len()
        invariant
            i <= items.len(),
            all == values_view(items@),
            steps_view(out@) == steps_from(all.take(i as int)),
        decreases items.len() - i,
    {
        let item = &items[i];
        let ghost before = out@;
        proof {
            assert(all.take(i + 1).drop_last() =~= all.take(i as int));
            assert(all.take(i + 1).last() == item.view());
        }
        match item {
            YamlValue::Scalar(command) => {
                out.push(Step { name: step_name(i), run: command.clone() });
                assert(steps_view(out@) =~= steps_view(before).push(out@.last()@));
            },
            YamlValue::Mapping(_) => {
                let fallback = step_name(i);
                let name = item.str_or("name", fallback.as_str()).to_string();
                let run = item.str_or("run", "").to_string();
                out.push(Step { name, run });
                assert(steps_view(out@) =~= steps_view(before).push(out@.last()@));
            },
            YamlValue::Sequence(_) => {},
        }
        i += 1;
    }
    assert(all.take(i as int) =~= all);
    out
}

/// The names of the jobs that a job needs.
fn read_needs(node: &YamlValue) -> (r: Vec<String>)
    ensures
        strings(r@) == needs_of(node.view()),
{
    let mut out: Vec<String> = Vec::new();
    match node.get("needs") {
        Some(YamlValue::Scalar(s)) => {
            out.push(s.clone());
            assert(strings(out@) =~= seq![s@]);
        },
        Some(value) => {
            match value.as_seq() {
                Some(items) => {
                    let ghost all = values_view(items@);
                    assert(strings(out@) =~= scalars(all.take(0)));
                    let mut i: usize = 0;
                    while i < items.len()
                        invariant
                            i <= items.len(),
                            all == values_view(items@),
                            strings(out@) == scalars(all.take(i as int)),
                        decreases items.len() - i,
                    {
                        let ghost before = out@;
                        proof {
                            assert(all.take(i + 1).drop_last() =~= all.take(i as int));
                            assert(all.take(i + 1).last() == items@[i as int].view());
                        }
                        if let YamlValue::Scalar(s) = &items[i] {
                            out.push(s.clone());
                            assert(strings(out@) =~= strings(before).push(s@));
                        }
                        i += 1;
                    }
                    assert(all.take(i as int) =~= all);
                },
                None => {
                    assert(strings(out@) =~= Seq::empty());
                },
            }
        },
        None => {
            assert(strings(out@) =~= Seq::empty());
        },
    }
    out
}

/// The variables of a job.
fn read_env(node: &YamlValue) -> (r: Vec<(String, String)>)
    ensures
        names_differ(r@),
        assignments(r@) == env_of(node.view()),
{
    let mut out: Vec<(String, String)> = Vec::new();
    if let Some(value) = node.get("env") {
        if let Some(pairs) = value.as_map() {
            let ghost all = pairs_view(pairs@);
            assert(assignments(out@) =~= scalar_map(all.take(0)));
            let mut i: usize = 0;
            while i < pairs.len()
                invariant
                    i <= pairs.len(),
                    all == pairs_view(pairs@),
                    names_differ(out@),
                    assignments(out@) == scalar_map(all.take(i as int)),
                decreases pairs.len() - i,
            {
                proof {
                    assert(all.take(i + 1).drop_last() =~= all.take(i as int));
                    assert(all.take(i + 1).last() == all[i as int]);
                    assert(all[i as int] == (pairs@[i as int].0@, pairs@[i as int].1.view()));
                }
                if let YamlValue::Scalar(s) = &pairs[i].1 {
                    assign(&mut out, pairs[i].0.clone(), s.clone());
                }
                i += 1;
            }
            assert(all.take(i as int) =~= all);
        }
    }
    out
}

fn read_job(name: &String, node: &YamlValue) -> (r: Job)
    ensures
        r.wf(),
        r@ == job_of(name@, node.view()),
{
    let workdir = node.str_or("workdir", "").to_string();
    let timeout: u64 = match parse_u64(node.str_or("timeout", "0")) {
        Some(n) => n,
        None => 0,
    };
    let needs = read_needs(node);
    let env = read_env(node);
    let mut steps: Vec<Step> = Vec::new();
    assert(steps_view(steps@) =~= Seq::empty());
    if let Some(value) = node.get("steps") {
        if let Some(items) = value.as_seq() {
            steps = read_steps(items);
        }
    }
    Job { name: name.clone(), needs, steps, env, workdir, timeout }
}

/// The pipeline that a value describes.
pub fn pipeline_from(doc: &YamlValue) -> (r: Result<Pipeline, String>)
    ensures
        match r {
            Ok(p) => p.wf() && pipeline_of(doc.view()) == Ok::<PipelineView, Seq<char>>(p@),
            Err(e) => pipeline_of(doc.view()) == Err::<PipelineView, Seq<char>>(e@),
        },
{
    let name = doc.str_or("name", "pipeline").to_string();
    let on_event = doc.str_or("on", "push").to_string();
    match doc.get("jobs") {
        None => Err("no 'jobs' section found".to_string()),
        Some(node) => match node.as_map() {
            None => Err("'jobs' must be a map".to_string()),
            Some(pairs) => {
                let ghost all = pairs_view(pairs@);
                let ghost wanted = all.map_values(
                    |p: (Seq<char>, YamlView)| job_of(p.0, p.1),
                );
                let mut jobs: Vec<Job> = Vec::new();
                let mut i: usize = 0;
                while i < pairs.len()
                    invariant
                        i <= pairs.len(),
                        all == pairs_view(pairs@),
                        wanted == all.map_values(|p: (Seq<char>, YamlView)| job_of(p.0, p.1)),
                        jobs.len() == i,
                        forall|j: int| 0 <= j < i ==> (#[trigger] jobs@[j]).wf(),
                        forall|j: int| 0 <= j < i ==> (#[trigger] jobs@[j])@ == wanted[j],
                    decreases pairs.len() - i,
                {
                    jobs.push(read_job(&pairs[i].0, &pairs[i].1));
                    i += 1;
                }
                assert(jobs_view(jobs@) =~= wanted);
                Ok(Pipeline { name, on_event, jobs })
            },
        },
    }
}

/// The pipeline that the text of a pipeline file describes.
pub fn pipeline_parse(text: &str) -> (r: Result<Pipeline, String>)
    requires
        readable(text@),
    ensures
        match r {
            Ok(p) => p.wf() && pipeline_of(document(text@)->0) == Ok::<PipelineView, Seq<char>>(
                p@,
            ),
            Err(e) => pipeline_of(document(text@)->0) == Err::<PipelineView, Seq<char>>(e@),
        },
{
    match yaml_parse(text) {
        Ok(doc) => pipeline_from(&doc),
        Err(e) => Err(e),
    }
}

/// A job that needs one other job may name it alone or in a list.
pub proof fn law_single_need(name: Seq<char>, a: YamlView, b: YamlView)
    requires
        lookup(a, "needs"@) == Some(YamlView::Scalar(name)),
        lookup(b, "needs"@) == Some(YamlView::Sequence(seq![YamlView::Scalar(name)])),
    ensures
        needs_of(a) == needs_of(b),
{
    let items = seq![YamlView::Scalar(name)];
    assert(items.drop_last() =~= Seq::empty());
    assert(scalars(items.drop_last()) =~= Seq::empty());
    assert(needs_of(a) =~= needs_of(b));
}

/// A list of plain commands is read as steps that run exactly these commands, in
/// their order, each named by its place, counted from one.
pub proof fn law_commands_are_steps(commands: Seq<Seq<char>>)
    ensures
        ({
            let steps = steps_from(commands.map_values(|c: Seq<char>| YamlView::Scalar(c)));
            &&& steps.len() == commands.len()
            &&& forall|i: int|
                0 <= i < commands.len() ==> (#[trigger] steps[i]).run == commands[i] && steps[i].name
                    == "step "@ + digits((i + 1) as nat)
        }),
    decreases commands.len(),
{
    if commands.len() > 0 {
        let front = commands.drop_last();
        let items = commands.map_values(|c: Seq<char>| YamlView::Scalar(c));
        assert(items.drop_last() =~= front.map_values(|c: Seq<char>| YamlView::Scalar(c)));
        law_commands_are_steps(front);
        let steps = steps_from(items);
        let before = steps_from(items.drop_last());
        assert forall|i: int| 0 <= i < commands.len() implies (#[trigger] steps[i]).run
            == commands[i] && steps[i].name == "step "@ + digits((i + 1) as nat) by {
            if i < front.len() {
                assert(before[i].run == front[i]);
            }
        }
    }
}

/// One more item of a list of steps is one more step behind the others: a command,
/// or a map with the name and the command of the step, the place of the item where
/// it has no name, and no command where it has none. An item that is a list is no
/// step, but keeps its place.
pub proof fn law_items_are_steps(items: Seq<YamlView>, item: YamlView)
    ensures
        item matches YamlView::Scalar(c) ==> steps_from(items.push(item)) == steps_from(
            items,
        ).push((StepView { name: "step "@ + digits((items.len() + 1) as nat), run: c })),
        item is Sequence ==> steps_from(items.push(item)) == steps_from(items),
        item is Mapping ==> {
            let steps = steps_from(items.push(item));
            &&& steps.len() == steps_from(items).len() + 1
            &&& steps.drop_last() == steps_from(items)
            &&& lookup(item, "name"@) matches Some(YamlView::Scalar(n)) ==> steps.last().name == n
            &&& !(lookup(item, "name"@) is Some && lookup(item, "name"@)->0 is Scalar)
                ==> steps.last().name == "step "@ + digits((items.len() + 1) as nat)
            &&& lookup(item, "run"@) matches Some(YamlView::Scalar(c)) ==> steps.last().run == c
            &&& !(lookup(item, "run"@) is Some && lookup(item, "run"@)->0 is Scalar)
                ==> steps.last().run.len() == 0
        },
{
    assert(items.push(item).drop_last() =~= items);
    reveal_strlit("");
    assert(""@ =~= Seq::empty());
    if item is Mapping {
        let steps = steps_from(items.push(item));
        assert(steps.drop_last() =~= steps_from(items));
    }
}

/// A job needs the jobs that its list names, in that order, or the one that it names
/// alone; what is no scalar in the list names none, and a job without needs, or with
/// a map of them, needs none.
pub proof fn law_needs_are_named(
    node: YamlView,
    names: Seq<Seq<char>>,
    items: Seq<YamlView>,
    item: YamlView,
)
    ensures
        lookup(node, "needs"@) == Some(
            YamlView::Sequence(names.map_values(|s: Seq<char>| YamlView::Scalar(s))),
        ) ==> needs_of(node) == names,
        lookup(node, "needs"@) matches Some(YamlView::Scalar(s)) ==> needs_of(node) == seq![s],
        lookup(node, "needs"@) is None ==> needs_of(node).len() == 0,
        lookup(node, "needs"@) matches Some(YamlView::Mapping(pairs)) ==> needs_of(node).len() == 0,
        item matches YamlView::Scalar(s) ==> scalars(items.push(item)) == scalars(items).push(s),
        !(item is Scalar) ==> scalars(items.push(item)) == scalars(items),
    decreases names.len(),
{
    assert(items.push(item).drop_last() =~= items);
    lemma_names_are_scalars(names);
}

proof fn lemma_names_are_scalars(names: Seq<Seq<char>>)
    ensures
        scalars(names.map_values(|s: Seq<char>| YamlView::Scalar(s))) == names,
    decreases names.len(),
{
    let items = names.map_values(|s: Seq<char>| YamlView::Scalar(s));
    if names.len() > 0 {
        assert(items.drop_last() =~= names.drop_last().map_values(
            |s: Seq<char>| YamlView::Scalar(s),
        ));
        lemma_names_are_scalars(names.drop_last());
        assert(names.drop_last().push(names.last()) =~= names);
    } else {
        assert(scalars(items) =~= names);
    }
}

/// A job has the variables that its map sets to scalars, the last value of each; a
/// value that is no scalar sets none.
pub proof fn law_variables_are_set(
    pairs: Seq<(Seq<char>, YamlView)>,
    name: Seq<char>,
    v: YamlView,
    other: Seq<char>,
)
    ensures
        v matches YamlView::Scalar(s) ==> {
            let m = scalar_map(pairs.push((name, v)));
            &&& m.contains_key(name) && m[name] == s
            &&& other != name ==> m.contains_key(other) == scalar_map(pairs).contains_key(other)
            &&& other != name && m.contains_key(other) ==> m[other] == scalar_map(pairs)[other]
        },
        !(v is Scalar) ==> scalar_map(pairs.push((name, v))) == scalar_map(pairs),
        !scalar_map(Seq::empty()).contains_key(name),
{
    assert(pairs.push((name, v)).drop_last() =~= pairs);
}

/// The fields of a job are what stands behind their keys: its directory, which is
/// empty where none is named; its limit in seconds, which is 0 where none is named
/// or what is named is no number that a `u64` can hold; its variables and its steps,
/// of which it has none where they are no map and no list.
pub proof fn law_job_has_its_fields(name: Seq<char>, node: YamlView)
    ensures
        ({
            let j = job_of(name, node);
            &&& j.name == name
            &&& lookup(node, "workdir"@) matches Some(YamlView::Scalar(s)) ==> j.workdir == s
            &&& !(lookup(node, "workdir"@) is Some && lookup(node, "workdir"@)->0 is Scalar)
                ==> j.workdir.len() == 0
            &&& lookup(node, "timeout"@) matches Some(YamlView::Scalar(s)) ==> j.timeout == if natural(
                s,
            ) is Some && natural(s)->0 <= u64::MAX {
                natural(s)->0
            } else {
                0
            }
            &&& !(lookup(node, "timeout"@) is Some && lookup(node, "timeout"@)->0 is Scalar)
                ==> j.timeout == 0
            &&& lookup(node, "env"@) matches Some(YamlView::Mapping(pairs)) ==> j.env == scalar_map(
                pairs,
            )
            &&& !(lookup(node, "env"@) is Some && lookup(node, "env"@)->0 is Mapping) ==> j.env
                == Map::<Seq<char>, Seq<char>>::empty()
            &&& lookup(node, "steps"@) matches Some(YamlView::Sequence(items)) ==> j.steps
                == steps_from(items)
            &&& !(lookup(node, "steps"@) is Some && lookup(node, "steps"@)->0 is Sequence)
                ==> j.steps.len() == 0
            &&& j.needs == needs_of(node)
        }),
{
    reveal_strlit("");
    reveal_strlit("0");
    assert("0"@ =~= digits(0));
    law_natural_round_trip(0);
}

/// A document describes a pipeline exactly where it has a map of jobs: then the
/// pipeline has these jobs, in the order of the document, under their keys, and its
/// name and its event are what the document says, or `pipeline` and `push`.
pub proof fn law_document_describes_its_jobs(doc: YamlView, i: int)
    ensures
        pipeline_of(doc) is Ok <==> lookup(doc, "jobs"@) is Some && lookup(doc, "jobs"@)->0 is Mapping,
        lookup(doc, "jobs"@) is None ==> pipeline_of(doc) == Err::<PipelineView, Seq<char>>(
            "no 'jobs' section found"@,
        ),
        lookup(doc, "jobs"@) is Some && !(lookup(doc, "jobs"@)->0 is Mapping) ==> pipeline_of(doc)
            == Err::<PipelineView, Seq<char>>("'jobs' must be a map"@),
        lookup(doc, "jobs"@) matches Some(YamlView::Mapping(pairs)) ==> {
            let p = pipeline_of(doc)->Ok_0;
            &&& p.jobs.len() == pairs.len()
            &&& 0 <= i < pairs.len() ==> p.jobs[i].name == pairs[i].0 && p.jobs[i] == job_of(
                pairs[i].0,
                pairs[i].1,
            )
            &&& lookup(doc, "name"@) matches Some(YamlView::Scalar(s)) ==> p.name == s
            &&& !(lookup(doc, "name"@) is Some && lookup(doc, "name"@)->0 is Scalar) ==> p.name
                == "pipeline"@
            &&& lookup(doc, "on"@) matches Some(YamlView::Scalar(s)) ==> p.on_event == s
            &&& !(lookup(doc, "on"@) is Some && lookup(doc, "on"@)->0 is Scalar) ==> p.on_event
                == "push"@
        },
{
}

} // verus!
