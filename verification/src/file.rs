//! The pipeline file: how a pipeline is written down, and the law that what is
//! written is read back.

use vstd::prelude::*;
use vstd::string::*;

use crate::layout::{
    all_scalars, all_sound, bare, document_text, item_ok, item_value_ok, items_entries, key_ok,
    law_comment_line_is_empty, law_document_round_trip, lemma_bare, lemma_entry_line,
    lemma_items_depth, lemma_items_ok, lemma_line_between, lemma_pairs_depth, lemma_pairs_ok,
    lemma_pairs_sound, lemma_same_entries, lemma_text, lemma_word, pair_content, pairs_depth,
    pairs_entries, pairs_ok, scalar_ok, small_entries, sound, value_depth, value_ok,
};
use crate::number::{digits, is_digit, law_natural_round_trip, lemma_digits};
use crate::pipeline::{
    env_of, job_of, needs_of, pipeline_of, scalar_map, scalars, step_of, steps_from, steps_of,
    timeout_of, JobView, PipelineView, StepView, TEMPLATE,
};
use crate::report::spaces;
use crate::text::lines_of;
use crate::yaml::{
    document, entries, entry_of, key_index, lemma_key_index, lookup, readable, uncommented, Entry,
    YamlView,
};

verus! {

/// A step as a file describes it.
pub enum StepText {
    /// By its name and its command.
    Named(StepView),
    /// By its command, behind the key `run`.
    Unnamed(Seq<char>),
    /// By its command alone.
    Command(Seq<char>),
}

impl StepText {
    /// The step that is described as the one at `index`.
    pub open spec fn step(self, index: int) -> StepView {
        match self {
            StepText::Named(step) => step,
            StepText::Unnamed(run) => StepView { name: "step "@ + digits((index + 1) as nat), run },
            StepText::Command(run) => StepView { name: "step "@ + digits((index + 1) as nat), run },
        }
    }
}

/// The steps that are described, each at its place.
pub open spec fn steps_described(steps: Seq<StepText>) -> Seq<StepView> {
    Seq::new(steps.len(), |i: int| steps[i].step(i))
}

/// A job as a file describes it. The variables stand in the order of the file; a
/// later one takes the place of an earlier one.
pub struct JobText {
    pub name: Seq<char>,
    pub needs: Seq<Seq<char>>,
    pub steps: Seq<StepText>,
    pub env: Seq<(Seq<char>, Seq<char>)>,
    pub workdir: Seq<char>,
    pub timeout: u64,
}

/// The variables that `env` sets, one after the other.
pub open spec fn assigned(env: Seq<(Seq<char>, Seq<char>)>) -> Map<Seq<char>, Seq<char>>
    decreases env.len(),
{
    if env.len() == 0 {
        Map::empty()
    } else {
        assigned(env.drop_last()).insert(env.last().0, env.last().1)
    }
}

impl JobText {
    /// The job that is described.
    pub open spec fn job(self) -> JobView {
        JobView {
            name: self.name,
            needs: self.needs,
            steps: steps_described(self.steps),
            env: assigned(self.env),
            workdir: self.workdir,
            timeout: self.timeout,
        }
    }
}

/// A field, or nothing where there is no value.
pub open spec fn field(key: Seq<char>, value: Option<YamlView>) -> Seq<(Seq<char>, YamlView)> {
    match value {
        Some(v) => seq![(key, v)],
        None => Seq::empty(),
    }
}

pub open spec fn needs_node(needs: Seq<Seq<char>>) -> Option<YamlView> {
    if needs.len() == 0 {
        None
    } else {
        Some(YamlView::Sequence(needs.map_values(|s: Seq<char>| YamlView::Scalar(s))))
    }
}

pub open spec fn env_node(env: Seq<(Seq<char>, Seq<char>)>) -> Option<YamlView> {
    if env.len() == 0 {
        None
    } else {
        Some(
            YamlView::Mapping(
                env.map_values(|p: (Seq<char>, Seq<char>)| (p.0, YamlView::Scalar(p.1))),
            ),
        )
    }
}

/// A step: its name and its command.
pub open spec fn step_node(step: StepView) -> YamlView {
    YamlView::Mapping(
        field("name"@, Some(YamlView::Scalar(step.name))) + field(
            "run"@,
            Some(YamlView::Scalar(step.run)),
        ),
    )
}

pub open spec fn steps_node(steps: Seq<StepView>) -> Option<YamlView> {
    if steps.len() == 0 {
        None
    } else {
        Some(YamlView::Sequence(steps.map_values(|s: StepView| step_node(s))))
    }
}

/// A step: its name and its command, or its command with or without its key.
pub open spec fn step_text_node(step: StepText) -> YamlView {
    match step {
        StepText::Named(step) => step_node(step),
        StepText::Unnamed(run) => YamlView::Mapping(field("run"@, Some(YamlView::Scalar(run)))),
        StepText::Command(run) => YamlView::Scalar(run),
    }
}

pub open spec fn step_texts_node(steps: Seq<StepText>) -> Option<YamlView> {
    if steps.len() == 0 {
        None
    } else {
        Some(YamlView::Sequence(steps.map_values(|s: StepText| step_text_node(s))))
    }
}

/// The fields of a job.
pub open spec fn job_node(j: JobText) -> YamlView {
    YamlView::Mapping(
        field("workdir"@, Some(YamlView::Scalar(j.workdir))) + field(
            "timeout"@,
            Some(YamlView::Scalar(digits(j.timeout as nat))),
        ) + field("needs"@, needs_node(j.needs)) + field("env"@, env_node(j.env)) + field(
            "steps"@,
            step_texts_node(j.steps),
        ),
    )
}

/// The fields of a pipeline whose jobs are described by `nodes`.
pub open spec fn top_pairs(
    name: Seq<char>,
    on_event: Seq<char>,
    nodes: Seq<(Seq<char>, YamlView)>,
) -> Seq<(Seq<char>, YamlView)> {
    field("name"@, Some(YamlView::Scalar(name))) + field(
        "on"@,
        Some(YamlView::Scalar(on_event)),
    ) + field("jobs"@, Some(YamlView::Mapping(nodes)))
}

/// The fields of a pipeline.
pub open spec fn pipeline_pairs(
    name: Seq<char>,
    on_event: Seq<char>,
    jobs: Seq<JobText>,
) -> Seq<(Seq<char>, YamlView)> {
    top_pairs(name, on_event, jobs.map_values(|j: JobText| (j.name, job_node(j))))
}

/// The pipeline that is described.
pub open spec fn described(
    name: Seq<char>,
    on_event: Seq<char>,
    jobs: Seq<JobText>,
) -> PipelineView {
    PipelineView { name, on_event, jobs: jobs.map_values(|j: JobText| j.job()) }
}

proof fn lemma_lookup_concat(
    a: Seq<(Seq<char>, YamlView)>,
    b: Seq<(Seq<char>, YamlView)>,
    key: Seq<char>,
)
    ensures
        0 <= key_index(a, key) <= a.len(),
        lookup(YamlView::Mapping(a + b), key) == match lookup(YamlView::Mapping(a), key) {
            Some(v) => Some(v),
            None => lookup(YamlView::Mapping(b), key),
        },
        key_index(a + b, key) == if key_index(a, key) < a.len() {
            key_index(a, key)
        } else {
            a.len() + key_index(b, key)
        },
    decreases a.len(),
{
    lemma_key_index(b, key);
    if a.len() == 0 {
        assert(a + b =~= b);
    } else {
        assert((a + b).skip(1) =~= a.skip(1) + b);
        lemma_lookup_concat(a.skip(1), b, key);
    }
}

proof fn lemma_field(key: Seq<char>, value: Option<YamlView>, wanted: Seq<char>)
    ensures
        lookup(YamlView::Mapping(field(key, value)), wanted) == if key == wanted {
            value
        } else {
            None
        },
{
    let f = field(key, value);
    if value is Some {
        assert(key_index(f.skip(1), wanted) == 0);
        assert(f[0] == (key, value->0));
    }
}

/// The fields of a step are read as the step.
proof fn lemma_step(step: StepView, index: int)
    ensures
        step_of(step_node(step), index) == Some(step),
{
    reveal_strlit("name");
    reveal_strlit("run");
    assert("name"@[0] != "run"@[0]);
    let a = field("name"@, Some(YamlView::Scalar(step.name)));
    let b = field("run"@, Some(YamlView::Scalar(step.run)));
    lemma_lookup_concat(a, b, "name"@);
    lemma_lookup_concat(a, b, "run"@);
    lemma_field("name"@, Some(YamlView::Scalar(step.name)), "name"@);
    lemma_field("name"@, Some(YamlView::Scalar(step.name)), "run"@);
    lemma_field("run"@, Some(YamlView::Scalar(step.run)), "run"@);
}

proof fn lemma_steps(steps: Seq<StepView>)
    ensures
        steps_from(steps.map_values(|s: StepView| step_node(s))) == steps,
    decreases steps.len(),
{
    let items = steps.map_values(|s: StepView| step_node(s));
    if steps.len() == 0 {
        assert(steps_from(items) =~= steps);
    } else {
        assert(items.drop_last() =~= steps.drop_last().map_values(|s: StepView| step_node(s)));
        lemma_steps(steps.drop_last());
        lemma_step(steps.last(), items.len() - 1);
        assert(steps.drop_last().push(steps.last()) =~= steps);
    }
}

proof fn lemma_step_texts(steps: Seq<StepText>)
    ensures
        steps_from(steps.map_values(|s: StepText| step_text_node(s))) == steps_described(steps),
    decreases steps.len(),
{
    let items = steps.map_values(|s: StepText| step_text_node(s));
    if steps.len() == 0 {
        assert(steps_from(items) =~= steps_described(steps));
    } else {
        let front = steps.drop_last();
        assert(items.drop_last() =~= front.map_values(|s: StepText| step_text_node(s)));
        lemma_step_texts(front);
        let last = steps.last();
        let index = items.len() - 1;
        match last {
            StepText::Named(step) => {
                lemma_step(step, index);
            },
            StepText::Unnamed(run) => {
                reveal_strlit("name");
                reveal_strlit("run");
                assert("name"@[0] != "run"@[0]);
                lemma_field("run"@, Some(YamlView::Scalar(run)), "name"@);
                lemma_field("run"@, Some(YamlView::Scalar(run)), "run"@);
            },
            StepText::Command(run) => {},
        }
        assert(items.last() == step_text_node(last));
        assert(step_of(items.last(), index) == Some(last.step(index)));
        assert(steps_described(front).push(last.step(index)) =~= steps_described(steps));
    }
}

proof fn lemma_scalars(texts: Seq<Seq<char>>)
    ensures
        scalars(texts.map_values(|s: Seq<char>| YamlView::Scalar(s))) == texts,
    decreases texts.len(),
{
    let items = texts.map_values(|s: Seq<char>| YamlView::Scalar(s));
    if texts.len() == 0 {
        assert(scalars(items) =~= texts);
    } else {
        assert(items.drop_last() =~= texts.drop_last().map_values(
            |s: Seq<char>| YamlView::Scalar(s),
        ));
        lemma_scalars(texts.drop_last());
        assert(texts.drop_last().push(texts.last()) =~= texts);
    }
}

proof fn lemma_assigned(env: Seq<(Seq<char>, Seq<char>)>)
    ensures
        scalar_map(
            env.map_values(|p: (Seq<char>, Seq<char>)| (p.0, YamlView::Scalar(p.1))),
        ) == assigned(env),
    decreases env.len(),
{
    let pairs = env.map_values(|p: (Seq<char>, Seq<char>)| (p.0, YamlView::Scalar(p.1)));
    if env.len() > 0 {
        assert(pairs.drop_last() =~= env.drop_last().map_values(
            |p: (Seq<char>, Seq<char>)| (p.0, YamlView::Scalar(p.1)),
        ));
        lemma_assigned(env.drop_last());
    }
}

/// What is found in five fields.
proof fn lemma_fields(j: JobText, key: Seq<char>)
    ensures
        lookup(job_node(j), key) == if key == "workdir"@ {
            Some(YamlView::Scalar(j.workdir))
        } else if key == "timeout"@ {
            Some(YamlView::Scalar(digits(j.timeout as nat)))
        } else if key == "needs"@ {
            needs_node(j.needs)
        } else if key == "env"@ {
            env_node(j.env)
        } else if key == "steps"@ {
            step_texts_node(j.steps)
        } else {
            None
        },
{
    reveal_strlit("workdir");
    reveal_strlit("timeout");
    reveal_strlit("needs");
    reveal_strlit("env");
    reveal_strlit("steps");
    assert("workdir"@[0] == 'w' && "timeout"@[0] == 't' && "needs"@[0] == 'n' && "env"@[0] == 'e'
        && "steps"@[0] == 's');
    let a = field("workdir"@, Some(YamlView::Scalar(j.workdir)));
    let b = field("timeout"@, Some(YamlView::Scalar(digits(j.timeout as nat))));
    let c = field("needs"@, needs_node(j.needs));
    let d = field("env"@, env_node(j.env));
    let e = field("steps"@, step_texts_node(j.steps));
    lemma_lookup_concat(a, b, key);
    lemma_lookup_concat(a + b, c, key);
    lemma_lookup_concat(a + b + c, d, key);
    lemma_lookup_concat(a + b + c + d, e, key);
    lemma_field("workdir"@, Some(YamlView::Scalar(j.workdir)), key);
    lemma_field("timeout"@, Some(YamlView::Scalar(digits(j.timeout as nat))), key);
    lemma_field("needs"@, needs_node(j.needs), key);
    lemma_field("env"@, env_node(j.env), key);
    lemma_field("steps"@, step_texts_node(j.steps), key);
}

/// The fields of a job are read as the job.
proof fn lemma_job(j: JobText)
    ensures
        job_of(j.name, job_node(j)) == j.job(),
{
    reveal_strlit("workdir");
    reveal_strlit("timeout");
    reveal_strlit("needs");
    reveal_strlit("env");
    reveal_strlit("steps");
    assert("workdir"@[0] == 'w' && "timeout"@[0] == 't' && "needs"@[0] == 'n' && "env"@[0] == 'e'
        && "steps"@[0] == 's');
    lemma_fields(j, "workdir"@);
    lemma_fields(j, "timeout"@);
    lemma_fields(j, "needs"@);
    lemma_fields(j, "env"@);
    lemma_fields(j, "steps"@);
    law_natural_round_trip(j.timeout as nat);
    lemma_scalars(j.needs);
    lemma_assigned(j.env);
    lemma_step_texts(j.steps);
    assert(timeout_of(job_node(j)) == j.timeout);
    assert(needs_of(job_node(j)) =~= j.needs);
    assert(env_of(job_node(j)) == assigned(j.env));
    assert(steps_of(job_node(j)) =~= steps_described(j.steps));
}

/// A job that can be written down: its name and its variables can be keys, what
/// it needs can be items, and the rest can be scalars.
pub open spec fn job_ok(j: JobText) -> bool {
    &&& key_ok(j.name)
    &&& scalar_ok(j.workdir)
    &&& forall|i: int| 0 <= i < j.needs.len() ==> item_ok(#[trigger] j.needs[i])
    &&& forall|i: int|
        0 <= i < j.env.len() ==> key_ok((#[trigger] j.env[i]).0) && scalar_ok(j.env[i].1)
    &&& forall|i: int| 0 <= i < j.steps.len() ==> step_text_ok(#[trigger] j.steps[i])
}

/// A step that can be written down: a command alone can be an item, and what stands
/// behind a key can be a scalar.
pub open spec fn step_text_ok(step: StepText) -> bool {
    match step {
        StepText::Named(step) => scalar_ok(step.name) && scalar_ok(step.run),
        StepText::Unnamed(run) => scalar_ok(run),
        StepText::Command(run) => item_ok(run),
    }
}

proof fn lemma_names()
    ensures
        key_ok("name"@),
        key_ok("on"@),
        key_ok("jobs"@),
        key_ok("run"@),
        key_ok("workdir"@),
        key_ok("timeout"@),
        key_ok("needs"@),
        key_ok("env"@),
        key_ok("steps"@),
{
    reveal_strlit("name");
    reveal_strlit("on");
    reveal_strlit("jobs");
    reveal_strlit("run");
    reveal_strlit("workdir");
    reveal_strlit("timeout");
    reveal_strlit("needs");
    reveal_strlit("env");
    reveal_strlit("steps");
    lemma_word("name"@);
    lemma_word("on"@);
    lemma_word("jobs"@);
    lemma_word("run"@);
    lemma_word("workdir"@);
    lemma_word("timeout"@);
    lemma_word("needs"@);
    lemma_word("env"@);
    lemma_word("steps"@);
}

proof fn lemma_number_ok(n: nat)
    ensures
        scalar_ok(digits(n)),
{
    lemma_digits(n);
    let s = digits(n);
    assert forall|c: char| s.contains(c) implies is_digit(c) by {
        let i = choose|i: int| 0 <= i < s.len() && s[i] == c;
        assert(is_digit(s[i]));
    }
}

proof fn lemma_job_ok(j: JobText)
    requires
        job_ok(j),
    ensures
        value_ok(job_node(j)),
{
    lemma_names();
    lemma_number_ok(j.timeout as nat);
    if j.needs.len() > 0 {
        let items = needs_node(j.needs)->0->Sequence_0;
        assert forall|i: int| 0 <= i < items.len() implies item_value_ok(#[trigger] items[i]) by {
            assert(item_ok(j.needs[i]));
        }
        lemma_items_ok(items);
        assert(value_ok(needs_node(j.needs)->0));
    }
    if j.env.len() > 0 {
        let pairs = env_node(j.env)->0->Mapping_0;
        assert forall|i: int| 0 <= i < pairs.len() implies key_ok((#[trigger] pairs[i]).0)
            && value_ok(pairs[i].1) by {
            assert(key_ok(j.env[i].0));
        }
        lemma_pairs_ok(pairs);
        assert(value_ok(env_node(j.env)->0));
    }
    if j.steps.len() > 0 {
        let items = step_texts_node(j.steps)->0->Sequence_0;
        assert forall|i: int| 0 <= i < items.len() implies item_value_ok(#[trigger] items[i]) by {
            let text = j.steps[i];
            assert(step_text_ok(text));
            assert(items[i] == step_text_node(text));
            match text {
                StepText::Named(step) => {
                    let pairs = step_node(step)->Mapping_0;
                    assert(pairs =~= seq![
                        ("name"@, YamlView::Scalar(step.name)),
                        ("run"@, YamlView::Scalar(step.run)),
                    ]);
                    assert(value_ok(pairs[0].1) && value_ok(pairs[1].1));
                    lemma_pairs_ok(pairs);
                },
                StepText::Unnamed(run) => {
                    let pairs = field("run"@, Some(YamlView::Scalar(run)));
                    assert(value_ok(pairs[0].1));
                    lemma_pairs_ok(pairs);
                },
                StepText::Command(run) => {},
            }
        }
        lemma_items_ok(items);
        assert(value_ok(step_texts_node(j.steps)->0));
    }
    let pairs = job_node(j)->Mapping_0;
    assert(value_ok(YamlView::Scalar(j.workdir)));
    assert(value_ok(YamlView::Scalar(digits(j.timeout as nat))));
    let a = field("workdir"@, Some(YamlView::Scalar(j.workdir)));
    let b = field("timeout"@, Some(YamlView::Scalar(digits(j.timeout as nat))));
    let c = field("needs"@, needs_node(j.needs));
    let d = field("env"@, env_node(j.env));
    let e = field("steps"@, step_texts_node(j.steps));
    lemma_ok_concat(a, b);
    lemma_ok_concat(a + b, c);
    lemma_ok_concat(a + b + c, d);
    lemma_ok_concat(a + b + c + d, e);
    lemma_pairs_ok(pairs);
}

spec fn each_ok(pairs: Seq<(Seq<char>, YamlView)>) -> bool {
    forall|i: int| 0 <= i < pairs.len() ==> key_ok((#[trigger] pairs[i]).0) && value_ok(pairs[i].1)
}

proof fn lemma_ok_concat(a: Seq<(Seq<char>, YamlView)>, b: Seq<(Seq<char>, YamlView)>)
    requires
        each_ok(a),
        each_ok(b),
    ensures
        each_ok(a + b),
{
    assert forall|i: int| 0 <= i < (a + b).len() implies key_ok((#[trigger] (a + b)[i]).0)
        && value_ok((a + b)[i].1) by {
        if i < a.len() {
            assert(key_ok(a[i].0));
        } else {
            assert(key_ok(b[i - a.len()].0));
        }
    }
}

/// The fields of a pipeline are read as its name, its event and its jobs.
proof fn lemma_top(name: Seq<char>, on_event: Seq<char>, nodes: Seq<(Seq<char>, YamlView)>)
    ensures
        pipeline_of(YamlView::Mapping(top_pairs(name, on_event, nodes))) == Ok::<
            PipelineView,
            Seq<char>,
        >(
            (PipelineView {
                name,
                on_event,
                jobs: nodes.map_values(|p: (Seq<char>, YamlView)| job_of(p.0, p.1)),
            }),
        ),
{
    reveal_strlit("name");
    reveal_strlit("on");
    reveal_strlit("jobs");
    assert("name"@[0] == 'n' && "on"@[0] == 'o' && "jobs"@[0] == 'j');
    let a = field("name"@, Some(YamlView::Scalar(name)));
    let b = field("on"@, Some(YamlView::Scalar(on_event)));
    let c = field("jobs"@, Some(YamlView::Mapping(nodes)));
    let pairs = top_pairs(name, on_event, nodes);
    assert forall|key: Seq<char>|
        #![trigger lookup(YamlView::Mapping(pairs), key)]
        lookup(YamlView::Mapping(pairs), key) == if key == "name"@ {
            Some(YamlView::Scalar(name))
        } else if key == "on"@ {
            Some(YamlView::Scalar(on_event))
        } else if key == "jobs"@ {
            Some(YamlView::Mapping(nodes))
        } else {
            None
        } by {
        lemma_lookup_concat(a, b, key);
        lemma_lookup_concat(a + b, c, key);
        lemma_field("name"@, Some(YamlView::Scalar(name)), key);
        lemma_field("on"@, Some(YamlView::Scalar(on_event)), key);
        lemma_field("jobs"@, Some(YamlView::Mapping(nodes)), key);
    }
}

/// The fields of a pipeline are read as the pipeline.
proof fn lemma_pipeline(name: Seq<char>, on_event: Seq<char>, jobs: Seq<JobText>)
    ensures
        pipeline_of(YamlView::Mapping(pipeline_pairs(name, on_event, jobs))) == Ok::<
            PipelineView,
            Seq<char>,
        >(described(name, on_event, jobs)),
{
    let nodes = jobs.map_values(|j: JobText| (j.name, job_node(j)));
    lemma_top(name, on_event, nodes);
    let read = nodes.map_values(|p: (Seq<char>, YamlView)| job_of(p.0, p.1));
    assert forall|i: int| 0 <= i < jobs.len() implies read[i] == (#[trigger] jobs[i]).job() by {
        lemma_job(jobs[i]);
    }
    assert(read =~= described(name, on_event, jobs).jobs);
}

/// The fields of a job are nested three blocks deep at most.
proof fn lemma_job_depth(j: JobText)
    ensures
        value_depth(job_node(j)) <= 3,
{
    if j.needs.len() > 0 {
        lemma_items_depth(needs_node(j.needs)->0->Sequence_0, 0);
    }
    if j.env.len() > 0 {
        lemma_pairs_depth(env_node(j.env)->0->Mapping_0, 0);
    }
    if j.steps.len() > 0 {
        let items = step_texts_node(j.steps)->0->Sequence_0;
        assert forall|i: int| 0 <= i < items.len() implies value_depth(#[trigger] items[i]) <= 1 by {
            assert(items[i] == step_text_node(j.steps[i]));
            if items[i] is Mapping {
                lemma_pairs_depth(items[i]->Mapping_0, 0);
            }
        }
        lemma_items_depth(items, 1);
    }
    lemma_pairs_depth(job_node(j)->Mapping_0, 2);
}

/// A file in which a pipeline is laid out can be read, and is read as that
/// pipeline.
pub proof fn law_pipeline_round_trip(name: Seq<char>, on_event: Seq<char>, jobs: Seq<JobText>)
    requires
        scalar_ok(name),
        scalar_ok(on_event),
        jobs.len() > 0,
        forall|i: int| 0 <= i < jobs.len() ==> job_ok(#[trigger] jobs[i]),
    ensures
        ({
            let text = document_text(pipeline_pairs(name, on_event, jobs));
            &&& readable(text)
            &&& pipeline_of(document(text)->0) == Ok::<PipelineView, Seq<char>>(
                described(name, on_event, jobs),
            )
        }),
{
    let nodes = jobs.map_values(|j: JobText| (j.name, job_node(j)));
    assert forall|i: int| 0 <= i < nodes.len() implies key_ok((#[trigger] nodes[i]).0) && value_ok(
        nodes[i].1,
    ) by {
        assert(job_ok(jobs[i]));
        lemma_job_ok(jobs[i]);
    }
    lemma_pairs_ok(nodes);
    lemma_names();
    let a = field("name"@, Some(YamlView::Scalar(name)));
    let b = field("on"@, Some(YamlView::Scalar(on_event)));
    let c = field("jobs"@, Some(YamlView::Mapping(nodes)));
    assert(value_ok(YamlView::Scalar(name)) && value_ok(YamlView::Scalar(on_event)));
    assert(value_ok(YamlView::Mapping(nodes)));
    lemma_ok_concat(a, b);
    lemma_ok_concat(a + b, c);
    let pairs = pipeline_pairs(name, on_event, jobs);
    lemma_pairs_ok(pairs);
    law_document_round_trip(pairs);
    assert forall|i: int| 0 <= i < nodes.len() implies value_depth((#[trigger] nodes[i]).1) <= 3 by {
        lemma_job_depth(jobs[i]);
    }
    lemma_pairs_depth(nodes, 3);
    lemma_pairs_depth(pairs, 4);
    lemma_pipeline(name, on_event, jobs);
}

// ------------------------------------------------------------------- the starter
/// The steps of the pipeline that a repository starts with.
pub open spec fn starter_steps() -> Seq<StepView> {
    seq![
        StepView { name: "compile"@, run: "echo 'add your build command here'"@ },
        StepView { name: "test"@, run: "echo 'add your test command here'"@ },
    ]
}

/// The pipeline that a repository starts with.
pub open spec fn starter() -> PipelineView {
    PipelineView {
        name: "my pipeline"@,
        on_event: "push"@,
        jobs: seq![
            JobView {
                name: "build"@,
                needs: Seq::empty(),
                steps: starter_steps(),
                env: Map::empty(),
                workdir: ""@,
                timeout: 0,
            },
        ],
    }
}

/// The one job of that pipeline.
spec fn starter_nodes() -> Seq<(Seq<char>, YamlView)> {
    seq![("build"@, YamlView::Mapping(field("steps"@, steps_node(starter_steps()))))]
}

spec fn starter_pairs() -> Seq<(Seq<char>, YamlView)> {
    top_pairs("my pipeline"@, "push"@, starter_nodes())
}

/// The lines of the template that say something.
spec fn starter_entries() -> Seq<Entry> {
    seq![
        Entry { indent: 0, content: "name: my pipeline"@ },
        Entry { indent: 0, content: "on: push"@ },
        Entry { indent: 0, content: "jobs:"@ },
        Entry { indent: 2, content: "build:"@ },
        Entry { indent: 4, content: "steps:"@ },
        Entry { indent: 6, content: "- name: compile"@ },
        Entry { indent: 8, content: "run: echo 'add your build command here'"@ },
        Entry { indent: 6, content: "- name: test"@ },
        Entry { indent: 8, content: "run: echo 'add your test command here'"@ },
    ]
}

/// The template, line by line.
proof fn lemma_template_lines()
    ensures
        TEMPLATE@.len() == 335,
        TEMPLATE@[17] == '\n',
        TEMPLATE@.subrange(0, 17) == spaces(0) + "name: my pipeline"@,
        TEMPLATE@[18] == '\n',
        TEMPLATE@[27] == '\n',
        TEMPLATE@.subrange(19, 27) == spaces(0) + "on: push"@,
        TEMPLATE@[28] == '\n',
        TEMPLATE@[34] == '\n',
        TEMPLATE@.subrange(29, 34) == spaces(0) + "jobs:"@,
        TEMPLATE@[43] == '\n',
        TEMPLATE@.subrange(35, 43) == spaces(2) + "build:"@,
        TEMPLATE@[54] == '\n',
        TEMPLATE@.subrange(44, 54) == spaces(4) + "steps:"@,
        TEMPLATE@[76] == '\n',
        TEMPLATE@.subrange(55, 76) == spaces(6) + "- name: compile"@,
        TEMPLATE@[124] == '\n',
        TEMPLATE@.subrange(77, 124) == spaces(8) + "run: echo 'add your build command here'"@,
        TEMPLATE@[143] == '\n',
        TEMPLATE@.subrange(125, 143) == spaces(6) + "- name: test"@,
        TEMPLATE@[190] == '\n',
        TEMPLATE@.subrange(144, 190) == spaces(8) + "run: echo 'add your test command here'"@,
        TEMPLATE@[191] == '\n',
        TEMPLATE@[242] == '\n',
        TEMPLATE@.subrange(192, 242) == spaces(2) + seq!['#'] + " example: job that only runs after build passes"@,
        !" example: job that only runs after build passes"@.contains('\n'),
        TEMPLATE@[254] == '\n',
        TEMPLATE@.subrange(243, 254) == spaces(2) + seq!['#'] + " deploy:"@,
        !" deploy:"@.contains('\n'),
        TEMPLATE@[273] == '\n',
        TEMPLATE@.subrange(255, 273) == spaces(2) + seq!['#'] + "   needs: build"@,
        !"   needs: build"@.contains('\n'),
        TEMPLATE@[286] == '\n',
        TEMPLATE@.subrange(274, 286) == spaces(2) + seq!['#'] + "   steps:"@,
        !"   steps:"@.contains('\n'),
        TEMPLATE@[307] == '\n',
        TEMPLATE@.subrange(287, 307) == spaces(2) + seq!['#'] + "     - name: ship"@,
        !"     - name: ship"@.contains('\n'),
        TEMPLATE@[334] == '\n',
        TEMPLATE@.subrange(308, 334) == spaces(2) + seq!['#'] + "       run: ./deploy.sh"@,
        !"       run: ./deploy.sh"@.contains('\n'),
{
    reveal_strlit("name: my pipeline\n\non: push\n\njobs:\n  build:\n    steps:\n      - name: compile\n        run: echo 'add your build command here'\n      - name: test\n        run: echo 'add your test command here'\n\n  # example: job that only runs after build passes\n  # deploy:\n  #   needs: build\n  #   steps:\n  #     - name: ship\n  #       run: ./deploy.sh\n");
    reveal_strlit("name: my pipeline");
    assert(TEMPLATE@.subrange(0, 17) =~= spaces(0) + "name: my pipeline"@);
    reveal_strlit("on: push");
    assert(TEMPLATE@.subrange(19, 27) =~= spaces(0) + "on: push"@);
    reveal_strlit("jobs:");
    assert(TEMPLATE@.subrange(29, 34) =~= spaces(0) + "jobs:"@);
    reveal_strlit("build:");
    assert(TEMPLATE@.subrange(35, 43) =~= spaces(2) + "build:"@);
    reveal_strlit("steps:");
    assert(TEMPLATE@.subrange(44, 54) =~= spaces(4) + "steps:"@);
    reveal_strlit("- name: compile");
    assert(TEMPLATE@.subrange(55, 76) =~= spaces(6) + "- name: compile"@);
    reveal_strlit("run: echo 'add your build command here'");
    assert(TEMPLATE@.subrange(77, 124) =~= spaces(8) + "run: echo 'add your build command here'"@);
    reveal_strlit("- name: test");
    assert(TEMPLATE@.subrange(125, 143) =~= spaces(6) + "- name: test"@);
    reveal_strlit("run: echo 'add your test command here'");
    assert(TEMPLATE@.subrange(144, 190) =~= spaces(8) + "run: echo 'add your test command here'"@);
    reveal_strlit(" example: job that only runs after build passes");
    assert(TEMPLATE@.subrange(192, 242) =~= spaces(2) + seq!['#'] + " example: job that only runs after build passes"@);
    reveal_strlit(" deploy:");
    assert(TEMPLATE@.subrange(243, 254) =~= spaces(2) + seq!['#'] + " deploy:"@);
    reveal_strlit("   needs: build");
    assert(TEMPLATE@.subrange(255, 273) =~= spaces(2) + seq!['#'] + "   needs: build"@);
    reveal_strlit("   steps:");
    assert(TEMPLATE@.subrange(274, 286) =~= spaces(2) + seq!['#'] + "   steps:"@);
    reveal_strlit("     - name: ship");
    assert(TEMPLATE@.subrange(287, 307) =~= spaces(2) + seq!['#'] + "     - name: ship"@);
    reveal_strlit("       run: ./deploy.sh");
    assert(TEMPLATE@.subrange(308, 334) =~= spaces(2) + seq!['#'] + "       run: ./deploy.sh"@);
}

/// What the lines of the template from `o` on say.
spec fn said_from(o: int) -> Seq<Entry> {
    entries(lines_of(TEMPLATE@.skip(o)))
}

/// The line of the template at `o`, which is `line`, and those behind it.
proof fn lemma_line_at(o: int, line: Seq<char>)
    requires
        0 <= o,
        o + line.len() < TEMPLATE@.len(),
        TEMPLATE@.subrange(o, o + line.len()) == line,
        TEMPLATE@[o + line.len()] == '\n',
        !line.contains('\n'),
    ensures
        said_from(o) == (if uncommented(line).len() == 0 {
            Seq::empty()
        } else {
            seq![entry_of(uncommented(line))]
        }) + said_from(o + line.len() + 1),
{
    let t = TEMPLATE@;
    let rest = t.skip(o + line.len() + 1);
    let none = Seq::<char>::empty();
    lemma_line_between(none, line, rest);
    assert forall|i: int| 0 <= i < line.len() implies t[o + i] == line[i] by {
        assert(t.subrange(o, o + line.len())[i] == t[o + i]);
    }
    assert(t.skip(o) =~= none + line.push('\n') + rest);
    assert(entries(lines_of(none)) =~= Seq::empty());
    assert(said_from(o) =~= (if uncommented(line).len() == 0 {
        Seq::empty()
    } else {
        seq![entry_of(uncommented(line))]
    }) + said_from(o + line.len() + 1));
}

proof fn lemma_entry_at(o: int, len: int, e: Entry)
    requires
        0 <= o <= o + len < TEMPLATE@.len(),
        sound(e),
        TEMPLATE@.subrange(o, o + len) == spaces(e.indent as nat) + e.content,
        TEMPLATE@[o + len] == '\n',
    ensures
        said_from(o) == seq![e] + said_from(o + len + 1),
{
    lemma_entry_line(e);
    lemma_line_at(o, spaces(e.indent as nat) + e.content);
}

proof fn lemma_comment_line(o: int, len: int, comment: Seq<char>)
    requires
        0 <= o <= o + len < TEMPLATE@.len(),
        TEMPLATE@.subrange(o, o + len) == spaces(2) + seq!['#'] + comment,
        TEMPLATE@[o + len] == '\n',
        !comment.contains('\n'),
    ensures
        said_from(o) == said_from(o + len + 1),
{
    let line = spaces(2) + seq!['#'] + comment;
    law_comment_line_is_empty(2, comment);
    assert forall|i: int| 0 <= i < line.len() implies line[i] != '\n' by {
        if i >= 3 {
            assert(comment.contains(comment[i - 3]));
        }
    }
    lemma_line_at(o, line);
    assert(said_from(o) =~= said_from(o + len + 1));
}

proof fn lemma_empty_line(o: int)
    requires
        0 <= o < TEMPLATE@.len(),
        TEMPLATE@[o] == '\n',
    ensures
        said_from(o) == said_from(o + 1),
{
    let line = Seq::<char>::empty();
    assert(TEMPLATE@.subrange(o, o) =~= line);
    lemma_line_at(o, line);
    assert(said_from(o) =~= said_from(o + 1));
}

/// The texts of that pipeline stand as they are.
proof fn lemma_starter_texts()
    ensures
        key_ok("build"@),
        bare("my pipeline"@) && scalar_ok("my pipeline"@),
        bare("push"@) && scalar_ok("push"@),
        bare("compile"@) && scalar_ok("compile"@),
        bare("test"@) && scalar_ok("test"@),
        bare("echo 'add your build command here'"@) && scalar_ok(
            "echo 'add your build command here'"@,
        ),
        bare("echo 'add your test command here'"@) && scalar_ok(
            "echo 'add your test command here'"@,
        ),
{
    reveal_strlit("build");
    reveal_strlit("my pipeline");
    reveal_strlit("push");
    reveal_strlit("compile");
    reveal_strlit("test");
    reveal_strlit("echo 'add your build command here'");
    reveal_strlit("echo 'add your test command here'");
    lemma_word("build"@);
    lemma_bare("my pipeline"@);
    lemma_bare("push"@);
    lemma_bare("compile"@);
    lemma_bare("test"@);
    lemma_bare("echo 'add your build command here'"@);
    lemma_bare("echo 'add your test command here'"@);
}

/// The contents of the lines that say something.
proof fn lemma_starter_contents()
    ensures
        "name: my pipeline"@ == "name"@ + seq![':', ' '] + "my pipeline"@,
        "on: push"@ == "on"@ + seq![':', ' '] + "push"@,
        "jobs:"@ == "jobs"@ + seq![':'],
        "build:"@ == "build"@ + seq![':'],
        "steps:"@ == "steps"@ + seq![':'],
        "- name: compile"@ == seq!['-', ' '] + ("name"@ + seq![':', ' '] + "compile"@),
        "- name: test"@ == seq!['-', ' '] + ("name"@ + seq![':', ' '] + "test"@),
        "run: echo 'add your build command here'"@ == "run"@ + seq![':', ' ']
            + "echo 'add your build command here'"@,
        "run: echo 'add your test command here'"@ == "run"@ + seq![':', ' ']
            + "echo 'add your test command here'"@,
{
    reveal_strlit("name");
    reveal_strlit("on");
    reveal_strlit("jobs");
    reveal_strlit("build");
    reveal_strlit("steps");
    reveal_strlit("run");
    reveal_strlit("my pipeline");
    reveal_strlit("push");
    reveal_strlit("compile");
    reveal_strlit("test");
    reveal_strlit("echo 'add your build command here'");
    reveal_strlit("echo 'add your test command here'");
    reveal_strlit("name: my pipeline");
    reveal_strlit("on: push");
    reveal_strlit("jobs:");
    reveal_strlit("build:");
    reveal_strlit("steps:");
    reveal_strlit("- name: compile");
    reveal_strlit("- name: test");
    reveal_strlit("run: echo 'add your build command here'");
    reveal_strlit("run: echo 'add your test command here'");
    assert("name: my pipeline"@ =~= "name"@ + seq![':', ' '] + "my pipeline"@);
    assert("on: push"@ =~= "on"@ + seq![':', ' '] + "push"@);
    assert("jobs:"@ =~= "jobs"@ + seq![':']);
    assert("build:"@ =~= "build"@ + seq![':']);
    assert("steps:"@ =~= "steps"@ + seq![':']);
    assert("- name: compile"@ =~= seq!['-', ' '] + ("name"@ + seq![':', ' '] + "compile"@));
    assert("- name: test"@ =~= seq!['-', ' '] + ("name"@ + seq![':', ' '] + "test"@));
    assert("run: echo 'add your build command here'"@ =~= "run"@ + seq![':', ' ']
        + "echo 'add your build command here'"@);
    assert("run: echo 'add your test command here'"@ =~= "run"@ + seq![':', ' ']
        + "echo 'add your test command here'"@);
}

/// A step whose texts stand as they are takes two lines.
proof fn lemma_step_entries(step: StepView, n: int)
    requires
        bare(step.name),
        bare(step.run),
    ensures
        step_node(step) is Mapping,
        step_node(step)->Mapping_0.len() == 2,
        all_scalars(step_node(step)->Mapping_0),
        small_entries(step_node(step)->Mapping_0, n) == seq![
            (Entry {
                indent: n,
                content: seq!['-', ' '] + ("name"@ + seq![':', ' '] + step.name),
            }),
            (Entry { indent: n + 2, content: "run"@ + seq![':', ' '] + step.run }),
        ],
{
    let pairs = step_node(step)->Mapping_0;
    assert(pairs =~= seq![
        ("name"@, YamlView::Scalar(step.name)),
        ("run"@, YamlView::Scalar(step.run)),
    ]);
    assert(small_entries(pairs, n) =~= seq![
        (Entry { indent: n, content: seq!['-', ' '] + pair_content(pairs[0]) }),
        (Entry { indent: n + 2, content: pair_content(pairs[1]) }),
    ]);
}

/// That pipeline, laid out, is what the lines of the template say.
proof fn lemma_starter_entries()
    ensures
        pairs_entries(starter_pairs(), 0) == starter_entries(),
{
    lemma_starter_texts();
    lemma_starter_contents();
    let es = starter_entries();
    let steps = starter_steps();
    let items = steps_node(steps)->0->Sequence_0;
    lemma_step_entries(steps[0], 6);
    lemma_step_entries(steps[1], 6);
    assert(items =~= seq![step_node(steps[0]), step_node(steps[1])]);
    let last = items.subrange(1, 2);
    assert(last =~= seq![step_node(steps[1])]);
    assert(items_entries(last.subrange(1, 1), 6) =~= Seq::empty());
    assert(items_entries(last, 6) =~= es.subrange(7, 9));
    assert(items_entries(items, 6) =~= es.subrange(5, 9));
    let job = field("steps"@, steps_node(steps));
    assert(job =~= seq![("steps"@, YamlView::Sequence(items))]);
    assert(pairs_entries(job.subrange(1, 1), 4) =~= Seq::empty());
    assert(pairs_entries(job, 4) =~= es.subrange(4, 9));
    let nodes = starter_nodes();
    assert(pairs_entries(nodes.subrange(1, 1), 2) =~= Seq::empty());
    assert(pairs_entries(nodes, 2) =~= es.subrange(3, 9));
    let pairs = starter_pairs();
    let a = ("name"@, YamlView::Scalar("my pipeline"@));
    let b = ("on"@, YamlView::Scalar("push"@));
    let c = ("jobs"@, YamlView::Mapping(nodes));
    assert(pairs =~= seq![a, b, c]);
    let from_b = pairs.subrange(1, 3);
    let from_c = from_b.subrange(1, 2);
    assert(from_b =~= seq![b, c]);
    assert(from_c =~= seq![c]);
    assert(pairs_entries(from_c.subrange(1, 1), 0) =~= Seq::empty());
    assert(pairs_entries(from_c, 0) =~= es.subrange(2, 9));
    assert(pairs_entries(from_b, 0) =~= es.subrange(1, 9));
    assert(pairs_entries(pairs, 0) =~= es);
}

/// That pipeline can be written, and its blocks are nested four deep.
proof fn lemma_starter_ok()
    ensures
        pairs_ok(starter_pairs()),
        pairs_depth(starter_pairs()) <= 4,
{
    lemma_starter_texts();
    lemma_names();
    let steps = starter_steps();
    let items = steps_node(steps)->0->Sequence_0;
    assert forall|i: int| 0 <= i < items.len() implies item_value_ok(#[trigger] items[i])
        && value_depth(items[i]) <= 1 by {
        let pairs = step_node(steps[i])->Mapping_0;
        assert(items[i] == step_node(steps[i]));
        assert(pairs =~= seq![
            ("name"@, YamlView::Scalar(steps[i].name)),
            ("run"@, YamlView::Scalar(steps[i].run)),
        ]);
        assert(value_ok(pairs[0].1) && value_ok(pairs[1].1));
        lemma_pairs_ok(pairs);
        lemma_pairs_depth(pairs, 0);
    }
    lemma_items_ok(items);
    lemma_items_depth(items, 1);
    let job = field("steps"@, steps_node(steps));
    assert(value_ok(YamlView::Sequence(items)));
    lemma_pairs_ok(job);
    lemma_pairs_depth(job, 2);
    let nodes = starter_nodes();
    assert(value_ok(YamlView::Mapping(job)));
    lemma_pairs_ok(nodes);
    lemma_pairs_depth(nodes, 3);
    let pairs = starter_pairs();
    assert(value_ok(YamlView::Scalar("my pipeline"@)) && value_ok(YamlView::Scalar("push"@)));
    assert(value_ok(YamlView::Mapping(nodes)));
    assert(pairs =~= seq![
        ("name"@, YamlView::Scalar("my pipeline"@)),
        ("on"@, YamlView::Scalar("push"@)),
        ("jobs"@, YamlView::Mapping(nodes)),
    ]);
    lemma_pairs_ok(pairs);
    lemma_pairs_depth(pairs, 4);
}

/// The fields of its job are read as the job.
proof fn lemma_starter_job()
    ensures
        job_of("build"@, starter_nodes()[0].1) == starter().jobs[0],
{
    reveal_strlit("workdir");
    reveal_strlit("timeout");
    reveal_strlit("needs");
    reveal_strlit("env");
    reveal_strlit("steps");
    reveal_strlit("0");
    assert("workdir"@[0] == 'w' && "timeout"@[0] == 't' && "needs"@[0] == 'n' && "env"@[0] == 'e'
        && "steps"@[0] == 's');
    let value = steps_node(starter_steps());
    let node = starter_nodes()[0].1;
    lemma_field("steps"@, value, "workdir"@);
    lemma_field("steps"@, value, "timeout"@);
    lemma_field("steps"@, value, "needs"@);
    lemma_field("steps"@, value, "env"@);
    lemma_field("steps"@, value, "steps"@);
    lemma_steps(starter_steps());
    assert("0"@ =~= digits(0));
    law_natural_round_trip(0);
    assert(timeout_of(node) == 0);
    assert(needs_of(node) =~= Seq::empty());
    assert(env_of(node) =~= Map::empty());
    assert(steps_of(node) =~= starter_steps());
}

/// The template lays that pipeline out, with empty lines and comments between.
proof fn lemma_template_entries()
    requires
        all_sound(starter_entries()),
    ensures
        entries(lines_of(TEMPLATE@)) == starter_entries(),
{
    let es = starter_entries();
    lemma_template_lines();
    assert(forall|i: int| 0 <= i < es.len() ==> sound(#[trigger] es[i]));
    assert(TEMPLATE@.skip(335) =~= Seq::empty());
    assert(said_from(335) =~= Seq::empty());
    lemma_comment_line(308, 26, "       run: ./deploy.sh"@);
    lemma_comment_line(287, 20, "     - name: ship"@);
    lemma_comment_line(274, 12, "   steps:"@);
    lemma_comment_line(255, 18, "   needs: build"@);
    lemma_comment_line(243, 11, " deploy:"@);
    lemma_comment_line(192, 50, " example: job that only runs after build passes"@);
    lemma_empty_line(191);
    lemma_entry_at(144, 46, es[8]);
    lemma_entry_at(125, 18, es[7]);
    lemma_entry_at(77, 47, es[6]);
    lemma_entry_at(55, 21, es[5]);
    lemma_entry_at(44, 10, es[4]);
    lemma_entry_at(35, 8, es[3]);
    lemma_entry_at(29, 5, es[2]);
    lemma_empty_line(28);
    lemma_entry_at(19, 8, es[1]);
    lemma_empty_line(18);
    lemma_entry_at(0, 17, es[0]);
    assert(TEMPLATE@.skip(0) =~= TEMPLATE@);
    assert(said_from(0) =~= es);
}

/// The template, with which a repository starts, can be read, and describes a
/// pipeline with one job, `build`, of two steps.
pub proof fn law_template()
    ensures
        readable(TEMPLATE@),
        pipeline_of(document(TEMPLATE@)->0) == Ok::<PipelineView, Seq<char>>(starter()),
{
    let pairs = starter_pairs();
    lemma_starter_ok();
    lemma_starter_entries();
    lemma_pairs_sound(pairs, 0);
    lemma_template_entries();
    lemma_text(pairs_entries(pairs, 0));
    lemma_same_entries(TEMPLATE@, document_text(pairs));
    law_document_round_trip(pairs);
    lemma_top("my pipeline"@, "push"@, starter_nodes());
    lemma_starter_job();
    assert(starter_nodes().map_values(|p: (Seq<char>, YamlView)| job_of(p.0, p.1))
        =~= starter().jobs);
}

} // verus!
