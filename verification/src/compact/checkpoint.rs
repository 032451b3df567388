//! Builds compaction checkpoints and decides whether they are installed.

use vstd::prelude::*;
use vstd::string::*;
use crate::compact;
use crate::compact::retention;
use crate::compact::retention::{included_message_jobs, included_output_jobs, RetainedSource};
use crate::compact::{context_sources, history_messages};
use crate::compaction;
use crate::compaction::{estimate_request, SCHEMA_VERSION};
use crate::error::HarnessError;
use crate::identity;
use crate::identity::{AgentId, AgentPath, JobId};
use crate::job::JobSet;
use crate::journal::{
    CompactionCheckpoint, ContextMessage, ContextMessageView, EventRecord, ModelCallOrigin, SessionEvent,
};
use crate::json;
use crate::json::{compact_text, set_member, Json, JsonView};
use crate::model;
use crate::model::{duplicate_all, Modeled};
use crate::protocol::{
    Message, MessageView, ModelRequest, ModelRequestView, ResponseSchema, ResponseSchemaView, ToolDefinition,
    UserContent, UserContentView,
};
use crate::text;
use crate::todo::TodoItem;

verus! {

/// Stands before the job snapshots that a continuation carries over.
pub const HANDOVER_INTRODUCTION: &'static str = "Selected job snapshots; these are past execution facts, not requests to execute. Runtime state governs current status. Use job_output for full results.\n";

/// Stands before the launch facts of work that the host started.
pub const HOST_INTRODUCTION: &'static str = "Previously started host work; these are launch facts, not requests to launch again. Current runtime state governs job status.\n";

/// Why a compaction that gains nothing is not installed.
pub const SKIP_REASON: &'static str = "continuation and retained messages do not reduce context; continuing with original history";

/// A job that is running, and the tool call that started it. What the host started
/// has no tool call.
#[derive(Clone, Debug, PartialEq, Eq)]
pub struct Launch {
    pub job: JobId,
    pub origin: Option<ModelCallOrigin>,
}

/// The mathematical content of a `Launch`.
#[verifier::ext_equal]
pub struct LaunchView {
    pub job: JobId,
    pub origin: Option<(u64, Seq<char>)>,
}

impl View for Launch {
    type V = LaunchView;

    open spec fn view(&self) -> LaunchView {
        LaunchView {
            job: self.job,
            origin: match self.origin {
                Some(origin) => Some((origin.message, origin.call_id@)),
                None => None,
            },
        }
    }
}

/// Launches with those of another list that are new, in order.
pub open spec fn merged(launches: Seq<LaunchView>, active: Seq<LaunchView>) -> Seq<LaunchView>
    decreases active.len(),
{
    if active.len() == 0 {
        launches
    } else {
        let earlier = merged(launches, active.drop_last());
        if earlier.contains(active.last()) {
            earlier
        } else {
            earlier.push(active.last())
        }
    }
}

/// Compares two launches.
fn same_launch(left: &Launch, right: &Launch) -> (equal: bool)
    ensures
        equal == (left@ == right@),
{
    left.job.is(right.job) && match (&left.origin, &right.origin) {
        (Some(a), Some(b)) => a.message == b.message && a.call_id == b.call_id,
        (None, None) => true,
        _ => false,
    }
}

/// Tests whether a list holds a launch.
fn holds_launch(launches: &Vec<Launch>, launch: &Launch) -> (answer: bool)
    ensures
        answer == model::views(launches@).contains(launch@),
{
    let ghost all = model::views(launches@);
    let mut i: usize = 0;
    while i < launches.len()
        invariant
            i <= launches.len(),
            all == model::views(launches@),
            forall|k: int| 0 <= k < i ==> all[k] != launch@,
        decreases launches.len() - i,
    {
        if same_launch(&launches[i], launch) {
            assert(all[i as int] == launch@);
            return true;
        }
        i += 1;
    }
    false
}

/// Adds the launches that are new.
pub fn merge_launches(launches: &mut Vec<Launch>, active: Vec<Launch>)
    ensures
        model::views(final(launches)@) == merged(model::views(old(launches)@), model::views(active@)),
{
    let ghost before = model::views(launches@);
    let ghost all = model::views(active@);
    for launch in it: active
        invariant
            it.seq() == active@,
            all == model::views(active@),
            model::views(launches@) == merged(before, all.take(it.index() as int)),
    {
        proof {
            let i = it.index() as int;
            assert(all.take(i + 1).drop_last() =~= all.take(i));
            assert(all.take(i + 1).last() == launch@);
        }
        if !holds_launch(launches, &launch) {
            let ghost earlier = launches@;
            let ghost added = launch@;
            launches.push(launch);
            assert(model::views(launches@) =~= model::views(earlier).push(added));
        }
    }
    assert(all.take(all.len() as int) =~= all);
}

/// No launch is lost when others join.
pub proof fn launches_are_never_lost(launches: Seq<LaunchView>, active: Seq<LaunchView>, launch: LaunchView)
    ensures
        merged(launches, active).contains(launch) <==> launches.contains(launch) || active.contains(launch),
    decreases active.len(),
{
    if active.len() > 0 {
        let rest = active.drop_last();
        let earlier = merged(launches, rest);
        launches_are_never_lost(launches, rest, launch);
        if rest.contains(launch) {
            let k = choose|k: int| 0 <= k < rest.len() && rest[k] == launch;
            assert(active[k] == launch);
        }
        if active.contains(launch) && launch != active.last() {
            let k = choose|k: int| 0 <= k < active.len() && active[k] == launch;
            assert(rest[k] == launch);
        }
        if launch == active.last() {
            assert(active[active.len() - 1] == launch);
        }
        let all = merged(launches, active);
        if !earlier.contains(active.last()) {
            if earlier.contains(launch) {
                let k = choose|k: int| 0 <= k < earlier.len() && earlier[k] == launch;
                assert(all[k] == launch);
            }
            if launch == active.last() {
                assert(all[earlier.len() as int] == launch);
            }
            if all.contains(launch) && launch != active.last() {
                let k = choose|k: int| 0 <= k < all.len() && all[k] == launch;
                assert(earlier[k] == launch);
            }
        }
    }
}

/// The tool calls that started jobs.
pub open spec fn origins(launches: Seq<Launch>) -> Seq<ModelCallOrigin>
    decreases launches.len(),
{
    if launches.len() == 0 {
        seq![]
    } else {
        let earlier = origins(launches.drop_last());
        match launches.last().origin {
            Some(origin) => earlier.push(origin),
            None => earlier,
        }
    }
}

/// Collects the tool calls that started jobs.
pub fn launch_origins(launches: &Vec<Launch>) -> (calls: Vec<ModelCallOrigin>)
    ensures
        calls@ == origins(launches@),
{
    let mut calls: Vec<ModelCallOrigin> = Vec::new();
    let mut i: usize = 0;
    while i < launches.len()
        invariant
            i <= launches.len(),
            calls@ == origins(launches@.take(i as int)),
        decreases launches.len() - i,
    {
        assert(launches@.take(i + 1).drop_last() =~= launches@.take(i as int));
        if let Some(origin) = &launches[i].origin {
            let copy = ModelCallOrigin { message: origin.message, call_id: origin.call_id.clone() };
            assert(copy == *origin);
            calls.push(copy);
        }
        i += 1;
    }
    assert(launches@.take(i as int) =~= launches@);
    calls
}

/// The last sequence of a journal.
pub open spec fn frontier(records: Seq<EventRecord>) -> u64 {
    if records.len() == 0 {
        0
    } else {
        records.last().sequence
    }
}

/// Reads the last sequence of a journal.
pub fn journal_frontier(records: &Vec<EventRecord>) -> (sequence: u64)
    ensures
        sequence == frontier(records@),
{
    if records.len() == 0 {
        0
    } else {
        records[records.len() - 1].sequence
    }
}

/// Whether a record is an agent's model context with a sequence.
pub open spec fn is_context(record: EventRecord, context: u64, agent: AgentPath) -> bool {
    &&& record.sequence == context
    &&& record.agent@ == agent
    &&& record.event is ModelContext
}

/// Finds the provider of a model context.
pub fn context_provider(records: &Vec<EventRecord>, context: u64, agent: &AgentId) -> (result: Result<
    String,
    HarnessError,
>)
    ensures
        ({
            let found = model::first(records@, |record: EventRecord| is_context(record, context, agent@));
            match result {
                Ok(name) => found matches Some(index) && records@[index].event matches SessionEvent::ModelContext {
                    provider,
                    ..
                } && name@ == provider@,
                Err(error) => found is None && (error matches HarnessError::Compaction(text) && text@
                    == "model context is missing"@),
            }
        }),
{
    let ghost test = |record: EventRecord| is_context(record, context, agent@);
    let mut i: usize = 0;
    while i < records.len()
        invariant
            i <= records.len(),
            test == (|record: EventRecord| is_context(record, context, agent@)),
            forall|k: int| 0 <= k < i ==> !test(#[trigger] records@[k]),
        decreases records.len() - i,
    {
        if records[i].sequence == context && records[i].agent.same(agent) {
            if let SessionEvent::ModelContext { provider, .. } = &records[i].event {
                proof {
                    model::lemma_first(records@, test, i as int);
                }
                return Ok(provider.clone());
            }
        }
        i += 1;
    }
    proof {
        model::lemma_first(records@, test, i as int);
    }
    Err(HarnessError::Compaction("model context is missing".to_owned()))
}

/// A summary request, and how it is recorded.
#[derive(Debug)]
pub struct SummaryPlan {
    /// Estimated tokens of the request that is to be compacted.
    pub before_tokens: u64,
    /// The request without its conversation.
    pub base: ModelRequest,
    /// What is recorded as the context of the summary request.
    pub template: ModelRequest,
    pub request: ModelRequest,
    /// How the messages of the summary request are recorded.
    pub messages: Vec<ContextMessage>,
}

/// A request without its conversation.
pub open spec fn base_request(input: ModelRequestView) -> ModelRequestView {
    ModelRequestView { messages: seq![], ..input }
}

/// A request with a conversation.
pub open spec fn with_messages(input: ModelRequestView, messages: Seq<MessageView>) -> ModelRequestView {
    ModelRequestView { messages, ..input }
}

/// The template of a summary request: it offers no tools, and fixes the shape of
/// the answer.
pub open spec fn summary_template(input: ModelRequestView, schema: JsonView) -> ModelRequestView {
    ModelRequestView {
        messages: seq![],
        tools: seq![],
        response_schema: Some(ResponseSchemaView { name: "skyhook_compaction"@, schema }),
        ..input
    }
}

/// How the messages of a summary request are recorded: the history by reference,
/// the transient state and the directive as they are.
pub open spec fn recorded_messages(
    projected: Seq<(u64, Message)>,
    state: MessageView,
    directive: MessageView,
) -> Seq<ContextMessageView> {
    compact::source_sequences(projected).map_values(
        |sequence: u64| ContextMessageView::Source { sequence },
    ).push(ContextMessageView::Inline { message: state }).push(
        ContextMessageView::Inline { message: directive },
    )
}

/// A user message with one block.
pub open spec fn single_block(block: UserContentView) -> MessageView {
    MessageView::User(seq![block])
}

/// Wraps a block into a user message.
pub fn user_message(block: UserContent) -> (message: Message)
    ensures
        message@ == single_block(block@),
{
    let mut blocks: Vec<UserContent> = Vec::new();
    blocks.push(block);
    assert(model::views(blocks@) =~= seq![block@]);
    Message::User(blocks)
}

/// Plans a summary request against the current history and runtime state.
pub fn plan_summary(
    input: &ModelRequest,
    projected: &Vec<(u64, Message)>,
    state: UserContent,
    schema: &Json,
) -> (plan: SummaryPlan)
    ensures
        ({
            let shown = single_block(state@);
            let directive = compaction::compaction_message(
                compaction::DIRECTIVE@ + compaction::SCHEMA_INTRODUCTION@ + json::pretty(schema@),
            );
            let conversation = compact::history(projected@).push(shown);
            &&& plan.before_tokens == compaction::capped(
                compaction::request_tokens(with_messages(input@, conversation)),
            )
            &&& plan.base@ == base_request(input@)
            &&& plan.template@ == summary_template(input@, schema@)
            &&& plan.request@ == with_messages(
                summary_template(input@, schema@),
                conversation.push(directive),
            )
            &&& model::views(plan.messages@) == recorded_messages(projected@, shown, directive)
        }),
{
    let shown = user_message(state);
    let directive = compaction::directive(schema);
    let mut current = input.duplicate();
    let mut conversation = history_messages(projected);
    conversation.push(shown.duplicate());
    assert(model::views(conversation@) =~= compact::history(projected@).push(shown@));
    current.messages = conversation;
    let before_tokens: u64 = estimate_request(&current);
    let mut base = input.duplicate();
    base.messages = Vec::new();
    assert(model::views(base.messages@) =~= seq![]);
    // Summarization cannot execute tools: historical calls stay as evidence, but
    // none is offered.
    let mut template = base.duplicate();
    let tools: Vec<ToolDefinition> = Vec::new();
    assert(model::views(tools@) =~= seq![]);
    template.tools = tools;
    template.response_schema = Some(
        ResponseSchema { name: "skyhook_compaction".to_owned(), schema: schema.duplicate() },
    );
    let mut request = template.duplicate();
    let mut asked = duplicate_all(&current.messages);
    asked.push(directive.duplicate());
    assert(model::views(asked@) =~= compact::history(projected@).push(shown@).push(directive@));
    request.messages = asked;
    let sources = context_sources(projected);
    let mut messages: Vec<ContextMessage> = Vec::new();
    let ghost referenced = compact::source_sequences(projected@).map_values(
        |sequence: u64| ContextMessageView::Source { sequence },
    );
    let mut i: usize = 0;
    while i < sources.len()
        invariant
            i <= sources.len(),
            referenced == sources@.map_values(|sequence: u64| ContextMessageView::Source { sequence }),
            model::views(messages@) == referenced.take(i as int),
        decreases sources.len() - i,
    {
        let ghost earlier = messages@;
        messages.push(ContextMessage::Source { sequence: sources[i] });
        proof {
            assert(model::views(messages@) =~= model::views(earlier).push(referenced[i as int]));
            assert(referenced.take(i + 1) =~= referenced.take(i as int).push(referenced[i as int]));
        }
        i += 1;
    }
    assert(referenced.take(i as int) =~= referenced);
    messages.push(ContextMessage::Inline { message: shown });
    messages.push(ContextMessage::Inline { message: directive });
    assert(model::views(messages@) =~= recorded_messages(projected@, shown@, directive@));
    SummaryPlan { before_tokens, base, template, request, messages }
}

/// Whether retained messages carry the result of a job.
pub open spec fn sources_carry(entries: Seq<(u64, Message)>, number: u64) -> bool {
    exists|i: int| 0 <= i < entries.len() && retention::message_carries((#[trigger] entries[i]).1, number)
}

/// Collects the jobs whose results the retained messages carry.
pub fn carried_jobs(sources: &Vec<RetainedSource<'_>>) -> (jobs: JobSet)
    ensures
        forall|id: JobId|
            #[trigger] jobs@.contains(id) <==> sources_carry(
                retention::source_entries(sources@),
                id.spec_number(),
            ),
{
    let ghost all = retention::source_entries(sources@);
    let mut jobs = JobSet::new();
    let mut i: usize = 0;
    while i < sources.len()
        invariant
            i <= sources.len(),
            all == retention::source_entries(sources@),
            forall|id: JobId|
                #[trigger] jobs@.contains(id) <==> sources_carry(all.take(i as int), id.spec_number()),
        decreases sources.len() - i,
    {
        let ghost earlier = jobs@;
        let message = sources[i].message();
        included_message_jobs(message, &mut jobs);
        proof {
            assert(all[i as int].1 == *message);
            assert forall|id: JobId|
                #[trigger] jobs@.contains(id) <==> sources_carry(all.take(i + 1), id.spec_number()) by {
                let number = id.spec_number();
                assert(earlier.contains(id) <==> sources_carry(all.take(i as int), number));
                if sources_carry(all.take(i as int), number) {
                    let k = choose|k: int|
                        0 <= k < all.take(i as int).len() && retention::message_carries(
                            (#[trigger] all.take(i as int)[k]).1,
                            number,
                        );
                    assert(all.take(i + 1)[k] == all[k]);
                }
                if sources_carry(all.take(i + 1), number) {
                    let k = choose|k: int|
                        0 <= k < all.take(i + 1).len() && retention::message_carries(
                            (#[trigger] all.take(i + 1)[k]).1,
                            number,
                        );
                    if k < i {
                        assert(all.take(i as int)[k] == all[k]);
                    }
                }
                assert(all.take(i + 1)[i as int] == all[i as int]);
            }
        }
        i += 1;
    }
    assert(all.take(i as int) =~= all);
    jobs
}

/// Whether a record creates a job.
pub open spec fn creates(record: EventRecord, job: JobId) -> bool {
    record.event matches SessionEvent::JobCreated { job: id, .. } && id == job
}

/// The arguments that a job was created with.
pub open spec fn job_arguments(records: Seq<EventRecord>, job: JobId) -> Option<JsonView> {
    match model::first(records, |record: EventRecord| creates(record, job)) {
        Some(index) => match records[index].event {
            SessionEvent::JobCreated { arguments, .. } => Some(arguments@),
            _ => None,
        },
        None => None,
    }
}

/// Finds the arguments that a job was created with.
fn find_arguments(records: &Vec<EventRecord>, job: JobId) -> (found: Option<Json>)
    ensures
        match found {
            Some(arguments) => job_arguments(records@, job) == Some(arguments@),
            None => job_arguments(records@, job) is None,
        },
{
    let ghost test = |record: EventRecord| creates(record, job);
    let mut i: usize = 0;
    while i < records.len()
        invariant
            i <= records.len(),
            test == (|record: EventRecord| creates(record, job)),
            forall|k: int| 0 <= k < i ==> !test(#[trigger] records@[k]),
        decreases records.len() - i,
    {
        if let SessionEvent::JobCreated { job: id, arguments, .. } = &records[i].event {
            if id.is(job) {
                proof {
                    model::lemma_first(records@, test, i as int);
                }
                return Some(arguments.duplicate());
            }
        }
        i += 1;
    }
    proof {
        model::lemma_first(records@, test, i as int);
    }
    None
}

/// A job whose output is to be carried over, with the arguments it was created with.
#[derive(Debug)]
pub struct HandoverRequest {
    pub job: JobId,
    pub arguments: Json,
}

impl View for HandoverRequest {
    type V = (JobId, JsonView);

    open spec fn view(&self) -> (JobId, JsonView) {
        (self.job, self.arguments@)
    }
}

/// The jobs to carry over, each once and without those that the history already
/// carries, up to the first one that the journal does not know; and that one.
pub open spec fn handover(
    chosen: Seq<JobId>,
    included: Set<JobId>,
    records: Seq<EventRecord>,
) -> (Seq<(JobId, JsonView)>, Option<JobId>)
    decreases chosen.len(),
{
    if chosen.len() == 0 {
        (seq![], None)
    } else {
        let (earlier, unknown) = handover(chosen.drop_last(), included, records);
        let job = chosen.last();
        if unknown is Some || chosen.drop_last().contains(job) {
            (earlier, unknown)
        } else {
            match job_arguments(records, job) {
                None => (earlier, Some(job)),
                Some(arguments) => if included.contains(job) {
                    (earlier, None)
                } else {
                    (earlier.push((job, arguments)), None)
                },
            }
        }
    }
}

/// An unknown job ends a handover for good.
proof fn lemma_handover_stops(
    chosen: Seq<JobId>,
    included: Set<JobId>,
    records: Seq<EventRecord>,
    count: int,
)
    requires
        0 <= count <= chosen.len(),
        handover(chosen.take(count), included, records).1 is Some,
    ensures
        handover(chosen, included, records) == handover(chosen.take(count), included, records),
    decreases chosen.len() - count,
{
    if count < chosen.len() {
        assert(chosen.take(count + 1).drop_last() =~= chosen.take(count));
        lemma_handover_stops(chosen, included, records, count + 1);
    } else {
        assert(chosen.take(count) =~= chosen);
    }
}

/// Plans which job outputs a continuation carries over. Outputs are inspected in
/// order before a failure is raised.
pub fn plan_handover(chosen: &Vec<JobId>, included: &JobSet, records: &Vec<EventRecord>) -> (plan: (
    Vec<HandoverRequest>,
    Option<HarnessError>,
))
    ensures
        model::views(plan.0@) == handover(chosen@, included@, records@).0,
        match plan.1 {
            None => handover(chosen@, included@, records@).1 is None,
            Some(error) => handover(chosen@, included@, records@).1 matches Some(job)
                && error matches HarnessError::Compaction(text) && text@ == "unknown handover job "@
                + text::decimal(job.spec_number() as nat),
        },
{
    let mut seen = JobSet::new();
    let mut requests: Vec<HandoverRequest> = Vec::new();
    let mut i: usize = 0;
    assert(model::views(requests@) =~= seq![]);
    assert(chosen@.take(0).to_set() =~= Set::<JobId>::empty());
    while i < chosen.len()
        invariant
            i <= chosen.len(),
            seen@ == chosen@.take(i as int).to_set(),
            handover(chosen@.take(i as int), included@, records@) == (model::views(requests@), None::<JobId>),
        decreases chosen.len() - i,
    {
        let job = chosen[i];
        proof {
            assert(chosen@.take(i + 1).drop_last() =~= chosen@.take(i as int));
            assert(chosen@.take(i + 1).last() == job);
            assert forall|other: JobId| chosen@.take(i + 1).to_set().contains(other) <==> chosen@.take(
                i as int,
            ).to_set().insert(job).contains(other) by {
                let shorter = chosen@.take(i as int);
                let longer = chosen@.take(i + 1);
                if shorter.contains(other) {
                    let k = choose|k: int| 0 <= k < shorter.len() && shorter[k] == other;
                    assert(longer[k] == other);
                }
                if other == job {
                    assert(longer[i as int] == other);
                }
                if longer.contains(other) && other != job {
                    let k = choose|k: int| 0 <= k < longer.len() && longer[k] == other;
                    assert(shorter[k] == other);
                }
            }
            assert(chosen@.take(i + 1).to_set() =~= chosen@.take(i as int).to_set().insert(job));
        }
        if seen.insert(job) {
            match find_arguments(records, job) {
                None => {
                    let mut message = "unknown handover job ".to_owned();
                    text::push_decimal(&mut message, job.number());
                    proof {
                        lemma_handover_stops(chosen@, included@, records@, i + 1);
                    }
                    return (requests, Some(HarnessError::Compaction(message)));
                },
                Some(arguments) => {
                    if !included.contains(job) {
                        let ghost earlier = requests@;
                        let request = HandoverRequest { job, arguments };
                        let ghost added = request@;
                        requests.push(request);
                        assert(model::views(requests@) =~= model::views(earlier).push(added));
                    }
                },
            }
        }
        i += 1;
    }
    assert(chosen@.take(i as int) =~= chosen@);
    (requests, None)
}

/// A job view with the arguments of the job.
pub open spec fn with_arguments(view: JsonView, arguments: JsonView) -> JsonView {
    match view {
        JsonView::Object(members) => JsonView::Object(
            json::with_member(members, "arguments"@, arguments),
        ),
        _ => view,
    }
}

/// Adds the arguments of a job to the view of its output.
pub fn attach_arguments(view: Json, arguments: Json) -> (attached: Json)
    requires
        view is Object,
    ensures
        attached@ == with_arguments(view@, arguments@),
{
    match view {
        Json::Object(members) => {
            let mut members = members;
            set_member(&mut members, "arguments", arguments);
            Json::Object(members)
        },
        other => other,
    }
}

/// The job that a view belongs to.
pub open spec fn view_job(view: JsonView) -> Option<u64> {
    match view.member("id"@) {
        Some(JsonView::Unsigned(number)) => if number > 0 {
            Some(number)
        } else {
            None
        },
        _ => None,
    }
}

/// Whether the result in a view carries the result of a job.
pub open spec fn view_embeds(view: JsonView, number: u64) -> bool {
    view.member("result"@) matches Some(result) && retention::carries_output(result, number)
}

/// Whether the result in one of the views carries the result of a job.
pub open spec fn embeds(views: Seq<JsonView>, number: u64) -> bool {
    exists|i: int| 0 <= i < views.len() && view_embeds(#[trigger] views[i], number)
}

/// Whether a view is carried over: it names its job, and no other view embeds it.
pub open spec fn carried_over(views: Seq<JsonView>, view: JsonView) -> bool {
    view_job(view) matches Some(number) && !embeds(views, number)
}

/// Collects the jobs whose results the views embed.
fn embedded_jobs(views: &Vec<Json>) -> (jobs: JobSet)
    ensures
        forall|id: JobId|
            #[trigger] jobs@.contains(id) <==> embeds(model::views(views@), id.spec_number()),
{
    let ghost all = model::views(views@);
    let mut jobs = JobSet::new();
    let mut i: usize = 0;
    while i < views.len()
        invariant
            i <= views.len(),
            all == model::views(views@),
            forall|id: JobId| #[trigger] jobs@.contains(id) <==> embeds(all.take(i as int), id.spec_number()),
        decreases views.len() - i,
    {
        let ghost earlier = jobs@;
        let found = views[i].member("result");
        if let Some(result) = found {
            included_output_jobs(result, &mut jobs);
        }
        proof {
            assert(all[i as int] == views@[i as int]@);
            assert forall|id: JobId| #[trigger] jobs@.contains(id) <==> embeds(
                all.take(i + 1),
                id.spec_number(),
            ) by {
                let number = id.spec_number();
                assert(earlier.contains(id) <==> embeds(all.take(i as int), number));
                if embeds(all.take(i as int), number) {
                    let k = choose|k: int|
                        0 <= k < all.take(i as int).len() && view_embeds(
                            #[trigger] all.take(i as int)[k],
                            number,
                        );
                    assert(all.take(i + 1)[k] == all[k]);
                }
                if embeds(all.take(i + 1), number) {
                    let k = choose|k: int|
                        0 <= k < all.take(i + 1).len() && view_embeds(
                            #[trigger] all.take(i + 1)[k],
                            number,
                        );
                    if k < i {
                        assert(all.take(i as int)[k] == all[k]);
                    }
                }
                assert(all.take(i + 1)[i as int] == all[i as int]);
            }
        }
        i += 1;
    }
    assert(all.take(i as int) =~= all);
    jobs
}

/// Drops views of jobs whose results another view already embeds.
pub fn drop_embedded(views: Vec<Json>) -> (left: Vec<Json>)
    ensures
        model::views(left@) == model::selected(
            model::views(views@),
            |view: JsonView| carried_over(model::views(views@), view),
        ),
{
    let ghost all = model::views(views@);
    let ghost test = |view: JsonView| carried_over(all, view);
    let embedded = embedded_jobs(&views);
    let mut left: Vec<Json> = Vec::new();
    assert(model::views(left@) =~= model::selected(all.take(0), test));
    for view in it: views
        invariant
            it.seq() == views@,
            all == model::views(views@),
            test == (|view: JsonView| carried_over(all, view)),
            forall|id: JobId| #[trigger] embedded@.contains(id) <==> embeds(all, id.spec_number()),
            model::views(left@) == model::selected(all.take(it.index() as int), test),
    {
        let keep = match view.member("id") {
            Some(Json::Unsigned(number)) => match JobId::new(*number) {
                Some(id) => !embedded.contains(id),
                None => false,
            },
            _ => false,
        };
        proof {
            assert(all[it.index() as int] == view@);
            assert(keep == test(view@));
            model::lemma_selected_step(all, test, it.index() as int);
        }
        if keep {
            let ghost earlier = left@;
            let ghost added = view@;
            left.push(view);
            assert(model::views(left@) =~= model::views(earlier).push(added));
        }
    }
    assert(all.take(all.len() as int) =~= all);
    left
}

/// A user message with one more block; another message stays as it is.
pub open spec fn with_block(message: MessageView, block: UserContentView) -> MessageView {
    match message {
        MessageView::User(blocks) => MessageView::User(blocks.push(block)),
        _ => message,
    }
}

/// Adds a block to a user message.
fn push_block(message: Message, text: String) -> (longer: Message)
    ensures
        longer@ == with_block(message@, UserContentView::Compaction { text: text@ }),
{
    match message {
        Message::User(blocks) => {
            let mut blocks = blocks;
            let ghost earlier = blocks@;
            let block = UserContent::Compaction { text };
            let ghost added = block@;
            blocks.push(block);
            assert(model::views(blocks@) =~= model::views(earlier).push(added));
            Message::User(blocks)
        },
        other => other,
    }
}

/// The views of a list of JSON values are the items of an array.
pub proof fn lemma_array_items(items: Seq<Json>)
    ensures
        json::json_views(items) == model::views(items),
{
    json::lemma_json_views(items);
    assert(json::json_views(items) =~= model::views(items));
}

/// What a continuation shows of the jobs that it carries over.
pub open spec fn with_handover(message: MessageView, views: Seq<JsonView>) -> MessageView {
    if views.len() == 0 {
        message
    } else {
        with_block(
            message,
            UserContentView::Compaction {
                text: HANDOVER_INTRODUCTION@ + json::compact(
                    JsonView::Object(seq![("jobs"@, JsonView::Array(views))]),
                ),
            },
        )
    }
}

/// Shows the jobs that a continuation carries over.
pub fn append_handover(message: Message, views: Vec<Json>) -> (longer: Message)
    ensures
        longer@ == with_handover(message@, model::views(views@)),
{
    if views.len() == 0 {
        return message;
    }
    let ghost items = views@;
    let mut members: Vec<(String, Json)> = Vec::new();
    members.push(("jobs".to_owned(), Json::Array(views)));
    proof {
        lemma_array_items(items);
        json::lemma_member_views(members@);
        assert(json::member_views(members@) =~= seq![("jobs"@, JsonView::Array(model::views(items)))]);
    }
    let notation = compact_text(&Json::Object(members));
    let mut text = HANDOVER_INTRODUCTION.to_owned();
    text.append(notation.as_str());
    push_block(message, text)
}

/// Whether a launch of a job came from the host.
pub open spec fn host_started(launches: Seq<Launch>, job: JobId) -> bool {
    exists|i: int| 0 <= i < launches.len() && (#[trigger] launches[i]).job == job && launches[i].origin is None
}

/// Whether a record is the launch of an agent's job that the host started.
pub open spec fn is_host_launch(record: EventRecord, launches: Seq<Launch>, agent: AgentPath) -> bool {
    &&& record.agent@ == agent
    &&& record.event matches SessionEvent::JobCreated { job, .. }
    &&& host_started(launches, job)
}

/// Tests whether the host started a job.
fn from_host(launches: &Vec<Launch>, job: JobId) -> (answer: bool)
    ensures
        answer == host_started(launches@, job),
{
    let mut i: usize = 0;
    while i < launches.len()
        invariant
            i <= launches.len(),
            forall|k: int|
                0 <= k < i ==> !((#[trigger] launches@[k]).job == job && launches@[k].origin is None),
        decreases launches.len() - i,
    {
        if launches[i].job.is(job) && launches[i].origin.is_none() {
            assert(launches@[i as int].job == job && launches@[i as int].origin is None);
            return true;
        }
        i += 1;
    }
    false
}

/// Finds the launches of work that the host started: it has no original exchange,
/// so its launch facts are kept. Gives their positions in journal order.
pub fn host_launches(launches: &Vec<Launch>, records: &Vec<EventRecord>, agent: &AgentId) -> (positions: Vec<
    usize,
>)
    ensures
        forall|k: int| 0 <= k < positions@.len() ==> (#[trigger] positions@[k]) < records@.len(),
        forall|j: int, k: int|
            0 <= j < k < positions@.len() ==> (#[trigger] positions@[j]) < (#[trigger] positions@[k]),
        forall|i: int|
            0 <= i < records@.len() ==> (positions@.contains(i as usize) <==> is_host_launch(
                #[trigger] records@[i],
                launches@,
                agent@,
            )),
{
    let mut positions: Vec<usize> = Vec::new();
    let mut i: usize = 0;
    while i < records.len()
        invariant
            i <= records.len(),
            forall|k: int| 0 <= k < positions@.len() ==> (#[trigger] positions@[k]) < i,
            forall|j: int, k: int|
                0 <= j < k < positions@.len() ==> (#[trigger] positions@[j]) < (#[trigger] positions@[k]),
            forall|p: int|
                0 <= p < i ==> (positions@.contains(p as usize) <==> is_host_launch(
                    #[trigger] records@[p],
                    launches@,
                    agent@,
                )),
        decreases records.len() - i,
    {
        let ghost before = positions@;
        let mut found: bool = false;
        if records[i].agent.same(agent) {
            if let SessionEvent::JobCreated { job, .. } = &records[i].event {
                found = from_host(launches, *job);
            }
        }
        assert(found == is_host_launch(records@[i as int], launches@, agent@));
        if found {
            positions.push(i);
        }
        proof {
            assert forall|p: int| 0 <= p < i + 1 implies (positions@.contains(p as usize) <==> is_host_launch(
                #[trigger] records@[p],
                launches@,
                agent@,
            )) by {
                if p < i {
                    if before.contains(p as usize) {
                        let k = choose|k: int| 0 <= k < before.len() && before[k] == p as usize;
                        assert(positions@[k] == p as usize);
                    }
                    if positions@.contains(p as usize) {
                        let k = choose|k: int| 0 <= k < positions@.len() && positions@[k] == p as usize;
                        assert(before[k] == p as usize);
                    }
                } else {
                    if found {
                        assert(positions@[before.len() as int] == i);
                    }
                    if positions@.contains(i) && !found {
                        let k = choose|k: int| 0 <= k < positions@.len() && positions@[k] == i;
                        assert(positions@[k] < i);
                    }
                }
            }
        }
        i += 1;
    }
    positions
}

/// A launch fact: where it stands in the journal, and what was launched.
pub open spec fn launch_fact(sequence: u64, launch: JsonView) -> JsonView {
    JsonView::Object(
        seq![("source_event"@, JsonView::Unsigned(sequence)), ("launch"@, launch)],
    )
}

/// What a continuation shows of the work that the host started.
pub open spec fn with_host_facts(message: MessageView, facts: Seq<(u64, JsonView)>, shown: bool) -> MessageView {
    if !shown {
        message
    } else {
        with_block(
            message,
            UserContentView::Compaction {
                text: HOST_INTRODUCTION@ + json::compact(
                    JsonView::Array(
                        facts.map_values(|fact: (u64, JsonView)| launch_fact(fact.0, fact.1)),
                    ),
                ),
            },
        )
    }
}

/// The contents of launch facts.
pub open spec fn fact_views(facts: Seq<(u64, Json)>) -> Seq<(u64, JsonView)> {
    facts.map_values(|fact: (u64, Json)| (fact.0, fact.1@))
}

/// Shows the work that the host started, where there is any.
pub fn append_host_facts(message: Message, launches: &Vec<Launch>, facts: Vec<(u64, Json)>) -> (longer: Message)
    ensures
        longer@ == with_host_facts(
            message@,
            fact_views(facts@),
            exists|job: JobId| host_started(launches@, job),
        ),
{
    let mut i: usize = 0;
    let mut shown: bool = false;
    while i < launches.len()
        invariant
            i <= launches.len(),
            shown ==> exists|job: JobId| host_started(launches@, job),
            !shown ==> forall|k: int| 0 <= k < i ==> (#[trigger] launches@[k]).origin is Some,
        decreases launches.len() - i,
    {
        if launches[i].origin.is_none() {
            assert(host_started(launches@, launches@[i as int].job));
            shown = true;
        }
        i += 1;
    }
    if !shown {
        assert forall|job: JobId| !host_started(launches@, job) by {}
        return message;
    }
    let ghost content = fact_views(facts@);
    let ghost goal = content.map_values(|fact: (u64, JsonView)| launch_fact(fact.0, fact.1));
    let mut items: Vec<Json> = Vec::new();
    for fact in it: facts
        invariant
            it.seq() == facts@,
            content == fact_views(facts@),
            goal == content.map_values(|fact: (u64, JsonView)| launch_fact(fact.0, fact.1)),
            model::views(items@) == goal.take(it.index() as int),
    {
        let mut members: Vec<(String, Json)> = Vec::new();
        let ghost launch = fact.1@;
        members.push(("source_event".to_owned(), Json::Unsigned(fact.0)));
        members.push(("launch".to_owned(), fact.1));
        let item = Json::Object(members);
        proof {
            json::lemma_member_views(members@);
            assert(json::member_views(members@) =~= seq![
                ("source_event"@, JsonView::Unsigned(fact.0)),
                ("launch"@, launch),
            ]);
            assert(item@ == launch_fact(fact.0, launch));
        }
        let ghost earlier = items@;
        items.push(item);
        proof {
            let i = it.index() as int;
            assert(goal[i] == launch_fact(fact.0, launch));
            assert(model::views(items@) =~= model::views(earlier).push(goal[i]));
            assert(goal.take(i + 1) =~= goal.take(i).push(goal[i]));
        }
    }
    assert(goal.take(goal.len() as int) =~= goal);
    proof {
        lemma_array_items(items@);
    }
    let notation = compact_text(&Json::Array(items));
    let mut text = HOST_INTRODUCTION.to_owned();
    text.append(notation.as_str());
    push_block(message, text)
}

/// The conversation after a compaction: the continuation, the retained messages
/// and the fresh state.
pub open spec fn compacted_messages(
    message: MessageView,
    entries: Seq<(u64, Message)>,
    state: MessageView,
) -> Seq<MessageView> {
    (seq![message] + compact::history(entries)).push(state)
}

/// What becomes of a compaction.
#[derive(Debug)]
pub enum CompactionDecision {
    /// It gains nothing; the original history stays.
    Skip,
    /// It was cancelled.
    Stop,
    /// It is offered to the todo store, which installs it unless todos changed.
    Install(CompactionCheckpoint),
}

/// What a checkpoint is built against.
#[derive(Clone, Copy, Debug)]
pub struct CheckpointFacts {
    pub previous: Option<u64>,
    pub frontier: u64,
    pub request: u64,
    pub before_tokens: u64,
    pub max_context: u64,
}

/// The sequences of entries.
pub open spec fn entry_sequences(entries: Seq<(u64, Message)>) -> Seq<u64> {
    entries.map_values(|entry: (u64, Message)| entry.0)
}

/// Decides whether a compaction is installed. It has to reduce the estimate.
pub fn decide_checkpoint(
    base: &ModelRequest,
    facts: CheckpointFacts,
    message: Message,
    sources: Vec<RetainedSource<'_>>,
    state: UserContent,
    todos: Vec<TodoItem>,
    cancelled: bool,
) -> (decision: CompactionDecision)
    ensures
        ({
            let entries = retention::source_entries(sources@);
            let after = compaction::capped(
                compaction::request_tokens(
                    with_messages(
                        base@,
                        compacted_messages(message@, entries, single_block(state@)),
                    ),
                ),
            );
            match decision {
                CompactionDecision::Skip => after >= facts.before_tokens,
                CompactionDecision::Stop => after < facts.before_tokens && cancelled,
                CompactionDecision::Install(checkpoint) => {
                    &&& after < facts.before_tokens && !cancelled
                    &&& checkpoint.schema_version == SCHEMA_VERSION
                    &&& checkpoint.previous == facts.previous
                    &&& checkpoint.frontier == facts.frontier
                    &&& checkpoint.message@ == message@
                    &&& model::views(checkpoint.todos@) == model::views(todos@)
                    &&& checkpoint.retained@ == entry_sequences(entries)
                    &&& checkpoint.request == facts.request
                    &&& checkpoint.before_tokens == facts.before_tokens
                    &&& checkpoint.after_tokens == after
                    &&& checkpoint.max_context == facts.max_context
                },
            }
        }),
{
    let ghost entries = retention::source_entries(sources@);
    let mut messages: Vec<Message> = Vec::new();
    messages.push(message.duplicate());
    let mut retained: Vec<u64> = Vec::new();
    let mut i: usize = 0;
    assert(model::views(messages@) =~= seq![message@] + compact::history(entries.take(0)));
    while i < sources.len()
        invariant
            i <= sources.len(),
            entries == retention::source_entries(sources@),
            model::views(messages@) == seq![message@] + compact::history(entries.take(i as int)),
            retained@ == entry_sequences(entries.take(i as int)),
        decreases sources.len() - i,
    {
        let ghost earlier = messages@;
        let copy = sources[i].message().duplicate();
        messages.push(copy);
        retained.push(sources[i].sequence());
        proof {
            assert(entries[i as int] == (
                sources@[i as int].spec_sequence(),
                sources@[i as int].spec_message(),
            ));
            assert(compact::history(entries.take(i + 1)) =~= compact::history(entries.take(i as int)).push(
                entries[i as int].1@,
            ));
            assert(model::views(messages@) =~= model::views(earlier).push(entries[i as int].1@));
            assert(model::views(messages@) =~= seq![message@] + compact::history(entries.take(i + 1)));
            assert(retained@ =~= entry_sequences(entries.take(i + 1)));
        }
        i += 1;
    }
    assert(entries.take(i as int) =~= entries);
    messages.push(user_message(state));
    assert(model::views(messages@) =~= compacted_messages(message@, entries, single_block(state@)));
    let mut compacted = base.duplicate();
    compacted.messages = messages;
    let after_tokens: u64 = estimate_request(&compacted);
    if after_tokens >= facts.before_tokens {
        CompactionDecision::Skip
    } else if cancelled {
        CompactionDecision::Stop
    } else {
        CompactionDecision::Install(
            CompactionCheckpoint {
                schema_version: SCHEMA_VERSION,
                previous: facts.previous,
                frontier: facts.frontier,
                message,
                todos,
                retained,
                request: facts.request,
                before_tokens: facts.before_tokens,
                after_tokens,
                max_context: facts.max_context,
            },
        )
    }
}

/// What an offered checkpoint leads to: the todo store refuses it where todos
/// changed in the meantime.
pub fn conclude_installation(installed: bool) -> (result: Result<(), HarnessError>)
    ensures
        installed ==> result is Ok,
        !installed ==> (result matches Err(HarnessError::Compaction(text)) && text@
            == "todo state changed during summarization; retrying with current state"@),
{
    if installed {
        Ok(())
    } else {
        Err(
            HarnessError::Compaction(
                "todo state changed during summarization; retrying with current state".to_owned(),
            ),
        )
    }
}

/// Launches that join others stand behind them, each once: those that were there stay in
/// their places, and exactly the launches of both are there.
pub proof fn joined_launches_keep_their_places(launches: Seq<LaunchView>, active: Seq<LaunchView>, launch: LaunchView)
    ensures
        launches.is_prefix_of(merged(launches, active)),
        merged(launches, active).contains(launch) <==> launches.contains(launch) || active.contains(launch),
        launches.no_duplicates() ==> merged(launches, active).no_duplicates(),
    decreases active.len(),
{
    let all = merged(launches, active);
    if active.len() > 0 {
        let rest = active.drop_last();
        joined_launches_keep_their_places(launches, rest, launch);
        let earlier = merged(launches, rest);
        assert(active =~= rest.push(active.last()));
        if active.contains(launch) && !rest.contains(launch) {
            let k = choose|k: int| 0 <= k < active.len() && active[k] == launch;
            if k < rest.len() {
                assert(rest[k] == launch);
            }
        }
        if rest.contains(launch) {
            let k = choose|k: int| 0 <= k < rest.len() && rest[k] == launch;
            assert(active[k] == launch);
        }
        assert(active[active.len() - 1] == active.last());
        if !earlier.contains(active.last()) {
            assert(all =~= earlier.push(active.last()));
            if earlier.contains(launch) {
                let k = choose|k: int| 0 <= k < earlier.len() && earlier[k] == launch;
                assert(all[k] == launch);
            }
            assert(all[earlier.len() as int] == active.last());
            if all.contains(launch) && launch != active.last() {
                let k = choose|k: int| 0 <= k < all.len() && all[k] == launch;
                assert(earlier[k] == launch);
            }
            assert(launches =~= all.subrange(0, launches.len() as int)) by {
                assert(launches =~= earlier.subrange(0, launches.len() as int));
            }
        }
    } else {
        assert(launches =~= all.subrange(0, launches.len() as int));
        assert(!active.contains(launch));
    }
}

/// The calls that active jobs were started by are those of the launches that have one, in
/// their order.
pub proof fn origins_are_those_of_launches(launches: Seq<Launch>, launch: Launch)
    ensures
        origins(launches.push(launch)) == match launch.origin {
            Some(origin) => origins(launches).push(origin),
            None => origins(launches),
        },
        origins(seq![]).len() == 0,
{
    assert(launches.push(launch).drop_last() =~= launches);
}

/// A summary is asked for without tools and with the schema of its answer, and is otherwise
/// the request that it stands for.
pub proof fn summaries_are_asked_for_without_tools(input: ModelRequestView, schema: JsonView)
    ensures
        ({
            let template = summary_template(input, schema);
            &&& template.tools.len() == 0
            &&& template.messages.len() == 0
            &&& template.response_schema matches Some(response) && response.name == "skyhook_compaction"@
                && response.schema == schema
            &&& template.model == input.model
            &&& template.system == input.system
            &&& template.reasoning == input.reasoning
            &&& template.max_output_tokens == input.max_output_tokens
            &&& template.correlation == input.correlation
        }),
        ({
            let base = base_request(input);
            &&& base.messages.len() == 0
            &&& with_messages(base, input.messages) == input
        }),
{
}

/// What is recorded of a summary request are the sources of the history in their order, then
/// the state, then the directive.
pub proof fn recorded_requests_name_their_sources(
    projected: Seq<(u64, Message)>,
    state: MessageView,
    directive: MessageView,
    index: int,
)
    requires
        0 <= index < projected.len(),
    ensures
        ({
            let messages = recorded_messages(projected, state, directive);
            &&& messages.len() == projected.len() + 2
            &&& messages[index] == (ContextMessageView::Source { sequence: projected[index].0 })
            &&& messages[projected.len() as int] == (ContextMessageView::Inline { message: state })
            &&& messages.last() == (ContextMessageView::Inline { message: directive })
        }),
{
}

/// A compacted conversation is the continuation, then the messages that stay in their order,
/// then the state.
pub proof fn compacted_conversations_keep_their_order(
    message: MessageView,
    entries: Seq<(u64, Message)>,
    state: MessageView,
    index: int,
)
    requires
        0 <= index < entries.len(),
    ensures
        ({
            let messages = compacted_messages(message, entries, state);
            &&& messages.len() == entries.len() + 2
            &&& messages[0] == message
            &&& messages[index + 1] == entries[index].1@
            &&& messages.last() == state
        }),
{
}

/// The arguments that a job was created with are those of its first record of creation.
pub proof fn arguments_are_those_of_the_creation(records: Seq<EventRecord>, job: JobId, index: int)
    requires
        0 <= index < records.len(),
        records[index].event matches SessionEvent::JobCreated { job: id, .. } && id == job,
        forall|k: int|
            0 <= k < index ==> !((#[trigger] records[k]).event matches SessionEvent::JobCreated { job: id, .. } && id
                == job),
    ensures
        records[index].event matches SessionEvent::JobCreated { arguments, .. } && job_arguments(records, job) == Some(
            arguments@,
        ),
{
    model::lemma_first(records, |record: EventRecord| creates(record, job), index);
}

/// Each chosen job whose output is not in the retained messages yet is carried over once,
/// with the arguments that it was created with, and no other is.
pub proof fn chosen_jobs_are_carried_over_once(
    chosen: Seq<JobId>,
    included: Set<JobId>,
    records: Seq<EventRecord>,
    job: JobId,
    arguments: JsonView,
)
    requires
        handover(chosen, included, records).1 is None,
    ensures
        handover(chosen, included, records).0.contains((job, arguments)) <==> chosen.contains(job) && !included.contains(
            job,
        ) && job_arguments(records, job) == Some(arguments),
        handover(chosen, included, records).0.no_duplicates(),
        chosen.contains(job) ==> job_arguments(records, job) is Some,
    decreases chosen.len(),
{
    let all = handover(chosen, included, records).0;
    if chosen.len() > 0 {
        let rest = chosen.drop_last();
        let last = chosen.last();
        assert(handover(rest, included, records).1 is None);
        chosen_jobs_are_carried_over_once(rest, included, records, job, arguments);
        let earlier = handover(rest, included, records).0;
        assert(chosen[chosen.len() - 1] == last);
        if rest.contains(job) {
            let k = choose|k: int| 0 <= k < rest.len() && rest[k] == job;
            assert(chosen[k] == job);
        }
        if chosen.contains(job) && job != last {
            let k = choose|k: int| 0 <= k < chosen.len() && chosen[k] == job;
            assert(rest[k] == job);
        }
        if !rest.contains(last) && !included.contains(last) {
            let added = (last, job_arguments(records, last)->0);
            assert(all =~= earlier.push(added));
            if earlier.contains((job, arguments)) {
                let k = choose|k: int| 0 <= k < earlier.len() && earlier[k] == (job, arguments);
                assert(all[k] == (job, arguments));
            }
            assert(all[earlier.len() as int] == added);
            if all.contains((job, arguments)) && (job, arguments) != added {
                let k = choose|k: int| 0 <= k < all.len() && all[k] == (job, arguments);
                assert(earlier[k] == (job, arguments));
            }
            chosen_jobs_are_carried_over_once(rest, included, records, last, added.1);
            assert(!earlier.contains(added));
            assert(all.no_duplicates()) by {
                assert forall|i: int, j: int| 0 <= i < all.len() && 0 <= j < all.len() && i != j implies all[i]
                    != all[j] by {
                    if i < earlier.len() && j == earlier.len() {
                        assert(earlier.contains(earlier[i]));
                    }
                    if j < earlier.len() && i == earlier.len() {
                        assert(earlier.contains(earlier[j]));
                    }
                }
            }
        }
    } else {
        assert(!all.contains((job, arguments)));
        assert(!chosen.contains(job));
    }
}

/// A job that nothing is known of is named where one is chosen, and the first such one is.
pub proof fn unknown_jobs_are_named(chosen: Seq<JobId>, included: Set<JobId>, records: Seq<EventRecord>)
    ensures
        handover(chosen, included, records).1 matches Some(job) ==> {
            &&& job_arguments(records, job) is None
            &&& exists|i: int|
                0 <= i < chosen.len() && (#[trigger] chosen[i]) == job && forall|k: int|
                    0 <= k < i ==> job_arguments(records, #[trigger] chosen[k]) is Some
        },
    decreases chosen.len(),
{
    if chosen.len() > 0 {
        let rest = chosen.drop_last();
        unknown_jobs_are_named(rest, included, records);
        assert forall|k: int| 0 <= k < rest.len() implies #[trigger] rest[k] == chosen[k] by {}
        match handover(rest, included, records).1 {
            Some(job) => {
                let i = choose|i: int|
                    0 <= i < rest.len() && (#[trigger] rest[i]) == job && forall|k: int|
                        0 <= k < i ==> job_arguments(records, #[trigger] rest[k]) is Some;
                assert(chosen[i] == job);
                assert forall|k: int| 0 <= k < i implies job_arguments(records, #[trigger] chosen[k]) is Some by {
                    assert(rest[k] == chosen[k]);
                }
            },
            None => {
                if handover(chosen, included, records).1 is Some {
                    let last = chosen.len() - 1;
                    assert(chosen[last] == chosen.last());
                    assert forall|k: int| 0 <= k < last implies job_arguments(records, #[trigger] chosen[k]) is Some by {
                        assert(rest.contains(rest[k]));
                        chosen_jobs_are_carried_over_once(rest, included, records, rest[k], JsonView::Null);
                    }
                }
            },
        }
    }
}

/// A view is carried over where it has a job's number and no other view's result carries
/// that job's output.
pub proof fn embedded_views_are_dropped(views: Seq<JsonView>, view: JsonView)
    ensures
        carried_over(views, view) <==> exists|number: u64|
            {
                &&& number > 0
                &&& #[trigger] view.member("id"@) == Some(JsonView::Unsigned(number))
                &&& forall|i: int|
                    0 <= i < views.len() ==> !((#[trigger] views[i]).member("result"@) matches Some(result)
                        && retention::carries_output(result, number))
            },
{
    if carried_over(views, view) {
        let number = view_job(view)->0;
        assert forall|i: int| 0 <= i < views.len() implies !((#[trigger] views[i]).member(
            "result"@,
        ) matches Some(result) && retention::carries_output(result, number)) by {
            assert(!view_embeds(views[i], number));
        }
    }
    if let Some(JsonView::Unsigned(number)) = view.member("id"@) {
        if number > 0 && forall|i: int|
            0 <= i < views.len() ==> !((#[trigger] views[i]).member("result"@) matches Some(result)
                && retention::carries_output(result, number)) {
            assert(!embeds(views, number)) by {
                if embeds(views, number) {
                    let i = choose|i: int| 0 <= i < views.len() && view_embeds(#[trigger] views[i], number);
                    assert(views[i].member("result"@) is Some);
                }
            }
        }
    }
}

/// What is added to a continuation stands behind what it holds, as one more block of the
/// harness that names it: outputs of jobs under `jobs`, and launches of the host with the
/// records that they come from. Nothing is added where there is nothing.
pub proof fn additions_stand_at_the_end(
    blocks: Seq<UserContentView>,
    views: Seq<JsonView>,
    facts: Seq<(u64, JsonView)>,
)
    ensures
        with_handover(MessageView::User(blocks), seq![]) == MessageView::User(blocks),
        views.len() > 0 ==> with_handover(MessageView::User(blocks), views) == MessageView::User(
            blocks.push(
                UserContentView::Compaction {
                    text: HANDOVER_INTRODUCTION@ + json::compact(
                        JsonView::Object(seq![("jobs"@, JsonView::Array(views))]),
                    ),
                },
            ),
        ),
        with_host_facts(MessageView::User(blocks), facts, false) == MessageView::User(blocks),
        with_host_facts(MessageView::User(blocks), facts, true) == MessageView::User(
            blocks.push(
                UserContentView::Compaction {
                    text: HOST_INTRODUCTION@ + json::compact(
                        JsonView::Array(
                            Seq::new(
                                facts.len(),
                                |i: int|
                                    JsonView::Object(
                                        seq![
                                            ("source_event"@, JsonView::Unsigned(facts[i].0)),
                                            ("launch"@, facts[i].1),
                                        ],
                                    ),
                            ),
                        ),
                    ),
                },
            ),
        ),
{
    let shown = facts.map_values(|fact: (u64, JsonView)| launch_fact(fact.0, fact.1));
    let direct = Seq::new(
        facts.len(),
        |i: int|
            JsonView::Object(seq![("source_event"@, JsonView::Unsigned(facts[i].0)), ("launch"@, facts[i].1)]),
    );
    assert(shown =~= direct);
}

/// A launch of the host is one of the agent's own jobs that was started without a call.
pub proof fn host_launches_have_no_call(record: EventRecord, launches: Seq<Launch>, agent: AgentPath)
    ensures
        is_host_launch(record, launches, agent) <==> record.agent@ == agent && (
        record.event matches SessionEvent::JobCreated { job, .. } && exists|i: int|
            0 <= i < launches.len() && (#[trigger] launches[i]).job == job && launches[i].origin is None),
{
}

/// The view of a job's output gets the job's arguments and keeps all else that it has.
pub proof fn arguments_are_added_to_views(view: JsonView, arguments: JsonView, key: Seq<char>)
    requires
        view is Object,
    ensures
        with_arguments(view, arguments).member("arguments"@) == Some(arguments),
        key != "arguments"@ ==> with_arguments(view, arguments).member(key) == view.member(key),
{
    json::given_members_are_read_back(view->Object_0, "arguments"@, arguments, key);
}

/// The frontier of a journal is the sequence of its last record.
pub proof fn frontiers_are_last_sequences(records: Seq<EventRecord>, record: EventRecord)
    ensures
        frontier(records.push(record)) == record.sequence,
        frontier(seq![]) == 0,
{
}

/// What is retained is recorded by its sequences, in order.
pub proof fn retained_messages_are_recorded_by_sequence(entries: Seq<(u64, Message)>, index: int)
    requires
        0 <= index < entries.len(),
    ensures
        entry_sequences(entries).len() == entries.len(),
        entry_sequences(entries)[index] == entries[index].0,
{
}

/// A launch that joins others comes last, unless it is there already.
pub proof fn new_launches_come_last(launches: Seq<LaunchView>, active: Seq<LaunchView>, launch: LaunchView)
    ensures
        merged(launches, seq![]) == launches,
        merged(launches, active.push(launch)) == if launches.contains(launch) || active.contains(launch) {
            merged(launches, active)
        } else {
            merged(launches, active).push(launch)
        },
{
    assert(active.push(launch).drop_last() =~= active);
    joined_launches_keep_their_places(launches, active, launch);
}

/// Jobs are carried over in the order in which they were chosen. A job that was chosen
/// before, or whose output is in the retained messages, adds nothing, and none is carried
/// over behind one that the journal does not know.
pub proof fn jobs_are_carried_over_in_order(
    chosen: Seq<JobId>,
    job: JobId,
    included: Set<JobId>,
    records: Seq<EventRecord>,
)
    ensures
        handover(seq![], included, records) == (Seq::<(JobId, JsonView)>::empty(), None::<JobId>),
        ({
            let (before, unknown) = handover(chosen, included, records);
            let (after, stopped) = handover(chosen.push(job), included, records);
            &&& unknown is Some ==> after == before && stopped == unknown
            &&& unknown is None && (chosen.contains(job) || included.contains(job) && job_arguments(records, job) is Some)
                ==> after == before && stopped is None
            &&& unknown is None && !chosen.contains(job) && job_arguments(records, job) is None ==> after == before
                && stopped == Some(job)
            &&& unknown is None && !chosen.contains(job) && !included.contains(job) && job_arguments(records, job) is Some
                ==> after == before.push((job, job_arguments(records, job)->0)) && stopped is None
        }),
{
    assert(chosen.push(job).drop_last() =~= chosen);
}

/// Retained messages carry a job's output where one of them does.
pub proof fn every_retained_message_is_looked_at(entries: Seq<(u64, Message)>, entry: (u64, Message), number: u64)
    ensures
        !sources_carry(seq![], number),
        sources_carry(entries.push(entry), number) <==> sources_carry(entries, number) || retention::message_carries(
            entry.1,
            number,
        ),
{
    let more = entries.push(entry);
    if sources_carry(entries, number) {
        let i = choose|i: int| 0 <= i < entries.len() && retention::message_carries((#[trigger] entries[i]).1, number);
        assert(more[i] == entries[i]);
    }
    assert(more[entries.len() as int] == entry);
    if sources_carry(more, number) {
        let i = choose|i: int| 0 <= i < more.len() && retention::message_carries((#[trigger] more[i]).1, number);
        if i < entries.len() {
            assert(entries[i] == more[i]);
        }
    }
}

/// A context is found by its sequence among the agent's own, and a block is a message of
/// the user by itself.
pub proof fn contexts_are_the_agents_own(record: EventRecord, context: u64, agent: AgentPath, block: UserContentView)
    ensures
        is_context(record, context, agent) <==> record.sequence == context && record.agent@ == agent && (
        record.event matches SessionEvent::ModelContext { .. }),
        single_block(block) == MessageView::User(seq![block]),
{
}

} // verus!
