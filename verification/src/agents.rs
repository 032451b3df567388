//! The agents of a session: how they are launched, numbered and interrupted, and what
//! their tool calls come to.

use vstd::prelude::*;
use vstd::string::*;
use crate::context;
use crate::context::HistoryView;
use crate::error::HarnessError;
use crate::identity::{AgentId, AgentPath, JobId, SessionId};
use crate::journal::{EventRecord, SessionEvent};
use crate::job;
use crate::job::JobState;
use crate::json;
use crate::json::{omit_null_fields, Json, JsonView};
use crate::model;
use crate::model::Modeled;
use crate::observation;
use crate::observation::{AgentActivity, ContextUsage, RuntimeEvents, SnapshotView};
use crate::interaction::RuntimeEvent;
use crate::prompt::{ExecutionLocation, ROOT_TARGET};
use crate::protocol::{
    ImageReference, ModelProfile, ModelRequest, ModelRequestView, SystemSegment, ToolCall, ToolDefinition, ToolResult,
    Usage,
};
use crate::table::{Key, Table};
use crate::todo::TodoItem;

verus! {

/// Whether an agent hears of a completion. `pending` tells whether something waits for
/// the agent, which counts where it is not known whose job completed.
pub fn notifies(completed: &Option<AgentId>, agent: &AgentId, pending: bool) -> (answer: bool)
    ensures
        answer == match completed {
            Some(id) => id@ == agent@,
            None => pending,
        },
{
    match completed {
        Some(id) => id.same_key(agent),
        None => pending,
    }
}

/// Refuses an agent that is nested too deep, or whose children could be.
pub fn admit_depth(depth: usize, available_depth: usize, max_child_depth: usize) -> (admitted: Result<
    (),
    HarnessError,
>)
    ensures
        admitted is Ok <==> depth + available_depth <= max_child_depth,
        admitted matches Err(error) ==> error is ChildDepth,
{
    if depth > max_child_depth {
        return Err(HarnessError::ChildDepth);
    }
    if available_depth > max_child_depth - depth {
        return Err(HarnessError::ChildDepth);
    }
    Ok(())
}

/// Refuses to register an agent with a session that is shutting down.
pub fn admit_registration(shutting_down: bool) -> (admitted: Result<(), HarnessError>)
    ensures
        shutting_down ==> (admitted matches Err(error) && error is Interrupted),
        !shutting_down ==> admitted is Ok,
{
    if shutting_down {
        Err(HarnessError::Interrupted)
    } else {
        Ok(())
    }
}

/// What an agent is launched with.
#[derive(Clone, Debug)]
pub struct AgentLaunch {
    pub id: AgentId,
    pub owner_job: Option<JobId>,
    pub model_profile: String,
    /// The todos that a parent gives its child.
    pub todos: Option<Vec<TodoItem>>,
    pub available_depth: usize,
    pub location: ExecutionLocation,
}

/// What a session's root agent is launched with. Without a selection it uses the default
/// model profile.
pub fn root_launch(
    session: SessionId,
    selection: Option<String>,
    default_model_profile: &String,
    max_child_depth: usize,
    workspace: String,
) -> (launch: AgentLaunch)
    ensures
        launch.id@ == (AgentPath { session, path: seq![] }),
        launch.owner_job is None,
        launch.model_profile@ == match selection {
            Some(name) => name@,
            None => default_model_profile@,
        },
        launch.todos is None,
        launch.available_depth == max_child_depth,
        launch.location.target@ == ROOT_TARGET@,
        launch.location.workspace == workspace,
{
    let model_profile = match selection {
        Some(name) => name,
        None => default_model_profile.clone(),
    };
    AgentLaunch {
        id: AgentId::root(session),
        owner_job: None,
        model_profile,
        todos: None,
        available_depth: max_child_depth,
        location: ExecutionLocation::root(workspace),
    }
}

/// What is recorded of an agent's start.
pub fn started_event(launch: &AgentLaunch, max_context: u64) -> (event: SessionEvent)
    ensures
        event matches SessionEvent::AgentStarted {
            parent,
            owner_job,
            model_profile,
            max_context: capacity,
            location,
        } && {
            &&& match parent {
                Some(id) => launch.id@.parent() == Some(id@),
                None => launch.id@.parent() is None,
            }
            &&& owner_job == launch.owner_job
            &&& model_profile@ == launch.model_profile@
            &&& capacity == Some(max_context)
            &&& location.target@ == launch.location.target@
            &&& location.workspace@ == launch.location.workspace@
        },
{
    SessionEvent::AgentStarted {
        parent: launch.id.parent(),
        owner_job: launch.owner_job,
        model_profile: launch.model_profile.clone(),
        max_context: Some(max_context),
        location: ExecutionLocation {
            target: launch.location.target.clone(),
            workspace: launch.location.workspace.clone(),
        },
    }
}

/// What every request of an agent has in common.
pub fn request_template(
    profile: &ModelProfile,
    system: Vec<SystemSegment>,
    tools: Vec<ToolDefinition>,
    correlation: String,
) -> (template: ModelRequest)
    ensures
        template@ == (ModelRequestView {
            model: profile.model@,
            system: model::views(system@),
            messages: seq![],
            tools: model::views(tools@),
            response_schema: None,
            reasoning: model::text_view(profile.reasoning),
            max_output_tokens: Some(profile.max_output),
            correlation: Some(correlation@),
        }),
{
    let template = ModelRequest {
        model: profile.model.clone(),
        system,
        messages: Vec::new(),
        tools,
        response_schema: None,
        reasoning: model::duplicate_text(&profile.reasoning),
        max_output_tokens: Some(profile.max_output),
        correlation: Some(correlation),
    };
    assert(template@.messages =~= seq![]);
    template
}

/// What a tool puts out.
#[derive(Clone, Debug, PartialEq, Eq)]
pub struct ToolOutput {
    pub value: Json,
    pub console: String,
    pub images: Vec<ImageReference>,
}

/// Why an operation was not allowed.
#[derive(Clone, Debug, PartialEq, Eq)]
pub struct Denial {
    pub code: String,
    /// Whether any of it was done.
    pub executed: bool,
}

/// Why a tool call failed, with what it had put out by then.
#[derive(Clone, Debug, PartialEq, Eq)]
pub struct ToolFailure {
    pub message: String,
    pub denial: Option<Denial>,
    pub output: Option<ToolOutput>,
}

/// Whether a job's state is one that a model is to see as an error.
pub open spec fn is_error_state(state: Seq<char>) -> bool {
    state == "failed"@ || state == "cancelled"@ || state == "interrupted"@
}

/// Whether the output of a call is an error: the job that it shows has failed. Reading
/// a job's output is none, whatever became of that job.
pub open spec fn is_error_output(name: Seq<char>, value: JsonView) -> bool {
    &&& name != "job_output"@
    &&& value.member("state"@) matches Some(JsonView::Text(state)) && is_error_state(state)
}

/// What is shown of a failure: its message, what was denied, and what was put out.
pub open spec fn failure_json(failure: ToolFailure) -> JsonView {
    let message = seq![("error"@, JsonView::Text(failure.message@))];
    let denied = match failure.denial {
        Some(denial) => message + seq![
            ("code"@, JsonView::Text(denial.code@)),
            ("executed"@, JsonView::Bool(denial.executed)),
        ],
        None => message,
    };
    JsonView::Object(
        match failure.output {
            Some(output) => denied.push(("output"@, output.value@)),
            None => denied,
        },
    )
}

/// Shows a failure.
fn show_failure(failure: &ToolFailure) -> (shown: Json)
    ensures
        shown@ == failure_json(*failure),
{
    let mut members: Vec<(String, Json)> = Vec::new();
    members.push(("error".to_owned(), Json::Text(failure.message.clone())));
    proof {
        json::lemma_member_views(members@);
        assert(json::member_views(members@) =~= seq![("error"@, JsonView::Text(failure.message@))]);
    }
    if let Some(denial) = &failure.denial {
        members.push(("code".to_owned(), Json::Text(denial.code.clone())));
        members.push(("executed".to_owned(), Json::Bool(denial.executed)));
        proof {
            json::lemma_member_views(members@);
            assert(json::member_views(members@) =~= seq![("error"@, JsonView::Text(failure.message@))] + seq![
                ("code"@, JsonView::Text(denial.code@)),
                ("executed"@, JsonView::Bool(denial.executed)),
            ]);
        }
    }
    let ghost stem = json::member_views(members@);
    if let Some(output) = &failure.output {
        let ghost earlier = members@;
        let value = output.value.duplicate();
        let ghost content = value@;
        members.push(("output".to_owned(), value));
        proof {
            json::lemma_member_views(members@);
            json::lemma_member_views(earlier);
            assert(json::member_views(members@) =~= stem.push(("output"@, content)));
        }
    }
    Json::Object(members)
}

/// Shapes what a tool call comes to, as the model sees it and the journal keeps it:
/// without members that are null.
pub fn tool_result(call: &ToolCall, outcome: Result<ToolOutput, ToolFailure>) -> (result: ToolResult)
    ensures
        result.call_id@ == call.id@,
        result.name@ == call.name@,
        match outcome {
            Ok(output) => {
                &&& result.result@ == json::without_nulls(output.value@)
                &&& result.console_output == output.console
                &&& result.images == output.images
                &&& result.is_error == is_error_output(call.name@, output.value@)
            },
            Err(failure) => {
                &&& result.result@ == json::without_nulls(failure_json(failure))
                &&& result.is_error
                &&& match failure.output {
                    Some(output) => result.console_output == output.console && result.images == output.images,
                    None => result.console_output@ == Seq::<char>::empty() && result.images@ == Seq::<
                        ImageReference,
                    >::empty(),
                }
            },
        },
{
    match outcome {
        Ok(output) => {
            let failed = match output.value.member("state") {
                Some(Json::Text(state)) => *state == "failed".to_owned() || *state == "cancelled".to_owned()
                    || *state == "interrupted".to_owned(),
                _ => false,
            };
            let is_error = call.name != "job_output".to_owned() && failed;
            ToolResult {
                call_id: call.id.clone(),
                name: call.name.clone(),
                result: omit_null_fields(&output.value),
                console_output: output.console,
                images: output.images,
                is_error,
            }
        },
        Err(failure) => {
            let shown = show_failure(&failure);
            let (console, images) = match failure.output {
                Some(output) => (output.console, output.images),
                None => (String::new(), Vec::new()),
            };
            ToolResult {
                call_id: call.id.clone(),
                name: call.name.clone(),
                result: omit_null_fields(&shown),
                console_output: console,
                images,
                is_error: true,
            }
        },
    }
}

/// How many children an agent has had.
pub open spec fn child_count(counters: Map<AgentPath, u32>, parent: AgentPath) -> u32 {
    if counters.dom().contains(parent) {
        counters[parent]
    } else {
        0
    }
}

/// The number of an agent's next child. Numbers stop at the largest one.
pub open spec fn next_number(counters: Map<AgentPath, u32>, parent: AgentPath) -> u32 {
    let count = child_count(counters, parent);
    if count == u32::MAX {
        u32::MAX
    } else {
        (count + 1) as u32
    }
}

/// How many children agents have had, as the journal records it: for each agent the
/// largest number of a child.
pub open spec fn recorded_counters(records: Seq<EventRecord>) -> Map<AgentPath, u32>
    decreases records.len(),
{
    if records.len() == 0 {
        Map::empty()
    } else {
        let earlier = recorded_counters(records.drop_last());
        let record = records.last();
        match record.event {
            SessionEvent::AgentStarted { parent: Some(parent), .. } => if record.agent@.path.len() > 0 {
                let number = record.agent@.path.last();
                let count = child_count(earlier, parent@);
                earlier.insert(
                    parent@,
                    if number > count {
                        number
                    } else {
                        count
                    },
                )
            } else {
                earlier
            },
            _ => earlier,
        }
    }
}

/// Numbers the children of agents.
#[derive(Debug)]
pub struct ChildCounters {
    counters: Table<AgentId, u32>,
}

impl View for ChildCounters {
    type V = Map<AgentPath, u32>;

    closed spec fn view(&self) -> Map<AgentPath, u32> {
        self.counters@
    }
}

impl ChildCounters {
    /// Restores the counters from the journal.
    pub fn restore(records: &Vec<EventRecord>) -> (counters: ChildCounters)
        ensures
            counters@ == recorded_counters(records@),
    {
        let mut table: Table<AgentId, u32> = Table::new();
        let mut i: usize = 0;
        while i < records.len()
            invariant
                i <= records.len(),
                table@ == recorded_counters(records@.take(i as int)),
            decreases records.len() - i,
        {
            proof {
                assert(records@.take(i + 1).drop_last() =~= records@.take(i as int));
                assert(records@.take(i + 1).last() == records@[i as int]);
            }
            if let SessionEvent::AgentStarted { parent: Some(parent), .. } = &records[i].event {
                if let Some(number) = records[i].agent.last_segment() {
                    let count: u32 = match table.get(parent) {
                        Some(count) => *count,
                        None => 0,
                    };
                    table.insert(
                        parent.duplicate(),
                        if number > count {
                            number
                        } else {
                            count
                        },
                    );
                }
            }
            i += 1;
        }
        assert(records@.take(i as int) =~= records@);
        ChildCounters { counters: table }
    }

    /// Names the next child of an agent.
    pub fn next_child(&mut self, parent: &AgentId) -> (child: AgentId)
        ensures
            child@ == (AgentPath {
                session: parent@.session,
                path: parent@.path.push(next_number(old(self)@, parent@)),
            }),
            final(self)@ == old(self)@.insert(parent@, next_number(old(self)@, parent@)),
    {
        let count: u32 = match self.counters.get(parent) {
            Some(count) => *count,
            None => 0,
        };
        let number: u32 = count.saturating_add(1);
        self.counters.insert(parent.duplicate(), number);
        parent.child(number)
    }
}

/// Whether a record is the start of an agent's child.
pub open spec fn starts_child(record: EventRecord, parent: AgentPath) -> bool {
    &&& record.event matches SessionEvent::AgentStarted { parent: Some(owner), .. } && owner@ == parent
    &&& record.agent@.path.len() > 0
}

proof fn lemma_counted(records: Seq<EventRecord>, parent: AgentPath, index: int)
    requires
        0 <= index < records.len(),
        starts_child(records[index], parent),
    ensures
        child_count(recorded_counters(records), parent) >= records[index].agent@.path.last(),
    decreases records.len(),
{
    if index < records.len() - 1 {
        assert(records.drop_last()[index] == records[index]);
        lemma_counted(records.drop_last(), parent, index);
    }
}

/// A new child is never one that the journal knows, as long as numbers are left.
pub proof fn children_are_new(records: Seq<EventRecord>, parent: AgentPath, index: int)
    requires
        0 <= index < records.len(),
        starts_child(records[index], parent),
        child_count(recorded_counters(records), parent) < u32::MAX,
    ensures
        records[index].agent@ != (AgentPath {
            session: parent.session,
            path: parent.path.push(next_number(recorded_counters(records), parent)),
        }),
{
    lemma_counted(records, parent, index);
    let next = next_number(recorded_counters(records), parent);
    assert(parent.path.push(next).last() == next);
}

/// Two children of an agent never share a name, as long as numbers are left.
pub proof fn siblings_are_distinct(counters: Map<AgentPath, u32>, parent: AgentPath)
    requires
        child_count(counters, parent) < u32::MAX - 1,
    ensures
        next_number(counters.insert(parent, next_number(counters, parent)), parent) != next_number(counters, parent),
{
}

/// The tokens that all requests in the journal used.
pub open spec fn recorded_usage(records: Seq<EventRecord>) -> Usage
    decreases records.len(),
{
    if records.len() == 0 {
        Usage::none()
    } else {
        let earlier = recorded_usage(records.drop_last());
        match records.last().event {
            SessionEvent::Usage { usage, .. } => earlier.plus(usage),
            _ => earlier,
        }
    }
}

/// Adds up the tokens that all requests in the journal used.
pub fn total_usage(records: &Vec<EventRecord>) -> (total: Usage)
    ensures
        total == recorded_usage(records@),
{
    let mut total = Usage { input_tokens: 0, cached_input_tokens: 0, output_tokens: 0 };
    let mut i: usize = 0;
    while i < records.len()
        invariant
            i <= records.len(),
            total == recorded_usage(records@.take(i as int)),
        decreases records.len() - i,
    {
        proof {
            assert(records@.take(i + 1).drop_last() =~= records@.take(i as int));
            assert(records@.take(i + 1).last() == records@[i as int]);
        }
        if let SessionEvent::Usage { usage, .. } = &records[i].event {
            total.accumulate(*usage);
        }
        i += 1;
    }
    assert(records@.take(i as int) =~= records@);
    total
}

/// Finds the record of a session's start, with which a session can be built.
pub fn session_start(records: &Vec<EventRecord>) -> (start: Result<usize, HarnessError>)
    ensures
        match start {
            Ok(index) => model::first(records@, |record: EventRecord| record.event is SessionStarted) == Some(
                index as int,
            ),
            Err(error) => {
                &&& model::first(records@, |record: EventRecord| record.event is SessionStarted) is None
                &&& error matches HarnessError::Initialization(reason)
                &&& reason@ == "session start event is missing"@
            },
        },
{
    let ghost test = |record: EventRecord| record.event is SessionStarted;
    let mut i: usize = 0;
    while i < records.len()
        invariant
            i <= records.len(),
            test == (|record: EventRecord| record.event is SessionStarted),
            forall|k: int| 0 <= k < i ==> !test(#[trigger] records@[k]),
        decreases records.len() - i,
    {
        let started = matches!(&records[i].event, SessionEvent::SessionStarted);
        if started {
            proof {
                assert(test(records@[i as int]));
                model::lemma_first(records@, test, i as int);
            }
            return Ok(i);
        }
        i += 1;
    }
    proof {
        model::lemma_first(records@, test, i as int);
    }
    Err(HarnessError::Initialization("session start event is missing".to_owned()))
}

/// The last sequence of a journal.
pub open spec fn last_sequence(records: Seq<EventRecord>, otherwise: u64) -> u64 {
    if records.len() == 0 {
        otherwise
    } else {
        records.last().sequence
    }
}

/// The snapshot after records have been published, each unless it is known already.
pub open spec fn published(state: SnapshotView, records: Seq<EventRecord>) -> SnapshotView
    decreases records.len(),
{
    if records.len() == 0 {
        state
    } else {
        let earlier = published(state, records.drop_last());
        let event = RuntimeEvent::Record(Box::new(records.last()));
        if observation::repeats(earlier, event) {
            earlier
        } else {
            observation::reduced(
                SnapshotView { revision: (earlier.revision + 1) as u64, ..earlier },
                event,
            )
        }
    }
}

/// Publishes the part of the journal that the cursor has not passed. The cursor moves
/// only over what was published; what was published out of turn is not repeated.
/// Returns the revision of each record that was new.
pub fn catch_up(events: &mut RuntimeEvents, cursor: &mut u64, records: Vec<EventRecord>) -> (revisions: Vec<
    Option<u64>,
>)
    requires
        old(events)@.revision + records@.len() <= u64::MAX,
    ensures
        final(events)@ == published(old(events)@, records@),
        *final(cursor) == last_sequence(records@, *old(cursor)),
        revisions@.len() == records@.len(),
        forall|i: int|
            0 <= i < records@.len() ==> (#[trigger] revisions@[i]) == revision_of(old(events)@, records@, i),
{
    let ghost before = events@;
    let ghost start = *cursor;
    let mut revisions: Vec<Option<u64>> = Vec::new();
    for record in it: records
        invariant
            it.seq() == records@,
            before.revision + records@.len() <= u64::MAX,
            events@ == published(before, records@.take(it.index() as int)),
            events@.revision <= before.revision + it.index(),
            *cursor == last_sequence(records@.take(it.index() as int), start),
            revisions@.len() == it.index(),
            forall|i: int| 0 <= i < it.index() ==> (#[trigger] revisions@[i]) == revision_of(before, records@, i),
    {
        let ghost index = it.index() as int;
        proof {
            assert(records@.take(index + 1).drop_last() =~= records@.take(index));
            assert(records@.take(index + 1).last() == record);
            observation::reduction_keeps_revisions(
                SnapshotView { revision: (events@.revision + 1) as u64, ..events@ },
                RuntimeEvent::Record(Box::new(record)),
            );
        }
        let sequence: u64 = record.sequence;
        let revision: Option<u64> = events.send(RuntimeEvent::Record(Box::new(record)));
        revisions.push(revision);
        *cursor = sequence;
    }
    assert(records@.take(records@.len() as int) =~= records@);
    revisions
}

/// The revision under which a record is published, if it is.
pub open spec fn revision_of(state: SnapshotView, records: Seq<EventRecord>, index: int) -> Option<u64> {
    let earlier = published(state, records.take(index));
    if observation::repeats(earlier, RuntimeEvent::Record(Box::new(records[index]))) {
        None
    } else {
        Some((earlier.revision + 1) as u64)
    }
}

/// After a catch-up every record that it covers is in the snapshot, so that nothing up
/// to the cursor is missing.
pub proof fn catching_up_leaves_no_gap(state: SnapshotView, records: Seq<EventRecord>, index: int)
    requires
        0 <= index < records.len(),
    ensures
        published(state, records).records.dom().contains(records[index].sequence),
    decreases records.len(),
{
    let rest = records.drop_last();
    let earlier = published(state, rest);
    let event = RuntimeEvent::Record(Box::new(records.last()));
    if index < rest.len() {
        assert(rest[index] == records[index]);
        catching_up_leaves_no_gap(state, rest, index);
        observation::records_are_never_lost(
            SnapshotView { revision: (earlier.revision + 1) as u64, ..earlier },
            event,
            records[index].sequence,
        );
    }
}

/// Whether a record repeats the sequence of an earlier one, or has a greater one than all
/// of them.
pub open spec fn continues(records: Seq<EventRecord>, index: int) -> bool {
    ||| exists|j: int| 0 <= j < index && (#[trigger] records[j]).sequence == records[index].sequence
    ||| forall|j: int| 0 <= j < index ==> (#[trigger] records[j]).sequence < records[index].sequence
}

/// Whether records come in the order of their sequences, apart from repetitions.
pub open spec fn in_sequence(records: Seq<EventRecord>) -> bool {
    forall|i: int| 0 <= i < records.len() ==> #[trigger] continues(records, i)
}

/// Whether a journal lists the records of a snapshot in the order of their sequences.
pub open spec fn lists(journal: Seq<EventRecord>, records: Map<u64, EventRecord>) -> bool {
    &&& forall|i: int, j: int|
        0 <= i < j < journal.len() ==> (#[trigger] journal[i]).sequence < (#[trigger] journal[j]).sequence
    &&& forall|i: int|
        0 <= i < journal.len() ==> records.dom().contains((#[trigger] journal[i]).sequence)
            && records[journal[i].sequence] == journal[i]
    &&& forall|key: u64| #[trigger]
        records.dom().contains(key) ==> exists|i: int| 0 <= i < journal.len() && (#[trigger] journal[i]).sequence == key
}

/// Whether two snapshots have the same records, responses and activities.
pub open spec fn agree(left: SnapshotView, right: SnapshotView) -> bool {
    &&& left.records == right.records
    &&& left.responses == right.responses
    &&& left.activity == right.activity
}

proof fn lemma_records_agree(left: SnapshotView, right: SnapshotView, record: EventRecord)
    requires
        agree(left, right),
    ensures
        agree(observation::after_record(left, record), observation::after_record(right, record)),
{
}

proof fn lemma_records_keep_revisions(state: SnapshotView, records: Seq<EventRecord>)
    ensures
        observation::after_records(state, records).revision == state.revision,
    decreases records.len(),
{
    if records.len() > 0 {
        lemma_records_keep_revisions(state, records.drop_last());
    }
}

/// What has been published was sent.
proof fn lemma_published_was_sent(state: SnapshotView, sent: Seq<EventRecord>, key: u64)
    requires
        published(state, sent).records.dom().contains(key),
        !state.records.dom().contains(key),
    ensures
        exists|i: int| 0 <= i < sent.len() && (#[trigger] sent[i]).sequence == key,
    decreases sent.len(),
{
    if sent.len() > 0 {
        let rest = sent.drop_last();
        if sent.last().sequence == key {
            assert(sent[sent.len() - 1].sequence == key);
        } else {
            lemma_published_was_sent(state, rest, key);
            let i = choose|i: int| 0 <= i < rest.len() && (#[trigger] rest[i]).sequence == key;
            assert(sent[i].sequence == key);
        }
    }
}

proof fn lemma_journal_rebuilds(start: SnapshotView, sent: Seq<EventRecord>, journal: Seq<EventRecord>)
    requires
        agree(start, SnapshotView::empty()),
        in_sequence(sent),
        lists(journal, published(start, sent).records),
    ensures
        agree(published(start, sent), observation::after_records(SnapshotView::empty(), journal)),
    decreases sent.len(),
{
    let live = published(start, sent);
    if sent.len() == 0 {
        if journal.len() > 0 {
            assert(live.records.dom().contains(journal[0].sequence));
        }
    } else {
        let rest = sent.drop_last();
        let record = sent.last();
        let earlier = published(start, rest);
        let last = sent.len() - 1;
        assert forall|i: int| 0 <= i < rest.len() implies #[trigger] continues(rest, i) by {
            assert(continues(sent, i));
            if exists|j: int| 0 <= j < i && (#[trigger] sent[j]).sequence == sent[i].sequence {
                let j = choose|j: int| 0 <= j < i && (#[trigger] sent[j]).sequence == sent[i].sequence;
                assert(rest[j].sequence == rest[i].sequence);
            } else {
                assert forall|j: int| 0 <= j < i implies (#[trigger] rest[j]).sequence < rest[i].sequence by {
                    assert(sent[j].sequence < sent[i].sequence);
                }
            }
        }
        if earlier.records.dom().contains(record.sequence) {
            lemma_journal_rebuilds(start, rest, journal);
        } else {
            assert(continues(sent, last));
            if exists|j: int| 0 <= j < last && (#[trigger] sent[j]).sequence == sent[last].sequence {
                let j = choose|j: int| 0 <= j < last && (#[trigger] sent[j]).sequence == sent[last].sequence;
                assert(rest[j].sequence == record.sequence);
                catching_up_leaves_no_gap(start, rest, j);
            }
            assert forall|key: u64| #[trigger] earlier.records.dom().contains(key) implies key < record.sequence by {
                lemma_published_was_sent(start, rest, key);
                let i = choose|i: int| 0 <= i < rest.len() && (#[trigger] rest[i]).sequence == key;
                assert(sent[i].sequence < sent[last].sequence);
            }
            assert(live.records =~= earlier.records.insert(record.sequence, record));
            let shorter = journal.drop_last();
            assert(live.records.dom().contains(record.sequence));
            let position = choose|i: int|
                0 <= i < journal.len() && (#[trigger] journal[i]).sequence == record.sequence;
            let end = journal.len() - 1;
            assert(position == end) by {
                if position < end {
                    assert(journal[position].sequence < journal[end].sequence);
                    assert(live.records.dom().contains(journal[end].sequence));
                }
            }
            assert(journal.last() == record);
            assert forall|i: int| 0 <= i < shorter.len() implies earlier.records.dom().contains(
                (#[trigger] shorter[i]).sequence,
            ) && earlier.records[shorter[i].sequence] == shorter[i] by {
                assert(shorter[i] == journal[i]);
                assert(journal[i].sequence < journal[end].sequence);
            }
            assert forall|i: int, j: int| 0 <= i < j < shorter.len() implies (#[trigger] shorter[i]).sequence < (
            #[trigger] shorter[j]).sequence by {
                assert(journal[i].sequence < journal[j].sequence);
            }
            assert forall|key: u64| #[trigger] earlier.records.dom().contains(key) implies exists|i: int|
                0 <= i < shorter.len() && (#[trigger] shorter[i]).sequence == key by {
                assert(live.records.dom().contains(key));
                let i = choose|i: int| 0 <= i < journal.len() && (#[trigger] journal[i]).sequence == key;
                assert(shorter[i].sequence == key);
            }
            lemma_journal_rebuilds(start, rest, shorter);
            lemma_records_agree(
                SnapshotView { revision: (earlier.revision + 1) as u64, ..earlier },
                observation::after_records(SnapshotView::empty(), shorter),
                record,
            );
        }
    }
}

/// A journal rebuilds the live snapshot: a hub that began with an empty journal and was
/// sent records in the order of their sequences, however often each, has the same
/// records, responses and activities as one that is restored from those records. The
/// restored one counts its revisions anew, and has the context occupancy that the records
/// give.
pub proof fn journals_rebuild_snapshots(
    occupancy: Map<AgentPath, ContextUsage>,
    sent: Seq<EventRecord>,
    journal: Seq<EventRecord>,
    rebuilt: Seq<(u64, ModelRequest)>,
    histories: Map<AgentPath, HistoryView>,
)
    requires
        in_sequence(sent),
        lists(journal, published(SnapshotView { context: occupancy, ..SnapshotView::empty() }, sent).records),
    ensures
        ({
            let live = published(SnapshotView { context: occupancy, ..SnapshotView::empty() }, sent);
            let again = observation::restored(journal, rebuilt, histories);
            &&& again.records == live.records
            &&& again.responses == live.responses
            &&& again.activity == live.activity
            &&& again.revision == 0
            &&& again.context == context::recorded_contexts(journal, rebuilt, histories)
        }),
{
    lemma_journal_rebuilds(SnapshotView { context: occupancy, ..SnapshotView::empty() }, sent, journal);
    lemma_records_keep_revisions(SnapshotView::empty(), journal);
}

/// Whether an interrupt reaches an agent. One that is idle, or has failed or been
/// interrupted, has nothing to interrupt. One that waits for tools or children keeps
/// waiting, as long as any of its jobs runs.
pub open spec fn is_interrupted(activity: Option<AgentActivity>, has_running: bool) -> bool {
    match activity {
        None => false,
        Some(AgentActivity::Idle) => false,
        Some(AgentActivity::Failed(_)) => false,
        Some(AgentActivity::Interrupted) => false,
        Some(AgentActivity::Tools) => !has_running,
        Some(AgentActivity::WaitingChildren) => !has_running,
        _ => true,
    }
}

/// Decides whether an interrupt reaches an agent.
pub fn interrupts_turn(activity: &Option<AgentActivity>, has_running: bool) -> (answer: bool)
    ensures
        answer == is_interrupted(*activity, has_running),
{
    match activity {
        None => false,
        Some(AgentActivity::Idle) => false,
        Some(AgentActivity::Failed(_)) => false,
        Some(AgentActivity::Interrupted) => false,
        Some(AgentActivity::Tools) => !has_running,
        Some(AgentActivity::WaitingChildren) => !has_running,
        _ => true,
    }
}

/// The agents of a tree, by their positions.
pub open spec fn tree_members(agents: Seq<AgentPath>, root: AgentPath) -> Seq<usize>
    decreases agents.len(),
{
    if agents.len() == 0 {
        seq![]
    } else {
        let earlier = tree_members(agents.drop_last(), root);
        if agents.last().within(root) {
            earlier.push((agents.len() - 1) as usize)
        } else {
            earlier
        }
    }
}

/// Selects the agents of a tree.
pub fn select_tree(agents: &Vec<AgentId>, root: &AgentId) -> (members: Vec<usize>)
    ensures
        members@ == tree_members(model::views(agents@), root@),
{
    let ghost all = model::views(agents@);
    let mut members: Vec<usize> = Vec::new();
    let mut i: usize = 0;
    while i < agents.len()
        invariant
            i <= agents.len(),
            all == model::views(agents@),
            members@ == tree_members(all.take(i as int), root@),
        decreases agents.len() - i,
    {
        proof {
            assert(all.take(i + 1).drop_last() =~= all.take(i as int));
            assert(all.take(i + 1).last() == agents@[i as int]@);
        }
        if agents[i].is_within(root) {
            members.push(i);
        }
        i += 1;
    }
    assert(all.take(i as int) =~= all);
    members
}

/// What a tool puts out is an error where it shows a job that failed, was cancelled or was
/// interrupted, and the output of no such job was asked for.
pub proof fn ended_jobs_are_errors(name: Seq<char>, value: JsonView, state: JobState)
    requires
        value.member("state"@) == Some(JsonView::Text(state.spec_name())),
    ensures
        is_error_output(name, value) <==> name != "job_output"@ && (state == JobState::Failed || state
            == JobState::Cancelled || state == JobState::Interrupted),
{
    job::state_names_are_distinct(state, JobState::Failed);
    job::state_names_are_distinct(state, JobState::Cancelled);
    job::state_names_are_distinct(state, JobState::Interrupted);
}

/// What shows no state of a job is no error.
pub proof fn other_outputs_are_no_errors(name: Seq<char>, value: JsonView)
    requires
        !(value.member("state"@) matches Some(JsonView::Text(_))),
    ensures
        !is_error_output(name, value),
{
}

proof fn lemma_failure_keys()
    ensures
        "error"@ != "code"@,
        "error"@ != "executed"@,
        "error"@ != "output"@,
        "code"@ != "executed"@,
        "code"@ != "output"@,
        "executed"@ != "output"@,
{
    reveal_strlit("error");
    reveal_strlit("code");
    reveal_strlit("executed");
    reveal_strlit("output");
    assert("error"@.len() == 5 && "code"@.len() == 4 && "executed"@.len() == 8 && "output"@.len() == 6);
}

/// A failure shows its message, what was denied and whether any of it was done, and what
/// had been put out by then, each under its key and only where there is any.
pub proof fn failures_show_what_is_known(failure: ToolFailure)
    ensures
        ({
            let shown = failure_json(failure);
            &&& shown.member("error"@) == Some(JsonView::Text(failure.message@))
            &&& shown.member("code"@) == match failure.denial {
                Some(denial) => Some(JsonView::Text(denial.code@)),
                None => None,
            }
            &&& shown.member("executed"@) == match failure.denial {
                Some(denial) => Some(JsonView::Bool(denial.executed)),
                None => None,
            }
            &&& shown.member("output"@) == match failure.output {
                Some(output) => Some(output.value@),
                None => None,
            }
        }),
{
    lemma_failure_keys();
    let message = ("error"@, JsonView::Text(failure.message@));
    let members = failure_json(failure)->Object_0;
    let denied = match failure.denial {
        Some(denial) => seq![
            message,
            ("code"@, JsonView::Text(denial.code@)),
            ("executed"@, JsonView::Bool(denial.executed)),
        ],
        None => seq![message],
    };
    let all = match failure.output {
        Some(output) => denied.push(("output"@, output.value@)),
        None => denied,
    };
    assert(members =~= all);
    json::members_are_found_by_key(all, "error"@, 0);
    json::members_are_found_by_key(all, "code"@, 1);
    json::members_are_found_by_key(all, "executed"@, 2);
    json::members_are_found_by_key(all, "output"@, denied.len() as int);
}

/// The number that an agent's children are counted by is the largest one that a child of it
/// has had, and there is one only where it has had a child.
pub proof fn counters_are_the_largest_numbers(records: Seq<EventRecord>, parent: AgentPath)
    ensures
        recorded_counters(records).dom().contains(parent) <==> exists|i: int|
            0 <= i < records.len() && starts_child(#[trigger] records[i], parent),
        forall|i: int|
            0 <= i < records.len() && starts_child(#[trigger] records[i], parent) ==> records[i].agent@.path.last()
                <= child_count(recorded_counters(records), parent),
        child_count(recorded_counters(records), parent) > 0 ==> exists|i: int|
            0 <= i < records.len() && starts_child(#[trigger] records[i], parent) && records[i].agent@.path.last()
                == child_count(recorded_counters(records), parent),
    decreases records.len(),
{
    if records.len() > 0 {
        let rest = records.drop_last();
        let last = records.len() - 1;
        counters_are_the_largest_numbers(rest, parent);
        assert forall|i: int| 0 <= i < rest.len() implies #[trigger] rest[i] == records[i] by {}
        assert(records[last] == records.last());
        let before = recorded_counters(rest);
        let after = recorded_counters(records);
        if starts_child(records[last], parent) {
            assert(after.dom().contains(parent));
        } else {
            assert(after.dom().contains(parent) == before.dom().contains(parent));
            assert(child_count(after, parent) == child_count(before, parent));
        }
        if before.dom().contains(parent) {
            let i = choose|i: int| 0 <= i < rest.len() && starts_child(#[trigger] rest[i], parent);
            assert(starts_child(records[i], parent));
        }
        if child_count(before, parent) > 0 {
            let i = choose|i: int|
                0 <= i < rest.len() && starts_child(#[trigger] rest[i], parent) && rest[i].agent@.path.last()
                    == child_count(before, parent);
            assert(starts_child(records[i], parent));
        }
        assert forall|i: int| 0 <= i < records.len() && starts_child(#[trigger] records[i], parent) implies records[i].agent@.path.last()
            <= child_count(after, parent) by {
            if i < last {
                assert(starts_child(rest[i], parent));
            }
        }
        if exists|i: int| 0 <= i < records.len() && starts_child(#[trigger] records[i], parent) {
            let i = choose|i: int| 0 <= i < records.len() && starts_child(#[trigger] records[i], parent);
            if i < last {
                assert(starts_child(rest[i], parent));
            }
        }
    }
}

/// The number of a new child follows those of all children before it.
pub proof fn children_are_numbered_in_turn(counters: Map<AgentPath, u32>, parent: AgentPath, other: AgentPath)
    requires
        child_count(counters, parent) < u32::MAX,
    ensures
        !counters.dom().contains(parent) ==> next_number(counters, parent) == 1,
        next_number(counters, parent) == child_count(counters, parent) + 1,
        ({
            let after = counters.insert(parent, next_number(counters, parent));
            &&& child_count(after, parent) == child_count(counters, parent) + 1
            &&& other != parent ==> child_count(after, other) == child_count(counters, other)
        }),
{
}

/// What a journal's requests used adds up, counter by counter, whichever agent made them.
/// Nothing but usage counts.
pub proof fn usage_adds_up(records: Seq<EventRecord>, record: EventRecord)
    ensures
        recorded_usage(seq![]) == (Usage { input_tokens: 0, cached_input_tokens: 0, output_tokens: 0 }),
        ({
            let before = recorded_usage(records);
            let after = recorded_usage(records.push(record));
            match record.event {
                SessionEvent::Usage { usage, .. } => {
                    &&& before.input_tokens + usage.input_tokens <= u64::MAX ==> after.input_tokens
                        == before.input_tokens + usage.input_tokens
                    &&& before.cached_input_tokens + usage.cached_input_tokens <= u64::MAX
                        ==> after.cached_input_tokens == before.cached_input_tokens + usage.cached_input_tokens
                    &&& before.output_tokens + usage.output_tokens <= u64::MAX ==> after.output_tokens
                        == before.output_tokens + usage.output_tokens
                    &&& before.input_tokens + usage.input_tokens > u64::MAX ==> after.input_tokens == u64::MAX
                    &&& before.cached_input_tokens + usage.cached_input_tokens > u64::MAX
                        ==> after.cached_input_tokens == u64::MAX
                    &&& before.output_tokens + usage.output_tokens > u64::MAX ==> after.output_tokens == u64::MAX
                },
                _ => after == before,
            }
        }),
{
    assert(records.push(record).drop_last() =~= records);
}

/// A record that is new takes the next revision and is kept; one that is known changes
/// nothing.
pub proof fn only_new_records_are_published(state: SnapshotView, records: Seq<EventRecord>, record: EventRecord)
    requires
        state.revision + records.len() < u64::MAX,
    ensures
        ({
            let before = published(state, records);
            let after = published(state, records.push(record));
            let revision = revision_of(state, records.push(record), records.len() as int);
            if before.records.dom().contains(record.sequence) {
                after == before && revision is None
            } else {
                &&& after.revision == before.revision + 1
                &&& revision == Some(after.revision)
                &&& after.records == before.records.insert(record.sequence, record)
            }
        }),
{
    assert(records.push(record).drop_last() =~= records);
    assert(records.push(record).take(records.len() as int) =~= records);
    lemma_revisions_are_bounded(state, records);
    observation::the_journal_holds_what_was_recorded(
        SnapshotView { revision: (published(state, records).revision + 1) as u64, ..published(state, records) },
        RuntimeEvent::Record(Box::new(record)),
    );
}

proof fn lemma_revisions_are_bounded(state: SnapshotView, records: Seq<EventRecord>)
    requires
        state.revision + records.len() <= u64::MAX,
    ensures
        published(state, records).revision <= state.revision + records.len(),
    decreases records.len(),
{
    if records.len() > 0 {
        lemma_revisions_are_bounded(state, records.drop_last());
    }
}

/// An interrupt reaches an agent that works, and one that waits only where none of its jobs
/// runs any more. One that has nothing to do, or is not known, it does not reach.
pub proof fn interrupts_reach_those_who_work(activity: AgentActivity, has_running: bool)
    ensures
        !is_interrupted(None, has_running),
        activity is Working || activity is Reconnecting || activity is Compacting ==> is_interrupted(
            Some(activity),
            has_running,
        ),
        activity is Tools || activity is WaitingChildren ==> (is_interrupted(Some(activity), has_running)
            <==> !has_running),
        activity is Idle || activity is Interrupted || activity is Failed ==> !is_interrupted(
            Some(activity),
            has_running,
        ),
{
}

/// A tree has its root and all its descendants, each once and in the order of the list, and
/// no other agent.
pub proof fn trees_have_all_descendants(agents: Seq<AgentPath>, root: AgentPath, index: usize)
    requires
        agents.len() <= usize::MAX,
    ensures
        tree_members(agents, root).contains(index) <==> index < agents.len() && agents[index as int].within(root),
        forall|i: int, j: int|
            0 <= i < j < tree_members(agents, root).len() ==> (#[trigger] tree_members(agents, root)[i]) < (
            #[trigger] tree_members(agents, root)[j]),
        forall|i: int|
            0 <= i < tree_members(agents, root).len() ==> (#[trigger] tree_members(agents, root)[i]) < agents.len(),
    decreases agents.len(),
{
    if agents.len() > 0 {
        let rest = agents.drop_last();
        let last = agents.len() - 1;
        trees_have_all_descendants(rest, root, index);
        let earlier = tree_members(rest, root);
        let all = tree_members(agents, root);
        assert forall|k: int| 0 <= k < rest.len() implies #[trigger] rest[k] == agents[k] by {}
        if agents.last().within(root) {
            assert(all =~= earlier.push(last as usize));
            assert(all[earlier.len() as int] == last as usize);
            if earlier.contains(index) {
                let k = choose|k: int| 0 <= k < earlier.len() && earlier[k] == index;
                assert(all[k] == index);
            }
            if all.contains(index) && index != last {
                let k = choose|k: int| 0 <= k < all.len() && all[k] == index;
                assert(earlier[k] == index);
            }
        }
    } else {
        assert(!tree_members(agents, root).contains(index));
    }
}

/// The cursor moves to the last record that was published, and stays where there was none.
pub proof fn cursors_follow_what_was_published(records: Seq<EventRecord>, record: EventRecord, cursor: u64)
    ensures
        last_sequence(seq![], cursor) == cursor,
        last_sequence(records.push(record), cursor) == record.sequence,
{
}

} // verus!
