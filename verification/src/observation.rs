//! Host-only observation. A snapshot and the updates that follow it share one
//! revision boundary.

use std::collections::BTreeMap;
use vstd::prelude::*;
use crate::context;
use crate::context::{recorded_context, History, HistoryView};
use crate::identity::{AgentId, AgentPath};
use crate::interaction::RuntimeEvent;
use crate::journal::{EventRecord, ModelPurpose, SessionEvent};
use crate::model;
use crate::model::{duplicate_text, same_number, same_text, Modeled};
use crate::protocol::ModelRequest;
use crate::response;
use crate::response::{ItemSnapshotView, ResponseAssembler, ResponseEvent, ResponseSnapshot};
use crate::table;
use crate::table::{Key, Table};

verus! {

broadcast use vstd::std_specs::btree::group_btree_axioms;

/// What an agent is doing.
#[derive(Clone, Debug, PartialEq, Eq)]
pub enum AgentActivity {
    Idle,
    Working,
    Reconnecting { attempt: u64, max_attempts: Option<u64> },
    Tools,
    WaitingChildren,
    Compacting,
    Interrupted,
    Failed(String),
}

/// The mathematical content of an `AgentActivity`.
#[verifier::ext_equal]
pub enum AgentActivityView {
    Idle,
    Working,
    Reconnecting { attempt: u64, max_attempts: Option<u64> },
    Tools,
    WaitingChildren,
    Compacting,
    Interrupted,
    Failed(Seq<char>),
}

impl View for AgentActivity {
    type V = AgentActivityView;

    open spec fn view(&self) -> AgentActivityView {
        match *self {
            AgentActivity::Idle => AgentActivityView::Idle,
            AgentActivity::Working => AgentActivityView::Working,
            AgentActivity::Reconnecting { attempt, max_attempts } => AgentActivityView::Reconnecting {
                attempt,
                max_attempts,
            },
            AgentActivity::Tools => AgentActivityView::Tools,
            AgentActivity::WaitingChildren => AgentActivityView::WaitingChildren,
            AgentActivity::Compacting => AgentActivityView::Compacting,
            AgentActivity::Interrupted => AgentActivityView::Interrupted,
            AgentActivity::Failed(error) => AgentActivityView::Failed(error@),
        }
    }
}

impl Modeled for AgentActivity {
    open spec fn alike(left: AgentActivityView, right: AgentActivityView) -> bool {
        left == right
    }

    fn duplicate(&self) -> (copy: Self) {
        match self {
            AgentActivity::Idle => AgentActivity::Idle,
            AgentActivity::Working => AgentActivity::Working,
            AgentActivity::Reconnecting { attempt, max_attempts } => AgentActivity::Reconnecting {
                attempt: *attempt,
                max_attempts: *max_attempts,
            },
            AgentActivity::Tools => AgentActivity::Tools,
            AgentActivity::WaitingChildren => AgentActivity::WaitingChildren,
            AgentActivity::Compacting => AgentActivity::Compacting,
            AgentActivity::Interrupted => AgentActivity::Interrupted,
            AgentActivity::Failed(error) => AgentActivity::Failed(error.clone()),
        }
    }

    fn same(&self, other: &Self) -> (equal: bool) {
        match (self, other) {
            (AgentActivity::Idle, AgentActivity::Idle) => true,
            (AgentActivity::Working, AgentActivity::Working) => true,
            (
                AgentActivity::Reconnecting { attempt: a, max_attempts: b },
                AgentActivity::Reconnecting { attempt: c, max_attempts: d },
            ) => *a == *c && same_number(*b, *d),
            (AgentActivity::Tools, AgentActivity::Tools) => true,
            (AgentActivity::WaitingChildren, AgentActivity::WaitingChildren) => true,
            (AgentActivity::Compacting, AgentActivity::Compacting) => true,
            (AgentActivity::Interrupted, AgentActivity::Interrupted) => true,
            (AgentActivity::Failed(a), AgentActivity::Failed(b)) => *a == *b,
            _ => false,
        }
    }
}

/// How full an agent's context window is.
#[derive(Clone, Copy, Debug, PartialEq, Eq, Structural)]
pub struct ContextUsage {
    pub tokens: u64,
    pub capacity: u64,
}

impl View for ContextUsage {
    type V = ContextUsage;

    open spec fn view(&self) -> ContextUsage {
        *self
    }
}

impl Modeled for ContextUsage {
    open spec fn alike(left: ContextUsage, right: ContextUsage) -> bool {
        left == right
    }

    fn duplicate(&self) -> (copy: Self) {
        *self
    }

    fn same(&self, other: &Self) -> (equal: bool) {
        *self == *other
    }
}

/// A response that is being streamed or has not been replaced by its message yet.
#[derive(Debug, PartialEq, Eq)]
pub struct LiveResponse {
    /// The sole source of truth for provider-native response state.
    assembler: ResponseAssembler,
    /// Journal sequence of the message that the response is committed as.
    pub message: Option<u64>,
    pub settled: bool,
    pub error: Option<String>,
}

/// The mathematical content of a `LiveResponse`.
#[verifier::ext_equal]
pub struct LiveResponseView {
    pub items: Seq<ItemSnapshotView>,
    pub message: Option<u64>,
    pub settled: bool,
    pub error: Option<Seq<char>>,
}

impl View for LiveResponse {
    type V = LiveResponseView;

    closed spec fn view(&self) -> LiveResponseView {
        LiveResponseView {
            items: self.assembler@,
            message: self.message,
            settled: self.settled,
            error: model::text_view(self.error),
        }
    }
}

impl Modeled for LiveResponse {
    open spec fn alike(left: LiveResponseView, right: LiveResponseView) -> bool {
        &&& ResponseAssembler::alike(left.items, right.items)
        &&& left.message == right.message
        &&& left.settled == right.settled
        &&& left.error == right.error
    }

    fn duplicate(&self) -> (copy: Self) {
        LiveResponse {
            assembler: self.assembler.duplicate(),
            message: self.message,
            settled: self.settled,
            error: duplicate_text(&self.error),
        }
    }

    fn same(&self, other: &Self) -> (equal: bool) {
        self.assembler.same(&other.assembler) && same_number(self.message, other.message) && self.settled
            == other.settled && same_text(&self.error, &other.error)
    }
}

impl LiveResponseView {
    /// A response of which nothing is known.
    pub open spec fn fresh() -> LiveResponseView {
        LiveResponseView { items: seq![], message: None, settled: false, error: None }
    }
}

impl Default for LiveResponse {
    fn default() -> (response: LiveResponse)
        ensures
            response@ == LiveResponseView::fresh(),
    {
        LiveResponse { assembler: ResponseAssembler::new(), message: None, settled: false, error: None }
    }
}

impl LiveResponse {
    /// The response as far as it has been received.
    pub fn snapshot(&self) -> (snapshot: ResponseSnapshot)
        ensures
            model::views(snapshot.items@) == self@.items,
    {
        self.assembler.snapshot()
    }
}

/// Names a response: the agent that gets it, and the request that it answers.
#[derive(Debug, PartialEq, Eq)]
pub struct ResponseKey {
    pub agent: AgentId,
    pub request: u64,
}

impl View for ResponseKey {
    type V = (AgentPath, u64);

    open spec fn view(&self) -> (AgentPath, u64) {
        (self.agent@, self.request)
    }
}

impl Modeled for ResponseKey {
    open spec fn alike(left: (AgentPath, u64), right: (AgentPath, u64)) -> bool {
        left == right
    }

    fn duplicate(&self) -> (copy: Self) {
        ResponseKey { agent: self.agent.duplicate(), request: self.request }
    }

    fn same(&self, other: &Self) -> (equal: bool) {
        self.request == other.request && self.agent.same(&other.agent)
    }
}

impl Key for ResponseKey {
    fn same_key(&self, other: &Self) -> (equal: bool) {
        self.same(other)
    }
}

impl Key for AgentId {
    fn same_key(&self, other: &Self) -> (equal: bool) {
        self.same(other)
    }
}

/// Everything that a host can see of a session.
#[derive(Clone, Debug)]
pub struct ObservationSnapshot {
    pub revision: u64,
    pub records: BTreeMap<u64, EventRecord>,
    pub responses: Table<ResponseKey, LiveResponse>,
    pub activity: Table<AgentId, AgentActivity>,
    pub context: Table<AgentId, ContextUsage>,
}

/// The mathematical content of an `ObservationSnapshot`.
#[verifier::ext_equal]
pub struct SnapshotView {
    pub revision: u64,
    pub records: Map<u64, EventRecord>,
    pub responses: Map<(AgentPath, u64), LiveResponseView>,
    pub activity: Map<AgentPath, AgentActivityView>,
    pub context: Map<AgentPath, ContextUsage>,
}

impl View for ObservationSnapshot {
    type V = SnapshotView;

    open spec fn view(&self) -> SnapshotView {
        SnapshotView {
            revision: self.revision,
            records: self.records@,
            responses: self.responses@,
            activity: self.activity@,
            context: self.context@,
        }
    }
}

/// An event with the revision that it leads to.
#[derive(Clone, Debug)]
pub struct ObservedEvent {
    pub revision: u64,
    pub event: RuntimeEvent,
}

impl SnapshotView {
    /// A snapshot of a session in which nothing has happened.
    pub open spec fn empty() -> SnapshotView {
        SnapshotView {
            revision: 0,
            records: Map::empty(),
            responses: Map::empty(),
            activity: Map::empty(),
            context: Map::empty(),
        }
    }

    /// The response under a key, or a fresh one.
    pub open spec fn response(self, key: (AgentPath, u64)) -> LiveResponseView {
        if self.responses.dom().contains(key) {
            self.responses[key]
        } else {
            LiveResponseView::fresh()
        }
    }

    /// The snapshot with another activity of an agent.
    pub open spec fn with_activity(self, agent: AgentPath, activity: AgentActivityView) -> SnapshotView {
        SnapshotView { activity: self.activity.insert(agent, activity), ..self }
    }

    /// The snapshot with another response.
    pub open spec fn with_response(self, key: (AgentPath, u64), response: LiveResponseView) -> SnapshotView {
        SnapshotView { responses: self.responses.insert(key, response), ..self }
    }

    /// Whether the journal holds a request for a compaction under a sequence.
    pub open spec fn compacts(self, request: u64) -> bool {
        &&& self.records.dom().contains(request)
        &&& self.records[request].event matches SessionEvent::ModelRequested { purpose, .. }
        &&& purpose == ModelPurpose::Compaction
    }
}

/// The responses that are not committed as a message.
pub open spec fn uncommitted(
    responses: Map<(AgentPath, u64), LiveResponseView>,
    message: u64,
) -> Map<(AgentPath, u64), LiveResponseView> {
    Map::new(
        |key: (AgentPath, u64)| responses.dom().contains(key) && responses[key].message != Some(message),
        |key: (AgentPath, u64)| responses[key],
    )
}

/// What an interruption of an agent makes of a response.
pub open spec fn interrupted_response(
    key: (AgentPath, u64),
    agent: AgentPath,
    response: LiveResponseView,
) -> LiveResponseView {
    if key.0 == agent && !response.settled {
        LiveResponseView { settled: true, error: Some("Response interrupted"@), ..response }
    } else {
        response
    }
}

/// The responses after an agent has been interrupted.
pub open spec fn interrupted(
    responses: Map<(AgentPath, u64), LiveResponseView>,
    agent: AgentPath,
) -> Map<(AgentPath, u64), LiveResponseView> {
    Map::new(
        |key: (AgentPath, u64)| responses.dom().contains(key),
        |key: (AgentPath, u64)| interrupted_response(key, agent, responses[key]),
    )
}

/// What a record that is new to the journal does to activities and responses.
pub open spec fn record_effect(state: SnapshotView, record: EventRecord) -> SnapshotView {
    let agent = record.agent@;
    match record.event {
        SessionEvent::ModelRecoveryScheduled { attempt, max_attempts, .. } => state.with_activity(
            agent,
            AgentActivityView::Reconnecting { attempt, max_attempts },
        ),
        SessionEvent::ModelAttemptStarted { request, .. } => state.with_response(
            (agent, request),
            LiveResponseView::fresh(),
        ).with_activity(
            agent,
            if state.compacts(request) {
                AgentActivityView::Compacting
            } else {
                AgentActivityView::Working
            },
        ),
        SessionEvent::ModelRequested { .. } => if state.activity.dom().contains(agent)
            && state.activity[agent] is Reconnecting {
            state.with_activity(agent, AgentActivityView::Working)
        } else {
            state
        },
        SessionEvent::AgentCompleted => state.with_activity(agent, AgentActivityView::Idle),
        SessionEvent::AgentInterrupted => state.with_activity(agent, AgentActivityView::Interrupted),
        SessionEvent::ModelFailed { request, error, .. } => state.with_response(
            (agent, request),
            LiveResponseView {
                settled: true,
                error: Some(error@),
                ..state.response((agent, request))
            },
        ),
        SessionEvent::MessageCommitted { .. } => SnapshotView {
            responses: uncommitted(state.responses, record.sequence),
            ..state
        },
        _ => state,
    }
}

/// The snapshot after a record. A record that the journal already holds changes
/// nothing.
pub open spec fn after_record(state: SnapshotView, record: EventRecord) -> SnapshotView {
    if state.records.dom().contains(record.sequence) {
        state
    } else {
        let next = record_effect(state, record);
        SnapshotView { records: next.records.insert(record.sequence, record), ..next }
    }
}

/// The snapshot after an event, but for its revision.
pub open spec fn reduced(state: SnapshotView, event: RuntimeEvent) -> SnapshotView {
    match event {
        RuntimeEvent::Record(record) => after_record(state, *record),
        RuntimeEvent::ResponseEvent { agent, request, event } => {
            let key = (agent@, request);
            let response = state.response(key);
            state.with_response(
                key,
                match response::assembled(response.items, event) {
                    Ok(items) => LiveResponseView { items, ..response },
                    Err(fault) => LiveResponseView { error: Some(fault), ..response },
                },
            )
        },
        RuntimeEvent::ResponseSettled { agent, request, message, error } => {
            let key = (agent@, request);
            match message {
                Some(sequence) if state.records.dom().contains(sequence) => SnapshotView {
                    responses: state.responses.remove(key),
                    ..state
                },
                _ => {
                    let response = state.response(key);
                    state.with_response(
                        key,
                        LiveResponseView {
                            items: response.items,
                            message,
                            settled: true,
                            error: match error {
                                Some(text) => Some(text@),
                                None => response.error,
                            },
                        },
                    )
                },
            }
        },
        RuntimeEvent::Activity { agent, activity } => {
            let settled = match activity {
                AgentActivity::Interrupted => interrupted(state.responses, agent@),
                AgentActivity::Failed(_) => interrupted(state.responses, agent@),
                _ => state.responses,
            };
            SnapshotView { responses: settled, ..state }.with_activity(agent@, activity@)
        },
        RuntimeEvent::Context { agent, tokens, capacity } => SnapshotView {
            context: state.context.insert(agent@, ContextUsage { tokens, capacity }),
            ..state
        },
        RuntimeEvent::TurnCompleted { .. } => state,
    }
}

/// The snapshot after an update. An update that is not newer changes nothing.
pub open spec fn applied(state: SnapshotView, update: ObservedEvent) -> SnapshotView {
    if update.revision <= state.revision {
        state
    } else {
        reduced(SnapshotView { revision: update.revision, ..state }, update.event)
    }
}

/// The snapshot after records in their order.
pub open spec fn after_records(state: SnapshotView, records: Seq<EventRecord>) -> SnapshotView
    decreases records.len(),
{
    if records.len() == 0 {
        state
    } else {
        after_record(after_records(state, records.drop_last()), records.last())
    }
}

/// The snapshot that a journal leads to, with the context occupancy that it records.
pub open spec fn restored(
    records: Seq<EventRecord>,
    rebuilt: Seq<(u64, ModelRequest)>,
    histories: Map<AgentPath, HistoryView>,
) -> SnapshotView {
    SnapshotView {
        context: context::recorded_contexts(records, rebuilt, histories),
        ..after_records(SnapshotView::empty(), records)
    }
}

/// Drops the responses that are committed as a message.
fn drop_committed(responses: Table<ResponseKey, LiveResponse>, message: u64) -> (left: Table<
    ResponseKey,
    LiveResponse,
>)
    ensures
        left@ == uncommitted(responses@, message),
{
    let ghost whole = responses@;
    let ghost goal = uncommitted(whole, message);
    let mut entries = responses.into_entries();
    let mut left: Table<ResponseKey, LiveResponse> = Table::new();
    proof {
        table::lemma_entries_map(entries@);
    }
    while entries.len() > 0
        invariant
            goal == uncommitted(whole, message),
            table::distinct_keys(entries@),
            forall|key: (AgentPath, u64)|
                #[trigger] table::entries_map(entries@).dom().contains(key) ==> whole.dom().contains(key)
                    && whole[key] == table::entries_map(entries@)[key],
            forall|key: (AgentPath, u64)|
                #[trigger] left@.dom().contains(key) <==> goal.dom().contains(key)
                    && !table::entries_map(entries@).dom().contains(key),
            forall|key: (AgentPath, u64)| #[trigger] left@.dom().contains(key) ==> left@[key] == goal[key],
        decreases entries.len(),
    {
        let ghost all = entries@;
        proof {
            table::lemma_entries_map(all);
        }
        if let Some((key, response)) = entries.pop() {
            proof {
                assert(entries@ =~= all.drop_last());
                assert(all.last() == (key, response));
                assert forall|i: int, j: int| 0 <= i < j < entries@.len() implies (#[trigger] entries@[i]).0@ != (
                #[trigger] entries@[j]).0@ by {
                    assert(all[i].0@ != all[j].0@);
                }
                table::lemma_entries_map(entries@);
                assert(!table::entries_map(entries@).dom().contains(key@)) by {
                    if table::entries_map(entries@).dom().contains(key@) {
                        let i = choose|i: int| 0 <= i < entries@.len() && (#[trigger] entries@[i]).0@ == key@;
                        assert(all[i].0@ != all[all.len() - 1].0@);
                    }
                }
                assert(table::entries_map(all).dom().contains(key@));
                assert(whole[key@] == response@);
            }
            let keep = match response.message {
                Some(sequence) => sequence != message,
                None => true,
            };
            if keep {
                left.insert(key, response);
            }
        }
    }
    assert(left@ =~= goal);
    left
}

/// Settles the open responses of an interrupted agent.
fn settle_interrupted(responses: Table<ResponseKey, LiveResponse>, agent: &AgentId) -> (settled: Table<
    ResponseKey,
    LiveResponse,
>)
    ensures
        settled@ == interrupted(responses@, agent@),
{
    let ghost whole = responses@;
    let ghost goal = interrupted(whole, agent@);
    let mut entries = responses.into_entries();
    let mut settled: Table<ResponseKey, LiveResponse> = Table::new();
    proof {
        table::lemma_entries_map(entries@);
    }
    while entries.len() > 0
        invariant
            goal == interrupted(whole, agent@),
            table::distinct_keys(entries@),
            forall|key: (AgentPath, u64)|
                #[trigger] table::entries_map(entries@).dom().contains(key) ==> whole.dom().contains(key)
                    && whole[key] == table::entries_map(entries@)[key],
            forall|key: (AgentPath, u64)|
                #[trigger] settled@.dom().contains(key) <==> goal.dom().contains(key)
                    && !table::entries_map(entries@).dom().contains(key),
            forall|key: (AgentPath, u64)|
                #[trigger] settled@.dom().contains(key) ==> settled@[key] == goal[key],
        decreases entries.len(),
    {
        let ghost all = entries@;
        proof {
            table::lemma_entries_map(all);
        }
        if let Some((key, response)) = entries.pop() {
            proof {
                assert(entries@ =~= all.drop_last());
                assert(all.last() == (key, response));
                assert forall|i: int, j: int| 0 <= i < j < entries@.len() implies (#[trigger] entries@[i]).0@ != (
                #[trigger] entries@[j]).0@ by {
                    assert(all[i].0@ != all[j].0@);
                }
                table::lemma_entries_map(entries@);
                assert(!table::entries_map(entries@).dom().contains(key@)) by {
                    if table::entries_map(entries@).dom().contains(key@) {
                        let i = choose|i: int| 0 <= i < entries@.len() && (#[trigger] entries@[i]).0@ == key@;
                        assert(all[i].0@ != all[all.len() - 1].0@);
                    }
                }
                assert(table::entries_map(all).dom().contains(key@));
                assert(whole[key@] == response@);
            }
            let mut response = response;
            if key.agent.same(agent) && !response.settled {
                response.settled = true;
                response.error = Some("Response interrupted".to_owned());
            }
            settled.insert(key, response);
        }
    }
    assert(settled@ =~= goal);
    settled
}

impl Default for ObservationSnapshot {
    fn default() -> (snapshot: ObservationSnapshot)
        ensures
            snapshot@ == SnapshotView::empty(),
    {
        ObservationSnapshot {
            revision: 0,
            records: BTreeMap::new(),
            responses: Table::new(),
            activity: Table::new(),
            context: Table::new(),
        }
    }
}

impl ObservationSnapshot {
    /// Applies an update. The journal projection is idempotent; live deltas are
    /// applied once by revision.
    pub fn apply(&mut self, update: ObservedEvent)
        ensures
            final(self)@ == applied(old(self)@, update),
    {
        if update.revision <= self.revision {
            return;
        }
        self.revision = update.revision;
        self.reduce(update.event);
    }

    /// Takes a response out of the snapshot, or begins a fresh one.
    fn take_response(&mut self, key: &ResponseKey) -> (response: LiveResponse)
        ensures
            response@ == old(self)@.response(key@),
            final(self)@ == (SnapshotView { responses: old(self)@.responses.remove(key@), ..old(self)@ }),
    {
        match self.responses.remove(key) {
            Some(response) => response,
            None => LiveResponse::default(),
        }
    }

    /// Puts a response into the snapshot.
    fn put_response(&mut self, key: ResponseKey, response: LiveResponse)
        ensures
            final(self)@ == old(self)@.with_response(key@, response@),
    {
        self.responses.insert(key, response);
    }

    /// Tests whether the journal holds a request for a compaction.
    fn is_compaction(&self, request: u64) -> (answer: bool)
        ensures
            answer == self@.compacts(request),
    {
        match self.records.get(&request) {
            Some(record) => match &record.event {
                SessionEvent::ModelRequested { purpose: ModelPurpose::Compaction, .. } => true,
                _ => false,
            },
            None => false,
        }
    }

    /// Takes what a new record does to activities and responses.
    fn reduce_record(&mut self, record: &EventRecord)
        ensures
            final(self)@ == record_effect(old(self)@, *record),
    {
        let ghost before = self@;
        match &record.event {
            SessionEvent::ModelRecoveryScheduled { attempt, max_attempts, .. } => {
                // A failure settles only its response. Recovery keeps the agent
                // active instead of turning a transport failure into a terminal one.
                self.activity.insert(
                    record.agent.duplicate(),
                    AgentActivity::Reconnecting { attempt: *attempt, max_attempts: *max_attempts },
                );
            },
            SessionEvent::ModelAttemptStarted { request, .. } => {
                // One logical request survives retries, which may reuse native
                // identities: only the displayed response starts afresh.
                let activity = if self.is_compaction(*request) {
                    AgentActivity::Compacting
                } else {
                    AgentActivity::Working
                };
                let key = ResponseKey { agent: record.agent.duplicate(), request: *request };
                self.responses.insert(key, LiveResponse::default());
                self.activity.insert(record.agent.duplicate(), activity);
            },
            SessionEvent::ModelRequested { .. } => {
                let reconnecting = match self.activity.get(&record.agent) {
                    Some(AgentActivity::Reconnecting { .. }) => true,
                    _ => false,
                };
                if reconnecting {
                    self.activity.insert(record.agent.duplicate(), AgentActivity::Working);
                }
            },
            SessionEvent::AgentCompleted => {
                self.activity.insert(record.agent.duplicate(), AgentActivity::Idle);
            },
            SessionEvent::AgentInterrupted => {
                self.activity.insert(record.agent.duplicate(), AgentActivity::Interrupted);
            },
            SessionEvent::ModelFailed { request, error, .. } => {
                let key = ResponseKey { agent: record.agent.duplicate(), request: *request };
                let mut response = self.take_response(&key);
                response.settled = true;
                response.error = Some(error.clone());
                self.put_response(key, response);
                assert(self@.responses =~= before.responses.insert(key@, response@));
            },
            SessionEvent::MessageCommitted { .. } => {
                let mut responses: Table<ResponseKey, LiveResponse> = Table::new();
                std::mem::swap(&mut responses, &mut self.responses);
                self.responses = drop_committed(responses, record.sequence);
            },
            _ => {},
        }
    }

    /// Takes an event, whatever its revision.
    pub fn reduce(&mut self, event: RuntimeEvent)
        ensures
            final(self)@ == reduced(old(self)@, event),
    {
        let ghost before = self@;
        match event {
            RuntimeEvent::Record(record) => {
                if self.records.contains_key(&record.sequence) {
                    return;
                }
                self.reduce_record(&record);
                let _ = self.records.insert(record.sequence, *record);
            },
            RuntimeEvent::ResponseEvent { agent, request, event } => {
                let key = ResponseKey { agent, request };
                let mut response = self.take_response(&key);
                if let Err(fault) = response.assembler.push(&event) {
                    response.error = Some(fault);
                }
                self.put_response(key, response);
                assert(self@.responses =~= before.responses.insert(key@, response@));
            },
            RuntimeEvent::ResponseSettled { agent, request, message, error } => {
                let key = ResponseKey { agent, request };
                let committed = match message {
                    Some(sequence) => self.records.contains_key(&sequence),
                    None => false,
                };
                if committed {
                    let _ = self.responses.remove(&key);
                } else {
                    let mut response = self.take_response(&key);
                    response.message = message;
                    response.settled = true;
                    // A protocol failure survives a successful settlement.
                    if error.is_some() {
                        response.error = error;
                    }
                    self.put_response(key, response);
                    assert(self@.responses =~= before.responses.insert(key@, response@));
                }
            },
            RuntimeEvent::Activity { agent, activity } => {
                let ended = match &activity {
                    AgentActivity::Interrupted => true,
                    AgentActivity::Failed(_) => true,
                    _ => false,
                };
                if ended {
                    let mut responses: Table<ResponseKey, LiveResponse> = Table::new();
                    std::mem::swap(&mut responses, &mut self.responses);
                    self.responses = settle_interrupted(responses, &agent);
                }
                self.activity.insert(agent, activity);
            },
            RuntimeEvent::Context { agent, tokens, capacity } => {
                self.context.insert(agent, ContextUsage { tokens, capacity });
            },
            RuntimeEvent::TurnCompleted { .. } => {},
        }
    }
}

/// Numbers the events of a session and keeps the snapshot that they lead to.
#[derive(Debug)]
pub struct RuntimeEvents {
    snapshot: ObservationSnapshot,
}

impl View for RuntimeEvents {
    type V = SnapshotView;

    closed spec fn view(&self) -> SnapshotView {
        self.snapshot@
    }
}

/// Whether an event repeats a record that the journal already holds.
pub open spec fn repeats(state: SnapshotView, event: RuntimeEvent) -> bool {
    event matches RuntimeEvent::Record(record) && state.records.dom().contains(record.sequence)
}

impl RuntimeEvents {
    /// Begins from a journal and the context occupancy that it records.
    pub fn new(records: Vec<EventRecord>, context: Table<AgentId, ContextUsage>) -> (hub: RuntimeEvents)
        ensures
            hub@ == (SnapshotView {
                context: context@,
                ..after_records(SnapshotView::empty(), records@)
            }),
    {
        let mut snapshot = ObservationSnapshot::default();
        for record in it: records
            invariant
                it.seq() == records@,
                snapshot@ == after_records(SnapshotView::empty(), records@.take(it.index() as int)),
        {
            proof {
                let i = it.index() as int;
                assert(records@.take(i + 1).drop_last() =~= records@.take(i));
                assert(records@.take(i + 1).last() == record);
            }
            snapshot.reduce(RuntimeEvent::Record(Box::new(record)));
        }
        assert(records@.take(records@.len() as int) =~= records@);
        snapshot.context = context;
        RuntimeEvents { snapshot }
    }

    /// Begins from a journal, with the context occupancy that it records. `rebuilt` holds
    /// the requests that could be rebuilt from it, and `histories` the histories that it
    /// gives.
    pub fn restore(
        records: Vec<EventRecord>,
        rebuilt: &Vec<(u64, ModelRequest)>,
        histories: &Table<AgentId, History>,
    ) -> (hub: RuntimeEvents)
        ensures
            hub@ == restored(records@, rebuilt@, histories@),
    {
        let context = recorded_context(&records, rebuilt, histories);
        RuntimeEvents::new(records, context)
    }

    /// The snapshot that the events so far have led to.
    pub fn observe(&self) -> (snapshot: &ObservationSnapshot)
        ensures
            snapshot@ == self@,
    {
        &self.snapshot
    }

    /// Takes an event. Gives the revision under which it is to be published, or
    /// nothing where it repeats a record.
    pub fn send(&mut self, event: RuntimeEvent) -> (revision: Option<u64>)
        requires
            old(self)@.revision < u64::MAX,
        ensures
            repeats(old(self)@, event) ==> revision is None && final(self)@ == old(self)@,
            !repeats(old(self)@, event) ==> {
                let next = (old(self)@.revision + 1) as u64;
                &&& revision == Some(next)
                &&& final(self)@ == reduced(SnapshotView { revision: next, ..old(self)@ }, event)
            },
    {
        if let RuntimeEvent::Record(record) = &event {
            if self.snapshot.records.contains_key(&record.sequence) {
                return None;
            }
        }
        self.snapshot.revision = self.snapshot.revision + 1;
        self.snapshot.reduce(event);
        Some(self.snapshot.revision)
    }
}

/// An update counts once: applying it again changes nothing.
pub proof fn updates_apply_once(state: SnapshotView, update: ObservedEvent)
    ensures
        applied(applied(state, update), update) == applied(state, update),
{
    reduction_keeps_revisions(SnapshotView { revision: update.revision, ..state }, update.event);
}

/// An event does not change the revision of the snapshot that takes it.
pub proof fn reduction_keeps_revisions(state: SnapshotView, event: RuntimeEvent)
    ensures
        reduced(state, event).revision == state.revision,
{
}

/// A repeated record changes nothing, whatever has happened since.
pub proof fn repeated_records_change_nothing(state: SnapshotView, record: EventRecord)
    requires
        state.records.dom().contains(record.sequence),
    ensures
        after_record(state, record) == state,
{
}

/// The journal only grows: no event removes or replaces a record.
pub proof fn records_are_never_lost(state: SnapshotView, event: RuntimeEvent, sequence: u64)
    requires
        state.records.dom().contains(sequence),
    ensures
        reduced(state, event).records.dom().contains(sequence),
        reduced(state, event).records[sequence] == state.records[sequence],
{
}

/// After records have been taken, each of their sequences is in the journal.
proof fn lemma_records_are_held(state: SnapshotView, records: Seq<EventRecord>)
    ensures
        forall|i: int|
            0 <= i < records.len() ==> after_records(state, records).records.dom().contains(
                (#[trigger] records[i]).sequence,
            ),
    decreases records.len(),
{
    if records.len() > 0 {
        let rest = records.drop_last();
        lemma_records_are_held(state, rest);
        assert forall|i: int| 0 <= i < records.len() implies after_records(
            state,
            records,
        ).records.dom().contains((#[trigger] records[i]).sequence) by {
            if i < rest.len() {
                assert(rest[i] == records[i]);
            }
        }
    }
}

/// Replaying records that have been taken changes nothing.
pub proof fn replays_change_nothing(state: SnapshotView, records: Seq<EventRecord>, again: Seq<EventRecord>)
    requires
        forall|i: int| 0 <= i < again.len() ==> records.contains(#[trigger] again[i]),
    ensures
        after_records(after_records(state, records), again) == after_records(state, records),
    decreases again.len(),
{
    if again.len() > 0 {
        let rest = again.drop_last();
        assert forall|i: int| 0 <= i < rest.len() implies records.contains(#[trigger] rest[i]) by {
            assert(rest[i] == again[i]);
        }
        replays_change_nothing(state, records, rest);
        lemma_records_are_held(state, records);
        assert(records.contains(again[again.len() - 1]));
    }
}

/// An observer that has the hub's snapshot and applies what the hub publishes has
/// the hub's next snapshot, however often each update is delivered.
pub proof fn observers_follow_the_hub(state: SnapshotView, event: RuntimeEvent, update: ObservedEvent)
    requires
        state.revision < u64::MAX,
        !repeats(state, event),
        update == (ObservedEvent { revision: (state.revision + 1) as u64, event }),
    ensures
        applied(state, update) == reduced(
            SnapshotView { revision: (state.revision + 1) as u64, ..state },
            event,
        ),
        applied(applied(state, update), update) == applied(state, update),
{
    updates_apply_once(state, update);
}

/// A response that settles as a message is gone once both are known, however it settles
/// and whichever of the two comes first: both orders lead to the same snapshot.
pub proof fn committed_responses_leave(
    state: SnapshotView,
    record: EventRecord,
    agent: AgentId,
    request: u64,
    error: Option<String>,
)
    requires
        record.event is MessageCommitted,
        !state.records.dom().contains(record.sequence),
    ensures
        ({
            let settled = RuntimeEvent::ResponseSettled {
                agent,
                request,
                message: Some(record.sequence),
                error,
            };
            let key = (agent@, request);
            let after = reduced(after_record(state, record), settled);
            &&& !after.responses.dom().contains(key)
            &&& after == after_record(reduced(state, settled), record)
        }),
{
    let settled = RuntimeEvent::ResponseSettled { agent, request, message: Some(record.sequence), error };
    let left = reduced(after_record(state, record), settled);
    let right = after_record(reduced(state, settled), record);
    assert(left.responses =~= right.responses);
    assert(left =~= right);
}

/// A failed attempt settles its response and keeps what has been received of it.
pub proof fn failures_keep_partial_output(state: SnapshotView, record: EventRecord, request: u64)
    requires
        !state.records.dom().contains(record.sequence),
        record.event matches SessionEvent::ModelFailed { request: failed, .. } && failed == request,
    ensures
        ({
            let key = (record.agent@, request);
            let after = after_record(state, record);
            &&& after.response(key).items == state.response(key).items
            &&& after.response(key).settled
            &&& after.activity == state.activity
        }),
{
}

/// The agent that an event is about.
pub open spec fn subject(event: RuntimeEvent) -> AgentPath {
    match event {
        RuntimeEvent::Record(record) => record.agent@,
        RuntimeEvent::ResponseEvent { agent, .. } => agent@,
        RuntimeEvent::ResponseSettled { agent, .. } => agent@,
        RuntimeEvent::Activity { agent, .. } => agent@,
        RuntimeEvent::Context { agent, .. } => agent@,
        RuntimeEvent::TurnCompleted { agent, .. } => agent@,
    }
}

/// Whether a map has the same under a key as another: the same value, or nothing.
pub open spec fn same_entry<K, V>(left: Map<K, V>, right: Map<K, V>, key: K) -> bool {
    &&& left.dom().contains(key) == right.dom().contains(key)
    &&& left.dom().contains(key) ==> left[key] == right[key]
}

/// Whether an event brings a message that a response has been committed as.
pub open spec fn commits(event: RuntimeEvent, response: LiveResponseView) -> bool {
    event matches RuntimeEvent::Record(record) && record.event is MessageCommitted && response.message == Some(
        record.sequence,
    )
}

/// Agents do not disturb each other: what happens to one of them leaves the activity, the
/// context and every response of another as they were. Only a response that has been
/// committed as a message goes, once that message is in the journal.
pub proof fn agents_do_not_disturb_each_other(state: SnapshotView, event: RuntimeEvent, key: (AgentPath, u64))
    requires
        key.0 != subject(event),
    ensures
        same_entry(reduced(state, event).activity, state.activity, key.0),
        same_entry(reduced(state, event).context, state.context, key.0),
        !(state.responses.dom().contains(key) && commits(event, state.responses[key])) ==> same_entry(
            reduced(state, event).responses,
            state.responses,
            key,
        ),
{
}

/// The request that an event is about, where it is about one.
pub open spec fn subject_request(event: RuntimeEvent) -> Option<u64> {
    match event {
        RuntimeEvent::ResponseEvent { request, .. } => Some(request),
        RuntimeEvent::ResponseSettled { request, .. } => Some(request),
        RuntimeEvent::Record(record) => match record.event {
            SessionEvent::ModelAttemptStarted { request, .. } => Some(request),
            SessionEvent::ModelFailed { request, .. } => Some(request),
            _ => None,
        },
        _ => None,
    }
}

/// Whether an event says that its agent has come to an end before its turn was done.
pub open spec fn ends_early(event: RuntimeEvent) -> bool {
    event matches RuntimeEvent::Activity { activity, .. } && (activity is Interrupted || activity is Failed)
}

/// Responses do not disturb each other either: an event about one request leaves the
/// responses to the agent's other requests as they were, and an event about no request
/// leaves all of them, unless it ends the agent's turn or brings the message that a
/// response has been committed as.
pub proof fn responses_do_not_disturb_each_other(state: SnapshotView, event: RuntimeEvent, key: (AgentPath, u64))
    requires
        subject_request(event) != Some(key.1),
        !ends_early(event),
        !(state.responses.dom().contains(key) && commits(event, state.responses[key])),
    ensures
        same_entry(reduced(state, event).responses, state.responses, key),
{
}

/// An agent that is interrupted or fails leaves no open response: those that were open
/// are settled as interrupted with all that has been received of them, and those that had
/// settled stay as they were.
pub proof fn ended_agents_leave_no_open_response(state: SnapshotView, event: RuntimeEvent, request: u64)
    requires
        ends_early(event),
    ensures
        ({
            let key = (subject(event), request);
            let after = reduced(state, event);
            &&& after.responses.dom().contains(key) == state.responses.dom().contains(key)
            &&& state.responses.dom().contains(key) ==> {
                let (old_response, response) = (state.responses[key], after.responses[key]);
                &&& response.settled
                &&& response.items == old_response.items
                &&& response.message == old_response.message
                &&& response.error == if old_response.settled {
                    old_response.error
                } else {
                    Some("Response interrupted"@)
                }
            }
        }),
{
}

/// A settled response keeps what has been received and tells how it settled. An error that
/// it settles with replaces an earlier one, and none erases one. Where its message is in
/// the journal already, the response goes.
pub proof fn settled_responses_tell_how(
    state: SnapshotView,
    agent: AgentId,
    request: u64,
    message: Option<u64>,
    error: Option<String>,
)
    ensures
        ({
            let key = (agent@, request);
            let after = reduced(state, RuntimeEvent::ResponseSettled { agent, request, message, error });
            let known = state.responses.dom().contains(key);
            if message is Some && state.records.dom().contains(message->0) {
                !after.responses.dom().contains(key)
            } else {
                &&& after.responses.dom().contains(key)
                &&& after.responses[key].settled
                &&& after.responses[key].message == message
                &&& known ==> after.responses[key].items == state.responses[key].items
                &&& !known ==> after.responses[key].items.len() == 0
                &&& error matches Some(text) ==> after.responses[key].error == Some(text@)
                &&& error is None && known ==> after.responses[key].error == state.responses[key].error
                &&& error is None && !known ==> after.responses[key].error is None
            }
        }),
{
}

/// A streamed event changes what has been received, and nothing else, unless it does not
/// fit: that is told as the response's error, and what has been received stays.
pub proof fn streamed_events_reach_their_response(
    state: SnapshotView,
    agent: AgentId,
    request: u64,
    event: ResponseEvent,
)
    ensures
        ({
            let key = (agent@, request);
            let after = reduced(state, RuntimeEvent::ResponseEvent { agent, request, event });
            let known = state.responses.dom().contains(key);
            let items = if known {
                state.responses[key].items
            } else {
                seq![]
            };
            &&& after.responses.dom().contains(key)
            &&& known ==> after.responses[key].message == state.responses[key].message
            &&& known ==> after.responses[key].settled == state.responses[key].settled
            &&& !known ==> after.responses[key].message is None && !after.responses[key].settled
            &&& match response::assembled(items, event) {
                Ok(received) => {
                    &&& after.responses[key].items == received
                    &&& known ==> after.responses[key].error == state.responses[key].error
                    &&& !known ==> after.responses[key].error is None
                },
                Err(fault) => {
                    &&& after.responses[key].items == items
                    &&& after.responses[key].error == Some(fault)
                },
            }
        }),
{
}

/// A failed attempt settles its response with the error, and another attempt at the same
/// request begins it afresh.
pub proof fn attempts_begin_afresh(state: SnapshotView, record: EventRecord)
    requires
        !state.records.dom().contains(record.sequence),
    ensures
        ({
            let after = after_record(state, record);
            &&& record.event matches SessionEvent::ModelFailed { request, error, .. } ==> {
                let response = after.responses[(record.agent@, request)];
                &&& after.responses.dom().contains((record.agent@, request))
                &&& response.settled
                &&& response.error == Some(error@)
                &&& state.responses.dom().contains((record.agent@, request)) ==> response.message
                    == state.responses[(record.agent@, request)].message
            }
            &&& record.event matches SessionEvent::ModelAttemptStarted { request, .. } ==> {
                let response = after.responses[(record.agent@, request)];
                &&& after.responses.dom().contains((record.agent@, request))
                &&& response.items.len() == 0
                &&& response.message is None
                &&& !response.settled
                &&& response.error is None
            }
        }),
{
}

/// What an agent is shown to do is what was last told of it: that it works on or compacts
/// for a request, waits for another attempt, has completed or was interrupted, or what an
/// event says. Nothing else changes it.
pub proof fn activities_are_what_was_told_last(state: SnapshotView, event: RuntimeEvent)
    ensures
        ({
            let agent = subject(event);
            let after = reduced(state, event);
            let shown = after.activity.dom().contains(agent);
            match event {
                RuntimeEvent::Activity { activity, .. } => shown && after.activity[agent] == activity@,
                RuntimeEvent::Record(record) => if state.records.dom().contains(record.sequence) {
                    after.activity == state.activity
                } else {
                    match record.event {
                        SessionEvent::AgentCompleted => shown && after.activity[agent] is Idle,
                        SessionEvent::AgentInterrupted => shown && after.activity[agent] is Interrupted,
                        SessionEvent::ModelRecoveryScheduled { attempt, max_attempts, .. } => shown
                            && after.activity[agent] == (AgentActivityView::Reconnecting { attempt, max_attempts }),
                        SessionEvent::ModelAttemptStarted { request, .. } => {
                            let compacts = state.records.dom().contains(request) && (
                            state.records[request].event matches SessionEvent::ModelRequested { purpose, .. }
                                && purpose == ModelPurpose::Compaction);
                            &&& shown
                            &&& compacts ==> after.activity[agent] is Compacting
                            &&& !compacts ==> after.activity[agent] is Working
                        },
                        SessionEvent::ModelRequested { .. } => if state.activity.dom().contains(agent)
                            && state.activity[agent] is Reconnecting {
                            shown && after.activity[agent] is Working
                        } else {
                            after.activity == state.activity
                        },
                        _ => after.activity == state.activity,
                    }
                },
                _ => after.activity == state.activity,
            }
        }),
{
}

/// A record that is new to the journal is in it from then on, under its sequence and as it
/// came, and an event that is no record leaves the journal as it was.
pub proof fn the_journal_holds_what_was_recorded(state: SnapshotView, event: RuntimeEvent)
    ensures
        match event {
            RuntimeEvent::Record(record) => {
                &&& reduced(state, event).records.dom().contains(record.sequence)
                &&& !state.records.dom().contains(record.sequence) ==> reduced(state, event).records[record.sequence]
                    == *record
                &&& forall|sequence: u64|
                    sequence != record.sequence ==> same_entry(
                        reduced(state, event).records,
                        state.records,
                        sequence,
                    )
            },
            _ => reduced(state, event).records == state.records,
        },
{
}

/// How full an agent's context is shown to be is what was last told of it.
pub proof fn context_use_is_what_was_told_last(state: SnapshotView, event: RuntimeEvent)
    ensures
        match event {
            RuntimeEvent::Context { agent, tokens, capacity } => {
                let after = reduced(state, event).context;
                &&& after.dom().contains(agent@)
                &&& after[agent@].tokens == tokens
                &&& after[agent@].capacity == capacity
            },
            _ => reduced(state, event).context == state.context,
        },
{
}

} // verus!
