//! One agent's context window.

use vstd::prelude::*;
use crate::compact;
use crate::compact::checkpoint;
use crate::compact::{find_rebuilt, TokenMeter};
use crate::compaction;
use crate::error::HarnessError;
use crate::identity::{AgentId, AgentPath};
use crate::journal::{EventRecord, ModelPurpose, SessionEvent};
use crate::model;
use crate::model::{duplicate_all, same_all, Modeled};
use crate::observation::ContextUsage;
use crate::protocol::{
    AssistantContentView, Message, MessageView, ModelProfile, ModelRequest, ModelRequestView, ToolResultView,
    UserContent, UserContentView,
};
use crate::queue;
use crate::queue::holds_image;
use crate::table;
use crate::table::Table;

verus! {

/// What an agent's model sees of its history.
#[derive(Debug, PartialEq, Eq)]
pub struct History {
    pub messages: Vec<Message>,
}

/// The mathematical content of a `History`.
#[verifier::ext_equal]
pub struct HistoryView {
    pub messages: Seq<MessageView>,
}

impl View for History {
    type V = HistoryView;

    open spec fn view(&self) -> HistoryView {
        HistoryView {
            messages: model::views(self.messages@),
        }
    }
}

impl Modeled for History {
    open spec fn alike(left: HistoryView, right: HistoryView) -> bool {
        &&& model::all_alike::<Message>(left.messages, right.messages)
    }

    fn duplicate(&self) -> (copy: Self) {
        History {
            messages: duplicate_all(&self.messages),
        }
    }

    fn same(&self, other: &Self) -> (equal: bool) {
        same_all(&self.messages, &other.messages)
    }
}

impl Clone for History {
    fn clone(&self) -> (copy: Self)
        ensures
            copy@ == self@,
    {
        self.duplicate()
    }
}

/// Whether a message has images.
pub open spec fn message_has_images(message: MessageView) -> bool {
    match message {
        MessageView::User(content) => queue::has_image(content),
        MessageView::Tool(results) => exists|i: int|
            0 <= i < results.len() && (#[trigger] results[i]).images.len() > 0,
        MessageView::Assistant(_) => false,
    }
}

/// Whether messages have images.
pub open spec fn have_images(messages: Seq<MessageView>) -> bool {
    exists|i: int| 0 <= i < messages.len() && message_has_images(#[trigger] messages[i])
}

/// Tests whether a message has images.
pub fn contains_images(message: &Message) -> (answer: bool)
    ensures
        answer == message_has_images(message@),
{
    match message {
        Message::User(content) => holds_image(content),
        Message::Tool(results) => {
            let ghost all = model::views(results@);
            let mut i: usize = 0;
            while i < results.len()
                invariant
                    i <= results.len(),
                    all == model::views(results@),
                    message@ == MessageView::Tool(all),
                    forall|k: int| 0 <= k < i ==> (#[trigger] all[k]).images.len() == 0,
                decreases results.len() - i,
            {
                assert(all[i as int] == results@[i as int]@);
                if results[i].images.len() > 0 {
                    assert(all[i as int].images.len() > 0);
                    return true;
                }
                i += 1;
            }
            false
        },
        Message::Assistant(_) => false,
    }
}

/// One agent's context window: what its model sees, and how full it is.
#[derive(Debug)]
pub struct AgentContext {
    pub profile: ModelProfile,
    pub template: ModelRequest,
    /// The history, each message with the sequence of its record.
    pub projected: Vec<(u64, Message)>,
    pub meter: TokenMeter,
    /// The compaction that the history begins with.
    pub checkpoint: Option<u64>,
}

impl AgentContext {
    /// Opens the context of an agent. `projected` is the history that the journal gives,
    /// unless it gives none, and `rebuilt` holds the requests that could be rebuilt from
    /// it, by sequence.
    pub fn open(
        agent: &AgentId,
        profile: ModelProfile,
        template: ModelRequest,
        projected: Result<Vec<(u64, Message)>, HarnessError>,
        records: &Vec<EventRecord>,
        rebuilt: &Vec<(u64, ModelRequest)>,
        restore_meter: bool,
    ) -> (context: Result<AgentContext, HarnessError>)
        ensures
            match context {
                Ok(opened) => {
                    &&& projected == Ok::<Vec<(u64, Message)>, HarnessError>(opened.projected)
                    &&& opened.profile == profile
                    &&& opened.template == template
                    &&& opened.checkpoint == compact::last_compaction(records@, agent@)
                    &&& opened.meter.spec_baseline() == if restore_meter {
                        compact::restored_baseline(records@, records@.len(), agent@, template@, rebuilt@)
                    } else {
                        None
                    }
                },
                Err(error) => projected == Err::<Vec<(u64, Message)>, HarnessError>(error),
            },
    {
        let history = match projected {
            Ok(history) => history,
            Err(error) => {
                return Err(error);
            },
        };
        let meter = if restore_meter {
            TokenMeter::restore(records, agent, &template, rebuilt)
        } else {
            TokenMeter::new()
        };
        let checkpoint = compact::checkpoint_sequence(records, agent);
        Ok(AgentContext { profile, template, projected: history, meter, checkpoint })
    }

    /// Takes over the history that the journal gives. The journal is authoritative,
    /// including compactions that others committed: with a new one, what the meter
    /// observed no longer counts.
    pub fn refresh(
        &mut self,
        projected: Result<Vec<(u64, Message)>, HarnessError>,
        records: &Vec<EventRecord>,
        agent: &AgentId,
    ) -> (refreshed: Result<(), HarnessError>)
        ensures
            match refreshed {
                Ok(()) => {
                    &&& projected == Ok::<Vec<(u64, Message)>, HarnessError>(final(self).projected)
                    &&& final(self).profile == old(self).profile
                    &&& final(self).template == old(self).template
                    &&& final(self).checkpoint == compact::last_compaction(records@, agent@)
                    &&& final(self).meter.spec_baseline() == if old(self).checkpoint
                        == compact::last_compaction(records@, agent@) {
                        old(self).meter.spec_baseline()
                    } else {
                        None
                    }
                },
                Err(error) => {
                    &&& projected == Err::<Vec<(u64, Message)>, HarnessError>(error)
                    &&& *final(self) == *old(self)
                },
            },
    {
        let history = match projected {
            Ok(history) => history,
            Err(error) => {
                return Err(error);
            },
        };
        let checkpoint = compact::checkpoint_sequence(records, agent);
        if !model::same_number(self.checkpoint, checkpoint) {
            self.meter = TokenMeter::new();
            self.checkpoint = checkpoint;
        }
        self.projected = history;
        Ok(())
    }

    /// The next request: the history, and the state of the agent's work at its end.
    pub fn request(&self, runtime: UserContent) -> (request: ModelRequest)
        ensures
            request@ == checkpoint::with_messages(
                self.template@,
                compact::history(self.projected@).push(MessageView::User(seq![runtime@])),
            ),
    {
        let mut request = self.template.duplicate();
        let mut messages = compact::history_messages(&self.projected);
        let ghost earlier = messages@;
        let mut blocks: Vec<UserContent> = Vec::new();
        let ghost content = runtime@;
        blocks.push(runtime);
        assert(model::views(blocks@) =~= seq![content]);
        let message = Message::User(blocks);
        let ghost added = message@;
        messages.push(message);
        assert(model::views(messages@) =~= model::views(earlier).push(added));
        request.messages = messages;
        request
    }

    /// Whether a request leaves too little of the context window for an answer.
    pub fn needs_compaction(&self, request: &ModelRequest) -> (answer: bool)
        ensures
            answer == (compact::calibrated(
                self.meter.spec_baseline(),
                compaction::capped(compaction::request_tokens(request@)),
            ) >= compact::saturating_difference(self.profile.max_context, self.profile.max_output)),
    {
        self.meter.estimate(request) >= self.profile.max_context.saturating_sub(self.profile.max_output)
    }

    /// Whether the history has images.
    pub fn contains_images(&self) -> (answer: bool)
        ensures
            answer == have_images(compact::history(self.projected@)),
    {
        let ghost all = compact::history(self.projected@);
        let mut i: usize = 0;
        while i < self.projected.len()
            invariant
                i <= self.projected.len(),
                all == compact::history(self.projected@),
                forall|k: int| 0 <= k < i ==> !message_has_images(#[trigger] all[k]),
            decreases self.projected.len() - i,
        {
            assert(all[i as int] == self.projected@[i as int].1@);
            if contains_images(&self.projected[i].1) {
                assert(message_has_images(all[i as int]));
                return true;
            }
            i += 1;
        }
        false
    }
}

/// Context capacities as the journal records them: for each agent the last one.
pub open spec fn recorded_capacities(records: Seq<EventRecord>) -> Map<AgentPath, u64>
    decreases records.len(),
{
    if records.len() == 0 {
        Map::empty()
    } else {
        let earlier = recorded_capacities(records.drop_last());
        match records.last().event {
            SessionEvent::AgentStarted { max_context: Some(capacity), .. } => earlier.insert(
                records.last().agent@,
                capacity,
            ),
            SessionEvent::ModelChanged { max_context, .. } => earlier.insert(records.last().agent@, max_context),
            _ => earlier,
        }
    }
}

/// Collects the context capacities that the journal records.
fn capacities(records: &Vec<EventRecord>) -> (table: Table<AgentId, u64>)
    ensures
        table@ == recorded_capacities(records@),
{
    let mut table: Table<AgentId, u64> = Table::new();
    let mut i: usize = 0;
    while i < records.len()
        invariant
            i <= records.len(),
            table@ == recorded_capacities(records@.take(i as int)),
        decreases records.len() - i,
    {
        proof {
            assert(records@.take(i + 1).drop_last() =~= records@.take(i as int));
            assert(records@.take(i + 1).last() == records@[i as int]);
        }
        match &records[i].event {
            SessionEvent::AgentStarted { max_context: Some(capacity), .. } => {
                table.insert(records[i].agent.duplicate(), *capacity);
            },
            SessionEvent::ModelChanged { max_context, .. } => {
                table.insert(records[i].agent.duplicate(), *max_context);
            },
            _ => {},
        }
        i += 1;
    }
    assert(records@.take(i as int) =~= records@);
    table
}

/// The newest agent request that could be rebuilt.
pub open spec fn newest_request(
    records: Seq<EventRecord>,
    agent: AgentPath,
    rebuilt: Seq<(u64, ModelRequest)>,
) -> Option<ModelRequestView>
    decreases records.len(),
{
    if records.len() == 0 {
        None
    } else {
        let record = records.last();
        let earlier = newest_request(records.drop_last(), agent, rebuilt);
        if record.agent@ != agent {
            earlier
        } else {
            match record.event {
                SessionEvent::ModelRequested { purpose: ModelPurpose::Agent, .. } => {
                    match compact::rebuilt_request(rebuilt, record.sequence) {
                        Some(request) => Some(request),
                        None => earlier,
                    }
                },
                _ => earlier,
            }
        }
    }
}

/// Finds the newest agent request that could be rebuilt.
fn find_newest<'a>(records: &Vec<EventRecord>, agent: &AgentId, rebuilt: &'a Vec<(u64, ModelRequest)>) -> (found: Option<
    &'a ModelRequest,
>)
    ensures
        match found {
            Some(request) => newest_request(records@, agent@, rebuilt@) == Some(request@),
            None => newest_request(records@, agent@, rebuilt@) is None,
        },
{
    let mut i: usize = records.len();
    assert(records@.take(i as int) =~= records@);
    while i > 0
        invariant
            i <= records.len(),
            newest_request(records@.take(i as int), agent@, rebuilt@) == newest_request(
                records@,
                agent@,
                rebuilt@,
            ),
        decreases i,
    {
        i -= 1;
        proof {
            assert(records@.take(i + 1).drop_last() =~= records@.take(i as int));
            assert(records@.take(i + 1).last() == records@[i as int]);
        }
        if records[i].agent.same(agent) {
            if let SessionEvent::ModelRequested { purpose: ModelPurpose::Agent, .. } = &records[i].event {
                if let Some(request) = find_rebuilt(rebuilt, records[i].sequence) {
                    return Some(request);
                }
            }
        }
    }
    None
}

/// Whether a message carries the state of an agent's work.
pub open spec fn is_runtime(message: MessageView) -> bool {
    message matches MessageView::User(content) && exists|i: int|
        0 <= i < content.len() && (#[trigger] content[i]) is Runtime
}

/// Tests whether a message carries the state of an agent's work.
fn carries_runtime(message: &Message) -> (answer: bool)
    ensures
        answer == is_runtime(message@),
{
    match message {
        Message::User(content) => {
            let ghost all = model::views(content@);
            let mut i: usize = 0;
            while i < content.len()
                invariant
                    i <= content.len(),
                    all == model::views(content@),
                    message@ == MessageView::User(all),
                    forall|k: int| 0 <= k < i ==> !((#[trigger] all[k]) is Runtime),
                decreases content.len() - i,
            {
                let runtime = matches!(&content[i], UserContent::Runtime { .. });
                assert(all[i as int] == content@[i as int]@);
                if runtime {
                    assert(all[i as int] is Runtime);
                    return true;
                }
                i += 1;
            }
            false
        },
        _ => false,
    }
}

/// The messages that a recorded context holds: the history, and the state at the end of
/// the newest request.
pub open spec fn recorded_messages(request: ModelRequestView, history: Seq<MessageView>) -> Seq<MessageView> {
    if request.messages.len() > 0 && is_runtime(request.messages.last()) {
        history.push(request.messages.last())
    } else {
        history
    }
}

/// How full a recorded context is.
pub open spec fn recorded_tokens(
    records: Seq<EventRecord>,
    agent: AgentPath,
    rebuilt: Seq<(u64, ModelRequest)>,
    request: ModelRequestView,
    history: Seq<MessageView>,
) -> u64 {
    compact::calibrated(
        compact::restored_baseline(records, records.len(), agent, checkpoint::with_messages(request, seq![]), rebuilt),
        compaction::capped(
            compaction::request_tokens(checkpoint::with_messages(request, recorded_messages(request, history))),
        ),
    )
}

/// Tells how full a recorded context is.
fn count_tokens(
    records: &Vec<EventRecord>,
    agent: &AgentId,
    rebuilt: &Vec<(u64, ModelRequest)>,
    request: &ModelRequest,
    history: &History,
) -> (tokens: u64)
    ensures
        tokens == recorded_tokens(records@, agent@, rebuilt@, request@, history@.messages),
{
    let mut current = request.duplicate();
    let mut messages = duplicate_all(&history.messages);
    if current.messages.len() > 0 {
        let last = &current.messages[current.messages.len() - 1];
        assert(last@ == request@.messages.last());
        if carries_runtime(last) {
            let ghost earlier = messages@;
            messages.push(last.duplicate());
            assert(model::views(messages@) =~= model::views(earlier).push(request@.messages.last()));
        }
    }
    current.messages = Vec::new();
    assert(current@ =~= checkpoint::with_messages(request@, seq![]));
    let meter = TokenMeter::restore(records, agent, &current, rebuilt);
    current.messages = messages;
    assert(current@ =~= checkpoint::with_messages(request@, recorded_messages(request@, history@.messages)));
    meter.estimate(&current)
}

/// Context occupancy of an agent as the journal gives it, where it gives any.
pub open spec fn recorded_usage(
    records: Seq<EventRecord>,
    rebuilt: Seq<(u64, ModelRequest)>,
    histories: Map<AgentPath, HistoryView>,
    agent: AgentPath,
) -> Option<ContextUsage> {
    match newest_request(records, agent, rebuilt) {
        Some(request) => if recorded_capacities(records).dom().contains(agent) && histories.dom().contains(agent) {
            Some(
                ContextUsage {
                    tokens: recorded_tokens(records, agent, rebuilt, request, histories[agent].messages),
                    capacity: recorded_capacities(records)[agent],
                },
            )
        } else {
            None
        },
        None => None,
    }
}

/// Context occupancy of all agents as the journal gives it.
pub open spec fn recorded_contexts(
    records: Seq<EventRecord>,
    rebuilt: Seq<(u64, ModelRequest)>,
    histories: Map<AgentPath, HistoryView>,
) -> Map<AgentPath, ContextUsage> {
    Map::new(
        |agent: AgentPath| recorded_usage(records, rebuilt, histories, agent) is Some,
        |agent: AgentPath| recorded_usage(records, rebuilt, histories, agent)->Some_0,
    )
}

/// Reconstructs the context occupancy of all agents without consulting current
/// settings. `rebuilt` holds the requests that could be rebuilt from the journal, and
/// `histories` the histories that it gives.
pub fn recorded_context(
    records: &Vec<EventRecord>,
    rebuilt: &Vec<(u64, ModelRequest)>,
    histories: &Table<AgentId, History>,
) -> (contexts: Table<AgentId, ContextUsage>)
    ensures
        contexts@ == recorded_contexts(records@, rebuilt@, histories@),
{
    let known = capacities(records);
    let entries = known.entries();
    let ghost all = recorded_capacities(records@);
    proof {
        table::lemma_entries_map(entries@);
    }
    let mut contexts: Table<AgentId, ContextUsage> = Table::new();
    let mut i: usize = 0;
    while i < entries.len()
        invariant
            i <= entries.len(),
            all == recorded_capacities(records@),
            table::distinct_keys(entries@),
            forall|k: int|
                0 <= k < entries@.len() ==> all.dom().contains((#[trigger] entries@[k]).0@)
                    && all[entries@[k].0@] == entries@[k].1@,
            forall|agent: AgentPath| #[trigger]
                contexts@.dom().contains(agent) ==> recorded_usage(records@, rebuilt@, histories@, agent) == Some(
                    contexts@[agent],
                ),
            forall|k: int|
                0 <= k < i && recorded_usage(
                    records@,
                    rebuilt@,
                    histories@,
                    (#[trigger] entries@[k]).0@,
                ) is Some ==> contexts@.dom().contains(entries@[k].0@),
        decreases entries.len() - i,
    {
        let agent = &entries[i].0;
        assert(all.dom().contains(entries@[i as int].0@));
        if let Some(request) = find_newest(records, agent, rebuilt) {
            if let Some(history) = histories.get(agent) {
                let tokens: u64 = count_tokens(records, agent, rebuilt, request, history);
                contexts.insert(agent.duplicate(), ContextUsage { tokens, capacity: entries[i].1 });
            }
        }
        i += 1;
    }
    proof {
        assert forall|agent: AgentPath| recorded_usage(records@, rebuilt@, histories@, agent) is Some implies #[trigger]
        contexts@.dom().contains(agent) by {
            assert(all.dom().contains(agent));
            let k = choose|k: int| 0 <= k < entries@.len() && (#[trigger] entries@[k]).0@ == agent;
            assert(contexts@.dom().contains(entries@[k].0@));
        }
        assert(contexts@ =~= recorded_contexts(records@, rebuilt@, histories@));
    }
    contexts
}

/// A context that needs no compaction leaves room for a whole answer: what it is
/// estimated to take and the largest answer fit in the window together.
pub proof fn open_contexts_leave_room(baseline: Option<(u64, u64)>, tokens: u64, max_context: u64, max_output: u64)
    requires
        compact::calibrated(baseline, tokens) < compact::saturating_difference(max_context, max_output),
    ensures
        compact::calibrated(baseline, tokens) + max_output < max_context,
        tokens + max_output < max_context,
{
    compact::calibration_never_lowers_estimates(baseline, tokens);
}

/// A request that does not leave room for a whole answer is compacted for: there is no
/// window in which it and the largest answer would fit together.
pub proof fn full_contexts_have_no_room(baseline: Option<(u64, u64)>, tokens: u64, max_context: u64, max_output: u64)
    requires
        compact::calibrated(baseline, tokens) >= compact::saturating_difference(max_context, max_output),
    ensures
        compact::calibrated(baseline, tokens) + max_output >= max_context,
{
}

/// A message has images where a block of the user or a tool result has one.
pub proof fn images_are_found_in_blocks_and_results(
    content: Seq<UserContentView>,
    results: Seq<ToolResultView>,
    blocks: Seq<AssistantContentView>,
)
    ensures
        message_has_images(MessageView::User(content)) <==> exists|i: int|
            0 <= i < content.len() && ((#[trigger] content[i]) matches UserContentView::Image { .. }),
        message_has_images(MessageView::Tool(results)) <==> exists|i: int|
            0 <= i < results.len() && (#[trigger] results[i]).images.len() > 0,
        !message_has_images(MessageView::Assistant(blocks)),
{
    if queue::has_image(content) {
        let i = choose|i: int| 0 <= i < content.len() && (#[trigger] content[i]) is Image;
        assert(content[i] matches UserContentView::Image { .. });
    }
    if exists|i: int| 0 <= i < content.len() && ((#[trigger] content[i]) matches UserContentView::Image { .. }) {
        let i = choose|i: int|
            0 <= i < content.len() && ((#[trigger] content[i]) matches UserContentView::Image { .. });
        assert(content[i] is Image);
    }
}

/// The window of an agent is what was recorded of it last: when it started, or when its
/// model changed. Records of other agents do not matter.
pub proof fn windows_are_what_was_recorded_last(records: Seq<EventRecord>, record: EventRecord, agent: AgentPath)
    ensures
        ({
            let before = recorded_capacities(records);
            let after = recorded_capacities(records.push(record));
            let same = after.dom().contains(agent) == before.dom().contains(agent) && (before.dom().contains(agent)
                ==> after[agent] == before[agent]);
            if record.agent@ != agent {
                same
            } else {
                match record.event {
                    SessionEvent::AgentStarted { max_context: Some(capacity), .. } => after.dom().contains(agent)
                        && after[agent] == capacity,
                    SessionEvent::ModelChanged { max_context, .. } => after.dom().contains(agent) && after[agent]
                        == max_context,
                    _ => same,
                }
            }
        }),
{
    assert(records.push(record).drop_last() =~= records);
}

/// The newest request of an agent is its own last request for an answer that can be rebuilt.
pub proof fn requests_are_the_agents_own(
    records: Seq<EventRecord>,
    record: EventRecord,
    agent: AgentPath,
    rebuilt: Seq<(u64, ModelRequest)>,
)
    ensures
        ({
            let before = newest_request(records, agent, rebuilt);
            let after = newest_request(records.push(record), agent, rebuilt);
            let asks = record.agent@ == agent && (record.event matches SessionEvent::ModelRequested { purpose, .. }
                && purpose == ModelPurpose::Agent);
            let found = compact::rebuilt_request(rebuilt, record.sequence);
            after == if asks && found is Some {
                found
            } else {
                before
            }
        }),
{
    assert(records.push(record).drop_last() =~= records);
}

/// A recorded context is the agent's history now, behind it the state that its last request
/// ended with, where that is one.
pub proof fn recorded_contexts_end_with_the_state(request: ModelRequestView, history: Seq<MessageView>)
    ensures
        ({
            let messages = recorded_messages(request, history);
            let stated = request.messages.len() > 0 && (request.messages.last() matches MessageView::User(content)
                && exists|i: int|
                0 <= i < content.len() && ((#[trigger] content[i]) matches UserContentView::Runtime { .. }));
            if stated {
                messages.len() == history.len() + 1 && messages.drop_last() == history && messages.last()
                    == request.messages.last()
            } else {
                messages == history
            }
        }),
{
    if request.messages.len() > 0 {
        if let MessageView::User(content) = request.messages.last() {
            if is_runtime(request.messages.last()) {
                let i = choose|i: int| 0 <= i < content.len() && (#[trigger] content[i]) is Runtime;
                assert(content[i] matches UserContentView::Runtime { .. });
            }
            if exists|i: int| 0 <= i < content.len() && ((#[trigger] content[i]) matches UserContentView::Runtime { .. }) {
                let i = choose|i: int|
                    0 <= i < content.len() && ((#[trigger] content[i]) matches UserContentView::Runtime { .. });
                assert(content[i] is Runtime);
            }
        }
    }
    assert(history.push(request.messages.last()).drop_last() =~= history);
}

/// Context use is known of exactly those agents whose window, history and newest request
/// are, and is told against that window.
pub proof fn known_contexts_have_all_parts(
    records: Seq<EventRecord>,
    rebuilt: Seq<(u64, ModelRequest)>,
    histories: Map<AgentPath, HistoryView>,
    agent: AgentPath,
)
    ensures
        ({
            let contexts = recorded_contexts(records, rebuilt, histories);
            let request = newest_request(records, agent, rebuilt);
            &&& contexts.dom().contains(agent) <==> request is Some && recorded_capacities(records).dom().contains(
                agent,
            ) && histories.dom().contains(agent)
            &&& contexts.dom().contains(agent) ==> contexts[agent].capacity == recorded_capacities(records)[agent]
            &&& contexts.dom().contains(agent) ==> contexts[agent].tokens >= compaction::capped(
                compaction::request_tokens(
                    checkpoint::with_messages(
                        request->0,
                        recorded_messages(request->0, histories[agent].messages),
                    ),
                ),
            )
        }),
{
    if let Some(request) = newest_request(records, agent, rebuilt) {
        if histories.dom().contains(agent) {
            compact::calibration_never_lowers_estimates(
                compact::restored_baseline(
                    records,
                    records.len(),
                    agent,
                    checkpoint::with_messages(request, seq![]),
                    rebuilt,
                ),
                compaction::capped(
                    compaction::request_tokens(
                        checkpoint::with_messages(request, recorded_messages(request, histories[agent].messages)),
                    ),
                ),
            );
        }
    }
}

/// A history has images where one of its messages has.
pub proof fn every_message_is_looked_at_for_images(messages: Seq<MessageView>, index: int)
    ensures
        0 <= index < messages.len() && message_has_images(messages[index]) ==> have_images(messages),
        have_images(messages) ==> exists|i: int| 0 <= i < messages.len() && message_has_images(#[trigger] messages[i]),
{
}

} // verus!
