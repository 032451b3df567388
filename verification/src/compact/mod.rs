//! Compaction of an agent's history: metering, retention, attempts and checkpoints.
//! Original messages stay in the journal.

use vstd::prelude::*;
use crate::compaction;
use crate::compaction::estimate_request;
use crate::identity::{AgentId, AgentPath};
use crate::journal::{EventRecord, ModelPurpose, SessionEvent};
use crate::json;
use crate::model;
use crate::model::Modeled;
use crate::protocol;
use crate::protocol::{Message, MessageView, ModelRequest, ModelRequestView, Usage};

pub mod checkpoint;
pub mod retention;
pub mod summary;

verus! {

/// Calibrates the next estimate against the last successful request with the same
/// template.
#[derive(Clone, Copy, Debug, PartialEq, Eq)]
pub struct TokenMeter {
    baseline: Option<(u64, u64)>,
}

/// The difference of two counters, or zero where it is negative.
pub open spec fn saturating_difference(left: u64, right: u64) -> u64 {
    if left < right {
        0
    } else {
        (left - right) as u64
    }
}

/// An estimate corrected by what an earlier estimate turned out to be. A baseline
/// holds the earlier estimate and the tokens that the provider counted for it.
pub open spec fn calibrated(baseline: Option<(u64, u64)>, estimate: u64) -> u64 {
    match baseline {
        None => estimate,
        Some((earlier, actual)) => {
            let corrected = saturating_difference(protocol::saturating_sum(actual, estimate), earlier);
            if estimate < corrected {
                corrected
            } else {
                estimate
            }
        },
    }
}

/// The baseline after a request with an estimate has used tokens.
pub open spec fn observed(baseline: Option<(u64, u64)>, estimate: u64, usage: Usage) -> Option<(u64, u64)> {
    let actual = protocol::saturating_sum(usage.input_tokens, usage.cached_input_tokens);
    if actual > 0 {
        Some((estimate, actual))
    } else {
        baseline
    }
}

/// The first record with a sequence.
pub open spec fn record_position(records: Seq<EventRecord>, sequence: u64) -> Option<int>
    decreases records.len(),
{
    if records.len() == 0 {
        None
    } else {
        match record_position(records.drop_last(), sequence) {
            Some(position) => Some(position),
            None => if records.last().sequence == sequence {
                Some(records.len() - 1)
            } else {
                None
            },
        }
    }
}

/// Whether the journal holds a model context under a sequence whose template is
/// the given one.
pub open spec fn has_template(records: Seq<EventRecord>, context: u64, template: ModelRequestView) -> bool {
    exists|i: int| 0 <= i < records.len() && template_at(#[trigger] records[i], context, template)
}

/// Whether a record is a model context with a sequence and a template.
pub open spec fn template_at(record: EventRecord, context: u64, template: ModelRequestView) -> bool {
    &&& record.sequence == context
    &&& record.event matches SessionEvent::ModelContext { template: original, .. }
    &&& ModelRequest::alike(original@, template)
}

/// A request that was rebuilt from the journal, by its sequence.
pub open spec fn rebuilt_request(rebuilt: Seq<(u64, ModelRequest)>, sequence: u64) -> Option<ModelRequestView>
    decreases rebuilt.len(),
{
    if rebuilt.len() == 0 {
        None
    } else {
        match rebuilt_request(rebuilt.drop_last(), sequence) {
            Some(request) => Some(request),
            None => if rebuilt.last().0 == sequence {
                Some(rebuilt.last().1@)
            } else {
                None
            },
        }
    }
}

/// The context of an agent request, if the journal records one under a sequence.
pub open spec fn agent_request_context(records: Seq<EventRecord>, request: u64) -> Option<u64> {
    match record_position(records, request) {
        Some(position) => match records[position].event {
            SessionEvent::ModelRequested { context, purpose: ModelPurpose::Agent, .. } => Some(context),
            _ => None,
        },
        None => None,
    }
}

/// The baseline that the newest usage of an agent request gives, scanning an
/// agent's records backwards from a position. A compaction or a change of model
/// ends the scan, and so does the first usage that belongs to an agent request.
pub open spec fn restored_baseline(
    records: Seq<EventRecord>,
    position: nat,
    agent: AgentPath,
    template: ModelRequestView,
    rebuilt: Seq<(u64, ModelRequest)>,
) -> Option<(u64, u64)>
    decreases position,
{
    if position == 0 || position > records.len() {
        None
    } else {
        let record = records[position - 1];
        let earlier = restored_baseline(records, (position - 1) as nat, agent, template, rebuilt);
        if record.agent@ != agent {
            earlier
        } else {
            match record.event {
                SessionEvent::Compaction { .. } => None,
                SessionEvent::ModelChanged { .. } => None,
                SessionEvent::Usage { request: Some(request), usage } => match agent_request_context(
                    records,
                    request,
                ) {
                    Some(context) => match rebuilt_request(rebuilt, request) {
                        Some(original) => if has_template(records, context, template) {
                            observed(None, compaction::capped(compaction::request_tokens(original)), usage)
                        } else {
                            None
                        },
                        None => None,
                    },
                    None => earlier,
                },
                _ => earlier,
            }
        }
    }
}

/// The first record with a sequence is the one that is found.
proof fn lemma_record_position(records: Seq<EventRecord>, sequence: u64, index: int)
    requires
        0 <= index <= records.len(),
        forall|k: int| 0 <= k < index ==> (#[trigger] records[k]).sequence != sequence,
        index < records.len() ==> records[index].sequence == sequence,
    ensures
        record_position(records, sequence) == if index < records.len() {
            Some(index)
        } else {
            None::<int>
        },
    decreases records.len(),
{
    if records.len() > 0 {
        let rest = records.drop_last();
        if index < records.len() {
            assert forall|k: int| 0 <= k < index implies (#[trigger] rest[k]).sequence != sequence by {
                assert(rest[k] == records[k]);
            }
            if index < rest.len() {
                assert(rest[index] == records[index]);
            }
            lemma_record_position(rest, sequence, index);
        } else {
            assert forall|k: int| 0 <= k < rest.len() implies (#[trigger] rest[k]).sequence != sequence by {
                assert(rest[k] == records[k]);
            }
            lemma_record_position(rest, sequence, rest.len() as int);
            assert(records[records.len() - 1].sequence != sequence);
        }
    }
}

/// Finds the first record with a sequence.
pub fn find_record(records: &Vec<EventRecord>, sequence: u64) -> (found: Option<usize>)
    ensures
        match found {
            Some(index) => index < records.len() && record_position(records@, sequence) == Some(
                index as int,
            ),
            None => record_position(records@, sequence) is None,
        },
{
    let mut i: usize = 0;
    while i < records.len()
        invariant
            i <= records.len(),
            forall|k: int| 0 <= k < i ==> (#[trigger] records@[k]).sequence != sequence,
        decreases records.len() - i,
    {
        if records[i].sequence == sequence {
            proof {
                lemma_record_position(records@, sequence, i as int);
            }
            return Some(i);
        }
        i += 1;
    }
    proof {
        lemma_record_position(records@, sequence, i as int);
    }
    None
}

/// The first rebuilt request with a sequence is the one that counts.
proof fn lemma_rebuilt_request(rebuilt: Seq<(u64, ModelRequest)>, sequence: u64, index: int)
    requires
        0 <= index <= rebuilt.len(),
        forall|k: int| 0 <= k < index ==> (#[trigger] rebuilt[k]).0 != sequence,
        index < rebuilt.len() ==> rebuilt[index].0 == sequence,
    ensures
        rebuilt_request(rebuilt, sequence) == if index < rebuilt.len() {
            Some(rebuilt[index].1@)
        } else {
            None::<ModelRequestView>
        },
    decreases rebuilt.len(),
{
    if rebuilt.len() > 0 {
        let rest = rebuilt.drop_last();
        if index < rebuilt.len() {
            assert forall|k: int| 0 <= k < index implies (#[trigger] rest[k]).0 != sequence by {
                assert(rest[k] == rebuilt[k]);
            }
            if index < rest.len() {
                assert(rest[index] == rebuilt[index]);
            }
            lemma_rebuilt_request(rest, sequence, index);
        } else {
            assert forall|k: int| 0 <= k < rest.len() implies (#[trigger] rest[k]).0 != sequence by {
                assert(rest[k] == rebuilt[k]);
            }
            lemma_rebuilt_request(rest, sequence, rest.len() as int);
            assert(rebuilt[rebuilt.len() - 1].0 != sequence);
        }
    }
}

/// Finds a rebuilt request.
pub fn find_rebuilt(rebuilt: &Vec<(u64, ModelRequest)>, sequence: u64) -> (found: Option<&ModelRequest>)
    ensures
        match found {
            Some(request) => rebuilt_request(rebuilt@, sequence) == Some(request@),
            None => rebuilt_request(rebuilt@, sequence) is None,
        },
{
    let mut i: usize = 0;
    while i < rebuilt.len()
        invariant
            i <= rebuilt.len(),
            forall|k: int| 0 <= k < i ==> (#[trigger] rebuilt@[k]).0 != sequence,
        decreases rebuilt.len() - i,
    {
        if rebuilt[i].0 == sequence {
            proof {
                lemma_rebuilt_request(rebuilt@, sequence, i as int);
            }
            return Some(&rebuilt[i].1);
        }
        i += 1;
    }
    proof {
        lemma_rebuilt_request(rebuilt@, sequence, i as int);
    }
    None
}

/// Tests whether a model context in the journal has a template.
fn find_template(records: &Vec<EventRecord>, context: u64, template: &ModelRequest) -> (found: bool)
    ensures
        found == has_template(records@, context, template@),
{
    let mut i: usize = 0;
    while i < records.len()
        invariant
            i <= records.len(),
            forall|k: int| 0 <= k < i ==> !template_at(#[trigger] records@[k], context, template@),
        decreases records.len() - i,
    {
        if records[i].sequence == context {
            if let SessionEvent::ModelContext { template: original, .. } = &records[i].event {
                if original.same(template) {
                    assert(template_at(records@[i as int], context, template@));
                    return true;
                }
            }
        }
        i += 1;
    }
    false
}

impl TokenMeter {
    /// The earlier estimate and what it turned out to be.
    pub closed spec fn spec_baseline(self) -> Option<(u64, u64)> {
        self.baseline
    }

    /// A meter that has observed nothing.
    pub fn new() -> (meter: TokenMeter)
        ensures
            meter.spec_baseline() is None,
    {
        TokenMeter { baseline: None }
    }

    /// Restores the calibration of an agent from the journal. `rebuilt` holds the
    /// requests that could be rebuilt from it, by sequence.
    pub fn restore(
        records: &Vec<EventRecord>,
        agent: &AgentId,
        template: &ModelRequest,
        rebuilt: &Vec<(u64, ModelRequest)>,
    ) -> (meter: TokenMeter)
        ensures
            meter.spec_baseline() == restored_baseline(
                records@,
                records@.len(),
                agent@,
                template@,
                rebuilt@,
            ),
    {
        let mut meter = TokenMeter::new();
        let mut position: usize = records.len();
        while position > 0
            invariant
                position <= records.len(),
                meter.baseline is None,
                restored_baseline(records@, position as nat, agent@, template@, rebuilt@)
                    == restored_baseline(records@, records@.len(), agent@, template@, rebuilt@),
            decreases position,
        {
            position -= 1;
            let record = &records[position];
            if !record.agent.same(agent) {
                continue;
            }
            match &record.event {
                SessionEvent::Compaction { .. } => {
                    return meter;
                },
                SessionEvent::ModelChanged { .. } => {
                    return meter;
                },
                SessionEvent::Usage { request: Some(request), usage } => {
                    let context: u64 = match find_record(records, *request) {
                        Some(index) => match &records[index].event {
                            SessionEvent::ModelRequested { context, purpose: ModelPurpose::Agent, .. } => *context,
                            _ => {
                                continue;
                            },
                        },
                        None => {
                            continue;
                        },
                    };
                    if find_template(records, context, template) {
                        if let Some(original) = find_rebuilt(rebuilt, *request) {
                            let estimate: u64 = estimate_request(original);
                            meter.observe(estimate, *usage);
                        }
                    }
                    return meter;
                },
                _ => {},
            }
        }
        meter
    }

    /// Estimates the tokens of a request.
    pub fn estimate(&self, request: &ModelRequest) -> (tokens: u64)
        ensures
            tokens == calibrated(
                self.spec_baseline(),
                compaction::capped(compaction::request_tokens(request@)),
            ),
    {
        let estimate: u64 = estimate_request(request);
        match self.baseline {
            None => estimate,
            Some((earlier, actual)) => {
                let corrected: u64 = actual.saturating_add(estimate).saturating_sub(earlier);
                if estimate < corrected {
                    corrected
                } else {
                    estimate
                }
            },
        }
    }

    /// Takes what a provider counted for a request with an estimate.
    pub fn observe(&mut self, estimate: u64, usage: Usage)
        ensures
            final(self).spec_baseline() == observed(old(self).spec_baseline(), estimate, usage),
    {
        let actual: u64 = usage.input_tokens.saturating_add(usage.cached_input_tokens);
        if actual > 0 {
            self.baseline = Some((estimate, actual));
        }
    }
}

/// A calibrated estimate is never below the raw one.
pub proof fn calibration_never_lowers_estimates(baseline: Option<(u64, u64)>, estimate: u64)
    ensures
        calibrated(baseline, estimate) >= estimate,
{
}

/// Right after an observation, the observed request is estimated at what the
/// provider counted, or at its raw estimate where that is larger.
pub proof fn observation_calibrates_its_request(
    baseline: Option<(u64, u64)>,
    estimate: u64,
    usage: Usage,
)
    requires
        0 < usage.input_tokens + usage.cached_input_tokens,
        estimate + usage.input_tokens + usage.cached_input_tokens <= u64::MAX,
    ensures
        ({
            let actual = usage.input_tokens + usage.cached_input_tokens;
            calibrated(observed(baseline, estimate, usage), estimate) == if actual > estimate {
                actual
            } else {
                estimate as int
            }
        }),
{
}

/// A larger request is never estimated as smaller under the same calibration.
pub proof fn calibration_is_monotonic(baseline: Option<(u64, u64)>, smaller: u64, larger: u64)
    requires
        smaller <= larger,
    ensures
        calibrated(baseline, smaller) <= calibrated(baseline, larger),
{
}

/// The sequences of a projected history.
pub open spec fn source_sequences(projected: Seq<(u64, Message)>) -> Seq<u64> {
    projected.map_values(|entry: (u64, Message)| entry.0)
}

/// Lists the sequences of a projected history.
pub fn context_sources(projected: &Vec<(u64, Message)>) -> (sources: Vec<u64>)
    ensures
        sources@ == source_sequences(projected@),
{
    let mut sources: Vec<u64> = Vec::new();
    let mut i: usize = 0;
    while i < projected.len()
        invariant
            i <= projected.len(),
            sources@ == source_sequences(projected@.take(i as int)),
        decreases projected.len() - i,
    {
        sources.push(projected[i].0);
        assert(sources@ =~= source_sequences(projected@.take(i + 1)));
        i += 1;
    }
    assert(projected@.take(i as int) =~= projected@);
    sources
}

/// The messages of a projected history.
pub open spec fn history(projected: Seq<(u64, Message)>) -> Seq<MessageView> {
    projected.map_values(|entry: (u64, Message)| entry.1@)
}

/// Copies the messages of a projected history.
pub fn history_messages(projected: &Vec<(u64, Message)>) -> (messages: Vec<Message>)
    ensures
        model::views(messages@) == history(projected@),
{
    let mut messages: Vec<Message> = Vec::new();
    let mut i: usize = 0;
    while i < projected.len()
        invariant
            i <= projected.len(),
            model::views(messages@) == history(projected@.take(i as int)),
        decreases projected.len() - i,
    {
        let ghost earlier = messages@;
        messages.push(projected[i].1.duplicate());
        proof {
            assert(model::views(messages@) =~= model::views(earlier).push(projected@[i as int].1@));
            assert(history(projected@.take(i + 1)) =~= history(projected@.take(i as int)).push(
                projected@[i as int].1@,
            ));
        }
        i += 1;
    }
    assert(projected@.take(i as int) =~= projected@);
    messages
}

/// The sequence of an agent's last compaction.
pub open spec fn last_compaction(records: Seq<EventRecord>, agent: AgentPath) -> Option<u64>
    decreases records.len(),
{
    if records.len() == 0 {
        None
    } else if records.last().agent@ == agent && records.last().event is Compaction {
        Some(records.last().sequence)
    } else {
        last_compaction(records.drop_last(), agent)
    }
}

/// Finds the sequence of an agent's last compaction.
pub fn checkpoint_sequence(records: &Vec<EventRecord>, agent: &AgentId) -> (sequence: Option<u64>)
    ensures
        sequence == last_compaction(records@, agent@),
{
    let mut i: usize = records.len();
    assert(records@.take(i as int) =~= records@);
    while i > 0
        invariant
            i <= records.len(),
            last_compaction(records@, agent@) == last_compaction(records@.take(i as int), agent@),
        decreases i,
    {
        i -= 1;
        assert(records@.take(i + 1).drop_last() =~= records@.take(i as int));
        if records[i].agent.same(agent) {
            if let SessionEvent::Compaction { .. } = &records[i].event {
                return Some(records[i].sequence);
            }
        }
    }
    None
}

/// An observed request corrects later estimates by what it was short of: a request that is
/// estimated at more than the observed one is taken to need as much more than the observed
/// one did, and never less than it is estimated at. Without an observation the estimate
/// stands.
pub proof fn calibration_adds_what_was_missing(earlier: u64, actual: u64, estimate: u64)
    ensures
        calibrated(None, estimate) == estimate,
        earlier <= estimate && actual + (estimate - earlier) <= u64::MAX && actual + estimate <= u64::MAX ==> calibrated(
            Some((earlier, actual)),
            estimate,
        ) == if actual >= earlier {
            actual + (estimate - earlier)
        } else {
            estimate as int
        },
{
}

/// What counts as observed is everything that was sent, whether it was cached or not. A
/// request of which nothing was counted leaves the meter as it was.
pub proof fn observations_count_all_input(baseline: Option<(u64, u64)>, estimate: u64, usage: Usage)
    ensures
        usage.input_tokens == 0 && usage.cached_input_tokens == 0 ==> observed(baseline, estimate, usage) == baseline,
        0 < usage.input_tokens + usage.cached_input_tokens <= u64::MAX ==> observed(baseline, estimate, usage) == Some(
            (estimate, (usage.input_tokens + usage.cached_input_tokens) as u64),
        ),
{
}

/// The newest compaction of an agent is found: there is one where its sequence is given, no
/// record behind it is another, and there is none where nothing is given.
pub proof fn the_newest_compaction_is_found(records: Seq<EventRecord>, agent: AgentPath)
    ensures
        match last_compaction(records, agent) {
            Some(sequence) => exists|i: int|
                0 <= i < records.len() && (#[trigger] records[i]).sequence == sequence && records[i].agent@ == agent
                    && records[i].event is Compaction && forall|k: int|
                    i < k < records.len() ==> !((#[trigger] records[k]).agent@ == agent
                        && records[k].event is Compaction),
            None => forall|k: int|
                0 <= k < records.len() ==> !((#[trigger] records[k]).agent@ == agent && records[k].event is Compaction),
        },
    decreases records.len(),
{
    if records.len() > 0 {
        let rest = records.drop_last();
        let last = records.len() - 1;
        if records[last].agent@ == agent && records[last].event is Compaction {
            assert(records[last].sequence == records.last().sequence);
        } else {
            the_newest_compaction_is_found(rest, agent);
            assert forall|k: int| 0 <= k < rest.len() implies #[trigger] rest[k] == records[k] by {}
            match last_compaction(rest, agent) {
                Some(sequence) => {
                    let i = choose|i: int|
                        0 <= i < rest.len() && (#[trigger] rest[i]).sequence == sequence && rest[i].agent@ == agent
                            && rest[i].event is Compaction && forall|k: int|
                            i < k < rest.len() ==> !((#[trigger] rest[k]).agent@ == agent
                                && rest[k].event is Compaction);
                    assert(records[i].sequence == sequence);
                    assert forall|k: int| i < k < records.len() implies !((#[trigger] records[k]).agent@ == agent
                        && records[k].event is Compaction) by {
                        if k < rest.len() {
                            assert(rest[k] == records[k]);
                        }
                    }
                },
                None => {
                    assert forall|k: int| 0 <= k < records.len() implies !((#[trigger] records[k]).agent@ == agent
                        && records[k].event is Compaction) by {
                        if k < rest.len() {
                            assert(rest[k] == records[k]);
                        }
                    }
                },
            }
        }
    }
}

/// What a journal says of an agent's meter is what its own records said last: a compaction
/// or a change of the model clears it, and the usage of a request of the agent under the
/// same template sets it to that request. Records of other agents, and other records, leave
/// it as it was.
pub proof fn meters_follow_their_records(
    records: Seq<EventRecord>,
    position: nat,
    agent: AgentPath,
    template: ModelRequestView,
    rebuilt: Seq<(u64, ModelRequest)>,
)
    requires
        position < records.len(),
    ensures
        ({
            let record = records[position as int];
            let before = restored_baseline(records, position, agent, template, rebuilt);
            let after = restored_baseline(records, position + 1, agent, template, rebuilt);
            &&& record.agent@ != agent ==> after == before
            &&& record.agent@ == agent ==> match record.event {
                SessionEvent::Compaction { .. } => after is None,
                SessionEvent::ModelChanged { .. } => after is None,
                SessionEvent::Usage { request: Some(request), usage } => {
                    let context = agent_request_context(records, request);
                    let original = rebuilt_request(rebuilt, request);
                    &&& context is None ==> after == before
                    &&& context is Some && (original is None || !has_template(records, context->0, template))
                        ==> after is None
                    &&& context is Some && original is Some && has_template(records, context->0, template) && 0
                        < usage.input_tokens + usage.cached_input_tokens <= u64::MAX ==> after == Some(
                        (
                            compaction::capped(compaction::request_tokens(original->0)),
                            (usage.input_tokens + usage.cached_input_tokens) as u64,
                        ),
                    )
                },
                _ => after == before,
            }
        }),
{
}

/// The record with a sequence is the first that has it, and the context of a request is
/// known where that record asks for an agent's answer.
pub proof fn requests_are_found_by_sequence(records: Seq<EventRecord>, request: u64, index: int)
    requires
        0 <= index < records.len(),
        records[index].sequence == request,
        forall|k: int| 0 <= k < index ==> (#[trigger] records[k]).sequence != request,
    ensures
        record_position(records, request) == Some(index),
        agent_request_context(records, request) == match records[index].event {
            SessionEvent::ModelRequested { context, purpose, .. } => if purpose == ModelPurpose::Agent {
                Some(context)
            } else {
                None
            },
            _ => None,
        },
    decreases records.len(),
{
    let rest = records.drop_last();
    assert forall|k: int| 0 <= k < rest.len() implies #[trigger] rest[k] == records[k] by {}
    if index < rest.len() {
        requests_are_found_by_sequence(rest, request, index);
    } else {
        lemma_no_position(rest, request);
    }
}

proof fn lemma_no_position(records: Seq<EventRecord>, sequence: u64)
    requires
        forall|k: int| 0 <= k < records.len() ==> (#[trigger] records[k]).sequence != sequence,
    ensures
        record_position(records, sequence) is None,
    decreases records.len(),
{
    if records.len() > 0 {
        let rest = records.drop_last();
        assert forall|k: int| 0 <= k < rest.len() implies (#[trigger] rest[k]).sequence != sequence by {
            assert(rest[k] == records[k]);
        }
        lemma_no_position(rest, sequence);
        assert(records[records.len() - 1] == records.last());
    }
}

/// A projected history stands for its messages and their sequences one by one.
pub proof fn projections_are_read_one_by_one(projected: Seq<(u64, Message)>, index: int)
    requires
        0 <= index < projected.len(),
    ensures
        history(projected).len() == projected.len() && history(projected)[index] == projected[index].1@,
        source_sequences(projected).len() == projected.len() && source_sequences(projected)[index]
            == projected[index].0,
{
}

/// A request that was rebuilt is found by its sequence: the first of those that have it.
pub proof fn rebuilt_requests_are_found(rebuilt: Seq<(u64, ModelRequest)>, sequence: u64, index: int)
    requires
        0 <= index <= rebuilt.len(),
        forall|k: int| 0 <= k < index ==> (#[trigger] rebuilt[k]).0 != sequence,
        index < rebuilt.len() ==> rebuilt[index].0 == sequence,
    ensures
        rebuilt_request(rebuilt, sequence) == if index < rebuilt.len() {
            Some(rebuilt[index].1@)
        } else {
            None
        },
    decreases rebuilt.len(),
{
    if rebuilt.len() > 0 {
        let rest = rebuilt.drop_last();
        let last = rebuilt.len() - 1;
        assert(rebuilt[last] == rebuilt.last());
        assert forall|k: int| 0 <= k < rest.len() implies #[trigger] rest[k] == rebuilt[k] by {}
        if index <= last {
            rebuilt_requests_are_found(rest, sequence, index);
        } else {
            assert(rebuilt[last].0 != sequence);
            rebuilt_requests_are_found(rest, sequence, last);
        }
    }
}

/// A template counts for a context only where the journal has one under that sequence which
/// asks the same model with the same instructions and the same tools.
pub proof fn templates_are_those_of_their_context(
    records: Seq<EventRecord>,
    context: u64,
    template: ModelRequestView,
    tool: int,
)
    requires
        has_template(records, context, template),
    ensures
        exists|i: int|
            0 <= i < records.len() && (#[trigger] records[i]).sequence == context && (
            records[i].event matches SessionEvent::ModelContext { template: original, .. } && original@.model
                == template.model && original@.system == template.system && original@.tools.len()
                == template.tools.len() && (0 <= tool < template.tools.len() ==> original@.tools[tool].name
                == template.tools[tool].name)),
{
    let i = choose|i: int| 0 <= i < records.len() && template_at(#[trigger] records[i], context, template);
    if let SessionEvent::ModelContext { template: original, .. } = records[i].event {
        protocol::alike_requests_agree(original@, template, tool);
    }
}

/// The template that the journal has under a context's sequence counts for it, whichever
/// agent recorded it.
pub proof fn recorded_templates_count(records: Seq<EventRecord>, index: int)
    requires
        0 <= index < records.len(),
        records[index].event matches SessionEvent::ModelContext { template, .. } && template@.messages.len() == 0
            && (forall|i: int|
            0 <= i < template@.tools.len() ==> json::has_distinct_keys((#[trigger] template@.tools[i]).input_schema))
            && (template@.response_schema matches Some(response) ==> json::has_distinct_keys(response.schema)),
    ensures
        records[index].event matches SessionEvent::ModelContext { template, .. } && has_template(
            records,
            records[index].sequence,
            template@,
        ),
{
    if let SessionEvent::ModelContext { template, .. } = records[index].event {
        protocol::templates_are_like_themselves(template@);
        assert(template_at(records[index], records[index].sequence, template@));
    }
}

/// A difference of counters is what is left, and nothing where more is taken away.
pub proof fn differences_stop_at_zero(left: u64, right: u64)
    ensures
        right <= left ==> saturating_difference(left, right) + right == left,
        left < right ==> saturating_difference(left, right) == 0,
{
}

} // verus!
