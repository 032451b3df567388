//! Preserves complete tool exchanges and finds outputs that history already carries.

use vstd::prelude::*;
use vstd::string::*;
use crate::compaction;
use crate::compaction::estimate_message;
use crate::error::HarnessError;
use crate::identity::{AgentId, AgentPath, JobId};
use crate::job;
use crate::job::{is_state_name, JobSet};
use crate::json;
use crate::json::{parse_json, Json, JsonView};
use crate::journal::{EventRecord, ModelCallOrigin, SessionEvent};
use crate::model::Modeled;
use crate::protocol;
use crate::protocol::{AssistantContent, Message, ToolResult, UserContent};
use crate::text::{strip_prefix, strip_suffix};

verus! {

/// Tokens of the newest visible messages that stay beside a continuation.
pub const TAIL_TOKENS: u64 = 8000;

/// An original message selected from one journal snapshot. Only retention pairs a
/// sequence with a payload, and no payload is copied.
#[derive(Debug)]
pub struct RetainedSource<'a> {
    sequence: u64,
    message: &'a Message,
}

impl<'a> RetainedSource<'a> {
    /// Journal sequence of the message.
    pub closed spec fn spec_sequence(self) -> u64 {
        self.sequence
    }

    /// The message itself.
    pub closed spec fn spec_message(self) -> Message {
        *self.message
    }

    /// The original message.
    pub fn message(&self) -> (message: &Message)
        ensures
            *message == self.spec_message(),
    {
        self.message
    }

    /// Journal sequence of the message.
    pub fn sequence(&self) -> (sequence: u64)
        ensures
            sequence == self.spec_sequence(),
    {
        self.sequence
    }

    /// Journal sequence of the message, where its payload is no longer needed.
    pub fn into_sequence(self) -> (sequence: u64)
        ensures
            sequence == self.spec_sequence(),
    {
        self.sequence
    }
}

/// The message that a record commits for an agent, with its sequence.
pub open spec fn committed(record: EventRecord, agent: AgentPath) -> Option<(u64, Message)> {
    if record.agent@ != agent {
        None
    } else {
        match record.event {
            SessionEvent::MessageCommitted { message } => Some((record.sequence, message)),
            _ => None,
        }
    }
}

/// The messages that an agent's records commit, in journal order.
pub open spec fn originals(records: Seq<EventRecord>, agent: AgentPath) -> Seq<(u64, Message)>
    decreases records.len(),
{
    if records.len() == 0 {
        seq![]
    } else {
        let earlier = originals(records.drop_last(), agent);
        match committed(records.last(), agent) {
            Some(entry) => earlier.push(entry),
            None => earlier,
        }
    }
}

/// Whether a sequence belongs to an entry.
pub open spec fn has_sequence(entries: Seq<(u64, Message)>, sequence: u64) -> bool {
    exists|i: int| 0 <= i < entries.len() && (#[trigger] entries[i]).0 == sequence
}

/// The projected messages that are originals of the agent.
pub open spec fn visible(projected: Seq<(u64, Message)>, entries: Seq<(u64, Message)>) -> Seq<(u64, Message)>
    decreases projected.len(),
{
    if projected.len() == 0 {
        seq![]
    } else {
        let earlier = visible(projected.drop_last(), entries);
        if has_sequence(entries, projected.last().0) {
            earlier.push(projected.last())
        } else {
            earlier
        }
    }
}

/// Estimated tokens of messages from a position on.
pub open spec fn tokens_from(entries: Seq<(u64, Message)>, start: int) -> u64
    decreases entries.len() - start,
{
    if start < 0 || start >= entries.len() {
        0
    } else {
        protocol::saturating_sum(
            tokens_from(entries, start + 1),
            compaction::capped(compaction::message_tokens(entries[start].1@)),
        )
    }
}

/// Where the newest messages that fit the budget begin. The last message is kept
/// even where it alone exceeds the budget.
pub open spec fn begins_tail(entries: Seq<(u64, Message)>, start: int) -> bool {
    &&& 0 <= start <= entries.len()
    &&& entries.len() > 0 ==> start < entries.len()
    &&& start == entries.len() - 1 || tokens_from(entries, start) <= TAIL_TOKENS
    &&& 0 < start ==> tokens_from(entries, start - 1) > TAIL_TOKENS
}

/// Where the retained tail begins: a tool message keeps the message before it.
pub open spec fn begins_retained(entries: Seq<(u64, Message)>, start: int) -> bool {
    exists|tail: int|
        #[trigger] begins_tail(entries, tail) && start == if 0 < tail < entries.len()
            && entries[tail].1 is Tool {
            tail - 1
        } else {
            tail
        }
}

/// Whether an assistant message holds a tool call with an identity.
pub open spec fn has_call(blocks: Seq<AssistantContent>, id: Seq<char>) -> bool {
    exists|i: int| 0 <= i < blocks.len() && is_call(#[trigger] blocks[i], id)
}

/// Whether a block is a tool call with an identity.
pub open spec fn is_call(block: AssistantContent, id: Seq<char>) -> bool {
    block matches AssistantContent::ToolCall(call) && call.id@ == id
}

/// Whether a result answers a call.
pub open spec fn has_result(results: Seq<ToolResult>, id: Seq<char>) -> bool {
    exists|i: int| 0 <= i < results.len() && (#[trigger] results[i]).call_id@ == id
}

/// Whether every tool call of a message has a result.
pub open spec fn all_answered(blocks: Seq<AssistantContent>, results: Seq<ToolResult>) -> bool {
    forall|i: int|
        0 <= i < blocks.len() ==> (#[trigger] blocks[i] matches AssistantContent::ToolCall(call)
            ==> has_result(results, call.id@))
}

/// The first entry with a sequence.
pub open spec fn entry_position(entries: Seq<(u64, Message)>, sequence: u64) -> Option<int>
    decreases entries.len(),
{
    if entries.len() == 0 {
        None
    } else {
        match entry_position(entries.drop_last(), sequence) {
            Some(position) => Some(position),
            None => if entries.last().0 == sequence {
                Some(entries.len() - 1)
            } else {
                None
            },
        }
    }
}

/// What is wrong with the exchange that started a job, if anything is.
pub open spec fn exchange_fault(entries: Seq<(u64, Message)>, message: u64, call: Seq<char>) -> Option<Seq<char>> {
    match entry_position(entries, message) {
        None => Some("active job creator message is missing"@),
        Some(position) => match entries[position].1 {
            Message::Assistant(blocks) => if !has_call(blocks@, call) {
                Some("active job creator call is missing"@)
            } else if position + 1 >= entries.len() {
                Some("active job creator has no complete result exchange"@)
            } else {
                match entries[position + 1].1 {
                    Message::Tool(results) => if all_answered(blocks@, results@) {
                        None
                    } else {
                        Some("active job exchange has an unmatched tool call"@)
                    },
                    _ => Some("active job creator has no complete result exchange"@),
                }
            },
            _ => Some("active job creator is not an assistant message"@),
        },
    }
}

/// The first exchange that is not complete, with what is wrong with it.
pub open spec fn first_fault(entries: Seq<(u64, Message)>, origins: Seq<ModelCallOrigin>) -> Option<Seq<char>>
    decreases origins.len(),
{
    if origins.len() == 0 {
        None
    } else {
        match first_fault(entries, origins.drop_last()) {
            Some(fault) => Some(fault),
            None => exchange_fault(entries, origins.last().message, origins.last().call_id@),
        }
    }
}

/// Whether an exchange that started a job holds a message: the assistant message
/// itself, or the tool message that follows it.
pub open spec fn in_exchange(entries: Seq<(u64, Message)>, origin: ModelCallOrigin, sequence: u64) -> bool {
    ||| sequence == origin.message
    ||| match entry_position(entries, origin.message) {
        Some(position) => position + 1 < entries.len() && entries[position + 1].0 == sequence,
        None => false,
    }
}

/// Whether a message stays: it is in the retained tail of the visible history, or
/// in the exchange of an active job.
pub open spec fn stays(
    entries: Seq<(u64, Message)>,
    shown: Seq<(u64, Message)>,
    origins: Seq<ModelCallOrigin>,
    sequence: u64,
) -> bool {
    ||| exists|start: int, i: int|
        #[trigger] begins_retained(shown, start) && start <= i < shown.len() && (#[trigger] shown[i]).0
            == sequence
    ||| exists|i: int|
        0 <= i < origins.len() && in_exchange(entries, #[trigger] origins[i], sequence)
}

/// The entries that satisfy a test, in order.
pub open spec fn kept(entries: Seq<(u64, Message)>, keep: spec_fn(u64) -> bool) -> Seq<(u64, Message)>
    decreases entries.len(),
{
    if entries.len() == 0 {
        seq![]
    } else {
        let earlier = kept(entries.drop_last(), keep);
        if keep(entries.last().0) {
            earlier.push(entries.last())
        } else {
            earlier
        }
    }
}

/// What retained sources hold.
pub open spec fn source_entries(sources: Seq<RetainedSource<'_>>) -> Seq<(u64, Message)> {
    sources.map_values(|source: RetainedSource<'_>| (source.spec_sequence(), source.spec_message()))
}

/// Whether entries are in the order of their sequences.
pub open spec fn in_order(entries: Seq<(u64, Message)>) -> bool {
    forall|i: int, j: int| 0 <= i <= j < entries.len() ==> (#[trigger] entries[i]).0 <= (#[trigger] entries[j]).0
}

/// A message estimate counts at least its frame.
proof fn lemma_message_tokens_positive(message: Message)
    ensures
        compaction::capped(compaction::message_tokens(message@)) > 0,
{
}

/// A longer tail never weighs less.
proof fn lemma_tokens_from_monotonic(entries: Seq<(u64, Message)>, first: int, second: int)
    requires
        0 <= first <= second,
    ensures
        tokens_from(entries, second) <= tokens_from(entries, first),
    decreases second - first,
{
    if first < second {
        lemma_tokens_from_monotonic(entries, first + 1, second);
    }
}

/// There is one place at which the retained tail can begin.
pub proof fn tail_start_is_unique(entries: Seq<(u64, Message)>, left: int, right: int)
    requires
        begins_tail(entries, left),
        begins_tail(entries, right),
    ensures
        left == right,
{
    if left < right {
        lemma_tokens_from_monotonic(entries, left, right - 1);
    }
    if right < left {
        lemma_tokens_from_monotonic(entries, right, left - 1);
    }
}

/// Collects the messages that an agent's records commit.
fn collect_originals<'a>(records: &'a Vec<EventRecord>, agent: &AgentId) -> (entries: Vec<RetainedSource<'a>>)
    ensures
        source_entries(entries@) == originals(records@, agent@),
{
    let mut entries: Vec<RetainedSource<'a>> = Vec::new();
    let mut i: usize = 0;
    while i < records.len()
        invariant
            i <= records.len(),
            source_entries(entries@) == originals(records@.take(i as int), agent@),
        decreases records.len() - i,
    {
        let record = &records[i];
        proof {
            assert(records@.take(i + 1).drop_last() =~= records@.take(i as int));
            assert(records@.take(i + 1).last() == *record);
        }
        if record.agent.same(agent) {
            if let SessionEvent::MessageCommitted { message } = &record.event {
                let ghost earlier = entries@;
                entries.push(RetainedSource { sequence: record.sequence, message });
                assert(source_entries(entries@) =~= source_entries(earlier).push(
                    (record.sequence, *message),
                ));
            }
        }
        i += 1;
    }
    assert(records@.take(i as int) =~= records@);
    entries
}

/// Tests whether a sequence belongs to an entry.
fn contains_sequence(entries: &Vec<RetainedSource<'_>>, sequence: u64) -> (answer: bool)
    ensures
        answer == has_sequence(source_entries(entries@), sequence),
{
    let mut i: usize = 0;
    while i < entries.len()
        invariant
            i <= entries.len(),
            forall|k: int| 0 <= k < i ==> (#[trigger] source_entries(entries@)[k]).0 != sequence,
        decreases entries.len() - i,
    {
        if entries[i].sequence == sequence {
            assert(source_entries(entries@)[i as int].0 == sequence);
            return true;
        }
        i += 1;
    }
    false
}

/// Collects the projected messages that are originals of the agent.
fn collect_visible<'a>(
    projected: &'a Vec<(u64, Message)>,
    entries: &Vec<RetainedSource<'_>>,
) -> (shown: Vec<RetainedSource<'a>>)
    ensures
        source_entries(shown@) == visible(projected@, source_entries(entries@)),
{
    let mut shown: Vec<RetainedSource<'a>> = Vec::new();
    let mut i: usize = 0;
    while i < projected.len()
        invariant
            i <= projected.len(),
            source_entries(shown@) == visible(projected@.take(i as int), source_entries(entries@)),
        decreases projected.len() - i,
    {
        let entry = &projected[i];
        proof {
            assert(projected@.take(i + 1).drop_last() =~= projected@.take(i as int));
            assert(projected@.take(i + 1).last() == *entry);
        }
        if contains_sequence(entries, entry.0) {
            let ghost earlier = shown@;
            shown.push(RetainedSource { sequence: entry.0, message: &entry.1 });
            assert(source_entries(shown@) =~= source_entries(earlier).push(*entry));
        }
        i += 1;
    }
    assert(projected@.take(i as int) =~= projected@);
    shown
}

/// Finds where the retained tail of the visible history begins.
fn retained_start(shown: &Vec<RetainedSource<'_>>) -> (start: usize)
    ensures
        begins_retained(source_entries(shown@), start as int),
        start <= shown.len(),
{
    let ghost entries = source_entries(shown@);
    let mut total: u64 = 0;
    let mut start: usize = shown.len();
    let mut scanning: bool = true;
    while scanning && start > 0
        invariant
            start <= shown.len(),
            entries == source_entries(shown@),
            total == tokens_from(entries, start as int),
            start < shown.len() ==> total > 0,
            start == shown.len() || start == shown.len() - 1 || total <= TAIL_TOKENS,
            !scanning ==> start < shown.len() && 0 < start && tokens_from(entries, start - 1) > TAIL_TOKENS,
        decreases (if scanning { start + 1 } else { start as int }),
    {
        let tokens: u64 = estimate_message(shown[start - 1].message);
        proof {
            assert(entries[start - 1].1 == *shown@[start - 1].message);
            lemma_message_tokens_positive(entries[start - 1].1);
        }
        if total > 0 && total.saturating_add(tokens) > TAIL_TOKENS {
            scanning = false;
        } else {
            total = total.saturating_add(tokens);
            start -= 1;
        }
    }
    assert(begins_tail(entries, start as int));
    if 0 < start && start < shown.len() {
        assert(entries[start as int].1 == *shown@[start as int].message);
        if let Message::Tool(_) = shown[start].message {
            return start - 1;
        }
    }
    start
}

/// The first entry with a sequence is the one that is found.
proof fn lemma_entry_position(entries: Seq<(u64, Message)>, sequence: u64, index: int)
    requires
        0 <= index <= entries.len(),
        forall|k: int| 0 <= k < index ==> (#[trigger] entries[k]).0 != sequence,
        index < entries.len() ==> entries[index].0 == sequence,
    ensures
        entry_position(entries, sequence) == if index < entries.len() {
            Some(index)
        } else {
            None::<int>
        },
    decreases entries.len(),
{
    if entries.len() > 0 {
        let rest = entries.drop_last();
        if index < entries.len() {
            assert forall|k: int| 0 <= k < index implies (#[trigger] rest[k]).0 != sequence by {
                assert(rest[k] == entries[k]);
            }
            if index < rest.len() {
                assert(rest[index] == entries[index]);
            }
            lemma_entry_position(rest, sequence, index);
        } else {
            assert forall|k: int| 0 <= k < rest.len() implies (#[trigger] rest[k]).0 != sequence by {
                assert(rest[k] == entries[k]);
            }
            lemma_entry_position(rest, sequence, rest.len() as int);
            assert(entries[entries.len() - 1].0 != sequence);
        }
    }
}

/// Finds the first entry with a sequence.
fn find_entry(entries: &Vec<RetainedSource<'_>>, sequence: u64) -> (found: Option<usize>)
    ensures
        match found {
            Some(index) => index < entries.len() && entry_position(source_entries(entries@), sequence)
                == Some(index as int),
            None => entry_position(source_entries(entries@), sequence) is None,
        },
{
    let ghost all = source_entries(entries@);
    let mut i: usize = 0;
    while i < entries.len()
        invariant
            i <= entries.len(),
            all == source_entries(entries@),
            forall|k: int| 0 <= k < i ==> (#[trigger] all[k]).0 != sequence,
        decreases entries.len() - i,
    {
        if entries[i].sequence == sequence {
            proof {
                assert(all[i as int].0 == sequence);
                lemma_entry_position(all, sequence, i as int);
            }
            return Some(i);
        }
        assert(all[i as int].0 != sequence);
        i += 1;
    }
    proof {
        lemma_entry_position(all, sequence, i as int);
    }
    None
}

/// Tests whether an assistant message holds a tool call with an identity.
fn contains_call(blocks: &Vec<AssistantContent>, id: &String) -> (answer: bool)
    ensures
        answer == has_call(blocks@, id@),
{
    let mut i: usize = 0;
    while i < blocks.len()
        invariant
            i <= blocks.len(),
            forall|k: int| 0 <= k < i ==> !is_call(#[trigger] blocks@[k], id@),
        decreases blocks.len() - i,
    {
        if let AssistantContent::ToolCall(call) = &blocks[i] {
            if call.id == *id {
                assert(is_call(blocks@[i as int], id@));
                return true;
            }
        }
        i += 1;
    }
    false
}

/// Tests whether a result answers a call.
fn contains_result(results: &Vec<ToolResult>, id: &String) -> (answer: bool)
    ensures
        answer == has_result(results@, id@),
{
    let mut i: usize = 0;
    while i < results.len()
        invariant
            i <= results.len(),
            forall|k: int| 0 <= k < i ==> (#[trigger] results@[k]).call_id@ != id@,
        decreases results.len() - i,
    {
        if results[i].call_id == *id {
            assert(results@[i as int].call_id@ == id@);
            return true;
        }
        i += 1;
    }
    false
}

/// Tests whether every tool call of a message has a result.
fn answers_all(blocks: &Vec<AssistantContent>, results: &Vec<ToolResult>) -> (answer: bool)
    ensures
        answer == all_answered(blocks@, results@),
{
    let mut i: usize = 0;
    while i < blocks.len()
        invariant
            i <= blocks.len(),
            forall|k: int|
                0 <= k < i ==> (#[trigger] blocks@[k] matches AssistantContent::ToolCall(call)
                    ==> has_result(results@, call.id@)),
        decreases blocks.len() - i,
    {
        if let AssistantContent::ToolCall(call) = &blocks[i] {
            if !contains_result(results, &call.id) {
                assert(blocks@[i as int] matches AssistantContent::ToolCall(call) && !has_result(
                    results@,
                    call.id@,
                ));
                return false;
            }
        }
        i += 1;
    }
    true
}

/// Checks the exchange that started a job. Gives the sequence of its tool message,
/// or what is wrong with it.
fn check_exchange(entries: &Vec<RetainedSource<'_>>, origin: &ModelCallOrigin) -> (outcome: Result<u64, String>)
    ensures
        match outcome {
            Ok(result) => {
                &&& exchange_fault(source_entries(entries@), origin.message, origin.call_id@) is None
                &&& forall|sequence: u64|
                    in_exchange(source_entries(entries@), *origin, sequence) <==> sequence
                        == origin.message || sequence == result
            },
            Err(fault) => exchange_fault(source_entries(entries@), origin.message, origin.call_id@)
                == Some(fault@),
        },
{
    let ghost all = source_entries(entries@);
    let index: usize = match find_entry(entries, origin.message) {
        Some(index) => index,
        None => {
            return Err("active job creator message is missing".to_owned());
        },
    };
    assert(all[index as int].1 == *entries@[index as int].message);
    match entries[index].message {
        Message::Assistant(blocks) => {
            if !contains_call(blocks, &origin.call_id) {
                return Err("active job creator call is missing".to_owned());
            }
            if index + 1 >= entries.len() {
                return Err("active job creator has no complete result exchange".to_owned());
            }
            assert(all[index + 1].1 == *entries@[index + 1].message);
            match entries[index + 1].message {
                Message::Tool(results) => if answers_all(blocks, results) {
                    Ok(entries[index + 1].sequence)
                } else {
                    Err("active job exchange has an unmatched tool call".to_owned())
                },
                _ => Err("active job creator has no complete result exchange".to_owned()),
            }
        },
        _ => Err("active job creator is not an assistant message".to_owned()),
    }
}

/// There is one place at which the retained messages can begin.
proof fn lemma_retained_start_unique(entries: Seq<(u64, Message)>, left: int, right: int)
    requires
        begins_retained(entries, left),
        begins_retained(entries, right),
    ensures
        left == right,
{
    let a = choose|tail: int|
        #[trigger] begins_tail(entries, tail) && left == if 0 < tail < entries.len() && entries[tail].1 is Tool {
            tail - 1
        } else {
            tail
        };
    let b = choose|tail: int|
        #[trigger] begins_tail(entries, tail) && right == if 0 < tail < entries.len() && entries[tail].1 is Tool {
            tail - 1
        } else {
            tail
        };
    tail_start_is_unique(entries, a, b);
}

/// The first fault of a list of exchanges is the first fault of any longer list.
proof fn lemma_first_fault(entries: Seq<(u64, Message)>, origins: Seq<ModelCallOrigin>, count: int)
    requires
        0 <= count <= origins.len(),
        first_fault(entries, origins.take(count)) is Some,
    ensures
        first_fault(entries, origins) == first_fault(entries, origins.take(count)),
    decreases origins.len() - count,
{
    if count < origins.len() {
        assert(origins.take(count + 1).drop_last() =~= origins.take(count));
        lemma_first_fault(entries, origins, count + 1);
    } else {
        assert(origins.take(count) =~= origins);
    }
}

/// Whether a sequence belongs to the tail from a position on.
spec fn in_tail(shown: Seq<(u64, Message)>, start: int, sequence: u64) -> bool {
    exists|i: int| start <= i < shown.len() && (#[trigger] shown[i]).0 == sequence
}

/// Whether one of the first exchanges holds a message.
spec fn in_exchanges(
    entries: Seq<(u64, Message)>,
    origins: Seq<ModelCallOrigin>,
    count: int,
    sequence: u64,
) -> bool {
    exists|i: int| 0 <= i < count && in_exchange(entries, #[trigger] origins[i], sequence)
}

/// Tests whether a list holds a sequence.
fn listed(sequences: &Vec<u64>, sequence: u64) -> (answer: bool)
    ensures
        answer == sequences@.contains(sequence),
{
    let mut i: usize = 0;
    while i < sequences.len()
        invariant
            i <= sequences.len(),
            forall|k: int| 0 <= k < i ==> sequences@[k] != sequence,
        decreases sequences.len() - i,
    {
        if sequences[i] == sequence {
            return true;
        }
        i += 1;
    }
    false
}

/// Appending to a list adds exactly one sequence.
proof fn lemma_push_contains(before: Seq<u64>, added: u64)
    ensures
        forall|sequence: u64|
            #[trigger] before.push(added).contains(sequence) <==> before.contains(sequence) || sequence
                == added,
{
    assert forall|sequence: u64|
        #[trigger] before.push(added).contains(sequence) <==> before.contains(sequence) || sequence == added by {
        if before.contains(sequence) {
            let k = choose|k: int| 0 <= k < before.len() && before[k] == sequence;
            assert(before.push(added)[k] == sequence);
        }
        if sequence == added {
            assert(before.push(added)[before.len() as int] == sequence);
        }
    }
}

/// Collects the sequences of the retained tail.
fn tail_sequences(shown: &Vec<RetainedSource<'_>>, start: usize) -> (sequences: Vec<u64>)
    requires
        start <= shown.len(),
    ensures
        forall|sequence: u64|
            #[trigger] sequences@.contains(sequence) <==> in_tail(
                source_entries(shown@),
                start as int,
                sequence,
            ),
{
    let ghost all = source_entries(shown@);
    let mut sequences: Vec<u64> = Vec::new();
    let mut i: usize = start;
    while i < shown.len()
        invariant
            start <= i <= shown.len(),
            all == source_entries(shown@),
            forall|sequence: u64|
                #[trigger] sequences@.contains(sequence) <==> in_tail(
                    all.take(i as int),
                    start as int,
                    sequence,
                ),
        decreases shown.len() - i,
    {
        let ghost before = sequences@;
        sequences.push(shown[i].sequence);
        proof {
            lemma_push_contains(before, shown@[i as int].sequence);
            assert forall|sequence: u64|
                #[trigger] sequences@.contains(sequence) <==> in_tail(
                    all.take(i + 1),
                    start as int,
                    sequence,
                ) by {
                if in_tail(all.take(i as int), start as int, sequence) {
                    let k = choose|k: int|
                        start <= k < all.take(i as int).len() && (#[trigger] all.take(i as int)[k]).0 == sequence;
                    assert(all.take(i + 1)[k].0 == sequence);
                }
                if in_tail(all.take(i + 1), start as int, sequence) {
                    let k = choose|k: int|
                        start <= k < all.take(i + 1).len() && (#[trigger] all.take(i + 1)[k]).0 == sequence;
                    if k < i {
                        assert(all.take(i as int)[k].0 == sequence);
                    }
                }
                assert(all.take(i + 1)[i as int].0 == shown@[i as int].sequence);
            }
        }
        i += 1;
    }
    assert(all.take(i as int) =~= all);
    sequences
}

/// Puts a source behind every source that does not come after it.
fn insert_in_order<'a>(sources: &mut Vec<RetainedSource<'a>>, source: RetainedSource<'a>)
    requires
        in_order(source_entries(old(sources)@)),
    ensures
        in_order(source_entries(final(sources)@)),
        source_entries(final(sources)@).to_multiset() == source_entries(old(sources)@).to_multiset().insert(
            (source.spec_sequence(), source.spec_message()),
        ),
{
    let ghost before = source_entries(sources@);
    let ghost entry = (source.spec_sequence(), source.spec_message());
    let mut i: usize = sources.len();
    while i > 0 && sources[i - 1].sequence > source.sequence
        invariant
            i <= sources.len(),
            before == source_entries(sources@),
            entry == (source.spec_sequence(), source.spec_message()),
            forall|k: int| i <= k < before.len() ==> (#[trigger] before[k]).0 > entry.0,
        decreases i,
    {
        assert(before[i - 1].0 == sources@[i - 1].sequence);
        i -= 1;
    }
    proof {
        if i > 0 {
            assert(before[i - 1].0 == sources@[i - 1].sequence);
        }
    }
    sources.insert(i, source);
    proof {
        let after = source_entries(sources@);
        assert(after =~= before.insert(i as int, entry));
        vstd::seq_lib::to_multiset_insert(before, i as int, entry);
        assert forall|a: int, b: int| 0 <= a <= b < after.len() implies (#[trigger] after[a]).0 <= (
        #[trigger] after[b]).0 by {
            let prior = |k: int| if k < i { k } else { k - 1 };
            if a != i && b != i {
                assert(after[a] == before[prior(a)]);
                assert(after[b] == before[prior(b)]);
            } else if a == i && b > i {
                assert(after[b] == before[b - 1]);
            } else if b == i && a < i {
                assert(after[a] == before[a]);
                assert(before[a].0 <= before[i - 1].0);
            }
        }
    }
}

/// Selects complete original exchanges, creators of active jobs that are no longer
/// visible among them, and the newest visible messages that fit the budget.
pub fn retained_sources<'a>(
    records: &'a Vec<EventRecord>,
    agent: &AgentId,
    projected: &Vec<(u64, Message)>,
    origins: &Vec<ModelCallOrigin>,
) -> (result: Result<Vec<RetainedSource<'a>>, HarnessError>)
    ensures
        ({
            let entries = originals(records@, agent@);
            let shown = visible(projected@, entries);
            match result {
                Ok(sources) => {
                    &&& first_fault(entries, origins@) is None
                    &&& in_order(source_entries(sources@))
                    &&& source_entries(sources@).to_multiset() == kept(
                        entries,
                        |sequence: u64| stays(entries, shown, origins@, sequence),
                    ).to_multiset()
                },
                Err(error) => error matches HarnessError::Compaction(fault) && first_fault(
                    entries,
                    origins@,
                ) == Some(fault@),
            }
        }),
{
    let entries = collect_originals(records, agent);
    let shown = collect_visible(projected, &entries);
    let ghost all = originals(records@, agent@);
    let ghost window = visible(projected@, all);
    let start: usize = retained_start(&shown);
    let mut keep = tail_sequences(&shown, start);
    let mut i: usize = 0;
    assert(origins@.take(0) =~= Seq::<ModelCallOrigin>::empty());
    while i < origins.len()
        invariant
            i <= origins.len(),
            all == source_entries(entries@),
            all == originals(records@, agent@),
            first_fault(all, origins@.take(i as int)) is None,
            forall|sequence: u64|
                #[trigger] keep@.contains(sequence) <==> in_tail(window, start as int, sequence)
                    || in_exchanges(all, origins@, i as int, sequence),
        decreases origins.len() - i,
    {
        proof {
            assert(origins@.take(i + 1).drop_last() =~= origins@.take(i as int));
            assert(origins@.take(i + 1).last() == origins@[i as int]);
        }
        match check_exchange(&entries, &origins[i]) {
            Err(fault) => {
                proof {
                    lemma_first_fault(all, origins@, i + 1);
                }
                return Err(HarnessError::Compaction(fault));
            },
            Ok(result) => {
                let ghost before = keep@;
                keep.push(origins[i].message);
                proof {
                    lemma_push_contains(before, origins@[i as int].message);
                }
                let ghost between = keep@;
                keep.push(result);
                proof {
                    lemma_push_contains(between, result);
                    assert forall|sequence: u64|
                        #[trigger] keep@.contains(sequence) <==> in_tail(window, start as int, sequence)
                            || in_exchanges(all, origins@, i + 1, sequence) by {
                        assert(between.contains(sequence) <==> before.contains(sequence) || sequence
                            == origins@[i as int].message);
                        if in_exchanges(all, origins@, i as int, sequence) {
                            let k = choose|k: int|
                                0 <= k < i && in_exchange(all, #[trigger] origins@[k], sequence);
                            assert(in_exchange(all, origins@[k], sequence));
                        }
                        if in_exchanges(all, origins@, i + 1, sequence) {
                            let k = choose|k: int|
                                0 <= k < i + 1 && in_exchange(all, #[trigger] origins@[k], sequence);
                            if k < i {
                                assert(in_exchanges(all, origins@, i as int, sequence));
                            }
                        }
                        if sequence == origins@[i as int].message || sequence == result {
                            assert(in_exchange(all, origins@[i as int], sequence));
                        }
                    }
                }
            },
        }
        i += 1;
    }
    assert(origins@.take(i as int) =~= origins@);
    let ghost test = |sequence: u64| stays(all, window, origins@, sequence);
    proof {
        assert forall|sequence: u64| #[trigger] keep@.contains(sequence) <==> test(sequence) by {
            if in_tail(window, start as int, sequence) {
                let k = choose|k: int| start <= k < window.len() && (#[trigger] window[k]).0 == sequence;
                assert(begins_retained(window, start as int) && window[k].0 == sequence);
            }
            if exists|other: int, k: int|
                #[trigger] begins_retained(window, other) && other <= k < window.len() && (#[trigger] window[k]).0
                    == sequence {
                let (other, k) = choose|other: int, k: int|
                    #[trigger] begins_retained(window, other) && other <= k < window.len() && (
                    #[trigger] window[k]).0 == sequence;
                lemma_retained_start_unique(window, other, start as int);
                assert(in_tail(window, start as int, sequence));
            }
            if in_exchanges(all, origins@, i as int, sequence) {
                let k = choose|k: int| 0 <= k < i && in_exchange(all, #[trigger] origins@[k], sequence);
                assert(in_exchange(all, origins@[k], sequence));
            }
        }
    }
    let mut sources: Vec<RetainedSource<'a>> = Vec::new();
    let mut j: usize = 0;
    proof {
        assert(source_entries(sources@) =~= kept(all.take(0), test));
    }
    while j < entries.len()
        invariant
            j <= entries.len(),
            all == source_entries(entries@),
            forall|sequence: u64| #[trigger] keep@.contains(sequence) <==> test(sequence),
            in_order(source_entries(sources@)),
            source_entries(sources@).to_multiset() == kept(all.take(j as int), test).to_multiset(),
        decreases entries.len() - j,
    {
        let sequence: u64 = entries[j].sequence;
        proof {
            assert(all.take(j + 1).drop_last() =~= all.take(j as int));
            assert(all.take(j + 1).last() == (sequence, *entries@[j as int].message));
        }
        if listed(&keep, sequence) {
            insert_in_order(&mut sources, RetainedSource { sequence, message: entries[j].message });
            proof {
                vstd::seq_lib::to_multiset_build(kept(all.take(j as int), test), all.take(j + 1).last());
            }
        }
        j += 1;
    }
    assert(all.take(j as int) =~= all);
    Ok(sources)
}

/// Retention invents nothing: what is kept is an original message.
pub proof fn kept_messages_are_originals(entries: Seq<(u64, Message)>, keep: spec_fn(u64) -> bool, entry: (u64, Message))
    ensures
        kept(entries, keep).contains(entry) <==> entries.contains(entry) && keep(entry.0),
    decreases entries.len(),
{
    if entries.len() > 0 {
        let rest = entries.drop_last();
        kept_messages_are_originals(rest, keep, entry);
        let earlier = kept(rest, keep);
        assert(entries =~= rest.push(entries.last()));
        if keep(entries.last().0) {
            assert(kept(entries, keep) =~= earlier.push(entries.last()));
            if earlier.contains(entry) {
                let k = choose|k: int| 0 <= k < earlier.len() && earlier[k] == entry;
                assert(earlier.push(entries.last())[k] == entry);
            }
            if entry == entries.last() {
                assert(earlier.push(entries.last())[earlier.len() as int] == entry);
            }
            if kept(entries, keep).contains(entry) && entry != entries.last() {
                let k = choose|k: int| 0 <= k < kept(entries, keep).len() && kept(entries, keep)[k] == entry;
                assert(earlier[k] == entry);
            }
        }
        if rest.contains(entry) {
            let k = choose|k: int| 0 <= k < rest.len() && rest[k] == entry;
            assert(entries[k] == entry);
        }
        if entries.contains(entry) && entry != entries.last() {
            let k = choose|k: int| 0 <= k < entries.len() && entries[k] == entry;
            assert(rest[k] == entry);
        }
        if entry == entries.last() {
            assert(entries[entries.len() - 1] == entry);
        }
    }
}

/// An exchange without fault is kept whole: the assistant message that started a
/// job, and the tool message with the results of all of its calls.
pub proof fn active_exchanges_stay_whole(
    entries: Seq<(u64, Message)>,
    shown: Seq<(u64, Message)>,
    origins: Seq<ModelCallOrigin>,
    index: int,
)
    requires
        0 <= index < origins.len(),
        exchange_fault(entries, origins[index].message, origins[index].call_id@) is None,
    ensures
        ({
            let keep = |sequence: u64| stays(entries, shown, origins, sequence);
            let position = entry_position(entries, origins[index].message)->0;
            &&& entries[position].1 is Assistant
            &&& entries[position + 1].1 is Tool
            &&& all_answered(entries[position].1->Assistant_0@, entries[position + 1].1->Tool_0@)
            &&& kept(entries, keep).contains(entries[position])
            &&& kept(entries, keep).contains(entries[position + 1])
        }),
{
    let keep = |sequence: u64| stays(entries, shown, origins, sequence);
    let position = entry_position(entries, origins[index].message)->0;
    lemma_entry_position_bounds(entries, origins[index].message);
    assert(in_exchange(entries, origins[index], entries[position].0));
    assert(in_exchange(entries, origins[index], entries[position + 1].0));
    assert(keep(entries[position].0));
    assert(keep(entries[position + 1].0));
    assert(entries.contains(entries[position]));
    assert(entries.contains(entries[position + 1]));
    kept_messages_are_originals(entries, keep, entries[position]);
    kept_messages_are_originals(entries, keep, entries[position + 1]);
}

/// A position that is found holds the sequence.
proof fn lemma_entry_position_bounds(entries: Seq<(u64, Message)>, sequence: u64)
    ensures
        entry_position(entries, sequence) matches Some(position) ==> 0 <= position < entries.len()
            && entries[position].0 == sequence,
    decreases entries.len(),
{
    if entries.len() > 0 {
        lemma_entry_position_bounds(entries.drop_last(), sequence);
    }
}

/// The newest visible message always stays.
pub proof fn newest_visible_message_stays(
    entries: Seq<(u64, Message)>,
    shown: Seq<(u64, Message)>,
    origins: Seq<ModelCallOrigin>,
    start: int,
)
    requires
        shown.len() > 0,
        begins_retained(shown, start),
    ensures
        stays(entries, shown, origins, shown.last().0),
{
    assert(shown[shown.len() - 1].0 == shown.last().0);
}

/// Whether a member is present and not null.
pub open spec fn has_content(value: JsonView, key: Seq<char>) -> bool {
    match value.member(key) {
        Some(JsonView::Null) => false,
        Some(_) => true,
        None => false,
    }
}

/// The job whose result a value is the envelope of. A mere status is no result.
pub open spec fn envelope_job(value: JsonView) -> Option<u64> {
    match (value.member("state"@), value.member("id"@)) {
        (Some(JsonView::Text(state)), Some(JsonView::Unsigned(number))) => if number > 0
            && job::names_state(state) && (value.member("result"@) is Some || has_content(
            value,
            "output"@,
        ) || has_content(value, "preview"@) || has_content(value, "question"@) || has_content(
            value,
            "error"@,
        )) {
            Some(number)
        } else {
            None
        },
        _ => None,
    }
}

/// Whether a value carries the result of a job, in itself or nested. What stands
/// under `arguments` is no result.
pub open spec fn carries_output(value: JsonView, number: u64) -> bool
    decreases value,
{
    match value {
        JsonView::Object(members) => {
            ||| envelope_job(value) == Some(number)
            ||| exists|i: int|
                0 <= i < members.len() && (#[trigger] members[i]).0 != "arguments"@ && carries_output(
                    members[i].1,
                    number,
                )
        },
        JsonView::Array(items) => exists|i: int|
            #![trigger items[i]]
            0 <= i < items.len() && carries_output(items[i], number),
        _ => false,
    }
}

/// An array carries what one of its items carries.
proof fn lemma_item_carries(items: Seq<JsonView>, index: int, number: u64)
    requires
        0 <= index < items.len(),
        carries_output(items[index], number),
    ensures
        carries_output(JsonView::Array(items), number),
{
    assert(JsonView::Array(items)->Array_0[index] == items[index]);
}

/// Tests whether a member is present and not null.
fn member_has_content(value: &Json, key: &str) -> (answer: bool)
    ensures
        answer == has_content(value@, key@),
{
    match value.member(key) {
        Some(Json::Null) => false,
        Some(_) => true,
        None => false,
    }
}

/// Finds the job whose result a value is the envelope of.
fn find_envelope_job(value: &Json) -> (found: Option<JobId>)
    ensures
        match found {
            Some(id) => envelope_job(value@) == Some(id.spec_number()),
            None => envelope_job(value@) is None,
        },
{
    match (value.member("state"), value.member("id")) {
        (Some(Json::Text(state)), Some(Json::Unsigned(number))) => {
            let named = is_state_name(state);
            let filled = value.member("result").is_some() || member_has_content(value, "output")
                || member_has_content(value, "preview") || member_has_content(value, "question")
                || member_has_content(value, "error");
            if named && filled {
                JobId::new(*number)
            } else {
                None
            }
        },
        _ => None,
    }
}

/// Adds the jobs whose results the members of an object carry, but for `arguments`.
fn included_member_jobs(members: &Vec<(String, Json)>, jobs: &mut JobSet)
    ensures
        ({
            let all = json::member_views(members@);
            forall|id: JobId|
                #[trigger] final(jobs)@.contains(id) <==> old(jobs)@.contains(id) || exists|k: int|
                    0 <= k < all.len() && (#[trigger] all[k]).0 != "arguments"@ && carries_output(
                        all[k].1,
                        id.spec_number(),
                    )
        }),
    decreases members,
{
    proof {
        json::lemma_member_views(members@);
    }
    let ghost all = json::member_views(members@);
    let ghost own = jobs@;
    let arguments = "arguments".to_owned();
    let mut i: usize = 0;
    while i < members.len()
        invariant
            i <= members.len(),
            arguments@ == "arguments"@,
            all == json::member_views(members@),
            all.len() == members.len(),
            forall|k: int|
                0 <= k < members.len() ==> #[trigger] all[k] == (
                    members[k].0@,
                    json::json_view(members[k].1),
                ),
            forall|id: JobId|
                #[trigger] jobs@.contains(id) <==> own.contains(id) || exists|k: int|
                    0 <= k < i && (#[trigger] all[k]).0 != "arguments"@ && carries_output(
                        all[k].1,
                        id.spec_number(),
                    ),
        decreases members.len() - i,
    {
        let ghost earlier = jobs@;
        proof {
            assert(decreases_to!(members => members@));
            assert(decreases_to!(members@ => members@[i as int]));
            assert(decreases_to!(members@[i as int] => members@[i as int].1));
            assert(all[i as int].0 == members@[i as int].0@);
        }
        if members[i].0 != arguments {
            included_output_jobs(&members[i].1, jobs);
        }
        proof {
            assert forall|id: JobId|
                #[trigger] jobs@.contains(id) <==> own.contains(id) || exists|k: int|
                    0 <= k < i + 1 && (#[trigger] all[k]).0 != "arguments"@ && carries_output(
                        all[k].1,
                        id.spec_number(),
                    ) by {
                assert(earlier.contains(id) <==> own.contains(id) || exists|k: int|
                    0 <= k < i && (#[trigger] all[k]).0 != "arguments"@ && carries_output(
                        all[k].1,
                        id.spec_number(),
                    ));
            }
        }
        i += 1;
    }
}

/// Adds the jobs whose results a value carries.
pub fn included_output_jobs(value: &Json, jobs: &mut JobSet)
    ensures
        forall|id: JobId|
            #[trigger] final(jobs)@.contains(id) <==> old(jobs)@.contains(id) || carries_output(
                value@,
                id.spec_number(),
            ),
    decreases value,
{
    let ghost before = jobs@;
    match value {
        Json::Object(members) => {
            proof {
                json::lemma_member_views(members@);
            }
            let ghost all = json::member_views(members@);
            let envelope = find_envelope_job(value);
            if let Some(id) = envelope {
                let _ = jobs.insert(id);
                proof {
                    assert forall|other: JobId| #[trigger] jobs@.contains(other) <==> before.contains(other)
                        || envelope_job(value@) == Some(other.spec_number()) by {
                        crate::identity::job_numbers_are_identities(other, id);
                    }
                }
            }
            let ghost own = jobs@;
            proof {
                assert(decreases_to!(value => value->Object_0));
            }
            included_member_jobs(members, jobs);
            proof {
                assert(value@ == JsonView::Object(all));
                assert forall|id: JobId|
                    #[trigger] jobs@.contains(id) <==> before.contains(id) || carries_output(
                        value@,
                        id.spec_number(),
                    ) by {
                    assert(own.contains(id) <==> before.contains(id) || envelope_job(value@) == Some(
                        id.spec_number(),
                    ));
                }
            }
        },
        Json::Array(items) => {
            proof {
                json::lemma_json_views(items@);
            }
            let ghost all = json::json_views(items@);
            let mut i: usize = 0;
            while i < items.len()
                invariant
                    i <= items.len(),
                    *value == Json::Array(*items),
                    all == json::json_views(items@),
                    all.len() == items.len(),
                    forall|k: int| 0 <= k < items.len() ==> #[trigger] all[k] == json::json_view(items[k]),
                    forall|id: JobId|
                        #[trigger] jobs@.contains(id) <==> before.contains(id) || exists|k: int|
                            #![trigger all[k]]
                            0 <= k < i && carries_output(all[k], id.spec_number()),
                decreases items.len() - i,
            {
                let ghost earlier = jobs@;
                proof {
                    assert(decreases_to!(value => value->Array_0));
                    assert(decreases_to!(items => items@));
                    assert(decreases_to!(items@ => items@[i as int]));
                }
                included_output_jobs(&items[i], jobs);
                proof {
                    assert forall|id: JobId|
                        #[trigger] jobs@.contains(id) <==> before.contains(id) || exists|k: int|
                            #![trigger all[k]]
                            0 <= k < i + 1 && carries_output(all[k], id.spec_number()) by {
                        assert(earlier.contains(id) <==> before.contains(id) || exists|k: int|
                            #![trigger all[k]]
                            0 <= k < i && carries_output(all[k], id.spec_number()));
                        assert(all[i as int] == json::json_view(items[i as int]));
                    }
                }
                i += 1;
            }
            proof {
                assert(value@ == JsonView::Array(all));
                assert forall|id: JobId|
                    #[trigger] jobs@.contains(id) <==> before.contains(id) || carries_output(
                        value@,
                        id.spec_number(),
                    ) by {
                    let number = id.spec_number();
                    if carries_output(value@, number) {
                        let k = choose|k: int|
                            #![trigger all[k]]
                            0 <= k < all.len() && carries_output(all[k], number);
                        assert(0 <= k < i && carries_output(all[k], number));
                    }
                    if exists|k: int|
                        #![trigger all[k]]
                        0 <= k < i && carries_output(all[k], number) {
                        let k = choose|k: int|
                            #![trigger all[k]]
                            0 <= k < i && carries_output(all[k], number);
                        lemma_item_carries(all, k, number);
                    }
                }
            }
        },
        _ => {},
    }
}

/// Stands before the notifications of a runtime message.
pub const EVENTS_OPEN: &'static str = "<skyhook_job_events>\n";

/// Stands behind the notifications of a runtime message.
pub const EVENTS_CLOSE: &'static str = "\n</skyhook_job_events>";

/// Whether a runtime message carries the result of a job in its notifications.
pub open spec fn notifies(text: Seq<char>, number: u64) -> bool {
    exists|payload: Seq<char>|
        text == EVENTS_OPEN@ + payload + EVENTS_CLOSE@ && (#[trigger] json::parsed_json(payload) matches Some(value)
            && carries_output(value, number))
}

/// Whether a message carries the result of a job.
pub open spec fn message_carries(message: Message, number: u64) -> bool {
    match message {
        Message::Tool(results) => exists|i: int|
            0 <= i < results@.len() && carries_output((#[trigger] results@[i]).result@, number),
        Message::User(blocks) => exists|i: int|
            0 <= i < blocks@.len() && (#[trigger] blocks@[i] matches UserContent::Runtime { text }
                && notifies(text@, number)),
        Message::Assistant(_) => false,
    }
}

/// Adds the jobs whose results a runtime text notifies.
fn notified_jobs(text: &String, jobs: &mut JobSet)
    ensures
        forall|id: JobId|
            #[trigger] final(jobs)@.contains(id) <==> old(jobs)@.contains(id) || notifies(
                text@,
                id.spec_number(),
            ),
{
    match strip_prefix(text.as_str(), EVENTS_OPEN) {
        Some(rest) => match strip_suffix(rest, EVENTS_CLOSE) {
            Some(payload) => {
                let parsed = parse_json(payload);
                proof {
                    assert(text@ =~= EVENTS_OPEN@ + payload@ + EVENTS_CLOSE@);
                    assert forall|other: Seq<char>| text@ == EVENTS_OPEN@ + other + EVENTS_CLOSE@ implies other
                        == payload@ by {
                        assert(other =~= text@.subrange(
                            EVENTS_OPEN@.len() as int,
                            text@.len() - EVENTS_CLOSE@.len(),
                        ));
                        assert(payload@ =~= text@.subrange(
                            EVENTS_OPEN@.len() as int,
                            text@.len() - EVENTS_CLOSE@.len(),
                        ));
                    }
                    assert(json::parsed_json(payload@) == json::parsed_json(payload@));
                }
                if let Some(value) = parsed {
                    included_output_jobs(&value, jobs);
                }
            },
            None => {
                proof {
                    assert forall|other: Seq<char>| text@ != EVENTS_OPEN@ + other + EVENTS_CLOSE@ by {
                        if text@ == EVENTS_OPEN@ + other + EVENTS_CLOSE@ {
                            assert(rest@ =~= text@.skip(EVENTS_OPEN@.len() as int));
                            assert(other + EVENTS_CLOSE@ =~= text@.skip(EVENTS_OPEN@.len() as int));
                            assert(rest@.subrange(
                                rest@.len() - EVENTS_CLOSE@.len(),
                                rest@.len() as int,
                            ) =~= EVENTS_CLOSE@);
                        }
                    }
                }
            },
        },
        None => {
            proof {
                assert forall|other: Seq<char>| text@ != EVENTS_OPEN@ + other + EVENTS_CLOSE@ by {
                    if text@ == EVENTS_OPEN@ + other + EVENTS_CLOSE@ {
                        assert(text@.subrange(0, EVENTS_OPEN@.len() as int) =~= EVENTS_OPEN@);
                    }
                }
            }
        },
    }
}

/// Adds the jobs whose results a message carries.
pub fn included_message_jobs(message: &Message, jobs: &mut JobSet)
    ensures
        forall|id: JobId|
            #[trigger] final(jobs)@.contains(id) <==> old(jobs)@.contains(id) || message_carries(
                *message,
                id.spec_number(),
            ),
{
    let ghost before = jobs@;
    match message {
        Message::Tool(results) => {
            let mut i: usize = 0;
            while i < results.len()
                invariant
                    i <= results.len(),
                    forall|id: JobId|
                        #[trigger] jobs@.contains(id) <==> before.contains(id) || exists|k: int|
                            0 <= k < i && carries_output((#[trigger] results@[k]).result@, id.spec_number()),
                decreases results.len() - i,
            {
                let ghost earlier = jobs@;
                included_output_jobs(&results[i].result, jobs);
                proof {
                    assert forall|id: JobId|
                        #[trigger] jobs@.contains(id) <==> before.contains(id) || exists|k: int|
                            0 <= k < i + 1 && carries_output((#[trigger] results@[k]).result@, id.spec_number()) by {
                        assert(earlier.contains(id) <==> before.contains(id) || exists|k: int|
                            0 <= k < i && carries_output((#[trigger] results@[k]).result@, id.spec_number()));
                    }
                }
                i += 1;
            }
        },
        Message::User(blocks) => {
            let mut i: usize = 0;
            while i < blocks.len()
                invariant
                    i <= blocks.len(),
                    forall|id: JobId|
                        #[trigger] jobs@.contains(id) <==> before.contains(id) || exists|k: int|
                            0 <= k < i && (#[trigger] blocks@[k] matches UserContent::Runtime { text }
                                && notifies(text@, id.spec_number())),
                decreases blocks.len() - i,
            {
                let ghost earlier = jobs@;
                if let UserContent::Runtime { text } = &blocks[i] {
                    notified_jobs(text, jobs);
                }
                proof {
                    assert forall|id: JobId|
                        #[trigger] jobs@.contains(id) <==> before.contains(id) || exists|k: int|
                            0 <= k < i + 1 && (#[trigger] blocks@[k] matches UserContent::Runtime { text }
                                && notifies(text@, id.spec_number())) by {
                        assert(earlier.contains(id) <==> before.contains(id) || exists|k: int|
                            0 <= k < i && (#[trigger] blocks@[k] matches UserContent::Runtime { text }
                                && notifies(text@, id.spec_number())));
                    }
                }
                i += 1;
            }
        },
        Message::Assistant(_) => {},
    }
}

/// A record commits a message for an agent where it is the agent's own and holds that
/// message.
spec fn is_commit(record: EventRecord, agent: AgentPath, entry: (u64, Message)) -> bool {
    record.agent@ == agent && record.sequence == entry.0 && record.event == (SessionEvent::MessageCommitted {
        message: entry.1,
    })
}

/// What counts for an agent are the messages that its own records commit, with their
/// sequences, and nothing else.
pub proof fn originals_are_own_commits(records: Seq<EventRecord>, agent: AgentPath, entry: (u64, Message))
    ensures
        originals(records, agent).contains(entry) <==> exists|i: int|
            0 <= i < records.len() && (#[trigger] records[i]).agent@ == agent && records[i].sequence == entry.0
                && records[i].event == (SessionEvent::MessageCommitted { message: entry.1 }),
    decreases records.len(),
{
    if records.len() > 0 {
        let rest = records.drop_last();
        originals_are_own_commits(rest, agent, entry);
        let earlier = originals(rest, agent);
        let all = originals(records, agent);
        assert forall|k: int| 0 <= k < rest.len() implies #[trigger] rest[k] == records[k] by {}
        if earlier.contains(entry) {
            let k = choose|k: int| 0 <= k < earlier.len() && earlier[k] == entry;
            assert(all[k] == entry);
            let i = choose|i: int| 0 <= i < rest.len() && is_commit(#[trigger] rest[i], agent, entry);
            assert(is_commit(records[i], agent, entry));
        }
        if is_commit(records[records.len() - 1], agent, entry) {
            assert(all.last() == entry);
            assert(all[all.len() - 1] == entry);
        }
        if all.contains(entry) && !earlier.contains(entry) {
            let k = choose|k: int| 0 <= k < all.len() && all[k] == entry;
            if k < earlier.len() {
                assert(earlier[k] == entry);
            }
            assert(is_commit(records[records.len() - 1], agent, entry));
        }
        if exists|i: int| 0 <= i < records.len() && is_commit(#[trigger] records[i], agent, entry) {
            let i = choose|i: int| 0 <= i < records.len() && is_commit(#[trigger] records[i], agent, entry);
            if i < rest.len() {
                assert(is_commit(rest[i], agent, entry));
            }
        }
    } else {
        assert(!originals(records, agent).contains(entry));
    }
}

/// The messages of a longer journal are those of its parts, in their order.
pub proof fn originals_keep_journal_order(left: Seq<EventRecord>, right: Seq<EventRecord>, agent: AgentPath)
    ensures
        originals(left + right, agent) == originals(left, agent) + originals(right, agent),
    decreases right.len(),
{
    if right.len() == 0 {
        assert(left + right =~= left);
        assert(originals(left, agent) + originals(right, agent) =~= originals(left, agent));
    } else {
        assert((left + right).drop_last() =~= left + right.drop_last());
        originals_keep_journal_order(left, right.drop_last(), agent);
        assert(originals(left + right, agent) =~= originals(left, agent) + originals(right, agent));
    }
}

/// Records of other agents do not matter: a journal leads to the same outcome without them.
/// The same exchanges are complete or not, for the same reason, and the same messages stay.
pub proof fn other_agents_do_not_matter(
    records: Seq<EventRecord>,
    agent: AgentPath,
    projected: Seq<(u64, Message)>,
    origins: Seq<ModelCallOrigin>,
)
    ensures
        ({
            let own = records.filter(|record: EventRecord| record.agent@ == agent);
            let (all, entries) = (originals(records, agent), originals(own, agent));
            let (seen, shown) = (visible(projected, all), visible(projected, entries));
            &&& first_fault(all, origins) == first_fault(entries, origins)
            &&& kept(all, |sequence: u64| stays(all, seen, origins, sequence)) == kept(
                entries,
                |sequence: u64| stays(entries, shown, origins, sequence),
            )
        }),
{
    lemma_originals_of_own(records, agent);
}

proof fn lemma_originals_of_own(records: Seq<EventRecord>, agent: AgentPath)
    ensures
        originals(records.filter(|record: EventRecord| record.agent@ == agent), agent) == originals(records, agent),
    decreases records.len(),
{
    reveal(Seq::filter);
    let test = |record: EventRecord| record.agent@ == agent;
    if records.len() > 0 {
        let rest = records.drop_last();
        lemma_originals_of_own(rest, agent);
        if test(records.last()) {
            assert(records.filter(test) =~= rest.filter(test).push(records.last()));
            assert(rest.filter(test).push(records.last()).drop_last() =~= rest.filter(test));
        }
    }
}

/// Every message that stays has been committed by the agent itself.
pub proof fn retained_messages_are_own_commits(
    records: Seq<EventRecord>,
    agent: AgentPath,
    keep: spec_fn(u64) -> bool,
    entry: (u64, Message),
)
    requires
        kept(originals(records, agent), keep).contains(entry),
    ensures
        exists|i: int|
            0 <= i < records.len() && (#[trigger] records[i]).agent@ == agent && records[i].sequence == entry.0
                && records[i].event == (SessionEvent::MessageCommitted { message: entry.1 }),
{
    kept_messages_are_originals(originals(records, agent), keep, entry);
    originals_are_own_commits(records, agent, entry);
}

/// What is visible of the history are the projected messages whose sequences are those of
/// the agent's own commits, in their order.
pub proof fn visible_messages_are_projected(
    projected: Seq<(u64, Message)>,
    entries: Seq<(u64, Message)>,
)
    ensures
        visible(projected, entries) == projected.filter(
            |shown: (u64, Message)| exists|i: int| 0 <= i < entries.len() && (#[trigger] entries[i]).0 == shown.0,
        ),
    decreases projected.len(),
{
    reveal(Seq::filter);
    if projected.len() > 0 {
        visible_messages_are_projected(projected.drop_last(), entries);
    }
}

/// Estimated tokens of the messages from a position on, all together.
pub open spec fn weight_from(entries: Seq<(u64, Message)>, start: int) -> nat
    decreases entries.len() - start,
{
    if start < 0 || start >= entries.len() {
        0
    } else {
        weight_from(entries, start + 1) + compaction::message_tokens(entries[start].1@)
    }
}

proof fn lemma_tokens_are_weight(entries: Seq<(u64, Message)>, start: int)
    requires
        0 <= start,
    ensures
        tokens_from(entries, start) == if weight_from(entries, start) > u64::MAX {
            u64::MAX as nat
        } else {
            weight_from(entries, start)
        },
    decreases entries.len() - start,
{
    if start < entries.len() {
        lemma_tokens_are_weight(entries, start + 1);
    }
}

proof fn lemma_weight_monotonic(entries: Seq<(u64, Message)>, first: int, second: int)
    requires
        0 <= first <= second,
    ensures
        weight_from(entries, second) <= weight_from(entries, first),
    decreases second - first,
{
    if first < second {
        lemma_weight_monotonic(entries, first + 1, second);
    }
}

proof fn lemma_tail_exists(entries: Seq<(u64, Message)>, start: int) -> (tail: int)
    requires
        entries.len() > 0,
        0 <= start < entries.len(),
        start == entries.len() - 1 || tokens_from(entries, start) <= TAIL_TOKENS,
    ensures
        begins_tail(entries, tail),
        tail <= start,
    decreases start,
{
    if start > 0 && tokens_from(entries, start - 1) <= TAIL_TOKENS {
        lemma_tail_exists(entries, start - 1)
    } else {
        start
    }
}

/// The newest visible messages stay as far as they fit a budget of eight thousand tokens
/// together, and the newest one stays in any case.
pub proof fn newest_messages_stay(
    entries: Seq<(u64, Message)>,
    shown: Seq<(u64, Message)>,
    origins: Seq<ModelCallOrigin>,
    index: int,
)
    requires
        0 <= index < shown.len(),
        index == shown.len() - 1 || weight_from(shown, index) <= 8000,
    ensures
        stays(entries, shown, origins, shown[index].0),
{
    lemma_tokens_are_weight(shown, index);
    let tail = lemma_tail_exists(shown, index);
    let start = if 0 < tail < shown.len() && shown[tail].1 is Tool {
        tail - 1
    } else {
        tail
    };
    assert(begins_retained(shown, start));
    assert(shown[index].0 == shown[index].0);
}

/// Whether a message is among the newest that fit the budget together, or is the newest.
pub open spec fn is_newest(shown: Seq<(u64, Message)>, index: int) -> bool {
    &&& 0 <= index < shown.len()
    &&& index == shown.len() - 1 || weight_from(shown, index) <= 8000
}

/// Whether a message is one of the newest, or the one before a tool message that is.
pub open spec fn is_kept_as_new(shown: Seq<(u64, Message)>, index: int, sequence: u64) -> bool {
    &&& 0 <= index < shown.len()
    &&& shown[index].0 == sequence
    &&& is_newest(shown, index) || is_newest(shown, index + 1) && shown[index + 1].1 is Tool
}

/// Whether a message is the one in which a job was started, or the one that follows it.
pub open spec fn is_of_exchange(
    entries: Seq<(u64, Message)>,
    origin: ModelCallOrigin,
    position: int,
    sequence: u64,
) -> bool {
    ||| origin.message == sequence
    ||| 0 < position < entries.len() && entries[position].0 == sequence && entries[position - 1].0 == origin.message
}

/// Only they stay, with the message before the first of them where that is a tool message,
/// and the exchanges of active jobs: the assistant message that a job was started in, and
/// the message that follows it.
pub proof fn nothing_else_stays(
    entries: Seq<(u64, Message)>,
    shown: Seq<(u64, Message)>,
    origins: Seq<ModelCallOrigin>,
    sequence: u64,
)
    requires
        stays(entries, shown, origins, sequence),
    ensures
        (exists|i: int| #[trigger] is_kept_as_new(shown, i, sequence)) || (exists|k: int, p: int|
            0 <= k < origins.len() && #[trigger] is_of_exchange(entries, origins[k], p, sequence)),
{
    if exists|i: int| 0 <= i < origins.len() && in_exchange(entries, #[trigger] origins[i], sequence) {
        let k = choose|i: int| 0 <= i < origins.len() && in_exchange(entries, #[trigger] origins[i], sequence);
        lemma_exchange_found(entries, origins[k], sequence);
        let p = choose|p: int| #[trigger] is_of_exchange(entries, origins[k], p, sequence);
        assert(is_of_exchange(entries, origins[k], p, sequence));
    } else {
        let (start, i) = choose|start: int, i: int|
            #[trigger] begins_retained(shown, start) && start <= i < shown.len() && (#[trigger] shown[i]).0 == sequence;
        lemma_kept_as_new(shown, start, i);
        assert(is_kept_as_new(shown, i, sequence));
    }
}

proof fn lemma_exchange_found(entries: Seq<(u64, Message)>, origin: ModelCallOrigin, sequence: u64)
    requires
        in_exchange(entries, origin, sequence),
    ensures
        exists|p: int| #[trigger] is_of_exchange(entries, origin, p, sequence),
{
    if sequence == origin.message {
        assert(is_of_exchange(entries, origin, 0, sequence));
    } else {
        lemma_entry_position_bounds(entries, origin.message);
        let p = entry_position(entries, origin.message)->0 + 1;
        assert(is_of_exchange(entries, origin, p, sequence));
    }
}

proof fn lemma_kept_as_new(shown: Seq<(u64, Message)>, start: int, index: int)
    requires
        begins_retained(shown, start),
        start <= index < shown.len(),
    ensures
        is_kept_as_new(shown, index, shown[index].0),
{
    let tail = choose|tail: int|
        #[trigger] begins_tail(shown, tail) && start == if 0 < tail < shown.len() && shown[tail].1 is Tool {
            tail - 1
        } else {
            tail
        };
    lemma_tokens_are_weight(shown, tail);
    if tail <= index {
        lemma_weight_monotonic(shown, tail, index);
        assert(is_newest(shown, index));
    } else {
        assert(tail == index + 1);
        assert(is_newest(shown, index + 1));
    }
}

/// A message that is followed by a tool message stays where the tool message is the oldest
/// that fits the budget, so that no result stands without its call.
pub proof fn results_keep_their_calls(
    entries: Seq<(u64, Message)>,
    shown: Seq<(u64, Message)>,
    origins: Seq<ModelCallOrigin>,
    index: int,
)
    requires
        0 < index < shown.len(),
        shown[index].1 is Tool,
        index == shown.len() - 1 || weight_from(shown, index) <= 8000,
    ensures
        stays(entries, shown, origins, shown[index - 1].0),
{
    lemma_tokens_are_weight(shown, index);
    let tail = lemma_tail_exists(shown, index);
    let start = if 0 < tail < shown.len() && shown[tail].1 is Tool {
        tail - 1
    } else {
        tail
    };
    assert(begins_retained(shown, start));
    assert(shown[index - 1].0 == shown[index - 1].0);
}

/// Whether the message at a position is the complete exchange that a job was started in:
/// an assistant message with the call, and right behind it the results of all its calls.
pub open spec fn is_complete_exchange(entries: Seq<(u64, Message)>, position: int, call: Seq<char>) -> bool {
    &&& 0 <= position
    &&& position + 1 < entries.len()
    &&& match (entries[position].1, entries[position + 1].1) {
        (Message::Assistant(blocks), Message::Tool(results)) => {
            &&& exists|i: int|
                0 <= i < blocks@.len() && (#[trigger] blocks@[i] matches AssistantContent::ToolCall(found) && found.id@
                    == call)
            &&& forall|i: int|
                0 <= i < blocks@.len() ==> (#[trigger] blocks@[i] matches AssistantContent::ToolCall(found)
                    ==> exists|j: int| 0 <= j < results@.len() && (#[trigger] results@[j]).call_id@ == found.id@)
        },
        _ => false,
    }
}

/// The outcome is a failure exactly where an active job was not started in a complete
/// exchange of the agent.
pub proof fn only_complete_exchanges_are_accepted(
    entries: Seq<(u64, Message)>,
    origins: Seq<ModelCallOrigin>,
)
    requires
        forall|i: int, j: int| 0 <= i < j < entries.len() ==> (#[trigger] entries[i]).0 != (#[trigger] entries[j]).0,
    ensures
        first_fault(entries, origins) is None <==> forall|k: int|
            0 <= k < origins.len() ==> exists|position: int|
                0 <= position < entries.len() && (#[trigger] entries[position]).0 == (#[trigger] origins[k]).message
                    && is_complete_exchange(entries, position, origins[k].call_id@),
    decreases origins.len(),
{
    if origins.len() > 0 {
        let rest = origins.drop_last();
        only_complete_exchanges_are_accepted(entries, rest);
        let last = origins.last();
        lemma_exchange_accepted(entries, last.message, last.call_id@);
        assert(origins[origins.len() - 1] == last);
        assert forall|k: int| 0 <= k < rest.len() implies #[trigger] rest[k] == origins[k] by {}
        if first_fault(entries, origins) is None {
            assert forall|k: int| 0 <= k < origins.len() implies exists|position: int|
                0 <= position < entries.len() && (#[trigger] entries[position]).0 == (#[trigger] origins[k]).message
                    && is_complete_exchange(entries, position, origins[k].call_id@) by {
                if k < rest.len() {
                    assert(rest[k] == origins[k]);
                }
            }
        } else if first_fault(entries, rest) is Some {
            let k = choose|k: int|
                0 <= k < rest.len() && !(exists|position: int|
                    0 <= position < entries.len() && (#[trigger] entries[position]).0 == (#[trigger] rest[k]).message
                        && is_complete_exchange(entries, position, rest[k].call_id@));
            assert(rest[k] == origins[k]);
        }
    }
}

proof fn lemma_exchange_accepted(entries: Seq<(u64, Message)>, message: u64, call: Seq<char>)
    requires
        forall|i: int, j: int| 0 <= i < j < entries.len() ==> (#[trigger] entries[i]).0 != (#[trigger] entries[j]).0,
    ensures
        exchange_fault(entries, message, call) is None <==> exists|position: int|
            0 <= position < entries.len() && (#[trigger] entries[position]).0 == message && is_complete_exchange(
                entries,
                position,
                call,
            ),
{
    lemma_entry_position_bounds(entries, message);
    lemma_entry_position_found(entries, message);
    if let Some(position) = entry_position(entries, message) {
        assert(exchange_fault(entries, message, call) is None <==> is_complete_exchange(entries, position, call)) by {
            if let Message::Assistant(blocks) = entries[position].1 {
                if has_call(blocks@, call) {
                    let i = choose|i: int| 0 <= i < blocks@.len() && is_call(#[trigger] blocks@[i], call);
                    assert(blocks@[i] matches AssistantContent::ToolCall(found) && found.id@ == call);
                }
                if exists|i: int|
                    0 <= i < blocks@.len() && (#[trigger] blocks@[i] matches AssistantContent::ToolCall(found)
                        && found.id@ == call) {
                    let i = choose|i: int|
                        0 <= i < blocks@.len() && (#[trigger] blocks@[i] matches AssistantContent::ToolCall(found)
                            && found.id@ == call);
                    assert(is_call(blocks@[i], call));
                }
                if position + 1 < entries.len() {
                    if let Message::Tool(results) = entries[position + 1].1 {
                        assert forall|i: int| 0 <= i < blocks@.len() implies (
                        #[trigger] blocks@[i] matches AssistantContent::ToolCall(found) ==> (has_result(
                            results@,
                            found.id@,
                        ) <==> exists|j: int|
                            0 <= j < results@.len() && (#[trigger] results@[j]).call_id@ == found.id@)) by {}
                    }
                }
            }
        }
        assert(entries[position].0 == message);
        assert forall|other: int| 0 <= other < entries.len() && (#[trigger] entries[other]).0 == message implies other
            == position by {
            if other < position {
                assert(entries[other].0 != entries[position].0);
            } else if position < other {
                assert(entries[position].0 != entries[other].0);
            }
        }
    }
}

proof fn lemma_entry_position_found(entries: Seq<(u64, Message)>, sequence: u64)
    ensures
        entry_position(entries, sequence) is None ==> forall|i: int|
            0 <= i < entries.len() ==> (#[trigger] entries[i]).0 != sequence,
    decreases entries.len(),
{
    if entries.len() > 0 {
        let rest = entries.drop_last();
        lemma_entry_position_found(rest, sequence);
        if entry_position(entries, sequence) is None {
            assert forall|i: int| 0 <= i < entries.len() implies (#[trigger] entries[i]).0 != sequence by {
                if i < rest.len() {
                    assert(rest[i] == entries[i]);
                }
            }
        }
    }
}

/// A failure tells what is wrong with the exchange that a job was started in.
pub proof fn faults_tell_what_is_wrong(entries: Seq<(u64, Message)>, position: int, message: u64, call: Seq<char>)
    requires
        forall|i: int, j: int| 0 <= i < j < entries.len() ==> (#[trigger] entries[i]).0 != (#[trigger] entries[j]).0,
    ensures
        (forall|i: int| 0 <= i < entries.len() ==> (#[trigger] entries[i]).0 != message) ==> exchange_fault(
            entries,
            message,
            call,
        ) == Some("active job creator message is missing"@),
        0 <= position < entries.len() && entries[position].0 == message ==> {
            let fault = exchange_fault(entries, message, call);
            let followed = position + 1 < entries.len() && entries[position + 1].1 is Tool;
            match entries[position].1 {
                Message::Assistant(blocks) => {
                    let called = exists|i: int|
                        0 <= i < blocks@.len() && (#[trigger] blocks@[i] matches AssistantContent::ToolCall(found)
                            && found.id@ == call);
                    &&& !called ==> fault == Some("active job creator call is missing"@)
                    &&& called && !followed ==> fault == Some("active job creator has no complete result exchange"@)
                    &&& called && followed && !is_complete_exchange(entries, position, call) ==> fault == Some(
                        "active job exchange has an unmatched tool call"@,
                    )
                },
                _ => fault == Some("active job creator is not an assistant message"@),
            }
        },
{
    lemma_entry_position_bounds(entries, message);
    lemma_entry_position_found(entries, message);
    lemma_exchange_accepted(entries, message, call);
    if 0 <= position < entries.len() && entries[position].0 == message {
        let found = entry_position(entries, message)->0;
        if found < position {
            assert(entries[found].0 != entries[position].0);
        } else if position < found {
            assert(entries[position].0 != entries[found].0);
        }
        if let Message::Assistant(blocks) = entries[position].1 {
            if has_call(blocks@, call) {
                let i = choose|i: int| 0 <= i < blocks@.len() && is_call(#[trigger] blocks@[i], call);
                assert(blocks@[i] matches AssistantContent::ToolCall(found) && found.id@ == call);
            }
            if exists|i: int|
                0 <= i < blocks@.len() && (#[trigger] blocks@[i] matches AssistantContent::ToolCall(found) && found.id@
                    == call) {
                let i = choose|i: int|
                    0 <= i < blocks@.len() && (#[trigger] blocks@[i] matches AssistantContent::ToolCall(found)
                        && found.id@ == call);
                assert(is_call(blocks@[i], call));
            }
        }
    }
}

/// Of several jobs whose exchanges are not complete, the first tells what is wrong.
pub proof fn the_first_fault_counts(entries: Seq<(u64, Message)>, origins: Seq<ModelCallOrigin>, index: int)
    requires
        0 <= index < origins.len(),
        exchange_fault(entries, origins[index].message, origins[index].call_id@) is Some,
        forall|k: int|
            0 <= k < index ==> exchange_fault(
                entries,
                (#[trigger] origins[k]).message,
                origins[k].call_id@,
            ) is None,
    ensures
        first_fault(entries, origins) == exchange_fault(entries, origins[index].message, origins[index].call_id@),
    decreases origins.len(),
{
    let rest = origins.drop_last();
    assert forall|k: int| 0 <= k < rest.len() implies #[trigger] rest[k] == origins[k] by {}
    if index < rest.len() {
        the_first_fault_counts(entries, rest, index);
    } else {
        lemma_no_fault(entries, rest);
    }
}

proof fn lemma_no_fault(entries: Seq<(u64, Message)>, origins: Seq<ModelCallOrigin>)
    requires
        forall|k: int|
            0 <= k < origins.len() ==> exchange_fault(
                entries,
                (#[trigger] origins[k]).message,
                origins[k].call_id@,
            ) is None,
    ensures
        first_fault(entries, origins) is None,
    decreases origins.len(),
{
    if origins.len() > 0 {
        let rest = origins.drop_last();
        assert forall|k: int| 0 <= k < rest.len() implies exchange_fault(
            entries,
            (#[trigger] rest[k]).message,
            rest[k].call_id@,
        ) is None by {
            assert(rest[k] == origins[k]);
        }
        lemma_no_fault(entries, rest);
        assert(origins[origins.len() - 1] == origins.last());
    }
}

/// A job's result counts wherever it is nested, but not among arguments: an array carries
/// what one of its items carries, and an object what one of its other members carries.
pub proof fn nested_results_count(items: Seq<JsonView>, members: Seq<(Seq<char>, JsonView)>, number: u64)
    ensures
        forall|i: int|
            0 <= i < items.len() && carries_output(#[trigger] items[i], number) ==> carries_output(
                JsonView::Array(items),
                number,
            ),
        forall|i: int|
            0 <= i < members.len() && carries_output((#[trigger] members[i]).1, number) && members[i].0
                != "arguments"@ ==> carries_output(JsonView::Object(members), number),
{
    assert forall|i: int| 0 <= i < items.len() && carries_output(#[trigger] items[i], number) implies carries_output(
        JsonView::Array(items),
        number,
    ) by {
        lemma_item_carries(items, i, number);
    }
    assert forall|i: int|
        0 <= i < members.len() && carries_output((#[trigger] members[i]).1, number) && members[i].0
            != "arguments"@ implies carries_output(JsonView::Object(members), number) by {
        assert(JsonView::Object(members)->Object_0[i] == members[i]);
    }
}

/// Only results count: an object with the state and the number of a job carries that job's
/// result where it has one, or an output, a preview, a question or an error that is not
/// null. A mere status does not, nor does any value without members and items.
pub proof fn statuses_are_no_results(value: JsonView, number: u64)
    ensures
        !(value is Object) && !(value is Array) ==> !carries_output(value, number),
        (value matches JsonView::Object(members) && forall|i: int|
            0 <= i < members.len() ==> !carries_output((#[trigger] members[i]).1, number)) ==> (carries_output(
            value,
            number,
        ) <==> {
            &&& number > 0
            &&& value.member("id"@) == Some(JsonView::Unsigned(number))
            &&& value.member("state"@) matches Some(JsonView::Text(state)) && job::names_state(state)
            &&& {
                ||| value.member("result"@) is Some
                ||| value.member("output"@) is Some && !(value.member("output"@)->0 is Null)
                ||| value.member("preview"@) is Some && !(value.member("preview"@)->0 is Null)
                ||| value.member("question"@) is Some && !(value.member("question"@)->0 is Null)
                ||| value.member("error"@) is Some && !(value.member("error"@)->0 is Null)
            }
        }),
{
}

/// A value is the envelope of a job's result where it names the job and one of its states
/// and brings a result, or anything else of the job that is not null.
pub proof fn envelopes_name_their_job(value: JsonView, number: u64)
    ensures
        envelope_job(value) == Some(number) <==> {
            &&& number > 0
            &&& value.member("id"@) == Some(JsonView::Unsigned(number))
            &&& value.member("state"@) matches Some(JsonView::Text(state)) && job::names_state(state)
            &&& {
                ||| value.member("result"@) is Some
                ||| value.member("output"@) is Some && !(value.member("output"@)->0 is Null)
                ||| value.member("preview"@) is Some && !(value.member("preview"@)->0 is Null)
                ||| value.member("question"@) is Some && !(value.member("question"@)->0 is Null)
                ||| value.member("error"@) is Some && !(value.member("error"@)->0 is Null)
            }
        },
{
}

/// Results of jobs come to an agent in tool results and in notifications of the harness:
/// each of them is looked at, and nothing that the model or the user wrote is.
pub proof fn results_come_from_tools_and_notifications(
    results: Vec<ToolResult>,
    blocks: Vec<UserContent>,
    answer: Vec<AssistantContent>,
    number: u64,
    index: int,
    payload: Seq<char>,
)
    ensures
        !message_carries(Message::Assistant(answer), number),
        0 <= index < results@.len() && carries_output(results@[index].result@, number) ==> message_carries(
            Message::Tool(results),
            number,
        ),
        (forall|i: int| 0 <= i < blocks@.len() ==> !((#[trigger] blocks@[i]) is Runtime)) ==> !message_carries(
            Message::User(blocks),
            number,
        ),
        0 <= index < blocks@.len() && (blocks@[index] matches UserContent::Runtime { text } && text@ == EVENTS_OPEN@
            + payload + EVENTS_CLOSE@) && (json::parsed_json(payload) matches Some(value) && carries_output(
            value,
            number,
        )) ==> message_carries(Message::User(blocks), number),
{
    if 0 <= index < blocks@.len() {
        if let UserContent::Runtime { text } = blocks@[index] {
            if text@ == EVENTS_OPEN@ + payload + EVENTS_CLOSE@ && (json::parsed_json(payload) matches Some(value)
                && carries_output(value, number)) {
                assert(notifies(text@, number));
            }
        }
    }
}

/// What stays keeps its order: a later message comes behind the earlier ones.
pub proof fn kept_messages_keep_their_order(
    entries: Seq<(u64, Message)>,
    entry: (u64, Message),
    keep: spec_fn(u64) -> bool,
)
    ensures
        kept(seq![], keep).len() == 0,
        kept(entries.push(entry), keep) == if keep(entry.0) {
            kept(entries, keep).push(entry)
        } else {
            kept(entries, keep)
        },
{
    assert(entries.push(entry).drop_last() =~= entries);
}

/// An entry is found at the first position that has its sequence.
pub proof fn entries_are_found_by_sequence(entries: Seq<(u64, Message)>, sequence: u64, index: int)
    requires
        0 <= index <= entries.len(),
        forall|k: int| 0 <= k < index ==> (#[trigger] entries[k]).0 != sequence,
        index < entries.len() ==> entries[index].0 == sequence,
    ensures
        entry_position(entries, sequence) == if index < entries.len() {
            Some(index)
        } else {
            None::<int>
        },
    decreases entries.len(),
{
    if entries.len() > 0 {
        let rest = entries.drop_last();
        let last = entries.len() - 1;
        assert(entries[last] == entries.last());
        assert forall|k: int| 0 <= k < rest.len() implies #[trigger] rest[k] == entries[k] by {}
        if index <= last {
            entries_are_found_by_sequence(rest, sequence, index);
        } else {
            assert(entries[last].0 != sequence);
            entries_are_found_by_sequence(rest, sequence, last);
        }
    }
}

} // verus!
