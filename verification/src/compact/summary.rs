//! What a summarizer's answer leads to, and how often it is asked.

use vstd::prelude::*;
use vstd::string::*;
use crate::error::HarnessError;
use crate::journal::SessionEvent;
use crate::model;
use crate::protocol::{StopReason, Usage};
use crate::recovery;
use crate::recovery::{ProviderFailure, RecoveryAttempt};
use crate::response::{BlockKind, BlockSnapshot, BlockSnapshotView, ItemSnapshotView, ResponseSnapshot};
use crate::text;

verus! {

/// How often a compaction is tried where its answer does not validate. Transient
/// failures of the provider do not count.
pub const MAX_COMPACTION_ATTEMPTS: u8 = 3;

/// Whether a failed attempt may be followed by another: the summarizer was asked,
/// and what it answered did not do.
pub open spec fn retryable(request: Option<u64>, error: HarnessError) -> bool {
    request is Some && error is Compaction
}

/// What is journaled of a failed attempt.
pub open spec fn attempt_text(attempt: u8, error: Seq<char>) -> Seq<char> {
    "attempt "@ + text::decimal(attempt as nat) + "/"@ + text::decimal(MAX_COMPACTION_ATTEMPTS as nat)
        + ": "@ + error
}

/// What follows a failed compaction attempt.
#[derive(Debug)]
pub struct AttemptVerdict {
    pub record: SessionEvent,
    /// Milliseconds to wait before the next attempt, if there is one.
    pub retry_after: Option<u64>,
}

/// Judges a failed attempt: what is journaled, and whether another one follows.
/// `shown` is the error as it is displayed.
pub fn judge_attempt(attempt: u8, request: Option<u64>, error: &HarnessError, shown: &str) -> (verdict: AttemptVerdict)
    requires
        1 <= attempt <= MAX_COMPACTION_ATTEMPTS,
    ensures
        verdict.record matches SessionEvent::CompactionFailed { request: asked, error: text } && asked
            == request && text@ == attempt_text(attempt, shown@),
        verdict.retry_after == if retryable(request, *error) && attempt < MAX_COMPACTION_ATTEMPTS {
            Some((100 * attempt) as u64)
        } else {
            None::<u64>
        },
{
    let mut text = "attempt ".to_owned();
    text::push_decimal(&mut text, attempt as u64);
    text.append("/");
    text::push_decimal(&mut text, MAX_COMPACTION_ATTEMPTS as u64);
    text.append(": ");
    text.append(shown);
    let again = match error {
        HarnessError::Compaction(_) => request.is_some() && attempt < MAX_COMPACTION_ATTEMPTS,
        _ => false,
    };
    AttemptVerdict {
        record: SessionEvent::CompactionFailed { request, error: text },
        retry_after: if again {
            Some(100 * attempt as u64)
        } else {
            None
        },
    }
}

/// How many attempts a compaction makes that fails in given ways, beginning with an
/// attempt.
pub open spec fn attempts_made(attempt: nat, failures: Seq<(Option<u64>, HarnessError)>) -> nat
    decreases failures.len(),
{
    if failures.len() == 0 {
        1
    } else if retryable(failures[0].0, failures[0].1) && attempt < MAX_COMPACTION_ATTEMPTS {
        1 + attempts_made(attempt + 1, failures.skip(1))
    } else {
        1
    }
}

/// However it fails, a compaction makes a bounded number of attempts.
pub proof fn compaction_attempts_are_bounded(attempt: nat, failures: Seq<(Option<u64>, HarnessError)>)
    requires
        1 <= attempt <= MAX_COMPACTION_ATTEMPTS,
    ensures
        attempts_made(attempt, failures) <= MAX_COMPACTION_ATTEMPTS - attempt + 1,
    decreases failures.len(),
{
    if failures.len() > 0 && attempt < MAX_COMPACTION_ATTEMPTS {
        compaction_attempts_are_bounded(attempt + 1, failures.skip(1));
    }
}

/// Asks a summarizer until it answers or fails for good. The request stays frozen.
#[derive(Clone, Copy, Debug, PartialEq, Eq, Structural)]
pub struct Summarizer {
    /// Sequence of the recorded request.
    pub request: u64,
    /// Attempts over the whole compaction.
    pub model_attempt: u64,
    /// Transient failures of this request.
    pub transient_attempt: u64,
}

impl Summarizer {
    /// Begins with a request, after attempts of earlier ones.
    pub fn new(request: u64, model_attempt: u64) -> (summarizer: Summarizer)
        ensures
            summarizer == (Summarizer { request, model_attempt, transient_attempt: 0 }),
    {
        Summarizer { request, model_attempt, transient_attempt: 0 }
    }

    /// Begins an attempt: what is journaled of it, unless the turn was cancelled.
    pub fn begin(&mut self, cancelled: bool) -> (result: Result<SessionEvent, HarnessError>)
        ensures
            cancelled ==> *final(self) == *old(self) && result == Err::<SessionEvent, HarnessError>(
                HarnessError::Interrupted,
            ),
            !cancelled ==> {
                let next = recovery::saturating_next(old(self).model_attempt);
                &&& *final(self) == (Summarizer { model_attempt: next, ..*old(self) })
                &&& result == Ok::<SessionEvent, HarnessError>(
                    SessionEvent::ModelAttemptStarted { request: old(self).request, attempt: next },
                )
            },
    {
        if cancelled {
            return Err(HarnessError::Interrupted);
        }
        self.model_attempt = self.model_attempt.saturating_add(1);
        Ok(SessionEvent::ModelAttemptStarted { request: self.request, attempt: self.model_attempt })
    }

    /// Takes a failure of the provider. A transient one is to be recovered from; it
    /// does not count against the attempts of the compaction. Any other one ends it.
    pub fn provider_failed(&mut self, error: &ProviderFailure) -> (result: Result<RecoveryAttempt, HarnessError>)
        ensures
            !error.transient ==> *final(self) == *old(self) && (result matches Err(
                HarnessError::Provider(text),
            ) && text@ == error.message@),
            error.transient ==> {
                let transient = recovery::saturating_next(old(self).transient_attempt);
                &&& *final(self) == (Summarizer { transient_attempt: transient, ..*old(self) })
                &&& result == Ok::<RecoveryAttempt, HarnessError>(
                    RecoveryAttempt { model: old(self).model_attempt, transient },
                )
            },
    {
        if !error.transient {
            return Err(HarnessError::Provider(error.message.clone()));
        }
        self.transient_attempt = self.transient_attempt.saturating_add(1);
        Ok(RecoveryAttempt { model: self.model_attempt, transient: self.transient_attempt })
    }
}

/// How the stream of a summarizer ends.
#[derive(Clone, Copy, Debug, PartialEq, Eq, Structural)]
pub enum StreamEnd {
    Completed,
    Failed,
    Cancelled,
}

/// The usage to record when a stream ends. A failure without observed usage
/// records none.
pub fn usage_to_record(end: StreamEnd, observed: Usage) -> (usage: Option<Usage>)
    ensures
        usage == if end == StreamEnd::Failed && observed == Usage::none() {
            None::<Usage>
        } else {
            Some(observed)
        },
{
    match end {
        StreamEnd::Failed => if observed.is_none() {
            None
        } else {
            Some(observed)
        },
        _ => Some(observed),
    }
}

/// Whether an answer was cut off.
pub open spec fn truncated(reason: StopReason) -> bool {
    reason == StopReason::MaxTokens || reason == StopReason::ContentFilter || reason == StopReason::Aborted
}

/// Whether an item of an answer asks for a tool.
pub open spec fn item_asks(blocks: Seq<BlockSnapshotView>) -> bool {
    exists|i: int| 0 <= i < blocks.len() && (#[trigger] blocks[i]).kind == BlockKind::ToolCall
}

/// Whether an answer asks for a tool.
pub open spec fn asks_for_tool(items: Seq<ItemSnapshotView>) -> bool {
    exists|i: int| 0 <= i < items.len() && item_asks((#[trigger] items[i]).blocks)
}

/// The visible text of an item, without its reasoning.
pub open spec fn item_text(blocks: Seq<BlockSnapshotView>) -> Seq<char>
    decreases blocks.len(),
{
    if blocks.len() == 0 {
        seq![]
    } else {
        let earlier = item_text(blocks.drop_last());
        if blocks.last().kind == BlockKind::Text {
            earlier + blocks.last().text
        } else {
            earlier
        }
    }
}

/// The visible text of an answer.
pub open spec fn visible_text(items: Seq<ItemSnapshotView>) -> Seq<char>
    decreases items.len(),
{
    if items.len() == 0 {
        seq![]
    } else {
        visible_text(items.drop_last()) + item_text(items.last().blocks)
    }
}

/// Appends the visible text of an item, unless it asks for a tool.
fn push_item(out: &mut String, blocks: &Vec<BlockSnapshot>) -> (plain: bool)
    ensures
        plain == !item_asks(model::views(blocks@)),
        plain ==> final(out)@ == old(out)@ + item_text(model::views(blocks@)),
{
    let ghost all = model::views(blocks@);
    let ghost before = out@;
    let mut i: usize = 0;
    assert(out@ =~= before + item_text(all.take(0)));
    while i < blocks.len()
        invariant
            i <= blocks.len(),
            all == model::views(blocks@),
            forall|k: int| 0 <= k < i ==> (#[trigger] all[k]).kind != BlockKind::ToolCall,
            out@ == before + item_text(all.take(i as int)),
        decreases blocks.len() - i,
    {
        proof {
            assert(all[i as int] == blocks@[i as int]@);
            assert(all.take(i + 1).drop_last() =~= all.take(i as int));
            assert(all.take(i + 1).last() == all[i as int]);
        }
        match blocks[i].kind {
            BlockKind::ToolCall => {
                assert(all[i as int].kind == BlockKind::ToolCall);
                return false;
            },
            BlockKind::Text => {
                out.append(blocks[i].text.as_str());
            },
            BlockKind::Reasoning => {},
        }
        assert(out@ =~= before + item_text(all.take(i + 1)));
        i += 1;
    }
    assert(all.take(i as int) =~= all);
    true
}

/// Takes the text of a complete answer that asks for no tool.
pub fn summary_text(answer: &ResponseSnapshot, reason: StopReason) -> (result: Result<String, HarnessError>)
    ensures
        ({
            let items = model::views(answer.items@);
            match result {
                Ok(text) => {
                    &&& !truncated(reason)
                    &&& !asks_for_tool(items)
                    &&& text@ == visible_text(items)
                },
                Err(error) => error matches HarnessError::Compaction(text) && if truncated(reason) {
                    text@ == "summarization was truncated; original history is retained"@
                } else {
                    &&& asks_for_tool(items)
                    &&& text@ == "summarizer returned a tool call; no tools were executed"@
                },
            }
        }),
{
    match reason {
        StopReason::MaxTokens | StopReason::ContentFilter | StopReason::Aborted => {
            return Err(
                HarnessError::Compaction(
                    "summarization was truncated; original history is retained".to_owned(),
                ),
            );
        },
        _ => {},
    }
    let ghost items = model::views(answer.items@);
    let mut text = String::new();
    let mut i: usize = 0;
    assert(text@ =~= visible_text(items.take(0)));
    while i < answer.items.len()
        invariant
            i <= answer.items.len(),
            items == model::views(answer.items@),
            !truncated(reason),
            forall|k: int| 0 <= k < i ==> !item_asks((#[trigger] items[k]).blocks),
            text@ == visible_text(items.take(i as int)),
        decreases answer.items.len() - i,
    {
        proof {
            assert(items[i as int] == answer.items@[i as int]@);
            assert(items.take(i + 1).drop_last() =~= items.take(i as int));
            assert(items.take(i + 1).last() == items[i as int]);
        }
        if !push_item(&mut text, &answer.items[i].blocks) {
            assert(item_asks(items[i as int].blocks));
            return Err(
                HarnessError::Compaction(
                    "summarizer returned a tool call; no tools were executed".to_owned(),
                ),
            );
        }
        i += 1;
    }
    assert(items.take(i as int) =~= items);
    Ok(text)
}

/// A compaction is tried again only where the summarizer was asked and its answer did not
/// do, three times at most in all. Any other failure ends it at once.
pub proof fn only_bad_answers_are_tried_again(request: Option<u64>, error: HarnessError, failures: Seq<(Option<u64>, HarnessError)>)
    ensures
        retryable(request, error) <==> request is Some && (error matches HarnessError::Compaction(_)),
        attempts_made(1, failures) <= 3,
        failures.len() > 0 && !(failures[0].0 is Some && (failures[0].1 matches HarnessError::Compaction(_)))
            ==> attempts_made(1, failures) == 1,
        failures.len() >= 2 && (failures[0].0 is Some && (failures[0].1 matches HarnessError::Compaction(_))) && (
        failures[1].0 is Some && (failures[1].1 matches HarnessError::Compaction(_))) ==> attempts_made(1, failures) == 3,
{
    compaction_attempts_are_bounded(1, failures);
    if failures.len() >= 2 {
        let rest = failures.skip(1);
        assert(rest[0] == failures[1]);
        assert(attempts_made(2, rest) >= 1);
        assert(attempts_made(3, rest.skip(1)) == 1);
    }
}

/// What is journaled of a failed attempt says which one it was of how many, and the error.
pub proof fn failed_attempts_are_numbered(attempt: u8, error: Seq<char>)
    ensures
        attempt_text(attempt, error) == "attempt "@ + text::decimal(attempt as nat) + "/"@ + text::decimal(3) + ": "@
            + error,
{
}

/// An answer asks for a tool where any block of any of its items is a call.
pub proof fn every_block_is_looked_at_for_calls(items: Seq<ItemSnapshotView>, i: int, j: int)
    ensures
        0 <= i < items.len() && 0 <= j < items[i].blocks.len() && items[i].blocks[j].kind == BlockKind::ToolCall
            ==> asks_for_tool(items),
        asks_for_tool(items) ==> exists|p: int, q: int|
            #![trigger items[p].blocks[q]]
            0 <= p < items.len() && 0 <= q < items[p].blocks.len() && items[p].blocks[q].kind == BlockKind::ToolCall,
{
    if 0 <= i < items.len() && 0 <= j < items[i].blocks.len() && items[i].blocks[j].kind == BlockKind::ToolCall {
        assert(item_asks(items[i].blocks));
    }
    if asks_for_tool(items) {
        let p = choose|p: int| 0 <= p < items.len() && item_asks((#[trigger] items[p]).blocks);
        let q = choose|q: int| 0 <= q < items[p].blocks.len() && (#[trigger] items[p].blocks[q]).kind
            == BlockKind::ToolCall;
        assert(items[p].blocks[q].kind == BlockKind::ToolCall);
    }
}

/// The text of an answer is the texts of its text blocks in their order, item by item, and
/// nothing of its reasoning.
pub proof fn answers_are_their_text_blocks(
    items: Seq<ItemSnapshotView>,
    item: ItemSnapshotView,
    blocks: Seq<BlockSnapshotView>,
    block: BlockSnapshotView,
)
    ensures
        visible_text(seq![]).len() == 0,
        item_text(seq![]).len() == 0,
        visible_text(items.push(item)) == visible_text(items) + item_text(item.blocks),
        block.kind == BlockKind::Text ==> item_text(blocks.push(block)) == item_text(blocks) + block.text,
        block.kind != BlockKind::Text ==> item_text(blocks.push(block)) == item_text(blocks),
{
    assert(items.push(item).drop_last() =~= items);
    assert(blocks.push(block).drop_last() =~= blocks);
}

/// An answer is incomplete where it ran out of tokens, was filtered or was aborted, and
/// complete where it ended by itself or asks for tools.
pub proof fn cut_answers_are_incomplete(reason: StopReason)
    ensures
        reason == StopReason::MaxTokens || reason == StopReason::ContentFilter || reason == StopReason::Aborted
            ==> truncated(reason),
        reason == StopReason::EndTurn || reason == StopReason::ToolUse ==> !truncated(reason),
{
}

} // verus!
