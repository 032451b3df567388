//! The session journal: what happened, in order, to which agent.

use vstd::prelude::*;
use crate::identity::{AgentId, JobId};
use crate::json::Json;
use crate::prompt::ExecutionLocation;
use crate::protocol::{Message, MessageView, ModelRequest, Usage, UserContent};
use crate::todo::TodoItem;

verus! {

/// Version of the records that this library writes.
pub const SESSION_FORMAT_VERSION: u32 = 1;

/// What a model request is for.
#[derive(Clone, Copy, Debug, PartialEq, Eq, Structural)]
pub enum ModelPurpose {
    Agent,
    Compaction,
}

/// How a failed attempt ended.
#[derive(Clone, Copy, Debug, PartialEq, Eq, Structural)]
pub enum ModelFailureKind {
    Error,
    Refusal,
}

/// One message of a recorded request: a reference into the journal, or its text.
#[derive(Clone, Debug, PartialEq, Eq)]
pub enum ContextMessage {
    Source { sequence: u64 },
    Inline { message: Message },
}

/// The mathematical content of a `ContextMessage`.
#[verifier::ext_equal]
pub enum ContextMessageView {
    Source { sequence: u64 },
    Inline { message: MessageView },
}

impl View for ContextMessage {
    type V = ContextMessageView;

    open spec fn view(&self) -> ContextMessageView {
        match *self {
            ContextMessage::Source { sequence } => ContextMessageView::Source { sequence },
            ContextMessage::Inline { message } => ContextMessageView::Inline { message: message@ },
        }
    }
}

/// The tool call of an assistant message that started a job.
#[derive(Clone, Debug, PartialEq, Eq)]
pub struct ModelCallOrigin {
    /// Journal sequence of the assistant message.
    pub message: u64,
    pub call_id: String,
}

/// A compaction as it is installed: what replaces which part of the history.
#[derive(Clone, Debug, PartialEq, Eq)]
pub struct CompactionCheckpoint {
    pub schema_version: u16,
    /// The compaction that this one follows.
    pub previous: Option<u64>,
    /// Last journal sequence that the compaction has seen.
    pub frontier: u64,
    pub message: Message,
    pub todos: Vec<TodoItem>,
    /// Original messages that stay in the history, by sequence.
    pub retained: Vec<u64>,
    pub request: u64,
    pub before_tokens: u64,
    pub after_tokens: u64,
    pub max_context: u64,
}

/// An immutable draft of a queued submission.
#[derive(Clone, Debug, PartialEq, Eq)]
pub struct QueueIntent {
    pub attempt: u64,
    pub content: Vec<UserContent>,
    pub model: Option<String>,
}

/// Where an accepted append stands in the journal.
#[derive(Clone, Copy, Debug, PartialEq, Eq, Structural)]
pub struct AppendIdentity {
    pub event: u64,
}

/// How a queued attempt ended.
#[derive(Clone, Copy, Debug, PartialEq, Eq, Structural)]
pub enum QueueSettlement {
    Committed { event: u64 },
    NotCommitted,
}

/// Something that happened to an agent.
#[derive(Clone, Debug, PartialEq, Eq)]
pub enum SessionEvent {
    SessionStarted,
    AgentStarted {
        parent: Option<AgentId>,
        owner_job: Option<JobId>,
        model_profile: String,
        max_context: Option<u64>,
        location: ExecutionLocation,
    },
    AgentCompleted,
    AgentInterrupted,
    ModelChanged { model_profile: String, max_context: u64 },
    ModelContext { provider: String, template: ModelRequest },
    ModelRequested { context: u64, messages: Vec<ContextMessage>, purpose: ModelPurpose },
    ModelAttemptStarted { request: u64, attempt: u64 },
    ModelAttemptInterrupted { request: u64, attempt: u64 },
    ModelFailed { request: u64, attempt: u64, error: String, kind: ModelFailureKind },
    ModelRecoveryScheduled {
        request: u64,
        attempt: u64,
        max_attempts: Option<u64>,
        delay_millis: u64,
        error: String,
    },
    Usage { request: Option<u64>, usage: Usage },
    MessageCommitted { message: Message },
    Compaction { checkpoint: CompactionCheckpoint },
    CompactionFailed { request: Option<u64>, error: String },
    CompactionSkipped { request: u64, reason: String },
    JobCreated { job: JobId, tool: String, arguments: Json },
    QueueIntent { intent: QueueIntent },
    QueueSettlement { attempt: u64, settlement: QueueSettlement },
    QueueAcknowledged { attempt: u64 },
    Status { message: String },
}

/// One entry of the journal.
#[derive(Clone, Debug, PartialEq, Eq)]
pub struct EventRecord {
    pub version: u32,
    pub sequence: u64,
    pub timestamp_millis: u64,
    pub agent: AgentId,
    pub event: SessionEvent,
}

} // verus!
