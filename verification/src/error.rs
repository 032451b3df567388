//! Why a request to the harness is refused or ends without an answer.

use vstd::prelude::*;

verus! {

/// Why a queued submission cannot be handed out, dispatched or retired.
#[derive(Clone, Copy, Debug, PartialEq, Eq, Structural)]
pub enum QueueConflict {
    /// No permit for the attempt was issued here.
    NotReserved,
    /// Another holder is live.
    Held,
    /// The journal does not know the attempt as open.
    Unknown,
    /// The attempt has been committed.
    Committed,
    /// The attempt has not been committed.
    Uncommitted,
}

/// Why the harness refuses or gives up a request.
#[derive(Clone, Debug, PartialEq, Eq)]
pub enum HarnessError {
    Interrupted,
    AgentStopped,
    ChildDepth,
    ImageLimit,
    MissingDefaultModelProfile,
    UnknownModelProfile(String),
    UnknownProvider(String),
    ImagesUnsupported(String),
    InvalidProfile(String),
    Initialization(String),
    Compaction(String),
    Agent(String),
    Queue(QueueConflict),
    /// A provider failed in a way that recovery does not handle.
    Provider(String),
}

/// Why a tool call is refused or fails.
#[derive(Clone, Debug, PartialEq, Eq)]
pub enum ToolError {
    InvalidArguments(String),
    Denied(String),
    Failed(String),
}

} // verus!
