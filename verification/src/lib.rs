//! Verified core of an agent harness: the journal projections, token accounting,
//! compaction rules, queues and state machines that an asynchronous runtime drives.

pub mod agents;
pub mod builder;
pub mod compact;
pub mod compaction;
pub mod context;
pub mod driver;
pub mod error;
pub mod history;
pub mod identity;
pub mod instructions;
pub mod interaction;
pub mod job;
pub mod journal;
pub mod json;
pub mod model;
pub mod observation;
pub mod profiles;
pub mod profile;
pub mod prompt;
pub mod protocol;
pub mod questions;
pub mod queue;
pub mod recovery;
pub mod response;
pub mod session;
pub mod table;
pub mod text;
pub mod todo;
