//! Profiles of agents.

use vstd::prelude::*;

verus! {

/// What an agent is configured with.
#[derive(Clone, Debug, Default, PartialEq, Eq)]
pub struct AgentProfile {
    pub instructions: String,
    pub model_profile: Option<String>,
}

} // verus!
