//! Harness configuration.

use vstd::prelude::*;
use vstd::string::*;
use crate::error::HarnessError;
use crate::instructions;
use crate::instructions::join_path;
use crate::model;
use crate::profiles;
use crate::profiles::{
    name_order_is_transitive, place, precedes, validate_model_profiles, ModelProfiles, Placement,
};
use crate::prompt::{has_capability, Capability};
use crate::protocol::{ModelProfile, ModelProfileView};

verus! {

/// How deep agents may be nested where nothing else is configured.
pub const DEFAULT_CHILD_DEPTH: usize = 4;

/// What a harness is configured with.
#[derive(Debug)]
pub struct HarnessBuilder {
    pub workspace: String,
    pub session_root: Option<String>,
    /// The names of the providers.
    pub providers: Vec<String>,
    pub model_profiles: ModelProfiles,
    pub default_model_profile: Option<String>,
    pub instructions: Vec<String>,
    pub max_child_depth: usize,
    pub capabilities: Vec<Capability>,
}

/// A harness that is ready to start sessions.
#[derive(Debug)]
pub struct HarnessSettings {
    pub workspace: String,
    pub session_root: String,
    pub providers: Vec<String>,
    pub model_profiles: ModelProfiles,
    pub default_model_profile: String,
    pub instructions: Vec<String>,
    pub max_child_depth: usize,
    pub capabilities: Vec<Capability>,
    /// Whether a host's handler for sensitive prompts is used. It must not restore a
    /// capability for interaction that was revoked.
    pub sensitive_prompts: bool,
}

/// Where sessions are kept.
pub open spec fn session_directory(workspace: Seq<char>, configured: Option<Seq<char>>) -> Seq<char> {
    match configured {
        Some(path) => path,
        None => instructions::path_below(workspace, ".skyhook/sessions"@),
    }
}

impl HarnessBuilder {
    /// A harness for a workspace, with `capabilities` as granted by default.
    #[must_use]
    pub fn new(workspace: String, capabilities: Vec<Capability>) -> (builder: HarnessBuilder)
        ensures
            builder.workspace == workspace,
            builder.session_root is None,
            builder.providers@ == Seq::<String>::empty(),
            builder.model_profiles@ == Map::<Seq<char>, ModelProfileView>::empty(),
            builder.default_model_profile is None,
            builder.instructions@ == Seq::<String>::empty(),
            builder.max_child_depth == DEFAULT_CHILD_DEPTH,
            builder.capabilities == capabilities,
    {
        HarnessBuilder {
            workspace,
            session_root: None,
            providers: Vec::new(),
            model_profiles: ModelProfiles::new(),
            default_model_profile: None,
            instructions: Vec::new(),
            max_child_depth: DEFAULT_CHILD_DEPTH,
            capabilities,
        }
    }

    /// Keeps sessions at a path.
    #[must_use]
    pub fn session_root(self, path: String) -> (builder: HarnessBuilder)
        ensures
            builder == (HarnessBuilder { session_root: Some(path), ..self }),
    {
        let mut builder = self;
        builder.session_root = Some(path);
        builder
    }

    /// Adds a provider.
    #[must_use]
    pub fn provider(self, name: String) -> (builder: HarnessBuilder)
        ensures
            builder.providers@ == self.providers@.push(name),
            builder == (HarnessBuilder { providers: builder.providers, ..self }),
    {
        let mut builder = self;
        builder.providers.push(name);
        builder
    }

    /// Gives a model profile a name.
    #[must_use]
    pub fn model_profile(self, name: String, profile: ModelProfile) -> (builder: HarnessBuilder)
        ensures
            builder.model_profiles@ == self.model_profiles@.insert(name@, profile@),
            builder == (HarnessBuilder { model_profiles: builder.model_profiles, ..self }),
    {
        let mut builder = self;
        builder.model_profiles.insert(name, profile);
        builder
    }

    /// Selects the model profile of new sessions.
    #[must_use]
    pub fn default_model_profile(self, name: String) -> (builder: HarnessBuilder)
        ensures
            builder == (HarnessBuilder { default_model_profile: Some(name), ..self }),
    {
        let mut builder = self;
        builder.default_model_profile = Some(name);
        builder
    }

    /// Adds instructions for all agents.
    #[must_use]
    pub fn instructions(self, text: String) -> (builder: HarnessBuilder)
        ensures
            builder.instructions@ == self.instructions@.push(text),
            builder == (HarnessBuilder { instructions: builder.instructions, ..self }),
    {
        let mut builder = self;
        builder.instructions.push(text);
        builder
    }

    /// Limits how deep agents may be nested.
    #[must_use]
    pub fn max_child_depth(self, depth: usize) -> (builder: HarnessBuilder)
        ensures
            builder == (HarnessBuilder { max_child_depth: depth, ..self }),
    {
        let mut builder = self;
        builder.max_child_depth = depth;
        builder
    }

    /// Grants capabilities.
    #[must_use]
    pub fn capabilities(self, capabilities: Vec<Capability>) -> (builder: HarnessBuilder)
        ensures
            builder == (HarnessBuilder { capabilities, ..self }),
    {
        let mut builder = self;
        builder.capabilities = capabilities;
        builder
    }

    /// Settles the configuration. `workspace` is the resolved workspace, `limits` tells
    /// what is wrong with the limits of each model profile, in the order of their names,
    /// `servers` what is wrong with each server, and `loaded` are the instructions that
    /// files give, which stand before those that were added here.
    pub fn build(
        self,
        workspace: String,
        limits: &Vec<Option<String>>,
        servers: &Vec<(String, Option<String>)>,
        loaded: Vec<String>,
    ) -> (settings: Result<HarnessSettings, HarnessError>)
        requires
            limits.len() == self.model_profiles.listed().len(),
        ensures
            match settings {
                Ok(harness) => {
                    &&& build_fault(self, limits@, servers@) is None
                    &&& self.default_model_profile == Some(harness.default_model_profile)
                    &&& harness.workspace == workspace
                    &&& harness.session_root@ == session_directory(
                        workspace@,
                        model::text_view(self.session_root),
                    )
                    &&& harness.providers == self.providers
                    &&& harness.model_profiles == self.model_profiles
                    &&& harness.instructions@ == loaded@ + self.instructions@
                    &&& harness.max_child_depth == self.max_child_depth
                    &&& harness.capabilities == self.capabilities
                    &&& harness.sensitive_prompts == self.capabilities@.contains(Capability::Interactive)
                },
                Err(error) => build_fault(self, limits@, servers@) == Some(fault_of(error)),
            },
    {
        let default_model_profile = match self.default_model_profile {
            Some(name) => name,
            None => {
                return Err(HarnessError::MissingDefaultModelProfile);
            },
        };
        match validate_model_profiles(
            &self.providers,
            &self.model_profiles,
            limits,
            default_model_profile.as_str(),
        ) {
            Ok(()) => {},
            Err(error) => {
                return Err(error);
            },
        }
        let mut i: usize = 0;
        while i < servers.len()
            invariant
                i <= servers.len(),
                limits.len() == self.model_profiles.listed().len(),
                self.default_model_profile == Some(default_model_profile),
                self.model_profiles@.dom().contains(default_model_profile@),
                profiles::first_fault(
                    self.model_profiles.listed(),
                    limits@,
                    model::views(self.providers@),
                ) is None,
                server_fault(servers@.take(i as int)) is None,
            decreases servers.len() - i,
        {
            proof {
                assert(servers@.take(i + 1).drop_last() =~= servers@.take(i as int));
                assert(servers@.take(i + 1).last() == servers@[i as int]);
            }
            if let Some(fault) = &servers[i].1 {
                let mut reason = "invalid MCP server ".to_owned();
                reason.append(servers[i].0.as_str());
                reason.append(": ");
                reason.append(fault.as_str());
                proof {
                    lemma_server_fault_stays(servers@, i + 1);
                }
                return Err(HarnessError::Initialization(reason));
            }
            i += 1;
        }
        assert(servers@.take(i as int) =~= servers@);
        let session_root = match self.session_root {
            Some(path) => path,
            None => join_path(workspace.as_str(), ".skyhook/sessions"),
        };
        let sensitive_prompts = has_capability(&self.capabilities, Capability::Interactive);
        let mut instructions = loaded;
        let mut own = self.instructions;
        instructions.append(&mut own);
        Ok(
            HarnessSettings {
                workspace,
                session_root,
                providers: self.providers,
                model_profiles: self.model_profiles,
                default_model_profile,
                instructions,
                max_child_depth: self.max_child_depth,
                capabilities: self.capabilities,
                sensitive_prompts,
            },
        )
    }
}

/// What is wrong with the first server that has a fault.
pub open spec fn server_fault(servers: Seq<(String, Option<String>)>) -> Option<Seq<char>>
    decreases servers.len(),
{
    if servers.len() == 0 {
        None
    } else {
        match server_fault(servers.drop_last()) {
            Some(fault) => Some(fault),
            None => match servers.last().1 {
                Some(fault) => Some("invalid MCP server "@ + servers.last().0@ + ": "@ + fault@),
                None => None,
            },
        }
    }
}

proof fn lemma_server_fault_stays(servers: Seq<(String, Option<String>)>, count: int)
    requires
        0 <= count <= servers.len(),
        server_fault(servers.take(count)) is Some,
    ensures
        server_fault(servers) == server_fault(servers.take(count)),
    decreases servers.len(),
{
    if count < servers.len() {
        assert(servers.drop_last().take(count) =~= servers.take(count));
        lemma_server_fault_stays(servers.drop_last(), count);
    } else {
        assert(servers.take(count) =~= servers);
    }
}

/// Why a configuration is refused.
pub enum BuildFault {
    NoDefault,
    UnknownDefault(Seq<char>),
    Profile(Seq<char>),
    Server(Seq<char>),
    Other,
}

/// The reason that an error gives.
pub open spec fn fault_of(error: HarnessError) -> BuildFault {
    match error {
        HarnessError::MissingDefaultModelProfile => BuildFault::NoDefault,
        HarnessError::UnknownModelProfile(name) => BuildFault::UnknownDefault(name@),
        HarnessError::InvalidProfile(reason) => BuildFault::Profile(reason@),
        HarnessError::Initialization(reason) => BuildFault::Server(reason@),
        _ => BuildFault::Other,
    }
}

/// Why a configuration is refused, if it is: its default profile is looked at first,
/// then all profiles, then the servers.
pub open spec fn build_fault(
    builder: HarnessBuilder,
    limits: Seq<Option<String>>,
    servers: Seq<(String, Option<String>)>,
) -> Option<BuildFault> {
    match builder.default_model_profile {
        None => Some(BuildFault::NoDefault),
        Some(name) => if !builder.model_profiles@.dom().contains(name@) {
            Some(BuildFault::UnknownDefault(name@))
        } else {
            match profiles::first_fault(
                builder.model_profiles.listed(),
                limits,
                model::views(builder.providers@),
            ) {
                Some(fault) => Some(BuildFault::Profile(fault)),
                None => match server_fault(servers) {
                    Some(fault) => Some(BuildFault::Server(fault)),
                    None => None,
                },
            }
        },
    }
}

/// Whether a name does not occur again after a position.
pub open spec fn is_last_occurrence(names: Seq<String>, index: int) -> bool {
    &&& 0 <= index < names.len()
    &&& forall|k: int| index < k < names.len() ==> (#[trigger] names[k])@ != names[index]@
}

/// Whether positions are in the order of the names that stand there.
pub open spec fn ordered_positions(names: Seq<String>, positions: Seq<usize>) -> bool {
    forall|i: int, j: int|
        0 <= i < j < positions.len() ==> precedes(
            names[(#[trigger] positions[i]) as int]@,
            names[(#[trigger] positions[j]) as int]@,
        )
}

/// Tests whether a name does not occur again after a position.
fn find_no_later(names: &Vec<String>, index: usize) -> (answer: bool)
    requires
        index < names.len(),
    ensures
        answer == is_last_occurrence(names@, index as int),
{
    let mut k: usize = index + 1;
    while k < names.len()
        invariant
            index < k <= names.len(),
            forall|j: int| index < j < k ==> (#[trigger] names@[j])@ != names@[index as int]@,
        decreases names.len() - k,
    {
        if names[k] == names[index] {
            assert(names@[k as int]@ == names@[index as int]@);
            return false;
        }
        k += 1;
    }
    true
}

/// Selects, of definitions under names, those that count: each name has its last
/// definition, so that configured ones that follow imported ones replace them. The
/// definitions stand in the order of their names.
pub fn merge_definitions(names: &Vec<String>) -> (positions: Vec<usize>)
    ensures
        ordered_positions(names@, positions@),
        forall|k: int| 0 <= k < positions@.len() ==> is_last_occurrence(names@, (#[trigger] positions@[k]) as int),
        forall|i: int| #[trigger] is_last_occurrence(names@, i) ==> positions@.contains(i as usize),
{
    let mut positions: Vec<usize> = Vec::new();
    let mut i: usize = 0;
    while i < names.len()
        invariant
            i <= names.len(),
            ordered_positions(names@, positions@),
            forall|k: int|
                0 <= k < positions@.len() ==> (#[trigger] positions@[k]) < i && is_last_occurrence(
                    names@,
                    positions@[k] as int,
                ),
            forall|j: int| j < i && #[trigger] is_last_occurrence(names@, j) ==> positions@.contains(j as usize),
        decreases names.len() - i,
    {
        if find_no_later(names, i) {
            insert_position(names, &mut positions, i);
        }
        i += 1;
    }
    positions
}

/// Puts the position of a name that is not among them in its place.
fn insert_position(names: &Vec<String>, positions: &mut Vec<usize>, index: usize)
    requires
        index < names.len(),
        ordered_positions(names@, old(positions)@),
        forall|k: int|
            0 <= k < old(positions)@.len() ==> (#[trigger] old(positions)@[k]) < index && is_last_occurrence(
                names@,
                old(positions)@[k] as int,
            ),
    ensures
        ordered_positions(names@, final(positions)@),
        forall|k: int|
            0 <= k < final(positions)@.len() ==> (#[trigger] final(positions)@[k]) == index
                || old(positions)@.contains(final(positions)@[k]),
        forall|position: usize|
            old(positions)@.contains(position) || position == index ==> #[trigger] final(positions)@.contains(
                position,
            ),
{
    let ghost before = positions@;
    let mut at: usize = 0;
    let mut found = false;
    while !found && at < positions.len()
        invariant
            index < names.len(),
            positions@ == before,
            at <= before.len(),
            ordered_positions(names@, before),
            forall|k: int|
                0 <= k < before.len() ==> (#[trigger] before[k]) < index && is_last_occurrence(
                    names@,
                    before[k] as int,
                ),
            forall|k: int|
                0 <= k < at ==> precedes(names@[(#[trigger] before[k]) as int]@, names@[index as int]@),
            found ==> at < before.len() && precedes(names@[index as int]@, names@[before[at as int] as int]@),
        decreases before.len() - at, if found { 0int } else { 1int },
    {
        assert(is_last_occurrence(names@, before[at as int] as int));
        match place(names[positions[at]].as_str(), names[index].as_str()) {
            Placement::Before => {
                at += 1;
            },
            _ => {
                found = true;
            },
        }
    }
    positions.insert(at, index);
    proof {
        let after = positions@;
        let place = at as int;
        assert forall|a: int, b: int| 0 <= a < b < after.len() implies precedes(
            names@[(#[trigger] after[a]) as int]@,
            names@[(#[trigger] after[b]) as int]@,
        ) by {
            if a == place {
                assert(after[b] == before[b - 1]);
                if b - 1 > place {
                    name_order_is_transitive(
                        names@[index as int]@,
                        names@[before[place] as int]@,
                        names@[before[b - 1] as int]@,
                    );
                }
            } else if b == place {
                assert(after[a] == before[a]);
            } else {
                let x = if a < place { a } else { a - 1 };
                let y = if b < place { b } else { b - 1 };
                assert(after[a] == before[x] && after[b] == before[y]);
            }
        }
        assert forall|k: int| 0 <= k < after.len() implies (#[trigger] after[k]) == index || before.contains(
            after[k],
        ) by {
            if k < place {
                assert(before[k] == after[k]);
            } else if k > place {
                assert(before[k - 1] == after[k]);
            }
        }
        assert forall|position: usize| before.contains(position) || position == index implies #[trigger] after.contains(
            position,
        ) by {
            if position == index {
                assert(after[place] == index);
            } else {
                let k = choose|k: int| 0 <= k < before.len() && before[k] == position;
                let m = if k < place { k } else { k + 1 };
                assert(after[m] == position);
            }
        }
    }
}

/// Sessions are kept where that is configured, and otherwise in the workspace.
pub proof fn sessions_are_kept_where_configured(workspace: Seq<char>, path: Seq<char>)
    ensures
        session_directory(workspace, Some(path)) == path,
        workspace.len() > 0 && workspace.last() != '/' ==> session_directory(workspace, None) == workspace
            + "/.skyhook/sessions"@,
{
    reveal_strlit("/");
    reveal_strlit(".skyhook/sessions");
    reveal_strlit("/.skyhook/sessions");
    assert(workspace + "/"@ + ".skyhook/sessions"@ =~= workspace + "/.skyhook/sessions"@);
}

/// The fault that is told of the servers is that of the first one that has any, by its
/// name.
pub proof fn the_first_faulty_server_is_told(servers: Seq<(String, Option<String>)>, index: int)
    requires
        0 <= index <= servers.len(),
        forall|k: int| 0 <= k < index ==> (#[trigger] servers[k]).1 is None,
        index < servers.len() ==> servers[index].1 is Some,
    ensures
        server_fault(servers) == if index < servers.len() {
            Some("invalid MCP server "@ + servers[index].0@ + ": "@ + servers[index].1->0@)
        } else {
            None
        },
    decreases servers.len(),
{
    if servers.len() > 0 {
        let rest = servers.drop_last();
        let last = servers.len() - 1;
        assert(servers[last] == servers.last());
        assert forall|k: int| 0 <= k < rest.len() implies #[trigger] rest[k] == servers[k] by {}
        if index <= last {
            the_first_faulty_server_is_told(rest, index);
        } else {
            assert(servers[last].1 is None);
            the_first_faulty_server_is_told(rest, last);
        }
    }
}

/// A configuration is sound where it has a default profile that is known and neither a
/// profile nor a server has a fault. Otherwise the first of these that fails is told.
pub proof fn sound_configurations_are_accepted(
    builder: HarnessBuilder,
    limits: Seq<Option<String>>,
    servers: Seq<(String, Option<String>)>,
)
    ensures
        ({
            let fault = build_fault(builder, limits, servers);
            let name = builder.default_model_profile;
            let known = name is Some && builder.model_profiles@.dom().contains(name->0@);
            let profile = profiles::first_fault(
                builder.model_profiles.listed(),
                limits,
                model::views(builder.providers@),
            );
            let server = server_fault(servers);
            &&& fault is None <==> known && profile is None && server is None
            &&& name is None ==> fault == Some(BuildFault::NoDefault)
            &&& name is Some && !known ==> fault == Some(BuildFault::UnknownDefault(name->0@))
            &&& known && profile is Some ==> fault == Some(BuildFault::Profile(profile->0))
            &&& known && profile is None && server is Some ==> fault == Some(BuildFault::Server(server->0))
        }),
{
}

/// Each error that refuses a configuration gives its own reason.
pub proof fn errors_give_their_reason(text: String)
    ensures
        fault_of(HarnessError::MissingDefaultModelProfile) == BuildFault::NoDefault,
        fault_of(HarnessError::UnknownModelProfile(text)) == BuildFault::UnknownDefault(text@),
        fault_of(HarnessError::InvalidProfile(text)) == BuildFault::Profile(text@),
        fault_of(HarnessError::Initialization(text)) == BuildFault::Server(text@),
{
}

} // verus!
