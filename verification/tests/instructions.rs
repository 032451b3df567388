use skyhook_core::builder::{merge_definitions, HarnessBuilder};
use skyhook_core::error::HarnessError;
use skyhook_core::instructions::{
    after_probe, candidate_name, instruction_error, is_same_path, join_path, label_instructions,
    load_user_instructions, user_instruction_directories, AgentInstructionFile, CandidateStep, Location, Probe,
    UserInstructions,
};
use skyhook_core::profile::AgentProfile;
use skyhook_core::profiles::{resolve_profile, validate_model_profiles, ModelProfiles};
use skyhook_core::prompt::Capability;
use skyhook_core::protocol::ModelProfile;

fn text(value: &str) -> Option<String> {
    Some(value.to_owned())
}

#[test]
fn instruction_roots_are_ordered_and_independent_of_config() {
    assert_eq!(
        user_instruction_directories(text("xdg"), text("home")),
        vec!["xdg/skyhook", "home/.config/skyhook"]
    );
    assert_eq!(
        user_instruction_directories(text(""), text("home")),
        vec!["home/.config/skyhook"]
    );
    assert_eq!(
        user_instruction_directories(text("home/.config"), text("home")),
        vec!["home/.config/skyhook"]
    );
    assert!(user_instruction_directories(None, text("")).is_empty());
}

#[test]
fn paths_are_joined_and_compared_by_components() {
    assert_eq!(join_path("/a/", "b"), "/a/b");
    assert_eq!(join_path("/a", "b/c"), "/a/b/c");
    assert!(is_same_path("home//.config/./skyhook/", "home/.config/skyhook"));
    assert!(!is_same_path("/home", "home"));
    assert!(!is_same_path("./home", "home"));
    assert!(!is_same_path("home/../x", "x"));
    assert_eq!(
        user_instruction_directories(text("home//.config/"), text("home")),
        vec!["home//.config/skyhook"]
    );
}

#[test]
fn the_first_spelling_that_exists_is_read() {
    assert_eq!(candidate_name(0), "AGENTS.md");
    assert_eq!(candidate_name(1), "agents.md");
    assert_eq!(candidate_name(2), "Agents.md");
    assert_eq!(candidate_name(3), "AGENTS.MD");
    assert_eq!(after_probe(1, Probe::Exists), CandidateStep::Read(1));
    assert_eq!(after_probe(1, Probe::Missing), CandidateStep::Next(2));
    assert_eq!(after_probe(3, Probe::Missing), CandidateStep::Absent);
    assert_eq!(after_probe(0, Probe::Failed), CandidateStep::Fail);
}

#[test]
fn failures_fall_back_but_are_reported_where_nothing_is_found() {
    let failed = |text: &str| Location::Failed(text.to_owned());
    assert!(matches!(
        load_user_instructions(&vec![failed("a"), Location::File]),
        UserInstructions::Found(1)
    ));
    assert!(matches!(
        load_user_instructions(&vec![Location::Absent, Location::Absent]),
        UserInstructions::Absent
    ));
    assert!(matches!(
        load_user_instructions(&vec![failed("a"), Location::Absent, failed("b"), Location::Absent]),
        UserInstructions::Failed { last: 2, message } if message == "a; b"
    ));
    assert_eq!(
        instruction_error("/w/AGENTS.md", "denied"),
        "AGENTS.md instruction file /w/AGENTS.md: denied"
    );
}

fn file(path: &str, identity: Option<(u64, u64)>, content: &str) -> AgentInstructionFile {
    AgentInstructionFile {
        canonical_path: path.to_owned(),
        identity,
        text: content.to_owned(),
    }
}

#[test]
fn user_and_workspace_files_are_labeled_in_order_and_counted_once() {
    let user = file("/u/AGENTS.md", Some((1, 2)), "user rules\n");
    let workspace = file("/w/AGENTS.md", Some((1, 3)), "local rules\n");
    assert_eq!(
        label_instructions(&Some(user.clone()), &Some(workspace.clone())),
        vec!["user AGENTS.md:\nuser rules\n", "workspace AGENTS.md:\nlocal rules\n"]
    );
    let linked = file("/w/agents.md", Some((1, 2)), "user rules\n");
    assert_eq!(
        label_instructions(&Some(user.clone()), &Some(linked)),
        vec!["user AGENTS.md:\nuser rules\n"]
    );
    assert!(user.same_file(&file("/u//AGENTS.md", None, "")));
    assert_eq!(
        label_instructions(&None, &Some(workspace)),
        vec!["workspace AGENTS.md:\nlocal rules\n"]
    );
}

fn profile(provider: &str) -> ModelProfile {
    ModelProfile {
        provider: provider.into(),
        model: "model".into(),
        reasoning: None,
        max_context: 1000,
        max_output: 100,
        supports_images: false,
    }
}

#[test]
fn profiles_are_kept_in_the_order_of_their_names() {
    let mut profiles = ModelProfiles::new();
    for name in ["b", "a", "ba", "é", "Z"] {
        profiles.insert(name.to_owned(), profile("one"));
    }
    profiles.insert("a".to_owned(), profile("two"));
    let names: Vec<&str> = profiles.entries().iter().map(|entry| entry.0.as_str()).collect();
    assert_eq!(names, ["Z", "a", "b", "ba", "é"]);
    assert_eq!(profiles.get("a").unwrap().provider, "two");
    assert!(profiles.get("c").is_none());
    assert_eq!(resolve_profile(&profiles, "b").unwrap().provider, "one");
    assert_eq!(
        resolve_profile(&profiles, "c"),
        Err(HarnessError::UnknownModelProfile("c".to_owned()))
    );
}

#[test]
fn unusable_profiles_are_refused_in_order() {
    let providers = vec!["one".to_owned()];
    let mut profiles = ModelProfiles::new();
    profiles.insert("b".to_owned(), profile("two"));
    profiles.insert("a".to_owned(), profile("one"));
    let sound = vec![None, None];
    assert_eq!(
        validate_model_profiles(&providers, &profiles, &sound, "c"),
        Err(HarnessError::UnknownModelProfile("c".to_owned()))
    );
    assert_eq!(
        validate_model_profiles(&providers, &profiles, &sound, "a"),
        Err(HarnessError::InvalidProfile(
            "model profile `b` uses unknown provider `two`".to_owned()
        ))
    );
    assert_eq!(
        validate_model_profiles(&providers, &profiles, &vec![text("too small"), None], "a"),
        Err(HarnessError::InvalidProfile("model profile `a`: too small".to_owned()))
    );
    let both = vec!["one".to_owned(), "two".to_owned()];
    assert_eq!(validate_model_profiles(&both, &profiles, &sound, "a"), Ok(()));
}

fn configured() -> HarnessBuilder {
    HarnessBuilder::new("work".to_owned(), vec![Capability::Read, Capability::Interactive])
        .provider("one".to_owned())
        .model_profile("a".to_owned(), profile("one"))
        .default_model_profile("a".to_owned())
        .instructions("library rules".to_owned())
}

#[test]
fn a_harness_is_built_from_its_configuration() {
    let settings = configured()
        .build("/work".to_owned(), &vec![None], &vec![], vec!["loaded".to_owned()])
        .unwrap();
    assert_eq!(settings.session_root, "/work/.skyhook/sessions");
    assert_eq!(settings.instructions, vec!["loaded", "library rules"]);
    assert_eq!(settings.max_child_depth, 4);
    assert!(settings.sensitive_prompts);
    let revoked = configured()
        .session_root("/sessions".to_owned())
        .max_child_depth(1)
        .capabilities(vec![Capability::Read])
        .build("/work".to_owned(), &vec![None], &vec![], vec![])
        .unwrap();
    assert_eq!(revoked.session_root, "/sessions");
    assert_eq!(revoked.max_child_depth, 1);
    assert!(!revoked.sensitive_prompts);
}

#[test]
fn faulty_configurations_are_refused() {
    let missing = HarnessBuilder::new("work".to_owned(), vec![]);
    assert!(matches!(
        missing.build("/work".to_owned(), &vec![], &vec![], vec![]),
        Err(HarnessError::MissingDefaultModelProfile)
    ));
    let servers = vec![
        ("good".to_owned(), None),
        ("bad".to_owned(), text("no command")),
    ];
    assert!(matches!(
        configured().build("/work".to_owned(), &vec![None], &servers, vec![]),
        Err(HarnessError::Initialization(reason)) if reason == "invalid MCP server bad: no command"
    ));
    assert!(matches!(
        configured().build("/work".to_owned(), &vec![text("bad limits")], &servers, vec![]),
        Err(HarnessError::InvalidProfile(reason)) if reason == "model profile `a`: bad limits"
    ));
}

#[test]
fn agent_profiles_are_empty_by_default() {
    let profile = AgentProfile::default();
    assert_eq!(profile.instructions, "");
    assert_eq!(profile.model_profile, None);
}

#[test]
fn configured_definitions_replace_imported_ones() {
    let names: Vec<String> = ["b", "a", "host", "a", "c"].iter().map(|name| name.to_string()).collect();
    assert_eq!(merge_definitions(&names), vec![3, 0, 4, 2]);
    assert_eq!(merge_definitions(&vec![]), Vec::<usize>::new());
}
