use skyhook_core::identity::{AgentId, JobId, SessionId};
use skyhook_core::job::JobState;
use skyhook_core::prompt::{
    cell, render_state, runtime_state, runtime_state_at, system_segment, ActiveJob, ActiveJobLocation, Capability, ExecutionLocation,
    JobProgress, TargetInfo, CHILD_PROMPT, ROOT_PROMPT,
};
use skyhook_core::protocol::UserContent;
use skyhook_core::todo::{TodoItem, TodoStatus};

fn location() -> ExecutionLocation {
    ExecutionLocation::root("/project".into())
}

fn job(id: u64, tool: &str, workspace: &str) -> ActiveJob {
    ActiveJob {
        job: JobId::new(id).unwrap(),
        tool: tool.to_owned(),
        name: None,
        state: JobState::Running,
        location: ActiveJobLocation {
            target: Some("root".to_owned()),
            workspace: workspace.into(),
        },
        age_seconds: 12,
        progress: if tool == "agent" {
            Some(JobProgress::default())
        } else {
            None
        },
        children: Vec::new(),
    }
}

#[test]
fn empty_state_contains_only_date() {
    let rendered = render_state("2026-09-10", &vec![], &vec![], &location());
    assert_eq!(rendered, "<skyhook_state>\ndate:2026-09-10\n</skyhook_state>");
}

#[test]
fn todos_group_only_consecutive_statuses_and_escape_text() {
    let todos = [
        (TodoStatus::InProgress, "Design"),
        (TodoStatus::InProgress, "Measure"),
        (TodoStatus::Pending, "Implement"),
        (TodoStatus::Pending, "Test\n\"quoted\" \\ Unicode: λ"),
        (TodoStatus::Completed, "Inspect"),
        (TodoStatus::Pending, "Document"),
    ]
    .map(|(status, text)| TodoItem {
        status,
        text: text.to_owned(),
    })
    .to_vec();
    let expected = [
        "<skyhook_state>\ndate:2026-09-10\ntodos:\n",
        "in_progress:\n  \"Design\"\n  \"Measure\"\n",
        "pending:\n  \"Implement\"\n  \"Test\\n\\\"quoted\\\" \\\\ Unicode: λ\"\n",
        "completed:\n  \"Inspect\"\npending:\n  \"Document\"\n",
        "</skyhook_state>",
    ]
    .concat();
    assert_eq!(render_state("2026-09-10", &vec![], &todos, &location()), expected);
}

#[test]
fn job_rows_keep_snapshot_locations_exact_counters_and_row_structure() {
    // Nested jobs use their own snapshot location, not the parent's.
    let mut parent = job(7, "agent", "/other");
    parent.name = Some("runtime-review".to_owned());
    parent.location.target = Some("remote".to_owned());
    parent.progress.as_mut().unwrap().turns = 3;
    parent.progress.as_mut().unwrap().tool_calls = 8;
    let mut child = job(9, "agent", "/project");
    child.state = JobState::WaitingInput;
    let mut grandchild = job(12, "agent", "/other");
    grandchild.location.target = Some("remote".to_owned());
    child.children.push(grandchild);
    parent.children.push(child);
    // Target and workspace overrides are independent; hidden targets stay hidden.
    let mut target_only = job(1, "agent", "/project");
    target_only.location.target = Some("remote".to_owned());
    let mut hidden_target = job(3, "exec", "/project");
    hidden_target.location.target = None;
    // A remote snapshot uses its own context as the default.
    let mut same = job(1, "agent", "/remote-project");
    same.location.target = Some("remote".to_owned());
    let remote = ExecutionLocation::named("remote", "/remote-project".into());
    // Arbitrary strings cannot change row structure.
    let mut item = job(1, "custom\n\"tool\"", "/other\n\"dir\"");
    item.name = Some("-".to_owned());
    item.location.target = Some("remote\nserver".to_owned());
    let cases = [
        (
            location(),
            vec![parent, job(18, "exec", "/project")],
            [
                "7 - agent runtime-review running 12 3 8 target=\"remote\" workspace=\"/other\"\n",
                "9 7 agent - waiting_input 12 0 0\n",
                "12 9 agent - running 12 0 0 target=\"remote\" workspace=\"/other\"\n",
                "18 - exec - running 12 - -\n",
            ]
            .concat(),
        ),
        (
            location(),
            vec![target_only, job(2, "exec", "/other"), hidden_target],
            [
                "1 - agent - running 12 0 0 target=\"remote\"\n",
                "2 - exec - running 12 - - workspace=\"/other\"\n",
                "3 - exec - running 12 - -\n",
            ]
            .concat(),
        ),
        (
            remote,
            vec![same, job(2, "exec", "/project")],
            [
                "1 - agent - running 12 0 0\n",
                "2 - exec - running 12 - - target=\"root\" workspace=\"/project\"\n",
            ]
            .concat(),
        ),
        (
            location(),
            vec![item],
            "1 - \"custom\\n\\\"tool\\\"\" \"-\" running 12 - - target=\"remote\\nserver\" workspace=\"/other\\n\\\"dir\\\"\"\n"
                .to_owned(),
        ),
    ];
    for (context, jobs, rows) in cases {
        let header = "jobs: job parent tool name state age_s turns tool_calls";
        let expected = format!("<skyhook_state>\ndate:2026-09-10\n{header}\n{rows}</skyhook_state>");
        assert_eq!(render_state("2026-09-10", &jobs, &vec![], &context), expected);
    }
    assert_eq!(cell("run-tests"), "run-tests");
    assert_eq!(cell("-"), "\"-\"");
    assert_eq!(cell(""), "\"\"");
    assert_eq!(cell("two words"), "\"two words\"");
    assert_eq!(cell("λ"), "\"λ\"");
}

#[test]
fn runtime_state_is_runtime_content() {
    let content = runtime_state("2026-09-10", &vec![], &vec![], &location());
    assert_eq!(
        content,
        UserContent::Runtime {
            text: "<skyhook_state>\ndate:2026-09-10\n</skyhook_state>".to_owned()
        }
    );
}

#[test]
fn a_root_without_targets_is_told_only_its_workspace() {
    let root = AgentId::root(SessionId::from_bytes([1; 16]));
    let segment = system_segment(
        &vec!["Be kind.".to_owned()],
        &root,
        &location(),
        &None,
        0,
        &vec![Capability::Read],
        "Job",
    );
    assert!(segment.cache);
    assert!(segment.text.starts_with(ROOT_PROMPT));
    assert!(segment.text.contains("\n\nDirect tool result type: JobView = `Job`."));
    assert!(segment.text.ends_with(
        "\n\nBe kind.\n\n<skyhook_context>\n{\"workspace\":\"/project\"}\n</skyhook_context>"
    ));
    assert!(!segment.text.contains("agent_context"));
}

#[test]
fn capabilities_add_targets_and_depth() {
    let child = AgentId::root(SessionId::from_bytes([1; 16])).child(1);
    let capabilities = vec![Capability::Targets, Capability::Agents];
    let local = system_segment(&vec![], &child, &location(), &None, 2, &capabilities, "Job");
    assert!(local.text.starts_with(CHILD_PROMPT));
    assert!(local
        .text
        .contains("<agent_context>\n{\"available_depth\":2}\n</agent_context>"));
    assert!(local.text.ends_with(
        "{\"workspace\":\"/project\",\"target\":{\"name\":\"root\",\"type\":\"local\",\"host\":\"localhost\",\"origin\":\"root\",\"via\":null}}\n</skyhook_context>"
    ));
    let target = TargetInfo {
        kind: "ssh".to_owned(),
        host: "example.org".to_owned(),
        origin: "config".to_owned(),
        via: Some("gate".to_owned()),
    };
    let remote = ExecutionLocation::named("build", "/w".into());
    let remote = system_segment(&vec![], &child, &remote, &Some(target), 2, &capabilities, "Job");
    assert!(remote.text.ends_with(
        "{\"workspace\":\"/w\",\"target\":{\"name\":\"build\",\"type\":\"ssh\",\"host\":\"example.org\",\"origin\":\"config\",\"via\":\"gate\"}}\n</skyhook_context>"
    ));
}

#[test]
fn the_date_is_that_of_the_local_zone() {
    let at = |millis: i64, offset: i32| match runtime_state_at(millis, offset, &vec![], &vec![], &location()) {
        Some(UserContent::Runtime { text }) => Some(text),
        Some(_) => panic!("the state is runtime content"),
        None => None,
    };
    let day = |date: &str| Some(format!("<skyhook_state>\ndate:{date}\n</skyhook_state>"));
    assert_eq!(at(947_638_923_004, 0), day("2000-01-12"));
    // An hour and three minutes past midnight in UTC.
    assert_eq!(at(947_638_923_004, -2 * 3600), day("2000-01-11"));
    assert_eq!(at(947_638_923_004, 23 * 3600), day("2000-01-13"));
    assert_eq!(at(0, 86_400), None);
    assert_eq!(at(i64::MAX, 0), None);
}

#[test]
fn workspaces_are_compared_as_paths() {
    let job = |workspace: &str| ActiveJob {
        job: JobId::new(1).unwrap(),
        tool: "exec".into(),
        name: None,
        state: JobState::Running,
        location: ActiveJobLocation {
            target: None,
            workspace: workspace.into(),
        },
        age_seconds: 2,
        progress: None,
        children: vec![],
    };
    for same in ["/project", "/project/", "//project", "/project/."] {
        assert!(!render_state("2026-09-10", &vec![job(same)], &vec![], &location()).contains("workspace="));
    }
    for other in ["/project/..", "project", "/project/sub"] {
        let shown = format!(" workspace=\"{other}\"");
        assert!(render_state("2026-09-10", &vec![job(other)], &vec![], &location()).contains(&shown));
    }
}
