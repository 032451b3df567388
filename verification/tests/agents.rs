use skyhook_core::agents::{
    admit_depth, admit_registration, catch_up, interrupts_turn, notifies, request_template, root_launch, select_tree, session_start, started_event,
    tool_result, total_usage, ChildCounters, Denial, ToolFailure, ToolOutput,
};
use skyhook_core::error::HarnessError;
use skyhook_core::identity::{AgentId, JobId, SessionId};
use skyhook_core::journal::{EventRecord, SessionEvent};
use skyhook_core::json::{compact_text, parse_json, Json};
use skyhook_core::observation::{AgentActivity, RuntimeEvents};
use skyhook_core::prompt::ExecutionLocation;
use skyhook_core::protocol::{ImageReference, ModelProfile, SystemSegment, ToolCall, ToolDefinition, Usage};
use skyhook_core::table::Table;

fn root() -> AgentId {
    AgentId::root(SessionId::from_bytes([7; 16]))
}

fn record(sequence: u64, agent: AgentId, event: SessionEvent) -> EventRecord {
    EventRecord {
        version: 1,
        sequence,
        timestamp_millis: 0,
        agent,
        event,
    }
}

fn started(sequence: u64, agent: AgentId, parent: Option<AgentId>) -> EventRecord {
    record(
        sequence,
        agent,
        SessionEvent::AgentStarted {
            parent,
            owner_job: None,
            model_profile: "main".into(),
            max_context: Some(1000),
            location: ExecutionLocation::root("/work".into()),
        },
    )
}

fn call(name: &str) -> ToolCall {
    ToolCall {
        id: "call-1".into(),
        name: name.into(),
        arguments: Json::Null,
    }
}

fn output(value: &str) -> ToolOutput {
    ToolOutput {
        value: parse_json(value).unwrap(),
        console: "log".into(),
        images: vec![],
    }
}

fn tokens(input_tokens: u64, output_tokens: u64) -> Usage {
    Usage {
        input_tokens,
        cached_input_tokens: 1,
        output_tokens,
    }
}

#[test]
fn depth_is_bounded_together_with_what_remains_available() {
    assert_eq!(admit_depth(1, 2, 3), Ok(()));
    assert_eq!(admit_depth(4, 0, 3), Err(HarnessError::ChildDepth));
    assert_eq!(admit_depth(2, 2, 3), Err(HarnessError::ChildDepth));
    assert_eq!(admit_depth(usize::MAX, usize::MAX, 3), Err(HarnessError::ChildDepth));
}

#[test]
fn a_root_starts_with_its_selection_or_the_default_model() {
    let session = SessionId::from_bytes([1; 16]);
    let launch = root_launch(session, None, &"main".to_string(), 3, "/work".into());
    assert_eq!(launch.model_profile, "main");
    assert_eq!(launch.available_depth, 3);
    assert_eq!(launch.todos, None);
    assert_eq!(launch.location.workspace, "/work");
    assert_eq!(
        started_event(&launch, 4096),
        SessionEvent::AgentStarted {
            parent: None,
            owner_job: None,
            model_profile: "main".into(),
            max_context: Some(4096),
            location: ExecutionLocation::root("/work".into()),
        }
    );
    let mut launch = root_launch(session, Some("large".into()), &"main".to_string(), 3, "/work".into());
    assert_eq!(launch.model_profile, "large");
    launch.id = AgentId::root(session).child(2);
    launch.owner_job = JobId::new(5);
    launch.location = ExecutionLocation::named("build", "/src".into());
    assert_eq!(
        started_event(&launch, 10),
        SessionEvent::AgentStarted {
            parent: Some(AgentId::root(session)),
            owner_job: JobId::new(5),
            model_profile: "large".into(),
            max_context: Some(10),
            location: ExecutionLocation::named("build", "/src".into()),
        }
    );
}

#[test]
fn templates_take_the_model_and_its_limits_from_the_profile() {
    let profile = ModelProfile {
        provider: "scripted".into(),
        model: "model-1".into(),
        reasoning: Some("high".into()),
        max_context: 1000,
        max_output: 200,
        supports_images: false,
    };
    let template = request_template(
        &profile,
        vec![SystemSegment {
            text: "system".into(),
            cache: true,
        }],
        vec![ToolDefinition {
            name: "read".into(),
            description: "Read a file".into(),
            input_schema: Json::Null,
        }],
        "session".into(),
    );
    assert_eq!(template.model, "model-1");
    assert_eq!(template.reasoning, Some("high".into()));
    assert_eq!(template.max_output_tokens, Some(200));
    assert_eq!(template.correlation, Some("session".into()));
    assert_eq!(template.system.len(), 1);
    assert_eq!(template.tools[0].name, "read");
    assert!(template.messages.is_empty() && template.response_schema.is_none());
}

#[test]
fn tool_results_show_output_without_nulls_and_mark_failed_jobs() {
    let shown = tool_result(&call("read"), Ok(output(r#"{"state":"completed","note":null,"lines":[1]}"#)));
    assert_eq!((shown.call_id.as_str(), shown.name.as_str()), ("call-1", "read"));
    assert_eq!(compact_text(&shown.result), r#"{"state":"completed","lines":[1]}"#);
    assert_eq!(shown.console_output, "log");
    assert!(!shown.is_error);
    for state in ["failed", "cancelled", "interrupted"] {
        let value = format!(r#"{{"id":3,"state":"{state}"}}"#);
        assert!(tool_result(&call("exec"), Ok(output(&value))).is_error);
        assert!(!tool_result(&call("job_output"), Ok(output(&value))).is_error);
    }
}

#[test]
fn tool_failures_keep_what_was_denied_and_what_was_put_out() {
    let plain = tool_result(
        &call("exec"),
        Err(ToolFailure {
            message: "no such file".into(),
            denial: None,
            output: None,
        }),
    );
    assert_eq!(compact_text(&plain.result), r#"{"error":"no such file"}"#);
    assert!(plain.is_error && plain.console_output.is_empty() && plain.images.is_empty());

    let image = ImageReference {
        sha256: "abc".into(),
        media_type: "image/png".into(),
        name: "shot.png".into(),
        bytes: 3,
        data_base64: None,
    };
    let denied = tool_result(
        &call("exec"),
        Err(ToolFailure {
            message: "refused".into(),
            denial: Some(Denial {
                code: "policy".into(),
                executed: false,
            }),
            output: Some(ToolOutput {
                images: vec![image.clone()],
                ..output(r#"{"exit":1,"signal":null}"#)
            }),
        }),
    );
    assert_eq!(
        compact_text(&denied.result),
        r#"{"error":"refused","code":"policy","executed":false,"output":{"exit":1}}"#
    );
    assert_eq!(denied.console_output, "log");
    assert_eq!(denied.images, vec![image]);
}

#[test]
fn children_are_numbered_after_those_in_the_journal() {
    let root = root();
    let child = root.child(4);
    let records = vec![
        started(1, root.clone(), None),
        started(2, root.child(1), Some(root.clone())),
        started(3, child.clone(), Some(root.clone())),
        started(4, root.child(2), Some(root.clone())),
        started(5, child.child(1), Some(child.clone())),
    ];
    let mut counters = ChildCounters::restore(&records);
    assert_eq!(counters.next_child(&root), root.child(5));
    assert_eq!(counters.next_child(&root), root.child(6));
    assert_eq!(counters.next_child(&child), child.child(2));
    assert_eq!(counters.next_child(&root.child(1)), root.child(1).child(1));
}

#[test]
fn child_numbers_stop_at_the_largest_one() {
    let root = root();
    let last = root.child(u32::MAX);
    let mut counters = ChildCounters::restore(&vec![started(1, last.clone(), Some(root.clone()))]);
    assert_eq!(counters.next_child(&root), last);
}

#[test]
fn usage_adds_up_over_all_agents() {
    let usage = |sequence, agent, usage| {
        record(
            sequence,
            agent,
            SessionEvent::Usage {
                request: None,
                usage,
            },
        )
    };
    let records = vec![
        record(1, root(), SessionEvent::SessionStarted),
        usage(2, root(), tokens(10, 2)),
        usage(3, root().child(1), tokens(5, u64::MAX)),
    ];
    let total = total_usage(&records);
    assert_eq!(total.input_tokens, 15);
    assert_eq!(total.cached_input_tokens, 2);
    assert_eq!(total.output_tokens, u64::MAX);
}

#[test]
fn a_session_needs_its_start() {
    let records = vec![
        record(1, root(), SessionEvent::AgentCompleted),
        record(2, root(), SessionEvent::SessionStarted),
    ];
    assert_eq!(session_start(&records), Ok(1));
    assert_eq!(
        session_start(&vec![]),
        Err(HarnessError::Initialization("session start event is missing".into()))
    );
}

#[test]
fn catching_up_publishes_each_record_once() {
    let first = record(1, root(), SessionEvent::SessionStarted);
    let second = started(2, root(), None);
    let third = record(3, root(), SessionEvent::AgentCompleted);
    let mut events = RuntimeEvents::new(vec![first.clone()], Table::new());
    let mut cursor = 0;
    assert_eq!(
        catch_up(&mut events, &mut cursor, vec![first, second.clone()]),
        vec![None, Some(1)]
    );
    assert_eq!(cursor, 2);
    assert_eq!(catch_up(&mut events, &mut cursor, vec![]), vec![]);
    assert_eq!(cursor, 2);
    assert_eq!(catch_up(&mut events, &mut cursor, vec![second, third]), vec![None, Some(2)]);
    assert_eq!(cursor, 3);
    assert!(events.observe().records.contains_key(&3));
}

#[test]
fn interrupts_reach_agents_that_work() {
    let reaches = |activity, running| interrupts_turn(&activity, running);
    assert!(!reaches(None, false));
    assert!(!reaches(Some(AgentActivity::Idle), false));
    assert!(!reaches(Some(AgentActivity::Interrupted), false));
    assert!(!reaches(Some(AgentActivity::Failed("lost".into())), false));
    assert!(reaches(Some(AgentActivity::Working), true));
    assert!(reaches(Some(AgentActivity::Compacting), false));
    assert!(reaches(Some(AgentActivity::Tools), false));
    assert!(!reaches(Some(AgentActivity::Tools), true));
    assert!(!reaches(Some(AgentActivity::WaitingChildren), true));
}

#[test]
fn trees_hold_an_agent_and_its_descendants() {
    let root = root();
    let other = AgentId::root(SessionId::from_bytes([8; 16]));
    let child = root.child(1);
    let agents = vec![root.clone(), child.clone(), child.child(3), root.child(11), other.child(1)];
    assert_eq!(select_tree(&agents, &child), vec![1, 2]);
    assert_eq!(select_tree(&agents, &root), vec![0, 1, 2, 3]);
}

#[test]
fn no_agent_is_registered_during_shutdown() {
    assert_eq!(admit_registration(true), Err(HarnessError::Interrupted));
    assert_eq!(admit_registration(false), Ok(()));
}

#[test]
fn completions_are_told_to_their_agent_or_to_all_that_wait() {
    let child = root().child(1);
    assert!(notifies(&Some(child.clone()), &child, false));
    assert!(!notifies(&Some(child.clone()), &root(), true));
    assert!(notifies(&None, &root(), true));
    assert!(!notifies(&None, &root(), false));
}
