use skyhook_core::compact::retention::{
    included_message_jobs, included_output_jobs, retained_sources, RetainedSource,
};
use skyhook_core::error::HarnessError;
use skyhook_core::identity::{AgentId, JobId, SessionId};
use skyhook_core::job::JobSet;
use skyhook_core::journal::{EventRecord, ModelCallOrigin, SessionEvent};
use skyhook_core::json::parse_json;
use skyhook_core::protocol::{AssistantContent, Message, ToolCall, ToolResult, UserContent};

fn committed(agent: &AgentId, messages: Vec<Message>) -> Vec<EventRecord> {
    messages
        .into_iter()
        .enumerate()
        .map(|(i, message)| EventRecord {
            version: 1,
            sequence: i as u64 + 1,
            timestamp_millis: 0,
            agent: agent.clone(),
            event: SessionEvent::MessageCommitted { message },
        })
        .collect()
}

fn user(text: String) -> Message {
    Message::User(vec![UserContent::Text { text }])
}

fn exchange(protocol: &str) -> (Message, Message) {
    let opaque = parse_json(&format!(
        "{{\"version\":1,\"protocol\":\"{protocol}\",\"model\":\"model\",\"scope\":\"scope\",\"payload\":{{\"opaque\":\"must survive\",\"signature\":\"signed\"}}}}"
    ));
    let call = Message::Assistant(vec![
        AssistantContent::Reasoning {
            text: "visible reasoning".into(),
            opaque,
        },
        AssistantContent::ToolCall(ToolCall {
            id: "call".into(),
            name: "agent".into(),
            arguments: parse_json("{\"prompt\":\"continue\"}").unwrap(),
        }),
    ]);
    let results = Message::Tool(vec![ToolResult {
        call_id: "call".into(),
        name: "agent".into(),
        result: parse_json("{\"id\":1}").unwrap(),
        console_output: String::new(),
        images: vec![],
        is_error: false,
    }]);
    (call, results)
}

fn origin() -> ModelCallOrigin {
    ModelCallOrigin {
        message: 1,
        call_id: "call".into(),
    }
}

fn sequences(retained: &[RetainedSource<'_>]) -> Vec<u64> {
    retained.iter().map(|source| source.sequence()).collect()
}

#[test]
fn compact_active_exchange_retains_complete_reasoning_bundle_outside_visible_tail() {
    let agent = AgentId::root(SessionId::from_bytes([0; 16]));
    for protocol in ["chat_completions", "responses", "anthropic"] {
        let (call, results) = exchange(protocol);
        let tail = user("tail".repeat(10_000));
        let records = committed(&agent, vec![call.clone(), results.clone(), tail.clone()]);
        // Active creator is no longer visible after an earlier compaction.
        let projected = vec![(3, tail)];
        let retained = retained_sources(&records, &agent, &projected, &vec![origin()]).unwrap();
        assert_eq!(sequences(&retained), vec![1, 2, 3]);
        // Original message identity is retained, not a visible-only reconstruction.
        assert_eq!(records[0].event, SessionEvent::MessageCommitted { message: call });
        assert_eq!(records[1].event, SessionEvent::MessageCommitted { message: results });
    }
}

#[test]
fn retention_active_exchange_retains_complete_reasoning_bundle_outside_visible_tail() {
    let agent = AgentId::root(SessionId::from_bytes([0; 16]));
    for protocol in ["chat_completions", "responses", "anthropic"] {
        let (call, results) = exchange(protocol);
        let tail = user("tail".repeat(10_000));
        let records = committed(&agent, vec![call.clone(), results.clone(), tail.clone()]);
        // Active creator is no longer visible after an earlier compaction.
        let retained = retained_sources(&records, &agent, &vec![(3, tail)], &vec![origin()]).unwrap();
        assert_eq!(sequences(&retained), vec![1, 2, 3]);
        // Original message identity is retained, not a visible-only reconstruction.
        assert_eq!(retained[0].message(), &call);
        assert_eq!(retained[1].message(), &results);
    }
}

#[test]
fn retention_budget_keeps_original_tail_and_complete_tool_exchange() {
    let agent = AgentId::root(SessionId::from_bytes([0; 16]));
    let messages = vec![
        user("old".into()),
        Message::Assistant(vec![]),
        Message::Tool(vec![]),
        // Together with the tool result this is exactly the 8,000-token budget.
        user("x".repeat(31_920)),
    ];
    let records = committed(&agent, messages.clone());
    let mut projected: Vec<(u64, Message)> = (1..).zip(messages).collect();
    let kept = |projected: &Vec<(u64, Message)>| {
        let retained = retained_sources(&records, &agent, projected, &Vec::new()).unwrap();
        retained
            .into_iter()
            .map(RetainedSource::into_sequence)
            .collect::<Vec<_>>()
    };
    assert_eq!(kept(&projected), vec![2, 3, 4]);
    // Even an oversized final message survives; its payload is the original,
    // not the temporary projection used for token accounting.
    projected[3].1 = user("x".repeat(40_000));
    assert_eq!(kept(&projected), vec![4]);
    // A synthetic projected continuation is not an original message source.
    projected.push((99, user("synthetic".into())));
    assert_eq!(kept(&projected), vec![4]);
    assert!(kept(&Vec::new()).is_empty());
}

fn nested_results() -> Message {
    Message::Tool(vec![ToolResult {
        call_id: "script-call".into(),
        name: "script".into(),
        result: parse_json(
            "{\"id\":1,\"state\":\"completed\",\"result\":{\"nested\":[{\"id\":2,\"tool\":\"read\",\"state\":\"completed\",\"result\":null}],\"status\":{\"id\":3,\"state\":\"running\"},\"arguments\":{\"id\":4,\"state\":\"completed\",\"result\":\"literal\"}}}",
        )
        .unwrap(),
        console_output: String::new(),
        images: vec![],
        is_error: false,
    }])
}

fn members(jobs: &JobSet) -> Vec<u64> {
    (1..10)
        .filter(|number| jobs.contains(JobId::new(*number).unwrap()))
        .collect()
}

#[test]
fn compact_retained_tool_results_include_nested_jobs_and_null_results_but_not_status_or_arguments() {
    let mut included = JobSet::new();
    included_message_jobs(&nested_results(), &mut included);
    assert_eq!(members(&included), [1, 2]);
}

#[test]
fn retention_retained_tool_results_include_nested_jobs_and_null_results_but_not_status_or_arguments() {
    let mut included = JobSet::new();
    included_message_jobs(&nested_results(), &mut included);
    assert_eq!(members(&included), vec![1, 2]);
}

#[test]
fn job_events_in_runtime_messages_carry_outputs() {
    let mut included = JobSet::new();
    let payload = "{\"jobs\":[{\"id\":5,\"state\":\"failed\",\"result\":\"x\"}]}";
    included_message_jobs(
        &Message::User(vec![UserContent::Runtime {
            text: format!("<skyhook_job_events>\n{payload}\n</skyhook_job_events>"),
        }]),
        &mut included,
    );
    assert_eq!(members(&included), [5]);
    let mut none = JobSet::new();
    included_message_jobs(
        &Message::User(vec![UserContent::Text {
            text: format!("<skyhook_job_events>\n{payload}\n</skyhook_job_events>"),
        }]),
        &mut none,
    );
    assert!(members(&none).is_empty());
}

#[test]
fn outputs_are_found_by_identity_state_and_result() {
    let mut included = JobSet::new();
    included_output_jobs(&parse_json("[{\"id\":7,\"state\":\"completed\",\"result\":1}]").unwrap(), &mut included);
    included_output_jobs(&parse_json("{\"id\":8,\"state\":\"unknown\",\"result\":1}").unwrap(), &mut included);
    assert_eq!(members(&included), [7]);
}

#[test]
fn an_origin_without_its_message_is_a_fault() {
    let agent = AgentId::root(SessionId::from_bytes([0; 16]));
    let records = committed(&agent, vec![user("only".into())]);
    let missing = ModelCallOrigin {
        message: 42,
        call_id: "call".into(),
    };
    assert!(matches!(
        retained_sources(&records, &agent, &Vec::new(), &vec![missing]),
        Err(HarnessError::Compaction(_))
    ));
}
