use skyhook_core::compact::checkpoint::{
    append_handover, append_host_facts, attach_arguments, carried_jobs, conclude_installation, context_provider,
    decide_checkpoint, drop_embedded, host_launches, journal_frontier, launch_origins, merge_launches, plan_handover,
    plan_summary, user_message, CheckpointFacts, CompactionDecision, Launch, HANDOVER_INTRODUCTION, HOST_INTRODUCTION,
};
use skyhook_core::compact::retention::retained_sources;
use skyhook_core::compact::summary::{
    judge_attempt, summary_text, usage_to_record, StreamEnd, Summarizer,
};
use skyhook_core::compaction::{compaction_block, directive, estimate_request};
use skyhook_core::error::HarnessError;
use skyhook_core::identity::{AgentId, JobId, SessionId};
use skyhook_core::job::JobSet;
use skyhook_core::journal::{ContextMessage, EventRecord, ModelCallOrigin, SessionEvent};
use skyhook_core::json::{compact_text, parse_json, Json};
use skyhook_core::protocol::{
    Message, ModelRequest, StopReason, ToolDefinition, ToolResult, Usage, UserContent,
};
use skyhook_core::recovery::{ProviderFailure, RecoveryAttempt};
use skyhook_core::response::{
    BlockKind, ContentDelta, ItemKind, ResponseAssembler, ResponseEvent, ResponseSnapshot,
};

fn agent() -> AgentId {
    AgentId::root(SessionId::from_bytes([0; 16]))
}

fn job(number: u64) -> JobId {
    JobId::new(number).unwrap()
}

fn json(text: &str) -> Json {
    parse_json(text).unwrap()
}

fn record(sequence: u64, event: SessionEvent) -> EventRecord {
    EventRecord {
        version: 1,
        sequence,
        timestamp_millis: 0,
        agent: agent(),
        event,
    }
}

fn created(sequence: u64, number: u64, arguments: &str) -> EventRecord {
    record(
        sequence,
        SessionEvent::JobCreated {
            job: job(number),
            tool: "exec".into(),
            arguments: json(arguments),
        },
    )
}

fn user(text: &str) -> Message {
    Message::User(vec![UserContent::Text { text: text.into() }])
}

fn state() -> UserContent {
    UserContent::Runtime { text: "state".into() }
}

fn request() -> ModelRequest {
    ModelRequest {
        model: "model".into(),
        system: vec![],
        messages: vec![user("old")],
        tools: vec![ToolDefinition {
            name: "read".into(),
            description: "Read a file".into(),
            input_schema: Json::Null,
        }],
        response_schema: None,
        reasoning: None,
        max_output_tokens: None,
        correlation: None,
    }
}

fn origin(message: u64, call: &str) -> Option<ModelCallOrigin> {
    Some(ModelCallOrigin {
        message,
        call_id: call.into(),
    })
}

fn launch(number: u64, origin: Option<ModelCallOrigin>) -> Launch {
    Launch {
        job: job(number),
        origin,
    }
}

fn result(value: &str) -> Message {
    Message::Tool(vec![ToolResult {
        call_id: "call".into(),
        name: "exec".into(),
        result: json(value),
        console_output: String::new(),
        images: vec![],
        is_error: false,
    }])
}

fn shown(message: &Message) -> Vec<String> {
    let Message::User(blocks) = message else {
        panic!("a continuation is a user message");
    };
    blocks
        .iter()
        .map(|block| match block {
            UserContent::Compaction { text } => text.clone(),
            _ => panic!("a continuation consists of compaction blocks"),
        })
        .collect()
}

#[test]
fn launches_accumulate_without_repetition() {
    let mut launches = vec![launch(1, origin(4, "a"))];
    merge_launches(
        &mut launches,
        vec![launch(1, origin(4, "a")), launch(2, None), launch(1, origin(5, "a")), launch(2, None)],
    );
    assert_eq!(
        launches,
        vec![launch(1, origin(4, "a")), launch(2, None), launch(1, origin(5, "a"))]
    );
    assert_eq!(
        launch_origins(&launches),
        vec![origin(4, "a").unwrap(), origin(5, "a").unwrap()]
    );
}

#[test]
fn the_frontier_is_the_last_sequence() {
    assert_eq!(journal_frontier(&vec![]), 0);
    assert_eq!(journal_frontier(&vec![created(3, 1, "{}"), created(9, 2, "{}")]), 9);
}

#[test]
fn the_provider_comes_from_the_recorded_context() {
    let mut context = record(
        2,
        SessionEvent::ModelContext {
            provider: "scripted".into(),
            template: request(),
        },
    );
    let missing = Err(HarnessError::Compaction("model context is missing".into()));
    assert_eq!(context_provider(&vec![context.clone()], 2, &agent()), Ok("scripted".into()));
    assert_eq!(context_provider(&vec![context.clone()], 3, &agent()), missing);
    assert_eq!(context_provider(&vec![context.clone()], 2, &agent().child(1)), missing);
    context.event = SessionEvent::AgentCompleted;
    assert_eq!(context_provider(&vec![context], 2, &agent()), missing);
}

#[test]
fn a_summary_is_asked_for_without_tools() {
    let schema = json(r#"{"type":"object"}"#);
    let projected = vec![(4, user("first")), (7, user("second"))];
    let plan = plan_summary(&request(), &projected, state(), &schema);
    let conversation = vec![user("first"), user("second"), user_message(state())];
    let mut current = request();
    current.messages = conversation.clone();
    assert_eq!(plan.before_tokens, estimate_request(&current));
    assert!(plan.base.messages.is_empty());
    assert_eq!(plan.base.tools, request().tools);
    assert!(plan.template.tools.is_empty() && plan.template.messages.is_empty());
    let asked = plan.request.response_schema.unwrap();
    assert_eq!((asked.name.as_str(), &asked.schema), ("skyhook_compaction", &schema));
    let mut expected = conversation;
    expected.push(directive(&schema));
    assert_eq!(plan.request.messages, expected);
    assert_eq!(
        plan.messages,
        vec![
            ContextMessage::Source { sequence: 4 },
            ContextMessage::Source { sequence: 7 },
            ContextMessage::Inline {
                message: user_message(state())
            },
            ContextMessage::Inline {
                message: directive(&schema)
            },
        ]
    );
}

#[test]
fn retained_results_carry_their_jobs() {
    let message = result(r#"{"id":5,"state":"completed","output":{"value":1}}"#);
    let records = vec![record(
        1,
        SessionEvent::MessageCommitted {
            message: message.clone(),
        },
    )];
    let projected = vec![(1, message)];
    let sources = retained_sources(&records, &agent(), &projected, &vec![]).unwrap();
    let jobs = carried_jobs(&sources);
    assert!(jobs.contains(job(5)));
    assert!(!jobs.contains(job(1)));
}

#[test]
fn chosen_jobs_are_handed_over_once() {
    let records = vec![created(1, 1, r#"{"a":1}"#), created(2, 2, "{}"), created(3, 3, "{}")];
    let mut included = JobSet::new();
    included.insert(job(2));
    let (requests, failure) = plan_handover(&vec![job(1), job(2), job(1), job(3)], &included, &records);
    let planned: Vec<u64> = requests.iter().map(|request| request.job.number()).collect();
    assert_eq!(planned, vec![1, 3]);
    assert_eq!(compact_text(&requests[0].arguments), r#"{"a":1}"#);
    assert_eq!(failure, None);

    let (requests, failure) = plan_handover(&vec![job(3), job(12), job(1)], &included, &records);
    assert_eq!(requests.len(), 1);
    assert_eq!(failure, Some(HarnessError::Compaction("unknown handover job 12".into())));
}

#[test]
fn handed_over_views_show_arguments_and_embed_each_job_once() {
    let attached = attach_arguments(json(r#"{"id":1,"state":"completed"}"#), json(r#"{"a":1}"#));
    assert_eq!(
        compact_text(&attached),
        r#"{"id":1,"state":"completed","arguments":{"a":1}}"#
    );
    let parent = json(r#"{"id":1,"state":"completed","result":{"inner":{"id":2,"state":"completed","result":7}}}"#);
    let embedded = json(r#"{"id":2,"state":"completed"}"#);
    let other = json(r#"{"id":3,"state":"completed"}"#);
    let unnamed = json(r#"{"state":"completed"}"#);
    let left = drop_embedded(vec![parent.clone(), embedded, unnamed, other.clone()]);
    assert_eq!(left, vec![parent, other]);
}

#[test]
fn a_continuation_shows_what_is_handed_over() {
    let message = compaction_block("continue".into());
    assert_eq!(append_handover(message.clone(), vec![]), message);
    let longer = append_handover(message.clone(), vec![json(r#"{"id":1}"#)]);
    assert_eq!(
        shown(&longer),
        vec!["continue".to_string(), format!("{HANDOVER_INTRODUCTION}{{\"jobs\":[{{\"id\":1}}]}}")]
    );
}

#[test]
fn host_work_keeps_its_launch_facts() {
    let launches = vec![launch(1, origin(4, "a")), launch(2, None)];
    let mut elsewhere = created(3, 2, "{}");
    elsewhere.agent = agent().child(1);
    let records = vec![created(1, 1, "{}"), created(2, 2, "{}"), elsewhere];
    assert_eq!(host_launches(&launches, &records, &agent()), vec![1]);

    let message = compaction_block("continue".into());
    let facts = vec![(2, json(r#"{"tool":"exec"}"#))];
    let longer = append_host_facts(message.clone(), &launches, facts);
    assert_eq!(
        shown(&longer)[1],
        format!("{HOST_INTRODUCTION}[{{\"source_event\":2,\"launch\":{{\"tool\":\"exec\"}}}}]")
    );
    assert_eq!(
        append_host_facts(message.clone(), &vec![launch(1, origin(4, "a"))], vec![]),
        message
    );
}

#[test]
fn a_checkpoint_has_to_reduce_the_estimate() {
    let message = compaction_block("continue".into());
    let records = vec![record(
        6,
        SessionEvent::MessageCommitted {
            message: user("tail"),
        },
    )];
    let projected = vec![(6, user("tail"))];
    let mut base = request();
    base.messages = vec![];
    let mut compacted = base.clone();
    compacted.messages = vec![message.clone(), user("tail"), user_message(state())];
    let after = estimate_request(&compacted);
    let decide = |before_tokens, cancelled| {
        let sources = retained_sources(&records, &agent(), &projected, &vec![]).unwrap();
        let facts = CheckpointFacts {
            previous: Some(2),
            frontier: 8,
            request: 7,
            before_tokens,
            max_context: 1000,
        };
        decide_checkpoint(&base, facts, message.clone(), sources, state(), vec![], cancelled)
    };
    assert!(matches!(decide(after, false), CompactionDecision::Skip));
    assert!(matches!(decide(after + 1, true), CompactionDecision::Stop));
    let CompactionDecision::Install(checkpoint) = decide(after + 1, false) else {
        panic!("a smaller history is installed");
    };
    assert_eq!(checkpoint.retained, vec![6]);
    assert_eq!(checkpoint.message, message);
    assert_eq!((checkpoint.before_tokens, checkpoint.after_tokens), (after + 1, after));
    assert_eq!((checkpoint.previous, checkpoint.frontier, checkpoint.request), (Some(2), 8, 7));
}

#[test]
fn a_refused_installation_is_tried_again() {
    assert_eq!(conclude_installation(true), Ok(()));
    let Err(error) = conclude_installation(false) else {
        panic!("changed todos refuse the checkpoint");
    };
    let verdict = judge_attempt(1, Some(4), &error, "todos changed");
    assert_eq!(verdict.retry_after, Some(100));
    assert_eq!(
        verdict.record,
        SessionEvent::CompactionFailed {
            request: Some(4),
            error: "attempt 1/3: todos changed".into()
        }
    );
    assert_eq!(judge_attempt(2, Some(4), &error, "shown").retry_after, Some(200));
    assert_eq!(judge_attempt(3, Some(4), &error, "shown").retry_after, None);
    assert_eq!(judge_attempt(1, None, &error, "shown").retry_after, None);
    assert_eq!(judge_attempt(1, Some(4), &HarnessError::Interrupted, "shown").retry_after, None);
}

#[test]
fn transient_failures_are_recovered_from_with_the_same_request() {
    let mut summarizer = Summarizer::new(7, 2);
    assert_eq!(summarizer.begin(true), Err(HarnessError::Interrupted));
    assert_eq!(
        summarizer.begin(false),
        Ok(SessionEvent::ModelAttemptStarted { request: 7, attempt: 3 })
    );
    let mut failure = ProviderFailure {
        retry_after: None,
        transient: true,
        message: "connection lost".into(),
    };
    assert_eq!(
        summarizer.provider_failed(&failure),
        Ok(RecoveryAttempt { model: 3, transient: 1 })
    );
    assert_eq!(
        summarizer.begin(false),
        Ok(SessionEvent::ModelAttemptStarted { request: 7, attempt: 4 })
    );
    assert_eq!(
        summarizer.provider_failed(&failure),
        Ok(RecoveryAttempt { model: 4, transient: 2 })
    );
    failure.transient = false;
    assert_eq!(
        summarizer.provider_failed(&failure),
        Err(HarnessError::Provider("connection lost".into()))
    );
}

#[test]
fn only_a_failure_without_usage_records_none() {
    let none = Usage {
        input_tokens: 0,
        cached_input_tokens: 0,
        output_tokens: 0,
    };
    let some = Usage {
        output_tokens: 1,
        ..none
    };
    assert_eq!(usage_to_record(StreamEnd::Failed, none), None);
    assert_eq!(usage_to_record(StreamEnd::Failed, some), Some(some));
    assert_eq!(usage_to_record(StreamEnd::Completed, none), Some(none));
    assert_eq!(usage_to_record(StreamEnd::Cancelled, none), Some(none));
}

fn answer(blocks: Vec<(BlockKind, &str)>) -> ResponseSnapshot {
    let mut assembler = ResponseAssembler::new();
    for (position, (kind, text)) in blocks.into_iter().enumerate() {
        let id = format!("item-{position}");
        let events = vec![
            ResponseEvent::ItemStarted {
                id: id.clone(),
                position,
                kind: ItemKind::Text,
            },
            ResponseEvent::BlockStarted {
                item: id.clone(),
                id: "block".into(),
                position: 0,
                kind,
            },
            ResponseEvent::BlockDelta {
                item: id,
                block: "block".into(),
                delta: ContentDelta::Text(text.into()),
            },
        ];
        for event in events {
            assembler.push(&event).unwrap();
        }
    }
    assembler.snapshot()
}

#[test]
fn a_summary_is_complete_text_without_tool_calls() {
    let complete = answer(vec![
        (BlockKind::Reasoning, "hidden"),
        (BlockKind::Text, "{\"objective\":"),
        (BlockKind::Text, "\"x\"}"),
    ]);
    assert_eq!(summary_text(&complete, StopReason::EndTurn), Ok("{\"objective\":\"x\"}".into()));
    for reason in [StopReason::MaxTokens, StopReason::ContentFilter, StopReason::Aborted] {
        assert_eq!(
            summary_text(&complete, reason),
            Err(HarnessError::Compaction(
                "summarization was truncated; original history is retained".into()
            ))
        );
    }
    let calls = answer(vec![(BlockKind::Text, "summary"), (BlockKind::ToolCall, "{}")]);
    assert_eq!(
        summary_text(&calls, StopReason::EndTurn),
        Err(HarnessError::Compaction(
            "summarizer returned a tool call; no tools were executed".into()
        ))
    );
}
