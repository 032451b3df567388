use skyhook_core::compact::{checkpoint_sequence, context_sources, history_messages, TokenMeter};
use skyhook_core::compaction::estimate_request;
use skyhook_core::context::{contains_images, recorded_context, AgentContext, History};
use skyhook_core::error::HarnessError;
use skyhook_core::identity::{AgentId, SessionId};
use skyhook_core::journal::{CompactionCheckpoint, EventRecord, ModelPurpose, SessionEvent};
use skyhook_core::observation::RuntimeEvents;
use skyhook_core::prompt::ExecutionLocation;
use skyhook_core::protocol::{
    ImageReference, Message, ModelProfile, ModelRequest, ToolResult, Usage, UserContent,
};
use skyhook_core::json::Json;
use skyhook_core::table::Table;

fn agent() -> AgentId {
    AgentId::root(SessionId::from_bytes([0; 16]))
}

fn record(sequence: u64, event: SessionEvent) -> EventRecord {
    EventRecord {
        version: 1,
        sequence,
        timestamp_millis: 0,
        agent: agent(),
        event,
    }
}

fn user(text: &str) -> Message {
    Message::User(vec![UserContent::Text { text: text.into() }])
}

fn runtime(text: &str) -> UserContent {
    UserContent::Runtime { text: text.into() }
}

fn image() -> ImageReference {
    ImageReference {
        sha256: "abc".into(),
        media_type: "image/png".into(),
        name: "shot.png".into(),
        bytes: 3,
        data_base64: None,
    }
}

fn template() -> ModelRequest {
    ModelRequest {
        model: "model".into(),
        system: vec![],
        messages: vec![],
        tools: vec![],
        response_schema: None,
        reasoning: None,
        max_output_tokens: Some(100),
        correlation: None,
    }
}

fn profile(max_context: u64, max_output: u64) -> ModelProfile {
    ModelProfile {
        provider: "scripted".into(),
        model: "model".into(),
        reasoning: None,
        max_context,
        max_output,
        supports_images: true,
    }
}

fn usage(input_tokens: u64, cached_input_tokens: u64) -> Usage {
    Usage {
        input_tokens,
        cached_input_tokens,
        output_tokens: 0,
    }
}

fn compaction(sequence: u64) -> EventRecord {
    record(
        sequence,
        SessionEvent::Compaction {
            checkpoint: CompactionCheckpoint {
                schema_version: 1,
                previous: None,
                frontier: 1,
                message: user("summary"),
                todos: vec![],
                retained: vec![],
                request: 1,
                before_tokens: 2,
                after_tokens: 1,
                max_context: 1000,
            },
        },
    )
}

/// A journal with one answered request, and that request.
fn answered() -> (Vec<EventRecord>, ModelRequest) {
    let mut request = template();
    request.messages = vec![user("first"), Message::User(vec![runtime("state")])];
    let records = vec![
        record(
            1,
            SessionEvent::AgentStarted {
                parent: None,
                owner_job: None,
                model_profile: "main".into(),
                max_context: Some(1000),
                location: ExecutionLocation::root("/work".into()),
            },
        ),
        record(
            2,
            SessionEvent::ModelContext {
                provider: "scripted".into(),
                template: template(),
            },
        ),
        record(
            3,
            SessionEvent::ModelRequested {
                context: 2,
                messages: vec![],
                purpose: ModelPurpose::Agent,
            },
        ),
        record(
            4,
            SessionEvent::Usage {
                request: Some(3),
                usage: usage(500, 20),
            },
        ),
    ];
    (records, request)
}

fn open(
    records: &Vec<EventRecord>,
    projected: Vec<(u64, Message)>,
    rebuilt: Vec<(u64, ModelRequest)>,
    restore_meter: bool,
) -> AgentContext {
    AgentContext::open(
        &agent(),
        profile(1000, 100),
        template(),
        Ok(projected),
        records,
        &rebuilt,
        restore_meter,
    )
    .unwrap()
}

#[test]
fn a_meter_calibrates_later_estimates() {
    let mut meter = TokenMeter::new();
    let mut request = template();
    request.messages = vec![user("hello")];
    let estimate = estimate_request(&request);
    assert_eq!(meter.estimate(&request), estimate);
    meter.observe(estimate, usage(0, 0));
    assert_eq!(meter.estimate(&request), estimate);
    meter.observe(estimate, usage(estimate + 30, 7));
    assert_eq!(meter.estimate(&request), estimate + 37);
    meter.observe(estimate, usage(1, 0));
    assert_eq!(meter.estimate(&request), estimate);
}

#[test]
fn a_context_restores_its_meter_from_the_journal() {
    let (records, request) = answered();
    let context = open(&records, vec![(1, user("first"))], vec![(3, request.clone())], true);
    assert_eq!(context.meter.estimate(&request), 520);
    let unmetered = open(&records, vec![(1, user("first"))], vec![(3, request.clone())], false);
    assert_eq!(unmetered.meter.estimate(&request), estimate_request(&request));
    let failure = HarnessError::Initialization("history is broken".into());
    assert_eq!(
        AgentContext::open(
            &agent(),
            profile(1000, 100),
            template(),
            Err(failure.clone()),
            &records,
            &vec![],
            true
        )
        .err(),
        Some(failure)
    );
}

#[test]
fn a_request_ends_with_the_runtime_state() {
    let context = open(&vec![], vec![(1, user("first")), (4, user("second"))], vec![], false);
    let request = context.request(runtime("state"));
    assert_eq!(
        request.messages,
        vec![user("first"), user("second"), Message::User(vec![runtime("state")])]
    );
    assert_eq!(request.model, "model");
    assert_eq!(context_sources(&context.projected), vec![1, 4]);
    assert_eq!(history_messages(&context.projected), vec![user("first"), user("second")]);
}

#[test]
fn compaction_is_due_when_no_room_for_an_answer_is_left() {
    let mut context = open(&vec![], vec![(1, user("first"))], vec![], false);
    let request = context.request(runtime("state"));
    let estimate = estimate_request(&request);
    context.profile = profile(estimate + 101, 100);
    assert!(!context.needs_compaction(&request));
    context.profile = profile(estimate + 100, 100);
    assert!(context.needs_compaction(&request));
    context.profile = profile(10, 100);
    assert!(context.needs_compaction(&request));
}

#[test]
fn a_new_compaction_resets_the_meter() {
    let (mut records, request) = answered();
    let mut context = open(&records, vec![(1, user("first"))], vec![(3, request.clone())], true);
    assert_eq!(context.refresh(Ok(vec![(1, user("again"))]), &records, &agent()), Ok(()));
    assert_eq!(context.projected, vec![(1, user("again"))]);
    assert_eq!(context.meter.estimate(&request), 520);

    records.push(compaction(5));
    assert_eq!(checkpoint_sequence(&records, &agent()), Some(5));
    assert_eq!(checkpoint_sequence(&records, &agent().child(1)), None);
    let failure = HarnessError::Initialization("history is broken".into());
    assert_eq!(context.refresh(Err(failure.clone()), &records, &agent()), Err(failure));
    assert_eq!(context.projected, vec![(1, user("again"))]);
    assert_eq!(context.refresh(Ok(vec![(5, user("summary"))]), &records, &agent()), Ok(()));
    assert_eq!(context.checkpoint, Some(5));
    assert_eq!(context.meter.estimate(&request), estimate_request(&request));
}

#[test]
fn images_are_found_in_prompts_and_tool_results() {
    let with_image = Message::User(vec![UserContent::Image { image: image() }]);
    let tool = |images| {
        Message::Tool(vec![ToolResult {
            call_id: "call".into(),
            name: "view".into(),
            result: Json::Null,
            console_output: String::new(),
            images,
            is_error: false,
        }])
    };
    assert!(contains_images(&with_image));
    assert!(contains_images(&tool(vec![image()])));
    assert!(!contains_images(&tool(vec![])));
    assert!(!contains_images(&Message::Assistant(vec![])));
    assert!(open(&vec![], vec![(1, user("look")), (2, with_image)], vec![], false).contains_images());
    assert!(!open(&vec![], vec![(1, user("look"))], vec![], false).contains_images());
}

#[test]
fn recorded_contexts_come_from_the_newest_request() {
    let (records, request) = answered();
    let mut histories = Table::new();
    histories.insert(
        agent(),
        History {
            messages: vec![user("first"), user("more")],
        },
    );
    let mut current = request.clone();
    current.messages.insert(1, user("more"));
    let expected = 520 + estimate_request(&current) - estimate_request(&request);
    let rebuilt = vec![(3, request)];
    let contexts = recorded_context(&records, &rebuilt, &histories);
    let context = contexts.get(&agent()).unwrap();
    assert_eq!((context.tokens, context.capacity), (expected, 1000));
    // A hub that is restored from the journal begins with them.
    let hub = RuntimeEvents::restore(records.clone(), &rebuilt, &histories);
    let usage = hub.observe().context.get(&agent()).unwrap();
    assert_eq!((usage.tokens, usage.capacity), (expected, 1000));
    assert_eq!(hub.observe().records.values().cloned().collect::<Vec<_>>(), records);
    // Nothing is known of a context whose requests cannot be rebuilt.
    assert!(recorded_context(&records, &vec![], &histories).is_empty());
}
