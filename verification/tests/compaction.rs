use skyhook_core::compaction::{continuation, directive, estimate_message, estimate_request, estimate_text, Summary};
use skyhook_core::json::{parse_json, Json};
use skyhook_core::protocol::{ImageReference, Message, ModelRequest, ResponseSchema, ToolResult, UserContent};
use skyhook_core::todo::{TodoItem, TodoStatus};

fn text(message: &Message) -> &str {
    let Message::User(blocks) = message else {
        panic!("continuation must use the user role");
    };
    let [UserContent::Compaction { text }] = blocks.as_slice() else {
        panic!("continuation must preserve harness provenance");
    };
    text
}

fn todo(text: &str, status: TodoStatus) -> TodoItem {
    TodoItem {
        text: text.to_owned(),
        status,
    }
}

fn entries(texts: &[&str]) -> Vec<String> {
    texts.iter().map(|text| text.to_string()).collect()
}

fn summary() -> Summary {
    Summary {
        objective: "Continue the task".to_owned(),
        user_instructions: entries(&["Read only"]),
        session_rules: Vec::new(),
        plan: entries(&[
            "  # Current plan\n\n- Preserve `literal` text.\n- Resume step two.\n",
            "Approved; step two is underway.",
        ]),
        findings: entries(&[
            "Read config.yaml; retries = 3.",
            "Host output was truncated; health remains uncertain.",
        ]),
        open_issues: Vec::new(),
        running_work: Vec::new(),
        completed_work: Vec::new(),
        decisions: entries(&["Rejected Y because it loses state."]),
        recovery_details: Vec::new(),
        additional_context: Vec::new(),
        todo_reconciliation: entries(&["First step completed before the list was updated."]),
        todos: vec![
            todo("First step", TodoStatus::Completed),
            todo("Second step", TodoStatus::InProgress),
            todo("Final step", TodoStatus::Pending),
        ],
        resumption_point: "Wait for job 12".to_owned(),
        next_actions: Vec::new(),
    }
}

#[test]
fn continuation_preserves_section_text_and_reconciled_todos() {
    let value = summary();
    let continuation = continuation(value.clone()).unwrap();
    let rendered = text(&continuation.message);
    assert!(rendered.contains(&format!(
        "## Plan\n\n{}\n\n{}\n\n## Resumption point",
        value.plan[0], value.plan[1]
    )));
    for section in [&value.objective, &value.resumption_point] {
        assert!(rendered.contains(section.as_str()));
    }
    for section in [
        &value.user_instructions,
        &value.session_rules,
        &value.plan,
        &value.findings,
        &value.open_issues,
        &value.running_work,
        &value.completed_work,
        &value.decisions,
        &value.recovery_details,
        &value.additional_context,
        &value.todo_reconciliation,
        &value.next_actions,
    ] {
        assert!(rendered.contains(&section.join("\n\n")));
    }
    assert_eq!(continuation.todos, value.todos);
}

#[test]
fn continuation_rejects_blank_todos_and_accepts_an_empty_list() {
    let mut blank = summary();
    blank.todos[0].text = " \t\n".to_owned();
    assert!(continuation(blank).is_err());
    let mut empty = summary();
    empty.todos = Vec::new();
    assert!(continuation(empty).unwrap().todos.is_empty());
}

fn response_schema() -> Json {
    let description = "Explain changes made to the supplied todo list and the conversation evidence supporting them, including additions, status changes, removals, or reordering.";
    let mut properties = String::new();
    for name in [
        "objective",
        "user_instructions",
        "session_rules",
        "plan",
        "findings",
        "open_issues",
        "running_work",
        "completed_work",
        "decisions",
        "recovery_details",
        "additional_context",
        "todo_reconciliation",
        "todos",
        "resumption_point",
        "next_actions",
    ] {
        if !properties.is_empty() {
            properties.push(',');
        }
        properties.push_str(&format!(
            "\"{name}\":{{\"description\":\"{description} {description}\",\"type\":\"array\"}}"
        ));
    }
    parse_json(&format!("{{\"properties\":{{{properties}}},\"type\":\"object\"}}")).unwrap()
}

#[test]
fn directive_preserves_state_and_reconciles_todos_without_a_budget() {
    let schema = response_schema();
    let message = directive(&schema);
    let prompt = text(&message);
    for expected in [
        "continuation prompt",
        "latest instructions",
        "include it verbatim",
        "previous continuation",
        "rejected",
        "exact job outputs",
        "session restrictions and rules",
        "user or loaded skills",
        "final answer as a JSON object",
        "Reasoning may occur separately",
        "complete current todo list",
        "retain the existing status",
        "Reconcile only this agent's list",
    ] {
        assert!(prompt.contains(expected), "missing guidance: {expected}");
    }
    for forbidden in ["30k", "30,000", "30000", "token"] {
        assert!(!prompt.contains(forbidden), "unexpected budget: {forbidden}");
    }
    let (_, visible_schema) = prompt
        .split_once("Final-answer JSON Schema (applies only to the final answer, not separate reasoning):\n")
        .expect("the model must see the schema even with grammar-only enforcement");
    let visible_schema = parse_json(visible_schema).unwrap();
    assert_eq!(visible_schema, schema);
    let shown = visible_schema
        .member("properties")
        .unwrap()
        .member("todo_reconciliation")
        .unwrap()
        .member("description")
        .unwrap();
    assert!(matches!(shown, Json::Text(text) if text.contains("conversation evidence")));
}

fn request() -> ModelRequest {
    ModelRequest {
        model: "model".into(),
        system: vec![],
        messages: vec![],
        tools: vec![],
        response_schema: None,
        reasoning: None,
        max_output_tokens: None,
        correlation: None,
    }
}

#[test]
fn request_estimate_accounts_for_the_response_schema() {
    let mut request = request();
    let without_schema = estimate_request(&request);
    request.response_schema = Some(ResponseSchema {
        name: "compaction".into(),
        schema: response_schema(),
    });
    assert!(estimate_request(&request) > without_schema + 1_000);
}

#[test]
fn image_estimate_ignores_encoded_payload_length() {
    let mut image = ImageReference {
        sha256: "hash".into(),
        media_type: "image/png".into(),
        name: "image".into(),
        bytes: 10,
        data_base64: Some("a".repeat(10)),
    };
    let short = estimate_message(&Message::User(vec![UserContent::Image {
        image: image.clone(),
    }]));
    image.data_base64 = Some("a".repeat(100_000));
    let long = estimate_message(&Message::User(vec![UserContent::Image { image }]));
    assert_eq!(short, long);
    assert!(short > 1_000);
}

#[test]
fn text_takes_a_token_for_every_four_bytes_begun() {
    assert_eq!(estimate_text(""), 0);
    assert_eq!(estimate_text("abcd"), 1);
    assert_eq!(estimate_text("abcde"), 2);
    assert_eq!(estimate_text("😀!"), 2);
}

#[test]
fn an_empty_request_takes_its_frame() {
    assert_eq!(estimate_request(&request()), 16);
    let mut longer = request();
    longer.messages = vec![Message::User(vec![UserContent::Text {
        text: "abcdefgh".into(),
    }])];
    assert!(estimate_request(&longer) > estimate_request(&request()));
}

#[test]
fn tool_results_are_estimated_by_their_notation_console_and_images() {
    let result = ToolResult {
        call_id: "call".into(),
        name: "tool".into(),
        result: parse_json("{\"a\":1}").unwrap(),
        console_output: "line".into(),
        images: vec![],
        is_error: false,
    };
    // Twelve for the frame, one each for the identifier, the name and the console, two
    // for the seven bytes of the result.
    let plain = estimate_message(&Message::Tool(vec![result.clone()]));
    let empty = estimate_message(&Message::Tool(vec![]));
    assert_eq!(plain - empty, 17);
    let mut pictured = result;
    pictured.images = vec![ImageReference {
        sha256: "hash".into(),
        media_type: "image/png".into(),
        name: "image".into(),
        bytes: 10,
        data_base64: None,
    }];
    assert_eq!(estimate_message(&Message::Tool(vec![pictured])) - plain, 2_048);
}
