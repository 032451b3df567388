use skyhook_core::error::ToolError;
use skyhook_core::history::{corpus, page, read_history, HistoryArgs, MAX_OUTPUT_BYTES};
use skyhook_core::identity::{AgentId, SessionId};
use skyhook_core::journal::{CompactionCheckpoint, EventRecord, SessionEvent, SESSION_FORMAT_VERSION};
use skyhook_core::json::{parse_json, pretty_text};
use skyhook_core::protocol::{AssistantContent, Message, ToolCall, ToolResult, UserContent};

fn args() -> HistoryArgs {
    HistoryArgs {
        source: None,
        query: None,
        cursor: None,
        through: None,
        limit: None,
    }
}

#[test]
fn pagination_recovers_huge_unicode_and_escaped_text_without_loss() {
    let original = "😀\\\"\n\u{0001} state ".repeat(4000);
    let corpus = vec![("m2/b0".to_owned(), original.clone())];
    let mut input = args();
    let mut recovered = String::new();
    loop {
        let result = page(&corpus, &input).unwrap();
        assert!(result.to_json().len() <= MAX_OUTPUT_BYTES);
        for entry in &result.entries {
            assert_eq!(entry.offset, recovered.len());
            recovered.push_str(&entry.text);
        }
        let Some(cursor) = result.next_cursor else {
            break;
        };
        assert!(cursor > input.cursor.unwrap_or(0));
        input.cursor = Some(cursor);
    }
    assert_eq!(recovered, original);
}

#[test]
fn search_source_and_cursor_validation() {
    let corpus = vec![
        ("m2/b0".to_owned(), "Chosen APPROACH".to_owned()),
        ("m3/b0".to_owned(), "😀 discarded".to_owned()),
    ];
    let mut input = args();
    input.query = Some("approach".to_owned());
    let result = page(&corpus, &input).unwrap();
    assert_eq!(result.entries.len(), 1);
    assert_eq!(result.entries[0].source, "m2/b0");
    input.query = None;
    input.source = Some("m3/b0".to_owned());
    input.cursor = Some(1);
    assert!(page(&corpus, &input).is_err());
    input.cursor = Some(4);
    assert_eq!(page(&corpus, &input).unwrap().entries[0].text, " discarded");
    input.limit = Some(101);
    assert!(page(&corpus, &input).is_err());
    input.limit = None;
    input.source = Some("m100/b0".to_owned());
    assert!(page(&corpus, &input).is_err());
}

fn record(sequence: u64, agent: AgentId, message: Message) -> EventRecord {
    EventRecord {
        version: SESSION_FORMAT_VERSION,
        sequence,
        timestamp_millis: 0,
        agent,
        event: SessionEvent::MessageCommitted { message },
    }
}

fn conversation(owner: &AgentId) -> Vec<EventRecord> {
    vec![
        record(
            1,
            owner.clone(),
            Message::Assistant(vec![
                AssistantContent::Reasoning {
                    text: "private reasoning".to_owned(),
                    opaque: None,
                },
                AssistantContent::Text {
                    text: "original plan".to_owned(),
                },
            ]),
        ),
        record(
            2,
            owner.child(1),
            Message::User(vec![UserContent::Text {
                text: "child task".to_owned(),
            }]),
        ),
        record(
            3,
            owner.clone(),
            Message::User(vec![
                UserContent::Runtime {
                    text: "Job 7 completed: decisive output".to_owned(),
                },
                UserContent::Runtime {
                    text: "<skyhook_state>{}</skyhook_state>".to_owned(),
                },
            ]),
        ),
    ]
}

#[test]
fn corpus_is_limited_to_own_agent_and_excludes_reasoning() {
    let owner = AgentId::root(SessionId::from_bytes([1; 16]));
    assert_eq!(
        corpus(&conversation(&owner), &owner),
        vec![
            ("m1/b1".to_owned(), "original plan".to_owned()),
            ("m3/b0".to_owned(), "Job 7 completed: decisive output".to_owned()),
        ]
    );
}

#[test]
fn corpus_uses_compaction_evidence_references_and_recovers_checkpoints() {
    let owner = AgentId::root(SessionId::from_bytes([1; 16]));
    let result = parse_json("{\"important\": \"evidence\"}").unwrap();
    let records = vec![
        record(
            2,
            owner.clone(),
            Message::Tool(vec![ToolResult {
                call_id: "call".to_owned(),
                name: "script".to_owned(),
                result: result.clone(),
                console_output: "exact console\n".to_owned(),
                images: Vec::new(),
                is_error: false,
            }]),
        ),
        EventRecord {
            version: SESSION_FORMAT_VERSION,
            sequence: 5,
            timestamp_millis: 0,
            agent: owner.clone(),
            event: SessionEvent::Compaction {
                checkpoint: CompactionCheckpoint {
                    schema_version: 1,
                    todos: Vec::new(),
                    previous: None,
                    frontier: 2,
                    message: Message::User(vec![UserContent::Compaction {
                        text: "checkpoint".to_owned(),
                    }]),
                    retained: Vec::new(),
                    request: 4,
                    max_context: 128000,
                    before_tokens: 100000,
                    after_tokens: 10000,
                },
            },
        },
    ];
    assert_eq!(
        corpus(&records, &owner),
        vec![
            ("m2/b0/result".to_owned(), "{\n  \"important\": \"evidence\"\n}".to_owned()),
            ("m2/b0/console".to_owned(), "exact console\n".to_owned()),
            ("c5/b0".to_owned(), "checkpoint".to_owned()),
        ]
    );
    assert_eq!(pretty_text(&result), "{\n  \"important\": \"evidence\"\n}");
}

#[test]
fn tool_arguments_have_references_of_their_own() {
    let owner = AgentId::root(SessionId::from_bytes([1; 16]));
    let records = vec![record(
        9,
        owner.clone(),
        Message::Assistant(vec![AssistantContent::ToolCall(ToolCall {
            id: "call".to_owned(),
            name: "read".to_owned(),
            arguments: parse_json("[]").unwrap(),
        })]),
    )];
    assert_eq!(
        corpus(&records, &owner),
        vec![("m9/b0/arguments".to_owned(), "[]".to_owned())]
    );
}

fn fault(corpus: &Vec<(String, String)>, input: &HistoryArgs) -> String {
    match page(corpus, input) {
        Err(ToolError::InvalidArguments(text)) => text,
        other => panic!("unexpected {other:?}"),
    }
}

#[test]
fn every_invalid_request_has_its_own_fault() {
    let corpus = vec![("m1/b0".to_owned(), "é".to_owned())];
    let mut input = args();
    input.limit = Some(0);
    assert_eq!(fault(&corpus, &input), "limit must be between 1 and 100");
    input.limit = Some(101);
    assert_eq!(fault(&corpus, &input), "limit must be between 1 and 100");
    input.limit = None;
    input.source = Some("m2/b0".to_owned());
    assert_eq!(fault(&corpus, &input), "source was not found in your conversation");
    input.source = None;
    input.cursor = Some(3);
    assert_eq!(fault(&corpus, &input), "cursor is past the matching history");
    input.cursor = Some(1);
    assert_eq!(fault(&corpus, &input), "cursor must be a UTF-8 character boundary");
    input.cursor = Some(2);
    assert!(page(&corpus, &input).unwrap().entries.is_empty());
}

#[test]
fn a_limit_ends_a_page_and_the_next_one_goes_on_behind_it() {
    let corpus = vec![
        ("m1/b0".to_owned(), "one".to_owned()),
        ("m2/b0".to_owned(), String::new()),
        ("m3/b0".to_owned(), "three".to_owned()),
    ];
    let mut input = args();
    input.limit = Some(1);
    let first = page(&corpus, &input).unwrap();
    assert_eq!(first.entries[0].text, "one");
    assert_eq!(first.next_cursor, Some(3));
    input.cursor = first.next_cursor;
    let second = page(&corpus, &input).unwrap();
    assert_eq!(second.entries[0].source, "m3/b0");
    assert_eq!(second.entries[0].offset, 0);
    assert_eq!(second.next_cursor, None);
}

#[test]
fn a_page_is_written_as_compact_json() {
    let corpus = vec![("m1/b0".to_owned(), "a\"b".to_owned())];
    let page = page(&corpus, &args()).unwrap();
    assert_eq!(
        page.to_json(),
        "{\"entries\":[{\"source\":\"m1/b0\",\"offset\":0,\"text\":\"a\\\"b\"}],\"next_cursor\":null,\"through\":18446744073709551615}"
    );
}

#[test]
fn history_is_read_up_to_a_sequence() {
    let owner = AgentId::root(SessionId::from_bytes([1; 16]));
    let all = read_history(conversation(&owner), &owner, &args()).unwrap().unwrap();
    assert_eq!(all.through, 3);
    assert_eq!(all.entries.len(), 2);
    let mut input = args();
    input.through = Some(2);
    let earlier = read_history(conversation(&owner), &owner, &input).unwrap().unwrap();
    assert_eq!(earlier.through, 2);
    assert_eq!(earlier.entries.len(), 1);
    let none = read_history(Vec::new(), &owner, &args()).unwrap().unwrap();
    assert_eq!(none.through, 0);
    assert!(none.entries.is_empty());
}

#[test]
fn a_walk_over_every_source_collects_all_of_them() {
    let owner = AgentId::root(SessionId::from_bytes([1; 16]));
    let texts: Vec<String> = (0..3).map(|number| format!("{number}é\n").repeat(5000)).collect();
    let mut records = Vec::new();
    for (position, text) in texts.iter().enumerate() {
        let content = vec![UserContent::Text { text: text.clone() }];
        records.push(record(position as u64 + 1, owner.clone(), Message::User(content)));
    }
    let mut input = args();
    let mut collected = String::new();
    let mut pages = 0;
    loop {
        let result = read_history(records.clone(), &owner, &input).unwrap().unwrap();
        assert!(result.to_json().len() <= MAX_OUTPUT_BYTES);
        for entry in &result.entries {
            collected.push_str(&entry.text);
        }
        pages += 1;
        let Some(cursor) = result.next_cursor else {
            break;
        };
        input.cursor = Some(cursor);
        input.through = Some(result.through);
    }
    assert!(pages > 1);
    assert_eq!(collected, texts.concat());
}

#[test]
fn searches_find_a_query_at_either_end_or_not_at_all() {
    let corpus = vec![("m2/b0".to_owned(), "Ünïcode aab".to_owned())];
    for (query, found) in [("ünï", true), ("AAB", true), ("ab", true), ("abb", false), ("ünïcode aabb", false)] {
        let mut input = args();
        input.query = Some(query.to_owned());
        assert_eq!(page(&corpus, &input).unwrap().entries.len(), usize::from(found), "{query}");
    }
}
