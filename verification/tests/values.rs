use skyhook_core::identity::{AgentId, JobId, SessionId};
use skyhook_core::job::{is_state_name, JobSet, JobState};
use skyhook_core::json::{
    compact_text, find_member, omit_null_fields, parse_json, pretty_text, same_json, set_member, Json,
};
use skyhook_core::response::{BlockKind, ContentDelta, ItemKind, ResponseAssembler, ResponseEvent};
use skyhook_core::table::Table;
use skyhook_core::text::{byte_length, decimal_text, is_blank, join, strip_prefix, strip_suffix};

#[test]
fn json_keeps_the_order_of_members() {
    let text = r#"{"b":1,"a":[true,null,-2,"x\n"],"c":{}}"#;
    let json = parse_json(text).unwrap();
    assert_eq!(compact_text(&json), text);
    assert_eq!(
        pretty_text(&parse_json(r#"{"b":[1]}"#).unwrap()),
        "{\n  \"b\": [\n    1\n  ]\n}"
    );
    assert_eq!(
        json,
        Json::Object(vec![
            ("b".into(), Json::Unsigned(1)),
            (
                "a".into(),
                Json::Array(vec![
                    Json::Bool(true),
                    Json::Null,
                    Json::Signed(-2),
                    Json::Text("x\n".into())
                ])
            ),
            ("c".into(), Json::Object(vec![])),
        ])
    );
    assert_eq!(parse_json("{\"a\":"), None);
    assert!(same_json(&json, &json.clone()));
    assert!(!same_json(&json, &Json::Null));
}

#[test]
fn members_are_found_and_replaced_in_place() {
    let mut members = vec![("a".to_string(), Json::Unsigned(1)), ("b".to_string(), Json::Null)];
    assert_eq!(find_member(&members, "b"), Some(1));
    assert_eq!(find_member(&members, "c"), None);
    set_member(&mut members, "a", Json::Bool(true));
    set_member(&mut members, "c", Json::Text("new".into()));
    let object = Json::Object(members);
    assert_eq!(compact_text(&object), r#"{"a":true,"b":null,"c":"new"}"#);
    assert_eq!(object.member("c"), Some(&Json::Text("new".into())));
    assert_eq!(Json::Null.member("c"), None);
}

#[test]
fn null_members_are_omitted_at_every_depth() {
    let json = parse_json(r#"{"a":null,"b":[null,{"c":null,"d":1}]}"#).unwrap();
    assert_eq!(compact_text(&omit_null_fields(&json)), r#"{"b":[null,{"d":1}]}"#);
}

#[test]
fn numbers_and_texts_are_put_together() {
    assert_eq!(decimal_text(0), "0");
    assert_eq!(decimal_text(10_203), "10203");
    assert_eq!(decimal_text(u64::MAX), "18446744073709551615");
    let parts = vec!["a".to_string(), String::new(), "c".to_string()];
    assert_eq!(join(&parts, ", "), "a, , c");
    assert_eq!(join(&vec![], ", "), "");
    assert_eq!(byte_length("aé日"), 6);
}

#[test]
fn prefixes_and_suffixes_are_stripped_once() {
    assert_eq!(strip_prefix("ééa", "é"), Some("éa"));
    assert_eq!(strip_prefix("a", "ab"), None);
    assert_eq!(strip_prefix("abc", "b"), None);
    assert_eq!(strip_suffix("a.md.md", ".md"), Some("a.md"));
    assert_eq!(strip_suffix("md", ".md"), None);
}

#[test]
fn blank_texts_hold_white_space_only() {
    assert!(is_blank(""));
    assert!(is_blank(" \t\n\u{3000}"));
    assert!(!is_blank(" . "));
}

#[test]
fn sessions_are_told_apart_by_every_byte() {
    let first = SessionId::from_bytes([0; 16]);
    let mut bytes = [0; 16];
    bytes[15] = 1;
    assert_ne!(first, SessionId::from_bytes(bytes));
    bytes = [0; 16];
    bytes[0] = 1;
    assert_ne!(first, SessionId::from_bytes(bytes));
    assert_eq!(first, SessionId::from_bytes([0; 16]));
}

#[test]
fn agents_know_their_place_in_the_tree() {
    let root = AgentId::root(SessionId::from_bytes([3; 16]));
    let nested = root.child(2).child(9);
    assert_eq!(nested.parent(), Some(root.child(2)));
    assert_eq!(root.parent(), None);
    assert_eq!((root.depth(), nested.depth()), (0, 2));
    assert_eq!((root.last_segment(), nested.last_segment()), (None, Some(9)));
    assert_eq!(nested.session(), SessionId::from_bytes([3; 16]));
    assert!(nested.is_within(&root) && nested.is_within(&nested));
    assert!(!root.is_within(&nested));
    assert!(!root.child(21).is_within(&root.child(2)));
}

#[test]
fn job_numbers_begin_at_one() {
    assert_eq!(JobId::new(0), None);
    let job = JobId::new(4).unwrap();
    assert_eq!(job.number(), 4);
    assert!(job.is(JobId::new(4).unwrap()));
    assert!(!job.is(JobId::new(5).unwrap()));
}

#[test]
fn job_sets_hold_each_job_once() {
    let job = JobId::new(4).unwrap();
    let mut jobs = JobSet::new();
    assert!(jobs.insert(job));
    assert!(!jobs.insert(job));
    assert!(jobs.contains(job));
    jobs.remove(job);
    assert!(!jobs.contains(job));
}

#[test]
fn job_states_have_names() {
    let states = [
        (JobState::Running, "running"),
        (JobState::Completed, "completed"),
        (JobState::Failed, "failed"),
        (JobState::Cancelled, "cancelled"),
        (JobState::Interrupted, "interrupted"),
    ];
    for (state, name) in states {
        assert_eq!(state.name(), name);
        assert!(is_state_name(&name.to_string()));
    }
    assert!(!is_state_name(&"finished".to_string()));
}

#[test]
fn tables_hold_one_value_for_each_key() {
    let mut table: Table<AgentId, u32> = Table::new();
    let root = AgentId::root(SessionId::from_bytes([3; 16]));
    assert!(table.is_empty());
    table.insert(root.clone(), 1);
    table.insert(root.child(1), 2);
    table.insert(root.clone(), 3);
    assert_eq!(table.len(), 2);
    assert_eq!(table.get(&root), Some(&3));
    assert_eq!(table.remove(&root), Some(3));
    assert_eq!(table.remove(&root), None);
    assert_eq!(table.entries(), &vec![(root.child(1), 2)]);
    assert_eq!(table.into_entries(), vec![(root.child(1), 2)]);
}

fn delta(item: &str, block: &str, text: &str) -> ResponseEvent {
    ResponseEvent::BlockDelta {
        item: item.into(),
        block: block.into(),
        delta: ContentDelta::Text(text.into()),
    }
}

#[test]
fn responses_are_assembled_from_their_events() {
    let item = ResponseEvent::ItemStarted {
        id: "item".into(),
        position: 0,
        kind: ItemKind::Text,
    };
    let block = ResponseEvent::BlockStarted {
        item: "item".into(),
        id: "block".into(),
        position: 0,
        kind: BlockKind::Text,
    };
    let mut assembler = ResponseAssembler::new();
    assert_eq!(assembler.push(&block), Err("unknown response item `item`".into()));
    assert_eq!(assembler.push(&item), Ok(()));
    assert_eq!(assembler.push(&item), Err("repeated response item `item`".into()));
    assert_eq!(
        assembler.push(&delta("item", "block", "x")),
        Err("unknown response block `block`".into())
    );
    assert_eq!(assembler.push(&block), Ok(()));
    assert_eq!(assembler.push(&block), Err("repeated response block `block`".into()));
    assert_eq!(assembler.push(&delta("item", "block", "Hel")), Ok(()));
    assert_eq!(assembler.push(&delta("item", "block", "lo")), Ok(()));
    let snapshot = assembler.snapshot();
    assert_eq!(snapshot.items.len(), 1);
    assert_eq!(snapshot.items[0].blocks[0].text, "Hello");
}

#[test]
fn white_space_is_that_of_unicode() {
    let spaces = "\t\n\u{b}\u{c}\r \u{85}\u{a0}\u{1680}\u{2000}\u{2005}\u{200a}\u{2028}\u{2029}\u{202f}\u{205f}\u{3000}";
    assert!(is_blank(spaces));
    for other in ["\u{8}", "\u{e}", "\u{1f}", "\u{84}", "\u{180e}", "\u{1fff}", "\u{200b}", "\u{2030}", "\u{feff}"] {
        assert!(!is_blank(other));
    }
}

#[test]
fn repeated_members_and_positive_signed_numbers_are_not_kept_as_they_are() {
    let repeated = Json::Object(vec![
        ("a".into(), Json::Unsigned(1)),
        ("b".into(), Json::Signed(-3)),
        ("a".into(), Json::Signed(2)),
    ]);
    assert_eq!(compact_text(&repeated), r#"{"a":2,"b":-3}"#);
    assert_eq!(
        parse_json(&compact_text(&Json::Signed(2))),
        Some(Json::Unsigned(2))
    );
}

#[test]
fn indented_notation_nests_and_leaves_empty_values_closed() {
    let json = parse_json(r#"{"a":[],"b":{},"c":[1,{"d":[true,"x\ty"]}],"e":-7,"f":1.5}"#).unwrap();
    assert_eq!(
        pretty_text(&json),
        "{\n  \"a\": [],\n  \"b\": {},\n  \"c\": [\n    1,\n    {\n      \"d\": [\n        true,\n        \"x\\ty\"\n      ]\n    }\n  ],\n  \"e\": -7,\n  \"f\": 1.5\n}"
    );
    assert_eq!(pretty_text(&Json::Object(vec![])), "{}");
    assert_eq!(compact_text(&json), r#"{"a":[],"b":{},"c":[1,{"d":[true,"x\ty"]}],"e":-7,"f":1.5}"#);
}

#[test]
fn tables_count_their_keys() {
    let session = SessionId::from_bytes([1; 16]);
    let root = AgentId::root(session);
    let mut table: Table<AgentId, u32> = Table::new();
    assert!(table.is_empty());
    table.insert(root.clone(), 1);
    table.insert(root.child(1), 2);
    table.insert(root.clone(), 3);
    assert_eq!(table.len(), 2);
    assert_eq!(table.remove(&root), Some(3));
    assert_eq!(table.len(), 1);
}
