use skyhook_core::identity::{AgentId, SessionId};
use skyhook_core::interaction::RuntimeEvent;
use skyhook_core::journal::{
    EventRecord, ModelFailureKind, ModelPurpose, SessionEvent, SESSION_FORMAT_VERSION,
};
use skyhook_core::observation::{
    AgentActivity, ContextUsage, LiveResponse, ObservationSnapshot, ObservedEvent, ResponseKey, RuntimeEvents,
};
use skyhook_core::protocol::Message;
use skyhook_core::response::{BlockKind, ContentDelta, ItemKind, ResponseEvent};
use skyhook_core::table::Table;

fn hub(records: Vec<EventRecord>) -> RuntimeEvents {
    RuntimeEvents::new(records, Table::new())
}

fn send(hub: &mut RuntimeEvents, updates: &mut Vec<ObservedEvent>, event: RuntimeEvent) {
    if let Some(revision) = hub.send(event.clone()) {
        updates.push(ObservedEvent { revision, event });
    }
}

fn emit(hub: &mut RuntimeEvents, updates: &mut Vec<ObservedEvent>, agent: &AgentId, event: ResponseEvent) {
    send(
        hub,
        updates,
        RuntimeEvent::ResponseEvent {
            agent: agent.clone(),
            request: 7,
            event,
        },
    );
}

fn start_text(hub: &mut RuntimeEvents, updates: &mut Vec<ObservedEvent>, agent: &AgentId) {
    emit(
        hub,
        updates,
        agent,
        ResponseEvent::ItemStarted {
            id: "text".into(),
            position: 0,
            kind: ItemKind::Text,
        },
    );
    emit(
        hub,
        updates,
        agent,
        ResponseEvent::BlockStarted {
            item: "text".into(),
            id: "text".into(),
            position: 0,
            kind: BlockKind::Text,
        },
    );
}

fn delta(text: &str) -> ResponseEvent {
    ResponseEvent::BlockDelta {
        item: "text".into(),
        block: "text".into(),
        delta: ContentDelta::Text(text.into()),
    }
}

fn response<'a>(snapshot: &'a ObservationSnapshot, agent: &AgentId) -> &'a LiveResponse {
    snapshot
        .responses
        .get(&ResponseKey {
            agent: agent.clone(),
            request: 7,
        })
        .unwrap()
}

fn text(snapshot: &ObservationSnapshot, agent: &AgentId) -> String {
    response(snapshot, agent).snapshot().items[0].blocks[0].text.clone()
}

fn activity(hub: &RuntimeEvents, agent: &AgentId) -> AgentActivity {
    hub.observe().activity.get(agent).unwrap().clone()
}

fn record(hub: &mut RuntimeEvents, agent: &AgentId, sequence: u64, event: SessionEvent) {
    let _ = hub.send(RuntimeEvent::Record(Box::new(EventRecord {
        version: SESSION_FORMAT_VERSION,
        sequence,
        timestamp_millis: 0,
        agent: agent.clone(),
        event,
    })));
}

fn records(snapshot: &ObservationSnapshot) -> Vec<EventRecord> {
    snapshot.records.values().cloned().collect()
}

#[test]
fn snapshot_handoff_and_commit_do_not_duplicate_streams() {
    let mut hub = hub(Vec::new());
    let mut earlier = Vec::new();
    let agent = AgentId::root(SessionId::from_bytes([1; 16]));
    start_text(&mut hub, &mut earlier, &agent);
    emit(&mut hub, &mut earlier, &agent, delta("hello"));
    let mut snapshot = hub.observe().clone();
    let mut updates = Vec::new();
    assert_eq!(text(&snapshot, &agent), "hello");
    emit(&mut hub, &mut updates, &agent, delta("!"));
    let update = updates.remove(0);
    snapshot.apply(update.clone());
    snapshot.apply(update);
    assert_eq!(text(&snapshot, &agent), "hello!");
    send(
        &mut hub,
        &mut updates,
        RuntimeEvent::ResponseSettled {
            agent: agent.clone(),
            request: 7,
            message: Some(3),
            error: None,
        },
    );
    send(
        &mut hub,
        &mut updates,
        RuntimeEvent::Record(Box::new(EventRecord {
            version: 1,
            sequence: 3,
            timestamp_millis: 0,
            agent,
            event: SessionEvent::MessageCommitted {
                message: Message::Assistant(vec![]),
            },
        })),
    );
    for update in updates {
        snapshot.apply(update.clone());
        snapshot.apply(update);
    }
    assert!(snapshot.responses.is_empty());
    assert_eq!(snapshot.records.len(), 1);
    assert_eq!(snapshot.revision, 6);
}

#[test]
fn recovery_is_active_replayable_and_preserves_failed_partial_output() {
    let mut hub = hub(Vec::new());
    let mut updates = Vec::new();
    let agent = AgentId::root(SessionId::from_bytes([2; 16]));
    start_text(&mut hub, &mut updates, &agent);
    emit(&mut hub, &mut updates, &agent, delta("partial answer"));
    let _ = hub.send(RuntimeEvent::Activity {
        agent: agent.clone(),
        activity: AgentActivity::Working,
    });
    record(
        &mut hub,
        &agent,
        8,
        SessionEvent::ModelFailed {
            request: 7,
            attempt: 1,
            error: "connection lost".into(),
            kind: ModelFailureKind::Error,
        },
    );
    assert_eq!(activity(&hub, &agent), AgentActivity::Working);
    record(
        &mut hub,
        &agent,
        9,
        SessionEvent::ModelRecoveryScheduled {
            request: 7,
            attempt: 2,
            max_attempts: Some(3),
            delay_millis: 1000,
            error: "connection lost".into(),
        },
    );
    let snapshot = hub.observe().clone();
    assert_eq!(
        *snapshot.activity.get(&agent).unwrap(),
        AgentActivity::Reconnecting {
            attempt: 2,
            max_attempts: Some(3)
        }
    );
    let live = response(&snapshot, &agent);
    assert!(live.settled);
    assert_eq!(live.error.as_deref(), Some("connection lost"));
    assert_eq!(text(&snapshot, &agent), "partial answer");
    let all = records(&snapshot);
    let replayed = self::hub(all.clone());
    assert_eq!(activity(&replayed, &agent), *snapshot.activity.get(&agent).unwrap());
    // Duplicate journal delivery cannot roll a newer activity back.
    record(
        &mut hub,
        &agent,
        10,
        SessionEvent::ModelRequested {
            context: 1,
            messages: Vec::new(),
            purpose: ModelPurpose::Agent,
        },
    );
    let _ = hub.send(RuntimeEvent::Record(Box::new(all[1].clone())));
    assert_eq!(activity(&hub, &agent), AgentActivity::Working);
    record(
        &mut hub,
        &agent,
        11,
        SessionEvent::ModelAttemptStarted {
            request: 7,
            attempt: 2,
        },
    );
    let started = hub.observe().clone();
    let live = response(&started, &agent);
    assert!(!live.settled);
    assert!(live.error.is_none());
    assert!(live.snapshot().items.is_empty());
    assert_eq!(started.records[&8], snapshot.records[&8]);
    let replayed = self::hub(records(&started));
    let live = response(replayed.observe(), &agent);
    assert!(live.snapshot().items.is_empty());
    assert!(live.error.is_none());
    record(&mut hub, &agent, 12, SessionEvent::AgentCompleted);
    assert_eq!(activity(&hub, &agent), AgentActivity::Idle);
    let replayed = self::hub(records(hub.observe()));
    assert_eq!(activity(&replayed, &agent), AgentActivity::Idle);
}

#[test]
fn interruption_replaces_pending_recovery() {
    let mut hub = hub(Vec::new());
    let agent = AgentId::root(SessionId::from_bytes([3; 16]));
    record(
        &mut hub,
        &agent,
        1,
        SessionEvent::ModelRecoveryScheduled {
            request: 7,
            attempt: 3,
            max_attempts: Some(3),
            delay_millis: 1000,
            error: "connection lost".into(),
        },
    );
    record(&mut hub, &agent, 2, SessionEvent::AgentInterrupted);
    assert_eq!(activity(&hub, &agent), AgentActivity::Interrupted);
}

#[test]
fn repeated_records_get_no_revision() {
    let mut hub = hub(Vec::new());
    let agent = AgentId::root(SessionId::from_bytes([4; 16]));
    let event = RuntimeEvent::Record(Box::new(EventRecord {
        version: SESSION_FORMAT_VERSION,
        sequence: 5,
        timestamp_millis: 0,
        agent: agent.clone(),
        event: SessionEvent::AgentCompleted,
    }));
    assert_eq!(hub.send(event.clone()), Some(1));
    assert_eq!(hub.send(event), None);
    assert_eq!(hub.observe().revision, 1);
    assert_eq!(activity(&hub, &agent), AgentActivity::Idle);
}

#[test]
fn context_usage_is_kept_from_the_start_and_replaced_by_events() {
    let agent = AgentId::root(SessionId::from_bytes([5; 16]));
    let mut table = Table::new();
    table.insert(
        agent.clone(),
        ContextUsage {
            tokens: 10,
            capacity: 100,
        },
    );
    let mut hub = RuntimeEvents::new(Vec::new(), table);
    assert_eq!(hub.observe().context.get(&agent).unwrap().tokens, 10);
    let _ = hub.send(RuntimeEvent::Context {
        agent: agent.clone(),
        tokens: 20,
        capacity: 200,
    });
    let usage = hub.observe().context.get(&agent).unwrap();
    assert_eq!((usage.tokens, usage.capacity), (20, 200));
}

#[test]
fn an_observer_that_applies_updates_matches_the_hub() {
    let agent = AgentId::root(SessionId::from_bytes([6; 16]));
    let mut hub = hub(Vec::new());
    let mut observer = hub.observe().clone();
    let mut updates = Vec::new();
    start_text(&mut hub, &mut updates, &agent);
    emit(&mut hub, &mut updates, &agent, delta("a"));
    emit(&mut hub, &mut updates, &agent, delta("b"));
    for update in updates {
        observer.apply(update);
    }
    assert_eq!(observer.revision, hub.observe().revision);
    assert_eq!(text(&observer, &agent), "ab");
    assert_eq!(text(hub.observe(), &agent), "ab");
}

#[test]
fn responses_that_settle_with_an_error_leave_in_either_order() {
    let agent = AgentId::root(SessionId::from_bytes([7; 16]));
    for error in [None, Some("interrupted".to_owned())] {
        for record_first in [true, false] {
            let mut hub = hub(Vec::new());
            let mut updates = Vec::new();
            start_text(&mut hub, &mut updates, &agent);
            let settled = RuntimeEvent::ResponseSettled {
                agent: agent.clone(),
                request: 7,
                message: Some(8),
                error: error.clone(),
            };
            let committed = SessionEvent::MessageCommitted {
                message: Message::Assistant(Vec::new()),
            };
            if record_first {
                record(&mut hub, &agent, 8, committed);
                let _ = hub.send(settled);
            } else {
                let _ = hub.send(settled);
                assert_eq!(hub.observe().responses.len(), 1);
                record(&mut hub, &agent, 8, committed);
            }
            assert!(hub.observe().responses.is_empty());
            assert_eq!(records(hub.observe()).len(), 1);
        }
    }
}

#[test]
fn a_journal_rebuilds_the_snapshot_of_the_hub() {
    let agent = AgentId::root(SessionId::from_bytes([8; 16]));
    let mut live = hub(Vec::new());
    record(&mut live, &agent, 1, SessionEvent::AgentCompleted);
    record(&mut live, &agent.child(1), 2, SessionEvent::AgentInterrupted);
    record(&mut live, &agent, 2, SessionEvent::AgentCompleted);
    let journal = records(live.observe());
    let again = RuntimeEvents::restore(journal.clone(), &Vec::new(), &Table::new());
    assert_eq!(records(again.observe()), journal);
    assert_eq!(journal.len(), 2);
    for id in [&agent, &agent.child(1)] {
        assert_eq!(activity(&again, id), activity(&live, id));
    }
    assert_eq!(activity(&again, &agent.child(1)), AgentActivity::Interrupted);
}
