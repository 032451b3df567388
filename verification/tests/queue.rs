use skyhook_core::driver::AgentCommand;
use skyhook_core::error::{HarnessError, QueueConflict};
use skyhook_core::identity::{AgentId, SessionId};
use skyhook_core::journal::{AppendIdentity, QueueIntent, QueueSettlement, SessionEvent};
use skyhook_core::profiles::ModelProfiles;
use skyhook_core::protocol::{ImageReference, Message, ModelProfile, UserContent};
use skyhook_core::queue::durable::{
    abandonment_blocked, admit_dispatch, admit_draft, conclude_draft, draft_attachments, reclaim_queued_prompt, retire, retirement_blocked,
    retirement_events, roll_back, scan_queued_prompts, IntentRecord, QueueRegistry, RecoveredState, Retirement,
};
use skyhook_core::queue::{
    accept_replacement, admission_action, admit_input, attempt, commit_settlement, conclude_admission, holds_image, prepare_selection, sort_command,
    submission_events, ClaimedAppends, PromptOptions, QueuedPrompt, QueuedPromptToken, TokenAction, TokenBoard, TokenPhase,
};

#[test]
fn queue_cancellation_and_claim_are_exclusive_across_clones() {
    let mut board = TokenBoard::new();
    let pending = QueuedPromptToken::new(&mut board);
    let cancelled = pending.clone();
    assert!(cancelled.cancel(&mut board));
    assert!(pending.cancel(&mut board));
    assert!(!pending.claim(&mut board));
    assert!(!pending.is_claimed(&board));

    let claimed = QueuedPromptToken::new(&mut board);
    let copy = claimed.clone();
    assert!(claimed.claim(&mut board));
    assert!(copy.is_claimed(&board));
    assert!(!copy.cancel(&mut board));
    assert!(!copy.claim(&mut board));
}

#[test]
fn mod_cancellation_and_claim_are_exclusive_across_clones() {
    let mut board = TokenBoard::new();
    let pending = QueuedPromptToken::new(&mut board);
    let cancelled = pending.clone();
    assert!(cancelled.cancel(&mut board));
    assert!(pending.cancel(&mut board));
    assert!(!pending.claim(&mut board));
    assert!(!pending.is_claimed(&board));

    let claimed = QueuedPromptToken::new(&mut board);
    let copy = claimed.clone();
    assert!(claimed.claim(&mut board));
    assert!(copy.is_claimed(&board));
    assert!(!copy.cancel(&mut board));
    assert!(!copy.claim(&mut board));
}

#[test]
fn queued_token_cancellation_is_shared_and_idempotent() {
    for mut board in [TokenBoard::new(), TokenBoard::default()] {
        let token = QueuedPromptToken::new(&mut board);
        let clone = token.clone();
        assert!(!token.is_claimed(&board));
        assert!(clone.cancel(&mut board));
        assert!(token.cancel(&mut board));
        assert!(!clone.is_claimed(&board));
    }
}

#[test]
fn tokens_of_a_board_do_not_disturb_each_other() {
    let mut board = TokenBoard::new();
    let first = QueuedPromptToken::new(&mut board);
    let second = QueuedPromptToken::new(&mut board);
    assert!(first.claim(&mut board));
    assert!(second.cancel(&mut board));
    let third = QueuedPromptToken::new(&mut board);
    assert!(first.is_claimed(&board) && !first.is_cancelled(&board));
    assert!(second.is_cancelled(&board) && !second.is_claimed(&board));
    assert!(!third.is_claimed(&board) && !third.is_cancelled(&board));
    assert!(!first.cancel(&mut board));
    assert!(first.is_claimed(&board));
    assert!(third.claim(&mut board));
}

#[test]
fn a_board_refuses_tokens_that_it_did_not_issue() {
    let mut board = TokenBoard::new();
    let token = QueuedPromptToken::new(&mut board);
    let mut other = TokenBoard::new();
    assert!(!token.cancel(&mut other));
    assert!(!token.claim(&mut other));
    assert!(!token.is_claimed(&other) && !token.is_cancelled(&other));
    assert_eq!(admit_input(&token, &mut other, false, false), Err(HarnessError::Interrupted));
    assert!(token.claim(&mut board));
}

#[test]
fn abandoning_cancels_unless_the_attempt_is_claimed() {
    let mut board = TokenBoard::new();
    let mut registry = QueueRegistry::new();
    registry.register(1);
    let pending = QueuedPromptToken::new(&mut board);
    assert!(abandonment_blocked(&pending, &mut board, &registry, 1, false));
    assert!(pending.is_cancelled(&board));
    assert!(!abandonment_blocked(&pending, &mut board, &registry, 1, true));
    let claimed = QueuedPromptToken::new(&mut board);
    assert!(claimed.claim(&mut board));
    assert!(abandonment_blocked(&claimed, &mut board, &registry, 1, true));
    assert!(claimed.is_claimed(&board));
    assert!(!abandonment_blocked(&claimed, &mut board, &registry, 2, true));
}

#[test]
fn only_pending_submissions_are_claimed_and_claims_are_final() {
    assert_eq!(attempt(TokenPhase::Pending, TokenAction::Claim), (TokenPhase::Claimed, true));
    assert_eq!(attempt(TokenPhase::Pending, TokenAction::Cancel), (TokenPhase::Cancelled, true));
    assert_eq!(attempt(TokenPhase::Claimed, TokenAction::Cancel), (TokenPhase::Claimed, false));
    assert_eq!(attempt(TokenPhase::Claimed, TokenAction::Claim), (TokenPhase::Claimed, false));
    assert_eq!(attempt(TokenPhase::Cancelled, TokenAction::Claim), (TokenPhase::Cancelled, false));
    assert_eq!(attempt(TokenPhase::Cancelled, TokenAction::Cancel), (TokenPhase::Cancelled, true));
}

#[test]
fn a_queued_prompt_shares_its_token() {
    let mut board = TokenBoard::new();
    let prompt = QueuedPrompt {
        text: "text".into(),
        paths: vec!["image.png".into()],
        options: PromptOptions::default(),
        token: QueuedPromptToken::new(&mut board),
    };
    let copy = prompt.clone();
    assert!(prompt.token.cancel(&mut board));
    assert!(copy.token.is_cancelled(&board));
    assert_eq!(copy.options.model, None);
}

#[test]
fn inputs_are_admitted_unless_interrupted_stopped_or_settled() {
    let mut board = TokenBoard::new();
    let token = QueuedPromptToken::new(&mut board);
    assert_eq!(admit_input(&token, &mut board, false, false), Ok(()));
    assert!(token.is_claimed(&board));
    assert_eq!(admit_input(&token, &mut board, false, false), Err(HarnessError::Interrupted));
    let stopped = QueuedPromptToken::new(&mut board);
    assert_eq!(admit_input(&stopped, &mut board, false, true), Err(HarnessError::AgentStopped));
    assert!(stopped.is_cancelled(&board));
    let interrupted = QueuedPromptToken::new(&mut board);
    assert_eq!(admit_input(&interrupted, &mut board, true, true), Err(HarnessError::Interrupted));
    assert!(interrupted.is_cancelled(&board));
    let cancelled = QueuedPromptToken::new(&mut board);
    assert!(cancelled.cancel(&mut board));
    assert_eq!(admit_input(&cancelled, &mut board, false, false), Err(HarnessError::Interrupted));
    assert!(!cancelled.is_claimed(&board));
}

fn profile(model: &str, supports_images: bool) -> ModelProfile {
    ModelProfile {
        provider: "test".into(),
        model: model.into(),
        reasoning: None,
        max_context: 128_000,
        max_output: 4096,
        supports_images,
    }
}

fn profiles() -> ModelProfiles {
    let mut profiles = ModelProfiles::new();
    profiles.insert("first".into(), profile("first-model", true));
    profiles.insert("second".into(), profile("second-model", false));
    profiles.insert("alias".into(), profile("first-model", true));
    profiles
}

#[test]
fn model_selections_are_resolved_before_anything_is_recorded() {
    let profiles = profiles();
    let current = "first".to_owned();
    let in_use = profile("first-model", true);
    let select = |name: Option<&str>, images: bool| {
        prepare_selection(&profiles, &current, &in_use, name.map(str::to_owned), images)
    };
    assert_eq!(select(None, true), Ok(None));
    assert_eq!(select(Some("first"), true), Ok(None));
    let second = select(Some("second"), false).unwrap().unwrap();
    assert_eq!(second.name, "second");
    assert!(second.replaces);
    assert!(!select(Some("alias"), true).unwrap().unwrap().replaces);
    assert_eq!(
        select(Some("second"), true),
        Err(HarnessError::ImagesUnsupported("second-model".into()))
    );
    assert_eq!(
        select(Some("missing"), false),
        Err(HarnessError::UnknownModelProfile("missing".into()))
    );
    assert_eq!(
        prepare_selection(&profiles, &"second".to_owned(), &profile("second-model", false), None, true),
        Err(HarnessError::ImagesUnsupported("second-model".into()))
    );
    assert_eq!(accept_replacement(&second.profile, false), Ok(()));
    assert_eq!(
        accept_replacement(&second.profile, true),
        Err(HarnessError::ImagesUnsupported("second-model".into()))
    );
}

#[test]
fn a_change_of_model_is_recorded_before_the_message() {
    let content = vec![UserContent::Text { text: "hi".into() }];
    let message = SessionEvent::MessageCommitted {
        message: Message::User(content.clone()),
    };
    assert_eq!(submission_events(&None, content.clone()), vec![message.clone()]);
    let selected = prepare_selection(
        &profiles(),
        &"first".to_owned(),
        &profile("first-model", true),
        Some("second".into()),
        false,
    )
    .unwrap();
    let changed = SessionEvent::ModelChanged {
        model_profile: "second".into(),
        max_context: 128_000,
    };
    assert_eq!(submission_events(&selected, content), vec![changed, message]);
}

#[test]
fn durable_attempts_are_settled_with_their_message() {
    let identity = AppendIdentity { event: 9 };
    assert_eq!(commit_settlement(None, identity), None);
    assert_eq!(
        commit_settlement(Some(4), identity),
        Some(SessionEvent::QueueSettlement {
            attempt: 4,
            settlement: QueueSettlement::Committed { event: 9 }
        })
    );
    let mut claim = ClaimedAppends::new();
    claim.accepted(AppendIdentity { event: 8 }, false);
    assert_eq!(claim.message, None);
    claim.accepted(identity, true);
    assert_eq!(claim.appends, vec![AppendIdentity { event: 8 }, identity]);
    assert_eq!(claim.message, Some(identity));
}

#[test]
fn only_queued_inputs_are_consumed_at_a_boundary() {
    let mut deferred = Vec::new();
    assert_eq!(sort_command(AgentCommand::QueuedInputs(vec![1, 2]), &mut deferred), Some(vec![1, 2]));
    assert_eq!(sort_command(AgentCommand::JobsReady, &mut deferred), None);
    assert_eq!(deferred, vec![AgentCommand::JobsReady]);
}

fn image() -> ImageReference {
    ImageReference {
        sha256: "hash".into(),
        media_type: "image/png".into(),
        name: "image".into(),
        bytes: 10,
        data_base64: None,
    }
}

fn root() -> AgentId {
    AgentId::root(SessionId::from_bytes([7; 16]))
}

fn draft(attempt: u64) -> IntentRecord {
    IntentRecord {
        agent: root(),
        intent: QueueIntent {
            attempt,
            content: vec![
                UserContent::Text { text: "t".into() },
                UserContent::Image { image: image() },
            ],
            model: None,
        },
        acknowledged: false,
        message: None,
        settlement: None,
    }
}

#[test]
fn recovery_issues_one_permit_per_saved_draft() {
    let mut committed = draft(2);
    committed.message = Some(AppendIdentity { event: 20 });
    let mut abandoned = draft(3);
    abandoned.settlement = Some(QueueSettlement::NotCommitted);
    let mut acknowledged = draft(4);
    acknowledged.acknowledged = true;
    let mut foreign = draft(5);
    foreign.agent = root().child(1);
    let records = vec![draft(1), committed, abandoned, acknowledged, foreign, draft(6), draft(7)];
    let mut registry = QueueRegistry::new();
    registry.register(6);
    registry.register(7);
    registry.release(7);
    let (found, issued) = scan_queued_prompts(&records, &root(), &mut registry);
    let states: Vec<(usize, RecoveredState)> = found.iter().map(|draft| (draft.position, draft.state)).collect();
    assert_eq!(
        states,
        vec![
            (0, RecoveredState::Retry),
            (1, RecoveredState::Committed(AppendIdentity { event: 20 })),
            (5, RecoveredState::Unresolved),
            (6, RecoveredState::Released),
        ]
    );
    assert_eq!(issued, vec![1]);
    let (again, none) = scan_queued_prompts(&records, &root(), &mut registry);
    assert_eq!(again[0].state, RecoveredState::Unresolved);
    assert!(none.is_empty());
    // A failed recovery takes its permits back, and the next one issues them again.
    roll_back(&mut registry, &issued);
    let (_, minted) = scan_queued_prompts(&records, &root(), &mut registry);
    assert_eq!(minted, vec![1]);
}

#[test]
fn attachments_are_shown_unless_the_draft_is_committed() {
    let content = draft(1).intent.content;
    assert!(holds_image(&content));
    assert_eq!(draft_attachments(RecoveredState::Retry, &content), vec![image()]);
    assert!(draft_attachments(RecoveredState::Committed(AppendIdentity { event: 1 }), &content).is_empty());
}

#[test]
fn drafts_and_dispatches_are_admitted_by_state() {
    let mut board = TokenBoard::new();
    let token = QueuedPromptToken::new(&mut board);
    assert_eq!(admit_draft(&token, &board, false), Ok(()));
    assert_eq!(admit_draft(&token, &board, true), Err(HarnessError::AgentStopped));
    assert!(token.cancel(&mut board));
    assert_eq!(admit_draft(&token, &board, false), Err(HarnessError::Interrupted));
    let mut registry = QueueRegistry::new();
    assert_eq!(
        admit_dispatch(&registry, 1, false),
        Err(HarnessError::Queue(QueueConflict::NotReserved))
    );
    registry.register(1);
    assert_eq!(admit_dispatch(&registry, 1, false), Ok(()));
    assert_eq!(admit_dispatch(&registry, 1, true), Err(HarnessError::AgentStopped));
}

#[test]
fn released_drafts_are_reclaimed_once() {
    let mut committed = draft(2);
    committed.message = Some(AppendIdentity { event: 20 });
    let mut settled = draft(3);
    settled.settlement = Some(QueueSettlement::NotCommitted);
    let records = vec![draft(1), committed, settled];
    let mut registry = QueueRegistry::new();
    let conflict = |kind: QueueConflict| Err(HarnessError::Queue(kind));
    let reclaim = |registry: &mut QueueRegistry, attempt: u64| {
        reclaim_queued_prompt(&records, &root(), registry, attempt, false)
    };
    assert_eq!(reclaim(&mut registry, 1), conflict(QueueConflict::NotReserved));
    for number in [1, 2, 3, 4] {
        registry.register(number);
    }
    assert_eq!(reclaim(&mut registry, 1), conflict(QueueConflict::Held));
    for number in [1, 2, 3, 4] {
        registry.release(number);
    }
    assert_eq!(reclaim(&mut registry, 2), conflict(QueueConflict::Committed));
    assert_eq!(reclaim(&mut registry, 3), conflict(QueueConflict::Unknown));
    assert_eq!(reclaim(&mut registry, 4), conflict(QueueConflict::Unknown));
    assert_eq!(reclaim(&mut registry, 1), Ok(0));
    assert_eq!(reclaim(&mut registry, 1), conflict(QueueConflict::Held));
    assert_eq!(
        reclaim_queued_prompt(&records, &root(), &mut registry, 1, true),
        Err(HarnessError::AgentStopped)
    );
}

#[test]
fn attempts_are_retired_by_what_the_journal_knows() {
    let mut committed = draft(2);
    committed.message = Some(AppendIdentity { event: 20 });
    let mut settled = draft(3);
    settled.message = Some(AppendIdentity { event: 30 });
    settled.settlement = Some(QueueSettlement::Committed { event: 30 });
    let mut done = draft(4);
    done.acknowledged = true;
    let records = vec![draft(1), committed, settled, done];
    let outcome = |attempt: u64, abandon: bool| retire(&records, &root(), attempt, abandon, false);
    assert_eq!(
        outcome(1, true),
        Retirement::Record {
            settlement: Some(QueueSettlement::NotCommitted)
        }
    );
    assert_eq!(outcome(1, false), Retirement::Refuse(QueueConflict::Uncommitted));
    assert_eq!(outcome(2, true), Retirement::Refuse(QueueConflict::Committed));
    assert_eq!(
        outcome(2, false),
        Retirement::Record {
            settlement: Some(QueueSettlement::Committed { event: 20 })
        }
    );
    assert_eq!(outcome(3, false), Retirement::Record { settlement: None });
    assert_eq!(outcome(4, false), Retirement::Forget);
    assert_eq!(outcome(5, true), Retirement::Forget);
    assert_eq!(outcome(5, false), Retirement::Refuse(QueueConflict::Unknown));
    assert_eq!(
        retire(&records, &root(), 1, true, true),
        Retirement::Refuse(QueueConflict::Held)
    );
    let mut registry = QueueRegistry::new();
    assert!(!retirement_blocked(&registry, 1, false, false));
    registry.register(1);
    assert!(retirement_blocked(&registry, 1, false, false));
    assert!(retirement_blocked(&registry, 1, true, false));
    assert!(!retirement_blocked(&registry, 1, true, true));
    registry.retire(1);
    assert!(!registry.is_issued(1));
    assert_eq!(
        retirement_events(1, Some(QueueSettlement::NotCommitted)),
        vec![
            SessionEvent::QueueSettlement {
                attempt: 1,
                settlement: QueueSettlement::NotCommitted
            },
            SessionEvent::QueueAcknowledged { attempt: 1 },
        ]
    );
    assert_eq!(retirement_events(1, None), vec![SessionEvent::QueueAcknowledged { attempt: 1 }]);
}

#[test]
fn admission_follows_from_the_attempt_on_the_token() {
    assert_eq!(admission_action(false, false), TokenAction::Claim);
    assert_eq!(admission_action(true, false), TokenAction::Cancel);
    assert_eq!(admission_action(false, true), TokenAction::Cancel);
    assert_eq!(conclude_admission(false, false, true), Ok(()));
    assert_eq!(conclude_admission(false, false, false), Err(HarnessError::Interrupted));
    assert_eq!(conclude_admission(true, true, true), Err(HarnessError::Interrupted));
    assert_eq!(conclude_admission(false, true, true), Err(HarnessError::AgentStopped));
    assert_eq!(conclude_draft(true, true), Err(HarnessError::AgentStopped));
    assert_eq!(conclude_draft(false, true), Err(HarnessError::Interrupted));
    assert_eq!(conclude_draft(false, false), Ok(()));
}
