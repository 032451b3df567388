use skyhook_core::driver::{
    completion, reject_pending, AgentCommand, AgentLoop, Effect, LoopEvent, Outcome, Request, RequestFailure, Step,
};
use skyhook_core::observation::AgentActivity;
use skyhook_core::protocol::UserContent;

fn content(text: &str) -> Vec<UserContent> {
    vec![UserContent::Text { text: text.into() }]
}

fn input(text: &str, done: Option<u64>) -> AgentCommand {
    AgentCommand::Input {
        model: None,
        content: content(text),
        done,
    }
}

fn commit(text: &str) -> Request {
    Request::Commit {
        content: content(text),
        notifications: false,
    }
}

fn answered(ticket: u64, answer: &str) -> Effect {
    Effect::Reply {
        ticket,
        outcome: Outcome::Answered(answer.into()),
    }
}

/// Leads an agent from idleness to the end of its turn.
fn turn(agent: &mut AgentLoop, command: AgentCommand, result: Result<&str, RequestFailure>) -> Step {
    agent.step(LoopEvent::Command(command));
    agent.step(LoopEvent::Committed(Ok(())));
    agent.step(LoopEvent::TurnEnded(result.map(String::from)))
}

#[test]
fn a_root_request_is_committed_run_and_answered() {
    let mut agent = AgentLoop::new(false);
    let step = agent.step(LoopEvent::Command(input("work", Some(3))));
    assert_eq!(
        step.effects,
        vec![Effect::BeginTurn, Effect::Activity(AgentActivity::Working)]
    );
    assert_eq!(step.request, commit("work"));
    let step = agent.step(LoopEvent::Committed(Ok(())));
    assert!(step.effects.is_empty());
    assert_eq!(step.request, Request::RunTurn);
    let step = agent.step(LoopEvent::TurnEnded(Ok("done".into())));
    assert_eq!(
        step.effects,
        vec![
            Effect::LockGate,
            Effect::Activity(AgentActivity::Idle),
            answered(3, "done"),
            Effect::UnlockGate
        ]
    );
    assert_eq!(step.request, Request::Receive);
}

#[test]
fn a_request_without_content_runs_at_once() {
    let mut agent = AgentLoop::new(false);
    let step = agent.step(LoopEvent::Command(AgentCommand::Input {
        model: None,
        content: vec![],
        done: None,
    }));
    assert_eq!(step.request, Request::RunTurn);
}

#[test]
fn a_model_that_cannot_be_selected_fails_its_request_alone() {
    let mut agent = AgentLoop::new(false);
    let step = agent.step(LoopEvent::Command(AgentCommand::Input {
        model: Some("large".into()),
        content: content("work"),
        done: Some(9),
    }));
    assert_eq!(step.effects, vec![Effect::BeginTurn]);
    assert_eq!(step.request, Request::Select { model: "large".into() });
    let failure = RequestFailure::Failed("unknown model profile".into());
    let step = agent.step(LoopEvent::Selected(Err(failure.clone())));
    assert_eq!(
        step.effects,
        vec![Effect::Reply {
            ticket: 9,
            outcome: Outcome::Failed(failure)
        }]
    );
    assert_eq!(step.request, Request::Receive);
}

#[test]
fn a_failed_turn_rejects_queued_input_and_keeps_other_commands() {
    let mut agent = AgentLoop::new(false);
    let step = turn(&mut agent, input("work", Some(1)), Err(RequestFailure::Interrupted));
    assert_eq!(step.request, Request::Drain);
    let step = agent.step(LoopEvent::Drained(vec![
        AgentCommand::QueuedInputs(vec![4, 5]),
        AgentCommand::JobsReady,
        AgentCommand::QueuedInputs(vec![6]),
    ]));
    assert_eq!(
        step.effects,
        vec![
            Effect::Reject { inputs: vec![4, 5] },
            Effect::Reject { inputs: vec![6] },
            Effect::LockGate,
            Effect::Activity(AgentActivity::Interrupted),
            Effect::Reply {
                ticket: 1,
                outcome: Outcome::Failed(RequestFailure::Interrupted)
            },
            Effect::UnlockGate,
            Effect::BeginTurn
        ]
    );
    assert_eq!(step.request, Request::Collect);
}

#[test]
fn a_failed_child_stops_with_its_descendants() {
    let mut agent = AgentLoop::new(true);
    let failure = RequestFailure::Failed("provider is gone".into());
    turn(&mut agent, input("work", Some(2)), Err(failure.clone()));
    let step = agent.step(LoopEvent::Drained(vec![]));
    assert_eq!(
        step.effects,
        vec![
            Effect::LockGate,
            Effect::Activity(AgentActivity::Failed("provider is gone".into())),
            Effect::InterruptTree,
            Effect::Reply {
                ticket: 2,
                outcome: Outcome::Failed(failure)
            },
            Effect::AppendInterrupted,
            Effect::UnlockGate,
            Effect::ClearResume,
            Effect::Unregister
        ]
    );
    assert_eq!(step.request, Request::Stop);
}

#[test]
fn a_child_completes_once_no_job_and_no_notification_is_left() {
    let mut agent = AgentLoop::new(true);
    let step = turn(&mut agent, input("work", Some(7)), Ok("premature"));
    assert_eq!(step.effects, vec![Effect::LockGate]);
    assert_eq!(step.request, Request::DrainAndCheck);
    agent.step(LoopEvent::DrainedAndChecked {
        commands: vec![],
        pending: false,
    });
    let step = agent.step(LoopEvent::Running(true));
    assert_eq!(step.effects, vec![Effect::Activity(AgentActivity::WaitingChildren)]);
    // A job still runs: the child keeps its answer and waits.
    let step = agent.step(LoopEvent::Running(true));
    assert_eq!(step.effects, vec![Effect::UnlockGate]);
    assert_eq!(step.request, Request::Receive);

    // The job ends without anything to report.
    agent.step(LoopEvent::Command(AgentCommand::JobsReady));
    let step = agent.step(LoopEvent::Collected(Some(vec![])));
    assert_eq!(step.request, Request::CheckRunning);
    let step = agent.step(LoopEvent::Running(false));
    assert_eq!(step.request, Request::DrainAndCheck);
    let step = agent.step(LoopEvent::DrainedAndChecked {
        commands: vec![],
        pending: false,
    });
    assert_eq!(
        step.effects,
        vec![
            Effect::CloseGate,
            answered(7, "premature"),
            Effect::AppendCompleted,
            Effect::UnlockGate
        ]
    );
    assert_eq!(step.request, Request::Receive);
}

#[test]
fn a_child_with_new_input_goes_on_before_it_answers() {
    let mut agent = AgentLoop::new(true);
    turn(&mut agent, input("work", Some(7)), Ok("premature"));
    let step = agent.step(LoopEvent::DrainedAndChecked {
        commands: vec![AgentCommand::QueuedInputs(vec![11])],
        pending: false,
    });
    assert_eq!(step.effects, vec![Effect::UnlockGate, Effect::BeginTurn]);
    assert_eq!(step.request, Request::Consume { inputs: vec![11] });
    agent.step(LoopEvent::Consumed(true));
    agent.step(LoopEvent::TurnEnded(Ok("updated".into())));
    agent.step(LoopEvent::DrainedAndChecked {
        commands: vec![],
        pending: false,
    });
    let step = agent.step(LoopEvent::Running(false));
    assert_eq!(step.effects, vec![Effect::Activity(AgentActivity::Idle)]);
    let step = agent.step(LoopEvent::Running(false));
    assert_eq!(step.request, Request::CheckPending);
    let step = agent.step(LoopEvent::Pending(false));
    assert_eq!(
        step.effects,
        vec![
            Effect::CloseGate,
            answered(7, "updated"),
            Effect::AppendCompleted,
            Effect::UnlockGate
        ]
    );
}

#[test]
fn a_late_notification_postpones_completion() {
    let mut agent = AgentLoop::new(true);
    turn(&mut agent, input("work", Some(7)), Ok("answer"));
    agent.step(LoopEvent::DrainedAndChecked {
        commands: vec![],
        pending: false,
    });
    agent.step(LoopEvent::Running(false));
    agent.step(LoopEvent::Running(false));
    let step = agent.step(LoopEvent::Pending(true));
    assert_eq!(step.effects, vec![Effect::UnlockGate]);
    assert_eq!(step.request, Request::Receive);
}

#[test]
fn notifications_are_committed_with_their_delivery() {
    let mut agent = AgentLoop::new(false);
    agent.step(LoopEvent::Command(AgentCommand::JobsReady));
    let step = agent.step(LoopEvent::Collected(Some(content("job 1 finished"))));
    assert_eq!(
        step.request,
        Request::Commit {
            content: content("job 1 finished"),
            notifications: true
        }
    );
    let mut agent = AgentLoop::new(false);
    agent.step(LoopEvent::Command(AgentCommand::JobsReady));
    assert_eq!(agent.step(LoopEvent::Collected(None)).request, Request::Receive);
}

#[test]
fn a_commit_that_fails_is_answered_and_stops_a_child() {
    let failure = RequestFailure::Failed("journal is full".into());
    let reply = Effect::Reply {
        ticket: 1,
        outcome: Outcome::Failed(failure.clone()),
    };
    let mut root = AgentLoop::new(false);
    root.step(LoopEvent::Command(input("work", Some(1))));
    let step = root.step(LoopEvent::Committed(Err(failure.clone())));
    assert_eq!(step.effects, vec![reply.clone()]);
    assert_eq!(step.request, Request::Receive);

    let mut child = AgentLoop::new(true);
    child.step(LoopEvent::Command(input("work", Some(1))));
    let step = child.step(LoopEvent::Committed(Err(failure)));
    assert_eq!(
        step.effects,
        vec![reply, Effect::InterruptTree, Effect::ClearResume, Effect::Unregister]
    );
    assert_eq!(step.request, Request::Stop);
}

#[test]
fn shutdown_and_cancellation_end_the_loop() {
    let mut root = AgentLoop::new(false);
    let step = root.step(LoopEvent::Command(AgentCommand::Shutdown));
    assert_eq!(
        step.effects,
        vec![Effect::BeginTurn, Effect::AppendInterrupted, Effect::Unregister]
    );
    assert_eq!(step.request, Request::Stop);

    let mut root = AgentLoop::new(false);
    assert_eq!(root.step(LoopEvent::Closed).effects, vec![Effect::Unregister]);

    // The owner goes away while the child waits for its jobs.
    let mut child = AgentLoop::new(true);
    turn(&mut child, input("work", Some(5)), Ok("answer"));
    child.step(LoopEvent::DrainedAndChecked {
        commands: vec![],
        pending: true,
    });
    let step = child.step(LoopEvent::OwnerCancelled);
    assert_eq!(
        step.effects,
        vec![
            Effect::Reply {
                ticket: 5,
                outcome: Outcome::OwnerCancelled
            },
            Effect::AppendInterrupted,
            Effect::ClearResume,
            Effect::Unregister
        ]
    );
}

#[test]
fn a_new_owner_request_replaces_the_one_that_waits() {
    let mut child = AgentLoop::new(true);
    turn(&mut child, input("work", Some(5)), Ok("answer"));
    child.step(LoopEvent::DrainedAndChecked {
        commands: vec![],
        pending: true,
    });
    let step = child.step(LoopEvent::Command(input("more", Some(6))));
    assert_eq!(
        step.effects,
        vec![
            Effect::BeginTurn,
            Effect::Abandon { ticket: 5 },
            Effect::Activity(AgentActivity::Working)
        ]
    );
}

#[test]
fn only_queued_input_is_rejected() {
    let mut effects = vec![Effect::LockGate];
    let left = reject_pending(
        vec![
            AgentCommand::JobsReady,
            AgentCommand::QueuedInputs(vec![1]),
            AgentCommand::Shutdown,
        ],
        &mut effects,
    );
    assert_eq!(left, vec![AgentCommand::JobsReady, AgentCommand::Shutdown]);
    assert_eq!(effects, vec![Effect::LockGate, Effect::Reject { inputs: vec![1] }]);
}

#[test]
fn a_child_whose_owner_is_gone_takes_no_command() {
    let (_, step) = AgentLoop::begin(true, false);
    assert_eq!(step.effects, vec![Effect::Unregister]);
    assert_eq!(step.request, Request::Stop);
    for (child, owner_found) in [(true, true), (false, false)] {
        let (mut agent, step) = AgentLoop::begin(child, owner_found);
        assert!(step.effects.is_empty());
        assert_eq!(step.request, Request::Receive);
        let step = agent.step(LoopEvent::Command(input("work", None)));
        assert_eq!(step.request, commit("work"));
    }
}

#[test]
fn outcomes_are_completions() {
    assert_eq!(completion(Outcome::Answered("done".into())), Ok("done".into()));
    assert_eq!(
        completion(Outcome::Failed(RequestFailure::Interrupted)),
        Err(RequestFailure::Interrupted)
    );
    assert_eq!(
        completion(Outcome::OwnerCancelled),
        Err(RequestFailure::Failed("child agent cancelled".into()))
    );
}
