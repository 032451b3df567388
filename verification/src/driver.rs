//! The command loop of an agent: which work it asks for next, and when it answers,
//! completes, fails or stops.

use vstd::prelude::*;
use crate::observation::AgentActivity;
use crate::protocol::UserContent;

verus! {

/// Why a request to an agent ended without an answer. An interrupt stays typed, so
/// that an owner recognises it without comparing texts.
#[derive(Clone, Debug, PartialEq, Eq)]
pub enum RequestFailure {
    Interrupted,
    Failed(String),
}

/// How a request to an agent ends.
#[derive(Clone, Debug, PartialEq, Eq)]
pub enum Outcome {
    Answered(String),
    Failed(RequestFailure),
    /// The job that owns a child was cancelled while the child was idle.
    OwnerCancelled,
}

/// How a request ends, as its sender sees it.
pub fn completion(outcome: Outcome) -> (result: Result<String, RequestFailure>)
    ensures
        match outcome {
            Outcome::Answered(answer) => result == Ok::<String, RequestFailure>(answer),
            Outcome::Failed(failure) => result == Err::<String, RequestFailure>(failure),
            Outcome::OwnerCancelled => result matches Err(RequestFailure::Failed(text)) && text@
                == "child agent cancelled"@,
        },
{
    match outcome {
        Outcome::Answered(answer) => Ok(answer),
        Outcome::Failed(failure) => Err(failure),
        Outcome::OwnerCancelled => Err(RequestFailure::Failed("child agent cancelled".to_owned())),
    }
}

/// A command to an agent. Whoever waits for an answer is known by a ticket, and a
/// queued input by a number.
#[derive(Clone, Debug, PartialEq, Eq)]
pub enum AgentCommand {
    QueuedInputs(Vec<u64>),
    Input { model: Option<String>, content: Vec<UserContent>, done: Option<u64> },
    JobsReady,
    Shutdown,
}

/// Something that the loop wants done at once, in order.
#[derive(Clone, Debug, PartialEq, Eq)]
pub enum Effect {
    /// Begin a turn that can be cancelled, and flush events that await delivery.
    BeginTurn,
    /// Answer whoever holds a ticket.
    Reply { ticket: u64, outcome: Outcome },
    /// Nobody answers the ticket any more.
    Abandon { ticket: u64 },
    /// Reject queued inputs that have not been claimed.
    Reject { inputs: Vec<u64> },
    Activity(AgentActivity),
    AppendCompleted,
    AppendInterrupted,
    /// Interrupt the agent and its descendants, and cancel their jobs.
    InterruptTree,
    /// Serialize with those who forward updates to the agent.
    LockGate,
    /// Tell those who forward updates that the agent has completed.
    CloseGate,
    UnlockGate,
    /// Forget how the owning job resumes the agent.
    ClearResume,
    /// Remove the agent from those that are live.
    Unregister,
}

/// What the loop waits for.
#[derive(Clone, Debug, PartialEq, Eq)]
pub enum Request {
    /// A command, the end of the mailbox, or the cancellation of the owning job.
    Receive,
    /// Consume a batch of queued inputs.
    Consume { inputs: Vec<u64> },
    /// Collect the notifications that are pending.
    Collect,
    /// Select a model.
    Select { model: String },
    /// Commit user content. Notifications are committed together with their delivery.
    Commit { content: Vec<UserContent>, notifications: bool },
    /// Run a turn until it ends or the owning job is cancelled.
    RunTurn,
    /// Take everything out of the mailbox.
    Drain,
    /// With forwarding held back, take everything out of the mailbox and look for pending
    /// notifications.
    DrainAndCheck,
    /// Look for running jobs.
    CheckRunning,
    /// Look for pending notifications.
    CheckPending,
    Stop,
}

/// What the loop has waited for.
#[derive(Debug)]
pub enum LoopEvent {
    OwnerCancelled,
    Closed,
    Command(AgentCommand),
    Consumed(bool),
    /// Pending notifications, or nothing where they could not be read.
    Collected(Option<Vec<UserContent>>),
    Selected(Result<(), RequestFailure>),
    Committed(Result<(), RequestFailure>),
    TurnEnded(Result<String, RequestFailure>),
    Drained(Vec<AgentCommand>),
    DrainedAndChecked { commands: Vec<AgentCommand>, pending: bool },
    Running(bool),
    Pending(bool),
}

/// Where the loop stands.
#[derive(Debug)]
pub enum Phase {
    Receiving,
    Consuming,
    Collecting,
    Selecting { content: Vec<UserContent>, done: Option<u64> },
    Committing { done: Option<u64> },
    Turning { done: Option<u64> },
    Rejecting { done: Option<u64>, failure: RequestFailure },
    /// A child has an answer; see whether new input has come in.
    Settling { answer: String },
    /// See which activity to show.
    Showing { answer: String },
    /// See whether jobs still run.
    Finishing { answer: String },
    /// See whether a job has published something just before it finished.
    Completing { answer: String },
    /// A child that waited for its jobs sees whether they are done.
    Waiting,
    /// A child whose jobs are done sees whether new input has come in.
    Concluding,
    Stopped,
}

/// The command loop of one agent.
#[derive(Debug)]
pub struct AgentLoop {
    child: bool,
    child_done: Option<u64>,
    child_answer: Option<String>,
    deferred: Vec<AgentCommand>,
    phase: Phase,
}

/// The mathematical content of an `AgentLoop`.
#[verifier::ext_equal]
pub struct LoopView {
    /// Whether another agent owns this one.
    pub child: bool,
    /// Who waits for a child's answer.
    pub child_done: Option<u64>,
    /// The answer of a child whose jobs still run.
    pub child_answer: Option<String>,
    /// Commands that came in while others were worked on.
    pub deferred: Seq<AgentCommand>,
    pub phase: Phase,
}

impl View for AgentLoop {
    type V = LoopView;

    closed spec fn view(&self) -> LoopView {
        LoopView {
            child: self.child,
            child_done: self.child_done,
            child_answer: self.child_answer,
            deferred: self.deferred@,
            phase: self.phase,
        }
    }
}

/// What a step leads to: the next state, what is done at once, and what is waited for.
#[verifier::ext_equal]
pub struct Transition {
    pub state: LoopView,
    pub effects: Seq<Effect>,
    pub request: Request,
}

/// What is done at once, and what is waited for.
#[derive(Debug)]
pub struct Step {
    pub effects: Vec<Effect>,
    pub request: Request,
}

impl Transition {
    /// The transition with effects that come first.
    pub open spec fn after(self, effects: Seq<Effect>) -> Transition {
        Transition { effects: effects + self.effects, ..self }
    }
}

/// A state in another phase, which waits for something.
pub open spec fn wait(state: LoopView, phase: Phase, request: Request) -> Transition {
    Transition { state: LoopView { phase, ..state }, effects: seq![], request }
}

/// The end of the loop.
pub open spec fn stop(state: LoopView) -> Transition {
    Transition {
        state: LoopView { phase: Phase::Stopped, ..state },
        effects: if state.child {
            seq![Effect::ClearResume, Effect::Unregister]
        } else {
            seq![Effect::Unregister]
        },
        request: Request::Stop,
    }
}

/// The answer to a ticket, where there is one.
pub open spec fn reply(ticket: Option<u64>, outcome: Outcome) -> Seq<Effect> {
    match ticket {
        Some(ticket) => seq![Effect::Reply { ticket, outcome }],
        None => seq![],
    }
}

/// The ticket of a request that another one replaces.
pub open spec fn abandon(ticket: Option<u64>) -> Seq<Effect> {
    match ticket {
        Some(ticket) => seq![Effect::Abandon { ticket }],
        None => seq![],
    }
}

/// Works on content: a child answers its owner once all of its work is done, another
/// agent answers when the turn ends.
pub open spec fn work(
    state: LoopView,
    content: Vec<UserContent>,
    done: Option<u64>,
    notifications: bool,
) -> Transition {
    let held = if state.child {
        None::<u64>
    } else {
        done
    };
    let next = if state.child && done is Some {
        LoopView { child_done: done, ..state }
    } else {
        state
    };
    let replaced = if state.child && done is Some {
        abandon(state.child_done)
    } else {
        seq![]
    };
    (if content@.len() > 0 {
        wait(next, Phase::Committing { done: held }, Request::Commit { content, notifications })
    } else {
        wait(next, Phase::Turning { done: held }, Request::RunTurn)
    }).after(replaced.push(Effect::Activity(AgentActivity::Working)))
}

/// Takes up a command.
pub open spec fn dispatch(state: LoopView, command: AgentCommand) -> Transition {
    (match command {
        AgentCommand::QueuedInputs(inputs) => wait(state, Phase::Consuming, Request::Consume { inputs }),
        AgentCommand::Shutdown => stop(state).after(seq![Effect::AppendInterrupted]),
        AgentCommand::Input { model, content, done } => match model {
            Some(model) => wait(state, Phase::Selecting { content, done }, Request::Select { model }),
            None => work(state, content, done, false),
        },
        AgentCommand::JobsReady => wait(state, Phase::Collecting, Request::Collect),
    }).after(seq![Effect::BeginTurn])
}

/// Takes up the next command: a deferred one, or one that is yet to come.
pub open spec fn proceed(state: LoopView) -> Transition {
    if state.deferred.len() > 0 {
        dispatch(LoopView { deferred: state.deferred.skip(1), ..state }, state.deferred[0])
    } else {
        wait(state, Phase::Receiving, Request::Receive)
    }
}

/// Whether queued input has been deferred.
pub open spec fn has_queued(commands: Seq<AgentCommand>) -> bool {
    exists|i: int| 0 <= i < commands.len() && (#[trigger] commands[i]) is QueuedInputs
}

/// The commands that are no queued input.
pub open spec fn unqueued(commands: Seq<AgentCommand>) -> Seq<AgentCommand>
    decreases commands.len(),
{
    if commands.len() == 0 {
        seq![]
    } else if commands.last() is QueuedInputs {
        unqueued(commands.drop_last())
    } else {
        unqueued(commands.drop_last()).push(commands.last())
    }
}

/// The rejections of queued input, one for each batch.
pub open spec fn rejections(commands: Seq<AgentCommand>) -> Seq<Effect>
    decreases commands.len(),
{
    if commands.len() == 0 {
        seq![]
    } else {
        let earlier = rejections(commands.drop_last());
        match commands.last() {
            AgentCommand::QueuedInputs(inputs) => earlier.push(Effect::Reject { inputs }),
            _ => earlier,
        }
    }
}

/// The activity that a failure leads to.
pub open spec fn failed_activity(failure: RequestFailure) -> AgentActivity {
    match failure {
        RequestFailure::Interrupted => AgentActivity::Interrupted,
        RequestFailure::Failed(text) => AgentActivity::Failed(text),
    }
}

/// What follows a failed turn. Queued input that has not been claimed stays with
/// those who sent it; it starts no turn of its own. A child that fails ends.
pub open spec fn conclude_failure(
    state: LoopView,
    commands: Seq<AgentCommand>,
    done: Option<u64>,
    failure: RequestFailure,
) -> Transition {
    let all = state.deferred + commands;
    let next = LoopView { deferred: unqueued(all), ..state };
    let shown = rejections(all).push(Effect::LockGate).push(
        Effect::Activity(failed_activity(failure)),
    ) + reply(done, Outcome::Failed(failure));
    if state.child {
        stop(LoopView { child_done: None, ..next }).after(
            shown.push(Effect::InterruptTree) + reply(state.child_done, Outcome::Failed(failure)).push(
                Effect::AppendInterrupted,
            ).push(Effect::UnlockGate),
        )
    } else {
        proceed(next).after(shown.push(Effect::UnlockGate))
    }
}

/// Whether an event is what a phase waits for.
pub open spec fn fits(phase: Phase, event: LoopEvent) -> bool {
    match phase {
        Phase::Receiving => event is OwnerCancelled || event is Closed || event is Command,
        Phase::Consuming => event is Consumed,
        Phase::Collecting => event is Collected,
        Phase::Selecting { .. } => event is Selected,
        Phase::Committing { .. } => event is Committed,
        Phase::Turning { .. } => event is TurnEnded,
        Phase::Rejecting { .. } => event is Drained,
        Phase::Settling { .. } => event is DrainedAndChecked,
        Phase::Showing { .. } => event is Running,
        Phase::Finishing { .. } => event is Running,
        Phase::Completing { .. } => event is Pending,
        Phase::Waiting => event is Running,
        Phase::Concluding => event is DrainedAndChecked,
        Phase::Stopped => false,
    }
}

/// What an event leads to.
pub open spec fn transition(state: LoopView, event: LoopEvent) -> Transition {
    match (state.phase, event) {
        (Phase::Receiving, LoopEvent::OwnerCancelled) => stop(LoopView { child_done: None, ..state }).after(
            reply(state.child_done, Outcome::OwnerCancelled).push(Effect::AppendInterrupted),
        ),
        (Phase::Receiving, LoopEvent::Closed) => stop(state),
        (Phase::Receiving, LoopEvent::Command(command)) => dispatch(state, command),
        (Phase::Consuming, LoopEvent::Consumed(consumed)) => if consumed {
            wait(state, Phase::Turning { done: None }, Request::RunTurn).after(
                seq![Effect::Activity(AgentActivity::Working)],
            )
        } else {
            proceed(state)
        },
        (Phase::Collecting, LoopEvent::Collected(content)) => match content {
            Some(content) => if content@.len() > 0 {
                work(state, content, None, true)
            } else if state.child && state.child_answer is Some {
                wait(state, Phase::Waiting, Request::CheckRunning)
            } else {
                proceed(state)
            },
            None => proceed(state),
        },
        (Phase::Selecting { content, done }, LoopEvent::Selected(result)) => match result {
            Ok(()) => work(state, content, done, false),
            Err(failure) => proceed(state).after(reply(done, Outcome::Failed(failure))),
        },
        (Phase::Committing { done }, LoopEvent::Committed(result)) => match result {
            Ok(()) => wait(state, Phase::Turning { done }, Request::RunTurn),
            Err(failure) => {
                let ticket = if done is Some {
                    done
                } else {
                    state.child_done
                };
                let next = if done is Some {
                    state
                } else {
                    LoopView { child_done: None, ..state }
                };
                let answer = reply(ticket, Outcome::Failed(failure));
                if state.child {
                    stop(next).after(answer.push(Effect::InterruptTree))
                } else {
                    proceed(next).after(answer)
                }
            },
        },
        (Phase::Turning { done }, LoopEvent::TurnEnded(result)) => match result {
            Err(failure) => wait(state, Phase::Rejecting { done, failure }, Request::Drain),
            Ok(answer) => if state.child {
                wait(state, Phase::Settling { answer }, Request::DrainAndCheck).after(
                    seq![Effect::LockGate],
                )
            } else {
                proceed(state).after(
                    seq![Effect::LockGate, Effect::Activity(AgentActivity::Idle)] + reply(
                        done,
                        Outcome::Answered(answer),
                    ).push(Effect::UnlockGate),
                )
            },
        },
        (Phase::Rejecting { done, failure }, LoopEvent::Drained(commands)) => conclude_failure(
            state,
            commands@,
            done,
            failure,
        ),
        (Phase::Settling { answer }, LoopEvent::DrainedAndChecked { commands, pending }) => {
            let next = LoopView { deferred: state.deferred + commands@, ..state };
            if has_queued(next.deferred) || pending {
                proceed(next).after(seq![Effect::UnlockGate])
            } else {
                wait(next, Phase::Showing { answer }, Request::CheckRunning)
            }
        },
        (Phase::Showing { answer }, LoopEvent::Running(running)) => wait(
            LoopView { child_answer: Some(answer), ..state },
            Phase::Finishing { answer },
            Request::CheckRunning,
        ).after(
            seq![Effect::Activity(
                if running {
                    AgentActivity::WaitingChildren
                } else {
                    AgentActivity::Idle
                },
            )],
        ),
        (Phase::Finishing { answer }, LoopEvent::Running(running)) => if running {
            proceed(state).after(seq![Effect::UnlockGate])
        } else {
            wait(state, Phase::Completing { answer }, Request::CheckPending)
        },
        (Phase::Completing { answer }, LoopEvent::Pending(pending)) => if pending {
            proceed(state).after(seq![Effect::UnlockGate])
        } else {
            proceed(LoopView { child_done: None, child_answer: None, ..state }).after(
                seq![Effect::CloseGate] + reply(state.child_done, Outcome::Answered(answer)).push(
                    Effect::AppendCompleted,
                ).push(Effect::UnlockGate),
            )
        },
        (Phase::Waiting, LoopEvent::Running(running)) => if running {
            proceed(state)
        } else {
            wait(state, Phase::Concluding, Request::DrainAndCheck).after(seq![Effect::LockGate])
        },
        (Phase::Concluding, LoopEvent::DrainedAndChecked { commands, pending }) => {
            let next = LoopView { deferred: state.deferred + commands@, ..state };
            if has_queued(next.deferred) || pending {
                proceed(next).after(seq![Effect::UnlockGate])
            } else {
                match (state.child_done, state.child_answer) {
                    (Some(ticket), Some(answer)) => proceed(
                        LoopView { child_done: None, child_answer: None, ..next },
                    ).after(
                        seq![
                            Effect::CloseGate,
                            Effect::Reply { ticket, outcome: Outcome::Answered(answer) },
                            Effect::AppendCompleted,
                            Effect::UnlockGate,
                        ],
                    ),
                    _ => proceed(next).after(
                        seq![Effect::CloseGate, Effect::AppendCompleted, Effect::UnlockGate],
                    ),
                }
            }
        },
        _ => wait(state, state.phase, Request::Stop),
    }
}

/// Adds the answer to a ticket, where there is one.
fn push_reply(effects: &mut Vec<Effect>, ticket: Option<u64>, outcome: Outcome)
    ensures
        final(effects)@ == old(effects)@ + reply(ticket, outcome),
{
    let ghost before = effects@;
    if let Some(ticket) = ticket {
        effects.push(Effect::Reply { ticket, outcome });
    }
    assert(effects@ =~= before + reply(ticket, outcome));
}

/// Copies a failure.
fn copy_failure(failure: &RequestFailure) -> (copy: RequestFailure)
    ensures
        copy == *failure,
{
    match failure {
        RequestFailure::Interrupted => RequestFailure::Interrupted,
        RequestFailure::Failed(text) => RequestFailure::Failed(text.clone()),
    }
}

/// Shows a failure as an activity.
fn activity_of(failure: &RequestFailure) -> (activity: AgentActivity)
    ensures
        activity == failed_activity(*failure),
{
    match failure {
        RequestFailure::Interrupted => AgentActivity::Interrupted,
        RequestFailure::Failed(text) => AgentActivity::Failed(text.clone()),
    }
}

/// Tests whether queued input has been deferred.
fn any_queued(commands: &Vec<AgentCommand>) -> (answer: bool)
    ensures
        answer == has_queued(commands@),
{
    let mut i: usize = 0;
    while i < commands.len()
        invariant
            i <= commands.len(),
            forall|k: int| 0 <= k < i ==> !((#[trigger] commands@[k]) is QueuedInputs),
        decreases commands.len() - i,
    {
        if let AgentCommand::QueuedInputs(_) = &commands[i] {
            assert(commands@[i as int] is QueuedInputs);
            return true;
        }
        i += 1;
    }
    false
}

/// Rejects queued input and keeps every other command.
pub fn reject_pending(commands: Vec<AgentCommand>, effects: &mut Vec<Effect>) -> (left: Vec<AgentCommand>)
    ensures
        left@ == unqueued(commands@),
        final(effects)@ == old(effects)@ + rejections(commands@),
{
    let ghost before = effects@;
    let mut left: Vec<AgentCommand> = Vec::new();
    assert(effects@ =~= before + rejections(commands@.take(0)));
    for command in it: commands
        invariant
            it.seq() == commands@,
            left@ == unqueued(commands@.take(it.index() as int)),
            effects@ == before + rejections(commands@.take(it.index() as int)),
    {
        proof {
            let i = it.index() as int;
            assert(commands@.take(i + 1).drop_last() =~= commands@.take(i));
            assert(commands@.take(i + 1).last() == command);
        }
        match command {
            AgentCommand::QueuedInputs(inputs) => {
                effects.push(Effect::Reject { inputs });
                assert(effects@ =~= before + rejections(commands@.take(it.index() + 1)));
            },
            other => {
                left.push(other);
            },
        }
    }
    assert(commands@.take(commands@.len() as int) =~= commands@);
    left
}

impl AgentLoop {
    /// The loop of an agent that has just been registered.
    pub fn new(child: bool) -> (fresh: AgentLoop)
        ensures
            fresh@ == (LoopView {
                child,
                child_done: None,
                child_answer: None,
                deferred: seq![],
                phase: Phase::Receiving,
            }),
    {
        let fresh = AgentLoop {
            child,
            child_done: None,
            child_answer: None,
            deferred: Vec::new(),
            phase: Phase::Receiving,
        };
        assert(fresh@.deferred =~= seq![]);
        fresh
    }

    /// Begins the loop of a registered agent. `owner_found` tells whether the job that owns
    /// a child is there. A child without it is removed again before it takes any command.
    pub fn begin(child: bool, owner_found: bool) -> (begun: (AgentLoop, Step))
        ensures
            begun.0@ == (LoopView {
                child,
                child_done: None,
                child_answer: None,
                deferred: seq![],
                phase: if child && !owner_found {
                    Phase::Stopped
                } else {
                    Phase::Receiving
                },
            }),
            begun.1.effects@ == if child && !owner_found {
                seq![Effect::Unregister]
            } else {
                seq![]
            },
            begun.1.request == if child && !owner_found {
                Request::Stop
            } else {
                Request::Receive
            },
    {
        let mut agent = AgentLoop::new(child);
        let mut effects: Vec<Effect> = Vec::new();
        if child && !owner_found {
            agent.phase = Phase::Stopped;
            effects.push(Effect::Unregister);
            assert(effects@ =~= seq![Effect::Unregister]);
            return (agent, Step { effects, request: Request::Stop });
        }
        assert(effects@ =~= seq![]);
        (agent, Step { effects, request: Request::Receive })
    }

    /// Ends the loop.
    fn stop(&mut self, effects: &mut Vec<Effect>) -> (request: Request)
        ensures
            ({
                let next = stop(old(self)@).after(old(effects)@);
                &&& final(self)@ == next.state
                &&& final(effects)@ == next.effects
                &&& request == next.request
            }),
    {
        let ghost before = effects@;
        self.phase = Phase::Stopped;
        if self.child {
            effects.push(Effect::ClearResume);
        }
        effects.push(Effect::Unregister);
        assert(effects@ =~= before + stop(old(self)@).effects);
        Request::Stop
    }

    /// Works on content.
    fn work(
        &mut self,
        content: Vec<UserContent>,
        done: Option<u64>,
        notifications: bool,
        effects: &mut Vec<Effect>,
    ) -> (request: Request)
        ensures
            ({
                let next = work(old(self)@, content, done, notifications).after(old(effects)@);
                &&& final(self)@ == next.state
                &&& final(effects)@ == next.effects
                &&& request == next.request
            }),
    {
        let ghost before = effects@;
        let mut held: Option<u64> = done;
        if self.child {
            if done.is_some() {
                if let Some(ticket) = self.child_done {
                    effects.push(Effect::Abandon { ticket });
                }
                self.child_done = done;
            }
            held = None;
        }
        effects.push(Effect::Activity(AgentActivity::Working));
        assert(effects@ =~= before + work(old(self)@, content, done, notifications).effects);
        if content.len() > 0 {
            self.phase = Phase::Committing { done: held };
            Request::Commit { content, notifications }
        } else {
            self.phase = Phase::Turning { done: held };
            Request::RunTurn
        }
    }

    /// Takes up a command.
    fn dispatch(&mut self, command: AgentCommand, effects: &mut Vec<Effect>) -> (request: Request)
        ensures
            ({
                let next = dispatch(old(self)@, command).after(old(effects)@);
                &&& final(self)@ == next.state
                &&& final(effects)@ == next.effects
                &&& request == next.request
            }),
    {
        let ghost before = effects@;
        effects.push(Effect::BeginTurn);
        match command {
            AgentCommand::QueuedInputs(inputs) => {
                self.phase = Phase::Consuming;
                assert(effects@ =~= before + dispatch(old(self)@, command).effects);
                Request::Consume { inputs }
            },
            AgentCommand::Shutdown => {
                effects.push(Effect::AppendInterrupted);
                let request = self.stop(effects);
                assert(effects@ =~= before + dispatch(old(self)@, command).effects);
                request
            },
            AgentCommand::Input { model, content, done } => match model {
                Some(model) => {
                    self.phase = Phase::Selecting { content, done };
                    assert(effects@ =~= before + dispatch(old(self)@, command).effects);
                    Request::Select { model }
                },
                None => {
                    let request = self.work(content, done, false, effects);
                    assert(effects@ =~= before + dispatch(old(self)@, command).effects);
                    request
                },
            },
            AgentCommand::JobsReady => {
                self.phase = Phase::Collecting;
                assert(effects@ =~= before + dispatch(old(self)@, command).effects);
                Request::Collect
            },
        }
    }

    /// Takes up the next command.
    fn proceed(&mut self, effects: &mut Vec<Effect>) -> (request: Request)
        ensures
            ({
                let next = proceed(old(self)@).after(old(effects)@);
                &&& final(self)@ == next.state
                &&& final(effects)@ == next.effects
                &&& request == next.request
            }),
    {
        let ghost before = self@;
        if self.deferred.len() > 0 {
            let command = self.deferred.remove(0);
            proof {
                assert(self@.deferred =~= before.deferred.skip(1));
            }
            self.dispatch(command, effects)
        } else {
            self.phase = Phase::Receiving;
            assert(effects@ =~= effects@ + Seq::<Effect>::empty());
            Request::Receive
        }
    }

    /// Takes what the loop has waited for. Gives what is done at once, in order, and
    /// what the loop waits for then.
    #[verifier::rlimit(60)]
    pub fn step(&mut self, event: LoopEvent) -> (step: Step)
        requires
            fits(old(self)@.phase, event),
        ensures
            ({
                let next = transition(old(self)@, event);
                &&& final(self)@ == next.state
                &&& step.effects@ == next.effects
                &&& step.request == next.request
            }),
    {
        let ghost before = self@;
        let ghost goal = transition(before, event);
        let mut effects: Vec<Effect> = Vec::new();
        let mut phase = Phase::Stopped;
        std::mem::swap(&mut phase, &mut self.phase);
        let request = match (phase, event) {
            (Phase::Receiving, LoopEvent::OwnerCancelled) => {
                push_reply(&mut effects, self.child_done, Outcome::OwnerCancelled);
                self.child_done = None;
                effects.push(Effect::AppendInterrupted);
                self.stop(&mut effects)
            },
            (Phase::Receiving, LoopEvent::Closed) => self.stop(&mut effects),
            (Phase::Receiving, LoopEvent::Command(command)) => self.dispatch(command, &mut effects),
            (Phase::Consuming, LoopEvent::Consumed(consumed)) => {
                if consumed {
                    effects.push(Effect::Activity(AgentActivity::Working));
                    self.phase = Phase::Turning { done: None };
                    Request::RunTurn
                } else {
                    self.proceed(&mut effects)
                }
            },
            (Phase::Collecting, LoopEvent::Collected(content)) => match content {
                Some(content) => {
                    if content.len() > 0 {
                        self.work(content, None, true, &mut effects)
                    } else if self.child && self.child_answer.is_some() {
                        self.phase = Phase::Waiting;
                        Request::CheckRunning
                    } else {
                        self.proceed(&mut effects)
                    }
                },
                None => self.proceed(&mut effects),
            },
            (Phase::Selecting { content, done }, LoopEvent::Selected(result)) => match result {
                Ok(()) => self.work(content, done, false, &mut effects),
                Err(failure) => {
                    push_reply(&mut effects, done, Outcome::Failed(failure));
                    self.proceed(&mut effects)
                },
            },
            (Phase::Committing { done }, LoopEvent::Committed(result)) => match result {
                Ok(()) => {
                    self.phase = Phase::Turning { done };
                    Request::RunTurn
                },
                Err(failure) => {
                    let mut ticket: Option<u64> = done;
                    if done.is_none() {
                        ticket = self.child_done;
                        self.child_done = None;
                    }
                    push_reply(&mut effects, ticket, Outcome::Failed(failure));
                    if self.child {
                        effects.push(Effect::InterruptTree);
                        self.stop(&mut effects)
                    } else {
                        self.proceed(&mut effects)
                    }
                },
            },
            (Phase::Turning { done }, LoopEvent::TurnEnded(result)) => match result {
                Err(failure) => {
                    self.phase = Phase::Rejecting { done, failure };
                    Request::Drain
                },
                Ok(answer) => {
                    effects.push(Effect::LockGate);
                    if self.child {
                        self.phase = Phase::Settling { answer };
                        Request::DrainAndCheck
                    } else {
                        effects.push(Effect::Activity(AgentActivity::Idle));
                        push_reply(&mut effects, done, Outcome::Answered(answer));
                        effects.push(Effect::UnlockGate);
                        self.proceed(&mut effects)
                    }
                },
            },
            (Phase::Rejecting { done, failure }, LoopEvent::Drained(commands)) => {
                let mut commands = commands;
                let mut all: Vec<AgentCommand> = Vec::new();
                std::mem::swap(&mut all, &mut self.deferred);
                all.append(&mut commands);
                self.deferred = reject_pending(all, &mut effects);
                effects.push(Effect::LockGate);
                effects.push(Effect::Activity(activity_of(&failure)));
                push_reply(&mut effects, done, Outcome::Failed(copy_failure(&failure)));
                if self.child {
                    effects.push(Effect::InterruptTree);
                    push_reply(&mut effects, self.child_done, Outcome::Failed(failure));
                    self.child_done = None;
                    effects.push(Effect::AppendInterrupted);
                    effects.push(Effect::UnlockGate);
                    self.stop(&mut effects)
                } else {
                    effects.push(Effect::UnlockGate);
                    self.proceed(&mut effects)
                }
            },
            (Phase::Settling { answer }, LoopEvent::DrainedAndChecked { commands, pending }) => {
                let mut commands = commands;
                self.deferred.append(&mut commands);
                if any_queued(&self.deferred) || pending {
                    effects.push(Effect::UnlockGate);
                    self.proceed(&mut effects)
                } else {
                    self.phase = Phase::Showing { answer };
                    Request::CheckRunning
                }
            },
            (Phase::Showing { answer }, LoopEvent::Running(running)) => {
                effects.push(
                    Effect::Activity(
                        if running {
                            AgentActivity::WaitingChildren
                        } else {
                            AgentActivity::Idle
                        },
                    ),
                );
                self.child_answer = Some(answer.clone());
                self.phase = Phase::Finishing { answer };
                Request::CheckRunning
            },
            (Phase::Finishing { answer }, LoopEvent::Running(running)) => {
                if running {
                    effects.push(Effect::UnlockGate);
                    self.proceed(&mut effects)
                } else {
                    self.phase = Phase::Completing { answer };
                    Request::CheckPending
                }
            },
            (Phase::Completing { answer }, LoopEvent::Pending(pending)) => {
                if !pending {
                    effects.push(Effect::CloseGate);
                    push_reply(&mut effects, self.child_done, Outcome::Answered(answer));
                    self.child_done = None;
                    self.child_answer = None;
                    effects.push(Effect::AppendCompleted);
                }
                effects.push(Effect::UnlockGate);
                self.proceed(&mut effects)
            },
            (Phase::Waiting, LoopEvent::Running(running)) => {
                if running {
                    self.proceed(&mut effects)
                } else {
                    effects.push(Effect::LockGate);
                    self.phase = Phase::Concluding;
                    Request::DrainAndCheck
                }
            },
            (Phase::Concluding, LoopEvent::DrainedAndChecked { commands, pending }) => {
                let mut commands = commands;
                self.deferred.append(&mut commands);
                if any_queued(&self.deferred) || pending {
                    effects.push(Effect::UnlockGate);
                    self.proceed(&mut effects)
                } else {
                    effects.push(Effect::CloseGate);
                    if self.child_answer.is_some() {
                        if let Some(ticket) = self.child_done {
                            if let Some(answer) = self.child_answer.take() {
                                effects.push(Effect::Reply { ticket, outcome: Outcome::Answered(answer) });
                                self.child_done = None;
                            }
                        }
                    }
                    effects.push(Effect::AppendCompleted);
                    effects.push(Effect::UnlockGate);
                    self.proceed(&mut effects)
                }
            },
            (other, _) => {
                self.phase = other;
                Request::Stop
            },
        };
        assert(effects@ =~= goal.effects);
        Step { effects, request }
    }
}

/// How often an optional ticket is a given one.
pub open spec fn counts(held: Option<u64>, ticket: u64) -> nat {
    if held == Some(ticket) {
        1
    } else {
        0
    }
}

/// How often a command asks for the answer to a ticket.
pub open spec fn command_counts(command: AgentCommand, ticket: u64) -> nat {
    match command {
        AgentCommand::Input { done, .. } => counts(done, ticket),
        _ => 0,
    }
}

/// How often commands ask for the answer to a ticket.
pub open spec fn commands_count(commands: Seq<AgentCommand>, ticket: u64) -> nat
    decreases commands.len(),
{
    if commands.len() == 0 {
        0
    } else {
        commands_count(commands.drop_last(), ticket) + command_counts(commands.last(), ticket)
    }
}

/// How often a phase holds a ticket.
pub open spec fn phase_counts(phase: Phase, ticket: u64) -> nat {
    match phase {
        Phase::Selecting { done, .. } => counts(done, ticket),
        Phase::Committing { done } => counts(done, ticket),
        Phase::Turning { done } => counts(done, ticket),
        Phase::Rejecting { done, .. } => counts(done, ticket),
        _ => 0,
    }
}

/// How often a state holds a ticket that is yet to be answered.
pub open spec fn holds(state: LoopView, ticket: u64) -> nat {
    counts(state.child_done, ticket) + phase_counts(state.phase, ticket) + commands_count(
        state.deferred,
        ticket,
    )
}

/// The commands that an event brings.
pub open spec fn brought(event: LoopEvent) -> Seq<AgentCommand> {
    match event {
        LoopEvent::Command(command) => seq![command],
        LoopEvent::Drained(commands) => commands@,
        LoopEvent::DrainedAndChecked { commands, .. } => commands@,
        _ => seq![],
    }
}

/// How often an effect answers or abandons a ticket.
pub open spec fn effect_counts(effect: Effect, ticket: u64) -> nat {
    match effect {
        Effect::Reply { ticket: answered, .. } => if answered == ticket {
            1
        } else {
            0
        },
        Effect::Abandon { ticket: dropped } => if dropped == ticket {
            1
        } else {
            0
        },
        _ => 0,
    }
}

/// How often effects answer or abandon a ticket.
pub open spec fn settles(effects: Seq<Effect>, ticket: u64) -> nat
    decreases effects.len(),
{
    if effects.len() == 0 {
        0
    } else {
        settles(effects.drop_last(), ticket) + effect_counts(effects.last(), ticket)
    }
}

/// What holds of every state that the loop reaches: a child answers its owner by the
/// ticket of its own, and one that is about to complete has no queued input.
pub open spec fn consistent(state: LoopView) -> bool {
    &&& state.child ==> match state.phase {
        Phase::Committing { done } => done is None,
        Phase::Turning { done } => done is None,
        Phase::Rejecting { done, .. } => done is None,
        _ => true,
    }
    &&& match state.phase {
        Phase::Settling { .. } => state.child,
        Phase::Showing { .. } => state.child && !has_queued(state.deferred),
        Phase::Finishing { .. } => state.child && !has_queued(state.deferred),
        Phase::Completing { .. } => state.child && !has_queued(state.deferred),
        Phase::Waiting => state.child && state.child_answer is Some,
        Phase::Concluding => state.child && state.child_answer is Some,
        _ => true,
    }
}

/// Whether a transition leads to a consistent state of the same agent.
spec fn keeps(state: LoopView, next: Transition) -> bool {
    consistent(next.state) && next.state.child == state.child
}

proof fn lemma_work_keeps(state: LoopView, content: Vec<UserContent>, done: Option<u64>, notifications: bool)
    ensures
        keeps(state, work(state, content, done, notifications)),
{
}

proof fn lemma_dispatch_keeps(state: LoopView, command: AgentCommand)
    ensures
        keeps(state, dispatch(state, command)),
{
    if let AgentCommand::Input { model: None, content, done } = command {
        lemma_work_keeps(state, content, done, false);
    }
}

/// Taking up the next command leads to a consistent state from every state.
proof fn lemma_proceed_keeps(state: LoopView)
    ensures
        keeps(state, proceed(state)),
{
    if state.deferred.len() > 0 {
        lemma_dispatch_keeps(LoopView { deferred: state.deferred.skip(1), ..state }, state.deferred[0]);
    }
}

proof fn lemma_receiving_keeps(state: LoopView, event: LoopEvent)
    requires
        state.phase is Receiving,
        fits(state.phase, event),
    ensures
        keeps(state, transition(state, event)),
{
    if let LoopEvent::Command(command) = event {
        lemma_dispatch_keeps(state, command);
    }
}

proof fn lemma_input_keeps(state: LoopView, event: LoopEvent)
    requires
        state.phase is Consuming || state.phase is Collecting || state.phase is Selecting,
        fits(state.phase, event),
    ensures
        keeps(state, transition(state, event)),
{
    lemma_proceed_keeps(state);
    match (state.phase, event) {
        (Phase::Collecting, LoopEvent::Collected(Some(content))) => {
            lemma_work_keeps(state, content, None, true);
        },
        (Phase::Selecting { content, done }, _) => {
            lemma_work_keeps(state, content, done, false);
        },
        _ => {},
    }
}

proof fn lemma_turn_keeps(state: LoopView, event: LoopEvent)
    requires
        state.phase is Committing || state.phase is Turning,
        consistent(state),
        fits(state.phase, event),
    ensures
        keeps(state, transition(state, event)),
{
    lemma_proceed_keeps(state);
    lemma_proceed_keeps(LoopView { child_done: None, ..state });
}

proof fn lemma_failure_keeps(state: LoopView, event: LoopEvent)
    requires
        state.phase is Rejecting,
        fits(state.phase, event),
    ensures
        keeps(state, transition(state, event)),
{
    if let LoopEvent::Drained(commands) = event {
        lemma_proceed_keeps(LoopView { deferred: unqueued(state.deferred + commands@), ..state });
    }
}

proof fn lemma_completion_keeps(state: LoopView, event: LoopEvent)
    requires
        state.phase is Settling || state.phase is Showing || state.phase is Finishing || state.phase is Completing,
        consistent(state),
        fits(state.phase, event),
    ensures
        keeps(state, transition(state, event)),
{
    lemma_proceed_keeps(state);
    lemma_proceed_keeps(LoopView { child_done: None, child_answer: None, ..state });
    if let LoopEvent::DrainedAndChecked { commands, .. } = event {
        lemma_proceed_keeps(LoopView { deferred: state.deferred + commands@, ..state });
    }
}

proof fn lemma_conclusion_keeps(state: LoopView, event: LoopEvent)
    requires
        state.phase is Waiting || state.phase is Concluding,
        consistent(state),
        fits(state.phase, event),
    ensures
        keeps(state, transition(state, event)),
{
    lemma_proceed_keeps(state);
    if let LoopEvent::DrainedAndChecked { commands, .. } = event {
        let next = LoopView { deferred: state.deferred + commands@, ..state };
        lemma_proceed_keeps(next);
        lemma_proceed_keeps(LoopView { child_done: None, child_answer: None, ..next });
    }
}

/// A fresh loop is consistent, and every step keeps it so.
pub proof fn steps_stay_consistent(state: LoopView, event: LoopEvent)
    requires
        consistent(state),
        fits(state.phase, event),
    ensures
        consistent(transition(state, event).state),
        transition(state, event).state.child == state.child,
{
    match state.phase {
        Phase::Receiving => lemma_receiving_keeps(state, event),
        Phase::Consuming => lemma_input_keeps(state, event),
        Phase::Collecting => lemma_input_keeps(state, event),
        Phase::Selecting { .. } => lemma_input_keeps(state, event),
        Phase::Committing { .. } => lemma_turn_keeps(state, event),
        Phase::Turning { .. } => lemma_turn_keeps(state, event),
        Phase::Rejecting { .. } => lemma_failure_keeps(state, event),
        Phase::Settling { .. } => lemma_completion_keeps(state, event),
        Phase::Showing { .. } => lemma_completion_keeps(state, event),
        Phase::Finishing { .. } => lemma_completion_keeps(state, event),
        Phase::Completing { .. } => lemma_completion_keeps(state, event),
        Phase::Waiting => lemma_conclusion_keeps(state, event),
        Phase::Concluding => lemma_conclusion_keeps(state, event),
        Phase::Stopped => {},
    }
}

proof fn lemma_commands_concat(left: Seq<AgentCommand>, right: Seq<AgentCommand>, ticket: u64)
    ensures
        commands_count(left + right, ticket) == commands_count(left, ticket) + commands_count(right, ticket),
    decreases right.len(),
{
    if right.len() == 0 {
        assert(left + right =~= left);
    } else {
        assert((left + right).drop_last() =~= left + right.drop_last());
        lemma_commands_concat(left, right.drop_last(), ticket);
    }
}

proof fn lemma_commands_first(commands: Seq<AgentCommand>, ticket: u64)
    requires
        commands.len() > 0,
    ensures
        commands_count(commands, ticket) == command_counts(commands[0], ticket) + commands_count(
            commands.skip(1),
            ticket,
        ),
{
    assert(commands =~= seq![commands[0]] + commands.skip(1));
    lemma_commands_concat(seq![commands[0]], commands.skip(1), ticket);
    assert(seq![commands[0]].drop_last() =~= seq![]);
    assert(commands_count(seq![commands[0]].drop_last(), ticket) == 0);
}

proof fn lemma_unqueued_counts(commands: Seq<AgentCommand>, ticket: u64)
    ensures
        commands_count(unqueued(commands), ticket) == commands_count(commands, ticket),
        settles(rejections(commands), ticket) == 0,
    decreases commands.len(),
{
    if commands.len() > 0 {
        let rest = commands.drop_last();
        lemma_unqueued_counts(rest, ticket);
        if commands.last() is QueuedInputs {
            assert(rejections(commands).drop_last() =~= rejections(rest));
        } else {
            assert(unqueued(commands).drop_last() =~= unqueued(rest));
        }
    }
}

proof fn lemma_settles_concat(left: Seq<Effect>, right: Seq<Effect>, ticket: u64)
    ensures
        settles(left + right, ticket) == settles(left, ticket) + settles(right, ticket),
    decreases right.len(),
{
    if right.len() == 0 {
        assert(left + right =~= left);
    } else {
        assert((left + right).drop_last() =~= left + right.drop_last());
        lemma_settles_concat(left, right.drop_last(), ticket);
    }
}

proof fn lemma_settles_push(effects: Seq<Effect>, effect: Effect, ticket: u64)
    ensures
        settles(effects.push(effect), ticket) == settles(effects, ticket) + effect_counts(effect, ticket),
{
    assert(effects.push(effect).drop_last() =~= effects);
}

proof fn lemma_reply_counts(held: Option<u64>, outcome: Outcome, ticket: u64)
    ensures
        settles(reply(held, outcome), ticket) == counts(held, ticket),
        settles(abandon(held), ticket) == counts(held, ticket),
        settles(seq![], ticket) == 0,
{
    if let Some(inner) = held {
        lemma_settles_push(seq![], Effect::Reply { ticket: inner, outcome }, ticket);
        lemma_settles_push(seq![], Effect::Abandon { ticket: inner }, ticket);
        assert(reply(held, outcome) =~= Seq::<Effect>::empty().push(Effect::Reply { ticket: inner, outcome }));
        assert(abandon(held) =~= Seq::<Effect>::empty().push(Effect::Abandon { ticket: inner }));
    }
}

/// How often a transition keeps or settles a ticket.
spec fn accounts(next: Transition, ticket: u64) -> nat {
    holds(next.state, ticket) + settles(next.effects, ticket)
}

proof fn lemma_accounts_after(next: Transition, effects: Seq<Effect>, ticket: u64)
    ensures
        accounts(next.after(effects), ticket) == accounts(next, ticket) + settles(effects, ticket),
{
    lemma_settles_concat(effects, next.effects, ticket);
}

proof fn lemma_stop_accounts(state: LoopView, ticket: u64)
    ensures
        accounts(stop(state), ticket) == counts(state.child_done, ticket) + commands_count(
            state.deferred,
            ticket,
        ),
{
    reveal_with_fuel(settles, 3);
    assert(settles(stop(state).effects, ticket) == 0);
}

proof fn lemma_work_accounts(
    state: LoopView,
    content: Vec<UserContent>,
    done: Option<u64>,
    notifications: bool,
    ticket: u64,
)
    ensures
        accounts(work(state, content, done, notifications), ticket) == counts(state.child_done, ticket)
            + counts(done, ticket) + commands_count(state.deferred, ticket),
{
    let replaced = if state.child && done is Some {
        abandon(state.child_done)
    } else {
        seq![]
    };
    let shown = Effect::Activity(AgentActivity::Working);
    lemma_reply_counts(state.child_done, Outcome::OwnerCancelled, ticket);
    lemma_settles_push(replaced, shown, ticket);
    let next = work(state, content, done, notifications);
    assert(next.effects =~= replaced.push(shown));
}

proof fn lemma_dispatch_accounts(state: LoopView, command: AgentCommand, ticket: u64)
    ensures
        accounts(dispatch(state, command), ticket) == counts(state.child_done, ticket) + command_counts(
            command,
            ticket,
        ) + commands_count(state.deferred, ticket),
{
    reveal_with_fuel(settles, 2);
    let begin = seq![Effect::BeginTurn];
    assert(settles(begin, ticket) == 0) by {
        assert(begin.drop_last() =~= seq![]);
    }
    match command {
        AgentCommand::QueuedInputs(inputs) => {
            lemma_accounts_after(wait(state, Phase::Consuming, Request::Consume { inputs }), begin, ticket);
        },
        AgentCommand::Shutdown => {
            let mark = seq![Effect::AppendInterrupted];
            assert(settles(mark, ticket) == 0) by {
                assert(mark.drop_last() =~= seq![]);
            }
            lemma_stop_accounts(state, ticket);
            lemma_accounts_after(stop(state), mark, ticket);
            lemma_accounts_after(stop(state).after(mark), begin, ticket);
        },
        AgentCommand::Input { model, content, done } => match model {
            Some(model) => {
                lemma_accounts_after(
                    wait(state, Phase::Selecting { content, done }, Request::Select { model }),
                    begin,
                    ticket,
                );
            },
            None => {
                lemma_work_accounts(state, content, done, false, ticket);
                lemma_accounts_after(work(state, content, done, false), begin, ticket);
            },
        },
        AgentCommand::JobsReady => {
            lemma_accounts_after(wait(state, Phase::Collecting, Request::Collect), begin, ticket);
        },
    }
}

proof fn lemma_proceed_accounts(state: LoopView, ticket: u64)
    ensures
        accounts(proceed(state), ticket) == counts(state.child_done, ticket) + commands_count(
            state.deferred,
            ticket,
        ),
{
    if state.deferred.len() > 0 {
        lemma_commands_first(state.deferred, ticket);
        lemma_dispatch_accounts(
            LoopView { deferred: state.deferred.skip(1), ..state },
            state.deferred[0],
            ticket,
        );
    }
}

/// Whether an effect concerns no ticket.
spec fn ticketless(effect: Effect) -> bool {
    !(effect is Reply) && !(effect is Abandon)
}

proof fn lemma_ticketless(effects: Seq<Effect>, ticket: u64)
    requires
        forall|i: int| 0 <= i < effects.len() ==> ticketless(#[trigger] effects[i]),
    ensures
        settles(effects, ticket) == 0,
    decreases effects.len(),
{
    if effects.len() > 0 {
        assert forall|i: int| 0 <= i < effects.drop_last().len() implies ticketless(
            #[trigger] effects.drop_last()[i],
        ) by {
            assert(effects.drop_last()[i] == effects[i]);
        }
        lemma_ticketless(effects.drop_last(), ticket);
        assert(ticketless(effects[effects.len() - 1]));
    }
}

/// No ticket is lost and none is answered twice: each ticket that the loop holds or
/// is given is still held after a step, or has been answered or abandoned, and as
/// often as before.
#[verifier::rlimit(60)]
pub proof fn every_ticket_is_settled_once(state: LoopView, event: LoopEvent, ticket: u64)
    requires
        consistent(state),
        fits(state.phase, event),
    ensures
        ({
            let next = transition(state, event);
            holds(next.state, ticket) + settles(next.effects, ticket) == holds(state, ticket)
                + commands_count(brought(event), ticket)
        }),
{
    let next = transition(state, event);
    lemma_ticketless(seq![Effect::UnlockGate], ticket);
    lemma_ticketless(seq![Effect::LockGate], ticket);
    lemma_ticketless(seq![Effect::CloseGate], ticket);
    lemma_ticketless(seq![], ticket);
    match (state.phase, event) {
        (Phase::Receiving, LoopEvent::OwnerCancelled) => {
            lemma_stop_accounts(LoopView { child_done: None, ..state }, ticket);
            lemma_reply_counts(state.child_done, Outcome::OwnerCancelled, ticket);
            let effects = reply(state.child_done, Outcome::OwnerCancelled);
            lemma_settles_push(effects, Effect::AppendInterrupted, ticket);
            lemma_accounts_after(
                stop(LoopView { child_done: None, ..state }),
                effects.push(Effect::AppendInterrupted),
                ticket,
            );
        },
        (Phase::Receiving, LoopEvent::Closed) => {
            lemma_stop_accounts(state, ticket);
        },
        (Phase::Receiving, LoopEvent::Command(command)) => {
            lemma_dispatch_accounts(state, command, ticket);
            assert(brought(event).drop_last() =~= seq![]);
            assert(commands_count(brought(event).drop_last(), ticket) == 0);
        },
        (Phase::Consuming, LoopEvent::Consumed(consumed)) => {
            if consumed {
                let shown = seq![Effect::Activity(AgentActivity::Working)];
                lemma_ticketless(shown, ticket);
                lemma_accounts_after(
                    wait(state, Phase::Turning { done: None }, Request::RunTurn),
                    shown,
                    ticket,
                );
            } else {
                lemma_proceed_accounts(state, ticket);
            }
        },
        (Phase::Collecting, LoopEvent::Collected(content)) => {
            lemma_proceed_accounts(state, ticket);
            if let Some(content) = content {
                lemma_work_accounts(state, content, None, true, ticket);
            }
        },
        (Phase::Selecting { content, done }, LoopEvent::Selected(result)) => match result {
            Ok(()) => {
                lemma_work_accounts(state, content, done, false, ticket);
            },
            Err(failure) => {
                lemma_proceed_accounts(state, ticket);
                lemma_reply_counts(done, Outcome::Failed(failure), ticket);
                lemma_accounts_after(proceed(state), reply(done, Outcome::Failed(failure)), ticket);
            },
        },
        (Phase::Committing { done }, LoopEvent::Committed(result)) => {
            if let Err(failure) = result {
                let held = if done is Some {
                    done
                } else {
                    state.child_done
                };
                let later = if done is Some {
                    state
                } else {
                    LoopView { child_done: None, ..state }
                };
                let answer = reply(held, Outcome::Failed(failure));
                lemma_reply_counts(held, Outcome::Failed(failure), ticket);
                lemma_settles_push(answer, Effect::InterruptTree, ticket);
                lemma_stop_accounts(later, ticket);
                lemma_proceed_accounts(later, ticket);
                lemma_accounts_after(stop(later), answer.push(Effect::InterruptTree), ticket);
                lemma_accounts_after(proceed(later), answer, ticket);
            }
        },
        (Phase::Turning { done }, LoopEvent::TurnEnded(result)) => {
            if let Ok(answer) = result {
                if state.child {
                    lemma_accounts_after(
                        wait(state, Phase::Settling { answer }, Request::DrainAndCheck),
                        seq![Effect::LockGate],
                        ticket,
                    );
                } else {
                    let first = seq![Effect::LockGate, Effect::Activity(AgentActivity::Idle)];
                    let answered = reply(done, Outcome::Answered(answer));
                    lemma_ticketless(first, ticket);
                    lemma_reply_counts(done, Outcome::Answered(answer), ticket);
                    lemma_settles_push(answered, Effect::UnlockGate, ticket);
                    lemma_settles_concat(first, answered.push(Effect::UnlockGate), ticket);
                    lemma_proceed_accounts(state, ticket);
                    lemma_accounts_after(proceed(state), first + answered.push(Effect::UnlockGate), ticket);
                }
            }
        },
        (Phase::Rejecting { done, failure }, LoopEvent::Drained(commands)) => {
            let all = state.deferred + commands@;
            let later = LoopView { deferred: unqueued(all), ..state };
            lemma_commands_concat(state.deferred, commands@, ticket);
            lemma_unqueued_counts(all, ticket);
            let first = rejections(all).push(Effect::LockGate);
            let second = first.push(Effect::Activity(failed_activity(failure)));
            let own = reply(done, Outcome::Failed(failure));
            let shown = second + own;
            lemma_settles_push(rejections(all), Effect::LockGate, ticket);
            lemma_settles_push(first, Effect::Activity(failed_activity(failure)), ticket);
            lemma_reply_counts(done, Outcome::Failed(failure), ticket);
            lemma_settles_concat(second, own, ticket);
            if state.child {
                let owner = reply(state.child_done, Outcome::Failed(failure));
                lemma_reply_counts(state.child_done, Outcome::Failed(failure), ticket);
                lemma_settles_push(shown, Effect::InterruptTree, ticket);
                lemma_settles_push(owner, Effect::AppendInterrupted, ticket);
                lemma_settles_push(owner.push(Effect::AppendInterrupted), Effect::UnlockGate, ticket);
                let last = owner.push(Effect::AppendInterrupted).push(Effect::UnlockGate);
                lemma_settles_concat(shown.push(Effect::InterruptTree), last, ticket);
                lemma_stop_accounts(LoopView { child_done: None, ..later }, ticket);
                lemma_accounts_after(
                    stop(LoopView { child_done: None, ..later }),
                    shown.push(Effect::InterruptTree) + last,
                    ticket,
                );
            } else {
                lemma_settles_push(shown, Effect::UnlockGate, ticket);
                lemma_proceed_accounts(later, ticket);
                lemma_accounts_after(proceed(later), shown.push(Effect::UnlockGate), ticket);
            }
        },
        (Phase::Settling { answer }, LoopEvent::DrainedAndChecked { commands, pending }) => {
            let later = LoopView { deferred: state.deferred + commands@, ..state };
            lemma_commands_concat(state.deferred, commands@, ticket);
            lemma_proceed_accounts(later, ticket);
            lemma_accounts_after(proceed(later), seq![Effect::UnlockGate], ticket);
        },
        (Phase::Showing { answer }, LoopEvent::Running(running)) => {
            lemma_ticketless(next.effects, ticket);
        },
        (Phase::Finishing { answer }, LoopEvent::Running(running)) => {
            lemma_proceed_accounts(state, ticket);
            lemma_accounts_after(proceed(state), seq![Effect::UnlockGate], ticket);
        },
        (Phase::Completing { answer }, LoopEvent::Pending(pending)) => {
            lemma_proceed_accounts(state, ticket);
            lemma_accounts_after(proceed(state), seq![Effect::UnlockGate], ticket);
            let owner = reply(state.child_done, Outcome::Answered(answer));
            let later = LoopView { child_done: None, child_answer: None, ..state };
            lemma_reply_counts(state.child_done, Outcome::Answered(answer), ticket);
            lemma_settles_push(owner, Effect::AppendCompleted, ticket);
            lemma_settles_push(owner.push(Effect::AppendCompleted), Effect::UnlockGate, ticket);
            let last = owner.push(Effect::AppendCompleted).push(Effect::UnlockGate);
            lemma_settles_concat(seq![Effect::CloseGate], last, ticket);
            lemma_proceed_accounts(later, ticket);
            lemma_accounts_after(proceed(later), seq![Effect::CloseGate] + last, ticket);
        },
        (Phase::Waiting, LoopEvent::Running(running)) => {
            lemma_proceed_accounts(state, ticket);
            lemma_accounts_after(
                wait(state, Phase::Concluding, Request::DrainAndCheck),
                seq![Effect::LockGate],
                ticket,
            );
        },
        (Phase::Concluding, LoopEvent::DrainedAndChecked { commands, pending }) => {
            let later = LoopView { deferred: state.deferred + commands@, ..state };
            lemma_commands_concat(state.deferred, commands@, ticket);
            lemma_proceed_accounts(later, ticket);
            lemma_accounts_after(proceed(later), seq![Effect::UnlockGate], ticket);
            let plain = seq![Effect::CloseGate, Effect::AppendCompleted, Effect::UnlockGate];
            lemma_ticketless(plain, ticket);
            lemma_accounts_after(proceed(later), plain, ticket);
            if let (Some(owner), Some(answer)) = (state.child_done, state.child_answer) {
                let finished = LoopView { child_done: None, child_answer: None, ..later };
                let answered = Effect::Reply { ticket: owner, outcome: Outcome::Answered(answer) };
                let effects = seq![
                    Effect::CloseGate,
                    answered,
                    Effect::AppendCompleted,
                    Effect::UnlockGate,
                ];
                let one = seq![Effect::CloseGate];
                lemma_settles_push(one, answered, ticket);
                lemma_settles_push(one.push(answered), Effect::AppendCompleted, ticket);
                lemma_settles_push(
                    one.push(answered).push(Effect::AppendCompleted),
                    Effect::UnlockGate,
                    ticket,
                );
                assert(effects =~= one.push(answered).push(Effect::AppendCompleted).push(Effect::UnlockGate));
                lemma_proceed_accounts(finished, ticket);
                lemma_accounts_after(proceed(finished), effects, ticket);
            }
        },
        _ => {},
    }
}

/// A child completes only where no queued input waits for it and it has nothing to
/// be told.
pub proof fn children_complete_only_without_input(state: LoopView, event: LoopEvent)
    requires
        consistent(state),
        fits(state.phase, event),
        transition(state, event).effects.contains(Effect::AppendCompleted),
    ensures
        state.child,
        !has_queued(state.deferred + brought(event)),
        event matches LoopEvent::Pending(pending) ==> !pending,
        event matches LoopEvent::DrainedAndChecked { pending, .. } ==> !pending,
{
    assert(state.deferred + Seq::<AgentCommand>::empty() =~= state.deferred);
    if !(state.phase is Completing) && !(state.phase is Concluding) {
        lemma_only_completion_appends(state, event);
    } else {
        lemma_proceed_appends_nothing(state);
        match event {
            LoopEvent::DrainedAndChecked { commands, .. } => {
                let later = LoopView { deferred: state.deferred + commands@, ..state };
                lemma_proceed_appends_nothing(later);
                lemma_after_lacks(proceed(later), seq![Effect::UnlockGate]);
            },
            _ => {
                lemma_after_lacks(proceed(state), seq![Effect::UnlockGate]);
            },
        }
    }
}

/// Whether effects leave an agent uncompleted.
spec fn lacks_completion(effects: Seq<Effect>) -> bool {
    forall|i: int| 0 <= i < effects.len() ==> !((#[trigger] effects[i]) is AppendCompleted)
}

proof fn lemma_after_lacks(next: Transition, effects: Seq<Effect>)
    requires
        lacks_completion(next.effects),
        lacks_completion(effects),
    ensures
        lacks_completion(next.after(effects).effects),
        !next.after(effects).effects.contains(Effect::AppendCompleted),
{
    let all = next.after(effects).effects;
    assert forall|i: int| 0 <= i < all.len() implies !((#[trigger] all[i]) is AppendCompleted) by {
        if i < effects.len() {
            assert(all[i] == effects[i]);
        } else {
            assert(all[i] == next.effects[i - effects.len()]);
        }
    }
}

proof fn lemma_proceed_appends_nothing(state: LoopView)
    ensures
        lacks_completion(proceed(state).effects),
{
}

proof fn lemma_rejections_lack(commands: Seq<AgentCommand>)
    ensures
        lacks_completion(rejections(commands)),
    decreases commands.len(),
{
    if commands.len() > 0 {
        lemma_rejections_lack(commands.drop_last());
    }
}

proof fn lemma_only_completion_appends(state: LoopView, event: LoopEvent)
    requires
        consistent(state),
        fits(state.phase, event),
        !(state.phase is Completing),
        !(state.phase is Concluding),
    ensures
        !transition(state, event).effects.contains(Effect::AppendCompleted),
{
    lemma_proceed_appends_nothing(state);
    match (state.phase, event) {
        (Phase::Selecting { done, .. }, LoopEvent::Selected(Err(failure))) => {
            lemma_after_lacks(proceed(state), reply(done, Outcome::Failed(failure)));
        },
        (Phase::Committing { done }, LoopEvent::Committed(Err(failure))) => {
            let held = if done is Some {
                done
            } else {
                state.child_done
            };
            let later = if done is Some {
                state
            } else {
                LoopView { child_done: None, ..state }
            };
            let answer = reply(held, Outcome::Failed(failure));
            lemma_proceed_appends_nothing(later);
            lemma_after_lacks(proceed(later), answer);
            lemma_after_lacks(stop(later), answer.push(Effect::InterruptTree));
        },
        (Phase::Turning { done }, LoopEvent::TurnEnded(Ok(answer))) => {
            if !state.child {
                let effects = seq![Effect::LockGate, Effect::Activity(AgentActivity::Idle)] + reply(
                    done,
                    Outcome::Answered(answer),
                ).push(Effect::UnlockGate);
                lemma_after_lacks(proceed(state), effects);
            }
        },
        (Phase::Rejecting { done, failure }, LoopEvent::Drained(commands)) => {
            let all = state.deferred + commands@;
            let later = LoopView { deferred: unqueued(all), ..state };
            lemma_rejections_lack(all);
            lemma_proceed_appends_nothing(later);
            let shown = rejections(all).push(Effect::LockGate).push(
                Effect::Activity(failed_activity(failure)),
            ) + reply(done, Outcome::Failed(failure));
            assert(lacks_completion(shown));
            if state.child {
                let last = reply(state.child_done, Outcome::Failed(failure)).push(
                    Effect::AppendInterrupted,
                ).push(Effect::UnlockGate);
                assert(lacks_completion(last));
                assert(lacks_completion(shown.push(Effect::InterruptTree) + last));
                lemma_after_lacks(
                    stop(LoopView { child_done: None, ..later }),
                    shown.push(Effect::InterruptTree) + last,
                );
            } else {
                lemma_after_lacks(proceed(later), shown.push(Effect::UnlockGate));
            }
        },
        (Phase::Settling { .. }, LoopEvent::DrainedAndChecked { commands, .. }) => {
            let later = LoopView { deferred: state.deferred + commands@, ..state };
            lemma_proceed_appends_nothing(later);
            lemma_after_lacks(proceed(later), seq![Effect::UnlockGate]);
        },
        (Phase::Finishing { .. }, LoopEvent::Running(_)) => {
            lemma_after_lacks(proceed(state), seq![Effect::UnlockGate]);
        },
        _ => {},
    }
}

/// A child whose turn fails ends: its descendants are interrupted, its owner is
/// told, and the loop stops.
pub proof fn failed_children_stop(state: LoopView, event: LoopEvent)
    requires
        consistent(state),
        fits(state.phase, event),
        state.child,
        state.phase is Rejecting,
    ensures
        ({
            let next = transition(state, event);
            &&& next.request == Request::Stop
            &&& next.state.phase is Stopped
            &&& next.state.child_done is None
            &&& !has_queued(next.state.deferred)
        }),
{
    match (state.phase, event) {
        (Phase::Rejecting { .. }, LoopEvent::Drained(commands)) => {
            lemma_unqueued_lacks(state.deferred + commands@);
        },
        _ => {},
    }
}

proof fn lemma_unqueued_lacks(commands: Seq<AgentCommand>)
    ensures
        !has_queued(unqueued(commands)),
    decreases commands.len(),
{
    if commands.len() > 0 {
        lemma_unqueued_lacks(commands.drop_last());
        let earlier = unqueued(commands.drop_last());
        let all = unqueued(commands);
        assert forall|i: int| 0 <= i < all.len() implies !((#[trigger] all[i]) is QueuedInputs) by {
            if i < earlier.len() {
                assert(all[i] == earlier[i]);
            }
        }
    }
}

/// A failed turn rejects every queued input that has come in, and keeps every other
/// command.
pub proof fn failures_reject_all_queued_input(commands: Seq<AgentCommand>, index: int)
    requires
        0 <= index < commands.len(),
    ensures
        !has_queued(unqueued(commands)),
        commands[index] matches AgentCommand::QueuedInputs(inputs) ==> rejections(commands).contains(
            Effect::Reject { inputs },
        ),
        !(commands[index] is QueuedInputs) ==> unqueued(commands).contains(commands[index]),
    decreases commands.len(),
{
    lemma_unqueued_lacks(commands);
    let rest = commands.drop_last();
    if index == rest.len() {
        match commands[index] {
            AgentCommand::QueuedInputs(inputs) => {
                assert(rejections(commands)[rejections(rest).len() as int] == Effect::Reject { inputs });
            },
            _ => {
                assert(unqueued(commands)[unqueued(rest).len() as int] == commands[index]);
            },
        }
    } else {
        assert(rest[index] == commands[index]);
        failures_reject_all_queued_input(rest, index);
        match commands[index] {
            AgentCommand::QueuedInputs(inputs) => {
                let earlier = rejections(rest);
                let k = choose|k: int| 0 <= k < earlier.len() && earlier[k] == Effect::Reject { inputs };
                assert(rejections(commands)[k] == Effect::Reject { inputs });
            },
            _ => {
                let earlier = unqueued(rest);
                let k = choose|k: int| 0 <= k < earlier.len() && earlier[k] == commands[index];
                assert(unqueued(commands)[k] == commands[index]);
            },
        }
    }
}

/// How often a command brings content.
pub open spec fn command_brings(command: AgentCommand, content: Vec<UserContent>) -> nat {
    match command {
        AgentCommand::Input { content: other, .. } => if other == content {
            1
        } else {
            0
        },
        _ => 0,
    }
}

/// How often commands bring content.
pub open spec fn commands_bring(commands: Seq<AgentCommand>, content: Vec<UserContent>) -> nat
    decreases commands.len(),
{
    if commands.len() == 0 {
        0
    } else {
        commands_bring(commands.drop_last(), content) + command_brings(commands.last(), content)
    }
}

/// How often a state holds content that is yet to be committed: in a deferred command, or
/// while its model is selected.
pub open spec fn content_held(state: LoopView, content: Vec<UserContent>) -> nat {
    commands_bring(state.deferred, content) + match state.phase {
        Phase::Selecting { content: other, .. } => if other == content {
            1nat
        } else {
            0
        },
        _ => 0,
    }
}

/// How often an event brings content: in its commands, or as notifications.
pub open spec fn content_brought(event: LoopEvent, content: Vec<UserContent>) -> nat {
    commands_bring(brought(event), content) + match event {
        LoopEvent::Collected(Some(other)) => if other == content {
            1nat
        } else {
            0
        },
        _ => 0,
    }
}

/// How often content is given up because its model could not be selected.
pub open spec fn content_refused(state: LoopView, event: LoopEvent, content: Vec<UserContent>) -> nat {
    match (state.phase, event) {
        (Phase::Selecting { content: other, .. }, LoopEvent::Selected(Err(_))) => if other == content {
            1
        } else {
            0
        },
        _ => 0,
    }
}

/// How often a request asks for content to be committed.
pub open spec fn content_asked(request: Request, content: Vec<UserContent>) -> nat {
    match request {
        Request::Commit { content: other, .. } => if other == content {
            1
        } else {
            0
        },
        _ => 0,
    }
}

proof fn lemma_bring_concat(left: Seq<AgentCommand>, right: Seq<AgentCommand>, content: Vec<UserContent>)
    ensures
        commands_bring(left + right, content) == commands_bring(left, content) + commands_bring(right, content),
    decreases right.len(),
{
    if right.len() == 0 {
        assert(left + right =~= left);
    } else {
        assert((left + right).drop_last() =~= left + right.drop_last());
        lemma_bring_concat(left, right.drop_last(), content);
    }
}

proof fn lemma_bring_first(commands: Seq<AgentCommand>, content: Vec<UserContent>)
    requires
        commands.len() > 0,
    ensures
        commands_bring(commands, content) == command_brings(commands[0], content) + commands_bring(
            commands.skip(1),
            content,
        ),
{
    let first = seq![commands[0]];
    assert(commands =~= first + commands.skip(1));
    lemma_bring_concat(first, commands.skip(1), content);
    assert(first.drop_last() =~= seq![]);
    assert(commands_bring(first.drop_last(), content) == 0);
}

proof fn lemma_bring_unqueued(commands: Seq<AgentCommand>, content: Vec<UserContent>)
    ensures
        commands_bring(unqueued(commands), content) == commands_bring(commands, content),
    decreases commands.len(),
{
    if commands.len() > 0 {
        lemma_bring_unqueued(commands.drop_last(), content);
        let earlier = unqueued(commands.drop_last());
        assert(earlier.push(commands.last()).drop_last() =~= earlier);
    }
}

/// Where content goes that a command brings.
proof fn lemma_dispatch_keeps_content(state: LoopView, command: AgentCommand, content: Vec<UserContent>)
    requires
        content@.len() > 0,
    ensures
        ({
            let next = dispatch(state, command);
            content_held(next.state, content) + content_asked(next.request, content) == commands_bring(
                state.deferred,
                content,
            ) + command_brings(command, content)
        }),
{
}

proof fn lemma_proceed_keeps_content(state: LoopView, content: Vec<UserContent>)
    requires
        content@.len() > 0,
    ensures
        ({
            let next = proceed(state);
            content_held(next.state, content) + content_asked(next.request, content) == commands_bring(
                state.deferred,
                content,
            )
        }),
{
    if state.deferred.len() > 0 {
        lemma_bring_first(state.deferred, content);
        lemma_dispatch_keeps_content(
            LoopView { deferred: state.deferred.skip(1), ..state },
            state.deferred[0],
            content,
        );
    }
}

/// Content is never lost and never made up: whatever a prompt or notifications bring is
/// held until its commit is asked for, as often as it was brought. Only a prompt whose
/// model cannot be selected is given up. In particular, content is committed as soon as
/// its model has been selected.
pub proof fn content_is_never_lost(state: LoopView, event: LoopEvent, content: Vec<UserContent>)
    requires
        consistent(state),
        fits(state.phase, event),
        content@.len() > 0,
    ensures
        ({
            let next = transition(state, event);
            content_held(next.state, content) + content_asked(next.request, content) + content_refused(
                state,
                event,
                content,
            ) == content_held(state, content) + content_brought(event, content)
        }),
{
    match (state.phase, event) {
        (Phase::Receiving, LoopEvent::Command(command)) => {
            lemma_dispatch_keeps_content(state, command, content);
            assert(brought(event).drop_last() =~= seq![]);
            assert(commands_bring(brought(event).drop_last(), content) == 0);
        },
        (Phase::Rejecting { .. }, LoopEvent::Drained(commands)) => {
            let all = state.deferred + commands@;
            lemma_bring_concat(state.deferred, commands@, content);
            lemma_bring_unqueued(all, content);
            lemma_proceed_keeps_content(LoopView { deferred: unqueued(all), ..state }, content);
        },
        (_, LoopEvent::DrainedAndChecked { commands, .. }) => {
            let later = LoopView { deferred: state.deferred + commands@, ..state };
            lemma_bring_concat(state.deferred, commands@, content);
            lemma_proceed_keeps_content(later, content);
            lemma_proceed_keeps_content(LoopView { child_done: None, child_answer: None, ..later }, content);
        },
        _ => {
            lemma_proceed_keeps_content(state, content);
            lemma_proceed_keeps_content(LoopView { child_done: None, ..state }, content);
            lemma_proceed_keeps_content(LoopView { child_done: None, child_answer: None, ..state }, content);
        },
    }
}

/// Content is committed together with its delivery exactly where it is notifications that
/// have just been collected.
pub proof fn only_notifications_are_committed_as_such(state: LoopView, event: LoopEvent)
    requires
        consistent(state),
        fits(state.phase, event),
    ensures
        transition(state, event).request matches Request::Commit { content, notifications } ==> {
            &&& content@.len() > 0
            &&& notifications <==> (event matches LoopEvent::Collected(Some(found)) && found == content)
        },
{
}

/// Whether a command has been taken up: its inputs are consumed, its model is selected,
/// its content is committed, the notifications that it tells of are collected, or the loop
/// ends. A prompt without content goes on with the turn.
pub open spec fn taken_up(next: Transition, command: AgentCommand) -> bool {
    &&& next.effects.contains(Effect::BeginTurn)
    &&& match command {
        AgentCommand::QueuedInputs(inputs) => {
            &&& next.request == Request::Consume { inputs }
            &&& next.state.phase is Consuming
        },
        AgentCommand::Shutdown => {
            &&& next.request is Stop
            &&& next.state.phase is Stopped
            &&& next.effects.contains(Effect::AppendInterrupted)
        },
        AgentCommand::Input { model: Some(model), content, done } => {
            &&& next.request == Request::Select { model }
            &&& next.state.phase == Phase::Selecting { content, done }
        },
        AgentCommand::Input { model: None, content, .. } => if content@.len() > 0 {
            &&& next.request == Request::Commit { content, notifications: false }
            &&& next.state.phase is Committing
        } else {
            &&& next.request is RunTurn
            &&& next.state.phase is Turning
        },
        AgentCommand::JobsReady => {
            &&& next.request is Collect
            &&& next.state.phase is Collecting
        },
    }
}

/// The commands that wait once an event has come in, in their order. Queued input does not
/// wait where a turn has failed.
pub open spec fn waiting(state: LoopView, event: LoopEvent) -> Seq<AgentCommand> {
    match event {
        LoopEvent::Drained(commands) => (state.deferred + commands@).filter(
            |command: AgentCommand| !(command is QueuedInputs),
        ),
        LoopEvent::DrainedAndChecked { commands, .. } => state.deferred + commands@,
        _ => state.deferred,
    }
}

proof fn lemma_unqueued_filters(commands: Seq<AgentCommand>)
    ensures
        unqueued(commands) == commands.filter(|command: AgentCommand| !(command is QueuedInputs)),
    decreases commands.len(),
{
    reveal(Seq::filter);
    if commands.len() > 0 {
        lemma_unqueued_filters(commands.drop_last());
    }
}

proof fn lemma_taken_after(next: Transition, effects: Seq<Effect>, command: AgentCommand)
    requires
        taken_up(next, command),
    ensures
        taken_up(next.after(effects), command),
{
    let all = effects + next.effects;
    assert forall|effect: Effect| next.effects.contains(effect) implies #[trigger] all.contains(effect) by {
        let i = choose|i: int| 0 <= i < next.effects.len() && next.effects[i] == effect;
        assert(all[effects.len() + i] == effect);
    }
}

proof fn lemma_dispatch_takes_up(state: LoopView, command: AgentCommand)
    ensures
        taken_up(dispatch(state, command), command),
{
    let next = dispatch(state, command);
    assert(next.effects[0] == Effect::BeginTurn);
    if command is Shutdown {
        assert(next.effects[1] == Effect::AppendInterrupted);
    }
}

/// Whether a transition lets commands wait, or takes up the first of them.
spec fn in_order(next: Transition, commands: Seq<AgentCommand>) -> bool {
    ||| next.state.deferred == commands && (next.request is Receive ==> commands.len() == 0)
    ||| commands.len() > 0 && next.state.deferred == commands.skip(1) && taken_up(next, commands[0])
}

/// Whether a transition takes up the first of some commands, or waits for one.
spec fn moves_on(next: Transition, commands: Seq<AgentCommand>) -> bool {
    if commands.len() == 0 {
        next.request is Receive && next.state.phase is Receiving && next.state.deferred == commands
    } else {
        next.state.deferred == commands.skip(1) && taken_up(next, commands[0])
    }
}

proof fn lemma_proceed_in_order(state: LoopView, effects: Seq<Effect>)
    ensures
        moves_on(proceed(state).after(effects), state.deferred),
        moves_on(proceed(state), state.deferred),
{
    if state.deferred.len() > 0 {
        let rest = LoopView { deferred: state.deferred.skip(1), ..state };
        lemma_dispatch_takes_up(rest, state.deferred[0]);
        lemma_taken_after(dispatch(rest, state.deferred[0]), effects, state.deferred[0]);
    }
}

/// Commands are taken up in the order in which they came: one that is received while the
/// loop is free is taken up at once, and of those that wait each step takes up the first or
/// none. The loop does not wait for a command while one is there.
pub proof fn commands_are_taken_up_in_order(state: LoopView, event: LoopEvent)
    requires
        consistent(state),
        fits(state.phase, event),
    ensures
        ({
            let next = transition(state, event);
            let commands = waiting(state, event);
            match event {
                LoopEvent::Command(command) => next.state.deferred == state.deferred && taken_up(next, command),
                _ => {
                    ||| next.state.deferred == commands && (next.request is Receive ==> commands.len() == 0)
                    ||| commands.len() > 0 && next.state.deferred == commands.skip(1) && taken_up(next, commands[0])
                },
            }
        }),
{
    lemma_steps_in_order(state, event);
}

#[verifier::rlimit(30)]
proof fn lemma_steps_in_order(state: LoopView, event: LoopEvent)
    requires
        consistent(state),
        fits(state.phase, event),
    ensures
        ({
            let next = transition(state, event);
            &&& match event {
                LoopEvent::Command(command) => next.state.deferred == state.deferred && taken_up(next, command),
                _ => in_order(next, waiting(state, event)),
            }
            &&& frees(state, event) ==> moves_on(next, waiting(state, event))
        }),
{
    let next = transition(state, event);
    match (state.phase, event) {
        (Phase::Receiving, LoopEvent::Command(command)) => {
            lemma_dispatch_takes_up(state, command);
        },
        (Phase::Selecting { done, .. }, LoopEvent::Selected(Err(failure))) => {
            lemma_proceed_in_order(state, reply(done, Outcome::Failed(failure)));
        },
        (Phase::Committing { done }, LoopEvent::Committed(Err(failure))) => {
            let held = if done is Some {
                done
            } else {
                state.child_done
            };
            let later = if done is Some {
                state
            } else {
                LoopView { child_done: None, ..state }
            };
            lemma_proceed_in_order(later, reply(held, Outcome::Failed(failure)));
        },
        (Phase::Turning { done }, LoopEvent::TurnEnded(Ok(answer))) => {
            lemma_proceed_in_order(
                state,
                seq![Effect::LockGate, Effect::Activity(AgentActivity::Idle)] + reply(
                    done,
                    Outcome::Answered(answer),
                ).push(Effect::UnlockGate),
            );
        },
        (Phase::Rejecting { done, failure }, LoopEvent::Drained(commands)) => {
            let all = state.deferred + commands@;
            lemma_unqueued_filters(all);
            let shown = rejections(all).push(Effect::LockGate).push(
                Effect::Activity(failed_activity(failure)),
            ) + reply(done, Outcome::Failed(failure));
            lemma_proceed_in_order(
                LoopView { deferred: unqueued(all), ..state },
                shown.push(Effect::UnlockGate),
            );
        },
        (_, LoopEvent::DrainedAndChecked { commands, .. }) => {
            let later = LoopView { deferred: state.deferred + commands@, ..state };
            lemma_proceed_in_order(later, seq![Effect::UnlockGate]);
            lemma_proceed_in_order(later, seq![Effect::CloseGate, Effect::AppendCompleted, Effect::UnlockGate]);
            if let (Some(ticket), Some(answer)) = (state.child_done, state.child_answer) {
                lemma_proceed_in_order(
                    LoopView { child_done: None, child_answer: None, ..later },
                    seq![
                        Effect::CloseGate,
                        Effect::Reply { ticket, outcome: Outcome::Answered(answer) },
                        Effect::AppendCompleted,
                        Effect::UnlockGate,
                    ],
                );
            }
        },
        (Phase::Completing { answer }, LoopEvent::Pending(_)) => {
            lemma_proceed_in_order(state, seq![Effect::UnlockGate]);
            lemma_proceed_in_order(
                LoopView { child_done: None, child_answer: None, ..state },
                seq![Effect::CloseGate] + reply(state.child_done, Outcome::Answered(answer)).push(
                    Effect::AppendCompleted,
                ).push(Effect::UnlockGate),
            );
        },
        _ => {
            lemma_proceed_in_order(state, seq![]);
            lemma_proceed_in_order(state, seq![Effect::UnlockGate]);
        },
    }
}

/// Whether a child has nothing left to do: its turn and its jobs are done, no queued input
/// waits for it, and it has nothing to be told.
pub open spec fn completes(state: LoopView, event: LoopEvent) -> bool {
    match (state.phase, event) {
        (Phase::Completing { .. }, LoopEvent::Pending(pending)) => !pending,
        (Phase::Concluding, LoopEvent::DrainedAndChecked { commands, pending }) => !pending && !has_queued(
            state.deferred + commands@,
        ),
        _ => false,
    }
}

/// Whether a ticket is to be told an outcome: whoever waits for a prompt is told the turn's
/// answer, or why it failed; whoever owns a child is told its answer once it has nothing
/// left to do, or why it failed or ended.
pub open spec fn is_told(state: LoopView, event: LoopEvent, ticket: u64, outcome: Outcome) -> bool {
    match (state.phase, event) {
        (Phase::Receiving, LoopEvent::OwnerCancelled) => state.child_done == Some(ticket)
            && outcome is OwnerCancelled,
        (Phase::Selecting { done, .. }, LoopEvent::Selected(Err(failure))) => done == Some(ticket) && outcome
            == Outcome::Failed(failure),
        (Phase::Committing { done }, LoopEvent::Committed(Err(failure))) => (done == Some(ticket) || done is None
            && state.child_done == Some(ticket)) && outcome == Outcome::Failed(failure),
        (Phase::Turning { done }, LoopEvent::TurnEnded(Ok(answer))) => !state.child && done == Some(ticket)
            && outcome == Outcome::Answered(answer),
        (Phase::Rejecting { done, failure }, LoopEvent::Drained(_)) => (done == Some(ticket) || state.child
            && state.child_done == Some(ticket)) && outcome == Outcome::Failed(failure),
        (Phase::Completing { answer }, _) => completes(state, event) && state.child_done == Some(ticket) && outcome
            == Outcome::Answered(answer),
        (Phase::Concluding, _) => completes(state, event) && state.child_done == Some(ticket) && (
        state.child_answer matches Some(answer) && outcome == Outcome::Answered(answer)),
        _ => false,
    }
}

/// Whether an activity is to be shown: that the agent works once there is content to
/// commit or a turn to run, how a turn failed, or what follows one that did not.
pub open spec fn is_shown(state: LoopView, event: LoopEvent, request: Request, activity: AgentActivity) -> bool {
    ||| activity is Working && (request is Commit || request is RunTurn && !(event matches LoopEvent::Committed(Ok(_))))
    ||| match (state.phase, event) {
        (Phase::Turning { .. }, LoopEvent::TurnEnded(Ok(_))) => !state.child && activity is Idle,
        (Phase::Showing { .. }, LoopEvent::Running(running)) => if running {
            activity is WaitingChildren
        } else {
            activity is Idle
        },
        (Phase::Rejecting { failure, .. }, _) => match failure {
            RequestFailure::Interrupted => activity is Interrupted,
            RequestFailure::Failed(text) => activity == AgentActivity::Failed(text),
        },
        _ => false,
    }
}

/// Whether the last activity that effects show is that the agent works.
pub open spec fn shows_work(effects: Seq<Effect>) -> bool {
    effects.len() > 0 && effects.last() == Effect::Activity(AgentActivity::Working)
}

/// Whether a phase holds forwarding back.
pub open spec fn holds_gate(phase: Phase) -> bool {
    phase is Settling || phase is Showing || phase is Finishing || phase is Completing || phase is Concluding
}

/// Whether an effect has a cause.
pub open spec fn has_cause(state: LoopView, event: LoopEvent, next: Transition, effect: Effect) -> bool {
    match effect {
        Effect::BeginTurn => next.request is Consume || next.request is Select || next.request is Collect
            || next.request is Commit || next.request is RunTurn || next.request is Stop,
        Effect::Reply { ticket, outcome } => is_told(state, event, ticket, outcome),
        Effect::Abandon { ticket } => state.child && state.child_done == Some(ticket) && next.state.child_done is Some,
        Effect::Reject { inputs } => event matches LoopEvent::Drained(commands) && (state.deferred
            + commands@).contains(AgentCommand::QueuedInputs(inputs)),
        Effect::Activity(activity) => is_shown(state, event, next.request, activity),
        Effect::AppendCompleted => completes(state, event),
        Effect::CloseGate => completes(state, event),
        Effect::AppendInterrupted => next.request is Stop,
        Effect::InterruptTree => state.child && next.request is Stop,
        Effect::ClearResume => state.child && next.request is Stop,
        Effect::Unregister => next.request is Stop,
        Effect::LockGate => !holds_gate(state.phase),
        Effect::UnlockGate => !holds_gate(next.state.phase),
    }
}

spec fn all_caused(state: LoopView, event: LoopEvent, next: Transition, effects: Seq<Effect>) -> bool {
    forall|i: int| 0 <= i < effects.len() ==> has_cause(state, event, next, #[trigger] effects[i])
}

proof fn lemma_caused_concat(
    state: LoopView,
    event: LoopEvent,
    next: Transition,
    left: Seq<Effect>,
    right: Seq<Effect>,
)
    requires
        all_caused(state, event, next, left),
        all_caused(state, event, next, right),
    ensures
        all_caused(state, event, next, left + right),
{
}

proof fn lemma_rejections_have_cause(
    state: LoopView,
    event: LoopEvent,
    next: Transition,
    all: Seq<AgentCommand>,
    count: int,
)
    requires
        event matches LoopEvent::Drained(commands) && all == state.deferred + commands@,
        0 <= count <= all.len(),
    ensures
        all_caused(state, event, next, rejections(all.take(count))),
    decreases count,
{
    if count > 0 {
        lemma_rejections_have_cause(state, event, next, all, count - 1);
        assert(all.take(count).drop_last() =~= all.take(count - 1));
        if let AgentCommand::QueuedInputs(inputs) = all.take(count).last() {
            assert(all[count - 1] == AgentCommand::QueuedInputs(inputs));
        }
    }
}

/// What taking up a command causes by itself.
proof fn lemma_proceed_has_cause(state: LoopView, event: LoopEvent, next: Transition, later: LoopView)
    requires
        next.request == proceed(later).request,
        next.state == proceed(later).state,
        later.child == state.child,
        later.child_done is None || later.child_done == state.child_done,
        !(event matches LoopEvent::Committed(Ok(_))),
    ensures
        all_caused(state, event, next, proceed(later).effects),
{
}

proof fn lemma_stop_has_cause(state: LoopView, event: LoopEvent, next: Transition, later: LoopView)
    requires
        next.request is Stop,
        later.child == state.child,
    ensures
        all_caused(state, event, next, stop(later).effects),
{
}

/// Nothing is done without a cause: whoever waits is told exactly what is due, only what is
/// so is shown, an agent completes only once it has nothing left to do, and it is removed
/// only where its loop ends.
#[verifier::rlimit(60)]
pub proof fn effects_have_their_causes(state: LoopView, event: LoopEvent, index: int)
    requires
        consistent(state),
        fits(state.phase, event),
        0 <= index < transition(state, event).effects.len(),
    ensures
        has_cause(state, event, transition(state, event), transition(state, event).effects[index]),
{
    let next = transition(state, event);
    match (state.phase, event) {
        (Phase::Receiving, LoopEvent::OwnerCancelled) => {
            lemma_stop_has_cause(state, event, next, LoopView { child_done: None, ..state });
        },
        (Phase::Receiving, LoopEvent::Command(command)) => {},
        (Phase::Selecting { done, .. }, LoopEvent::Selected(Err(failure))) => {
            lemma_proceed_has_cause(state, event, next, state);
            lemma_caused_concat(state, event, next, reply(done, Outcome::Failed(failure)), proceed(state).effects);
        },
        (Phase::Committing { done }, LoopEvent::Committed(Err(failure))) => {
            let held = if done is Some {
                done
            } else {
                state.child_done
            };
            let later = if done is Some {
                state
            } else {
                LoopView { child_done: None, ..state }
            };
            let answer = reply(held, Outcome::Failed(failure));
            if state.child {
                lemma_stop_has_cause(state, event, next, later);
                lemma_caused_concat(state, event, next, answer.push(Effect::InterruptTree), stop(later).effects);
            } else {
                lemma_proceed_has_cause(state, event, next, later);
                lemma_caused_concat(state, event, next, answer, proceed(later).effects);
            }
        },
        (Phase::Turning { done }, LoopEvent::TurnEnded(Ok(answer))) => {
            if !state.child {
                lemma_proceed_has_cause(state, event, next, state);
                let effects = seq![Effect::LockGate, Effect::Activity(AgentActivity::Idle)] + reply(
                    done,
                    Outcome::Answered(answer),
                ).push(Effect::UnlockGate);
                assert(all_caused(state, event, next, effects));
                lemma_caused_concat(state, event, next, effects, proceed(state).effects);
            }
        },
        (Phase::Rejecting { done, failure }, LoopEvent::Drained(commands)) => {
            let all = state.deferred + commands@;
            let later = LoopView { deferred: unqueued(all), ..state };
            lemma_rejections_have_cause(state, event, next, all, all.len() as int);
            assert(all.take(all.len() as int) =~= all);
            let shown = rejections(all).push(Effect::LockGate).push(
                Effect::Activity(failed_activity(failure)),
            ) + reply(done, Outcome::Failed(failure));
            assert(all_caused(state, event, next, shown));
            if state.child {
                let ended = LoopView { child_done: None, ..later };
                let last = reply(state.child_done, Outcome::Failed(failure)).push(
                    Effect::AppendInterrupted,
                ).push(Effect::UnlockGate);
                assert(all_caused(state, event, next, last));
                assert(all_caused(state, event, next, shown.push(Effect::InterruptTree)));
                lemma_caused_concat(state, event, next, shown.push(Effect::InterruptTree), last);
                lemma_stop_has_cause(state, event, next, ended);
                lemma_caused_concat(
                    state,
                    event,
                    next,
                    shown.push(Effect::InterruptTree) + last,
                    stop(ended).effects,
                );
            } else {
                lemma_proceed_has_cause(state, event, next, later);
                lemma_caused_concat(
                    state,
                    event,
                    next,
                    shown.push(Effect::UnlockGate),
                    proceed(later).effects,
                );
            }
        },
        (Phase::Settling { .. }, LoopEvent::DrainedAndChecked { commands, pending }) => {
            let later = LoopView { deferred: state.deferred + commands@, ..state };
            if has_queued(later.deferred) || pending {
                lemma_proceed_has_cause(state, event, next, later);
            }
        },
        (Phase::Concluding, LoopEvent::DrainedAndChecked { commands, pending }) => {
            let later = LoopView { deferred: state.deferred + commands@, ..state };
            let finished = LoopView { child_done: None, child_answer: None, ..later };
            if has_queued(later.deferred) || pending || state.child_done is None {
                lemma_proceed_has_cause(state, event, next, later);
            } else {
                lemma_proceed_has_cause(state, event, next, finished);
            }
        },
        (Phase::Completing { answer }, LoopEvent::Pending(pending)) => {
            let finished = LoopView { child_done: None, child_answer: None, ..state };
            if pending {
                lemma_proceed_has_cause(state, event, next, state);
            } else {
                lemma_proceed_has_cause(state, event, next, finished);
                let effects = seq![Effect::CloseGate] + reply(state.child_done, Outcome::Answered(answer)).push(
                    Effect::AppendCompleted,
                ).push(Effect::UnlockGate);
                assert(all_caused(state, event, next, effects));
                lemma_caused_concat(state, event, next, effects, proceed(finished).effects);
            }
        },
        (Phase::Finishing { .. }, LoopEvent::Running(running)) => {
            if running {
                lemma_proceed_has_cause(state, event, next, state);
            }
        },
        (Phase::Waiting, LoopEvent::Running(running)) => {
            if running {
                lemma_proceed_has_cause(state, event, next, state);
            }
        },
        (Phase::Consuming, LoopEvent::Consumed(consumed)) => {
            if !consumed {
                lemma_proceed_has_cause(state, event, next, state);
            }
        },
        (Phase::Collecting, LoopEvent::Collected(content)) => {
            if next == proceed(state) {
                lemma_proceed_has_cause(state, event, next, state);
            }
        },
        _ => {},
    }
}

/// How forwarding is held back more or less often by effects.
pub open spec fn gate_changes(effects: Seq<Effect>) -> int
    decreases effects.len(),
{
    if effects.len() == 0 {
        0
    } else {
        gate_changes(effects.drop_last()) + match effects.last() {
            Effect::LockGate => 1int,
            Effect::UnlockGate => -1,
            _ => 0,
        }
    }
}

proof fn lemma_gate_concat(left: Seq<Effect>, right: Seq<Effect>)
    ensures
        gate_changes(left + right) == gate_changes(left) + gate_changes(right),
    decreases right.len(),
{
    if right.len() == 0 {
        assert(left + right =~= left);
    } else {
        assert((left + right).drop_last() =~= left + right.drop_last());
        lemma_gate_concat(left, right.drop_last());
    }
}

proof fn lemma_gate_push(effects: Seq<Effect>, effect: Effect)
    ensures
        gate_changes(effects.push(effect)) == gate_changes(effects) + match effect {
            Effect::LockGate => 1int,
            Effect::UnlockGate => -1,
            _ => 0,
        },
{
    assert(effects.push(effect).drop_last() =~= effects);
}

proof fn lemma_gate_untouched(effects: Seq<Effect>)
    requires
        forall|i: int|
            0 <= i < effects.len() ==> !((#[trigger] effects[i]) is LockGate) && !(effects[i] is UnlockGate),
    ensures
        gate_changes(effects) == 0,
    decreases effects.len(),
{
    if effects.len() > 0 {
        assert forall|i: int| 0 <= i < effects.drop_last().len() implies !((
        #[trigger] effects.drop_last()[i]) is LockGate) && !(effects.drop_last()[i] is UnlockGate) by {
            assert(effects.drop_last()[i] == effects[i]);
        }
        lemma_gate_untouched(effects.drop_last());
        assert(!(effects[effects.len() - 1] is LockGate));
    }
}

proof fn lemma_gate_rejections(commands: Seq<AgentCommand>)
    ensures
        gate_changes(rejections(commands)) == 0,
    decreases commands.len(),
{
    if commands.len() > 0 {
        lemma_gate_rejections(commands.drop_last());
        if let AgentCommand::QueuedInputs(inputs) = commands.last() {
            lemma_gate_push(rejections(commands.drop_last()), Effect::Reject { inputs });
        }
    }
}

proof fn lemma_gate_proceed(state: LoopView, effects: Seq<Effect>)
    ensures
        gate_changes(proceed(state).effects) == 0,
        gate_changes(proceed(state).after(effects).effects) == gate_changes(effects),
        !holds_gate(proceed(state).state.phase),
{
    lemma_gate_untouched(proceed(state).effects);
    lemma_gate_concat(effects, proceed(state).effects);
}

proof fn lemma_gate_stop(state: LoopView, effects: Seq<Effect>)
    ensures
        gate_changes(stop(state).effects) == 0,
        gate_changes(stop(state).after(effects).effects) == gate_changes(effects),
{
    lemma_gate_untouched(stop(state).effects);
    lemma_gate_concat(effects, stop(state).effects);
}

/// Forwarding is held back exactly while an agent that has an answer looks whether new
/// input has come in, and it is let go again as often as it is held back.
#[verifier::rlimit(40)]
pub proof fn gates_are_balanced(state: LoopView, event: LoopEvent)
    requires
        consistent(state),
        fits(state.phase, event),
    ensures
        ({
            let next = transition(state, event);
            let held: int = if holds_gate(state.phase) {
                1
            } else {
                0
            };
            let later: int = if holds_gate(next.state.phase) {
                1
            } else {
                0
            };
            later == held + gate_changes(next.effects)
        }),
{
    let next = transition(state, event);
    let lock = Seq::<Effect>::empty().push(Effect::LockGate);
    let unlock = Seq::<Effect>::empty().push(Effect::UnlockGate);
    lemma_gate_push(Seq::empty(), Effect::LockGate);
    lemma_gate_push(Seq::empty(), Effect::UnlockGate);
    match (state.phase, event) {
        (Phase::Receiving, LoopEvent::OwnerCancelled) => {
            let effects = reply(state.child_done, Outcome::OwnerCancelled).push(Effect::AppendInterrupted);
            lemma_gate_untouched(effects);
            lemma_gate_stop(LoopView { child_done: None, ..state }, effects);
        },
        (Phase::Selecting { done, .. }, LoopEvent::Selected(Err(failure))) => {
            let effects = reply(done, Outcome::Failed(failure));
            lemma_gate_untouched(effects);
            lemma_gate_proceed(state, effects);
        },
        (Phase::Committing { done }, LoopEvent::Committed(Err(failure))) => {
            let held = if done is Some {
                done
            } else {
                state.child_done
            };
            let later = if done is Some {
                state
            } else {
                LoopView { child_done: None, ..state }
            };
            let answer = reply(held, Outcome::Failed(failure));
            lemma_gate_untouched(answer);
            lemma_gate_untouched(answer.push(Effect::InterruptTree));
            lemma_gate_stop(later, answer.push(Effect::InterruptTree));
            lemma_gate_proceed(later, answer);
        },
        (Phase::Turning { done }, LoopEvent::TurnEnded(Ok(answer))) => {
            let shown = lock.push(Effect::Activity(AgentActivity::Idle));
            lemma_gate_push(lock, Effect::Activity(AgentActivity::Idle));
            assert(shown =~= seq![Effect::LockGate, Effect::Activity(AgentActivity::Idle)]);
            let answered = reply(done, Outcome::Answered(answer));
            lemma_gate_untouched(answered);
            lemma_gate_push(answered, Effect::UnlockGate);
            lemma_gate_concat(shown, answered.push(Effect::UnlockGate));
            lemma_gate_proceed(state, shown + answered.push(Effect::UnlockGate));
            assert(seq![Effect::LockGate] + Seq::<Effect>::empty() =~= lock);
        },
        (Phase::Rejecting { done, failure }, LoopEvent::Drained(commands)) => {
            let all = state.deferred + commands@;
            let later = LoopView { deferred: unqueued(all), ..state };
            lemma_gate_rejections(all);
            let first = rejections(all).push(Effect::LockGate);
            let second = first.push(Effect::Activity(failed_activity(failure)));
            let own = reply(done, Outcome::Failed(failure));
            let shown = second + own;
            lemma_gate_push(rejections(all), Effect::LockGate);
            lemma_gate_push(first, Effect::Activity(failed_activity(failure)));
            lemma_gate_untouched(own);
            lemma_gate_concat(second, own);
            let owner = reply(state.child_done, Outcome::Failed(failure));
            lemma_gate_untouched(owner);
            lemma_gate_push(shown, Effect::InterruptTree);
            lemma_gate_push(owner, Effect::AppendInterrupted);
            lemma_gate_push(owner.push(Effect::AppendInterrupted), Effect::UnlockGate);
            let last = owner.push(Effect::AppendInterrupted).push(Effect::UnlockGate);
            lemma_gate_concat(shown.push(Effect::InterruptTree), last);
            lemma_gate_stop(LoopView { child_done: None, ..later }, shown.push(Effect::InterruptTree) + last);
            lemma_gate_push(shown, Effect::UnlockGate);
            lemma_gate_proceed(later, shown.push(Effect::UnlockGate));
        },
        (_, LoopEvent::DrainedAndChecked { commands, .. }) => {
            let later = LoopView { deferred: state.deferred + commands@, ..state };
            assert(seq![Effect::UnlockGate] =~= unlock);
            lemma_gate_proceed(later, unlock);
            let open = Seq::<Effect>::empty().push(Effect::CloseGate);
            lemma_gate_push(Seq::empty(), Effect::CloseGate);
            lemma_gate_push(open, Effect::AppendCompleted);
            lemma_gate_push(open.push(Effect::AppendCompleted), Effect::UnlockGate);
            let plain = open.push(Effect::AppendCompleted).push(Effect::UnlockGate);
            assert(plain =~= seq![Effect::CloseGate, Effect::AppendCompleted, Effect::UnlockGate]);
            lemma_gate_proceed(later, plain);
            if let (Some(ticket), Some(answer)) = (state.child_done, state.child_answer) {
                let answered = Effect::Reply { ticket, outcome: Outcome::Answered(answer) };
                lemma_gate_push(open, answered);
                lemma_gate_push(open.push(answered), Effect::AppendCompleted);
                lemma_gate_push(open.push(answered).push(Effect::AppendCompleted), Effect::UnlockGate);
                let effects = open.push(answered).push(Effect::AppendCompleted).push(Effect::UnlockGate);
                assert(effects =~= seq![
                    Effect::CloseGate,
                    answered,
                    Effect::AppendCompleted,
                    Effect::UnlockGate,
                ]);
                lemma_gate_proceed(LoopView { child_done: None, child_answer: None, ..later }, effects);
            }
        },
        (Phase::Completing { answer }, LoopEvent::Pending(_)) => {
            assert(seq![Effect::UnlockGate] =~= unlock);
            lemma_gate_proceed(state, unlock);
            let owner = reply(state.child_done, Outcome::Answered(answer));
            lemma_gate_untouched(owner);
            lemma_gate_untouched(seq![Effect::CloseGate]);
            lemma_gate_push(owner, Effect::AppendCompleted);
            lemma_gate_push(owner.push(Effect::AppendCompleted), Effect::UnlockGate);
            let last = owner.push(Effect::AppendCompleted).push(Effect::UnlockGate);
            lemma_gate_concat(seq![Effect::CloseGate], last);
            lemma_gate_proceed(
                LoopView { child_done: None, child_answer: None, ..state },
                seq![Effect::CloseGate] + last,
            );
        },
        (Phase::Finishing { .. }, LoopEvent::Running(_)) => {
            assert(seq![Effect::UnlockGate] =~= unlock);
            lemma_gate_proceed(state, unlock);
        },
        (Phase::Waiting, LoopEvent::Running(_)) => {
            lemma_gate_proceed(state, seq![]);
            assert(seq![Effect::LockGate] + Seq::<Effect>::empty() =~= lock);
        },
        _ => {
            lemma_gate_proceed(state, seq![]);
            lemma_gate_untouched(next.effects);
        },
    }
}

proof fn lemma_contains_after(next: Transition, effects: Seq<Effect>)
    ensures
        forall|effect: Effect| effects.contains(effect) ==> #[trigger] next.after(effects).effects.contains(effect),
        forall|effect: Effect|
            next.effects.contains(effect) ==> #[trigger] next.after(effects).effects.contains(effect),
        next.effects.len() > 0 ==> next.after(effects).effects.last() == next.effects.last(),
{
    let all = next.after(effects).effects;
    assert forall|effect: Effect| effects.contains(effect) implies #[trigger] all.contains(effect) by {
        let i = choose|i: int| 0 <= i < effects.len() && effects[i] == effect;
        assert(all[i] == effect);
    }
    assert forall|effect: Effect| next.effects.contains(effect) implies #[trigger] all.contains(effect) by {
        let i = choose|i: int| 0 <= i < next.effects.len() && next.effects[i] == effect;
        assert(all[effects.len() + i] == effect);
    }
}

/// Whoever is to be told something is told it.
#[verifier::rlimit(40)]
pub proof fn whoever_is_due_is_told(state: LoopView, event: LoopEvent, ticket: u64, outcome: Outcome)
    requires
        consistent(state),
        fits(state.phase, event),
        is_told(state, event, ticket, outcome),
    ensures
        transition(state, event).effects.contains(Effect::Reply { ticket, outcome }),
{
    let told = Effect::Reply { ticket, outcome };
    let next = transition(state, event);
    match (state.phase, event) {
        (Phase::Receiving, LoopEvent::OwnerCancelled) => {
            assert(next.effects[0] == told);
        },
        (Phase::Selecting { .. }, LoopEvent::Selected(Err(_))) => {
            assert(next.effects[0] == told);
        },
        (Phase::Committing { .. }, LoopEvent::Committed(Err(_))) => {
            assert(next.effects[0] == told);
        },
        (Phase::Turning { .. }, LoopEvent::TurnEnded(Ok(_))) => {
            assert(next.effects[2] == told);
        },
        (Phase::Rejecting { done, failure }, LoopEvent::Drained(commands)) => {
            let all = state.deferred + commands@;
            let count = rejections(all).len() as int;
            if done == Some(ticket) {
                assert(next.effects[count + 2] == told);
            } else {
                assert(done is None);
                assert(next.effects[count + 3] == told);
            }
        },
        _ => {
            assert(next.effects[1] == told);
        },
    }
}

/// An agent is shown to work from when there is content to commit or a turn to run, and how
/// its turn ended is shown when it has. A child that has nothing left to do is recorded as
/// completed, and forwarding to it ends. An agent whose loop ends is removed last; a child
/// that fails takes its descendants with it.
#[verifier::rlimit(60)]
pub proof fn causes_have_their_effects(state: LoopView, event: LoopEvent)
    requires
        consistent(state),
        fits(state.phase, event),
    ensures
        ({
            let next = transition(state, event);
            &&& (next.request is Commit || next.request is RunTurn && !(event matches LoopEvent::Committed(Ok(_))))
                ==> shows_work(next.effects)
            &&& match (state.phase, event) {
                (Phase::Turning { .. }, LoopEvent::TurnEnded(Ok(_))) => !state.child ==> next.effects.contains(
                    Effect::Activity(AgentActivity::Idle),
                ),
                (Phase::Showing { .. }, LoopEvent::Running(running)) => next.effects.contains(
                    Effect::Activity(
                        if running {
                            AgentActivity::WaitingChildren
                        } else {
                            AgentActivity::Idle
                        },
                    ),
                ),
                (Phase::Rejecting { failure, .. }, _) => match failure {
                    RequestFailure::Interrupted => next.effects.contains(Effect::Activity(AgentActivity::Interrupted)),
                    RequestFailure::Failed(text) => next.effects.contains(
                        Effect::Activity(AgentActivity::Failed(text)),
                    ),
                },
                _ => true,
            }
            &&& completes(state, event) ==> next.effects.contains(Effect::AppendCompleted) && next.effects.contains(
                Effect::CloseGate,
            )
            &&& next.request is Stop <==> next.state.phase is Stopped
            &&& next.request is Stop ==> {
                &&& next.effects.len() > 0
                &&& next.effects.last() is Unregister
                &&& state.child ==> next.effects.contains(Effect::ClearResume)
                &&& !(event is Closed) && !(event is Committed) ==> next.effects.contains(Effect::AppendInterrupted)
            }
            &&& event is OwnerCancelled || event is Closed ==> next.request is Stop
            &&& state.child && (event matches LoopEvent::Committed(Err(_))) ==> next.request is Stop
                && next.effects.contains(Effect::InterruptTree)
            &&& state.child && state.phase is Rejecting ==> next.request is Stop && next.effects.contains(
                Effect::InterruptTree,
            )
        }),
{
    let next = transition(state, event);
    match (state.phase, event) {
        (Phase::Receiving, LoopEvent::OwnerCancelled) => {
            let effects = reply(state.child_done, Outcome::OwnerCancelled).push(Effect::AppendInterrupted);
            let ended = stop(LoopView { child_done: None, ..state });
            assert(effects.last() == Effect::AppendInterrupted);
            assert(effects.contains(Effect::AppendInterrupted));
            if state.child {
                assert(ended.effects[0] == Effect::ClearResume);
            }
            lemma_contains_after(ended, effects);
        },
        (Phase::Receiving, LoopEvent::Closed) => {
            if state.child {
                assert(next.effects[0] == Effect::ClearResume);
            }
        },
        (Phase::Receiving, LoopEvent::Command(command)) => {
            lemma_dispatch_shows(state, command);
        },
        (Phase::Selecting { done, .. }, LoopEvent::Selected(Err(failure))) => {
            lemma_proceed_shows(state);
            lemma_contains_after(proceed(state), reply(done, Outcome::Failed(failure)));
        },
        (Phase::Committing { done }, LoopEvent::Committed(Err(failure))) => {
            let held = if done is Some {
                done
            } else {
                state.child_done
            };
            let later = if done is Some {
                state
            } else {
                LoopView { child_done: None, ..state }
            };
            let answer = reply(held, Outcome::Failed(failure));
            assert(answer.push(Effect::InterruptTree).last() == Effect::InterruptTree);
            assert(answer.push(Effect::InterruptTree).contains(Effect::InterruptTree));
            if state.child {
                assert(stop(later).effects[0] == Effect::ClearResume);
            }
            lemma_contains_after(stop(later), answer.push(Effect::InterruptTree));
            lemma_proceed_shows(later);
            lemma_contains_after(proceed(later), answer);
        },
        (Phase::Turning { done }, LoopEvent::TurnEnded(Ok(answer))) => {
            let effects = seq![Effect::LockGate, Effect::Activity(AgentActivity::Idle)] + reply(
                done,
                Outcome::Answered(answer),
            ).push(Effect::UnlockGate);
            assert(effects[1] == Effect::Activity(AgentActivity::Idle));
            lemma_proceed_shows(state);
            lemma_contains_after(proceed(state), effects);
        },
        (Phase::Rejecting { done, failure }, LoopEvent::Drained(commands)) => {
            let all = state.deferred + commands@;
            let later = LoopView { deferred: unqueued(all), ..state };
            let shown = rejections(all).push(Effect::LockGate).push(
                Effect::Activity(failed_activity(failure)),
            ) + reply(done, Outcome::Failed(failure));
            let index: int = rejections(all).len() as int + 1;
            assert(shown[index] == Effect::Activity(failed_activity(failure)));
            if state.child {
                let ended = stop(LoopView { child_done: None, ..later });
                let last = reply(state.child_done, Outcome::Failed(failure)).push(
                    Effect::AppendInterrupted,
                ).push(Effect::UnlockGate);
                let effects = shown.push(Effect::InterruptTree) + last;
                assert(effects[index] == Effect::Activity(failed_activity(failure)));
                assert(effects[shown.len() as int] == Effect::InterruptTree);
                assert(effects[effects.len() - 2] == Effect::AppendInterrupted);
                assert(ended.effects[0] == Effect::ClearResume);
                lemma_contains_after(ended, effects);
            } else {
                let effects = shown.push(Effect::UnlockGate);
                assert(effects[index] == Effect::Activity(failed_activity(failure)));
                lemma_proceed_shows(later);
                lemma_contains_after(proceed(later), effects);
            }
        },
        (Phase::Settling { .. }, LoopEvent::DrainedAndChecked { commands, .. }) => {
            let later = LoopView { deferred: state.deferred + commands@, ..state };
            lemma_proceed_shows(later);
            lemma_contains_after(proceed(later), seq![Effect::UnlockGate]);
        },
        (Phase::Concluding, LoopEvent::DrainedAndChecked { commands, .. }) => {
            let later = LoopView { deferred: state.deferred + commands@, ..state };
            lemma_proceed_shows(later);
            lemma_contains_after(proceed(later), seq![Effect::UnlockGate]);
            let plain = seq![Effect::CloseGate, Effect::AppendCompleted, Effect::UnlockGate];
            assert(plain[0] == Effect::CloseGate && plain[1] == Effect::AppendCompleted);
            lemma_contains_after(proceed(later), plain);
            if let (Some(ticket), Some(answer)) = (state.child_done, state.child_answer) {
                let effects = seq![
                    Effect::CloseGate,
                    Effect::Reply { ticket, outcome: Outcome::Answered(answer) },
                    Effect::AppendCompleted,
                    Effect::UnlockGate,
                ];
                assert(effects[0] == Effect::CloseGate && effects[2] == Effect::AppendCompleted);
                let finished = LoopView { child_done: None, child_answer: None, ..later };
                lemma_proceed_shows(finished);
                lemma_contains_after(proceed(finished), effects);
            }
        },
        (Phase::Completing { answer }, LoopEvent::Pending(_)) => {
            lemma_proceed_shows(state);
            lemma_contains_after(proceed(state), seq![Effect::UnlockGate]);
            let effects = seq![Effect::CloseGate] + reply(state.child_done, Outcome::Answered(answer)).push(
                Effect::AppendCompleted,
            ).push(Effect::UnlockGate);
            assert(effects[0] == Effect::CloseGate);
            assert(effects[effects.len() - 2] == Effect::AppendCompleted);
            let finished = LoopView { child_done: None, child_answer: None, ..state };
            lemma_proceed_shows(finished);
            lemma_contains_after(proceed(finished), effects);
        },
        (Phase::Showing { .. }, LoopEvent::Running(_)) => {
            assert(next.effects[0] is Activity);
        },
        _ => {
            lemma_proceed_shows(state);
            lemma_contains_after(proceed(state), seq![Effect::UnlockGate]);
        },
    }
}

proof fn lemma_dispatch_shows(state: LoopView, command: AgentCommand)
    ensures
        ({
            let next = dispatch(state, command);
            &&& next.request is Commit || next.request is RunTurn ==> shows_work(next.effects)
            &&& next.request is Stop <==> next.state.phase is Stopped
            &&& next.request is Stop ==> {
                &&& next.effects.last() is Unregister
                &&& state.child ==> next.effects.contains(Effect::ClearResume)
                &&& next.effects.contains(Effect::AppendInterrupted)
            }
            &&& next.effects.len() > 0
        }),
{
    let next = dispatch(state, command);
    if command is Shutdown {
        assert(next.effects[1] == Effect::AppendInterrupted);
        if state.child {
            assert(next.effects[2] == Effect::ClearResume);
        }
    }
}

proof fn lemma_proceed_shows(state: LoopView)
    ensures
        ({
            let next = proceed(state);
            &&& next.request is Commit || next.request is RunTurn ==> shows_work(next.effects)
            &&& next.request is Stop <==> next.state.phase is Stopped
            &&& next.request is Stop ==> {
                &&& next.effects.len() > 0
                &&& next.effects.last() is Unregister
                &&& state.child ==> next.effects.contains(Effect::ClearResume)
                &&& next.effects.contains(Effect::AppendInterrupted)
            }
        }),
{
    if state.deferred.len() > 0 {
        lemma_dispatch_shows(LoopView { deferred: state.deferred.skip(1), ..state }, state.deferred[0]);
    }
}

/// A turn follows once its content has been committed or queued input has been consumed.
/// The answer of a child is kept until nothing is left to do: new input, running jobs and
/// pending notifications are looked for in turn before the child completes with it.
pub proof fn answers_wait_for_what_is_left(state: LoopView, event: LoopEvent)
    requires
        consistent(state),
        fits(state.phase, event),
    ensures
        ({
            let next = transition(state, event);
            &&& next.state.child == state.child
            &&& match (state.phase, event) {
                (Phase::Committing { done }, LoopEvent::Committed(Ok(_))) => {
                    &&& next.request is RunTurn
                    &&& next.state.phase == Phase::Turning { done }
                },
                (Phase::Consuming, LoopEvent::Consumed(true)) => {
                    &&& next.request is RunTurn
                    &&& next.state.phase is Turning
                },
                (Phase::Turning { done }, LoopEvent::TurnEnded(Err(failure))) => {
                    &&& next.request is Drain
                    &&& next.state.phase == Phase::Rejecting { done, failure }
                },
                (Phase::Turning { .. }, LoopEvent::TurnEnded(Ok(answer))) => state.child ==> {
                    &&& next.request is DrainAndCheck
                    &&& next.state.phase == Phase::Settling { answer }
                },
                (Phase::Settling { answer }, LoopEvent::DrainedAndChecked { commands, pending }) => !pending
                    && !has_queued(state.deferred + commands@) ==> {
                    &&& next.request is CheckRunning
                    &&& next.state.phase == Phase::Showing { answer }
                },
                (Phase::Showing { answer }, _) => {
                    &&& next.request is CheckRunning
                    &&& next.state.phase == Phase::Finishing { answer }
                },
                (Phase::Finishing { answer }, LoopEvent::Running(false)) => {
                    &&& next.request is CheckPending
                    &&& next.state.phase == Phase::Completing { answer }
                },
                (Phase::Collecting, LoopEvent::Collected(Some(content))) => content@.len() == 0 && state.child
                    && state.child_answer is Some ==> {
                    &&& next.request is CheckRunning
                    &&& next.state.phase is Waiting
                },
                (Phase::Waiting, LoopEvent::Running(false)) => {
                    &&& next.request is DrainAndCheck
                    &&& next.state.phase is Concluding
                },
                _ => true,
            }
            &&& next.state.child_answer == match (state.phase, event) {
                (Phase::Showing { answer }, _) => Some(answer),
                (Phase::Completing { .. }, LoopEvent::Pending(false)) => None,
                (Phase::Concluding, _) => if completes(state, event) && state.child_done is Some {
                    None
                } else {
                    state.child_answer
                },
                _ => state.child_answer,
            }
        }),
{
}

/// Whether an event leaves the loop without anything of its own to wait for.
pub open spec fn frees(state: LoopView, event: LoopEvent) -> bool {
    match (state.phase, event) {
        (Phase::Consuming, LoopEvent::Consumed(consumed)) => !consumed,
        (Phase::Collecting, LoopEvent::Collected(None)) => true,
        (Phase::Collecting, LoopEvent::Collected(Some(content))) => content@.len() == 0 && !(state.child
            && state.child_answer is Some),
        (Phase::Selecting { .. }, LoopEvent::Selected(Err(_))) => true,
        (Phase::Committing { .. }, LoopEvent::Committed(Err(_))) => !state.child,
        (Phase::Turning { .. }, LoopEvent::TurnEnded(Ok(_))) => !state.child,
        (Phase::Rejecting { .. }, _) => !state.child,
        (Phase::Settling { .. }, LoopEvent::DrainedAndChecked { commands, pending }) => pending || has_queued(
            state.deferred + commands@,
        ),
        (Phase::Finishing { .. }, LoopEvent::Running(running)) => running,
        (Phase::Completing { .. }, _) => true,
        (Phase::Waiting, LoopEvent::Running(running)) => running,
        (Phase::Concluding, _) => true,
        _ => false,
    }
}

/// A loop that is free takes up the first command that waits, and receives one where none
/// does.
pub proof fn free_loops_take_up_the_next_command(state: LoopView, event: LoopEvent)
    requires
        consistent(state),
        fits(state.phase, event),
        frees(state, event),
    ensures
        ({
            let next = transition(state, event);
            let commands = waiting(state, event);
            if commands.len() == 0 {
                &&& next.request is Receive
                &&& next.state.phase is Receiving
                &&& next.state.deferred.len() == 0
            } else {
                &&& next.state.deferred == commands.skip(1)
                &&& taken_up(next, commands[0])
            }
        }),
{
    lemma_steps_in_order(state, event);
}

/// A fresh loop is consistent, owes no one an answer and has nothing to take up.
pub proof fn fresh_loops_are_consistent(child: bool)
    ensures
        consistent(
            LoopView { child, child_done: None, child_answer: None, deferred: seq![], phase: Phase::Receiving },
        ),
{
}

/// A child that completes is closed to forwarded updates first; then its owner is told the
/// answer, its completion is recorded, and only then forwarding is let go.
pub proof fn completions_come_in_order(state: LoopView, event: LoopEvent)
    requires
        consistent(state),
        fits(state.phase, event),
        completes(state, event),
    ensures
        ({
            let effects = transition(state, event).effects;
            &&& effects.len() >= 3
            &&& effects[0] is CloseGate
            &&& if state.child_done is Some {
                &&& effects.len() >= 4
                &&& effects[1] matches Effect::Reply { ticket, .. } && state.child_done == Some(ticket)
                &&& effects[2] is AppendCompleted
                &&& effects[3] is UnlockGate
            } else {
                &&& effects[1] is AppendCompleted
                &&& effects[2] is UnlockGate
            }
        }),
{
}

/// A root shows that it is idle and answers while forwarding is held back.
pub proof fn roots_answer_in_order(state: LoopView, answer: String)
    requires
        consistent(state),
        state.phase is Turning,
        !state.child,
    ensures
        ({
            let effects = transition(state, LoopEvent::TurnEnded(Ok(answer))).effects;
            let done = state.phase->Turning_done;
            &&& effects.len() >= 3
            &&& effects[0] is LockGate
            &&& effects[1] == Effect::Activity(AgentActivity::Idle)
            &&& match done {
                Some(ticket) => effects.len() >= 4 && effects[2] == (Effect::Reply {
                    ticket,
                    outcome: Outcome::Answered(answer),
                }) && effects[3] is UnlockGate,
                None => effects[2] is UnlockGate,
            }
        }),
{
}

/// After a failed turn queued input is rejected first. The failure is shown and told while
/// forwarding is held back. A child takes its descendants with it before its owner is told,
/// is recorded as interrupted, and is forgotten last.
pub proof fn failures_come_in_order(state: LoopView, commands: Vec<AgentCommand>)
    requires
        consistent(state),
        state.phase is Rejecting,
    ensures
        ({
            let effects = transition(state, LoopEvent::Drained(commands)).effects;
            let done = state.phase->Rejecting_done;
            let failure = state.phase->Rejecting_failure;
            let count = rejections(state.deferred + commands@).len() as int;
            let told = Outcome::Failed(failure);
            &&& effects.len() >= count + 3
            &&& forall|i: int| 0 <= i < count ==> (#[trigger] effects[i]) is Reject
            &&& effects[count] is LockGate
            &&& effects[count + 1] is Activity
            &&& !state.child ==> match done {
                Some(ticket) => effects.len() >= count + 4 && effects[count + 2] == (Effect::Reply {
                    ticket,
                    outcome: told,
                }) && effects[count + 3] is UnlockGate,
                None => effects[count + 2] is UnlockGate,
            }
            &&& state.child ==> {
                &&& effects[count + 2] is InterruptTree
                &&& match state.child_done {
                    Some(ticket) => {
                        &&& effects.len() == count + 8
                        &&& effects[count + 3] == (Effect::Reply { ticket, outcome: told })
                        &&& effects[count + 4] is AppendInterrupted
                        &&& effects[count + 5] is UnlockGate
                        &&& effects[count + 6] is ClearResume
                        &&& effects[count + 7] is Unregister
                    },
                    None => {
                        &&& effects.len() == count + 7
                        &&& effects[count + 3] is AppendInterrupted
                        &&& effects[count + 4] is UnlockGate
                        &&& effects[count + 5] is ClearResume
                        &&& effects[count + 6] is Unregister
                    },
                }
            }
        }),
{
    lemma_rejections_reject(state.deferred + commands@);
    let effects = transition(state, LoopEvent::Drained(commands)).effects;
    let all = rejections(state.deferred + commands@);
    assert forall|i: int| 0 <= i < all.len() implies (#[trigger] effects[i]) is Reject by {
        assert(effects[i] == all[i]);
    }
}

proof fn lemma_rejections_reject(commands: Seq<AgentCommand>)
    ensures
        forall|i: int| 0 <= i < rejections(commands).len() ==> (#[trigger] rejections(commands)[i]) is Reject,
    decreases commands.len(),
{
    if commands.len() > 0 {
        lemma_rejections_reject(commands.drop_last());
    }
}

} // verus!
