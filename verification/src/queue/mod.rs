//! Request-boundary user input: who owns a submission, and how it is consumed.

pub mod durable;

use vstd::prelude::*;
use crate::driver::AgentCommand;
use crate::error::HarnessError;
use crate::journal::{AppendIdentity, QueueSettlement, SessionEvent};
use crate::model;
use crate::model::Modeled;
use crate::profiles::ModelProfiles;
use crate::protocol;
use crate::protocol::{Message, ModelProfile, ModelProfileView, UserContent, UserContentView};

verus! {

/// How far a submission has got. Neither of the last two is ever left.
#[derive(Clone, Copy, Debug, PartialEq, Eq, Structural)]
pub enum TokenPhase {
    Pending,
    Claimed,
    Cancelled,
}

/// An attempt to take a submission out of its pending phase.
#[derive(Clone, Copy, Debug, PartialEq, Eq, Structural)]
pub enum TokenAction {
    Cancel,
    Claim,
}

/// The phase after an attempt, and whether the attempt succeeds. A submission that is
/// cancelled already can be cancelled again.
pub open spec fn token_step(phase: TokenPhase, action: TokenAction) -> (TokenPhase, bool) {
    match (phase, action) {
        (TokenPhase::Pending, TokenAction::Cancel) => (TokenPhase::Cancelled, true),
        (TokenPhase::Pending, TokenAction::Claim) => (TokenPhase::Claimed, true),
        (TokenPhase::Cancelled, TokenAction::Cancel) => (TokenPhase::Cancelled, true),
        (_, _) => (phase, false),
    }
}

/// Performs an attempt on a phase.
pub fn attempt(phase: TokenPhase, action: TokenAction) -> (result: (TokenPhase, bool))
    ensures
        result == token_step(phase, action),
{
    match (phase, action) {
        (TokenPhase::Pending, TokenAction::Cancel) => (TokenPhase::Cancelled, true),
        (TokenPhase::Pending, TokenAction::Claim) => (TokenPhase::Claimed, true),
        (TokenPhase::Cancelled, TokenAction::Cancel) => (TokenPhase::Cancelled, true),
        (_, _) => (phase, false),
    }
}

/// The phase of a token's submission, where the board issued the token.
pub open spec fn phase_of(board: Map<usize, TokenPhase>, token: usize) -> Option<TokenPhase> {
    if board.dom().contains(token) {
        Some(board[token])
    } else {
        None
    }
}

/// The board after an attempt on a token, and whether the attempt succeeds. On a token
/// that the board did not issue nothing succeeds.
pub open spec fn board_step(board: Map<usize, TokenPhase>, token: usize, action: TokenAction) -> (
    Map<usize, TokenPhase>,
    bool,
) {
    match phase_of(board, token) {
        Some(phase) => {
            let (next, success) = token_step(phase, action);
            (board.insert(token, next), success)
        },
        None => (board, false),
    }
}

/// The phases of submissions, which the holders of their tokens share.
#[derive(Debug)]
pub struct TokenBoard {
    phases: Vec<TokenPhase>,
}

impl View for TokenBoard {
    type V = Map<usize, TokenPhase>;

    /// The phase of each token that was issued.
    closed spec fn view(&self) -> Map<usize, TokenPhase> {
        Map::new(|token: usize| token < self.phases@.len(), |token: usize| self.phases@[token as int])
    }
}

impl TokenBoard {
    /// A board that has issued nothing.
    pub fn new() -> (board: TokenBoard)
        ensures
            board@ == Map::<usize, TokenPhase>::empty(),
    {
        let board = TokenBoard { phases: Vec::new() };
        assert(board@ =~= Map::empty());
        board
    }
}

impl Default for TokenBoard {
    fn default() -> (board: Self)
        ensures
            board@ == Map::<usize, TokenPhase>::empty(),
    {
        TokenBoard::new()
    }
}

/// Cancellation/ownership token for one request-boundary user submission.
///
/// Clone the token before passing it on. A successful `cancel` guarantees that the input
/// never enters model history. Once claimed, only the commit receipt can determine
/// whether it committed; do not edit or resubmit it until that receipt resolves. Use a
/// fresh token for each submission (including edits and retries).
///
/// The clones of a token stand for one phase on the board that issued it. Every attempt
/// on any of them steps that phase, and leaves those of other tokens as they are.
#[derive(Debug)]
pub struct QueuedPromptToken {
    number: usize,
}

impl View for QueuedPromptToken {
    type V = usize;

    closed spec fn view(&self) -> usize {
        self.number
    }
}

impl Clone for QueuedPromptToken {
    fn clone(&self) -> (copy: Self)
        ensures
            copy == *self,
            copy@ == self@,
    {
        QueuedPromptToken { number: self.number }
    }
}

impl QueuedPromptToken {
    /// A token for a pending submission, which no other token of the board stands for.
    #[must_use]
    pub fn new(board: &mut TokenBoard) -> (token: QueuedPromptToken)
        ensures
            !old(board)@.dom().contains(token@),
            final(board)@ == old(board)@.insert(token@, TokenPhase::Pending),
    {
        let ghost before = board@;
        let number: usize = board.phases.len();
        board.phases.push(TokenPhase::Pending);
        assert(board@ =~= before.insert(number, TokenPhase::Pending));
        QueuedPromptToken { number }
    }

    /// Attempts to take the submission out of its pending phase.
    fn perform(&self, board: &mut TokenBoard, action: TokenAction) -> (success: bool)
        ensures
            (final(board)@, success) == board_step(old(board)@, self@, action),
    {
        let ghost before = board@;
        if self.number >= board.phases.len() {
            return false;
        }
        let (next, success) = attempt(board.phases[self.number], action);
        board.phases.set(self.number, next);
        assert(board@ =~= before.insert(self@, next));
        success
    }

    /// Cancels unless the submission has been claimed for commit. A submission that was
    /// cancelled already counts as cancelled, too.
    #[must_use]
    pub fn cancel(&self, board: &mut TokenBoard) -> (done: bool)
        ensures
            (final(board)@, done) == board_step(old(board)@, self@, TokenAction::Cancel),
    {
        self.perform(board, TokenAction::Cancel)
    }

    /// Claims the submission for commit, unless it has been claimed or cancelled.
    #[must_use]
    pub fn claim(&self, board: &mut TokenBoard) -> (done: bool)
        ensures
            (final(board)@, done) == board_step(old(board)@, self@, TokenAction::Claim),
    {
        self.perform(board, TokenAction::Claim)
    }

    /// The phase of the submission.
    fn phase(&self, board: &TokenBoard) -> (phase: Option<TokenPhase>)
        ensures
            phase == phase_of(board@, self@),
    {
        if self.number < board.phases.len() {
            Some(board.phases[self.number])
        } else {
            None
        }
    }

    /// Whether the submission has been claimed.
    #[must_use]
    pub fn is_claimed(&self, board: &TokenBoard) -> (answer: bool)
        ensures
            answer == (phase_of(board@, self@) == Some(TokenPhase::Claimed)),
    {
        matches!(self.phase(board), Some(TokenPhase::Claimed))
    }

    /// Whether the submission has been cancelled.
    #[must_use]
    pub fn is_cancelled(&self, board: &TokenBoard) -> (answer: bool)
        ensures
            answer == (phase_of(board@, self@) == Some(TokenPhase::Cancelled)),
    {
        matches!(self.phase(board), Some(TokenPhase::Cancelled))
    }
}

/// A call that changes a board: a token is issued, or one of its holders attempts
/// something.
pub enum TokenCall {
    New(usize),
    Attempt(usize, TokenAction),
}

/// The board after calls by any holders, one after the other.
pub open spec fn board_after(start: Map<usize, TokenPhase>, calls: Seq<TokenCall>) -> Map<usize, TokenPhase>
    decreases calls.len(),
{
    if calls.len() == 0 {
        start
    } else {
        let before = board_after(start, calls.drop_last());
        match calls.last() {
            TokenCall::New(token) => before.insert(token, TokenPhase::Pending),
            TokenCall::Attempt(token, action) => board_step(before, token, action).0,
        }
    }
}

/// Whether calls can follow each other: no token is issued twice.
pub open spec fn possible(start: Map<usize, TokenPhase>, calls: Seq<TokenCall>) -> bool {
    forall|i: int|
        0 <= i < calls.len() ==> ((#[trigger] calls[i]) matches TokenCall::New(token) ==> !board_after(
            start,
            calls.take(i),
        ).dom().contains(token))
}

/// Whether a call is an attempt on a token that succeeds.
pub open spec fn succeeds_at(
    start: Map<usize, TokenPhase>,
    calls: Seq<TokenCall>,
    index: int,
    token: usize,
    action: TokenAction,
) -> bool {
    &&& calls[index] == TokenCall::Attempt(token, action)
    &&& board_step(board_after(start, calls.take(index)), token, action).1
}

/// Whether an attempt on a token has succeeded, whichever of its holders made it.
pub open spec fn has_succeeded(
    start: Map<usize, TokenPhase>,
    calls: Seq<TokenCall>,
    token: usize,
    action: TokenAction,
) -> bool {
    exists|i: int| 0 <= i < calls.len() && #[trigger] succeeds_at(start, calls, i, token, action)
}

proof fn lemma_possible(start: Map<usize, TokenPhase>, calls: Seq<TokenCall>, count: int)
    requires
        0 <= count <= calls.len(),
        possible(start, calls),
    ensures
        possible(start, calls.take(count)),
{
    let first = calls.take(count);
    assert forall|i: int| 0 <= i < first.len() implies ((#[trigger] first[i]) matches TokenCall::New(token)
        ==> !board_after(start, first.take(i)).dom().contains(token)) by {
        assert(first.take(i) =~= calls.take(i));
        assert(first[i] == calls[i]);
    }
}

proof fn lemma_one_more(start: Map<usize, TokenPhase>, calls: Seq<TokenCall>, token: usize, action: TokenAction)
    requires
        calls.len() > 0,
    ensures
        has_succeeded(start, calls, token, action) <==> (has_succeeded(start, calls.drop_last(), token, action)
            || succeeds_at(start, calls, calls.len() - 1, token, action)),
{
    let first = calls.drop_last();
    assert forall|i: int| 0 <= i < first.len() implies #[trigger] succeeds_at(start, first, i, token, action)
        == succeeds_at(start, calls, i, token, action) by {
        assert(first.take(i) =~= calls.take(i));
    }
    if has_succeeded(start, calls, token, action) {
        let i = choose|i: int| 0 <= i < calls.len() && #[trigger] succeeds_at(start, calls, i, token, action);
        if i < first.len() {
            assert(succeeds_at(start, first, i, token, action));
        }
    }
    if has_succeeded(start, first, token, action) {
        let i = choose|i: int| 0 <= i < first.len() && #[trigger] succeeds_at(start, first, i, token, action);
        assert(succeeds_at(start, calls, i, token, action));
    }
}

/// A cancelled submission is never claimed, and a claimed one is never cancelled, whatever
/// is called later.
pub proof fn settled_phases_are_kept(start: Map<usize, TokenPhase>, calls: Seq<TokenCall>, token: usize)
    requires
        possible(start, calls),
        start.dom().contains(token),
        start[token] != TokenPhase::Pending,
    ensures
        phase_of(board_after(start, calls), token) == Some(start[token]),
    decreases calls.len(),
{
    if calls.len() > 0 {
        assert(calls.take(calls.len() - 1) =~= calls.drop_last());
        lemma_possible(start, calls, calls.len() - 1);
        settled_phases_are_kept(start, calls.drop_last(), token);
        assert(calls[calls.len() - 1] == calls.last());
    }
}

/// The phase of a token tells what has succeeded: it is claimed once a claim has, it is
/// cancelled once a cancellation has, and it is pending as long as neither has.
pub proof fn phases_tell_what_succeeded(start: Map<usize, TokenPhase>, calls: Seq<TokenCall>, token: usize)
    requires
        possible(start, calls),
        phase_of(start, token) == Some(TokenPhase::Pending),
    ensures
        board_after(start, calls).dom().contains(token),
        board_after(start, calls)[token] == TokenPhase::Claimed <==> has_succeeded(
            start,
            calls,
            token,
            TokenAction::Claim,
        ),
        board_after(start, calls)[token] == TokenPhase::Cancelled <==> has_succeeded(
            start,
            calls,
            token,
            TokenAction::Cancel,
        ),
    decreases calls.len(),
{
    if calls.len() > 0 {
        assert(calls.take(calls.len() - 1) =~= calls.drop_last());
        lemma_possible(start, calls, calls.len() - 1);
        phases_tell_what_succeeded(start, calls.drop_last(), token);
        lemma_one_more(start, calls, token, TokenAction::Claim);
        lemma_one_more(start, calls, token, TokenAction::Cancel);
        assert(calls[calls.len() - 1] == calls.last());
    }
}

/// When an attempt on a token succeeds: a cancellation does unless a claim has succeeded
/// before, and a claim does unless anything has. So a claim succeeds at most once.
pub proof fn attempts_succeed_in_turn(
    start: Map<usize, TokenPhase>,
    calls: Seq<TokenCall>,
    index: int,
    token: usize,
    action: TokenAction,
)
    requires
        possible(start, calls),
        phase_of(start, token) == Some(TokenPhase::Pending),
        0 <= index < calls.len(),
        calls[index] == TokenCall::Attempt(token, action),
    ensures
        succeeds_at(start, calls, index, token, action) <==> match action {
            TokenAction::Cancel => !has_succeeded(start, calls.take(index), token, TokenAction::Claim),
            TokenAction::Claim => !has_succeeded(start, calls.take(index), token, TokenAction::Claim)
                && !has_succeeded(start, calls.take(index), token, TokenAction::Cancel),
        },
{
    lemma_possible(start, calls, index);
    phases_tell_what_succeeded(start, calls.take(index), token);
}

/// Of all attempts on a token, on whichever of its clones, either one claim succeeds and
/// nothing else, or only cancellations do.
pub proof fn claims_exclude_cancellations(
    start: Map<usize, TokenPhase>,
    calls: Seq<TokenCall>,
    token: usize,
    i: int,
    first: TokenAction,
    j: int,
    second: TokenAction,
)
    requires
        possible(start, calls),
        phase_of(start, token) == Some(TokenPhase::Pending),
        0 <= i < j < calls.len(),
        succeeds_at(start, calls, i, token, first),
        succeeds_at(start, calls, j, token, second),
    ensures
        first == TokenAction::Cancel,
        second == TokenAction::Cancel,
{
    attempts_succeed_in_turn(start, calls, j, token, second);
    assert(calls.take(j).take(i) =~= calls.take(i));
    assert(succeeds_at(start, calls.take(j), i, token, first));
}

/// What a caller asks for beside a submission's text.
#[derive(Clone, Debug, Default, PartialEq, Eq)]
pub struct PromptOptions {
    /// Model profile that the session changes to with this submission.
    pub model: Option<String>,
}

/// One submission in an atomic request-boundary batch.
#[derive(Clone)]
pub struct QueuedPrompt {
    pub text: String,
    /// Files that are attached.
    pub paths: Vec<String>,
    pub options: PromptOptions,
    pub token: QueuedPromptToken,
}

/// Whether content holds an image.
pub open spec fn has_image(content: Seq<UserContentView>) -> bool {
    exists|i: int| 0 <= i < content.len() && (#[trigger] content[i]) is Image
}

/// Tests whether content holds an image.
pub fn holds_image(content: &Vec<UserContent>) -> (answer: bool)
    ensures
        answer == has_image(model::views(content@)),
{
    let ghost all = model::views(content@);
    let mut i: usize = 0;
    while i < content.len()
        invariant
            i <= content.len(),
            all == model::views(content@),
            forall|k: int| 0 <= k < i ==> !((#[trigger] all[k]) is Image),
        decreases content.len() - i,
    {
        let image = matches!(&content[i], UserContent::Image { .. });
        assert(all[i as int] == content@[i as int]@);
        if image {
            assert(all[i as int] is Image);
            return true;
        }
        i += 1;
    }
    false
}

/// What is attempted on a queued input: it is cancelled where the turn is interrupted or
/// the session stops, and claimed otherwise.
pub fn admission_action(interrupted: bool, shutting_down: bool) -> (action: TokenAction)
    ensures
        action == if interrupted || shutting_down {
            TokenAction::Cancel
        } else {
            TokenAction::Claim
        },
{
    if interrupted || shutting_down {
        TokenAction::Cancel
    } else {
        TokenAction::Claim
    }
}

/// What the attempt on a queued input comes to. `success` tells whether it succeeded:
/// an input that could not be claimed counts as interrupted.
pub fn conclude_admission(interrupted: bool, shutting_down: bool, success: bool) -> (admitted: Result<
    (),
    HarnessError,
>)
    ensures
        admitted == if interrupted {
            Err::<(), HarnessError>(HarnessError::Interrupted)
        } else if shutting_down {
            Err::<(), HarnessError>(HarnessError::AgentStopped)
        } else if success {
            Ok::<(), HarnessError>(())
        } else {
            Err::<(), HarnessError>(HarnessError::Interrupted)
        },
{
    if interrupted {
        Err(HarnessError::Interrupted)
    } else if shutting_down {
        Err(HarnessError::AgentStopped)
    } else if success {
        Ok(())
    } else {
        Err(HarnessError::Interrupted)
    }
}

/// Claims a queued input, unless the session stops, the turn is interrupted or the
/// input has been claimed or cancelled. An input that is not claimed for one of the
/// first two reasons is cancelled.
pub fn admit_input(
    token: &QueuedPromptToken,
    board: &mut TokenBoard,
    interrupted: bool,
    shutting_down: bool,
) -> (admitted: Result<(), HarnessError>)
    ensures
        admitted is Ok <==> !interrupted && !shutting_down && phase_of(old(board)@, token@) == Some(
            TokenPhase::Pending,
        ),
        admitted matches Err(error) ==> if !interrupted && shutting_down {
            error is AgentStopped
        } else {
            error is Interrupted
        },
        final(board)@ == board_step(
            old(board)@,
            token@,
            if interrupted || shutting_down {
                TokenAction::Cancel
            } else {
                TokenAction::Claim
            },
        ).0,
{
    let action = admission_action(interrupted, shutting_down);
    let success: bool = token.perform(board, action);
    conclude_admission(interrupted, shutting_down, success)
}

/// A successful cancellation guarantees that the input never enters model history:
/// whatever is called later, by whichever holder, the submission stays cancelled and a
/// claim fails, so that `admit_input` refuses it.
pub proof fn cancelled_inputs_are_never_admitted(
    start: Map<usize, TokenPhase>,
    token: usize,
    calls: Seq<TokenCall>,
)
    requires
        board_step(start, token, TokenAction::Cancel).1,
        possible(board_step(start, token, TokenAction::Cancel).0, calls),
    ensures
        ({
            let after = board_after(board_step(start, token, TokenAction::Cancel).0, calls);
            &&& phase_of(after, token) == Some(TokenPhase::Cancelled)
            &&& board_step(after, token, TokenAction::Claim) == (after, false)
        }),
{
    let cancelled = board_step(start, token, TokenAction::Cancel).0;
    settled_phases_are_kept(cancelled, calls, token);
    let after = board_after(cancelled, calls);
    assert(after.insert(token, after[token]) =~= after);
}

/// A model profile that a session changes to.
#[derive(Debug, PartialEq, Eq)]
pub struct SelectedModel {
    pub name: String,
    pub profile: ModelProfile,
    /// Whether the profile differs from the one in use, so that a context for it is
    /// opened before anything is recorded.
    pub replaces: bool,
}

/// The mathematical content of a `SelectedModel`.
#[verifier::ext_equal]
pub struct SelectedModelView {
    pub name: Seq<char>,
    pub profile: ModelProfileView,
    pub replaces: bool,
}

impl View for SelectedModel {
    type V = SelectedModelView;

    open spec fn view(&self) -> SelectedModelView {
        SelectedModelView { name: self.name@, profile: self.profile@, replaces: self.replaces }
    }
}

/// What a change to a model profile comes to.
pub enum Selection {
    /// The profile stays.
    Keep,
    Change(SelectedModelView),
    /// No profile has this name.
    Unknown(Seq<char>),
    /// The profile's model takes no images.
    NoImages(Seq<char>),
}

/// Resolves a change to a model profile. `images` tells whether the submission has images.
pub open spec fn resolved(
    profiles: Map<Seq<char>, ModelProfileView>,
    current: Seq<char>,
    profile: ModelProfileView,
    name: Option<Seq<char>>,
    images: bool,
) -> Selection {
    if name is None || name->0 == current {
        if images && !profile.supports_images {
            Selection::NoImages(profile.model)
        } else {
            Selection::Keep
        }
    } else if !profiles.dom().contains(name->0) {
        Selection::Unknown(name->0)
    } else {
        let selected = profiles[name->0];
        if images && !selected.supports_images {
            Selection::NoImages(selected.model)
        } else {
            Selection::Change(
                SelectedModelView {
                    name: name->0,
                    profile: selected,
                    replaces: !ModelProfile::alike(selected, profile),
                },
            )
        }
    }
}

/// Resolves a change to a model profile before anything is recorded, so that a profile
/// that does not fit never opens a provider context.
pub fn prepare_selection(
    profiles: &ModelProfiles,
    current: &String,
    profile: &ModelProfile,
    name: Option<String>,
    images: bool,
) -> (selection: Result<Option<SelectedModel>, HarnessError>)
    ensures
        match resolved(profiles@, current@, profile@, model::text_view(name), images) {
            Selection::Keep => selection matches Ok(None),
            Selection::Change(expected) => selection matches Ok(Some(selected)) && selected@ == expected,
            Selection::Unknown(missing) => selection matches Err(HarnessError::UnknownModelProfile(text)) && text@
                == missing,
            Selection::NoImages(shown) => selection matches Err(HarnessError::ImagesUnsupported(text)) && text@
                == shown,
        },
{
    let wanted: Option<String> = match name {
        Some(text) => if text == *current {
            None
        } else {
            Some(text)
        },
        None => None,
    };
    match wanted {
        Some(text) => {
            match profiles.get(text.as_str()) {
                Some(found) => {
                    if images && !found.supports_images {
                        return Err(HarnessError::ImagesUnsupported(found.model.clone()));
                    }
                    let replaces = !found.same(profile);
                    Ok(Some(SelectedModel { name: text, profile: found.duplicate(), replaces }))
                },
                None => Err(HarnessError::UnknownModelProfile(text)),
            }
        },
        None => {
            if images && !profile.supports_images {
                return Err(HarnessError::ImagesUnsupported(profile.model.clone()));
            }
            Ok(None)
        },
    }
}

/// Refuses a context whose history has images that the selected model cannot take.
pub fn accept_replacement(profile: &ModelProfile, images: bool) -> (accepted: Result<(), HarnessError>)
    ensures
        accepted is Ok <==> profile.supports_images || !images,
        accepted matches Err(error) ==> (error matches HarnessError::ImagesUnsupported(text) && text@
            == profile.model@),
{
    if !profile.supports_images && images {
        return Err(HarnessError::ImagesUnsupported(profile.model.clone()));
    }
    Ok(())
}

/// What is recorded of a change to a model profile, before it takes effect.
pub fn selection_event(selected: &SelectedModel) -> (event: SessionEvent)
    ensures
        event matches SessionEvent::ModelChanged { model_profile, max_context } && model_profile@
            == selected.name@ && max_context == selected.profile.max_context,
{
    SessionEvent::ModelChanged {
        model_profile: selected.name.clone(),
        max_context: selected.profile.max_context,
    }
}

/// What is recorded of a submission, in order: the change of its model profile, then its
/// message. A failure in between leaves a prefix of them.
pub fn submission_events(selection: &Option<SelectedModel>, content: Vec<UserContent>) -> (events: Vec<SessionEvent>)
    ensures
        match selection {
            Some(selected) => {
                &&& events@.len() == 2
                &&& events@[0] matches SessionEvent::ModelChanged { model_profile, max_context } && model_profile@
                    == selected.name@ && max_context == selected.profile.max_context
            },
            None => events@.len() == 1,
        },
        events@.last() == (SessionEvent::MessageCommitted { message: Message::User(content) }),
{
    let mut events: Vec<SessionEvent> = Vec::new();
    if let Some(selected) = selection {
        events.push(selection_event(selected));
    }
    events.push(SessionEvent::MessageCommitted { message: Message::User(content) });
    events
}

/// How a durable attempt is settled once its message stands in the journal.
pub fn commit_settlement(attempt: Option<u64>, message: AppendIdentity) -> (event: Option<SessionEvent>)
    ensures
        event == match attempt {
            Some(number) => Some(
                SessionEvent::QueueSettlement {
                    attempt: number,
                    settlement: QueueSettlement::Committed { event: message.event },
                },
            ),
            None => None,
        },
{
    match attempt {
        Some(number) => Some(
            SessionEvent::QueueSettlement {
                attempt: number,
                settlement: QueueSettlement::Committed { event: message.event },
            },
        ),
        None => None,
    }
}

/// What a claimed input has appended to the journal.
#[derive(Clone, Debug, PartialEq, Eq)]
pub struct ClaimedAppends {
    pub appends: Vec<AppendIdentity>,
    /// The append of the input's message.
    pub message: Option<AppendIdentity>,
}

impl ClaimedAppends {
    /// Nothing appended.
    pub fn new() -> (claim: ClaimedAppends)
        ensures
            claim.appends@ == Seq::<AppendIdentity>::empty(),
            claim.message is None,
    {
        ClaimedAppends { appends: Vec::new(), message: None }
    }

    /// Notes an append that the journal accepted.
    pub fn accepted(&mut self, identity: AppendIdentity, is_message: bool)
        ensures
            final(self).appends@ == old(self).appends@.push(identity),
            final(self).message == if is_message {
                Some(identity)
            } else {
                old(self).message
            },
    {
        self.appends.push(identity);
        if is_message {
            self.message = Some(identity);
        }
    }
}

/// Takes a command from the mailbox at a request boundary: queued input is consumed,
/// everything else waits for the loop.
pub fn sort_command(command: AgentCommand, deferred: &mut Vec<AgentCommand>) -> (inputs: Option<Vec<u64>>)
    ensures
        match command {
            AgentCommand::QueuedInputs(batch) => inputs == Some(batch) && final(deferred)@ == old(deferred)@,
            _ => inputs is None && final(deferred)@ == old(deferred)@.push(command),
        },
{
    match command {
        AgentCommand::QueuedInputs(batch) => Some(batch),
        other => {
            deferred.push(other);
            None
        },
    }
}

/// A session changes to a profile that it was asked to change to, that it does not have and
/// that is known, and the images of the submission can be taken by the profile that it then
/// has. It is replaced where anything of it differs.
pub proof fn selections_are_what_was_asked_for(
    profiles: Map<Seq<char>, ModelProfileView>,
    current: Seq<char>,
    profile: ModelProfileView,
    name: Option<Seq<char>>,
    images: bool,
)
    ensures
        match resolved(profiles, current, profile, name, images) {
            Selection::Keep => {
                &&& name is None || name == Some(current)
                &&& images ==> profile.supports_images
            },
            Selection::Change(selected) => {
                &&& name == Some(selected.name)
                &&& selected.name != current
                &&& profiles.dom().contains(selected.name)
                &&& selected.profile == profiles[selected.name]
                &&& images ==> selected.profile.supports_images
                &&& selected.replaces <==> selected.profile != profile
            },
            Selection::Unknown(missing) => {
                &&& name == Some(missing)
                &&& missing != current
                &&& !profiles.dom().contains(missing)
            },
            Selection::NoImages(shown) => {
                &&& images
                &&& name is None || name == Some(current) ==> !profile.supports_images && shown == profile.model
                &&& name is Some && name->0 != current ==> profiles.dom().contains(name->0)
                    && !profiles[name->0].supports_images && shown == profiles[name->0].model
            },
        },
{
    if let Selection::Change(selected) = resolved(profiles, current, profile, name, images) {
        protocol::alike_profiles_are_equal(selected.profile, profile);
    }
}

} // verus!
