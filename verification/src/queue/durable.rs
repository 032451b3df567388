//! Durable draft admission, restart recovery and retirement. An attempt's authority
//! lives exactly as long as its permit.

use std::collections::BTreeSet;
use vstd::prelude::*;
use crate::error::{HarnessError, QueueConflict};
use crate::identity::{AgentId, AgentPath};
use crate::journal::{AppendIdentity, QueueIntent, QueueSettlement, SessionEvent};
use crate::model;
use crate::model::Modeled;
use crate::protocol::{ImageReference, ImageReferenceView, UserContent, UserContentView};
use crate::queue;
use crate::queue::{QueuedPromptToken, TokenAction, TokenBoard, TokenPhase};

verus! {

broadcast use vstd::std_specs::btree::group_btree_axioms;

/// The permits of queued attempts in this process.
#[derive(Debug)]
pub struct QueueRegistry {
    held: BTreeSet<u64>,
    issued: BTreeSet<u64>,
}

/// The mathematical content of a `QueueRegistry`.
#[verifier::ext_equal]
pub struct RegistryView {
    /// Attempts whose permit is live.
    pub held: Set<u64>,
    /// Attempts that a permit was issued for.
    pub issued: Set<u64>,
}

impl View for QueueRegistry {
    type V = RegistryView;

    closed spec fn view(&self) -> RegistryView {
        RegistryView { held: self.held@, issued: self.issued@ }
    }
}

impl RegistryView {
    /// With a permit for an attempt.
    pub open spec fn registered(self, attempt: u64) -> RegistryView {
        RegistryView { held: self.held.insert(attempt), issued: self.issued.insert(attempt) }
    }

    /// Without anything known of an attempt.
    pub open spec fn retired(self, attempt: u64) -> RegistryView {
        RegistryView { held: self.held.remove(attempt), issued: self.issued.remove(attempt) }
    }

    /// Without anything known of some attempts.
    pub open spec fn all_retired(self, attempts: Seq<u64>) -> RegistryView
        decreases attempts.len(),
    {
        if attempts.len() == 0 {
            self
        } else {
            self.all_retired(attempts.drop_last()).retired(attempts.last())
        }
    }
}

impl QueueRegistry {
    /// No permits.
    pub fn new() -> (registry: QueueRegistry)
        ensures
            registry@ == (RegistryView { held: Set::empty(), issued: Set::empty() }),
    {
        let registry = QueueRegistry { held: BTreeSet::new(), issued: BTreeSet::new() };
        assert(registry@ =~= RegistryView { held: Set::empty(), issued: Set::empty() });
        registry
    }

    /// Whether a permit for an attempt is live.
    pub fn is_held(&self, attempt: u64) -> (answer: bool)
        ensures
            answer == self@.held.contains(attempt),
    {
        self.held.contains(&attempt)
    }

    /// Whether a permit for an attempt was issued.
    pub fn is_issued(&self, attempt: u64) -> (answer: bool)
        ensures
            answer == self@.issued.contains(attempt),
    {
        self.issued.contains(&attempt)
    }

    /// Issues a permit for an attempt.
    pub fn register(&mut self, attempt: u64)
        ensures
            final(self)@ == old(self)@.registered(attempt),
    {
        let ghost before = self@;
        let _ = self.held.insert(attempt);
        let _ = self.issued.insert(attempt);
        assert(self@ =~= before.registered(attempt));
    }

    /// Notes that a permit was dropped or consumed. It stays known as issued.
    pub fn release(&mut self, attempt: u64)
        ensures
            final(self)@ == (RegistryView { held: old(self)@.held.remove(attempt), issued: old(self)@.issued }),
    {
        let ghost before = self@;
        let _ = self.held.remove(&attempt);
        assert(self@ =~= RegistryView { held: before.held.remove(attempt), issued: before.issued });
    }

    /// Forgets an attempt.
    pub fn retire(&mut self, attempt: u64)
        ensures
            final(self)@ == old(self)@.retired(attempt),
    {
        let ghost before = self@;
        let _ = self.held.remove(&attempt);
        let _ = self.issued.remove(&attempt);
        assert(self@ =~= before.retired(attempt));
    }
}

/// What the journal knows of a draft.
#[derive(Clone, Debug, PartialEq, Eq)]
pub struct IntentRecord {
    pub agent: AgentId,
    pub intent: QueueIntent,
    /// Whether the draft is done with.
    pub acknowledged: bool,
    /// The append of the draft's message.
    pub message: Option<AppendIdentity>,
    pub settlement: Option<QueueSettlement>,
}

/// Judges a new draft. `cancelled` tells whether its token has been cancelled.
pub fn conclude_draft(shutting_down: bool, cancelled: bool) -> (admitted: Result<(), HarnessError>)
    ensures
        admitted == if shutting_down {
            Err::<(), HarnessError>(HarnessError::AgentStopped)
        } else if cancelled {
            Err::<(), HarnessError>(HarnessError::Interrupted)
        } else {
            Ok::<(), HarnessError>(())
        },
{
    if shutting_down {
        Err(HarnessError::AgentStopped)
    } else if cancelled {
        Err(HarnessError::Interrupted)
    } else {
        Ok(())
    }
}

/// Admits a new draft, unless the session stops or the draft has been cancelled.
pub fn admit_draft(token: &QueuedPromptToken, board: &TokenBoard, shutting_down: bool) -> (admitted: Result<
    (),
    HarnessError,
>)
    ensures
        admitted is Ok <==> !shutting_down && queue::phase_of(board@, token@) != Some(TokenPhase::Cancelled),
        admitted matches Err(error) ==> if shutting_down {
            error is AgentStopped
        } else {
            error is Interrupted
        },
{
    conclude_draft(shutting_down, token.is_cancelled(board))
}

/// Admits a draft to dispatch. A permit is only ever registered by the session that
/// prepared or recovered it, so that a stale or foreign one cannot be dispatched.
pub fn admit_dispatch(registry: &QueueRegistry, attempt: u64, shutting_down: bool) -> (admitted: Result<
    (),
    HarnessError,
>)
    ensures
        match admitted {
            Ok(()) => !shutting_down && registry@.held.contains(attempt),
            Err(error) => if shutting_down {
                error is AgentStopped
            } else {
                !registry@.held.contains(attempt) && error == HarnessError::Queue(QueueConflict::NotReserved)
            },
        },
{
    if shutting_down {
        return Err(HarnessError::AgentStopped);
    }
    if !registry.is_held(attempt) {
        return Err(HarnessError::Queue(QueueConflict::NotReserved));
    }
    Ok(())
}

/// What became of a draft.
#[derive(Clone, Copy, Debug, PartialEq, Eq, Structural)]
pub enum RecoveredState {
    /// Its permit is live.
    Unresolved,
    /// Its message stands in the journal.
    Committed(AppendIdentity),
    /// Its permit was issued here and dropped.
    Released,
    /// A previous process saved it: a new permit is issued.
    Retry,
}

/// Whether a draft belongs to the session's root and is not done with.
pub open spec fn is_open(record: IntentRecord, root: AgentPath) -> bool {
    record.agent@ == root && !record.acknowledged
}

/// What became of an open draft. An abandoned one yields nothing: it is never retried.
pub open spec fn recovered(record: IntentRecord, registry: RegistryView) -> Option<RecoveredState> {
    if registry.held.contains(record.intent.attempt) {
        Some(RecoveredState::Unresolved)
    } else if record.message is Some {
        Some(RecoveredState::Committed(record.message->0))
    } else if record.settlement is Some {
        None
    } else if registry.issued.contains(record.intent.attempt) {
        Some(RecoveredState::Released)
    } else {
        Some(RecoveredState::Retry)
    }
}

/// The permits after drafts have been recovered: each retried draft gets one.
pub open spec fn scanned_registry(
    records: Seq<IntentRecord>,
    root: AgentPath,
    registry: RegistryView,
) -> RegistryView
    decreases records.len(),
{
    if records.len() == 0 {
        registry
    } else {
        let earlier = scanned_registry(records.drop_last(), root, registry);
        if is_open(records.last(), root) && recovered(records.last(), earlier) == Some(RecoveredState::Retry) {
            earlier.registered(records.last().intent.attempt)
        } else {
            earlier
        }
    }
}

/// The drafts that are recovered, by their positions, with what became of them.
pub open spec fn scanned(records: Seq<IntentRecord>, root: AgentPath, registry: RegistryView) -> Seq<
    (int, RecoveredState),
>
    decreases records.len(),
{
    if records.len() == 0 {
        seq![]
    } else {
        let earlier = scanned(records.drop_last(), root, registry);
        let state = recovered(records.last(), scanned_registry(records.drop_last(), root, registry));
        if is_open(records.last(), root) && state is Some {
            earlier.push((records.len() - 1, state->0))
        } else {
            earlier
        }
    }
}

/// The attempts that get a new permit.
pub open spec fn minted(records: Seq<IntentRecord>, root: AgentPath, registry: RegistryView) -> Seq<u64>
    decreases records.len(),
{
    if records.len() == 0 {
        seq![]
    } else {
        let earlier = minted(records.drop_last(), root, registry);
        let state = recovered(records.last(), scanned_registry(records.drop_last(), root, registry));
        if is_open(records.last(), root) && state == Some(RecoveredState::Retry) {
            earlier.push(records.last().intent.attempt)
        } else {
            earlier
        }
    }
}

/// The attachments of content.
pub open spec fn attachments(content: Seq<UserContentView>) -> Seq<ImageReferenceView>
    decreases content.len(),
{
    if content.len() == 0 {
        seq![]
    } else {
        match content.last() {
            UserContentView::Image { image } => attachments(content.drop_last()).push(image),
            _ => attachments(content.drop_last()),
        }
    }
}

/// A draft that is recovered: its position in the journal's list, and what became of it.
#[derive(Clone, Copy, Debug, PartialEq, Eq, Structural)]
pub struct RecoveredDraft {
    pub position: usize,
    pub state: RecoveredState,
}

/// The contents of recovered drafts.
pub open spec fn drafts(recovered: Seq<RecoveredDraft>) -> Seq<(int, RecoveredState)> {
    recovered.map_values(|draft: RecoveredDraft| (draft.position as int, draft.state))
}

/// Discovers the open drafts of a session's root. Only a draft saved by a previous
/// process yields a permit. Returns the drafts, and the attempts that got a permit.
pub fn scan_queued_prompts(records: &Vec<IntentRecord>, root: &AgentId, registry: &mut QueueRegistry) -> (found: (
    Vec<RecoveredDraft>,
    Vec<u64>,
))
    ensures
        drafts(found.0@) == scanned(records@, root@, old(registry)@),
        found.1@ == minted(records@, root@, old(registry)@),
        final(registry)@ == scanned_registry(records@, root@, old(registry)@),
{
    let ghost before = registry@;
    let mut list: Vec<RecoveredDraft> = Vec::new();
    let mut issued: Vec<u64> = Vec::new();
    let mut i: usize = 0;
    while i < records.len()
        invariant
            i <= records.len(),
            drafts(list@) =~= scanned(records@.take(i as int), root@, before),
            issued@ =~= minted(records@.take(i as int), root@, before),
            registry@ == scanned_registry(records@.take(i as int), root@, before),
        decreases records.len() - i,
    {
        let record = &records[i];
        proof {
            assert(records@.take(i + 1).drop_last() =~= records@.take(i as int));
            assert(records@.take(i + 1).last() == *record);
        }
        if record.agent.same(root) && !record.acknowledged {
            let attempt = record.intent.attempt;
            let state: Option<RecoveredState> = if registry.is_held(attempt) {
                Some(RecoveredState::Unresolved)
            } else if let Some(append) = record.message {
                Some(RecoveredState::Committed(append))
            } else if record.settlement.is_some() {
                None
            } else if registry.is_issued(attempt) {
                Some(RecoveredState::Released)
            } else {
                Some(RecoveredState::Retry)
            };
            assert(state == recovered(*record, registry@));
            if let Some(state) = state {
                if let RecoveredState::Retry = state {
                    registry.register(attempt);
                    issued.push(attempt);
                }
                let ghost earlier = list@;
                list.push(RecoveredDraft { position: i, state });
                assert(drafts(list@) =~= drafts(earlier).push((i as int, state)));
            }
        }
        i += 1;
    }
    assert(records@.take(i as int) =~= records@);
    (list, issued)
}

/// Takes permits back that died with a failed recovery, so that the next one issues
/// them again.
pub fn roll_back(registry: &mut QueueRegistry, issued: &Vec<u64>)
    ensures
        final(registry)@ == old(registry)@.all_retired(issued@),
{
    let ghost before = registry@;
    let mut i: usize = 0;
    while i < issued.len()
        invariant
            i <= issued.len(),
            registry@ == before.all_retired(issued@.take(i as int)),
        decreases issued.len() - i,
    {
        assert(issued@.take(i + 1).drop_last() =~= issued@.take(i as int));
        registry.retire(issued[i]);
        i += 1;
    }
    assert(issued@.take(i as int) =~= issued@);
}

/// The attachments that a recovered draft is shown with: those of a committed one are
/// not needed.
pub fn draft_attachments(state: RecoveredState, content: &Vec<UserContent>) -> (images: Vec<ImageReference>)
    ensures
        model::views(images@) == if state is Committed {
            seq![]
        } else {
            attachments(model::views(content@))
        },
{
    let mut images: Vec<ImageReference> = Vec::new();
    if let RecoveredState::Committed(_) = state {
        assert(model::views(images@) =~= seq![]);
        return images;
    }
    let ghost all = model::views(content@);
    let mut i: usize = 0;
    assert(model::views(images@) =~= seq![]);
    while i < content.len()
        invariant
            i <= content.len(),
            all == model::views(content@),
            model::views(images@) == attachments(all.take(i as int)),
        decreases content.len() - i,
    {
        proof {
            assert(all.take(i + 1).drop_last() =~= all.take(i as int));
            assert(all.take(i + 1).last() == content@[i as int]@);
        }
        if let UserContent::Image { image } = &content[i] {
            let ghost earlier = images@;
            images.push(image.duplicate());
            assert(model::views(images@) =~= model::views(earlier).push(image@));
        }
        i += 1;
    }
    assert(all.take(i as int) =~= all);
    images
}

/// The first record of a root's attempt.
pub open spec fn record_of(records: Seq<IntentRecord>, root: AgentPath, attempt: u64) -> Option<int> {
    model::first(
        records,
        |record: IntentRecord| record.intent.attempt == attempt && record.agent@ == root,
    )
}

/// Finds the first record of a root's attempt.
fn find_record(records: &Vec<IntentRecord>, root: &AgentId, attempt: u64) -> (found: Option<usize>)
    ensures
        match found {
            Some(index) => index < records.len() && record_of(records@, root@, attempt) == Some(index as int),
            None => record_of(records@, root@, attempt) is None,
        },
{
    let ghost test = |record: IntentRecord| record.intent.attempt == attempt && record.agent@ == root@;
    let mut i: usize = 0;
    while i < records.len()
        invariant
            i <= records.len(),
            test == (|record: IntentRecord| record.intent.attempt == attempt && record.agent@ == root@),
            forall|k: int| 0 <= k < i ==> !test(#[trigger] records@[k]),
        decreases records.len() - i,
    {
        if records[i].intent.attempt == attempt && records[i].agent.same(root) {
            proof {
                assert(test(records@[i as int]));
                model::lemma_first(records@, test, i as int);
            }
            return Some(i);
        }
        i += 1;
    }
    proof {
        model::lemma_first(records@, test, i as int);
    }
    None
}

/// Why a saved attempt cannot be reclaimed.
pub open spec fn reclaim_conflict(
    records: Seq<IntentRecord>,
    root: AgentPath,
    registry: RegistryView,
    attempt: u64,
) -> Option<QueueConflict> {
    if !registry.issued.contains(attempt) {
        Some(QueueConflict::NotReserved)
    } else if registry.held.contains(attempt) {
        Some(QueueConflict::Held)
    } else {
        match record_of(records, root, attempt) {
            None => Some(QueueConflict::Unknown),
            Some(index) => if records[index].message is Some {
                Some(QueueConflict::Committed)
            } else if records[index].acknowledged || records[index].settlement is Some {
                Some(QueueConflict::Unknown)
            } else {
                None
            },
        }
    }
}

/// Regains the permit for a saved, uncommitted attempt that was issued here, after its
/// previous permit was dropped. Returns the position of the saved draft.
pub fn reclaim_queued_prompt(
    records: &Vec<IntentRecord>,
    root: &AgentId,
    registry: &mut QueueRegistry,
    attempt: u64,
    shutting_down: bool,
) -> (reclaimed: Result<usize, HarnessError>)
    ensures
        match reclaimed {
            Ok(index) => {
                &&& !shutting_down
                &&& reclaim_conflict(records@, root@, old(registry)@, attempt) is None
                &&& record_of(records@, root@, attempt) == Some(index as int)
                &&& final(registry)@ == old(registry)@.registered(attempt)
            },
            Err(error) => {
                &&& final(registry)@ == old(registry)@
                &&& if shutting_down {
                    error is AgentStopped
                } else {
                    reclaim_conflict(records@, root@, old(registry)@, attempt) matches Some(conflict) && error
                        == HarnessError::Queue(conflict)
                }
            },
        },
{
    if shutting_down {
        return Err(HarnessError::AgentStopped);
    }
    if !registry.is_issued(attempt) {
        return Err(HarnessError::Queue(QueueConflict::NotReserved));
    }
    if registry.is_held(attempt) {
        return Err(HarnessError::Queue(QueueConflict::Held));
    }
    match find_record(records, root, attempt) {
        Some(index) => {
            let record = &records[index];
            if record.message.is_some() {
                return Err(HarnessError::Queue(QueueConflict::Committed));
            }
            if record.acknowledged || record.settlement.is_some() {
                return Err(HarnessError::Queue(QueueConflict::Unknown));
            }
            registry.register(attempt);
            Ok(index)
        },
        None => Err(HarnessError::Queue(QueueConflict::Unknown)),
    }
}

/// How an attempt is retired.
#[derive(Clone, Copy, Debug, PartialEq, Eq, Structural)]
pub enum Retirement {
    /// Nothing is left to record: the attempt is forgotten.
    Forget,
    /// It is settled, unless that has been recorded, and acknowledged; then forgotten.
    Record { settlement: Option<QueueSettlement> },
    Refuse(QueueConflict),
}

/// How an attempt is retired: acknowledged when committed, or abandoned when never
/// committed. `blocked` tells whether another permit for it is live.
pub open spec fn retirement(
    records: Seq<IntentRecord>,
    root: AgentPath,
    attempt: u64,
    abandon: bool,
    blocked: bool,
) -> Retirement {
    if blocked {
        Retirement::Refuse(QueueConflict::Held)
    } else {
        match record_of(records, root, attempt) {
            None => if abandon {
                Retirement::Forget
            } else {
                Retirement::Refuse(QueueConflict::Unknown)
            },
            Some(index) => {
                let record = records[index];
                if record.acknowledged {
                    Retirement::Forget
                } else if abandon && record.message is Some {
                    Retirement::Refuse(QueueConflict::Committed)
                } else if !abandon && record.message is None {
                    Retirement::Refuse(QueueConflict::Uncommitted)
                } else {
                    Retirement::Record {
                        settlement: if record.settlement is Some {
                            None
                        } else if abandon {
                            Some(QueueSettlement::NotCommitted)
                        } else {
                            Some(QueueSettlement::Committed { event: record.message->0.event })
                        },
                    }
                }
            },
        }
    }
}

/// Whether retiring is blocked. A live claim writes its own settlement, so retiring waits
/// for it. Only the own permit of one who abandons, once cancelled, may be live.
pub fn retirement_blocked(registry: &QueueRegistry, attempt: u64, own_permit: bool, cancelled: bool) -> (blocked:
    bool)
    ensures
        blocked == (registry@.held.contains(attempt) && !(own_permit && cancelled)),
{
    registry.is_held(attempt) && !(own_permit && cancelled)
}

/// Cancels an attempt that is abandoned, and tells whether retiring it is blocked. Once
/// the cancellation has won, what the token was dispatched for cannot commit.
pub fn abandonment_blocked(
    token: &QueuedPromptToken,
    board: &mut TokenBoard,
    registry: &QueueRegistry,
    attempt: u64,
    own_permit: bool,
) -> (blocked: bool)
    ensures
        final(board)@ == queue::board_step(old(board)@, token@, TokenAction::Cancel).0,
        blocked == (registry@.held.contains(attempt) && !(own_permit && queue::board_step(
            old(board)@,
            token@,
            TokenAction::Cancel,
        ).1)),
{
    let cancelled: bool = token.cancel(board);
    retirement_blocked(registry, attempt, own_permit, cancelled)
}

/// Decides how an attempt is retired.
pub fn retire(
    records: &Vec<IntentRecord>,
    root: &AgentId,
    attempt: u64,
    abandon: bool,
    blocked: bool,
) -> (outcome: Retirement)
    ensures
        outcome == retirement(records@, root@, attempt, abandon, blocked),
{
    if blocked {
        return Retirement::Refuse(QueueConflict::Held);
    }
    match find_record(records, root, attempt) {
        None => if abandon {
            Retirement::Forget
        } else {
            Retirement::Refuse(QueueConflict::Unknown)
        },
        Some(index) => {
            let record = &records[index];
            if record.acknowledged {
                return Retirement::Forget;
            }
            let settlement = match (abandon, record.message) {
                (false, Some(append)) => QueueSettlement::Committed { event: append.event },
                (false, None) => {
                    return Retirement::Refuse(QueueConflict::Uncommitted);
                },
                (true, Some(_)) => {
                    return Retirement::Refuse(QueueConflict::Committed);
                },
                (true, None) => QueueSettlement::NotCommitted,
            };
            Retirement::Record {
                settlement: if record.settlement.is_none() {
                    Some(settlement)
                } else {
                    None
                },
            }
        },
    }
}

/// What is recorded of a retirement, in order.
pub fn retirement_events(attempt: u64, settlement: Option<QueueSettlement>) -> (events: Vec<SessionEvent>)
    ensures
        events@ == match settlement {
            Some(settled) => seq![
                SessionEvent::QueueSettlement { attempt, settlement: settled },
                SessionEvent::QueueAcknowledged { attempt },
            ],
            None => seq![SessionEvent::QueueAcknowledged { attempt }],
        },
{
    let mut events: Vec<SessionEvent> = Vec::new();
    if let Some(settled) = settlement {
        events.push(SessionEvent::QueueSettlement { attempt, settlement: settled });
    }
    events.push(SessionEvent::QueueAcknowledged { attempt });
    assert(events@ =~= match settlement {
        Some(settled) => seq![
            SessionEvent::QueueSettlement { attempt, settlement: settled },
            SessionEvent::QueueAcknowledged { attempt },
        ],
        None => seq![SessionEvent::QueueAcknowledged { attempt }],
    });
    events
}

/// Whether permits grow: what was held or issued still is.
spec fn grown(before: RegistryView, after: RegistryView) -> bool {
    before.held.subset_of(after.held) && before.issued.subset_of(after.issued)
}

proof fn lemma_scan(records: Seq<IntentRecord>, root: AgentPath, registry: RegistryView)
    ensures
        grown(registry, scanned_registry(records, root, registry)),
        forall|i: int|
            0 <= i < minted(records, root, registry).len() ==> {
                &&& scanned_registry(records, root, registry).held.contains(
                    #[trigger] minted(records, root, registry)[i],
                )
                &&& !registry.held.contains(minted(records, root, registry)[i])
                &&& !registry.issued.contains(minted(records, root, registry)[i])
            },
        minted(records, root, registry).no_duplicates(),
        forall|attempt: u64| #[trigger]
            scanned_registry(records, root, registry).held.contains(attempt) ==> registry.held.contains(attempt)
                || minted(records, root, registry).contains(attempt),
        forall|attempt: u64| #[trigger]
            scanned_registry(records, root, registry).issued.contains(attempt) ==> registry.issued.contains(
                attempt,
            ) || minted(records, root, registry).contains(attempt),
    decreases records.len(),
{
    if records.len() > 0 {
        let rest = records.drop_last();
        lemma_scan(rest, root, registry);
        let earlier = minted(rest, root, registry);
        let all = minted(records, root, registry);
        let before = scanned_registry(rest, root, registry);
        let after = scanned_registry(records, root, registry);
        let attempt = records.last().intent.attempt;
        if is_open(records.last(), root) && recovered(records.last(), before) == Some(RecoveredState::Retry) {
            assert(all == earlier.push(attempt));
            assert(all[earlier.len() as int] == attempt);
            assert forall|other: u64| earlier.contains(other) implies all.contains(other) by {
                let k = choose|k: int| 0 <= k < earlier.len() && earlier[k] == other;
                assert(all[k] == other);
            }
            assert forall|i: int| 0 <= i < all.len() implies {
                &&& after.held.contains(#[trigger] all[i])
                &&& !registry.held.contains(all[i])
                &&& !registry.issued.contains(all[i])
            } by {
                if i < earlier.len() {
                    assert(all[i] == earlier[i]);
                }
            }
            assert(!earlier.contains(attempt)) by {
                if earlier.contains(attempt) {
                    let k = choose|k: int| 0 <= k < earlier.len() && earlier[k] == attempt;
                    assert(before.held.contains(earlier[k]));
                }
            }
            assert forall|i: int, j: int| 0 <= i < all.len() && 0 <= j < all.len() && i != j implies all[i]
                != all[j] by {
                if i < earlier.len() && j < earlier.len() {
                    assert(all[i] == earlier[i] && all[j] == earlier[j]);
                } else if i < earlier.len() {
                    assert(earlier.contains(earlier[i]));
                } else {
                    assert(earlier.contains(earlier[j]));
                }
            }
        }
    }
}

/// Repeated recoveries never issue a second permit for an attempt: while the permits of
/// one live, another over the same journal issues none, and shows those drafts as
/// unresolved.
pub proof fn recovery_never_duplicates_authority(
    records: Seq<IntentRecord>,
    root: AgentPath,
    registry: RegistryView,
)
    ensures
        minted(records, root, registry).no_duplicates(),
        minted(records, root, scanned_registry(records, root, registry)).len() == 0,
        scanned_registry(records, root, scanned_registry(records, root, registry)) == scanned_registry(
            records,
            root,
            registry,
        ),
        forall|i: int|
            0 <= i < records.len() && is_open(#[trigger] records[i], root) && minted(
                records,
                root,
                registry,
            ).contains(records[i].intent.attempt) ==> recovered(
                records[i],
                scanned_registry(records, root, registry),
            ) == Some(RecoveredState::Unresolved),
{
    let after = scanned_registry(records, root, registry);
    lemma_scan(records, root, registry);
    assert forall|i: int| 0 <= i < records.len() && is_open(#[trigger] records[i], root) implies recovered(
        records[i],
        after,
    ) != Some(RecoveredState::Retry) by {
        lemma_visited(records, root, registry, i);
    }
    lemma_rescan(records, root, after);
    let all = minted(records, root, registry);
    assert forall|i: int|
        0 <= i < records.len() && is_open(#[trigger] records[i], root) && all.contains(
            records[i].intent.attempt,
        ) implies recovered(records[i], after) == Some(RecoveredState::Unresolved) by {
        let k = choose|k: int| 0 <= k < all.len() && all[k] == records[i].intent.attempt;
        assert(after.held.contains(all[k]));
    }
}

proof fn lemma_visited(records: Seq<IntentRecord>, root: AgentPath, registry: RegistryView, index: int)
    requires
        0 <= index < records.len(),
        is_open(records[index], root),
    ensures
        recovered(records[index], scanned_registry(records, root, registry)) != Some(RecoveredState::Retry),
    decreases records.len(),
{
    let rest = records.drop_last();
    let before = scanned_registry(rest, root, registry);
    if index < rest.len() {
        assert(rest[index] == records[index]);
        lemma_visited(rest, root, registry, index);
    }
}

proof fn lemma_rescan(records: Seq<IntentRecord>, root: AgentPath, registry: RegistryView)
    requires
        forall|i: int|
            0 <= i < records.len() && is_open(#[trigger] records[i], root) ==> recovered(records[i], registry)
                != Some(RecoveredState::Retry),
    ensures
        scanned_registry(records, root, registry) == registry,
        minted(records, root, registry).len() == 0,
    decreases records.len(),
{
    if records.len() > 0 {
        let rest = records.drop_last();
        assert forall|i: int| 0 <= i < rest.len() && is_open(#[trigger] rest[i], root) implies recovered(
            rest[i],
            registry,
        ) != Some(RecoveredState::Retry) by {
            assert(rest[i] == records[i]);
        }
        lemma_rescan(rest, root, registry);
        assert(is_open(records[records.len() - 1], root) ==> recovered(records.last(), registry) != Some(
            RecoveredState::Retry,
        ));
    }
}

proof fn lemma_all_retired(registry: RegistryView, attempts: Seq<u64>, attempt: u64)
    ensures
        registry.all_retired(attempts).held.contains(attempt) <==> registry.held.contains(attempt)
            && !attempts.contains(attempt),
        registry.all_retired(attempts).issued.contains(attempt) <==> registry.issued.contains(attempt)
            && !attempts.contains(attempt),
    decreases attempts.len(),
{
    if attempts.len() > 0 {
        let rest = attempts.drop_last();
        lemma_all_retired(registry, rest, attempt);
        if rest.contains(attempt) {
            let k = choose|k: int| 0 <= k < rest.len() && rest[k] == attempt;
            assert(attempts[k] == attempt);
        }
        if attempts.contains(attempt) {
            let k = choose|k: int| 0 <= k < attempts.len() && attempts[k] == attempt;
            if k < rest.len() {
                assert(rest[k] == attempt);
            }
        }
        if attempts.last() == attempt {
            assert(attempts[attempts.len() - 1] == attempt);
        }
    }
}

/// A failed recovery leaves no trace: taking its permits back restores what was known
/// before.
pub proof fn failed_recoveries_leave_no_trace(
    records: Seq<IntentRecord>,
    root: AgentPath,
    registry: RegistryView,
)
    ensures
        scanned_registry(records, root, registry).all_retired(minted(records, root, registry)) == registry,
{
    lemma_scan(records, root, registry);
    let all = minted(records, root, registry);
    let after = scanned_registry(records, root, registry);
    let restored = after.all_retired(all);
    assert forall|attempt: u64|
        (restored.held.contains(attempt) <==> registry.held.contains(attempt)) && (restored.issued.contains(
            attempt,
        ) <==> registry.issued.contains(attempt)) by {
        lemma_all_retired(after, all, attempt);
        if all.contains(attempt) {
            let k = choose|k: int| 0 <= k < all.len() && all[k] == attempt;
            assert(!registry.held.contains(all[k]));
        }
    }
    assert(restored =~= registry);
}

/// A committed attempt is never abandoned, and one that never committed is never
/// acknowledged as committed.
pub proof fn retirement_respects_commits(
    records: Seq<IntentRecord>,
    root: AgentPath,
    attempt: u64,
    abandon: bool,
    blocked: bool,
)
    ensures
        retirement(records, root, attempt, abandon, blocked) matches Retirement::Record { settlement } ==> {
            let index = record_of(records, root, attempt)->0;
            &&& record_of(records, root, attempt) is Some
            &&& settlement == Some(QueueSettlement::NotCommitted) ==> records[index].message is None
            &&& settlement matches Some(QueueSettlement::Committed { event }) ==> records[index].message == Some(
                AppendIdentity { event },
            )
        },
{
}

/// What became of a draft is told by what is known of its attempt: it is unresolved as long
/// as its permit lives, committed where its message stands, nothing where it was settled
/// otherwise, released where its permit was issued here, and to be retried where it was not.
pub proof fn drafts_are_judged_by_what_is_known(record: IntentRecord, registry: RegistryView)
    ensures
        ({
            let attempt = record.intent.attempt;
            let state = recovered(record, registry);
            let held = registry.held.contains(attempt);
            let issued = registry.issued.contains(attempt);
            let settled = record.settlement is Some;
            &&& state == Some(RecoveredState::Unresolved) <==> held
            &&& forall|message: AppendIdentity| #[trigger]
                state_is(state, message) <==> !held && record.message == Some(message)
            &&& state is None <==> !held && record.message is None && settled
            &&& state == Some(RecoveredState::Released) <==> !held && record.message is None && !settled && issued
            &&& state == Some(RecoveredState::Retry) <==> !held && record.message is None && !settled && !issued
        }),
{
}

/// Whether a draft is committed with a message.
pub open spec fn state_is(state: Option<RecoveredState>, message: AppendIdentity) -> bool {
    state == Some(RecoveredState::Committed(message))
}

/// A recovery looks at every draft of the session's root that is not done with, one after
/// the other, and at no other. Each that is to be retried gets a permit.
pub proof fn own_open_drafts_are_recovered(
    records: Seq<IntentRecord>,
    record: IntentRecord,
    root: AgentPath,
    registry: RegistryView,
)
    ensures
        ({
            let known = scanned_registry(records, root, registry);
            let state = recovered(record, known);
            let all = records.push(record);
            let found = record.agent@ == root && !record.acknowledged && state is Some;
            let retried = found && state == Some(RecoveredState::Retry);
            &&& scanned(all, root, registry) == if found {
                scanned(records, root, registry).push((records.len() as int, state->0))
            } else {
                scanned(records, root, registry)
            }
            &&& minted(all, root, registry) == if retried {
                minted(records, root, registry).push(record.intent.attempt)
            } else {
                minted(records, root, registry)
            }
            &&& scanned_registry(all, root, registry) == if retried {
                known.registered(record.intent.attempt)
            } else {
                known
            }
        }),
        scanned(seq![], root, registry).len() == 0,
        minted(seq![], root, registry).len() == 0,
        scanned_registry(seq![], root, registry) == registry,
{
    assert(records.push(record).drop_last() =~= records);
}

/// A permit that is registered is held and known as issued, and one that is retired is
/// neither. What is known of other attempts stays.
pub proof fn permits_are_their_attempts_own(registry: RegistryView, attempt: u64, attempts: Seq<u64>, other: u64)
    ensures
        registry.registered(attempt).held.contains(attempt) && registry.registered(attempt).issued.contains(attempt),
        !registry.retired(attempt).held.contains(attempt) && !registry.retired(attempt).issued.contains(attempt),
        other != attempt ==> {
            &&& registry.registered(attempt).held.contains(other) == registry.held.contains(other)
            &&& registry.registered(attempt).issued.contains(other) == registry.issued.contains(other)
            &&& registry.retired(attempt).held.contains(other) == registry.held.contains(other)
            &&& registry.retired(attempt).issued.contains(other) == registry.issued.contains(other)
        },
        registry.all_retired(attempts).held.contains(other) <==> registry.held.contains(other) && !attempts.contains(
            other,
        ),
        registry.all_retired(attempts).issued.contains(other) <==> registry.issued.contains(other)
            && !attempts.contains(other),
    decreases attempts.len(),
{
    if attempts.len() > 0 {
        let rest = attempts.drop_last();
        permits_are_their_attempts_own(registry, attempt, rest, other);
        assert(attempts =~= rest.push(attempts.last()));
        assert(attempts[attempts.len() - 1] == attempts.last());
        if rest.contains(other) {
            let k = choose|k: int| 0 <= k < rest.len() && rest[k] == other;
            assert(attempts[k] == other);
        }
        if attempts.contains(other) && other != attempts.last() {
            let k = choose|k: int| 0 <= k < attempts.len() && attempts[k] == other;
            assert(rest[k] == other);
        }
    } else {
        assert(!attempts.contains(other));
    }
}

/// The attachments of content are all its images, in their order.
pub proof fn attachments_are_all_images(content: Seq<UserContentView>, block: UserContentView)
    ensures
        attachments(seq![]).len() == 0,
        attachments(content.push(block)) == match block {
            UserContentView::Image { image } => attachments(content).push(image),
            _ => attachments(content),
        },
{
    assert(content.push(block).drop_last() =~= content);
}

/// The record of an attempt is the first that the root has of it.
pub proof fn attempts_are_found_in_the_roots_records(records: Seq<IntentRecord>, root: AgentPath, attempt: u64)
    ensures
        match record_of(records, root, attempt) {
            Some(index) => {
                &&& 0 <= index < records.len()
                &&& records[index].intent.attempt == attempt
                &&& records[index].agent@ == root
            },
            None => forall|k: int|
                0 <= k < records.len() ==> !((#[trigger] records[k]).intent.attempt == attempt && records[k].agent@
                    == root),
        },
    decreases records.len(),
{
    if records.len() > 0 {
        let rest = records.drop_last();
        attempts_are_found_in_the_roots_records(rest, root, attempt);
        assert(records[records.len() - 1] == records.last());
        assert forall|k: int| 0 <= k < rest.len() implies #[trigger] rest[k] == records[k] by {}
        let last = records.last();
        assert(record_of(records, root, attempt) == match record_of(rest, root, attempt) {
            Some(index) => Some(index),
            None => if last.intent.attempt == attempt && last.agent@ == root {
                Some(records.len() - 1)
            } else {
                None
            },
        });
        if record_of(records, root, attempt) is None {
            assert forall|k: int| 0 <= k < records.len() implies !((#[trigger] records[k]).intent.attempt == attempt
                && records[k].agent@ == root) by {
                if k < rest.len() {
                    assert(!(rest[k].intent.attempt == attempt && rest[k].agent@ == root));
                }
            }
        } else {
            let index = record_of(records, root, attempt)->0;
            assert(records[index].agent@ == root);
            assert(records[index].intent.attempt == attempt);
        }
    } else {
        assert(record_of(records, root, attempt) is None);
    }
}

/// A permit is regained only for an attempt that was issued here, that no one holds and of
/// which the root has a draft that is open: neither committed nor settled nor done with.
/// Otherwise the conflict tells which of these fails.
pub proof fn only_dropped_permits_are_regained(
    records: Seq<IntentRecord>,
    root: AgentPath,
    registry: RegistryView,
    attempt: u64,
)
    ensures
        ({
            let conflict = reclaim_conflict(records, root, registry, attempt);
            let found = record_of(records, root, attempt);
            let issued = registry.issued.contains(attempt);
            let held = registry.held.contains(attempt);
            &&& conflict is None <==> issued && !held && found is Some && records[found->0].message is None
                && !records[found->0].acknowledged && records[found->0].settlement is None
            &&& conflict == Some(QueueConflict::NotReserved) <==> !issued
            &&& conflict == Some(QueueConflict::Held) <==> issued && held
            &&& conflict == Some(QueueConflict::Committed) <==> issued && !held && found is Some
                && records[found->0].message is Some
            &&& conflict != Some(QueueConflict::Uncommitted)
        }),
{
}

/// How an attempt is retired follows from what the journal knows of it. It is not while
/// another permit lives; one that is done with, or is abandoned before it is known, is only
/// forgotten; otherwise a committed one can only be acknowledged, and one that is not can
/// only be abandoned, and its settlement is recorded unless it has been.
pub proof fn attempts_are_retired_by_what_is_known(
    records: Seq<IntentRecord>,
    root: AgentPath,
    attempt: u64,
    abandon: bool,
)
    ensures
        retirement(records, root, attempt, abandon, true) == Retirement::Refuse(QueueConflict::Held),
        ({
            let outcome = retirement(records, root, attempt, abandon, false);
            match record_of(records, root, attempt) {
                None => outcome == if abandon {
                    Retirement::Forget
                } else {
                    Retirement::Refuse(QueueConflict::Unknown)
                },
                Some(index) => {
                    let record = records[index];
                    let committed = record.message is Some;
                    &&& outcome is Forget <==> record.acknowledged
                    &&& outcome == Retirement::Refuse(QueueConflict::Committed) <==> !record.acknowledged && abandon
                        && committed
                    &&& outcome == Retirement::Refuse(QueueConflict::Uncommitted) <==> !record.acknowledged && !abandon
                        && !committed
                    &&& outcome matches Retirement::Record { settlement } ==> {
                        &&& settlement is None <==> record.settlement is Some
                        &&& settlement is Some && committed ==> settlement->0 == (QueueSettlement::Committed {
                            event: record.message->0.event,
                        })
                        &&& settlement is Some && !committed ==> settlement->0 == QueueSettlement::NotCommitted
                    }
                },
            }
        }),
{
}

} // verus!
