//! Identities of sessions, agents and jobs.

use vstd::prelude::*;
use crate::model::Modeled;

verus! {

/// Identifies one session.
#[derive(Clone, Copy, Debug, PartialEq, Eq, Structural, Hash)]
pub struct SessionId {
    value: u128,
}

/// The number that a byte string denotes, most significant byte first.
pub open spec fn big_endian(bytes: Seq<u8>) -> nat
    decreases bytes.len(),
{
    if bytes.len() == 0 {
        0
    } else {
        big_endian(bytes.drop_last()) * 256 + bytes.last() as nat
    }
}

/// A power of 256.
pub open spec fn radix(digits: nat) -> nat
    decreases digits,
{
    if digits == 0 {
        1
    } else {
        radix((digits - 1) as nat) * 256
    }
}

/// A byte string denotes a number below the power of 256 of its length.
proof fn lemma_big_endian_bound(bytes: Seq<u8>)
    ensures
        big_endian(bytes) < radix(bytes.len()),
    decreases bytes.len(),
{
    if bytes.len() > 0 {
        lemma_big_endian_bound(bytes.drop_last());
    }
}

/// More digits denote larger numbers.
proof fn lemma_radix_monotonic(low: nat, high: nat)
    requires
        low <= high,
    ensures
        radix(low) <= radix(high),
    decreases high - low,
{
    if low < high {
        lemma_radix_monotonic(low, (high - 1) as nat);
    }
}

/// Byte strings of equal length that denote the same number are the same.
proof fn lemma_big_endian_injective(left: Seq<u8>, right: Seq<u8>)
    requires
        left.len() == right.len(),
        big_endian(left) == big_endian(right),
    ensures
        left == right,
    decreases left.len(),
{
    if left.len() > 0 {
        let a = big_endian(left.drop_last());
        let b = big_endian(right.drop_last());
        assert(a * 256 + left.last() as nat == b * 256 + right.last() as nat);
        assert(a == b && left.last() == right.last());
        lemma_big_endian_injective(left.drop_last(), right.drop_last());
        assert(left =~= left.drop_last().push(left.last()));
        assert(right =~= right.drop_last().push(right.last()));
    } else {
        assert(left =~= right);
    }
}

impl SessionId {
    /// The number behind the identity.
    pub closed spec fn number(self) -> nat {
        self.value as nat
    }

    /// The session that a random byte string names.
    pub fn from_bytes(bytes: [u8; 16]) -> (id: SessionId)
        ensures
            id.number() == big_endian(bytes@),
    {
        let mut value: u128 = 0;
        let mut i: usize = 0;
        proof {
            reveal_with_fuel(radix, 17);
            assert(radix(16) == 0x1_0000_0000_0000_0000_0000_0000_0000_0000);
        }
        while i < 16
            invariant
                i <= 16,
                value as nat == big_endian(bytes@.take(i as int)),
                radix(16) == 0x1_0000_0000_0000_0000_0000_0000_0000_0000,
            decreases 16 - i,
        {
            proof {
                assert(bytes@.take(i + 1).drop_last() =~= bytes@.take(i as int));
                lemma_big_endian_bound(bytes@.take(i + 1));
                lemma_radix_monotonic((i + 1) as nat, 16);
                assert(big_endian(bytes@.take(i + 1)) == value as nat * 256 + bytes@[i as int] as nat);
            }
            value = value * 256 + bytes[i] as u128;
            i += 1;
        }
        assert(bytes@.take(16) =~= bytes@);
        SessionId { value }
    }
}

/// Distinct byte strings name distinct sessions.
pub proof fn session_ids_are_distinct(left: SessionId, right: SessionId, a: [u8; 16], b: [u8; 16])
    requires
        left.number() == big_endian(a@),
        right.number() == big_endian(b@),
    ensures
        left == right <==> a@ == b@,
{
    if left == right {
        lemma_big_endian_injective(a@, b@);
    }
}

/// Identifies a tool job. Job numbers start at one.
#[derive(Clone, Copy, Debug, PartialEq, Eq, Structural, Hash)]
pub struct JobId {
    number: u64,
}

impl JobId {
    /// The job's number.
    pub closed spec fn spec_number(self) -> u64 {
        self.number
    }

    #[verifier::type_invariant]
    spec fn positive(self) -> bool {
        self.number > 0
    }

    /// The job with a number, unless the number is zero.
    pub fn new(number: u64) -> (id: Option<JobId>)
        ensures
            id is Some <==> number > 0,
            id matches Some(job) ==> job.spec_number() == number,
    {
        if number == 0 {
            None
        } else {
            Some(JobId { number })
        }
    }

    /// The job's number.
    pub fn number(&self) -> (number: u64)
        ensures
            number == self.spec_number(),
            number > 0,
    {
        proof {
            use_type_invariant(&*self);
        }
        self.number
    }

    /// Whether two identities name the same job.
    pub fn is(&self, other: JobId) -> (equal: bool)
        ensures
            equal == (self.spec_number() == other.spec_number()),
            equal == (*self == other),
    {
        self.number == other.number
    }
}

impl View for JobId {
    type V = JobId;

    open spec fn view(&self) -> JobId {
        *self
    }
}

impl Modeled for JobId {
    open spec fn alike(left: JobId, right: JobId) -> bool {
        left == right
    }

    fn duplicate(&self) -> (copy: Self) {
        *self
    }

    fn same(&self, other: &Self) -> (equal: bool) {
        self.is(*other)
    }
}

/// Jobs with the same number are the same job.
pub proof fn job_numbers_are_identities(left: JobId, right: JobId)
    ensures
        left == right <==> left.spec_number() == right.spec_number(),
{
}

/// Identifies an agent: the root of its session, or a child by the numbers of the
/// children on the way down from the root.
#[derive(Debug, PartialEq, Eq, Hash)]
pub struct AgentId {
    session: SessionId,
    path: Vec<u32>,
}

/// The mathematical content of an `AgentId`.
#[verifier::ext_equal]
pub struct AgentPath {
    pub session: SessionId,
    pub path: Seq<u32>,
}

impl AgentPath {
    /// The agent that owns this one, if it is no root.
    pub open spec fn parent(self) -> Option<AgentPath> {
        if self.path.len() == 0 {
            None
        } else {
            Some(AgentPath { session: self.session, path: self.path.drop_last() })
        }
    }

    /// Whether this agent is another one or a descendant of it.
    pub open spec fn within(self, root: AgentPath) -> bool {
        &&& self.session == root.session
        &&& root.path.is_prefix_of(self.path)
    }
}

impl View for AgentId {
    type V = AgentPath;

    closed spec fn view(&self) -> AgentPath {
        AgentPath { session: self.session, path: self.path@ }
    }
}

impl Modeled for AgentId {
    open spec fn alike(left: AgentPath, right: AgentPath) -> bool {
        left == right
    }

    fn duplicate(&self) -> (copy: Self) {
        let mut path: Vec<u32> = Vec::new();
        let mut i: usize = 0;
        while i < self.path.len()
            invariant
                i <= self.path.len(),
                path@ == self.path@.take(i as int),
            decreases self.path.len() - i,
        {
            path.push(self.path[i]);
            assert(path@ =~= self.path@.take(i + 1));
            i += 1;
        }
        assert(path@ =~= self.path@);
        AgentId { session: self.session, path }
    }

    fn same(&self, other: &Self) -> (equal: bool) {
        if self.session != other.session || self.path.len() != other.path.len() {
            return false;
        }
        let mut i: usize = 0;
        while i < self.path.len()
            invariant
                i <= self.path.len(),
                self.path.len() == other.path.len(),
                forall|k: int| 0 <= k < i ==> self.path@[k] == other.path@[k],
            decreases self.path.len() - i,
        {
            if self.path[i] != other.path[i] {
                return false;
            }
            i += 1;
        }
        assert(self.path@ =~= other.path@);
        true
    }
}

impl Clone for AgentId {
    fn clone(&self) -> (copy: Self)
        ensures
            copy@ == self@,
    {
        self.duplicate()
    }
}

impl AgentId {
    /// The root agent of a session.
    pub fn root(session: SessionId) -> (id: AgentId)
        ensures
            id@ == (AgentPath { session, path: seq![] }),
    {
        AgentId { session, path: Vec::new() }
    }

    /// A child of this agent.
    pub fn child(&self, number: u32) -> (id: AgentId)
        ensures
            id@ == (AgentPath { session: self@.session, path: self@.path.push(number) }),
    {
        let mut id = self.duplicate();
        id.path.push(number);
        id
    }

    /// The agent that owns this one, if it is no root.
    pub fn parent(&self) -> (parent: Option<AgentId>)
        ensures
            match parent {
                Some(id) => self@.parent() == Some(id@),
                None => self@.parent() is None,
            },
    {
        if self.path.len() == 0 {
            return None;
        }
        let mut id = self.duplicate();
        let _ = id.path.pop();
        assert(id.path@ =~= self.path@.drop_last());
        Some(id)
    }

    /// The session that the agent belongs to.
    pub fn session(&self) -> (session: SessionId)
        ensures
            session == self@.session,
    {
        self.session
    }

    /// How many agents own this one, directly or not.
    pub fn depth(&self) -> (depth: usize)
        ensures
            depth == self@.path.len(),
    {
        self.path.len()
    }

    /// The number of this agent among its parent's children, if it is no root.
    pub fn last_segment(&self) -> (segment: Option<u32>)
        ensures
            segment == if self@.path.len() == 0 {
                None::<u32>
            } else {
                Some(self@.path.last())
            },
    {
        if self.path.len() == 0 {
            None
        } else {
            Some(self.path[self.path.len() - 1])
        }
    }

    /// Whether this agent is another one or a descendant of it.
    pub fn is_within(&self, root: &AgentId) -> (within: bool)
        ensures
            within == self@.within(root@),
    {
        if self.session != root.session || self.path.len() < root.path.len() {
            return false;
        }
        let mut i: usize = 0;
        while i < root.path.len()
            invariant
                i <= root.path.len(),
                root.path.len() <= self.path.len(),
                forall|k: int| 0 <= k < i ==> self.path@[k] == root.path@[k],
            decreases root.path.len() - i,
        {
            if self.path[i] != root.path[i] {
                assert(self.path@.subrange(0, root.path@.len() as int)[i as int] != root.path@[i as int]);
                return false;
            }
            i += 1;
        }
        assert(self.path@.subrange(0, root.path@.len() as int) =~= root.path@);
        true
    }
}

/// An agent is within another where it is that one, or its owner is within it. No agent of
/// another session is.
pub proof fn agents_are_within_their_owners(agent: AgentPath, root: AgentPath, top: AgentPath)
    ensures
        agent.within(root) <==> agent == root || (agent.parent() matches Some(owner) && owner.within(root)),
        agent.within(root) && root.within(top) ==> agent.within(top),
        agent.within(root) && root.within(agent) ==> agent == root,
        agent.session != root.session ==> !agent.within(root),
{
    if agent.within(root) && agent.path.len() > root.path.len() {
        assert(root.path.is_prefix_of(agent.path.drop_last()));
    }
    if agent.within(root) && agent.path.len() == root.path.len() {
        assert(agent.path =~= root.path);
    }
    if agent.within(root) && root.within(agent) {
        assert(agent.path =~= root.path);
    }
    if agent.within(root) && root.within(top) {
        assert(top.path.is_prefix_of(agent.path));
    }
}

/// A child is owned by the agent whose child it is, and is told apart from its siblings by
/// its number.
pub proof fn children_are_owned(owner: AgentPath, number: u32, other: u32)
    ensures
        ({
            let child = AgentPath { session: owner.session, path: owner.path.push(number) };
            let sibling = AgentPath { session: owner.session, path: owner.path.push(other) };
            &&& child.parent() == Some(owner)
            &&& child.within(owner)
            &&& !owner.within(child)
            &&& number != other ==> !child.within(sibling)
        }),
{
    let child = AgentPath { session: owner.session, path: owner.path.push(number) };
    let sibling = AgentPath { session: owner.session, path: owner.path.push(other) };
    assert(child.path.drop_last() =~= owner.path);
    assert(child.path.last() == number);
    assert(sibling.path.last() == other);
}

} // verus!
