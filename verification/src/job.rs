//! Jobs as the harness sees them: their states and sets of them.

use vstd::prelude::*;
use crate::identity::JobId;
use crate::model::Modeled;
use crate::table::Key;

verus! {

/// How far a job has got.
#[derive(Clone, Copy, Debug, PartialEq, Eq, Structural)]
pub enum JobState {
    Running,
    WaitingInput,
    Completed,
    Failed,
    Cancelled,
    Interrupted,
}

impl JobState {
    /// The name under which a state is shown and stored.
    pub open spec fn spec_name(self) -> Seq<char> {
        match self {
            JobState::Running => "running"@,
            JobState::WaitingInput => "waiting_input"@,
            JobState::Completed => "completed"@,
            JobState::Failed => "failed"@,
            JobState::Cancelled => "cancelled"@,
            JobState::Interrupted => "interrupted"@,
        }
    }

    /// The name under which a state is shown and stored.
    pub fn name(&self) -> (name: &'static str)
        ensures
            name@ == self.spec_name(),
    {
        match self {
            JobState::Running => "running",
            JobState::WaitingInput => "waiting_input",
            JobState::Completed => "completed",
            JobState::Failed => "failed",
            JobState::Cancelled => "cancelled",
            JobState::Interrupted => "interrupted",
        }
    }
}

/// Whether a text names a job state.
pub open spec fn names_state(text: Seq<char>) -> bool {
    exists|state: JobState| text == #[trigger] state.spec_name()
}

/// Tests whether a text names a job state.
pub fn is_state_name(text: &String) -> (answer: bool)
    ensures
        answer == names_state(text@),
{
    let answer = *text == "running".to_owned() || *text == "waiting_input".to_owned() || *text
        == "completed".to_owned() || *text == "failed".to_owned() || *text == "cancelled".to_owned() || *text
        == "interrupted".to_owned();
    proof {
        if answer {
            assert(text@ == JobState::Running.spec_name() || text@ == JobState::WaitingInput.spec_name() || text@
                == JobState::Completed.spec_name() || text@ == JobState::Failed.spec_name() || text@
                == JobState::Cancelled.spec_name() || text@ == JobState::Interrupted.spec_name());
        }
    }
    answer
}

/// A set of jobs.
#[derive(Debug)]
pub struct JobSet {
    jobs: Vec<JobId>,
}

impl View for JobSet {
    type V = Set<JobId>;

    closed spec fn view(&self) -> Set<JobId> {
        self.jobs@.to_set()
    }
}

impl JobSet {
    /// The empty set.
    pub fn new() -> (set: JobSet)
        ensures
            set@ == Set::<JobId>::empty(),
    {
        let set = JobSet { jobs: Vec::new() };
        assert(set@ =~= Set::<JobId>::empty());
        set
    }

    /// Whether a job is in the set.
    pub fn contains(&self, job: JobId) -> (answer: bool)
        ensures
            answer == self@.contains(job),
    {
        let mut i: usize = 0;
        while i < self.jobs.len()
            invariant
                i <= self.jobs.len(),
                forall|k: int| 0 <= k < i ==> self.jobs@[k] != job,
            decreases self.jobs.len() - i,
        {
            if self.jobs[i].is(job) {
                assert(self.jobs@.contains(job));
                return true;
            }
            i += 1;
        }
        false
    }

    /// Adds a job. Tells whether it was new.
    pub fn insert(&mut self, job: JobId) -> (added: bool)
        ensures
            final(self)@ == old(self)@.insert(job),
            added == !old(self)@.contains(job),
    {
        if self.contains(job) {
            assert(self@ =~= self@.insert(job));
            false
        } else {
            let ghost before = self.jobs@;
            self.jobs.push(job);
            proof {
                assert forall|other: JobId| self.jobs@.contains(other) <==> (before.contains(other) || other == job) by {
                    if before.contains(other) {
                        let k = choose|k: int| 0 <= k < before.len() && before[k] == other;
                        assert(self.jobs@[k] == other);
                    }
                    if other == job {
                        assert(self.jobs@[before.len() as int] == other);
                    }
                }
                assert(self@ =~= before.to_set().insert(job));
            }
            true
        }
    }

    /// Takes a job out of the set.
    pub fn remove(&mut self, job: JobId)
        ensures
            final(self)@ == old(self)@.remove(job),
    {
        let ghost before = self.jobs@;
        let mut kept: Vec<JobId> = Vec::new();
        let mut i: usize = 0;
        while i < self.jobs.len()
            invariant
                i <= self.jobs.len(),
                before == self.jobs@,
                forall|other: JobId| #[trigger]
                    kept@.contains(other) <==> before.take(i as int).contains(other) && other != job,
            decreases self.jobs.len() - i,
        {
            let current = self.jobs[i];
            let ghost earlier = kept@;
            if !current.is(job) {
                kept.push(current);
            }
            proof {
                lemma_pushed(before.take(i as int), current);
                lemma_pushed(earlier, current);
                assert(before.take(i + 1) =~= before.take(i as int).push(current));
            }
            i += 1;
        }
        assert(before.take(i as int) =~= before);
        self.jobs = kept;
        assert(self@ =~= before.to_set().remove(job));
    }

    /// Whether every job of this set is in another.
    fn is_subset(&self, other: &JobSet) -> (answer: bool)
        ensures
            answer == self@.subset_of(other@),
    {
        let mut i: usize = 0;
        while i < self.jobs.len()
            invariant
                i <= self.jobs.len(),
                forall|k: int| 0 <= k < i ==> other@.contains(#[trigger] self.jobs@[k]),
            decreases self.jobs.len() - i,
        {
            if !other.contains(self.jobs[i]) {
                assert(self.jobs@.contains(self.jobs@[i as int]));
                assert(self@.contains(self.jobs@[i as int]));
                return false;
            }
            i += 1;
        }
        true
    }
}

proof fn lemma_pushed(jobs: Seq<JobId>, job: JobId)
    ensures
        forall|other: JobId| #[trigger] jobs.push(job).contains(other) <==> jobs.contains(other) || other == job,
{
    assert forall|other: JobId| #[trigger] jobs.push(job).contains(other) <==> jobs.contains(other) || other
        == job by {
        if jobs.contains(other) {
            let k = choose|k: int| 0 <= k < jobs.len() && jobs[k] == other;
            assert(jobs.push(job)[k] == other);
        }
        if other == job {
            assert(jobs.push(job)[jobs.len() as int] == other);
        }
    }
}

impl Modeled for JobSet {
    open spec fn alike(left: Set<JobId>, right: Set<JobId>) -> bool {
        left == right
    }

    fn duplicate(&self) -> (copy: Self) {
        let mut jobs: Vec<JobId> = Vec::new();
        let mut i: usize = 0;
        while i < self.jobs.len()
            invariant
                i <= self.jobs.len(),
                jobs@ == self.jobs@.take(i as int),
            decreases self.jobs.len() - i,
        {
            jobs.push(self.jobs[i]);
            assert(self.jobs@.take(i + 1) =~= self.jobs@.take(i as int).push(self.jobs@[i as int]));
            i += 1;
        }
        assert(self.jobs@.take(i as int) =~= self.jobs@);
        JobSet { jobs }
    }

    fn same(&self, other: &Self) -> (equal: bool) {
        let equal = self.is_subset(other) && other.is_subset(self);
        proof {
            if equal {
                assert(self@ =~= other@);
            }
        }
        equal
    }
}

impl Key for JobId {
    fn same_key(&self, other: &Self) -> (equal: bool) {
        self.is(*other)
    }
}

/// A state is known by its name: no two states share one.
pub proof fn state_names_are_distinct(left: JobState, right: JobState)
    ensures
        left.spec_name() == right.spec_name() <==> left == right,
{
    lemma_state_names();
    if left.spec_name() == right.spec_name() {
        assert(left.spec_name()[1] == right.spec_name()[1]);
    }
}

proof fn lemma_state_names()
    ensures
        "running"@.len() == 7,
        "waiting_input"@.len() == 13,
        "completed"@.len() == 9,
        "completed"@[1] == 'o',
        "failed"@.len() == 6,
        "cancelled"@.len() == 9,
        "cancelled"@[1] == 'a',
        "interrupted"@.len() == 11,
{
    reveal_strlit("running");
    reveal_strlit("waiting_input");
    reveal_strlit("completed");
    reveal_strlit("failed");
    reveal_strlit("cancelled");
    reveal_strlit("interrupted");
}

/// The names of states are those under which jobs are stored, and a text names a state
/// where it is one of them.
pub proof fn states_have_fixed_names(text: Seq<char>)
    ensures
        names_state(text) <==> {
            ||| text == "running"@
            ||| text == "waiting_input"@
            ||| text == "completed"@
            ||| text == "failed"@
            ||| text == "cancelled"@
            ||| text == "interrupted"@
        },
{
    assert(JobState::Running.spec_name() == "running"@);
    assert(JobState::WaitingInput.spec_name() == "waiting_input"@);
    assert(JobState::Completed.spec_name() == "completed"@);
    assert(JobState::Failed.spec_name() == "failed"@);
    assert(JobState::Cancelled.spec_name() == "cancelled"@);
    assert(JobState::Interrupted.spec_name() == "interrupted"@);
}

} // verus!
