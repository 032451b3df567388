//! Batches questions and routes answers to the jobs that asked.

use vstd::prelude::*;
use vstd::string::*;
use crate::error::{HarnessError, ToolError};
use crate::identity::{AgentId, AgentPath, JobId};
use crate::interaction::{questions_json, questions_output, Question, QuestionError, QuestionView};
use crate::job::JobSet;
use crate::json;
use crate::json::{Json, JsonView};
use crate::model;
use crate::model::{duplicate_all, same_all, same_number, Modeled};
use crate::protocol::{ToolCall, ToolCallView};
use crate::table::Table;

verus! {

/// An ask that waits for its answer.
#[derive(Debug, PartialEq, Eq)]
pub struct PendingAsk {
    /// Names the caller that waits.
    pub ticket: u64,
    /// The job of the ask.
    pub job: JobId,
    pub question: Question,
}

/// The mathematical content of a `PendingAsk`.
#[verifier::ext_equal]
pub struct PendingAskView {
    pub ticket: u64,
    pub job: JobId,
    pub question: QuestionView,
}

impl View for PendingAsk {
    type V = PendingAskView;

    open spec fn view(&self) -> PendingAskView {
        PendingAskView {
            ticket: self.ticket,
            job: self.job,
            question: self.question@,
        }
    }
}

impl Modeled for PendingAsk {
    open spec fn alike(left: PendingAskView, right: PendingAskView) -> bool {
        &&& left.ticket == right.ticket
        &&& left.job == right.job
        &&& Question::alike(left.question, right.question)
    }

    fn duplicate(&self) -> (copy: Self) {
        PendingAsk {
            ticket: self.ticket,
            job: self.job,
            question: self.question.duplicate(),
        }
    }

    fn same(&self, other: &Self) -> (equal: bool) {
        self.ticket == other.ticket && self.job.is(other.job) && self.question.same(&other.question)
    }
}

impl Clone for PendingAsk {
    fn clone(&self) -> (copy: Self)
        ensures
            copy@ == self@,
    {
        self.duplicate()
    }
}

/// The asks of an agent that are shown together.
#[derive(Debug, PartialEq, Eq)]
pub struct QuestionBatch {
    /// How many asks the batch waits for, where that is known.
    pub expected: Option<u64>,
    pub pending: Vec<PendingAsk>,
}

/// The mathematical content of a `QuestionBatch`.
#[verifier::ext_equal]
pub struct QuestionBatchView {
    pub expected: Option<u64>,
    pub pending: Seq<PendingAskView>,
}

impl View for QuestionBatch {
    type V = QuestionBatchView;

    open spec fn view(&self) -> QuestionBatchView {
        QuestionBatchView {
            expected: self.expected,
            pending: model::views(self.pending@),
        }
    }
}

impl Modeled for QuestionBatch {
    open spec fn alike(left: QuestionBatchView, right: QuestionBatchView) -> bool {
        &&& left.expected == right.expected
        &&& model::all_alike::<PendingAsk>(left.pending, right.pending)
    }

    fn duplicate(&self) -> (copy: Self) {
        QuestionBatch {
            expected: self.expected,
            pending: duplicate_all(&self.pending),
        }
    }

    fn same(&self, other: &Self) -> (equal: bool) {
        same_number(self.expected, other.expected) && same_all(&self.pending, &other.pending)
    }
}

impl Clone for QuestionBatch {
    fn clone(&self) -> (copy: Self)
        ensures
            copy@ == self@,
    {
        self.duplicate()
    }
}

/// The job that an answer goes to.
#[derive(Debug, PartialEq, Eq)]
pub struct AskRoute {
    /// The question's identifier.
    pub id: String,
    pub job: JobId,
}

/// The mathematical content of an `AskRoute`.
#[verifier::ext_equal]
pub struct AskRouteView {
    pub id: Seq<char>,
    pub job: JobId,
}

impl View for AskRoute {
    type V = AskRouteView;

    open spec fn view(&self) -> AskRouteView {
        AskRouteView {
            id: self.id@,
            job: self.job,
        }
    }
}

impl Modeled for AskRoute {
    open spec fn alike(left: AskRouteView, right: AskRouteView) -> bool {
        &&& left.id == right.id
        &&& left.job == right.job
    }

    fn duplicate(&self) -> (copy: Self) {
        AskRoute {
            id: self.id.clone(),
            job: self.job,
        }
    }

    fn same(&self, other: &Self) -> (equal: bool) {
        self.id == other.id && self.job.is(other.job)
    }
}

impl Clone for AskRoute {
    fn clone(&self) -> (copy: Self)
        ensures
            copy@ == self@,
    {
        self.duplicate()
    }
}

/// The open questions of a child agent, as its job shows them.
#[derive(Debug)]
pub struct PendingQuestion {
    pub ask_jobs: Vec<AskRoute>,
    pub questions: Vec<Question>,
    /// Whether there ever was more than one question.
    pub merged: bool,
    /// Jobs that an answer is on its way to.
    pub answering: JobSet,
}

/// The mathematical content of a `PendingQuestion`.
#[verifier::ext_equal]
pub struct PendingQuestionView {
    pub ask_jobs: Seq<AskRouteView>,
    pub questions: Seq<QuestionView>,
    pub merged: bool,
    pub answering: Set<JobId>,
}

impl View for PendingQuestion {
    type V = PendingQuestionView;

    open spec fn view(&self) -> PendingQuestionView {
        PendingQuestionView {
            ask_jobs: model::views(self.ask_jobs@),
            questions: model::views(self.questions@),
            merged: self.merged,
            answering: self.answering@,
        }
    }
}

impl Modeled for PendingQuestion {
    open spec fn alike(left: PendingQuestionView, right: PendingQuestionView) -> bool {
        &&& model::all_alike::<AskRoute>(left.ask_jobs, right.ask_jobs)
        &&& model::all_alike::<Question>(left.questions, right.questions)
        &&& left.merged == right.merged
        &&& JobSet::alike(left.answering, right.answering)
    }

    fn duplicate(&self) -> (copy: Self) {
        PendingQuestion {
            ask_jobs: duplicate_all(&self.ask_jobs),
            questions: duplicate_all(&self.questions),
            merged: self.merged,
            answering: self.answering.duplicate(),
        }
    }

    fn same(&self, other: &Self) -> (equal: bool) {
        same_all(&self.ask_jobs, &other.ask_jobs) && same_all(&self.questions, &other.questions) && self.merged == other.merged && self.answering.same(&other.answering)
    }
}

impl Clone for PendingQuestion {
    fn clone(&self) -> (copy: Self)
        ensures
            copy@ == self@,
    {
        self.duplicate()
    }
}

/// A batch without asks.
pub open spec fn no_batch() -> QuestionBatchView {
    QuestionBatchView { expected: None, pending: seq![] }
}

/// The batch of an agent.
pub open spec fn batch_of(batches: Map<AgentPath, QuestionBatchView>, agent: AgentPath) -> QuestionBatchView {
    if batches.dom().contains(agent) {
        batches[agent]
    } else {
        no_batch()
    }
}

/// Whether a call asks a question. Whether its arguments are a question is known.
pub open spec fn is_ask(call: ToolCallView, parsed: bool) -> bool {
    &&& call.name == "ask"@
    &&& match call.arguments.member("bg"@) {
        Some(value) => value is Bool,
        None => true,
    }
    &&& parsed
}

/// How many calls ask questions.
pub open spec fn ask_count(calls: Seq<ToolCallView>, parsed: Seq<bool>) -> nat
    decreases calls.len(),
{
    if calls.len() == 0 {
        0
    } else {
        ask_count(calls.drop_last(), parsed) + if is_ask(calls.last(), parsed[calls.len() - 1]) {
            1nat
        } else {
            0nat
        }
    }
}

/// Whether a batch is complete once it holds some asks: it was not announced and has
/// its first, or it has as many as announced.
pub open spec fn launches(expected: Option<u64>, pending: nat) -> bool {
    match expected {
        Some(count) => pending >= count,
        None => pending == 1,
    }
}

/// The batches of all agents.
#[derive(Debug)]
pub struct QuestionBatches {
    batches: Table<AgentId, QuestionBatch>,
}

impl View for QuestionBatches {
    type V = Map<AgentPath, QuestionBatchView>;

    closed spec fn view(&self) -> Map<AgentPath, QuestionBatchView> {
        self.batches@
    }
}

impl QuestionBatches {
    /// No batches.
    pub fn new() -> (batches: QuestionBatches)
        ensures
            batches@ == Map::<AgentPath, QuestionBatchView>::empty(),
    {
        QuestionBatches { batches: Table::new() }
    }

    /// Takes out the batch of an agent.
    fn take_batch(&mut self, agent: &AgentId) -> (batch: QuestionBatch)
        ensures
            batch@ == batch_of(old(self)@, agent@),
            final(self)@ == old(self)@.remove(agent@),
    {
        match self.batches.remove(agent) {
            Some(batch) => batch,
            None => {
                let batch = QuestionBatch { expected: None, pending: Vec::new() };
                assert(batch@ =~= no_batch());
                batch
            },
        }
    }

    /// Announces the questions among the calls of a response. `parsed` tells which
    /// arguments are questions.
    pub fn prepare_question_batch(&mut self, agent: &AgentId, calls: &Vec<ToolCall>, parsed: &Vec<bool>)
        requires
            calls.len() == parsed.len(),
        ensures
            ({
                let count = ask_count(model::views(calls@), parsed@);
                let batch = batch_of(old(self)@, agent@);
                final(self)@ == if count > 0 {
                    old(self)@.insert(
                        agent@,
                        QuestionBatchView { expected: Some(count as u64), pending: batch.pending },
                    )
                } else {
                    old(self)@
                }
            }),
            ask_count(model::views(calls@), parsed@) <= calls.len(),
    {
        let ghost all = model::views(calls@);
        let mut count: u64 = 0;
        let mut i: usize = 0;
        while i < calls.len()
            invariant
                i <= calls.len(),
                calls.len() == parsed.len(),
                all == model::views(calls@),
                count == ask_count(all.take(i as int), parsed@),
                count <= i,
            decreases calls.len() - i,
        {
            let call = &calls[i];
            proof {
                assert(all.take(i + 1).drop_last() =~= all.take(i as int));
                assert(all.take(i + 1).last() == call@);
            }
            let flag = match call.arguments.member("bg") {
                Some(value) => matches!(value, Json::Bool(_)),
                None => true,
            };
            if call.name == "ask".to_owned() && flag && parsed[i] {
                count += 1;
            }
            i += 1;
        }
        assert(all.take(i as int) =~= all);
        if count > 0 {
            let ghost before = self@;
            let mut batch = self.take_batch(agent);
            batch.expected = Some(count);
            self.batches.insert(agent.duplicate(), batch);
            assert(self@ =~= before.insert(
                agent@,
                QuestionBatchView { expected: Some(count), pending: batch_of(before, agent@).pending },
            ));
        }
    }

    /// Adds an ask to its agent's batch, unless a root agent may not ask. Tells whether
    /// the batch is complete. Without the capability a root question is refused before
    /// it is batched, so that none waits for input that cannot come.
    pub fn coordinate_question(&mut self, agent: &AgentId, interactive: bool, ask: PendingAsk) -> (result: Result<
        bool,
        ToolError,
    >)
        ensures
            ({
                let batch = batch_of(old(self)@, agent@);
                match result {
                    Ok(launch) => {
                        &&& agent@.path.len() > 0 || interactive
                        &&& final(self)@ == old(self)@.insert(
                            agent@,
                            QuestionBatchView { expected: batch.expected, pending: batch.pending.push(ask@) },
                        )
                        &&& launch == launches(batch.expected, batch.pending.len() + 1)
                    },
                    Err(error) => {
                        &&& agent@.path.len() == 0 && !interactive
                        &&& error matches ToolError::Denied(reason) && reason@
                            == "root questions require the interactive capability"@
                        &&& final(self)@ == old(self)@
                    },
                }
            }),
    {
        if agent.depth() == 0 && !interactive {
            return Err(ToolError::Denied("root questions require the interactive capability".to_owned()));
        }
        let ghost before = self@;
        let mut batch = self.take_batch(agent);
        let first = batch.pending.len() == 0;
        let ghost earlier = batch.pending@;
        let ghost added = ask@;
        batch.pending.push(ask);
        assert(model::views(batch.pending@) =~= model::views(earlier).push(added));
        let launch = match batch.expected {
            Some(expected) => batch.pending.len() as u64 >= expected,
            None => first,
        };
        self.batches.insert(agent.duplicate(), batch);
        assert(self@ =~= before.insert(
            agent@,
            QuestionBatchView {
                expected: batch_of(before, agent@).expected,
                pending: batch_of(before, agent@).pending.push(added),
            },
        ));
        Ok(launch)
    }

    /// Takes the asks of an agent out, to present them.
    pub fn take(&mut self, agent: &AgentId) -> (asks: Vec<PendingAsk>)
        ensures
            model::views(asks@) == batch_of(old(self)@, agent@).pending,
            final(self)@ == old(self)@.remove(agent@),
    {
        self.take_batch(agent).pending
    }
}

/// The first identifier that occurred before.
pub open spec fn first_repeat(ids: Seq<Seq<char>>) -> Option<Seq<char>>
    decreases ids.len(),
{
    if ids.len() == 0 {
        None
    } else {
        match first_repeat(ids.drop_last()) {
            Some(id) => Some(id),
            None => if ids.drop_last().contains(ids.last()) {
                Some(ids.last())
            } else {
                None
            },
        }
    }
}

/// The identifiers of questions.
pub open spec fn question_ids(questions: Seq<QuestionView>) -> Seq<Seq<char>> {
    questions.map_values(|question: QuestionView| question.id)
}

/// Finds the first identifier that occurred before.
pub fn duplicate_question_id(questions: &Vec<Question>) -> (duplicate: Option<&str>)
    ensures
        match duplicate {
            Some(id) => first_repeat(question_ids(model::views(questions@))) == Some(id@),
            None => first_repeat(question_ids(model::views(questions@))) is None,
        },
{
    let ghost ids = question_ids(model::views(questions@));
    let mut i: usize = 0;
    while i < questions.len()
        invariant
            i <= questions.len(),
            ids == question_ids(model::views(questions@)),
            first_repeat(ids.take(i as int)) is None,
        decreases questions.len() - i,
    {
        let mut k: usize = 0;
        proof {
            assert(ids.take(i + 1).drop_last() =~= ids.take(i as int));
        }
        while k < i
            invariant
                k <= i < questions.len(),
                ids == question_ids(model::views(questions@)),
                first_repeat(ids.take(i as int)) is None,
                ids.take(i + 1).drop_last() == ids.take(i as int),
                forall|j: int| 0 <= j < k ==> #[trigger] ids[j] != ids[i as int],
            decreases i - k,
        {
            if questions[k].id == questions[i].id {
                proof {
                    assert(ids[k as int] == ids[i as int]);
                    assert(ids.take(i as int)[k as int] == ids[i as int]);
                    lemma_repeat_stays(ids, i + 1);
                }
                return Some(questions[i].id.as_str());
            }
            assert(ids[k as int] != ids[i as int]);
            k += 1;
        }
        assert(!ids.take(i as int).contains(ids[i as int])) by {
            if ids.take(i as int).contains(ids[i as int]) {
                let j = choose|j: int| 0 <= j < i && ids.take(i as int)[j] == ids[i as int];
                assert(ids[j] == ids[i as int]);
            }
        }
        i += 1;
    }
    assert(ids.take(i as int) =~= ids);
    None
}

proof fn lemma_repeat_stays(ids: Seq<Seq<char>>, count: int)
    requires
        0 <= count <= ids.len(),
        first_repeat(ids.take(count)) is Some,
    ensures
        first_repeat(ids) == first_repeat(ids.take(count)),
    decreases ids.len(),
{
    if count < ids.len() {
        assert(ids.drop_last().take(count) =~= ids.take(count));
        lemma_repeat_stays(ids.drop_last(), count);
    } else {
        assert(ids.take(count) =~= ids);
    }
}

/// Identifiers have a first repetition exactly if they are not distinct.
pub proof fn repetitions_are_found(ids: Seq<Seq<char>>)
    ensures
        first_repeat(ids) is None <==> ids.no_duplicates(),
    decreases ids.len(),
{
    if ids.len() > 0 {
        let rest = ids.drop_last();
        repetitions_are_found(rest);
        if ids.no_duplicates() {
            assert forall|i: int, j: int| 0 <= i < rest.len() && 0 <= j < rest.len() && i != j implies rest[i]
                != rest[j] by {
                assert(rest[i] == ids[i] && rest[j] == ids[j]);
            }
            if rest.contains(ids.last()) {
                let k = choose|k: int| 0 <= k < rest.len() && rest[k] == ids.last();
                assert(ids[k] == ids[ids.len() - 1]);
            }
        }
        if first_repeat(ids) is None {
            assert forall|i: int, j: int| 0 <= i < ids.len() && 0 <= j < ids.len() && i != j implies ids[i]
                != ids[j] by {
                if i < rest.len() && j < rest.len() {
                    assert(rest[i] == ids[i] && rest[j] == ids[j]);
                } else if i < rest.len() {
                    assert(rest[i] == ids[i]);
                } else {
                    assert(rest[j] == ids[j]);
                }
            }
        }
    }
}

/// How a batch of questions is presented.
#[derive(Debug)]
pub enum Presentation {
    /// There is nothing to present.
    Nothing,
    /// Every ask fails with a reason.
    Refuse(String),
    /// The jobs of background asks show their questions first. Then all questions go
    /// together to the parent agent, or to the host.
    Present { requests: Vec<(JobId, Json)>, questions: Vec<Question>, to_parent: bool },
}

/// What the jobs of background asks show.
pub open spec fn background_requests(batch: Seq<PendingAskView>, backgrounds: Seq<bool>) -> Seq<
    (JobId, JsonView),
>
    decreases batch.len(),
{
    if batch.len() == 0 {
        seq![]
    } else {
        let earlier = background_requests(batch.drop_last(), backgrounds);
        if backgrounds[batch.len() - 1] {
            earlier.push((batch.last().job, questions_json(seq![batch.last().question])))
        } else {
            earlier
        }
    }
}

/// The contents of values that go to jobs.
pub open spec fn sent(values: Seq<(JobId, Json)>) -> Seq<(JobId, JsonView)> {
    values.map_values(|value: (JobId, Json)| (value.0, value.1@))
}

/// The questions of asks.
pub open spec fn asked_questions(batch: Seq<PendingAskView>) -> Seq<QuestionView> {
    batch.map_values(|ask: PendingAskView| ask.question)
}

/// Decides how a batch is presented. `backgrounds` tells which asks run in the background:
/// only those show their own question, because a foreground ask that waits for input
/// would return early.
pub fn present_question_batch(agent: &AgentId, batch: &Vec<PendingAsk>, backgrounds: &Vec<bool>) -> (presentation:
    Presentation)
    requires
        batch.len() == backgrounds.len(),
    ensures
        ({
            let asks = model::views(batch@);
            let repeat = first_repeat(question_ids(asked_questions(asks)));
            match presentation {
                Presentation::Nothing => batch.len() == 0,
                Presentation::Refuse(reason) => {
                    &&& batch.len() > 0
                    &&& repeat matches Some(id) && reason@ == "duplicate question id `"@ + id + "`"@
                },
                Presentation::Present { requests, questions, to_parent } => {
                    &&& batch.len() > 0
                    &&& repeat is None
                    &&& sent(requests@) == background_requests(asks, backgrounds@)
                    &&& model::views(questions@) == asked_questions(asks)
                    &&& to_parent == (agent@.path.len() > 0)
                },
            }
        }),
{
    if batch.len() == 0 {
        return Presentation::Nothing;
    }
    let ghost asks = model::views(batch@);
    let mut questions: Vec<Question> = Vec::new();
    let mut requests: Vec<(JobId, Json)> = Vec::new();
    let mut i: usize = 0;
    while i < batch.len()
        invariant
            i <= batch.len(),
            batch.len() == backgrounds.len(),
            asks == model::views(batch@),
            model::views(questions@) =~= asked_questions(asks.take(i as int)),
            sent(requests@) =~= background_requests(asks.take(i as int), backgrounds@),
        decreases batch.len() - i,
    {
        let ask = &batch[i];
        proof {
            assert(asks.take(i + 1).drop_last() =~= asks.take(i as int));
            assert(asks.take(i + 1).last() == ask@);
        }
        if backgrounds[i] {
            let mut own: Vec<Question> = Vec::new();
            own.push(ask.question.duplicate());
            assert(model::views(own@) =~= seq![ask.question@]);
            let ghost earlier = requests@;
            let output = questions_output(&own);
            let ghost shown = output@;
            requests.push((ask.job, output));
            assert(sent(requests@) =~= sent(earlier).push((ask.job, shown)));
        }
        let ghost before = questions@;
        questions.push(ask.question.duplicate());
        assert(model::views(questions@) =~= model::views(before).push(ask.question@));
        assert(asked_questions(asks.take(i + 1)) =~= asked_questions(asks.take(i as int)).push(ask.question@));
        i += 1;
    }
    assert(asks.take(i as int) =~= asks);
    let duplicate: Option<String> = match duplicate_question_id(&questions) {
        Some(id) => Some(id.to_owned()),
        None => None,
    };
    match duplicate {
        Some(id) => {
            let mut reason = "duplicate question id `".to_owned();
            reason.append(id.as_str());
            reason.append("`");
            Presentation::Refuse(reason)
        },
        None => Presentation::Present { requests, questions, to_parent: agent.depth() > 0 },
    }
}

/// Where the search for a job's agent goes on.
#[derive(Debug)]
pub enum OwnerStep {
    /// The job belongs to this agent job.
    Owner(JobId),
    /// The search goes on at the parent.
    Climb(JobId),
}

/// Looks for the agent job that a job belongs to, one job at a time.
pub fn owning_agent_job(job: JobId, tool: &String, parent: Option<JobId>) -> (step: Result<
    OwnerStep,
    HarnessError,
>)
    ensures
        match step {
            Ok(OwnerStep::Owner(owner)) => tool@ == "agent"@ && owner == job,
            Ok(OwnerStep::Climb(next)) => tool@ != "agent"@ && parent == Some(next),
            Err(error) => {
                &&& tool@ != "agent"@
                &&& parent is None
                &&& error matches HarnessError::Agent(reason) && reason@
                    == "child question has no owning agent job"@
            },
        },
{
    if *tool == "agent".to_owned() {
        return Ok(OwnerStep::Owner(job));
    }
    match parent {
        Some(next) => Ok(OwnerStep::Climb(next)),
        None => Err(HarnessError::Agent("child question has no owning agent job".to_owned())),
    }
}

/// Where the test whether a job holds up its agent goes on.
#[derive(Debug)]
pub enum BackgroundStep {
    /// It is known.
    Answer(bool),
    /// The parent decides.
    Climb(JobId),
}

/// Tests whether a job runs in the background of its agent, one job at a time: itself
/// or inside another job that does. The search stops at the agent's own job, whose mode
/// belongs to its parent.
pub fn effective_background(tool: &String, background: bool, parent: Option<JobId>) -> (step: BackgroundStep)
    ensures
        match step {
            BackgroundStep::Answer(answer) => {
                ||| tool@ == "agent"@ && !answer
                ||| tool@ != "agent"@ && background && answer
                ||| tool@ != "agent"@ && !background && parent is None && !answer
            },
            BackgroundStep::Climb(next) => tool@ != "agent"@ && !background && parent == Some(next),
        },
{
    if *tool == "agent".to_owned() {
        return BackgroundStep::Answer(false);
    }
    if background {
        return BackgroundStep::Answer(true);
    }
    match parent {
        Some(next) => BackgroundStep::Climb(next),
        None => BackgroundStep::Answer(false),
    }
}

/// Whether a batch runs in the background, which one of its asks decides: the first that
/// does, or the first of which it cannot be told.
pub open spec fn batch_mode(modes: Seq<Result<bool, String>>) -> Result<bool, Seq<char>>
    decreases modes.len(),
{
    if modes.len() == 0 {
        Ok(false)
    } else {
        match modes[0] {
            Ok(true) => Ok(true),
            Ok(false) => batch_mode(modes.skip(1)),
            Err(reason) => Err(reason@),
        }
    }
}

/// Decides whether a batch runs in the background.
pub fn any_background(modes: &Vec<Result<bool, String>>) -> (background: Result<bool, String>)
    ensures
        match background {
            Ok(answer) => batch_mode(modes@) == Ok::<bool, Seq<char>>(answer),
            Err(reason) => batch_mode(modes@) == Err::<bool, Seq<char>>(reason@),
        },
{
    let mut i: usize = 0;
    assert(modes@.skip(0) =~= modes@);
    while i < modes.len()
        invariant
            i <= modes.len(),
            batch_mode(modes@.skip(i as int)) == batch_mode(modes@),
        decreases modes.len() - i,
    {
        proof {
            assert(modes@.skip(i as int)[0] == modes@[i as int]);
            assert(modes@.skip(i as int).skip(1) =~= modes@.skip(i + 1));
        }
        match &modes[i] {
            Ok(true) => {
                return Ok(true);
            },
            Ok(false) => {},
            Err(reason) => {
                return Err(reason.clone());
            },
        }
        i += 1;
    }
    Ok(false)
}

/// The content of an answer, or of the reason why there is none.
pub open spec fn outcome(result: Result<Json, String>) -> Result<JsonView, Seq<char>> {
    match result {
        Ok(value) => Ok(value@),
        Err(reason) => Err(reason@),
    }
}

/// The contents of answers.
pub open spec fn outcomes(results: Seq<Result<Json, String>>) -> Seq<Result<JsonView, Seq<char>>> {
    results.map_values(|result: Result<Json, String>| outcome(result))
}

/// What a question gets of a common answer: a single question gets all of it, several
/// get the members under their identifiers.
pub open spec fn split_answer(ids: Seq<Seq<char>>, answer: JsonView, index: int) -> Result<JsonView, Seq<char>> {
    if ids.len() == 1 {
        Ok(answer)
    } else if !(answer is Object) {
        Err("answers to multiple questions must be keyed by question id"@)
    } else {
        match answer.member(ids[index]) {
            Some(value) => Ok(value),
            None => Err("answer is missing question id `"@ + ids[index] + "`"@),
        }
    }
}

/// What each question gets of a common answer.
pub open spec fn split(ids: Seq<Seq<char>>, answer: JsonView) -> Seq<Result<JsonView, Seq<char>>> {
    Seq::new(ids.len(), |index: int| split_answer(ids, answer, index))
}

/// Splits a common answer.
pub fn split_answers(ids: &Vec<String>, answer: Json) -> (results: Vec<Result<Json, String>>)
    ensures
        outcomes(results@) == split(model::views(ids@), answer@),
{
    let ghost names = model::views(ids@);
    let ghost goal = split(names, answer@);
    let mut results: Vec<Result<Json, String>> = Vec::new();
    if ids.len() == 1 {
        results.push(Ok(answer));
        assert(outcomes(results@) =~= goal);
        return results;
    }
    let keyed = matches!(answer, Json::Object(_));
    let mut i: usize = 0;
    while i < ids.len()
        invariant
            i <= ids.len(),
            ids.len() != 1,
            names == model::views(ids@),
            goal == split(names, answer@),
            keyed == (answer@ is Object),
            outcomes(results@) =~= goal.take(i as int),
        decreases ids.len() - i,
    {
        let result: Result<Json, String> = if !keyed {
            Err("answers to multiple questions must be keyed by question id".to_owned())
        } else {
            match answer.member(ids[i].as_str()) {
                Some(value) => Ok(value.duplicate()),
                None => {
                    let mut reason = "answer is missing question id `".to_owned();
                    reason.append(ids[i].as_str());
                    reason.append("`");
                    Err(reason)
                },
            }
        };
        let ghost earlier = results@;
        let ghost added = outcome(result);
        assert(names[i as int] == ids@[i as int]@);
        assert(added == goal[i as int]);
        results.push(result);
        assert(outcomes(results@) =~= outcomes(earlier).push(added));
        assert(goal.take(i + 1) =~= goal.take(i as int).push(goal[i as int]));
        i += 1;
    }
    assert(goal.take(i as int) =~= goal);
    results
}

/// An answer for a caller that waits.
#[derive(Debug, PartialEq, Eq)]
pub struct Reply {
    pub ticket: u64,
    pub result: Result<Json, String>,
}

/// The mathematical content of a `Reply`.
#[verifier::ext_equal]
pub struct ReplyView {
    pub ticket: u64,
    pub result: Result<JsonView, Seq<char>>,
}

impl View for Reply {
    type V = ReplyView;

    open spec fn view(&self) -> ReplyView {
        ReplyView { ticket: self.ticket, result: outcome(self.result) }
    }
}

/// The questions that wait for the host: for each its identifier, and the caller as
/// long as it waits.
#[derive(Debug)]
pub struct RootQuestions {
    ids: Vec<String>,
    waiting: Vec<Option<u64>>,
}

/// The mathematical content of `RootQuestions`.
#[verifier::ext_equal]
pub struct RootQuestionsView {
    pub ids: Seq<Seq<char>>,
    pub waiting: Seq<Option<u64>>,
}

impl View for RootQuestions {
    type V = RootQuestionsView;

    closed spec fn view(&self) -> RootQuestionsView {
        RootQuestionsView { ids: model::views(self.ids@), waiting: self.waiting@ }
    }
}

/// The replies to the callers that wait, each with its result.
pub open spec fn replies(waiting: Seq<Option<u64>>, results: Seq<Result<JsonView, Seq<char>>>) -> Seq<ReplyView>
    decreases waiting.len(),
{
    if waiting.len() == 0 {
        seq![]
    } else {
        let earlier = replies(waiting.drop_last(), results);
        match waiting.last() {
            Some(ticket) => earlier.push(ReplyView { ticket, result: results[waiting.len() - 1] }),
            None => earlier,
        }
    }
}

/// The asks that no one can answer: without a host handler, those in the foreground.
pub open spec fn unanswerable(batch: Seq<PendingAskView>, backgrounds: Seq<bool>, handler: bool) -> Seq<
    Option<u64>,
> {
    Seq::new(
        batch.len(),
        |index: int|
            if !handler && !backgrounds[index] {
                Some(batch[index].ticket)
            } else {
                None
            },
    )
}

/// The asks that wait for an answer.
pub open spec fn answerable(batch: Seq<PendingAskView>, backgrounds: Seq<bool>, handler: bool) -> Seq<
    Option<u64>,
> {
    Seq::new(
        batch.len(),
        |index: int|
            if !handler && !backgrounds[index] {
                None
            } else {
                Some(batch[index].ticket)
            },
    )
}

/// The same result for each of some questions.
pub open spec fn repeated(result: Result<JsonView, Seq<char>>, count: nat) -> Seq<Result<JsonView, Seq<char>>> {
    Seq::new(count, |index: int| result)
}

/// What the host's answer gives each question.
pub open spec fn host_results(ids: Seq<Seq<char>>, answer: Result<JsonView, Seq<char>>) -> Seq<
    Result<JsonView, Seq<char>>,
> {
    match answer {
        Ok(value) => split(ids, value),
        Err(reason) => repeated(Err(reason), ids.len()),
    }
}

impl RootQuestions {
    #[verifier::type_invariant]
    spec fn lists_agree(self) -> bool {
        self.ids@.len() == self.waiting@.len()
    }

    /// Begins to wait for the host. Without a handler, foreground asks fail at once;
    /// background asks can still be answered through their jobs.
    pub fn begin(batch: &Vec<PendingAsk>, backgrounds: &Vec<bool>, handler: bool) -> (begun: (
        RootQuestions,
        Vec<Reply>,
    ))
        requires
            batch.len() == backgrounds.len(),
        ensures
            ({
                let asks = model::views(batch@);
                &&& begun.0@ == RootQuestionsView {
                    ids: question_ids(asked_questions(asks)),
                    waiting: answerable(asks, backgrounds@, handler),
                }
                &&& model::views(begun.1@) == replies(
                    unanswerable(asks, backgrounds@, handler),
                    repeated(Err(QuestionError::Unavailable.spec_message()), asks.len()),
                )
            }),
    {
        let ghost asks = model::views(batch@);
        let ghost failed = unanswerable(asks, backgrounds@, handler);
        let ghost results = repeated(Err(QuestionError::Unavailable.spec_message()), asks.len());
        let mut ids: Vec<String> = Vec::new();
        let mut waiting: Vec<Option<u64>> = Vec::new();
        let mut refused: Vec<Reply> = Vec::new();
        let mut i: usize = 0;
        while i < batch.len()
            invariant
                i <= batch.len(),
                batch.len() == backgrounds.len(),
                asks == model::views(batch@),
                failed == unanswerable(asks, backgrounds@, handler),
                results == repeated(Err(QuestionError::Unavailable.spec_message()), asks.len()),
                ids@.len() == i,
                model::views(ids@) =~= question_ids(asked_questions(asks)).take(i as int),
                waiting@ =~= answerable(asks, backgrounds@, handler).take(i as int),
                model::views(refused@) =~= replies(failed.take(i as int), results),
            decreases batch.len() - i,
        {
            let ask = &batch[i];
            assert(asks[i as int] == ask@);
            let ghost earlier_ids = ids@;
            ids.push(ask.question.id.clone());
            assert(model::views(ids@) =~= model::views(earlier_ids).push(ask.question.id@));
            proof {
                assert(failed.take(i + 1).drop_last() =~= failed.take(i as int));
            }
            if !handler && !backgrounds[i] {
                waiting.push(None);
                let reply = Reply { ticket: ask.ticket, result: Err(QuestionError::Unavailable.message()) };
                let ghost earlier = refused@;
                let ghost added = reply@;
                refused.push(reply);
                assert(model::views(refused@) =~= model::views(earlier).push(added));
            } else {
                waiting.push(Some(ask.ticket));
            }
            i += 1;
        }
        assert(failed.take(i as int) =~= failed);
        let begun = RootQuestions { ids, waiting };
        assert(begun@.ids =~= question_ids(asked_questions(asks)));
        assert(begun@.waiting =~= answerable(asks, backgrounds@, handler));
        (begun, refused)
    }

    /// Whether any caller waits.
    pub fn is_waiting(&self) -> (answer: bool)
        ensures
            answer == exists|i: int| 0 <= i < self@.waiting.len() && (#[trigger] self@.waiting[i]) is Some,
    {
        let mut i: usize = 0;
        while i < self.waiting.len()
            invariant
                i <= self.waiting.len(),
                forall|k: int| 0 <= k < i ==> (#[trigger] self@.waiting[k]) is None,
            decreases self.waiting.len() - i,
        {
            if self.waiting[i].is_some() {
                assert(self@.waiting[i as int] is Some);
                return true;
            }
            i += 1;
        }
        false
    }

    /// Takes the host's answer: every caller that waits gets its part, and none waits
    /// any more.
    pub fn host_answered(&mut self, answer: Result<Json, String>) -> (answers: Vec<Reply>)
        ensures
            model::views(answers@) == replies(
                old(self)@.waiting,
                host_results(old(self)@.ids, outcome(answer)),
            ),
            final(self)@.ids == old(self)@.ids,
            final(self)@.waiting == Seq::new(old(self)@.waiting.len(), |index: int| None::<u64>),
    {
        proof {
            use_type_invariant(&*self);
        }
        let ghost names = self@.ids;
        let ghost waiting = self@.waiting;
        let ghost goal = host_results(names, outcome(answer));
        let count: usize = self.ids.len();
        let results: Vec<Result<Json, String>> = match answer {
            Ok(value) => split_answers(&self.ids, value),
            Err(reason) => {
                let mut results: Vec<Result<Json, String>> = Vec::new();
                let mut i: usize = 0;
                while i < count
                    invariant
                        i <= count,
                        results@.len() == i,
                        forall|k: int| 0 <= k < i ==> outcome(#[trigger] results@[k]) == Err::<JsonView, Seq<char>>(
                            reason@,
                        ),
                    decreases count - i,
                {
                    results.push(Err(reason.clone()));
                    i += 1;
                }
                assert(outcomes(results@) =~= goal);
                results
            },
        };
        assert(outcomes(results@) == goal);
        assert(results@.len() == goal.len());
        let mut cleared: Vec<Option<u64>> = Vec::new();
        let mut answers: Vec<Reply> = Vec::new();
        let length: usize = results.len();
        let mut i: usize = 0;
        for result in it: results
            invariant
                it.seq() == results@,
                length == results@.len(),
                outcomes(results@) == goal,
                i == it.index(),
                waiting == self.waiting@,
                self.waiting@.len() == results@.len(),
                cleared@.len() == i,
                forall|k: int| 0 <= k < i ==> (#[trigger] cleared@[k]) is None,
                model::views(answers@) =~= replies(waiting.take(i as int), goal),
        {
            proof {
                assert(waiting.take(i + 1).drop_last() =~= waiting.take(i as int));
                assert(waiting.take(i + 1).last() == waiting[i as int]);
                assert(outcomes(results@)[i as int] == outcome(result));
            }
            if let Some(ticket) = self.waiting[i] {
                let reply = Reply { ticket, result };
                let ghost earlier = answers@;
                let ghost added = reply@;
                answers.push(reply);
                assert(model::views(answers@) =~= model::views(earlier).push(added));
            }
            cleared.push(None);
            i += 1;
        }
        assert(waiting.take(waiting.len() as int) =~= waiting);
        self.waiting = cleared;
        assert(self@.waiting =~= Seq::new(waiting.len(), |index: int| None::<u64>));
        answers
    }

    /// Takes the answer that came through an ask's own job, unless the ask has one.
    pub fn ask_answered(&mut self, index: usize, result: Result<Json, String>) -> (reply: Option<Reply>)
        requires
            index < old(self)@.waiting.len(),
        ensures
            final(self)@.ids == old(self)@.ids,
            final(self)@.waiting == old(self)@.waiting.update(index as int, None),
            match reply {
                Some(answer) => old(self)@.waiting[index as int] == Some(answer.ticket) && answer@.result
                    == outcome(result),
                None => old(self)@.waiting[index as int] is None,
            },
    {
        proof {
            use_type_invariant(&*self);
        }
        let ghost before = self@.waiting;
        let mut taken = RootQuestions { ids: Vec::new(), waiting: Vec::new() };
        std::mem::swap(&mut taken, self);
        let ids = taken.ids;
        let mut waiting = taken.waiting;
        let caller: Option<u64> = waiting[index];
        waiting[index] = None;
        *self = RootQuestions { ids, waiting };
        assert(self@.waiting =~= before.update(index as int, None));
        match caller {
            Some(ticket) => Some(Reply { ticket, result }),
            None => None,
        }
    }
}

/// No open questions.
pub open spec fn no_questions() -> PendingQuestionView {
    PendingQuestionView { ask_jobs: seq![], questions: seq![], merged: false, answering: Set::empty() }
}

/// The open questions of an agent job.
pub open spec fn questions_of(open: Map<JobId, PendingQuestionView>, owner: JobId) -> PendingQuestionView {
    if open.dom().contains(owner) {
        open[owner]
    } else {
        no_questions()
    }
}

/// Whether a question with an identifier is open.
pub open spec fn has_route(routes: Seq<AskRouteView>, id: Seq<char>) -> bool {
    exists|i: int| 0 <= i < routes.len() && (#[trigger] routes[i]).id == id
}

/// The first of some new questions whose identifier is taken.
pub open spec fn first_clash(routes: Seq<AskRouteView>, added: Seq<AskRouteView>) -> Option<int> {
    model::first(added, |route: AskRouteView| has_route(routes, route.id))
}

/// Open questions with more of them.
pub open spec fn with_questions(
    open: PendingQuestionView,
    added: Seq<AskRouteView>,
    questions: Seq<QuestionView>,
) -> PendingQuestionView {
    PendingQuestionView {
        ask_jobs: open.ask_jobs + added,
        questions: open.questions + questions,
        merged: open.merged || open.ask_jobs.len() + added.len() > 1,
        answering: open.answering,
    }
}

/// Open questions without those of some jobs.
pub open spec fn without_jobs(open: PendingQuestionView, jobs: Set<JobId>) -> PendingQuestionView {
    let left = model::selected(open.ask_jobs, |route: AskRouteView| !jobs.contains(route.job));
    PendingQuestionView {
        ask_jobs: left,
        questions: model::selected(open.questions, |question: QuestionView| has_route(left, question.id)),
        merged: open.merged,
        answering: open.answering.difference(jobs),
    }
}

/// Whether an answer names open questions by their identifiers. Once questions have been
/// merged, such answers are recognized as their number shrinks.
pub open spec fn is_keyed(open: PendingQuestionView, value: JsonView) -> bool {
    &&& open.merged
    &&& value is Object
    &&& exists|i: int|
        0 <= i < open.ask_jobs.len() && value.member((#[trigger] open.ask_jobs[i]).id) is Some
}

/// The parts of an answer for the questions that it names.
pub open spec fn named_answers(routes: Seq<AskRouteView>, value: JsonView) -> Seq<(JobId, JsonView)>
    decreases routes.len(),
{
    if routes.len() == 0 {
        seq![]
    } else {
        let earlier = named_answers(routes.drop_last(), value);
        match value.member(routes.last().id) {
            Some(part) => earlier.push((routes.last().job, part)),
            None => earlier,
        }
    }
}

/// Which job gets which part of an answer.
pub open spec fn routed(open: PendingQuestionView, value: JsonView) -> Result<Seq<(JobId, JsonView)>, Seq<char>> {
    if open.ask_jobs.len() == 1 && !is_keyed(open, value) {
        Ok(seq![(open.ask_jobs[0].job, value)])
    } else if !(value is Object) {
        Err("answers to multiple questions must be keyed by question id"@)
    } else if named_answers(open.ask_jobs, value).len() == 0 {
        Err("answer contains no pending question ids"@)
    } else {
        Ok(named_answers(open.ask_jobs, value))
    }
}

/// The answers whose job has none on its way. Of several for one job, the first counts.
pub open spec fn claimed(answers: Seq<(JobId, JsonView)>, answering: Set<JobId>) -> Seq<(JobId, JsonView)>
    decreases answers.len(),
{
    if answers.len() == 0 {
        seq![]
    } else {
        let earlier = claimed(answers.drop_last(), answering);
        let job = answers.last().0;
        if claiming(answers.drop_last(), answering).contains(job) {
            earlier
        } else {
            earlier.push(answers.last())
        }
    }
}

/// The jobs that have an answer on its way once some answers are claimed.
pub open spec fn claiming(answers: Seq<(JobId, JsonView)>, answering: Set<JobId>) -> Set<JobId>
    decreases answers.len(),
{
    if answers.len() == 0 {
        answering
    } else {
        claiming(answers.drop_last(), answering).insert(answers.last().0)
    }
}

/// What an agent job does once questions of its agent are resolved.
#[derive(Debug)]
pub enum Resolution {
    /// It had no open questions.
    Nothing,
    /// No question is open any more: it runs on.
    Resume,
    /// It shows the questions that are left.
    Request(Json),
}

/// The open questions of child agents, under their agent jobs.
#[derive(Debug)]
pub struct ChildQuestions {
    open: Table<JobId, PendingQuestion>,
}

impl View for ChildQuestions {
    type V = Map<JobId, PendingQuestionView>;

    closed spec fn view(&self) -> Map<JobId, PendingQuestionView> {
        self.open@
    }
}

/// Tests whether a question with an identifier is open.
fn contains_route(routes: &Vec<AskRoute>, id: &String) -> (answer: bool)
    ensures
        answer == has_route(model::views(routes@), id@),
{
    let ghost all = model::views(routes@);
    let mut i: usize = 0;
    while i < routes.len()
        invariant
            i <= routes.len(),
            all == model::views(routes@),
            forall|k: int| 0 <= k < i ==> (#[trigger] all[k]).id != id@,
        decreases routes.len() - i,
    {
        if routes[i].id == *id {
            assert(all[i as int].id == id@);
            return true;
        }
        i += 1;
    }
    false
}

/// Tests whether an answer names open questions.
fn names_routes(routes: &Vec<AskRoute>, value: &Json) -> (answer: bool)
    ensures
        answer == exists|i: int|
            0 <= i < routes.len() && value@.member((#[trigger] model::views(routes@)[i]).id) is Some,
{
    let ghost all = model::views(routes@);
    let mut i: usize = 0;
    while i < routes.len()
        invariant
            i <= routes.len(),
            all == model::views(routes@),
            forall|k: int| 0 <= k < i ==> value@.member((#[trigger] all[k]).id) is None,
        decreases routes.len() - i,
    {
        if value.member(routes[i].id.as_str()).is_some() {
            assert(value@.member(all[i as int].id) is Some);
            return true;
        }
        i += 1;
    }
    false
}

/// Tests whether a job is in a list.
fn lists_job(jobs: &Vec<JobId>, job: JobId) -> (answer: bool)
    ensures
        answer == jobs@.to_set().contains(job),
{
    let mut i: usize = 0;
    while i < jobs.len()
        invariant
            i <= jobs.len(),
            forall|k: int| 0 <= k < i ==> jobs@[k] != job,
        decreases jobs.len() - i,
    {
        if jobs[i].is(job) {
            assert(jobs@.contains(job));
            return true;
        }
        i += 1;
    }
    assert(!jobs@.contains(job));
    false
}

/// Decides which job gets which part of an answer.
fn route_answer(open: &PendingQuestion, value: Json) -> (answers: Result<Vec<(JobId, Json)>, HarnessError>)
    ensures
        match answers {
            Ok(parts) => routed(open@, value@) == Ok::<Seq<(JobId, JsonView)>, Seq<char>>(sent(parts@)),
            Err(error) => error matches HarnessError::Agent(reason) && routed(open@, value@) == Err::<
                Seq<(JobId, JsonView)>,
                Seq<char>,
            >(reason@),
        },
{
    let object = matches!(value, Json::Object(_));
    let keyed = open.merged && object && names_routes(&open.ask_jobs, &value);
    proof {
        if keyed {
            let i = choose|i: int|
                0 <= i < open.ask_jobs.len() && value@.member((#[trigger] model::views(open.ask_jobs@)[i]).id) is Some;
            assert(value@.member(open@.ask_jobs[i].id) is Some);
        }
        if is_keyed(open@, value@) {
            let i = choose|i: int|
                0 <= i < open@.ask_jobs.len() && value@.member((#[trigger] open@.ask_jobs[i]).id) is Some;
            assert(value@.member(model::views(open.ask_jobs@)[i].id) is Some);
        }
        assert(keyed == is_keyed(open@, value@));
    }
    let mut parts: Vec<(JobId, Json)> = Vec::new();
    if open.ask_jobs.len() == 1 && !keyed {
        let ghost content = value@;
        parts.push((open.ask_jobs[0].job, value));
        assert(sent(parts@) =~= seq![(open@.ask_jobs[0].job, content)]);
        return Ok(parts);
    }
    if !object {
        return Err(
            HarnessError::Agent("answers to multiple questions must be keyed by question id".to_owned()),
        );
    }
    let ghost routes = open@.ask_jobs;
    let mut i: usize = 0;
    while i < open.ask_jobs.len()
        invariant
            i <= open.ask_jobs.len(),
            routes == open@.ask_jobs,
            sent(parts@) =~= named_answers(routes.take(i as int), value@),
        decreases open.ask_jobs.len() - i,
    {
        let route = &open.ask_jobs[i];
        proof {
            assert(routes.take(i + 1).drop_last() =~= routes.take(i as int));
            assert(routes.take(i + 1).last() == route@);
        }
        if let Some(part) = value.member(route.id.as_str()) {
            let ghost earlier = parts@;
            let copy = part.duplicate();
            let ghost added = copy@;
            parts.push((route.job, copy));
            assert(sent(parts@) =~= sent(earlier).push((route.job, added)));
        }
        i += 1;
    }
    assert(routes.take(i as int) =~= routes);
    if parts.len() == 0 {
        return Err(HarnessError::Agent("answer contains no pending question ids".to_owned()));
    }
    Ok(parts)
}

/// The job that opens a batch.
pub fn opening_job(ask_jobs: &Vec<AskRoute>) -> (job: Result<JobId, HarnessError>)
    ensures
        match job {
            Ok(first) => ask_jobs.len() > 0 && first == ask_jobs@[0].job,
            Err(error) => ask_jobs.len() == 0 && (error matches HarnessError::Agent(reason) && reason@
                == "question batch is empty"@),
        },
{
    if ask_jobs.len() == 0 {
        return Err(HarnessError::Agent("question batch is empty".to_owned()));
    }
    Ok(ask_jobs[0].job)
}

/// The routes of asks.
pub open spec fn ask_routes(batch: Seq<PendingAskView>) -> Seq<AskRouteView> {
    batch.map_values(|ask: PendingAskView| AskRouteView { id: ask.question.id, job: ask.job })
}

/// Takes the routes of asks.
pub fn routes_of(batch: &Vec<PendingAsk>) -> (routes: Vec<AskRoute>)
    ensures
        model::views(routes@) == ask_routes(model::views(batch@)),
{
    let ghost goal = ask_routes(model::views(batch@));
    let mut routes: Vec<AskRoute> = Vec::new();
    let mut i: usize = 0;
    while i < batch.len()
        invariant
            i <= batch.len(),
            goal == ask_routes(model::views(batch@)),
            model::views(routes@) =~= goal.take(i as int),
        decreases batch.len() - i,
    {
        let route = AskRoute { id: batch[i].question.id.clone(), job: batch[i].job };
        let ghost earlier = routes@;
        let ghost added = route@;
        assert(added == goal[i as int]);
        routes.push(route);
        assert(model::views(routes@) =~= model::views(earlier).push(added));
        i += 1;
    }
    assert(goal.take(i as int) =~= goal);
    routes
}

impl ChildQuestions {
    /// No open questions.
    pub fn new() -> (questions: ChildQuestions)
        ensures
            questions@ == Map::<JobId, PendingQuestionView>::empty(),
    {
        ChildQuestions { open: Table::new() }
    }

    /// Puts new questions together with those that an agent job has open. The job shows
    /// all of them before they count as open.
    pub fn open_child_questions(
        &self,
        owner: JobId,
        ask_jobs: Vec<AskRoute>,
        questions: Vec<Question>,
    ) -> (combined: Result<(PendingQuestion, Json), HarnessError>)
        ensures
            ({
                let open = questions_of(self@, owner);
                let added = model::views(ask_jobs@);
                match combined {
                    Ok((all, shown)) => {
                        &&& first_clash(open.ask_jobs, added) is None
                        &&& all@ == with_questions(open, added, model::views(questions@))
                        &&& shown@ == questions_json(all@.questions)
                    },
                    Err(error) => {
                        &&& first_clash(open.ask_jobs, added) matches Some(index)
                        &&& error matches HarnessError::Agent(reason)
                        &&& reason@ == "duplicate question id `"@ + added[index].id + "`"@
                    },
                }
            }),
    {
        let mut combined = match self.open.get(&owner) {
            Some(open) => open.duplicate(),
            None => {
                let open = PendingQuestion {
                    ask_jobs: Vec::new(),
                    questions: Vec::new(),
                    merged: false,
                    answering: JobSet::new(),
                };
                assert(open@ =~= no_questions());
                open
            },
        };
        let ghost open = questions_of(self@, owner);
        let ghost added = model::views(ask_jobs@);
        let ghost test = |route: AskRouteView| has_route(open.ask_jobs, route.id);
        let mut i: usize = 0;
        while i < ask_jobs.len()
            invariant
                i <= ask_jobs.len(),
                open == questions_of(self@, owner),
                combined@ == open,
                added == model::views(ask_jobs@),
                test == (|route: AskRouteView| has_route(open.ask_jobs, route.id)),
                forall|k: int| 0 <= k < i ==> !test(#[trigger] added[k]),
            decreases ask_jobs.len() - i,
        {
            if contains_route(&combined.ask_jobs, &ask_jobs[i].id) {
                let mut reason = "duplicate question id `".to_owned();
                reason.append(ask_jobs[i].id.as_str());
                reason.append("`");
                proof {
                    assert(test(added[i as int]));
                    model::lemma_first(added, test, i as int);
                }
                return Err(HarnessError::Agent(reason));
            }
            assert(!test(added[i as int]));
            i += 1;
        }
        proof {
            model::lemma_first(added, test, i as int);
        }
        let ghost routes = combined.ask_jobs@;
        let ghost asked = combined.questions@;
        let mut ask_jobs = ask_jobs;
        let mut questions = questions;
        combined.ask_jobs.append(&mut ask_jobs);
        combined.questions.append(&mut questions);
        combined.merged = combined.merged || combined.ask_jobs.len() > 1;
        proof {
            assert(combined@.ask_jobs =~= model::views(routes) + added);
            assert(combined@ =~= with_questions(open, added, combined@.questions.skip(asked.len() as int)));
            assert(combined@.questions =~= model::views(asked) + combined@.questions.skip(asked.len() as int));
        }
        let shown = questions_output(&combined.questions);
        Ok((combined, shown))
    }

    /// Opens the questions that an agent job shows.
    pub fn commit(&mut self, owner: JobId, combined: PendingQuestion)
        ensures
            final(self)@ == old(self)@.insert(owner, combined@),
    {
        self.open.insert(owner, combined);
    }

    /// Closes the questions of jobs that have their answer or have ended.
    pub fn resolve_child_question(&mut self, owner: JobId, jobs: &Vec<JobId>) -> (resolution: Resolution)
        ensures
            ({
                let left = without_jobs(questions_of(old(self)@, owner), jobs@.to_set());
                match resolution {
                    Resolution::Nothing => !old(self)@.dom().contains(owner) && final(self)@ == old(self)@,
                    Resolution::Resume => {
                        &&& old(self)@.dom().contains(owner)
                        &&& left.ask_jobs.len() == 0
                        &&& final(self)@ == old(self)@.remove(owner)
                    },
                    Resolution::Request(shown) => {
                        &&& old(self)@.dom().contains(owner)
                        &&& left.ask_jobs.len() > 0
                        &&& final(self)@ == old(self)@.insert(owner, left)
                        &&& shown@ == questions_json(left.questions)
                    },
                }
            }),
    {
        let ghost before = self@;
        let open = match self.open.remove(&owner) {
            Some(open) => open,
            None => {
                assert(self@ =~= before);
                return Resolution::Nothing;
            },
        };
        let ghost resolved = jobs@.to_set();
        let ghost kept = |route: AskRouteView| !resolved.contains(route.job);
        let ghost routes = open@.ask_jobs;
        let mut ask_jobs: Vec<AskRoute> = Vec::new();
        let mut i: usize = 0;
        while i < open.ask_jobs.len()
            invariant
                i <= open.ask_jobs.len(),
                routes == open@.ask_jobs,
                resolved == jobs@.to_set(),
                kept == (|route: AskRouteView| !resolved.contains(route.job)),
                model::views(ask_jobs@) =~= model::selected(routes.take(i as int), kept),
            decreases open.ask_jobs.len() - i,
        {
            proof {
                model::lemma_selected_step(routes, kept, i as int);
                assert(routes[i as int] == open.ask_jobs@[i as int]@);
            }
            if !lists_job(jobs, open.ask_jobs[i].job) {
                let ghost earlier = ask_jobs@;
                ask_jobs.push(open.ask_jobs[i].duplicate());
                assert(model::views(ask_jobs@) =~= model::views(earlier).push(routes[i as int]));
            }
            i += 1;
        }
        assert(routes.take(i as int) =~= routes);
        let ghost left = model::views(ask_jobs@);
        let ghost named = |question: QuestionView| has_route(left, question.id);
        let ghost asked = open@.questions;
        let mut questions: Vec<Question> = Vec::new();
        i = 0;
        while i < open.questions.len()
            invariant
                i <= open.questions.len(),
                asked == open@.questions,
                left == model::views(ask_jobs@),
                named == (|question: QuestionView| has_route(left, question.id)),
                model::views(questions@) =~= model::selected(asked.take(i as int), named),
            decreases open.questions.len() - i,
        {
            proof {
                model::lemma_selected_step(asked, named, i as int);
                assert(asked[i as int] == open.questions@[i as int]@);
            }
            if contains_route(&ask_jobs, &open.questions[i].id) {
                let ghost earlier = questions@;
                questions.push(open.questions[i].duplicate());
                assert(model::views(questions@) =~= model::views(earlier).push(asked[i as int]));
            }
            i += 1;
        }
        assert(asked.take(i as int) =~= asked);
        let mut answering = open.answering;
        let ghost claims = answering@;
        i = 0;
        while i < jobs.len()
            invariant
                i <= jobs.len(),
                answering@ =~= claims.difference(jobs@.take(i as int).to_set()),
            decreases jobs.len() - i,
        {
            let ghost done = jobs@.take(i as int);
            answering.remove(jobs[i]);
            proof {
                assert(jobs@.take(i + 1) =~= done.push(jobs@[i as int]));
                assert forall|job: JobId| jobs@.take(i + 1).to_set().contains(job) <==> done.to_set().contains(job)
                    || job == jobs@[i as int] by {
                    if done.contains(job) {
                        let k = choose|k: int| 0 <= k < done.len() && done[k] == job;
                        assert(jobs@.take(i + 1)[k] == job);
                    }
                    if job == jobs@[i as int] {
                        assert(jobs@.take(i + 1)[i as int] == job);
                    }
                }
            }
            i += 1;
        }
        assert(jobs@.take(i as int) =~= jobs@);
        if ask_jobs.len() == 0 {
            return Resolution::Resume;
        }
        let rest = PendingQuestion { ask_jobs, questions, merged: open.merged, answering };
        proof {
            assert(rest@ =~= without_jobs(questions_of(before, owner), resolved));
        }
        let shown = questions_output(&rest.questions);
        self.open.insert(owner, rest);
        assert(self@ =~= before.insert(owner, rest@));
        Resolution::Request(shown)
    }

    /// Routes an answer to the jobs that asked. Each job is claimed once: an answer to
    /// a job that has one on its way goes nowhere. There is none to route where no
    /// question is open.
    pub fn answer_child_question(&mut self, owner: JobId, value: Json) -> (answers: Result<
        Option<Vec<(JobId, Json)>>,
        HarnessError,
    >)
        ensures
            ({
                let open = questions_of(old(self)@, owner);
                match answers {
                    Ok(None) => !old(self)@.dom().contains(owner) && final(self)@ == old(self)@,
                    Ok(Some(parts)) => {
                        &&& old(self)@.dom().contains(owner)
                        &&& routed(open, value@) matches Ok(all)
                        &&& sent(parts@) == claimed(all, open.answering)
                        &&& final(self)@ == old(self)@.insert(
                            owner,
                            (PendingQuestionView { answering: claiming(all, open.answering), ..open }),
                        )
                    },
                    Err(error) => {
                        &&& old(self)@.dom().contains(owner)
                        &&& routed(open, value@) matches Err(reason)
                        &&& error matches HarnessError::Agent(text)
                        &&& text@ == reason
                        &&& final(self)@ == old(self)@
                    },
                }
            }),
    {
        let ghost before = self@;
        let mut open = match self.open.remove(&owner) {
            Some(open) => open,
            None => {
                assert(self@ =~= before);
                return Ok(None);
            },
        };
        let ghost start = open@;
        let parts = match route_answer(&open, value) {
            Ok(parts) => parts,
            Err(error) => {
                self.open.insert(owner, open);
                assert(self@ =~= before);
                return Err(error);
            },
        };
        let ghost all = sent(parts@);
        let mut answers: Vec<(JobId, Json)> = Vec::new();
        for part in it: parts
            invariant
                it.seq() == parts@,
                all == sent(parts@),
                open@.ask_jobs == start.ask_jobs,
                open@.questions == start.questions,
                open@.merged == start.merged,
                open@.answering == claiming(all.take(it.index() as int), start.answering),
                sent(answers@) =~= claimed(all.take(it.index() as int), start.answering),
        {
            let ghost index = it.index() as int;
            proof {
                assert(all.take(index + 1).drop_last() =~= all.take(index));
                assert(all.take(index + 1).last() == (part.0, part.1@));
            }
            if open.answering.insert(part.0) {
                let ghost earlier = answers@;
                answers.push(part);
                assert(sent(answers@) =~= sent(earlier).push((part.0, part.1@)));
            }
        }
        assert(all.take(all.len() as int) =~= all);
        self.open.insert(owner, open);
        assert(self@ =~= before.insert(
            owner,
            (PendingQuestionView { answering: claiming(all, start.answering), ..start }),
        ));
        Ok(Some(answers))
    }

    /// Gives a claim back whose answer did not get through.
    pub fn send_failed(&mut self, owner: JobId, job: JobId)
        ensures
            final(self)@ == if old(self)@.dom().contains(owner) {
                let open = old(self)@[owner];
                old(self)@.insert(owner, (PendingQuestionView { answering: open.answering.remove(job), ..open }))
            } else {
                old(self)@
            },
    {
        let ghost before = self@;
        match self.open.remove(&owner) {
            Some(open) => {
                let mut open = open;
                open.answering.remove(job);
                self.open.insert(owner, open);
                assert(self@ =~= before.insert(owner, open@));
            },
            None => {
                assert(self@ =~= before);
            },
        }
    }

    /// Drops the questions of an agent job. Their jobs are to be cancelled.
    pub fn cancel_child_question(&mut self, owner: JobId) -> (jobs: Vec<JobId>)
        ensures
            final(self)@ == old(self)@.remove(owner),
            jobs@ == questions_of(old(self)@, owner).ask_jobs.map_values(|route: AskRouteView| route.job),
    {
        let ghost goal = questions_of(self@, owner).ask_jobs.map_values(|route: AskRouteView| route.job);
        let mut jobs: Vec<JobId> = Vec::new();
        match self.open.remove(&owner) {
            Some(open) => {
                let mut i: usize = 0;
                while i < open.ask_jobs.len()
                    invariant
                        i <= open.ask_jobs.len(),
                        goal == open@.ask_jobs.map_values(|route: AskRouteView| route.job),
                        jobs@ =~= goal.take(i as int),
                    decreases open.ask_jobs.len() - i,
                {
                    jobs.push(open.ask_jobs[i].job);
                    assert(goal[i as int] == open.ask_jobs@[i as int].job);
                    i += 1;
                }
                assert(goal.take(i as int) =~= goal);
            },
            None => {},
        }
        assert(jobs@ =~= goal);
        jobs
    }
}

/// The identifiers of routes.
pub open spec fn route_ids(routes: Seq<AskRouteView>) -> Seq<Seq<char>> {
    routes.map_values(|route: AskRouteView| route.id)
}

/// Identifiers stay distinct: adding a batch without repetitions that clashes with no open
/// question leaves every open question with an identifier of its own.
pub proof fn identifiers_stay_distinct(
    open: PendingQuestionView,
    added: Seq<AskRouteView>,
    questions: Seq<QuestionView>,
)
    requires
        route_ids(open.ask_jobs).no_duplicates(),
        first_repeat(route_ids(added)) is None,
        first_clash(open.ask_jobs, added) is None,
    ensures
        route_ids(with_questions(open, added, questions).ask_jobs).no_duplicates(),
{
    let test = |route: AskRouteView| has_route(open.ask_jobs, route.id);
    repetitions_are_found(route_ids(added));
    model::lemma_first_found(added, test);
    let all = route_ids(open.ask_jobs + added);
    let old_ids = route_ids(open.ask_jobs);
    let new_ids = route_ids(added);
    let count = open.ask_jobs.len() as int;
    assert forall|i: int, j: int| 0 <= i < j < all.len() implies all[i] != all[j] by {
        if j < count {
            assert(all[i] == old_ids[i] && all[j] == old_ids[j]);
        } else if i >= count {
            assert(all[i] == new_ids[i - count] && all[j] == new_ids[j - count]);
        } else {
            assert(!test(added[j - count]));
            assert(all[i] == open.ask_jobs[i].id && all[j] == added[j - count].id);
        }
    }
}

proof fn lemma_claims(answers: Seq<(JobId, JsonView)>, answering: Set<JobId>)
    ensures
        answering.subset_of(claiming(answers, answering)),
        forall|i: int|
            0 <= i < answers.len() ==> claiming(answers, answering).contains((#[trigger] answers[i]).0),
        forall|i: int|
            0 <= i < claimed(answers, answering).len() ==> !answering.contains(
                (#[trigger] claimed(answers, answering)[i]).0,
            ) && claiming(answers, answering).contains(claimed(answers, answering)[i].0),
    decreases answers.len(),
{
    if answers.len() > 0 {
        let rest = answers.drop_last();
        lemma_claims(rest, answering);
        let earlier = claimed(rest, answering);
        assert forall|i: int| 0 <= i < claimed(answers, answering).len() implies !answering.contains(
            (#[trigger] claimed(answers, answering)[i]).0,
        ) && claiming(answers, answering).contains(claimed(answers, answering)[i].0) by {
            if i < earlier.len() {
                assert(claimed(answers, answering)[i] == earlier[i]);
            }
        }
        assert forall|i: int| 0 <= i < answers.len() implies claiming(answers, answering).contains(
            (#[trigger] answers[i]).0,
        ) by {
            if i < rest.len() {
                assert(rest[i] == answers[i]);
            }
        }
    }
}

/// A job gets one answer: whatever a second reply holds, it goes to no job that the first
/// one reached, as long as no claim is given back in between.
pub proof fn answers_are_claimed_once(
    open: PendingQuestionView,
    first: Seq<(JobId, JsonView)>,
    second: Seq<(JobId, JsonView)>,
    i: int,
    j: int,
)
    requires
        0 <= i < claimed(first, open.answering).len(),
        0 <= j < claimed(second, claiming(first, open.answering)).len(),
    ensures
        claimed(first, open.answering)[i].0 != claimed(second, claiming(first, open.answering))[j].0,
{
    lemma_claims(first, open.answering);
    lemma_claims(second, claiming(first, open.answering));
}

/// Closing the questions of a job leaves none of them open, and its claim is gone.
pub proof fn resolved_questions_are_closed(open: PendingQuestionView, jobs: Set<JobId>, job: JobId)
    requires
        jobs.contains(job),
    ensures
        !without_jobs(open, jobs).answering.contains(job),
        forall|i: int|
            0 <= i < without_jobs(open, jobs).ask_jobs.len() ==> (#[trigger] without_jobs(
                open,
                jobs,
            ).ask_jobs[i]).job != job,
{
    let kept = |route: AskRouteView| !jobs.contains(route.job);
    let left = without_jobs(open, jobs).ask_jobs;
    assert forall|i: int| 0 <= i < left.len() implies (#[trigger] left[i]).job != job by {
        model::lemma_selected_contains(open.ask_jobs, kept, left[i]);
        assert(left.contains(left[i]));
    }
}

/// The host's answer leaves no caller waiting, and a caller that got an answer through its
/// job gets none from the host.
pub proof fn callers_are_answered_once(
    waiting: Seq<Option<u64>>,
    results: Seq<Result<JsonView, Seq<char>>>,
    index: int,
)
    requires
        0 <= index < waiting.len(),
        waiting.len() <= results.len(),
        forall|i: int, j: int|
            0 <= i < j < waiting.len() && (#[trigger] waiting[i]) is Some ==> waiting[i]
                != #[trigger] waiting[j],
        waiting[index] is Some,
    ensures
        replies(waiting, results).contains(
            (ReplyView { ticket: waiting[index]->0, result: results[index] }),
        ),
        forall|i: int|
            0 <= i < replies(waiting.update(index, None), results).len() ==> (#[trigger] replies(
                waiting.update(index, None),
                results,
            )[i]).ticket != waiting[index]->0,
{
    lemma_replies(waiting, results, index);
    let rest = waiting.update(index, None);
    assert forall|i: int| 0 <= i < replies(rest, results).len() implies (#[trigger] replies(
        rest,
        results,
    )[i]).ticket != waiting[index]->0 by {
        let k = lemma_reply_origin(rest, results, i);
        if k < index {
            assert(rest[k] == waiting[k]);
        } else if k > index {
            assert(rest[k] == waiting[k]);
        }
    }
}

proof fn lemma_replies(waiting: Seq<Option<u64>>, results: Seq<Result<JsonView, Seq<char>>>, index: int)
    requires
        0 <= index < waiting.len(),
        waiting[index] is Some,
    ensures
        replies(waiting, results).contains(
            (ReplyView { ticket: waiting[index]->0, result: results[index] }),
        ),
    decreases waiting.len(),
{
    let all = replies(waiting, results);
    let reply = ReplyView { ticket: waiting[index]->0, result: results[index] };
    if index == waiting.len() - 1 {
        assert(all[all.len() - 1] == reply);
    } else {
        let earlier = replies(waiting.drop_last(), results);
        lemma_replies(waiting.drop_last(), results, index);
        let k = choose|k: int| 0 <= k < earlier.len() && earlier[k] == reply;
        assert(all[k] == reply);
    }
}

proof fn lemma_reply_origin(
    waiting: Seq<Option<u64>>,
    results: Seq<Result<JsonView, Seq<char>>>,
    index: int,
) -> (origin: int)
    requires
        0 <= index < replies(waiting, results).len(),
    ensures
        0 <= origin < waiting.len(),
        waiting[origin] == Some(replies(waiting, results)[index].ticket),
    decreases waiting.len(),
{
    let earlier = replies(waiting.drop_last(), results);
    if index < earlier.len() {
        lemma_reply_origin(waiting.drop_last(), results, index)
    } else {
        waiting.len() - 1
    }
}

/// Each call that asks a question is counted once: one of the tool that asks, whose
/// arguments are a question and leave its mode open or give it as a truth value.
pub proof fn every_question_is_counted(calls: Seq<ToolCallView>, parsed: Seq<bool>, call: ToolCallView, question: bool)
    requires
        calls.len() == parsed.len(),
    ensures
        ask_count(seq![], parsed) == 0,
        ({
            let mode = call.arguments.member("bg"@);
            let asks = call.name == "ask"@ && question && (mode is None || mode->0 is Bool);
            ask_count(calls.push(call), parsed.push(question)) == ask_count(calls, parsed) + if asks {
                1nat
            } else {
                0nat
            }
        }),
{
    assert(calls.push(call).drop_last() =~= calls);
    lemma_later_flags_do_not_count(calls, parsed, question);
}

proof fn lemma_later_flags_do_not_count(calls: Seq<ToolCallView>, parsed: Seq<bool>, question: bool)
    requires
        calls.len() <= parsed.len(),
    ensures
        ask_count(calls, parsed.push(question)) == ask_count(calls, parsed),
    decreases calls.len(),
{
    if calls.len() > 0 {
        lemma_later_flags_do_not_count(calls.drop_last(), parsed, question);
    }
}

/// A batch is shown once it has all the asks that were announced. One that was not
/// announced is shown with its first ask, and not again with a later one.
pub proof fn batches_are_shown_when_complete(announced: u64, asks: nat)
    ensures
        launches(Some(announced), asks) <==> announced <= asks,
        launches(None, 1),
        asks != 1 ==> !launches(None, asks),
{
}

/// The repetition that is told is the first one: it occurred before, and nothing before it
/// was a repetition.
pub proof fn the_first_repetition_is_told(ids: Seq<Seq<char>>)
    ensures
        first_repeat(ids) matches Some(id) ==> exists|i: int, j: int|
            #![trigger ids[i], ids[j]]
            0 <= i < j < ids.len() && ids[i] == id && ids[j] == id && ids.take(j).no_duplicates(),
    decreases ids.len(),
{
    if ids.len() > 0 {
        let rest = ids.drop_last();
        the_first_repetition_is_told(rest);
        repetitions_are_found(rest);
        match first_repeat(rest) {
            Some(id) => {
                let (i, j) = choose|i: int, j: int|
                    #![trigger rest[i], rest[j]]
                    0 <= i < j < rest.len() && rest[i] == id && rest[j] == id && rest.take(j).no_duplicates();
                assert(ids[i] == id && ids[j] == id);
                assert(rest.take(j) =~= ids.take(j));
            },
            None => {
                if rest.contains(ids.last()) {
                    let i = choose|i: int| 0 <= i < rest.len() && rest[i] == ids.last();
                    let j = ids.len() - 1;
                    assert(ids[i] == ids.last() && ids[j] == ids.last());
                    assert(ids.take(j) =~= rest);
                }
            },
        }
    }
}

/// The job of each background ask shows its own question, in the order of the asks, and no
/// other job shows any.
pub proof fn background_asks_show_their_questions(
    batch: Seq<PendingAskView>,
    backgrounds: Seq<bool>,
    ask: PendingAskView,
    background: bool,
)
    requires
        batch.len() == backgrounds.len(),
    ensures
        background_requests(seq![], backgrounds).len() == 0,
        background_requests(batch.push(ask), backgrounds.push(background)) == if background {
            background_requests(batch, backgrounds).push((ask.job, questions_json(seq![ask.question])))
        } else {
            background_requests(batch, backgrounds)
        },
{
    assert(batch.push(ask).drop_last() =~= batch);
    lemma_later_modes_do_not_count(batch, backgrounds, background);
}

proof fn lemma_later_modes_do_not_count(batch: Seq<PendingAskView>, backgrounds: Seq<bool>, background: bool)
    requires
        batch.len() <= backgrounds.len(),
    ensures
        background_requests(batch, backgrounds.push(background)) == background_requests(batch, backgrounds),
    decreases batch.len(),
{
    if batch.len() > 0 {
        lemma_later_modes_do_not_count(batch.drop_last(), backgrounds, background);
    }
}

/// The first ask that is not known to run in the foreground decides of a batch: it runs in
/// the background where that ask does, and fails where that ask does. Where there is none,
/// the batch runs in the foreground.
pub proof fn the_first_background_ask_decides(modes: Seq<Result<bool, String>>, index: int)
    requires
        0 <= index <= modes.len(),
        forall|k: int| 0 <= k < index ==> (#[trigger] modes[k]) == Ok::<bool, String>(false),
        index < modes.len() ==> modes[index] != Ok::<bool, String>(false),
    ensures
        batch_mode(modes) == if index == modes.len() {
            Ok::<bool, Seq<char>>(false)
        } else {
            match modes[index] {
                Ok(_) => Ok::<bool, Seq<char>>(true),
                Err(reason) => Err::<bool, Seq<char>>(reason@),
            }
        },
    decreases modes.len(),
{
    if index > 0 {
        assert(modes[0] == Ok::<bool, String>(false));
        let rest = modes.skip(1);
        assert forall|k: int| 0 <= k < index - 1 implies (#[trigger] rest[k]) == Ok::<bool, String>(false) by {
            assert(rest[k] == modes[k + 1]);
        }
        the_first_background_ask_decides(rest, index - 1);
    }
}

/// A single question gets a whole answer, whatever it is. Of several, each gets the member
/// under its identifier, and a reason where there is none.
pub proof fn answers_reach_their_questions(ids: Seq<Seq<char>>, answer: JsonView, index: int)
    requires
        0 <= index < ids.len(),
    ensures
        split(ids, answer).len() == ids.len(),
        ids.len() == 1 ==> split(ids, answer)[index] == Ok::<JsonView, Seq<char>>(answer),
        ids.len() > 1 ==> match answer.member(ids[index]) {
            Some(value) => split(ids, answer)[index] == Ok::<JsonView, Seq<char>>(value),
            None => split(ids, answer)[index] is Err,
        },
{
}

/// Every caller that waits gets the result of its own question, in their order, and no one
/// else gets a reply.
pub proof fn those_who_wait_get_their_results(
    waiting: Seq<Option<u64>>,
    caller: Option<u64>,
    results: Seq<Result<JsonView, Seq<char>>>,
)
    ensures
        replies(seq![], results).len() == 0,
        replies(waiting.push(caller), results) == match caller {
            Some(ticket) => replies(waiting, results).push(
                ReplyView { ticket, result: results[waiting.len() as int] },
            ),
            None => replies(waiting, results),
        },
{
    assert(waiting.push(caller).drop_last() =~= waiting);
}

/// Each ask either waits or fails at once: it fails only where there is no handler and it
/// holds up its agent.
pub proof fn asks_wait_or_fail(batch: Seq<PendingAskView>, backgrounds: Seq<bool>, handler: bool, index: int)
    requires
        0 <= index < batch.len(),
    ensures
        ({
            let waits = answerable(batch, backgrounds, handler);
            let fails = unanswerable(batch, backgrounds, handler);
            &&& waits.len() == batch.len() && fails.len() == batch.len()
            &&& handler || backgrounds[index] ==> waits[index] == Some(batch[index].ticket) && fails[index] is None
            &&& !handler && !backgrounds[index] ==> fails[index] == Some(batch[index].ticket) && waits[index] is None
        }),
{
}

/// What the host answers is split where it is an answer, and told to every question where
/// it is none.
pub proof fn host_failures_reach_every_question(ids: Seq<Seq<char>>, reason: Seq<char>, index: int)
    requires
        0 <= index < ids.len(),
    ensures
        host_results(ids, Err(reason)).len() == ids.len(),
        host_results(ids, Err(reason))[index] == Err::<JsonView, Seq<char>>(reason),
{
}

/// New questions come behind those that are open, with nothing lost, and an answer on its
/// way stays so. That there were several at once is remembered.
pub proof fn new_questions_come_behind(
    open: PendingQuestionView,
    added: Seq<AskRouteView>,
    questions: Seq<QuestionView>,
)
    ensures
        ({
            let all = with_questions(open, added, questions);
            &&& all.ask_jobs == open.ask_jobs + added
            &&& all.questions == open.questions + questions
            &&& all.answering == open.answering
            &&& all.merged <==> open.merged || all.ask_jobs.len() > 1
        }),
{
}

/// Closing the questions of some jobs leaves those of all others open, with their claims
/// and in their order.
pub proof fn other_questions_stay_open(open: PendingQuestionView, jobs: Set<JobId>, route: AskRouteView, question: QuestionView, job: JobId)
    ensures
        ({
            let left = without_jobs(open, jobs);
            &&& left.ask_jobs == open.ask_jobs.filter(|route: AskRouteView| !jobs.contains(route.job))
            &&& left.ask_jobs.contains(route) <==> open.ask_jobs.contains(route) && !jobs.contains(route.job)
            &&& left.questions.contains(question) <==> open.questions.contains(question) && exists|i: int|
                0 <= i < left.ask_jobs.len() && (#[trigger] left.ask_jobs[i]).id == question.id
            &&& left.answering.contains(job) <==> open.answering.contains(job) && !jobs.contains(job)
            &&& left.merged == open.merged
        }),
{
    let kept = |route: AskRouteView| !jobs.contains(route.job);
    model::lemma_selected_contains(open.ask_jobs, kept, route);
    model::selections_are_filters(open.ask_jobs, kept);
    let left = without_jobs(open, jobs).ask_jobs;
    model::lemma_selected_contains(
        open.questions,
        |question: QuestionView| has_route(left, question.id),
        question,
    );
}

/// The only open question gets a whole answer, unless that names it. An answer that is
/// keyed gives each question that it names its part, and no other question anything.
pub proof fn answers_go_where_they_are_asked(
    open: PendingQuestionView,
    value: JsonView,
    routes: Seq<AskRouteView>,
    route: AskRouteView,
)
    ensures
        open.ask_jobs.len() == 1 && !open.merged ==> routed(open, value) == Ok::<
            Seq<(JobId, JsonView)>,
            Seq<char>,
        >(seq![(open.ask_jobs[0].job, value)]),
        open.ask_jobs.len() == 1 && value.member(open.ask_jobs[0].id) is None ==> routed(open, value) == Ok::<
            Seq<(JobId, JsonView)>,
            Seq<char>,
        >(seq![(open.ask_jobs[0].job, value)]),
        open.ask_jobs.len() != 1 && !(value is Object) ==> routed(open, value) is Err,
        open.ask_jobs.len() != 1 && value is Object ==> (routed(open, value) is Ok <==> named_answers(
            open.ask_jobs,
            value,
        ).len() > 0),
        open.ask_jobs.len() != 1 && (routed(open, value) matches Ok(parts)) ==> routed(open, value)->Ok_0
            == named_answers(open.ask_jobs, value),
        open.ask_jobs.len() == 1 && open.merged && value.member(open.ask_jobs[0].id) is Some ==> routed(open, value)
            == Ok::<Seq<(JobId, JsonView)>, Seq<char>>(
            seq![(open.ask_jobs[0].job, value.member(open.ask_jobs[0].id)->0)],
        ),
        named_answers(seq![], value).len() == 0,
        named_answers(routes.push(route), value) == match value.member(route.id) {
            Some(part) => named_answers(routes, value).push((route.job, part)),
            None => named_answers(routes, value),
        },
{
    assert(routes.push(route).drop_last() =~= routes);
    if open.ask_jobs.len() == 1 {
        reveal_with_fuel(named_answers, 2);
        assert(open.ask_jobs.last() == open.ask_jobs[0]);
        if value.member(open.ask_jobs[0].id) is Some {
            assert(value is Object);
            if open.merged {
                assert(is_keyed(open, value));
            }
            assert(named_answers(open.ask_jobs, value) =~= seq![
                (open.ask_jobs[0].job, value.member(open.ask_jobs[0].id)->0),
            ]);
        }
    }
}

/// An answer is claimed for its job unless one is on its way there already, be it from
/// before or earlier in the same reply.
pub proof fn only_free_jobs_are_claimed(
    answers: Seq<(JobId, JsonView)>,
    answering: Set<JobId>,
    job: JobId,
    value: JsonView,
    other: JobId,
)
    ensures
        claimed(seq![], answering).len() == 0,
        ({
            let taken = answering.contains(job) || exists|i: int|
                0 <= i < answers.len() && (#[trigger] answers[i]).0 == job;
            claimed(answers.push((job, value)), answering) == if taken {
                claimed(answers, answering)
            } else {
                claimed(answers, answering).push((job, value))
            }
        }),
        claiming(answers, answering).contains(other) <==> answering.contains(other) || exists|i: int|
            0 <= i < answers.len() && (#[trigger] answers[i]).0 == other,
{
    lemma_claiming(answers, answering, job);
    lemma_claiming(answers, answering, other);
    assert(answers.push((job, value)).drop_last() =~= answers);
}

proof fn lemma_claiming(answers: Seq<(JobId, JsonView)>, answering: Set<JobId>, job: JobId)
    ensures
        claiming(answers, answering).contains(job) <==> answering.contains(job) || exists|i: int|
            0 <= i < answers.len() && (#[trigger] answers[i]).0 == job,
    decreases answers.len(),
{
    if answers.len() > 0 {
        let rest = answers.drop_last();
        lemma_claiming(rest, answering, job);
        assert(answers[answers.len() - 1] == answers.last());
        assert forall|i: int| 0 <= i < rest.len() implies #[trigger] rest[i] == answers[i] by {}
        if exists|i: int| 0 <= i < rest.len() && (#[trigger] rest[i]).0 == job {
            let i = choose|i: int| 0 <= i < rest.len() && (#[trigger] rest[i]).0 == job;
            assert(answers[i].0 == job);
        }
        if exists|i: int| 0 <= i < answers.len() && (#[trigger] answers[i]).0 == job {
            let i = choose|i: int| 0 <= i < answers.len() && (#[trigger] answers[i]).0 == job;
            if i < rest.len() {
                assert(rest[i].0 == job);
            }
        }
    }
}

/// Each ask of a batch gives its question, its identifier and the job that the answer goes
/// to, in the order of the asks.
pub proof fn batches_are_read_one_by_one(batch: Seq<PendingAskView>, index: int)
    requires
        0 <= index < batch.len(),
    ensures
        asked_questions(batch).len() == batch.len(),
        asked_questions(batch)[index] == batch[index].question,
        question_ids(asked_questions(batch)).len() == batch.len(),
        question_ids(asked_questions(batch))[index] == batch[index].question.id,
        ask_routes(batch).len() == batch.len(),
        ask_routes(batch)[index].id == batch[index].question.id,
        ask_routes(batch)[index].job == batch[index].job,
{
}

/// Batches and open questions are those of their own agent and their own job. Where nothing
/// was put there, there is nothing, and nothing was announced or merged.
pub proof fn questions_are_kept_apart(
    batches: Map<AgentPath, QuestionBatchView>,
    agent: AgentPath,
    other: AgentPath,
    batch: QuestionBatchView,
    open: Map<JobId, PendingQuestionView>,
    owner: JobId,
    another: JobId,
    pending: PendingQuestionView,
)
    ensures
        batch_of(batches.insert(agent, batch), agent) == batch,
        batch_of(batches.remove(agent), agent).pending.len() == 0 && batch_of(
            batches.remove(agent),
            agent,
        ).expected is None,
        other != agent ==> batch_of(batches.insert(agent, batch), other) == batch_of(batches, other) && batch_of(
            batches.remove(agent),
            other,
        ) == batch_of(batches, other),
        questions_of(open.insert(owner, pending), owner) == pending,
        ({
            let none = questions_of(open.remove(owner), owner);
            none.ask_jobs.len() == 0 && none.questions.len() == 0 && !none.merged && none.answering == Set::<
                JobId,
            >::empty()
        }),
        another != owner ==> questions_of(open.insert(owner, pending), another) == questions_of(open, another)
            && questions_of(open.remove(owner), another) == questions_of(open, another),
{
}

} // verus!
