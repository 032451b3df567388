//! Host interaction: questions, and the events that a session streams.

use vstd::prelude::*;
use crate::identity::AgentId;
use crate::journal::EventRecord;
use crate::json;
use crate::json::{Json, JsonView};
use crate::model;
use crate::model::{duplicate_all, same_all, Modeled};
use crate::observation::AgentActivity;
use crate::response::ResponseEvent;

verus! {

/// A suggested answer.
#[derive(Debug, PartialEq, Eq)]
pub struct QuestionOption {
    /// Short answer label returned to the agent.
    pub label: String,
    /// Explanation of this choice's effect or tradeoff.
    pub description: String,
}

/// The mathematical content of a `QuestionOption`.
#[verifier::ext_equal]
pub struct QuestionOptionView {
    pub label: Seq<char>,
    pub description: Seq<char>,
}

impl View for QuestionOption {
    type V = QuestionOptionView;

    open spec fn view(&self) -> QuestionOptionView {
        QuestionOptionView {
            label: self.label@,
            description: self.description@,
        }
    }
}

impl Modeled for QuestionOption {
    open spec fn alike(left: QuestionOptionView, right: QuestionOptionView) -> bool {
        &&& left.label == right.label
        &&& left.description == right.description
    }

    fn duplicate(&self) -> (copy: Self) {
        QuestionOption {
            label: self.label.clone(),
            description: self.description.clone(),
        }
    }

    fn same(&self, other: &Self) -> (equal: bool) {
        self.label == other.label && self.description == other.description
    }
}

impl Clone for QuestionOption {
    fn clone(&self) -> (copy: Self)
        ensures
            copy@ == self@,
    {
        self.duplicate()
    }
}

/// A question of an agent.
#[derive(Debug, PartialEq, Eq)]
pub struct Question {
    /// Stable identifier used to associate the answer with this question.
    pub id: String,
    /// Complete question shown to the user or owning parent agent.
    pub prompt: String,
    /// Suggested mutually exclusive answers. An empty list permits free-form input.
    pub options: Vec<QuestionOption>,
}

/// The mathematical content of a `Question`.
#[verifier::ext_equal]
pub struct QuestionView {
    pub id: Seq<char>,
    pub prompt: Seq<char>,
    pub options: Seq<QuestionOptionView>,
}

impl View for Question {
    type V = QuestionView;

    open spec fn view(&self) -> QuestionView {
        QuestionView {
            id: self.id@,
            prompt: self.prompt@,
            options: model::views(self.options@),
        }
    }
}

impl Modeled for Question {
    open spec fn alike(left: QuestionView, right: QuestionView) -> bool {
        &&& left.id == right.id
        &&& left.prompt == right.prompt
        &&& model::all_alike::<QuestionOption>(left.options, right.options)
    }

    fn duplicate(&self) -> (copy: Self) {
        Question {
            id: self.id.clone(),
            prompt: self.prompt.clone(),
            options: duplicate_all(&self.options),
        }
    }

    fn same(&self, other: &Self) -> (equal: bool) {
        self.id == other.id && self.prompt == other.prompt && same_all(&self.options, &other.options)
    }
}

impl Clone for Question {
    fn clone(&self) -> (copy: Self)
        ensures
            copy@ == self@,
    {
        self.duplicate()
    }
}

/// Why a question has no answer.
#[derive(Clone, Debug, PartialEq, Eq)]
pub enum QuestionError {
    Unavailable,
    Failed(String),
}

impl QuestionError {
    /// What is shown of the error.
    pub open spec fn spec_message(self) -> Seq<char> {
        match self {
            QuestionError::Unavailable => "no host question handler is configured"@,
            QuestionError::Failed(reason) => "question failed: "@ + reason@,
        }
    }

    /// What is shown of the error.
    pub fn message(&self) -> (message: String)
        ensures
            message@ == self.spec_message(),
    {
        match self {
            QuestionError::Unavailable => "no host question handler is configured".to_owned(),
            QuestionError::Failed(reason) => {
                let mut message = "question failed: ".to_owned();
                message.append(reason.as_str());
                message
            },
        }
    }
}

/// A suggested answer as JSON.
pub open spec fn option_json(option: QuestionOptionView) -> JsonView {
    JsonView::Object(
        seq![("label"@, JsonView::Text(option.label)), ("description"@, JsonView::Text(option.description))],
    )
}

/// A question as JSON: without options, there is no such member.
pub open spec fn question_json(question: QuestionView) -> JsonView {
    let stem = seq![("id"@, JsonView::Text(question.id)), ("prompt"@, JsonView::Text(question.prompt))];
    JsonView::Object(
        if question.options.len() == 0 {
            stem
        } else {
            stem.push(
                (
                    "options"@,
                    JsonView::Array(question.options.map_values(|option: QuestionOptionView| option_json(option))),
                ),
            )
        },
    )
}

/// What a job that waits for answers shows: its questions.
pub open spec fn questions_json(questions: Seq<QuestionView>) -> JsonView {
    JsonView::Object(
        seq![
            (
                "questions"@,
                JsonView::Array(questions.map_values(|question: QuestionView| question_json(question))),
            ),
        ],
    )
}

/// Writes suggested answers as JSON.
fn write_options(options: &Vec<QuestionOption>) -> (items: Vec<Json>)
    ensures
        json::json_views(items@) == model::views(options@).map_values(
            |option: QuestionOptionView| option_json(option),
        ),
{
    let ghost goal = model::views(options@).map_values(|option: QuestionOptionView| option_json(option));
    let mut items: Vec<Json> = Vec::new();
    let mut i: usize = 0;
    while i < options.len()
        invariant
            i <= options.len(),
            goal == model::views(options@).map_values(|option: QuestionOptionView| option_json(option)),
            json::json_views(items@) =~= goal.take(i as int),
        decreases options.len() - i,
    {
        let mut members: Vec<(String, Json)> = Vec::new();
        members.push(("label".to_owned(), Json::Text(options[i].label.clone())));
        members.push(("description".to_owned(), Json::Text(options[i].description.clone())));
        proof {
            json::lemma_member_views(members@);
            assert(json::member_views(members@) =~= seq![
                ("label"@, JsonView::Text(options@[i as int].label@)),
                ("description"@, JsonView::Text(options@[i as int].description@)),
            ]);
        }
        let item = Json::Object(members);
        proof {
            json::lemma_json_views_push(items@, item);
            assert(item@ == goal[i as int]);
        }
        items.push(item);
        i += 1;
    }
    assert(goal.take(i as int) =~= goal);
    items
}

/// Writes what a job that waits for answers shows.
pub fn questions_output(questions: &Vec<Question>) -> (output: Json)
    ensures
        output@ == questions_json(model::views(questions@)),
{
    let ghost goal = model::views(questions@).map_values(|question: QuestionView| question_json(question));
    let mut items: Vec<Json> = Vec::new();
    let mut i: usize = 0;
    while i < questions.len()
        invariant
            i <= questions.len(),
            goal == model::views(questions@).map_values(|question: QuestionView| question_json(question)),
            json::json_views(items@) =~= goal.take(i as int),
        decreases questions.len() - i,
    {
        let question = &questions[i];
        let mut members: Vec<(String, Json)> = Vec::new();
        members.push(("id".to_owned(), Json::Text(question.id.clone())));
        members.push(("prompt".to_owned(), Json::Text(question.prompt.clone())));
        let ghost stem = seq![
            ("id"@, JsonView::Text(question.id@)),
            ("prompt"@, JsonView::Text(question.prompt@)),
        ];
        proof {
            json::lemma_member_views(members@);
            assert(json::member_views(members@) =~= stem);
        }
        if question.options.len() > 0 {
            let options = Json::Array(write_options(&question.options));
            members.push(("options".to_owned(), options));
            proof {
                json::lemma_member_views(members@);
                assert(json::member_views(members@) =~= stem.push(("options"@, options@)));
            }
        }
        let item = Json::Object(members);
        proof {
            json::lemma_json_views_push(items@, item);
            assert(item@ == goal[i as int]);
        }
        items.push(item);
        i += 1;
    }
    assert(goal.take(i as int) =~= goal);
    let mut members: Vec<(String, Json)> = Vec::new();
    members.push(("questions".to_owned(), Json::Array(items)));
    proof {
        json::lemma_member_views(members@);
        assert(json::member_views(members@) =~= seq![("questions"@, JsonView::Array(goal))]);
    }
    Json::Object(members)
}

/// Something that happens while a session runs.
#[derive(Clone, Debug)]
pub enum RuntimeEvent {
    Record(Box<EventRecord>),
    ResponseEvent { agent: AgentId, request: u64, event: ResponseEvent },
    ResponseSettled { agent: AgentId, request: u64, message: Option<u64>, error: Option<String> },
    Activity { agent: AgentId, activity: AgentActivity },
    Context { agent: AgentId, tokens: u64, capacity: u64 },
    TurnCompleted { agent: AgentId, text: String },
}

proof fn lemma_question_keys()
    ensures
        "id"@ != "prompt"@,
        "id"@ != "options"@,
        "prompt"@ != "options"@,
        "label"@ != "description"@,
{
    reveal_strlit("id");
    reveal_strlit("prompt");
    reveal_strlit("options");
    reveal_strlit("label");
    reveal_strlit("description");
    assert("id"@.len() == 2 && "prompt"@.len() == 6 && "options"@.len() == 7 && "label"@.len() == 5
        && "description"@.len() == 11);
}

/// A question is shown with its identifier and its prompt, and with its options where it
/// has any, each with its label and its description.
pub proof fn questions_are_shown_whole(question: QuestionView, index: int)
    ensures
        ({
            let shown = question_json(question);
            &&& shown.member("id"@) == Some(JsonView::Text(question.id))
            &&& shown.member("prompt"@) == Some(JsonView::Text(question.prompt))
            &&& question.options.len() == 0 ==> shown.member("options"@) is None
            &&& question.options.len() > 0 ==> {
                &&& shown.member("options"@) matches Some(JsonView::Array(options))
                &&& options.len() == question.options.len()
                &&& 0 <= index < options.len() ==> {
                    &&& options[index].member("label"@) == Some(JsonView::Text(question.options[index].label))
                    &&& options[index].member("description"@) == Some(
                        JsonView::Text(question.options[index].description),
                    )
                }
            }
        }),
{
    lemma_question_keys();
    let stem = seq![("id"@, JsonView::Text(question.id)), ("prompt"@, JsonView::Text(question.prompt))];
    let members = question_json(question)->Object_0;
    json::members_are_found_by_key(members, "id"@, 0);
    json::members_are_found_by_key(members, "prompt"@, 1);
    json::members_are_found_by_key(members, "options"@, 2);
    assert(members.take(2) =~= stem);
    assert(members[0] == members.take(2)[0] && members[1] == members.take(2)[1]);
    if question.options.len() > 0 && 0 <= index < question.options.len() {
        let option = option_json(question.options[index])->Object_0;
        json::members_are_found_by_key(option, "label"@, 0);
        json::members_are_found_by_key(option, "description"@, 1);
    }
}

/// A job that waits for answers shows all its questions, in their order.
pub proof fn all_questions_are_shown(questions: Seq<QuestionView>, index: int)
    requires
        0 <= index < questions.len(),
    ensures
        questions_json(questions).member("questions"@) matches Some(JsonView::Array(shown)) && shown.len()
            == questions.len() && shown[index] == question_json(questions[index]),
{
    json::members_are_found_by_key(questions_json(questions)->Object_0, "questions"@, 0);
}

/// Questions are alike where they are equal, whatever they hold.
pub proof fn alike_questions_are_equal(left: QuestionView, right: QuestionView)
    ensures
        Question::alike(left, right) <==> left == right,
{
    if Question::alike(left, right) {
        assert forall|i: int| 0 <= i < left.options.len() implies #[trigger] left.options[i] == right.options[i] by {
            assert(QuestionOption::alike(left.options[i], right.options[i]));
        }
        assert(left.options =~= right.options);
    }
}

/// Why a question has no answer is told apart: that there is no handler, and what a handler
/// failed with.
pub proof fn question_errors_tell_why(reason: String)
    ensures
        QuestionError::Unavailable.spec_message() == "no host question handler is configured"@,
        QuestionError::Failed(reason).spec_message() == "question failed: "@ + reason@,
{
}

} // verus!
