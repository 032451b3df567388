use skyhook_core::error::{HarnessError, ToolError};
use skyhook_core::identity::{AgentId, JobId, SessionId};
use skyhook_core::interaction::{questions_output, Question, QuestionError, QuestionOption};
use skyhook_core::json::{compact_text, parse_json, Json};
use skyhook_core::protocol::ToolCall;
use skyhook_core::questions::{
    any_background, duplicate_question_id, effective_background, opening_job, owning_agent_job,
    present_question_batch, routes_of, split_answers, BackgroundStep, ChildQuestions, OwnerStep, PendingAsk,
    Presentation, QuestionBatches, Resolution, RootQuestions,
};

fn json(text: &str) -> Json {
    parse_json(text).unwrap()
}

fn suggestion() -> Json {
    json("{\"answer\": \"Use the default\", \"comment\": \"  Keep the existing settings.\\n\"}")
}

#[test]
fn split_answers_preserves_single_suggestion_with_comment() {
    let answer = suggestion();
    assert_eq!(
        split_answers(&vec!["answer".to_owned()], answer.clone()),
        vec![Ok(answer)]
    );
}

#[test]
fn split_answers_preserves_mixed_batch_answers() {
    let ids = ["choice", "commented_choice", "free_form"].map(str::to_owned).to_vec();
    let answers = Json::Object(vec![
        ("free_form".to_owned(), Json::Text("My own answer".to_owned())),
        ("commented_choice".to_owned(), suggestion()),
        ("choice".to_owned(), Json::Text("Continue".to_owned())),
    ]);
    assert_eq!(
        split_answers(&ids, answers),
        vec![
            Ok(Json::Text("Continue".to_owned())),
            Ok(suggestion()),
            Ok(Json::Text("My own answer".to_owned()))
        ]
    );
}

#[test]
fn split_answers_tells_what_is_missing() {
    let ids = ["a", "b"].map(str::to_owned).to_vec();
    assert_eq!(
        split_answers(&ids, json("{\"a\": 1}")),
        vec![
            Ok(json("1")),
            Err("answer is missing question id `b`".to_owned())
        ]
    );
    let unkeyed = Err("answers to multiple questions must be keyed by question id".to_owned());
    assert_eq!(split_answers(&ids, json("\"yes\"")), vec![unkeyed.clone(), unkeyed]);
}

fn job(number: u64) -> JobId {
    JobId::new(number).unwrap()
}

fn question(id: &str) -> Question {
    Question {
        id: id.to_owned(),
        prompt: "Question?".to_owned(),
        options: vec![],
    }
}

fn ask(ticket: u64, id: &str) -> PendingAsk {
    PendingAsk {
        ticket,
        job: job(ticket + 10),
        question: question(id),
    }
}

fn root() -> AgentId {
    AgentId::root(SessionId::from_bytes([1; 16]))
}

#[test]
fn questions_are_shown_without_empty_options() {
    let mut with_options = question("b");
    with_options.options.push(QuestionOption {
        label: "yes".to_owned(),
        description: "do it".to_owned(),
    });
    assert_eq!(
        compact_text(&questions_output(&vec![question("a"), with_options])),
        "{\"questions\":[{\"id\":\"a\",\"prompt\":\"Question?\"},{\"id\":\"b\",\"prompt\":\"Question?\",\"options\":[{\"label\":\"yes\",\"description\":\"do it\"}]}]}"
    );
}

#[test]
fn question_errors_have_messages() {
    assert_eq!(
        QuestionError::Unavailable.message(),
        "no host question handler is configured"
    );
    assert_eq!(QuestionError::Failed("x".to_owned()).message(), "question failed: x");
}

#[test]
fn root_questions_need_the_interactive_capability() {
    let mut batches = QuestionBatches::new();
    assert_eq!(
        batches.coordinate_question(&root(), false, ask(1, "a")),
        Err(ToolError::Denied(
            "root questions require the interactive capability".to_owned()
        ))
    );
    assert_eq!(batches.coordinate_question(&root().child(1), false, ask(1, "a")), Ok(true));
    assert!(batches.take(&root()).is_empty());
}

fn call(name: &str, arguments: &str) -> ToolCall {
    ToolCall {
        id: "call".to_owned(),
        name: name.to_owned(),
        arguments: json(arguments),
    }
}

#[test]
fn an_announced_batch_waits_for_all_of_its_asks() {
    let mut batches = QuestionBatches::new();
    let calls = vec![
        call("ask", "{\"id\":\"a\",\"prompt\":\"?\"}"),
        call("ask", "{\"id\":\"b\",\"prompt\":\"?\",\"bg\":true}"),
        call("ask", "{\"id\":\"c\",\"prompt\":\"?\",\"bg\":1}"),
        call("ask", "{}"),
        call("read", "{}"),
    ];
    batches.prepare_question_batch(&root(), &calls, &vec![true, true, true, false, true]);
    assert_eq!(batches.coordinate_question(&root(), true, ask(1, "a")), Ok(false));
    assert_eq!(batches.coordinate_question(&root(), true, ask(2, "b")), Ok(true));
    let taken: Vec<u64> = batches.take(&root()).iter().map(|ask| ask.ticket).collect();
    assert_eq!(taken, [1, 2]);
    // Without an announcement the first ask launches, and others join its batch.
    assert_eq!(batches.coordinate_question(&root(), true, ask(3, "c")), Ok(true));
    assert_eq!(batches.coordinate_question(&root(), true, ask(4, "d")), Ok(false));
    assert_eq!(batches.take(&root()).len(), 2);
}

#[test]
fn repeated_identifiers_refuse_a_batch() {
    let questions = vec![question("a"), question("b"), question("a"), question("b")];
    assert_eq!(duplicate_question_id(&questions), Some("a"));
    assert_eq!(duplicate_question_id(&vec![question("a"), question("b")]), None);
    let batch = vec![ask(1, "a"), ask(2, "a")];
    assert!(matches!(
        present_question_batch(&root(), &batch, &vec![false, false]),
        Presentation::Refuse(reason) if reason == "duplicate question id `a`"
    ));
    assert!(matches!(
        present_question_batch(&root(), &Vec::new(), &Vec::new()),
        Presentation::Nothing
    ));
}

#[test]
fn only_background_asks_show_their_own_questions() {
    let batch = vec![ask(1, "a"), ask(2, "b")];
    let Presentation::Present {
        requests,
        questions,
        to_parent,
    } = present_question_batch(&root().child(1), &batch, &vec![false, true])
    else {
        panic!("the batch is presented");
    };
    assert_eq!(requests.len(), 1);
    assert_eq!(requests[0].0, job(12));
    assert_eq!(
        compact_text(&requests[0].1),
        "{\"questions\":[{\"id\":\"b\",\"prompt\":\"Question?\"}]}"
    );
    assert_eq!(questions, vec![question("a"), question("b")]);
    assert!(to_parent);
}

#[test]
fn a_job_is_followed_to_its_agent() {
    let agent = "agent".to_owned();
    let script = "script".to_owned();
    assert!(matches!(
        owning_agent_job(job(3), &agent, Some(job(1))),
        Ok(OwnerStep::Owner(owner)) if owner == job(3)
    ));
    assert!(matches!(
        owning_agent_job(job(3), &script, Some(job(1))),
        Ok(OwnerStep::Climb(next)) if next == job(1)
    ));
    assert!(matches!(
        owning_agent_job(job(3), &script, None),
        Err(HarnessError::Agent(reason)) if reason == "child question has no owning agent job"
    ));
    assert!(matches!(effective_background(&agent, true, None), BackgroundStep::Answer(false)));
    assert!(matches!(effective_background(&script, true, None), BackgroundStep::Answer(true)));
    assert!(matches!(effective_background(&script, false, None), BackgroundStep::Answer(false)));
    assert!(matches!(
        effective_background(&script, false, Some(job(1))),
        BackgroundStep::Climb(next) if next == job(1)
    ));
    assert_eq!(any_background(&vec![Ok(false), Ok(true), Err("x".to_owned())]), Ok(true));
    assert_eq!(any_background(&vec![Ok(false), Err("x".to_owned()), Ok(true)]), Err("x".to_owned()));
    assert_eq!(any_background(&vec![Ok(false)]), Ok(false));
}

#[test]
fn host_answers_reach_every_caller_that_still_waits() {
    let batch = vec![ask(1, "first"), ask(2, "second")];
    let (mut waiting, refused) = RootQuestions::begin(&batch, &vec![false, true], true);
    assert!(refused.is_empty());
    let early = waiting.ask_answered(1, Ok(json("\"early\""))).unwrap();
    assert_eq!((early.ticket, early.result), (2, Ok(json("\"early\""))));
    assert_eq!(waiting.ask_answered(1, Ok(json("1"))), None);
    assert!(waiting.is_waiting());
    let answers = waiting.host_answered(Ok(json("{\"first\":\"yes\",\"second\":2}")));
    assert_eq!(answers.len(), 1);
    assert_eq!((answers[0].ticket, &answers[0].result), (1, &Ok(json("\"yes\""))));
    assert!(!waiting.is_waiting());
}

#[test]
fn a_host_failure_reaches_every_caller() {
    let batch = vec![ask(1, "first"), ask(2, "second")];
    let (mut waiting, _) = RootQuestions::begin(&batch, &vec![false, false], true);
    let answers = waiting.host_answered(Err("question failed: cancelled".to_owned()));
    assert_eq!(answers.len(), 2);
    assert!(answers
        .iter()
        .all(|reply| reply.result == Err("question failed: cancelled".to_owned())));
}

#[test]
fn without_a_handler_only_background_asks_wait() {
    let batch = vec![ask(1, "first"), ask(2, "second")];
    let (waiting, refused) = RootQuestions::begin(&batch, &vec![false, true], false);
    assert_eq!(refused.len(), 1);
    assert_eq!(refused[0].ticket, 1);
    assert_eq!(
        refused[0].result,
        Err("no host question handler is configured".to_owned())
    );
    assert!(waiting.is_waiting());
}

fn open(questions: &mut ChildQuestions, asks: &[(u64, &str)]) -> String {
    let batch: Vec<PendingAsk> = asks.iter().map(|(ticket, id)| ask(*ticket, id)).collect();
    let asked = batch.iter().map(|ask| ask.question.clone()).collect();
    let (combined, shown) = questions
        .open_child_questions(job(1), routes_of(&batch), asked)
        .unwrap();
    questions.commit(job(1), combined);
    compact_text(&shown)
}

fn answer(questions: &mut ChildQuestions, value: &str) -> Vec<(u64, String)> {
    questions
        .answer_child_question(job(1), json(value))
        .unwrap()
        .unwrap()
        .iter()
        .map(|(job, value)| (job.number(), compact_text(value)))
        .collect()
}

#[test]
fn child_questions_merge_across_turns_and_resolve_independently() {
    let mut questions = ChildQuestions::new();
    assert_eq!(
        open(&mut questions, &[(1, "first")]),
        "{\"questions\":[{\"id\":\"first\",\"prompt\":\"Question?\"}]}"
    );
    open(&mut questions, &[(2, "second")]);
    let duplicate = questions.open_child_questions(job(1), routes_of(&vec![ask(3, "second")]), vec![question("second")]);
    assert!(matches!(
        duplicate,
        Err(HarnessError::Agent(reason)) if reason == "duplicate question id `second`"
    ));
    assert_eq!(answer(&mut questions, "{\"first\":\"one\"}"), [(11, "\"one\"".to_owned())]);
    assert!(matches!(
        questions.resolve_child_question(job(1), &vec![job(11)]),
        Resolution::Request(shown)
            if compact_text(&shown) == "{\"questions\":[{\"id\":\"second\",\"prompt\":\"Question?\"}]}"
    ));
    assert_eq!(answer(&mut questions, "{\"second\":\"two\"}"), [(12, "\"two\"".to_owned())]);
    assert!(matches!(
        questions.resolve_child_question(job(1), &vec![job(12)]),
        Resolution::Resume
    ));
    assert!(matches!(
        questions.resolve_child_question(job(1), &vec![job(12)]),
        Resolution::Nothing
    ));
}

#[test]
fn duplicate_answers_are_claimed_once_until_a_send_fails() {
    let mut questions = ChildQuestions::new();
    open(&mut questions, &[(1, "first"), (2, "second")]);
    let both = "{\"first\":\"yes\",\"second\":2}";
    assert_eq!(answer(&mut questions, both), [(11, "\"yes\"".to_owned()), (12, "2".to_owned())]);
    assert!(answer(&mut questions, both).is_empty());
    questions.send_failed(job(1), job(12));
    assert_eq!(answer(&mut questions, both), [(12, "2".to_owned())]);
}

#[test]
fn raw_answers_fit_a_single_question_only() {
    let mut questions = ChildQuestions::new();
    assert_eq!(questions.answer_child_question(job(1), json("1")), Ok(None));
    open(&mut questions, &[(1, "only")]);
    // A lone question takes any value, an object with its own identifier among them.
    assert_eq!(answer(&mut questions, "{\"only\":1}"), [(11, "{\"only\":1}".to_owned())]);
    questions.send_failed(job(1), job(11));
    open(&mut questions, &[(2, "other")]);
    assert_eq!(
        questions.answer_child_question(job(1), json("\"raw\"")),
        Err(HarnessError::Agent(
            "answers to multiple questions must be keyed by question id".to_owned()
        ))
    );
    assert_eq!(
        questions.answer_child_question(job(1), json("{\"none\":1}")),
        Err(HarnessError::Agent("answer contains no pending question ids".to_owned()))
    );
    // Once merged, keyed answers are recognized for the last question too.
    let _ = questions.resolve_child_question(job(1), &vec![job(11)]);
    assert_eq!(answer(&mut questions, "{\"other\":3}"), [(12, "3".to_owned())]);
}

#[test]
fn cancelled_questions_hand_out_their_jobs() {
    let mut questions = ChildQuestions::new();
    open(&mut questions, &[(1, "a"), (2, "b")]);
    assert_eq!(questions.cancel_child_question(job(1)), vec![job(11), job(12)]);
    assert!(questions.cancel_child_question(job(1)).is_empty());
    assert!(matches!(
        opening_job(&Vec::new()),
        Err(HarnessError::Agent(reason)) if reason == "question batch is empty"
    ));
    assert_eq!(opening_job(&routes_of(&vec![ask(1, "a")])).ok(), Some(job(11)));
}
