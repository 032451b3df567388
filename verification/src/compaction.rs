//! Structured continuation guidance and provider-neutral context estimates.

use vstd::prelude::*;
use vstd::string::*;
use crate::json;
use crate::json::{compact_text, pretty_text, Json};
use crate::model;
use crate::protocol::{
    AssistantContent, AssistantContentView, ImageReferenceView, Message, MessageView, ModelRequest,
    ModelRequestView, SystemSegment, SystemSegmentView, ToolDefinition, ToolDefinitionView, ToolResult,
    ToolResultView, UserContent, UserContentView,
};
use crate::text;
use crate::todo::{TodoItem, TodoItemView};

verus! {

/// Version of the continuation sections.
pub const SCHEMA_VERSION: u16 = 1;

/// What the summarizer is told to write.
pub const DIRECTIVE: &'static str = "Skyhook is compacting this conversation. Write a continuation prompt for another instance of yourself to resume the user's task from the current state. This is a harness-generated instruction, not a new user request. Write the continuation itself; do not continue the task or call tools. Return your final answer as a JSON object matching the supplied response schema, without Markdown fences or surrounding commentary. Reasoning may occur separately before the final answer; do not put private reasoning in the JSON. Every section is required. Write fields in the order shown in the schema: preserve the task and instructions, record findings and unfinished work alongside completed work, reconcile todos from that evidence, then describe the resumption point and established next actions consistently with it. Keep objective and resumption_point as strings. All other narrative sections are arrays of strings; use an empty array when a section does not apply. Each entry should express a complete thought with its relevant qualifications and evidence. Entries may contain Markdown and verbatim excerpts. Keep each complete verbatim plan in a single entry, with status or amendments in separate entries. Avoid repeating the same information across sections; preserve distinct facts and concrete details rather than generic boilerplate.\n\n\
Your purpose is to preserve the task's trajectory through compaction. Describe the work as it currently stands, including uncertainty and unresolved disagreements. Do not use compaction to reassess the task, correct suspected mistakes, invent a new plan, or expand the scope.\n\n\
Make the resumption point clear: the user's current objective, their latest request, what the agent was doing immediately before compaction, and what remains outstanding. Explain whether work is underway, a result has already been delivered, or progress is waiting on user input, approval, a running job, or another dependency. Preserve any established next action and its purpose. Distinguish committed actions from possible follow-ups so suggestions do not become instructions. The next instance should be able to continue without restarting the investigation or repeating completed work. Preserve the actual phase of work and any unfinished investigation or verification. Do not infer that only presentation remains merely because substantial research has occurred. Do not introduce instructions such as \"no further investigation is needed\" or \"no tools are needed\" unless that direction was already established in the conversation.\n\n\
Preserve the user's latest instructions, corrections, constraints, approvals, and outstanding questions. Keep exact wording where paraphrasing could change their meaning. Distinguish actual user instructions from harness messages, automatic notifications, quoted material, and the agent's own proposals.\n\n\
Explicitly preserve applicable session restrictions and rules defined by the user or loaded skills, including rules introduced early in the conversation. Include their source, scope, and any explicit overrides or exceptions. Preserve distinctions between approved work, proposed work awaiting approval, and actions that remain restricted.\n\n\
If there is a plan, include it verbatim, including a proposed plan awaiting approval. Explain its status and any amendments, replacements, or canceled steps so the next instance follows the right version. Preserve progress accurately and keep it consistent with the reconciled todo state.\n\n\
Carry forward relevant information from previous continuation prompts as well as the recent conversation. Earlier instructions, decisions, and outstanding work remain relevant even when recent messages do not mention them. Where later conversation explicitly changes earlier state, preserve the current state and enough explanation to understand the change.\n\n\
Preserve consequential decisions and their reasons, including alternatives considered and rejected and any stated conditions for reconsidering them. Distinguish verified findings, working assumptions, hypotheses, and unresolved questions. Summarize conclusions rather than private reasoning transcripts.\n\n\
Include completed work, important findings, partial work, blockers, and available verification results. Support completion claims with observed results and their scope. Distinguish an attempted action from a successful result, listing paths from reading their contents, and partial or truncated output from a complete review. If the agent claims completion without confirming evidence, preserve it as the agent's claim with that uncertainty, not as a verified fact. Preserve concrete findings, errors, and source references instead of replacing them with broad evaluations. This records the existing evidence and uncertainty; it does not ask you to redo the investigation or correct its conclusions. Preserve important exact job outputs or excerpts when useful, along with job IDs, file paths, targets, commands, errors, and other references needed to recover details. Explain what relevant running jobs are doing and what results are still awaited. Original conversation and job outputs remain retrievable.\n\n\
Return a complete current todo list for this agent in todos. Start from the supplied current list and reconcile it with the conversation: the agent may have completed work or made commitments without updating its todos. Preserve unaffected items, their wording, order, and status. Change them only when the conversation supports the change. Mark work completed when completion is established; intent alone does not establish progress. Add explicit commitments that are not yet recorded, including unfinished investigation or verification. Do not collapse outstanding work into a presentation-only todo unless the conversation establishes that the preceding work is complete. Do not turn suggestions or unapproved proposals into active commitments. When progress is uncertain, retain the existing status and explain the uncertainty. Retain completed items. Remove canceled or superseded items only when supported by the conversation. Explain changes and their evidence in todo_reconciliation, or use an empty array if unchanged. Keep those explanations and the continuation consistent with the actual todo statuses. Reconcile only this agent's list; describe delegated work separately. Blocked or approval-dependent work can remain pending or in progress, with its dependency recorded in the continuation. The harness will install the reconciled list and include it in the next runtime state block.";

/// Stands between the directive and the schema of the answer.
pub const SCHEMA_INTRODUCTION: &'static str = "\n\nFinal-answer JSON Schema (applies only to the final answer, not separate reasoning):\n";

/// The continuation that a summarizer returns. Declaration order is generation
/// order: evidence and unfinished work come before todos, and those before how to
/// resume.
#[derive(Clone, Debug, PartialEq, Eq)]
pub struct Summary {
    /// The user's current objective and task scope.
    pub objective: String,
    /// The latest user request, outstanding questions, instructions, corrections, constraints, and approvals.
    pub user_instructions: Vec<String>,
    /// Applicable restrictions and rules from the user and loaded skills, including earlier rules still in force.
    pub session_rules: Vec<String>,
    /// Preserve each existing plan verbatim as one complete array entry, including a proposed plan awaiting approval.
    pub plan: Vec<String>,
    /// Important findings and context needed to continue.
    pub findings: Vec<String>,
    /// Unresolved questions, blockers, failures, partial work, and dependencies.
    pub open_issues: Vec<String>,
    /// Relevant running jobs and delegated work: their identifiers, assigned scope, known progress, results still awaited, and any required follow-up.
    pub running_work: Vec<String>,
    /// Work already completed, changes made, results delivered, and verification performed with its outcomes and limitations.
    pub completed_work: Vec<String>,
    /// Consequential decisions and their reasons, alternatives considered and rejected, and any stated conditions for reconsideration.
    pub decisions: Vec<String>,
    /// Important exact outputs or excerpts, commands, errors, file paths, targets, job IDs, URLs, and other references needed to recover details.
    pub recovery_details: Vec<String>,
    /// Any other information important for continuing faithfully that does not fit the other sections.
    pub additional_context: Vec<String>,
    /// Explain changes made to the supplied todo list and the conversation evidence supporting them, including additions, status changes, removals, or reordering.
    pub todo_reconciliation: Vec<String>,
    /// The complete current todo list for this agent after reconciling the supplied list with the conversation.
    pub todos: Vec<TodoItem>,
    /// Exactly where work stopped: what the agent was doing, the latest result or deliverable, unfinished actions, and whether it is actively working or waiting on user input, approval, jobs, or another dependency.
    pub resumption_point: String,
    /// Established next actions and their purpose, ordering, dependencies, and approval conditions.
    pub next_actions: Vec<String>,
}

/// The mathematical content of a `Summary`.
#[verifier::ext_equal]
pub struct SummaryView {
    pub objective: Seq<char>,
    pub user_instructions: Seq<Seq<char>>,
    pub session_rules: Seq<Seq<char>>,
    pub plan: Seq<Seq<char>>,
    pub findings: Seq<Seq<char>>,
    pub open_issues: Seq<Seq<char>>,
    pub running_work: Seq<Seq<char>>,
    pub completed_work: Seq<Seq<char>>,
    pub decisions: Seq<Seq<char>>,
    pub recovery_details: Seq<Seq<char>>,
    pub additional_context: Seq<Seq<char>>,
    pub todo_reconciliation: Seq<Seq<char>>,
    pub todos: Seq<TodoItemView>,
    pub resumption_point: Seq<char>,
    pub next_actions: Seq<Seq<char>>,
}

impl View for Summary {
    type V = SummaryView;

    open spec fn view(&self) -> SummaryView {
        SummaryView {
            objective: self.objective@,
            user_instructions: model::views(self.user_instructions@),
            session_rules: model::views(self.session_rules@),
            plan: model::views(self.plan@),
            findings: model::views(self.findings@),
            open_issues: model::views(self.open_issues@),
            running_work: model::views(self.running_work@),
            completed_work: model::views(self.completed_work@),
            decisions: model::views(self.decisions@),
            recovery_details: model::views(self.recovery_details@),
            additional_context: model::views(self.additional_context@),
            todo_reconciliation: model::views(self.todo_reconciliation@),
            todos: model::views(self.todos@),
            resumption_point: self.resumption_point@,
            next_actions: model::views(self.next_actions@),
        }
    }
}

/// One section of a continuation: its heading and its text.
pub open spec fn section(heading: Seq<char>, content: Seq<char>) -> Seq<char> {
    "## "@ + heading + "\n\n"@ + content
}

/// A section whose text is a list of entries.
pub open spec fn list_section(heading: Seq<char>, entries: Seq<Seq<char>>) -> Seq<char> {
    section(heading, text::joined(entries, "\n\n"@))
}

/// The sections of a continuation in the order in which they are shown.
pub open spec fn continuation_sections(summary: SummaryView) -> Seq<Seq<char>> {
    seq![
        section("Objective"@, summary.objective),
        list_section("User instructions"@, summary.user_instructions),
        list_section("Session rules"@, summary.session_rules),
        list_section("Plan"@, summary.plan),
        section("Resumption point"@, summary.resumption_point),
        list_section("Completed work"@, summary.completed_work),
        list_section("Findings"@, summary.findings),
        list_section("Decisions"@, summary.decisions),
        list_section("Open issues"@, summary.open_issues),
        list_section("Next actions"@, summary.next_actions),
        list_section("Running work"@, summary.running_work),
        list_section("Recovery details"@, summary.recovery_details),
        list_section("Additional context"@, summary.additional_context),
        list_section("Todo reconciliation"@, summary.todo_reconciliation),
    ]
}

/// The text of a continuation.
pub open spec fn continuation_text(summary: SummaryView) -> Seq<char> {
    text::joined(continuation_sections(summary), "\n\n"@)
}

/// Whether a todo list holds an item without text.
pub open spec fn has_blank_todo(todos: Seq<TodoItemView>) -> bool {
    exists|i: int| 0 <= i < todos.len() && text::blank(#[trigger] todos[i].text)
}

/// What a compaction continues with.
#[derive(Clone, Debug, PartialEq, Eq)]
pub struct Continuation {
    pub message: Message,
    pub todos: Vec<TodoItem>,
}

/// The one message that shows a compaction text.
pub open spec fn compaction_message(text: Seq<char>) -> MessageView {
    MessageView::User(seq![UserContentView::Compaction { text }])
}

/// Wraps a text into a user message of the harness.
pub fn compaction_block(text: String) -> (message: Message)
    ensures
        message@ == compaction_message(text@),
{
    let mut blocks: Vec<UserContent> = Vec::new();
    blocks.push(UserContent::Compaction { text });
    let message = Message::User(blocks);
    assert(model::views(blocks@) =~= seq![UserContentView::Compaction { text: text@ }]);
    message
}

/// The instruction to summarize, with the schema that the answer has to fit. The
/// schema is shown because a constrained decoder may enforce it without showing it.
pub fn directive(schema: &Json) -> (message: Message)
    ensures
        message@ == compaction_message(DIRECTIVE@ + SCHEMA_INTRODUCTION@ + json::pretty(schema@)),
{
    let mut text = DIRECTIVE.to_owned();
    text.append(SCHEMA_INTRODUCTION);
    let notation = pretty_text(schema);
    text.append(notation.as_str());
    compaction_block(text)
}

/// Renders one section.
fn section_text(heading: &str, content: &str) -> (text: String)
    ensures
        text@ == section(heading@, content@),
{
    let mut text = "## ".to_owned();
    text.append(heading);
    text.append("\n\n");
    text.append(content);
    text
}

/// Renders one section of entries.
fn list_section_text(heading: &str, entries: &Vec<String>) -> (text: String)
    ensures
        text@ == list_section(heading@, model::views(entries@)),
{
    let content = text::join(entries, "\n\n");
    section_text(heading, content.as_str())
}

/// Whether a todo list holds an item without text.
fn any_blank(todos: &Vec<TodoItem>) -> (answer: bool)
    ensures
        answer == has_blank_todo(model::views(todos@)),
{
    let mut i: usize = 0;
    while i < todos.len()
        invariant
            i <= todos.len(),
            forall|k: int| 0 <= k < i ==> !text::blank(#[trigger] model::views(todos@)[k].text),
        decreases todos.len() - i,
    {
        if text::is_blank(todos[i].text.as_str()) {
            assert(text::blank(model::views(todos@)[i as int].text));
            return true;
        }
        i += 1;
    }
    false
}

/// Validates a summary and renders its sections without rewriting them. A todo
/// without text is refused.
pub fn continuation(summary: Summary) -> (result: Result<Continuation, String>)
    ensures
        match result {
            Ok(next) => {
                &&& !has_blank_todo(summary@.todos)
                &&& next.message@ == compaction_message(continuation_text(summary@))
                &&& model::views(next.todos@) == summary@.todos
            },
            Err(error) => has_blank_todo(summary@.todos) && error@
                == "Compaction returned a todo with blank text"@,
        },
{
    if any_blank(&summary.todos) {
        return Err("Compaction returned a todo with blank text".to_owned());
    }
    let mut sections: Vec<String> = Vec::new();
    sections.push(section_text("Objective", summary.objective.as_str()));
    sections.push(list_section_text("User instructions", &summary.user_instructions));
    sections.push(list_section_text("Session rules", &summary.session_rules));
    sections.push(list_section_text("Plan", &summary.plan));
    sections.push(section_text("Resumption point", summary.resumption_point.as_str()));
    sections.push(list_section_text("Completed work", &summary.completed_work));
    sections.push(list_section_text("Findings", &summary.findings));
    sections.push(list_section_text("Decisions", &summary.decisions));
    sections.push(list_section_text("Open issues", &summary.open_issues));
    sections.push(list_section_text("Next actions", &summary.next_actions));
    sections.push(list_section_text("Running work", &summary.running_work));
    sections.push(list_section_text("Recovery details", &summary.recovery_details));
    sections.push(list_section_text("Additional context", &summary.additional_context));
    sections.push(list_section_text("Todo reconciliation", &summary.todo_reconciliation));
    assert(model::views(sections@) =~= continuation_sections(summary@));
    let text = text::join(&sections, "\n\n");
    Ok(Continuation { message: compaction_block(text), todos: summary.todos })
}

/// A count, or the largest counter where it does not fit.
pub open spec fn capped(count: nat) -> u64 {
    if count > u64::MAX {
        u64::MAX
    } else {
        count as u64
    }
}

/// Estimated tokens of a text: a token for every four bytes begun.
pub open spec fn text_tokens(text: Seq<char>) -> nat {
    (text::byte_len(text) + 3) / 4
}

/// Estimated tokens of one image, whatever its payload.
pub const IMAGE_TOKENS: u64 = 2048;

/// Estimated tokens of a user block.
pub open spec fn user_tokens(block: UserContentView) -> nat {
    match block {
        UserContentView::Text { text } => 4 + text_tokens(text),
        UserContentView::Runtime { text } => 4 + text_tokens(text),
        UserContentView::ParentInput { text } => 4 + text_tokens(text),
        UserContentView::Compaction { text } => 4 + text_tokens(text),
        UserContentView::Image { .. } => IMAGE_TOKENS as nat,
    }
}

/// Estimated tokens of an assistant block.
pub open spec fn assistant_tokens(block: AssistantContentView) -> nat {
    match block {
        AssistantContentView::Text { text } => 4 + text_tokens(text),
        AssistantContentView::Reasoning { text, opaque } => 4 + text_tokens(text) + match opaque {
            Some(payload) => text_tokens(json::compact(payload)),
            None => 0,
        },
        AssistantContentView::ToolCall(call) => 12 + text_tokens(call.id) + text_tokens(call.name)
            + text_tokens(json::compact(call.arguments)),
    }
}

/// Estimated tokens of a tool result.
pub open spec fn result_tokens(result: ToolResultView) -> nat {
    12 + text_tokens(result.call_id) + text_tokens(result.name) + text_tokens(
        json::compact(result.result),
    ) + text_tokens(result.console_output) + result.images.len() * IMAGE_TOKENS as nat
}

/// Estimated tokens of a segment of the system prompt.
pub open spec fn segment_tokens(segment: SystemSegmentView) -> nat {
    4 + text_tokens(segment.text)
}

/// Estimated tokens of a tool definition.
pub open spec fn tool_tokens(tool: ToolDefinitionView) -> nat {
    12 + text_tokens(tool.name) + text_tokens(tool.description) + text_tokens(
        json::compact(tool.input_schema),
    )
}

/// The weights of a sequence together.
pub open spec fn total<A>(items: Seq<A>, weight: spec_fn(A) -> nat) -> nat
    decreases items.len(),
{
    if items.len() == 0 {
        0
    } else {
        total(items.drop_last(), weight) + weight(items.last())
    }
}

/// Estimated tokens of a message.
pub open spec fn message_tokens(message: MessageView) -> nat {
    8 + match message {
        MessageView::User(blocks) => total(blocks, |block: UserContentView| user_tokens(block)),
        MessageView::Assistant(blocks) => total(
            blocks,
            |block: AssistantContentView| assistant_tokens(block),
        ),
        MessageView::Tool(results) => total(results, |result: ToolResultView| result_tokens(result)),
    }
}

/// Estimated tokens of a request.
pub open spec fn request_tokens(request: ModelRequestView) -> nat {
    16 + total(request.system, |segment: SystemSegmentView| segment_tokens(segment)) + total(
        request.tools,
        |tool: ToolDefinitionView| tool_tokens(tool),
    ) + total(request.messages, |message: MessageView| message_tokens(message)) + match request.response_schema {
        Some(response) => 8 + text_tokens(response.name) + text_tokens(json::compact(response.schema)),
        None => 0,
    }
}

/// Estimates the tokens of a text.
pub fn estimate_text(text: &str) -> (tokens: u64)
    ensures
        tokens == text_tokens(text@),
{
    let length: u64 = text::byte_length(text) as u64;
    if length % 4 == 0 {
        length / 4
    } else {
        length / 4 + 1
    }
}

/// Estimates the tokens of a JSON value in compact notation.
fn estimate_json(value: &Json) -> (tokens: u64)
    ensures
        tokens == text_tokens(json::compact(value@)),
{
    let notation = compact_text(value);
    estimate_text(notation.as_str())
}

fn estimate_user(block: &UserContent) -> (tokens: u64)
    ensures
        tokens == capped(user_tokens(block@)),
{
    match block {
        UserContent::Text { text } => estimate_text(text.as_str()).saturating_add(4),
        UserContent::Runtime { text } => estimate_text(text.as_str()).saturating_add(4),
        UserContent::ParentInput { text } => estimate_text(text.as_str()).saturating_add(4),
        UserContent::Compaction { text } => estimate_text(text.as_str()).saturating_add(4),
        UserContent::Image { .. } => IMAGE_TOKENS,
    }
}

fn estimate_assistant(block: &AssistantContent) -> (tokens: u64)
    ensures
        tokens == capped(assistant_tokens(block@)),
{
    match block {
        AssistantContent::Text { text } => estimate_text(text.as_str()).saturating_add(4),
        AssistantContent::Reasoning { text, opaque } => {
            let payload: u64 = match opaque {
                Some(value) => estimate_json(value),
                None => 0,
            };
            estimate_text(text.as_str()).saturating_add(4).saturating_add(payload)
        },
        AssistantContent::ToolCall(call) => estimate_text(call.id.as_str()).saturating_add(
            12,
        ).saturating_add(estimate_text(call.name.as_str())).saturating_add(estimate_json(&call.arguments)),
    }
}

fn estimate_result(result: &ToolResult) -> (tokens: u64)
    ensures
        tokens == capped(result_tokens(result@)),
{
    let images: u64 = match (result.images.len() as u64).checked_mul(IMAGE_TOKENS) {
        Some(tokens) => tokens,
        None => u64::MAX,
    };
    assert(result@.images.len() == result.images.len());
    estimate_text(result.call_id.as_str()).saturating_add(12).saturating_add(
        estimate_text(result.name.as_str()),
    ).saturating_add(estimate_json(&result.result)).saturating_add(
        estimate_text(result.console_output.as_str()),
    ).saturating_add(images)
}

fn estimate_segment(segment: &SystemSegment) -> (tokens: u64)
    ensures
        tokens == capped(segment_tokens(segment@)),
{
    estimate_text(segment.text.as_str()).saturating_add(4)
}

fn estimate_tool(tool: &ToolDefinition) -> (tokens: u64)
    ensures
        tokens == capped(tool_tokens(tool@)),
{
    estimate_text(tool.name.as_str()).saturating_add(12).saturating_add(
        estimate_text(tool.description.as_str()),
    ).saturating_add(estimate_json(&tool.input_schema))
}

/// Estimates the blocks of a user message.
fn estimate_user_blocks(blocks: &Vec<UserContent>) -> (tokens: u64)
    ensures
        tokens == capped(total(model::views(blocks@), |item: UserContentView| user_tokens(item))),
{
    let ghost all = model::views(blocks@);
    let ghost weight = |item: UserContentView| user_tokens(item);
    let mut tokens: u64 = 0;
    let mut i: usize = 0;
    while i < blocks.len()
        invariant
            i <= blocks.len(),
            all == model::views(blocks@),
            weight == (|item: UserContentView| user_tokens(item)),
            tokens == capped(total(all.take(i as int), weight)),
        decreases blocks.len() - i,
    {
        tokens = tokens.saturating_add(estimate_user(&blocks[i]));
        proof {
            assert(all.take(i + 1).drop_last() =~= all.take(i as int));
            assert(all.take(i + 1).last() == blocks@[i as int]@);
        }
        i += 1;
    }
    assert(all.take(i as int) =~= all);
    tokens
}

/// Estimates the blocks of an assistant message.
fn estimate_assistant_blocks(blocks: &Vec<AssistantContent>) -> (tokens: u64)
    ensures
        tokens == capped(total(model::views(blocks@), |item: AssistantContentView| assistant_tokens(item))),
{
    let ghost all = model::views(blocks@);
    let ghost weight = |item: AssistantContentView| assistant_tokens(item);
    let mut tokens: u64 = 0;
    let mut i: usize = 0;
    while i < blocks.len()
        invariant
            i <= blocks.len(),
            all == model::views(blocks@),
            weight == (|item: AssistantContentView| assistant_tokens(item)),
            tokens == capped(total(all.take(i as int), weight)),
        decreases blocks.len() - i,
    {
        tokens = tokens.saturating_add(estimate_assistant(&blocks[i]));
        proof {
            assert(all.take(i + 1).drop_last() =~= all.take(i as int));
            assert(all.take(i + 1).last() == blocks@[i as int]@);
        }
        i += 1;
    }
    assert(all.take(i as int) =~= all);
    tokens
}

/// Estimates the results of a tool message.
fn estimate_results(results: &Vec<ToolResult>) -> (tokens: u64)
    ensures
        tokens == capped(total(model::views(results@), |item: ToolResultView| result_tokens(item))),
{
    let ghost all = model::views(results@);
    let ghost weight = |item: ToolResultView| result_tokens(item);
    let mut tokens: u64 = 0;
    let mut i: usize = 0;
    while i < results.len()
        invariant
            i <= results.len(),
            all == model::views(results@),
            weight == (|item: ToolResultView| result_tokens(item)),
            tokens == capped(total(all.take(i as int), weight)),
        decreases results.len() - i,
    {
        tokens = tokens.saturating_add(estimate_result(&results[i]));
        proof {
            assert(all.take(i + 1).drop_last() =~= all.take(i as int));
            assert(all.take(i + 1).last() == results@[i as int]@);
        }
        i += 1;
    }
    assert(all.take(i as int) =~= all);
    tokens
}

/// Provider-neutral estimate of a message; image payload bytes are not text tokens.
pub fn estimate_message(message: &Message) -> (tokens: u64)
    ensures
        tokens == capped(message_tokens(message@)),
{
    let content: u64 = match message {
        Message::User(blocks) => estimate_user_blocks(blocks),
        Message::Assistant(blocks) => estimate_assistant_blocks(blocks),
        Message::Tool(results) => estimate_results(results),
    };
    content.saturating_add(8)
}

/// Estimates a system prompt.
fn estimate_segments(system: &Vec<SystemSegment>) -> (tokens: u64)
    ensures
        tokens == capped(total(model::views(system@), |item: SystemSegmentView| segment_tokens(item))),
{
    let ghost all = model::views(system@);
    let ghost weight = |item: SystemSegmentView| segment_tokens(item);
    let mut tokens: u64 = 0;
    let mut i: usize = 0;
    while i < system.len()
        invariant
            i <= system.len(),
            all == model::views(system@),
            weight == (|item: SystemSegmentView| segment_tokens(item)),
            tokens == capped(total(all.take(i as int), weight)),
        decreases system.len() - i,
    {
        tokens = tokens.saturating_add(estimate_segment(&system[i]));
        proof {
            assert(all.take(i + 1).drop_last() =~= all.take(i as int));
            assert(all.take(i + 1).last() == system@[i as int]@);
        }
        i += 1;
    }
    assert(all.take(i as int) =~= all);
    tokens
}

/// Estimates the offered tools.
fn estimate_tools(tools: &Vec<ToolDefinition>) -> (tokens: u64)
    ensures
        tokens == capped(total(model::views(tools@), |item: ToolDefinitionView| tool_tokens(item))),
{
    let ghost all = model::views(tools@);
    let ghost weight = |item: ToolDefinitionView| tool_tokens(item);
    let mut tokens: u64 = 0;
    let mut i: usize = 0;
    while i < tools.len()
        invariant
            i <= tools.len(),
            all == model::views(tools@),
            weight == (|item: ToolDefinitionView| tool_tokens(item)),
            tokens == capped(total(all.take(i as int), weight)),
        decreases tools.len() - i,
    {
        tokens = tokens.saturating_add(estimate_tool(&tools[i]));
        proof {
            assert(all.take(i + 1).drop_last() =~= all.take(i as int));
            assert(all.take(i + 1).last() == tools@[i as int]@);
        }
        i += 1;
    }
    assert(all.take(i as int) =~= all);
    tokens
}

/// Estimates a conversation.
fn estimate_messages(messages: &Vec<Message>) -> (tokens: u64)
    ensures
        tokens == capped(total(model::views(messages@), |item: MessageView| message_tokens(item))),
{
    let ghost all = model::views(messages@);
    let ghost weight = |item: MessageView| message_tokens(item);
    let mut tokens: u64 = 0;
    let mut i: usize = 0;
    while i < messages.len()
        invariant
            i <= messages.len(),
            all == model::views(messages@),
            weight == (|item: MessageView| message_tokens(item)),
            tokens == capped(total(all.take(i as int), weight)),
        decreases messages.len() - i,
    {
        tokens = tokens.saturating_add(estimate_message(&messages[i]));
        proof {
            assert(all.take(i + 1).drop_last() =~= all.take(i as int));
            assert(all.take(i + 1).last() == messages@[i as int]@);
        }
        i += 1;
    }
    assert(all.take(i as int) =~= all);
    tokens
}

/// Provider-neutral estimate of a request.
pub fn estimate_request(request: &ModelRequest) -> (tokens: u64)
    ensures
        tokens == capped(request_tokens(request@)),
{
    let schema: u64 = match &request.response_schema {
        Some(response) => estimate_text(response.name.as_str()).saturating_add(8).saturating_add(
            estimate_json(&response.schema),
        ),
        None => 0,
    };
    estimate_segments(&request.system).saturating_add(16).saturating_add(
        estimate_tools(&request.tools),
    ).saturating_add(estimate_messages(&request.messages)).saturating_add(schema)
}

/// The estimate of an image does not depend on its payload, size or name.
pub proof fn image_estimates_ignore_payloads(left: ImageReferenceView, right: ImageReferenceView)
    ensures
        message_tokens(MessageView::User(seq![UserContentView::Image { image: left }]))
            == message_tokens(MessageView::User(seq![UserContentView::Image { image: right }])),
{
    let weight = |block: UserContentView| user_tokens(block);
    let a = seq![UserContentView::Image { image: left }];
    let b = seq![UserContentView::Image { image: right }];
    assert(total(a.drop_last(), weight) == 0);
    assert(total(b.drop_last(), weight) == 0);
    assert(total(a, weight) == total(b, weight));
}

/// A longer conversation is never estimated as smaller.
pub proof fn more_messages_are_not_cheaper(messages: Seq<MessageView>, message: MessageView)
    ensures
        total(messages.push(message), |item: MessageView| message_tokens(item)) == total(
            messages,
            |item: MessageView| message_tokens(item),
        ) + message_tokens(message),
{
    assert(messages.push(message).drop_last() =~= messages);
}

/// Whether a text shows content under a heading: the heading begins a section, the content
/// follows it, and behind the content the text ends or another section begins.
pub open spec fn shows_under(text: Seq<char>, heading: Seq<char>, content: Seq<char>) -> bool {
    exists|before: Seq<char>, after: Seq<char>|
        {
            &&& text == #[trigger] (before + ("## "@ + heading + "\n\n"@ + content) + after)
            &&& before.len() == 0 || "\n\n"@.is_suffix_of(before)
            &&& after.len() == 0 || ("\n\n"@ + "## "@).is_prefix_of(after)
        }
}

proof fn lemma_section_begins(heading: Seq<char>, content: Seq<char>)
    ensures
        "## "@.is_prefix_of(section(heading, content)),
{
    assert(section(heading, content).subrange(0, "## "@.len() as int) =~= "## "@);
}

proof fn lemma_sections_begin(summary: SummaryView, index: int)
    requires
        0 <= index < 14,
    ensures
        "## "@.is_prefix_of(continuation_sections(summary)[index]),
{
    lemma_section_begins("Objective"@, summary.objective);
    lemma_section_begins("User instructions"@, text::joined(summary.user_instructions, "\n\n"@));
    lemma_section_begins("Session rules"@, text::joined(summary.session_rules, "\n\n"@));
    lemma_section_begins("Plan"@, text::joined(summary.plan, "\n\n"@));
    lemma_section_begins("Resumption point"@, summary.resumption_point);
    lemma_section_begins("Completed work"@, text::joined(summary.completed_work, "\n\n"@));
    lemma_section_begins("Findings"@, text::joined(summary.findings, "\n\n"@));
    lemma_section_begins("Decisions"@, text::joined(summary.decisions, "\n\n"@));
    lemma_section_begins("Open issues"@, text::joined(summary.open_issues, "\n\n"@));
    lemma_section_begins("Next actions"@, text::joined(summary.next_actions, "\n\n"@));
    lemma_section_begins("Running work"@, text::joined(summary.running_work, "\n\n"@));
    lemma_section_begins("Recovery details"@, text::joined(summary.recovery_details, "\n\n"@));
    lemma_section_begins("Additional context"@, text::joined(summary.additional_context, "\n\n"@));
    lemma_section_begins("Todo reconciliation"@, text::joined(summary.todo_reconciliation, "\n\n"@));
}

proof fn lemma_shown_among(sections: Seq<Seq<char>>, index: int, heading: Seq<char>, content: Seq<char>)
    requires
        0 <= index < sections.len(),
        sections[index] == "## "@ + heading + "\n\n"@ + content,
        index + 1 < sections.len() ==> "## "@.is_prefix_of(sections[index + 1]),
    ensures
        shows_under(text::joined(sections, "\n\n"@), heading, content),
{
    let separator = "\n\n"@;
    text::joins_keep_their_parts(sections, separator, index);
    let before = if index == 0 {
        seq![]
    } else {
        text::joined(sections.take(index), separator) + separator
    };
    let after = if index == sections.len() - 1 {
        seq![]
    } else {
        separator + text::joined(sections.skip(index + 1), separator)
    };
    if index > 0 {
        assert(before.subrange(before.len() - separator.len(), before.len() as int) =~= separator);
    }
    if index < sections.len() - 1 {
        let rest = sections.skip(index + 1);
        text::joins_keep_their_parts(rest, separator, 0);
        assert(rest[0] == sections[index + 1]);
        assert(after.subrange(0, (separator + "## "@).len() as int) =~= separator + "## "@);
    }
    assert(text::joined(sections, separator) == before + ("## "@ + heading + "\n\n"@ + content) + after);
}

proof fn lemma_section_shown(summary: SummaryView, index: int, heading: Seq<char>, content: Seq<char>)
    requires
        0 <= index < 14,
        continuation_sections(summary)[index] == "## "@ + heading + "\n\n"@ + content,
    ensures
        shows_under(continuation_text(summary), heading, content),
{
    if index + 1 < 14 {
        lemma_sections_begin(summary, index + 1);
    }
    lemma_shown_among(continuation_sections(summary), index, heading, content);
}

/// Each field of a summary is shown under its own heading and as it is, the entries of a
/// list with a blank line between each two.
pub proof fn fields_are_shown_under_their_headings(summary: SummaryView)
    ensures
        shows_under(continuation_text(summary), "Objective"@, summary.objective),
        shows_under(continuation_text(summary), "User instructions"@, text::joined(summary.user_instructions, "\n\n"@)),
        shows_under(continuation_text(summary), "Session rules"@, text::joined(summary.session_rules, "\n\n"@)),
        shows_under(continuation_text(summary), "Plan"@, text::joined(summary.plan, "\n\n"@)),
        shows_under(continuation_text(summary), "Resumption point"@, summary.resumption_point),
        shows_under(continuation_text(summary), "Completed work"@, text::joined(summary.completed_work, "\n\n"@)),
        shows_under(continuation_text(summary), "Findings"@, text::joined(summary.findings, "\n\n"@)),
        shows_under(continuation_text(summary), "Decisions"@, text::joined(summary.decisions, "\n\n"@)),
        shows_under(continuation_text(summary), "Open issues"@, text::joined(summary.open_issues, "\n\n"@)),
        shows_under(continuation_text(summary), "Next actions"@, text::joined(summary.next_actions, "\n\n"@)),
        shows_under(continuation_text(summary), "Running work"@, text::joined(summary.running_work, "\n\n"@)),
        shows_under(continuation_text(summary), "Recovery details"@, text::joined(summary.recovery_details, "\n\n"@)),
        shows_under(continuation_text(summary), "Additional context"@, text::joined(summary.additional_context, "\n\n"@)),
        shows_under(continuation_text(summary), "Todo reconciliation"@, text::joined(summary.todo_reconciliation, "\n\n"@)),
{
    lemma_section_shown(summary, 0, "Objective"@, summary.objective);
    lemma_section_shown(summary, 1, "User instructions"@, text::joined(summary.user_instructions, "\n\n"@));
    lemma_section_shown(summary, 2, "Session rules"@, text::joined(summary.session_rules, "\n\n"@));
    lemma_section_shown(summary, 3, "Plan"@, text::joined(summary.plan, "\n\n"@));
    lemma_section_shown(summary, 4, "Resumption point"@, summary.resumption_point);
    lemma_section_shown(summary, 5, "Completed work"@, text::joined(summary.completed_work, "\n\n"@));
    lemma_section_shown(summary, 6, "Findings"@, text::joined(summary.findings, "\n\n"@));
    lemma_section_shown(summary, 7, "Decisions"@, text::joined(summary.decisions, "\n\n"@));
    lemma_section_shown(summary, 8, "Open issues"@, text::joined(summary.open_issues, "\n\n"@));
    lemma_section_shown(summary, 9, "Next actions"@, text::joined(summary.next_actions, "\n\n"@));
    lemma_section_shown(summary, 10, "Running work"@, text::joined(summary.running_work, "\n\n"@));
    lemma_section_shown(summary, 11, "Recovery details"@, text::joined(summary.recovery_details, "\n\n"@));
    lemma_section_shown(summary, 12, "Additional context"@, text::joined(summary.additional_context, "\n\n"@));
    lemma_section_shown(summary, 13, "Todo reconciliation"@, text::joined(summary.todo_reconciliation, "\n\n"@));
}

#[verifier::rlimit(40)]
proof fn lemma_fourteen_joined(all: Seq<Seq<char>>, separator: Seq<char>)
    requires
        all.len() == 14,
    ensures
        text::joined(all, separator) == all[0] + separator + all[1] + separator + all[2] + separator + all[3] + separator
            + all[4] + separator + all[5] + separator + all[6] + separator + all[7] + separator + all[8] + separator
            + all[9] + separator + all[10] + separator + all[11] + separator + all[12] + separator + all[13],
{
    text::joins_lose_nothing(seq![], all[0], separator);
    assert(Seq::<Seq<char>>::empty().push(all[0]) =~= all.take(1));
    text::joins_lose_nothing(all.take(1), all[1], separator);
    assert(all.take(1).push(all[1]) =~= all.take(2));
    text::joins_lose_nothing(all.take(2), all[2], separator);
    assert(all.take(2).push(all[2]) =~= all.take(3));
    text::joins_lose_nothing(all.take(3), all[3], separator);
    assert(all.take(3).push(all[3]) =~= all.take(4));
    text::joins_lose_nothing(all.take(4), all[4], separator);
    assert(all.take(4).push(all[4]) =~= all.take(5));
    text::joins_lose_nothing(all.take(5), all[5], separator);
    assert(all.take(5).push(all[5]) =~= all.take(6));
    text::joins_lose_nothing(all.take(6), all[6], separator);
    assert(all.take(6).push(all[6]) =~= all.take(7));
    text::joins_lose_nothing(all.take(7), all[7], separator);
    assert(all.take(7).push(all[7]) =~= all.take(8));
    text::joins_lose_nothing(all.take(8), all[8], separator);
    assert(all.take(8).push(all[8]) =~= all.take(9));
    text::joins_lose_nothing(all.take(9), all[9], separator);
    assert(all.take(9).push(all[9]) =~= all.take(10));
    text::joins_lose_nothing(all.take(10), all[10], separator);
    assert(all.take(10).push(all[10]) =~= all.take(11));
    text::joins_lose_nothing(all.take(11), all[11], separator);
    assert(all.take(11).push(all[11]) =~= all.take(12));
    text::joins_lose_nothing(all.take(12), all[12], separator);
    assert(all.take(12).push(all[12]) =~= all.take(13));
    text::joins_lose_nothing(all.take(13), all[13], separator);
    assert(all.take(13).push(all[13]) =~= all.take(14));
    assert(all.take(14) =~= all);
}

/// The fields of a summary are shown in one order and with nothing in between: the task and
/// its rules, where to resume, what is done and known, what is open, and the rest.
#[verifier::rlimit(40)]
pub proof fn fields_are_shown_in_order(summary: SummaryView)
    ensures
        continuation_text(summary) == ("## "@ + "Objective"@ + "\n\n"@ + summary.objective)
            + "\n\n"@ + ("## "@ + "User instructions"@ + "\n\n"@ + text::joined(summary.user_instructions, "\n\n"@))
            + "\n\n"@ + ("## "@ + "Session rules"@ + "\n\n"@ + text::joined(summary.session_rules, "\n\n"@))
            + "\n\n"@ + ("## "@ + "Plan"@ + "\n\n"@ + text::joined(summary.plan, "\n\n"@))
            + "\n\n"@ + ("## "@ + "Resumption point"@ + "\n\n"@ + summary.resumption_point)
            + "\n\n"@ + ("## "@ + "Completed work"@ + "\n\n"@ + text::joined(summary.completed_work, "\n\n"@))
            + "\n\n"@ + ("## "@ + "Findings"@ + "\n\n"@ + text::joined(summary.findings, "\n\n"@))
            + "\n\n"@ + ("## "@ + "Decisions"@ + "\n\n"@ + text::joined(summary.decisions, "\n\n"@))
            + "\n\n"@ + ("## "@ + "Open issues"@ + "\n\n"@ + text::joined(summary.open_issues, "\n\n"@))
            + "\n\n"@ + ("## "@ + "Next actions"@ + "\n\n"@ + text::joined(summary.next_actions, "\n\n"@))
            + "\n\n"@ + ("## "@ + "Running work"@ + "\n\n"@ + text::joined(summary.running_work, "\n\n"@))
            + "\n\n"@ + ("## "@ + "Recovery details"@ + "\n\n"@ + text::joined(summary.recovery_details, "\n\n"@))
            + "\n\n"@ + ("## "@ + "Additional context"@ + "\n\n"@ + text::joined(summary.additional_context, "\n\n"@))
            + "\n\n"@ + ("## "@ + "Todo reconciliation"@ + "\n\n"@ + text::joined(summary.todo_reconciliation, "\n\n"@)),
{
    let all = continuation_sections(summary);
    assert(all[0] == "## "@ + "Objective"@ + "\n\n"@ + summary.objective);
    assert(all[1] == "## "@ + "User instructions"@ + "\n\n"@ + text::joined(summary.user_instructions, "\n\n"@));
    assert(all[2] == "## "@ + "Session rules"@ + "\n\n"@ + text::joined(summary.session_rules, "\n\n"@));
    assert(all[3] == "## "@ + "Plan"@ + "\n\n"@ + text::joined(summary.plan, "\n\n"@));
    assert(all[4] == "## "@ + "Resumption point"@ + "\n\n"@ + summary.resumption_point);
    assert(all[5] == "## "@ + "Completed work"@ + "\n\n"@ + text::joined(summary.completed_work, "\n\n"@));
    assert(all[6] == "## "@ + "Findings"@ + "\n\n"@ + text::joined(summary.findings, "\n\n"@));
    assert(all[7] == "## "@ + "Decisions"@ + "\n\n"@ + text::joined(summary.decisions, "\n\n"@));
    assert(all[8] == "## "@ + "Open issues"@ + "\n\n"@ + text::joined(summary.open_issues, "\n\n"@));
    assert(all[9] == "## "@ + "Next actions"@ + "\n\n"@ + text::joined(summary.next_actions, "\n\n"@));
    assert(all[10] == "## "@ + "Running work"@ + "\n\n"@ + text::joined(summary.running_work, "\n\n"@));
    assert(all[11] == "## "@ + "Recovery details"@ + "\n\n"@ + text::joined(summary.recovery_details, "\n\n"@));
    assert(all[12] == "## "@ + "Additional context"@ + "\n\n"@ + text::joined(summary.additional_context, "\n\n"@));
    assert(all[13] == "## "@ + "Todo reconciliation"@ + "\n\n"@ + text::joined(summary.todo_reconciliation, "\n\n"@));
    lemma_fourteen_joined(all, "\n\n"@);
}

/// A continuation is one block of the harness that holds the text and nothing else.
pub proof fn continuations_are_one_block(text: Seq<char>)
    ensures
        compaction_message(text) matches MessageView::User(blocks) && blocks.len() == 1 && blocks[0] == (
        UserContentView::Compaction { text }),
{
}

/// A summary is refused exactly where one of its todos, whichever it is, has a text of
/// white space only.
pub proof fn every_todo_is_looked_at(todos: Seq<TodoItemView>)
    ensures
        has_blank_todo(todos) <==> exists|i: int|
            #![trigger todos[i]]
            0 <= i < todos.len() && forall|k: int|
                0 <= k < todos[i].text.len() ==> text::white_space(#[trigger] todos[i].text[k]),
{
    if has_blank_todo(todos) {
        let i = choose|i: int| 0 <= i < todos.len() && text::blank(#[trigger] todos[i].text);
        assert(todos[i] == todos[i]);
    }
    if exists|i: int|
        #![trigger todos[i]]
        0 <= i < todos.len() && forall|k: int|
            0 <= k < todos[i].text.len() ==> text::white_space(#[trigger] todos[i].text[k]) {
        let i = choose|i: int|
            #![trigger todos[i]]
            0 <= i < todos.len() && forall|k: int|
                0 <= k < todos[i].text.len() ==> text::white_space(#[trigger] todos[i].text[k]);
        assert(text::blank(todos[i].text));
    }
}

/// Bytes of the texts in a user block.
pub open spec fn user_bytes(block: UserContentView) -> nat {
    match block {
        UserContentView::Text { text } => text::byte_len(text),
        UserContentView::Runtime { text } => text::byte_len(text),
        UserContentView::ParentInput { text } => text::byte_len(text),
        UserContentView::Compaction { text } => text::byte_len(text),
        UserContentView::Image { .. } => 0,
    }
}

/// Bytes of the texts in an assistant block.
pub open spec fn assistant_bytes(block: AssistantContentView) -> nat {
    match block {
        AssistantContentView::Text { text } => text::byte_len(text),
        AssistantContentView::Reasoning { text, opaque: None } => text::byte_len(text),
        AssistantContentView::Reasoning { text, opaque: Some(payload) } => text::byte_len(text) + text::byte_len(
            json::compact(payload),
        ),
        AssistantContentView::ToolCall(call) => text::byte_len(call.id) + text::byte_len(call.name) + text::byte_len(
            json::compact(call.arguments),
        ),
    }
}

/// Bytes of the texts in a tool result.
pub open spec fn result_bytes(result: ToolResultView) -> nat {
    text::byte_len(result.call_id) + text::byte_len(result.name) + text::byte_len(json::compact(result.result))
        + text::byte_len(result.console_output)
}

/// Bytes of the texts in a message.
pub open spec fn message_bytes(message: MessageView) -> nat {
    match message {
        MessageView::User(blocks) => total(blocks, |block: UserContentView| user_bytes(block)),
        MessageView::Assistant(blocks) => total(blocks, |block: AssistantContentView| assistant_bytes(block)),
        MessageView::Tool(results) => total(results, |result: ToolResultView| result_bytes(result)),
    }
}

/// Bytes of all texts that a model is sent with a request.
pub open spec fn request_bytes(request: ModelRequestView) -> nat {
    total(request.system, |segment: SystemSegmentView| text::byte_len(segment.text)) + total(
        request.tools,
        |tool: ToolDefinitionView|
            text::byte_len(tool.name) + text::byte_len(tool.description) + text::byte_len(
                json::compact(tool.input_schema),
            ),
    ) + total(request.messages, |message: MessageView| message_bytes(message)) + match request.response_schema {
        Some(response) => text::byte_len(response.name) + text::byte_len(json::compact(response.schema)),
        None => 0,
    }
}

proof fn lemma_total_covers<A>(items: Seq<A>, tokens: spec_fn(A) -> nat, bytes: spec_fn(A) -> nat)
    requires
        forall|item: A| #[trigger] bytes(item) <= 4 * tokens(item),
    ensures
        total(items, bytes) <= 4 * total(items, tokens),
    decreases items.len(),
{
    if items.len() > 0 {
        lemma_total_covers(items.drop_last(), tokens, bytes);
        assert(bytes(items.last()) <= 4 * tokens(items.last()));
    }
}

proof fn lemma_message_covers(message: MessageView)
    ensures
        message_bytes(message) <= 4 * message_tokens(message),
{
    match message {
        MessageView::User(blocks) => {
            lemma_total_covers(
                blocks,
                |block: UserContentView| user_tokens(block),
                |block: UserContentView| user_bytes(block),
            );
        },
        MessageView::Assistant(blocks) => {
            lemma_total_covers(
                blocks,
                |block: AssistantContentView| assistant_tokens(block),
                |block: AssistantContentView| assistant_bytes(block),
            );
        },
        MessageView::Tool(results) => {
            lemma_total_covers(
                results,
                |result: ToolResultView| result_tokens(result),
                |result: ToolResultView| result_bytes(result),
            );
        },
    }
}

/// Every text that a model is sent is counted: a request is estimated at a token for each
/// four bytes of its texts or more, the notations of arguments, results and schemas and
/// opaque reasoning among them. The same holds of each message.
pub proof fn estimates_count_every_text(request: ModelRequestView, message: MessageView)
    ensures
        request_bytes(request) <= 4 * request_tokens(request),
        message_bytes(message) <= 4 * message_tokens(message),
{
    lemma_message_covers(message);
    lemma_total_covers(
        request.system,
        |segment: SystemSegmentView| segment_tokens(segment),
        |segment: SystemSegmentView| text::byte_len(segment.text),
    );
    lemma_total_covers(
        request.tools,
        |tool: ToolDefinitionView| tool_tokens(tool),
        |tool: ToolDefinitionView|
            text::byte_len(tool.name) + text::byte_len(tool.description) + text::byte_len(
                json::compact(tool.input_schema),
            ),
    );
    assert forall|item: MessageView| #[trigger] message_bytes(item) <= 4 * message_tokens(item) by {
        lemma_message_covers(item);
    }
    lemma_total_covers(
        request.messages,
        |item: MessageView| message_tokens(item),
        |item: MessageView| message_bytes(item),
    );
}

/// What a block costs is a small frame and its texts, each rounded up from four bytes a
/// token. An image costs the same whatever it shows, and so does each image of a result.
pub proof fn blocks_cost_their_frame_and_texts(
    user: UserContentView,
    assistant: AssistantContentView,
    result: ToolResultView,
)
    ensures
        match user {
            UserContentView::Image { .. } => user_tokens(user) == 2048,
            UserContentView::Text { text } => user_tokens(user) == 4 + (text::byte_len(text) + 3) / 4,
            UserContentView::Runtime { text } => user_tokens(user) == 4 + (text::byte_len(text) + 3) / 4,
            UserContentView::ParentInput { text } => user_tokens(user) == 4 + (text::byte_len(text) + 3) / 4,
            UserContentView::Compaction { text } => user_tokens(user) == 4 + (text::byte_len(text) + 3) / 4,
        },
        match assistant {
            AssistantContentView::Text { text } => assistant_tokens(assistant) == 4 + (text::byte_len(text) + 3) / 4,
            AssistantContentView::Reasoning { text, opaque: None } => assistant_tokens(assistant) == 4 + (
            text::byte_len(text) + 3) / 4,
            AssistantContentView::Reasoning { text, opaque: Some(payload) } => assistant_tokens(assistant) == 4 + (
            text::byte_len(text) + 3) / 4 + (text::byte_len(json::compact(payload)) + 3) / 4,
            AssistantContentView::ToolCall(call) => assistant_tokens(assistant) == 12 + (text::byte_len(call.id) + 3)
                / 4 + (text::byte_len(call.name) + 3) / 4 + (text::byte_len(json::compact(call.arguments)) + 3) / 4,
        },
        result_tokens(result) == 12 + (text::byte_len(result.call_id) + 3) / 4 + (text::byte_len(result.name) + 3) / 4
            + (text::byte_len(json::compact(result.result)) + 3) / 4 + (text::byte_len(result.console_output) + 3) / 4
            + 2048 * result.images.len(),
{
    assert(result.images.len() * IMAGE_TOKENS as nat == 2048 * result.images.len()) by (nonlinear_arith)
        requires
            IMAGE_TOKENS == 2048,
    ;
}

/// A message costs a frame and its blocks, one by one.
pub proof fn messages_cost_their_blocks(
    users: Seq<UserContentView>,
    user: UserContentView,
    assistants: Seq<AssistantContentView>,
    assistant: AssistantContentView,
    results: Seq<ToolResultView>,
    result: ToolResultView,
)
    ensures
        message_tokens(MessageView::User(seq![])) == 8,
        message_tokens(MessageView::Assistant(seq![])) == 8,
        message_tokens(MessageView::Tool(seq![])) == 8,
        message_tokens(MessageView::User(users.push(user))) == message_tokens(MessageView::User(users)) + user_tokens(
            user,
        ),
        message_tokens(MessageView::Assistant(assistants.push(assistant))) == message_tokens(
            MessageView::Assistant(assistants),
        ) + assistant_tokens(assistant),
        message_tokens(MessageView::Tool(results.push(result))) == message_tokens(MessageView::Tool(results))
            + result_tokens(result),
{
    assert(users.push(user).drop_last() =~= users);
    assert(assistants.push(assistant).drop_last() =~= assistants);
    assert(results.push(result).drop_last() =~= results);
}

/// A request costs a frame and its parts, one by one: segments of the system prompt, tools,
/// messages, and the schema of its answer.
pub proof fn requests_cost_their_parts(
    request: ModelRequestView,
    segment: SystemSegmentView,
    tool: ToolDefinitionView,
    message: MessageView,
)
    ensures
        request.system.len() == 0 && request.tools.len() == 0 && request.messages.len() == 0
            && request.response_schema is None ==> request_tokens(request) == 16,
        request_tokens(ModelRequestView { system: request.system.push(segment), ..request }) == request_tokens(request)
            + 4 + (text::byte_len(segment.text) + 3) / 4,
        request_tokens(ModelRequestView { tools: request.tools.push(tool), ..request }) == request_tokens(request) + 12
            + (text::byte_len(tool.name) + 3) / 4 + (text::byte_len(tool.description) + 3) / 4 + (text::byte_len(
            json::compact(tool.input_schema),
        ) + 3) / 4,
        request_tokens(ModelRequestView { messages: request.messages.push(message), ..request }) == request_tokens(
            request,
        ) + message_tokens(message),
        request.response_schema matches Some(response) ==> request_tokens(request) == request_tokens(
            ModelRequestView { response_schema: None, ..request },
        ) + 8 + (text::byte_len(response.name) + 3) / 4 + (text::byte_len(json::compact(response.schema)) + 3) / 4,
{
    assert(request.system.push(segment).drop_last() =~= request.system);
    assert(request.tools.push(tool).drop_last() =~= request.tools);
    assert(request.messages.push(message).drop_last() =~= request.messages);
}

/// An estimate is the count itself where that fits a counter, and the largest counter where
/// it does not.
pub proof fn estimates_stop_at_the_largest_counter(count: nat)
    ensures
        count <= u64::MAX ==> capped(count) == count,
        count > u64::MAX ==> capped(count) == u64::MAX,
{
}

} // verus!
