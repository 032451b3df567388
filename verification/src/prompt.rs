//! What an agent is told: its instructions, and the state of its work.

use vstd::prelude::*;
use vstd::string::*;
use crate::identity::{AgentId, AgentPath, JobId};
use crate::instructions;
use crate::instructions::is_same_path;
use crate::job::JobState;
use crate::model;
use crate::protocol::{SystemSegment, SystemSegmentView, UserContent, UserContentView};
use crate::text;
use crate::todo::{TodoItem, TodoItemView, TodoStatus};

verus! {

/// How a root agent works.
pub const ROOT_PROMPT: &'static str = "You are an agent running in Skyhook. Prefer direct tools for simple operations and batch independent calls; use script for JavaScript control flow, transformation or bounded concurrency. Before finishing, wait for needed work, cancel unnecessary work, or explicitly identify jobs left running.";

/// How a child agent works.
pub const CHILD_PROMPT: &'static str = "You are an agent running in Skyhook. Complete your parent's task and return the result. Your replies go directly to your parent. Stay quiet between meaningful milestones, blockers, and the final result; avoid routine progress narration. Prefer direct tools for simple operations and batch independent calls; use script for JavaScript control flow, transformation or bounded concurrency. Before finishing, wait for needed work, cancel unnecessary work. You cannot complete while owned work is active.";

/// What targets are.
pub const TARGET_PROMPT: &'static str = "Tools default to the target and workspace in skyhook_context. A tool's target selects the execution machine; write commands as if already on that machine. If the task's machine is unclear, use targets to discover available machines. Findings apply only to the target inspected.\n\n\"root\" selects the session host running Skyhook and its configured workspace; \"local\" identifies that host's target type. Selecting another target uses its configured workspace; selecting the current remote target preserves your workspace override.\n\nRemote commands receive Skyhook's SSH_AUTH_SOCK; Skyhook handles SSH authentication prompts.";

/// What workspaces are.
pub const WORKSPACE_PROMPT: &'static str = "Workspaces set the base directory; they do not isolate files. Agents on the same target share its filesystem. Paths/cwd may be absolute or relative (including `..`) on the selected machine. Relative child workspace overrides resolve against the selected base.";

/// What tool calls return.
pub const LIFECYCLE_PROMPT: &'static str = "Direct tool calls return JobView; Result in tool descriptions refers to its result field. JavaScript calls return native results; background launches return job metadata. Use job_output to retrieve truncated results.\n\nCommand timeouts terminate execution; omitted timeouts have no deadline. Nonzero exit_code is a normal result. Script failures throw with partial error.output. Never circumvent a declined operation; use permitted alternatives or explain the limitation.";

/// How to work with child agents.
pub const AGENT_PROMPT: &'static str = "Children start without your conversation history. Supply their task, relevant context, and scope, and give each child a distinct responsibility.\n\nLet children continue working autonomously. Use the appended runtime state and child messages to decide whether intervention is needed. Elapsed time, a wait timeout, or unchanged turn/tool-call counts alone do not establish that a child is stalled; it may be processing a request or awaiting a tool. When dependent on unfinished work, wait again. Send follow-ups to answer questions, resolve concrete blockers, correct a demonstrated misunderstanding, or communicate changed requirements. Resolve questions from children you supervise. Progress updates do not require a reply. When spawning a child, consider using todos to give it an initial checklist for multi-step work";

/// How to read the runtime state.
pub const STATE_PROMPT: &'static str = "The final <skyhook_state> is a fresh snapshot: date is local YYYY-MM-DD; absent jobs/todos sections are empty. Job rows follow the column header; parent is the containing agent job, or - for a top-level entry (not ownerless). Ages are seconds since creation; turns/tool_calls are exclusive per-agent counters. - means absent/not applicable, not zero. Strings use JSON quoting when needed; todo text and location overrides are always quoted. Omitted target/workspace equal skyhook_context, never the parent row. Todo status headings group consecutive items, preserving order including completed items.";

/// When to use todos.
pub const TODO_PROMPT: &'static str = "Use todo for multi-step work and account for unfinished items.";

/// The target that stands for the host of a session.
pub const ROOT_TARGET: &'static str = "root";

/// What an agent may do.
#[derive(Clone, Copy, Debug, PartialEq, Eq, Structural)]
pub enum Capability {
    Read,
    Write,
    Exec,
    Network,
    Interactive,
    Mcp,
    Targets,
    Agents,
}

/// Where work runs.
#[derive(Clone, Debug, PartialEq, Eq)]
pub struct ExecutionLocation {
    pub target: String,
    pub workspace: String,
}

impl ExecutionLocation {
    /// A workspace on the host of the session.
    pub fn root(workspace: String) -> (location: ExecutionLocation)
        ensures
            location.target@ == ROOT_TARGET@,
            location.workspace == workspace,
    {
        ExecutionLocation { target: ROOT_TARGET.to_owned(), workspace }
    }

    /// A workspace on a target.
    pub fn named(target: &str, workspace: String) -> (location: ExecutionLocation)
        ensures
            location.target@ == target@,
            location.workspace == workspace,
    {
        ExecutionLocation { target: target.to_owned(), workspace }
    }
}

/// Where a job runs, as far as an agent may know: a target may be hidden.
#[derive(Clone, Debug, PartialEq, Eq)]
pub struct ActiveJobLocation {
    pub target: Option<String>,
    pub workspace: String,
}

/// What an agent has done so far.
#[derive(Clone, Copy, Debug, PartialEq, Eq, Structural)]
pub struct JobProgress {
    pub turns: u64,
    pub tool_calls: u64,
}

impl Default for JobProgress {
    fn default() -> (progress: Self)
        ensures
            progress == (JobProgress { turns: 0, tool_calls: 0 }),
    {
        JobProgress { turns: 0, tool_calls: 0 }
    }
}

/// A job that is not finished.
#[derive(Debug, PartialEq, Eq)]
pub struct ActiveJob {
    pub job: JobId,
    pub tool: String,
    pub name: Option<String>,
    pub state: JobState,
    pub location: ActiveJobLocation,
    pub age_seconds: u64,
    pub progress: Option<JobProgress>,
    /// The unfinished jobs of an agent's job.
    pub children: Vec<ActiveJob>,
}

/// Whether a character can stand bare in a row.
pub open spec fn bare_character(c: char) -> bool {
    ||| 'a' <= c <= 'z'
    ||| 'A' <= c <= 'Z'
    ||| '0' <= c <= '9'
    ||| c == '_'
    ||| c == '-'
    ||| c == '.'
    ||| c == '/'
}

/// Whether a text can stand bare in a row: it is no placeholder and cannot alter the row.
pub open spec fn is_bare(value: Seq<char>) -> bool {
    &&& value.len() > 0
    &&& value != "-"@
    &&& forall|i: int| 0 <= i < value.len() ==> bare_character(#[trigger] value[i])
}

/// A text in a row.
pub open spec fn cell_text(value: Seq<char>) -> Seq<char> {
    if is_bare(value) {
        value
    } else {
        text::json_string(value)
    }
}

/// Keeps common tool and job names bare, but escapes anything that could alter a row.
pub fn cell(value: &str) -> (shown: String)
    ensures
        shown@ == cell_text(value@),
{
    let mut bare = value.unicode_len() > 0 && value.to_owned() != "-".to_owned();
    let length: usize = value.unicode_len();
    let mut i: usize = 0;
    while bare && i < length
        invariant
            i <= length,
            length == value@.len(),
            bare ==> value@.len() > 0 && value@ != "-"@ && forall|k: int|
                0 <= k < i ==> bare_character(#[trigger] value@[k]),
            !bare ==> !is_bare(value@),
        decreases length - i, if bare { 1int } else { 0int },
    {
        let c = value.get_char(i);
        if !(('a' <= c && c <= 'z') || ('A' <= c && c <= 'Z') || ('0' <= c && c <= '9') || c == '_' || c == '-' || c
            == '.' || c == '/') {
            assert(!bare_character(value@[i as int]));
            bare = false;
        } else {
            i += 1;
        }
    }
    if bare {
        value.to_owned()
    } else {
        text::quoted(value)
    }
}

/// The name of a job's parent in a row.
pub open spec fn parent_text(parent: Option<JobId>) -> Seq<char> {
    match parent {
        Some(job) => text::decimal(job.spec_number() as nat),
        None => "-"@,
    }
}

/// The counters of a job in a row.
pub open spec fn progress_text(progress: Option<JobProgress>) -> Seq<char> {
    match progress {
        Some(counters) => " "@ + text::decimal(counters.turns as nat) + " "@ + text::decimal(
            counters.tool_calls as nat,
        ),
        None => " - -"@,
    }
}

/// Where a job runs, as far as that differs from the agent's own location. Workspaces are
/// compared as paths, component by component.
pub open spec fn override_text(own: ActiveJobLocation, location: ExecutionLocation) -> Seq<char> {
    (match own.target {
        Some(target) => if target@ != location.target@ {
            " target="@ + text::json_string(target@)
        } else {
            seq![]
        },
        None => seq![],
    }) + (if !instructions::same_path(own.workspace@, location.workspace@) {
        " workspace="@ + text::json_string(own.workspace@)
    } else {
        seq![]
    })
}

/// The name of a job in a row.
pub open spec fn name_text(name: Option<String>) -> Seq<char> {
    match name {
        Some(shown) => cell_text(shown@),
        None => "-"@,
    }
}

/// The identity of a job in a row.
pub open spec fn identity_text(job: ActiveJob, parent: Option<JobId>) -> Seq<char> {
    text::decimal(job.job.spec_number() as nat) + " "@ + parent_text(parent) + " "@ + cell_text(job.tool@) + " "@
        + name_text(job.name)
}

/// The progress of a job in a row.
pub open spec fn activity_text(job: ActiveJob) -> Seq<char> {
    " "@ + job.state.spec_name() + " "@ + text::decimal(job.age_seconds as nat) + progress_text(job.progress)
}

/// The row of a job. Every row is held against the agent's location, never against that
/// of its parent.
pub open spec fn job_row(job: ActiveJob, parent: Option<JobId>, location: ExecutionLocation) -> Seq<char> {
    identity_text(job, parent) + activity_text(job) + override_text(job.location, location) + "\n"@
}

/// The rows of jobs, each followed by those of its children.
pub open spec fn job_rows(jobs: Seq<ActiveJob>, parent: Option<JobId>, location: ExecutionLocation) -> Seq<char>
    decreases jobs,
{
    if jobs.len() == 0 {
        seq![]
    } else {
        let job = jobs.last();
        job_rows(jobs.drop_last(), parent, location) + job_row(job, parent, location) + job_rows(
            job.children@,
            Some(job.job),
            location,
        )
    }
}

/// Writes the identity of a job.
fn write_identity(out: &mut String, job: &ActiveJob, parent: Option<JobId>)
    ensures
        final(out)@ == old(out)@ + identity_text(*job, parent),
{
    let ghost before = out@;
    text::push_decimal(out, job.job.number());
    out.append(" ");
    match parent {
        Some(owner) => text::push_decimal(out, owner.number()),
        None => out.append("-"),
    }
    out.append(" ");
    let tool = cell(job.tool.as_str());
    out.append(tool.as_str());
    out.append(" ");
    match &job.name {
        Some(name) => {
            let shown = cell(name.as_str());
            out.append(shown.as_str());
        },
        None => out.append("-"),
    }
    assert(out@ =~= before + identity_text(*job, parent));
}

/// Writes the progress of a job.
fn write_activity(out: &mut String, job: &ActiveJob)
    ensures
        final(out)@ == old(out)@ + activity_text(*job),
{
    let ghost before = out@;
    out.append(" ");
    out.append(job.state.name());
    out.append(" ");
    text::push_decimal(out, job.age_seconds);
    match job.progress {
        Some(counters) => {
            out.append(" ");
            text::push_decimal(out, counters.turns);
            out.append(" ");
            text::push_decimal(out, counters.tool_calls);
        },
        None => out.append(" - -"),
    }
    assert(out@ =~= before + activity_text(*job));
}

/// Writes where a job runs, as far as that differs from the agent's own location.
fn write_overrides(out: &mut String, own: &ActiveJobLocation, location: &ExecutionLocation)
    ensures
        final(out)@ == old(out)@ + override_text(*own, *location),
{
    let ghost before = out@;
    if let Some(target) = &own.target {
        if *target != location.target {
            out.append(" target=");
            let shown = text::quoted(target.as_str());
            out.append(shown.as_str());
        }
    }
    if !is_same_path(own.workspace.as_str(), location.workspace.as_str()) {
        out.append(" workspace=");
        let shown = text::quoted(own.workspace.as_str());
        out.append(shown.as_str());
    }
    assert(out@ =~= before + override_text(*own, *location));
}

/// Writes the row of a job.
fn write_row(out: &mut String, job: &ActiveJob, parent: Option<JobId>, location: &ExecutionLocation)
    ensures
        final(out)@ == old(out)@ + job_row(*job, parent, *location),
{
    let ghost before = out@;
    write_identity(out, job, parent);
    write_activity(out, job);
    write_overrides(out, &job.location, location);
    out.append("\n");
    assert(out@ =~= before + job_row(*job, parent, *location));
}

/// Writes the rows of jobs.
pub fn render_jobs(out: &mut String, jobs: &Vec<ActiveJob>, parent: Option<JobId>, location: &ExecutionLocation)
    ensures
        final(out)@ == old(out)@ + job_rows(jobs@, parent, *location),
    decreases jobs@,
{
    let ghost before = out@;
    let mut i: usize = 0;
    assert(before + job_rows(jobs@.take(0), parent, *location) =~= before);
    while i < jobs.len()
        invariant
            i <= jobs.len(),
            out@ == before + job_rows(jobs@.take(i as int), parent, *location),
        decreases jobs.len() - i,
    {
        let job = &jobs[i];
        proof {
            assert(jobs@.take(i + 1).drop_last() =~= jobs@.take(i as int));
            assert(jobs@.take(i + 1).last() == *job);
            assert(decreases_to!(jobs@ => jobs@[i as int]));
            assert(decreases_to!(*job => job.children));
            assert(decreases_to!(job.children => job.children@));
        }
        write_row(out, job, parent, location);
        render_jobs(out, &job.children, Some(job.job), location);
        assert(out@ =~= before + job_rows(jobs@.take(i + 1), parent, *location));
        i += 1;
    }
    assert(jobs@.take(i as int) =~= jobs@);
}

/// The name of a todo's status.
pub open spec fn status_text(status: TodoStatus) -> Seq<char> {
    match status {
        TodoStatus::Pending => "pending"@,
        TodoStatus::InProgress => "in_progress"@,
        TodoStatus::Completed => "completed"@,
    }
}

/// Todos under headings: a heading stands wherever the status changes.
pub open spec fn todo_rows(todos: Seq<TodoItemView>) -> Seq<char>
    decreases todos.len(),
{
    if todos.len() == 0 {
        seq![]
    } else {
        let item = todos.last();
        let heading = if todos.len() == 1 || todos[todos.len() - 2].status != item.status {
            status_text(item.status) + ":\n"@
        } else {
            seq![]
        };
        todo_rows(todos.drop_last()) + heading + "  "@ + text::json_string(item.text) + "\n"@
    }
}

/// Writes todos under headings.
fn render_todos(out: &mut String, todos: &Vec<TodoItem>)
    ensures
        final(out)@ == old(out)@ + todo_rows(model::views(todos@)),
{
    let ghost before = out@;
    let ghost all = model::views(todos@);
    let mut i: usize = 0;
    assert(before + todo_rows(all.take(0)) =~= before);
    while i < todos.len()
        invariant
            i <= todos.len(),
            all == model::views(todos@),
            out@ == before + todo_rows(all.take(i as int)),
        decreases todos.len() - i,
    {
        let item = &todos[i];
        proof {
            assert(all.take(i + 1).drop_last() =~= all.take(i as int));
            assert(all.take(i + 1).last() == item@);
            if i > 0 {
                assert(all.take(i + 1)[i - 1] == todos@[i - 1]@);
            }
        }
        if i == 0 || todos[i - 1].status != item.status {
            match item.status {
                TodoStatus::Pending => out.append("pending"),
                TodoStatus::InProgress => out.append("in_progress"),
                TodoStatus::Completed => out.append("completed"),
            }
            out.append(":\n");
        }
        out.append("  ");
        let shown = text::quoted(item.text.as_str());
        out.append(shown.as_str());
        out.append("\n");
        assert(out@ =~= before + todo_rows(all.take(i + 1)));
        i += 1;
    }
    assert(all.take(i as int) =~= all);
}

/// The state of an agent's work. Sections without entries are left out.
pub open spec fn state_text(
    date: Seq<char>,
    jobs: Seq<ActiveJob>,
    todos: Seq<TodoItemView>,
    location: ExecutionLocation,
) -> Seq<char> {
    "<skyhook_state>\ndate:"@ + date + "\n"@ + job_section(jobs, location) + todo_section(todos)
        + "</skyhook_state>"@
}

/// The jobs of an agent, where it has any.
pub open spec fn job_section(jobs: Seq<ActiveJob>, location: ExecutionLocation) -> Seq<char> {
    if jobs.len() > 0 {
        "jobs: job parent tool name state age_s turns tool_calls\n"@ + job_rows(jobs, None, location)
    } else {
        seq![]
    }
}

/// The todos of an agent, where it has any.
pub open spec fn todo_section(todos: Seq<TodoItemView>) -> Seq<char> {
    if todos.len() > 0 {
        "todos:\n"@ + todo_rows(todos)
    } else {
        seq![]
    }
}

/// Presents the jobs of an agent.
fn render_job_section(out: &mut String, jobs: &Vec<ActiveJob>, location: &ExecutionLocation)
    ensures
        final(out)@ == old(out)@ + job_section(jobs@, *location),
{
    let ghost before = out@;
    if jobs.len() > 0 {
        out.append("jobs: job parent tool name state age_s turns tool_calls\n");
        render_jobs(out, jobs, None, location);
    }
    assert(out@ =~= before + job_section(jobs@, *location));
}

/// Presents the todos of an agent.
fn render_todo_section(out: &mut String, todos: &Vec<TodoItem>)
    ensures
        final(out)@ == old(out)@ + todo_section(model::views(todos@)),
{
    let ghost before = out@;
    if todos.len() > 0 {
        out.append("todos:\n");
        render_todos(out, todos);
    }
    assert(out@ =~= before + todo_section(model::views(todos@)));
}

/// Presents the state of an agent's work.
pub fn render_state(date: &str, jobs: &Vec<ActiveJob>, todos: &Vec<TodoItem>, location: &ExecutionLocation) -> (text:
    String)
    ensures
        text@ == state_text(date@, jobs@, model::views(todos@), *location),
{
    let mut text = "<skyhook_state>\ndate:".to_owned();
    text.append(date);
    text.append("\n");
    render_job_section(&mut text, jobs, location);
    render_todo_section(&mut text, todos);
    text.append("</skyhook_state>");
    text
}

/// The state of an agent's work as the last part of a request.
pub fn runtime_state(date: &str, jobs: &Vec<ActiveJob>, todos: &Vec<TodoItem>, location: &ExecutionLocation) -> (content:
    UserContent)
    ensures
        content@ == (UserContentView::Runtime {
            text: state_text(date@, jobs@, model::views(todos@), *location),
        }),
{
    UserContent::Runtime { text: render_state(date, jobs, todos, location) }
}

/// How the runtime state shows a day.
pub const DATE_FORMAT: &'static str = "%Y-%m-%d";

/// What `chrono` writes of a moment, given in milliseconds since the beginning of 1970 in
/// UTC, in a zone that is so many seconds ahead of UTC.
pub uninterp spec fn formatted_moment(millis: i64, offset: i32, format: Seq<char>) -> Option<Seq<char>>;

/// Writes a moment. Calls `chrono::DateTime::format` on the moment that
/// `DateTime::from_timestamp_millis` makes of the milliseconds, in the zone that
/// `FixedOffset::east_opt` makes of the offset. The text is named, not spelled out. There
/// is none where `chrono` has no such moment or no such zone; a zone is less than a day
/// away from UTC.
#[verifier::external_body]
fn format_moment(millis: i64, offset: i32, format: &str) -> (shown: Option<String>)
    requires
        format@ == DATE_FORMAT@,
    ensures
        model::text_view(shown) == formatted_moment(millis, offset, format@),
        shown is Some ==> -86_400 < offset < 86_400,
{
    let zone = chrono::FixedOffset::east_opt(offset)?;
    let moment = chrono::DateTime::from_timestamp_millis(millis)?;
    Some(moment.with_timezone(&zone).format(format).to_string())
}

/// The state of an agent's work at a moment, given in milliseconds since the beginning
/// of 1970 in UTC, in a zone that is so many seconds ahead of UTC. There is none where the
/// moment has no date there.
pub fn runtime_state_at(
    millis: i64,
    offset: i32,
    jobs: &Vec<ActiveJob>,
    todos: &Vec<TodoItem>,
    location: &ExecutionLocation,
) -> (content: Option<UserContent>)
    ensures
        match content {
            Some(state) => formatted_moment(millis, offset, DATE_FORMAT@) matches Some(date) && state@ == (
            UserContentView::Runtime { text: state_text(date, jobs@, model::views(todos@), *location) }),
            None => formatted_moment(millis, offset, DATE_FORMAT@) is None,
        },
{
    match format_moment(millis, offset, DATE_FORMAT) {
        Some(date) => Some(runtime_state(date.as_str(), jobs, todos, location)),
        None => None,
    }
}

/// What is known of a target.
#[derive(Clone, Debug, PartialEq, Eq)]
pub struct TargetInfo {
    /// The name of the target's type.
    pub kind: String,
    pub host: String,
    pub origin: String,
    pub via: Option<String>,
}

/// A target as JSON. Without a definition, it is the host of the session.
pub open spec fn target_json(name: Seq<char>, target: Option<TargetInfo>) -> Seq<char> {
    "{\"name\":"@ + text::json_string(name) + ",\"type\":"@ + text::json_string(
        match target {
            Some(info) => info.kind@,
            None => "local"@,
        },
    ) + ",\"host\":"@ + text::json_string(
        match target {
            Some(info) => info.host@,
            None => "localhost"@,
        },
    ) + ",\"origin\":"@ + text::json_string(
        match target {
            Some(info) => info.origin@,
            None => ROOT_TARGET@,
        },
    ) + ",\"via\":"@ + (match target {
        Some(info) => match info.via {
            Some(via) => text::json_string(via@),
            None => "null"@,
        },
        None => "null"@,
    }) + "}"@
}

/// Where an agent works as JSON: its target only where it may know targets.
pub open spec fn context_json(location: ExecutionLocation, target: Option<TargetInfo>, targets: bool) -> Seq<char> {
    "{\"workspace\":"@ + text::json_string(location.workspace@) + (if targets {
        ",\"target\":"@ + target_json(location.target@, target)
    } else {
        seq![]
    }) + "}"@
}

/// What a capability adds to the instructions.
pub open spec fn capability_text(capability: Capability, available_depth: nat) -> Option<Seq<char>> {
    match capability {
        Capability::Targets => Some(TARGET_PROMPT@),
        Capability::Agents => Some(
            AGENT_PROMPT@ + "\n\n<agent_context>\n{\"available_depth\":"@ + text::decimal(available_depth)
                + "}\n</agent_context>"@,
        ),
        _ => None,
    }
}

/// What capabilities add to the instructions.
pub open spec fn capability_texts(capabilities: Seq<Capability>, available_depth: nat) -> Seq<Seq<char>>
    decreases capabilities.len(),
{
    if capabilities.len() == 0 {
        seq![]
    } else {
        let earlier = capability_texts(capabilities.drop_last(), available_depth);
        match capability_text(capabilities.last(), available_depth) {
            Some(text) => earlier.push(text),
            None => earlier,
        }
    }
}

/// The parts of an agent's instructions.
pub open spec fn system_parts(
    instructions: Seq<Seq<char>>,
    agent: AgentPath,
    location: ExecutionLocation,
    target: Option<TargetInfo>,
    available_depth: nat,
    capabilities: Seq<Capability>,
    job_view: Seq<char>,
) -> Seq<Seq<char>> {
    seq![
        if agent.path.len() == 0 {
            ROOT_PROMPT@
        } else {
            CHILD_PROMPT@
        },
        WORKSPACE_PROMPT@,
        TODO_PROMPT@,
        STATE_PROMPT@,
        LIFECYCLE_PROMPT@ + "\n\nDirect tool result type: JobView = `"@ + job_view + "`."@,
    ] + capability_texts(capabilities, available_depth) + instructions.push(
        "<skyhook_context>\n"@ + context_json(location, target, capabilities.contains(Capability::Targets))
            + "\n</skyhook_context>"@,
    )
}

/// Tells what a capability adds to the instructions.
fn capability_prompt(capability: Capability, available_depth: usize) -> (chunk: Option<String>)
    ensures
        model::text_view(chunk) == capability_text(capability, available_depth as nat),
{
    match capability {
        Capability::Targets => Some(TARGET_PROMPT.to_owned()),
        Capability::Agents => {
            let mut chunk = AGENT_PROMPT.to_owned();
            chunk.append("\n\n<agent_context>\n{\"available_depth\":");
            text::push_decimal(&mut chunk, available_depth as u64);
            chunk.append("}\n</agent_context>");
            Some(chunk)
        },
        Capability::Read
        | Capability::Write
        | Capability::Exec
        | Capability::Network
        | Capability::Interactive
        | Capability::Mcp => None,
    }
}

/// Writes a target as JSON.
fn write_target(out: &mut String, name: &String, target: &Option<TargetInfo>)
    ensures
        final(out)@ == old(out)@ + target_json(name@, *target),
{
    let ghost before = out@;
    let kind = text::quoted(
        match target {
            Some(info) => info.kind.as_str(),
            None => "local",
        },
    );
    let host = text::quoted(
        match target {
            Some(info) => info.host.as_str(),
            None => "localhost",
        },
    );
    let origin = text::quoted(
        match target {
            Some(info) => info.origin.as_str(),
            None => ROOT_TARGET,
        },
    );
    out.append("{\"name\":");
    let shown = text::quoted(name.as_str());
    out.append(shown.as_str());
    out.append(",\"type\":");
    out.append(kind.as_str());
    out.append(",\"host\":");
    out.append(host.as_str());
    out.append(",\"origin\":");
    out.append(origin.as_str());
    out.append(",\"via\":");
    match target {
        Some(info) => match &info.via {
            Some(via) => {
                let shown = text::quoted(via.as_str());
                out.append(shown.as_str());
            },
            None => out.append("null"),
        },
        None => out.append("null"),
    }
    out.append("}");
    assert(out@ =~= before + target_json(name@, *target));
}

/// Tests for a capability.
pub fn has_capability(capabilities: &Vec<Capability>, capability: Capability) -> (answer: bool)
    ensures
        answer == capabilities@.contains(capability),
{
    let mut i: usize = 0;
    while i < capabilities.len()
        invariant
            i <= capabilities.len(),
            forall|k: int| 0 <= k < i ==> capabilities@[k] != capability,
        decreases capabilities.len() - i,
    {
        if capabilities[i] == capability {
            assert(capabilities@[i as int] == capability);
            return true;
        }
        i += 1;
    }
    false
}

/// Puts an agent's instructions together. `job_view` shows the type of tool results.
pub fn system_segment(
    instructions: &Vec<String>,
    agent: &AgentId,
    location: &ExecutionLocation,
    target: &Option<TargetInfo>,
    available_depth: usize,
    capabilities: &Vec<Capability>,
    job_view: &str,
) -> (segment: SystemSegment)
    ensures
        segment@ == (SystemSegmentView {
            text: text::joined(
                system_parts(
                    model::views(instructions@),
                    agent@,
                    *location,
                    *target,
                    available_depth as nat,
                    capabilities@,
                    job_view@,
                ),
                "\n\n"@,
            ),
            cache: true,
        }),
{
    let ghost goal = system_parts(
        model::views(instructions@),
        agent@,
        *location,
        *target,
        available_depth as nat,
        capabilities@,
        job_view@,
    );
    let mut parts: Vec<String> = Vec::new();
    parts.push(
        if agent.depth() == 0 {
            ROOT_PROMPT.to_owned()
        } else {
            CHILD_PROMPT.to_owned()
        },
    );
    parts.push(WORKSPACE_PROMPT.to_owned());
    parts.push(TODO_PROMPT.to_owned());
    parts.push(STATE_PROMPT.to_owned());
    let mut lifecycle = LIFECYCLE_PROMPT.to_owned();
    lifecycle.append("\n\nDirect tool result type: JobView = `");
    lifecycle.append(job_view);
    lifecycle.append("`.");
    parts.push(lifecycle);
    let ghost stem = model::views(parts@);
    let mut i: usize = 0;
    assert(stem + capability_texts(capabilities@.take(0), available_depth as nat) =~= stem);
    while i < capabilities.len()
        invariant
            i <= capabilities.len(),
            model::views(parts@) == stem + capability_texts(capabilities@.take(i as int), available_depth as nat),
        decreases capabilities.len() - i,
    {
        proof {
            assert(capabilities@.take(i + 1).drop_last() =~= capabilities@.take(i as int));
            assert(capabilities@.take(i + 1).last() == capabilities@[i as int]);
        }
        if let Some(chunk) = capability_prompt(capabilities[i], available_depth) {
            let ghost earlier = parts@;
            let ghost added = chunk@;
            parts.push(chunk);
            assert(model::views(parts@) =~= model::views(earlier).push(added));
            assert(model::views(parts@) =~= stem + capability_texts(
                capabilities@.take(i + 1),
                available_depth as nat,
            ));
        }
        i += 1;
    }
    assert(capabilities@.take(i as int) =~= capabilities@);
    let ghost middle = model::views(parts@);
    let ghost own = model::views(instructions@);
    i = 0;
    assert(middle + own.take(0) =~= middle);
    while i < instructions.len()
        invariant
            i <= instructions.len(),
            own == model::views(instructions@),
            model::views(parts@) == middle + own.take(i as int),
        decreases instructions.len() - i,
    {
        let ghost earlier = parts@;
        parts.push(instructions[i].clone());
        assert(model::views(parts@) =~= model::views(earlier).push(own[i as int]));
        assert(model::views(parts@) =~= middle + own.take(i + 1));
        i += 1;
    }
    assert(own.take(i as int) =~= own);
    let mut context = "<skyhook_context>\n{\"workspace\":".to_owned();
    let workspace = text::quoted(location.workspace.as_str());
    context.append(workspace.as_str());
    let targets = has_capability(capabilities, Capability::Targets);
    if targets {
        context.append(",\"target\":");
        write_target(&mut context, &location.target, target);
    }
    context.append("}");
    context.append("\n</skyhook_context>");
    let ghost last = context@;
    proof {
        reveal_strlit("<skyhook_context>\n{\"workspace\":");
        reveal_strlit("<skyhook_context>\n");
        reveal_strlit("{\"workspace\":");
        assert("<skyhook_context>\n{\"workspace\":"@ =~= "<skyhook_context>\n"@ + "{\"workspace\":"@);
        assert(last =~= "<skyhook_context>\n"@ + context_json(*location, *target, targets)
            + "\n</skyhook_context>"@);
    }
    let ghost earlier = parts@;
    parts.push(context);
    assert(model::views(parts@) =~= model::views(earlier).push(last));
    assert(model::views(parts@) =~= goal);
    SystemSegment { text: text::join(&parts, "\n\n"), cache: true }
}

/// Whether a text stays on one line.
pub open spec fn one_line(content: Seq<char>) -> bool {
    forall|i: int| 0 <= i < content.len() ==> #[trigger] content[i] != '\n'
}

proof fn lemma_one_line_concat(left: Seq<char>, right: Seq<char>)
    requires
        one_line(left),
        one_line(right),
    ensures
        one_line(left + right),
{
    assert forall|i: int| 0 <= i < (left + right).len() implies #[trigger] (left + right)[i] != '\n' by {
        if i < left.len() {
            assert((left + right)[i] == left[i]);
        } else {
            assert((left + right)[i] == right[i - left.len()]);
        }
    }
}

proof fn lemma_decimal_line(value: nat)
    ensures
        one_line(text::decimal(value)),
{
    text::lemma_decimal_ascii(value);
}

/// A quoted text stays on one line, whatever it holds.
pub proof fn quotes_stay_on_one_line(value: Seq<char>)
    ensures
        one_line(text::json_string(value)),
{
    lemma_escaped_line(value);
    lemma_one_line_concat(seq!['"'], text::json_escaped(value));
    lemma_one_line_concat(seq!['"'] + text::json_escaped(value), seq!['"']);
}

proof fn lemma_escaped_line(value: Seq<char>)
    ensures
        one_line(text::json_escaped(value)),
    decreases value.len(),
{
    if value.len() > 0 {
        lemma_escaped_line(value.drop_last());
        assert(one_line(text::json_escape(value.last())));
        lemma_one_line_concat(text::json_escaped(value.drop_last()), text::json_escape(value.last()));
    }
}

proof fn lemma_cell_line(value: Seq<char>)
    ensures
        one_line(cell_text(value)),
{
    quotes_stay_on_one_line(value);
}

proof fn lemma_identity_line(job: ActiveJob, parent: Option<JobId>)
    ensures
        one_line(identity_text(job, parent)),
{
    reveal_strlit(" ");
    reveal_strlit("-");
    let number = text::decimal(job.job.spec_number() as nat);
    lemma_decimal_line(job.job.spec_number() as nat);
    if let Some(owner) = parent {
        lemma_decimal_line(owner.spec_number() as nat);
    }
    lemma_cell_line(job.tool@);
    if let Some(name) = job.name {
        lemma_cell_line(name@);
    }
    lemma_one_line_concat(number, " "@);
    lemma_one_line_concat(number + " "@, parent_text(parent));
    lemma_one_line_concat(number + " "@ + parent_text(parent), " "@);
    let head = number + " "@ + parent_text(parent) + " "@;
    lemma_one_line_concat(head, cell_text(job.tool@));
    lemma_one_line_concat(head + cell_text(job.tool@), " "@);
    lemma_one_line_concat(head + cell_text(job.tool@) + " "@, name_text(job.name));
}

proof fn lemma_state_line(state: JobState)
    ensures
        one_line(state.spec_name()),
{
    reveal_strlit("running");
    reveal_strlit("waiting_input");
    reveal_strlit("completed");
    reveal_strlit("failed");
    reveal_strlit("cancelled");
    reveal_strlit("interrupted");
}

proof fn lemma_activity_line(job: ActiveJob)
    ensures
        one_line(activity_text(job)),
{
    reveal_strlit(" ");
    reveal_strlit(" - -");
    lemma_state_line(job.state);
    lemma_decimal_line(job.age_seconds as nat);
    if let Some(counters) = job.progress {
        lemma_decimal_line(counters.turns as nat);
        lemma_decimal_line(counters.tool_calls as nat);
        let turns = " "@ + text::decimal(counters.turns as nat);
        lemma_one_line_concat(" "@, text::decimal(counters.turns as nat));
        lemma_one_line_concat(turns, " "@);
        lemma_one_line_concat(turns + " "@, text::decimal(counters.tool_calls as nat));
    }
    let head = " "@ + job.state.spec_name();
    lemma_one_line_concat(" "@, job.state.spec_name());
    lemma_one_line_concat(head, " "@);
    lemma_one_line_concat(head + " "@, text::decimal(job.age_seconds as nat));
    lemma_one_line_concat(head + " "@ + text::decimal(job.age_seconds as nat), progress_text(job.progress));
}

proof fn lemma_override_line(own: ActiveJobLocation, location: ExecutionLocation)
    ensures
        one_line(override_text(own, location)),
{
    reveal_strlit(" target=");
    reveal_strlit(" workspace=");
    let empty: Seq<char> = seq![];
    let target = match own.target {
        Some(target) => if target@ != location.target@ {
            " target="@ + text::json_string(target@)
        } else {
            empty
        },
        None => empty,
    };
    if let Some(name) = own.target {
        quotes_stay_on_one_line(name@);
        lemma_one_line_concat(" target="@, text::json_string(name@));
    }
    quotes_stay_on_one_line(own.workspace@);
    lemma_one_line_concat(" workspace="@, text::json_string(own.workspace@));
    lemma_one_line_concat(
        target,
        if !instructions::same_path(own.workspace@, location.workspace@) {
            " workspace="@ + text::json_string(own.workspace@)
        } else {
            empty
        },
    );
}

/// A job takes exactly one line, whatever its texts hold: they cannot change the
/// structure of the rows.
pub proof fn rows_are_single_lines(job: ActiveJob, parent: Option<JobId>, location: ExecutionLocation)
    ensures
        job_row(job, parent, location).len() > 0,
        job_row(job, parent, location).last() == '\n',
        one_line(job_row(job, parent, location).drop_last()),
{
    reveal_strlit("\n");
    lemma_identity_line(job, parent);
    lemma_activity_line(job);
    lemma_override_line(job.location, location);
    let head = identity_text(job, parent) + activity_text(job);
    let content = head + override_text(job.location, location);
    lemma_one_line_concat(identity_text(job, parent), activity_text(job));
    lemma_one_line_concat(head, override_text(job.location, location));
    assert(job_row(job, parent, location).drop_last() =~= content);
}

/// A cell shows its text as it is where that can stand bare, and quoted otherwise. It is
/// never the placeholder for what is absent.
pub proof fn cells_are_no_placeholders(value: Seq<char>)
    ensures
        cell_text(value) != "-"@,
        cell_text(value) == value || cell_text(value) == text::json_string(value),
        cell_text(value).len() > 0,
        value.len() == 0 || value == "-"@ ==> cell_text(value) == text::json_string(value),
        (exists|i: int|
            0 <= i < value.len() && ((#[trigger] value[i]) == ' ' || value[i] == '\n' || value[i] == '"' || value[i]
                == '='))  ==> cell_text(value) == text::json_string(value),
{
    reveal_strlit("-");
    let quoted = text::json_string(value);
    assert(quoted.len() >= 2);
}

/// The columns of a job's row, in the order of the header.
pub open spec fn row_columns(job: ActiveJob, parent: Option<JobId>) -> Seq<Seq<char>> {
    seq![
        text::decimal(job.job.spec_number() as nat),
        match parent {
            Some(owner) => text::decimal(owner.spec_number() as nat),
            None => "-"@,
        },
        cell_text(job.tool@),
        match job.name {
            Some(name) => cell_text(name@),
            None => "-"@,
        },
        job.state.spec_name(),
        text::decimal(job.age_seconds as nat),
        match job.progress {
            Some(progress) => text::decimal(progress.turns as nat),
            None => "-"@,
        },
        match job.progress {
            Some(progress) => text::decimal(progress.tool_calls as nat),
            None => "-"@,
        },
    ]
}

/// The row of a job has its columns in the order of the header, separated by spaces, then
/// what differs from the agent's own location, and ends its line.
pub proof fn rows_have_the_columns_of_the_header(job: ActiveJob, parent: Option<JobId>, location: ExecutionLocation)
    ensures
        job_row(job, parent, location) == text::joined(row_columns(job, parent), " "@) + override_text(
            job.location,
            location,
        ) + "\n"@,
{
    let id = text::decimal(job.job.spec_number() as nat);
    let owner = match parent {
        Some(owner) => text::decimal(owner.spec_number() as nat),
        None => "-"@,
    };
    let tool = cell_text(job.tool@);
    let name = match job.name {
        Some(name) => cell_text(name@),
        None => "-"@,
    };
    let state = job.state.spec_name();
    let age = text::decimal(job.age_seconds as nat);
    let turns = match job.progress {
        Some(progress) => text::decimal(progress.turns as nat),
        None => "-"@,
    };
    let calls = match job.progress {
        Some(progress) => text::decimal(progress.tool_calls as nat),
        None => "-"@,
    };
    assert(progress_text(job.progress) =~= " "@ + turns + " "@ + calls) by {
        reveal_strlit(" ");
        reveal_strlit("-");
        reveal_strlit(" - -");
    }
    lemma_eight_columns(id, owner, tool, name, state, age, turns, calls, " "@);
    lemma_regrouped(identity_text(job, parent), state, age, turns, calls, " "@);
    let columns = text::joined(seq![id, owner, tool, name, state, age, turns, calls], " "@);
    let counters = progress_text(job.progress);
    assert(counters == " "@ + turns + " "@ + calls);
    assert(activity_text(job) == " "@ + state + " "@ + age + counters);
    assert(identity_text(job, parent) == id + " "@ + owner + " "@ + tool + " "@ + name);
    assert(identity_text(job, parent) + activity_text(job) == columns);
    assert(row_columns(job, parent) =~= seq![id, owner, tool, name, state, age, turns, calls]);
    assert(job_row(job, parent, location) == columns + override_text(job.location, location) + "\n"@);
}

proof fn lemma_eight_columns(
    a: Seq<char>,
    b: Seq<char>,
    c: Seq<char>,
    d: Seq<char>,
    e: Seq<char>,
    f: Seq<char>,
    g: Seq<char>,
    h: Seq<char>,
    separator: Seq<char>,
)
    ensures
        text::joined(seq![a, b, c, d, e, f, g, h], separator) == a + separator + b + separator + c + separator + d
            + separator + e + separator + f + separator + g + separator + h,
{
    let s0 = Seq::<Seq<char>>::empty();
    let s1 = s0.push(a);
    let s2 = s1.push(b);
    let s3 = s2.push(c);
    let s4 = s3.push(d);
    let s5 = s4.push(e);
    let s6 = s5.push(f);
    let s7 = s6.push(g);
    text::joins_lose_nothing(s0, a, separator);
    text::joins_lose_nothing(s1, b, separator);
    text::joins_lose_nothing(s2, c, separator);
    text::joins_lose_nothing(s3, d, separator);
    text::joins_lose_nothing(s4, e, separator);
    text::joins_lose_nothing(s5, f, separator);
    text::joins_lose_nothing(s6, g, separator);
    text::joins_lose_nothing(s7, h, separator);
    assert(seq![a, b, c, d, e, f, g, h] =~= s7.push(h));
}

proof fn lemma_regrouped(
    start: Seq<char>,
    a: Seq<char>,
    b: Seq<char>,
    c: Seq<char>,
    d: Seq<char>,
    separator: Seq<char>,
)
    ensures
        start + (separator + a + separator + b + (separator + c + separator + d)) == start + separator + a + separator
            + b + separator + c + separator + d,
{
    assert(start + (separator + a + separator + b + (separator + c + separator + d)) =~= start + separator + a
        + separator + b + separator + c + separator + d);
}

/// The header names the columns of the rows.
pub proof fn headers_name_the_columns(jobs: Seq<ActiveJob>, location: ExecutionLocation)
    ensures
        jobs.len() == 0 ==> job_section(jobs, location).len() == 0,
        jobs.len() > 0 ==> job_section(jobs, location) == "jobs: "@ + "job parent tool name state age_s turns tool_calls"@
            + "\n"@ + job_rows(jobs, None, location),
{
    reveal_strlit("jobs: ");
    reveal_strlit("job parent tool name state age_s turns tool_calls");
    reveal_strlit("\n");
    reveal_strlit("jobs: job parent tool name state age_s turns tool_calls\n");
    assert("jobs: job parent tool name state age_s turns tool_calls\n"@ =~= "jobs: "@
        + "job parent tool name state age_s turns tool_calls"@ + "\n"@);
}

/// Every job has a row, and the rows of its children, who name it as their parent, follow
/// it at once. All rows are held against the location of the agent.
pub proof fn children_follow_their_parents(
    jobs: Seq<ActiveJob>,
    job: ActiveJob,
    parent: Option<JobId>,
    location: ExecutionLocation,
)
    ensures
        job_rows(seq![], parent, location).len() == 0,
        job_rows(jobs.push(job), parent, location) == job_rows(jobs, parent, location) + job_row(
            job,
            parent,
            location,
        ) + job_rows(job.children@, Some(job.job), location),
{
    assert(jobs.push(job).drop_last() =~= jobs);
}

/// A job shows its target and its workspace where they differ from those of its agent, and
/// neither where they do not or may not be known.
pub proof fn only_differences_are_shown(own: ActiveJobLocation, location: ExecutionLocation)
    ensures
        ({
            let away = own.target is Some && own.target->0@ != location.target@;
            let elsewhere = !instructions::same_path(own.workspace@, location.workspace@);
            let target = " target="@ + text::json_string(own.target->0@);
            let workspace = " workspace="@ + text::json_string(own.workspace@);
            &&& !away && !elsewhere ==> override_text(own, location).len() == 0
            &&& away && !elsewhere ==> override_text(own, location) == target
            &&& !away && elsewhere ==> override_text(own, location) == workspace
            &&& away && elsewhere ==> override_text(own, location) == target + workspace
        }),
{
    let none = Seq::<char>::empty();
    if own.target is Some {
        assert(" target="@ + text::json_string(own.target->0@) + none =~= " target="@ + text::json_string(
            own.target->0@,
        ));
    }
    assert(none + (" workspace="@ + text::json_string(own.workspace@)) =~= " workspace="@ + text::json_string(
        own.workspace@,
    ));
}

/// Every todo is shown in its place, with its text quoted, under a heading that names its
/// status. The heading stands once for those that follow each other with one status.
pub proof fn todos_stand_under_their_status(todos: Seq<TodoItemView>, item: TodoItemView)
    ensures
        todo_rows(seq![]).len() == 0,
        ({
            let line = "  "@ + text::json_string(item.text) + "\n"@;
            let name = match item.status {
                TodoStatus::Pending => "pending"@,
                TodoStatus::InProgress => "in_progress"@,
                TodoStatus::Completed => "completed"@,
            };
            todo_rows(todos.push(item)) == if todos.len() > 0 && todos.last().status == item.status {
                todo_rows(todos) + line
            } else {
                todo_rows(todos) + (name + ":\n"@) + line
            }
        }),
{
    let more = todos.push(item);
    assert(more.drop_last() =~= todos);
    assert(more.last() == item);
    let line = "  "@ + text::json_string(item.text) + "\n"@;
    if todos.len() > 0 {
        assert(more[more.len() - 2] == todos.last());
    }
    let heading = if todos.len() > 0 && todos.last().status == item.status {
        seq![]
    } else {
        status_text(item.status) + ":\n"@
    };
    assert(todo_rows(more) == todo_rows(todos) + heading + "  "@ + text::json_string(item.text) + "\n"@);
    assert(todo_rows(more) =~= todo_rows(todos) + heading + line);
    if heading.len() == 0 {
        assert(todo_rows(todos) + heading + line =~= todo_rows(todos) + line);
    }
}

/// The state shows the date, then the jobs, then the todos, each section only where it has
/// entries.
pub proof fn states_show_date_jobs_and_todos(
    date: Seq<char>,
    jobs: Seq<ActiveJob>,
    todos: Seq<TodoItemView>,
    location: ExecutionLocation,
)
    ensures
        ({
            let head = "<skyhook_state>\ndate:"@ + date + "\n"@;
            let rows = job_section(jobs, location);
            let items = "todos:\n"@ + todo_rows(todos);
            let tail = "</skyhook_state>"@;
            &&& todos.len() > 0 ==> state_text(date, jobs, todos, location) == head + rows + items + tail
            &&& todos.len() == 0 ==> state_text(date, jobs, todos, location) == head + rows + tail
            &&& jobs.len() == 0 && todos.len() == 0 ==> state_text(date, jobs, todos, location) == head + tail
        }),
{
    let head = "<skyhook_state>\ndate:"@ + date + "\n"@;
    let rows = job_section(jobs, location);
    let tail = "</skyhook_state>"@;
    if todos.len() == 0 {
        assert(head + rows + Seq::<char>::empty() + tail =~= head + rows + tail);
    }
    if jobs.len() == 0 && todos.len() == 0 {
        assert(head + Seq::<char>::empty() + Seq::<char>::empty() + tail =~= head + tail);
    }
}

/// An agent that may not know targets is told its workspace only: nothing of its target
/// shows.
pub proof fn hidden_targets_do_not_show(
    location: ExecutionLocation,
    other: ExecutionLocation,
    target: Option<TargetInfo>,
    another: Option<TargetInfo>,
)
    ensures
        location.workspace@ == other.workspace@ ==> context_json(location, target, false) == context_json(
            other,
            another,
            false,
        ),
        context_json(location, target, false) == "{\"workspace\":"@ + text::json_string(location.workspace@) + "}"@,
        context_json(location, target, true) == "{\"workspace\":"@ + text::json_string(location.workspace@)
            + ",\"target\":"@ + target_json(location.target@, target) + "}"@,
{
    let stem = "{\"workspace\":"@ + text::json_string(location.workspace@);
    assert(stem + Seq::<char>::empty() =~= stem);
    assert(stem + (",\"target\":"@ + target_json(location.target@, target)) + "}"@ =~= stem + ",\"target\":"@
        + target_json(location.target@, target) + "}"@);
}

/// A target shows its name, its type, its host, where it was defined and what it is reached
/// through. The host of the session is a local target that is reached through none.
pub proof fn targets_show_what_is_known(name: Seq<char>, target: TargetInfo)
    ensures
        target_json(name, Some(target)) == "{\"name\":"@ + text::json_string(name) + ",\"type\":"@ + text::json_string(
            target.kind@,
        ) + ",\"host\":"@ + text::json_string(target.host@) + ",\"origin\":"@ + text::json_string(target.origin@)
            + ",\"via\":"@ + (match target.via {
            Some(via) => text::json_string(via@),
            None => "null"@,
        }) + "}"@,
        target_json(name, None) == "{\"name\":"@ + text::json_string(name) + ",\"type\":"@ + text::json_string("local"@)
            + ",\"host\":"@ + text::json_string("localhost"@) + ",\"origin\":"@ + text::json_string("root"@)
            + ",\"via\":"@ + "null"@ + "}"@,
{
}

/// What an agent is told of targets and of children goes with the capability for it, in the
/// order of the capabilities. No other capability adds anything.
pub proof fn capabilities_bring_their_instructions(
    capabilities: Seq<Capability>,
    capability: Capability,
    available_depth: nat,
)
    ensures
        capability_texts(seq![], available_depth).len() == 0,
        ({
            let before = capability_texts(capabilities, available_depth);
            let after = capability_texts(capabilities.push(capability), available_depth);
            match capability {
                Capability::Targets => after == before.push(TARGET_PROMPT@),
                Capability::Agents => after == before.push(
                    AGENT_PROMPT@ + "\n\n<agent_context>\n{\"available_depth\":"@ + text::decimal(available_depth)
                        + "}\n</agent_context>"@,
                ),
                _ => after == before,
            }
        }),
{
    assert(capabilities.push(capability).drop_last() =~= capabilities);
}

/// An agent's instructions begin with how it works, which differs for a root and a child,
/// and with what holds for every agent. Then come those of its capabilities, then the
/// configured ones as they are and in their order, and at the end where it works.
pub proof fn instructions_come_in_order(
    instructions: Seq<Seq<char>>,
    agent: AgentPath,
    location: ExecutionLocation,
    target: Option<TargetInfo>,
    available_depth: nat,
    capabilities: Seq<Capability>,
    job_view: Seq<char>,
    index: int,
)
    requires
        0 <= index < instructions.len(),
    ensures
        ({
            let parts = system_parts(
                instructions,
                agent,
                location,
                target,
                available_depth,
                capabilities,
                job_view,
            );
            let added = capability_texts(capabilities, available_depth);
            &&& parts.len() == 6 + added.len() + instructions.len()
            &&& agent.path.len() == 0 ==> parts[0] == ROOT_PROMPT@
            &&& agent.path.len() > 0 ==> parts[0] == CHILD_PROMPT@
            &&& parts[1] == WORKSPACE_PROMPT@
            &&& parts[2] == TODO_PROMPT@
            &&& parts[3] == STATE_PROMPT@
            &&& parts[4] == LIFECYCLE_PROMPT@ + "\n\nDirect tool result type: JobView = `"@ + job_view + "`."@
            &&& parts.subrange(5, 5 + added.len() as int) == added
            &&& parts[5 + added.len() as int + index] == instructions[index]
            &&& parts.last() == "<skyhook_context>\n"@ + context_json(
                location,
                target,
                capabilities.contains(Capability::Targets),
            ) + "\n</skyhook_context>"@
        }),
{
    let parts = system_parts(instructions, agent, location, target, available_depth, capabilities, job_view);
    let added = capability_texts(capabilities, available_depth);
    assert(parts.subrange(5, 5 + added.len() as int) =~= added);
}

/// Names of letters, digits and the usual separators stand bare, so that common names are
/// shown as they are.
pub proof fn common_names_stand_bare(value: Seq<char>)
    requires
        value.len() > 0,
        value != "-"@,
        forall|i: int|
            0 <= i < value.len() ==> ('a' <= (#[trigger] value[i]) <= 'z' || 'A' <= value[i] <= 'Z' || '0' <= value[i]
                <= '9' || value[i] == '_' || value[i] == '-' || value[i] == '.' || value[i] == '/'),
    ensures
        cell_text(value) == value,
{
}

/// Whatever else a name holds has it quoted.
pub proof fn other_names_are_quoted(value: Seq<char>, index: int)
    requires
        0 <= index < value.len(),
        !('a' <= value[index] <= 'z' || 'A' <= value[index] <= 'Z' || '0' <= value[index] <= '9' || value[index] == '_'
            || value[index] == '-' || value[index] == '.' || value[index] == '/'),
    ensures
        cell_text(value) == text::json_string(value),
{
    assert(!bare_character(value[index]));
}

} // verus!
