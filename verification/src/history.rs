//! Read-only recovery of the caller's original conversation after compaction.

use vstd::prelude::*;
use vstd::string::*;
use vstd::utf8;
use crate::error::ToolError;
use crate::identity::{AgentId, AgentPath};
use crate::journal::{EventRecord, SessionEvent};
use crate::json;
use crate::json::pretty_text;
use crate::model;
use crate::model::Modeled;
use crate::protocol::{
    AssistantContent, AssistantContentView, Message, MessageView, ToolResult, ToolResultView, UserContent,
    UserContentView,
};
use crate::text;

verus! {

/// Bytes that a page of history takes at most.
pub const MAX_OUTPUT_BYTES: usize = 8192;

/// Chunks of a page where the caller names no limit.
pub const DEFAULT_LIMIT: usize = 20;

/// Most chunks that a caller may ask for.
pub const MAX_LIMIT: usize = 100;

/// What to read of the history.
#[derive(Clone, Debug, PartialEq, Eq)]
pub struct HistoryArgs {
    /// Exact source reference, such as m42/b0, m43/b0/result, or c50/b0. Omit to browse all your history.
    pub source: Option<String>,
    /// Literal case-insensitive text filter. Keep the same filter while paging.
    pub query: Option<String>,
    /// Byte cursor returned by the previous page; with source, this is an offset within that source.
    pub cursor: Option<usize>,
    /// Last journal sequence in the snapshot. Reuse the returned through value when paging.
    pub through: Option<u64>,
    /// Maximum text chunks, from 1 to 100; defaults to 20. Responses are also limited to 8 KiB.
    pub limit: Option<usize>,
}

/// A chunk of the history.
#[derive(Clone, Debug, PartialEq, Eq)]
pub struct HistoryEntry {
    pub source: String,
    /// Byte offset within this original source.
    pub offset: usize,
    pub text: String,
}

/// The mathematical content of a `HistoryEntry`.
#[verifier::ext_equal]
pub struct EntryView {
    pub source: Seq<char>,
    pub offset: nat,
    pub text: Seq<char>,
}

impl View for HistoryEntry {
    type V = EntryView;

    open spec fn view(&self) -> EntryView {
        EntryView { source: self.source@, offset: self.offset as nat, text: self.text@ }
    }
}

/// A page of history.
#[derive(Clone, Debug, PartialEq, Eq)]
pub struct HistoryOutput {
    pub entries: Vec<HistoryEntry>,
    pub next_cursor: Option<usize>,
    pub through: u64,
}

/// Where a block of a message is found.
pub open spec fn block_reference(prefix: Seq<char>, index: nat, part: Seq<char>) -> Seq<char> {
    prefix + "/b"@ + text::decimal(index) + part
}

/// What the history shows of a user block: not the transient state, nor images.
pub open spec fn user_shown(block: UserContentView) -> Option<Seq<char>> {
    match block {
        UserContentView::Text { text } => Some(text),
        UserContentView::ParentInput { text } => Some(text),
        UserContentView::Compaction { text } => Some(text),
        UserContentView::Runtime { text } => if "<skyhook_state>"@.is_prefix_of(text) {
            None
        } else {
            Some(text)
        },
        UserContentView::Image { .. } => None,
    }
}

/// What the history shows of user blocks.
pub open spec fn user_texts(prefix: Seq<char>, blocks: Seq<UserContentView>) -> Seq<(Seq<char>, Seq<char>)>
    decreases blocks.len(),
{
    if blocks.len() == 0 {
        seq![]
    } else {
        let earlier = user_texts(prefix, blocks.drop_last());
        match user_shown(blocks.last()) {
            Some(text) => earlier.push((block_reference(prefix, (blocks.len() - 1) as nat, seq![]), text)),
            None => earlier,
        }
    }
}

/// What the history shows of assistant blocks: no reasoning.
pub open spec fn assistant_texts(prefix: Seq<char>, blocks: Seq<AssistantContentView>) -> Seq<
    (Seq<char>, Seq<char>),
>
    decreases blocks.len(),
{
    if blocks.len() == 0 {
        seq![]
    } else {
        let earlier = assistant_texts(prefix, blocks.drop_last());
        let index = (blocks.len() - 1) as nat;
        match blocks.last() {
            AssistantContentView::Text { text } => earlier.push(
                (block_reference(prefix, index, seq![]), text),
            ),
            AssistantContentView::ToolCall(call) => earlier.push(
                (block_reference(prefix, index, "/arguments"@), json::pretty(call.arguments)),
            ),
            AssistantContentView::Reasoning { .. } => earlier,
        }
    }
}

/// What the history shows of tool results.
pub open spec fn result_texts(prefix: Seq<char>, results: Seq<ToolResultView>) -> Seq<(Seq<char>, Seq<char>)>
    decreases results.len(),
{
    if results.len() == 0 {
        seq![]
    } else {
        let index = (results.len() - 1) as nat;
        result_texts(prefix, results.drop_last()).push(
            (block_reference(prefix, index, "/result"@), json::pretty(results.last().result)),
        ).push((block_reference(prefix, index, "/console"@), results.last().console_output))
    }
}

/// What the history shows of a message.
pub open spec fn message_texts(prefix: Seq<char>, message: MessageView) -> Seq<(Seq<char>, Seq<char>)> {
    match message {
        MessageView::User(blocks) => user_texts(prefix, blocks),
        MessageView::Assistant(blocks) => assistant_texts(prefix, blocks),
        MessageView::Tool(results) => result_texts(prefix, results),
    }
}

/// What the history shows of a record: committed messages, and those of compactions.
pub open spec fn record_texts(record: EventRecord, agent: AgentPath) -> Seq<(Seq<char>, Seq<char>)> {
    if record.agent@ != agent {
        seq![]
    } else {
        match record.event {
            SessionEvent::MessageCommitted { message } => message_texts(
                "m"@ + text::decimal(record.sequence as nat),
                message@,
            ),
            SessionEvent::Compaction { checkpoint } => message_texts(
                "c"@ + text::decimal(record.sequence as nat),
                checkpoint.message@,
            ),
            _ => seq![],
        }
    }
}

/// The history of an agent: references with their texts.
pub open spec fn corpus_texts(records: Seq<EventRecord>, agent: AgentPath) -> Seq<(Seq<char>, Seq<char>)>
    decreases records.len(),
{
    if records.len() == 0 {
        seq![]
    } else {
        corpus_texts(records.drop_last(), agent) + record_texts(records.last(), agent)
    }
}

/// The contents of references with their texts.
pub open spec fn pairs(entries: Seq<(String, String)>) -> Seq<(Seq<char>, Seq<char>)> {
    entries.map_values(|entry: (String, String)| (entry.0@, entry.1@))
}

/// Writes where a block of a message is found.
fn reference_text(prefix: &String, index: usize, part: &str) -> (reference: String)
    ensures
        reference@ == block_reference(prefix@, index as nat, part@),
{
    let mut reference = prefix.clone();
    reference.append("/b");
    text::push_decimal(&mut reference, index as u64);
    reference.append(part);
    reference
}

/// Adds a reference with its text.
fn push_pair(texts: &mut Vec<(String, String)>, reference: String, content: String)
    ensures
        pairs(final(texts)@) == pairs(old(texts)@).push((reference@, content@)),
{
    let ghost before = texts@;
    texts.push((reference, content));
    assert(pairs(texts@) =~= pairs(before).push((reference@, content@)));
}

/// Adds what the history shows of user blocks.
fn push_user(texts: &mut Vec<(String, String)>, prefix: &String, blocks: &Vec<UserContent>)
    ensures
        pairs(final(texts)@) == pairs(old(texts)@) + user_texts(prefix@, model::views(blocks@)),
{
    let ghost before = pairs(texts@);
    let ghost all = model::views(blocks@);
    let mut i: usize = 0;
    assert(before + user_texts(prefix@, all.take(0)) =~= before);
    while i < blocks.len()
        invariant
            i <= blocks.len(),
            all == model::views(blocks@),
            pairs(texts@) == before + user_texts(prefix@, all.take(i as int)),
        decreases blocks.len() - i,
    {
        proof {
            reveal_strlit("");
            assert(""@ =~= seq![]);
            assert(all.take(i + 1).drop_last() =~= all.take(i as int));
            assert(all.take(i + 1).last() == blocks@[i as int]@);
        }
        match &blocks[i] {
            UserContent::Text { text } => {
                push_pair(texts, reference_text(prefix, i, ""), text.clone());
            },
            UserContent::ParentInput { text } => {
                push_pair(texts, reference_text(prefix, i, ""), text.clone());
            },
            UserContent::Compaction { text } => {
                push_pair(texts, reference_text(prefix, i, ""), text.clone());
            },
            UserContent::Runtime { text } => {
                let state = text::strip_prefix(text.as_str(), "<skyhook_state>");
                proof {
                    if let Some(rest) = state {
                        assert(text@.subrange(0, "<skyhook_state>"@.len() as int) =~= "<skyhook_state>"@);
                    }
                }
                if state.is_none() {
                    push_pair(texts, reference_text(prefix, i, ""), text.clone());
                }
            },
            UserContent::Image { .. } => {},
        }
        assert(pairs(texts@) =~= before + user_texts(prefix@, all.take(i + 1)));
        i += 1;
    }
    assert(all.take(i as int) =~= all);
}

/// Adds what the history shows of assistant blocks.
fn push_assistant(texts: &mut Vec<(String, String)>, prefix: &String, blocks: &Vec<AssistantContent>)
    ensures
        pairs(final(texts)@) == pairs(old(texts)@) + assistant_texts(prefix@, model::views(blocks@)),
{
    let ghost before = pairs(texts@);
    let ghost all = model::views(blocks@);
    let mut i: usize = 0;
    assert(before + assistant_texts(prefix@, all.take(0)) =~= before);
    while i < blocks.len()
        invariant
            i <= blocks.len(),
            all == model::views(blocks@),
            pairs(texts@) == before + assistant_texts(prefix@, all.take(i as int)),
        decreases blocks.len() - i,
    {
        proof {
            reveal_strlit("");
            assert(""@ =~= seq![]);
            assert(all.take(i + 1).drop_last() =~= all.take(i as int));
            assert(all.take(i + 1).last() == blocks@[i as int]@);
        }
        match &blocks[i] {
            AssistantContent::Text { text } => {
                push_pair(texts, reference_text(prefix, i, ""), text.clone());
            },
            AssistantContent::ToolCall(call) => {
                push_pair(texts, reference_text(prefix, i, "/arguments"), pretty_text(&call.arguments));
            },
            AssistantContent::Reasoning { .. } => {},
        }
        assert(pairs(texts@) =~= before + assistant_texts(prefix@, all.take(i + 1)));
        i += 1;
    }
    assert(all.take(i as int) =~= all);
}

/// Adds what the history shows of tool results.
fn push_results(texts: &mut Vec<(String, String)>, prefix: &String, results: &Vec<ToolResult>)
    ensures
        pairs(final(texts)@) == pairs(old(texts)@) + result_texts(prefix@, model::views(results@)),
{
    let ghost before = pairs(texts@);
    let ghost all = model::views(results@);
    let mut i: usize = 0;
    assert(before + result_texts(prefix@, all.take(0)) =~= before);
    while i < results.len()
        invariant
            i <= results.len(),
            all == model::views(results@),
            pairs(texts@) == before + result_texts(prefix@, all.take(i as int)),
        decreases results.len() - i,
    {
        proof {
            assert(all.take(i + 1).drop_last() =~= all.take(i as int));
            assert(all.take(i + 1).last() == results@[i as int]@);
        }
        push_pair(texts, reference_text(prefix, i, "/result"), pretty_text(&results[i].result));
        push_pair(texts, reference_text(prefix, i, "/console"), results[i].console_output.clone());
        assert(pairs(texts@) =~= before + result_texts(prefix@, all.take(i + 1)));
        i += 1;
    }
    assert(all.take(i as int) =~= all);
}

/// Collects the history of an agent.
pub fn corpus(records: &Vec<EventRecord>, agent: &AgentId) -> (texts: Vec<(String, String)>)
    ensures
        pairs(texts@) == corpus_texts(records@, agent@),
{
    let mut texts: Vec<(String, String)> = Vec::new();
    let mut i: usize = 0;
    assert(pairs(texts@) =~= seq![]);
    while i < records.len()
        invariant
            i <= records.len(),
            pairs(texts@) == corpus_texts(records@.take(i as int), agent@),
        decreases records.len() - i,
    {
        let record = &records[i];
        proof {
            assert(records@.take(i + 1).drop_last() =~= records@.take(i as int));
            assert(records@.take(i + 1).last() == *record);
        }
        let ghost earlier = pairs(texts@);
        if record.agent.same(agent) {
            let found: Option<(&str, &Message)> = match &record.event {
                SessionEvent::MessageCommitted { message } => Some(("m", message)),
                SessionEvent::Compaction { checkpoint } => Some(("c", &checkpoint.message)),
                _ => None,
            };
            if let Some((kind, message)) = found {
                let mut prefix = kind.to_owned();
                text::push_decimal(&mut prefix, record.sequence);
                match message {
                    Message::User(blocks) => push_user(&mut texts, &prefix, blocks),
                    Message::Assistant(blocks) => push_assistant(&mut texts, &prefix, blocks),
                    Message::Tool(results) => push_results(&mut texts, &prefix, results),
                }
            }
        }
        assert(pairs(texts@) =~= earlier + record_texts(*record, agent@));
        i += 1;
    }
    assert(records@.take(i as int) =~= records@);
    texts
}

/// The records up to a sequence.
pub open spec fn snapshot(records: Seq<EventRecord>, through: u64) -> Seq<EventRecord> {
    model::selected(records, |record: EventRecord| record.sequence <= through)
}

/// Takes the records up to a sequence.
pub fn take_through(records: Vec<EventRecord>, through: u64) -> (left: Vec<EventRecord>)
    ensures
        left@ == snapshot(records@, through),
{
    let ghost test = |record: EventRecord| record.sequence <= through;
    let mut left: Vec<EventRecord> = Vec::new();
    for record in it: records
        invariant
            it.seq() == records@,
            test == (|record: EventRecord| record.sequence <= through),
            left@ == model::selected(records@.take(it.index() as int), test),
    {
        proof {
            model::lemma_selected_step(records@, test, it.index() as int);
        }
        if record.sequence <= through {
            left.push(record);
        }
    }
    assert(records@.take(records@.len() as int) =~= records@);
    left
}

/// A chunk as JSON.
pub open spec fn entry_json(entry: EntryView) -> Seq<char> {
    "{\"source\":"@ + text::json_string(entry.source) + ",\"offset\":"@ + text::decimal(entry.offset)
        + ",\"text\":"@ + text::json_string(entry.text) + "}"@
}

/// Chunks as JSON, separated by commas.
pub open spec fn entries_json(entries: Seq<EntryView>) -> Seq<char>
    decreases entries.len(),
{
    if entries.len() == 0 {
        seq![]
    } else if entries.len() == 1 {
        entry_json(entries.last())
    } else {
        entries_json(entries.drop_last()) + ","@ + entry_json(entries.last())
    }
}

/// A cursor as JSON.
pub open spec fn cursor_json(cursor: Option<nat>) -> Seq<char> {
    match cursor {
        Some(value) => text::decimal(value),
        None => "null"@,
    }
}

/// A page as JSON.
pub open spec fn page_json(entries: Seq<EntryView>, cursor: Option<nat>, through: nat) -> Seq<char> {
    "{\"entries\":["@ + entries_json(entries) + "],\"next_cursor\":"@ + cursor_json(cursor)
        + ",\"through\":"@ + text::decimal(through) + "}"@
}

/// A cursor as a number.
pub open spec fn cursor_view(cursor: Option<usize>) -> Option<nat> {
    match cursor {
        Some(value) => Some(value as nat),
        None => None,
    }
}

impl HistoryOutput {
    /// Writes the page as JSON.
    pub fn to_json(&self) -> (notation: String)
        ensures
            notation@ == page_json(
                model::views(self.entries@),
                cursor_view(self.next_cursor),
                self.through as nat,
            ),
    {
        let ghost all = model::views(self.entries@);
        let mut notation = "{\"entries\":[".to_owned();
        let ghost opening = notation@;
        let mut i: usize = 0;
        assert(opening + entries_json(all.take(0)) =~= opening);
        while i < self.entries.len()
            invariant
                i <= self.entries.len(),
                all == model::views(self.entries@),
                notation@ == opening + entries_json(all.take(i as int)),
            decreases self.entries.len() - i,
        {
            proof {
                assert(all.take(i + 1).drop_last() =~= all.take(i as int));
                assert(all.take(i + 1).last() == self.entries@[i as int]@);
            }
            if i > 0 {
                notation.append(",");
            }
            notation.append("{\"source\":");
            let source = text::quoted(self.entries[i].source.as_str());
            notation.append(source.as_str());
            notation.append(",\"offset\":");
            text::push_decimal(&mut notation, self.entries[i].offset as u64);
            notation.append(",\"text\":");
            let content = text::quoted(self.entries[i].text.as_str());
            notation.append(content.as_str());
            notation.append("}");
            assert(notation@ =~= opening + entries_json(all.take(i + 1)));
            i += 1;
        }
        assert(all.take(i as int) =~= all);
        notation.append("],\"next_cursor\":");
        match self.next_cursor {
            Some(cursor) => text::push_decimal(&mut notation, cursor as u64),
            None => notation.append("null"),
        }
        notation.append(",\"through\":");
        text::push_decimal(&mut notation, self.through);
        notation.append("}");
        assert(notation@ =~= page_json(all, cursor_view(self.next_cursor), self.through as nat));
        notation
    }
}

/// What a page of history holds, and where the next one begins.
#[verifier::ext_equal]
pub struct PageView {
    pub entries: Seq<EntryView>,
    pub next_cursor: Option<nat>,
}

/// How many bytes of text fit behind the chunks of a page: six bytes cover the JSON
/// escape of each byte. The largest cursor and the frame of a chunk are reserved.
pub open spec fn room(entries: Seq<EntryView>, source: Seq<char>) -> nat {
    let used = text::byte_len(page_json(entries, Some(usize::MAX as nat), u64::MAX as nat)) + text::byte_len(
        source,
    ) + 100;
    if used >= MAX_OUTPUT_BYTES {
        0
    } else {
        ((MAX_OUTPUT_BYTES - used) / 6) as nat
    }
}

/// The last character boundary up to a position.
pub open spec fn boundary_before(bytes: Seq<u8>, position: int) -> int
    decreases position,
{
    if position <= 0 || utf8::is_char_boundary(bytes, position) {
        position
    } else {
        boundary_before(bytes, position - 1)
    }
}

/// Where a chunk ends that begins at an offset and has some room.
pub open spec fn chunk_end(bytes: Seq<u8>, offset: int, available: nat) -> int {
    boundary_before(
        bytes,
        if offset + available < bytes.len() {
            offset + available
        } else {
            bytes.len() as int
        },
    )
}

/// No boundary up to a position lies behind it.
pub proof fn lemma_boundary_at_most(bytes: Seq<u8>, position: int)
    ensures
        boundary_before(bytes, position) <= position,
    decreases position,
{
    if position > 0 {
        lemma_boundary_at_most(bytes, position - 1);
    }
}

/// Fills a page with chunks from a position on, until its limit is reached or there
/// is no room for another character.
pub open spec fn fill(
    matched: Seq<(Seq<char>, Seq<char>)>,
    index: int,
    offset: int,
    cursor: nat,
    entries: Seq<EntryView>,
    limit: nat,
) -> PageView
    decreases matched.len() - index, text::byte_len(matched[index].1) - offset,
{
    if index < 0 || index >= matched.len() {
        PageView { entries, next_cursor: None }
    } else {
        let (source, content) = matched[index];
        let bytes = utf8::encode_utf8(content);
        if offset >= bytes.len() {
            fill(matched, index + 1, 0, cursor, entries, limit)
        } else if entries.len() >= limit || room(entries, source) < 4 {
            PageView { entries, next_cursor: Some(cursor) }
        } else {
            let end = chunk_end(bytes, offset, room(entries, source));
            if end <= offset {
                PageView { entries, next_cursor: Some(cursor) }
            } else {
                let chunk = EntryView {
                    source,
                    offset: offset as nat,
                    text: utf8::decode_utf8(bytes.subrange(offset, end)),
                };
                proof {
                    lemma_boundary_at_most(
                        bytes,
                        if offset + room(entries, source) < bytes.len() {
                            offset + room(entries, source)
                        } else {
                            bytes.len() as int
                        },
                    );
                }
                fill(matched, index, end, (cursor + (end - offset)) as nat, entries.push(chunk), limit)
            }
        }
    }
}

/// The content of a page.
pub open spec fn output_view(output: HistoryOutput) -> PageView {
    PageView { entries: model::views(output.entries@), next_cursor: cursor_view(output.next_cursor) }
}

/// The page that begins at a cursor, which lies in the text at an index.
pub open spec fn page_from(
    matched: Seq<(Seq<char>, Seq<char>)>,
    cursor: nat,
    index: int,
    limit: nat,
) -> PageView {
    fill(matched, index, cursor - total_bytes(matched.take(index)), cursor, seq![], limit)
}

/// Bytes of texts together.
pub open spec fn total_bytes(matched: Seq<(Seq<char>, Seq<char>)>) -> nat
    decreases matched.len(),
{
    if matched.len() == 0 {
        0
    } else {
        total_bytes(matched.drop_last()) + text::byte_len(matched.last().1)
    }
}

/// The text in which a cursor lies, and the bytes before it: the first text that
/// ends behind the cursor.
pub open spec fn located(matched: Seq<(Seq<char>, Seq<char>)>, cursor: nat, index: int) -> bool {
    &&& 0 <= index <= matched.len()
    &&& total_bytes(matched.take(index)) <= cursor
    &&& index < matched.len() ==> cursor < total_bytes(matched.take(index + 1))
}

/// Whether an entry of the history is asked for.
pub open spec fn asked(entry: (Seq<char>, Seq<char>), source: Option<Seq<char>>, query: Option<Seq<char>>) -> bool {
    &&& source matches Some(id) ==> entry.0 == id
    &&& query matches Some(part) ==> text::occurs(text::lowered(entry.1), text::lowered(part))
}

/// The entries of the history that are asked for.
pub open spec fn matching(
    entries: Seq<(Seq<char>, Seq<char>)>,
    source: Option<Seq<char>>,
    query: Option<Seq<char>>,
) -> Seq<(Seq<char>, Seq<char>)> {
    model::selected(entries, |entry: (Seq<char>, Seq<char>)| asked(entry, source, query))
}

/// Whether the history has a source.
pub open spec fn has_source(entries: Seq<(Seq<char>, Seq<char>)>, source: Seq<char>) -> bool {
    exists|i: int| 0 <= i < entries.len() && (#[trigger] entries[i]).0 == source
}

/// The number of chunks that is asked for.
pub open spec fn asked_limit(args: HistoryArgs) -> nat {
    match args.limit {
        Some(limit) => limit as nat,
        None => DEFAULT_LIMIT as nat,
    }
}

/// The cursor that is asked for.
pub open spec fn asked_cursor(args: HistoryArgs) -> nat {
    match args.cursor {
        Some(cursor) => cursor as nat,
        None => 0,
    }
}

/// What is wrong with a request that names no position in a text.
pub open spec fn request_fault(entries: Seq<(Seq<char>, Seq<char>)>, args: HistoryArgs) -> Option<Seq<char>> {
    let source = model::text_view(args.source);
    let matched = matching(entries, source, model::text_view(args.query));
    if asked_limit(args) < 1 || asked_limit(args) > MAX_LIMIT {
        Some("limit must be between 1 and 100"@)
    } else if source is Some && !has_source(entries, source->0) {
        Some("source was not found in your conversation"@)
    } else if asked_cursor(args) > total_bytes(matched) {
        Some("cursor is past the matching history"@)
    } else {
        None
    }
}

/// Whether a cursor lies inside a character of the text at an index.
pub open spec fn splits_character(matched: Seq<(Seq<char>, Seq<char>)>, cursor: nat, index: int) -> bool {
    index < matched.len() && !utf8::is_char_boundary(
        utf8::encode_utf8(matched[index].1),
        cursor - total_bytes(matched.take(index)),
    )
}

/// The contents of borrowed references with their texts.
spec fn borrowed(entries: Seq<&(String, String)>) -> Seq<(Seq<char>, Seq<char>)> {
    entries.map_values(|entry: &(String, String)| (entry.0@, entry.1@))
}

proof fn lemma_total_take(matched: Seq<(Seq<char>, Seq<char>)>, index: int)
    requires
        0 <= index < matched.len(),
    ensures
        total_bytes(matched.take(index + 1)) == total_bytes(matched.take(index)) + text::byte_len(
            matched[index].1,
        ),
{
    assert(matched.take(index + 1).drop_last() =~= matched.take(index));
}

proof fn lemma_total_monotonic(matched: Seq<(Seq<char>, Seq<char>)>, low: int, high: int)
    requires
        0 <= low <= high <= matched.len(),
    ensures
        total_bytes(matched.take(low)) <= total_bytes(matched.take(high)),
    decreases high - low,
{
    if low < high {
        lemma_total_take(matched, high - 1);
        lemma_total_monotonic(matched, low, high - 1);
    }
}

/// A cursor lies in one text.
pub proof fn cursors_are_located_once(matched: Seq<(Seq<char>, Seq<char>)>, cursor: nat, left: int, right: int)
    requires
        located(matched, cursor, left),
        located(matched, cursor, right),
    ensures
        left == right,
{
    if left < right {
        lemma_total_monotonic(matched, left + 1, right);
    }
    if right < left {
        lemma_total_monotonic(matched, right + 1, left);
    }
}

/// Selecting from texts does not make them longer.
proof fn lemma_selected_bytes(entries: Seq<(Seq<char>, Seq<char>)>, test: spec_fn((Seq<char>, Seq<char>)) -> bool)
    ensures
        total_bytes(model::selected(entries, test)) <= total_bytes(entries),
    decreases entries.len(),
{
    if entries.len() > 0 {
        lemma_selected_bytes(entries.drop_last(), test);
        if test(entries.last()) {
            let all = model::selected(entries, test);
            assert(all.drop_last() =~= model::selected(entries.drop_last(), test));
        }
    }
}

/// Tests whether the history has a source.
fn contains_source(corpus: &Vec<(String, String)>, source: &String) -> (answer: bool)
    ensures
        answer == has_source(pairs(corpus@), source@),
{
    let ghost all = pairs(corpus@);
    let mut i: usize = 0;
    while i < corpus.len()
        invariant
            i <= corpus.len(),
            all == pairs(corpus@),
            forall|k: int| 0 <= k < i ==> (#[trigger] all[k]).0 != source@,
        decreases corpus.len() - i,
    {
        if corpus[i].0 == *source {
            assert(all[i as int].0 == source@);
            return true;
        }
        i += 1;
    }
    false
}

/// Selects the entries of the history that are asked for.
fn select_matches<'a>(
    corpus: &'a Vec<(String, String)>,
    source: &Option<String>,
    query: &Option<String>,
) -> (matched: Vec<&'a (String, String)>)
    ensures
        borrowed(matched@) == matching(pairs(corpus@), model::text_view(*source), model::text_view(*query)),
{
    let ghost all = pairs(corpus@);
    let ghost test = |entry: (Seq<char>, Seq<char>)|
        asked(entry, model::text_view(*source), model::text_view(*query));
    let wanted: Option<String> = match query {
        Some(part) => Some(text::to_lower(part.as_str())),
        None => None,
    };
    let mut matched: Vec<&'a (String, String)> = Vec::new();
    let mut i: usize = 0;
    assert(borrowed(matched@) =~= model::selected(all.take(0), test));
    while i < corpus.len()
        invariant
            i <= corpus.len(),
            all == pairs(corpus@),
            test == (|entry: (Seq<char>, Seq<char>)|
                asked(entry, model::text_view(*source), model::text_view(*query))),
            match (*query, wanted) {
                (Some(part), Some(lower)) => lower@ == text::lowered(part@),
                (None, None) => true,
                _ => false,
            },
            borrowed(matched@) == model::selected(all.take(i as int), test),
        decreases corpus.len() - i,
    {
        let entry = &corpus[i];
        let named = match source {
            Some(id) => entry.0 == *id,
            None => true,
        };
        let found = match &wanted {
            Some(part) => {
                let lower = text::to_lower(entry.1.as_str());
                text::contains_text(lower.as_str(), part.as_str())
            },
            None => true,
        };
        proof {
            assert(all[i as int] == (entry.0@, entry.1@));
            assert((named && found) == test(all[i as int]));
            model::lemma_selected_step(all, test, i as int);
        }
        if named && found {
            let ghost earlier = matched@;
            matched.push(entry);
            assert(borrowed(matched@) =~= borrowed(earlier).push(all[i as int]));
        }
        i += 1;
    }
    assert(all.take(i as int) =~= all);
    matched
}

/// Counts the bytes of texts together.
fn count_bytes(matched: &Vec<&(String, String)>) -> (total: usize)
    requires
        total_bytes(borrowed(matched@)) <= usize::MAX,
    ensures
        total == total_bytes(borrowed(matched@)),
{
    let ghost all = borrowed(matched@);
    let mut total: usize = 0;
    let mut i: usize = 0;
    while i < matched.len()
        invariant
            i <= matched.len(),
            all == borrowed(matched@),
            total_bytes(all) <= usize::MAX,
            total == total_bytes(all.take(i as int)),
        decreases matched.len() - i,
    {
        proof {
            lemma_total_take(all, i as int);
            lemma_total_monotonic(all, i + 1, all.len() as int);
            assert(all.take(all.len() as int) =~= all);
        }
        total = total + text::byte_length(matched[i].1.as_str());
        i += 1;
    }
    assert(all.take(i as int) =~= all);
    total
}

/// The chunk that begins at a boundary and has room for a character is not empty,
/// and ends at a boundary.
proof fn lemma_chunk_end(bytes: Seq<u8>, offset: int, available: nat)
    requires
        utf8::valid_utf8(bytes),
        utf8::is_char_boundary(bytes, offset),
        0 <= offset < bytes.len(),
        available >= 4,
    ensures
        offset < chunk_end(bytes, offset, available) <= bytes.len(),
        chunk_end(bytes, offset, available) <= offset + available,
        utf8::is_char_boundary(bytes, chunk_end(bytes, offset, available)),
{
    let next = text::lemma_next_boundary(bytes, offset);
    let position = if offset + available < bytes.len() {
        offset + available
    } else {
        bytes.len() as int
    };
    lemma_boundary_before(bytes, position, next);
}

proof fn lemma_boundary_before(bytes: Seq<u8>, position: int, known: int)
    requires
        utf8::is_char_boundary(bytes, known),
        0 < known <= position,
    ensures
        known <= boundary_before(bytes, position) <= position,
        utf8::is_char_boundary(bytes, boundary_before(bytes, position)),
    decreases position,
{
    if !utf8::is_char_boundary(bytes, position) {
        lemma_boundary_before(bytes, position - 1, known);
    }
}

/// Computes how many bytes of text fit behind the chunks of a page.
fn remaining_room(output: &HistoryOutput, source: &String) -> (available: usize)
    requires
        output.next_cursor == Some(usize::MAX),
        output.through == u64::MAX,
    ensures
        available == room(model::views(output.entries@), source@),
{
    let notation = output.to_json();
    let used: usize = text::byte_length(notation.as_str());
    let used: usize = used.saturating_add(text::byte_length(source.as_str())).saturating_add(100);
    MAX_OUTPUT_BYTES.saturating_sub(used) / 6
}

/// Takes a chunk out of a text.
fn slice<'a>(content: &'a String, offset: usize, end: usize) -> (chunk: &'a str)
    requires
        offset <= end <= text::byte_len(content@),
        utf8::is_char_boundary(utf8::encode_utf8(content@), offset as int),
        utf8::is_char_boundary(utf8::encode_utf8(content@), end as int),
    ensures
        chunk@ == utf8::decode_utf8(utf8::encode_utf8(content@).subrange(offset as int, end as int)),
{
    broadcast use utf8::group_utf8_lib;
    let ghost bytes = utf8::encode_utf8(content@);
    let whole = content.as_str();
    let (_, tail) = whole.split_at(offset);
    proof {
        text::lemma_boundary_shift(bytes, offset as int, end as int);
        assert(tail.spec_bytes() == bytes.subrange(offset as int, bytes.len() as int));
    }
    let (chunk, _) = tail.split_at(end - offset);
    proof {
        assert(chunk.spec_bytes() =~= bytes.subrange(offset as int, end as int));
        utf8::encode_utf8_decode_utf8(chunk@);
    }
    chunk
}

/// Reads a page of the history.
#[verifier::rlimit(40)]
pub fn page(corpus: &Vec<(String, String)>, args: &HistoryArgs) -> (result: Result<HistoryOutput, ToolError>)
    requires
        total_bytes(pairs(corpus@)) <= usize::MAX,
    ensures
        page_answered(pairs(corpus@), *args, result),
        result matches Ok(output) ==> output.through == u64::MAX,
{
    let limit: usize = match args.limit {
        Some(limit) => limit,
        None => DEFAULT_LIMIT,
    };
    if limit < 1 || limit > MAX_LIMIT {
        return Err(ToolError::InvalidArguments("limit must be between 1 and 100".to_owned()));
    }
    if let Some(source) = &args.source {
        if !contains_source(corpus, source) {
            return Err(
                ToolError::InvalidArguments("source was not found in your conversation".to_owned()),
            );
        }
    }
    let matches = select_matches(corpus, &args.source, &args.query);
    let ghost matched = borrowed(matches@);
    let ghost start = asked_cursor(*args);
    proof {
        lemma_selected_bytes(
            pairs(corpus@),
            |entry: (Seq<char>, Seq<char>)|
                asked(entry, model::text_view(args.source), model::text_view(args.query)),
        );
    }
    let total: usize = count_bytes(&matches);
    let mut cursor: usize = match args.cursor {
        Some(cursor) => cursor,
        None => 0,
    };
    if cursor > total {
        return Err(ToolError::InvalidArguments("cursor is past the matching history".to_owned()));
    }
    let mut base: usize = 0;
    let mut index: usize = 0;
    while index < matches.len() && cursor - base >= text::byte_length(matches[index].1.as_str())
        invariant
            index <= matches.len(),
            matched == borrowed(matches@),
            base == total_bytes(matched.take(index as int)),
            base <= cursor,
            cursor <= total_bytes(matched) <= usize::MAX,
        decreases matches.len() - index,
    {
        proof {
            lemma_total_take(matched, index as int);
        }
        base = base + text::byte_length(matches[index].1.as_str());
        index += 1;
    }
    proof {
        if index < matches.len() {
            lemma_total_take(matched, index as int);
        }
        assert(located(matched, start, index as int));
    }
    let mut offset: usize = cursor - base;
    if index < matches.len() && !matches[index].1.as_str().is_char_boundary(offset) {
        assert(splits_character(matched, start, index as int));
        return Err(ToolError::InvalidArguments("cursor must be a UTF-8 character boundary".to_owned()));
    }
    assert(!splits_character(matched, start, index as int));
    let ghost goal = fill(matched, index as int, offset as int, start, seq![], limit as nat);
    let mut output = HistoryOutput { entries: Vec::new(), next_cursor: None, through: u64::MAX };
    assert(model::views(output.entries@) =~= seq![]);
    while index < matches.len()
        invariant
            matched == borrowed(matches@),
            index <= matches.len(),
            total_bytes(matched) <= usize::MAX,
            cursor == total_bytes(matched.take(index as int)) + offset,
            index < matches.len() ==> offset <= text::byte_len(matched[index as int].1)
                && utf8::is_char_boundary(utf8::encode_utf8(matched[index as int].1), offset as int),
            output.through == u64::MAX,
            goal == fill(
                matched,
                index as int,
                offset as int,
                cursor as nat,
                model::views(output.entries@),
                limit as nat,
            ),
            request_fault(pairs(corpus@), *args) is None,
            limit as nat == asked_limit(*args),
            exists|begin: int| #[trigger]
                located(matched, asked_cursor(*args), begin) && !splits_character(
                    matched,
                    asked_cursor(*args),
                    begin,
                ) && goal == fill(
                    matched,
                    begin,
                    asked_cursor(*args) - total_bytes(matched.take(begin)),
                    asked_cursor(*args),
                    seq![],
                    limit as nat,
                ),
            matched == matching(
                pairs(corpus@),
                model::text_view(args.source),
                model::text_view(args.query),
            ),
        decreases matches.len() - index, text::byte_len(matched[index as int].1) - offset,
    {
        broadcast use utf8::group_utf8_lib;
        let entry = matches[index];
        let ghost bytes = utf8::encode_utf8(matched[index as int].1);
        assert(matched[index as int] == (entry.0@, entry.1@));
        let length: usize = text::byte_length(entry.1.as_str());
        proof {
            lemma_total_take(matched, index as int);
            lemma_total_monotonic(matched, index + 1, matched.len() as int);
            assert(matched.take(matched.len() as int) =~= matched);
        }
        if offset >= length {
            index += 1;
            offset = 0;
            continue;
        }
        if output.entries.len() >= limit {
            output.next_cursor = Some(cursor);
            return Ok(output);
        }
        output.next_cursor = Some(usize::MAX);
        let available: usize = remaining_room(&output, &entry.0);
        if available < 4 {
            output.next_cursor = Some(cursor);
            return Ok(output);
        }
        proof {
            lemma_chunk_end(bytes, offset as int, available as nat);
        }
        let mut end: usize = if available < length - offset {
            offset + available
        } else {
            length
        };
        let ghost goal_end = chunk_end(bytes, offset as int, available as nat);
        while !entry.1.as_str().is_char_boundary(end)
            invariant
                bytes == utf8::encode_utf8(entry.1@),
                offset < goal_end <= end <= length,
                goal_end == boundary_before(bytes, end as int),
                utf8::is_char_boundary(bytes, goal_end),
            decreases end,
        {
            end -= 1;
        }
        assert(end == goal_end);
        let chunk = slice(&entry.1, offset, end);
        let ghost earlier = output.entries@;
        let item = HistoryEntry { source: entry.0.clone(), offset, text: chunk.to_owned() };
        let ghost added = item@;
        output.entries.push(item);
        assert(model::views(output.entries@) =~= model::views(earlier).push(added));
        cursor = cursor + (end - offset);
        offset = end;
    }
    output.next_cursor = None;
    Ok(output)
}


/// Counts the bytes of a corpus, unless the machine cannot.
fn corpus_bytes(corpus: &Vec<(String, String)>) -> (total: Option<usize>)
    ensures
        total is Some <==> total_bytes(pairs(corpus@)) <= usize::MAX,
{
    let ghost all = pairs(corpus@);
    let mut total: usize = 0;
    let mut i: usize = 0;
    while i < corpus.len()
        invariant
            i <= corpus.len(),
            all == pairs(corpus@),
            total == total_bytes(all.take(i as int)),
        decreases corpus.len() - i,
    {
        proof {
            lemma_total_take(all, i as int);
            lemma_total_monotonic(all, i + 1, all.len() as int);
            assert(all.take(all.len() as int) =~= all);
        }
        match total.checked_add(text::byte_length(corpus[i].1.as_str())) {
            Some(sum) => {
                total = sum;
            },
            None => {
                return None;
            },
        }
        i += 1;
    }
    assert(all.take(i as int) =~= all);
    Some(total)
}

/// The last journal sequence of a request for history.
pub open spec fn asked_through(records: Seq<EventRecord>, args: HistoryArgs) -> u64 {
    match args.through {
        Some(through) => through,
        None => if records.len() == 0 {
            0
        } else {
            records.last().sequence
        },
    }
}

/// What a request for a page of history is answered.
pub open spec fn page_answered(
    entries: Seq<(Seq<char>, Seq<char>)>,
    args: HistoryArgs,
    result: Result<HistoryOutput, ToolError>,
) -> bool {
    let matched = matching(entries, model::text_view(args.source), model::text_view(args.query));
    let cursor = asked_cursor(args);
    match result {
        Ok(output) => {
            &&& request_fault(entries, args) is None
            &&& exists|index: int| #[trigger]
                located(matched, cursor, index) && !splits_character(matched, cursor, index)
                    && output_view(output) == page_from(matched, cursor, index, asked_limit(args))
        },
        Err(error) => error matches ToolError::InvalidArguments(fault) && match request_fault(entries, args) {
            Some(expected) => fault@ == expected,
            None => {
                &&& fault@ == "cursor must be a UTF-8 character boundary"@
                &&& exists|index: int| #[trigger]
                    located(matched, cursor, index) && splits_character(matched, cursor, index)
            },
        },
    }
}

/// Reads a page of an agent's own history, as far as a snapshot of the journal goes.
/// There is none where the history has more bytes than the machine can count.
pub fn read_history(records: Vec<EventRecord>, agent: &AgentId, args: &HistoryArgs) -> (result: Option<
    Result<HistoryOutput, ToolError>,
>)
    ensures
        ({
            let through = asked_through(records@, *args);
            let entries = corpus_texts(snapshot(records@, through), agent@);
            match result {
                Some(answer) => {
                    &&& total_bytes(entries) <= usize::MAX
                    &&& page_answered(entries, *args, answer)
                    &&& answer matches Ok(output) ==> output.through == through
                },
                None => total_bytes(entries) > usize::MAX,
            }
        }),
{
    let through: u64 = match args.through {
        Some(through) => through,
        None => if records.len() == 0 {
            0
        } else {
            records[records.len() - 1].sequence
        },
    };
    let left = take_through(records, through);
    let texts = corpus(&left, agent);
    if corpus_bytes(&texts).is_none() {
        return None;
    }
    match page(&texts, args) {
        Ok(output) => {
            let mut output = output;
            output.through = through;
            Some(Ok(output))
        },
        Err(error) => Some(Err(error)),
    }
}

/// The bytes of texts, one after the other.
pub open spec fn all_bytes(matched: Seq<(Seq<char>, Seq<char>)>) -> Seq<u8>
    decreases matched.len(),
{
    if matched.len() == 0 {
        seq![]
    } else {
        all_bytes(matched.drop_last()) + utf8::encode_utf8(matched.last().1)
    }
}

/// The bytes of chunks, one after the other.
pub open spec fn chunk_bytes(entries: Seq<EntryView>) -> Seq<u8>
    decreases entries.len(),
{
    if entries.len() == 0 {
        seq![]
    } else {
        chunk_bytes(entries.drop_last()) + utf8::encode_utf8(entries.last().text)
    }
}

/// Where a page ends in the history.
pub open spec fn page_end(page: PageView, matched: Seq<(Seq<char>, Seq<char>)>) -> nat {
    match page.next_cursor {
        Some(cursor) => cursor,
        None => total_bytes(matched),
    }
}

/// Whether a page can begin at a cursor.
pub open spec fn accepted(matched: Seq<(Seq<char>, Seq<char>)>, cursor: nat) -> bool {
    exists|index: int| #[trigger]
        located(matched, cursor, index) && !splits_character(matched, cursor, index)
}

/// Whether a chunk is a piece of a text, under the text's reference and at its offset.
pub open spec fn piece_of(entry: EntryView, matched: Seq<(Seq<char>, Seq<char>)>) -> bool {
    exists|k: int|
        0 <= k < matched.len() && (#[trigger] matched[k]).0 == entry.source && entry.offset
            + text::byte_len(entry.text) <= text::byte_len(matched[k].1) && utf8::encode_utf8(entry.text)
            == utf8::encode_utf8(matched[k].1).subrange(
            entry.offset as int,
            (entry.offset + text::byte_len(entry.text)) as int,
        )
}

/// Whether a position in the texts is a boundary.
spec fn at_boundary(matched: Seq<(Seq<char>, Seq<char>)>, index: int, offset: int, cursor: nat) -> bool {
    &&& 0 <= index <= matched.len()
    &&& cursor == total_bytes(matched.take(index)) + offset
    &&& if index < matched.len() {
        &&& 0 <= offset <= text::byte_len(matched[index].1)
        &&& utf8::is_char_boundary(utf8::encode_utf8(matched[index].1), offset)
    } else {
        offset == 0
    }
}

proof fn lemma_all_bytes(matched: Seq<(Seq<char>, Seq<char>)>, index: int)
    requires
        0 <= index < matched.len(),
    ensures
        all_bytes(matched).len() == total_bytes(matched),
        total_bytes(matched.take(index + 1)) <= total_bytes(matched),
        total_bytes(matched.take(index + 1)) == total_bytes(matched.take(index)) + text::byte_len(
            matched[index].1,
        ),
        all_bytes(matched).subrange(
            total_bytes(matched.take(index)) as int,
            total_bytes(matched.take(index + 1)) as int,
        ) == utf8::encode_utf8(matched[index].1),
    decreases matched.len(),
{
    lemma_total_take(matched, index);
    let rest = matched.drop_last();
    if rest.len() > 0 {
        lemma_all_bytes(rest, if index < rest.len() { index } else { 0 });
    }
    assert(all_bytes(rest).len() == total_bytes(rest));
    if index < rest.len() {
        assert(rest.take(index) =~= matched.take(index));
        assert(rest.take(index + 1) =~= matched.take(index + 1));
        let low = total_bytes(matched.take(index)) as int;
        let high = total_bytes(matched.take(index + 1)) as int;
        assert(all_bytes(matched).subrange(low, high) =~= all_bytes(rest).subrange(low, high));
    } else {
        assert(matched.take(index) =~= rest);
        assert(matched.take(index + 1) =~= matched);
        assert(all_bytes(matched).subrange(
            total_bytes(rest) as int,
            total_bytes(matched) as int,
        ) =~= utf8::encode_utf8(matched[index].1));
    }
}

/// What lies between two boundaries is text.
proof fn lemma_piece(bytes: Seq<u8>, offset: int, end: int)
    requires
        utf8::valid_utf8(bytes),
        utf8::is_char_boundary(bytes, offset),
        utf8::is_char_boundary(bytes, end),
        0 <= offset <= end <= bytes.len(),
    ensures
        utf8::encode_utf8(utf8::decode_utf8(bytes.subrange(offset, end))) == bytes.subrange(offset, end),
{
    let tail = bytes.subrange(offset, bytes.len() as int);
    text::lemma_boundary_shift(bytes, offset, end);
    utf8::valid_utf8_split(tail, end - offset);
    assert(tail.subrange(0, end - offset) =~= bytes.subrange(offset, end));
    utf8::decode_utf8_encode_utf8(bytes.subrange(offset, end));
}

/// A boundary is a cursor that a page can begin at.
proof fn lemma_accepted(matched: Seq<(Seq<char>, Seq<char>)>, index: int, offset: int, cursor: nat)
    requires
        at_boundary(matched, index, offset, cursor),
        index < matched.len() ==> offset < text::byte_len(matched[index].1),
    ensures
        accepted(matched, cursor),
{
    if index < matched.len() {
        lemma_total_take(matched, index);
    }
    assert(located(matched, cursor, index));
    assert(!splits_character(matched, cursor, index));
}

/// What filling a page has come to.
spec fn filled(
    matched: Seq<(Seq<char>, Seq<char>)>,
    cursor: nat,
    entries: Seq<EntryView>,
    limit: nat,
    page: PageView,
) -> bool {
    &&& cursor <= page_end(page, matched) <= total_bytes(matched)
    &&& chunk_bytes(page.entries) == chunk_bytes(entries) + all_bytes(matched).subrange(
        cursor as int,
        page_end(page, matched) as int,
    )
    &&& entries.len() <= page.entries.len() <= limit
    &&& forall|i: int| 0 <= i < page.entries.len() ==> #[trigger] piece_of(page.entries[i], matched)
    &&& page.next_cursor matches Some(next) ==> accepted(matched, next) && next < total_bytes(matched)
}

proof fn lemma_chunk(matched: Seq<(Seq<char>, Seq<char>)>, index: int, offset: int, end: int)
    requires
        0 <= index < matched.len(),
        0 <= offset <= end <= text::byte_len(matched[index].1),
        utf8::is_char_boundary(utf8::encode_utf8(matched[index].1), offset),
        utf8::is_char_boundary(utf8::encode_utf8(matched[index].1), end),
    ensures
        ({
            let chunk = EntryView {
                source: matched[index].0,
                offset: offset as nat,
                text: utf8::decode_utf8(utf8::encode_utf8(matched[index].1).subrange(offset, end)),
            };
            let base = total_bytes(matched.take(index));
            &&& piece_of(chunk, matched)
            &&& text::byte_len(chunk.text) == end - offset
            &&& base + end <= total_bytes(matched) == all_bytes(matched).len()
            &&& utf8::encode_utf8(chunk.text) == all_bytes(matched).subrange(base + offset, base + end)
        }),
{
    let bytes = utf8::encode_utf8(matched[index].1);
    utf8::encode_utf8_valid_utf8(matched[index].1);
    lemma_piece(bytes, offset, end);
    lemma_all_bytes(matched, index);
    let chunk = EntryView {
        source: matched[index].0,
        offset: offset as nat,
        text: utf8::decode_utf8(bytes.subrange(offset, end)),
    };
    assert(matched[index].0 == chunk.source);
    assert(piece_of(chunk, matched));
    let low = total_bytes(matched.take(index)) as int;
    let high = total_bytes(matched.take(index + 1)) as int;
    assert(all_bytes(matched).subrange(low, high).subrange(offset, end) =~= all_bytes(matched).subrange(
        low + offset,
        low + end,
    ));
}

proof fn lemma_filled_step(
    matched: Seq<(Seq<char>, Seq<char>)>,
    cursor: nat,
    next: nat,
    entries: Seq<EntryView>,
    chunk: EntryView,
    limit: nat,
    page: PageView,
)
    requires
        filled(matched, next, entries.push(chunk), limit, page),
        cursor < next <= total_bytes(matched) == all_bytes(matched).len(),
        utf8::encode_utf8(chunk.text) == all_bytes(matched).subrange(cursor as int, next as int),
    ensures
        filled(matched, cursor, entries, limit, page),
{
    let all = all_bytes(matched);
    let last = page_end(page, matched) as int;
    assert(entries.push(chunk).drop_last() =~= entries);
    assert(all.subrange(cursor as int, next as int) + all.subrange(next as int, last) =~= all.subrange(
        cursor as int,
        last,
    ));
    assert(chunk_bytes(page.entries) =~= chunk_bytes(entries) + all.subrange(cursor as int, last));
}

/// What filling a page adds to it.
proof fn lemma_fill(
    matched: Seq<(Seq<char>, Seq<char>)>,
    index: int,
    offset: int,
    cursor: nat,
    entries: Seq<EntryView>,
    limit: nat,
)
    requires
        at_boundary(matched, index, offset, cursor),
        forall|i: int| 0 <= i < entries.len() ==> #[trigger] piece_of(entries[i], matched),
        entries.len() <= limit,
    ensures
        filled(matched, cursor, entries, limit, fill(matched, index, offset, cursor, entries, limit)),
        all_bytes(matched).len() == total_bytes(matched),
    decreases matched.len() - index, text::byte_len(matched[index].1) - offset,
{
    let page = fill(matched, index, offset, cursor, entries, limit);
    assert(matched.take(matched.len() as int) =~= matched);
    if matched.len() > 0 {
        lemma_all_bytes(matched, 0);
    }
    if index >= matched.len() {
        assert(chunk_bytes(entries) + all_bytes(matched).subrange(cursor as int, cursor as int)
            =~= chunk_bytes(entries));
    } else {
        let (source, content) = matched[index];
        let bytes = utf8::encode_utf8(content);
        utf8::encode_utf8_valid_utf8(content);
        lemma_all_bytes(matched, index);
        if offset >= bytes.len() {
            lemma_next_text(matched, index, cursor);
            lemma_fill(matched, index + 1, 0, cursor, entries, limit);
        } else if entries.len() >= limit || room(entries, source) < 4 {
            assert(chunk_bytes(entries) + all_bytes(matched).subrange(cursor as int, cursor as int)
                =~= chunk_bytes(entries));
            lemma_accepted(matched, index, offset, cursor);
        } else {
            let available = room(entries, source);
            lemma_chunk_end(bytes, offset, available);
            let end = chunk_end(bytes, offset, available);
            lemma_chunk(matched, index, offset, end);
            let chunk = EntryView {
                source,
                offset: offset as nat,
                text: utf8::decode_utf8(bytes.subrange(offset, end)),
            };
            let more = entries.push(chunk);
            assert forall|i: int| 0 <= i < more.len() implies #[trigger] piece_of(more[i], matched) by {
                if i < entries.len() {
                    assert(more[i] == entries[i]);
                }
            }
            let next = (cursor + (end - offset)) as nat;
            lemma_fill(matched, index, end, next, more, limit);
            lemma_filled_step(matched, cursor, next, entries, chunk, limit, page);
        }
    }
}

/// The text behind another begins at a boundary.
proof fn lemma_next_text(matched: Seq<(Seq<char>, Seq<char>)>, index: int, cursor: nat)
    requires
        0 <= index < matched.len(),
        cursor == total_bytes(matched.take(index)) + text::byte_len(matched[index].1),
    ensures
        at_boundary(matched, index + 1, 0, cursor),
{
    lemma_total_take(matched, index);
    if index + 1 < matched.len() {
        utf8::encode_utf8_valid_utf8(matched[index + 1].1);
        utf8::is_char_boundary_start_end_of_seq(utf8::encode_utf8(matched[index + 1].1));
    }
}

proof fn lemma_start(matched: Seq<(Seq<char>, Seq<char>)>, cursor: nat, index: int)
    requires
        located(matched, cursor, index),
        !splits_character(matched, cursor, index),
        cursor <= total_bytes(matched),
    ensures
        at_boundary(matched, index, cursor - total_bytes(matched.take(index)), cursor),
{
    assert(matched.take(matched.len() as int) =~= matched);
    if index < matched.len() {
        lemma_total_take(matched, index);
    }
}

/// A page recovers what it covers without loss: its chunks, one after the other, are
/// the bytes of the matching history from its cursor to where the next page begins, or
/// to the end. Each chunk is a piece of the text under its reference. A page never has
/// more chunks than its limit, and the next page can begin where this one ends.
pub proof fn pages_lose_nothing(
    matched: Seq<(Seq<char>, Seq<char>)>,
    cursor: nat,
    index: int,
    limit: nat,
)
    requires
        located(matched, cursor, index),
        !splits_character(matched, cursor, index),
        cursor <= total_bytes(matched),
    ensures
        ({
            let page = page_from(matched, cursor, index, limit);
            &&& cursor <= page_end(page, matched) <= total_bytes(matched) == all_bytes(matched).len()
            &&& chunk_bytes(page.entries) == all_bytes(matched).subrange(
                cursor as int,
                page_end(page, matched) as int,
            )
            &&& page.entries.len() <= limit
            &&& forall|i: int| 0 <= i < page.entries.len() ==> #[trigger] piece_of(page.entries[i], matched)
            &&& page.next_cursor matches Some(next) ==> accepted(matched, next) && next < total_bytes(matched)
        }),
{
    lemma_start(matched, cursor, index);
    lemma_fill(
        matched,
        index,
        cursor - total_bytes(matched.take(index)),
        cursor,
        seq![],
        limit,
    );
    let page = page_from(matched, cursor, index, limit);
    assert(chunk_bytes(seq![]) =~= seq![]);
    assert(chunk_bytes(page.entries) =~= all_bytes(matched).subrange(
        cursor as int,
        page_end(page, matched) as int,
    ));
}

proof fn lemma_frame(entries: Seq<EntryView>, cursor: Option<nat>, through: nat)
    ensures
        text::byte_len(page_json(entries, cursor, through)) == 40 + text::byte_len(entries_json(entries))
            + text::byte_len(cursor_json(cursor)) + text::decimal(through).len(),
{
    let opening = "{\"entries\":["@;
    let middle = "],\"next_cursor\":"@;
    let closing = ",\"through\":"@;
    reveal_strlit("{\"entries\":[");
    reveal_strlit("],\"next_cursor\":");
    reveal_strlit(",\"through\":");
    reveal_strlit("}");
    text::lemma_ascii_bytes(opening);
    text::lemma_ascii_bytes(middle);
    text::lemma_ascii_bytes(closing);
    text::lemma_ascii_bytes("}"@);
    text::lemma_decimal_ascii(through);
    text::lemma_ascii_bytes(text::decimal(through));
    let first = opening + entries_json(entries);
    let second = first + middle;
    let third = second + cursor_json(cursor);
    let fourth = third + closing;
    let fifth = fourth + text::decimal(through);
    text::lemma_bytes_concat(opening, entries_json(entries));
    text::lemma_bytes_concat(first, middle);
    text::lemma_bytes_concat(second, cursor_json(cursor));
    text::lemma_bytes_concat(third, closing);
    text::lemma_bytes_concat(fourth, text::decimal(through));
    text::lemma_bytes_concat(fifth, "}"@);
}

proof fn lemma_quoted_bytes(content: Seq<char>)
    ensures
        text::byte_len(text::json_string(content)) == 2 + text::byte_len(text::json_escaped(content)),
{
    text::lemma_ascii_bytes(seq!['"']);
    text::lemma_bytes_concat(seq!['"'], text::json_escaped(content));
    text::lemma_bytes_concat(seq!['"'] + text::json_escaped(content), seq!['"']);
}

proof fn lemma_entry_bytes(entry: EntryView)
    ensures
        text::byte_len(entry_json(entry)) == 33 + text::byte_len(text::json_escaped(entry.source))
            + text::decimal(entry.offset).len() + text::byte_len(text::json_escaped(entry.text)),
{
    let opening = "{\"source\":"@;
    let middle = ",\"offset\":"@;
    let closing = ",\"text\":"@;
    reveal_strlit("{\"source\":");
    reveal_strlit(",\"offset\":");
    reveal_strlit(",\"text\":");
    reveal_strlit("}");
    text::lemma_ascii_bytes(opening);
    text::lemma_ascii_bytes(middle);
    text::lemma_ascii_bytes(closing);
    text::lemma_ascii_bytes("}"@);
    text::lemma_decimal_ascii(entry.offset);
    text::lemma_ascii_bytes(text::decimal(entry.offset));
    lemma_quoted_bytes(entry.source);
    lemma_quoted_bytes(entry.text);
    let first = opening + text::json_string(entry.source);
    let second = first + middle;
    let third = second + text::decimal(entry.offset);
    let fourth = third + closing;
    let fifth = fourth + text::json_string(entry.text);
    text::lemma_bytes_concat(opening, text::json_string(entry.source));
    text::lemma_bytes_concat(first, middle);
    text::lemma_bytes_concat(second, text::decimal(entry.offset));
    text::lemma_bytes_concat(third, closing);
    text::lemma_bytes_concat(fourth, text::json_string(entry.text));
    text::lemma_bytes_concat(fifth, "}"@);
}

/// The bytes of a page whose cursor and last sequence are the largest.
spec fn full_size(entries: Seq<EntryView>) -> nat {
    text::byte_len(page_json(entries, Some(usize::MAX as nat), u64::MAX as nat))
}

proof fn lemma_pushed_size(entries: Seq<EntryView>, chunk: EntryView)
    requires
        text::unescaped(chunk.source),
        chunk.offset <= u64::MAX,
    ensures
        full_size(entries.push(chunk)) <= full_size(entries) + 54 + text::byte_len(chunk.source) + 6
            * text::byte_len(chunk.text),
{
    let more = entries.push(chunk);
    assert(more.drop_last() =~= entries);
    lemma_frame(entries, Some(usize::MAX as nat), u64::MAX as nat);
    lemma_frame(more, Some(usize::MAX as nat), u64::MAX as nat);
    lemma_entry_bytes(chunk);
    text::lemma_counter_length(chunk.offset as u64);
    text::lemma_escaped_length(chunk.text);
    reveal_strlit(",");
    text::lemma_ascii_bytes(","@);
    text::lemma_bytes_concat(entries_json(entries), ","@);
    text::lemma_bytes_concat(entries_json(entries) + ","@, entry_json(chunk));
}

proof fn lemma_fill_size(
    matched: Seq<(Seq<char>, Seq<char>)>,
    index: int,
    offset: int,
    cursor: nat,
    entries: Seq<EntryView>,
    limit: nat,
)
    requires
        at_boundary(matched, index, offset, cursor),
        total_bytes(matched) <= usize::MAX,
        full_size(entries) <= MAX_OUTPUT_BYTES,
        forall|k: int| 0 <= k < matched.len() ==> text::unescaped((#[trigger] matched[k]).0),
    ensures
        full_size(fill(matched, index, offset, cursor, entries, limit).entries) <= MAX_OUTPUT_BYTES,
    decreases matched.len() - index, text::byte_len(matched[index].1) - offset,
{
    broadcast use utf8::group_utf8_lib;
    if index < matched.len() {
        let (source, content) = matched[index];
        let bytes = utf8::encode_utf8(content);
        lemma_all_bytes(matched, index);
        if offset >= bytes.len() {
            lemma_next_text(matched, index, cursor);
            lemma_fill_size(matched, index + 1, 0, cursor, entries, limit);
        } else if entries.len() >= limit || room(entries, source) < 4 {
        } else {
            let available = room(entries, source);
            lemma_chunk_end(bytes, offset, available);
            let end = chunk_end(bytes, offset, available);
            lemma_piece(bytes, offset, end);
            let chunk = EntryView {
                source,
                offset: offset as nat,
                text: utf8::decode_utf8(bytes.subrange(offset, end)),
            };
            lemma_pushed_size(entries, chunk);
            lemma_fill_size(
                matched,
                index,
                end,
                (cursor + (end - offset)) as nat,
                entries.push(chunk),
                limit,
            );
        }
    }
}

/// A page stays within its bound as JSON, where the references need no escapes,
/// whatever the last sequence is.
pub proof fn pages_are_bounded(
    matched: Seq<(Seq<char>, Seq<char>)>,
    cursor: nat,
    index: int,
    limit: nat,
    through: u64,
)
    requires
        located(matched, cursor, index),
        !splits_character(matched, cursor, index),
        cursor <= total_bytes(matched) <= usize::MAX,
        forall|k: int| 0 <= k < matched.len() ==> text::unescaped((#[trigger] matched[k]).0),
    ensures
        ({
            let page = page_from(matched, cursor, index, limit);
            text::byte_len(page_json(page.entries, page.next_cursor, through as nat)) <= MAX_OUTPUT_BYTES
        }),
{
    let page = page_from(matched, cursor, index, limit);
    lemma_start(matched, cursor, index);
    lemma_empty_size();
    lemma_fill_size(
        matched,
        index,
        cursor - total_bytes(matched.take(index)),
        cursor,
        seq![],
        limit,
    );
    lemma_fill(
        matched,
        index,
        cursor - total_bytes(matched.take(index)),
        cursor,
        seq![],
        limit,
    );
    lemma_frame(page.entries, page.next_cursor, through as nat);
    lemma_frame(page.entries, Some(usize::MAX as nat), u64::MAX as nat);
    text::lemma_decimal_monotonic(through as nat, u64::MAX as nat);
    text::lemma_decimal_ascii(usize::MAX as nat);
    text::lemma_ascii_bytes(text::decimal(usize::MAX as nat));
    match page.next_cursor {
        Some(next) => {
            text::lemma_decimal_monotonic(next, usize::MAX as nat);
            text::lemma_decimal_ascii(next);
            text::lemma_ascii_bytes(text::decimal(next));
        },
        None => {
            reveal_strlit("null");
            text::lemma_ascii_bytes("null"@);
            text::lemma_decimal_monotonic(1000, usize::MAX as nat);
            reveal_with_fuel(text::decimal, 5);
            assert(text::decimal(1000).len() == 4);
        },
    }
}

proof fn lemma_empty_size()
    ensures
        full_size(seq![]) <= 80,
{
    lemma_frame(seq![], Some(usize::MAX as nat), u64::MAX as nat);
    text::lemma_counter_length(u64::MAX);
    text::lemma_counter_length(usize::MAX as u64);
    text::lemma_decimal_ascii(usize::MAX as nat);
    text::lemma_ascii_bytes(text::decimal(usize::MAX as nat));
    assert(entries_json(seq![]) =~= seq![]);
    text::lemma_ascii_bytes(seq![]);
}

/// Paging goes on: the next page begins behind this one's cursor, where references
/// leave room for text.
pub proof fn pages_make_progress(
    matched: Seq<(Seq<char>, Seq<char>)>,
    cursor: nat,
    index: int,
    limit: nat,
)
    requires
        located(matched, cursor, index),
        !splits_character(matched, cursor, index),
        cursor <= total_bytes(matched),
        limit >= 1,
        forall|k: int| 0 <= k < matched.len() ==> text::byte_len((#[trigger] matched[k]).0) <= 7900,
    ensures
        page_from(matched, cursor, index, limit).next_cursor matches Some(next) ==> next > cursor,
{
    broadcast use utf8::group_utf8_lib;
    let offset = cursor - total_bytes(matched.take(index));
    lemma_start(matched, cursor, index);
    if index < matched.len() {
        let (source, content) = matched[index];
        let bytes = utf8::encode_utf8(content);
        lemma_total_take(matched, index);
        lemma_empty_size();
        assert(text::byte_len(matched[index].0) <= 7900);
        let available = room(seq![], source);
        assert(available >= 4);
        lemma_chunk_end(bytes, offset, available);
        let end = chunk_end(bytes, offset, available);
        lemma_piece(bytes, offset, end);
        let chunk = EntryView {
            source,
            offset: offset as nat,
            text: utf8::decode_utf8(bytes.subrange(offset, end)),
        };
        let first: Seq<EntryView> = seq![];
        assert(piece_of(chunk, matched)) by {
            assert(matched[index].0 == chunk.source);
        }
        lemma_fill(matched, index, end, (cursor + (end - offset)) as nat, first.push(chunk), limit);
    }
}

/// The page that begins at a cursor.
pub open spec fn page_at(matched: Seq<(Seq<char>, Seq<char>)>, cursor: nat, limit: nat) -> PageView {
    page_from(matched, cursor, choose|index: int| located(matched, cursor, index), limit)
}

/// The pages from a cursor on: each begins where the one before it says. A page that does
/// not get beyond its own cursor ends the walk.
pub open spec fn walk(matched: Seq<(Seq<char>, Seq<char>)>, cursor: nat, limit: nat) -> Seq<PageView>
    decreases total_bytes(matched) - cursor,
{
    let page = page_at(matched, cursor, limit);
    match page.next_cursor {
        Some(next) => if cursor < next <= total_bytes(matched) {
            seq![page] + walk(matched, next, limit)
        } else {
            seq![page]
        },
        None => seq![page],
    }
}

/// The bytes of the chunks of pages, one after the other.
pub open spec fn walked_bytes(pages: Seq<PageView>) -> Seq<u8>
    decreases pages.len(),
{
    if pages.len() == 0 {
        seq![]
    } else {
        chunk_bytes(pages[0].entries) + walked_bytes(pages.drop_first())
    }
}

/// Following the cursors from page to page ends with a page that names no further one,
/// and the chunks of all pages together are the bytes of the matching history from the
/// first cursor on, where references leave room for text.
pub proof fn walks_lose_nothing(matched: Seq<(Seq<char>, Seq<char>)>, cursor: nat, limit: nat)
    requires
        accepted(matched, cursor),
        cursor <= total_bytes(matched),
        limit >= 1,
        forall|k: int| 0 <= k < matched.len() ==> text::byte_len((#[trigger] matched[k]).0) <= 7900,
    ensures
        walk(matched, cursor, limit).len() >= 1,
        walk(matched, cursor, limit).last().next_cursor is None,
        walked_bytes(walk(matched, cursor, limit)) == all_bytes(matched).skip(cursor as int),
    decreases total_bytes(matched) - cursor,
{
    let index = choose|index: int| located(matched, cursor, index);
    let other = choose|index: int| #[trigger]
        located(matched, cursor, index) && !splits_character(matched, cursor, index);
    cursors_are_located_once(matched, cursor, index, other);
    pages_lose_nothing(matched, cursor, index, limit);
    pages_make_progress(matched, cursor, index, limit);
    let page = page_at(matched, cursor, limit);
    let pages = walk(matched, cursor, limit);
    let all = all_bytes(matched);
    match page.next_cursor {
        Some(next) => {
            walks_lose_nothing(matched, next, limit);
            let later = walk(matched, next, limit);
            assert(pages =~= seq![page] + later);
            assert(pages.drop_first() =~= later);
            assert(pages.last() == later.last());
            assert(all.subrange(cursor as int, next as int) + all.skip(next as int) =~= all.skip(cursor as int));
        },
        None => {
            assert(pages.drop_first() =~= seq![]);
            assert(walked_bytes(pages.drop_first()) =~= seq![]);
            assert(all.subrange(cursor as int, all.len() as int) =~= all.skip(cursor as int));
            assert(walked_bytes(pages) =~= chunk_bytes(page.entries));
        },
    }
}

/// An agent's history can be read whole: the pages from its start on end, and together
/// they hold every byte that matches, whatever is asked for.
pub proof fn histories_are_read_whole(
    records: Seq<EventRecord>,
    agent: AgentPath,
    source: Option<Seq<char>>,
    query: Option<Seq<char>>,
    limit: nat,
)
    requires
        limit >= 1,
    ensures
        ({
            let matched = matching(corpus_texts(records, agent), source, query);
            let pages = walk(matched, 0, limit);
            &&& pages.len() >= 1
            &&& pages.last().next_cursor is None
            &&& walked_bytes(pages) == all_bytes(matched)
        }),
{
    let entries = corpus_texts(records, agent);
    let test = |entry: (Seq<char>, Seq<char>)| asked(entry, source, query);
    let matched = matching(entries, source, query);
    references_are_short(records, agent);
    assert forall|k: int| 0 <= k < matched.len() implies text::byte_len((#[trigger] matched[k]).0) <= 7900 by {
        model::lemma_selected_contains(entries, test, matched[k]);
        assert(matched.contains(matched[k]));
        let i = choose|i: int| 0 <= i < entries.len() && entries[i] == matched[k];
        assert(text::byte_len(entries[i].0) <= 100);
    }
    lemma_beginning(matched, 0);
    walks_lose_nothing(matched, 0, limit);
    assert(all_bytes(matched).skip(0) =~= all_bytes(matched));
}

/// The start of a history is a place where a page can begin.
proof fn lemma_beginning(matched: Seq<(Seq<char>, Seq<char>)>, index: int)
    requires
        0 <= index <= matched.len(),
        total_bytes(matched.take(index)) == 0,
    ensures
        accepted(matched, 0),
    decreases matched.len() - index,
{
    if index < matched.len() {
        lemma_total_take(matched, index);
        if text::byte_len(matched[index].1) == 0 {
            lemma_beginning(matched, index + 1);
        } else {
            utf8::encode_utf8_valid_utf8(matched[index].1);
            utf8::is_char_boundary_start_end_of_seq(utf8::encode_utf8(matched[index].1));
            assert(located(matched, 0, index) && !splits_character(matched, 0, index));
        }
    } else {
        assert(located(matched, 0, index) && !splits_character(matched, 0, index));
    }
}

/// Every reference of a history is short, so that it leaves room for text on a page.
pub proof fn references_are_short(records: Seq<EventRecord>, agent: AgentPath)
    ensures
        forall|i: int|
            0 <= i < corpus_texts(records, agent).len() ==> text::byte_len(
                (#[trigger] corpus_texts(records, agent)[i]).0,
            ) <= 100,
    decreases records.len(),
{
    if records.len() > 0 {
        let record = records.last();
        references_are_short(records.drop_last(), agent);
        let earlier = corpus_texts(records.drop_last(), agent);
        let added = record_texts(record, agent);
        let sequence = text::decimal(record.sequence as nat);
        text::lemma_decimal_ascii(record.sequence as nat);
        text::lemma_counter_length(record.sequence);
        reveal_strlit("m");
        reveal_strlit("c");
        match record.event {
            SessionEvent::MessageCommitted { message } => {
                lemma_message_short("m"@ + sequence, message);
            },
            SessionEvent::Compaction { checkpoint } => {
                lemma_message_short("c"@ + sequence, checkpoint.message);
            },
            _ => {},
        }
        assert forall|i: int| 0 <= i < corpus_texts(records, agent).len() implies text::byte_len(
            (#[trigger] corpus_texts(records, agent)[i]).0,
        ) <= 100 by {
            if i < earlier.len() {
                assert(corpus_texts(records, agent)[i] == earlier[i]);
            } else {
                assert(corpus_texts(records, agent)[i] == added[i - earlier.len()]);
            }
        }
    }
}

proof fn lemma_reference_short(prefix: Seq<char>, index: nat, part: Seq<char>)
    requires
        utf8::is_ascii_chars(prefix),
        utf8::is_ascii_chars(part),
        prefix.len() <= 21,
        part.len() <= 10,
        index <= usize::MAX,
    ensures
        text::byte_len(block_reference(prefix, index, part)) <= 100,
{
    text::lemma_decimal_ascii(index);
    text::lemma_counter_length(index as u64);
    reveal_strlit("/b");
    text::lemma_ascii_bytes(block_reference(prefix, index, part));
}

proof fn lemma_message_short(prefix: Seq<char>, message: Message)
    requires
        utf8::is_ascii_chars(prefix),
        prefix.len() <= 21,
    ensures
        forall|i: int|
            0 <= i < message_texts(prefix, message@).len() ==> text::byte_len(
                (#[trigger] message_texts(prefix, message@)[i]).0,
            ) <= 100,
{
    match message {
        Message::User(blocks) => {
            assert(blocks.len() <= usize::MAX);
            lemma_user_short(prefix, model::views(blocks@));
        },
        Message::Assistant(blocks) => {
            assert(blocks.len() <= usize::MAX);
            lemma_assistant_short(prefix, model::views(blocks@));
        },
        Message::Tool(results) => {
            assert(results.len() <= usize::MAX);
            lemma_results_short(prefix, model::views(results@));
        },
    }
}

proof fn lemma_user_short(prefix: Seq<char>, blocks: Seq<UserContentView>)
    requires
        utf8::is_ascii_chars(prefix),
        prefix.len() <= 21,
        blocks.len() <= usize::MAX,
    ensures
        forall|i: int|
            0 <= i < user_texts(prefix, blocks).len() ==> text::byte_len((#[trigger] user_texts(prefix, blocks)[i]).0)
                <= 100,
    decreases blocks.len(),
{
    if blocks.len() > 0 {
        lemma_user_short(prefix, blocks.drop_last());
        let earlier = user_texts(prefix, blocks.drop_last());
        lemma_reference_short(prefix, (blocks.len() - 1) as nat, seq![]);
        assert forall|i: int| 0 <= i < user_texts(prefix, blocks).len() implies text::byte_len(
            (#[trigger] user_texts(prefix, blocks)[i]).0,
        ) <= 100 by {
            if i < earlier.len() {
                assert(user_texts(prefix, blocks)[i] == earlier[i]);
            }
        }
    }
}

proof fn lemma_assistant_short(prefix: Seq<char>, blocks: Seq<AssistantContentView>)
    requires
        utf8::is_ascii_chars(prefix),
        prefix.len() <= 21,
        blocks.len() <= usize::MAX,
    ensures
        forall|i: int|
            0 <= i < assistant_texts(prefix, blocks).len() ==> text::byte_len((#[trigger] assistant_texts(prefix, blocks)[i]).0)
                <= 100,
    decreases blocks.len(),
{
    if blocks.len() > 0 {
        lemma_assistant_short(prefix, blocks.drop_last());
        let earlier = assistant_texts(prefix, blocks.drop_last());
        reveal_strlit("/arguments");
        lemma_reference_short(prefix, (blocks.len() - 1) as nat, seq![]);
        lemma_reference_short(prefix, (blocks.len() - 1) as nat, "/arguments"@);
        assert forall|i: int| 0 <= i < assistant_texts(prefix, blocks).len() implies text::byte_len(
            (#[trigger] assistant_texts(prefix, blocks)[i]).0,
        ) <= 100 by {
            if i < earlier.len() {
                assert(assistant_texts(prefix, blocks)[i] == earlier[i]);
            }
        }
    }
}

proof fn lemma_results_short(prefix: Seq<char>, results: Seq<ToolResultView>)
    requires
        utf8::is_ascii_chars(prefix),
        prefix.len() <= 21,
        results.len() <= usize::MAX,
    ensures
        forall|i: int|
            0 <= i < result_texts(prefix, results).len() ==> text::byte_len((#[trigger] result_texts(prefix, results)[i]).0)
                <= 100,
    decreases results.len(),
{
    if results.len() > 0 {
        lemma_results_short(prefix, results.drop_last());
        let earlier = result_texts(prefix, results.drop_last());
        reveal_strlit("/result");
        reveal_strlit("/console");
        lemma_reference_short(prefix, (results.len() - 1) as nat, "/result"@);
        lemma_reference_short(prefix, (results.len() - 1) as nat, "/console"@);
        assert forall|i: int| 0 <= i < result_texts(prefix, results).len() implies text::byte_len(
            (#[trigger] result_texts(prefix, results)[i]).0,
        ) <= 100 by {
            if i < earlier.len() {
                assert(result_texts(prefix, results)[i] == earlier[i]);
            }
        }
    }
}

/// Every reference of a history is plain, so that it needs no escapes as JSON.
pub proof fn references_are_plain(records: Seq<EventRecord>, agent: AgentPath)
    ensures
        forall|i: int|
            0 <= i < corpus_texts(records, agent).len() ==> text::unescaped(
                (#[trigger] corpus_texts(records, agent)[i]).0,
            ),
    decreases records.len(),
{
    if records.len() > 0 {
        let record = records.last();
        references_are_plain(records.drop_last(), agent);
        let earlier = corpus_texts(records.drop_last(), agent);
        let added = record_texts(record, agent);
        let sequence = text::decimal(record.sequence as nat);
        text::lemma_decimal_ascii(record.sequence as nat);
        reveal_strlit("m");
        reveal_strlit("c");
        match record.event {
            SessionEvent::MessageCommitted { message } => {
                lemma_message_plain("m"@ + sequence, message@);
            },
            SessionEvent::Compaction { checkpoint } => {
                lemma_message_plain("c"@ + sequence, checkpoint.message@);
            },
            _ => {},
        }
        assert forall|i: int| 0 <= i < corpus_texts(records, agent).len() implies text::unescaped(
            (#[trigger] corpus_texts(records, agent)[i]).0,
        ) by {
            if i < earlier.len() {
                assert(corpus_texts(records, agent)[i] == earlier[i]);
            } else {
                assert(corpus_texts(records, agent)[i] == added[i - earlier.len()]);
            }
        }
    }
}

/// Whether every character of a text needs no escape.
spec fn plain(content: Seq<char>) -> bool {
    forall|i: int| 0 <= i < content.len() ==> text::json_escape(#[trigger] content[i]) == seq![content[i]]
}

proof fn lemma_reference_plain(prefix: Seq<char>, index: nat, part: Seq<char>)
    requires
        plain(prefix),
        plain(part),
    ensures
        text::unescaped(block_reference(prefix, index, part)),
{
    text::lemma_decimal_ascii(index);
    reveal_strlit("/b");
    text::lemma_unescaped(block_reference(prefix, index, part));
}

proof fn lemma_message_plain(prefix: Seq<char>, message: MessageView)
    requires
        plain(prefix),
    ensures
        forall|i: int|
            0 <= i < message_texts(prefix, message).len() ==> text::unescaped(
                (#[trigger] message_texts(prefix, message)[i]).0,
            ),
{
    match message {
        MessageView::User(blocks) => lemma_user_plain(prefix, blocks),
        MessageView::Assistant(blocks) => lemma_assistant_plain(prefix, blocks),
        MessageView::Tool(results) => lemma_results_plain(prefix, results),
    }
}

proof fn lemma_user_plain(prefix: Seq<char>, blocks: Seq<UserContentView>)
    requires
        plain(prefix),
    ensures
        forall|i: int|
            0 <= i < user_texts(prefix, blocks).len() ==> text::unescaped(
                (#[trigger] user_texts(prefix, blocks)[i]).0,
            ),
    decreases blocks.len(),
{
    if blocks.len() > 0 {
        lemma_user_plain(prefix, blocks.drop_last());
        let earlier = user_texts(prefix, blocks.drop_last());
        lemma_reference_plain(prefix, (blocks.len() - 1) as nat, seq![]);
        assert forall|i: int| 0 <= i < user_texts(prefix, blocks).len() implies text::unescaped((#[trigger] user_texts(prefix, blocks)[i]).0) by {
            if i < earlier.len() {
                assert(user_texts(prefix, blocks)[i] == earlier[i]);
            }
        }
    }
}

proof fn lemma_assistant_plain(prefix: Seq<char>, blocks: Seq<AssistantContentView>)
    requires
        plain(prefix),
    ensures
        forall|i: int|
            0 <= i < assistant_texts(prefix, blocks).len() ==> text::unescaped(
                (#[trigger] assistant_texts(prefix, blocks)[i]).0,
            ),
    decreases blocks.len(),
{
    if blocks.len() > 0 {
        lemma_assistant_plain(prefix, blocks.drop_last());
        let earlier = assistant_texts(prefix, blocks.drop_last());
        reveal_strlit("/arguments");
        lemma_reference_plain(prefix, (blocks.len() - 1) as nat, seq![]);
        lemma_reference_plain(prefix, (blocks.len() - 1) as nat, "/arguments"@);
        assert forall|i: int| 0 <= i < assistant_texts(prefix, blocks).len() implies text::unescaped((#[trigger] assistant_texts(prefix, blocks)[i]).0) by {
            if i < earlier.len() {
                assert(assistant_texts(prefix, blocks)[i] == earlier[i]);
            }
        }
    }
}

proof fn lemma_results_plain(prefix: Seq<char>, results: Seq<ToolResultView>)
    requires
        plain(prefix),
    ensures
        forall|i: int|
            0 <= i < result_texts(prefix, results).len() ==> text::unescaped(
                (#[trigger] result_texts(prefix, results)[i]).0,
            ),
    decreases results.len(),
{
    if results.len() > 0 {
        lemma_results_plain(prefix, results.drop_last());
        let earlier = result_texts(prefix, results.drop_last());
        reveal_strlit("/result");
        reveal_strlit("/console");
        lemma_reference_plain(prefix, (results.len() - 1) as nat, "/result"@);
        lemma_reference_plain(prefix, (results.len() - 1) as nat, "/console"@);
        assert forall|i: int| 0 <= i < result_texts(prefix, results).len() implies text::unescaped((#[trigger] result_texts(prefix, results)[i]).0) by {
            if i < earlier.len() {
                assert(result_texts(prefix, results)[i] == earlier[i]);
            }
        }
    }
}

/// The history of a longer journal is that of its parts, in their order.
pub proof fn histories_keep_journal_order(left: Seq<EventRecord>, right: Seq<EventRecord>, agent: AgentPath)
    ensures
        corpus_texts(left + right, agent) == corpus_texts(left, agent) + corpus_texts(right, agent),
    decreases right.len(),
{
    if right.len() == 0 {
        assert(left + right =~= left);
        assert(corpus_texts(left, agent) + corpus_texts(right, agent) =~= corpus_texts(left, agent));
    } else {
        assert((left + right).drop_last() =~= left + right.drop_last());
        histories_keep_journal_order(left, right.drop_last(), agent);
        assert(corpus_texts(left + right, agent) =~= corpus_texts(left, agent) + corpus_texts(right, agent));
    }
}

/// An agent reads its own history only: records of other agents show nothing, and its own
/// show what they commit, or what a compaction continues with, and nothing else.
pub proof fn only_own_messages_are_read(record: EventRecord, agent: AgentPath)
    ensures
        record.agent@ != agent ==> corpus_texts(seq![record], agent).len() == 0,
        record.agent@ == agent ==> match record.event {
            SessionEvent::MessageCommitted { message } => corpus_texts(seq![record], agent) == message_texts(
                "m"@ + text::decimal(record.sequence as nat),
                message@,
            ),
            SessionEvent::Compaction { checkpoint } => corpus_texts(seq![record], agent) == message_texts(
                "c"@ + text::decimal(record.sequence as nat),
                checkpoint.message@,
            ),
            _ => corpus_texts(seq![record], agent).len() == 0,
        },
{
    assert(seq![record].drop_last() =~= seq![]);
    assert(corpus_texts(seq![record].drop_last(), agent) =~= seq![]);
    assert(corpus_texts(seq![record], agent) =~= record_texts(record, agent));
}

/// Whether a text is what a user block shows: what the user, a parent or a compaction wrote,
/// or what the harness notified, but not the passing state.
pub open spec fn shown_by_user(block: UserContentView, text: Seq<char>) -> bool {
    match block {
        UserContentView::Text { text: written } => text == written,
        UserContentView::ParentInput { text: written } => text == written,
        UserContentView::Compaction { text: written } => text == written,
        UserContentView::Runtime { text: written } => text == written && !"<skyhook_state>"@.is_prefix_of(written),
        UserContentView::Image { .. } => false,
    }
}

/// Each text of a user message is found under the number of its block, and nothing else is.
pub proof fn user_texts_are_found_by_block(prefix: Seq<char>, blocks: Seq<UserContentView>, entry: (Seq<char>, Seq<char>))
    ensures
        message_texts(prefix, MessageView::User(blocks)).contains(entry) <==> exists|i: int|
            0 <= i < blocks.len() && entry.0 == prefix + "/b"@ + text::decimal(i as nat) + Seq::<char>::empty()
                && shown_by_user(#[trigger] blocks[i], entry.1),
    decreases blocks.len(),
{
    let all = user_texts(prefix, blocks);
    if blocks.len() > 0 {
        let rest = blocks.drop_last();
        let earlier = user_texts(prefix, rest);
        user_texts_are_found_by_block(prefix, rest, entry);
        let last = blocks.len() - 1;
        assert forall|i: int| 0 <= i < rest.len() implies #[trigger] rest[i] == blocks[i] by {}
        if earlier.contains(entry) {
            let k = choose|k: int| 0 <= k < earlier.len() && earlier[k] == entry;
            assert(all[k] == entry);
            let i = choose|i: int|
                0 <= i < rest.len() && entry.0 == prefix + "/b"@ + text::decimal(i as nat) + Seq::<char>::empty()
                    && shown_by_user(#[trigger] rest[i], entry.1);
            assert(shown_by_user(blocks[i], entry.1));
        }
        if shown_by_user(blocks[last], entry.1) && entry.0 == prefix + "/b"@ + text::decimal(last as nat) + Seq::<
            char,
        >::empty() {
            assert(all.last() == entry);
            assert(all[all.len() - 1] == entry);
        }
        if all.contains(entry) && !earlier.contains(entry) {
            let k = choose|k: int| 0 <= k < all.len() && all[k] == entry;
            if k < earlier.len() {
                assert(earlier[k] == entry);
            }
            assert(shown_by_user(blocks[last], entry.1));
        }
        if exists|i: int|
            0 <= i < blocks.len() && entry.0 == prefix + "/b"@ + text::decimal(i as nat) + Seq::<char>::empty()
                && shown_by_user(#[trigger] blocks[i], entry.1) {
            let i = choose|i: int|
                0 <= i < blocks.len() && entry.0 == prefix + "/b"@ + text::decimal(i as nat) + Seq::<char>::empty()
                    && shown_by_user(#[trigger] blocks[i], entry.1);
            if i < rest.len() {
                assert(shown_by_user(rest[i], entry.1));
            }
        }
    }
}

/// Whether an entry is what an assistant block at a position shows: its text, or the
/// arguments of its call, but no reasoning.
pub open spec fn shown_by_assistant(
    prefix: Seq<char>,
    block: AssistantContentView,
    index: nat,
    entry: (Seq<char>, Seq<char>),
) -> bool {
    match block {
        AssistantContentView::Text { text } => entry.1 == text && entry.0 == prefix + "/b"@ + text::decimal(index)
            + Seq::<char>::empty(),
        AssistantContentView::ToolCall(call) => entry.1 == json::pretty(call.arguments) && entry.0 == prefix + "/b"@
            + text::decimal(index) + "/arguments"@,
        AssistantContentView::Reasoning { .. } => false,
    }
}

/// Each text and each call of an assistant message is found under the number of its block,
/// and no reasoning is.
pub proof fn assistant_texts_are_found_by_block(
    prefix: Seq<char>,
    blocks: Seq<AssistantContentView>,
    entry: (Seq<char>, Seq<char>),
)
    ensures
        message_texts(prefix, MessageView::Assistant(blocks)).contains(entry) <==> exists|i: int|
            0 <= i < blocks.len() && shown_by_assistant(prefix, #[trigger] blocks[i], i as nat, entry),
    decreases blocks.len(),
{
    let all = assistant_texts(prefix, blocks);
    if blocks.len() > 0 {
        let rest = blocks.drop_last();
        let earlier = assistant_texts(prefix, rest);
        assistant_texts_are_found_by_block(prefix, rest, entry);
        let last = blocks.len() - 1;
        assert forall|i: int| 0 <= i < rest.len() implies #[trigger] rest[i] == blocks[i] by {}
        if earlier.contains(entry) {
            let k = choose|k: int| 0 <= k < earlier.len() && earlier[k] == entry;
            assert(all[k] == entry);
            let i = choose|i: int|
                0 <= i < rest.len() && shown_by_assistant(prefix, #[trigger] rest[i], i as nat, entry);
            assert(shown_by_assistant(prefix, blocks[i], i as nat, entry));
        }
        if shown_by_assistant(prefix, blocks[last], last as nat, entry) {
            assert(all.last() == entry);
            assert(all[all.len() - 1] == entry);
        }
        if all.contains(entry) && !earlier.contains(entry) {
            let k = choose|k: int| 0 <= k < all.len() && all[k] == entry;
            if k < earlier.len() {
                assert(earlier[k] == entry);
            }
            assert(shown_by_assistant(prefix, blocks[last], last as nat, entry));
        }
        if exists|i: int|
            0 <= i < blocks.len() && shown_by_assistant(prefix, #[trigger] blocks[i], i as nat, entry) {
            let i = choose|i: int|
                0 <= i < blocks.len() && shown_by_assistant(prefix, #[trigger] blocks[i], i as nat, entry);
            if i < rest.len() {
                assert(shown_by_assistant(prefix, rest[i], i as nat, entry));
            }
        }
    }
}

proof fn lemma_result_count(prefix: Seq<char>, results: Seq<ToolResultView>)
    ensures
        result_texts(prefix, results).len() == 2 * results.len(),
    decreases results.len(),
{
    if results.len() > 0 {
        lemma_result_count(prefix, results.drop_last());
    }
}

/// Each result of a tool message is found under the number of its block, its value and its
/// console output apart, in this order.
pub proof fn results_are_found_by_block(prefix: Seq<char>, results: Seq<ToolResultView>, index: int)
    requires
        0 <= index < results.len(),
    ensures
        ({
            let all = message_texts(prefix, MessageView::Tool(results));
            &&& all.len() == 2 * results.len()
            &&& all[2 * index] == (
                prefix + "/b"@ + text::decimal(index as nat) + "/result"@,
                json::pretty(results[index].result),
            )
            &&& all[2 * index + 1] == (
                prefix + "/b"@ + text::decimal(index as nat) + "/console"@,
                results[index].console_output,
            )
        }),
    decreases results.len(),
{
    let rest = results.drop_last();
    let earlier = result_texts(prefix, rest);
    let all = result_texts(prefix, results);
    let last = results.last();
    let value = (block_reference(prefix, rest.len(), "/result"@), json::pretty(last.result));
    let console = (block_reference(prefix, rest.len(), "/console"@), last.console_output);
    lemma_result_count(prefix, rest);
    assert(all == earlier.push(value).push(console));
    if index < rest.len() {
        results_are_found_by_block(prefix, rest, index);
        assert(rest[index] == results[index]);
        assert(all[2 * index] == earlier[2 * index]);
        assert(all[2 * index + 1] == earlier[2 * index + 1]);
    } else {
        assert(results[index] == last);
        assert(all[2 * index] == value);
        assert(all[2 * index + 1] == console);
    }
}

/// What is read are the entries that are asked for, in their order: those under the source,
/// where one is given, whose text holds the query whatever its case, where one is given.
pub proof fn searches_find_what_is_asked_for(
    entries: Seq<(Seq<char>, Seq<char>)>,
    source: Option<Seq<char>>,
    query: Option<Seq<char>>,
)
    ensures
        matching(entries, source, query) == entries.filter(
            |entry: (Seq<char>, Seq<char>)|
                (source is None || entry.0 == source->0) && (query is None || exists|before: Seq<char>, after: Seq<char>|
                    text::lowered(entry.1) == #[trigger] (before + text::lowered(query->0) + after)),
        ),
{
    let test = |entry: (Seq<char>, Seq<char>)| asked(entry, source, query);
    let direct = |entry: (Seq<char>, Seq<char>)|
        (source is None || entry.0 == source->0) && (query is None || exists|before: Seq<char>, after: Seq<char>|
            text::lowered(entry.1) == #[trigger] (before + text::lowered(query->0) + after));
    model::selections_are_filters(entries, test);
    assert forall|entry: (Seq<char>, Seq<char>)| #[trigger] test(entry) == direct(entry) by {
        if let Some(part) = query {
            text::occurrences_stand_between(text::lowered(entry.1), text::lowered(part));
        }
    }
    assert(test =~= direct);
}

/// A request is refused for what is wrong with it, in this order: a limit that is not from
/// one to a hundred, a source that the history does not have, a cursor behind what matches.
/// Without a limit twenty chunks are asked for, and without a cursor the start.
pub proof fn requests_are_judged(entries: Seq<(Seq<char>, Seq<char>)>, args: HistoryArgs)
    ensures
        ({
            let limit: int = if args.limit is Some {
                args.limit->0 as int
            } else {
                20
            };
            let cursor: int = if args.cursor is Some {
                args.cursor->0 as int
            } else {
                0
            };
            let known = args.source is None || exists|i: int|
                0 <= i < entries.len() && (#[trigger] entries[i]).0 == args.source->0@;
            let matched = matching(entries, model::text_view(args.source), model::text_view(args.query));
            let fault = request_fault(entries, args);
            &&& limit < 1 || limit > 100 ==> fault == Some("limit must be between 1 and 100"@)
            &&& 1 <= limit <= 100 && !known ==> fault == Some("source was not found in your conversation"@)
            &&& 1 <= limit <= 100 && known && cursor > total_bytes(matched) ==> fault == Some(
                "cursor is past the matching history"@,
            )
            &&& 1 <= limit <= 100 && known && cursor <= total_bytes(matched) ==> fault is None
            &&& asked_limit(args) == limit
            &&& asked_cursor(args) == cursor
        }),
{
}

/// A snapshot is the records up to a sequence, in their order: without one, up to the last.
pub proof fn snapshots_end_at_a_sequence(records: Seq<EventRecord>, args: HistoryArgs, through: u64)
    ensures
        snapshot(records, through) == records.filter(|record: EventRecord| record.sequence <= through),
        args.through matches Some(last) ==> asked_through(records, args) == last,
        args.through is None && records.len() > 0 ==> asked_through(records, args) == records[records.len()
            - 1].sequence,
{
    model::selections_are_filters(records, |record: EventRecord| record.sequence <= through);
}

proof fn lemma_fill_full(
    matched: Seq<(Seq<char>, Seq<char>)>,
    index: int,
    offset: int,
    cursor: nat,
    entries: Seq<EntryView>,
    limit: nat,
)
    requires
        at_boundary(matched, index, offset, cursor),
        fill(matched, index, offset, cursor, entries, limit).next_cursor is Some,
    ensures
        ({
            let page = fill(matched, index, offset, cursor, entries, limit);
            page.entries.len() >= limit || exists|k: int|
                0 <= k < matched.len() && text::byte_len(
                    page_json(page.entries, Some(usize::MAX as nat), u64::MAX as nat),
                ) + text::byte_len((#[trigger] matched[k]).0) + 100 + 24 > 8192
        }),
    decreases matched.len() - index, text::byte_len(matched[index].1) - offset,
{
    if 0 <= index < matched.len() {
        let (source, content) = matched[index];
        let bytes = utf8::encode_utf8(content);
        utf8::encode_utf8_valid_utf8(content);
        lemma_all_bytes(matched, index);
        if offset >= bytes.len() {
            lemma_next_text(matched, index, cursor);
            lemma_fill_full(matched, index + 1, 0, cursor, entries, limit);
        } else if entries.len() >= limit || room(entries, source) < 4 {
            assert(matched[index].0 == source);
        } else {
            let available = room(entries, source);
            lemma_chunk_end(bytes, offset, available);
            let end = chunk_end(bytes, offset, available);
            lemma_chunk(matched, index, offset, end);
            let chunk = EntryView {
                source,
                offset: offset as nat,
                text: utf8::decode_utf8(bytes.subrange(offset, end)),
            };
            lemma_fill_full(
                matched,
                index,
                end,
                (cursor + (end - offset)) as nat,
                entries.push(chunk),
                limit,
            );
        }
    }
}

/// A page ends before the history does only where it has as many chunks as it may, or where
/// no other character is sure to fit into eight kibibytes.
pub proof fn pages_are_filled(matched: Seq<(Seq<char>, Seq<char>)>, cursor: nat, index: int, limit: nat)
    requires
        located(matched, cursor, index),
        !splits_character(matched, cursor, index),
        cursor <= total_bytes(matched),
        page_from(matched, cursor, index, limit).next_cursor is Some,
    ensures
        ({
            let page = page_from(matched, cursor, index, limit);
            page.entries.len() >= limit || exists|k: int|
                0 <= k < matched.len() && text::byte_len(
                    page_json(page.entries, Some(usize::MAX as nat), u64::MAX as nat),
                ) + text::byte_len((#[trigger] matched[k]).0) + 100 + 24 > 8192
        }),
{
    lemma_start(matched, cursor, index);
    lemma_fill_full(matched, index, cursor - total_bytes(matched.take(index)), cursor, seq![], limit);
}

/// A page lists its chunks in their order, separated by commas, each with its source, the
/// offset at which it begins and its text; behind them stand the cursor, where there is
/// more, and the sequence up to which the history was read.
pub proof fn pages_list_their_chunks(entries: Seq<EntryView>, entry: EntryView, cursor: nat, through: nat)
    ensures
        entries_json(seq![]).len() == 0,
        entries_json(entries.push(entry)) == if entries.len() == 0 {
            entry_json(entry)
        } else {
            entries_json(entries) + ","@ + entry_json(entry)
        },
        entry_json(entry) == "{\"source\":"@ + text::json_string(entry.source) + ",\"offset\":"@ + text::decimal(
            entry.offset,
        ) + ",\"text\":"@ + text::json_string(entry.text) + "}"@,
        page_json(entries, Some(cursor), through) == "{\"entries\":["@ + entries_json(entries) + "],\"next_cursor\":"@
            + text::decimal(cursor) + ",\"through\":"@ + text::decimal(through) + "}"@,
        page_json(entries, None, through) == "{\"entries\":["@ + entries_json(entries) + "],\"next_cursor\":"@ + "null"@
            + ",\"through\":"@ + text::decimal(through) + "}"@,
{
    assert(entries.push(entry).drop_last() =~= entries);
}

/// A request has one answer: no two pages, and no page beside a refusal.
pub proof fn requests_have_one_answer(
    entries: Seq<(Seq<char>, Seq<char>)>,
    args: HistoryArgs,
    left: Result<HistoryOutput, ToolError>,
    right: Result<HistoryOutput, ToolError>,
)
    requires
        page_answered(entries, args, left),
        page_answered(entries, args, right),
    ensures
        left is Ok <==> right is Ok,
        left is Ok ==> output_view(left->Ok_0) == output_view(right->Ok_0),
        left is Ok ==> model::views(left->Ok_0.entries@) == model::views(right->Ok_0.entries@)
            && left->Ok_0.next_cursor == right->Ok_0.next_cursor,
        left is Err ==> (left->Err_0 matches ToolError::InvalidArguments(fault) && (
        right->Err_0 matches ToolError::InvalidArguments(other) && fault@ == other@)),
{
    let matched = matching(entries, model::text_view(args.source), model::text_view(args.query));
    let cursor = asked_cursor(args);
    assert forall|a: int, b: int| #[trigger] located(matched, cursor, a) && #[trigger] located(matched, cursor, b) implies a
        == b by {
        cursors_are_located_once(matched, cursor, a, b);
    }
}

/// What a message shows comes in the order of its blocks, each text once.
pub proof fn texts_keep_the_order_of_blocks(
    prefix: Seq<char>,
    blocks: Seq<UserContentView>,
    block: UserContentView,
    written: Seq<char>,
    answer: Seq<AssistantContentView>,
    part: AssistantContentView,
    entry: (Seq<char>, Seq<char>),
)
    ensures
        ({
            let before = message_texts(prefix, MessageView::User(blocks));
            let after = message_texts(prefix, MessageView::User(blocks.push(block)));
            &&& after == before || after.len() == before.len() + 1 && after.drop_last() == before
            &&& shown_by_user(block, written) ==> after == before.push(
                (prefix + "/b"@ + text::decimal(blocks.len()) + Seq::<char>::empty(), written),
            )
        }),
        ({
            let before = message_texts(prefix, MessageView::Assistant(answer));
            let after = message_texts(prefix, MessageView::Assistant(answer.push(part)));
            &&& part is Reasoning ==> after == before
            &&& shown_by_assistant(prefix, part, answer.len(), entry) ==> after == before.push(entry)
        }),
{
    assert(blocks.push(block).drop_last() =~= blocks);
    assert(answer.push(part).drop_last() =~= answer);
    let before = user_texts(prefix, blocks);
    let after = user_texts(prefix, blocks.push(block));
    if let Some(text) = user_shown(block) {
        let shown = (block_reference(prefix, blocks.len(), seq![]), text);
        assert(after == before.push(shown));
        assert(before.push(shown).drop_last() =~= before);
    }
}

} // verus!
