//! The provider-neutral conversation: messages, requests and usage.

use vstd::prelude::*;
use crate::json;
use crate::json::{Json, JsonView};
use crate::model;
use crate::model::{
    duplicate_all, duplicate_optional, duplicate_text, same_all, same_number, same_optional, same_text,
    Modeled,
};

verus! {

/// An image by its stored content.
#[derive(Debug, PartialEq, Eq)]
pub struct ImageReference {
    /// Hash of the stored bytes.
    pub sha256: String,
    pub media_type: String,
    pub name: String,
    /// Size of the stored bytes.
    pub bytes: u64,
    /// The encoded payload, where it has been loaded.
    pub data_base64: Option<String>,
}

/// The mathematical content of an `ImageReference`.
#[verifier::ext_equal]
pub struct ImageReferenceView {
    pub sha256: Seq<char>,
    pub media_type: Seq<char>,
    pub name: Seq<char>,
    pub bytes: u64,
    pub data_base64: Option<Seq<char>>,
}

impl View for ImageReference {
    type V = ImageReferenceView;

    open spec fn view(&self) -> ImageReferenceView {
        ImageReferenceView {
            sha256: self.sha256@,
            media_type: self.media_type@,
            name: self.name@,
            bytes: self.bytes,
            data_base64: model::text_view(self.data_base64),
        }
    }
}

impl Modeled for ImageReference {
    open spec fn alike(left: ImageReferenceView, right: ImageReferenceView) -> bool {
        &&& left.sha256 == right.sha256
        &&& left.media_type == right.media_type
        &&& left.name == right.name
        &&& left.bytes == right.bytes
        &&& left.data_base64 == right.data_base64
    }

    fn duplicate(&self) -> (copy: Self) {
        ImageReference {
            sha256: self.sha256.clone(),
            media_type: self.media_type.clone(),
            name: self.name.clone(),
            bytes: self.bytes,
            data_base64: duplicate_text(&self.data_base64),
        }
    }

    fn same(&self, other: &Self) -> (equal: bool) {
        self.sha256 == other.sha256 && self.media_type == other.media_type && self.name == other.name && self.bytes == other.bytes && same_text(&self.data_base64, &other.data_base64)
    }
}

impl Clone for ImageReference {
    fn clone(&self) -> (copy: Self)
        ensures
            copy@ == self@,
    {
        self.duplicate()
    }
}

/// One block of a user message.
#[derive(Debug, PartialEq, Eq)]
pub enum UserContent {
    /// What the user wrote.
    Text { text: String },
    /// An image that the user attached.
    Image { image: ImageReference },
    /// State or notifications from the harness.
    Runtime { text: String },
    /// What a parent agent told its child.
    ParentInput { text: String },
    /// Continuation guidance of a compaction.
    Compaction { text: String },
}

/// The mathematical content of an `UserContent`.
#[verifier::ext_equal]
pub enum UserContentView {
    Text { text: Seq<char> },
    Image { image: ImageReferenceView },
    Runtime { text: Seq<char> },
    ParentInput { text: Seq<char> },
    Compaction { text: Seq<char> },
}

impl View for UserContent {
    type V = UserContentView;

    open spec fn view(&self) -> UserContentView {
        match *self {
            UserContent::Text { text } => UserContentView::Text { text: text@ },
            UserContent::Image { image } => UserContentView::Image { image: image@ },
            UserContent::Runtime { text } => UserContentView::Runtime { text: text@ },
            UserContent::ParentInput { text } => UserContentView::ParentInput { text: text@ },
            UserContent::Compaction { text } => UserContentView::Compaction { text: text@ },
        }
    }
}

impl Modeled for UserContent {
    open spec fn alike(left: UserContentView, right: UserContentView) -> bool {
        match (left, right) {
            (UserContentView::Text { text: a0 }, UserContentView::Text { text: b0 }) => a0 == b0,
            (UserContentView::Image { image: a0 }, UserContentView::Image { image: b0 }) => ImageReference::alike(a0, b0),
            (UserContentView::Runtime { text: a0 }, UserContentView::Runtime { text: b0 }) => a0 == b0,
            (UserContentView::ParentInput { text: a0 }, UserContentView::ParentInput { text: b0 }) => a0 == b0,
            (UserContentView::Compaction { text: a0 }, UserContentView::Compaction { text: b0 }) => a0 == b0,
            _ => false,
        }
    }

    fn duplicate(&self) -> (copy: Self) {
        match self {
            UserContent::Text { text } => UserContent::Text { text: text.clone() },
            UserContent::Image { image } => UserContent::Image { image: image.duplicate() },
            UserContent::Runtime { text } => UserContent::Runtime { text: text.clone() },
            UserContent::ParentInput { text } => UserContent::ParentInput { text: text.clone() },
            UserContent::Compaction { text } => UserContent::Compaction { text: text.clone() },
        }
    }

    fn same(&self, other: &Self) -> (equal: bool) {
        match (self, other) {
            (UserContent::Text { text: a0 }, UserContent::Text { text: b0 }) => *a0 == *b0,
            (UserContent::Image { image: a0 }, UserContent::Image { image: b0 }) => a0.same(b0),
            (UserContent::Runtime { text: a0 }, UserContent::Runtime { text: b0 }) => *a0 == *b0,
            (UserContent::ParentInput { text: a0 }, UserContent::ParentInput { text: b0 }) => *a0 == *b0,
            (UserContent::Compaction { text: a0 }, UserContent::Compaction { text: b0 }) => *a0 == *b0,
            _ => false,
        }
    }
}

impl Clone for UserContent {
    fn clone(&self) -> (copy: Self)
        ensures
            copy@ == self@,
    {
        self.duplicate()
    }
}

/// A tool call that the model asked for.
#[derive(Debug, PartialEq, Eq)]
pub struct ToolCall {
    pub id: String,
    pub name: String,
    pub arguments: Json,
}

/// The mathematical content of a `ToolCall`.
#[verifier::ext_equal]
pub struct ToolCallView {
    pub id: Seq<char>,
    pub name: Seq<char>,
    pub arguments: JsonView,
}

impl View for ToolCall {
    type V = ToolCallView;

    open spec fn view(&self) -> ToolCallView {
        ToolCallView {
            id: self.id@,
            name: self.name@,
            arguments: self.arguments@,
        }
    }
}

impl Modeled for ToolCall {
    open spec fn alike(left: ToolCallView, right: ToolCallView) -> bool {
        &&& left.id == right.id
        &&& left.name == right.name
        &&& Json::alike(left.arguments, right.arguments)
    }

    fn duplicate(&self) -> (copy: Self) {
        ToolCall {
            id: self.id.clone(),
            name: self.name.clone(),
            arguments: self.arguments.duplicate(),
        }
    }

    fn same(&self, other: &Self) -> (equal: bool) {
        self.id == other.id && self.name == other.name && self.arguments.same(&other.arguments)
    }
}

impl Clone for ToolCall {
    fn clone(&self) -> (copy: Self)
        ensures
            copy@ == self@,
    {
        self.duplicate()
    }
}

/// One block of an assistant message.
#[derive(Debug, PartialEq, Eq)]
pub enum AssistantContent {
    Text { text: String },
    /// Reasoning, with the payload that lets the provider replay it.
    Reasoning { text: String, opaque: Option<Json> },
    ToolCall(ToolCall),
}

/// The mathematical content of an `AssistantContent`.
#[verifier::ext_equal]
pub enum AssistantContentView {
    Text { text: Seq<char> },
    Reasoning { text: Seq<char>, opaque: Option<JsonView> },
    ToolCall(ToolCallView),
}

impl View for AssistantContent {
    type V = AssistantContentView;

    open spec fn view(&self) -> AssistantContentView {
        match *self {
            AssistantContent::Text { text } => AssistantContentView::Text { text: text@ },
            AssistantContent::Reasoning { text, opaque } => AssistantContentView::Reasoning { text: text@, opaque: model::optional(opaque) },
            AssistantContent::ToolCall(content) => AssistantContentView::ToolCall(content@),
        }
    }
}

impl Modeled for AssistantContent {
    open spec fn alike(left: AssistantContentView, right: AssistantContentView) -> bool {
        match (left, right) {
            (AssistantContentView::Text { text: a0 }, AssistantContentView::Text { text: b0 }) => a0 == b0,
            (AssistantContentView::Reasoning { text: a0, opaque: a1 }, AssistantContentView::Reasoning { text: b0, opaque: b1 }) => a0 == b0 && model::optional_alike::<Json>(a1, b1),
            (AssistantContentView::ToolCall(a), AssistantContentView::ToolCall(b)) => ToolCall::alike(a, b),
            _ => false,
        }
    }

    fn duplicate(&self) -> (copy: Self) {
        match self {
            AssistantContent::Text { text } => AssistantContent::Text { text: text.clone() },
            AssistantContent::Reasoning { text, opaque } => AssistantContent::Reasoning { text: text.clone(), opaque: duplicate_optional(opaque) },
            AssistantContent::ToolCall(content) => AssistantContent::ToolCall(content.duplicate()),
        }
    }

    fn same(&self, other: &Self) -> (equal: bool) {
        match (self, other) {
            (AssistantContent::Text { text: a0 }, AssistantContent::Text { text: b0 }) => *a0 == *b0,
            (AssistantContent::Reasoning { text: a0, opaque: a1 }, AssistantContent::Reasoning { text: b0, opaque: b1 }) => *a0 == *b0 && same_optional(a1, b1),
            (AssistantContent::ToolCall(a), AssistantContent::ToolCall(b)) => a.same(b),
            _ => false,
        }
    }
}

impl Clone for AssistantContent {
    fn clone(&self) -> (copy: Self)
        ensures
            copy@ == self@,
    {
        self.duplicate()
    }
}

/// What a tool call returned to the model.
#[derive(Debug, PartialEq, Eq)]
pub struct ToolResult {
    pub call_id: String,
    pub name: String,
    pub result: Json,
    pub console_output: String,
    pub images: Vec<ImageReference>,
    pub is_error: bool,
}

/// The mathematical content of a `ToolResult`.
#[verifier::ext_equal]
pub struct ToolResultView {
    pub call_id: Seq<char>,
    pub name: Seq<char>,
    pub result: JsonView,
    pub console_output: Seq<char>,
    pub images: Seq<ImageReferenceView>,
    pub is_error: bool,
}

impl View for ToolResult {
    type V = ToolResultView;

    open spec fn view(&self) -> ToolResultView {
        ToolResultView {
            call_id: self.call_id@,
            name: self.name@,
            result: self.result@,
            console_output: self.console_output@,
            images: model::views(self.images@),
            is_error: self.is_error,
        }
    }
}

impl Modeled for ToolResult {
    open spec fn alike(left: ToolResultView, right: ToolResultView) -> bool {
        &&& left.call_id == right.call_id
        &&& left.name == right.name
        &&& Json::alike(left.result, right.result)
        &&& left.console_output == right.console_output
        &&& model::all_alike::<ImageReference>(left.images, right.images)
        &&& left.is_error == right.is_error
    }

    fn duplicate(&self) -> (copy: Self) {
        ToolResult {
            call_id: self.call_id.clone(),
            name: self.name.clone(),
            result: self.result.duplicate(),
            console_output: self.console_output.clone(),
            images: duplicate_all(&self.images),
            is_error: self.is_error,
        }
    }

    fn same(&self, other: &Self) -> (equal: bool) {
        self.call_id == other.call_id && self.name == other.name && self.result.same(&other.result) && self.console_output == other.console_output && same_all(&self.images, &other.images) && self.is_error == other.is_error
    }
}

impl Clone for ToolResult {
    fn clone(&self) -> (copy: Self)
        ensures
            copy@ == self@,
    {
        self.duplicate()
    }
}

/// One message of a conversation.
#[derive(Debug, PartialEq, Eq)]
pub enum Message {
    User(Vec<UserContent>),
    Assistant(Vec<AssistantContent>),
    Tool(Vec<ToolResult>),
}

/// The mathematical content of a `Message`.
#[verifier::ext_equal]
pub enum MessageView {
    User(Seq<UserContentView>),
    Assistant(Seq<AssistantContentView>),
    Tool(Seq<ToolResultView>),
}

impl View for Message {
    type V = MessageView;

    open spec fn view(&self) -> MessageView {
        match *self {
            Message::User(content) => MessageView::User(model::views(content@)),
            Message::Assistant(content) => MessageView::Assistant(model::views(content@)),
            Message::Tool(content) => MessageView::Tool(model::views(content@)),
        }
    }
}

impl Modeled for Message {
    open spec fn alike(left: MessageView, right: MessageView) -> bool {
        match (left, right) {
            (MessageView::User(a), MessageView::User(b)) => model::all_alike::<UserContent>(a, b),
            (MessageView::Assistant(a), MessageView::Assistant(b)) => model::all_alike::<AssistantContent>(a, b),
            (MessageView::Tool(a), MessageView::Tool(b)) => model::all_alike::<ToolResult>(a, b),
            _ => false,
        }
    }

    fn duplicate(&self) -> (copy: Self) {
        match self {
            Message::User(content) => Message::User(duplicate_all(content)),
            Message::Assistant(content) => Message::Assistant(duplicate_all(content)),
            Message::Tool(content) => Message::Tool(duplicate_all(content)),
        }
    }

    fn same(&self, other: &Self) -> (equal: bool) {
        match (self, other) {
            (Message::User(a), Message::User(b)) => same_all(a, b),
            (Message::Assistant(a), Message::Assistant(b)) => same_all(a, b),
            (Message::Tool(a), Message::Tool(b)) => same_all(a, b),
            _ => false,
        }
    }
}

impl Clone for Message {
    fn clone(&self) -> (copy: Self)
        ensures
            copy@ == self@,
    {
        self.duplicate()
    }
}

/// One part of the system prompt.
#[derive(Debug, PartialEq, Eq)]
pub struct SystemSegment {
    pub text: String,
    pub cache: bool,
}

/// The mathematical content of a `SystemSegment`.
#[verifier::ext_equal]
pub struct SystemSegmentView {
    pub text: Seq<char>,
    pub cache: bool,
}

impl View for SystemSegment {
    type V = SystemSegmentView;

    open spec fn view(&self) -> SystemSegmentView {
        SystemSegmentView {
            text: self.text@,
            cache: self.cache,
        }
    }
}

impl Modeled for SystemSegment {
    open spec fn alike(left: SystemSegmentView, right: SystemSegmentView) -> bool {
        &&& left.text == right.text
        &&& left.cache == right.cache
    }

    fn duplicate(&self) -> (copy: Self) {
        SystemSegment {
            text: self.text.clone(),
            cache: self.cache,
        }
    }

    fn same(&self, other: &Self) -> (equal: bool) {
        self.text == other.text && self.cache == other.cache
    }
}

impl Clone for SystemSegment {
    fn clone(&self) -> (copy: Self)
        ensures
            copy@ == self@,
    {
        self.duplicate()
    }
}

/// A tool as it is offered to the model.
#[derive(Debug, PartialEq, Eq)]
pub struct ToolDefinition {
    pub name: String,
    pub description: String,
    pub input_schema: Json,
}

/// The mathematical content of a `ToolDefinition`.
#[verifier::ext_equal]
pub struct ToolDefinitionView {
    pub name: Seq<char>,
    pub description: Seq<char>,
    pub input_schema: JsonView,
}

impl View for ToolDefinition {
    type V = ToolDefinitionView;

    open spec fn view(&self) -> ToolDefinitionView {
        ToolDefinitionView {
            name: self.name@,
            description: self.description@,
            input_schema: self.input_schema@,
        }
    }
}

impl Modeled for ToolDefinition {
    open spec fn alike(left: ToolDefinitionView, right: ToolDefinitionView) -> bool {
        &&& left.name == right.name
        &&& left.description == right.description
        &&& Json::alike(left.input_schema, right.input_schema)
    }

    fn duplicate(&self) -> (copy: Self) {
        ToolDefinition {
            name: self.name.clone(),
            description: self.description.clone(),
            input_schema: self.input_schema.duplicate(),
        }
    }

    fn same(&self, other: &Self) -> (equal: bool) {
        self.name == other.name && self.description == other.description && self.input_schema.same(&other.input_schema)
    }
}

impl Clone for ToolDefinition {
    fn clone(&self) -> (copy: Self)
        ensures
            copy@ == self@,
    {
        self.duplicate()
    }
}

/// The schema that a structured answer has to fit.
#[derive(Debug, PartialEq, Eq)]
pub struct ResponseSchema {
    pub name: String,
    pub schema: Json,
}

/// The mathematical content of a `ResponseSchema`.
#[verifier::ext_equal]
pub struct ResponseSchemaView {
    pub name: Seq<char>,
    pub schema: JsonView,
}

impl View for ResponseSchema {
    type V = ResponseSchemaView;

    open spec fn view(&self) -> ResponseSchemaView {
        ResponseSchemaView {
            name: self.name@,
            schema: self.schema@,
        }
    }
}

impl Modeled for ResponseSchema {
    open spec fn alike(left: ResponseSchemaView, right: ResponseSchemaView) -> bool {
        &&& left.name == right.name
        &&& Json::alike(left.schema, right.schema)
    }

    fn duplicate(&self) -> (copy: Self) {
        ResponseSchema {
            name: self.name.clone(),
            schema: self.schema.duplicate(),
        }
    }

    fn same(&self, other: &Self) -> (equal: bool) {
        self.name == other.name && self.schema.same(&other.schema)
    }
}

impl Clone for ResponseSchema {
    fn clone(&self) -> (copy: Self)
        ensures
            copy@ == self@,
    {
        self.duplicate()
    }
}

/// One request to a model.
#[derive(Debug, PartialEq, Eq)]
pub struct ModelRequest {
    pub model: String,
    pub system: Vec<SystemSegment>,
    pub messages: Vec<Message>,
    pub tools: Vec<ToolDefinition>,
    pub response_schema: Option<ResponseSchema>,
    pub reasoning: Option<String>,
    pub max_output_tokens: Option<u64>,
    pub correlation: Option<String>,
}

/// The mathematical content of a `ModelRequest`.
#[verifier::ext_equal]
pub struct ModelRequestView {
    pub model: Seq<char>,
    pub system: Seq<SystemSegmentView>,
    pub messages: Seq<MessageView>,
    pub tools: Seq<ToolDefinitionView>,
    pub response_schema: Option<ResponseSchemaView>,
    pub reasoning: Option<Seq<char>>,
    pub max_output_tokens: Option<u64>,
    pub correlation: Option<Seq<char>>,
}

impl View for ModelRequest {
    type V = ModelRequestView;

    open spec fn view(&self) -> ModelRequestView {
        ModelRequestView {
            model: self.model@,
            system: model::views(self.system@),
            messages: model::views(self.messages@),
            tools: model::views(self.tools@),
            response_schema: model::optional(self.response_schema),
            reasoning: model::text_view(self.reasoning),
            max_output_tokens: self.max_output_tokens,
            correlation: model::text_view(self.correlation),
        }
    }
}

impl Modeled for ModelRequest {
    open spec fn alike(left: ModelRequestView, right: ModelRequestView) -> bool {
        &&& left.model == right.model
        &&& model::all_alike::<SystemSegment>(left.system, right.system)
        &&& model::all_alike::<Message>(left.messages, right.messages)
        &&& model::all_alike::<ToolDefinition>(left.tools, right.tools)
        &&& model::optional_alike::<ResponseSchema>(left.response_schema, right.response_schema)
        &&& left.reasoning == right.reasoning
        &&& left.max_output_tokens == right.max_output_tokens
        &&& left.correlation == right.correlation
    }

    fn duplicate(&self) -> (copy: Self) {
        ModelRequest {
            model: self.model.clone(),
            system: duplicate_all(&self.system),
            messages: duplicate_all(&self.messages),
            tools: duplicate_all(&self.tools),
            response_schema: duplicate_optional(&self.response_schema),
            reasoning: duplicate_text(&self.reasoning),
            max_output_tokens: self.max_output_tokens,
            correlation: duplicate_text(&self.correlation),
        }
    }

    fn same(&self, other: &Self) -> (equal: bool) {
        self.model == other.model && same_all(&self.system, &other.system) && same_all(&self.messages, &other.messages) && same_all(&self.tools, &other.tools) && same_optional(&self.response_schema, &other.response_schema) && same_text(&self.reasoning, &other.reasoning) && same_number(self.max_output_tokens, other.max_output_tokens) && same_text(&self.correlation, &other.correlation)
    }
}

impl Clone for ModelRequest {
    fn clone(&self) -> (copy: Self)
        ensures
            copy@ == self@,
    {
        self.duplicate()
    }
}

/// A configured model.
#[derive(Debug, PartialEq, Eq)]
pub struct ModelProfile {
    pub provider: String,
    pub model: String,
    pub reasoning: Option<String>,
    /// Tokens that fit in the context window.
    pub max_context: u64,
    /// Tokens that an answer may take.
    pub max_output: u64,
    pub supports_images: bool,
}

/// The mathematical content of a `ModelProfile`.
#[verifier::ext_equal]
pub struct ModelProfileView {
    pub provider: Seq<char>,
    pub model: Seq<char>,
    pub reasoning: Option<Seq<char>>,
    pub max_context: u64,
    pub max_output: u64,
    pub supports_images: bool,
}

impl View for ModelProfile {
    type V = ModelProfileView;

    open spec fn view(&self) -> ModelProfileView {
        ModelProfileView {
            provider: self.provider@,
            model: self.model@,
            reasoning: model::text_view(self.reasoning),
            max_context: self.max_context,
            max_output: self.max_output,
            supports_images: self.supports_images,
        }
    }
}

impl Modeled for ModelProfile {
    open spec fn alike(left: ModelProfileView, right: ModelProfileView) -> bool {
        &&& left.provider == right.provider
        &&& left.model == right.model
        &&& left.reasoning == right.reasoning
        &&& left.max_context == right.max_context
        &&& left.max_output == right.max_output
        &&& left.supports_images == right.supports_images
    }

    fn duplicate(&self) -> (copy: Self) {
        ModelProfile {
            provider: self.provider.clone(),
            model: self.model.clone(),
            reasoning: duplicate_text(&self.reasoning),
            max_context: self.max_context,
            max_output: self.max_output,
            supports_images: self.supports_images,
        }
    }

    fn same(&self, other: &Self) -> (equal: bool) {
        self.provider == other.provider && self.model == other.model && same_text(&self.reasoning, &other.reasoning) && self.max_context == other.max_context && self.max_output == other.max_output && self.supports_images == other.supports_images
    }
}

impl Clone for ModelProfile {
    fn clone(&self) -> (copy: Self)
        ensures
            copy@ == self@,
    {
        self.duplicate()
    }
}

/// Tokens that a provider reports for one request.
#[derive(Clone, Copy, Debug, PartialEq, Eq, Structural)]
pub struct Usage {
    pub input_tokens: u64,
    pub cached_input_tokens: u64,
    pub output_tokens: u64,
}

/// The sum of two counters, or the largest counter where it does not fit.
pub open spec fn saturating_sum(left: u64, right: u64) -> u64 {
    if left + right > u64::MAX {
        u64::MAX
    } else {
        (left + right) as u64
    }
}

impl Default for Usage {
    fn default() -> (usage: Usage)
        ensures
            usage == (Usage { input_tokens: 0, cached_input_tokens: 0, output_tokens: 0 }),
    {
        Usage { input_tokens: 0, cached_input_tokens: 0, output_tokens: 0 }
    }
}

impl Usage {
    /// No tokens at all.
    pub open spec fn none() -> Usage {
        Usage { input_tokens: 0, cached_input_tokens: 0, output_tokens: 0 }
    }

    /// The counters of two usages together.
    pub open spec fn plus(self, other: Usage) -> Usage {
        Usage {
            input_tokens: saturating_sum(self.input_tokens, other.input_tokens),
            cached_input_tokens: saturating_sum(self.cached_input_tokens, other.cached_input_tokens),
            output_tokens: saturating_sum(self.output_tokens, other.output_tokens),
        }
    }

    /// Whether the provider reported any tokens.
    pub fn is_none(&self) -> (none: bool)
        ensures
            none == (*self == Usage::none()),
    {
        self.input_tokens == 0 && self.cached_input_tokens == 0 && self.output_tokens == 0
    }

    /// Adds the counters of another usage.
    pub fn accumulate(&mut self, other: Usage)
        ensures
            *final(self) == old(self).plus(other),
    {
        self.input_tokens = self.input_tokens.saturating_add(other.input_tokens);
        self.cached_input_tokens = self.cached_input_tokens.saturating_add(other.cached_input_tokens);
        self.output_tokens = self.output_tokens.saturating_add(other.output_tokens);
    }
}

/// Why a model stopped.
#[derive(Clone, Copy, Debug, PartialEq, Eq, Structural)]
pub enum StopReason {
    EndTurn,
    ToolUse,
    MaxTokens,
    ContentFilter,
    Aborted,
}

/// Model profiles are alike where they are equal: any difference counts.
pub proof fn alike_profiles_are_equal(left: ModelProfileView, right: ModelProfileView)
    ensures
        ModelProfile::alike(left, right) <==> left == right,
{
}

/// Images and blocks of the user are alike where they are equal.
pub proof fn alike_blocks_are_equal(
    left: UserContentView,
    right: UserContentView,
    image: ImageReferenceView,
    other: ImageReferenceView,
)
    ensures
        ImageReference::alike(image, other) <==> image == other,
        UserContent::alike(left, right) <==> left == right,
{
}

/// Messages that are alike come from one side and have as many blocks, and those are alike
/// one by one. Messages of the user are alike where they are equal.
pub proof fn alike_messages_agree(left: MessageView, right: MessageView, index: int)
    requires
        Message::alike(left, right),
    ensures
        match left {
            MessageView::User(content) => right == left,
            MessageView::Assistant(content) => {
                &&& right matches MessageView::Assistant(other)
                &&& other.len() == content.len()
                &&& 0 <= index < content.len() ==> match content[index] {
                    AssistantContentView::Text { .. } => other[index] == content[index],
                    AssistantContentView::Reasoning { text, .. } => other[index] matches AssistantContentView::Reasoning {
                        text: again,
                        ..
                    } && again == text,
                    AssistantContentView::ToolCall(call) => other[index] matches AssistantContentView::ToolCall(again)
                        && again.id == call.id && again.name == call.name,
                }
            },
            MessageView::Tool(results) => {
                &&& right matches MessageView::Tool(other)
                &&& other.len() == results.len()
                &&& 0 <= index < results.len() ==> {
                    &&& other[index].call_id == results[index].call_id
                    &&& other[index].name == results[index].name
                    &&& other[index].console_output == results[index].console_output
                    &&& other[index].images.len() == results[index].images.len()
                    &&& other[index].is_error == results[index].is_error
                }
            },
        },
{
    match (left, right) {
        (MessageView::User(a), MessageView::User(b)) => {
            assert forall|i: int| 0 <= i < a.len() implies #[trigger] a[i] == b[i] by {
                assert(UserContent::alike(a[i], b[i]));
            }
            assert(a =~= b);
        },
        (MessageView::Assistant(a), MessageView::Assistant(b)) => {
            if 0 <= index < a.len() {
                assert(AssistantContent::alike(a[index], b[index]));
            }
        },
        (MessageView::Tool(a), MessageView::Tool(b)) => {
            if 0 <= index < a.len() {
                assert(ToolResult::alike(a[index], b[index]));
            }
        },
        _ => {},
    }
}

/// Requests that are alike agree in everything that goes to the model: its name and
/// instructions, how it reasons, how much it may answer, and how many messages and tools
/// there are, and which tools.
pub proof fn alike_requests_agree(left: ModelRequestView, right: ModelRequestView, index: int)
    requires
        ModelRequest::alike(left, right),
    ensures
        left.model == right.model,
        left.system == right.system,
        left.messages.len() == right.messages.len(),
        0 <= index < left.messages.len() ==> Message::alike(left.messages[index], right.messages[index]),
        left.tools.len() == right.tools.len(),
        0 <= index < left.tools.len() ==> left.tools[index].name == right.tools[index].name
            && left.tools[index].description == right.tools[index].description,
        left.response_schema is Some <==> right.response_schema is Some,
        left.response_schema matches Some(schema) ==> schema.name == right.response_schema->0.name,
        left.reasoning == right.reasoning,
        left.max_output_tokens == right.max_output_tokens,
        left.correlation == right.correlation,
{
    assert forall|i: int| 0 <= i < left.system.len() implies #[trigger] left.system[i] == right.system[i] by {
        assert(SystemSegment::alike(left.system[i], right.system[i]));
    }
    assert(left.system =~= right.system);
    if 0 <= index < left.messages.len() {
        assert(Message::alike(left.messages[index], right.messages[index]));
    }
    if 0 <= index < left.tools.len() {
        assert(ToolDefinition::alike(left.tools[index], right.tools[index]));
    }
}

/// A template is like itself, as long as its schemas name nothing twice.
pub proof fn templates_are_like_themselves(template: ModelRequestView)
    requires
        template.messages.len() == 0,
        forall|i: int|
            0 <= i < template.tools.len() ==> json::has_distinct_keys((#[trigger] template.tools[i]).input_schema),
        template.response_schema matches Some(response) ==> json::has_distinct_keys(response.schema),
    ensures
        ModelRequest::alike(template, template),
{
    assert forall|i: int| 0 <= i < template.tools.len() implies ToolDefinition::alike(
        #[trigger] template.tools[i],
        template.tools[i],
    ) by {
        json::values_are_like_themselves(template.tools[i].input_schema);
    }
    assert forall|i: int| 0 <= i < template.system.len() implies SystemSegment::alike(
        #[trigger] template.system[i],
        template.system[i],
    ) by {}
    if let Some(response) = template.response_schema {
        json::values_are_like_themselves(response.schema);
    }
}

/// Counters add up as far as there are numbers, and stop at the largest one.
pub proof fn sums_stop_at_the_largest_counter(left: u64, right: u64)
    ensures
        left + right <= u64::MAX ==> saturating_sum(left, right) == left + right,
        left + right > u64::MAX ==> saturating_sum(left, right) == u64::MAX,
{
}

} // verus!
