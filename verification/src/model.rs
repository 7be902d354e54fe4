//! Chat messages, tool calls, token usage and the runtime of a conversation.
use vstd::prelude::*;

verus! {

/// Who a message is from.
#[derive(Debug, Clone, Copy, PartialEq, Eq, Structural)]
pub enum Role {
    User,
    Assistant,
    System,
}

/// How far a tool call has come.
#[derive(Debug, Clone)]
pub enum ToolCallStatus {
    Pending,
    Running,
    Success,
    Failed(String),
    Denied(String),
    AwaitingApproval,
}

/// One call of a tool.
#[derive(Debug, Clone)]
pub struct ToolCallRecord {
    pub id: String,
    pub tool_name: String,
    /// The arguments as JSON text.
    pub args: String,
    pub result: Option<String>,
    pub status: ToolCallStatus,
    pub approval_reason: Option<String>,
}

/// One piece of what an assistant said or did.
#[derive(Debug, Clone)]
pub enum StreamSegment {
    Text(String),
    Reasoning(String),
    ToolCall(ToolCallRecord),
}

/// A finished message.
#[derive(Debug, Clone)]
pub struct ChatMessage {
    pub role: Role,
    pub content: String,
    /// The local time of day at which it was made.
    pub timestamp: String,
    pub reasoning: String,
    pub segments: Vec<StreamSegment>,
    /// The content as HTML; empty where it has not been rendered.
    pub content_html: String,
}

/// A message on show: a finished one, or a placeholder for what is still coming
/// in under the number `handle`.
#[derive(Debug, Clone)]
pub enum UiMessage {
    Static(ChatMessage),
    Streaming { handle: u64 },
}

/// The tokens that requests used.
#[derive(Debug, Clone, Copy, PartialEq, Eq, Structural)]
pub struct TokenUsageRecord {
    pub prompt_tokens: u32,
    pub completion_tokens: u32,
    pub reasoning_tokens: u32,
    pub total_tokens: u32,
    pub cache_hit_tokens: u32,
    pub cache_miss_tokens: u32,
}

/// What a tool call came to, over plain texts.
pub enum StatusModel {
    Pending,
    Running,
    Success,
    Failed(Seq<char>),
    Denied(Seq<char>),
    AwaitingApproval,
}

/// A tool call over plain texts.
pub struct CallModel {
    pub id: Seq<char>,
    pub tool_name: Seq<char>,
    pub args: Seq<char>,
    pub result: Option<Seq<char>>,
    pub status: StatusModel,
    pub approval_reason: Option<Seq<char>>,
}

/// A segment over plain texts.
pub enum SegmentModel {
    Text(Seq<char>),
    Reasoning(Seq<char>),
    ToolCall(CallModel),
}

/// A finished message over plain texts.
pub struct MessageModel {
    pub role: Role,
    pub content: Seq<char>,
    pub timestamp: Seq<char>,
    pub reasoning: Seq<char>,
    pub segments: Seq<SegmentModel>,
    pub html: Seq<char>,
}

/// What an optional text holds.
pub open spec fn opt_text(s: Option<String>) -> Option<Seq<char>> {
    match s {
        Some(t) => Some(t@),
        None => None,
    }
}

impl View for ToolCallStatus {
    type V = StatusModel;

    open spec fn view(&self) -> StatusModel {
        match *self {
            ToolCallStatus::Pending => StatusModel::Pending,
            ToolCallStatus::Running => StatusModel::Running,
            ToolCallStatus::Success => StatusModel::Success,
            ToolCallStatus::Failed(s) => StatusModel::Failed(s@),
            ToolCallStatus::Denied(s) => StatusModel::Denied(s@),
            ToolCallStatus::AwaitingApproval => StatusModel::AwaitingApproval,
        }
    }
}

impl View for ToolCallRecord {
    type V = CallModel;

    open spec fn view(&self) -> CallModel {
        CallModel {
            id: self.id@,
            tool_name: self.tool_name@,
            args: self.args@,
            result: opt_text(self.result),
            status: self.status@,
            approval_reason: opt_text(self.approval_reason),
        }
    }
}

impl View for StreamSegment {
    type V = SegmentModel;

    open spec fn view(&self) -> SegmentModel {
        match *self {
            StreamSegment::Text(s) => SegmentModel::Text(s@),
            StreamSegment::Reasoning(s) => SegmentModel::Reasoning(s@),
            StreamSegment::ToolCall(c) => SegmentModel::ToolCall(c@),
        }
    }
}

/// Segments over plain texts.
pub open spec fn segment_models(s: Seq<StreamSegment>) -> Seq<SegmentModel> {
    s.map_values(|x: StreamSegment| x@)
}

impl View for ChatMessage {
    type V = MessageModel;

    open spec fn view(&self) -> MessageModel {
        MessageModel {
            role: self.role,
            content: self.content@,
            timestamp: self.timestamp@,
            reasoning: self.reasoning@,
            segments: segment_models(self.segments@),
            html: self.content_html@,
        }
    }
}

/// Messages over plain texts.
pub open spec fn message_models(s: Seq<ChatMessage>) -> Seq<MessageModel> {
    s.map_values(|m: ChatMessage| m@)
}

impl UiMessage {
    /// It stands for what is still coming in.
    pub open spec fn streaming(self) -> bool {
        self is Streaming
    }

    pub fn is_streaming(&self) -> (r: bool)
        ensures
            r == self.streaming(),
    {
        matches!(self, UiMessage::Streaming { .. })
    }

    /// It is a finished message of `role`.
    pub open spec fn from_role(self, role: Role) -> bool {
        self is Static && self->Static_0.role == role
    }

    /// Whether it is a finished message of `role`.
    pub fn is_from(&self, role: Role) -> (r: bool)
        ensures
            r == self.from_role(role),
    {
        match self {
            UiMessage::Static(m) => m.role == role,
            UiMessage::Streaming { .. } => false,
        }
    }
}

impl TokenUsageRecord {
    /// Nothing was used.
    pub open spec fn none() -> TokenUsageRecord {
        TokenUsageRecord {
            prompt_tokens: 0,
            completion_tokens: 0,
            reasoning_tokens: 0,
            total_tokens: 0,
            cache_hit_tokens: 0,
            cache_miss_tokens: 0,
        }
    }

    /// The sums of the two records fit the fields.
    pub open spec fn fits(self, more: TokenUsageRecord) -> bool {
        &&& self.prompt_tokens + more.prompt_tokens <= u32::MAX
        &&& self.completion_tokens + more.completion_tokens <= u32::MAX
        &&& self.reasoning_tokens + more.reasoning_tokens <= u32::MAX
        &&& self.total_tokens + more.total_tokens <= u32::MAX
        &&& self.cache_hit_tokens + more.cache_hit_tokens <= u32::MAX
        &&& self.cache_miss_tokens + more.cache_miss_tokens <= u32::MAX
    }

    /// `self` is the sum of the two records, field by field.
    pub open spec fn sum_of(self, a: TokenUsageRecord, b: TokenUsageRecord) -> bool {
        &&& self.prompt_tokens == a.prompt_tokens + b.prompt_tokens
        &&& self.completion_tokens == a.completion_tokens + b.completion_tokens
        &&& self.reasoning_tokens == a.reasoning_tokens + b.reasoning_tokens
        &&& self.total_tokens == a.total_tokens + b.total_tokens
        &&& self.cache_hit_tokens == a.cache_hit_tokens + b.cache_hit_tokens
        &&& self.cache_miss_tokens == a.cache_miss_tokens + b.cache_miss_tokens
    }

    /// Whether the sums of the two records fit the fields.
    pub fn can_take(&self, more: &TokenUsageRecord) -> (r: bool)
        ensures
            r == self.fits(*more),
    {
        more.prompt_tokens <= u32::MAX - self.prompt_tokens && more.completion_tokens <= u32::MAX
            - self.completion_tokens && more.reasoning_tokens <= u32::MAX - self.reasoning_tokens
            && more.total_tokens <= u32::MAX - self.total_tokens && more.cache_hit_tokens <= u32::MAX
            - self.cache_hit_tokens && more.cache_miss_tokens <= u32::MAX - self.cache_miss_tokens
    }

    /// The sum of the two records.
    pub fn plus(&self, more: &TokenUsageRecord) -> (r: TokenUsageRecord)
        requires
            self.fits(*more),
        ensures
            r.sum_of(*self, *more),
    {
        TokenUsageRecord {
            prompt_tokens: self.prompt_tokens + more.prompt_tokens,
            completion_tokens: self.completion_tokens + more.completion_tokens,
            reasoning_tokens: self.reasoning_tokens + more.reasoning_tokens,
            total_tokens: self.total_tokens + more.total_tokens,
            cache_hit_tokens: self.cache_hit_tokens + more.cache_hit_tokens,
            cache_miss_tokens: self.cache_miss_tokens + more.cache_miss_tokens,
        }
    }
}

impl Default for TokenUsageRecord {
    fn default() -> (r: TokenUsageRecord)
        ensures
            r == TokenUsageRecord::none(),
    {
        TokenUsageRecord {
            prompt_tokens: 0,
            completion_tokens: 0,
            reasoning_tokens: 0,
            total_tokens: 0,
            cache_hit_tokens: 0,
            cache_miss_tokens: 0,
        }
    }
}

/// Which tools an agent may use.
#[derive(Debug, Clone, Copy, PartialEq, Eq, Structural)]
pub enum ActionMode {
    Regular,
    Plan,
}

/// How much an agent may do without asking.
#[derive(Debug, Clone, Copy, PartialEq, Eq, Structural)]
pub enum AgentMode {
    Cautious,
    Ask,
    Auto,
    Unrestrained,
}

/// The key of an action mode.
pub open spec fn action_key(mode: ActionMode) -> Seq<char> {
    match mode {
        ActionMode::Regular => "regular"@,
        ActionMode::Plan => "plan"@,
    }
}

/// The key of an agent mode.
pub open spec fn agent_key(mode: AgentMode) -> Seq<char> {
    match mode {
        AgentMode::Cautious => "cautious"@,
        AgentMode::Ask => "ask"@,
        AgentMode::Auto => "auto"@,
        AgentMode::Unrestrained => "unrestrained"@,
    }
}

impl ActionMode {
    /// The key under which the mode stands in a form.
    pub fn as_key(self) -> (r: &'static str)
        ensures
            r@ == action_key(self),
    {
        match self {
            ActionMode::Regular => "regular",
            ActionMode::Plan => "plan",
        }
    }

    /// All modes, in the order in which they are offered.
    pub fn all() -> (r: Vec<ActionMode>)
        ensures
            r@ == seq![ActionMode::Regular, ActionMode::Plan],
    {
        vec![ActionMode::Regular, ActionMode::Plan]
    }
}

impl AgentMode {
    /// The key under which the mode stands in a form.
    pub fn as_key(self) -> (r: &'static str)
        ensures
            r@ == agent_key(self),
    {
        match self {
            AgentMode::Cautious => "cautious",
            AgentMode::Ask => "ask",
            AgentMode::Auto => "auto",
            AgentMode::Unrestrained => "unrestrained",
        }
    }

    /// All modes, from the most careful to the freest.
    pub fn all() -> (r: Vec<AgentMode>)
        ensures
            r@ == seq![AgentMode::Cautious, AgentMode::Ask, AgentMode::Auto, AgentMode::Unrestrained],
    {
        vec![AgentMode::Cautious, AgentMode::Ask, AgentMode::Auto, AgentMode::Unrestrained]
    }
}

/// The keys tell the action modes apart.
pub proof fn action_keys_differ(a: ActionMode, b: ActionMode)
    requires
        action_key(a) == action_key(b),
    ensures
        a == b,
{
    reveal_strlit("regular");
    reveal_strlit("plan");
    assert("regular"@.len() == 7 && "plan"@.len() == 4);
}

/// The keys tell the agent modes apart.
pub proof fn agent_keys_differ(a: AgentMode, b: AgentMode)
    requires
        agent_key(a) == agent_key(b),
    ensures
        a == b,
{
    reveal_strlit("cautious");
    reveal_strlit("ask");
    reveal_strlit("auto");
    reveal_strlit("unrestrained");
    assert("cautious"@.len() == 8 && "ask"@.len() == 3 && "auto"@.len() == 4 && "unrestrained"@.len() == 12);
}

/// The context window of a model that states none.
pub const DEFAULT_CONTEXT_WINDOW: u32 = 1_000_000;

/// What is known of a conversation while the application runs.
#[derive(Debug)]
pub struct ConversationRuntime {
    pub messages: Vec<UiMessage>,
    /// Counts the events that ask for a new drawing.
    pub tick: u64,
    /// The number of the agent's handle.
    pub agent_handler: Option<u64>,
    pub agent_config_id: Option<String>,
    pub agent_mode: AgentMode,
    /// The number of the token that cancels the present run.
    pub cancel_token: Option<u64>,
    pub accumulated_usage: TokenUsageRecord,
    pub last_loop_usage: Option<TokenUsageRecord>,
    pub request_count: u64,
    pub context_window: u32,
}

impl ConversationRuntime {
    /// A conversation without messages, in the agent mode `mode`.
    pub open spec fn fresh(self, mode: AgentMode) -> bool {
        &&& self.messages@.len() == 0
        &&& self.tick == 0
        &&& self.agent_handler is None
        &&& self.agent_config_id is None
        &&& self.agent_mode == mode
        &&& self.cancel_token is None
        &&& self.accumulated_usage == TokenUsageRecord::none()
        &&& self.last_loop_usage is None
        &&& self.request_count == 0
        &&& self.context_window == DEFAULT_CONTEXT_WINDOW
    }

    /// A conversation without messages, in the agent mode `mode`.
    pub fn empty(mode: AgentMode) -> (r: ConversationRuntime)
        ensures
            r.fresh(mode),
    {
        ConversationRuntime {
            messages: Vec::new(),
            tick: 0,
            agent_handler: None,
            agent_config_id: None,
            agent_mode: mode,
            cancel_token: None,
            accumulated_usage: TokenUsageRecord::default(),
            last_loop_usage: None,
            request_count: 0,
            context_window: DEFAULT_CONTEXT_WINDOW,
        }
    }
}

/// Tokens are added up field by field, so the total stays that of its parts.
pub proof fn usage_is_added_up_field_by_field(sum: TokenUsageRecord, a: TokenUsageRecord, b: TokenUsageRecord)
    requires
        sum.sum_of(a, b),
    ensures
        sum.prompt_tokens + sum.completion_tokens == (a.prompt_tokens + a.completion_tokens) + (b.prompt_tokens + b.completion_tokens),
        a.prompt_tokens + a.completion_tokens == a.total_tokens && b.prompt_tokens + b.completion_tokens == b.total_tokens
            ==> sum.prompt_tokens + sum.completion_tokens == sum.total_tokens,
        sum.cache_hit_tokens + sum.cache_miss_tokens == (a.cache_hit_tokens + b.cache_hit_tokens) + (a.cache_miss_tokens
            + b.cache_miss_tokens),
        sum.reasoning_tokens - a.reasoning_tokens == b.reasoning_tokens,
        sum.prompt_tokens >= a.prompt_tokens && sum.prompt_tokens >= b.prompt_tokens,
        a.prompt_tokens == 0 ==> sum.prompt_tokens == b.prompt_tokens,
        a.completion_tokens == 0 ==> sum.completion_tokens == b.completion_tokens,
        a.cache_hit_tokens == 0 ==> sum.cache_hit_tokens == b.cache_hit_tokens,
{
}

} // verus!
