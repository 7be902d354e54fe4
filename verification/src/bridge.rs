//! What the workspace shows of a run of an agent: a placeholder while its answer
//! comes in, the finished message afterwards, the tokens that were used, and the
//! channel for the user's approvals.
use crate::error::{clock_text, local_clock, ErrorInfo, ErrorSeverity, ErrorSignal, ErrorSource};
use crate::model::{
    segment_models, AgentMode, ChatMessage, ConversationRuntime, Role, SegmentModel, StreamSegment, TokenUsageRecord,
    UiMessage, DEFAULT_CONTEXT_WINDOW,
};
use crate::sending::runtime_or_fresh;
use crate::text::same_text;
use crate::workspace::{opened_messages, without_last_answers, Workspace};
use vstd::prelude::*;

verus! {

/// One run of an agent in a conversation.
#[derive(Debug)]
pub struct UiContext {
    pub project_id: String,
    pub conversation_id: String,
    /// The number of what is coming in.
    pub segments: Option<u64>,
    /// The tokens that are stored for the conversation.
    pub db_usage: TokenUsageRecord,
    /// The requests that are stored for the conversation.
    pub db_requests: u64,
}

/// Why a run ended early.
#[derive(Debug)]
pub enum InterruptState {
    Cancelled,
    /// The error, in short and with its causes.
    Error(String, String),
}

/// There is a placeholder among the messages.
pub open spec fn any_streaming(s: Seq<UiMessage>) -> bool {
    exists|i: int| 0 <= i < s.len() && (#[trigger] s[i]).streaming()
}

/// How many of the first `n` messages are placeholders.
pub open spec fn streaming_count(s: Seq<UiMessage>, n: nat) -> nat
    decreases n,
{
    if n == 0 {
        0
    } else if s[n - 1].streaming() {
        streaming_count(s, (n - 1) as nat) + 1
    } else {
        streaming_count(s, (n - 1) as nat)
    }
}

/// The first placeholder from message `from` on.
pub open spec fn streaming_place(s: Seq<UiMessage>, from: int) -> Option<int>
    decreases s.len() - from,
{
    if from < 0 || from >= s.len() {
        None
    } else if s[from].streaming() {
        Some(from)
    } else {
        streaming_place(s, from + 1)
    }
}

/// The first `n` messages without placeholders.
pub open spec fn finished(s: Seq<UiMessage>, n: nat) -> Seq<UiMessage>
    decreases n,
{
    if n == 0 {
        Seq::empty()
    } else if s[n - 1].streaming() {
        finished(s, (n - 1) as nat)
    } else {
        finished(s, (n - 1) as nat).push(s[n - 1])
    }
}

/// The messages with `m` in place of the first placeholder.
pub open spec fn settled(s: Seq<UiMessage>, m: UiMessage) -> Seq<UiMessage> {
    match streaming_place(s, 0) {
        Some(i) => s.update(i, m),
        None => s,
    }
}

fn find_streaming(s: &Vec<UiMessage>) -> (r: Option<usize>)
    ensures
        match r {
            Some(i) => i < s@.len() && streaming_place(s@, 0) == Some(i as int) && any_streaming(s@),
            None => streaming_place(s@, 0) is None && !any_streaming(s@),
        },
{
    let mut i: usize = 0;
    while i < s.len()
        invariant
            i <= s@.len(),
            streaming_place(s@, 0) == streaming_place(s@, i as int),
            forall|k: int| 0 <= k < i ==> !(#[trigger] s@[k]).streaming(),
        decreases s@.len() - i,
    {
        if s[i].is_streaming() {
            return Some(i);
        }
        i = i + 1;
    }
    None
}

fn keep_finished(all: Vec<UiMessage>) -> (r: Vec<UiMessage>)
    ensures
        r@ == finished(all@, all@.len()),
{
    let mut rest = all;
    let ghost s = rest@;
    let n = rest.len();
    let mut r: Vec<UiMessage> = Vec::new();
    let mut i: usize = 0;
    while i < n
        invariant
            i <= n == s.len(),
            rest@ == s.skip(i as int),
            r@ == finished(s, i as nat),
        decreases n - i,
    {
        let m = rest.remove(0);
        assert(rest@ =~= s.skip(i + 1));
        if !m.is_streaming() {
            r.push(m);
        }
        i = i + 1;
    }
    r
}

/// The texts of the first `n` segments, joined.
pub open spec fn said(s: Seq<SegmentModel>, n: nat) -> Seq<char>
    decreases n,
{
    if n == 0 {
        Seq::empty()
    } else if s[n - 1] is Text {
        said(s, (n - 1) as nat) + s[n - 1]->Text_0
    } else {
        said(s, (n - 1) as nat)
    }
}

/// The thoughts of the first `n` segments, joined.
pub open spec fn thought(s: Seq<SegmentModel>, n: nat) -> Seq<char>
    decreases n,
{
    if n == 0 {
        Seq::empty()
    } else if s[n - 1] is Reasoning {
        thought(s, (n - 1) as nat) + s[n - 1]->Reasoning_0
    } else {
        thought(s, (n - 1) as nat)
    }
}

/// `m` is the assistant's message with these segments: its content is what was
/// said, its reasoning what was thought.
pub open spec fn built_from(m: ChatMessage, segments: Seq<StreamSegment>, stamp: Seq<char>) -> bool {
    let s = segment_models(segments);
    &&& m.role == Role::Assistant
    &&& m.content@ == said(s, s.len())
    &&& m.timestamp@ == stamp
    &&& m.reasoning@ == thought(s, s.len())
    &&& m.segments@ == segments
    &&& m.content_html@.len() == 0
}

/// The finished message with these segments, made at `stamp`.
pub fn build_static_message_at(snapshot: Vec<StreamSegment>, stamp: String) -> (r: ChatMessage)
    ensures
        built_from(r, snapshot@, stamp@),
{
    let mut content = String::new();
    let mut reasoning = String::new();
    let ghost s = segment_models(snapshot@);
    let mut i: usize = 0;
    while i < snapshot.len()
        invariant
            i <= snapshot@.len(),
            s == segment_models(snapshot@),
            content@ == said(s, i as nat),
            reasoning@ == thought(s, i as nat),
        decreases snapshot@.len() - i,
    {
        assert(s[i as int] == snapshot@[i as int]@);
        match &snapshot[i] {
            StreamSegment::Text(t) => {
                content.append(t.as_str());
            },
            StreamSegment::Reasoning(t) => {
                reasoning.append(t.as_str());
            },
            StreamSegment::ToolCall(_) => {},
        }
        i = i + 1;
    }
    ChatMessage {
        role: Role::Assistant,
        content,
        timestamp: stamp,
        reasoning,
        segments: snapshot,
        content_html: String::new(),
    }
}

/// The finished message with these segments, made now.
pub fn build_static_message(snapshot: Vec<StreamSegment>) -> (r: ChatMessage)
    ensures
        clock_text(r.timestamp@),
        built_from(r, snapshot@, r.timestamp@),
{
    build_static_message_at(snapshot, local_clock())
}

/// The texts without those that are `id`.
pub open spec fn ids_without(s: Seq<String>, id: Seq<char>, n: nat) -> Seq<String>
    decreases n,
{
    if n == 0 {
        Seq::empty()
    } else if s[n - 1]@ == id {
        ids_without(s, id, (n - 1) as nat)
    } else {
        ids_without(s, id, (n - 1) as nat).push(s[n - 1])
    }
}

fn drop_id(all: &Vec<String>, id: &str) -> (r: Vec<String>)
    ensures
        r@ == ids_without(all@, id@, all@.len()),
{
    let mut r: Vec<String> = Vec::new();
    let mut i: usize = 0;
    while i < all.len()
        invariant
            i <= all@.len(),
            r@ == ids_without(all@, id@, i as nat),
        decreases all@.len() - i,
    {
        if !same_text(all[i].as_str(), id) {
            r.push(all[i].clone());
        }
        i = i + 1;
    }
    r
}

/// A fresh runtime with the tokens and requests that are stored.
pub open spec fn restored(r: ConversationRuntime, mode: AgentMode, usage: TokenUsageRecord, requests: u64) -> bool {
    &&& r.messages@.len() == 0
    &&& r.tick == 0
    &&& r.agent_handler is None
    &&& r.agent_config_id is None
    &&& r.agent_mode == mode
    &&& r.cancel_token is None
    &&& r.accumulated_usage == usage
    &&& r.last_loop_usage is None
    &&& r.request_count == requests
    &&& r.context_window == DEFAULT_CONTEXT_WINDOW
}

/// The runtime with one more request and the tokens that it used.
pub open spec fn counted(r: ConversationRuntime, was: ConversationRuntime, usage: Option<TokenUsageRecord>) -> bool {
    match usage {
        Some(u) => r.accumulated_usage.sum_of(was.accumulated_usage, u) && r.last_loop_usage == Some(u) && r == (
        ConversationRuntime {
            accumulated_usage: r.accumulated_usage,
            last_loop_usage: r.last_loop_usage,
            request_count: (was.request_count + 1) as u64,
            ..was
        }),
        None => r == (ConversationRuntime { request_count: (was.request_count + 1) as u64, ..was }),
    }
}

/// The counters of the runtime under `key` can take one more request.
pub open spec fn countable(w: Workspace, key: Seq<char>, usage: Option<TokenUsageRecord>) -> bool {
    w.runtimes@.dom().contains(key) ==> w.runtimes@[key].request_count < u64::MAX && (usage is Some
        ==> w.runtimes@[key].accumulated_usage.fits(usage->0))
}

/// Adds the tokens of one request to a runtime and counts the request.
fn count_request(rt: &mut ConversationRuntime, usage: &Option<TokenUsageRecord>)
    requires
        old(rt).request_count < u64::MAX,
        usage is Some ==> old(rt).accumulated_usage.fits(usage->0),
    ensures
        counted(*final(rt), *old(rt), *usage),
{
    if let Some(u) = usage {
        rt.accumulated_usage = rt.accumulated_usage.plus(u);
        rt.last_loop_usage = Some(*u);
    }
    rt.request_count = rt.request_count + 1;
}

/// An error of an agent, as it is reported.
pub open spec fn agent_error(e: ErrorInfo, title: Seq<char>, message: Seq<char>, detail: Seq<char>) -> bool {
    &&& e.code@ == "AGENT_ERROR"@
    &&& e.title@ == title
    &&& e.message@ == message
    &&& e.detail is Some
    &&& e.detail->0@ == detail
    &&& e.severity == ErrorSeverity::Warning
    &&& e.source == ErrorSource::Agent
    &&& clock_text(e.timestamp@)
}

/// `after` shows an agent's error in the banner, and otherwise what `before`
/// shows.
pub open spec fn banner_reports(
    before: ErrorSignal,
    after: ErrorSignal,
    title: Seq<char>,
    message: Seq<char>,
    detail: Seq<char>,
) -> bool {
    &&& after.banner is Some
    &&& agent_error(after.banner->0, title, message, detail)
    &&& after.modal == before.modal
    &&& after.toasts@ == before.toasts@
}

fn report(errors: &mut ErrorSignal, title: &str, message: &str, detail: &str)
    ensures
        banner_reports(*old(errors), *final(errors), title@, message@, detail@),
{
    let e = ErrorInfo::new("AGENT_ERROR", title, message, ErrorSeverity::Warning, ErrorSource::Agent);
    errors.push(e.with_detail(detail));
}

/// A run is over: nothing is coming in, neither in the workspace nor in the
/// project and conversation of the run, and no approval is awaited.
pub open spec fn over(after: Workspace, before: Workspace, project_id: Seq<char>, key: Seq<char>) -> bool {
    &&& !after.is_streaming
    &&& after.streaming_project_id@ == ids_without(
        before.streaming_project_id@,
        project_id,
        before.streaming_project_id@.len(),
    )
    &&& after.streaming_states@ == before.streaming_states@.remove(key)
    &&& after.approval_tx@ == before.approval_tx@.remove(key)
}

/// The messages of a conversation into which an answer starts to come in: there
/// is one placeholder for it.
pub open spec fn with_placeholder(s: Seq<UiMessage>, handle: u64) -> Seq<UiMessage> {
    if any_streaming(s) {
        s
    } else {
        s.push(UiMessage::Streaming { handle })
    }
}

impl UiContext {
    /// An answer starts to come in under the number `handle`. A conversation has
    /// one placeholder for it, also when the answer goes on after tools were
    /// called.
    pub fn on_streaming(&mut self, w: &mut Workspace, handle: u64)
        ensures
            *final(self) == (UiContext { segments: Some(handle), ..*old(self) }),
            ({
                let key = old(self).conversation_id@;
                let had = old(w).runtimes@.dom().contains(key);
                let messages = if had {
                    old(w).runtimes@[key].messages@
                } else {
                    Seq::<UiMessage>::empty()
                };
                let rt = final(w).runtimes@[key];
                &&& final(w).approval_tx@ == old(w).approval_tx@.remove(key)
                &&& final(w).runtimes@.dom().contains(key)
                &&& final(w).runtimes@ == old(w).runtimes@.insert(key, rt)
                &&& rt.messages@ == with_placeholder(messages, handle)
                &&& had ==> rt == (ConversationRuntime { messages: rt.messages, ..old(w).runtimes@[key] })
                &&& !had ==> exists|was: ConversationRuntime| #[trigger]
                    restored(was, old(w).default_mode, old(self).db_usage, old(self).db_requests) && rt == (
                    ConversationRuntime { messages: rt.messages, ..was })
                &&& final(w).streaming_states@ == if any_streaming(messages) {
                    old(w).streaming_states@
                } else {
                    old(w).streaming_states@.insert(key, handle)
                }
            }),
            *final(w) == (Workspace {
                approval_tx: final(w).approval_tx,
                runtimes: final(w).runtimes,
                streaming_states: final(w).streaming_states,
                ..*old(w)
            }),
    {
        let _ = w.approval_tx.remove(self.conversation_id.as_str());
        self.segments = Some(handle);
        let ghost runtimes = w.runtimes@;
        let ghost key = self.conversation_id@;
        let mut rt = match w.runtimes.remove(self.conversation_id.as_str()) {
            Some(rt) => rt,
            None => {
                let mut rt = ConversationRuntime::empty(w.default_mode);
                rt.accumulated_usage = self.db_usage;
                rt.request_count = self.db_requests;
                assert(restored(rt, w.default_mode, self.db_usage, self.db_requests));
                assert(rt.messages@ =~= Seq::<UiMessage>::empty());
                rt
            },
        };
        if find_streaming(&rt.messages).is_none() {
            rt.messages.push(UiMessage::Streaming { handle });
            w.streaming_states.insert(self.conversation_id.clone(), handle);
        }
        assert(runtimes.remove(key).insert(key, rt) =~= runtimes.insert(key, rt));
        w.runtimes.insert(self.conversation_id.clone(), rt);
    }

    /// Tools are about to run: the request is counted at once, and the user's
    /// approvals go to `channel`.
    pub fn on_executing(&mut self, w: &mut Workspace, usage: Option<TokenUsageRecord>, channel: Option<u64>)
        requires
            countable(*old(w), old(self).conversation_id@, usage),
        ensures
            *final(self) == *old(self),
            ({
                let key = old(self).conversation_id@;
                &&& if old(w).runtimes@.dom().contains(key) {
                    &&& final(w).runtimes@.dom().contains(key)
                    &&& final(w).runtimes@ == old(w).runtimes@.insert(key, final(w).runtimes@[key])
                    &&& counted(final(w).runtimes@[key], old(w).runtimes@[key], usage)
                } else {
                    final(w).runtimes@ == old(w).runtimes@
                }
                &&& final(w).approval_tx@ == match channel {
                    Some(c) => old(w).approval_tx@.insert(key, c),
                    None => old(w).approval_tx@,
                }
            }),
            *final(w) == (Workspace {
                approval_tx: final(w).approval_tx,
                runtimes: final(w).runtimes,
                ..*old(w)
            }),
    {
        let ghost runtimes = w.runtimes@;
        let ghost key = self.conversation_id@;
        match w.runtimes.remove(self.conversation_id.as_str()) {
            Some(mut rt) => {
                count_request(&mut rt, &usage);
                assert(runtimes.remove(key).insert(key, rt) =~= runtimes.insert(key, rt));
                w.runtimes.insert(self.conversation_id.clone(), rt);
            },
            None => {
                assert(runtimes.remove(key) =~= runtimes);
            },
        }
        if let Some(c) = channel {
            w.approval_tx.insert(self.conversation_id.clone(), c);
        }
    }

    fn end_run(&self, w: &mut Workspace)
        ensures
            over(*final(w), *old(w), self.project_id@, self.conversation_id@),
            *final(w) == (Workspace {
                is_streaming: final(w).is_streaming,
                streaming_project_id: final(w).streaming_project_id,
                streaming_states: final(w).streaming_states,
                approval_tx: final(w).approval_tx,
                ..*old(w)
            }),
    {
        let _ = w.approval_tx.remove(self.conversation_id.as_str());
        w.is_streaming = false;
        let rest = drop_id(&w.streaming_project_id, self.project_id.as_str());
        w.streaming_project_id = rest;
        let _ = w.streaming_states.remove(self.conversation_id.as_str());
    }

    /// The answer is complete: the request is counted, and the finished message,
    /// made at `stamp` of the segments that came in, takes the place of the
    /// placeholder.
    pub fn on_done_at(&mut self, w: &mut Workspace, usage: Option<TokenUsageRecord>, snapshot: Vec<StreamSegment>, stamp: String)
        requires
            countable(*old(w), old(self).conversation_id@, usage),
        ensures
            *final(self) == (UiContext { segments: None, ..*old(self) }),
            ({
                let key = old(self).conversation_id@;
                &&& over(*final(w), *old(w), old(self).project_id@, key)
                &&& if old(w).runtimes@.dom().contains(key) {
                    let was = old(w).runtimes@[key];
                    let rt = final(w).runtimes@[key];
                    &&& final(w).runtimes@.dom().contains(key)
                    &&& final(w).runtimes@ == old(w).runtimes@.insert(key, rt)
                    &&& exists|between: ConversationRuntime| #[trigger]
                        counted(between, was, usage) && rt == (ConversationRuntime { messages: rt.messages, ..between })
                    &&& if old(self).segments is Some {
                        exists|m: ChatMessage| #[trigger]
                            built_from(m, snapshot@, stamp@) && rt.messages@ == settled(
                                was.messages@,
                                UiMessage::Static(m),
                            )
                    } else {
                        rt.messages@ == was.messages@
                    }
                } else {
                    final(w).runtimes@ == old(w).runtimes@
                }
            }),
            *final(w) == (Workspace {
                runtimes: final(w).runtimes,
                is_streaming: final(w).is_streaming,
                streaming_project_id: final(w).streaming_project_id,
                streaming_states: final(w).streaming_states,
                approval_tx: final(w).approval_tx,
                ..*old(w)
            }),
    {
        let ghost runtimes = w.runtimes@;
        let ghost key = self.conversation_id@;
        match w.runtimes.remove(self.conversation_id.as_str()) {
            Some(mut rt) => {
                let ghost was = rt;
                count_request(&mut rt, &usage);
                assert(counted(rt, was, usage));
                let ghost between = rt;
                if self.segments.is_some() {
                    let m = build_static_message_at(snapshot, stamp);
                    assert(built_from(m, snapshot@, stamp@));
                    if let Some(i) = find_streaming(&rt.messages) {
                        rt.messages.set(i, UiMessage::Static(m));
                    }
                    assert(rt.messages@ == settled(was.messages@, UiMessage::Static(m)));
                }
                assert(counted(between, was, usage) && rt == (ConversationRuntime {
                    messages: rt.messages,
                    ..between
                }));
                assert(runtimes.remove(key).insert(key, rt) =~= runtimes.insert(key, rt));
                w.runtimes.insert(self.conversation_id.clone(), rt);
            },
            None => {
                assert(runtimes.remove(key) =~= runtimes);
            },
        }
        self.segments = None;
        self.end_run(w);
    }

    /// The answer is complete: the finished message is made now.
    pub fn on_done(&mut self, w: &mut Workspace, usage: Option<TokenUsageRecord>, snapshot: Vec<StreamSegment>)
        requires
            countable(*old(w), old(self).conversation_id@, usage),
        ensures
            *final(self) == (UiContext { segments: None, ..*old(self) }),
            ({
                let key = old(self).conversation_id@;
                &&& over(*final(w), *old(w), old(self).project_id@, key)
                &&& if old(w).runtimes@.dom().contains(key) {
                    let was = old(w).runtimes@[key];
                    let rt = final(w).runtimes@[key];
                    &&& final(w).runtimes@.dom().contains(key)
                    &&& final(w).runtimes@ == old(w).runtimes@.insert(key, rt)
                    &&& exists|between: ConversationRuntime| #[trigger]
                        counted(between, was, usage) && rt == (ConversationRuntime { messages: rt.messages, ..between })
                    &&& if old(self).segments is Some {
                        exists|m: ChatMessage| #[trigger]
                            built_from(m, snapshot@, m.timestamp@) && clock_text(m.timestamp@) && rt.messages@ == settled(
                                was.messages@,
                                UiMessage::Static(m),
                            )
                    } else {
                        rt.messages@ == was.messages@
                    }
                } else {
                    final(w).runtimes@ == old(w).runtimes@
                }
            }),
            *final(w) == (Workspace {
                runtimes: final(w).runtimes,
                is_streaming: final(w).is_streaming,
                streaming_project_id: final(w).streaming_project_id,
                streaming_states: final(w).streaming_states,
                approval_tx: final(w).approval_tx,
                ..*old(w)
            }),
    {
        self.on_done_at(w, usage, snapshot, local_clock())
    }

    /// The run ended early: its placeholder goes, and an error is reported.
    pub fn on_interrupt(&mut self, w: &mut Workspace, interrupt: &InterruptState)
        ensures
            *final(self) == *old(self),
            ({
                let key = old(self).conversation_id@;
                &&& over(*final(w), *old(w), old(self).project_id@, key)
                &&& if old(w).runtimes@.dom().contains(key) {
                    let was = old(w).runtimes@[key];
                    let rt = final(w).runtimes@[key];
                    &&& final(w).runtimes@.dom().contains(key)
                    &&& final(w).runtimes@ == old(w).runtimes@.insert(key, rt)
                    &&& rt.messages@ == finished(was.messages@, was.messages@.len())
                    &&& rt == (ConversationRuntime { messages: rt.messages, ..was })
                } else {
                    final(w).runtimes@ == old(w).runtimes@
                }
            }),
            match *interrupt {
                InterruptState::Cancelled => final(w).error_signal == old(w).error_signal,
                InterruptState::Error(message, detail) => banner_reports(
                    old(w).error_signal,
                    final(w).error_signal,
                    "Agent 执行失败"@,
                    message@,
                    detail@,
                ),
            },
            *final(w) == (Workspace {
                runtimes: final(w).runtimes,
                is_streaming: final(w).is_streaming,
                streaming_project_id: final(w).streaming_project_id,
                streaming_states: final(w).streaming_states,
                approval_tx: final(w).approval_tx,
                error_signal: final(w).error_signal,
                ..*old(w)
            }),
    {
        let ghost runtimes = w.runtimes@;
        let ghost key = self.conversation_id@;
        match w.runtimes.remove(self.conversation_id.as_str()) {
            Some(mut rt) => {
                let all = rt.messages;
                rt.messages = keep_finished(all);
                assert(runtimes.remove(key).insert(key, rt) =~= runtimes.insert(key, rt));
                w.runtimes.insert(self.conversation_id.clone(), rt);
            },
            None => {
                assert(runtimes.remove(key) =~= runtimes);
            },
        }
        if let InterruptState::Error(message, detail) = interrupt {
            report(&mut w.error_signal, "Agent 执行失败", message.as_str(), detail.as_str());
        }
        self.end_run(w);
    }

    /// Something came in: the conversation is to be drawn anew.
    pub fn on_event(&self, w: &mut Workspace)
        requires
            old(w).runtimes@.dom().contains(self.conversation_id@) ==> old(w).runtimes@[self.conversation_id@].tick
                < u64::MAX,
        ensures
            final(w).runtimes@.dom().contains(self.conversation_id@),
            final(w).runtimes@ == old(w).runtimes@.insert(
                self.conversation_id@,
                final(w).runtimes@[self.conversation_id@],
            ),
            exists|was: ConversationRuntime| #[trigger]
                runtime_or_fresh(*old(w), self.conversation_id@, was) && final(w).runtimes@[self.conversation_id@] == (
                ConversationRuntime { tick: (was.tick + 1) as u64, ..was }),
            *final(w) == (Workspace { runtimes: final(w).runtimes, ..*old(w) }),
    {
        let ghost runtimes = w.runtimes@;
        let ghost key = self.conversation_id@;
        let mut rt = w.take_runtime(self.conversation_id.as_str());
        assert(runtime_or_fresh(*old(w), key, rt));
        rt.tick = rt.tick + 1;
        assert(runtimes.remove(key).insert(key, rt) =~= runtimes.insert(key, rt));
        w.runtimes.insert(self.conversation_id.clone(), rt);
    }
}

impl Workspace {
    /// A run begins. `failure` says, in short and with its causes, why the agent
    /// could not be made ready; then the error is reported and there is no run.
    pub fn begin_run(&mut self, failure: &Option<(String, String)>) -> (r: bool)
        ensures
            r == (failure is None),
            final(self).is_streaming,
            match *failure {
                Some(f) => banner_reports(
                    old(self).error_signal,
                    final(self).error_signal,
                    "Agent init fail"@,
                    (f.0)@,
                    (f.1)@,
                ),
                None => final(self).error_signal == old(self).error_signal,
            },
            *final(self) == (Workspace {
                is_streaming: true,
                error_signal: final(self).error_signal,
                ..*old(self)
            }),
    {
        self.is_streaming = true;
        match failure {
            Some(f) => {
                report(&mut self.error_signal, "Agent init fail", f.0.as_str(), f.1.as_str());
                false
            },
            None => true,
        }
    }

    /// The agent of a run: the conversation's own, or `fresh` where it has none,
    /// which is then its own.
    pub fn handler_for_run(&mut self, conv_id: &str, fresh: u64) -> (r: u64)
        ensures
            final(self).runtimes@.dom().contains(conv_id@),
            final(self).runtimes@ == old(self).runtimes@.insert(conv_id@, final(self).runtimes@[conv_id@]),
            exists|was: ConversationRuntime| #[trigger]
                runtime_or_fresh(*old(self), conv_id@, was) && r == (match was.agent_handler {
                    Some(h) => h,
                    None => fresh,
                }) && final(self).runtimes@[conv_id@] == (ConversationRuntime { agent_handler: Some(r), ..was }),
            *final(self) == (Workspace { runtimes: final(self).runtimes, ..*old(self) }),
    {
        let ghost runtimes = self.runtimes@;
        let mut rt = self.take_runtime(conv_id);
        assert(runtime_or_fresh(*old(self), conv_id@, rt));
        let r: u64 = match rt.agent_handler {
            Some(h) => h,
            None => fresh,
        };
        rt.agent_handler = Some(r);
        assert(runtimes.remove(conv_id@).insert(conv_id@, rt) =~= runtimes.insert(conv_id@, rt));
        self.runtimes.insert(conv_id.to_owned(), rt);
        r
    }
}

proof fn lemma_no_streaming(s: Seq<UiMessage>, n: nat)
    requires
        n <= s.len(),
        forall|i: int| 0 <= i < n ==> !(#[trigger] s[i]).streaming(),
    ensures
        streaming_count(s, n) == 0,
        finished(s, n) == s.take(n as int),
    decreases n,
{
    if n > 0 {
        lemma_no_streaming(s, (n - 1) as nat);
        assert(s.take(n as int) =~= s.take(n - 1).push(s[n - 1]));
    } else {
        assert(s.take(0) =~= Seq::<UiMessage>::empty());
    }
}

proof fn lemma_count_prefix(s: Seq<UiMessage>, t: Seq<UiMessage>, n: nat)
    requires
        n <= s.len(),
        n <= t.len(),
        forall|i: int| 0 <= i < n ==> (#[trigger] s[i]).streaming() == t[i].streaming(),
    ensures
        streaming_count(s, n) == streaming_count(t, n),
    decreases n,
{
    if n > 0 {
        lemma_count_prefix(s, t, (n - 1) as nat);
        assert(s[n - 1].streaming() == t[n - 1].streaming());
    }
}

/// A conversation never has more than one placeholder: an answer that starts to
/// come in gets one only where there is none.
pub proof fn at_most_one_placeholder(before: Seq<UiMessage>, handle: u64)
    requires
        streaming_count(before, before.len()) <= 1,
    ensures
        streaming_count(with_placeholder(before, handle), with_placeholder(before, handle).len()) <= 1,
{
    if !any_streaming(before) {
        lemma_no_streaming(before, before.len());
        let after = before.push(UiMessage::Streaming { handle });
        lemma_count_prefix(before, after, before.len());
    }
}

/// Where an answer has its placeholder, it gets no second one.
pub proof fn a_placeholder_is_made_once(messages: Seq<UiMessage>, handle: u64, again: u64)
    ensures
        with_placeholder(with_placeholder(messages, handle), again) == with_placeholder(messages, handle),
{
    let once = with_placeholder(messages, handle);
    if !any_streaming(messages) {
        assert(once[messages.len() as int].streaming());
    }
}

proof fn lemma_streaming_place(s: Seq<UiMessage>, from: int)
    requires
        0 <= from <= s.len(),
    ensures
        match streaming_place(s, from) {
            Some(i) => from <= i < s.len() && s[i].streaming() && forall|k: int|
                from <= k < i ==> !(#[trigger] s[k]).streaming(),
            None => forall|k: int| from <= k < s.len() ==> !(#[trigger] s[k]).streaming(),
        },
    decreases s.len() - from,
{
    if from < s.len() && !s[from].streaming() {
        lemma_streaming_place(s, from + 1);
    }
}

proof fn lemma_count_update(s: Seq<UiMessage>, i: int, m: ChatMessage, n: nat)
    requires
        0 <= i < s.len(),
        s[i].streaming(),
        n <= s.len(),
    ensures
        streaming_count(s.update(i, UiMessage::Static(m)), n) == streaming_count(s, n) - (if i < n {
            1int
        } else {
            0int
        }),
    decreases n,
{
    if n > 0 {
        lemma_count_update(s, i, m, (n - 1) as nat);
    }
}

/// When the answer is complete no placeholder is left, and no message was lost.
pub proof fn no_placeholder_after_the_answer(before: Seq<UiMessage>, m: ChatMessage)
    requires
        streaming_count(before, before.len()) <= 1,
    ensures
        streaming_count(settled(before, UiMessage::Static(m)), before.len()) == 0,
        settled(before, UiMessage::Static(m)).len() == before.len(),
{
    lemma_streaming_place(before, 0);
    match streaming_place(before, 0) {
        Some(i) => {
            lemma_count_update(before, i, m, before.len());
            if streaming_count(before, before.len()) == 0 {
                assert(false) by {
                    lemma_count_update(before, i, m, before.len());
                }
            }
        },
        None => {
            lemma_no_streaming(before, before.len());
        },
    }
}

/// After a run that ended early no placeholder is left, and every finished
/// message stays.
pub proof fn no_placeholder_after_an_interrupt(s: Seq<UiMessage>, n: nat)
    requires
        n <= s.len(),
    ensures
        forall|i: int| 0 <= i < finished(s, n).len() ==> !(#[trigger] finished(s, n)[i]).streaming(),
        forall|i: int| 0 <= i < n && !(#[trigger] s[i]).streaming() ==> finished(s, n).contains(s[i]),
    decreases n,
{
    if n > 0 {
        no_placeholder_after_an_interrupt(s, (n - 1) as nat);
        let prev = finished(s, (n - 1) as nat);
        if !s[n - 1].streaming() {
            assert forall|i: int| 0 <= i < n && !(#[trigger] s[i]).streaming() implies finished(s, n).contains(s[i]) by {
                if i < n - 1 {
                    let j = choose|j: int| 0 <= j < prev.len() && prev[j] == s[i];
                    assert(finished(s, n)[j] == s[i]);
                } else {
                    assert(finished(s, n)[prev.len() as int] == s[i]);
                }
            }
        }
    }
}

/// A conversation that is opened has one placeholder where something is coming
/// in, and none otherwise.
pub proof fn an_opened_conversation_has_one_placeholder(messages: Seq<ChatMessage>, streaming: Option<u64>)
    ensures
        ({
            let shown = opened_messages(messages, streaming);
            streaming_count(shown, shown.len()) == if streaming is Some {
                1nat
            } else {
                0nat
            }
        }),
{
    let shown = opened_messages(messages, streaming);
    match streaming {
        Some(handle) => {
            let rest = without_last_answers(messages).map_values(|m: ChatMessage| UiMessage::Static(m));
            lemma_no_streaming(rest, rest.len());
            lemma_count_prefix(rest, shown, rest.len());
        },
        None => {
            lemma_no_streaming(shown, shown.len());
        },
    }
}

/// What was said is the text of the segments of speech, and what was thought that of the
/// segments of thought, one behind the other.
pub proof fn a_message_says_what_came_in(s: Seq<SegmentModel>, x: SegmentModel)
    ensures
        said(Seq::empty(), 0) == Seq::<char>::empty() && thought(Seq::empty(), 0) == Seq::<char>::empty(),
        said(s.push(x), s.len() + 1) == match x {
            SegmentModel::Text(t) => said(s, s.len()) + t,
            _ => said(s, s.len()),
        },
        thought(s.push(x), s.len() + 1) == match x {
            SegmentModel::Reasoning(t) => thought(s, s.len()) + t,
            _ => thought(s, s.len()),
        },
{
    lemma_spoken_prefix(s, x, s.len());
    assert(s.push(x)[s.len() as int] == x);
}

proof fn lemma_spoken_prefix(s: Seq<SegmentModel>, x: SegmentModel, n: nat)
    requires
        n <= s.len(),
    ensures
        said(s.push(x), n) == said(s, n),
        thought(s.push(x), n) == thought(s, n),
    decreases n,
{
    if n > 0 {
        lemma_spoken_prefix(s, x, (n - 1) as nat);
        assert(s.push(x)[n - 1] == s[n - 1]);
    }
}

/// The finished messages are all but the placeholders, in order.
pub proof fn finished_messages_are_all_but_placeholders(s: Seq<UiMessage>, n: nat)
    requires
        n <= s.len(),
    ensures
        finished(s, n) == s.take(n as int).filter(|m: UiMessage| !(m is Streaming)),
    decreases n,
{
    reveal(Seq::filter);
    let t = s.take(n as int);
    if n > 0 {
        finished_messages_are_all_but_placeholders(s, (n - 1) as nat);
        assert(t.drop_last() =~= s.take(n - 1));
        assert(t.last() == s[n - 1]);
    } else {
        assert(t.filter(|m: UiMessage| !(m is Streaming)) =~= Seq::<UiMessage>::empty());
    }
}

/// The answer takes the place of the first placeholder; all other messages stay, and without
/// a placeholder nothing changes.
pub proof fn an_answer_takes_the_place_of_the_placeholder(s: Seq<UiMessage>, m: UiMessage, k: int)
    ensures
        0 <= k < s.len() && s[k] is Streaming && (forall|i: int| 0 <= i < k ==> !((#[trigger] s[i]) is Streaming)) ==> settled(s, m)
            == s.update(k, m),
        (forall|i: int| 0 <= i < s.len() ==> !((#[trigger] s[i]) is Streaming)) ==> settled(s, m) == s,
{
    lemma_placeholder_found(s, 0);
    if 0 <= k < s.len() && s[k] is Streaming && (forall|i: int| 0 <= i < k ==> !((#[trigger] s[i]) is Streaming)) {
        let p = streaming_place(s, 0);
        if p is Some {
            if p->0 < k {
                assert(!(s[p->0] is Streaming));
            }
        } else {
            assert(!s[k].streaming());
        }
    }
}

proof fn lemma_placeholder_found(s: Seq<UiMessage>, from: int)
    requires
        0 <= from,
    ensures
        match streaming_place(s, from) {
            Some(p) => from <= p < s.len() && s[p].streaming() && forall|i: int| from <= i < p ==> !(#[trigger] s[i]).streaming(),
            None => forall|i: int| from <= i < s.len() ==> !(#[trigger] s[i]).streaming(),
        },
    decreases s.len() - from,
{
    if from < s.len() && !s[from].streaming() {
        lemma_placeholder_found(s, from + 1);
    }
}

/// A project is taken off the list of those that are at work; the others stay, in order.
pub proof fn other_projects_stay_at_work(s: Seq<String>, id: Seq<char>, n: nat)
    requires
        n <= s.len(),
    ensures
        ids_without(s, id, n) == s.take(n as int).filter(|x: String| x@ != id),
    decreases n,
{
    reveal(Seq::filter);
    let t = s.take(n as int);
    if n > 0 {
        other_projects_stay_at_work(s, id, (n - 1) as nat);
        assert(t.drop_last() =~= s.take(n - 1));
        assert(t.last() == s[n - 1]);
    } else {
        assert(t.filter(|x: String| x@ != id) =~= Seq::<String>::empty());
    }
}

} // verus!
