//! Sending a message: the conversation it goes to, the message on show, and the
//! choices that stand next to the input field.
use crate::error::{clock_text, local_clock};
use crate::markdown::{markdown_html, markdown_to_html};
use crate::model::{ActionMode, AgentMode, ChatMessage, ConversationRuntime, MessageModel, Role, SegmentModel, UiMessage};
use crate::model::{segment_models, TokenUsageRecord, DEFAULT_CONTEXT_WINDOW};
use crate::workspace::{find_project, project_place, project_set, Conversation, Project, Workspace};
use vstd::prelude::*;

verus! {

/// A message of the user.
pub open spec fn user_message(text: Seq<char>, html: Seq<char>, stamp: Seq<char>) -> MessageModel {
    MessageModel {
        role: Role::User,
        content: text,
        timestamp: stamp,
        reasoning: Seq::empty(),
        segments: Seq::empty(),
        html,
    }
}

/// A message of the user, made at `stamp`.
pub fn user_message_at(text: &str, html: String, stamp: String) -> (r: ChatMessage)
    ensures
        r@ == user_message(text@, html@, stamp@),
{
    let r = ChatMessage {
        role: Role::User,
        content: text.to_owned(),
        timestamp: stamp,
        reasoning: String::new(),
        segments: Vec::new(),
        content_html: html,
    };
    assert(segment_models(r.segments@) =~= Seq::<SegmentModel>::empty());
    r
}

/// A message of the user, made now, with its text as HTML.
pub fn new_user_message(text: &str) -> (r: ChatMessage)
    ensures
        clock_text(r.timestamp@),
        r@ == user_message(text@, markdown_html(text@), r.timestamp@),
{
    user_message_at(text, markdown_to_html(text), local_clock())
}

/// The text that a plan's approval sends.
pub fn plan_approved_text() -> (r: &'static str)
    ensures
        r@ == "计划已通过审批，请开始执行。"@,
{
    "计划已通过审批，请开始执行。"
}

/// `after` is `before` with a message of the user behind the others.
pub open spec fn user_message_added(before: Seq<UiMessage>, after: Seq<UiMessage>, m: ChatMessage) -> bool {
    after == before.push(UiMessage::Static(m))
}

/// The runtime under `key`, or a fresh one: `r` has its fields, but for the
/// messages.
pub open spec fn runtime_or_fresh(before: Workspace, key: Seq<char>, r: ConversationRuntime) -> bool {
    if before.runtimes@.dom().contains(key) {
        r == before.runtimes@[key]
    } else {
        r.fresh(before.default_mode)
    }
}

/// The conversations of a project after a new conversation got its id: it
/// stands at the end, and the first placeholder is gone.
pub open spec fn with_started(before: Seq<Conversation>, after: Seq<Conversation>, id: Seq<char>, title: Seq<char>, now: i64) -> bool {
    exists|c: Conversation|
        c.id@ == id && c.title@ == title && c.updated_at == now && c.message_count == 0 && after
            == #[trigger] without_first_placeholder(before.push(c))
}

/// The first conversation from `from` on that has no id.
pub open spec fn placeholder_place(s: Seq<Conversation>, from: int) -> Option<int>
    decreases s.len() - from,
{
    if from < 0 || from >= s.len() {
        None
    } else if s[from].id@.len() == 0 {
        Some(from)
    } else {
        placeholder_place(s, from + 1)
    }
}

/// The conversations without the first one that has no id.
pub open spec fn without_first_placeholder(s: Seq<Conversation>) -> Seq<Conversation> {
    match placeholder_place(s, 0) {
        Some(i) => s.remove(i),
        None => s,
    }
}

fn drop_first_placeholder(s: &mut Vec<Conversation>)
    ensures
        final(s)@ == without_first_placeholder(old(s)@),
{
    let mut i: usize = 0;
    while i < s.len()
        invariant
            i <= s@.len(),
            s@ == old(s)@,
            placeholder_place(old(s)@, 0) == placeholder_place(old(s)@, i as int),
        decreases s@.len() - i,
    {
        if s[i].id.as_str().is_empty() {
            s.remove(i);
            return ;
        }
        i = i + 1;
    }
}

impl Workspace {
    /// Takes the runtime under `key` out of the table; a fresh one where there is
    /// none.
    pub(crate) fn take_runtime(&mut self, key: &str) -> (r: ConversationRuntime)
        ensures
            final(self).runtimes@ == old(self).runtimes@.remove(key@),
            runtime_or_fresh(*old(self), key@, r),
            *final(self) == (Workspace { runtimes: final(self).runtimes, ..*old(self) }),
    {
        match self.runtimes.remove(key) {
            Some(rt) => rt,
            None => ConversationRuntime::empty(self.default_mode),
        }
    }

    /// The agent for the conversation that the next message starts: the one
    /// that was chosen in it, or else the one that is chosen in the workspace.
    pub open spec fn config_for_new(self) -> Seq<char> {
        let own = if self.runtimes@.dom().contains(self.active_conversation_id@) {
            match self.runtimes@[self.active_conversation_id@].agent_config_id {
                Some(id) => id@,
                None => Seq::empty(),
            }
        } else {
            Seq::empty()
        };
        if own.len() > 0 {
            own
        } else {
            self.selected_agent_config_id@
        }
    }

    /// The agent for the conversation that the next message starts; empty where
    /// none was chosen.
    pub fn new_conversation_config(&self) -> (r: String)
        ensures
            r@ == self.config_for_new(),
    {
        if let Some(rt) = self.runtimes.get(self.active_conversation_id.as_str()) {
            if let Some(id) = &rt.agent_config_id {
                if !id.as_str().is_empty() {
                    return id.clone();
                }
            }
        }
        self.selected_agent_config_id.clone()
    }

    /// A conversation got its id and its agent: it takes the place of the
    /// placeholder and is on show.
    pub fn conversation_started(
        &mut self,
        project_id: &str,
        new_id: String,
        handler: u64,
        config_id: &str,
        title: String,
        now: i64,
    )
        ensures
            final(self).active_conversation_id == new_id,
            final(self).runtimes@.dom().contains(new_id@),
            final(self).runtimes@ == old(self).runtimes@.insert(new_id@, final(self).runtimes@[new_id@]),
            final(self).runtimes@[new_id@].agent_handler == Some(handler),
            exists|was: ConversationRuntime| #[trigger]
                runtime_or_fresh(*old(self), new_id@, was) && final(self).runtimes@[new_id@] == (ConversationRuntime {
                    agent_handler: Some(handler),
                    agent_config_id: final(self).runtimes@[new_id@].agent_config_id,
                    ..was
                }) && (if config_id@.len() > 0 {
                    final(self).runtimes@[new_id@].agent_config_id is Some
                        && final(self).runtimes@[new_id@].agent_config_id->0@ == config_id@
                } else {
                    final(self).runtimes@[new_id@].agent_config_id == was.agent_config_id
                }),
            match project_place(old(self).projects@, project_id@, 0) {
                Some(i) => {
                    &&& final(self).projects@ == old(self).projects@.update(i, final(self).projects@[i])
                    &&& with_started(
                        old(self).projects@[i].conversations@,
                        final(self).projects@[i].conversations@,
                        new_id@,
                        title@,
                        now,
                    )
                    &&& final(self).projects@[i] == (Project {
                        conversations: final(self).projects@[i].conversations,
                        ..old(self).projects@[i]
                    })
                },
                None => final(self).projects@ == old(self).projects@,
            },
            *final(self) == (Workspace {
                runtimes: final(self).runtimes,
                projects: final(self).projects,
                active_conversation_id: final(self).active_conversation_id,
                ..*old(self)
            }),
    {
        let ghost runtimes = self.runtimes@;
        let mut rt = self.take_runtime(new_id.as_str());
        let ghost was = rt;
        rt.agent_handler = Some(handler);
        if !config_id.is_empty() {
            rt.agent_config_id = Some(config_id.to_owned());
        }
        self.runtimes.insert(new_id.clone(), rt);
        proof {
            assert(runtime_or_fresh(*old(self), new_id@, was));
            assert(runtimes.remove(new_id@).insert(new_id@, rt) =~= runtimes.insert(new_id@, rt));
        }
        if let Some(i) = find_project(&self.projects, project_id) {
            let mut p = self.projects.remove(i);
            let ghost conversations = p.conversations@;
            let c = Conversation { id: new_id.clone(), title, updated_at: now, message_count: 0 };
            p.conversations.push(c);
            drop_first_placeholder(&mut p.conversations);
            assert(p.conversations@ == without_first_placeholder(conversations.push(c)));
            self.projects.insert(i, p);
            assert(self.projects@ =~= old(self).projects@.update(i as int, p));
        }
        self.active_conversation_id = new_id;
    }

    /// An agent was made ready for a conversation that exists.
    pub fn handler_ready(&mut self, conv_id: &str, handler: u64)
        ensures
            final(self).runtimes@.dom().contains(conv_id@),
            final(self).runtimes@ == old(self).runtimes@.insert(conv_id@, final(self).runtimes@[conv_id@]),
            exists|was: ConversationRuntime| #[trigger]
                runtime_or_fresh(*old(self), conv_id@, was) && final(self).runtimes@[conv_id@] == (ConversationRuntime {
                    agent_handler: Some(handler),
                    ..was
                }),
            *final(self) == (Workspace { runtimes: final(self).runtimes, ..*old(self) }),
    {
        let ghost runtimes = self.runtimes@;
        let mut rt = self.take_runtime(conv_id);
        let ghost was = rt;
        rt.agent_handler = Some(handler);
        self.runtimes.insert(conv_id.to_owned(), rt);
        proof {
            assert(runtime_or_fresh(*old(self), conv_id@, was));
            assert(runtimes.remove(conv_id@).insert(conv_id@, rt) =~= runtimes.insert(conv_id@, rt));
        }
    }

    /// The message goes out: it stands behind the others of its conversation, the
    /// project has the conversations that are stored for it now and was active at
    /// `now`, and the run can be cancelled by `token`.
    pub fn message_sent(
        &mut self,
        project_id: String,
        conv_id: &str,
        message: ChatMessage,
        conversations: Vec<Conversation>,
        now: i64,
        token: u64,
    )
        ensures
            final(self).runtimes@.dom().contains(conv_id@),
            final(self).runtimes@ == old(self).runtimes@.insert(conv_id@, final(self).runtimes@[conv_id@]),
            exists|was: ConversationRuntime| #[trigger]
                runtime_or_fresh(*old(self), conv_id@, was) && user_message_added(
                    was.messages@,
                    final(self).runtimes@[conv_id@].messages@,
                    message,
                ) && final(self).runtimes@[conv_id@] == (ConversationRuntime {
                    messages: final(self).runtimes@[conv_id@].messages,
                    cancel_token: Some(token),
                    ..was
                }),
            project_set(
                old(self).projects@,
                final(self).projects@,
                project_id@,
                |c: Seq<Conversation>| conversations@,
                |t: Option<i64>| Some(now),
            ),
            final(self).streaming_project_id@ == old(self).streaming_project_id@.push(project_id),
            *final(self) == (Workspace {
                runtimes: final(self).runtimes,
                projects: final(self).projects,
                streaming_project_id: final(self).streaming_project_id,
                ..*old(self)
            }),
    {
        let ghost runtimes = self.runtimes@;
        let mut rt = self.take_runtime(conv_id);
        let ghost was = rt;
        rt.messages.push(UiMessage::Static(message));
        rt.cancel_token = Some(token);
        self.runtimes.insert(conv_id.to_owned(), rt);
        proof {
            assert(runtime_or_fresh(*old(self), conv_id@, was));
            assert(runtimes.remove(conv_id@).insert(conv_id@, rt) =~= runtimes.insert(conv_id@, rt));
        }
        if let Some(i) = find_project(&self.projects, project_id.as_str()) {
            let mut p = self.projects.remove(i);
            p.conversations = conversations;
            p.last_activity_at = Some(now);
            self.projects.insert(i, p);
            assert(self.projects@ =~= old(self).projects@.update(i as int, p));
        }
        self.streaming_project_id.push(project_id);
    }

    /// The user accepts the plan of a conversation: from now on all tools may be
    /// used. Returns the agent whose plan it is.
    pub fn accept_plan(&mut self, conv_id: &str) -> (r: Option<u64>)
        ensures
            *final(self) == (Workspace { action_mode: ActionMode::Regular, ..*old(self) }),
            r == if old(self).runtimes@.dom().contains(conv_id@) {
                old(self).runtimes@[conv_id@].agent_handler
            } else {
                None
            },
    {
        self.action_mode = ActionMode::Regular;
        match self.runtimes.get(conv_id) {
            Some(rt) => rt.agent_handler,
            None => None,
        }
    }

    /// The agent took the approval of its plan: the user's message stands in the
    /// conversation, and the run can be cancelled by `token`.
    pub fn plan_accepted(&mut self, conv_id: &str, stamp: String, token: u64)
        requires
            old(self).runtimes@.dom().contains(conv_id@) ==> old(self).runtimes@[conv_id@].tick + 2 <= u64::MAX,
        ensures
            final(self).runtimes@.dom().contains(conv_id@),
            final(self).runtimes@ == old(self).runtimes@.insert(conv_id@, final(self).runtimes@[conv_id@]),
            exists|was: ConversationRuntime, m: ChatMessage|
                #![trigger runtime_or_fresh(*old(self), conv_id@, was), m@]
                runtime_or_fresh(*old(self), conv_id@, was) && m@ == user_message(
                    "计划已通过审批，请开始执行。"@,
                    Seq::empty(),
                    stamp@,
                ) && user_message_added(was.messages@, final(self).runtimes@[conv_id@].messages@, m)
                    && final(self).runtimes@[conv_id@] == (ConversationRuntime {
                    messages: final(self).runtimes@[conv_id@].messages,
                    tick: (was.tick + 2) as u64,
                    cancel_token: Some(token),
                    ..was
                }),
            *final(self) == (Workspace { runtimes: final(self).runtimes, ..*old(self) }),
    {
        let ghost runtimes = self.runtimes@;
        let mut rt = self.take_runtime(conv_id);
        let ghost was = rt;
        rt.tick = rt.tick + 2;
        let m = user_message_at(plan_approved_text(), String::new(), stamp);
        rt.messages.push(UiMessage::Static(m));
        rt.cancel_token = Some(token);
        self.runtimes.insert(conv_id.to_owned(), rt);
        proof {
            assert(runtime_or_fresh(*old(self), conv_id@, was));
            assert(runtimes.remove(conv_id@).insert(conv_id@, rt) =~= runtimes.insert(conv_id@, rt));
            assert(m@ == user_message("计划已通过审批，请开始执行。"@, Seq::empty(), stamp@));
        }
    }

    /// The user wants to change the plan: the input field asks how.
    pub fn reject_plan(&mut self)
        ensures
            final(self).approval_hint_text is Some,
            final(self).approval_hint_text->0@ == "请对计划提出修改意见…"@,
            *final(self) == (Workspace { approval_hint_text: final(self).approval_hint_text, ..*old(self) }),
    {
        self.approval_hint_text = Some("请对计划提出修改意见…".to_owned());
    }

    /// Takes the hint for the input field.
    pub fn take_hint(&mut self) -> (r: Option<String>)
        ensures
            r == old(self).approval_hint_text,
            *final(self) == (Workspace { approval_hint_text: None, ..*old(self) }),
    {
        let r = self.approval_hint_text.clone();
        self.approval_hint_text = None;
        r
    }

    /// `self` is `before` after the user chose an agent.
    pub open spec fn chose_config(self, before: Workspace, new_id: String) -> bool {
        let key = before.active_conversation_id@;
        &&& self.selected_agent_config_id == new_id
        &&& self.active_conversation_id == before.active_conversation_id
        &&& self.runtimes@ == if before.runtimes@.dom().contains(key) {
            before.runtimes@.insert(
                key,
                (ConversationRuntime { agent_config_id: Some(new_id), ..before.runtimes@[key] }),
            )
        } else {
            before.runtimes@
        }
    }

    /// The user chooses an agent, for the workspace and for the conversation on
    /// show.
    pub fn choose_agent_config(&mut self, new_id: String)
        ensures
            final(self).chose_config(*old(self), new_id),
            *final(self) == (Workspace {
                selected_agent_config_id: final(self).selected_agent_config_id,
                runtimes: final(self).runtimes,
                ..*old(self)
            }),
    {
        let ghost runtimes = self.runtimes@;
        let key = self.active_conversation_id.clone();
        match self.runtimes.remove(key.as_str()) {
            Some(mut rt) => {
                rt.agent_config_id = Some(new_id.clone());
                assert(runtimes.remove(key@).insert(key@, rt) =~= runtimes.insert(key@, rt));
                self.runtimes.insert(key, rt);
            },
            None => {
                assert(runtimes.remove(key@) =~= runtimes);
            },
        }
        self.selected_agent_config_id = new_id;
    }

    /// The user chooses an agent mode, for the workspace and for the conversation
    /// on show.
    pub fn choose_agent_mode(&mut self, mode: AgentMode)
        ensures
            final(self).agent_mode == mode,
            ({
                let key = old(self).active_conversation_id@;
                final(self).runtimes@ == if old(self).runtimes@.dom().contains(key) {
                    old(self).runtimes@.insert(
                        key,
                        (ConversationRuntime { agent_mode: mode, ..old(self).runtimes@[key] }),
                    )
                } else {
                    old(self).runtimes@
                }
            }),
            *final(self) == (Workspace {
                agent_mode: final(self).agent_mode,
                runtimes: final(self).runtimes,
                ..*old(self)
            }),
    {
        let ghost runtimes = self.runtimes@;
        let key = self.active_conversation_id.clone();
        match self.runtimes.remove(key.as_str()) {
            Some(mut rt) => {
                rt.agent_mode = mode;
                assert(runtimes.remove(key@).insert(key@, rt) =~= runtimes.insert(key@, rt));
                self.runtimes.insert(key, rt);
            },
            None => {
                assert(runtimes.remove(key@) =~= runtimes);
            },
        }
        self.agent_mode = mode;
    }

    /// The agent that the input field shows: the workspace's for a new
    /// conversation, the conversation's own otherwise.
    pub open spec fn config_shown(self) -> Seq<char> {
        if self.active_conversation_id@.len() == 0 {
            self.selected_agent_config_id@
        } else if self.runtimes@.dom().contains(self.active_conversation_id@) {
            match self.runtimes@[self.active_conversation_id@].agent_config_id {
                Some(id) => id@,
                None => Seq::empty(),
            }
        } else {
            Seq::empty()
        }
    }

    /// The agent that the input field shows.
    pub fn shown_agent_config(&self) -> (r: String)
        ensures
            r@ == self.config_shown(),
    {
        if self.active_conversation_id.as_str().is_empty() {
            return self.selected_agent_config_id.clone();
        }
        if let Some(rt) = self.runtimes.get(self.active_conversation_id.as_str()) {
            if let Some(id) = &rt.agent_config_id {
                return id.clone();
            }
        }
        String::new()
    }

    /// Whether the choice of an agent is closed: once something has been sent.
    pub fn config_disabled(&self) -> (r: bool)
        ensures
            r == (self.active_conversation_id@.len() > 0),
    {
        !self.active_conversation_id.as_str().is_empty()
    }

    /// The token that cancels the run of the conversation on show.
    pub fn cancel_request(&self) -> (r: Option<u64>)
        ensures
            r == if self.runtimes@.dom().contains(self.active_conversation_id@) {
                self.runtimes@[self.active_conversation_id@].cancel_token
            } else {
                None
            },
    {
        match self.runtimes.get(self.active_conversation_id.as_str()) {
            Some(rt) => rt.cancel_token,
            None => None,
        }
    }

    /// The channel to which the user's answer on a tool call goes.
    pub fn approval_channel(&self) -> (r: Option<u64>)
        ensures
            r == if self.approval_tx@.dom().contains(self.active_conversation_id@) {
                Some(self.approval_tx@[self.active_conversation_id@])
            } else {
                None
            },
    {
        match self.approval_tx.get(self.active_conversation_id.as_str()) {
            Some(n) => Some(*n),
            None => None,
        }
    }

    /// What the usage board shows of the conversation on show: the tokens, the
    /// requests, the context window and the tokens of the last prompt.
    pub fn usage_shown(&self) -> (r: (TokenUsageRecord, u64, u32, Option<u32>))
        ensures
            ({
                let key = self.active_conversation_id@;
                if self.runtimes@.dom().contains(key) {
                    let rt = self.runtimes@[key];
                    &&& r.0 == rt.accumulated_usage
                    &&& r.1 == rt.request_count
                    &&& r.2 == rt.context_window
                    &&& r.3 == match rt.last_loop_usage {
                        Some(u) => Some(u.prompt_tokens),
                        None => None,
                    }
                } else {
                    r == (TokenUsageRecord::none(), 0u64, DEFAULT_CONTEXT_WINDOW, None::<u32>)
                }
            }),
    {
        match self.runtimes.get(self.active_conversation_id.as_str()) {
            Some(rt) => {
                let last: Option<u32> = match &rt.last_loop_usage {
                    Some(u) => Some(u.prompt_tokens),
                    None => None,
                };
                (rt.accumulated_usage, rt.request_count, rt.context_window, last)
            },
            None => (TokenUsageRecord::default(), 0, DEFAULT_CONTEXT_WINDOW, None),
        }
    }

    /// The settings changed: the agent that they name is chosen, if it exists.
    pub fn default_config_changed(&mut self, default_id: String, config_exists: bool)
        ensures
            final(self).selected_agent_config_id@ == if default_id@.len() == 0 {
                old(self).selected_agent_config_id@
            } else if config_exists {
                default_id@
            } else {
                Seq::<char>::empty()
            },
            *final(self) == (Workspace {
                selected_agent_config_id: final(self).selected_agent_config_id,
                ..*old(self)
            }),
    {
        if !default_id.as_str().is_empty() {
            self.selected_agent_config_id = if config_exists {
                default_id
            } else {
                String::new()
            };
        }
    }
}

/// An agent that was chosen stands in the input field, unless a conversation is
/// on show that is not open, and the next conversation gets it.
pub proof fn a_chosen_agent_is_used(before: Workspace, after: Workspace, new_id: String)
    requires
        new_id@.len() > 0,
        after.chose_config(before, new_id),
    ensures
        after.config_for_new() == new_id@,
        before.active_conversation_id@.len() == 0 || before.runtimes@.dom().contains(before.active_conversation_id@)
            ==> after.config_shown() == new_id@,
{
}

/// The placeholder of a conversation is the first one without an id.
pub proof fn a_placeholder_is_found_first(s: Seq<Conversation>, i: int)
    ensures
        0 <= i < s.len() && s[i].id@.len() == 0 && (forall|k: int| 0 <= k < i ==> !((#[trigger] s[k]).id@.len() == 0)) ==> placeholder_place(s, 0) == Some(i),
        (forall|k: int| 0 <= k < s.len() ==> !((#[trigger] s[k]).id@.len() == 0)) ==> placeholder_place(s, 0) is None,
{
    lemma_placeholder_place(s, 0);
}

proof fn lemma_placeholder_place(s: Seq<Conversation>, from: int)
    requires
        0 <= from,
    ensures
        match placeholder_place(s, from) {
            Some(p) => from <= p < s.len() && s[p].id@.len() == 0 && forall|k: int| from <= k < p ==> !((#[trigger] s[k]).id@.len() == 0),
            None => forall|k: int| from <= k < s.len() ==> !((#[trigger] s[k]).id@.len() == 0),
        },
    decreases s.len() - from,
{
    if from < s.len() && !(s[from].id@.len() == 0) {
        lemma_placeholder_place(s, from + 1);
    }
}

/// Of the conversations only the first placeholder is taken away.
pub proof fn only_a_placeholder_is_taken_away(s: Seq<Conversation>, i: int)
    ensures
        0 <= i < s.len() && s[i].id@.len() == 0 && (forall|k: int| 0 <= k < i ==> (#[trigger] s[k]).id@.len() > 0)
            ==> without_first_placeholder(s) == s.take(i) + s.skip(i + 1),
        (forall|k: int| 0 <= k < s.len() ==> (#[trigger] s[k]).id@.len() > 0) ==> without_first_placeholder(s) == s,
{
    a_placeholder_is_found_first(s, i);
    if 0 <= i < s.len() {
        assert(s.remove(i) =~= s.take(i) + s.skip(i + 1));
    }
}

} // verus!
