//! The state of the agent workspace: projects, conversations, what is on show
//! and what is running.
use crate::error::ErrorSignal;
use crate::keyed::Table;
use crate::messages::{load_messages, StoredMessage};
use crate::model::{
    message_models, ActionMode, AgentMode, ChatMessage, ConversationRuntime, Role, TokenUsageRecord, ToolCallRecord,
    UiMessage, DEFAULT_CONTEXT_WINDOW,
};
use crate::text::same_text;
use vstd::prelude::*;

verus! {

/// A conversation as the list of its project shows it.
#[derive(Debug, Clone)]
pub struct Conversation {
    /// Empty while nothing has been sent in it.
    pub id: String,
    pub title: String,
    /// Milliseconds since the epoch.
    pub updated_at: i64,
    pub message_count: usize,
}

/// A project with its conversations.
#[derive(Debug)]
pub struct Project {
    pub id: String,
    pub name: String,
    pub path: String,
    /// Milliseconds since the epoch.
    pub created_at: i64,
    pub conversations: Vec<Conversation>,
    pub indicator_color: String,
    /// Milliseconds since the epoch.
    pub last_activity_at: Option<i64>,
}

/// A project as it is stored.
#[derive(Debug, Clone)]
pub struct ProjectRow {
    pub id: String,
    pub name: String,
    pub path: String,
    pub created_at: i64,
    pub indicator_color: String,
    pub last_activity_at: Option<i64>,
}

/// The pages of the settings.
#[derive(Debug, Clone, Copy, PartialEq, Eq, Structural)]
pub enum SettingsTab {
    Providers,
    AgentConfigs,
    SubAgents,
    General,
    Appearance,
    Tools,
    Sql,
}

/// What the side bar shows.
#[derive(Debug, Clone)]
pub enum SidebarView {
    ProjectList,
    ConversationList(String),
    Settings(SettingsTab),
}

/// The workspace.
#[derive(Debug)]
pub struct Workspace {
    /// The project that cannot be deleted.
    pub default_project_id: String,
    /// The agent mode of conversations that say nothing else.
    pub default_mode: AgentMode,
    pub projects: Vec<Project>,
    pub active_project_id: Option<String>,
    pub sidebar_view: SidebarView,
    /// Empty for a conversation in which nothing has been sent.
    pub active_conversation_id: String,
    pub runtimes: Table<ConversationRuntime>,
    pub is_streaming: bool,
    /// The projects in which something is coming in.
    pub streaming_project_id: Vec<String>,
    pub active_tool_calls: Vec<ToolCallRecord>,
    pub action_mode: ActionMode,
    pub agent_mode: AgentMode,
    pub selected_agent_config_id: String,
    /// For each conversation in which something is coming in, its number.
    pub streaming_states: Table<u64>,
    /// For each conversation that may ask for approval, the number of the
    /// channel for the answers.
    pub approval_tx: Table<u64>,
    pub error_signal: ErrorSignal,
    pub approval_hint_text: Option<String>,
}

/// What is stored of a conversation.
#[derive(Debug)]
pub struct ConversationData {
    pub stored: Vec<StoredMessage>,
    pub agent_config_id: Option<String>,
    pub agent_mode: AgentMode,
    pub usage: TokenUsageRecord,
    pub request_count: u64,
    /// The context window that its agent states.
    pub context_window: Option<u32>,
}

/// A project without conversations.
pub open spec fn bare_project(p: Project, row: ProjectRow) -> bool {
    &&& p.id == row.id
    &&& p.name == row.name
    &&& p.path == row.path
    &&& p.created_at == row.created_at
    &&& p.conversations@.len() == 0
    &&& p.indicator_color == row.indicator_color
    &&& p.last_activity_at == row.last_activity_at
}

/// One bare project for each row.
pub open spec fn bare_projects(projects: Seq<Project>, rows: Seq<ProjectRow>) -> bool {
    projects.len() == rows.len() && forall|i: int|
        0 <= i < rows.len() ==> bare_project(#[trigger] projects[i], rows[i])
}

/// The projects of the stored rows, their conversations not read yet.
pub fn projects_from_rows(rows: &Vec<ProjectRow>) -> (r: Vec<Project>)
    ensures
        bare_projects(r@, rows@),
{
    let mut r: Vec<Project> = Vec::new();
    let mut i: usize = 0;
    while i < rows.len()
        invariant
            i <= rows@.len(),
            r@.len() == i,
            forall|k: int| 0 <= k < i ==> bare_project(#[trigger] r@[k], rows@[k]),
        decreases rows@.len() - i,
    {
        let row = &rows[i];
        r.push(
            Project {
                id: row.id.clone(),
                name: row.name.clone(),
                path: row.path.clone(),
                created_at: row.created_at,
                conversations: Vec::new(),
                indicator_color: row.indicator_color.clone(),
                last_activity_at: row.last_activity_at,
            },
        );
        i = i + 1;
    }
    r
}

/// The first of the projects from `from` on that has this id.
pub open spec fn project_place(projects: Seq<Project>, id: Seq<char>, from: int) -> Option<int>
    decreases projects.len() - from,
{
    if from < 0 || from >= projects.len() {
        None
    } else if projects[from].id@ == id {
        Some(from)
    } else {
        project_place(projects, id, from + 1)
    }
}

/// Where the project with this id stands.
pub fn find_project(projects: &Vec<Project>, id: &str) -> (r: Option<usize>)
    ensures
        match r {
            Some(i) => i < projects@.len() && project_place(projects@, id@, 0) == Some(i as int),
            None => project_place(projects@, id@, 0) is None,
        },
{
    let mut i: usize = 0;
    while i < projects.len()
        invariant
            i <= projects@.len(),
            project_place(projects@, id@, 0) == project_place(projects@, id@, i as int),
        decreases projects@.len() - i,
    {
        if same_text(projects[i].id.as_str(), id) {
            return Some(i);
        }
        i = i + 1;
    }
    None
}

/// `after` is `before` but for the project with this id, whose conversations
/// are `conversations` and whose last activity was at `active`.
pub open spec fn project_set(
    before: Seq<Project>,
    after: Seq<Project>,
    id: Seq<char>,
    conversations: spec_fn(Seq<Conversation>) -> Seq<Conversation>,
    active: spec_fn(Option<i64>) -> Option<i64>,
) -> bool {
    match project_place(before, id, 0) {
        Some(i) => {
            &&& after.len() == before.len()
            &&& after == before.update(i, after[i])
            &&& after[i].conversations@ == conversations(before[i].conversations@)
            &&& after[i] == (Project {
                conversations: after[i].conversations,
                last_activity_at: active(before[i].last_activity_at),
                ..before[i]
            })
        },
        None => after == before,
    }
}

/// The messages without those of the assistant at the end.
pub open spec fn without_last_answers(s: Seq<ChatMessage>) -> Seq<ChatMessage>
    decreases s.len(),
{
    if s.len() > 0 && s.last().role == Role::Assistant {
        without_last_answers(s.drop_last())
    } else {
        s
    }
}

/// The messages of a conversation that is opened: where something is coming in,
/// it takes the place of the assistant's last messages.
pub open spec fn opened_messages(s: Seq<ChatMessage>, streaming: Option<u64>) -> Seq<UiMessage> {
    match streaming {
        Some(handle) => without_last_answers(s).map_values(|m: ChatMessage| UiMessage::Static(m)).push(
            UiMessage::Streaming { handle },
        ),
        None => s.map_values(|m: ChatMessage| UiMessage::Static(m)),
    }
}

/// The messages of a conversation that is opened.
pub fn open_messages(messages: Vec<ChatMessage>, streaming: Option<u64>) -> (r: Vec<UiMessage>)
    ensures
        r@ == opened_messages(messages@, streaming),
{
    let mut kept = messages;
    let ghost all = kept@;
    if streaming.is_some() {
        while kept.len() > 0 && kept[kept.len() - 1].role == Role::Assistant
            invariant
                without_last_answers(all) == without_last_answers(kept@),
            decreases kept@.len(),
        {
            let ghost before = kept@;
            kept.pop();
            assert(kept@ =~= before.drop_last());
        }
        assert(kept@ == without_last_answers(all));
    }
    let ghost rest = kept@;
    let n = kept.len();
    let mut r: Vec<UiMessage> = Vec::new();
    let mut i: usize = 0;
    while i < n
        invariant
            i <= n == rest.len(),
            kept@ == rest.skip(i as int),
            r@ == rest.take(i as int).map_values(|m: ChatMessage| UiMessage::Static(m)),
        decreases n - i,
    {
        let ghost before = r@;
        let m = kept.remove(0);
        r.push(UiMessage::Static(m));
        assert(kept@ =~= rest.skip(i + 1));
        assert(r@ =~= rest.take(i + 1).map_values(|m: ChatMessage| UiMessage::Static(m)));
        i = i + 1;
    }
    assert(rest.take(n as int) =~= rest);
    if let Some(handle) = streaming {
        r.push(UiMessage::Streaming { handle });
    }
    r
}

/// The runtime of a conversation that was read from what is stored.
pub open spec fn opened_runtime(
    r: ConversationRuntime,
    messages: Seq<ChatMessage>,
    streaming: Option<u64>,
    data: ConversationData,
) -> bool {
    &&& r.messages@ == opened_messages(messages, streaming)
    &&& r.tick == 0
    &&& r.agent_handler is None
    &&& r.agent_config_id == data.agent_config_id
    &&& r.agent_mode == data.agent_mode
    &&& r.cancel_token is None
    &&& r.accumulated_usage == data.usage
    &&& r.last_loop_usage is None
    &&& r.request_count == data.request_count
    &&& r.context_window == match data.context_window {
        Some(w) => w,
        None => DEFAULT_CONTEXT_WINDOW,
    }
}

/// What is coming in under this key.
pub open spec fn entry(m: Map<Seq<char>, u64>, key: Seq<char>) -> Option<u64> {
    if m.dom().contains(key) {
        Some(m[key])
    } else {
        None
    }
}

impl Workspace {
    /// A workspace that shows the list of its projects.
    pub fn new(
        default_project_id: String,
        default_mode: AgentMode,
        rows: &Vec<ProjectRow>,
        agent_mode: AgentMode,
        selected_agent_config_id: String,
    ) -> (r: Workspace)
        ensures
            r.default_project_id == default_project_id,
            r.default_mode == default_mode,
            bare_projects(r.projects@, rows@),
            r.active_project_id is None,
            r.sidebar_view == SidebarView::ProjectList,
            r.active_conversation_id@.len() == 0,
            r.runtimes@ == Map::<Seq<char>, ConversationRuntime>::empty(),
            !r.is_streaming,
            r.streaming_project_id@.len() == 0,
            r.active_tool_calls@.len() == 0,
            r.action_mode == ActionMode::Regular,
            r.agent_mode == agent_mode,
            r.selected_agent_config_id == selected_agent_config_id,
            r.streaming_states@ == Map::<Seq<char>, u64>::empty(),
            r.approval_tx@ == Map::<Seq<char>, u64>::empty(),
            r.error_signal.clear(),
            r.approval_hint_text is None,
    {
        Workspace {
            default_project_id,
            default_mode,
            projects: projects_from_rows(rows),
            active_project_id: None,
            sidebar_view: SidebarView::ProjectList,
            active_conversation_id: String::new(),
            runtimes: Table::new(),
            is_streaming: false,
            streaming_project_id: Vec::new(),
            active_tool_calls: Vec::new(),
            action_mode: ActionMode::Regular,
            agent_mode,
            selected_agent_config_id,
            streaming_states: Table::new(),
            approval_tx: Table::new(),
            error_signal: ErrorSignal::new(),
            approval_hint_text: None,
        }
    }

    /// `self` has a fresh runtime under `key`, and the other runtimes of
    /// `before`.
    pub open spec fn cleared(self, before: Workspace, key: Seq<char>) -> bool {
        &&& self.runtimes@.dom().contains(key)
        &&& self.runtimes@[key].fresh(before.default_mode)
        &&& self.runtimes@ == before.runtimes@.insert(key, self.runtimes@[key])
    }

    /// Whether a conversation has to be read before it can be opened.
    pub fn needs_loading(&self, conv_id: &str) -> (r: bool)
        ensures
            r == !self.runtimes@.dom().contains(conv_id@),
    {
        !self.runtimes.contains(conv_id)
    }

    /// `self` is `before` with a conversation opened that has these messages; it
    /// is `before` itself where the conversation was open already.
    pub open spec fn opens(
        self,
        before: Workspace,
        key: Seq<char>,
        messages: Seq<ChatMessage>,
        data: ConversationData,
    ) -> bool {
        if before.runtimes@.dom().contains(key) {
            self == before
        } else {
            &&& self == (Workspace { runtimes: self.runtimes, ..before })
            &&& self.runtimes@.dom().contains(key)
            &&& self.runtimes@ == before.runtimes@.insert(key, self.runtimes@[key])
            &&& opened_runtime(self.runtimes@[key], messages, entry(before.streaming_states@, key), data)
        }
    }

    /// Opens a conversation with the messages that were read for it, unless it
    /// is open already.
    pub fn ensure_conv_loaded_with(&mut self, conv_id: &str, messages: Vec<ChatMessage>, data: &ConversationData)
        ensures
            final(self).opens(*old(self), conv_id@, messages@, *data),
    {
        if self.runtimes.contains(conv_id) {
            return ;
        }
        let streaming: Option<u64> = match self.streaming_states.get(conv_id) {
            Some(h) => Some(*h),
            None => None,
        };
        let context_window: u32 = match data.context_window {
            Some(w) => w,
            None => DEFAULT_CONTEXT_WINDOW,
        };
        let rt = ConversationRuntime {
            messages: open_messages(messages, streaming),
            tick: 0,
            agent_handler: None,
            agent_config_id: data.agent_config_id.clone(),
            agent_mode: data.agent_mode,
            cancel_token: None,
            accumulated_usage: data.usage,
            last_loop_usage: None,
            request_count: data.request_count,
            context_window,
        };
        self.runtimes.insert(conv_id.to_owned(), rt);
    }

    /// Opens a conversation with the messages that are stored, unless it is open
    /// already.
    pub fn ensure_conv_loaded(&mut self, conv_id: &str, data: &ConversationData)
        ensures
            old(self).runtimes@.dom().contains(conv_id@) ==> *final(self) == *old(self),
            !old(self).runtimes@.dom().contains(conv_id@) ==> exists|messages: Seq<ChatMessage>| #[trigger]
                loads(data.stored@, messages) && final(self).opens(*old(self), conv_id@, messages, *data),
    {
        if self.runtimes.contains(conv_id) {
            return ;
        }
        let messages = load_messages(&data.stored);
        assert(loads(data.stored@, messages@));
        self.ensure_conv_loaded_with(conv_id, messages, data);
    }

    /// Shows a conversation that is open.
    pub fn show_conversation(&mut self, conv_id: String)
        ensures
            final(self).active_conversation_id == conv_id,
            final(self).agent_mode == if old(self).runtimes@.dom().contains(conv_id@) {
                old(self).runtimes@[conv_id@].agent_mode
            } else {
                old(self).agent_mode
            },
            *final(self) == (Workspace {
                active_conversation_id: final(self).active_conversation_id,
                agent_mode: final(self).agent_mode,
                ..*old(self)
            }),
    {
        if let Some(rt) = self.runtimes.get(conv_id.as_str()) {
            self.agent_mode = rt.agent_mode;
        }
        self.active_conversation_id = conv_id;
    }

    /// Shows a project with the conversations that are stored for it. Returns
    /// the conversation that is to be opened: the first.
    pub fn select_project(&mut self, project_id: String, conversations: Vec<Conversation>) -> (r: Option<String>)
        ensures
            final(self).active_project_id == Some(project_id),
            final(self).sidebar_view == SidebarView::ConversationList(project_id),
            project_set(
                old(self).projects@,
                final(self).projects@,
                project_id@,
                |c: Seq<Conversation>| conversations@,
                |t: Option<i64>| t,
            ),
            *final(self) == (Workspace {
                active_project_id: final(self).active_project_id,
                sidebar_view: final(self).sidebar_view,
                projects: final(self).projects,
                ..*old(self)
            }),
            r == if conversations@.len() > 0 {
                Some(conversations@[0].id)
            } else {
                None
            },
    {
        let first: Option<String> = if conversations.len() > 0 {
            Some(conversations[0].id.clone())
        } else {
            None
        };
        if let Some(i) = find_project(&self.projects, project_id.as_str()) {
            let mut p = self.projects.remove(i);
            p.conversations = conversations;
            self.projects.insert(i, p);
            assert(self.projects@ =~= old(self).projects@.update(i as int, p));
        }
        self.active_project_id = Some(project_id.clone());
        self.sidebar_view = SidebarView::ConversationList(project_id);
        first
    }

    fn clear_runtime(&mut self, key: String)
        ensures
            final(self).cleared(*old(self), key@),
            *final(self) == (Workspace { runtimes: final(self).runtimes, ..*old(self) }),
    {
        let rt = ConversationRuntime::empty(self.default_mode);
        self.runtimes.insert(key, rt);
    }

    /// Goes back to the list of projects.
    pub fn back_to_projects(&mut self)
        ensures
            final(self).sidebar_view == SidebarView::ProjectList,
            final(self).active_project_id is None,
            final(self).active_conversation_id@.len() == 0,
            final(self).cleared(*old(self), Seq::empty()),
            *final(self) == (Workspace {
                sidebar_view: final(self).sidebar_view,
                active_project_id: final(self).active_project_id,
                active_conversation_id: final(self).active_conversation_id,
                runtimes: final(self).runtimes,
                ..*old(self)
            }),
    {
        self.sidebar_view = SidebarView::ProjectList;
        self.active_project_id = None;
        self.active_conversation_id = String::new();
        self.clear_runtime(String::new());
    }

    /// Shows a project that was just made; `rows` are the projects as they are
    /// stored now.
    pub fn new_project(&mut self, new_id: String, rows: &Vec<ProjectRow>)
        ensures
            bare_projects(final(self).projects@, rows@),
            final(self).active_project_id == Some(new_id),
            final(self).sidebar_view == SidebarView::ConversationList(new_id),
            final(self).active_conversation_id@.len() == 0,
            final(self).cleared(*old(self), Seq::empty()),
            *final(self) == (Workspace {
                projects: final(self).projects,
                active_project_id: final(self).active_project_id,
                sidebar_view: final(self).sidebar_view,
                active_conversation_id: final(self).active_conversation_id,
                runtimes: final(self).runtimes,
                ..*old(self)
            }),
    {
        self.projects = projects_from_rows(rows);
        self.active_project_id = Some(new_id.clone());
        self.sidebar_view = SidebarView::ConversationList(new_id);
        self.active_conversation_id = String::new();
        self.clear_runtime(String::new());
    }

    /// The project in which something is done: the active one, or the default
    /// one.
    pub open spec fn working_project(self) -> Seq<char> {
        match self.active_project_id {
            Some(id) => id@,
            None => self.default_project_id@,
        }
    }

    /// `self` is `before` with its working project on show.
    pub open spec fn entered(self, before: Workspace) -> bool {
        match before.active_project_id {
            Some(id) => self.active_project_id == before.active_project_id && self.sidebar_view
                == before.sidebar_view,
            None => self.active_project_id == Some(before.default_project_id) && self.sidebar_view
                == SidebarView::ConversationList(before.default_project_id),
        }
    }

    /// Shows the default project where none is active. Returns the active
    /// project.
    pub fn enter_working_project(&mut self) -> (r: String)
        ensures
            r@ == old(self).working_project(),
            final(self).entered(*old(self)),
            *final(self) == (Workspace {
                active_project_id: final(self).active_project_id,
                sidebar_view: final(self).sidebar_view,
                ..*old(self)
            }),
    {
        match &self.active_project_id {
            Some(id) => id.clone(),
            None => {
                let id = self.default_project_id.clone();
                self.active_project_id = Some(id.clone());
                self.sidebar_view = SidebarView::ConversationList(id.clone());
                id
            },
        }
    }

    /// Starts a conversation: a placeholder without id and title stands at the
    /// end of the project's list until something is sent. The settings give the
    /// agent mode and the agent, if it still exists.
    pub fn new_conversation(&mut self, now: i64, agent_mode: AgentMode, default_config_id: String, config_exists: bool)
        ensures
            final(self).entered(*old(self)),
            project_gets(
                old(self).projects@,
                final(self).projects@,
                old(self).working_project(),
                now,
            ),
            final(self).active_conversation_id@.len() == 0,
            final(self).agent_mode == agent_mode,
            final(self).selected_agent_config_id@ == if config_exists {
                default_config_id@
            } else {
                Seq::<char>::empty()
            },
            final(self).cleared(*old(self), Seq::empty()),
            final(self).active_tool_calls@.len() == 0,
            *final(self) == (Workspace {
                active_project_id: final(self).active_project_id,
                sidebar_view: final(self).sidebar_view,
                projects: final(self).projects,
                active_conversation_id: final(self).active_conversation_id,
                agent_mode: final(self).agent_mode,
                selected_agent_config_id: final(self).selected_agent_config_id,
                runtimes: final(self).runtimes,
                active_tool_calls: final(self).active_tool_calls,
                ..*old(self)
            }),
    {
        let project_id = self.enter_working_project();
        if let Some(i) = find_project(&self.projects, project_id.as_str()) {
            let mut p = self.projects.remove(i);
            let c = Conversation { id: String::new(), title: String::new(), updated_at: now, message_count: 0 };
            p.conversations.push(c);
            p.last_activity_at = Some(now);
            self.projects.insert(i, p);
            assert(self.projects@ =~= old(self).projects@.update(i as int, p));
            assert(placeholder(c, now));
        }
        self.active_conversation_id = String::new();
        self.agent_mode = agent_mode;
        self.selected_agent_config_id = if config_exists {
            default_config_id
        } else {
            String::new()
        };
        self.clear_runtime(String::new());
        self.active_tool_calls = Vec::new();
    }

    /// Removes a conversation from the list of the working project, and from the
    /// screen where it is on show.
    pub fn delete_conversation(&mut self, conv_id: &str)
        ensures
            project_set(
                old(self).projects@,
                final(self).projects@,
                old(self).working_project(),
                |c: Seq<Conversation>| others(c, conv_id@, c.len()),
                |t: Option<i64>| t,
            ),
            if old(self).active_conversation_id@ == conv_id@ {
                &&& final(self).active_conversation_id@.len() == 0
                &&& final(self).cleared(*old(self), Seq::empty())
                &&& final(self).active_tool_calls@.len() == 0
            } else {
                &&& final(self).active_conversation_id == old(self).active_conversation_id
                &&& final(self).runtimes == old(self).runtimes
                &&& final(self).active_tool_calls == old(self).active_tool_calls
            },
            *final(self) == (Workspace {
                projects: final(self).projects,
                active_conversation_id: final(self).active_conversation_id,
                runtimes: final(self).runtimes,
                active_tool_calls: final(self).active_tool_calls,
                ..*old(self)
            }),
    {
        let project_id: String = match &self.active_project_id {
            Some(id) => id.clone(),
            None => self.default_project_id.clone(),
        };
        if same_text(self.active_conversation_id.as_str(), conv_id) {
            self.active_conversation_id = String::new();
            self.clear_runtime(String::new());
            self.active_tool_calls = Vec::new();
        }
        if let Some(i) = find_project(&self.projects, project_id.as_str()) {
            let mut p = self.projects.remove(i);
            let all = p.conversations;
            p.conversations = without_conversation(all, conv_id);
            self.projects.insert(i, p);
            assert(self.projects@ =~= old(self).projects@.update(i as int, p));
        }
    }

    /// Whether a project can be deleted: every one but the default project.
    pub fn can_delete_project(&self, project_id: &str) -> (r: bool)
        ensures
            r == (project_id@ != self.default_project_id@),
    {
        !same_text(project_id, self.default_project_id.as_str())
    }

    /// Leaves a project that is being deleted; `rows` are the projects that
    /// remain. The default project stays, and so does everything else then.
    pub fn delete_project(&mut self, project_id: &str, rows: &Vec<ProjectRow>)
        ensures
            project_id@ == old(self).default_project_id@ ==> *final(self) == *old(self),
            project_id@ != old(self).default_project_id@ ==> {
                &&& bare_projects(final(self).projects@, rows@)
                &&& *final(self) == (Workspace {
                    projects: final(self).projects,
                    sidebar_view: final(self).sidebar_view,
                    active_project_id: final(self).active_project_id,
                    runtimes: final(self).runtimes,
                    ..*old(self)
                })
                &&& if old(self).active_project_id is Some && old(self).active_project_id->0@ == project_id@ {
                    &&& final(self).sidebar_view == SidebarView::ProjectList
                    &&& final(self).active_project_id is None
                    &&& final(self).cleared(*old(self), old(self).active_conversation_id@)
                } else {
                    &&& final(self).sidebar_view == old(self).sidebar_view
                    &&& final(self).active_project_id == old(self).active_project_id
                    &&& final(self).runtimes == old(self).runtimes
                }
            },
    {
        if !self.can_delete_project(project_id) {
            return ;
        }
        let current = match &self.active_project_id {
            Some(id) => same_text(id.as_str(), project_id),
            None => false,
        };
        if current {
            self.sidebar_view = SidebarView::ProjectList;
            self.active_project_id = None;
            let key = self.active_conversation_id.clone();
            self.clear_runtime(key);
        }
        self.projects = projects_from_rows(rows);
    }

    /// Shows the projects as they are stored now.
    pub fn refresh_projects(&mut self, rows: &Vec<ProjectRow>)
        ensures
            bare_projects(final(self).projects@, rows@),
            *final(self) == (Workspace { projects: final(self).projects, ..*old(self) }),
    {
        self.projects = projects_from_rows(rows);
    }
}

/// The messages are what the stored messages come to.
pub open spec fn loads(stored: Seq<StoredMessage>, messages: Seq<ChatMessage>) -> bool {
    exists|stamps: Seq<Seq<char>>|
        stamps.len() == stored.len() && (forall|i: int|
            0 <= i < stamps.len() ==> crate::error::clock_text(#[trigger] stamps[i])) && message_models(messages)
            == #[trigger] crate::messages::loaded(
            stored,
            crate::messages::stored_htmls(stored),
            stamps,
            stored.len(),
        )
}

/// A conversation in which nothing has been sent.
pub open spec fn placeholder(c: Conversation, now: i64) -> bool {
    c.id@.len() == 0 && c.title@.len() == 0 && c.updated_at == now && c.message_count == 0
}

/// `after` is `before` but for the project with this id, which got a placeholder
/// and was active at `now`.
pub open spec fn project_gets(before: Seq<Project>, after: Seq<Project>, id: Seq<char>, now: i64) -> bool {
    match project_place(before, id, 0) {
        Some(i) => {
            let was = before[i].conversations@;
            let is = after[i].conversations@;
            &&& after.len() == before.len()
            &&& after == before.update(i, after[i])
            &&& is.len() == was.len() + 1
            &&& is == was.push(is.last())
            &&& placeholder(is.last(), now)
            &&& after[i] == (Project {
                conversations: after[i].conversations,
                last_activity_at: Some(now),
                ..before[i]
            })
        },
        None => after == before,
    }
}

/// The first `n` conversations without those that have this id.
pub open spec fn others(s: Seq<Conversation>, id: Seq<char>, n: nat) -> Seq<Conversation>
    decreases n,
{
    if n == 0 {
        Seq::empty()
    } else if s[n - 1].id@ == id {
        others(s, id, (n - 1) as nat)
    } else {
        others(s, id, (n - 1) as nat).push(s[n - 1])
    }
}

fn without_conversation(all: Vec<Conversation>, id: &str) -> (r: Vec<Conversation>)
    ensures
        r@ == others(all@, id@, all@.len()),
{
    let mut rest = all;
    let ghost s = rest@;
    let n = rest.len();
    let mut r: Vec<Conversation> = Vec::new();
    let mut i: usize = 0;
    while i < n
        invariant
            i <= n == s.len(),
            rest@ == s.skip(i as int),
            r@ == others(s, id@, i as nat),
        decreases n - i,
    {
        let c = rest.remove(0);
        assert(rest@ =~= s.skip(i + 1));
        if !same_text(c.id.as_str(), id) {
            r.push(c);
        }
        i = i + 1;
    }
    r
}

/// A deleted conversation is gone from the list, and the others stay.
pub proof fn others_have_other_ids(s: Seq<Conversation>, id: Seq<char>, n: nat)
    requires
        n <= s.len(),
    ensures
        forall|i: int| 0 <= i < others(s, id, n).len() ==> (#[trigger] others(s, id, n)[i]).id@ != id,
        forall|i: int| 0 <= i < n && (#[trigger] s[i]).id@ != id ==> others(s, id, n).contains(s[i]),
    decreases n,
{
    if n > 0 {
        others_have_other_ids(s, id, (n - 1) as nat);
        let prev = others(s, id, (n - 1) as nat);
        if s[n - 1].id@ != id {
            assert(others(s, id, n).last() == s[n - 1]);
            assert forall|i: int| 0 <= i < n && (#[trigger] s[i]).id@ != id implies others(s, id, n).contains(s[i]) by {
                if i < n - 1 {
                    assert(prev.contains(s[i]));
                    let j = choose|j: int| 0 <= j < prev.len() && prev[j] == s[i];
                    assert(others(s, id, n)[j] == s[i]);
                } else {
                    assert(others(s, id, n)[prev.len() as int] == s[i]);
                }
            }
        }
    }
}

/// A conversation is opened once: to open it again changes nothing, whatever was
/// read for it. The other conversations stay as they are.
pub proof fn opening_again_changes_nothing(
    before: Workspace,
    once: Workspace,
    twice: Workspace,
    key: Seq<char>,
    messages: Seq<ChatMessage>,
    data: ConversationData,
    messages_again: Seq<ChatMessage>,
    data_again: ConversationData,
)
    requires
        once.opens(before, key, messages, data),
        twice.opens(once, key, messages_again, data_again),
    ensures
        once.runtimes@.dom().contains(key),
        twice == once,
        forall|other: Seq<char>|
            #![trigger before.runtimes@.dom().contains(other)]
            other != key && before.runtimes@.dom().contains(other) ==> once.runtimes@.dom().contains(other)
                && once.runtimes@[other] == before.runtimes@[other],
{
}

/// A project is found by its id: the first one that has it.
pub proof fn a_project_is_found_by_its_id(s: Seq<Project>, id: Seq<char>, i: int)
    ensures
        0 <= i < s.len() && s[i].id@ == id && (forall|k: int| 0 <= k < i ==> !((#[trigger] s[k]).id@ == id)) ==> project_place(s, id, 0) == Some(i),
        (forall|k: int| 0 <= k < s.len() ==> !((#[trigger] s[k]).id@ == id)) ==> project_place(s, id, 0) is None,
{
    lemma_project_place(s, id, 0);
}

proof fn lemma_project_place(s: Seq<Project>, id: Seq<char>, from: int)
    requires
        0 <= from,
    ensures
        match project_place(s, id, from) {
            Some(p) => from <= p < s.len() && s[p].id@ == id && forall|k: int| from <= k < p ==> !((#[trigger] s[k]).id@ == id),
            None => forall|k: int| from <= k < s.len() ==> !((#[trigger] s[k]).id@ == id),
        },
    decreases s.len() - from,
{
    if from < s.len() && !(s[from].id@ == id) {
        lemma_project_place(s, id, from + 1);
    }
}

/// All conversations but the one with this id stay, in order.
pub proof fn other_conversations_stay(s: Seq<Conversation>, id: Seq<char>, n: nat)
    requires
        n <= s.len(),
    ensures
        others(s, id, n) == s.take(n as int).filter(|x: Conversation| x.id@ != id),
    decreases n,
{
    reveal(Seq::filter);
    let t = s.take(n as int);
    if n > 0 {
        other_conversations_stay(s, id, (n - 1) as nat);
        assert(t.drop_last() =~= s.take(n - 1));
        assert(t.last() == s[n - 1]);
    } else {
        assert(t.filter(|x: Conversation| x.id@ != id) =~= Seq::<Conversation>::empty());
    }
}

/// The answers at the end are left out, and nothing else: what is left ends with no answer, and
/// what was left out were answers.
pub proof fn only_the_last_answers_are_left_out(s: Seq<ChatMessage>)
    ensures
        ({
            let r = without_last_answers(s);
            &&& r.len() <= s.len()
            &&& r == s.take(r.len() as int)
            &&& r.len() > 0 ==> r.last().role != Role::Assistant
            &&& forall|i: int| r.len() <= i < s.len() ==> (#[trigger] s[i]).role == Role::Assistant
        }),
    decreases s.len(),
{
    if s.len() > 0 && s.last().role == Role::Assistant {
        only_the_last_answers_are_left_out(s.drop_last());
        let r = without_last_answers(s);
        assert(s.drop_last().take(r.len() as int) =~= s.take(r.len() as int));
        assert forall|i: int| r.len() <= i < s.len() implies (#[trigger] s[i]).role == Role::Assistant by {
            if i < s.len() - 1 {
                assert(s.drop_last()[i] == s[i]);
            }
        }
    } else {
        assert(s.take(s.len() as int) =~= s);
    }
}

/// An opened conversation shows its messages; while an answer comes in, the answers at the end
/// give way to one placeholder for it.
pub proof fn an_opened_conversation_shows_its_messages(s: Seq<ChatMessage>, handle: u64, i: int)
    ensures
        opened_messages(s, None).len() == s.len(),
        0 <= i < s.len() ==> opened_messages(s, None)[i] == UiMessage::Static(s[i]),
        opened_messages(s, Some(handle)).len() == without_last_answers(s).len() + 1,
        opened_messages(s, Some(handle)).last() == (UiMessage::Streaming { handle }),
        0 <= i < without_last_answers(s).len() ==> opened_messages(s, Some(handle))[i] == UiMessage::Static(s[i]),
{
    only_the_last_answers_are_left_out(s);
    let r = without_last_answers(s);
    if 0 <= i < r.len() {
        assert(r[i] == s.take(r.len() as int)[i]);
    }
}

} // verus!
