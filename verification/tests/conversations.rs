use ueberneon::book_chat::{cites_book, BookChat, BookCitation, ChatRow, ChatSend, ChatStep};
use ueberneon::bridge::{build_static_message, build_static_message_at, InterruptState, UiContext};
use ueberneon::error::ErrorSeverity;
use ueberneon::messages::{
    backfill_result, load_messages, load_messages_with, status_of_result, StoredCall, StoredMessage, StoredRole,
};
use ueberneon::model::{
    ActionMode, AgentMode, ChatMessage, Role, StreamSegment, TokenUsageRecord, ToolCallRecord, ToolCallStatus, UiMessage,
    DEFAULT_CONTEXT_WINDOW,
};
use ueberneon::sending::{new_user_message, plan_approved_text, user_message_at};
use ueberneon::workspace::{open_messages, Conversation, ConversationData, ProjectRow, SidebarView, Workspace};

fn row(id: &str) -> ProjectRow {
    ProjectRow {
        id: id.to_string(),
        name: format!("project {id}"),
        path: format!("/{id}"),
        created_at: 7,
        indicator_color: String::new(),
        last_activity_at: None,
    }
}

fn workspace() -> Workspace {
    Workspace::new(
        "default".to_string(),
        AgentMode::Ask,
        &vec![row("default"), row("p1")],
        AgentMode::Auto,
        "cfg".to_string(),
    )
}

fn conversation(id: &str, title: &str) -> Conversation {
    Conversation { id: id.to_string(), title: title.to_string(), updated_at: 5, message_count: 2 }
}

fn stored(role: StoredRole, content: &str) -> StoredMessage {
    StoredMessage {
        role,
        content: Some(content.to_string()),
        reasoning_content: None,
        tool_calls: Vec::new(),
        tool_call_id: None,
        tool_name: None,
    }
}

fn call(name: &str) -> StoredCall {
    StoredCall { id: format!("id-{name}"), name: name.to_string(), arguments: "{}".to_string() }
}

fn result(name: Option<&str>, content: &str) -> StoredMessage {
    StoredMessage {
        tool_call_id: Some("x".to_string()),
        tool_name: name.map(|n| n.to_string()),
        ..stored(StoredRole::Tool, content)
    }
}

fn load(messages: Vec<StoredMessage>) -> Vec<ChatMessage> {
    let htmls = messages.iter().map(|m| format!("<{}>", m.content.clone().unwrap_or_default())).collect();
    let stamps = messages.iter().enumerate().map(|(i, _)| format!("t{i}")).collect();
    load_messages_with(&messages, &htmls, &stamps)
}

fn data(messages: Vec<StoredMessage>) -> ConversationData {
    ConversationData {
        stored: messages,
        agent_config_id: Some("cfg-7".to_string()),
        agent_mode: AgentMode::Cautious,
        usage: usage(1),
        request_count: 4,
        context_window: None,
    }
}

fn usage(n: u32) -> TokenUsageRecord {
    TokenUsageRecord {
        prompt_tokens: n,
        completion_tokens: 2 * n,
        reasoning_tokens: 3 * n,
        total_tokens: 4 * n,
        cache_hit_tokens: 5 * n,
        cache_miss_tokens: 6 * n,
    }
}

fn context() -> UiContext {
    UiContext {
        project_id: "p1".to_string(),
        conversation_id: "c1".to_string(),
        segments: None,
        db_usage: usage(10),
        db_requests: 3,
    }
}

fn placeholders(w: &Workspace, id: &str) -> usize {
    w.runtimes.get(id).map_or(0, |r| r.messages.iter().filter(|m| m.is_streaming()).count())
}

// ── loading ──

#[test]
fn consecutive_assistant_messages_become_one() {
    let first = StoredMessage {
        reasoning_content: Some("hm".to_string()),
        tool_calls: vec![call("grep")],
        ..stored(StoredRole::Assistant, "one")
    };
    let second = stored(StoredRole::Assistant, "two");
    let r = load(vec![stored(StoredRole::User, "hi"), first, second]);
    assert_eq!(r.len(), 2);
    assert_eq!(r[0].role, Role::User);
    assert_eq!(r[0].content_html, "<hi>");
    assert_eq!(r[1].role, Role::Assistant);
    assert_eq!(r[1].content, "two");
    assert_eq!(r[1].content_html, "<two>");
    assert_eq!(r[1].reasoning, "hm");
    assert_eq!(r[1].timestamp, "t1");
    assert_eq!(r[1].segments.len(), 4);
    assert!(matches!(&r[1].segments[0], StreamSegment::Reasoning(t) if t == "hm"));
    assert!(matches!(&r[1].segments[1], StreamSegment::Text(t) if t == "one"));
    assert!(matches!(&r[1].segments[2], StreamSegment::ToolCall(c) if c.tool_name == "grep" && c.result.is_none()));
    assert!(matches!(&r[1].segments[3], StreamSegment::Text(t) if t == "two"));
}

#[test]
fn an_empty_answer_keeps_the_content_before_it() {
    let r = load(vec![stored(StoredRole::Assistant, "one"), stored(StoredRole::Assistant, "")]);
    assert_eq!(r.len(), 1);
    assert_eq!(r[0].content, "one");
    assert_eq!(r[0].content_html, "<one>");
    assert_eq!(r[0].segments.len(), 1);
}

#[test]
fn system_messages_are_not_shown() {
    let r = load(vec![stored(StoredRole::System, "rules"), stored(StoredRole::User, "hi")]);
    assert_eq!(r.len(), 1);
    assert_eq!(r[0].content, "hi");
}

#[test]
fn results_go_to_the_first_waiting_call_of_their_tool() {
    let calls = StoredMessage {
        tool_calls: vec![call("bash"), call("grep"), call("bash")],
        ..stored(StoredRole::Assistant, "")
    };
    let r = load(vec![
        calls,
        result(Some("bash"), "ok"),
        result(Some("bash"), "error: denied by user: no"),
        result(None, "error: boom"),
        result(Some("bash"), "too many"),
    ]);
    let found: Vec<(String, Option<String>)> = r[0]
        .segments
        .iter()
        .map(|s| match s {
            StreamSegment::ToolCall(c) => (c.tool_name.clone(), c.result.clone()),
            _ => unreachable!(),
        })
        .collect();
    assert_eq!(found[0], ("bash".to_string(), Some("ok".to_string())));
    assert_eq!(found[1], ("grep".to_string(), Some("error: boom".to_string())));
    assert_eq!(found[2], ("bash".to_string(), Some("error: denied by user: no".to_string())));
    let status: Vec<ToolCallStatus> = r[0]
        .segments
        .iter()
        .map(|s| match s {
            StreamSegment::ToolCall(c) => c.status.clone(),
            _ => unreachable!(),
        })
        .collect();
    assert!(matches!(status[0], ToolCallStatus::Success));
    assert!(matches!(&status[1], ToolCallStatus::Failed(t) if t == "error: boom"));
    assert!(matches!(&status[2], ToolCallStatus::Denied(t) if t == "error: denied by user: no"));
}

#[test]
fn a_result_without_call_id_is_ignored() {
    let calls = StoredMessage { tool_calls: vec![call("bash")], ..stored(StoredRole::Assistant, "") };
    let r = load(vec![calls, StoredMessage { tool_call_id: None, ..result(Some("bash"), "ok") }]);
    assert!(matches!(&r[0].segments[0], StreamSegment::ToolCall(c) if c.result.is_none()));
}

#[test]
fn the_last_message_with_a_waiting_call_gets_the_result() {
    let calls = StoredMessage { tool_calls: vec![call("bash")], ..stored(StoredRole::Assistant, "a") };
    let again = StoredMessage { tool_calls: vec![call("bash")], ..stored(StoredRole::Assistant, "b") };
    let mut r = load(vec![calls, stored(StoredRole::User, "go on"), again]);
    backfill_result(&mut r, &Some("bash".to_string()), "late");
    backfill_result(&mut r, &Some("bash".to_string()), "early");
    assert!(matches!(&r[2].segments[1], StreamSegment::ToolCall(c) if c.result.as_deref() == Some("late")));
    assert!(matches!(&r[0].segments[1], StreamSegment::ToolCall(c) if c.result.as_deref() == Some("early")));
}

#[test]
fn what_a_result_says_of_its_call() {
    assert!(matches!(status_of_result("error: approval channel closed"), ToolCallStatus::Denied(_)));
    assert!(matches!(status_of_result("error: approval channel closed."), ToolCallStatus::Failed(_)));
    assert!(matches!(status_of_result("error:"), ToolCallStatus::Failed(_)));
    assert!(matches!(status_of_result("no error: at all"), ToolCallStatus::Success));
}

#[test]
fn loading_renders_markdown_and_stamps_the_time() {
    let r = load_messages(&vec![stored(StoredRole::User, "*hi*\n\n|a|\n|-|\n|b|")]);
    assert_eq!(
        r[0].content_html,
        "<p><em>hi</em></p>\n<table><thead><tr><th>a</th></tr></thead><tbody>\n<tr><td>b</td></tr>\n</tbody></table>\n"
    );
    assert_eq!(r[0].timestamp.len(), 8);
    assert_eq!(r[0].timestamp.as_bytes()[2], b':');
}

#[test]
fn what_the_user_said_is_all_there() {
    let r = load(vec![
        stored(StoredRole::User, "a"),
        stored(StoredRole::User, "b"),
        stored(StoredRole::Assistant, "x"),
        stored(StoredRole::User, "c"),
    ]);
    let said: Vec<&str> = r.iter().filter(|m| m.role == Role::User).map(|m| m.content.as_str()).collect();
    assert_eq!(said, vec!["a", "b", "c"]);
}

// ── opening ──

#[test]
fn an_answer_that_is_coming_in_replaces_the_last_answers() {
    let messages = load(vec![
        stored(StoredRole::User, "a"),
        stored(StoredRole::Assistant, "x"),
    ]);
    let shown = open_messages(messages, Some(9));
    assert_eq!(shown.len(), 2);
    assert!(shown[0].is_from(Role::User));
    assert!(matches!(shown[1], UiMessage::Streaming { handle: 9 }));
    let messages = load(vec![stored(StoredRole::Assistant, "x")]);
    assert_eq!(open_messages(messages, None).len(), 1);
}

#[test]
fn a_conversation_is_read_once() {
    let mut w = workspace();
    assert!(w.needs_loading("c1"));
    w.ensure_conv_loaded("c1", &data(vec![stored(StoredRole::User, "hi")]));
    assert!(!w.needs_loading("c1"));
    w.ensure_conv_loaded("c1", &data(Vec::new()));
    let rt = w.runtimes.get("c1").unwrap();
    assert_eq!(rt.messages.len(), 1);
    assert_eq!(rt.request_count, 4);
    assert_eq!(rt.agent_config_id.as_deref(), Some("cfg-7"));
    assert_eq!(rt.context_window, DEFAULT_CONTEXT_WINDOW);
    w.show_conversation("c1".to_string());
    assert_eq!(w.agent_mode, AgentMode::Cautious);
    assert_eq!(w.active_conversation_id, "c1");
    w.show_conversation("unknown".to_string());
    assert_eq!(w.agent_mode, AgentMode::Cautious);
}

// ── projects ──

#[test]
fn a_project_opens_with_its_first_conversation() {
    let mut w = workspace();
    let first = w.select_project("p1".to_string(), vec![conversation("c1", "t"), conversation("c2", "u")]);
    assert_eq!(first.as_deref(), Some("c1"));
    assert_eq!(w.active_project_id.as_deref(), Some("p1"));
    assert!(matches!(&w.sidebar_view, SidebarView::ConversationList(id) if id == "p1"));
    assert_eq!(w.projects[1].conversations.len(), 2);
    assert_eq!(w.projects[0].conversations.len(), 0);
    assert_eq!(w.select_project("p1".to_string(), Vec::new()), None);
}

#[test]
fn a_new_conversation_starts_as_a_placeholder_of_the_default_project() {
    let mut w = workspace();
    w.new_conversation(99, AgentMode::Unrestrained, "cfg-2".to_string(), false);
    assert_eq!(w.active_project_id.as_deref(), Some("default"));
    assert_eq!(w.projects[0].conversations.len(), 1);
    assert_eq!(w.projects[0].conversations[0].id, "");
    assert_eq!(w.projects[0].last_activity_at, Some(99));
    assert_eq!(w.selected_agent_config_id, "");
    assert_eq!(w.agent_mode, AgentMode::Unrestrained);
    assert_eq!(w.runtimes.get("").unwrap().messages.len(), 0);
}

#[test]
fn deleting_the_shown_conversation_clears_the_screen() {
    let mut w = workspace();
    w.select_project("p1".to_string(), vec![conversation("c1", "t"), conversation("c2", "u")]);
    w.show_conversation("c1".to_string());
    w.delete_conversation("c1");
    assert_eq!(w.active_conversation_id, "");
    assert_eq!(w.projects[1].conversations.len(), 1);
    assert_eq!(w.projects[1].conversations[0].id, "c2");
    w.show_conversation("c9".to_string());
    w.delete_conversation("c2");
    assert_eq!(w.active_conversation_id, "c9");
    assert!(w.projects[1].conversations.is_empty());
}

#[test]
fn the_default_project_cannot_be_deleted() {
    let mut w = workspace();
    w.delete_project("default", &vec![row("p1")]);
    assert_eq!(w.projects.len(), 2);
    w.select_project("p1".to_string(), Vec::new());
    w.show_conversation("c1".to_string());
    w.delete_project("p1", &vec![row("default")]);
    assert_eq!(w.projects.len(), 1);
    assert_eq!(w.active_project_id, None);
    assert!(matches!(w.sidebar_view, SidebarView::ProjectList));
    assert_eq!(w.active_conversation_id, "c1");
    assert_eq!(w.runtimes.get("c1").unwrap().messages.len(), 0);
}

#[test]
fn making_and_leaving_a_project() {
    let mut w = workspace();
    w.new_project("p9".to_string(), &vec![row("default"), row("p9")]);
    assert_eq!(w.active_project_id.as_deref(), Some("p9"));
    assert_eq!(w.projects.len(), 2);
    w.back_to_projects();
    assert_eq!(w.active_project_id, None);
    assert_eq!(w.active_conversation_id, "");
    w.refresh_projects(&vec![row("a"), row("b"), row("c")]);
    assert_eq!(w.projects.len(), 3);
    assert_eq!(w.projects[2].name, "project c");
}

// ── sending ──

#[test]
fn a_sent_message_goes_to_a_new_conversation() {
    let mut w = workspace();
    w.new_conversation(1, AgentMode::Ask, "cfg".to_string(), true);
    let pid = w.enter_working_project();
    assert_eq!(pid, "default");
    assert_eq!(w.new_conversation_config(), "cfg");
    w.conversation_started(&pid, "c5".to_string(), 77, "cfg", "hello".to_string(), 2);
    assert_eq!(w.active_conversation_id, "c5");
    assert_eq!(w.projects[0].conversations.len(), 1);
    assert_eq!(w.projects[0].conversations[0].title, "hello");
    let m = user_message_at("hello", "<p>hello</p>".to_string(), "12:00:00".to_string());
    w.message_sent(pid, "c5", m, vec![conversation("c5", "hello")], 3, 8);
    let rt = w.runtimes.get("c5").unwrap();
    assert_eq!(rt.agent_handler, Some(77));
    assert_eq!(rt.agent_config_id.as_deref(), Some("cfg"));
    assert_eq!(rt.cancel_token, Some(8));
    assert_eq!(rt.messages.len(), 1);
    assert_eq!(w.projects[0].conversations[0].message_count, 2);
    assert_eq!(w.projects[0].last_activity_at, Some(3));
    assert_eq!(w.streaming_project_id, vec!["default".to_string()]);
    assert_eq!(w.cancel_request(), Some(8));
}

#[test]
fn an_existing_conversation_keeps_its_agent() {
    let mut w = workspace();
    w.handler_ready("c1", 5);
    assert_eq!(w.handler_for_run("c1", 6), 5);
    assert_eq!(w.handler_for_run("c2", 6), 6);
    assert_eq!(w.handler_for_run("c2", 7), 6);
}

#[test]
fn a_chosen_agent_stands_in_the_bar_and_for_the_next_conversation() {
    let mut w = workspace();
    assert_eq!(w.shown_agent_config(), "cfg");
    assert!(!w.config_disabled());
    w.choose_agent_config("new".to_string());
    assert_eq!(w.shown_agent_config(), "new");
    assert_eq!(w.new_conversation_config(), "new");
    w.ensure_conv_loaded("c1", &data(Vec::new()));
    w.show_conversation("c1".to_string());
    assert!(w.config_disabled());
    assert_eq!(w.shown_agent_config(), "cfg-7");
    w.choose_agent_config("other".to_string());
    assert_eq!(w.shown_agent_config(), "other");
    w.choose_agent_mode(AgentMode::Unrestrained);
    assert_eq!(w.runtimes.get("c1").unwrap().agent_mode, AgentMode::Unrestrained);
    w.default_config_changed(String::new(), true);
    assert_eq!(w.selected_agent_config_id, "other");
    w.default_config_changed("gone".to_string(), false);
    assert_eq!(w.selected_agent_config_id, "");
}

#[test]
fn an_approved_plan_is_answered_by_a_message() {
    let mut w = workspace();
    w.action_mode = ActionMode::Plan;
    assert_eq!(w.accept_plan("c1"), None);
    assert_eq!(w.action_mode, ActionMode::Regular);
    w.handler_ready("c1", 5);
    assert_eq!(w.accept_plan("c1"), Some(5));
    w.plan_accepted("c1", "10:00:00".to_string(), 3);
    let rt = w.runtimes.get("c1").unwrap();
    assert_eq!(rt.tick, 2);
    assert_eq!(rt.cancel_token, Some(3));
    assert!(matches!(&rt.messages[0], UiMessage::Static(m) if m.content == plan_approved_text()));
    w.reject_plan();
    assert_eq!(w.take_hint().as_deref(), Some("请对计划提出修改意见…"));
    assert_eq!(w.take_hint(), None);
}

#[test]
fn a_message_of_the_user_is_rendered() {
    let m = new_user_message("**a**");
    assert_eq!(m.content_html, "<p><strong>a</strong></p>\n");
    assert_eq!(m.role, Role::User);
    assert_eq!(m.timestamp.len(), 8);
}

// ── runs ──

#[test]
fn an_answer_has_one_placeholder_until_it_is_complete() {
    let mut w = workspace();
    let mut ui = context();
    ui.on_streaming(&mut w, 42);
    assert_eq!(placeholders(&w, "c1"), 1);
    assert_eq!(w.runtimes.get("c1").unwrap().accumulated_usage, usage(10));
    assert_eq!(w.runtimes.get("c1").unwrap().request_count, 3);
    assert_eq!(w.streaming_states.get("c1"), Some(&42));
    ui.on_executing(&mut w, Some(usage(1)), Some(6));
    w.show_conversation("c1".to_string());
    assert_eq!(w.approval_channel(), Some(6));
    ui.on_streaming(&mut w, 42);
    assert_eq!(placeholders(&w, "c1"), 1);
    assert_eq!(w.approval_channel(), None);
    w.is_streaming = true;
    w.streaming_project_id = vec!["p1".to_string(), "p2".to_string(), "p1".to_string()];
    let segments = vec![
        StreamSegment::Reasoning("a".to_string()),
        StreamSegment::Text("x".to_string()),
        StreamSegment::Reasoning("b".to_string()),
        StreamSegment::Text("y".to_string()),
    ];
    ui.on_done_at(&mut w, Some(usage(2)), segments, "11:11:11".to_string());
    assert_eq!(placeholders(&w, "c1"), 0);
    let rt = w.runtimes.get("c1").unwrap();
    assert_eq!(rt.request_count, 5);
    assert_eq!(rt.accumulated_usage, usage(13));
    assert_eq!(rt.last_loop_usage, Some(usage(2)));
    assert_eq!(rt.messages.len(), 1);
    assert!(matches!(&rt.messages[0], UiMessage::Static(m) if m.content == "xy" && m.reasoning == "ab" && m.segments.len() == 4));
    assert!(!w.is_streaming);
    assert_eq!(w.streaming_project_id, vec!["p2".to_string()]);
    assert_eq!(w.streaming_states.get("c1"), None);
    assert_eq!(ui.segments, None);
    let shown = w.usage_shown();
    assert_eq!(shown, (usage(13), 5, DEFAULT_CONTEXT_WINDOW, Some(2)));
}

#[test]
fn an_interrupted_run_leaves_no_placeholder() {
    let mut w = workspace();
    let mut ui = context();
    ui.on_streaming(&mut w, 1);
    ui.on_interrupt(&mut w, &InterruptState::Cancelled);
    assert_eq!(placeholders(&w, "c1"), 0);
    assert!(w.error_signal.banner.is_none());
    ui.on_streaming(&mut w, 1);
    ui.on_interrupt(&mut w, &InterruptState::Error("short".to_string(), "long".to_string()));
    let e = w.error_signal.banner.as_ref().unwrap();
    assert_eq!(e.code, "AGENT_ERROR");
    assert_eq!(e.title, "Agent 执行失败");
    assert_eq!(e.message, "short");
    assert_eq!(e.detail.as_deref(), Some("long"));
    assert_eq!(e.severity, ErrorSeverity::Warning);
}

#[test]
fn an_agent_that_cannot_start_is_reported() {
    let mut w = workspace();
    assert!(w.begin_run(&None));
    assert!(!w.begin_run(&Some(("m".to_string(), "d".to_string()))));
    assert!(w.is_streaming);
    assert_eq!(w.error_signal.banner.as_ref().unwrap().title, "Agent init fail");
}

#[test]
fn an_event_asks_for_a_new_drawing() {
    let mut w = workspace();
    let ui = context();
    ui.on_event(&mut w);
    ui.on_event(&mut w);
    assert_eq!(w.runtimes.get("c1").unwrap().tick, 2);
}

#[test]
fn a_run_without_placeholder_changes_no_message() {
    let mut w = workspace();
    let mut ui = context();
    w.handler_ready("c1", 1);
    ui.on_done(&mut w, None, Vec::new());
    let rt = w.runtimes.get("c1").unwrap();
    assert!(rt.messages.is_empty());
    assert_eq!(rt.request_count, 1);
}

#[test]
fn a_finished_message_joins_what_was_said() {
    let m = build_static_message(vec![
        StreamSegment::Text("a".to_string()),
        StreamSegment::ToolCall(ToolCallRecord {
            id: String::new(),
            tool_name: "ls".to_string(),
            args: "{}".to_string(),
            result: None,
            status: ToolCallStatus::Pending,
            approval_reason: None,
        }),
        StreamSegment::Text("b".to_string()),
    ]);
    assert_eq!(m.content, "ab");
    assert_eq!(m.reasoning, "");
    assert_eq!(m.timestamp.len(), 8);
    assert_eq!(build_static_message_at(Vec::new(), "t".to_string()).content, "");
}

#[test]
fn the_sums_of_tokens_are_checked() {
    let a = usage(3);
    let full = TokenUsageRecord { total_tokens: u32::MAX, ..usage(1) };
    assert!(a.can_take(&usage(4)));
    assert_eq!(a.plus(&usage(4)), usage(7));
    assert!(!full.can_take(&usage(1)));
    assert!(full.can_take(&TokenUsageRecord::default()));
}

// ── beside a book ──

fn chat_row(id: &str, project: &str, title: &str) -> ChatRow {
    ChatRow {
        id: id.to_string(),
        project_id: project.to_string(),
        title: title.to_string(),
        agent_config_id: Some("helper".to_string()),
    }
}

fn book_chat() -> BookChat {
    BookChat { source_project: "p1".to_string(), conversations: Vec::new(), shown: true, desk: workspace() }
}

#[test]
fn the_first_conversation_beside_a_book_is_opened_or_made() {
    let mut c = book_chat();
    assert!(matches!(c.rows_loaded(Vec::new()), ChatStep::Create));
    let rows = vec![chat_row("a", "p1", " "), chat_row("b", "p1", "B")];
    assert!(matches!(c.rows_loaded(rows), ChatStep::Open(id) if id == "a"));
    let options = c.chat_options();
    assert_eq!(options[0].label, "new conversation");
    assert_eq!(options[1].label, "B");
    c.row_added(chat_row("b", "p1", "B"));
    assert_eq!(c.conversations.len(), 2);
    c.row_added(chat_row("c", "p1", "C"));
    assert_eq!(c.conversations.len(), 3);
}

#[test]
fn only_conversations_of_the_plan_are_shown_beside_a_book() {
    let mut c = book_chat();
    let other = chat_row("x", "p2", "X");
    assert!(!c.may_open(&other));
    c.show_with(&other, Vec::new(), &data(Vec::new()));
    assert_eq!(c.desk.active_conversation_id, "");
    c.show_with(&chat_row("a", "p1", "A"), Vec::new(), &data(Vec::new()));
    assert_eq!(c.desk.active_conversation_id, "a");
    assert_eq!(c.desk.selected_agent_config_id, "helper");
    assert!(!c.desk.needs_loading("a"));
}

#[test]
fn deleting_beside_a_book_goes_to_the_next_conversation() {
    let mut c = book_chat();
    assert!(c.delete_active().is_none());
    c.rows_loaded(vec![chat_row("a", "p1", "A"), chat_row("b", "p1", "B")]);
    c.show_with(&chat_row("a", "p1", "A"), Vec::new(), &data(Vec::new()));
    c.send_with("hi", String::new(), "t".to_string(), None, 31);
    let (token, step) = c.delete_active().unwrap();
    assert_eq!(token, Some(31));
    assert!(matches!(step, ChatStep::Open(id) if id == "b"));
    assert!(c.desk.needs_loading("a"));
    assert_eq!(c.conversations.len(), 1);
}

#[test]
fn the_first_message_beside_a_book_gives_the_title() {
    let mut c = book_chat();
    assert!(matches!(c.send("  ", None, None, 1), ChatSend::Nothing));
    assert!(matches!(c.send("hi", None, None, 1), ChatSend::NotReady));
    assert_eq!(c.desk.error_signal.banner.as_ref().unwrap().code, "book-chat-not-ready");
    c.rows_loaded(vec![chat_row("a", "p1", "A")]);
    c.show_with(&chat_row("a", "p1", "A"), Vec::new(), &data(Vec::new()));
    let sent = c.send(" *hi* ", None, Some("title".to_string()), 7);
    assert!(matches!(sent, ChatSend::Run(t) if t == "*hi*"));
    assert_eq!(c.conversations[0].title, "title");
    assert!(c.desk.is_streaming);
    let rt = c.desk.runtimes.get("a").unwrap();
    assert_eq!(rt.tick, 1);
    assert!(matches!(&rt.messages[0], UiMessage::Static(m) if m.content_html == "<p><em>hi</em></p>\n"));
    c.send("x", Some("<math/>".to_string()), None, 8);
    let rt = c.desk.runtimes.get("a").unwrap();
    assert!(matches!(&rt.messages[1], UiMessage::Static(m) if m.content_html == "<math/>"));
}

#[test]
fn a_citation_may_point_to_another_book() {
    let c = BookCitation { book_id: "b1".to_string(), page: 3, quote: "q".to_string() };
    assert!(cites_book(&c, "b1"));
    assert!(!cites_book(&c, "b2"));
}
