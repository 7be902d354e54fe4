use ueberneon::agent_config::{
    agent_subtitle, configs_of_type, group_label, prompt_html, tools_label, tools_shown, without_repeats, AgentConfigRow, AgentEditor,
    ToolGroup,
};
use ueberneon::books::{
    badge_class, book_linked, book_status_text, created_day, ocr_button, ocr_snapshot, pages_text, reference_class, reference_text,
    selection_of, BookImport, ImportStep, OcrState, PlanForm,
};
use ueberneon::chat::{
    bubble_class, call_document_of, has_approval_pending, message_body, preview_of, render_segments, role_class,
    role_label, shows_thinking, streaming_class, timeline_class, toggle, user_messages, CardBody, ChatItem, MessageBody,
    WorkPart,
};
use ueberneon::dashboard::{
    cache_rate_text, fmt_tokens, has_usage, share_text, trigger_label, window_label, window_text,
};
use ueberneon::diff_view::{hunk_numbers, parse_diff_stat, render_diff_view, DiffLineKind, DiffView};
use ueberneon::dropdown::{filtered_options, has_value, selected_label, Dropdown, DropdownOption};
use ueberneon::error::ErrorSignal;
use ueberneon::input_bar::{
    action_pill_class, agent_options, agent_pill_class, agent_placeholder, hint_script, key_sends, AgentChoice, InputBar,
};
use ueberneon::keyed::Table;
use ueberneon::keys::{decode_key, encode_key, equal_but_case, key_from_bytes, stamped_id};
use ueberneon::model::{
    ActionMode, AgentMode, ChatMessage, Role, StreamSegment, TokenUsageRecord, ToolCallRecord, ToolCallStatus, UiMessage,
};
use ueberneon::plan::{
    approval_summary, card_classes, children_of, collect_entities, count_completed, count_label, elapsed, phase_column,
    phases_in, plan_status_label, progress_pct, roots_from, status_line_of, sub_classes, sub_number, tasks_of, Entity,
    Moment, PhaseColumn, Plan, PlanStatus, StepStatus,
};
use ueberneon::settings::{
    action_mode_options, agent_mode_options, alias_taken, code_font_options, container_class, default_agent_options,
    density_options, font_size_options, in_use, instance_options, model_options, provider_name, root_style,
    speaks, AddStep, AddTarget, ProviderInstanceRow, ProviderPreset, ProviderRow, SettingsPanel,
};
use ueberneon::sidebar::{
    color_swatches, conversation_title, delete_entry, indicator_color, is_recent, menu_color, rounds_label,
    settings_tabs, ContextMenu, ProjectForm,
};
use ueberneon::toc::{active_toc_id, fold_sign, toc_item_class, toc_item_style, TocItem};
use ueberneon::tool_call::{
    args_summary_from, file_path_from, file_path_from_args, status_class, status_text, summary_keys, tool_args_summary,
};
use ueberneon::workspace::{Conversation, ProjectRow, SettingsTab, SidebarView, Workspace};

fn text(s: &str) -> String {
    s.to_string()
}

// ── tables ──

#[test]
fn a_table_holds_one_value_per_key() {
    let mut t: Table<u32> = Table::new();
    t.insert(text("a"), 1);
    t.insert(text("b"), 2);
    t.insert(text("a"), 3);
    assert_eq!(t.len(), 2);
    assert_eq!(t.get("a"), Some(&3));
    assert!(t.contains("b"));
    assert_eq!(t.remove("b"), Some(2));
    assert_eq!(t.remove("b"), None);
    assert_eq!(t.get("b"), None);
    assert_eq!(t.len(), 1);
}

// ── tool calls ──

fn record(name: &str, args: &str, status: ToolCallStatus) -> ToolCallRecord {
    ToolCallRecord {
        id: text("id1"),
        tool_name: text(name),
        args: text(args),
        result: None,
        status,
        approval_reason: Some(text("writes")),
    }
}

#[test]
fn statuses_have_classes_and_words() {
    let all = [
        (ToolCallStatus::Running, "status-running", "running"),
        (ToolCallStatus::Success, "status-success", "success"),
        (ToolCallStatus::Failed(text("e")), "status-failed", "failed"),
        (ToolCallStatus::Denied(text("e")), "status-failed", "denied"),
        (ToolCallStatus::AwaitingApproval, "status-approval", "needs approval"),
        (ToolCallStatus::Pending, "status-pending", "pending"),
    ];
    for (s, class, word) in all {
        assert_eq!(status_class(&s), class);
        assert_eq!(status_text(&s), word);
    }
}

#[test]
fn arguments_are_summarised_by_a_telling_member() {
    assert_eq!(tool_args_summary("bash", "{\"command\":\"ls -l\"}"), "ls -l");
    assert_eq!(tool_args_summary("grep", "{\"path\":\"src\",\"pattern\":\"\"}"), "src");
    assert_eq!(tool_args_summary("other", "{\"name\":\"n\",\"url\":\"u\"}"), "u");
    assert_eq!(tool_args_summary("bash", "{}"), "");
    assert_eq!(tool_args_summary("bash", "{ \"x\" : 1 }"), "{\"x\":1}");
    assert_eq!(tool_args_summary("bash", "no json"), "null");
    assert_eq!(tool_args_summary("bash", "{\"command\":5}"), "{\"command\":5}");
    let long = format!("{{\"x\":\"{}\"}}", "a".repeat(80));
    let short = tool_args_summary("bash", &long);
    assert_eq!(short.chars().count(), 58);
    assert!(short.ends_with('…'));
}

#[test]
fn summaries_follow_the_members_and_then_the_text() {
    let none: Vec<Option<Option<String>>> = vec![None, Some(None), Some(Some(text("")))];
    assert_eq!(args_summary_from(&none, "{\"k\":0}"), "{\"k\":0}");
    let some = vec![None, Some(Some(text("v"))), Some(Some(text("w")))];
    assert_eq!(args_summary_from(&some, "{}"), "v");
    let sixty = "x".repeat(60);
    assert_eq!(args_summary_from(&none, &sixty), sixty);
    let wide = "字".repeat(21);
    assert_eq!(args_summary_from(&none, &wide), format!("{wide}…"));
}

#[test]
fn tools_have_their_telling_members() {
    assert_eq!(summary_keys("read_only_bash"), vec!["command"]);
    assert_eq!(summary_keys("multi_edit"), vec!["path"]);
    assert_eq!(summary_keys("grep"), vec!["pattern", "path"]);
    assert_eq!(summary_keys("code_index"), vec!["pattern"]);
    assert_eq!(summary_keys("web_fetch"), vec!["url"]);
    assert_eq!(summary_keys("ls"), vec!["path"]);
    assert_eq!(summary_keys("Task"), vec!["subagent_name"]);
    assert_eq!(summary_keys("x"), vec!["path", "command", "pattern", "url", "name"]);
}

#[test]
fn a_path_is_found_in_the_arguments() {
    assert_eq!(file_path_from_args("{\"path\":\"a\",\"file_path\":\"b\"}"), "b");
    assert_eq!(file_path_from_args("{\"path\":\"a\"}"), "a");
    assert_eq!(file_path_from_args("{\"path\":\"a\",\"file_path\":1}"), "?");
    assert_eq!(file_path_from_args("[]"), "?");
    assert_eq!(file_path_from(None, Some(Some(text("p")))), "p");
    assert_eq!(file_path_from(Some(None), Some(Some(text("p")))), "?");
}

// ── differences ──

#[test]
fn counts_of_lines_are_shortened() {
    assert_eq!(parse_diff_stat("ok\n/p modified (2 lines added, 1 line removed)"), "+2 -1");
    assert_eq!(parse_diff_stat("(9 lines added)\nnothing"), "");
    assert_eq!(parse_diff_stat("x\n) odd (\n(1 line added)"), "+1");
    assert_eq!(parse_diff_stat("ok\n/path modified (2 lines added, 1 lines removed)"), "+2 -1");
    assert_eq!(parse_diff_stat("x\n()\ny (a (b) c)"), "a (b) c");
    assert_eq!(parse_diff_stat(""), "");
}

#[test]
fn hunk_heads_give_the_first_numbers() {
    assert_eq!(hunk_numbers("@@ -3,7 +5,8 @@"), (3, 5));
    assert_eq!(hunk_numbers("@@ -3 +5 @@"), (3, 5));
    assert_eq!(hunk_numbers("@@ -3,7 @@"), (3, 1));
    assert_eq!(hunk_numbers("no head"), (1, 1));
    assert_eq!(hunk_numbers("@@ -x,7 +y @@"), (1, 1));
}

#[test]
fn differences_are_numbered() {
    let v = render_diff_view("edited\n--- a\n+++ b\n@@ -3,2 +3,2 @@\n same\n-old\n+new\nplain");
    let (header, rows) = match v {
        DiffView::Diff(h, r) => (h, r),
        DiffView::Plain(_) => panic!("no difference"),
    };
    assert_eq!(header, vec![text("--- a"), text("+++ b")]);
    let got: Vec<(DiffLineKind, Option<usize>, Option<usize>, &str)> =
        rows.iter().map(|r| (r.kind, r.old_num, r.new_num, r.text.as_str())).collect();
    assert_eq!(
        got,
        vec![
            (DiffLineKind::Hunk, None, None, "@@ -3,2 +3,2 @@"),
            (DiffLineKind::Ctx, Some(3), Some(3), "same"),
            (DiffLineKind::Del, Some(4), None, "old"),
            (DiffLineKind::Add, None, Some(4), "new"),
            (DiffLineKind::Ctx, Some(5), Some(5), "plain"),
        ]
    );
    assert_eq!(rows[1].kind.class_name(), "diff-ctx");
    assert_eq!(DiffLineKind::Add.class_name(), "diff-add");
    assert_eq!(DiffLineKind::Del.class_name(), "diff-del");
    assert_eq!(DiffLineKind::Hunk.class_name(), "diff-hunk");
}

#[test]
fn each_hunk_starts_its_own_numbers() {
    let v = render_diff_view("@@ -1,1 +1,1 @@\n-a\n+b\n@@ -10,1 +20,1 @@\n-c\n+d");
    let (header, rows) = match v {
        DiffView::Diff(h, r) => (h, r),
        DiffView::Plain(_) => panic!("no difference"),
    };
    assert!(header.is_empty());
    let got: Vec<(DiffLineKind, Option<usize>, Option<usize>, &str)> =
        rows.iter().map(|r| (r.kind, r.old_num, r.new_num, r.text.as_str())).collect();
    assert_eq!(
        got,
        vec![
            (DiffLineKind::Hunk, None, None, "@@ -1,1 +1,1 @@"),
            (DiffLineKind::Del, Some(1), None, "a"),
            (DiffLineKind::Add, None, Some(1), "b"),
            (DiffLineKind::Hunk, None, None, "@@ -10,1 +20,1 @@"),
            (DiffLineKind::Del, Some(10), None, "c"),
            (DiffLineKind::Add, None, Some(20), "d"),
        ]
    );
    match render_diff_view("a -7, +8\n-b") {
        DiffView::Diff(_, rows) => {
            assert_eq!(rows[0].old_num, Some(1));
            assert_eq!(rows[1].old_num, Some(2));
        }
        DiffView::Plain(_) => panic!("no difference"),
    }
}

#[test]
fn a_result_without_lines_is_shown_as_it_is() {
    assert!(matches!(render_diff_view(""), DiffView::Plain(t) if t.is_empty()));
    match render_diff_view("--- a\n+++ b") {
        DiffView::Diff(h, rows) => {
            assert_eq!(h, vec![text("--- a"), text("+++ b")]);
            assert!(rows.is_empty());
        }
        DiffView::Plain(_) => panic!("no difference"),
    }
}

#[test]
fn line_numbers_wrap_at_the_largest() {
    let head = format!("@@ -{},1 +1,1 @@\n-a\n-b", usize::MAX);
    match render_diff_view(&head) {
        DiffView::Diff(_, rows) => {
            assert_eq!(rows[1].old_num, Some(usize::MAX));
            assert_eq!(rows[2].old_num, Some(0));
        }
        DiffView::Plain(_) => panic!("no difference"),
    }
}

// ── the chat panel ──

fn message(role: Role, content: &str, segments: Vec<StreamSegment>) -> UiMessage {
    UiMessage::Static(ChatMessage {
        role,
        content: text(content),
        timestamp: text("t"),
        reasoning: String::new(),
        segments,
        content_html: String::new(),
    })
}

#[test]
fn the_time_line_shows_what_the_user_said_in_short() {
    let long = format!("  {}  ", "a".repeat(61));
    let marks = user_messages(&vec![
        message(Role::Assistant, "x", Vec::new()),
        message(Role::User, " hi ", Vec::new()),
        UiMessage::Streaming { handle: 1 },
        message(Role::User, &long, Vec::new()),
    ]);
    assert_eq!(marks, vec![(1, text("hi")), (3, format!("{}…", "a".repeat(60)))]);
    assert_eq!(preview_of(&"b".repeat(60)), "b".repeat(60));
    assert_eq!(timeline_class(true, 3, Some(3)), "timeline-hit streaming awaiting-approval");
    assert_eq!(timeline_class(true, 1, Some(3)), "timeline-hit");
    assert_eq!(timeline_class(false, 3, Some(3)), "timeline-hit");
}

#[test]
fn the_panel_waits_for_an_answer_or_an_approval() {
    let waiting = vec![StreamSegment::ToolCall(record("bash", "{}", ToolCallStatus::AwaitingApproval))];
    let user = vec![message(Role::User, "hi", Vec::new())];
    assert!(shows_thinking(true, &user));
    assert!(!shows_thinking(false, &user));
    let streaming = vec![UiMessage::Streaming { handle: 1 }, message(Role::User, "hi", Vec::new())];
    assert!(!shows_thinking(true, &streaming));
    assert!(!shows_thinking(true, &vec![message(Role::Assistant, "x", Vec::new())]));
    assert!(!has_approval_pending(&user, &vec![waiting.clone()]));
    assert!(has_approval_pending(&streaming, &vec![waiting.clone()]));
    assert!(!has_approval_pending(&streaming, &Vec::new()));
    let two = vec![UiMessage::Streaming { handle: 1 }, UiMessage::Streaming { handle: 2 }];
    assert!(has_approval_pending(&two, &vec![Vec::new(), waiting.clone()]));
    assert!(has_approval_pending(&vec![message(Role::Assistant, "", waiting)], &Vec::new()));
    assert_eq!(streaming_class(&Vec::new()), "message-bubble message-assistant streaming");
}

#[test]
fn roles_have_labels() {
    assert_eq!(role_label(Role::User), "USER");
    assert_eq!(role_label(Role::System), "SYSTEM");
    assert_eq!(role_class(Role::User), "user-role");
    assert_eq!(role_class(Role::Assistant), "");
    assert_eq!(bubble_class(Role::Assistant), "message-bubble message-assistant");
}

#[test]
fn thoughts_and_calls_between_texts_are_grouped() {
    let mut done = record("edit_file", "{\"path\":\"a.rs\"}", ToolCallStatus::Success);
    done.result = Some(text("ok\na.rs modified (2 lines added)"));
    let segments = vec![
        StreamSegment::Reasoning(text("hm")),
        StreamSegment::ToolCall(done),
        StreamSegment::Text(text("*said*")),
        StreamSegment::Text(text("more")),
        StreamSegment::ToolCall(record("bash", "{\"command\":\"ls\"}", ToolCallStatus::AwaitingApproval)),
        StreamSegment::ToolCall(record("bash", "{}", ToolCallStatus::Running)),
    ];
    let items = render_segments(&segments, &Table::new(), "4");
    assert_eq!(items.len(), 4);
    match &items[0] {
        ChatItem::Work(parts) => {
            assert!(matches!(&parts[0], WorkPart::Thought(h) if h == "<p>hm</p>\n"));
            match &parts[1] {
                WorkPart::Call(c) => {
                    assert_eq!(c.key, "4:0");
                    assert_eq!(c.args.as_deref(), Some("a.rs"));
                    assert_eq!(c.diff_stat.as_deref(), Some("+2"));
                    assert_eq!(c.status, "success");
                    assert!(c.body.is_none());
                }
                _ => panic!("no call"),
            }
        }
        ChatItem::Said(_) => panic!("no work"),
    }
    assert!(matches!(&items[1], ChatItem::Said(h) if h == "<p><em>said</em></p>\n"));
    assert!(matches!(&items[2], ChatItem::Said(h) if h == "<p>more</p>\n"));
    match &items[3] {
        ChatItem::Work(parts) => {
            match &parts[0] {
                WorkPart::Approval(a) => {
                    assert_eq!(a.title, "bash needs approval");
                    assert_eq!(a.args, "ls");
                    assert_eq!(a.reason, "writes");
                    assert_eq!(a.call_id, "id1");
                }
                _ => panic!("no approval"),
            }
            assert!(matches!(&parts[1], WorkPart::Call(c) if c.key == "4:2" && c.args.is_none()));
        }
        ChatItem::Said(_) => panic!("no work"),
    }
}

#[test]
fn an_opened_call_shows_what_it_did() {
    let mut opened: Table<()> = Table::new();
    toggle(&mut opened, "m:0");
    toggle(&mut opened, "m:1");
    toggle(&mut opened, "m:2");
    toggle(&mut opened, "m:2");
    let mut diff = record("EditFile", "{}", ToolCallStatus::Success);
    diff.result = Some(text("@@ -1,1 +1,1 @@\n-a\n+b"));
    let segments = vec![
        StreamSegment::ToolCall(diff),
        StreamSegment::ToolCall(record("bash", "{\"a\":1}", ToolCallStatus::Running)),
        StreamSegment::ToolCall(record("bash", "{}", ToolCallStatus::Running)),
    ];
    let items = render_segments(&segments, &opened, "m");
    match &items[0] {
        ChatItem::Work(parts) => {
            assert!(matches!(&parts[0], WorkPart::Call(c) if matches!(&c.body, Some(CardBody::Diff(DiffView::Diff(_, rows))) if rows.len() == 3)));
            match &parts[1] {
                WorkPart::Call(c) => match &c.body {
                    Some(CardBody::Document(html)) => {
                        assert!(html.contains("<strong>Args</strong>"));
                        assert!(html.contains("\"a\": 1"));
                    }
                    _ => panic!("no document"),
                },
                _ => panic!("no call"),
            }
            assert!(matches!(&parts[2], WorkPart::Call(c) if c.body.is_none()));
        }
        ChatItem::Said(_) => panic!("no work"),
    }
}

#[test]
fn the_document_of_a_call_holds_its_result() {
    assert_eq!(call_document_of("{}", &None), "**Args**\n\n```json\n{}\n```");
    assert_eq!(
        call_document_of("{}", &Some(text("r"))),
        "**Args**\n\n```json\n{}\n```\n\n**Result**\n\n```\nr\n```"
    );
}

#[test]
fn a_message_without_segments_shows_its_content() {
    let m = ChatMessage {
        role: Role::User,
        content: text("**b**"),
        timestamp: text("t"),
        reasoning: String::new(),
        segments: Vec::new(),
        content_html: String::new(),
    };
    let none = Table::new();
    assert!(matches!(message_body(&m, &none, "0"), MessageBody::Content(h) if h == "<p><strong>b</strong></p>\n"));
    let rendered = ChatMessage { content_html: text("<i>"), ..m };
    assert!(matches!(message_body(&rendered, &none, "0"), MessageBody::Content(h) if h == "<i>"));
    let empty = ChatMessage { content: String::new(), ..rendered };
    assert!(matches!(message_body(&empty, &none, "0"), MessageBody::Items(v) if v.is_empty()));
}

// ── the usage board ──

#[test]
fn tokens_are_shortened_as_doubles_are() {
    for n in [0u32, 7, 999, 1_000, 1_049, 1_050, 1_150, 1_250, 1_350, 999_949, 999_950, 999_999] {
        let want = if n >= 1_000 { format!("{:.1}k", n as f64 / 1_000.0) } else { n.to_string() };
        assert_eq!(fmt_tokens(n), want);
    }
    for n in [1_000_000u32, 1_050_000, 1_150_000, 1_250_000, 2_349_999, 3_450_000, u32::MAX] {
        assert_eq!(fmt_tokens(n), format!("{:.1}m", n as f64 / 1_000_000.0));
    }
    assert_eq!(fmt_tokens(1_250), "1.2k");
    assert_eq!(fmt_tokens(1_500_000), "1.5m");
}

#[test]
fn shares_are_rounded_as_doubles_are() {
    for total in [1u32, 2, 3, 7, 8, 40, 200, 999, 1_000_003, u32::MAX] {
        for value in [0u32, 1, 2, 3, 5, 7, 99, 200, 1_000, u32::MAX] {
            let pct = (value as f64 / total as f64) * 100.0;
            assert_eq!(share_text(value, total), format!("{pct:.0}%"), "{value}/{total}");
            assert_eq!(window_text(value, total), format!("{:.1}%", pct.min(100.0)), "{value}/{total}");
        }
    }
    assert_eq!(share_text(5, 0), "0%");
    assert_eq!(window_text(5, 0), "0.0%");
    assert_eq!(share_text(1, 8), "12%");
    assert_eq!(window_text(200, 100), "100.0%");
}

#[test]
fn the_board_has_its_labels() {
    let usage = TokenUsageRecord {
        prompt_tokens: 1,
        completion_tokens: 2,
        reasoning_tokens: 3,
        total_tokens: 6,
        cache_hit_tokens: 3,
        cache_miss_tokens: 1,
    };
    assert_eq!(cache_rate_text(&usage), "75%");
    assert!(has_usage(&usage));
    assert!(!has_usage(&TokenUsageRecord::default()));
    assert_eq!(window_label(1_500, 1_000_000), "1.5k / 1.0m");
    assert_eq!(trigger_label(12), "USAGE 12");
}

// ── drop-down lists ──

fn option(value: &str, label: &str) -> DropdownOption {
    DropdownOption { value: text(value), label: text(label) }
}

#[test]
fn a_list_shows_what_was_chosen_and_what_is_found() {
    let options = vec![option("a", "Alpha"), option("b", "BETA"), option("c", "alphabet")];
    assert_eq!(selected_label(&options, "b", &Some(text("pick"))), "BETA");
    assert_eq!(selected_label(&options, "x", &Some(text("pick"))), "pick");
    assert_eq!(selected_label(&options, "x", &None), "");
    assert!(has_value(&options, "c"));
    assert!(!has_value(&options, ""));
    assert_eq!(filtered_options(&options, true, "ALPHA"), vec![0, 2]);
    assert_eq!(filtered_options(&options, true, ""), vec![0, 1, 2]);
    assert_eq!(filtered_options(&options, false, "zzz"), vec![0, 1, 2]);
    assert!(filtered_options(&options, true, "zzz").is_empty());
}

#[test]
fn closing_a_list_forgets_the_search() {
    let mut d = Dropdown::new();
    d.press();
    d.search(text("q"));
    assert!(d.is_open);
    assert_eq!(d.search_query, "q");
    d.press();
    assert!(!d.is_open);
    assert_eq!(d.search_query, "");
    d.press();
    d.search(text("q"));
    d.close();
    assert_eq!(d.search_query, "");
}

// ── the input bar ──

#[test]
fn a_text_is_sent_once_it_is_there() {
    let mut bar = InputBar::new();
    assert_eq!(bar.on_input(text("  ")), None);
    assert_eq!(bar.submit(false), None);
    assert_eq!(bar.on_input(text(" hi ")), Some(2));
    assert_eq!(bar.submit(true), None);
    bar.wait_over(1);
    assert!(!bar.idle_pulse);
    bar.wait_over(2);
    assert_eq!(bar.send_class(), "btn btn-send btn-send-pulse");
    assert_eq!(bar.submit(false).as_deref(), Some("hi"));
    assert_eq!(bar.input, "");
    assert_eq!(bar.send_class(), "btn btn-send");
    bar.fill(text("hint"));
    assert_eq!(bar.input, "hint");
}

#[test]
fn only_the_command_keys_send() {
    assert!(key_sends(true, true, false, false));
    assert!(key_sends(true, false, true, false));
    assert!(!key_sends(true, false, false, false));
    assert!(!key_sends(true, true, false, true));
    assert!(!key_sends(false, true, true, false));
}

#[test]
fn hints_are_quoted_for_the_page() {
    let script = hint_script("say \"a\"\n");
    assert!(script.contains("el.value = \"say \\\"a\\\"\\n\"; el.focus()"));
}

#[test]
fn agents_are_offered_with_their_models() {
    let none = agent_options(&Vec::new());
    assert_eq!(none.len(), 1);
    assert_eq!(none[0].label, "— no config —");
    let some = agent_options(&vec![AgentChoice {
        id: text("i"),
        name: text("n"),
        model: text("m"),
        agent_type: text("Custom"),
    }]);
    assert_eq!(some[0].value, "i");
    assert_eq!(some[0].label, "n · m");
    assert_eq!(agent_placeholder(true), "— no config —");
    assert_eq!(agent_placeholder(false), "— select —");
}

#[test]
fn modes_have_keys_and_pills() {
    assert_eq!(ActionMode::Regular.as_key(), "regular");
    assert_eq!(ActionMode::Plan.as_key(), "plan");
    let keys: Vec<&str> = AgentMode::all().into_iter().map(|m| m.as_key()).collect();
    assert_eq!(keys, vec!["cautious", "ask", "auto", "unrestrained"]);
    assert_eq!(ActionMode::all().len(), 2);
    assert_eq!(action_pill_class(ActionMode::Plan, ActionMode::Plan), "mode-pill is-active");
    assert_eq!(action_pill_class(ActionMode::Plan, ActionMode::Regular), "mode-pill");
    assert_eq!(agent_pill_class(AgentMode::Unrestrained, AgentMode::Unrestrained), "mode-pill is-active is-danger");
    assert_eq!(agent_pill_class(AgentMode::Unrestrained, AgentMode::Ask), "mode-pill is-danger");
    assert_eq!(agent_pill_class(AgentMode::Ask, AgentMode::Ask), "mode-pill is-active");
}

// ── the plan board ──

fn entity(idx: u8, parent: Option<u8>, status: StepStatus) -> Entity {
    Entity { idx, parent_idx: parent, description: format!("e{idx}"), step_status: status }
}

#[test]
fn a_plan_is_read_from_its_batches_or_as_it_was_planned() {
    let mut plan = Plan {
        goal: text("g"),
        status: PlanStatus::NeedApproval,
        started_at: None,
        completion_queue: Vec::new(),
        children: vec![entity(1, None, StepStatus::Pending)],
    };
    assert_eq!(collect_entities(&plan).len(), 1);
    plan.completion_queue = vec![
        vec![entity(2, None, StepStatus::Pending)],
        vec![entity(1, None, StepStatus::Pending), entity(1, Some(2), StepStatus::Pending)],
    ];
    let all = collect_entities(&plan);
    assert_eq!(all.len(), 3);
    let roots: Vec<u8> = roots_from(&all).iter().map(|e| e.idx).collect();
    assert_eq!(roots, vec![1, 2]);
    assert_eq!(children_of(&all, 2).len(), 1);
    assert_eq!(approval_summary(PlanStatus::NeedApproval, &roots_from(&all)), "2 个阶段待审批 — e1 · e2");
    assert_eq!(approval_summary(PlanStatus::Completed, &roots_from(&all)), "");
}

#[test]
fn phases_stand_in_one_column_each() {
    let all = vec![
        entity(1, None, StepStatus::Pending),
        entity(2, None, StepStatus::Pending),
        entity(3, None, StepStatus::Pending),
        entity(1, Some(1), StepStatus::Completed),
        entity(1, Some(2), StepStatus::InProgress),
        entity(2, Some(2), StepStatus::Completed),
    ];
    let roots = roots_from(&all);
    let idx = |c: PhaseColumn| -> Vec<u8> { phases_in(&all, &roots, c).iter().map(|e| e.idx).collect() };
    assert_eq!(idx(PhaseColumn::Done), vec![1]);
    assert_eq!(idx(PhaseColumn::Doing), vec![2]);
    assert_eq!(idx(PhaseColumn::Todo), vec![3]);
    assert_eq!(phase_column(&Vec::new()), PhaseColumn::Todo);
    let tasks = tasks_of(&all);
    assert_eq!(tasks.len(), 3);
    assert_eq!(count_completed(&tasks), 2);
    assert_eq!(status_line_of(PlanStatus::InProgress, &tasks), ("▸", text("task 1 - e1")));
    let flat = vec![entity(1, None, StepStatus::Completed)];
    assert_eq!(tasks_of(&flat).len(), 1);
    assert_eq!(status_line_of(PlanStatus::Completed, &tasks_of(&flat)), ("✓", text("all tasks completed.")));
    assert_eq!(status_line_of(PlanStatus::InProgress, &tasks_of(&flat)), ("○", text("waiting to start…")));
}

#[test]
fn progress_is_cut_off_as_doubles_are() {
    for total in 0u32..120 {
        for done in 0..=total {
            let want = if total > 0 { (done as f64 / total as f64 * 100.0) as u32 } else { 0 };
            assert_eq!(progress_pct(done, total), want as u64, "{done}/{total}");
        }
    }
    assert_eq!(progress_pct(29, 100), 28);
    assert_eq!(progress_pct(7, 7), 100);
}

#[test]
fn the_plan_board_has_its_labels() {
    assert_eq!(count_label(2, 5), "2/5");
    assert_eq!(plan_status_label(PlanStatus::NeedApproval), ("need approval", "pending"));
    let at = |secs: i64, nanos: u32| Moment { secs, nanos };
    assert_eq!(elapsed(None, at(5, 0)), "—");
    assert_eq!(elapsed(Some(at(0, 0)), at(59, 999_999_999)), "59s");
    assert_eq!(elapsed(Some(at(0, 0)), at(60, 0)), "1m 0s");
    assert_eq!(elapsed(Some(at(10, 0)), at(135, 0)), "2m 5s");
    assert_eq!(elapsed(Some(at(70, 0)), at(5, 0)), "-5s");
    assert_eq!(elapsed(Some(at(10, 900_000_000)), at(15, 100_000_000)), "4s");
    assert_eq!(elapsed(Some(at(15, 100_000_000)), at(10, 900_000_000)), "-4s");
    assert_eq!(card_classes(PhaseColumn::Done), ("plan-card--done", "plan-card-dot--done"));
    assert_eq!(sub_classes(StepStatus::InProgress), ("plan-sub-dot--doing", ""));
    assert_eq!(sub_number(2, 13), "2.13");
}

// ── the side bar ──

fn project_row(id: &str, color: &str, active: Option<i64>) -> ProjectRow {
    ProjectRow {
        id: text(id),
        name: format!("name of {id}"),
        path: text("/"),
        created_at: 0,
        indicator_color: text(color),
        last_activity_at: active,
    }
}

fn desk() -> Workspace {
    Workspace::new(
        text("default"),
        AgentMode::Ask,
        &vec![project_row("default", "", None), project_row("p", "gold", Some(1_000))],
        AgentMode::Ask,
        String::new(),
    )
}

#[test]
fn projects_have_colours_and_are_recent_for_three_days() {
    let w = desk();
    assert_eq!(indicator_color(&w.projects[0]), "cyan");
    assert_eq!(menu_color(&w.projects, "p"), "gold");
    assert_eq!(menu_color(&w.projects, "x"), "cyan");
    assert_eq!(color_swatches()[6].0, "gold");
    assert!(is_recent(&w.projects[1], 1_000 + 259_199_999));
    assert!(!is_recent(&w.projects[1], 1_000 + 259_200_000));
    assert!(!is_recent(&w.projects[0], 0));
    assert_eq!(delete_entry(&w, "default"), ("cannot delete default", false));
    assert_eq!(delete_entry(&w, "p"), ("delete project", true));
}

#[test]
fn the_side_bar_knows_what_is_active() {
    let mut w = desk();
    assert!(!w.is_active_project("p"));
    w.select_project(text("p"), Vec::new());
    assert!(w.is_active_project("p"));
    assert_eq!(w.listed_project_name("p"), "name of p");
    assert_eq!(w.listed_project_name("x"), "");
    w.streaming_project_id.push(text("p"));
    assert!(w.is_streaming_project("p"));
    assert!(!w.is_streaming_project("default"));
    w.open_settings(SettingsTab::Sql);
    assert!(matches!(w.sidebar_view, SidebarView::Settings(SettingsTab::Sql)));
    assert_eq!(settings_tabs().len(), 7);
    assert_eq!(w.study_plans(), vec![1]);
}

#[test]
fn conversations_have_titles_and_rounds() {
    let c = Conversation { id: text("c"), title: String::new(), updated_at: 0, message_count: 0 };
    assert_eq!(conversation_title(&c), (text("new conversation"), "conversation-title-placeholder"));
    let d = Conversation { title: text("t"), ..c };
    assert_eq!(conversation_title(&d), (text("t"), "conversation-title"));
    assert_eq!(rounds_label(0), None);
    assert_eq!(rounds_label(1).as_deref(), Some("1 round"));
    assert_eq!(rounds_label(12).as_deref(), Some("12 rounds"));
}

#[test]
fn a_project_needs_a_name_and_a_path() {
    let mut f = ProjectForm::new();
    f.toggle();
    assert!(f.shown);
    f.name = text(" n ");
    assert_eq!(f.save(), None);
    f.folder_chosen(text("/a/b"), None);
    assert_eq!(f.name, " n ");
    f.folder_chosen(text(" /a/b "), Some(text(" b ")));
    assert_eq!(f.save(), Some((text("b"), text("/a/b"))));
    assert!(!f.shown);
    f.toggle();
    assert_eq!(f.path, "");
    f.cancel();
    assert!(!f.shown);
    let mut m = ContextMenu::new();
    m.open_at(1, 2, text("p"));
    assert_eq!(m.open, Some((1, 2, text("p"))));
    m.close();
    assert_eq!(m.open, None);
}

// ── keys ──

#[test]
fn keys_are_kept_in_base64() {
    assert_eq!(encode_key(""), "");
    assert_eq!(encode_key("sk-ü"), "c2stw7w=");
    for key in ["a", "ab", "abc", "sk-ü", "钥匙"] {
        assert_eq!(decode_key(&encode_key(key)), key);
    }
    assert_eq!(decode_key(""), "");
    assert_eq!(decode_key("not base64!"), "");
    assert_eq!(decode_key("/w=="), "");
    assert_eq!(key_from_bytes(Some(vec![0xff])), "");
    assert_eq!(key_from_bytes(Some(vec![0x61])), "a");
    assert_eq!(key_from_bytes(None), "");
}

#[test]
fn identifiers_hold_a_time_and_a_process() {
    assert_eq!(stamped_id("inst", 0x1a2b, 255), format!("inst-{:x}-{:x}", 0x1a2b, 255));
    assert_eq!(stamped_id("acfg", 0, 0), "acfg-0-0");
    assert_eq!(stamped_id("x", u128::MAX, u32::MAX), format!("x-{:x}-{:x}", u128::MAX, u32::MAX));
}

#[test]
fn names_are_compared_without_case() {
    assert!(equal_but_case("OpenAI", "openai"));
    assert!(!equal_but_case("Ä", "ä"));
    assert!(!equal_but_case("a", "ab"));
    for (a, b) in [("Az[`", "aZ[`"), ("@", "`"), ("é", "É")] {
        assert_eq!(equal_but_case(a, b), a.eq_ignore_ascii_case(b));
    }
}

// ── the settings ──

fn instance(id: &str, provider: &str, alias: &str, key: &str) -> ProviderInstanceRow {
    ProviderInstanceRow {
        id: text(id),
        provider_id: text(provider),
        alias: text(alias),
        api_key: encode_key(key),
        sort_order: 0,
        created_at: String::new(),
    }
}

fn provider(id: &str, name: &str) -> ProviderRow {
    ProviderRow {
        id: text(id),
        name: text(name),
        kind: text("openai"),
        base_url: String::new(),
        models_url: String::new(),
        balance_url: String::new(),
        context_window: 0,
        is_preset: true,
    }
}

fn preset() -> ProviderPreset {
    ProviderPreset {
        id: text("deep"),
        name: text("Deep"),
        kind: text("openai"),
        base_url: text("https://d"),
        models_url: text("https://d/m"),
        context_window: 64,
    }
}

fn settings() -> SettingsPanel {
    let mut models: Table<Vec<String>> = Table::new();
    models.insert(text("deep"), vec![text("m1"), text("m2")]);
    SettingsPanel::new(
        vec![instance("i1", "deep", "Mine", "k"), instance("i2", "gone", "Other", "")],
        vec![provider("deep", "Deep")],
        models,
    )
}

#[test]
fn instances_are_listed_with_their_services() {
    let s = settings();
    assert_eq!(provider_name(&s.providers, "deep"), "Deep");
    assert_eq!(provider_name(&s.providers, "gone"), "gone");
    let o = instance_options(&s.instances, &s.providers, "— none —");
    assert_eq!(o[0].label, "— none —");
    assert_eq!(o[1].label, "Mine (Deep)");
    assert_eq!(o[2].label, "Other (gone)");
    let m = model_options(&s.instances, &s.models, "i1");
    assert_eq!(m.iter().map(|x| x.label.as_str()).collect::<Vec<_>>(), vec!["— select —", "m1", "m2"]);
    assert_eq!(model_options(&s.instances, &s.models, "i9").len(), 1);
    assert!(alias_taken(&s.instances, "mINE"));
    assert!(!alias_taken(&s.instances, "new"));
    assert!(in_use(&s.instances, "deep"));
    assert!(!in_use(&s.instances, "x"));
}

#[test]
fn models_are_fetched_with_a_key() {
    let mut s = settings();
    assert_eq!(s.begin_refresh("i9", &None), None);
    assert_eq!(s.begin_refresh("i2", &Some(instance("i2", "gone", "Other", ""))), None);
    assert_eq!(s.fetch_errors.get("i2").map(|e| e.as_str()), Some("api key required"));
    let go = s.begin_refresh("i1", &Some(instance("i1", "deep", "Mine", "k")));
    assert_eq!(go, Some((text("deep"), text("k"))));
    assert_eq!(s.refreshing.as_deref(), Some("i1"));
    s.refreshed("i1", text("deep"), Ok(vec![text("m9")]));
    assert_eq!(s.refreshing, None);
    assert_eq!(s.models.get("deep"), Some(&vec![text("m9")]));
    s.refreshed("i1", text("deep"), Err(text("offline")));
    assert_eq!(s.fetch_errors.get("i1").map(|e| e.as_str()), Some("offline"));
    s.provider_missing("i1");
    assert_eq!(s.fetch_errors.get("i1").map(|e| e.as_str()), Some("provider not found"));
    s.ask_delete(Some(text("i1")));
    s.deleted("i1", Vec::new());
    assert_eq!(s.deleting, None);
    assert!(!s.fetch_errors.contains("i1"));
    assert!(s.instances.is_empty());
}

#[test]
fn a_key_can_be_changed() {
    let mut s = settings();
    s.toggle_key_edit("i1");
    assert_eq!(s.editing_key_for.as_deref(), Some("i1"));
    s.key_input = text(" new ");
    assert_eq!(s.key_to_save(), encode_key("new"));
    s.toggle_key_edit("i2");
    assert_eq!(s.key_input, "");
    s.toggle_key_edit("i2");
    assert_eq!(s.editing_key_for, None);
    s.key_saved(Vec::new());
    assert!(s.instances.is_empty());
}

#[test]
fn an_instance_of_a_preset_is_added() {
    let mut s = settings();
    let stored = vec![instance("i1", "deep", "Deep", "k")];
    s.form.choose_preset(&preset());
    assert_eq!(s.form.step, AddStep::FillDetails);
    assert_eq!(s.form.target(&vec![preset()]), AddTarget::Preset(0));
    assert_eq!(s.form.target(&Vec::new()), AddTarget::Nothing);
    assert!(s.prepare_preset(&preset(), &stored, "n1", "now").is_none());
    assert_eq!(s.form.error.as_deref(), Some("api key is required"));
    s.form.key = text(" sk ");
    assert!(s.prepare_preset(&preset(), &stored, "n1", "now").is_none());
    assert_eq!(s.form.error.as_deref(), Some("alias \"Deep\" is already in use"));
    s.form.alias = text(" Work ");
    let p = s.prepare_preset(&preset(), &stored, "n1", "now").unwrap();
    assert_eq!(p.raw_key, "sk");
    assert_eq!(p.row.alias, "Work");
    assert_eq!(decode_key(&p.row.api_key), "sk");
    assert_eq!(p.row.provider_id, "deep");
    assert_eq!(p.row.created_at, "now");
    assert!(p.provider.is_preset);
    assert_eq!(p.provider.context_window, 64);
    assert_eq!(s.refreshing.as_deref(), Some("n1"));
    assert_eq!(s.form.error, None);
    s.key_refused("401");
    assert_eq!(s.form.error.as_deref(), Some("key validation failed: 401"));
    assert_eq!(s.refreshing, None);
    s.save_failed("db: full");
    assert_eq!(s.form.error.as_deref(), Some("failed to save: db: full"));
    s.form.error = None;
    s.preset_added(text("deep"), vec![text("m")], Ok(vec![p.row]));
    assert_eq!(s.instances.len(), 1);
    assert!(!s.form.shown);
    assert_eq!(s.form.key, "");
    assert_eq!(s.form.provider_id, "");
}

#[test]
fn an_instance_of_an_own_service_is_added() {
    let mut s = settings();
    assert_eq!(s.form.target(&Vec::new()), AddTarget::Custom);
    assert!(s.prepare_custom(&Vec::new(), "n1", "now").is_none());
    assert_eq!(s.form.error, None);
    s.form.custom_id = text(" my ");
    s.form.custom_name = text(" My ");
    s.form.custom_url = text(" http://x ");
    s.form.key = text("k");
    let p = s.prepare_custom(&Vec::new(), "n1", "now").unwrap();
    assert_eq!(p.provider.id, "my");
    assert_eq!(p.provider.models_url, "http://x/models");
    assert_eq!(p.provider.kind, "openai");
    assert!(!p.provider.is_preset);
    assert_eq!(p.row.alias, "My");
    s.custom_added(Vec::new(), Err(text("locked")));
    assert_eq!(s.form.error.as_deref(), Some("saved but failed to refresh list: locked"));
    assert!(s.instances.is_empty());
    assert_eq!(s.form.custom_id, "");
    s.form.custom_id = text("x");
    s.form.cancel_details();
    assert_eq!(s.form.custom_id, "x");
    s.form.close();
    assert_eq!(s.form.custom_id, "");
}

#[test]
fn default_agents_are_no_sub_agents() {
    let choice = |id: &str, kind: &str| AgentChoice {
        id: text(id),
        name: format!("N{id}"),
        model: String::new(),
        agent_type: text(kind),
    };
    assert_eq!(default_agent_options(&Vec::new())[0].label, "— none —");
    let o = default_agent_options(&vec![choice("a", "SubAgent"), choice("b", "Custom")]);
    assert_eq!(o.len(), 1);
    assert_eq!(o[0].value, "b");
    assert_eq!(o[0].label, "Nb");
    assert!(speaks(&choice("b", "Custom")));
    assert!(!speaks(&choice("a", "SubAgent")));
}

#[test]
fn the_appearance_becomes_a_style_sheet() {
    assert_eq!(
        root_style("lg", "geist-mono", "compact"),
        ":root{--text-base:1.125rem;--font-mono:\"Geist Mono\",\"SF Mono\",monospace;--space-sm:0.5rem;--space-md:0.75rem;--space-lg:1rem;--space-xl:1.5rem;--space-2xl:2rem;}"
    );
    assert_eq!(
        root_style("?", "?", "comfortable"),
        ":root{--text-base:1rem;--font-mono:\"JetBrains Mono\",\"SF Mono\",monospace;}"
    );
    for (key, size) in [("xs", "0.8125rem"), ("sm", "0.875rem"), ("md", "1rem"), ("xl", "1.25rem")] {
        assert!(root_style(key, "", "").contains(size));
    }
    for (key, font) in [("ibm-plex-mono", "IBM Plex Mono"), ("commit-mono", "Commit Mono")] {
        assert!(root_style("", key, "").contains(font));
    }
    assert_eq!(container_class("compact"), "app-container density-compact");
    assert_eq!(container_class(""), "app-container");
}

// ── agents ──

fn agent_row(max_tokens: Option<u32>) -> AgentConfigRow {
    AgentConfigRow {
        id: text("a1"),
        name: text("Helper"),
        agent_type: text("Custom"),
        provider_instance_id: text("i1"),
        model: text("m1"),
        base_url: String::new(),
        api_key: String::new(),
        system_prompt: text("be kind"),
        temperature: 300,
        max_tokens,
        tools: String::new(),
        created_at: String::new(),
        updated_at: String::new(),
    }
}

#[test]
fn an_agent_is_edited_and_saved() {
    let mut e = AgentEditor::new();
    e.start_new();
    assert_eq!(e.title(), "new agent config");
    assert_eq!(e.temperature, 700);
    assert!(e.row_to_save("Custom", "n1", "now", &Vec::new(), "", "").is_none());
    e.start_edit(&agent_row(Some(4096)), &vec![text("g1")]);
    assert_eq!(e.title(), "edit agent config");
    assert_eq!(e.max_tokens, "4096");
    assert!(e.groups.contains("g1"));
    e.choose_instance(text("i2"));
    assert_eq!(e.model, "");
    e.name = text(" New ");
    e.max_tokens = text(" 12 ");
    let tools = vec![text("b"), text("a"), text("b")];
    let row = e.row_to_save("Custom", "n1", "now", &tools, "http://u", "key").unwrap();
    assert_eq!(row.id, "a1");
    assert_eq!(row.name, "New");
    assert_eq!(row.max_tokens, Some(12));
    assert_eq!(row.tools, "[\"b\",\"a\"]");
    assert_eq!(row.created_at, "");
    assert_eq!(row.updated_at, "now");
    assert_eq!(tools_shown(&row.tools), vec![text("b"), text("a")]);
    e.max_tokens = text("many");
    assert_eq!(e.row_to_save("Custom", "n1", "now", &tools, "", "").unwrap().max_tokens, None);
    e.saved();
    assert!(!e.shown);
    e.start_new();
    e.name = text("x");
    let new = e.row_to_save("Custom", "n1", "now", &Vec::new(), "", "").unwrap();
    assert_eq!(new.id, "n1");
    assert_eq!(new.created_at, "now");
    assert_eq!(new.tools, "[]");
    e.cancel();
    assert_eq!(e.name, "");
    assert!(!e.on_show(false, false));
}

#[test]
fn chosen_groups_are_summarised() {
    let groups = vec![
        ToolGroup { id: text("g1"), name: text("files"), tools: vec![text("a"), text("b")] },
        ToolGroup { id: text("g2"), name: text("net"), tools: vec![text("c")] },
    ];
    let mut e = AgentEditor::new();
    e.start_new();
    assert!(e.on_show(false, false));
    assert!(!e.on_show(true, false));
    assert!(e.on_show(true, true));
    e.toggle_group("g1");
    e.toggle_group("g2");
    e.toggle_group("g2");
    assert_eq!(e.groups_summary(&groups), "1 groups selected · 2 tools enabled");
    assert_eq!(e.grouped_tools(&groups), vec![text("a"), text("b")]);
    e.toggle_group("g2");
    assert_eq!(e.grouped_tools(&groups), vec![text("a"), text("b"), text("c")]);
    assert_eq!(group_label(&groups[0]), "files (2)");
    assert_eq!(without_repeats(&vec![text("x"), text("y"), text("x")]), vec![text("x"), text("y")]);
}

#[test]
fn the_list_of_agents_says_what_they_use() {
    assert_eq!(tools_shown(""), vec![text("(all tools)")]);
    assert_eq!(tools_shown("[]"), vec![text("(all tools)")]);
    assert_eq!(tools_shown("nonsense"), Vec::<String>::new());
    assert_eq!(tools_label(&tools_shown("[\"a\",\"b\"]")), "tools (2)");
    assert_eq!(agent_subtitle("Deep", "m"), "Deep · m");
    assert_eq!(agent_subtitle("", "m"), "m");
    assert_eq!(prompt_html("be *kind*"), "<p>be <em>kind</em></p>\n");
    let rows = vec![agent_row(None), AgentConfigRow { agent_type: text("SubAgent"), ..agent_row(None) }];
    assert_eq!(configs_of_type(&rows, "SubAgent"), vec![1]);
}

#[test]
fn preferences_offer_their_values() {
    let values = |options: Vec<DropdownOption>| options.into_iter().map(|o| o.value).collect::<Vec<String>>();
    assert_eq!(values(action_mode_options()), ["regular", "plan"]);
    assert_eq!(values(agent_mode_options()), ["cautious", "ask", "auto", "unleashed"]);
    assert_eq!(values(font_size_options()), ["xs", "sm", "md", "lg", "xl"]);
    assert_eq!(values(code_font_options()), ["jetbrains-mono", "geist-mono", "ibm-plex-mono", "commit-mono"]);
    assert_eq!(values(density_options()), ["comfortable", "compact"]);
    assert_eq!(font_size_options()[0].label, "xs (12px)");
    assert_eq!(agent_mode_options()[3].label, "unleashed — full autonomy");
}

// ── books ──

#[test]
fn books_are_imported_and_then_read() {
    let mut errors = ErrorSignal::new();
    let mut import = BookImport::new(vec![text("a"), text("b"), text("c")], false);
    let mut selected = Table::new();
    assert!(matches!(import.next_step(), ImportStep::Import(0)));
    assert_eq!(import.importing().as_deref(), Some("a"));
    assert_eq!(import.import_done(Ok(text("id-a")), &mut selected, &mut errors), None);
    assert_eq!(import.import_done(Err(text("broken")), &mut selected, &mut errors), None);
    let e = errors.banner.as_ref().unwrap();
    assert_eq!(e.code, "book-import-failed");
    assert_eq!(e.message, "broken");
    assert_eq!(import.import_done(Ok(text("id-c")), &mut selected, &mut errors), None);
    assert_eq!(import.importing(), None);
    assert!(matches!(import.next_step(), ImportStep::Parse(id) if id == "id-a"));
    import.parse_done(Ok(()), &mut errors);
    assert!(matches!(import.next_step(), ImportStep::Parse(id) if id == "id-c"));
    import.parse_done(Err(text("no text")), &mut errors);
    assert_eq!(errors.banner.as_ref().unwrap().code, "book-parse-failed");
    assert!(matches!(import.next_step(), ImportStep::Finish));
    assert!(!selected.contains("id-a") && !selected.contains("id-c"));
}

#[test]
fn books_of_a_plan_are_chosen_and_read_in_silence() {
    let (mut errors, mut selected) = (ErrorSignal::new(), Table::new());
    let mut import = BookImport::new(vec![text("a"), text("b")], true);
    assert_eq!(import.import_done(Ok(text("id-a")), &mut selected, &mut errors), Some(text("id-a")));
    assert!(selected.contains("id-a"));
    assert_eq!(import.import_done(Err(text("broken")), &mut selected, &mut errors), None);
    assert_eq!(errors.banner.as_ref().unwrap().code, "book-import-failed");
    import.parse_done(Err(text("no text")), &mut errors);
    assert_eq!(errors.banner.as_ref().unwrap().code, "book-import-failed");
    assert!(matches!(import.next_step(), ImportStep::Finish));
}

#[test]
fn the_list_says_how_far_a_book_is() {
    assert_eq!(book_status_text(true, Some((1, 2, true)), Some(3)), "解析中");
    assert_eq!(book_status_text(false, Some((1, 2, true)), Some(3)), "OCR 1/2");
    assert_eq!(book_status_text(false, Some((1, 2, false)), None), "已解析 2 页(含 OCR 1)");
    assert_eq!(book_status_text(false, Some((1, 0, false)), None), "已 OCR 1 页");
    assert_eq!(book_status_text(false, None, Some(3)), "已解析 3 页");
    assert_eq!(book_status_text(false, None, None), "未解析");
    assert_eq!(badge_class(false, Some((1, 2, true)), false), "books-panel-item-badge parsing");
    assert_eq!(badge_class(false, Some((1, 2, false)), false), "books-panel-item-badge parsed");
    assert_eq!(badge_class(false, None, true), "books-panel-item-badge parsed");
    assert_eq!(badge_class(false, None, false), "books-panel-item-badge");
    assert_eq!(created_day("2024-05-06T07:08"), "2024-05-06");
    assert_eq!(created_day("2024"), "2024");
    assert_eq!(reference_text(&vec![text("A"), text("B")]), "引入于: A, B");
    assert_eq!(reference_text(&Vec::new()), "未引入");
    assert_eq!(reference_class(&vec![text("A")]), "books-panel-item-refs");
    assert_eq!(reference_class(&vec![String::new()]), "books-panel-item-refs empty");
    assert_eq!(ocr_button(Some((0, 0, true))), Some("停止 OCR"));
    assert_eq!(ocr_button(Some((0, 0, false))), Some("重新 OCR"));
    assert_eq!(ocr_button(None), None);
    assert_eq!(pages_text(Some(4)), "4 页");
    assert_eq!(pages_text(None), "未解析");
}

#[test]
fn recognition_shows_once_it_has_begun() {
    let state = |id: &str, done: u32, running: bool| OcrState { id: text(id), done, total: 9, running };
    let snap = ocr_snapshot(&vec![state("a", 0, false), state("b", 0, true), state("c", 2, false)]);
    assert_eq!(snap.len(), 2);
    assert_eq!(snap.get("b"), Some(&(0, 9, true)));
    assert_eq!(snap.get("c"), Some(&(2, 9, false)));
    assert!(!snap.contains("a"));
}

#[test]
fn books_are_taken_into_a_plan_and_out_of_it() {
    let mut errors = ErrorSignal::new();
    let mut selected = selection_of(&vec![text("a")]);
    book_linked(&mut selected, &mut errors, "b", true, Ok(()));
    book_linked(&mut selected, &mut errors, "a", false, Ok(()));
    assert!(selected.contains("b") && !selected.contains("a"));
    book_linked(&mut selected, &mut errors, "c", true, Err(text("locked")));
    assert!(!selected.contains("c"));
    assert_eq!(errors.banner.as_ref().unwrap().code, "book-link-failed");
    let mut form = PlanForm::new();
    form.toggle();
    assert_eq!(form.save(), None);
    form.name = text(" plan ");
    assert_eq!(form.save().as_deref(), Some("plan"));
    assert!(!form.shown);
}

// ── the table of contents ──

fn item(id: &str, level: u32, page: u32) -> TocItem {
    TocItem { id: text(id), title: text(id), level, page, is_parent: level == 0 }
}

#[test]
fn the_nearest_entry_is_active() {
    let items = vec![item("a", 0, 1), item("b", 1, 1), item("c", 0, 5), item("d", 1, 5), item("e", 1, 5), item("f", 0, 9)];
    assert_eq!(active_toc_id(&items, &None, 4).as_deref(), Some("b"));
    assert_eq!(active_toc_id(&items, &None, 5).as_deref(), Some("e"));
    assert_eq!(active_toc_id(&items, &None, 0), None);
    let chosen = Some((text("c"), 5));
    assert_eq!(active_toc_id(&items, &chosen, 5).as_deref(), Some("c"));
    assert_eq!(active_toc_id(&items, &chosen, 6).as_deref(), Some("e"));
    assert_eq!(active_toc_id(&items, &Some((text("gone"), 5)), 5).as_deref(), Some("e"));
    assert_eq!(toc_item_class(&items[0], &Some(text("a"))), "reader-toc-item is-active is-parent");
    assert_eq!(toc_item_class(&items[1], &None), "reader-toc-item");
    assert_eq!(toc_item_style(&items[1]), "padding-left: 26px");
    let mut folded: Table<()> = Table::new();
    folded.insert(text("a"), ());
    assert_eq!(fold_sign(&folded, "a"), "▸");
    assert_eq!(fold_sign(&folded, "c"), "▾");
}
