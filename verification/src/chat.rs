//! The chat panel: messages as what is drawn of them, the time line of what the
//! user said, and what the panel waits for.
use crate::diff_view::{parse_diff_stat, render_diff_view, shows, stat_from, DiffView};
use crate::json::{json_member, json_pretty, pretty};
use crate::keyed::Table;
use crate::markdown::{markdown_html, markdown_to_html};
use crate::model::{
    segment_models, CallModel, ChatMessage, Role, SegmentModel, StreamSegment, ToolCallRecord, ToolCallStatus,
    UiMessage,
};
use crate::bridge::any_streaming;
use crate::text::{decimal, lines_from, push_decimal, same_text, trim, trimmed, views};
use crate::tool_call::{
    args_text, file_path_from_args, first_chars, path_from, status_class, status_style, status_text, status_word,
    tool_args_summary,
};
use vstd::prelude::*;

verus! {

// ── the time line ──

/// A text in short: at most sixty characters, an ellipsis behind them where more
/// follow.
pub open spec fn preview(s: Seq<char>) -> Seq<char> {
    if s.len() > 60 {
        s.take(60) + "…"@
    } else {
        s
    }
}

/// A text in short.
pub fn preview_of(s: &str) -> (r: String)
    ensures
        r@ == preview(s@),
{
    let mut r = first_chars(s, 60);
    if s.unicode_len() > 60 {
        r.append("…");
    }
    r
}

/// What the time line shows of the first `n` messages: for each message of the
/// user its place and its text in short.
pub open spec fn user_marks(s: Seq<UiMessage>, n: nat) -> Seq<(usize, Seq<char>)>
    decreases n,
{
    if n == 0 {
        Seq::empty()
    } else if s[n - 1].from_role(Role::User) {
        user_marks(s, (n - 1) as nat).push(
            ((n - 1) as usize, preview(trimmed(s[n - 1]->Static_0.content@))),
        )
    } else {
        user_marks(s, (n - 1) as nat)
    }
}

/// What some marks hold.
pub open spec fn mark_models(s: Seq<(usize, String)>) -> Seq<(usize, Seq<char>)> {
    s.map_values(|m: (usize, String)| (m.0, (m.1)@))
}

/// The marks of the time line.
pub fn user_messages(messages: &Vec<UiMessage>) -> (r: Vec<(usize, String)>)
    ensures
        mark_models(r@) == user_marks(messages@, messages@.len()),
{
    let mut r: Vec<(usize, String)> = Vec::new();
    let mut i: usize = 0;
    assert(mark_models(r@) =~= Seq::<(usize, Seq<char>)>::empty());
    while i < messages.len()
        invariant
            i <= messages@.len(),
            mark_models(r@) == user_marks(messages@, i as nat),
        decreases messages@.len() - i,
    {
        if messages[i].is_from(Role::User) {
            if let UiMessage::Static(m) = &messages[i] {
                let text = trim(m.content.as_str());
                let short = preview_of(text.as_str());
                let ghost before = r@;
                let ghost mark = (i, short@);
                r.push((i, short));
                assert(mark_models(r@) =~= mark_models(before).push(mark));
            }
        }
        i = i + 1;
    }
    r
}

/// The style class of a mark: the last one stands out while an approval is
/// awaited.
pub fn timeline_class(approval_pending: bool, index: usize, last_user_index: Option<usize>) -> (r: &'static str)
    ensures
        r@ == if approval_pending && last_user_index == Some(index) {
            "timeline-hit streaming awaiting-approval"@
        } else {
            "timeline-hit"@
        },
{
    let last = match last_user_index {
        Some(i) => i == index,
        None => false,
    };
    if approval_pending && last {
        "timeline-hit streaming awaiting-approval"
    } else {
        "timeline-hit"
    }
}

// ── what the panel waits for ──

/// One of the segments is a call that awaits approval.
pub open spec fn awaits_approval(s: Seq<SegmentModel>) -> bool {
    exists|i: int| 0 <= i < s.len() && awaiting(#[trigger] s[i])
}

/// A call that awaits approval.
pub open spec fn awaiting(s: SegmentModel) -> bool {
    s is ToolCall && s->ToolCall_0.status is AwaitingApproval
}

/// Whether one of the segments is a call that awaits approval.
pub fn has_approval(segments: &Vec<StreamSegment>) -> (r: bool)
    ensures
        r == awaits_approval(segment_models(segments@)),
{
    let ghost s = segment_models(segments@);
    let mut i: usize = 0;
    while i < segments.len()
        invariant
            i <= segments@.len(),
            s == segment_models(segments@),
            forall|k: int| 0 <= k < i ==> !awaiting(#[trigger] s[k]),
        decreases segments@.len() - i,
    {
        assert(s[i as int] == segments@[i as int]@);
        if let StreamSegment::ToolCall(c) = &segments[i] {
            if matches!(c.status, ToolCallStatus::AwaitingApproval) {
                assert(awaiting(s[i as int]));
                return true;
            }
        }
        i = i + 1;
    }
    false
}

/// The segments of message `i`; those of a placeholder have come in so far.
pub open spec fn segments_shown(messages: Seq<UiMessage>, incoming: Seq<Vec<StreamSegment>>, i: int) -> Seq<SegmentModel> {
    match messages[i] {
        UiMessage::Static(c) => segment_models(c.segments@),
        UiMessage::Streaming { .. } => if i < incoming.len() {
            segment_models(incoming[i]@)
        } else {
            Seq::empty()
        },
    }
}

/// Whether a call in one of the messages awaits approval. For each message that is
/// a placeholder, `incoming` holds in the same place what has come in so far.
pub fn has_approval_pending(messages: &Vec<UiMessage>, incoming: &Vec<Vec<StreamSegment>>) -> (r: bool)
    ensures
        r == exists|i: int|
            0 <= i < messages@.len() && awaits_approval(#[trigger] segments_shown(messages@, incoming@, i)),
{
    let mut i: usize = 0;
    while i < messages.len()
        invariant
            i <= messages@.len(),
            forall|k: int| 0 <= k < i ==> !awaits_approval(#[trigger] segments_shown(messages@, incoming@, k)),
        decreases messages@.len() - i,
    {
        let found = match &messages[i] {
            UiMessage::Static(m) => has_approval(&m.segments),
            UiMessage::Streaming { .. } => i < incoming.len() && has_approval(&incoming[i]),
        };
        if found {
            assert(awaits_approval(segments_shown(messages@, incoming@, i as int)));
            return true;
        }
        i = i + 1;
    }
    false
}

/// The user spoke last.
pub open spec fn user_spoke_last(s: Seq<UiMessage>) -> bool {
    s.len() > 0 && s.last().from_role(Role::User)
}

/// Whether the dots of an assistant that is thinking show: something runs, the
/// user spoke last, and nothing has come in.
pub fn shows_thinking(running: bool, messages: &Vec<UiMessage>) -> (r: bool)
    ensures
        r == (running && user_spoke_last(messages@) && !any_streaming(messages@)),
{
    let n = messages.len();
    if !running || n == 0 || !messages[n - 1].is_from(Role::User) {
        return false;
    }
    let mut i: usize = 0;
    while i < messages.len()
        invariant
            i <= messages@.len(),
            forall|k: int| 0 <= k < i ==> !(#[trigger] messages@[k]).streaming(),
        decreases messages@.len() - i,
    {
        if messages[i].is_streaming() {
            assert(messages@[i as int].streaming());
            return false;
        }
        i = i + 1;
    }
    true
}

// ── labels ──

/// The label of a role.
pub fn role_label(role: Role) -> (r: &'static str)
    ensures
        r@ == match role {
            Role::User => "USER"@,
            Role::Assistant => "ASSISTANT"@,
            Role::System => "SYSTEM"@,
        },
{
    match role {
        Role::User => "USER",
        Role::Assistant => "ASSISTANT",
        Role::System => "SYSTEM",
    }
}

/// The style class of a role's label.
pub fn role_class(role: Role) -> (r: &'static str)
    ensures
        r@ == match role {
            Role::User => "user-role"@,
            _ => ""@,
        },
{
    match role {
        Role::User => "user-role",
        _ => "",
    }
}

/// The style class of a role's messages.
pub fn bubble_class(role: Role) -> (r: &'static str)
    ensures
        r@ == match role {
            Role::User => "message-bubble message-user"@,
            Role::Assistant => "message-bubble message-assistant"@,
            Role::System => "message-bubble message-system"@,
        },
{
    match role {
        Role::User => "message-bubble message-user",
        Role::Assistant => "message-bubble message-assistant",
        Role::System => "message-bubble message-system",
    }
}

/// The style class of a placeholder.
pub fn streaming_class(incoming: &Vec<StreamSegment>) -> (r: &'static str)
    ensures
        r@ == if awaits_approval(segment_models(incoming@)) {
            "message-bubble message-assistant streaming awaiting-approval"@
        } else {
            "message-bubble message-assistant streaming"@
        },
{
    if has_approval(incoming) {
        "message-bubble message-assistant streaming awaiting-approval"
    } else {
        "message-bubble message-assistant streaming"
    }
}

// ── segments ──

/// What is drawn of a tool call that waits for the user.
#[derive(Debug)]
pub struct ApprovalCard {
    pub call_id: String,
    pub title: String,
    pub args: String,
    pub reason: String,
}

/// What is drawn of a tool call that was opened.
#[derive(Debug)]
pub enum CardBody {
    Diff(DiffView),
    /// HTML.
    Document(String),
}

/// What is drawn of a tool call.
#[derive(Debug)]
pub struct CallCard {
    pub key: String,
    pub class: &'static str,
    pub name: String,
    pub args: Option<String>,
    pub diff_stat: Option<String>,
    pub status: &'static str,
    pub body: Option<CardBody>,
}

/// What is drawn of a segment that is no text.
#[derive(Debug)]
pub enum WorkPart {
    /// HTML.
    Thought(String),
    Approval(ApprovalCard),
    Call(CallCard),
}

/// One item of a drawn message: a text, or the thoughts and calls between two
/// texts.
#[derive(Debug)]
pub enum ChatItem {
    /// HTML.
    Said(String),
    Work(Vec<WorkPart>),
}

/// Which segments form an item.
pub enum Group {
    Said(int),
    Work(Seq<int>),
}

/// The groups, and a last one of the segments that are left over.
pub open spec fn flushed(groups: Seq<Group>, rest: Seq<int>) -> Seq<Group> {
    if rest.len() > 0 {
        groups.push(Group::Work(rest))
    } else {
        groups
    }
}

/// The groups that the first `n` segments close, and the segments that are left
/// over: a text stands alone and closes what stands before it.
pub open spec fn grouped(s: Seq<SegmentModel>, n: nat) -> (Seq<Group>, Seq<int>)
    decreases n,
{
    if n == 0 {
        (Seq::empty(), Seq::empty())
    } else {
        let (groups, rest) = grouped(s, (n - 1) as nat);
        if s[n - 1] is Text {
            (flushed(groups, rest).push(Group::Said(n - 1)), Seq::empty())
        } else {
            (groups, rest.push(n - 1))
        }
    }
}

/// The groups of all segments.
pub open spec fn groups_of(s: Seq<SegmentModel>) -> Seq<Group> {
    let (groups, rest) = grouped(s, s.len());
    flushed(groups, rest)
}

/// How many of the first `n` segments are calls.
pub open spec fn calls_before(s: Seq<SegmentModel>, n: nat) -> nat
    decreases n,
{
    if n == 0 {
        0
    } else if s[n - 1] is ToolCall {
        calls_before(s, (n - 1) as nat) + 1
    } else {
        calls_before(s, (n - 1) as nat)
    }
}

/// The key of the call with this number in a message.
pub open spec fn call_key(message: Seq<char>, number: nat) -> Seq<char> {
    message + ":"@ + decimal(number)
}

/// The document of a call: its arguments, written over several lines, and what
/// it returned.
pub open spec fn call_document(args: Seq<char>, result: Option<Seq<char>>) -> Seq<char> {
    "**Args**\n\n```json\n"@ + args + "\n```"@ + match result {
        Some(r) => "\n\n**Result**\n\n```\n"@ + r + "\n```"@,
        None => Seq::empty(),
    }
}

/// The document of a call.
pub fn call_document_of(args: &str, result: &Option<String>) -> (r: String)
    ensures
        r@ == call_document(args@, crate::model::opt_text(*result)),
{
    let mut r = String::new();
    r.append("**Args**\n\n```json\n");
    r.append(args);
    r.append("\n```");
    let ghost head = r@;
    match result {
        Some(t) => {
            r.append("\n\n**Result**\n\n```\n");
            r.append(t.as_str());
            r.append("\n```");
            assert(r@ =~= call_document(args@, Some(t@)));
        },
        None => {
            assert(r@ =~= call_document(args@, None));
        },
    }
    r
}

/// The tools whose summary names a file.
pub open spec fn names_file(tool: Seq<char>) -> bool {
    tool == "write_file"@ || tool == "edit_file"@
}

/// The tools whose result is shown as differences.
pub open spec fn shows_diff(tool: Seq<char>) -> bool {
    tool == "WriteFile"@ || tool == "EditFile"@
}

/// The Markdown of a segment: what was said or thought, or the document of a call.
pub open spec fn segment_source(s: SegmentModel) -> Seq<char> {
    match s {
        SegmentModel::Text(t) => t,
        SegmentModel::Reasoning(t) => t,
        SegmentModel::ToolCall(c) => call_document(json_pretty(c.args), c.result),
    }
}

/// The Markdown of a segment.
pub fn segment_markdown(s: &StreamSegment) -> (r: String)
    ensures
        r@ == segment_source(s@),
{
    match s {
        StreamSegment::Text(t) => t.clone(),
        StreamSegment::Reasoning(t) => t.clone(),
        StreamSegment::ToolCall(c) => {
            let args = pretty(c.args.as_str());
            call_document_of(args.as_str(), &c.result)
        },
    }
}

/// The HTML of the segments.
pub open spec fn plain_htmls(s: Seq<SegmentModel>) -> Seq<Seq<char>> {
    s.map_values(|x: SegmentModel| markdown_html(segment_source(x)))
}

/// A text as HTML.
pub fn text_html(text: &str) -> (r: String)
    ensures
        r@ == markdown_html(text@),
{
    markdown_to_html(text)
}

/// The card body shows what an opened call did; `html` is its document as HTML.
pub open spec fn body_shows(b: Option<CardBody>, c: CallModel, html: Seq<char>) -> bool {
    if shows_diff(c.tool_name) {
        match c.result {
            Some(r) => b is Some && b->0 is Diff && shows(b->0->Diff_0, r),
            None => b is None,
        }
    } else {
        b is Some && b->0 is Document && b->0->Document_0@ == html
    }
}

/// The card shows the call, whose document is `html`; `open` says whether it was
/// opened.
pub open spec fn card_shows(card: CallCard, c: CallModel, html: Seq<char>, key: Seq<char>, open: bool) -> bool {
    &&& card.key@ == key
    &&& card.class@ == status_style(c.status)
    &&& card.name@ == c.tool_name
    &&& card.status@ == status_word(c.status)
    &&& if names_file(c.tool_name) {
        &&& card.args is Some
        &&& card.args->0@ == path_from(json_member(c.args, "file_path"@), json_member(c.args, "path"@))
        &&& match c.result {
            Some(r) => card.diff_stat is Some && card.diff_stat->0@ == stat_from(lines_from(r, 0), 1),
            None => card.diff_stat is None,
        }
    } else {
        &&& card.diff_stat is None
        &&& if args_text(c.tool_name, c.args).len() > 0 {
            card.args is Some && card.args->0@ == args_text(c.tool_name, c.args)
        } else {
            card.args is None
        }
    }
    &&& if open {
        body_shows(card.body, c, html)
    } else {
        card.body is None
    }
}

/// The card asks for the approval of the call.
pub open spec fn approval_asks(card: ApprovalCard, c: CallModel) -> bool {
    &&& card.call_id@ == c.id
    &&& card.title@ == c.tool_name + " needs approval"@
    &&& card.args@ == args_text(c.tool_name, c.args)
    &&& card.reason@ == match c.approval_reason {
        Some(r) => r,
        None => Seq::empty(),
    }
}

/// The part shows the segment, which is `html` as HTML; `key` is the call's key.
pub open spec fn part_shows(p: WorkPart, s: SegmentModel, html: Seq<char>, key: Seq<char>, open: bool) -> bool {
    match s {
        SegmentModel::Text(_) => false,
        SegmentModel::Reasoning(_) => p is Thought && p->Thought_0@ == html,
        SegmentModel::ToolCall(c) => if c.status is AwaitingApproval {
            p is Approval && approval_asks(p->Approval_0, c)
        } else {
            p is Call && card_shows(p->Call_0, c, html, key, open)
        },
    }
}

/// Part `p` shows segment `k` of the message.
pub open spec fn shows_segment(
    p: WorkPart,
    s: Seq<SegmentModel>,
    htmls: Seq<Seq<char>>,
    k: int,
    message: Seq<char>,
    opened: Map<Seq<char>, ()>,
) -> bool {
    let key = call_key(message, calls_before(s, k as nat));
    part_shows(p, s[k], htmls[k], key, opened.dom().contains(key))
}

/// The parts show these segments, in order.
pub open spec fn parts_show(
    parts: Seq<WorkPart>,
    s: Seq<SegmentModel>,
    htmls: Seq<Seq<char>>,
    ks: Seq<int>,
    message: Seq<char>,
    opened: Map<Seq<char>, ()>,
) -> bool {
    parts.len() == ks.len() && forall|j: int|
        0 <= j < ks.len() ==> shows_segment(#[trigger] parts[j], s, htmls, ks[j], message, opened)
}

/// The item shows a group of segments.
pub open spec fn item_shows(
    item: ChatItem,
    s: Seq<SegmentModel>,
    htmls: Seq<Seq<char>>,
    g: Group,
    message: Seq<char>,
    opened: Map<Seq<char>, ()>,
) -> bool {
    match g {
        Group::Said(k) => item is Said && s[k] is Text && item->Said_0@ == htmls[k],
        Group::Work(ks) => item is Work && parts_show(item->Work_0@, s, htmls, ks, message, opened),
    }
}

/// The items show the groups of segments, in order.
pub open spec fn items_show(
    items: Seq<ChatItem>,
    s: Seq<SegmentModel>,
    htmls: Seq<Seq<char>>,
    groups: Seq<Group>,
    message: Seq<char>,
    opened: Map<Seq<char>, ()>,
) -> bool {
    items.len() == groups.len() && forall|i: int|
        0 <= i < groups.len() ==> item_shows(#[trigger] items[i], s, htmls, groups[i], message, opened)
}

fn or_none(s: &Option<String>) -> (r: String)
    ensures
        r@ == match crate::model::opt_text(*s) {
            Some(t) => t,
            None => Seq::empty(),
        },
{
    match s {
        Some(t) => t.clone(),
        None => String::new(),
    }
}

fn approval_card(c: &ToolCallRecord) -> (r: ApprovalCard)
    ensures
        approval_asks(r, c@),
{
    let mut title = c.tool_name.clone();
    title.append(" needs approval");
    ApprovalCard {
        call_id: c.id.clone(),
        title,
        args: tool_args_summary(c.tool_name.as_str(), c.args.as_str()),
        reason: or_none(&c.approval_reason),
    }
}

fn card_body(c: &ToolCallRecord, html: &str) -> (r: Option<CardBody>)
    ensures
        body_shows(r, c@, html@),
{
    let name = c.tool_name.as_str();
    if same_text(name, "WriteFile") || same_text(name, "EditFile") {
        match &c.result {
            Some(t) => Some(CardBody::Diff(render_diff_view(t.as_str()))),
            None => None,
        }
    } else {
        Some(CardBody::Document(html.to_owned()))
    }
}

fn call_card(c: &ToolCallRecord, html: &str, key: String, open: bool) -> (r: CallCard)
    ensures
        card_shows(r, c@, html@, key@, open),
{
    let body = if open {
        card_body(c, html)
    } else {
        None
    };
    let file = same_text(c.tool_name.as_str(), "write_file") || same_text(c.tool_name.as_str(), "edit_file");
    let (args, diff_stat): (Option<String>, Option<String>) = if file {
        let stat: Option<String> = match &c.result {
            Some(t) => Some(parse_diff_stat(t.as_str())),
            None => None,
        };
        (Some(file_path_from_args(c.args.as_str())), stat)
    } else {
        let text = tool_args_summary(c.tool_name.as_str(), c.args.as_str());
        if text.as_str().is_empty() {
            (None, None)
        } else {
            (Some(text), None)
        }
    };
    CallCard {
        key,
        class: status_class(&c.status),
        name: c.tool_name.clone(),
        args,
        diff_stat,
        status: status_text(&c.status),
        body,
    }
}

/// The items of a message with these segments; `htmls` holds the HTML of each.
/// `message` is the key of the message, and `opened` holds the keys of the calls
/// that were opened.
pub fn render_segments_with(
    segments: &Vec<StreamSegment>,
    htmls: &Vec<String>,
    opened: &Table<()>,
    message: &str,
) -> (r: Vec<ChatItem>)
    requires
        htmls@.len() == segments@.len(),
    ensures
        items_show(
            r@,
            segment_models(segments@),
            views(htmls@),
            groups_of(segment_models(segments@)),
            message@,
            opened@,
        ),
{
    let ghost s = segment_models(segments@);
    let mut items: Vec<ChatItem> = Vec::new();
    let mut rest: Vec<WorkPart> = Vec::new();
    let mut calls: u64 = 0;
    let mut i: usize = 0;
    while i < segments.len()
        invariant
            i <= segments@.len(),
            htmls@.len() == segments@.len(),
            s == segment_models(segments@),
            calls == calls_before(s, i as nat),
            calls <= i,
            items_show(items@, s, views(htmls@), grouped(s, i as nat).0, message@, opened@),
            parts_show(rest@, s, views(htmls@), grouped(s, i as nat).1, message@, opened@),
        decreases segments@.len() - i,
    {
        assert(s[i as int] == segments@[i as int]@);
        assert(views(htmls@)[i as int] == htmls@[i as int]@);
        let ghost (groups, ks) = grouped(s, i as nat);
        match &segments[i] {
            StreamSegment::Text(_) => {
                if rest.len() > 0 {
                    items.push(ChatItem::Work(rest));
                    rest = Vec::new();
                }
                assert(items_show(items@, s, views(htmls@), flushed(groups, ks), message@, opened@));
                items.push(ChatItem::Said(htmls[i].clone()));
            },
            StreamSegment::Reasoning(_) => {
                rest.push(WorkPart::Thought(htmls[i].clone()));
            },
            StreamSegment::ToolCall(c) => {
                let mut key = message.to_owned();
                key.append(":");
                push_decimal(&mut key, calls);
                assert(key@ == call_key(message@, calls as nat));
                let part = if matches!(c.status, ToolCallStatus::AwaitingApproval) {
                    WorkPart::Approval(approval_card(c))
                } else {
                    let open = opened.contains(key.as_str());
                    WorkPart::Call(call_card(c, htmls[i].as_str(), key, open))
                };
                assert(shows_segment(part, s, views(htmls@), i as int, message@, opened@));
                rest.push(part);
                calls = calls + 1;
            },
        }
        i = i + 1;
    }
    if rest.len() > 0 {
        items.push(ChatItem::Work(rest));
    }
    items
}

/// The HTML of the segments.
fn htmls_of(segments: &Vec<StreamSegment>) -> (r: Vec<String>)
    ensures
        r@.len() == segments@.len(),
        views(r@) == plain_htmls(segment_models(segments@)),
{
    let mut r: Vec<String> = Vec::new();
    let mut i: usize = 0;
    while i < segments.len()
        invariant
            i <= segments@.len(),
            r@.len() == i,
            forall|k: int| 0 <= k < i ==> (#[trigger] r@[k])@ == markdown_html(segment_source(segments@[k]@)),
        decreases segments@.len() - i,
    {
        let source = segment_markdown(&segments[i]);
        r.push(markdown_to_html(source.as_str()));
        i = i + 1;
    }
    assert(views(r@) =~= plain_htmls(segment_models(segments@)));
    r
}

/// As `render_segments_with`, with the HTML that the Markdown of the segments
/// gives.
pub fn render_segments(segments: &Vec<StreamSegment>, opened: &Table<()>, message: &str) -> (r: Vec<ChatItem>)
    ensures
        items_show(
            r@,
            segment_models(segments@),
            plain_htmls(segment_models(segments@)),
            groups_of(segment_models(segments@)),
            message@,
            opened@,
        ),
{
    let htmls = htmls_of(segments);
    render_segments_with(segments, &htmls, opened, message)
}

/// What is drawn of a finished message.
#[derive(Debug)]
pub enum MessageBody {
    /// HTML.
    Content(String),
    Items(Vec<ChatItem>),
}

/// What is drawn of a finished message: where it has no segments, its content as
/// HTML, `content` being what is taken where it is not kept with it; else its
/// segments, of which `htmls` holds the HTML.
pub open spec fn body_of(
    b: MessageBody,
    m: ChatMessage,
    content: Seq<char>,
    htmls: Seq<Seq<char>>,
    message: Seq<char>,
    opened: Map<Seq<char>, ()>,
) -> bool {
    if m.segments@.len() == 0 && m.content@.len() > 0 {
        b is Content && b->Content_0@ == if m.content_html@.len() == 0 {
            content
        } else {
            m.content_html@
        }
    } else {
        b is Items && items_show(
            b->Items_0@,
            segment_models(m.segments@),
            htmls,
            groups_of(segment_models(m.segments@)),
            message,
            opened,
        )
    }
}

/// What is drawn of a finished message; `content` is its content as HTML, and
/// `htmls` holds the HTML of each segment.
pub fn message_body_with(
    m: &ChatMessage,
    content: &str,
    htmls: &Vec<String>,
    opened: &Table<()>,
    message: &str,
) -> (r: MessageBody)
    requires
        htmls@.len() == m.segments@.len(),
    ensures
        body_of(r, *m, content@, views(htmls@), message@, opened@),
{
    if m.segments.len() == 0 && !m.content.as_str().is_empty() {
        if m.content_html.as_str().is_empty() {
            MessageBody::Content(content.to_owned())
        } else {
            MessageBody::Content(m.content_html.clone())
        }
    } else {
        MessageBody::Items(render_segments_with(&m.segments, htmls, opened, message))
    }
}

/// As `message_body_with`, with the HTML that Markdown gives.
pub fn message_body(m: &ChatMessage, opened: &Table<()>, message: &str) -> (r: MessageBody)
    ensures
        body_of(
            r,
            *m,
            markdown_html(m.content@),
            plain_htmls(segment_models(m.segments@)),
            message@,
            opened@,
        ),
{
    let content = markdown_to_html(m.content.as_str());
    let htmls = htmls_of(&m.segments);
    message_body_with(m, content.as_str(), &htmls, opened, message)
}

/// A call is opened, or closed where it is open.
pub open spec fn toggled(opened: Map<Seq<char>, ()>, key: Seq<char>) -> Map<Seq<char>, ()> {
    if opened.dom().contains(key) {
        opened.remove(key)
    } else {
        opened.insert(key, ())
    }
}

/// Opens a call, or closes it where it is open.
pub fn toggle(opened: &mut Table<()>, key: &str)
    ensures
        final(opened)@ == toggled(old(opened)@, key@),
{
    if opened.contains(key) {
        let _ = opened.remove(key);
    } else {
        opened.insert(key.to_owned(), ());
    }
}

/// Toggling twice changes nothing.
pub proof fn toggling_twice_changes_nothing(m: Map<Seq<char>, ()>, key: Seq<char>)
    ensures
        toggled(toggled(m, key), key) == m,
{
    if m.dom().contains(key) {
        assert(m.remove(key).insert(key, ()) =~= m);
    } else {
        assert(m.insert(key, ()).remove(key) =~= m);
    }
}

/// The segments of the first `n` groups, one group after the other.
pub open spec fn flat(groups: Seq<Group>, n: nat) -> Seq<int>
    decreases n,
{
    if n == 0 {
        Seq::empty()
    } else {
        flat(groups, (n - 1) as nat) + match groups[n - 1] {
            Group::Said(k) => seq![k],
            Group::Work(ks) => ks,
        }
    }
}

proof fn lemma_flat_prefix(a: Seq<Group>, b: Seq<Group>, n: nat)
    requires
        n <= a.len(),
        n <= b.len(),
        forall|i: int| 0 <= i < n ==> a[i] == b[i],
    ensures
        flat(a, n) == flat(b, n),
    decreases n,
{
    if n > 0 {
        lemma_flat_prefix(a, b, (n - 1) as nat);
    }
}

proof fn lemma_flat_flushed(groups: Seq<Group>, rest: Seq<int>)
    ensures
        flat(flushed(groups, rest), flushed(groups, rest).len()) == flat(groups, groups.len()) + rest,
{
    lemma_flat_prefix(groups, flushed(groups, rest), groups.len());
    if rest.len() == 0 {
        assert(flat(groups, groups.len()) + rest =~= flat(groups, groups.len()));
    }
}

proof fn lemma_flat_grouped(s: Seq<SegmentModel>, n: nat)
    requires
        n <= s.len(),
    ensures
        flat(grouped(s, n).0, grouped(s, n).0.len()) + grouped(s, n).1 == Seq::new(n, |i: int| i),
    decreases n,
{
    if n > 0 {
        lemma_flat_grouped(s, (n - 1) as nat);
        let (groups, rest) = grouped(s, (n - 1) as nat);
        let upto = Seq::new((n - 1) as nat, |i: int| i);
        lemma_flat_flushed(groups, rest);
        assert(upto.push(n - 1) =~= Seq::new(n, |i: int| i));
        if s[n - 1] is Text {
            let f = flushed(groups, rest);
            let g = f.push(Group::Said(n - 1));
            lemma_flat_prefix(f, g, f.len());
            assert(flat(g, g.len()) + Seq::<int>::empty() =~= upto.push(n - 1));
        } else {
            assert(flat(groups, groups.len()) + rest.push(n - 1) =~= upto.push(n - 1));
        }
    } else {
        assert(flat(grouped(s, n).0, 0) + grouped(s, n).1 =~= Seq::new(n, |i: int| i));
    }
}

/// Every segment is drawn once, in the order of the message.
pub proof fn every_segment_is_drawn_once(s: Seq<SegmentModel>)
    ensures
        flat(groups_of(s), groups_of(s).len()) == Seq::new(s.len(), |i: int| i),
{
    lemma_flat_grouped(s, s.len());
    let (groups, rest) = grouped(s, s.len());
    lemma_flat_flushed(groups, rest);
}

// ── what is drawn, seen from outside ──

/// The marks on the time line are the messages of the user, in order, each with its place and
/// the start of its text.
pub proof fn every_message_of_the_user_has_a_mark(s: Seq<UiMessage>, n: nat)
    requires
        n <= s.len() <= usize::MAX,
    ensures
        forall|i: int| 0 <= i < n && (#[trigger] s[i]) is Static && s[i]->Static_0.role == Role::User ==> marks_message(user_marks(s, n), s, i),
        forall|k: int| 0 <= k < user_marks(s, n).len() ==> mark_stands(s, n, #[trigger] user_marks(s, n)[k]),
        forall|j: int, k: int| 0 <= j < k < user_marks(s, n).len() ==> (#[trigger] user_marks(s, n)[j]).0 < (#[trigger] user_marks(s, n)[k]).0,
    decreases n,
{
    let now = user_marks(s, n);
    if n > 0 {
        every_message_of_the_user_has_a_mark(s, (n - 1) as nat);
        let before = user_marks(s, (n - 1) as nat);
        assert forall|i: int| 0 <= i < n && (#[trigger] s[i]) is Static && s[i]->Static_0.role == Role::User implies marks_message(now, s, i) by {
            if i < n - 1 {
                assert(marks_message(before, s, i));
                let k = choose|k: int|
                    0 <= k < before.len() && (#[trigger] before[k]).0 == i && before[k].1 == preview(trimmed(s[i]->Static_0.content@));
                assert(now[k] == before[k]);
            } else {
                assert(now[now.len() - 1].0 == i);
            }
        }
        assert forall|k: int| 0 <= k < now.len() implies mark_stands(s, n, #[trigger] now[k]) by {
            if k < before.len() {
                assert(mark_stands(s, (n - 1) as nat, before[k]));
            }
        }
        assert forall|j: int, k: int| 0 <= j < k < now.len() implies (#[trigger] now[j]).0 < (#[trigger] now[k]).0 by {
            assert(now[j] == before[j]);
            assert(mark_stands(s, (n - 1) as nat, before[j]));
            if k < before.len() {
                assert(now[k] == before[k]);
            }
        }
    }
}

/// One of the marks is that of message `i`.
pub open spec fn marks_message(marks: Seq<(usize, Seq<char>)>, s: Seq<UiMessage>, i: int) -> bool {
    exists|k: int| 0 <= k < marks.len() && (#[trigger] marks[k]).0 == i && marks[k].1 == preview(trimmed(s[i]->Static_0.content@))
}

/// The mark is that of a message of the user among the first `n`.
pub open spec fn mark_stands(s: Seq<UiMessage>, n: nat, mark: (usize, Seq<char>)) -> bool {
    &&& mark.0 < n
    &&& s[mark.0 as int] is Static
    &&& s[mark.0 as int]->Static_0.role == Role::User
    &&& mark.1 == preview(trimmed(s[mark.0 as int]->Static_0.content@))
}

/// Of a text no more than 60 characters are shown; an ellipsis stands for the rest.
pub proof fn previews_are_short(s: Seq<char>, t: Seq<char>)
    ensures
        s.len() <= 60 ==> preview(s) == s,
        s.len() == 60 && t.len() > 0 ==> preview(s + t) == s + seq!['…'],
{
    reveal_strlit("…");
    assert("…"@ =~= seq!['…']);
    if s.len() == 60 && t.len() > 0 {
        assert((s + t).take(60) =~= s);
    }
}

/// Calls of one message have keys of their own.
pub proof fn calls_have_keys_of_their_own(message: Seq<char>, a: nat, b: nat)
    ensures
        a != b ==> call_key(message, a) != call_key(message, b),
{
    if call_key(message, a) == call_key(message, b) {
        let pre = message + ":"@;
        let x = call_key(message, a);
        let y = call_key(message, b);
        assert(x.skip(pre.len() as int) =~= decimal(a));
        assert(y.skip(pre.len() as int) =~= decimal(b));
        crate::text::decimal_is_injective(a, b);
    }
}

/// A call is numbered by the calls before it.
pub proof fn calls_are_numbered_in_order(s: Seq<SegmentModel>, n: nat)
    requires
        n <= s.len(),
    ensures
        calls_before(s, n) == s.take(n as int).filter(|x: SegmentModel| x is ToolCall).len(),
    decreases n,
{
    reveal(Seq::filter);
    let t = s.take(n as int);
    if n > 0 {
        calls_are_numbered_in_order(s, (n - 1) as nat);
        assert(t.drop_last() =~= s.take(n - 1));
        assert(t.last() == s[n - 1]);
    } else {
        assert(t.filter(|x: SegmentModel| x is ToolCall) =~= Seq::<SegmentModel>::empty());
    }
}

proof fn lemma_grouped_shape(s: Seq<SegmentModel>, n: nat)
    requires
        n <= s.len(),
    ensures
        ({
            let (groups, rest) = grouped(s, n);
            &&& forall|g: int| 0 <= g < groups.len() ==> group_fits(s, #[trigger] groups[g])
            &&& forall|k: int| 0 <= k < rest.len() ==> 0 <= #[trigger] rest[k] < n && !(s[rest[k]] is Text)
            &&& rest.len() == 0 ==> n == 0 || groups.len() > 0 && groups.last() == Group::Said(n - 1)
            &&& forall|g: int|
                0 < g < groups.len() ==> !((#[trigger] groups[g]) is Work && groups[g - 1] is Work)
            &&& rest.len() > 0 && groups.len() > 0 ==> groups.last() is Said
        }),
    decreases n,
{
    if n > 0 {
        lemma_grouped_shape(s, (n - 1) as nat);
        let (groups, rest) = grouped(s, (n - 1) as nat);
        let (now, left) = grouped(s, n);
        let f = flushed(groups, rest);
        if s[n - 1] is Text {
            assert(now == f.push(Group::Said(n - 1)));
            assert forall|g: int| 0 <= g < now.len() implies group_fits(s, #[trigger] now[g]) by {
                if g < groups.len() {
                    assert(now[g] == groups[g]);
                } else if g < f.len() {
                    assert(now[g] == Group::Work(rest));
                }
            }
            assert forall|g: int| 0 < g < now.len() implies !((#[trigger] now[g]) is Work && now[g - 1] is Work) by {
                if g < groups.len() {
                    assert(now[g] == groups[g] && now[g - 1] == groups[g - 1]);
                } else if g < f.len() {
                    assert(now[g - 1] == groups[g - 1]);
                }
            }
        }
    }
}

/// The group is one text, or segments that are none.
pub open spec fn group_fits(s: Seq<SegmentModel>, g: Group) -> bool {
    match g {
        Group::Said(k) => 0 <= k < s.len() && s[k] is Text,
        Group::Work(ks) => ks.len() > 0 && forall|i: int| 0 <= i < ks.len() ==> 0 <= #[trigger] ks[i] < s.len() && !(s[ks[i]] is Text),
    }
}

/// Every text stands for itself, and whatever comes between two texts is drawn together: a
/// group is one text or only segments that are none, and no two groups of the latter kind
/// stand next to each other.
pub proof fn work_between_texts_is_drawn_together(s: Seq<SegmentModel>)
    ensures
        forall|g: int| 0 <= g < groups_of(s).len() ==> group_fits(s, #[trigger] groups_of(s)[g]),
        forall|g: int| 0 < g < groups_of(s).len() ==> !((#[trigger] groups_of(s)[g]) is Work && groups_of(s)[g - 1] is Work),
{
    lemma_grouped_shape(s, s.len());
    let (groups, rest) = grouped(s, s.len());
    let all = groups_of(s);
    assert forall|g: int| 0 <= g < all.len() implies group_fits(s, #[trigger] all[g]) by {
        if g < groups.len() {
            assert(all[g] == groups[g]);
        }
    }
    assert forall|g: int| 0 < g < all.len() implies !((#[trigger] all[g]) is Work && all[g - 1] is Work) by {
        if g < groups.len() {
            assert(all[g] == groups[g] && all[g - 1] == groups[g - 1]);
        } else {
            assert(all[g - 1] == groups[g - 1]);
        }
    }
}

/// The document of a call shows its arguments, and behind them its result where there is one.
pub proof fn a_call_shows_its_arguments_and_its_result(args: Seq<char>, result: Seq<char>)
    ensures
        call_document(args, None) == "**Args**\n\n```json\n"@ + args + "\n```"@,
        call_document(args, Some(result)) == call_document(args, None) + ("\n\n**Result**\n\n```\n"@ + result + "\n```"@),
{
    assert(call_document(args, None) =~= "**Args**\n\n```json\n"@ + args + "\n```"@);
}

} // verus!
