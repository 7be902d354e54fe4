//! Stored messages as chat messages: consecutive messages of the assistant
//! become one, and what tools returned goes to the calls that are waiting for
//! it.
use crate::error::{clock_text, local_clock};
use crate::markdown::{markdown_html, markdown_to_html};
use crate::model::{
    message_models, opt_text, segment_models, CallModel, ChatMessage, MessageModel, Role, SegmentModel, StatusModel,
    StreamSegment, ToolCallRecord, ToolCallStatus,
};
use crate::text::{chars_of, matches_at, same_text, stands_at, views};
use vstd::prelude::*;

verus! {

/// Who a stored message is from.
#[derive(Debug, Clone, Copy, PartialEq, Eq, Structural)]
pub enum StoredRole {
    System,
    User,
    Assistant,
    Tool,
}

/// A tool call as it is stored.
#[derive(Debug, Clone)]
pub struct StoredCall {
    pub id: String,
    pub name: String,
    /// The arguments as JSON text.
    pub arguments: String,
}

/// A message as it is stored.
#[derive(Debug, Clone)]
pub struct StoredMessage {
    pub role: StoredRole,
    pub content: Option<String>,
    pub reasoning_content: Option<String>,
    pub tool_calls: Vec<StoredCall>,
    pub tool_call_id: Option<String>,
    pub tool_name: Option<String>,
}

/// The text, or nothing where there is none.
pub open spec fn text_or_empty(s: Option<String>) -> Seq<char> {
    match s {
        Some(t) => t@,
        None => Seq::empty(),
    }
}

/// There is a text, and it is not empty.
pub open spec fn given(s: Option<String>) -> bool {
    text_or_empty(s).len() > 0
}

/// A stored call that nothing has been returned for yet.
pub open spec fn fresh_call(c: StoredCall) -> CallModel {
    CallModel {
        id: c.id@,
        tool_name: c.name@,
        args: c.arguments@,
        result: None,
        status: StatusModel::Running,
        approval_reason: None,
    }
}

/// The segments of a message of the assistant: what it thought, what it said,
/// which tools it called.
pub open spec fn assistant_segments(m: StoredMessage) -> Seq<SegmentModel> {
    let thought = if given(m.reasoning_content) {
        seq![SegmentModel::Reasoning(text_or_empty(m.reasoning_content))]
    } else {
        Seq::empty()
    };
    let said = if given(m.content) {
        seq![SegmentModel::Text(text_or_empty(m.content))]
    } else {
        Seq::empty()
    };
    thought + said + m.tool_calls@.map_values(|c: StoredCall| SegmentModel::ToolCall(fresh_call(c)))
}

/// What the text that a tool returned says of its call.
pub open spec fn returned_status(content: Seq<char>) -> StatusModel {
    if stands_at(content, "error: denied by user:"@, 0) || content == "error: approval channel closed"@ {
        StatusModel::Denied(content)
    } else if stands_at(content, "error:"@, 0) {
        StatusModel::Failed(content)
    } else {
        StatusModel::Success
    }
}

/// A call that is waiting for what a tool of this name returns.
pub open spec fn waiting(s: SegmentModel, name: Option<Seq<char>>) -> bool {
    s is ToolCall && s->ToolCall_0.result is None && (name is None || name == Some(s->ToolCall_0.tool_name))
}

/// The first waiting call from segment `from` on.
pub open spec fn first_waiting(s: Seq<SegmentModel>, name: Option<Seq<char>>, from: int) -> Option<int>
    decreases s.len() - from,
{
    if from < 0 || from >= s.len() {
        None
    } else if waiting(s[from], name) {
        Some(from)
    } else {
        first_waiting(s, name, from + 1)
    }
}

/// The call with what the tool returned.
pub open spec fn answered(c: CallModel, content: Seq<char>) -> CallModel {
    CallModel { result: Some(content), status: returned_status(content), ..c }
}

/// The message whose segment `at` is a call that got its answer.
pub open spec fn with_answer(m: MessageModel, at: int, content: Seq<char>) -> MessageModel {
    MessageModel {
        segments: m.segments.update(at, SegmentModel::ToolCall(answered(m.segments[at]->ToolCall_0, content))),
        ..m
    }
}

/// The messages after a tool returned `content`: of the first `n` messages, the
/// last one of the assistant that has a waiting call gets it.
pub open spec fn backfilled(s: Seq<MessageModel>, name: Option<Seq<char>>, content: Seq<char>, n: nat) -> Seq<
    MessageModel,
>
    decreases n,
{
    if n == 0 {
        s
    } else {
        let m = s[n - 1];
        let at = first_waiting(m.segments, name, 0);
        if m.role == Role::Assistant && at is Some {
            s.update(n - 1, with_answer(m, at->0, content))
        } else {
            backfilled(s, name, content, (n - 1) as nat)
        }
    }
}

/// A message of the assistant that was merged with the stored message that
/// follows it.
pub open spec fn merged(prev: MessageModel, m: StoredMessage, html: Seq<char>) -> MessageModel {
    MessageModel {
        segments: prev.segments + assistant_segments(m),
        content: if given(m.content) {
            text_or_empty(m.content)
        } else {
            prev.content
        },
        html: if given(m.content) {
            html
        } else {
            prev.html
        },
        reasoning: if given(m.reasoning_content) {
            text_or_empty(m.reasoning_content)
        } else {
            prev.reasoning
        },
        ..prev
    }
}

/// The chat messages after one more stored message, whose content is `html` and
/// which was read at `stamp`.
pub open spec fn after_stored(s: Seq<MessageModel>, m: StoredMessage, html: Seq<char>, stamp: Seq<char>) -> Seq<
    MessageModel,
> {
    match m.role {
        StoredRole::User => s.push(
            MessageModel {
                role: Role::User,
                content: text_or_empty(m.content),
                timestamp: stamp,
                reasoning: Seq::empty(),
                segments: Seq::empty(),
                html,
            },
        ),
        StoredRole::Assistant => if s.len() > 0 && s.last().role == Role::Assistant {
            s.update(s.len() - 1, merged(s.last(), m, html))
        } else {
            s.push(
                MessageModel {
                    role: Role::Assistant,
                    content: text_or_empty(m.content),
                    timestamp: stamp,
                    reasoning: text_or_empty(m.reasoning_content),
                    segments: assistant_segments(m),
                    html,
                },
            )
        },
        StoredRole::Tool => if m.tool_call_id is Some && m.content is Some {
            backfilled(s, opt_text(m.tool_name), text_or_empty(m.content), s.len())
        } else {
            s
        },
        StoredRole::System => s,
    }
}

/// The chat messages of the first `n` stored messages.
pub open spec fn loaded(stored: Seq<StoredMessage>, htmls: Seq<Seq<char>>, stamps: Seq<Seq<char>>, n: nat) -> Seq<
    MessageModel,
>
    decreases n,
{
    if n == 0 {
        Seq::empty()
    } else {
        after_stored(
            loaded(stored, htmls, stamps, (n - 1) as nat),
            stored[n - 1],
            htmls[n - 1],
            stamps[n - 1],
        )
    }
}

fn or_empty(s: &Option<String>) -> (r: String)
    ensures
        r@ == text_or_empty(*s),
{
    match s {
        Some(t) => t.clone(),
        None => String::new(),
    }
}

fn segments_of(m: &StoredMessage) -> (r: Vec<StreamSegment>)
    ensures
        segment_models(r@) == assistant_segments(*m),
{
    let mut r: Vec<StreamSegment> = Vec::new();
    let ghost thought = if given(m.reasoning_content) {
        seq![SegmentModel::Reasoning(text_or_empty(m.reasoning_content))]
    } else {
        Seq::empty()
    };
    let ghost said = if given(m.content) {
        seq![SegmentModel::Text(text_or_empty(m.content))]
    } else {
        Seq::empty()
    };
    if let Some(t) = &m.reasoning_content {
        if !t.as_str().is_empty() {
            r.push(StreamSegment::Reasoning(t.clone()));
        }
    }
    assert(segment_models(r@) =~= thought);
    if let Some(t) = &m.content {
        if !t.as_str().is_empty() {
            r.push(StreamSegment::Text(t.clone()));
        }
    }
    assert(segment_models(r@) =~= thought + said);
    let ghost calls = m.tool_calls@.map_values(|c: StoredCall| SegmentModel::ToolCall(fresh_call(c)));
    let mut i: usize = 0;
    while i < m.tool_calls.len()
        invariant
            i <= m.tool_calls@.len(),
            calls == m.tool_calls@.map_values(|c: StoredCall| SegmentModel::ToolCall(fresh_call(c))),
            segment_models(r@) =~= thought + said + calls.take(i as int),
        decreases m.tool_calls@.len() - i,
    {
        let c = &m.tool_calls[i];
        let ghost before = r@;
        let call = ToolCallRecord {
            id: c.id.clone(),
            tool_name: c.name.clone(),
            args: c.arguments.clone(),
            result: None,
            status: ToolCallStatus::Running,
            approval_reason: None,
        };
        assert(call@ == fresh_call(*c));
        r.push(StreamSegment::ToolCall(call));
        assert(segment_models(r@) =~= segment_models(before).push(calls[i as int]));
        assert(calls.take(i + 1) =~= calls.take(i as int).push(calls[i as int]));
        i = i + 1;
    }
    assert(calls.take(i as int) =~= calls);
    r
}

/// What the text that a tool returned says of its call.
pub fn status_of_result(content: &str) -> (r: ToolCallStatus)
    ensures
        r@ == returned_status(content@),
{
    let all = chars_of(content);
    let denied = chars_of("error: denied by user:");
    let failed = chars_of("error:");
    if matches_at(&all, &denied, 0) || same_text(content, "error: approval channel closed") {
        ToolCallStatus::Denied(content.to_owned())
    } else if matches_at(&all, &failed, 0) {
        ToolCallStatus::Failed(content.to_owned())
    } else {
        ToolCallStatus::Success
    }
}

fn is_waiting(s: &StreamSegment, name: &Option<String>) -> (r: bool)
    ensures
        r == waiting(s@, opt_text(*name)),
{
    match s {
        StreamSegment::ToolCall(c) => {
            if c.result.is_some() {
                false
            } else {
                match name {
                    Some(n) => same_text(c.tool_name.as_str(), n.as_str()),
                    None => true,
                }
            }
        },
        _ => false,
    }
}

fn find_waiting(s: &Vec<StreamSegment>, name: &Option<String>) -> (r: Option<usize>)
    ensures
        match r {
            Some(j) => j < s@.len() && first_waiting(segment_models(s@), opt_text(*name), 0) == Some(j as int)
                && s@[j as int] is ToolCall,
            None => first_waiting(segment_models(s@), opt_text(*name), 0) is None,
        },
{
    let mut j: usize = 0;
    while j < s.len()
        invariant
            j <= s@.len(),
            first_waiting(segment_models(s@), opt_text(*name), 0) == first_waiting(
                segment_models(s@),
                opt_text(*name),
                j as int,
            ),
        decreases s@.len() - j,
    {
        if is_waiting(&s[j], name) {
            return Some(j);
        }
        j = j + 1;
    }
    None
}

/// The call with what its tool returned.
fn answer(c: &ToolCallRecord, content: &str) -> (r: ToolCallRecord)
    ensures
        r@ == answered(c@, content@),
{
    ToolCallRecord {
        id: c.id.clone(),
        tool_name: c.tool_name.clone(),
        args: c.args.clone(),
        result: Some(content.to_owned()),
        status: status_of_result(content),
        approval_reason: c.approval_reason.clone(),
    }
}

/// Hands what a tool returned to the call that waits for it.
pub fn backfill_result(messages: &mut Vec<ChatMessage>, name: &Option<String>, content: &str)
    ensures
        message_models(final(messages)@) == backfilled(
            message_models(old(messages)@),
            opt_text(*name),
            content@,
            old(messages)@.len(),
        ),
{
    let ghost before = message_models(messages@);
    let mut n: usize = messages.len();
    while n > 0
        invariant
            n <= messages@.len(),
            before == message_models(messages@),
            backfilled(before, opt_text(*name), content@, messages@.len()) == backfilled(
                before,
                opt_text(*name),
                content@,
                n as nat,
            ),
            messages@ == old(messages)@,
        decreases n,
    {
        let k = n - 1;
        assert(before[k as int] == messages@[k as int]@);
        if messages[k].role == Role::Assistant {
            match find_waiting(&messages[k].segments, name) {
                Some(j) => {
                    let ghost was = messages@[k as int];
                    let mut m = messages.remove(k);
                    if let StreamSegment::ToolCall(c) = &m.segments[j] {
                        let done = answer(c, content);
                        m.segments.set(j, StreamSegment::ToolCall(done));
                    }
                    proof {
                        assert(segment_models(m.segments@) =~= with_answer(was@, j as int, content@).segments);
                        assert(m@ == with_answer(was@, j as int, content@));
                    }
                    messages.insert(k, m);
                    assert(message_models(messages@) =~= before.update(
                        k as int,
                        with_answer(was@, j as int, content@),
                    ));
                    return ;
                },
                None => {},
            }
        }
        n = k;
    }
}

/// Merges a stored message of the assistant into the message before it.
fn merge_into(prev: &mut ChatMessage, m: &StoredMessage, html: &str)
    ensures
        final(prev)@ == merged(old(prev)@, *m, html@),
{
    let mut more = segments_of(m);
    let ghost segs = more@;
    prev.segments.append(&mut more);
    assert(segment_models(prev.segments@) =~= segment_models(old(prev).segments@) + segment_models(segs));
    if let Some(t) = &m.content {
        if !t.as_str().is_empty() {
            prev.content = t.clone();
            prev.content_html = html.to_owned();
        }
    }
    if let Some(t) = &m.reasoning_content {
        if !t.as_str().is_empty() {
            prev.reasoning = t.clone();
        }
    }
}

/// Adds a stored message to the chat messages; `html` is its content and
/// `stamp` the time at which it was read.
pub fn add_stored(messages: &mut Vec<ChatMessage>, m: &StoredMessage, html: &str, stamp: &str)
    ensures
        message_models(final(messages)@) == after_stored(message_models(old(messages)@), *m, html@, stamp@),
{
    let ghost before = messages@;
    match m.role {
        StoredRole::User => {
            let msg = ChatMessage {
                role: Role::User,
                content: or_empty(&m.content),
                timestamp: stamp.to_owned(),
                reasoning: String::new(),
                segments: Vec::new(),
                content_html: html.to_owned(),
            };
            assert(segment_models(msg.segments@) =~= Seq::<SegmentModel>::empty());
            messages.push(msg);
            assert(message_models(messages@) =~= message_models(before).push(msg@));
        },
        StoredRole::Assistant => {
            let n = messages.len();
            if n > 0 && messages[n - 1].role == Role::Assistant {
                let mut prev = messages.remove(n - 1);
                merge_into(&mut prev, m, html);
                messages.push(prev);
                assert(message_models(messages@) =~= message_models(before).update(n - 1, prev@));
            } else {
                let msg = ChatMessage {
                    role: Role::Assistant,
                    content: or_empty(&m.content),
                    timestamp: stamp.to_owned(),
                    reasoning: or_empty(&m.reasoning_content),
                    segments: segments_of(m),
                    content_html: html.to_owned(),
                };
                messages.push(msg);
                assert(message_models(messages@) =~= message_models(before).push(msg@));
            }
        },
        StoredRole::Tool => {
            if m.tool_call_id.is_some() {
                if let Some(content) = &m.content {
                    backfill_result(messages, &m.tool_name, content.as_str());
                }
            }
        },
        StoredRole::System => {},
    }
}

/// The chat messages of stored messages, whose contents as HTML are `htmls` and
/// which were read at `stamps`.
pub fn load_messages_with(stored: &Vec<StoredMessage>, htmls: &Vec<String>, stamps: &Vec<String>) -> (r: Vec<ChatMessage>)
    requires
        htmls@.len() == stored@.len(),
        stamps@.len() == stored@.len(),
    ensures
        message_models(r@) == loaded(stored@, views(htmls@), views(stamps@), stored@.len()),
{
    let mut r: Vec<ChatMessage> = Vec::new();
    let mut i: usize = 0;
    assert(message_models(r@) =~= Seq::<MessageModel>::empty());
    while i < stored.len()
        invariant
            i <= stored@.len(),
            htmls@.len() == stored@.len(),
            stamps@.len() == stored@.len(),
            message_models(r@) == loaded(stored@, views(htmls@), views(stamps@), i as nat),
        decreases stored@.len() - i,
    {
        add_stored(&mut r, &stored[i], htmls[i].as_str(), stamps[i].as_str());
        i = i + 1;
    }
    r
}

/// The contents of stored messages as HTML.
pub open spec fn stored_htmls(stored: Seq<StoredMessage>) -> Seq<Seq<char>> {
    stored.map_values(|m: StoredMessage| markdown_html(text_or_empty(m.content)))
}

/// The chat messages of stored messages, each stamped with the time at which it
/// was read.
pub fn load_messages(stored: &Vec<StoredMessage>) -> (r: Vec<ChatMessage>)
    ensures
        exists|stamps: Seq<Seq<char>>|
            stamps.len() == stored@.len() && (forall|i: int| 0 <= i < stamps.len() ==> clock_text(#[trigger] stamps[i]))
                && message_models(r@) == #[trigger] loaded(stored@, stored_htmls(stored@), stamps, stored@.len()),
{
    let mut htmls: Vec<String> = Vec::new();
    let mut stamps: Vec<String> = Vec::new();
    let mut i: usize = 0;
    while i < stored.len()
        invariant
            i <= stored@.len(),
            htmls@.len() == i,
            stamps@.len() == i,
            views(htmls@) == stored_htmls(stored@).take(i as int),
            forall|k: int| 0 <= k < i ==> clock_text(#[trigger] stamps@[k]@),
        decreases stored@.len() - i,
    {
        let text = or_empty(&stored[i].content);
        let ghost before = htmls@;
        htmls.push(markdown_to_html(text.as_str()));
        assert(views(htmls@) =~= views(before).push(stored_htmls(stored@)[i as int]));
        assert(stored_htmls(stored@).take(i + 1) =~= stored_htmls(stored@).take(i as int).push(
            stored_htmls(stored@)[i as int],
        ));
        stamps.push(local_clock());
        i = i + 1;
    }
    assert(stored_htmls(stored@).take(i as int) =~= stored_htmls(stored@));
    let r = load_messages_with(stored, &htmls, &stamps);
    assert(message_models(r@) == loaded(stored@, stored_htmls(stored@), views(stamps@), stored@.len()));
    r
}

proof fn lemma_first_waiting(s: Seq<SegmentModel>, name: Option<Seq<char>>, from: int)
    requires
        0 <= from,
    ensures
        match first_waiting(s, name, from) {
            Some(j) => from <= j < s.len() && waiting(s[j], name) && forall|k: int|
                from <= k < j ==> !waiting(#[trigger] s[k], name),
            None => forall|k: int| from <= k < s.len() ==> !waiting(#[trigger] s[k], name),
        },
    decreases s.len() - from,
{
    if from < s.len() && !waiting(s[from], name) {
        lemma_first_waiting(s, name, from + 1);
    }
}

proof fn lemma_backfilled(s: Seq<MessageModel>, name: Option<Seq<char>>, content: Seq<char>, n: nat)
    requires
        n <= s.len(),
    ensures
        backfilled(s, name, content, n).len() == s.len(),
        forall|i: int|
            0 <= i < s.len() ==> (#[trigger] backfilled(s, name, content, n)[i]).role == s[i].role && backfilled(
                s,
                name,
                content,
                n,
            )[i].content == s[i].content && backfilled(s, name, content, n)[i].segments.len() == s[i].segments.len(),
        forall|i: int, j: int|
            0 <= i < s.len() && 0 <= j < s[i].segments.len() && !waiting(s[i].segments[j], None)
                ==> #[trigger] backfilled(s, name, content, n)[i].segments[j] == s[i].segments[j],
        forall|i: int| 0 <= i < s.len() && s[i].role != Role::Assistant ==> #[trigger] backfilled(s, name, content, n)[i] == s[i],
    decreases n,
{
    if n > 0 {
        let m = s[n - 1];
        lemma_first_waiting(m.segments, name, 0);
        if !(m.role == Role::Assistant && first_waiting(m.segments, name, 0) is Some) {
            lemma_backfilled(s, name, content, (n - 1) as nat);
        }
    }
}

/// Two messages of the assistant never stand next to each other: they are
/// merged.
pub proof fn assistant_messages_are_merged(
    stored: Seq<StoredMessage>,
    htmls: Seq<Seq<char>>,
    stamps: Seq<Seq<char>>,
    n: nat,
    i: int,
)
    requires
        n <= stored.len(),
        0 <= i < loaded(stored, htmls, stamps, n).len() - 1,
    ensures
        !(loaded(stored, htmls, stamps, n)[i].role == Role::Assistant && loaded(stored, htmls, stamps, n)[i + 1].role
            == Role::Assistant),
    decreases n,
{
    if n > 0 {
        let s = loaded(stored, htmls, stamps, (n - 1) as nat);
        let m = stored[n - 1];
        if m.role == StoredRole::Tool {
            lemma_backfilled(s, opt_text(m.tool_name), text_or_empty(m.content), s.len());
        }
        if i < s.len() - 1 {
            assistant_messages_are_merged(stored, htmls, stamps, (n - 1) as nat, i);
        }
    }
}

/// What the user said, in order, in the first `n` chat messages.
pub open spec fn user_texts(s: Seq<MessageModel>, n: nat) -> Seq<Seq<char>>
    decreases n,
{
    if n == 0 {
        Seq::empty()
    } else if s[n - 1].role == Role::User {
        user_texts(s, (n - 1) as nat).push(s[n - 1].content)
    } else {
        user_texts(s, (n - 1) as nat)
    }
}

/// What the user said, in order, in the first `n` stored messages.
pub open spec fn stored_user_texts(stored: Seq<StoredMessage>, n: nat) -> Seq<Seq<char>>
    decreases n,
{
    if n == 0 {
        Seq::empty()
    } else if stored[n - 1].role == StoredRole::User {
        stored_user_texts(stored, (n - 1) as nat).push(text_or_empty(stored[n - 1].content))
    } else {
        stored_user_texts(stored, (n - 1) as nat)
    }
}

proof fn lemma_user_texts_agree(a: Seq<MessageModel>, b: Seq<MessageModel>, n: nat)
    requires
        n <= a.len(),
        n <= b.len(),
        forall|i: int|
            0 <= i < n ==> (#[trigger] a[i]).role == b[i].role && (a[i].role == Role::User ==> a[i].content == b[i].content),
    ensures
        user_texts(a, n) == user_texts(b, n),
    decreases n,
{
    if n > 0 {
        lemma_user_texts_agree(a, b, (n - 1) as nat);
        assert(a[n - 1].role == b[n - 1].role);
    }
}

/// Loading keeps everything that the user said, in order.
pub proof fn loading_keeps_what_the_user_said(
    stored: Seq<StoredMessage>,
    htmls: Seq<Seq<char>>,
    stamps: Seq<Seq<char>>,
    n: nat,
)
    requires
        n <= stored.len(),
    ensures
        user_texts(loaded(stored, htmls, stamps, n), loaded(stored, htmls, stamps, n).len()) == stored_user_texts(
            stored,
            n,
        ),
    decreases n,
{
    if n > 0 {
        let s = loaded(stored, htmls, stamps, (n - 1) as nat);
        let t = loaded(stored, htmls, stamps, n);
        let m = stored[n - 1];
        loading_keeps_what_the_user_said(stored, htmls, stamps, (n - 1) as nat);
        if m.role == StoredRole::Tool {
            lemma_backfilled(s, opt_text(m.tool_name), text_or_empty(m.content), s.len());
        }
        lemma_user_texts_agree(t, s, s.len());
    }
}

/// A call that has got its answer keeps it, whatever is loaded after it.
pub proof fn answers_stay(s: Seq<MessageModel>, m: StoredMessage, html: Seq<char>, stamp: Seq<char>, i: int, j: int)
    requires
        0 <= i < s.len(),
        0 <= j < s[i].segments.len(),
        s[i].segments[j] is ToolCall,
        s[i].segments[j]->ToolCall_0.result is Some,
    ensures
        i < after_stored(s, m, html, stamp).len(),
        j < after_stored(s, m, html, stamp)[i].segments.len(),
        after_stored(s, m, html, stamp)[i].segments[j] == s[i].segments[j],
{
    if m.role == StoredRole::Tool {
        lemma_backfilled(s, opt_text(m.tool_name), text_or_empty(m.content), s.len());
        let t = backfilled(s, opt_text(m.tool_name), text_or_empty(m.content), s.len());
        assert(!waiting(s[i].segments[j], None));
        assert(t[i].segments[j] == s[i].segments[j]);
    }
}

// ── that nothing is lost ──

/// A segment as it was stored: of a call its id, its tool and its arguments.
pub open spec fn as_stored(s: SegmentModel) -> SegmentModel {
    match s {
        SegmentModel::ToolCall(c) => SegmentModel::ToolCall(
            CallModel { result: None, status: StatusModel::Running, approval_reason: None, ..c },
        ),
        _ => s,
    }
}

/// The segments of some chat messages, one after the other, as they were stored.
pub open spec fn all_segments(s: Seq<MessageModel>) -> Seq<SegmentModel>
    decreases s.len(),
{
    if s.len() == 0 {
        Seq::empty()
    } else {
        all_segments(s.drop_last()) + s.last().segments.map_values(|x: SegmentModel| as_stored(x))
    }
}

/// What the assistant did in the first `n` stored messages: in each what it thought, then
/// what it said, then the calls that it made.
pub open spec fn deeds(stored: Seq<StoredMessage>, n: nat) -> Seq<SegmentModel>
    decreases n,
{
    if n == 0 {
        Seq::empty()
    } else {
        let m = stored[n - 1];
        let before = deeds(stored, (n - 1) as nat);
        if m.role != StoredRole::Assistant {
            before
        } else {
            before + (if m.reasoning_content is Some && m.reasoning_content->0@.len() > 0 {
                seq![SegmentModel::Reasoning(m.reasoning_content->0@)]
            } else {
                Seq::empty()
            }) + (if m.content is Some && m.content->0@.len() > 0 {
                seq![SegmentModel::Text(m.content->0@)]
            } else {
                Seq::empty()
            }) + Seq::new(
                m.tool_calls@.len(),
                |i: int|
                    SegmentModel::ToolCall(
                        CallModel {
                            id: m.tool_calls@[i].id@,
                            tool_name: m.tool_calls@[i].name@,
                            args: m.tool_calls@[i].arguments@,
                            result: None,
                            status: StatusModel::Running,
                            approval_reason: None,
                        },
                    ),
            )
        }
    }
}

proof fn lemma_segments_agree(a: Seq<MessageModel>, b: Seq<MessageModel>)
    requires
        a.len() == b.len(),
        forall|i: int|
            0 <= i < a.len() ==> (#[trigger] a[i]).segments.map_values(|x: SegmentModel| as_stored(x)) == b[i].segments.map_values(
                |x: SegmentModel| as_stored(x),
            ),
    ensures
        all_segments(a) == all_segments(b),
    decreases a.len(),
{
    if a.len() > 0 {
        assert forall|i: int| 0 <= i < a.drop_last().len() implies (#[trigger] a.drop_last()[i]).segments.map_values(
            |x: SegmentModel| as_stored(x),
        ) == b.drop_last()[i].segments.map_values(|x: SegmentModel| as_stored(x)) by {
            assert(a.drop_last()[i] == a[i] && b.drop_last()[i] == b[i]);
        }
        lemma_segments_agree(a.drop_last(), b.drop_last());
        assert(a[a.len() - 1].segments.map_values(|x: SegmentModel| as_stored(x)) == b[a.len() - 1].segments.map_values(
            |x: SegmentModel| as_stored(x),
        ));
    }
}

proof fn lemma_backfilled_stored(s: Seq<MessageModel>, name: Option<Seq<char>>, content: Seq<char>, n: nat)
    requires
        n <= s.len(),
    ensures
        all_segments(backfilled(s, name, content, n)) == all_segments(s),
    decreases n,
{
    if n > 0 {
        let m = s[n - 1];
        let at = first_waiting(m.segments, name, 0);
        lemma_first_waiting(m.segments, name, 0);
        if m.role == Role::Assistant && at is Some {
            let t = backfilled(s, name, content, n);
            let f = |x: SegmentModel| as_stored(x);
            assert forall|i: int| 0 <= i < t.len() implies (#[trigger] t[i]).segments.map_values(f) == s[i].segments.map_values(f) by {
                if i == n - 1 {
                    let u = with_answer(m, at->0, content).segments;
                    assert(u.map_values(f) =~= m.segments.map_values(f));
                }
            }
            lemma_segments_agree(t, s);
        } else {
            lemma_backfilled_stored(s, name, content, (n - 1) as nat);
        }
    }
}

proof fn lemma_fresh_segments(m: StoredMessage)
    ensures
        assistant_segments(m).map_values(|x: SegmentModel| as_stored(x)) == assistant_segments(m),
{
    let s = assistant_segments(m);
    assert(s.map_values(|x: SegmentModel| as_stored(x)) =~= s);
}

/// Loading keeps everything that the assistant thought, said and did, in order.
pub proof fn loading_keeps_what_the_assistant_did(
    stored: Seq<StoredMessage>,
    htmls: Seq<Seq<char>>,
    stamps: Seq<Seq<char>>,
    n: nat,
)
    requires
        n <= stored.len(),
    ensures
        all_segments(loaded(stored, htmls, stamps, n)) == deeds(stored, n),
    decreases n,
{
    if n > 0 {
        let s = loaded(stored, htmls, stamps, (n - 1) as nat);
        let t = loaded(stored, htmls, stamps, n);
        let m = stored[n - 1];
        let f = |x: SegmentModel| as_stored(x);
        loading_keeps_what_the_assistant_did(stored, htmls, stamps, (n - 1) as nat);
        let own = assistant_segments(m);
        lemma_fresh_segments(m);
        match m.role {
            StoredRole::User => {
                assert(t.drop_last() =~= s);
                assert(t.last().segments.map_values(f) =~= Seq::<SegmentModel>::empty());
                assert(all_segments(t) =~= all_segments(s));
            },
            StoredRole::Assistant => {
                let calls = Seq::new(
                    m.tool_calls@.len(),
                    |i: int|
                        SegmentModel::ToolCall(
                            CallModel {
                                id: m.tool_calls@[i].id@,
                                tool_name: m.tool_calls@[i].name@,
                                args: m.tool_calls@[i].arguments@,
                                result: None,
                                status: StatusModel::Running,
                                approval_reason: None,
                            },
                        ),
                );
                assert(m.tool_calls@.map_values(|c: StoredCall| SegmentModel::ToolCall(fresh_call(c))) =~= calls);
                assert(deeds(stored, n) =~= all_segments(s) + own);
                if s.len() > 0 && s.last().role == Role::Assistant {
                    assert(t.drop_last() =~= s.drop_last());
                    assert(t.last().segments == s.last().segments + own);
                    assert((s.last().segments + own).map_values(f) =~= s.last().segments.map_values(f) + own.map_values(f));
                    assert(all_segments(t) =~= all_segments(s.drop_last()) + s.last().segments.map_values(f) + own);
                } else {
                    assert(t.drop_last() =~= s);
                    assert(t.last().segments == own);
                }
            },
            StoredRole::Tool => {
                if m.tool_call_id is Some && m.content is Some {
                    lemma_backfilled_stored(s, opt_text(m.tool_name), text_or_empty(m.content), s.len());
                }
            },
            StoredRole::System => {},
        }
    }
}

/// What a tool returned goes to the call that waits for it: the first call without a result,
/// and with the name of the tool where it is given, in the last message of the assistant that
/// has one. Nothing else changes.
pub proof fn results_go_to_the_call_that_waits(
    s: Seq<MessageModel>,
    m: StoredMessage,
    html: Seq<char>,
    stamp: Seq<char>,
    i: int,
    j: int,
)
    requires
        m.role == StoredRole::Tool,
        m.tool_call_id is Some,
        m.content is Some,
        0 <= i < s.len(),
        s[i].role == Role::Assistant,
        0 <= j < s[i].segments.len(),
        awaits_result(s[i].segments[j], m),
        forall|k: int| 0 <= k < j ==> !awaits_result(#[trigger] s[i].segments[k], m),
        forall|h: int, k: int|
            i < h < s.len() && s[h].role == Role::Assistant && 0 <= k < s[h].segments.len() ==> !awaits_result(
                #[trigger] s[h].segments[k],
                m,
            ),
    ensures
        ({
            let t = after_stored(s, m, html, stamp);
            let was = s[i].segments[j]->ToolCall_0;
            &&& t.len() == s.len()
            &&& forall|h: int| 0 <= h < s.len() && h != i ==> #[trigger] t[h] == s[h]
            &&& t[i] == (MessageModel { segments: t[i].segments, ..s[i] })
            &&& t[i].segments.len() == s[i].segments.len()
            &&& forall|k: int| 0 <= k < s[i].segments.len() && k != j ==> #[trigger] t[i].segments[k] == s[i].segments[k]
            &&& t[i].segments[j] is ToolCall
            &&& t[i].segments[j]->ToolCall_0 == (CallModel {
                result: Some(m.content->0@),
                status: t[i].segments[j]->ToolCall_0.status,
                ..was
            })
            &&& t[i].segments[j]->ToolCall_0.status == returned_status(m.content->0@)
        }),
{
    lemma_goes_to(s, opt_text(m.tool_name), m.content->0@, s.len(), i, j, m);
}

/// The segment is a call without a result, of the tool that is named where one is.
pub open spec fn awaits_result(s: SegmentModel, m: StoredMessage) -> bool {
    s is ToolCall && s->ToolCall_0.result is None && (m.tool_name is None || m.tool_name->0@ == s->ToolCall_0.tool_name)
}

proof fn lemma_goes_to(s: Seq<MessageModel>, name: Option<Seq<char>>, content: Seq<char>, n: nat, i: int, j: int, m: StoredMessage)
    requires
        name == opt_text(m.tool_name),
        0 <= i < n <= s.len(),
        s[i].role == Role::Assistant,
        0 <= j < s[i].segments.len(),
        awaits_result(s[i].segments[j], m),
        forall|k: int| 0 <= k < j ==> !awaits_result(#[trigger] s[i].segments[k], m),
        forall|h: int, k: int|
            i < h < s.len() && s[h].role == Role::Assistant && 0 <= k < s[h].segments.len() ==> !awaits_result(
                #[trigger] s[h].segments[k],
                m,
            ),
    ensures
        backfilled(s, name, content, n) == s.update(i, with_answer(s[i], j, content)),
    decreases n,
{
    let h = n - 1;
    lemma_first_waiting(s[h].segments, name, 0);
    assert forall|k: int| 0 <= k < s[h].segments.len() implies waiting(#[trigger] s[h].segments[k], name) == awaits_result(
        s[h].segments[k],
        m,
    ) by {}
    if h > i {
        if s[h].role == Role::Assistant && first_waiting(s[h].segments, name, 0) is Some {
            let k = first_waiting(s[h].segments, name, 0)->0;
            assert(!awaits_result(s[h].segments[k], m));
        }
        lemma_goes_to(s, name, content, (n - 1) as nat, i, j, m);
    } else {
        let k = first_waiting(s[i].segments, name, 0);
        if k is None {
            assert(!waiting(s[i].segments[j], name));
        } else if k->0 < j {
            assert(!awaits_result(s[i].segments[k->0], m));
        } else if j < k->0 {
            assert(!waiting(s[i].segments[j], name));
        }
    }
}

/// What a tool returned tells how the call went: a denial of the user or a closed channel is
/// a denial, anything else that starts with `error:` a failure, the rest a success.
pub proof fn a_result_tells_how_the_call_went(content: Seq<char>, rest: Seq<char>)
    ensures
        content == "error: denied by user:"@ + rest ==> returned_status(content) == StatusModel::Denied(content),
        content == "error: approval channel closed"@ ==> returned_status(content) == StatusModel::Denied(content),
        returned_status(content) is Denied ==> stands_at(content, "error: denied by user:"@, 0) || content
            == "error: approval channel closed"@,
        content == "error:"@ + rest && !(returned_status(content) is Denied) ==> returned_status(content)
            == StatusModel::Failed(content),
        !stands_at(content, "error:"@, 0) && !(returned_status(content) is Denied) ==> returned_status(content)
            == StatusModel::Success,
{
    if content == "error: denied by user:"@ + rest {
        assert(content.subrange(0, "error: denied by user:"@.len() as int) =~= "error: denied by user:"@);
    }
    if content == "error:"@ + rest {
        assert(content.subrange(0, "error:"@.len() as int) =~= "error:"@);
    }
}

/// A further message of the assistant goes on with the one before it: its segments are put
/// behind, and what it says or thinks, if anything, is what the message then says or thinks.
pub proof fn the_latest_word_counts(s: Seq<MessageModel>, m: StoredMessage, html: Seq<char>, stamp: Seq<char>)
    requires
        m.role == StoredRole::Assistant,
    ensures
        ({
            let t = after_stored(s, m, html, stamp);
            let goes_on = s.len() > 0 && s.last().role == Role::Assistant;
            &&& t.len() == if goes_on {
                s.len()
            } else {
                s.len() + 1
            }
            &&& t.last().role == Role::Assistant
            &&& forall|i: int| 0 <= i < t.len() - 1 ==> #[trigger] t[i] == s[i]
            &&& m.content is Some && m.content->0@.len() > 0 ==> t.last().content == m.content->0@ && t.last().html == html
            &&& m.reasoning_content is Some && m.reasoning_content->0@.len() > 0 ==> t.last().reasoning == m.reasoning_content->0@
            &&& goes_on && !(m.content is Some && m.content->0@.len() > 0) ==> t.last().content == s.last().content && t.last().html
                == s.last().html
            &&& goes_on && !(m.reasoning_content is Some && m.reasoning_content->0@.len() > 0) ==> t.last().reasoning
                == s.last().reasoning
            &&& goes_on ==> t.last().timestamp == s.last().timestamp
            &&& !goes_on ==> t.last().timestamp == stamp
        }),
{
}

} // verus!
