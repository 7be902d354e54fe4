//! The conversation beside a book: which one is on show, and what is sent in it.
use crate::books::{warn, warned};
use crate::dropdown::DropdownOption;
use crate::error::{clock_text, local_clock};
use crate::markdown::{markdown_html, markdown_to_html};
use crate::model::{ChatMessage, ConversationRuntime, UiMessage};
use crate::sending::{runtime_or_fresh, user_message, user_message_added, user_message_at};
use crate::text::{blank, is_blank, same_text, trim, trimmed, trimmed_is_empty_iff_blank};
use crate::workspace::{entry, opened_runtime, ConversationData, Workspace};
use vstd::prelude::*;

verus! {

/// A conversation as it is stored.
#[derive(Debug)]
pub struct ChatRow {
    pub id: String,
    pub project_id: String,
    pub title: String,
    pub agent_config_id: Option<String>,
}

/// The conversations beside a book. They are those of one study plan.
#[derive(Debug)]
pub struct BookChat {
    pub source_project: String,
    pub conversations: Vec<ChatRow>,
    pub shown: bool,
    /// The conversation on show and the runs in it.
    pub desk: Workspace,
}

/// What is to be done next.
#[derive(Debug)]
pub enum ChatStep {
    /// Open the conversation with this id.
    Open(String),
    /// Make a conversation.
    Create,
}

/// The first conversation, or a new one where there is none.
pub open spec fn first_or_new(rows: Seq<ChatRow>) -> ChatStep {
    if rows.len() > 0 {
        ChatStep::Open(rows[0].id)
    } else {
        ChatStep::Create
    }
}

/// The rows hold one with this id.
pub open spec fn has_row(rows: Seq<ChatRow>, id: Seq<char>) -> bool {
    exists|i: int| 0 <= i < rows.len() && (#[trigger] rows[i]).id@ == id
}

/// The first `n` rows without those that have this id.
pub open spec fn other_rows(rows: Seq<ChatRow>, id: Seq<char>, n: nat) -> Seq<ChatRow>
    decreases n,
{
    if n == 0 {
        Seq::empty()
    } else if rows[n - 1].id@ == id {
        other_rows(rows, id, (n - 1) as nat)
    } else {
        other_rows(rows, id, (n - 1) as nat).push(rows[n - 1])
    }
}

fn contains_row(rows: &Vec<ChatRow>, id: &str) -> (r: bool)
    ensures
        r == has_row(rows@, id@),
{
    let mut i: usize = 0;
    while i < rows.len()
        invariant
            i <= rows@.len(),
            forall|k: int| 0 <= k < i ==> (#[trigger] rows@[k]).id@ != id@,
        decreases rows@.len() - i,
    {
        if same_text(rows[i].id.as_str(), id) {
            assert(rows@[i as int].id@ == id@);
            return true;
        }
        i = i + 1;
    }
    false
}

fn drop_row(all: Vec<ChatRow>, id: &str) -> (r: Vec<ChatRow>)
    ensures
        r@ == other_rows(all@, id@, all@.len()),
{
    let mut rest = all;
    let ghost s = rest@;
    let n = rest.len();
    let mut r: Vec<ChatRow> = Vec::new();
    let mut i: usize = 0;
    while i < n
        invariant
            i <= n == s.len(),
            rest@ == s.skip(i as int),
            r@ == other_rows(s, id@, i as nat),
        decreases n - i,
    {
        let c = rest.remove(0);
        assert(rest@ =~= s.skip(i + 1));
        if !same_text(c.id.as_str(), id) {
            r.push(c);
        }
        i = i + 1;
    }
    r
}

/// The title of a row that is retitled where it first stands.
pub open spec fn retitled(rows: Seq<ChatRow>, after: Seq<ChatRow>, id: Seq<char>, title: String) -> bool {
    match row_place(rows, id, 0) {
        Some(i) => after == rows.update(i, (ChatRow { title, ..rows[i] })),
        None => after == rows,
    }
}

/// The first row from `from` on that has this id.
pub open spec fn row_place(rows: Seq<ChatRow>, id: Seq<char>, from: int) -> Option<int>
    decreases rows.len() - from,
{
    if from < 0 || from >= rows.len() {
        None
    } else if rows[from].id@ == id {
        Some(from)
    } else {
        row_place(rows, id, from + 1)
    }
}

fn retitle(rows: &mut Vec<ChatRow>, id: &str, title: String)
    ensures
        retitled(old(rows)@, final(rows)@, id@, title),
{
    let mut i: usize = 0;
    while i < rows.len()
        invariant
            i <= rows@.len(),
            rows@ == old(rows)@,
            row_place(old(rows)@, id@, 0) == row_place(old(rows)@, id@, i as int),
        decreases rows@.len() - i,
    {
        if same_text(rows[i].id.as_str(), id) {
            let mut row = rows.remove(i);
            row.title = title;
            rows.insert(i, row);
            assert(rows@ =~= old(rows)@.update(i as int, row));
            return ;
        }
        i = i + 1;
    }
}

/// The agent of a conversation; empty where it has none.
pub open spec fn row_config(row: ChatRow) -> Seq<char> {
    match row.agent_config_id {
        Some(id) => id@,
        None => Seq::empty(),
    }
}

/// What became of a text that the user sent.
#[derive(Debug)]
pub enum ChatSend {
    /// There was none.
    Nothing,
    /// No conversation is on show yet.
    NotReady,
    /// The run that answers it may begin, with this text.
    Run(String),
}

impl BookChat {
    /// `self` is `before` but for what is on the desk.
    pub open spec fn same_but_desk(self, before: BookChat) -> bool {
        self == (BookChat { desk: self.desk, ..before })
    }

    /// The conversations were read. Returns what is to be done next.
    pub fn rows_loaded(&mut self, rows: Vec<ChatRow>) -> (r: ChatStep)
        ensures
            *final(self) == (BookChat { conversations: rows, ..*old(self) }),
            r == first_or_new(rows@),
    {
        let step = if rows.len() > 0 {
            ChatStep::Open(rows[0].id.clone())
        } else {
            ChatStep::Create
        };
        self.conversations = rows;
        step
    }

    /// Whether a conversation may be shown here: it has to be one of the study
    /// plan.
    pub fn may_open(&self, row: &ChatRow) -> (r: bool)
        ensures
            r == (row.project_id@ == self.source_project@),
    {
        same_text(row.project_id.as_str(), self.source_project.as_str())
    }

    /// The desk shows the conversation of `row`, opened with `messages` unless it
    /// was open already.
    pub open spec fn desk_shows(self, before: BookChat, row: ChatRow, messages: Seq<ChatMessage>, data: ConversationData) -> bool {
        let d = self.desk;
        let was = before.desk;
        &&& d.active_conversation_id == row.id
        &&& d.selected_agent_config_id@ == row_config(row)
        &&& if was.runtimes@.dom().contains(row.id@) {
            d.runtimes == was.runtimes
        } else {
            &&& d.runtimes@.dom().contains(row.id@)
            &&& d.runtimes@ == was.runtimes@.insert(row.id@, d.runtimes@[row.id@])
            &&& opened_runtime(d.runtimes@[row.id@], messages, entry(was.streaming_states@, row.id@), data)
        }
        &&& d == (Workspace {
            active_conversation_id: d.active_conversation_id,
            selected_agent_config_id: d.selected_agent_config_id,
            runtimes: d.runtimes,
            ..was
        })
    }

    /// Shows a conversation, with the messages that were read for it. Nothing
    /// happens for a conversation of another study plan.
    pub fn show_with(&mut self, row: &ChatRow, messages: Vec<ChatMessage>, data: &ConversationData)
        ensures
            row.project_id@ != old(self).source_project@ ==> *final(self) == *old(self),
            row.project_id@ == old(self).source_project@ ==> final(self).same_but_desk(*old(self))
                && final(self).desk_shows(*old(self), *row, messages@, *data),
    {
        if !self.may_open(row) {
            return ;
        }
        self.desk.ensure_conv_loaded_with(row.id.as_str(), messages, data);
        self.desk.active_conversation_id = row.id.clone();
        self.desk.selected_agent_config_id = match &row.agent_config_id {
            Some(id) => id.clone(),
            None => String::new(),
        };
    }

    /// A conversation that was made, or that was found without being in the list,
    /// stands at its end.
    pub fn row_added(&mut self, row: ChatRow)
        ensures
            *final(self) == (BookChat { conversations: final(self).conversations, ..*old(self) }),
            final(self).conversations@ == if has_row(old(self).conversations@, row.id@) {
                old(self).conversations@
            } else {
                old(self).conversations@.push(row)
            },
    {
        if !contains_row(&self.conversations, row.id.as_str()) {
            self.conversations.push(row);
        }
    }

    /// Deletes the conversation on show. Returns the token that cancels its run,
    /// and what is to be done next; nothing happens where none is on show.
    pub fn delete_active(&mut self) -> (r: Option<(Option<u64>, ChatStep)>)
        ensures
            ({
                let id = old(self).desk.active_conversation_id@;
                let was = old(self).desk;
                if id.len() == 0 {
                    r is None && *final(self) == *old(self)
                } else {
                    &&& r is Some
                    &&& (r->0).0 == if was.runtimes@.dom().contains(id) {
                        was.runtimes@[id].cancel_token
                    } else {
                        None
                    }
                    &&& final(self).desk.runtimes@ == was.runtimes@.remove(id)
                    &&& final(self).desk.approval_tx@ == was.approval_tx@.remove(id)
                    &&& final(self).desk == (Workspace {
                        runtimes: final(self).desk.runtimes,
                        approval_tx: final(self).desk.approval_tx,
                        ..was
                    })
                    &&& final(self).conversations@ == other_rows(
                        old(self).conversations@,
                        id,
                        old(self).conversations@.len(),
                    )
                    &&& (r->0).1 == first_or_new(final(self).conversations@)
                    &&& *final(self) == (BookChat {
                        conversations: final(self).conversations,
                        desk: final(self).desk,
                        ..*old(self)
                    })
                }
            }),
    {
        let id = self.desk.active_conversation_id.clone();
        if id.as_str().is_empty() {
            return None;
        }
        let token = self.desk.cancel_request();
        let _ = self.desk.runtimes.remove(id.as_str());
        let _ = self.desk.approval_tx.remove(id.as_str());
        let mut taken: Vec<ChatRow> = Vec::new();
        std::mem::swap(&mut self.conversations, &mut taken);
        self.conversations = drop_row(taken, id.as_str());
        let step = if self.conversations.len() > 0 {
            ChatStep::Open(self.conversations[0].id.clone())
        } else {
            ChatStep::Create
        };
        Some((token, step))
    }

    /// `self` is `before` after the user's message `m` went out in the
    /// conversation on show, whose run `token` cancels.
    pub open spec fn sent(self, before: BookChat, m: ChatMessage, token: u64) -> bool {
        let id = before.desk.active_conversation_id@;
        let d = self.desk;
        &&& d.runtimes@.dom().contains(id)
        &&& d.runtimes@ == before.desk.runtimes@.insert(id, d.runtimes@[id])
        &&& exists|was: ConversationRuntime| #[trigger]
            runtime_or_fresh(before.desk, id, was) && user_message_added(was.messages@, d.runtimes@[id].messages@, m)
                && d.runtimes@[id] == (ConversationRuntime {
                messages: d.runtimes@[id].messages,
                tick: (was.tick + 1) as u64,
                cancel_token: Some(token),
                ..was
            })
        &&& d == (Workspace { runtimes: d.runtimes, is_streaming: true, ..before.desk })
    }

    /// The user sends a text; `html` is it as HTML and `stamp` the time. `first`
    /// holds the conversation's title where this is its first message.
    pub fn send_with(&mut self, input: &str, html: String, stamp: String, first: Option<String>, token: u64) -> (r: ChatSend)
        requires
            ({
                let id = old(self).desk.active_conversation_id@;
                old(self).desk.runtimes@.dom().contains(id) ==> old(self).desk.runtimes@[id].tick < u64::MAX
            }),
        ensures
            ({
                let id = old(self).desk.active_conversation_id@;
                if blank(input@) {
                    r is Nothing && *final(self) == *old(self)
                } else if id.len() == 0 {
                    &&& r is NotReady
                    &&& warned(
                        old(self).desk.error_signal,
                        final(self).desk.error_signal,
                        "book-chat-not-ready"@,
                        "书聊尚未初始化"@,
                        "请稍候再发送。"@,
                    )
                    &&& *final(self) == (BookChat {
                        desk: (Workspace {
                            error_signal: final(self).desk.error_signal,
                            ..old(self).desk
                        }),
                        ..*old(self)
                    })
                } else {
                    &&& r is Run
                    &&& r->Run_0@ == trimmed(input@)
                    &&& exists|m: ChatMessage|
                        m@ == user_message(trimmed(input@), html@, stamp@) && #[trigger] final(self).sent(
                            *old(self),
                            m,
                            token,
                        )
                    &&& match first {
                        Some(title) => retitled(
                            old(self).conversations@,
                            final(self).conversations@,
                            id,
                            title,
                        ),
                        None => final(self).conversations == old(self).conversations,
                    }
                    &&& *final(self) == (BookChat {
                        conversations: final(self).conversations,
                        desk: final(self).desk,
                        ..*old(self)
                    })
                }
            }),
    {
        let text = trim(input);
        proof {
            trimmed_is_empty_iff_blank(input@);
        }
        if text.as_str().is_empty() {
            return ChatSend::Nothing;
        }
        let id = self.desk.active_conversation_id.clone();
        if id.as_str().is_empty() {
            warn(
                &mut self.desk.error_signal,
                "book-chat-not-ready",
                "书聊尚未初始化",
                "请稍候再发送。",
            );
            return ChatSend::NotReady;
        }
        if let Some(title) = first {
            retitle(&mut self.conversations, id.as_str(), title);
        }
        let m = user_message_at(text.as_str(), html, stamp);
        let ghost runtimes = self.desk.runtimes@;
        let ghost key = id@;
        let mut rt = self.desk.take_runtime(id.as_str());
        assert(runtime_or_fresh(old(self).desk, key, rt));
        rt.messages.push(UiMessage::Static(m));
        rt.tick = rt.tick + 1;
        rt.cancel_token = Some(token);
        assert(runtimes.remove(key).insert(key, rt) =~= runtimes.insert(key, rt));
        self.desk.runtimes.insert(id, rt);
        self.desk.is_streaming = true;
        assert(self.sent(*old(self), m, token));
        ChatSend::Run(text)
    }

    /// The user sends a text now. `math` is the text as HTML with its formulas
    /// set, which takes the place of its plain HTML.
    pub fn send(&mut self, input: &str, math: Option<String>, first: Option<String>, token: u64) -> (r: ChatSend)
        requires
            ({
                let id = old(self).desk.active_conversation_id@;
                old(self).desk.runtimes@.dom().contains(id) ==> old(self).desk.runtimes@[id].tick < u64::MAX
            }),
        ensures
            r is Nothing <==> blank(input@),
            r is Nothing ==> *final(self) == *old(self),
            r is NotReady <==> !blank(input@) && old(self).desk.active_conversation_id@.len() == 0,
            r is NotReady ==> {
                &&& warned(
                    old(self).desk.error_signal,
                    final(self).desk.error_signal,
                    "book-chat-not-ready"@,
                    "书聊尚未初始化"@,
                    "请稍候再发送。"@,
                )
                &&& *final(self) == (BookChat {
                    desk: (Workspace { error_signal: final(self).desk.error_signal, ..old(self).desk }),
                    ..*old(self)
                })
            },
            r is Run ==> {
                &&& match first {
                    Some(title) => retitled(
                        old(self).conversations@,
                        final(self).conversations@,
                        old(self).desk.active_conversation_id@,
                        title,
                    ),
                    None => final(self).conversations == old(self).conversations,
                }
                &&& *final(self) == (BookChat {
                    conversations: final(self).conversations,
                    desk: final(self).desk,
                    ..*old(self)
                })
                &&& r->Run_0@ == trimmed(input@)
                &&& exists|m: ChatMessage|
                    clock_text(m.timestamp@) && m@ == user_message(
                        trimmed(input@),
                        match math {
                            Some(h) => h@,
                            None => markdown_html(trimmed(input@)),
                        },
                        m.timestamp@,
                    ) && #[trigger] final(self).sent(*old(self), m, token)
            },
    {
        let html = match math {
            Some(h) => h,
            None => {
                let text = trim(input);
                markdown_to_html(text.as_str())
            },
        };
        self.send_with(input, html, local_clock(), first, token)
    }

    /// The options of the list of conversations.
    pub fn chat_options(&self) -> (r: Vec<DropdownOption>)
        ensures
            r@.len() == self.conversations@.len(),
            forall|i: int|
                0 <= i < r@.len() ==> (#[trigger] r@[i]).value@ == self.conversations@[i].id@ && r@[i].label@ == if blank(
                    self.conversations@[i].title@,
                ) {
                    "new conversation"@
                } else {
                    self.conversations@[i].title@
                },
    {
        let mut r: Vec<DropdownOption> = Vec::new();
        let mut i: usize = 0;
        while i < self.conversations.len()
            invariant
                i <= self.conversations@.len(),
                r@.len() == i,
                forall|k: int|
                    0 <= k < i ==> (#[trigger] r@[k]).value@ == self.conversations@[k].id@ && r@[k].label@ == if blank(
                        self.conversations@[k].title@,
                    ) {
                        "new conversation"@
                    } else {
                        self.conversations@[k].title@
                    },
            decreases self.conversations@.len() - i,
        {
            let c = &self.conversations[i];
            let label: String = if is_blank(c.title.as_str()) {
                "new conversation".to_owned()
            } else {
                c.title.clone()
            };
            r.push(DropdownOption { value: c.id.clone(), label });
            i = i + 1;
        }
        r
    }
}

/// A place in a book that a message points to.
#[derive(Debug)]
pub struct BookCitation {
    pub book_id: String,
    pub page: u32,
    pub quote: String,
}

/// Whether a citation points into the book on show; else its own book is opened.
pub fn cites_book(c: &BookCitation, book_id: &str) -> (r: bool)
    ensures
        r == (c.book_id@ == book_id@),
{
    same_text(c.book_id.as_str(), book_id)
}

/// A deleted conversation is gone from the list, and the others stay.
pub proof fn other_rows_have_other_ids(rows: Seq<ChatRow>, id: Seq<char>, n: nat)
    requires
        n <= rows.len(),
    ensures
        !has_row(other_rows(rows, id, n), id),
        forall|i: int| 0 <= i < n && (#[trigger] rows[i]).id@ != id ==> other_rows(rows, id, n).contains(rows[i]),
    decreases n,
{
    if n > 0 {
        other_rows_have_other_ids(rows, id, (n - 1) as nat);
        let prev = other_rows(rows, id, (n - 1) as nat);
        if rows[n - 1].id@ != id {
            let all = prev.push(rows[n - 1]);
            if has_row(all, id) {
                let i = choose|i: int| 0 <= i < all.len() && (#[trigger] all[i]).id@ == id;
                assert(prev[i].id@ == id);
            }
            assert forall|i: int| 0 <= i < n && (#[trigger] rows[i]).id@ != id implies all.contains(rows[i]) by {
                if i < n - 1 {
                    let j = choose|j: int| 0 <= j < prev.len() && prev[j] == rows[i];
                    assert(all[j] == rows[i]);
                } else {
                    assert(all[prev.len() as int] == rows[i]);
                }
            }
        }
    }
}

/// A row is found by its id: the first one that has it.
pub proof fn a_row_is_found_by_its_id(s: Seq<ChatRow>, id: Seq<char>, i: int)
    ensures
        0 <= i < s.len() && s[i].id@ == id && (forall|k: int| 0 <= k < i ==> !((#[trigger] s[k]).id@ == id)) ==> row_place(s, id, 0) == Some(i),
        (forall|k: int| 0 <= k < s.len() ==> !((#[trigger] s[k]).id@ == id)) ==> row_place(s, id, 0) is None,
{
    lemma_row_place(s, id, 0);
}

proof fn lemma_row_place(s: Seq<ChatRow>, id: Seq<char>, from: int)
    requires
        0 <= from,
    ensures
        match row_place(s, id, from) {
            Some(p) => from <= p < s.len() && s[p].id@ == id && forall|k: int| from <= k < p ==> !((#[trigger] s[k]).id@ == id),
            None => forall|k: int| from <= k < s.len() ==> !((#[trigger] s[k]).id@ == id),
        },
    decreases s.len() - from,
{
    if from < s.len() && !(s[from].id@ == id) {
        lemma_row_place(s, id, from + 1);
    }
}

/// All rows but the one with this id stay, in order.
pub proof fn other_rows_stay(s: Seq<ChatRow>, id: Seq<char>, n: nat)
    requires
        n <= s.len(),
    ensures
        other_rows(s, id, n) == s.take(n as int).filter(|x: ChatRow| x.id@ != id),
    decreases n,
{
    reveal(Seq::filter);
    let t = s.take(n as int);
    if n > 0 {
        other_rows_stay(s, id, (n - 1) as nat);
        assert(t.drop_last() =~= s.take(n - 1));
        assert(t.last() == s[n - 1]);
    } else {
        assert(t.filter(|x: ChatRow| x.id@ != id) =~= Seq::<ChatRow>::empty());
    }
}

} // verus!
