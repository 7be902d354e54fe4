//! What the chat shows of a tool call: a summary of its arguments, how far it
//! has come, and the differences that it made to a file.
use crate::json::{compact, is_empty_object, json_compact, json_is_empty_object, json_member, member, member_model};
use crate::model::{StatusModel, ToolCallStatus};
use crate::text::{chars_of, same_text, string_of};
use vstd::prelude::*;
use vstd::utf8::encode_utf8;

verus! {

/// The style class of a status.
pub open spec fn status_style(status: StatusModel) -> Seq<char> {
    match status {
        StatusModel::Running => "status-running"@,
        StatusModel::Success => "status-success"@,
        StatusModel::Failed(_) => "status-failed"@,
        StatusModel::Denied(_) => "status-failed"@,
        StatusModel::AwaitingApproval => "status-approval"@,
        StatusModel::Pending => "status-pending"@,
    }
}

/// The style class of a status.
pub fn status_class(status: &ToolCallStatus) -> (r: &'static str)
    ensures
        r@ == status_style(status@),
{
    match status {
        ToolCallStatus::Running => "status-running",
        ToolCallStatus::Success => "status-success",
        ToolCallStatus::Failed(_) => "status-failed",
        ToolCallStatus::Denied(_) => "status-failed",
        ToolCallStatus::AwaitingApproval => "status-approval",
        ToolCallStatus::Pending => "status-pending",
    }
}

/// The word for a status.
pub open spec fn status_word(status: StatusModel) -> Seq<char> {
    match status {
        StatusModel::Running => "running"@,
        StatusModel::Success => "success"@,
        StatusModel::Failed(_) => "failed"@,
        StatusModel::Denied(_) => "denied"@,
        StatusModel::AwaitingApproval => "needs approval"@,
        StatusModel::Pending => "pending"@,
    }
}

/// The word for a status.
pub fn status_text(status: &ToolCallStatus) -> (r: &'static str)
    ensures
        r@ == status_word(status@),
{
    match status {
        ToolCallStatus::Running => "running",
        ToolCallStatus::Success => "success",
        ToolCallStatus::Failed(_) => "failed",
        ToolCallStatus::Denied(_) => "denied",
        ToolCallStatus::AwaitingApproval => "needs approval",
        ToolCallStatus::Pending => "pending",
    }
}

/// The members of a tool's arguments that may stand for all of them, the best
/// first.
pub open spec fn telling_keys(tool: Seq<char>) -> Seq<Seq<char>> {
    if tool == "bash"@ || tool == "read_only_bash"@ {
        seq!["command"@]
    } else if tool == "read_file"@ || tool == "write_file"@ || tool == "edit_file"@ || tool == "multi_edit"@ {
        seq!["path"@]
    } else if tool == "grep"@ {
        seq!["pattern"@, "path"@]
    } else if tool == "glob"@ || tool == "code_index"@ {
        seq!["pattern"@]
    } else if tool == "web_fetch"@ {
        seq!["url"@]
    } else if tool == "ls"@ {
        seq!["path"@]
    } else if tool == "Task"@ {
        seq!["subagent_name"@]
    } else {
        seq!["path"@, "command"@, "pattern"@, "url"@, "name"@]
    }
}

/// What some literals hold.
pub open spec fn literal_views(v: Seq<&'static str>) -> Seq<Seq<char>> {
    v.map_values(|s: &'static str| s@)
}

/// The members of a tool's arguments that may stand for all of them.
pub fn summary_keys(tool_name: &str) -> (r: Vec<&'static str>)
    ensures
        literal_views(r@) == telling_keys(tool_name@),
{
    let r: Vec<&'static str> = if same_text(tool_name, "bash") || same_text(tool_name, "read_only_bash") {
        vec!["command"]
    } else if same_text(tool_name, "read_file") || same_text(tool_name, "write_file") || same_text(
        tool_name,
        "edit_file",
    ) || same_text(tool_name, "multi_edit") {
        vec!["path"]
    } else if same_text(tool_name, "grep") {
        vec!["pattern", "path"]
    } else if same_text(tool_name, "glob") || same_text(tool_name, "code_index") {
        vec!["pattern"]
    } else if same_text(tool_name, "web_fetch") {
        vec!["url"]
    } else if same_text(tool_name, "ls") {
        vec!["path"]
    } else if same_text(tool_name, "Task") {
        vec!["subagent_name"]
    } else {
        vec!["path", "command", "pattern", "url", "name"]
    };
    assert(literal_views(r@) =~= telling_keys(tool_name@));
    r
}

/// The first of the members from `from` on that is a string and not empty.
pub open spec fn first_telling(members: Seq<Option<Option<Seq<char>>>>, from: int) -> Option<Seq<char>>
    decreases members.len() - from,
{
    if from < 0 || from >= members.len() {
        None
    } else {
        match members[from] {
            Some(Some(s)) => if s.len() > 0 {
                Some(s)
            } else {
                first_telling(members, from + 1)
            },
            _ => first_telling(members, from + 1),
        }
    }
}

/// A JSON text as a summary: whole where it has at most sixty bytes, else its
/// first 57 characters and an ellipsis.
pub open spec fn shortened(json: Seq<char>) -> Seq<char> {
    if encode_utf8(json).len() <= 60 {
        json
    } else {
        (if json.len() < 57 {
            json
        } else {
            json.take(57)
        }) + "…"@
    }
}

/// The summary of arguments: a telling member, or else all of them in short.
pub open spec fn summary(members: Seq<Option<Option<Seq<char>>>>, json: Seq<char>) -> Seq<char> {
    match first_telling(members, 0) {
        Some(s) => s,
        None => shortened(json),
    }
}

/// What some members hold.
pub open spec fn member_models(s: Seq<Option<Option<String>>>) -> Seq<Option<Option<Seq<char>>>> {
    s.map_values(|m: Option<Option<String>>| member_model(m))
}

/// The first `n` characters of a text, or all where it has fewer.
pub fn first_chars(s: &str, n: usize) -> (r: String)
    ensures
        r@ == if s@.len() < n {
            s@
        } else {
            s@.take(n as int)
        },
{
    let all = chars_of(s);
    let hi: usize = if all.len() < n {
        all.len()
    } else {
        n
    };
    assert(s@.subrange(0, hi as int) =~= s@.take(hi as int));
    assert(all@.len() < n ==> s@.take(hi as int) =~= s@);
    string_of(&all, 0, hi)
}

/// The summary of arguments, from their telling members and their JSON text.
pub fn args_summary_from(members: &Vec<Option<Option<String>>>, json: &str) -> (r: String)
    ensures
        r@ == summary(member_models(members@), json@),
{
    let ghost all = member_models(members@);
    let mut i: usize = 0;
    while i < members.len()
        invariant
            i <= members@.len(),
            all == member_models(members@),
            first_telling(all, 0) == first_telling(all, i as int),
        decreases members@.len() - i,
    {
        assert(all[i as int] == member_model(members@[i as int]));
        if let Some(Some(s)) = &members[i] {
            if !s.as_str().is_empty() {
                return s.clone();
            }
        }
        i = i + 1;
    }
    assert(first_telling(all, i as int) is None);
    if json.as_bytes().len() <= 60 {
        json.to_owned()
    } else {
        let mut r = first_chars(json, 57);
        r.append("…");
        r
    }
}

/// The members of a JSON text under some keys.
pub open spec fn members_under(args: Seq<char>, keys: Seq<Seq<char>>) -> Seq<Option<Option<Seq<char>>>> {
    keys.map_values(|k: Seq<char>| json_member(args, k))
}

/// The summary of a tool's arguments: nothing for an object without members.
pub open spec fn args_text(tool: Seq<char>, args: Seq<char>) -> Seq<char> {
    if json_is_empty_object(args) {
        Seq::empty()
    } else {
        summary(members_under(args, telling_keys(tool)), json_compact(args))
    }
}

/// The summary of a tool's arguments, which are JSON text.
pub fn tool_args_summary(tool_name: &str, args: &str) -> (r: String)
    ensures
        r@ == args_text(tool_name@, args@),
{
    if is_empty_object(args) {
        return String::new();
    }
    let keys = summary_keys(tool_name);
    let mut members: Vec<Option<Option<String>>> = Vec::new();
    let ghost all = members_under(args@, telling_keys(tool_name@));
    let mut i: usize = 0;
    while i < keys.len()
        invariant
            i <= keys@.len(),
            literal_views(keys@) == telling_keys(tool_name@),
            all == members_under(args@, telling_keys(tool_name@)),
            all.len() == keys@.len(),
            member_models(members@) == all.take(i as int),
        decreases keys@.len() - i,
    {
        let ghost before = members@;
        assert(literal_views(keys@)[i as int] == keys@[i as int]@);
        members.push(member(args, keys[i]));
        assert(member_models(members@) =~= member_models(before).push(all[i as int]));
        assert(all.take(i + 1) =~= all.take(i as int).push(all[i as int]));
        i = i + 1;
    }
    assert(all.take(i as int) =~= all);
    let json = compact(args);
    args_summary_from(&members, json.as_str())
}

/// The path in a tool's arguments: `file_path` where there is such a member,
/// else `path`; a question mark where it is no string.
pub open spec fn path_from(file_path: Option<Option<Seq<char>>>, path: Option<Option<Seq<char>>>) -> Seq<char> {
    let found = if file_path is Some {
        file_path
    } else {
        path
    };
    match found {
        Some(Some(s)) => s,
        _ => "?"@,
    }
}

/// The path in a tool's arguments, from their two members.
pub fn file_path_from(file_path: Option<Option<String>>, path: Option<Option<String>>) -> (r: String)
    ensures
        r@ == path_from(member_model(file_path), member_model(path)),
{
    let found = if file_path.is_some() {
        file_path
    } else {
        path
    };
    match found {
        Some(Some(s)) => s,
        _ => "?".to_owned(),
    }
}

/// The path in a tool's arguments, which are JSON text.
pub fn file_path_from_args(args: &str) -> (r: String)
    ensures
        r@ == path_from(json_member(args@, "file_path"@), json_member(args@, "path"@)),
{
    file_path_from(member(args, "file_path"), member(args, "path"))
}

/// What is told of a call is the first of its telling arguments that is a text and not empty.
pub proof fn the_first_text_is_told(members: Seq<Option<Option<Seq<char>>>>, json: Seq<char>, i: int)
    ensures
        0 <= i < members.len() && members[i] is Some && members[i]->0 is Some && members[i]->0->0.len() > 0 && (forall|k: int|
            0 <= k < i ==> !tells(#[trigger] members[k])) ==> summary(members, json) == members[i]->0->0,
        (forall|k: int| 0 <= k < members.len() ==> !tells(#[trigger] members[k])) ==> summary(members, json) == shortened(json),
{
    lemma_first_telling(members, 0);
    if 0 <= i < members.len() && members[i] is Some && members[i]->0 is Some && members[i]->0->0.len() > 0 && (forall|k: int|
        0 <= k < i ==> !tells(#[trigger] members[k])) {
        assert(tells(members[i]));
    }
}

/// The argument is a text that is not empty.
pub open spec fn tells(m: Option<Option<Seq<char>>>) -> bool {
    m is Some && m->0 is Some && m->0->0.len() > 0
}

proof fn lemma_first_telling(members: Seq<Option<Option<Seq<char>>>>, from: int)
    requires
        0 <= from,
    ensures
        match first_telling(members, from) {
            Some(s) => exists|i: int|
                from <= i < members.len() && tells(#[trigger] members[i]) && members[i]->0->0 == s && forall|k: int|
                    from <= k < i ==> !tells(#[trigger] members[k]),
            None => forall|k: int| from <= k < members.len() ==> !tells(#[trigger] members[k]),
        },
    decreases members.len() - from,
{
    if from < members.len() {
        if tells(members[from]) {
            assert(tells(members[from]));
        } else {
            lemma_first_telling(members, from + 1);
            match first_telling(members, from + 1) {
                Some(s) => {
                    let i = choose|i: int|
                        from + 1 <= i < members.len() && tells(#[trigger] members[i]) && members[i]->0->0 == s && forall|k: int|
                            from + 1 <= k < i ==> !tells(#[trigger] members[k]);
                    assert(tells(members[i]));
                },
                None => {},
            }
        }
    }
}

/// A text that is told in short starts as the text does, and nothing is cut off it up to 60
/// bytes; of a longer one 57 characters are left at most, with an ellipsis behind them.
pub proof fn long_texts_are_cut(json: Seq<char>)
    ensures
        encode_utf8(json).len() <= 60 ==> shortened(json) == json,
        encode_utf8(json).len() > 60 && json.len() >= 57 ==> shortened(json) == json.take(57) + seq!['…'],
        encode_utf8(json).len() > 60 && json.len() < 57 ==> shortened(json) == json + seq!['…'],
{
    reveal_strlit("…");
    assert("…"@ =~= seq!['…']);
}

/// What is told of a call is its command, its path, its pattern, its address or its name, as its
/// tool has it.
pub proof fn each_tool_has_its_telling_arguments(tool: Seq<char>)
    ensures
        tool == "bash"@ || tool == "read_only_bash"@ ==> telling_keys(tool)[0] == "command"@ && telling_keys(tool).len() == 1,
        tool == "read_file"@ || tool == "write_file"@ || tool == "edit_file"@ || tool == "multi_edit"@ || tool == "ls"@ ==> telling_keys(
            tool,
        )[0] == "path"@ && telling_keys(tool).len() == 1,
        tool == "grep"@ ==> telling_keys(tool).len() == 2 && telling_keys(tool)[0] == "pattern"@ && telling_keys(tool)[1] == "path"@,
        tool == "glob"@ || tool == "code_index"@ ==> telling_keys(tool)[0] == "pattern"@ && telling_keys(tool).len() == 1,
        tool == "web_fetch"@ ==> telling_keys(tool)[0] == "url"@ && telling_keys(tool).len() == 1,
        tool == "Task"@ ==> telling_keys(tool)[0] == "subagent_name"@ && telling_keys(tool).len() == 1,
{
    lemma_tool_names();
}

proof fn lemma_tool_names()
    ensures
        "bash"@.len() == 4 && "bash"@[0] == 'b',
        "read_only_bash"@.len() == 14,
        "read_file"@.len() == 9 && "read_file"@[0] == 'r',
        "write_file"@.len() == 10 && "write_file"@[0] == 'w',
        "edit_file"@.len() == 9 && "edit_file"@[0] == 'e',
        "multi_edit"@.len() == 10 && "multi_edit"@[0] == 'm',
        "grep"@.len() == 4 && "grep"@[0] == 'g' && "grep"@[1] == 'r',
        "glob"@.len() == 4 && "glob"@[0] == 'g' && "glob"@[1] == 'l',
        "code_index"@.len() == 10 && "code_index"@[0] == 'c',
        "web_fetch"@.len() == 9 && "web_fetch"@[0] == 'w',
        "ls"@.len() == 2,
        "Task"@.len() == 4 && "Task"@[0] == 'T',
{
    reveal_strlit("bash");
    reveal_strlit("read_only_bash");
    reveal_strlit("read_file");
    reveal_strlit("write_file");
    reveal_strlit("edit_file");
    reveal_strlit("multi_edit");
    reveal_strlit("grep");
    reveal_strlit("glob");
    reveal_strlit("code_index");
    reveal_strlit("web_fetch");
    reveal_strlit("ls");
    reveal_strlit("Task");
}

} // verus!
