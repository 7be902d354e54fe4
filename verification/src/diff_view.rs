//! The differences that a tool made to a file: how many lines it added and
//! removed, and the lines themselves with their numbers.
use crate::text::{
    chars_of, decimal, decimal_is_digits, find_chars, first_occurrence, lines_from, lines_of, matches_at, occurs,
    parse_number, parsed_number, reading_a_numeral_gives_the_number, stands_at, string_of, views, what_occurs_is_a_part,
};
use vstd::prelude::*;

verus! {

/// The last place before `n` where `c` stands.
pub open spec fn last_place(s: Seq<char>, c: char, n: nat) -> Option<int>
    decreases n,
{
    if n == 0 {
        None
    } else if s[n - 1] == c {
        Some(n - 1)
    } else {
        last_place(s, c, (n - 1) as nat)
    }
}

/// What stands between the first opening and the last closing parenthesis.
pub open spec fn in_parentheses(line: Seq<char>) -> Option<Seq<char>> {
    match (first_occurrence(line, "("@, 0), last_place(line, ')', line.len())) {
        (Some(a), Some(b)) => if a < b {
            Some(line.subrange(a + 1, b))
        } else {
            None
        },
        _ => None,
    }
}

/// The text ends in `tail`.
pub open spec fn ends_in(s: Seq<char>, tail: Seq<char>) -> bool {
    stands_at(s, tail, s.len() - tail.len())
}

/// A count of lines in short: its number behind a plus sign for lines that were
/// added, behind a minus sign for lines that were removed. Any other text stays.
pub open spec fn count_in_short(s: Seq<char>) -> Seq<char> {
    if ends_in(s, " lines added"@) {
        seq!['+'] + s.take(s.len() - " lines added"@.len())
    } else if ends_in(s, " line added"@) {
        seq!['+'] + s.take(s.len() - " line added"@.len())
    } else if ends_in(s, " lines removed"@) {
        seq!['-'] + s.take(s.len() - " lines removed"@.len())
    } else if ends_in(s, " line removed"@) {
        seq!['-'] + s.take(s.len() - " line removed"@.len())
    } else {
        s
    }
}

/// Counts of lines in short, with spaces in place of the commas between them.
pub open spec fn counts_in_short(s: Seq<char>) -> Seq<char>
    decreases s.len(),
{
    match first_occurrence(s, ", "@, 0) {
        Some(k) => if 0 <= k && k + 2 <= s.len() {
            count_in_short(s.take(k)) + seq![' '] + counts_in_short(s.skip(k + 2))
        } else {
            count_in_short(s)
        },
        None => count_in_short(s),
    }
}

/// The first count of lines from line `from` on that says something.
pub open spec fn stat_from(lines: Seq<Seq<char>>, from: int) -> Seq<char>
    decreases lines.len() - from,
{
    if from < 0 || from >= lines.len() {
        Seq::empty()
    } else {
        match in_parentheses(lines[from]) {
            Some(s) => if counts_in_short(s).len() > 0 {
                counts_in_short(s)
            } else {
                stat_from(lines, from + 1)
            },
            None => stat_from(lines, from + 1),
        }
    }
}

fn parenthesized(line: &str) -> (r: Option<String>)
    ensures
        match r {
            Some(s) => in_parentheses(line@) == Some(s@),
            None => in_parentheses(line@) is None,
        },
{
    proof {
        reveal_strlit("(");
    }
    let all = chars_of(line);
    let open = chars_of("(");
    let a = match find_chars(&all, &open) {
        Some(a) => a,
        None => {
            return None;
        },
    };
    let mut n: usize = all.len();
    while n > 0
        invariant
            n <= all@.len(),
            all@ == line@,
            last_place(line@, ')', line@.len()) == last_place(line@, ')', n as nat),
            first_occurrence(line@, "("@, 0) == Some(a as int),
            a < all@.len(),
        decreases n,
    {
        if all[n - 1] == ')' {
            if a < n - 1 {
                return Some(string_of(&all, a + 1, n - 1));
            } else {
                return None;
            }
        }
        n = n - 1;
    }
    None
}

/// `s` without `tail`, where it ends in it.
fn without_tail(s: &Vec<char>, tail: &str) -> (r: Option<String>)
    ensures
        match r {
            Some(t) => ends_in(s@, tail@) && t@ == s@.take(s@.len() - tail@.len()),
            None => !ends_in(s@, tail@),
        },
{
    let t = chars_of(tail);
    if t.len() > s.len() {
        return None;
    }
    let k = s.len() - t.len();
    if matches_at(s, &t, k) {
        assert(s@.subrange(0, k as int) =~= s@.take(k as int));
        Some(string_of(s, 0, k))
    } else {
        None
    }
}

fn push_count(out: &mut String, s: &Vec<char>)
    ensures
        final(out)@ == old(out)@ + count_in_short(s@),
{
    let sign: char;
    let number: String;
    if let Some(t) = without_tail(s, " lines added") {
        sign = '+';
        number = t;
    } else if let Some(t) = without_tail(s, " line added") {
        sign = '+';
        number = t;
    } else if let Some(t) = without_tail(s, " lines removed") {
        sign = '-';
        number = t;
    } else if let Some(t) = without_tail(s, " line removed") {
        sign = '-';
        number = t;
    } else {
        let all = string_of(s, 0, s.len());
        assert(s@.subrange(0, s@.len() as int) =~= s@);
        out.append(all.as_str());
        return;
    }
    out.push(sign);
    out.append(number.as_str());
    assert(out@ =~= old(out)@ + count_in_short(s@));
}

fn in_short(s: &str) -> (r: String)
    ensures
        r@ == counts_in_short(s@),
{
    proof {
        reveal_strlit(", ");
    }
    let comma = chars_of(", ");
    let mut rest = chars_of(s);
    let mut out = String::new();
    assert(out@ + counts_in_short(rest@) =~= counts_in_short(s@));
    loop
        invariant
            comma@ == ", "@,
            ", "@.len() == 2,
            out@ + counts_in_short(rest@) == counts_in_short(s@),
        decreases rest@.len(),
    {
        match find_chars(&rest, &comma) {
            Some(k) => {
                let ghost before = out@;
                proof {
                    lemma_occurrence(rest@, ", "@, 0);
                }
                let mut part: Vec<char> = Vec::new();
                let mut i: usize = 0;
                while i < k
                    invariant
                        i <= k <= rest@.len(),
                        part@ == rest@.take(i as int),
                    decreases k - i,
                {
                    part.push(rest[i]);
                    i = i + 1;
                    assert(part@ =~= rest@.take(i as int));
                }
                push_count(&mut out, &part);
                out.push(' ');
                let n = rest.len();
                assert(k + 2 <= n);
                let tail = tail_from(&rest, k + 2);
                assert(out@ + counts_in_short(tail@) =~= before + counts_in_short(rest@));
                rest = tail;
            },
            None => {
                push_count(&mut out, &rest);
                return out;
            },
        }
    }
}

/// How many lines a tool added and removed, as its result says it behind the
/// first line; empty where it says nothing.
pub fn parse_diff_stat(result: &str) -> (r: String)
    ensures
        r@ == stat_from(lines_from(result@, 0), 1),
{
    let lines = lines_of(result);
    let ghost all = lines_from(result@, 0);
    let mut i: usize = 1;
    if lines.len() == 0 {
        return String::new();
    }
    while i < lines.len()
        invariant
            1 <= i <= lines@.len(),
            views(lines@) == all,
            all == lines_from(result@, 0),
            stat_from(all, 1) == stat_from(all, i as int),
        decreases lines@.len() - i,
    {
        assert(all[i as int] == lines@[i as int]@);
        if let Some(s) = parenthesized(lines[i].as_str()) {
            let stat = in_short(s.as_str());
            if !stat.as_str().is_empty() {
                return stat;
            }
        }
        i = i + 1;
    }
    String::new()
}

/// What a line of a difference is.
#[derive(Debug, Clone, Copy, PartialEq, Eq, Structural)]
pub enum DiffLineKind {
    Add,
    Del,
    Ctx,
    Hunk,
}

/// The style class of a line.
pub open spec fn diff_style(kind: DiffLineKind) -> Seq<char> {
    match kind {
        DiffLineKind::Add => "diff-add"@,
        DiffLineKind::Del => "diff-del"@,
        DiffLineKind::Ctx => "diff-ctx"@,
        DiffLineKind::Hunk => "diff-hunk"@,
    }
}

impl DiffLineKind {
    /// The style class of a line.
    pub fn class_name(&self) -> (r: &'static str)
        ensures
            r@ == diff_style(*self),
    {
        match self {
            DiffLineKind::Add => "diff-add",
            DiffLineKind::Del => "diff-del",
            DiffLineKind::Ctx => "diff-ctx",
            DiffLineKind::Hunk => "diff-hunk",
        }
    }
}

/// A line of a difference with its numbers before and after the change.
#[derive(Debug)]
pub struct DiffRow {
    pub kind: DiffLineKind,
    pub old_num: Option<usize>,
    pub new_num: Option<usize>,
    pub text: String,
}

/// A line of a difference over plain text.
pub struct RowModel {
    pub kind: DiffLineKind,
    pub old_num: Option<usize>,
    pub new_num: Option<usize>,
    pub text: Seq<char>,
}

impl View for DiffRow {
    type V = RowModel;

    open spec fn view(&self) -> RowModel {
        RowModel { kind: self.kind, old_num: self.old_num, new_num: self.new_num, text: self.text@ }
    }
}

/// Lines over plain texts.
pub open spec fn row_models(s: Seq<DiffRow>) -> Seq<RowModel> {
    s.map_values(|r: DiffRow| r@)
}

/// A difference that is shown, or a text that is none.
#[derive(Debug)]
pub enum DiffView {
    Plain(String),
    Diff(Vec<String>, Vec<DiffRow>),
}

/// The line names a file or starts a hunk.
pub open spec fn starts_diff(line: Seq<char>) -> bool {
    stands_at(line, "--- "@, 0) || stands_at(line, "@@"@, 0)
}

/// The line does not name a file.
pub open spec fn starts_body(line: Seq<char>) -> bool {
    stands_at(line, "@@"@, 0) || !stands_at(line, "--- "@, 0) && !stands_at(line, "+++ "@, 0)
}

/// The first line from `from` on that satisfies `p`.
pub open spec fn first_line(lines: Seq<Seq<char>>, p: spec_fn(Seq<char>) -> bool, from: int) -> Option<int>
    decreases lines.len() - from,
{
    if from < 0 || from >= lines.len() {
        None
    } else if p(lines[from]) {
        Some(from)
    } else {
        first_line(lines, p, from + 1)
    }
}

/// The place, or `other` where there is none.
pub open spec fn or_place(place: Option<int>, other: int) -> int {
    match place {
        Some(i) => i,
        None => other,
    }
}

/// What a line is.
pub open spec fn line_kind(line: Seq<char>) -> DiffLineKind {
    if stands_at(line, "@@"@, 0) {
        DiffLineKind::Hunk
    } else if line.len() > 0 && line[0] == '+' {
        DiffLineKind::Add
    } else if line.len() > 0 && line[0] == '-' {
        DiffLineKind::Del
    } else {
        DiffLineKind::Ctx
    }
}

/// The text of a line, without the sign before it.
pub open spec fn line_body(line: Seq<char>) -> Seq<char> {
    if !stands_at(line, "@@"@, 0) && line.len() > 0 && (line[0] == '+' || line[0] == '-' || line[0] == ' ') {
        line.skip(1)
    } else {
        line
    }
}

/// The number of line `n` before the change: each hunk begins with the number
/// that its head gives, and what stands before all hunks with one.
pub open spec fn old_number(body: Seq<Seq<char>>, n: nat) -> usize
    decreases n,
{
    if n == 0 {
        1
    } else {
        match line_kind(body[n - 1]) {
            DiffLineKind::Hunk => hunk_starts(body[n - 1]).0,
            DiffLineKind::Add => old_number(body, (n - 1) as nat),
            _ => old_number(body, (n - 1) as nat).wrapping_add(1),
        }
    }
}

/// The number of line `n` after the change: each hunk begins with the number
/// that its head gives, and what stands before all hunks with one.
pub open spec fn new_number(body: Seq<Seq<char>>, n: nat) -> usize
    decreases n,
{
    if n == 0 {
        1
    } else {
        match line_kind(body[n - 1]) {
            DiffLineKind::Hunk => hunk_starts(body[n - 1]).1,
            DiffLineKind::Del => new_number(body, (n - 1) as nat),
            _ => new_number(body, (n - 1) as nat).wrapping_add(1),
        }
    }
}

/// Line `n` with its numbers: only lines that were there before have an old
/// number, only lines that are there now a new one.
pub open spec fn row_of(body: Seq<Seq<char>>, n: int) -> RowModel {
    let kind = line_kind(body[n]);
    RowModel {
        kind,
        old_num: if kind == DiffLineKind::Del || kind == DiffLineKind::Ctx {
            Some(old_number(body, n as nat))
        } else {
            None
        },
        new_num: if kind == DiffLineKind::Add || kind == DiffLineKind::Ctx {
            Some(new_number(body, n as nat))
        } else {
            None
        },
        text: line_body(body[n]),
    }
}

/// All lines with their numbers.
pub open spec fn rows_of(body: Seq<Seq<char>>) -> Seq<RowModel> {
    Seq::new(body.len(), |n: int| row_of(body, n))
}

/// The number, or one where there is none.
pub open spec fn or_one(n: Option<nat>) -> usize {
    match n {
        Some(k) => k as usize,
        None => 1,
    }
}

/// The characters from place `k` on up to the first comma or space.
pub open spec fn up_to_break(s: Seq<char>, k: int) -> int
    decreases s.len() - k,
{
    if k >= s.len() || s[k] == ',' || s[k] == ' ' {
        k
    } else {
        up_to_break(s, k + 1)
    }
}

/// The number at the beginning of a text, up to a comma or a space; one where
/// there is none.
pub open spec fn number_at(s: Seq<char>) -> usize {
    or_one(parsed_number(s.take(up_to_break(s, 0)), usize::MAX as nat))
}

/// The numbers of the first line of a hunk, before and after the change, that
/// the hunk's head gives, such as `@@ -3,7 +3,8 @@` or `@@ -3 +3 @@`; one where it
/// gives none.
pub open spec fn hunk_starts(head: Seq<char>) -> (usize, usize) {
    match first_occurrence(head, "-"@, 0) {
        Some(a) => {
            let rest = head.skip(a + 1);
            let new_start = match first_occurrence(rest, "+"@, 0) {
                Some(p) => number_at(rest.skip(p + 1)),
                None => 1,
            };
            (number_at(rest), new_start)
        },
        None => (1, 1),
    }
}

/// What is shown of the lines `lines` of a result.
pub open spec fn shows(v: DiffView, result: Seq<char>) -> bool {
    let lines = lines_from(result, 0);
    let diff = lines.skip(or_place(first_line(lines, |l: Seq<char>| starts_diff(l), 0), 0));
    if diff.len() == 0 {
        v is Plain && v->Plain_0@ == result
    } else {
        let at = or_place(first_line(diff, |l: Seq<char>| starts_body(l), 0), diff.len() as int);
        let body = diff.skip(at);
        &&& v is Diff
        &&& views(v->Diff_0@) == diff.take(at)
        &&& row_models(v->Diff_1@) == rows_of(body)
    }
}

fn starts_with(line: &Vec<char>, head: &str) -> (r: bool)
    ensures
        r == stands_at(line@, head@, 0),
{
    let h = chars_of(head);
    matches_at(line, &h, 0)
}

fn tail_from(all: &Vec<char>, from: usize) -> (r: Vec<char>)
    requires
        from <= all@.len(),
    ensures
        r@ == all@.skip(from as int),
{
    let mut r: Vec<char> = Vec::new();
    let mut i: usize = from;
    while i < all.len()
        invariant
            from <= i <= all@.len(),
            r@ == all@.subrange(from as int, i as int),
        decreases all@.len() - i,
    {
        r.push(all[i]);
        i = i + 1;
        assert(r@ =~= all@.subrange(from as int, i as int));
    }
    assert(r@ =~= all@.skip(from as int));
    r
}

fn number_or_one(text: &str) -> (r: usize)
    ensures
        r == or_one(parsed_number(text@, usize::MAX as nat)),
{
    match parse_number(text, usize::MAX as u64) {
        Some(n) => n as usize,
        None => 1,
    }
}

proof fn lemma_occurrence(s: Seq<char>, pat: Seq<char>, k: int)
    requires
        0 <= k,
    ensures
        first_occurrence(s, pat, k) is Some ==> k <= first_occurrence(s, pat, k)->0 && stands_at(
            s,
            pat,
            first_occurrence(s, pat, k)->0,
        ),
    decreases s.len() + 1 - k,
{
    if k <= s.len() && !stands_at(s, pat, k) {
        lemma_occurrence(s, pat, k + 1);
    }
}

fn read_number(s: &Vec<char>) -> (r: usize)
    ensures
        r == number_at(s@),
{
    let mut end: usize = 0;
    while end < s.len() && s[end] != ',' && s[end] != ' '
        invariant
            end <= s@.len(),
            up_to_break(s@, 0) == up_to_break(s@, end as int),
        decreases s@.len() - end,
    {
        end = end + 1;
    }
    assert(s@.subrange(0, end as int) =~= s@.take(end as int));
    let digits = string_of(s, 0, end);
    number_or_one(digits.as_str())
}

/// The numbers of the first line of a hunk that the hunk's head gives.
pub fn hunk_numbers(head: &str) -> (r: (usize, usize))
    ensures
        r == hunk_starts(head@),
{
    proof {
        reveal_strlit("-");
        reveal_strlit("+");
    }
    let all = chars_of(head);
    let minus = chars_of("-");
    let a = match find_chars(&all, &minus) {
        Some(a) => a,
        None => {
            return (1, 1);
        },
    };
    let n = all.len();
    assert(a < n);
    let rest = tail_from(&all, a + 1);
    let width = rest.len();
    let plus = chars_of("+");
    let new_start: usize = match find_chars(&rest, &plus) {
        Some(p) => {
            assert(p < width);
            read_number(&tail_from(&rest, p + 1))
        },
        None => 1,
    };
    (read_number(&rest), new_start)
}

fn find_diff(lines: &Vec<String>) -> (r: usize)
    ensures
        r == or_place(first_line(views(lines@), |l: Seq<char>| starts_diff(l), 0), 0),
        r <= lines@.len(),
{
    let ghost all = views(lines@);
    let ghost p = |l: Seq<char>| starts_diff(l);
    let mut i: usize = 0;
    while i < lines.len()
        invariant
            i <= lines@.len(),
            all == views(lines@),
            p == (|l: Seq<char>| starts_diff(l)),
            first_line(all, p, 0) == first_line(all, p, i as int),
        decreases lines@.len() - i,
    {
        let line = chars_of(lines[i].as_str());
        assert(all[i as int] == line@);
        if starts_with(&line, "--- ") || starts_with(&line, "@@") {
            return i;
        }
        i = i + 1;
    }
    0
}

fn find_body(lines: &Vec<String>, from: usize) -> (r: usize)
    requires
        from <= lines@.len(),
    ensures
        r == or_place(
            first_line(views(lines@).skip(from as int), |l: Seq<char>| starts_body(l), 0),
            lines@.len() - from,
        ),
        from + r <= lines@.len(),
{
    let ghost all = views(lines@).skip(from as int);
    let ghost p = |l: Seq<char>| starts_body(l);
    let n = lines.len();
    let mut i: usize = 0;
    while i < n - from
        invariant
            from <= n == lines@.len(),
            i <= n - from,
            all == views(lines@).skip(from as int),
            p == (|l: Seq<char>| starts_body(l)),
            first_line(all, p, 0) == first_line(all, p, i as int),
        decreases n - from - i,
    {
        let line = chars_of(lines[from + i].as_str());
        assert(all[i as int] == line@);
        if starts_with(&line, "@@") || (!starts_with(&line, "--- ") && !starts_with(&line, "+++ ")) {
            return i;
        }
        i = i + 1;
    }
    n - from
}

/// The differences that a tool made to a file, as its result lists them.
pub fn render_diff_view(result: &str) -> (r: DiffView)
    ensures
        shows(r, result@),
{
    let lines = lines_of(result);
    let ghost all = lines_from(result@, 0);
    let from = find_diff(&lines);
    let n = lines.len();
    let ghost diff = all.skip(from as int);
    if from == n {
        return DiffView::Plain(result.to_owned());
    }
    let at = find_body(&lines, from);
    let ghost body = diff.skip(at as int);
    let mut header: Vec<String> = Vec::new();
    let mut i: usize = from;
    while i < from + at
        invariant
            from <= i <= from + at <= n == lines@.len(),
            views(lines@) == all,
            diff == all.skip(from as int),
            views(header@) == diff.take(i - from),
        decreases from + at - i,
    {
        let ghost before = header@;
        header.push(lines[i].clone());
        assert(diff[i - from] == lines@[i as int]@);
        assert(views(header@) =~= views(before).push(diff[i - from]));
        assert(diff.take(i + 1 - from) =~= diff.take(i - from).push(diff[i - from]));
        i = i + 1;
    }
    let mut rows: Vec<DiffRow> = Vec::new();
    let mut old_line: usize = 1;
    let mut new_line: usize = 1;
    let first = from + at;
    let mut k: usize = first;
    assert(row_models(rows@) =~= rows_of(body).take(0));
    while k < n
        invariant
            first <= k <= n == lines@.len(),
            views(lines@) == all,
            body == all.skip(first as int),
            old_line == old_number(body, (k - first) as nat),
            new_line == new_number(body, (k - first) as nat),
            row_models(rows@) == rows_of(body).take(k - first),
        decreases n - k,
    {
        let line = chars_of(lines[k].as_str());
        let ghost j = k - first;
        assert(body[j] == line@);
        let ghost before = rows@;
        proof {
            reveal_strlit("@@");
        }
        let row = if starts_with(&line, "@@") {
            let (old_start, new_start) = hunk_numbers(lines[k].as_str());
            old_line = old_start;
            new_line = new_start;
            DiffRow { kind: DiffLineKind::Hunk, old_num: None, new_num: None, text: lines[k].clone() }
        } else {
            let signed = line.len() > 0 && (line[0] == '+' || line[0] == '-' || line[0] == ' ');
            let text: String = if signed {
                let t = string_of(&line, 1, line.len());
                assert(t@ =~= line@.skip(1));
                t
            } else {
                lines[k].clone()
            };
            if line.len() > 0 && line[0] == '+' {
                let num = new_line;
                new_line = new_line.wrapping_add(1);
                DiffRow { kind: DiffLineKind::Add, old_num: None, new_num: Some(num), text }
            } else if line.len() > 0 && line[0] == '-' {
                let num = old_line;
                old_line = old_line.wrapping_add(1);
                DiffRow { kind: DiffLineKind::Del, old_num: Some(num), new_num: None, text }
            } else {
                let was = old_line;
                let is = new_line;
                old_line = old_line.wrapping_add(1);
                new_line = new_line.wrapping_add(1);
                DiffRow { kind: DiffLineKind::Ctx, old_num: Some(was), new_num: Some(is), text }
            }
        };
        assert(row@ == row_of(body, j));
        rows.push(row);
        proof {
            let want = rows_of(body);
            assert(row_models(rows@) =~= row_models(before).push(want[j]));
            assert(want.take(j + 1) =~= want.take(j).push(want[j]));
        }
        k = k + 1;
    }
    proof {
        let want = rows_of(body);
        assert(want.take((n - first) as int) =~= want);
        assert(diff.skip(at as int) =~= all.skip(first as int));
    }
    DiffView::Diff(header, rows)
}

/// A line that was removed has no number after the change, one that was added
/// none before it.
pub proof fn numbers_follow_the_change(body: Seq<Seq<char>>, n: int)
    requires
        0 <= n < body.len(),
    ensures
        ({
            let row = rows_of(body)[n];
            &&& row.kind == DiffLineKind::Add ==> row.old_num is None && row.new_num is Some
            &&& row.kind == DiffLineKind::Del ==> row.old_num is Some && row.new_num is None
            &&& row.kind == DiffLineKind::Ctx ==> row.old_num is Some && row.new_num is Some
            &&& row.kind == DiffLineKind::Hunk ==> row.old_num is None && row.new_num is None
        }),
{
}

/// The line behind the head of a hunk has the numbers that the head gives.
pub proof fn each_hunk_has_its_own_numbers(body: Seq<Seq<char>>, n: int)
    requires
        0 <= n,
        n + 1 < body.len(),
        line_kind(body[n]) == DiffLineKind::Hunk,
    ensures
        rows_of(body)[n + 1].old_num is Some ==> rows_of(body)[n + 1].old_num->0 == hunk_starts(body[n]).0,
        rows_of(body)[n + 1].new_num is Some ==> rows_of(body)[n + 1].new_num->0 == hunk_starts(body[n]).1,
{
}

// ── rows, seen from outside ──

/// A line that starts with `+` is added, one with `-` removed, one with a space stays, each
/// without that sign; a line that starts with `@@` is the head of a hunk and shown as it is;
/// any other line stays as it is.
pub proof fn a_line_is_told_by_its_first_character(t: Seq<char>)
    ensures
        line_kind(seq!['+'] + t) == DiffLineKind::Add && line_body(seq!['+'] + t) == t,
        line_kind(seq!['-'] + t) == DiffLineKind::Del && line_body(seq!['-'] + t) == t,
        line_kind(seq![' '] + t) == DiffLineKind::Ctx && line_body(seq![' '] + t) == t,
        line_kind(seq!['@', '@'] + t) == DiffLineKind::Hunk && line_body(seq!['@', '@'] + t) == seq!['@', '@'] + t,
        t.len() == 0 || t[0] != '+' && t[0] != '-' && t[0] != ' ' && t[0] != '@' ==> line_kind(t) == DiffLineKind::Ctx && line_body(t)
            == t,
{
    reveal_strlit("@@");
    let p = "@@"@;
    assert(p.len() == 2 && p[0] == '@' && p[1] == '@');
    let plus = seq!['+'] + t;
    let minus = seq!['-'] + t;
    let space = seq![' '] + t;
    let head = seq!['@', '@'] + t;
    lemma_not_at(plus, p);
    lemma_not_at(minus, p);
    lemma_not_at(space, p);
    if t.len() > 0 {
        lemma_not_at(t, p);
    }
    assert(head.subrange(0, 2) =~= p);
    assert(stands_at(head, p, 0));
    assert(plus.skip(1) =~= t);
    assert(minus.skip(1) =~= t);
    assert(space.skip(1) =~= t);
}

proof fn lemma_not_at(s: Seq<char>, p: Seq<char>)
    requires
        s.len() > 0,
        p.len() > 0,
    ensures
        s[0] != p[0] ==> !stands_at(s, p, 0),
{
    if stands_at(s, p, 0) {
        assert(s.subrange(0, p.len() as int)[0] == s[0]);
    }
}

/// Every line of the body is a row, in order: with its number in the old text where it was
/// there, and in the new text where it is there.
pub proof fn every_line_is_a_row(body: Seq<Seq<char>>, n: int)
    requires
        0 <= n < body.len(),
    ensures
        rows_of(body).len() == body.len(),
        rows_of(body)[n].kind == line_kind(body[n]),
        rows_of(body)[n].text == line_body(body[n]),
        rows_of(body)[n].old_num is Some <==> line_kind(body[n]) == DiffLineKind::Del || line_kind(body[n]) == DiffLineKind::Ctx,
        rows_of(body)[n].new_num is Some <==> line_kind(body[n]) == DiffLineKind::Add || line_kind(body[n]) == DiffLineKind::Ctx,
        rows_of(body)[n].old_num is Some ==> rows_of(body)[n].old_num == Some(old_number(body, n as nat)),
        rows_of(body)[n].new_num is Some ==> rows_of(body)[n].new_num == Some(new_number(body, n as nat)),
{
}

proof fn lemma_up_to(s: Seq<char>, k: int, n: int)
    requires
        0 <= k <= n <= s.len(),
        n < s.len() ==> s[n] == ',' || s[n] == ' ',
        forall|i: int| 0 <= i < n ==> #[trigger] s[i] != ',' && s[i] != ' ',
    ensures
        up_to_break(s, k) == n,
    decreases n - k,
{
    if k < n {
        lemma_up_to(s, k + 1, n);
    }
}

proof fn lemma_number(n: usize, t: Seq<char>)
    requires
        t.len() == 0 || t[0] == ',' || t[0] == ' ',
    ensures
        number_at(decimal(n as nat) + t) == n,
{
    let d = decimal(n as nat);
    let s = d + t;
    decimal_is_digits(n as nat);
    assert forall|i: int| 0 <= i < d.len() implies #[trigger] s[i] != ',' && s[i] != ' ' by {
        assert(s[i] == d[i]);
    }
    if t.len() > 0 {
        assert(s[d.len() as int] == t[0]);
    }
    lemma_up_to(s, 0, d.len() as int);
    assert(s.take(d.len() as int) =~= d);
    reading_a_numeral_gives_the_number(n as nat, usize::MAX as nat, d);
}

proof fn lemma_first_sign(s: Seq<char>, c: char, k: int, n: int)
    requires
        0 <= k <= n < s.len(),
        s[n] == c,
        forall|i: int| 0 <= i < n ==> #[trigger] s[i] != c,
    ensures
        first_occurrence(s, seq![c], k) == Some(n),
    decreases n - k,
{
    let p = seq![c];
    if k < n {
        if stands_at(s, p, k) {
            assert(s.subrange(k, k + p.len())[0] == s[k]);
            assert(p[0] == c);
        }
        lemma_first_sign(s, c, k + 1, n);
    } else {
        assert(s.subrange(n, n + 1) =~= p);
    }
}

/// The head of a hunk tells where it starts in the old and in the new text: `@@ -A +C`, with
/// or without the number of lines behind either.
pub proof fn a_hunk_starts_where_its_head_says(a: usize, c: usize, x: Seq<char>, y: Seq<char>)
    requires
        x.len() == 0 || x[0] == ',',
        forall|i: int| 0 <= i < x.len() ==> #[trigger] x[i] != '+',
        y.len() == 0 || y[0] == ',' || y[0] == ' ',
    ensures
        hunk_starts(
            seq!['@', '@', ' ', '-'] + decimal(a as nat) + x + seq![' ', '+'] + decimal(c as nat) + y,
        ) == (a, c),
{
    let pre = seq!['@', '@', ' ', '-'];
    let da = decimal(a as nat);
    let dc = decimal(c as nat);
    let mid = seq![' ', '+'];
    let head = pre + da + x + mid + dc + y;
    let rest = da + (x + mid + dc + y);
    reveal_strlit("-");
    reveal_strlit("+");
    assert("-"@ =~= seq!['-']);
    assert("+"@ =~= seq!['+']);
    assert forall|i: int| 0 <= i < 3 implies #[trigger] head[i] != '-' by {
        assert(head[i] == pre[i]);
    }
    assert(head[3] == pre[3]);
    lemma_first_sign(head, '-', 0, 3);
    assert(head.skip(4) =~= rest);
    let t = x + mid + dc + y;
    assert(t.len() > 0);
    assert(t[0] == if x.len() > 0 {
        x[0]
    } else {
        ' '
    });
    lemma_number(a, t);
    let p = da.len() + x.len() + 1;
    decimal_is_digits(a as nat);
    assert forall|i: int| 0 <= i < p implies #[trigger] rest[i] != '+' by {
        if i < da.len() {
            assert(rest[i] == da[i]);
        } else if i < da.len() + x.len() {
            assert(rest[i] == x[i - da.len()]);
        } else {
            assert(rest[i] == mid[0]);
        }
    }
    assert(rest[p as int] == mid[1]);
    lemma_first_sign(rest, '+', 0, p as int);
    assert(rest.skip(p as int + 1) =~= dc + y);
    lemma_number(c, y);
}

/// What was added or removed is told in short: `A lines added` as `+A`, `B lines removed` as
/// `-B`, of one line likewise, and parts that a comma parts are told one after the other.
pub proof fn counts_are_told_in_short(a: Seq<char>, b: Seq<char>)
    requires
        forall|i: int| 0 <= i < a.len() ==> '0' <= #[trigger] a[i] <= '9',
        forall|i: int| 0 <= i < b.len() ==> '0' <= #[trigger] b[i] <= '9',
    ensures
        counts_in_short(a + " lines added"@) == seq!['+'] + a,
        counts_in_short(a + " line added"@) == seq!['+'] + a,
        counts_in_short(b + " lines removed"@) == seq!['-'] + b,
        counts_in_short(b + " line removed"@) == seq!['-'] + b,
        counts_in_short(a + " lines added"@ + ", "@ + b + " lines removed"@) == seq!['+'] + a + seq![' ', '-'] + b,
        counts_in_short(a + " line added"@ + ", "@ + b + " line removed"@) == seq!['+'] + a + seq![' ', '-'] + b,
        counts_in_short(a + " lines added"@ + ", "@ + b + " line removed"@) == seq!['+'] + a + seq![' ', '-'] + b,
        counts_in_short(a + " line added"@ + ", "@ + b + " lines removed"@) == seq!['+'] + a + seq![' ', '-'] + b,
{
    lemma_tails();
    lemma_count(a, " lines added"@, '+');
    lemma_count(a, " line added"@, '+');
    lemma_count(b, " lines removed"@, '-');
    lemma_count(b, " line removed"@, '-');
    lemma_two_counts(a, " lines added"@, b, " lines removed"@);
    lemma_two_counts(a, " line added"@, b, " line removed"@);
    lemma_two_counts(a, " lines added"@, b, " line removed"@);
    lemma_two_counts(a, " line added"@, b, " lines removed"@);
}

spec fn told(tail: Seq<char>) -> bool {
    tail == " lines added"@ || tail == " line added"@ || tail == " lines removed"@ || tail == " line removed"@
}

proof fn lemma_tails()
    ensures
        " lines added"@.len() == 12 && " line added"@.len() == 11 && " lines removed"@.len() == 14 && " line removed"@.len() == 13,
        " lines added"@[11] == 'd' && " lines added"@[5] == 's' && " line added"@[5] == ' ' && " line added"@[10] == 'd',
        " lines removed"@[5] == 's' && " line removed"@[5] == ' ',
        " lines added"@[7] == 'a' && " line added"@[6] == 'a' && " lines removed"@[7] == 'r' && " line removed"@[6] == 'r',
        " lines added"@[6] == ' ' && " lines removed"@[6] == ' ',
        forall|i: int| 0 <= i < 12 ==> #[trigger] " lines added"@[i] != ',',
        forall|i: int| 0 <= i < 11 ==> #[trigger] " line added"@[i] != ',',
        forall|i: int| 0 <= i < 14 ==> #[trigger] " lines removed"@[i] != ',',
        forall|i: int| 0 <= i < 13 ==> #[trigger] " line removed"@[i] != ',',
        " lines added"@[10] == 'e' && " lines removed"@[10] == 'o' && " lines removed"@[11] == 'v',
        " line removed"@[10] == 'v' && " line removed"@[9] == 'o',
        " lines added"@[9] == 'd' && " line added"@[8] == 'd' && " line added"@[9] == 'e',
        " lines added"@[8] == 'd' && " line added"@[7] == 'd',
        " lines removed"@[8] == 'e' && " lines removed"@[9] == 'm' && " line removed"@[7] == 'e' && " line removed"@[8] == 'm',
{
    reveal_strlit(" lines added");
    reveal_strlit(" line added");
    reveal_strlit(" lines removed");
    reveal_strlit(" line removed");
}

proof fn lemma_ends(a: Seq<char>, tail: Seq<char>)
    ensures
        ends_in(a + tail, tail),
        (a + tail).take((a + tail).len() - tail.len()) == a,
{
    let s = a + tail;
    assert(s.subrange(s.len() - tail.len(), s.len() as int) =~= tail);
    assert(s.take(s.len() - tail.len()) =~= a);
}

proof fn lemma_ends_not(s: Seq<char>, other: Seq<char>, back: int)
    requires
        0 < back <= other.len(),
        s.len() < other.len() || s[s.len() - back] != other[other.len() - back],
    ensures
        !ends_in(s, other),
{
    if ends_in(s, other) {
        let k = s.len() - other.len();
        assert(s.subrange(k, k + other.len())[other.len() - back] == s[s.len() - back]);
    }
}

proof fn lemma_one_count(a: Seq<char>, tail: Seq<char>, sign: char)
    requires
        told(tail),
        sign == '+' <==> tail == " lines added"@ || tail == " line added"@,
        sign == '+' || sign == '-',
    ensures
        count_in_short(a + tail) == seq![sign] + a,
{
    lemma_tails();
    let s = a + tail;
    lemma_ends(a, tail);
    assert forall|i: int| 0 < i <= tail.len() implies #[trigger] s[s.len() - i] == tail[tail.len() - i] by {}
    if tail == " lines added"@ {
    } else if tail == " line added"@ {
        assert(s[s.len() - 7] == tail[4]);
        reveal_strlit(" line added");
        reveal_strlit(" lines added");
        lemma_ends_not(s, " lines added"@, 7);
    } else if tail == " lines removed"@ {
        assert(s[s.len() - 3] == tail[11]);
        lemma_ends_not(s, " lines added"@, 3);
        lemma_ends_not(s, " line added"@, 3);
    } else {
        assert(s[s.len() - 3] == tail[10]);
        lemma_ends_not(s, " lines added"@, 3);
        lemma_ends_not(s, " line added"@, 3);
        assert(s[s.len() - 9] == tail[4]);
        reveal_strlit(" line removed");
        reveal_strlit(" lines removed");
        lemma_ends_not(s, " lines removed"@, 9);
    }
}

proof fn lemma_no_comma(a: Seq<char>, tail: Seq<char>)
    requires
        told(tail),
        forall|i: int| 0 <= i < a.len() ==> '0' <= #[trigger] a[i] <= '9',
    ensures
        forall|i: int| 0 <= i < (a + tail).len() ==> #[trigger] (a + tail)[i] != ',',
{
    lemma_tails();
    let s = a + tail;
    assert forall|i: int| 0 <= i < s.len() implies #[trigger] s[i] != ',' by {
        if i < a.len() {
            assert(s[i] == a[i]);
        } else {
            assert(s[i] == tail[i - a.len()]);
        }
    }
}

proof fn lemma_count(a: Seq<char>, tail: Seq<char>, sign: char)
    requires
        told(tail),
        sign == '+' <==> tail == " lines added"@ || tail == " line added"@,
        sign == '+' || sign == '-',
        forall|i: int| 0 <= i < a.len() ==> '0' <= #[trigger] a[i] <= '9',
    ensures
        counts_in_short(a + tail) == seq![sign] + a,
{
    let s = a + tail;
    lemma_one_count(a, tail, sign);
    lemma_no_comma(a, tail);
    reveal_strlit(", ");
    let p = ", "@;
    assert(p.len() == 2 && p[0] == ',');
    what_occurs_is_a_part(s, p);
    if first_occurrence(s, p, 0) is Some {
        let k = first_occurrence(s, p, 0)->0;
        assert(s.subrange(k, k + 2)[0] == s[k]);
    }
}

proof fn lemma_two_counts(a: Seq<char>, x: Seq<char>, b: Seq<char>, y: Seq<char>)
    requires
        x == " lines added"@ || x == " line added"@,
        y == " lines removed"@ || y == " line removed"@,
        forall|i: int| 0 <= i < a.len() ==> '0' <= #[trigger] a[i] <= '9',
        forall|i: int| 0 <= i < b.len() ==> '0' <= #[trigger] b[i] <= '9',
    ensures
        counts_in_short(a + x + ", "@ + b + y) == seq!['+'] + a + seq![' ', '-'] + b,
{
    let p = ", "@;
    let f = a + x;
    let t = b + y;
    let s = f + p + t;
    assert(told(x) && told(y)) by {}
    assert(x != " lines removed"@ && x != " line removed"@ && y != " lines added"@ && y != " line added"@) by {
        lemma_tails();
    }
    lemma_one_count(a, x, '+');
    lemma_count(b, y, '-');
    lemma_no_comma(a, x);
    lemma_first_comma(f, t);
    assert(a + x + p + b + y =~= s);
    assert(seq!['+'] + a + seq![' '] + (seq!['-'] + b) =~= seq!['+'] + a + seq![' ', '-'] + b);
}

proof fn lemma_first_comma(f: Seq<char>, t: Seq<char>)
    requires
        forall|i: int| 0 <= i < f.len() ==> #[trigger] f[i] != ',',
    ensures
        first_occurrence(f + ", "@ + t, ", "@, 0) == Some(f.len() as int),
        (f + ", "@ + t).take(f.len() as int) == f,
        (f + ", "@ + t).skip(f.len() as int + 2) == t,
        (f + ", "@ + t).len() == f.len() + 2 + t.len(),
{
    reveal_strlit(", ");
    let p = ", "@;
    assert(p.len() == 2 && p[0] == ',');
    let s = f + p + t;
    let k = f.len() as int;
    assert(s.subrange(k, k + 2) =~= p);
    assert(stands_at(s, p, k));
    assert(occurs(s, p));
    what_occurs_is_a_part(s, p);
    let q = first_occurrence(s, p, 0)->0;
    if q < k {
        assert(s.subrange(q, q + 2)[0] == s[q]);
        assert(s[q] == f[q]);
    } else if k < q {
        assert(s.subrange(k, k + p.len()) == p);
    }
    assert(s.take(k) =~= f);
    assert(s.skip(k + 2) =~= t);
}

proof fn lemma_first_line(lines: Seq<Seq<char>>, p: spec_fn(Seq<char>) -> bool, from: int, n: int)
    requires
        0 <= from <= n <= lines.len(),
        n < lines.len() ==> p(lines[n]),
        forall|i: int| 0 <= i < n ==> !p(#[trigger] lines[i]),
    ensures
        first_line(lines, p, from) == if n < lines.len() {
            Some(n)
        } else {
            None
        },
    decreases n - from,
{
    if from < n {
        assert(!p(lines[from]));
        lemma_first_line(lines, p, from + 1, n);
    }
}

/// A result is shown from the first line on that starts with `--- ` or `@@`; before the body
/// stand the lines that start with `--- ` or `+++ `, and the body begins with the first other
/// line, or with one that starts with `@@`. All its lines are rows.
pub proof fn a_diff_is_shown_from_its_first_line_on(
    v: DiffView,
    result: Seq<char>,
    talk: Seq<Seq<char>>,
    head: Seq<Seq<char>>,
    body: Seq<Seq<char>>,
)
    requires
        shows(v, result),
        lines_from(result, 0) == talk + head + body,
        (head + body).len() > 0,
        forall|i: int| 0 <= i < talk.len() ==> !stands_at(#[trigger] talk[i], "--- "@, 0) && !stands_at(talk[i], "@@"@, 0),
        stands_at((head + body)[0], "--- "@, 0) || stands_at((head + body)[0], "@@"@, 0),
        forall|i: int|
            0 <= i < head.len() ==> !stands_at(#[trigger] head[i], "@@"@, 0) && (stands_at(head[i], "--- "@, 0) || stands_at(
                head[i],
                "+++ "@,
                0,
            )),
        body.len() > 0 ==> stands_at(body[0], "@@"@, 0) || !stands_at(body[0], "--- "@, 0) && !stands_at(body[0], "+++ "@, 0),
    ensures
        v is Diff,
        views(v->Diff_0@) == head,
        row_models(v->Diff_1@) == rows_of(body),
{
    let lines = lines_from(result, 0);
    let p = |l: Seq<char>| starts_diff(l);
    let q = |l: Seq<char>| starts_body(l);
    let n = talk.len() as int;
    assert forall|i: int| 0 <= i < n implies !p(#[trigger] lines[i]) by {
        assert(lines[i] == talk[i]);
    }
    assert(lines[n] == (head + body)[0]);
    assert(p(lines[n]));
    lemma_first_line(lines, p, 0, n);
    let diff = lines.skip(n);
    assert(diff =~= head + body);
    let m = head.len() as int;
    assert forall|i: int| 0 <= i < m implies !q(#[trigger] diff[i]) by {
        assert(diff[i] == head[i]);
    }
    if body.len() > 0 {
        assert(diff[m] == body[0]);
        assert(q(diff[m]));
    }
    lemma_first_line(diff, q, 0, m);
    assert(diff.take(m) =~= head);
    assert(diff.skip(m) =~= body);
}

/// A result without lines is shown as it is.
pub proof fn an_empty_result_is_shown_as_it_is(v: DiffView, result: Seq<char>)
    requires
        shows(v, result),
        lines_from(result, 0).len() == 0,
    ensures
        v is Plain,
        v->Plain_0@ == result,
{
    let lines = lines_from(result, 0);
    assert(first_line(lines, |l: Seq<char>| starts_diff(l), 0) is None);
    assert(lines.skip(0).len() == 0);
}

/// What stands in parentheses stands between the first opening and the last closing one.
pub proof fn parentheses_hold_what_stands_between_them(a: Seq<char>, m: Seq<char>, z: Seq<char>)
    requires
        forall|i: int| 0 <= i < a.len() ==> #[trigger] a[i] != '(',
        forall|i: int| 0 <= i < z.len() ==> #[trigger] z[i] != ')',
    ensures
        in_parentheses(a + seq!['('] + m + seq![')'] + z) == Some(m),
{
    let s = a + seq!['('] + m + seq![')'] + z;
    let p = a.len() as int;
    let q = p + 1 + m.len();
    reveal_strlit("(");
    assert("("@ =~= seq!['(']);
    assert(s[p] == '(');
    assert(s[q] == ')');
    assert forall|i: int| 0 <= i < p implies #[trigger] s[i] != '(' by {
        assert(s[i] == a[i]);
    }
    lemma_first_sign(s, '(', 0, p);
    assert forall|i: int| q < i < s.len() implies #[trigger] s[i] != ')' by {
        assert(s[i] == z[i - q - 1]);
    }
    lemma_last_sign(s, ')', s.len(), q);
    assert(s.subrange(p + 1, q) =~= m);
}

proof fn lemma_last_sign(s: Seq<char>, c: char, n: nat, k: int)
    requires
        0 <= k < n <= s.len(),
        s[k] == c,
        forall|i: int| k < i < s.len() ==> #[trigger] s[i] != c,
    ensures
        last_place(s, c, n) == Some(k),
    decreases n,
{
    if k < n - 1 {
        assert(s[n - 1] != c);
        lemma_last_sign(s, c, (n - 1) as nat, k);
    }
}

/// The counts are those of the first line that has any in parentheses.
pub proof fn the_first_counts_are_told(lines: Seq<Seq<char>>, from: int, i: int, s: Seq<char>)
    requires
        0 <= from,
    ensures
        from <= i < lines.len() && in_parentheses(lines[i]) == Some(s) && counts_in_short(s).len() > 0 && (forall|k: int|
            from <= k < i ==> (#[trigger] in_parentheses(lines[k])) is None) ==> stat_from(lines, from) == counts_in_short(s),
        (forall|k: int| from <= k < lines.len() ==> (#[trigger] in_parentheses(lines[k])) is None) ==> stat_from(lines, from).len() == 0,
    decreases lines.len() - from,
{
    if from < lines.len() {
        the_first_counts_are_told(lines, from + 1, i, s);
        if from <= i < lines.len() && from < i && (forall|k: int| from <= k < i ==> (#[trigger] in_parentheses(lines[k])) is None) {
            assert(in_parentheses(lines[from]) is None);
        }
        if forall|k: int| from <= k < lines.len() ==> (#[trigger] in_parentheses(lines[k])) is None {
            assert(in_parentheses(lines[from]) is None);
        }
    }
}

} // verus!
