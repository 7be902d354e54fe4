//! The library of books: importing, what the list says of each book, and the
//! books of a study plan.
use crate::error::{clock_text, made_of, ErrorInfo, ErrorSeverity, ErrorSignal, ErrorSource};
use crate::keyed::Table;
use crate::text::{blank, decimal, push_decimal, same_text, trim, trimmed, trimmed_is_empty_iff_blank};
use crate::tool_call::first_chars;
use crate::workspace::{Project, Workspace};
use vstd::prelude::*;

verus! {

/// `after` shows this warning in the banner, and otherwise what `before` shows.
pub open spec fn warned(
    before: ErrorSignal,
    after: ErrorSignal,
    code: Seq<char>,
    title: Seq<char>,
    message: Seq<char>,
) -> bool {
    &&& after.banner is Some
    &&& made_of(after.banner->0, code, title, message, ErrorSeverity::Warning, ErrorSource::General)
    &&& clock_text(after.banner->0.timestamp@)
    &&& after.modal == before.modal
    &&& after.toasts@ == before.toasts@
}

/// Shows a warning.
pub fn warn(errors: &mut ErrorSignal, code: &str, title: &str, message: &str)
    ensures
        warned(*old(errors), *final(errors), code@, title@, message@),
{
    errors.push(ErrorInfo::new(code, title, message, ErrorSeverity::Warning, ErrorSource::General));
}

// ── importing ──

/// The files that are being imported, one after the other, into the library or
/// into a plan; the books that came of them are then read, in the same order.
#[derive(Debug)]
pub struct BookImport {
    /// The names of the files.
    pub names: Vec<String>,
    /// The books are to be added to a plan.
    pub into_plan: bool,
    /// How many files have been tried.
    pub tried: usize,
    /// The books that came of them.
    pub imported: Vec<String>,
    /// How many of the books have been read.
    pub read: usize,
}

/// What is to be done next.
#[derive(Debug)]
pub enum ImportStep {
    /// Import the file with this number.
    Import(usize),
    /// Read this book.
    Parse(String),
    /// Show the list of books anew.
    Finish,
}

impl BookImport {
    pub open spec fn wf(self) -> bool {
        &&& self.tried <= self.names@.len()
        &&& self.imported@.len() <= self.tried
        &&& self.read <= self.imported@.len()
        &&& self.read > 0 ==> self.tried == self.names@.len()
    }

    pub fn new(names: Vec<String>, into_plan: bool) -> (r: BookImport)
        ensures
            r.wf(),
            r.names == names,
            r.into_plan == into_plan,
            r.tried == 0,
            r.imported@.len() == 0,
            r.read == 0,
    {
        BookImport { names, into_plan, tried: 0, imported: Vec::new(), read: 0 }
    }

    /// What is to be done next: first all files are imported, then all books are
    /// read.
    pub open spec fn next(self) -> ImportStep {
        if self.tried < self.names@.len() {
            ImportStep::Import(self.tried)
        } else if self.read < self.imported@.len() {
            ImportStep::Parse(self.imported@[self.read as int])
        } else {
            ImportStep::Finish
        }
    }

    /// What is to be done next.
    pub fn next_step(&self) -> (r: ImportStep)
        requires
            self.wf(),
        ensures
            r == self.next(),
    {
        if self.tried < self.names.len() {
            ImportStep::Import(self.tried)
        } else if self.read < self.imported.len() {
            ImportStep::Parse(self.imported[self.read].clone())
        } else {
            ImportStep::Finish
        }
    }

    /// The name of the file that is being imported.
    pub fn importing(&self) -> (r: Option<String>)
        requires
            self.wf(),
        ensures
            r == if self.tried < self.names@.len() {
                Some(self.names@[self.tried as int])
            } else {
                None
            },
    {
        if self.tried < self.names.len() {
            Some(self.names[self.tried].clone())
        } else {
            None
        }
    }

    /// `self` is `before` after its next file was imported as this book, or could
    /// not be.
    pub open spec fn took(self, before: BookImport, book: Option<String>) -> bool {
        &&& self.names == before.names
        &&& self.into_plan == before.into_plan
        &&& self.tried == before.tried + 1
        &&& self.read == before.read
        &&& self.imported@ == match book {
            Some(id) => before.imported@.push(id),
            None => before.imported@,
        }
    }

    /// `self` is `before` after its next book was read.
    pub open spec fn read_on(self, before: BookImport) -> bool {
        self == (BookImport { read: (before.read + 1) as usize, ..before })
    }

    /// A file was imported as the book with this id, or could not be. A book that is
    /// meant for a plan counts as chosen; it is handed out to be added to the plan.
    pub fn import_done(
        &mut self,
        outcome: Result<String, String>,
        selected: &mut Table<()>,
        errors: &mut ErrorSignal,
    ) -> (link: Option<String>)
        requires
            old(self).wf(),
            old(self).tried < old(self).names@.len(),
        ensures
            final(self).wf(),
            match outcome {
                Ok(id) => {
                    &&& final(self).took(*old(self), Some(id))
                    &&& *final(errors) == *old(errors)
                    &&& if old(self).into_plan {
                        link == Some(id) && final(selected)@ == old(selected)@.insert(id@, ())
                    } else {
                        link is None && *final(selected) == *old(selected)
                    }
                },
                Err(e) => {
                    &&& final(self).took(*old(self), None)
                    &&& warned(
                        *old(errors),
                        *final(errors),
                        "book-import-failed"@,
                        "import book failed"@,
                        e@,
                    )
                    &&& link is None
                    &&& *final(selected) == *old(selected)
                },
            },
    {
        let mut link: Option<String> = None;
        match outcome {
            Ok(id) => {
                if self.into_plan {
                    selected.insert(id.clone(), ());
                    link = Some(id.clone());
                }
                self.imported.push(id);
            },
            Err(e) => {
                warn(errors, "book-import-failed", "import book failed", e.as_str());
            },
        }
        let count = self.names.len();
        assert(self.tried < count);
        self.tried = self.tried + 1;
        link
    }

    /// A book was read, or could not be, which stays unmentioned for a book of a plan.
    pub fn parse_done(&mut self, outcome: Result<(), String>, errors: &mut ErrorSignal)
        requires
            old(self).wf(),
            old(self).tried == old(self).names@.len(),
            old(self).read < old(self).imported@.len(),
        ensures
            final(self).wf(),
            final(self).read_on(*old(self)),
            match outcome {
                Ok(_) => *final(errors) == *old(errors),
                Err(e) => if old(self).into_plan {
                    *final(errors) == *old(errors)
                } else {
                    warned(
                        *old(errors),
                        *final(errors),
                        "book-parse-failed"@,
                        "parse book failed"@,
                        e@,
                    )
                },
            },
    {
        if let Err(e) = outcome {
            if !self.into_plan {
                warn(errors, "book-parse-failed", "parse book failed", e.as_str());
            }
        }
        let count = self.imported.len();
        assert(self.read < count);
        self.read = self.read + 1;
    }
}

/// How much is left to be done.
pub open spec fn left_to_do(i: BookImport) -> int {
    2 * (i.names@.len() - i.tried) + (i.imported@.len() - i.read)
}

/// Every step of an import leaves less to be done, and nothing is left exactly
/// when it finishes.
pub proof fn an_import_ends(before: BookImport, after: BookImport, book: Option<String>)
    requires
        before.wf(),
        match before.next() {
            ImportStep::Import(_) => after.took(before, book),
            ImportStep::Parse(_) => after.read_on(before),
            ImportStep::Finish => false,
        },
    ensures
        after.wf(),
        0 <= left_to_do(after) < left_to_do(before),
        left_to_do(after) == 0 <==> after.next() is Finish,
{
}

// ── the list ──

/// How far the recognition of a book's pages has come: the pages that are done,
/// all pages, and whether it is running.
pub type OcrProgress = (u32, u32, bool);

/// What is known of a book's recognition.
#[derive(Debug)]
pub struct OcrState {
    pub id: String,
    pub done: u32,
    pub total: u32,
    pub running: bool,
}

/// The recognition of the first `n` books, as far as it has begun. Of two with
/// the same id the later one counts.
pub open spec fn begun(s: Seq<OcrState>, n: nat) -> Map<Seq<char>, OcrProgress>
    decreases n,
{
    if n == 0 {
        Map::empty()
    } else {
        let prev = begun(s, (n - 1) as nat);
        let x = s[n - 1];
        if x.running || x.done > 0 {
            prev.insert(x.id@, (x.done, x.total, x.running))
        } else {
            prev
        }
    }
}

/// The recognition of the books, as far as it has begun.
pub fn ocr_snapshot(states: &Vec<OcrState>) -> (r: Table<OcrProgress>)
    ensures
        r@ == begun(states@, states@.len()),
{
    let mut r: Table<OcrProgress> = Table::new();
    let mut i: usize = 0;
    while i < states.len()
        invariant
            i <= states@.len(),
            r@ == begun(states@, i as nat),
        decreases states@.len() - i,
    {
        if states[i].running || states[i].done > 0 {
            r.insert(states[i].id.clone(), (states[i].done, states[i].total, states[i].running));
        }
        i = i + 1;
    }
    r
}

/// What the list says of a book: whether it is being read, how far its
/// recognition has come, how many pages it has.
pub open spec fn book_status(parsing: bool, progress: Option<OcrProgress>, pages: Option<u32>) -> Seq<char> {
    if parsing {
        "解析中"@
    } else {
        match progress {
            Some(p) => if p.2 {
                "OCR "@ + decimal(p.0 as nat) + "/"@ + decimal(p.1 as nat)
            } else if p.1 > 0 {
                "已解析 "@ + decimal(p.1 as nat) + " 页(含 OCR "@ + decimal(p.0 as nat) + ")"@
            } else {
                "已 OCR "@ + decimal(p.0 as nat) + " 页"@
            },
            None => match pages {
                Some(n) => "已解析 "@ + decimal(n as nat) + " 页"@,
                None => "未解析"@,
            },
        }
    }
}

/// What the list says of a book.
pub fn book_status_text(parsing: bool, progress: Option<OcrProgress>, pages: Option<u32>) -> (r: String)
    ensures
        r@ == book_status(parsing, progress, pages),
{
    let mut r = String::new();
    if parsing {
        r.append("解析中");
        assert(r@ =~= "解析中"@);
        return r;
    }
    match progress {
        Some((done, total, running)) => {
            if running {
                r.append("OCR ");
                push_decimal(&mut r, done as u64);
                r.append("/");
                push_decimal(&mut r, total as u64);
            } else if total > 0 {
                r.append("已解析 ");
                push_decimal(&mut r, total as u64);
                r.append(" 页(含 OCR ");
                push_decimal(&mut r, done as u64);
                r.append(")");
            } else {
                r.append("已 OCR ");
                push_decimal(&mut r, done as u64);
                r.append(" 页");
            }
        },
        None => match pages {
            Some(n) => {
                r.append("已解析 ");
                push_decimal(&mut r, n as u64);
                r.append(" 页");
            },
            None => {
                r.append("未解析");
            },
        },
    }
    assert(r@ =~= book_status(parsing, progress, pages));
    r
}

/// The style class of what the list says of a book.
pub fn badge_class(parsing: bool, progress: Option<OcrProgress>, has_pages: bool) -> (r: &'static str)
    ensures
        r@ == if parsing || (progress is Some && (progress->0).2) {
            "books-panel-item-badge parsing"@
        } else if progress is Some || has_pages {
            "books-panel-item-badge parsed"@
        } else {
            "books-panel-item-badge"@
        },
{
    if parsing {
        return "books-panel-item-badge parsing";
    }
    match progress {
        Some((_, _, running)) => {
            if running {
                "books-panel-item-badge parsing"
            } else {
                "books-panel-item-badge parsed"
            }
        },
        None => {
            if has_pages {
                "books-panel-item-badge parsed"
            } else {
                "books-panel-item-badge"
            }
        },
    }
}

/// The day of a time: its first ten characters.
pub fn created_day(created_at: &str) -> (r: String)
    ensures
        r@ == if created_at@.len() < 10 {
            created_at@
        } else {
            created_at@.take(10)
        },
{
    first_chars(created_at, 10)
}

/// The first `n` texts, a comma between them.
pub open spec fn comma_joined(s: Seq<String>, n: nat) -> Seq<char>
    decreases n,
{
    if n == 0 {
        Seq::empty()
    } else if n == 1 {
        s[0]@
    } else {
        comma_joined(s, (n - 1) as nat) + ", "@ + s[n - 1]@
    }
}

/// Where a book is used: the names of the plans, or that there are none.
pub open spec fn references(plans: Seq<String>) -> Seq<char> {
    if comma_joined(plans, plans.len()).len() == 0 {
        "未引入"@
    } else {
        "引入于: "@ + comma_joined(plans, plans.len())
    }
}

/// The style class of the text that says which plans use a book.
pub fn reference_class(plans: &Vec<String>) -> (r: &'static str)
    ensures
        r@ == if comma_joined(plans@, plans@.len()).len() == 0 {
            "books-panel-item-refs empty"@
        } else {
            "books-panel-item-refs"@
        },
{
    if join_commas(plans).as_str().is_empty() {
        "books-panel-item-refs empty"
    } else {
        "books-panel-item-refs"
    }
}

fn join_commas(s: &Vec<String>) -> (r: String)
    ensures
        r@ == comma_joined(s@, s@.len()),
{
    let mut r = String::new();
    let mut i: usize = 0;
    while i < s.len()
        invariant
            i <= s@.len(),
            r@ == comma_joined(s@, i as nat),
        decreases s@.len() - i,
    {
        if i > 0 {
            r.append(", ");
        }
        let ghost before = r@;
        r.append(s[i].as_str());
        assert(r@ =~= comma_joined(s@, (i + 1) as nat));
        i = i + 1;
    }
    r
}

/// Where a book is used.
pub fn reference_text(plans: &Vec<String>) -> (r: String)
    ensures
        r@ == references(plans@),
{
    let names = join_commas(plans);
    if names.as_str().is_empty() {
        "未引入".to_owned()
    } else {
        let mut r = String::new();
        r.append("引入于: ");
        r.append(names.as_str());
        assert(r@ =~= "引入于: "@ + names@);
        r
    }
}

/// The button for a book's recognition, where there is one: to stop it while it
/// runs, else to start it again.
pub fn ocr_button(progress: Option<OcrProgress>) -> (r: Option<&'static str>)
    ensures
        r is Some <==> progress is Some,
        progress is Some ==> r->0@ == if (progress->0).2 {
            "停止 OCR"@
        } else {
            "重新 OCR"@
        },
{
    match progress {
        Some((_, _, running)) => {
            if running {
                Some("停止 OCR")
            } else {
                Some("重新 OCR")
            }
        },
        None => None,
    }
}

// ── the books of a plan ──

/// How many pages a book of a plan has, where it has been read.
pub fn pages_text(pages: Option<u32>) -> (r: String)
    ensures
        r@ == match pages {
            Some(n) => decimal(n as nat) + " 页"@,
            None => "未解析"@,
        },
{
    match pages {
        Some(n) => {
            let mut r = String::new();
            push_decimal(&mut r, n as u64);
            r.append(" 页");
            assert(r@ =~= decimal(n as nat) + " 页"@);
            r
        },
        None => "未解析".to_owned(),
    }
}

/// A book was taken into a plan, or out of it, or could not be.
pub fn book_linked(
    selected: &mut Table<()>,
    errors: &mut ErrorSignal,
    book_id: &str,
    on: bool,
    outcome: Result<(), String>,
)
    ensures
        match outcome {
            Ok(_) => final(selected)@ == (if on {
                old(selected)@.insert(book_id@, ())
            } else {
                old(selected)@.remove(book_id@)
            }) && *final(errors) == *old(errors),
            Err(e) => *final(selected) == *old(selected) && warned(
                *old(errors),
                *final(errors),
                "book-link-failed"@,
                "update books failed"@,
                e@,
            ),
        },
{
    match outcome {
        Ok(_) => {
            if on {
                selected.insert(book_id.to_owned(), ());
            } else {
                let _ = selected.remove(book_id);
            }
        },
        Err(e) => {
            warn(errors, "book-link-failed", "update books failed", e.as_str());
        },
    }
}

/// What the ids stand for, as a selection.
pub open spec fn ids_selected(s: Seq<String>, n: nat) -> Map<Seq<char>, ()>
    decreases n,
{
    if n == 0 {
        Map::empty()
    } else {
        ids_selected(s, (n - 1) as nat).insert(s[n - 1]@, ())
    }
}

/// The selection of the books that a plan has.
pub fn selection_of(ids: &Vec<String>) -> (r: Table<()>)
    ensures
        r@ == ids_selected(ids@, ids@.len()),
{
    let mut r: Table<()> = Table::new();
    let mut i: usize = 0;
    while i < ids.len()
        invariant
            i <= ids@.len(),
            r@ == ids_selected(ids@, i as nat),
        decreases ids@.len() - i,
    {
        r.insert(ids[i].clone(), ());
        i = i + 1;
    }
    r
}

/// The places of the study plans among the first `n` projects: all but the
/// default project.
pub open spec fn plan_places(projects: Seq<Project>, default_id: Seq<char>, n: nat) -> Seq<usize>
    decreases n,
{
    if n == 0 {
        Seq::empty()
    } else if projects[n - 1].id@ != default_id {
        plan_places(projects, default_id, (n - 1) as nat).push((n - 1) as usize)
    } else {
        plan_places(projects, default_id, (n - 1) as nat)
    }
}

impl Workspace {
    /// The places of the study plans among the projects.
    pub fn study_plans(&self) -> (r: Vec<usize>)
        ensures
            r@ == plan_places(self.projects@, self.default_project_id@, self.projects@.len()),
    {
        let mut r: Vec<usize> = Vec::new();
        let mut i: usize = 0;
        while i < self.projects.len()
            invariant
                i <= self.projects@.len(),
                r@ == plan_places(self.projects@, self.default_project_id@, i as nat),
            decreases self.projects@.len() - i,
        {
            if !same_text(self.projects[i].id.as_str(), self.default_project_id.as_str()) {
                r.push(i);
            }
            i = i + 1;
        }
        r
    }
}

/// The form for a new study plan.
#[derive(Debug)]
pub struct PlanForm {
    pub shown: bool,
    pub name: String,
}

impl PlanForm {
    pub fn new() -> (r: PlanForm)
        ensures
            !r.shown,
            r.name@.len() == 0,
    {
        PlanForm { shown: false, name: String::new() }
    }

    /// Shows an empty form, or hides it.
    pub fn toggle(&mut self)
        ensures
            final(self).shown == !old(self).shown,
            old(self).shown ==> final(self).name == old(self).name,
            !old(self).shown ==> final(self).name@.len() == 0,
    {
        self.shown = !self.shown;
        if self.shown {
            self.name = String::new();
        }
    }

    /// The user wants to save. Returns the name without the white space at its
    /// ends, and hides the form, unless there is none.
    pub fn save(&mut self) -> (r: Option<String>)
        ensures
            if blank(old(self).name@) {
                r is None && *final(self) == *old(self)
            } else {
                &&& r is Some
                &&& r->0@ == trimmed(old(self).name@)
                &&& !final(self).shown
                &&& final(self).name@.len() == 0
            },
    {
        let name = trim(self.name.as_str());
        proof {
            trimmed_is_empty_iff_blank(self.name@);
        }
        if name.as_str().is_empty() {
            return None;
        }
        self.shown = false;
        self.name = String::new();
        Some(name)
    }
}

/// The study plans are all projects but the default one, in order.
pub proof fn every_project_but_the_default_is_a_plan(s: Seq<Project>, default_id: Seq<char>, n: nat)
    requires
        n <= s.len() <= usize::MAX,
    ensures
        forall|k: int| 0 <= k < plan_places(s, default_id, n).len() ==> 0 <= #[trigger] plan_places(s, default_id, n)[k] < n && s[plan_places(s, default_id, n)[k] as int].id@ != default_id,
        forall|i: int| 0 <= i < n && (#[trigger] s[i]).id@ != default_id ==> plan_places(s, default_id, n).contains(i as usize),
        forall|j: int, k: int| 0 <= j < k < plan_places(s, default_id, n).len() ==> #[trigger] plan_places(s, default_id, n)[j] < #[trigger] plan_places(s, default_id, n)[k],
    decreases n,
{
    let now = plan_places(s, default_id, n);
    if n > 0 {
        every_project_but_the_default_is_a_plan(s, default_id, (n - 1) as nat);
        let before = plan_places(s, default_id, (n - 1) as nat);
        assert forall|i: int| 0 <= i < n && (#[trigger] s[i]).id@ != default_id implies now.contains(i as usize) by {
            if i < n - 1 {
                assert(before.contains(i as usize));
                let k = choose|k: int| 0 <= k < before.len() && before[k] == i as usize;
                assert(now[k] == i as usize);
            } else {
                assert(now[now.len() - 1] == i as usize);
            }
        }
    }
}

/// Names are joined by commas, in order.
pub proof fn names_are_joined_by_commas(s: Seq<String>, x: String)
    ensures
        comma_joined(Seq::empty(), 0) == Seq::<char>::empty(),
        comma_joined(seq![x], 1) == x@,
        s.len() > 0 ==> comma_joined(s.push(x), s.len() + 1) == comma_joined(s, s.len()) + seq![',', ' '] + x@,
{
    reveal_strlit(", ");
    assert(", "@ =~= seq![',', ' ']);
    if s.len() > 0 {
        lemma_joined_prefix(s, x, s.len());
        assert(s.push(x)[s.len() as int] == x);
    }
}

proof fn lemma_joined_prefix(s: Seq<String>, x: String, n: nat)
    requires
        n <= s.len(),
    ensures
        comma_joined(s.push(x), n) == comma_joined(s, n),
    decreases n,
{
    if n > 0 {
        lemma_joined_prefix(s, x, (n - 1) as nat);
        assert(s.push(x)[n - 1] == s[n - 1]);
        assert(s.push(x)[0] == s[0]);
    }
}

/// Exactly the books of a plan are chosen.
pub proof fn exactly_the_named_books_are_chosen(s: Seq<String>, n: nat, id: Seq<char>)
    requires
        n <= s.len(),
    ensures
        ids_selected(s, n).dom().contains(id) <==> exists|i: int| 0 <= i < n && (#[trigger] s[i])@ == id,
    decreases n,
{
    if n > 0 {
        exactly_the_named_books_are_chosen(s, (n - 1) as nat, id);
        if s[n - 1]@ == id {
            assert(s[n - 1]@ == id);
        }
        if exists|i: int| 0 <= i < n - 1 && (#[trigger] s[i])@ == id {
            let i = choose|i: int| 0 <= i < n - 1 && (#[trigger] s[i])@ == id;
            assert(s[i]@ == id);
        }
    }
}

/// Recognition shows for a book once it runs or has done a page, as it was told last; not
/// before.
pub proof fn recognition_shows_as_it_was_told_last(s: Seq<OcrState>, n: nat, i: int)
    requires
        0 <= i < n <= s.len(),
    ensures
        (s[i].running || s[i].done > 0) && (forall|k: int|
            i < k < n && (#[trigger] s[k]).id@ == s[i].id@ ==> !s[k].running && s[k].done == 0) ==> begun(s, n).dom().contains(s[i].id@)
            && begun(s, n)[s[i].id@] == (s[i].done, s[i].total, s[i].running),
        (forall|k: int| 0 <= k < n && (#[trigger] s[k]).id@ == s[i].id@ ==> !s[k].running && s[k].done == 0) ==> !begun(s, n).dom().contains(
            s[i].id@,
        ),
{
    lemma_begun(s, n, i);
    lemma_not_begun(s, n, s[i].id@);
}

proof fn lemma_begun(s: Seq<OcrState>, n: nat, i: int)
    requires
        0 <= i < n <= s.len(),
    ensures
        (s[i].running || s[i].done > 0) && (forall|k: int|
            i < k < n && (#[trigger] s[k]).id@ == s[i].id@ ==> !s[k].running && s[k].done == 0) ==> begun(s, n).dom().contains(s[i].id@)
            && begun(s, n)[s[i].id@] == (s[i].done, s[i].total, s[i].running),
    decreases n,
{
    if i < n - 1 {
        lemma_begun(s, (n - 1) as nat, i);
        if s[n - 1].id@ == s[i].id@ {
            assert(s[n - 1].id@ == s[i].id@);
        }
    }
}

proof fn lemma_not_begun(s: Seq<OcrState>, n: nat, id: Seq<char>)
    requires
        n <= s.len(),
    ensures
        (forall|k: int| 0 <= k < n && (#[trigger] s[k]).id@ == id ==> !s[k].running && s[k].done == 0) ==> !begun(s, n).dom().contains(id),
    decreases n,
{
    if n > 0 {
        lemma_not_begun(s, (n - 1) as nat, id);
        if s[n - 1].id@ == id {
            assert(s[n - 1].id@ == id);
        }
    }
}

/// What a book's line says: that it is being read, before all else; then how far recognition
/// is; then how many pages were read, and how many of them were recognised.
pub proof fn a_book_says_how_far_it_is(p: OcrProgress, pages: Option<u32>, progress: Option<OcrProgress>)
    ensures
        book_status(true, progress, pages) == "解析中"@,
        p.2 ==> book_status(false, Some(p), pages) == "OCR "@ + decimal(p.0 as nat) + "/"@ + decimal(p.1 as nat),
        !p.2 && p.1 > 0 ==> book_status(false, Some(p), pages) == "已解析 "@ + decimal(p.1 as nat) + " 页(含 OCR "@ + decimal(p.0 as nat)
            + ")"@,
        !p.2 && p.1 == 0 ==> book_status(false, Some(p), pages) == "已 OCR "@ + decimal(p.0 as nat) + " 页"@,
        pages is Some ==> book_status(false, None, pages) == "已解析 "@ + decimal(pages->0 as nat) + " 页"@,
        pages is None ==> book_status(false, None, pages) == "未解析"@,
{
}

} // verus!
