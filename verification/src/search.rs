//! Searching the text of a book, page by page.
use crate::text::{
    chars_of, decimal, decimal_is_digits, find_chars, lines_from, lines_of, occurs, parse_number, parsed_number,
    reading_a_numeral_gives_the_number, string_of, trim, trimmed, views,
};
use vstd::prelude::*;

verus! {

/// The lower case of a text, as `str::to_lowercase` gives it.
pub uninterp spec fn lowercase(s: Seq<char>) -> Seq<char>;

/// The text in lower case: `str::to_lowercase`, whose result depends on the text
/// alone. What the lower case of a given character is stays open.
#[verifier::external_body]
pub(crate) fn to_lowercase(s: &str) -> (r: String)
    ensures
        r@ == lowercase(s@),
{
    s.to_lowercase()
}

// ── files in the order of their names ──

/// Name `a` comes before name `b`, from character `k` on.
pub open spec fn name_before(a: Seq<char>, b: Seq<char>, k: int) -> bool
    decreases a.len() - k,
{
    if k >= b.len() {
        false
    } else if k >= a.len() {
        true
    } else if a[k] != b[k] {
        a[k] < b[k]
    } else {
        name_before(a, b, k + 1)
    }
}

/// A page of the book as a file: its name and its text.
pub struct PageFile {
    pub name: String,
    pub text: String,
}

/// The files with one more put in behind those that do not come after it.
pub open spec fn insert_file(s: Seq<PageFile>, f: PageFile) -> Seq<PageFile>
    decreases s.len(),
{
    if s.len() == 0 || !name_before(f.name@, s.last().name@, 0) {
        s.push(f)
    } else {
        insert_file(s.drop_last(), f).push(s.last())
    }
}

/// The files in the order of their names.
pub open spec fn by_name(s: Seq<PageFile>) -> Seq<PageFile>
    decreases s.len(),
{
    if s.len() == 0 {
        s
    } else {
        insert_file(by_name(s.drop_last()), s.last())
    }
}

fn comes_before(a: &str, b: &str) -> (r: bool)
    ensures
        r == name_before(a@, b@, 0),
{
    let x = chars_of(a);
    let y = chars_of(b);
    let mut k: usize = 0;
    loop
        invariant
            x@ == a@,
            y@ == b@,
            k <= x@.len(),
            k <= y@.len(),
            name_before(a@, b@, 0) == name_before(a@, b@, k as int),
        decreases x@.len() - k,
    {
        if k >= y.len() {
            return false;
        }
        if k >= x.len() {
            return true;
        }
        if x[k] != y[k] {
            return x[k] < y[k];
        }
        k = k + 1;
    }
}

proof fn lemma_insert_file_at(s: Seq<PageFile>, f: PageFile, j: int)
    requires
        0 <= j <= s.len(),
        j == 0 || !name_before(f.name@, s[j - 1].name@, 0),
        forall|k: int| j <= k < s.len() ==> name_before(f.name@, (#[trigger] s[k]).name@, 0),
    ensures
        insert_file(s, f) == s.insert(j, f),
    decreases s.len(),
{
    if j == s.len() {
        assert(s.insert(j, f) =~= s.push(f));
    } else {
        lemma_insert_file_at(s.drop_last(), f, j);
        assert(s.insert(j, f) =~= s.drop_last().insert(j, f).push(s.last()));
    }
}

fn sort_files(files: Vec<PageFile>) -> (out: Vec<PageFile>)
    ensures
        out@ == by_name(files@),
{
    let ghost all = files@;
    let mut rest = files;
    let mut waiting: Vec<PageFile> = Vec::new();
    while rest.len() > 0
        invariant
            waiting@.len() + rest@.len() == all.len(),
            rest@ == all.take(rest@.len() as int),
            forall|i: int| 0 <= i < waiting@.len() ==> #[trigger] waiting@[i] == all[all.len() - 1 - i],
        decreases rest@.len(),
    {
        match rest.pop() {
            Some(f) => {
                waiting.push(f);
            },
            None => {},
        }
        assert(rest@ =~= all.take(rest@.len() as int));
    }
    let mut out: Vec<PageFile> = Vec::new();
    assert(all.take(0) =~= Seq::<PageFile>::empty());
    while waiting.len() > 0
        invariant
            waiting@.len() <= all.len(),
            forall|i: int| 0 <= i < waiting@.len() ==> #[trigger] waiting@[i] == all[all.len() - 1 - i],
            out@ == by_name(all.take(all.len() - waiting@.len())),
        decreases waiting@.len(),
    {
        let ghost done = all.len() - waiting@.len();
        match waiting.pop() {
            Some(f) => {
                assert(f == all[done]);
                let mut j = out.len();
                while j > 0
                    invariant
                        j <= out@.len(),
                        forall|k: int| j <= k < out@.len() ==> name_before(f.name@, (#[trigger] out@[k]).name@, 0),
                    ensures
                        j <= out@.len(),
                        j == 0 || !name_before(f.name@, out@[j - 1].name@, 0),
                        forall|k: int| j <= k < out@.len() ==> name_before(f.name@, (#[trigger] out@[k]).name@, 0),
                    decreases j,
                {
                    if !comes_before(f.name.as_str(), out[j - 1].name.as_str()) {
                        break;
                    }
                    j = j - 1;
                }
                proof {
                    lemma_insert_file_at(out@, f, j as int);
                    assert(all.take(done + 1).drop_last() =~= all.take(done));
                    assert(all.take(done + 1).last() == f);
                }
                out.insert(j, f);
            },
            None => {},
        }
    }
    assert(all.take(all.len() as int) =~= all);
    out
}

// ── hits ──

/// `s` without the endings `.md`, however many there are.
pub open spec fn without_md(s: Seq<char>) -> Seq<char>
    decreases s.len(),
{
    if s.len() >= 3 && s[s.len() - 3] == '.' && s[s.len() - 2] == 'm' && s[s.len() - 1] == 'd' {
        without_md(s.subrange(0, s.len() - 3))
    } else {
        s
    }
}

/// The page number that a file name spells; 0 where it spells none.
pub open spec fn page_number(name: Seq<char>) -> u32 {
    match parsed_number(without_md(name), u32::MAX as nat) {
        Some(n) => n as u32,
        None => 0,
    }
}

/// A line of a page, as it is and in lower case.
pub struct LoweredLine {
    pub text: String,
    pub lower: String,
}

/// A page with its lines.
pub struct LoweredPage {
    pub page: u32,
    pub lines: Vec<LoweredLine>,
}

/// The hits among the first `n` lines of a page: the lines in whose lower case
/// `needle` occurs, without the white space round them.
pub open spec fn hits_in_lines(page: u32, lines: Seq<(Seq<char>, Seq<char>)>, needle: Seq<char>, n: nat) -> Seq<
    (u32, Seq<char>),
>
    decreases n,
{
    if n == 0 {
        Seq::empty()
    } else {
        let before = hits_in_lines(page, lines, needle, (n - 1) as nat);
        if occurs(lines[n - 1].1, needle) {
            before.push((page, trimmed(lines[n - 1].0)))
        } else {
            before
        }
    }
}

/// The lines of a page, each with its lower case.
pub open spec fn lowered_view(lines: Seq<LoweredLine>) -> Seq<(Seq<char>, Seq<char>)> {
    lines.map_values(|l: LoweredLine| (l.text@, l.lower@))
}

/// The hits on the first `n` pages.
pub open spec fn hits_on_pages(pages: Seq<LoweredPage>, needle: Seq<char>, n: nat) -> Seq<(u32, Seq<char>)>
    decreases n,
{
    if n == 0 {
        Seq::empty()
    } else {
        let p = pages[n - 1];
        hits_on_pages(pages, needle, (n - 1) as nat) + hits_in_lines(
            p.page,
            lowered_view(p.lines@),
            needle,
            p.lines@.len(),
        )
    }
}

/// How many hits are shown, `k` of them being there already with `total`
/// characters: as long as neither limit is reached.
pub open spec fn shown_hits(hits: Seq<(u32, Seq<char>)>, max_results: nat, max_chars: nat, k: int, total: nat) -> int
    decreases hits.len() - k,
{
    if k >= hits.len() || k >= max_results || total >= max_chars {
        k
    } else {
        shown_hits(hits, max_results, max_chars, k + 1, total + hits[k].1.len() + 1)
    }
}

/// The hits that are shown.
pub open spec fn limited(hits: Seq<(u32, Seq<char>)>, max_results: nat, max_chars: nat) -> Seq<(u32, Seq<char>)> {
    hits.take(shown_hits(hits, max_results, max_chars, 0, 0))
}

/// The lines of a text, each with its lower case.
pub open spec fn lines_with_lower(text: Seq<char>) -> Seq<(Seq<char>, Seq<char>)> {
    lines_from(text, 0).map_values(|l: Seq<char>| (l, lowercase(l)))
}

/// The hits in the first `n` files.
pub open spec fn hits_in_files(files: Seq<PageFile>, query: Seq<char>, n: nat) -> Seq<(u32, Seq<char>)>
    decreases n,
{
    if n == 0 {
        Seq::empty()
    } else {
        let f = files[n - 1];
        let lines = lines_with_lower(f.text@);
        hits_in_files(files, query, (n - 1) as nat) + hits_in_lines(
            page_number(f.name@),
            lines,
            lowercase(query),
            lines.len(),
        )
    }
}

/// The hits of a search in the order of the files and lines, up to the limits.
pub open spec fn search_hits(files: Seq<PageFile>, query: Seq<char>, max_results: nat, max_chars: nat) -> Seq<
    (u32, Seq<char>),
> {
    let sorted = by_name(files);
    limited(hits_in_files(sorted, query, sorted.len()), max_results, max_chars)
}

pub open spec fn hit_views(v: Seq<(u32, String)>) -> Seq<(u32, Seq<char>)> {
    v.map_values(|h: (u32, String)| (h.0, h.1@))
}

fn page_of(name: &str) -> (r: u32)
    ensures
        r == page_number(name@),
{
    let chars = chars_of(name);
    let mut n = chars.len();
    assert(chars@.subrange(0, n as int) =~= chars@);
    while n >= 3
        invariant
            n <= chars@.len(),
            chars@ == name@,
            without_md(name@) == without_md(chars@.subrange(0, n as int)),
        ensures
            n <= chars@.len(),
            without_md(name@) == chars@.subrange(0, n as int),
        decreases n,
    {
        if !(chars[n - 3] == '.' && chars[n - 2] == 'm' && chars[n - 1] == 'd') {
            break;
        }
        assert(chars@.subrange(0, n as int).subrange(0, n - 3) =~= chars@.subrange(0, n - 3));
        n = n - 3;
    }
    let digits = string_of(&chars, 0, n);
    match parse_number(digits.as_str(), u32::MAX as u64) {
        Some(p) => p as u32,
        None => 0,
    }
}

proof fn lemma_hits_prefix(page: u32, lines: Seq<(Seq<char>, Seq<char>)>, needle: Seq<char>, a: nat, b: nat)
    requires
        a <= b,
    ensures
        hits_in_lines(page, lines, needle, a).len() <= hits_in_lines(page, lines, needle, b).len(),
        forall|i: int|
            0 <= i < hits_in_lines(page, lines, needle, a).len() ==> hits_in_lines(page, lines, needle, a)[i]
                == #[trigger] hits_in_lines(page, lines, needle, b)[i],
    decreases b,
{
    if a < b {
        lemma_hits_prefix(page, lines, needle, a, (b - 1) as nat);
    }
}

proof fn lemma_pages_prefix(pages: Seq<LoweredPage>, needle: Seq<char>, a: nat, b: nat)
    requires
        a <= b,
    ensures
        hits_on_pages(pages, needle, a).len() <= hits_on_pages(pages, needle, b).len(),
        forall|i: int|
            0 <= i < hits_on_pages(pages, needle, a).len() ==> hits_on_pages(pages, needle, a)[i]
                == #[trigger] hits_on_pages(pages, needle, b)[i],
    decreases b,
{
    if a < b {
        lemma_pages_prefix(pages, needle, a, (b - 1) as nat);
    }
}

/// Searches pages whose lines are there in lower case: the lines in which
/// `needle` occurs, until `max_results` lines or `max_chars` characters are
/// found.
pub fn search_lowered(pages: &Vec<LoweredPage>, needle: &str, max_results: usize, max_chars: usize) -> (r: Vec<
    (u32, String),
>)
    ensures
        hit_views(r@) == limited(
            hits_on_pages(pages@, needle@, pages@.len()),
            max_results as nat,
            max_chars as nat,
        ),
{
    let ghost q = needle@;
    let ghost hits = hits_on_pages(pages@, q, pages@.len());
    let ghost want = shown_hits(hits, max_results as nat, max_chars as nat, 0, 0);
    let wanted = chars_of(needle);
    let mut out: Vec<(u32, String)> = Vec::new();
    let mut total: u128 = 0;
    let mut i: usize = 0;
    assert(hit_views(out@) =~= hits_on_pages(pages@, q, 0));
    assert(pages@.len() == 0 ==> hit_views(out@) =~= hits.take(want));
    while i < pages.len()
        invariant_except_break
            hit_views(out@) == hits_on_pages(pages@, q, i as nat),
            want == shown_hits(hits, max_results as nat, max_chars as nat, out@.len() as int, total as nat),
            i == pages@.len() ==> hit_views(out@) == hits.take(want),
        invariant
            i <= pages@.len(),
            wanted@ == q,
            hits == hits_on_pages(pages@, q, pages@.len()),
            want == shown_hits(hits, max_results as nat, max_chars as nat, 0, 0),
            total <= max_chars + 0x1_0000_0000_0000_0000,
        ensures
            hit_views(out@) == hits.take(want),
        decreases pages@.len() - i,
    {
        let ghost so_far = hits_on_pages(pages@, q, i as nat);
        proof {
            lemma_pages_prefix(pages@, q, i as nat, pages@.len());
            lemma_pages_prefix(pages@, q, (i + 1) as nat, pages@.len());
            assert(hit_views(out@).len() == out@.len());
        }
        if out.len() >= max_results || total >= max_chars as u128 {
            assert(hit_views(out@) =~= hits.take(want));
            break;
        }
        let page = pages[i].page;
        let lines = &pages[i].lines;
        let ghost ls = lowered_view(lines@);
        assert(ls.len() == lines@.len());
        let ghost here = hits_in_lines(page, ls, q, ls.len());
        assert(hits_on_pages(pages@, q, (i + 1) as nat) == so_far + here);
        let mut k: usize = 0;
        let mut full = false;
        assert(hit_views(out@) =~= so_far + hits_in_lines(page, ls, q, 0));
        while k < lines.len() && !full
            invariant
                k <= lines@.len(),
                lines@.len() == ls.len(),
                ls == lowered_view(lines@),
                wanted@ == q,
                here == hits_in_lines(page, ls, q, ls.len()),
                (so_far + here).len() <= hits.len(),
                forall|j: int| 0 <= j < (so_far + here).len() ==> (so_far + here)[j] == #[trigger] hits[j],
                hit_views(out@) == so_far + hits_in_lines(page, ls, q, k as nat),
                want == shown_hits(hits, max_results as nat, max_chars as nat, out@.len() as int, total as nat),
                !full ==> out@.len() < max_results && total < max_chars,
                full ==> want == out@.len() && hit_views(out@) == hits.take(want),
                total <= max_chars + 0x1_0000_0000_0000_0000,
            decreases lines@.len() - k,
        {
            assert(ls[k as int] == (lines@[k as int].text@, lines@[k as int].lower@));
            let lower = chars_of(lines[k].lower.as_str());
            let found = find_chars(&lower, &wanted).is_some();
            let ghost before = out@;
            proof {
                lemma_hits_prefix(page, ls, q, (k + 1) as nat, ls.len());
                assert(hit_views(out@).len() == out@.len());
            }
            if found {
                let snippet = trim(lines[k].text.as_str());
                let n = snippet.as_str().unicode_len();
                let ghost hit = (page, snippet@);
                let ghost total0 = total as nat;
                out.push((page, snippet));
                total = total + (n as u128) + 1;
                proof {
                    assert(hit_views(out@) =~= hit_views(before).push(hit));
                    let next = hits_in_lines(page, ls, q, (k + 1) as nat);
                    assert(next == hits_in_lines(page, ls, q, k as nat).push(hit));
                    assert(hit_views(out@) =~= so_far + next);
                    assert((so_far + here)[before.len() as int] == hit) by {
                        assert(next[next.len() - 1] == hit);
                        assert(here[next.len() - 1] == hit);
                    }
                    assert(hits[before.len() as int] == hit);
                    assert(want == shown_hits(
                        hits,
                        max_results as nat,
                        max_chars as nat,
                        before.len() as int + 1,
                        total0 + hits[before.len() as int].1.len() + 1,
                    ));
                }
                if out.len() >= max_results || total >= max_chars as u128 {
                    full = true;
                    proof {
                        assert(want == out@.len());
                        assert(hit_views(out@).len() == out@.len());
                        assert forall|j: int| 0 <= j < out@.len() implies hit_views(out@)[j] == hits.take(want)[j] by {
                            let next = hits_in_lines(page, ls, q, (k + 1) as nat);
                            assert(hit_views(out@)[j] == (so_far + next)[j]);
                            if j >= so_far.len() {
                                assert(here[j - so_far.len()] == next[j - so_far.len()]);
                            }
                            assert((so_far + here)[j] == hits[j]);
                        }
                        assert(hit_views(out@) =~= hits.take(want));
                    }
                }
            }
            k = k + 1;
        }
        if full {
            break;
        }
        i = i + 1;
        proof {
            if i == pages@.len() {
                assert(hit_views(out@) == hits);
                assert(hit_views(out@).len() == out@.len());
                assert(want == hits.len());
                assert(hits.take(want) =~= hits);
            }
        }
    }
    out
}

fn lower_page(f: &PageFile) -> (r: LoweredPage)
    ensures
        r.page == page_number(f.name@),
        lowered_view(r.lines@) == lines_with_lower(f.text@),
{
    let texts = lines_of(f.text.as_str());
    let ghost all = lines_from(f.text@, 0);
    let mut lines: Vec<LoweredLine> = Vec::new();
    let n = texts.len();
    assert(views(texts@).len() == n);
    for text in it: texts
        invariant
            it.seq() == texts@,
            views(texts@) == all,
            lines@.len() == it.index(),
            forall|k: int| 0 <= k < lines@.len() ==> (#[trigger] lines@[k]).text@ == all[k] && lines@[k].lower@ == lowercase(all[k]),
    {
        assert(views(texts@)[it.index() as int] == text@);
        let lower = to_lowercase(text.as_str());
        lines.push(LoweredLine { text, lower });
    }
    assert(lowered_view(lines@) =~= lines_with_lower(f.text@));
    LoweredPage { page: page_of(f.name.as_str()), lines }
}

proof fn lemma_pages_of_files(files: Seq<PageFile>, pages: Seq<LoweredPage>, query: Seq<char>, n: nat)
    requires
        n <= files.len() == pages.len(),
        forall|k: int|
            0 <= k < files.len() ==> (#[trigger] pages[k]).page == page_number(files[k].name@) && lowered_view(
                pages[k].lines@,
            ) == lines_with_lower(files[k].text@),
    ensures
        hits_on_pages(pages, lowercase(query), n) == hits_in_files(files, query, n),
    decreases n,
{
    if n > 0 {
        lemma_pages_of_files(files, pages, query, (n - 1) as nat);
        let p = pages[n - 1];
        assert(lowered_view(p.lines@).len() == p.lines@.len());
    }
}

/// Searches the files of a book in the order of their names for lines in which
/// the query occurs, upper and lower case aside, until `max_results` lines or
/// `max_chars` characters are found.
pub fn search_book_pages(files: Vec<PageFile>, query: &str, max_results: usize, max_chars: usize) -> (r: Vec<
    (u32, String),
>)
    ensures
        hit_views(r@) == search_hits(files@, query@, max_results as nat, max_chars as nat),
{
    let sorted = sort_files(files);
    let mut pages: Vec<LoweredPage> = Vec::new();
    let mut i: usize = 0;
    while i < sorted.len()
        invariant
            i <= sorted@.len(),
            pages@.len() == i,
            forall|k: int|
                0 <= k < i ==> (#[trigger] pages@[k]).page == page_number(sorted@[k].name@) && lowered_view(
                    pages@[k].lines@,
                ) == lines_with_lower(sorted@[k].text@),
        decreases sorted@.len() - i,
    {
        pages.push(lower_page(&sorted[i]));
        i = i + 1;
    }
    proof {
        lemma_pages_of_files(sorted@, pages@, query@, sorted@.len());
    }
    let needle = to_lowercase(query);
    search_lowered(&pages, needle.as_str(), max_results, max_chars)
}

/// Whether a search is begun, and with what: not without a query.
pub fn search_query(input: &str) -> (r: Option<String>)
    ensures
        r is None <==> trimmed(input@).len() == 0,
        r is Some ==> r->0@ == trimmed(input@),
{
    let q = trim(input);
    if q.as_str().is_empty() {
        None
    } else {
        Some(q)
    }
}

/// The search panel: its results, whether a search runs, and its number.
pub struct SearchState {
    pub results: Vec<(u32, String)>,
    pub running: bool,
    pub generation: u64,
}

impl SearchState {
    /// Begins a search; the number is that of the search. Without a query the
    /// results are cleared, without a book nothing happens.
    pub fn begin(&mut self, input: &str, book_open: bool) -> (r: Option<(String, u64)>)
        requires
            old(self).generation < u64::MAX,
        ensures
            trimmed(input@).len() == 0 ==> r is None && final(self).results@.len() == 0 && final(self).running == old(
                self,
            ).running && final(self).generation == old(self).generation,
            trimmed(input@).len() > 0 && !book_open ==> r is None && *final(self) == *old(self),
            trimmed(input@).len() > 0 && book_open ==> r is Some && (r->0).0@ == trimmed(input@) && (r->0).1 == old(
                self,
            ).generation + 1 && *final(self) == (SearchState {
                running: true,
                generation: (r->0).1,
                ..*old(self)
            }),
    {
        match search_query(input) {
            None => {
                self.results = Vec::new();
                None
            },
            Some(q) => {
                if !book_open {
                    return None;
                }
                self.running = true;
                self.generation = self.generation + 1;
                Some((q, self.generation))
            },
        }
    }

    /// The results of search `generation` came in; those of an earlier search
    /// are dropped.
    pub fn finish(&mut self, generation: u64, results: Vec<(u32, String)>)
        ensures
            generation != old(self).generation ==> *final(self) == *old(self),
            generation == old(self).generation ==> *final(self) == (SearchState {
                results,
                running: false,
                ..*old(self)
            }),
    {
        if generation == self.generation {
            self.results = results;
            self.running = false;
        }
    }
}

proof fn lemma_shown_hits(hits: Seq<(u32, Seq<char>)>, max_results: nat, max_chars: nat, k: int, total: nat)
    requires
        0 <= k <= hits.len(),
        k <= max_results,
    ensures
        k <= shown_hits(hits, max_results, max_chars, k, total) <= hits.len(),
        shown_hits(hits, max_results, max_chars, k, total) <= max_results,
    decreases hits.len() - k,
{
    if !(k >= hits.len() || k >= max_results || total >= max_chars) {
        lemma_shown_hits(hits, max_results, max_chars, k + 1, total + hits[k].1.len() + 1);
    }
}

/// The hit is a line of the file, without the white space round it, and its
/// lower case holds that of the query.
pub open spec fn hit_in_file(hit: (u32, Seq<char>), f: PageFile, query: Seq<char>) -> bool {
    exists|i: int|
        0 <= i < lines_from(f.text@, 0).len() && occurs(lowercase(#[trigger] lines_from(f.text@, 0)[i]), lowercase(query))
            && hit == (page_number(f.name@), trimmed(lines_from(f.text@, 0)[i]))
}

/// The hit is a line of one of the files that holds the query.
pub open spec fn hit_in_files(hit: (u32, Seq<char>), files: Seq<PageFile>, query: Seq<char>) -> bool {
    exists|i: int| 0 <= i < files.len() && hit_in_file(hit, #[trigger] files[i], query)
}

proof fn lemma_hits_in_lines(f: PageFile, query: Seq<char>, n: nat)
    requires
        n <= lines_with_lower(f.text@).len(),
    ensures
        ({
            let hits = hits_in_lines(page_number(f.name@), lines_with_lower(f.text@), lowercase(query), n);
            forall|k: int| 0 <= k < hits.len() ==> hit_in_file(#[trigger] hits[k], f, query)
        }),
    decreases n,
{
    if n > 0 {
        lemma_hits_in_lines(f, query, (n - 1) as nat);
        let lines = lines_with_lower(f.text@);
        let page = page_number(f.name@);
        let before = hits_in_lines(page, lines, lowercase(query), (n - 1) as nat);
        let hits = hits_in_lines(page, lines, lowercase(query), n);
        assert(lines[n - 1] == (lines_from(f.text@, 0)[n - 1], lowercase(lines_from(f.text@, 0)[n - 1])));
        assert forall|k: int| 0 <= k < hits.len() implies hit_in_file(#[trigger] hits[k], f, query) by {
            if k < before.len() {
                assert(hits[k] == before[k]);
            } else {
                assert(occurs(lowercase(lines_from(f.text@, 0)[n - 1]), lowercase(query)));
                assert(hits[k] == (page, trimmed(lines_from(f.text@, 0)[n - 1])));
            }
        }
    }
}

proof fn lemma_hits_in_files(files: Seq<PageFile>, query: Seq<char>, n: nat)
    requires
        n <= files.len(),
    ensures
        forall|k: int|
            0 <= k < hits_in_files(files, query, n).len() ==> hit_in_files(
                #[trigger] hits_in_files(files, query, n)[k],
                files,
                query,
            ),
    decreases n,
{
    if n > 0 {
        lemma_hits_in_files(files, query, (n - 1) as nat);
        let f = files[n - 1];
        lemma_hits_in_lines(f, query, lines_with_lower(f.text@).len());
        let before = hits_in_files(files, query, (n - 1) as nat);
        let all = hits_in_files(files, query, n);
        assert forall|k: int| 0 <= k < all.len() implies hit_in_files(#[trigger] all[k], files, query) by {
            if k < before.len() {
                assert(all[k] == before[k]);
            } else {
                assert(hit_in_file(all[k], files[n - 1], query));
            }
        }
    }
}

proof fn lemma_inserted_files(s: Seq<PageFile>, f: PageFile, g: PageFile)
    ensures
        insert_file(s, f).contains(g) ==> s.contains(g) || g == f,
    decreases s.len(),
{
    if s.len() == 0 || !name_before(f.name@, s.last().name@, 0) {
        if s.push(f).contains(g) && g != f {
            let i = choose|i: int| 0 <= i < s.push(f).len() && s.push(f)[i] == g;
            assert(s[i] == g);
        }
    } else {
        lemma_inserted_files(s.drop_last(), f, g);
        let r = insert_file(s.drop_last(), f);
        if r.push(s.last()).contains(g) {
            let i = choose|i: int| 0 <= i < r.push(s.last()).len() && r.push(s.last())[i] == g;
            if i < r.len() {
                assert(r[i] == g);
                if s.drop_last().contains(g) {
                    let j = choose|j: int| 0 <= j < s.drop_last().len() && s.drop_last()[j] == g;
                    assert(s[j] == g);
                }
            } else {
                assert(s[s.len() - 1] == g);
            }
        }
    }
}

proof fn lemma_sorted_files(s: Seq<PageFile>, g: PageFile)
    ensures
        by_name(s).contains(g) ==> s.contains(g),
    decreases s.len(),
{
    if s.len() > 0 && by_name(s).contains(g) {
        lemma_inserted_files(by_name(s.drop_last()), s.last(), g);
        lemma_sorted_files(s.drop_last(), g);
        if s.drop_last().contains(g) {
            let j = choose|j: int| 0 <= j < s.drop_last().len() && s.drop_last()[j] == g;
            assert(s[j] == g);
        } else {
            assert(s[s.len() - 1] == g);
        }
    }
}

/// A search shows no more results than it may, and each of them is a line of
/// one of the files that holds the query, whatever the case of its letters.
pub proof fn results_hold_the_query(files: Seq<PageFile>, query: Seq<char>, max_results: nat, max_chars: nat)
    ensures
        ({
            let hits = search_hits(files, query, max_results, max_chars);
            &&& hits.len() <= max_results
            &&& forall|k: int| 0 <= k < hits.len() ==> hit_in_files(#[trigger] hits[k], files, query)
        }),
{
    let sorted = by_name(files);
    let all = hits_in_files(sorted, query, sorted.len());
    lemma_shown_hits(all, max_results, max_chars, 0, 0);
    lemma_hits_in_files(sorted, query, sorted.len());
    let hits = search_hits(files, query, max_results, max_chars);
    assert forall|k: int| 0 <= k < hits.len() implies hit_in_files(#[trigger] hits[k], files, query) by {
        assert(hits[k] == all[k]);
        let i = choose|i: int| 0 <= i < sorted.len() && hit_in_file(all[k], #[trigger] sorted[i], query);
        assert(sorted.contains(sorted[i]));
        lemma_sorted_files(files, sorted[i]);
        let j = choose|j: int| 0 <= j < files.len() && files[j] == sorted[i];
        assert(hit_in_file(hits[k], files[j], query));
    }
}

// ── that nothing is missed ──

/// What a search finds in one file: all lines whose lower case holds that of the query,
/// without the white space round them, in their order, each with the page of the file.
pub open spec fn found_in_file(f: PageFile, query: Seq<char>) -> Seq<(u32, Seq<char>)> {
    lines_from(f.text@, 0).filter(|l: Seq<char>| occurs(lowercase(l), lowercase(query))).map_values(
        |l: Seq<char>| (page_number(f.name@), trimmed(l)),
    )
}

/// What a search finds in some files, one after the other.
pub open spec fn found_in_files(files: Seq<PageFile>, query: Seq<char>) -> Seq<(u32, Seq<char>)>
    decreases files.len(),
{
    if files.len() == 0 {
        Seq::empty()
    } else {
        found_in_files(files.drop_last(), query) + found_in_file(files.last(), query)
    }
}

/// The characters of some hits, and one for each of them.
pub open spec fn chars_shown(hits: Seq<(u32, Seq<char>)>) -> nat
    decreases hits.len(),
{
    if hits.len() == 0 {
        0
    } else {
        chars_shown(hits.drop_last()) + hits.last().1.len() + 1
    }
}

proof fn lemma_found_in_lines(f: PageFile, query: Seq<char>, n: nat)
    requires
        n <= lines_from(f.text@, 0).len(),
    ensures
        hits_in_lines(page_number(f.name@), lines_with_lower(f.text@), lowercase(query), n) == lines_from(f.text@, 0).take(
            n as int,
        ).filter(|l: Seq<char>| occurs(lowercase(l), lowercase(query))).map_values(
            |l: Seq<char>| (page_number(f.name@), trimmed(l)),
        ),
    decreases n,
{
    reveal(Seq::filter);
    let p = |l: Seq<char>| occurs(lowercase(l), lowercase(query));
    let g = |l: Seq<char>| (page_number(f.name@), trimmed(l));
    let lines = lines_from(f.text@, 0);
    let hits = hits_in_lines(page_number(f.name@), lines_with_lower(f.text@), lowercase(query), n);
    if n == 0 {
        assert(lines.take(0) =~= Seq::<Seq<char>>::empty());
        assert(lines.take(0).filter(p) =~= Seq::<Seq<char>>::empty());
        assert(hits =~= lines.take(0).filter(p).map_values(g));
    } else {
        lemma_found_in_lines(f, query, (n - 1) as nat);
        let t = lines.take(n as int);
        let l = lines[n - 1];
        assert(t.drop_last() =~= lines.take(n - 1));
        assert(t.last() == l);
        assert(lines_with_lower(f.text@)[n - 1] == (l, lowercase(l)));
        let sub = lines.take(n - 1).filter(p);
        if p(l) {
            assert(t.filter(p) == sub.push(l));
            assert(sub.push(l).map_values(g) =~= sub.map_values(g).push(g(l)));
        } else {
            assert(t.filter(p) == sub);
        }
    }
}

proof fn lemma_found_in_files(files: Seq<PageFile>, query: Seq<char>, n: nat)
    requires
        n <= files.len(),
    ensures
        hits_in_files(files, query, n) == found_in_files(files.take(n as int), query),
    decreases n,
{
    if n > 0 {
        lemma_found_in_files(files, query, (n - 1) as nat);
        let t = files.take(n as int);
        assert(t.drop_last() =~= files.take(n - 1));
        assert(t.last() == files[n - 1]);
        let f = files[n - 1];
        let lines = lines_from(f.text@, 0);
        lemma_found_in_lines(f, query, lines.len());
        assert(lines.take(lines.len() as int) =~= lines);
        assert(lines_with_lower(f.text@).len() == lines.len());
    }
}

/// The first `j` hits reach neither limit.
pub open spec fn below_the_limits(hits: Seq<(u32, Seq<char>)>, max_results: nat, max_chars: nat, j: int) -> bool {
    j < max_results && chars_shown(hits.take(j)) < max_chars
}

proof fn lemma_cut(hits: Seq<(u32, Seq<char>)>, max_results: nat, max_chars: nat, k: int)
    requires
        0 <= k <= hits.len(),
    ensures
        ({
            let n = shown_hits(hits, max_results, max_chars, k, chars_shown(hits.take(k)));
            &&& k <= n <= hits.len()
            &&& n == hits.len() || !below_the_limits(hits, max_results, max_chars, n)
            &&& forall|j: int| k <= j < n ==> #[trigger] below_the_limits(hits, max_results, max_chars, j)
        }),
    decreases hits.len() - k,
{
    let total = chars_shown(hits.take(k));
    if !(k >= hits.len() || k >= max_results || total >= max_chars) {
        let t = hits.take(k + 1);
        assert(t.drop_last() =~= hits.take(k));
        assert(t.last() == hits[k]);
        assert(chars_shown(t) == total + hits[k].1.len() + 1);
        lemma_cut(hits, max_results, max_chars, k + 1);
        assert(below_the_limits(hits, max_results, max_chars, k));
    }
}

/// A search misses nothing: its results are what is found in the files in the order of
/// their names, from the first on, and it stops only when everything is shown or one of
/// the limits is reached, and then at once.
pub proof fn a_search_finds_every_line(files: Seq<PageFile>, query: Seq<char>, max_results: nat, max_chars: nat)
    ensures
        ({
            let all = found_in_files(by_name(files), query);
            let hits = search_hits(files, query, max_results, max_chars);
            &&& hits.len() <= all.len()
            &&& hits == all.take(hits.len() as int)
            &&& hits.len() == all.len() || hits.len() == max_results || chars_shown(hits) >= max_chars
            &&& forall|j: int| 0 <= j < hits.len() ==> #[trigger] below_the_limits(all, max_results, max_chars, j)
        }),
{
    let sorted = by_name(files);
    let all = found_in_files(sorted, query);
    lemma_found_in_files(sorted, query, sorted.len());
    assert(sorted.take(sorted.len() as int) =~= sorted);
    assert(all.take(0) =~= Seq::<(u32, Seq<char>)>::empty());
    lemma_cut(all, max_results, max_chars, 0);
    lemma_shown_hits(all, max_results, max_chars, 0, 0);
    let hits = search_hits(files, query, max_results, max_chars);
    assert(hits =~= all.take(hits.len() as int));
}

proof fn lemma_found_line(f: PageFile, query: Seq<char>, i: int)
    requires
        0 <= i < lines_from(f.text@, 0).len(),
        occurs(lowercase(lines_from(f.text@, 0)[i]), lowercase(query)),
    ensures
        found_in_file(f, query).contains((page_number(f.name@), trimmed(lines_from(f.text@, 0)[i]))),
{
    let p = |l: Seq<char>| occurs(lowercase(l), lowercase(query));
    let g = |l: Seq<char>| (page_number(f.name@), trimmed(l));
    let lines = lines_from(f.text@, 0);
    lines.lemma_filter_contains(p, i);
    let sub = lines.filter(p);
    let j = choose|j: int| 0 <= j < sub.len() && sub[j] == lines[i];
    assert(sub.map_values(g)[j] == g(lines[i]));
}

proof fn lemma_found_among(files: Seq<PageFile>, query: Seq<char>, k: int, i: int)
    requires
        0 <= k < files.len(),
        0 <= i < lines_from(files[k].text@, 0).len(),
        occurs(lowercase(lines_from(files[k].text@, 0)[i]), lowercase(query)),
    ensures
        found_in_files(files, query).contains((page_number(files[k].name@), trimmed(lines_from(files[k].text@, 0)[i]))),
    decreases files.len(),
{
    let h = (page_number(files[k].name@), trimmed(lines_from(files[k].text@, 0)[i]));
    let before = found_in_files(files.drop_last(), query);
    let here = found_in_file(files.last(), query);
    if k == files.len() - 1 {
        lemma_found_line(files[k], query, i);
        let j = choose|j: int| 0 <= j < here.len() && here[j] == h;
        assert((before + here)[before.len() + j] == h);
    } else {
        assert(files.drop_last()[k] == files[k]);
        lemma_found_among(files.drop_last(), query, k, i);
        let j = choose|j: int| 0 <= j < before.len() && before[j] == h;
        assert((before + here)[j] == h);
    }
}

/// Where neither limit is reached, every line of every file whose lower case holds that of
/// the query is among the results.
pub proof fn every_line_that_holds_the_query_is_a_result(
    files: Seq<PageFile>,
    query: Seq<char>,
    max_results: nat,
    max_chars: nat,
    k: int,
    i: int,
)
    requires
        0 <= k < files.len(),
        0 <= i < lines_from(files[k].text@, 0).len(),
        occurs(lowercase(lines_from(files[k].text@, 0)[i]), lowercase(query)),
        search_hits(files, query, max_results, max_chars).len() < max_results,
        chars_shown(search_hits(files, query, max_results, max_chars)) < max_chars,
    ensures
        search_hits(files, query, max_results, max_chars).contains(
            (page_number(files[k].name@), trimmed(lines_from(files[k].text@, 0)[i])),
        ),
{
    broadcast use vstd::seq_lib::group_to_multiset_ensures;

    let sorted = by_name(files);
    files_are_searched_in_the_order_of_their_names(files);
    assert(files.contains(files[k]));
    assert(files.to_multiset().count(files[k]) > 0);
    assert(sorted.to_multiset().count(files[k]) > 0);
    assert(sorted.contains(files[k]));
    let m = choose|m: int| 0 <= m < sorted.len() && sorted[m] == files[k];
    lemma_found_among(sorted, query, m, i);
    a_search_finds_every_line(files, query, max_results, max_chars);
    let all = found_in_files(sorted, query);
    assert(all.take(all.len() as int) =~= all);
}

/// Names are compared character by character: the smaller character decides, and of two
/// names one of which starts with the other, the shorter one comes first.
pub proof fn names_are_compared_character_by_character(prefix: Seq<char>, a: char, b: char, x: Seq<char>, y: Seq<char>)
    ensures
        a < b ==> name_before(prefix + seq![a] + x, prefix + seq![b] + y, 0),
        a > b ==> !name_before(prefix + seq![a] + x, prefix + seq![b] + y, 0),
        name_before(prefix, prefix + seq![b] + y, 0),
        !name_before(prefix + seq![b] + y, prefix, 0),
        !name_before(prefix, prefix, 0),
{
    let p = prefix + seq![a] + x;
    let q = prefix + seq![b] + y;
    let n = prefix.len() as int;
    assert forall|k: int| 0 <= k < n implies #[trigger] p[k] == prefix[k] && q[k] == prefix[k] by {}
    assert(p[n] == a && q[n] == b);
    lemma_common(p, q, n, 0);
    lemma_common(prefix, q, n, 0);
    lemma_common(q, prefix, n, 0);
    lemma_common(prefix, prefix, n, 0);
}

proof fn lemma_common(a: Seq<char>, b: Seq<char>, n: int, k: int)
    requires
        0 <= k <= n <= a.len(),
        n <= b.len(),
        forall|i: int| 0 <= i < n ==> a[i] == b[i],
    ensures
        name_before(a, b, k) == name_before(a, b, n),
    decreases n - k,
{
    if k < n {
        lemma_common(a, b, n, k + 1);
    }
}

proof fn lemma_before_is_strict(a: Seq<char>, b: Seq<char>, c: Seq<char>, k: int)
    requires
        0 <= k,
    ensures
        name_before(a, b, k) ==> !name_before(b, a, k),
        !name_before(b, a, k) && !name_before(c, b, k) ==> !name_before(c, a, k),
    decreases a.len() + b.len() + c.len() - k,
{
    if k < a.len() && k < b.len() {
        if a[k] == b[k] {
            lemma_before_is_strict(a, b, c, k + 1);
        }
    }
    if k < a.len() && k < b.len() && k < c.len() {
        lemma_before_is_strict(a, b, c, k + 1);
    }
}

/// No file comes before an earlier one by its name.
pub open spec fn in_name_order(s: Seq<PageFile>) -> bool {
    forall|i: int, j: int| 0 <= i < j < s.len() ==> !name_before((#[trigger] s[j]).name@, (#[trigger] s[i]).name@, 0)
}

proof fn lemma_insert_sorted(s: Seq<PageFile>, f: PageFile)
    requires
        in_name_order(s),
    ensures
        insert_file(s, f).len() == s.len() + 1,
        insert_file(s, f).to_multiset() == s.to_multiset().insert(f),
        in_name_order(insert_file(s, f)),
        insert_file(s, f).last() == f || s.len() > 0 && insert_file(s, f).last() == s.last(),
    decreases s.len(),
{
    broadcast use vstd::seq_lib::group_to_multiset_ensures;

    if s.len() == 0 || !name_before(f.name@, s.last().name@, 0) {
        let r = s.push(f);
        assert forall|i: int, j: int| 0 <= i < j < r.len() implies !name_before((#[trigger] r[j]).name@, (#[trigger] r[i]).name@, 0) by {
            if j == r.len() - 1 {
                if i < s.len() - 1 {
                    assert(!name_before(s[s.len() - 1].name@, s[i].name@, 0));
                    lemma_before_is_strict(s[i].name@, s.last().name@, f.name@, 0);
                }
            } else {
                assert(r[i] == s[i] && r[j] == s[j]);
            }
        }
    } else {
        let d = s.drop_last();
        assert forall|i: int, j: int| 0 <= i < j < d.len() implies !name_before((#[trigger] d[j]).name@, (#[trigger] d[i]).name@, 0) by {
            assert(d[i] == s[i] && d[j] == s[j]);
        }
        lemma_insert_sorted(d, f);
        let m = insert_file(d, f);
        let r = m.push(s.last());
        assert(s =~= d.push(s.last()));
        assert(r.to_multiset() =~= s.to_multiset().insert(f));
        assert forall|i: int, j: int| 0 <= i < j < r.len() implies !name_before((#[trigger] r[j]).name@, (#[trigger] r[i]).name@, 0) by {
            if j == r.len() - 1 {
                // The last of the others is `f` or comes before the last one anyway.
                let l = m[m.len() - 1];
                if l == f {
                    lemma_before_is_strict(f.name@, s.last().name@, f.name@, 0);
                } else {
                    assert(d[d.len() - 1] == l);
                    assert(s[s.len() - 2] == l);
                    assert(!name_before(s[s.len() - 1].name@, s[s.len() - 2].name@, 0));
                }
                if i < m.len() - 1 {
                    assert(!name_before(m[m.len() - 1].name@, m[i].name@, 0));
                    lemma_before_is_strict(m[i].name@, l.name@, s.last().name@, 0);
                }
            } else {
                assert(r[i] == m[i] && r[j] == m[j]);
            }
        }
    }
}

/// A search goes through all files, each once, in the order of their names.
pub proof fn files_are_searched_in_the_order_of_their_names(files: Seq<PageFile>)
    ensures
        by_name(files).len() == files.len(),
        by_name(files).to_multiset() == files.to_multiset(),
        in_name_order(by_name(files)),
    decreases files.len(),
{
    broadcast use vstd::seq_lib::group_to_multiset_ensures;

    if files.len() > 0 {
        files_are_searched_in_the_order_of_their_names(files.drop_last());
        lemma_insert_sorted(by_name(files.drop_last()), files.last());
        assert(files =~= files.drop_last().push(files.last()));
    }
}

/// A file that is named after its page, with the ending `.md`, is that page; one whose name
/// is no number counts as page 0.
pub proof fn files_are_named_after_their_pages(n: u32, name: Seq<char>)
    ensures
        page_number(decimal(n as nat) + seq!['.', 'm', 'd']) == n,
        (exists|i: int| 0 < i < name.len() && !('0' <= #[trigger] name[i] <= '9')) && (name.len() < 3 || name.last() != 'd')
            ==> page_number(name) == 0,
{
    let d = decimal(n as nat);
    let s = d + seq!['.', 'm', 'd'];
    let k = d.len() as int;
    assert(s[k] == '.' && s[k + 1] == 'm' && s[k + 2] == 'd');
    assert(s.subrange(0, s.len() - 3) =~= d);
    decimal_is_digits(n as nat);
    assert('0' <= d[d.len() - 1] <= '9');
    assert(without_md(d) == d);
    reading_a_numeral_gives_the_number(n as nat, u32::MAX as nat, name);
}

} // verus!
