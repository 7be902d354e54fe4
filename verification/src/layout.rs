//! The column layout of a page, and which columns carry running text.
//!
//! Reading continues only in columns of the size of running text, so captions,
//! table labels and fragments are passed over.
use crate::columns::{all_in_range, body_width, box_heights, column_height, column_width, heights, in_range, ranged_median, PageColumns};
use crate::lines::{
    column_count, column_lefts, column_lines, column_map, column_map_upto, column_of, every_inked_line_has_a_column,
    ids, larger, left_of, line_box, line_extent, lines_by_left,
};
use crate::page_text::{ink_at, inked, is_inked, DocCalibration, FlatWord};
use crate::sorting::{ints, median};
use std::collections::HashMap;
use vstd::prelude::*;

verus! {

broadcast use vstd::std_specs::hash::group_hash_axioms;

/// Column `col` is at least half as wide as running text.
pub open spec fn wide_column(flat: Seq<FlatWord>, gap: int, col: nat) -> bool {
    2 * column_width(flat, gap, col) >= larger(body_width(flat, gap), 1_000)
}

/// The heights of the lines in those of the first `n` columns that are wide.
pub open spec fn wide_column_heights(flat: Seq<FlatWord>, gap: int, n: nat) -> Seq<int>
    decreases n,
{
    if n == 0 {
        Seq::empty()
    } else {
        let before = wide_column_heights(flat, gap, (n - 1) as nat);
        if wide_column(flat, gap, (n - 1) as nat) {
            before + heights(flat, column_lines(flat, gap, (n - 1) as nat))
        } else {
            before
        }
    }
}

/// The usual height of a line of running text: the median over the wide columns,
/// or over all lines where there is none.
pub open spec fn body_height(flat: Seq<FlatWord>, gap: int) -> int {
    let hs = wide_column_heights(flat, gap, column_count(flat, gap));
    if hs.len() == 0 {
        median(heights(flat, lines_by_left(flat)))
    } else {
        median(hs)
    }
}

/// A column of running text: two lines or more, 0.85 of the usual height and
/// half of the usual width.
pub open spec fn text_column(flat: Seq<FlatWord>, gap: int, col: nat) -> bool {
    &&& col < column_count(flat, gap)
    &&& column_lines(flat, gap, col).len() >= 2
    &&& 100 * column_height(flat, gap, col) >= 85 * larger(body_height(flat, gap), 1_000)
    &&& wide_column(flat, gap, col)
}

/// The column of word `i`.
pub open spec fn column_at(flat: Seq<FlatWord>, gap: int, i: int) -> Option<usize> {
    column_of(flat, gap, flat[i].line)
}

/// The words of column `col` among the first `n`.
pub open spec fn column_words_upto(flat: Seq<FlatWord>, gap: int, col: usize, n: nat) -> Seq<int>
    decreases n,
{
    if n == 0 {
        Seq::empty()
    } else {
        let before = column_words_upto(flat, gap, col, (n - 1) as nat);
        if column_at(flat, gap, n - 1) == Some(col) {
            before.push(n - 1)
        } else {
            before
        }
    }
}

/// The words of column `col` in content order, spaces among them.
pub open spec fn column_words(flat: Seq<FlatWord>, gap: int, col: usize) -> Seq<int> {
    column_words_upto(flat, gap, col, flat.len())
}

/// The column of the first word at or behind `from` that has one other than
/// `col`.
pub open spec fn other_column_from(flat: Seq<FlatWord>, gap: int, col: usize, from: int) -> Option<
    usize,
>
    decreases flat.len() - from,
{
    if from >= flat.len() {
        None
    } else {
        match column_at(flat, gap, from) {
            Some(c) => if c != col {
                Some(c)
            } else {
                other_column_from(flat, gap, col, from + 1)
            },
            None => other_column_from(flat, gap, col, from + 1),
        }
    }
}

/// The column that follows `col` in content order: that of the word behind the
/// last word of `col`.
pub open spec fn next_column(flat: Seq<FlatWord>, gap: int, col: usize) -> Option<usize> {
    let words = column_words(flat, gap, col);
    if words.len() == 0 {
        None
    } else {
        other_column_from(flat, gap, col, words.last() + 1)
    }
}

/// The place behind the last word of `col`; 0 without words.
pub open spec fn column_end(flat: Seq<FlatWord>, gap: int, col: usize) -> int {
    let words = column_words(flat, gap, col);
    if words.len() == 0 {
        0
    } else {
        words.last() + 1
    }
}

/// The first column of running text that follows `col` in content order.
pub open spec fn next_text_column(flat: Seq<FlatWord>, gap: int, col: usize) -> Option<usize>
    decreases flat.len() - column_end(flat, gap, col),
{
    match next_column(flat, gap, col) {
        None => None,
        Some(next) => {
            proof {
                lemma_next_column_is_later(flat, gap, col);
            }
            if text_column(flat, gap, next as nat) {
                Some(next)
            } else {
                next_text_column(flat, gap, next)
            }
        },
    }
}

proof fn lemma_column_words(flat: Seq<FlatWord>, gap: int, col: usize, n: nat)
    requires
        n <= flat.len(),
    ensures
        forall|k: int|
            0 <= k < column_words_upto(flat, gap, col, n).len() ==> (#[trigger] column_words_upto(
                flat,
                gap,
                col,
                n,
            )[k]) < n && 0 <= column_words_upto(flat, gap, col, n)[k] && column_at(flat, gap, column_words_upto(flat, gap, col, n)[k]) == Some(
                col,
            ),
        forall|i: int|
            0 <= i < n && #[trigger] column_at(flat, gap, i) == Some(col) ==> column_words_upto(
                flat,
                gap,
                col,
                n,
            ).len() > 0 && i <= column_words_upto(flat, gap, col, n).last(),
    decreases n,
{
    if n > 0 {
        lemma_column_words(flat, gap, col, (n - 1) as nat);
    }
}

proof fn lemma_other_column_from(flat: Seq<FlatWord>, gap: int, col: usize, from: int)
    requires
        0 <= from,
    ensures
        match other_column_from(flat, gap, col, from) {
            Some(c) => c != col && exists|i: int|
                from <= i < flat.len() && #[trigger] column_at(flat, gap, i) == Some(c),
            None => forall|i: int|
                from <= i < flat.len() ==> #[trigger] column_at(flat, gap, i) is None || column_at(
                    flat,
                    gap,
                    i,
                ) == Some(col),
        },
    decreases flat.len() - from,
{
    if from < flat.len() && !(column_at(flat, gap, from) is Some && column_at(flat, gap, from) != Some(col)) {
        lemma_other_column_from(flat, gap, col, from + 1);
        match other_column_from(flat, gap, col, from + 1) {
            Some(c) => {
                let i = choose|i: int| from + 1 <= i < flat.len() && #[trigger] column_at(flat, gap, i) == Some(c);
                assert(column_at(flat, gap, i) == Some(c));
            },
            None => {},
        }
    }
}

/// The column that follows another in content order ends later.
pub proof fn lemma_next_column_is_later(flat: Seq<FlatWord>, gap: int, col: usize)
    ensures
        0 <= column_end(flat, gap, col) <= flat.len(),
        next_column(flat, gap, col) is Some ==> column_end(flat, gap, col) < column_end(
            flat,
            gap,
            next_column(flat, gap, col)->0,
        ) <= flat.len(),
        next_column(flat, gap, col) is Some ==> next_column(flat, gap, col)->0 < column_count(flat, gap),
{
    lemma_column_words(flat, gap, col, flat.len());
    let words = column_words(flat, gap, col);
    if words.len() > 0 {
        assert(words[words.len() - 1] < flat.len());
        lemma_other_column_from(flat, gap, col, words.last() + 1);
        match next_column(flat, gap, col) {
            Some(next) => {
                lemma_column_words(flat, gap, next, flat.len());
                let i = choose|i: int|
                    words.last() + 1 <= i < flat.len() && #[trigger] column_at(flat, gap, i) == Some(next);
                let later = column_words(flat, gap, next);
                assert(i <= later.last());
                assert(later[later.len() - 1] < flat.len());
                every_inked_line_has_a_column(flat, gap, flat[i].line);
            },
            None => {},
        }
    }
}

/// The columns of running text among the first `n` words, in the order in which
/// they first show something.
pub open spec fn text_columns_upto(flat: Seq<FlatWord>, gap: int, n: nat) -> Seq<usize>
    decreases n,
{
    if n == 0 {
        Seq::empty()
    } else {
        let before = text_columns_upto(flat, gap, (n - 1) as nat);
        match column_at(flat, gap, n - 1) {
            Some(c) => if inked(flat[n - 1]) && !before.contains(c) && text_column(flat, gap, c as nat) {
                before.push(c)
            } else {
                before
            },
            None => before,
        }
    }
}

/// The columns of running text in content order.
pub open spec fn text_columns(flat: Seq<FlatWord>, gap: int) -> Seq<usize> {
    text_columns_upto(flat, gap, flat.len())
}

/// The column of running text before `col` in content order.
pub open spec fn previous_text_column(flat: Seq<FlatWord>, gap: int, col: usize) -> Option<usize> {
    let cols = text_columns(flat, gap);
    if cols.contains(col) && cols.index_of(col) > 0 {
        Some(cols[cols.index_of(col) - 1])
    } else {
        None
    }
}

pub proof fn lemma_text_columns(flat: Seq<FlatWord>, gap: int, n: nat)
    requires
        n <= flat.len(),
    ensures
        text_columns_upto(flat, gap, n).no_duplicates(),
        forall|k: int|
            0 <= k < text_columns_upto(flat, gap, n).len() ==> text_column(
                flat,
                gap,
                #[trigger] text_columns_upto(flat, gap, n)[k] as nat,
            ),
    decreases n,
{
    if n > 0 {
        lemma_text_columns(flat, gap, (n - 1) as nat);
    }
}

/// Reading goes on only in columns of running text: the next and the previous
/// column are such columns, and neither is the column itself.
pub proof fn reading_stays_in_running_text(flat: Seq<FlatWord>, gap: int, col: usize)
    ensures
        next_text_column(flat, gap, col) is Some ==> text_column(
            flat,
            gap,
            next_text_column(flat, gap, col)->0 as nat,
        ) && column_end(flat, gap, col) < column_end(flat, gap, next_text_column(flat, gap, col)->0),
        previous_text_column(flat, gap, col) is Some ==> text_column(
            flat,
            gap,
            previous_text_column(flat, gap, col)->0 as nat,
        ) && previous_text_column(flat, gap, col)->0 != col,
    decreases flat.len() - column_end(flat, gap, col),
{
    lemma_text_columns(flat, gap, flat.len());
    lemma_next_column_is_later(flat, gap, col);
    match next_column(flat, gap, col) {
        Some(next) => {
            reading_stays_in_running_text(flat, gap, next);
        },
        None => {},
    }
}

/// A page's lines, columns and sizes.
pub struct PageLayout {
    pub column_of: HashMap<usize, usize>,
    pub reps: Vec<i64>,
    pub col_line_count: Vec<usize>,
    pub col_median_height: Vec<i128>,
    pub col_median_width: Vec<i128>,
    pub body_median_height: i128,
    pub body_median_width: i128,
    pub cal: DocCalibration,
}

fn mapped_columns(columns: &PageColumns, Ghost(flat): Ghost<Seq<FlatWord>>, Ghost(gap): Ghost<int>) -> (map: HashMap<usize, usize>)
    requires
        columns.of(flat, gap),
    ensures
        map@ == column_map(flat, gap),
{
    let mut map: HashMap<usize, usize> = HashMap::new();
    let mut i: usize = 0;
    assert(ids(columns.boxes@).len() == columns.boxes@.len());
    while i < columns.boxes.len()
        invariant
            i <= columns.boxes@.len() == columns.numbers@.len(),
            columns.of(flat, gap),
            map@ == column_map_upto(flat, gap, i as nat),
        decreases columns.boxes@.len() - i,
    {
        assert(ids(columns.boxes@)[i as int] == columns.boxes@[i as int].line);
        map.insert(columns.boxes[i].line, columns.numbers[i]);
        i = i + 1;
    }
    map
}

fn usual_height(columns: &PageColumns, Ghost(flat): Ghost<Seq<FlatWord>>, Ghost(gap): Ghost<int>) -> (r: i128)
    requires
        columns.of(flat, gap),
    ensures
        r == body_height(flat, gap),
        in_range(r),
{
    let mut hs: Vec<i128> = Vec::new();
    let mut c: usize = 0;
    let least: i128 = if columns.body_width >= 1_000 {
        columns.body_width
    } else {
        1_000
    };
    assert(ints(hs@) =~= Seq::<int>::empty());
    while c < columns.members.len()
        invariant
            c <= columns.members@.len() == columns.widths@.len(),
            columns.of(flat, gap),
            least == larger(body_width(flat, gap), 1_000),
            all_in_range(hs@),
            ints(hs@) == wide_column_heights(flat, gap, c as nat),
        decreases columns.members@.len() - c,
    {
        assert(in_range(columns.widths@[c as int]));
        if 2 * columns.widths[c] >= least {
            let mut more = box_heights(&columns.members[c], Ghost(flat));
            let ghost before = hs@;
            let ghost added = more@;
            hs.append(&mut more);
            proof {
                assert(hs@ == before + added);
                assert(ints(hs@) =~= ints(before) + ints(added));
                assert forall|k: int| 0 <= k < hs@.len() implies in_range(#[trigger] hs@[k]) by {
                    if k < before.len() {
                        assert(hs@[k] == before[k]);
                    } else {
                        assert(hs@[k] == added[k - before.len()]);
                    }
                }
            }
        }
        c = c + 1;
    }
    assert(ints(hs@).len() == hs@.len());
    if hs.len() == 0 {
        ranged_median(&box_heights(&columns.boxes, Ghost(flat)))
    } else {
        ranged_median(&hs)
    }
}

impl PageLayout {
    /// The layout is that of `flat`.
    pub open spec fn of(self, flat: Seq<FlatWord>) -> bool {
        let gap = self.cal.column_gap_cqw as int;
        &&& self.column_of@ == column_map(flat, gap)
        &&& self.reps@ == column_lefts(flat, gap)
        &&& self.col_line_count@.len() == column_count(flat, gap)
        &&& self.col_median_height@.len() == column_count(flat, gap)
        &&& self.col_median_width@.len() == column_count(flat, gap)
        &&& forall|c: int|
            0 <= c < self.col_line_count@.len() ==> #[trigger] self.col_line_count@[c] == column_lines(
                flat,
                gap,
                c as nat,
            ).len()
        &&& forall|c: int|
            0 <= c < self.col_median_height@.len() ==> #[trigger] self.col_median_height@[c]
                == column_height(flat, gap, c as nat)
        &&& forall|c: int|
            0 <= c < self.col_median_width@.len() ==> #[trigger] self.col_median_width@[c]
                == column_width(flat, gap, c as nat)
        &&& all_in_range(self.col_median_height@)
        &&& all_in_range(self.col_median_width@)
        &&& self.body_median_height == body_height(flat, gap)
        &&& self.body_median_width == body_width(flat, gap)
        &&& in_range(self.body_median_height)
        &&& in_range(self.body_median_width)
    }

    pub open spec fn gap(self) -> int {
        self.cal.column_gap_cqw as int
    }

    /// Measures the layout of `flat`.
    pub fn new_with(flat: &[FlatWord], cal: DocCalibration) -> (r: PageLayout)
        ensures
            r.of(flat@),
            r.cal == cal,
    {
        let columns = PageColumns::new(flat, cal.column_gap_cqw);
        let ghost gap = cal.column_gap_cqw as int;
        let column_of = mapped_columns(&columns, Ghost(flat@), Ghost(gap));
        let body_median_height = usual_height(&columns, Ghost(flat@), Ghost(gap));
        let mut counts: Vec<usize> = Vec::new();
        let mut c: usize = 0;
        while c < columns.members.len()
            invariant
                c <= columns.members@.len(),
                columns.of(flat@, gap),
                counts@.len() == c,
                forall|k: int| 0 <= k < c ==> #[trigger] counts@[k] == column_lines(flat@, gap, k as nat).len(),
            decreases columns.members@.len() - c,
        {
            assert(ids(columns.members@[c as int]@) == column_lines(flat@, gap, c as nat));
            assert(ids(columns.members@[c as int]@).len() == columns.members@[c as int]@.len());
            counts.push(columns.members[c].len());
            c = c + 1;
        }
        PageLayout {
            column_of,
            reps: columns.lefts,
            col_line_count: counts,
            col_median_height: columns.heights,
            col_median_width: columns.widths,
            body_median_height,
            body_median_width: columns.body_width,
            cal,
        }
    }

    /// The column of word `idx`.
    pub fn col_of(&self, flat: &[FlatWord], idx: usize) -> (r: Option<usize>)
        requires
            self.of(flat@),
            idx < flat@.len(),
        ensures
            r == column_at(flat@, self.gap(), idx as int),
            r is Some ==> r->0 < self.reps@.len(),
    {
        proof {
            every_inked_line_has_a_column(flat@, self.gap(), flat@[idx as int].line);
        }
        match self.column_of.get(&flat[idx].line) {
            Some(c) => Some(*c),
            None => None,
        }
    }

    /// The left edge of column `col`.
    pub fn rep(&self, col: usize) -> (r: i64)
        requires
            col < self.reps@.len(),
        ensures
            r == self.reps@[col as int],
    {
        self.reps[col]
    }

    /// The words of column `col` in content order, spaces among them.
    pub fn word_indices(&self, flat: &[FlatWord], col: usize) -> (r: Vec<usize>)
        requires
            self.of(flat@),
        ensures
            r@.map_values(|i: usize| i as int) == column_words(flat@, self.gap(), col),
            forall|k: int| 0 <= k < r@.len() ==> #[trigger] r@[k] < flat@.len(),
    {
        let mut r: Vec<usize> = Vec::new();
        let mut i: usize = 0;
        let ghost f = |i: usize| i as int;
        assert(r@.map_values(f) =~= Seq::<int>::empty());
        while i < flat.len()
            invariant
                i <= flat@.len(),
                self.of(flat@),
                f == |i: usize| i as int,
                r@.map_values(f) == column_words_upto(flat@, self.gap(), col, i as nat),
                forall|k: int| 0 <= k < r@.len() ==> #[trigger] r@[k] < flat@.len(),
            decreases flat@.len() - i,
        {
            match self.col_of(flat, i) {
                Some(c) => {
                    if c == col {
                        let ghost before = r@;
                        r.push(i);
                        assert(r@.map_values(f) =~= before.map_values(f).push(i as int));
                    }
                },
                None => {},
            }
            i = i + 1;
        }
        r
    }

    /// The column that follows `col` in content order.
    pub fn next_column_in_content_order(&self, flat: &[FlatWord], col: usize) -> (r: Option<usize>)
        requires
            self.of(flat@),
        ensures
            r == next_column(flat@, self.gap(), col),
    {
        let words = self.word_indices(flat, col);
        let ghost f = |i: usize| i as int;
        assert(words@.map_values(f).len() == words@.len());
        if words.len() == 0 {
            return None;
        }
        let last = words[words.len() - 1];
        let n = flat.len();
        assert(words@.map_values(f).last() == last && last < n);
        let mut i: usize = last + 1;
        while i < n
            invariant
                last < i <= n == flat@.len(),
                self.of(flat@),
                next_column(flat@, self.gap(), col) == other_column_from(flat@, self.gap(), col, i as int),
            decreases flat@.len() - i,
        {
            match self.col_of(flat, i) {
                Some(c) => {
                    if c != col {
                        return Some(c);
                    }
                },
                None => {},
            }
            i = i + 1;
        }
        None
    }

    /// Whether column `col` carries running text.
    pub(crate) fn is_text_column(&self, col: usize, Ghost(flat): Ghost<Seq<FlatWord>>) -> (r: bool)
        requires
            self.of(flat),
        ensures
            r == text_column(flat, self.gap(), col as nat),
    {
        if col >= self.col_line_count.len() || self.col_line_count[col] < 2 {
            return false;
        }
        assert(in_range(self.col_median_height@[col as int]));
        assert(in_range(self.col_median_width@[col as int]));
        let h: i128 = if self.body_median_height >= 1_000 {
            self.body_median_height
        } else {
            1_000
        };
        let w: i128 = if self.body_median_width >= 1_000 {
            self.body_median_width
        } else {
            1_000
        };
        100 * self.col_median_height[col] >= 85 * h && 2 * self.col_median_width[col] >= w
    }

    /// The first column of running text that follows `col` in content order.
    pub fn next_text_column(&self, flat: &[FlatWord], col: usize) -> (r: Option<usize>)
        requires
            self.of(flat@),
        ensures
            r == next_text_column(flat@, self.gap(), col),
            r is Some ==> r->0 < self.reps@.len(),
    {
        let mut cursor = col;
        loop
            invariant
                self.of(flat@),
                next_text_column(flat@, self.gap(), col) == next_text_column(flat@, self.gap(), cursor),
            decreases flat@.len() - column_end(flat@, self.gap(), cursor),
        {
            proof {
                lemma_next_column_is_later(flat@, self.gap(), cursor);
            }
            match self.next_column_in_content_order(flat, cursor) {
                None => {
                    return None;
                },
                Some(next) => {
                    if self.is_text_column(next, Ghost(flat@)) {
                        return Some(next);
                    }
                    cursor = next;
                },
            }
        }
    }

    /// The columns of running text in content order.
    pub fn text_columns_in_content_order(&self, flat: &[FlatWord]) -> (cols: Vec<usize>)
        requires
            self.of(flat@),
        ensures
            cols@ == text_columns(flat@, self.gap()),
    {
        let mut cols: Vec<usize> = Vec::new();
        let mut i: usize = 0;
        while i < flat.len()
            invariant
                i <= flat@.len(),
                self.of(flat@),
                cols@ == text_columns_upto(flat@, self.gap(), i as nat),
            decreases flat@.len() - i,
        {
            if is_inked(&flat[i]) {
                match self.col_of(flat, i) {
                    Some(c) => {
                        if position_of(&cols, c).is_none() && self.is_text_column(c, Ghost(flat@)) {
                            cols.push(c);
                        }
                    },
                    None => {},
                }
            }
            i = i + 1;
        }
        cols
    }

    /// The column of running text before `col` in content order.
    pub fn previous_text_column(&self, flat: &[FlatWord], col: usize) -> (r: Option<usize>)
        requires
            self.of(flat@),
        ensures
            r == previous_text_column(flat@, self.gap(), col),
            r is Some ==> r->0 < self.reps@.len(),
    {
        let cols = self.text_columns_in_content_order(flat);
        proof {
            lemma_text_columns(flat@, self.gap(), flat@.len());
        }
        match position_of(&cols, col) {
            None => None,
            Some(p) => {
                if p == 0 {
                    None
                } else {
                    Some(cols[p - 1])
                }
            },
        }
    }
}

/// Where `x` first stands in `v`.
fn position_of(v: &Vec<usize>, x: usize) -> (r: Option<usize>)
    ensures
        match r {
            Some(p) => p < v@.len() && v@.contains(x) && v@[p as int] == x && (v@.no_duplicates() ==> v@.index_of(x) == p),
            None => !v@.contains(x),
        },
{
    let mut i: usize = 0;
    while i < v.len()
        invariant
            i <= v@.len(),
            forall|k: int| 0 <= k < i ==> v@[k] != x,
        decreases v@.len() - i,
    {
        if v[i] == x {
            assert(v@.contains(x));
            return Some(i);
        }
        i = i + 1;
    }
    None
}

// ── where reading enters a column ──

/// The topmost of the first `n` words that shows something in column `col`.
pub open spec fn topmost_upto(flat: Seq<FlatWord>, gap: int, col: usize, n: nat) -> Option<int>
    decreases n,
{
    if n == 0 {
        None
    } else {
        let before = topmost_upto(flat, gap, col, (n - 1) as nat);
        if column_at(flat, gap, n - 1) == Some(col) && inked(flat[n - 1]) && (before is None
            || flat[n - 1].top_cqw < flat[before->0].top_cqw) {
            Some(n - 1)
        } else {
            before
        }
    }
}

/// The first line of column `col` is indented: a new paragraph starts there.
pub open spec fn first_line_indented(flat: Seq<FlatWord>, cal: DocCalibration, col: usize) -> bool {
    let gap = cal.column_gap_cqw as int;
    match topmost_upto(flat, gap, col, flat.len()) {
        Some(k) => left_of(flat, flat[k].line) - column_lefts(flat, gap)[col as int]
            > cal.paragraph_indent_cqw,
        None => false,
    }
}

/// The leftmost column of running text from column `from` on.
pub open spec fn text_column_from(flat: Seq<FlatWord>, gap: int, from: nat) -> Option<usize>
    decreases column_count(flat, gap) - from,
{
    if from >= column_count(flat, gap) {
        None
    } else if text_column(flat, gap, from) {
        Some(from as usize)
    } else {
        text_column_from(flat, gap, from + 1)
    }
}

impl PageLayout {
    /// Whether the first line of column `col` is indented.
    pub fn column_first_line_indented(&self, flat: &[FlatWord], col: usize) -> (r: bool)
        requires
            self.of(flat@),
            col < self.reps@.len(),
        ensures
            r == first_line_indented(flat@, self.cal, col),
    {
        let mut top: Option<usize> = None;
        let mut i: usize = 0;
        while i < flat.len()
            invariant
                i <= flat@.len(),
                self.of(flat@),
                match top {
                    Some(k) => k < i && topmost_upto(flat@, self.gap(), col, i as nat) == Some(k as int)
                        && ink_at(flat@, flat@[k as int].line, k as int),
                    None => topmost_upto(flat@, self.gap(), col, i as nat) is None,
                },
            decreases flat@.len() - i,
        {
            if is_inked(&flat[i]) {
                match self.col_of(flat, i) {
                    Some(c) => {
                        if c == col {
                            let higher = match top {
                                Some(k) => flat[i].top_cqw < flat[k].top_cqw,
                                None => true,
                            };
                            if higher {
                                top = Some(i);
                            }
                        }
                    },
                    None => {},
                }
            }
            i = i + 1;
        }
        match top {
            None => false,
            Some(k) => match line_box(flat, flat[k].line) {
                Some(b) => (b.left as i128) - (self.reps[col] as i128) > self.cal.paragraph_indent_cqw as i128,
                None => {
                    proof {
                        line_extent(flat@, flat@[k as int].line);
                    }
                    false
                },
            },
        }
    }

    /// The leftmost column of running text.
    pub fn first_text_column(&self, flat: &[FlatWord]) -> (r: Option<usize>)
        requires
            self.of(flat@),
        ensures
            r == text_column_from(flat@, self.gap(), 0),
            r is Some ==> r->0 < self.reps@.len(),
    {
        let mut c: usize = 0;
        while c < self.reps.len()
            invariant
                c <= self.reps@.len(),
                self.of(flat@),
                text_column_from(flat@, self.gap(), 0) == text_column_from(flat@, self.gap(), c as nat),
            decreases self.reps@.len() - c,
        {
            if self.is_text_column(c, Ghost(flat@)) {
                return Some(c);
            }
            c = c + 1;
        }
        None
    }
}

/// The place of a column among the columns of running text, for going back from
/// one to the one before.
pub open spec fn text_rank(flat: Seq<FlatWord>, gap: int, col: Option<usize>) -> nat {
    match col {
        Some(c) => if text_columns(flat, gap).contains(c) {
            text_columns(flat, gap).index_of(c) as nat
        } else {
            0
        },
        None => 0,
    }
}

pub proof fn lemma_previous_ranks_lower(flat: Seq<FlatWord>, gap: int, col: usize)
    requires
        previous_text_column(flat, gap, col) is Some,
    ensures
        text_rank(flat, gap, previous_text_column(flat, gap, col)) < text_rank(flat, gap, Some(col)),
        previous_text_column(flat, gap, col)->0 < column_count(flat, gap),
{
    let cols = text_columns(flat, gap);
    lemma_text_columns(flat, gap, flat.len());
    let at = cols.index_of(col);
    let p = cols[at - 1];
    assert(cols.contains(p));
    assert(text_column(flat, gap, p as nat));
    assert(cols.index_of(p) == at - 1);
}

pub proof fn lemma_words_are_in_the_column(flat: Seq<FlatWord>, gap: int, col: usize)
    ensures
        forall|k: int|
            0 <= k < column_words(flat, gap, col).len() ==> 0 <= #[trigger] column_words(flat, gap, col)[k]
                < flat.len() && column_at(flat, gap, column_words(flat, gap, col)[k]) == Some(col),
        forall|i: int|
            0 <= i < flat.len() && #[trigger] column_at(flat, gap, i) == Some(col) ==> column_words(
                flat,
                gap,
                col,
            ).contains(i),
        column_words(flat, gap, col).no_duplicates(),
{
    lemma_column_words(flat, gap, col, flat.len());
    lemma_column_words_hold(flat, gap, col, flat.len());
}

proof fn lemma_column_words_hold(flat: Seq<FlatWord>, gap: int, col: usize, n: nat)
    requires
        n <= flat.len(),
    ensures
        forall|i: int|
            0 <= i < n && #[trigger] column_at(flat, gap, i) == Some(col) ==> column_words_upto(
                flat,
                gap,
                col,
                n,
            ).contains(i),
        column_words_upto(flat, gap, col, n).no_duplicates(),
        forall|k: int|
            0 <= k < column_words_upto(flat, gap, col, n).len() ==> 0 <= #[trigger] column_words_upto(
                flat,
                gap,
                col,
                n,
            )[k] < n,
    decreases n,
{
    if n > 0 {
        lemma_column_words_hold(flat, gap, col, (n - 1) as nat);
        let before = column_words_upto(flat, gap, col, (n - 1) as nat);
        let now = column_words_upto(flat, gap, col, n);
        assert forall|i: int| 0 <= i < n && #[trigger] column_at(flat, gap, i) == Some(col) implies now.contains(i) by {
            if i < n - 1 {
                let k = choose|k: int| 0 <= k < before.len() && before[k] == i;
                assert(now[k] == i);
            } else {
                assert(now[now.len() - 1] == i);
            }
        }
    }
}

// ── columns of running text, seen from outside ──

/// Word `w` shows something in column `c`.
pub open spec fn shows_in(flat: Seq<FlatWord>, gap: int, c: usize, w: int) -> bool {
    0 <= w < flat.len() && inked(flat[w]) && column_at(flat, gap, w) == Some(c)
}

/// Whatever column `b` shows comes behind something that column `a` shows.
pub open spec fn shows_earlier(flat: Seq<FlatWord>, gap: int, a: usize, b: usize) -> bool {
    forall|w: int| #[trigger] shows_in(flat, gap, b, w) ==> exists|v: int| v < w && #[trigger] shows_in(flat, gap, a, v)
}

/// Column `c` shows something among the first `n` words.
pub open spec fn shows_among(flat: Seq<FlatWord>, gap: int, c: usize, n: int) -> bool {
    exists|w: int| w < n && #[trigger] shows_in(flat, gap, c, w)
}

proof fn lemma_listed(flat: Seq<FlatWord>, gap: int, n: nat)
    requires
        n <= flat.len(),
    ensures
        forall|c: usize|
            #[trigger] text_columns_upto(flat, gap, n).contains(c) <==> text_column(flat, gap, c as nat) && shows_among(
                flat,
                gap,
                c,
                n as int,
            ),
    decreases n,
{
    let now = text_columns_upto(flat, gap, n);
    if n > 0 {
        let m = (n - 1) as nat;
        lemma_listed(flat, gap, m);
        let before = text_columns_upto(flat, gap, m);
        assert forall|c: usize| #[trigger] now.contains(c) <==> text_column(flat, gap, c as nat) && shows_among(
            flat,
            gap,
            c,
            n as int,
        ) by {
            if now.contains(c) {
                let k = choose|k: int| 0 <= k < now.len() && now[k] == c;
                if k < before.len() {
                    assert(before[k] == c);
                    assert(before.contains(c));
                } else {
                    assert(shows_in(flat, gap, c, m as int));
                    assert(text_column(flat, gap, c as nat));
                }
            }
            if text_column(flat, gap, c as nat) && shows_among(flat, gap, c, n as int) {
                if before.contains(c) {
                    let k = choose|k: int| 0 <= k < before.len() && before[k] == c;
                    assert(now[k] == c);
                } else {
                    assert(!shows_among(flat, gap, c, m as int));
                    let w = choose|w: int| w < n && #[trigger] shows_in(flat, gap, c, w);
                    assert(w == m);
                    assert(now[now.len() - 1] == c);
                }
            }
        }
    }
}

proof fn lemma_listed_order(flat: Seq<FlatWord>, gap: int, n: nat, i: int, j: int)
    requires
        n <= flat.len(),
        0 <= i < j < text_columns_upto(flat, gap, n).len(),
    ensures
        shows_earlier(flat, gap, text_columns_upto(flat, gap, n)[i], text_columns_upto(flat, gap, n)[j]),
    decreases n,
{
    if n > 0 {
        let m = (n - 1) as nat;
        let now = text_columns_upto(flat, gap, n);
        let before = text_columns_upto(flat, gap, m);
        lemma_listed(flat, gap, m);
        assert(now[i] == before[i]);
        if j < before.len() {
            lemma_listed_order(flat, gap, m, i, j);
            assert(now[j] == before[j]);
        } else {
            assert(before.contains(before[i]));
            let v = choose|v: int| v < m && #[trigger] shows_in(flat, gap, before[i], v);
            assert forall|w: int| #[trigger] shows_in(flat, gap, now[j], w) implies exists|u: int|
                u < w && #[trigger] shows_in(flat, gap, now[i], u) by {
                if w < m {
                    assert(shows_among(flat, gap, now[j], m as int));
                    assert(before.contains(now[j]));
                }
                assert(shows_in(flat, gap, now[i], v));
            }
        }
    }
}

/// The columns of running text are listed in the order in which they first show something:
/// each of them that does is listed once, and whatever a later one shows comes behind
/// something that an earlier one shows.
pub proof fn columns_are_read_in_content_order(flat: Seq<FlatWord>, gap: int)
    ensures
        text_columns(flat, gap).no_duplicates(),
        forall|c: usize|
            #[trigger] text_columns(flat, gap).contains(c) <==> text_column(flat, gap, c as nat) && shows_among(
                flat,
                gap,
                c,
                flat.len() as int,
            ),
        forall|i: int, j: int|
            0 <= i < j < text_columns(flat, gap).len() ==> shows_earlier(
                flat,
                gap,
                #[trigger] text_columns(flat, gap)[i],
                #[trigger] text_columns(flat, gap)[j],
            ),
{
    lemma_listed(flat, gap, flat.len());
    lemma_text_columns(flat, gap, flat.len());
    assert forall|i: int, j: int| 0 <= i < j < text_columns(flat, gap).len() implies shows_earlier(
        flat,
        gap,
        #[trigger] text_columns(flat, gap)[i],
        #[trigger] text_columns(flat, gap)[j],
    ) by {
        lemma_listed_order(flat, gap, flat.len(), i, j);
    }
}

/// Reading goes on in the column of the first word behind a column that has one; where that
/// is no running text, from there on; and not at all where there is no such word. `z` is the
/// last word of the column, `j` the first word behind it that has a column.
pub proof fn reading_goes_on_behind_the_last_word(flat: Seq<FlatWord>, gap: int, c: usize, z: int, j: int)
    requires
        0 <= z < flat.len(),
        column_at(flat, gap, z) == Some(c),
        forall|k: int| z < k < flat.len() ==> #[trigger] column_at(flat, gap, k) != Some(c),
        z < j <= flat.len(),
        forall|k: int| z < k < j ==> #[trigger] column_at(flat, gap, k) is None,
        j < flat.len() ==> column_at(flat, gap, j) is Some,
    ensures
        j == flat.len() ==> next_text_column(flat, gap, c) is None,
        j < flat.len() && text_column(flat, gap, column_at(flat, gap, j)->0 as nat) ==> next_text_column(flat, gap, c) == column_at(
            flat,
            gap,
            j,
        ),
        j < flat.len() && !text_column(flat, gap, column_at(flat, gap, j)->0 as nat) ==> next_text_column(flat, gap, c)
            == next_text_column(flat, gap, column_at(flat, gap, j)->0),
{
    lemma_column_words(flat, gap, c, flat.len());
    let ws = column_words(flat, gap, c);
    assert(ws.len() > 0 && z <= ws.last());
    assert(ws[ws.len() - 1] == ws.last());
    assert(column_at(flat, gap, ws.last()) == Some(c));
    assert(ws.last() == z);
    lemma_skip_to(flat, gap, c, z + 1, j);
}

proof fn lemma_skip_to(flat: Seq<FlatWord>, gap: int, c: usize, from: int, j: int)
    requires
        0 <= from <= j <= flat.len(),
        forall|k: int| from <= k < j ==> #[trigger] column_at(flat, gap, k) is None,
        j < flat.len() ==> column_at(flat, gap, j) is Some && column_at(flat, gap, j) != Some(c),
    ensures
        other_column_from(flat, gap, c, from) == if j < flat.len() {
            column_at(flat, gap, j)
        } else {
            None
        },
    decreases j - from,
{
    if from < j {
        assert(column_at(flat, gap, from) is None);
        lemma_skip_to(flat, gap, c, from + 1, j);
    }
}

/// A column starts with an indented line exactly when the line of its topmost word, the
/// first one of these, starts more than the indentation to the right of the column.
pub proof fn a_column_is_indented_by_its_topmost_line(flat: Seq<FlatWord>, cal: DocCalibration, c: usize, w: int)
    requires
        shows_in(flat, cal.column_gap_cqw as int, c, w),
        forall|k: int|
            #[trigger] shows_in(flat, cal.column_gap_cqw as int, c, k) ==> flat[w].top_cqw < flat[k].top_cqw || flat[w].top_cqw
                == flat[k].top_cqw && w <= k,
    ensures
        first_line_indented(flat, cal, c) <==> left_of(flat, flat[w].line) > column_lefts(flat, cal.column_gap_cqw as int)[c as int]
            + cal.paragraph_indent_cqw,
{
    lemma_topmost(flat, cal.column_gap_cqw as int, c, w, flat.len());
}

proof fn lemma_topmost(flat: Seq<FlatWord>, gap: int, c: usize, w: int, n: nat)
    requires
        n <= flat.len(),
        shows_in(flat, gap, c, w),
        forall|k: int|
            #[trigger] shows_in(flat, gap, c, k) ==> flat[w].top_cqw < flat[k].top_cqw || flat[w].top_cqw == flat[k].top_cqw && w
                <= k,
    ensures
        w < n ==> topmost_upto(flat, gap, c, n) == Some(w),
        w >= n ==> topmost_upto(flat, gap, c, n) is None || shows_in(flat, gap, c, topmost_upto(flat, gap, c, n)->0)
            && topmost_upto(flat, gap, c, n)->0 < n,
    decreases n,
{
    if n > 0 {
        lemma_topmost(flat, gap, c, w, (n - 1) as nat);
        if column_at(flat, gap, n - 1) == Some(c) && inked(flat[n - 1]) {
            assert(shows_in(flat, gap, c, n - 1));
        }
        if w == n - 1 && topmost_upto(flat, gap, c, (n - 1) as nat) is Some {
            let t = topmost_upto(flat, gap, c, (n - 1) as nat)->0;
            assert(shows_in(flat, gap, c, t));
        }
    }
}

proof fn lemma_median_of_equals(s: Seq<int>, v: int)
    requires
        s.len() > 0,
        forall|i: int| 0 <= i < s.len() ==> #[trigger] s[i] == v,
    ensures
        median(s) == v,
{
    crate::sorting::median_is_a_value(s);
    let i = choose|i: int| 0 <= i < s.len() && s[i] == median(s);
    assert(s[i] == v);
}

/// On a page whose lines are all as wide and as high as each other, `w` and `h`, not less
/// than 0.001 `cqw`, every column of two lines or more is running text, and a column of one
/// line is not.
pub proof fn a_uniform_page_is_running_text(flat: Seq<FlatWord>, gap: int, c: nat, w: int, h: int)
    requires
        flat.len() <= usize::MAX,
        c < column_count(flat, gap),
        1_000 <= w,
        1_000 <= h,
        forall|l: usize|
            #[trigger] crate::lines::line_shows(flat, l) ==> crate::lines::width_of(flat, l) == w && crate::lines::height_of(
                flat,
                l,
            ) == h,
    ensures
        text_column(flat, gap, c) <==> column_lines(flat, gap, c).len() >= 2,
{
    let n = column_count(flat, gap);
    lemma_uniform_column(flat, gap, c, w, h);
    if column_lines(flat, gap, c).len() >= 2 {
        lemma_uniform_widths(flat, gap, n, w, h);
        let long = crate::columns::long_column_widths(flat, gap, n);
        let all = crate::columns::widths(flat, lines_by_left(flat));
        lemma_uniform_lines(flat, w, h);
        assert(lines_by_left(flat).len() > 0) by {
            if lines_by_left(flat).len() == 0 {
                assert(column_lefts(flat, gap).len() == 0);
            }
        }
        assert(body_width(flat, gap) == w) by {
            if long.len() == 0 {
                lemma_median_of_equals(all, w);
            } else {
                lemma_median_of_equals(long, w);
                lemma_not_below_all(long, w, long.len());
                lemma_median_of_equals(crate::columns::not_below(long, w, long.len()), w);
            }
        }
        lemma_uniform_heights(flat, gap, n, w, h);
        let hs = wide_column_heights(flat, gap, n);
        assert(body_height(flat, gap) == h) by {
            if hs.len() == 0 {
                lemma_median_of_equals(heights(flat, lines_by_left(flat)), h);
            } else {
                lemma_median_of_equals(hs, h);
            }
        }
        lemma_median_of_equals(crate::columns::widths(flat, column_lines(flat, gap, c)), w);
        lemma_median_of_equals(heights(flat, column_lines(flat, gap, c)), h);
    }
}

spec fn uniform(flat: Seq<FlatWord>, w: int, h: int) -> bool {
    forall|l: usize|
        #[trigger] crate::lines::line_shows(flat, l) ==> crate::lines::width_of(flat, l) == w && crate::lines::height_of(flat, l)
            == h
}

proof fn lemma_uniform_column(flat: Seq<FlatWord>, gap: int, c: nat, w: int, h: int)
    requires
        flat.len() <= usize::MAX,
        uniform(flat, w, h),
        c < column_count(flat, gap),
    ensures
        forall|k: int|
            0 <= k < column_lines(flat, gap, c).len() ==> #[trigger] crate::columns::widths(flat, column_lines(flat, gap, c))[k] == w,
        forall|k: int| 0 <= k < column_lines(flat, gap, c).len() ==> #[trigger] heights(flat, column_lines(flat, gap, c))[k] == h,
{
    let ls = column_lines(flat, gap, c);
    crate::lines::column_lines_are_the_lines_of_the_column(flat, gap, c);
    crate::lines::lines_by_left_are_the_inked_lines(flat);
    let n = lines_by_left(flat).len();
    if n > 0 {
        crate::lines::lemma_column_number(flat, gap, (n - 1) as nat);
    } else {
        assert(column_lefts(flat, gap).len() == 0);
    }
    assert forall|k: int| 0 <= k < ls.len() implies crate::lines::line_shows(flat, #[trigger] ls[k]) by {
        assert(ls.contains(ls[k]));
        every_inked_line_has_a_column(flat, gap, ls[k]);
    }
}

proof fn lemma_uniform_lines(flat: Seq<FlatWord>, w: int, h: int)
    requires
        uniform(flat, w, h),
    ensures
        forall|k: int|
            0 <= k < lines_by_left(flat).len() ==> #[trigger] crate::columns::widths(flat, lines_by_left(flat))[k] == w,
        forall|k: int| 0 <= k < lines_by_left(flat).len() ==> #[trigger] heights(flat, lines_by_left(flat))[k] == h,
{
    let ls = lines_by_left(flat);
    crate::lines::lines_by_left_are_the_inked_lines(flat);
    assert forall|k: int| 0 <= k < ls.len() implies #[trigger] crate::columns::widths(flat, ls)[k] == w by {
        assert(ls.contains(ls[k]));
    }
    assert forall|k: int| 0 <= k < ls.len() implies #[trigger] heights(flat, ls)[k] == h by {
        assert(ls.contains(ls[k]));
    }
}

proof fn lemma_uniform_widths(flat: Seq<FlatWord>, gap: int, n: nat, w: int, h: int)
    requires
        flat.len() <= usize::MAX,
        uniform(flat, w, h),
        n <= column_count(flat, gap),
    ensures
        forall|k: int|
            0 <= k < crate::columns::long_column_widths(flat, gap, n).len() ==> #[trigger] crate::columns::long_column_widths(
                flat,
                gap,
                n,
            )[k] == w,
    decreases n,
{
    if n > 0 {
        lemma_uniform_widths(flat, gap, (n - 1) as nat, w, h);
        lemma_uniform_column(flat, gap, (n - 1) as nat, w, h);
        let before = crate::columns::long_column_widths(flat, gap, (n - 1) as nat);
        let now = crate::columns::long_column_widths(flat, gap, n);
        if column_lines(flat, gap, (n - 1) as nat).len() >= 4 {
            lemma_median_of_equals(crate::columns::widths(flat, column_lines(flat, gap, (n - 1) as nat)), w);
            assert(now == before.push(w));
        } else {
            assert(now == before);
        }
    }
}

proof fn lemma_uniform_heights(flat: Seq<FlatWord>, gap: int, n: nat, w: int, h: int)
    requires
        flat.len() <= usize::MAX,
        uniform(flat, w, h),
        n <= column_count(flat, gap),
    ensures
        forall|k: int| 0 <= k < wide_column_heights(flat, gap, n).len() ==> #[trigger] wide_column_heights(flat, gap, n)[k] == h,
    decreases n,
{
    if n > 0 {
        lemma_uniform_heights(flat, gap, (n - 1) as nat, w, h);
        lemma_uniform_column(flat, gap, (n - 1) as nat, w, h);
        let before = wide_column_heights(flat, gap, (n - 1) as nat);
        let own = heights(flat, column_lines(flat, gap, (n - 1) as nat));
        let now = wide_column_heights(flat, gap, n);
        assert forall|k: int| 0 <= k < now.len() implies #[trigger] now[k] == h by {
            if k < before.len() {
                assert(now[k] == before[k]);
            } else {
                assert(now[k] == own[k - before.len()]);
            }
        }
    }
}

proof fn lemma_not_below_all(s: Seq<int>, v: int, n: nat)
    requires
        n <= s.len(),
        forall|i: int| 0 <= i < s.len() ==> #[trigger] s[i] == v,
    ensures
        crate::columns::not_below(s, v, n).len() == n,
        forall|i: int| 0 <= i < n ==> #[trigger] crate::columns::not_below(s, v, n)[i] == v,
    decreases n,
{
    if n > 0 {
        lemma_not_below_all(s, v, (n - 1) as nat);
        assert(s[n - 1] == v);
    }
}

} // verus!
