//! Sizes of the columns of a page.
use crate::lines::{all_describe, column_by_top, column_count, column_lefts, column_lefts_upto, column_lines, column_lines_upto, column_number, column_numbers, height_of, height_upto, ids, line_boxes, lines_by_left, lines_by_top, sort_by_left, sort_by_top, width_of, LineBox};
use crate::page_text::FlatWord;
use crate::sorting::{ints, median, median_of};
use vstd::prelude::*;

verus! {

/// The heights of some lines.
pub open spec fn heights(flat: Seq<FlatWord>, ls: Seq<usize>) -> Seq<int> {
    ls.map_values(|l: usize| height_of(flat, l))
}

/// The widths of some lines.
pub open spec fn widths(flat: Seq<FlatWord>, ls: Seq<usize>) -> Seq<int> {
    ls.map_values(|l: usize| width_of(flat, l))
}

/// The values of the first `n` that are not below `least`.
pub open spec fn not_below(s: Seq<int>, least: int, n: nat) -> Seq<int>
    decreases n,
{
    if n == 0 {
        Seq::empty()
    } else if s[n - 1] >= least {
        not_below(s, least, (n - 1) as nat).push(s[n - 1])
    } else {
        not_below(s, least, (n - 1) as nat)
    }
}

/// The median of the values that are not below the median.
pub open spec fn upper_median(s: Seq<int>) -> int {
    median(not_below(s, median(s), s.len()))
}

/// The median height of column `col`.
pub open spec fn column_height(flat: Seq<FlatWord>, gap: int, col: nat) -> int {
    median(heights(flat, column_lines(flat, gap, col)))
}

/// The median width of column `col`.
pub open spec fn column_width(flat: Seq<FlatWord>, gap: int, col: nat) -> int {
    median(widths(flat, column_lines(flat, gap, col)))
}

/// The median widths of those of the first `n` columns that have four lines or
/// more.
pub open spec fn long_column_widths(flat: Seq<FlatWord>, gap: int, n: nat) -> Seq<int>
    decreases n,
{
    if n == 0 {
        Seq::empty()
    } else {
        let before = long_column_widths(flat, gap, (n - 1) as nat);
        if column_lines(flat, gap, (n - 1) as nat).len() >= 4 {
            before.push(column_width(flat, gap, (n - 1) as nat))
        } else {
            before
        }
    }
}

/// The usual width of a line of running text: the upper median over the columns
/// with four lines or more; without such a column, the median over all lines.
pub open spec fn body_width(flat: Seq<FlatWord>, gap: int) -> int {
    let long = long_column_widths(flat, gap, column_count(flat, gap));
    if long.len() == 0 {
        median(widths(flat, lines_by_left(flat)))
    } else {
        upper_median(long)
    }
}

/// No larger than the sizes of lines can get.
pub open spec fn in_range(x: i128) -> bool {
    0 <= x <= 0x2_0000_0000_0000_0000
}

pub open spec fn all_in_range(s: Seq<i128>) -> bool {
    forall|k: int| 0 <= k < s.len() ==> in_range(#[trigger] s[k])
}

/// The median of values in range is in range.
pub(crate) fn ranged_median(v: &Vec<i128>) -> (r: i128)
    requires
        all_in_range(v@),
    ensures
        r == median(ints(v@)),
        in_range(r),
{
    let r = median_of(v);
    proof {
        if v@.len() > 0 {
            let k = choose|k: int| 0 <= k < v@.len() && v@[k] == r;
            assert(in_range(v@[k]));
        }
    }
    r
}

pub(crate) fn box_heights(boxes: &Vec<LineBox>, Ghost(flat): Ghost<Seq<FlatWord>>) -> (r: Vec<i128>)
    requires
        all_describe(boxes@, flat),
    ensures
        ints(r@) == heights(flat, ids(boxes@)),
        all_in_range(r@),
{
    let mut r: Vec<i128> = Vec::new();
    let mut i: usize = 0;
    while i < boxes.len()
        invariant
            i <= boxes@.len(),
            r@.len() == i,
            all_describe(boxes@, flat),
            forall|k: int| 0 <= k < i ==> #[trigger] r@[k] == height_of(flat, ids(boxes@)[k]),
            all_in_range(r@),
        decreases boxes@.len() - i,
    {
        proof {
            assert(boxes@[i as int].describes(flat));
            lemma_height_positive(flat, boxes@[i as int].line, flat.len());
        }
        r.push(boxes[i].height as i128);
        i = i + 1;
    }
    assert(ints(r@) =~= heights(flat, ids(boxes@)));
    r
}

proof fn lemma_height_positive(flat: Seq<FlatWord>, line: usize, n: nat)
    ensures
        height_upto(flat, line, n) >= 0,
    decreases n,
{
    if n > 0 {
        lemma_height_positive(flat, line, (n - 1) as nat);
    }
}

pub(crate) fn box_widths(boxes: &Vec<LineBox>, Ghost(flat): Ghost<Seq<FlatWord>>) -> (r: Vec<i128>)
    requires
        all_describe(boxes@, flat),
    ensures
        ints(r@) == widths(flat, ids(boxes@)),
        all_in_range(r@),
{
    let mut r: Vec<i128> = Vec::new();
    let mut i: usize = 0;
    while i < boxes.len()
        invariant
            i <= boxes@.len(),
            r@.len() == i,
            all_describe(boxes@, flat),
            forall|k: int| 0 <= k < i ==> #[trigger] r@[k] == width_of(flat, ids(boxes@)[k]),
            all_in_range(r@),
        decreases boxes@.len() - i,
    {
        assert(boxes@[i as int].describes(flat));
        r.push(boxes[i].width());
        i = i + 1;
    }
    assert(ints(r@) =~= widths(flat, ids(boxes@)));
    r
}

/// The upper median of some values.
pub(crate) fn upper_median_of(v: &Vec<i128>) -> (r: i128)
    requires
        all_in_range(v@),
    ensures
        r == upper_median(ints(v@)),
        in_range(r),
{
    let initial = ranged_median(v);
    let mut upper: Vec<i128> = Vec::new();
    let mut i: usize = 0;
    assert(ints(upper@) =~= Seq::<int>::empty());
    while i < v.len()
        invariant
            i <= v@.len(),
            initial == median(ints(v@)),
            ints(upper@) == not_below(ints(v@), initial as int, i as nat),
            all_in_range(v@),
            all_in_range(upper@),
        decreases v@.len() - i,
    {
        assert(in_range(v@[i as int]));
        assert(ints(v@)[i as int] == v@[i as int]);
        if v[i] >= initial {
            let ghost before = upper@;
            upper.push(v[i]);
            assert(ints(upper@) =~= ints(before).push(v@[i as int] as int));
        }
        i = i + 1;
    }
    ranged_median(&upper)
}

/// The columns of a page with their sizes.
pub struct PageColumns {
    pub boxes: Vec<LineBox>,
    pub numbers: Vec<usize>,
    pub lefts: Vec<i64>,
    pub members: Vec<Vec<LineBox>>,
    pub heights: Vec<i128>,
    pub widths: Vec<i128>,
    pub body_width: i128,
}

impl PageColumns {
    pub open spec fn of(self, flat: Seq<FlatWord>, gap: int) -> bool {
        &&& ids(self.boxes@) == lines_by_left(flat)
        &&& all_describe(self.boxes@, flat)
        &&& self.numbers@.len() == self.boxes@.len()
        &&& forall|k: int|
            0 <= k < self.numbers@.len() ==> #[trigger] self.numbers@[k] == column_number(
                flat,
                gap,
                k as nat,
            )
        &&& self.lefts@ == column_lefts(flat, gap)
        &&& self.members@.len() == column_count(flat, gap)
        &&& self.heights@.len() == column_count(flat, gap)
        &&& self.widths@.len() == column_count(flat, gap)
        &&& forall|c: int|
            0 <= c < self.members@.len() ==> ids((#[trigger] self.members@[c])@) == column_lines(
                flat,
                gap,
                c as nat,
            ) && all_describe(self.members@[c]@, flat)
        &&& forall|c: int|
            0 <= c < self.heights@.len() ==> #[trigger] self.heights@[c] == column_height(
                flat,
                gap,
                c as nat,
            )
        &&& forall|c: int|
            0 <= c < self.widths@.len() ==> #[trigger] self.widths@[c] == column_width(
                flat,
                gap,
                c as nat,
            )
        &&& all_in_range(self.heights@)
        &&& all_in_range(self.widths@)
        &&& self.body_width == body_width(flat, gap)
        &&& in_range(self.body_width)
    }

    /// Measures the columns of `flat`.
    pub fn new(flat: &[FlatWord], gap: i64) -> (r: PageColumns)
        ensures
            r.of(flat@, gap as int),
    {
        let boxes = sort_by_left(&line_boxes(flat), Ghost(flat@));
        let numbers = column_numbers(&boxes, gap, Ghost(flat@));
        let lefts = column_left_edges(&boxes, &numbers, gap, Ghost(flat@));
        let ghost g = gap as int;
        let mut members: Vec<Vec<LineBox>> = Vec::new();
        let mut hs: Vec<i128> = Vec::new();
        let mut ws: Vec<i128> = Vec::new();
        let mut long: Vec<i128> = Vec::new();
        let mut c: usize = 0;
        assert(ints(long@) =~= Seq::<int>::empty());
        while c < lefts.len()
            invariant
                c <= lefts@.len(),
                lefts@ == column_lefts(flat@, g),
                ids(boxes@) == lines_by_left(flat@),
                all_describe(boxes@, flat@),
                numbers@.len() == boxes@.len(),
                forall|k: int|
                    0 <= k < numbers@.len() ==> #[trigger] numbers@[k] == column_number(
                        flat@,
                        g,
                        k as nat,
                    ),
                members@.len() == c,
                hs@.len() == c,
                ws@.len() == c,
                forall|k: int|
                    0 <= k < c ==> ids((#[trigger] members@[k])@) == column_lines(
                        flat@,
                        g,
                        k as nat,
                    ) && all_describe(members@[k]@, flat@),
                forall|k: int|
                    0 <= k < c ==> #[trigger] hs@[k] == column_height(flat@, g, k as nat),
                forall|k: int|
                    0 <= k < c ==> #[trigger] ws@[k] == column_width(flat@, g, k as nat),
                all_in_range(hs@),
                all_in_range(ws@),
                all_in_range(long@),
                ints(long@) == long_column_widths(flat@, g, c as nat),
            decreases lefts@.len() - c,
        {
            let m = boxes_of_column(&boxes, &numbers, c, Ghost(flat@), Ghost(g));
            let h = ranged_median(&box_heights(&m, Ghost(flat@)));
            let w = ranged_median(&box_widths(&m, Ghost(flat@)));
            proof {
                assert(ids(m@).len() == m@.len());
            }
            if m.len() >= 4 {
                let ghost before = long@;
                long.push(w);
                assert(ints(long@) =~= ints(before).push(w as int));
            }
            members.push(m);
            hs.push(h);
            ws.push(w);
            c = c + 1;
        }
        assert(ints(long@).len() == long@.len());
        let body_width = if long.len() == 0 {
            ranged_median(&box_widths(&boxes, Ghost(flat@)))
        } else {
            upper_median_of(&long)
        };
        PageColumns { boxes, numbers, lefts, members, heights: hs, widths: ws, body_width }
    }
}

fn column_left_edges(
    boxes: &Vec<LineBox>,
    numbers: &Vec<usize>,
    gap: i64,
    Ghost(flat): Ghost<Seq<FlatWord>>,
) -> (lefts: Vec<i64>)
    requires
        ids(boxes@) == lines_by_left(flat),
        all_describe(boxes@, flat),
        numbers@.len() == boxes@.len(),
        forall|k: int|
            0 <= k < numbers@.len() ==> #[trigger] numbers@[k] == column_number(
                flat,
                gap as int,
                k as nat,
            ),
    ensures
        lefts@ == column_lefts(flat, gap as int),
{
    let mut lefts: Vec<i64> = Vec::new();
    let mut i: usize = 0;
    while i < boxes.len()
        invariant
            i <= boxes@.len() == numbers@.len(),
            ids(boxes@) == lines_by_left(flat),
            all_describe(boxes@, flat),
            forall|k: int|
                0 <= k < numbers@.len() ==> #[trigger] numbers@[k] == column_number(
                    flat,
                    gap as int,
                    k as nat,
                ),
            lefts@ == column_lefts_upto(flat, gap as int, i as nat),
        decreases boxes@.len() - i,
    {
        assert(ids(boxes@)[i as int] == boxes@[i as int].line);
        if i == 0 || numbers[i] != numbers[i - 1] {
            lefts.push(boxes[i].left);
        }
        i = i + 1;
    }
    lefts
}

pub(crate) fn boxes_of_column(
    boxes: &Vec<LineBox>,
    numbers: &Vec<usize>,
    col: usize,
    Ghost(flat): Ghost<Seq<FlatWord>>,
    Ghost(gap): Ghost<int>,
) -> (out: Vec<LineBox>)
    requires
        ids(boxes@) == lines_by_left(flat),
        all_describe(boxes@, flat),
        numbers@.len() == boxes@.len(),
        forall|k: int|
            0 <= k < numbers@.len() ==> #[trigger] numbers@[k] == column_number(
                flat,
                gap,
                k as nat,
            ),
    ensures
        ids(out@) == column_lines(flat, gap, col as nat),
        all_describe(out@, flat),
{
    let mut out: Vec<LineBox> = Vec::new();
    let mut i: usize = 0;
    assert(ids(out@) =~= Seq::<usize>::empty());
    while i < boxes.len()
        invariant
            i <= boxes@.len() == numbers@.len(),
            ids(boxes@) == lines_by_left(flat),
            all_describe(boxes@, flat),
            all_describe(out@, flat),
            forall|k: int|
                0 <= k < numbers@.len() ==> #[trigger] numbers@[k] == column_number(
                    flat,
                    gap,
                    k as nat,
                ),
            ids(out@) == column_lines_upto(flat, gap, col as nat, i as nat),
        decreases boxes@.len() - i,
    {
        assert(ids(boxes@)[i as int] == boxes@[i as int].line);
        if numbers[i] == col {
            let ghost before = out@;
            out.push(boxes[i]);
            assert(ids(out@) =~= ids(before).push(boxes@[i as int].line));
        }
        i = i + 1;
    }
    out
}

/// The boxes of the lines of column `col`, from top to bottom.
pub(crate) fn column_boxes_by_top(flat: &[FlatWord], gap: i64, col: usize) -> (out: Vec<LineBox>)
    ensures
        ids(out@) == column_by_top(flat@, gap as int, col as nat),
        all_describe(out@, flat@),
        out@.len() == column_by_top(flat@, gap as int, col as nat).len(),
{
    let boxes = sort_by_left(&line_boxes(flat), Ghost(flat@));
    let numbers = column_numbers(&boxes, gap, Ghost(flat@));
    let members = boxes_of_column(&boxes, &numbers, col, Ghost(flat@), Ghost(gap as int));
    let out = sort_by_top(&members, Ghost(flat@));
    assert(ids(out@).len() == out@.len());
    out
}

/// The boxes of all lines, from top to bottom.
pub(crate) fn boxes_by_top(flat: &[FlatWord]) -> (out: Vec<LineBox>)
    ensures
        ids(out@) == lines_by_top(flat@),
        all_describe(out@, flat@),
        out@.len() == lines_by_top(flat@).len(),
{
    let boxes = sort_by_left(&line_boxes(flat), Ghost(flat@));
    let out = sort_by_top(&boxes, Ghost(flat@));
    assert(ids(out@).len() == out@.len());
    out
}

proof fn lemma_one_value(x: int)
    ensures
        median(seq![x]) == x,
{
    let s = seq![x];
    crate::sorting::median_is_a_value(s);
    let i = choose|i: int| 0 <= i < s.len() && s[i] == median(s);
    assert(s[i] == x);
}

/// The usual width of several is that of the wider ones: of one width it is that one, of two the
/// larger.
pub proof fn the_wider_columns_count(x: int, y: int)
    requires
        x <= y,
    ensures
        upper_median(seq![x]) == x,
        upper_median(seq![x, y]) == y,
        upper_median(seq![y, x]) == y,
{
    broadcast use vstd::seq_lib::group_to_multiset_ensures;

    let a = seq![x];
    lemma_one_value(x);
    assert(not_below(a, x, 0) =~= Seq::<int>::empty());
    assert(not_below(a, x, 1) =~= seq![x]);
    let b = seq![x, y];
    let c = seq![y, x];
    assert(b =~= seq![x].push(y));
    assert(c =~= seq![y].push(x));
    assert(seq![x] =~= Seq::<int>::empty().push(x));
    assert(seq![y] =~= Seq::<int>::empty().push(y));
    assert(b.to_multiset() =~= c.to_multiset());
    crate::sorting::medians_stand_in_the_middle(b, b);
    crate::sorting::medians_stand_in_the_middle(c, b);
    lemma_one_value(y);
    assert(not_below(b, y, 0) =~= Seq::<int>::empty());
    assert(not_below(c, y, 0) =~= Seq::<int>::empty());
    if x < y {
        assert(not_below(b, y, 1) =~= Seq::<int>::empty());
        assert(not_below(b, y, 2) =~= seq![y]);
        assert(not_below(c, y, 1) =~= seq![y]);
        assert(not_below(c, y, 2) =~= seq![y]);
    } else {
        assert(not_below(b, y, 1) =~= seq![y]);
        assert(not_below(b, y, 2) =~= b);
        assert(not_below(c, y, 1) =~= seq![y]);
        assert(not_below(c, y, 2) =~= b);
    }
}

/// The columns that count for the usual width are those of four lines or more, in order, each
/// with the middle one of the widths of its lines; without any, all lines count.
pub proof fn columns_of_four_lines_count(flat: Seq<FlatWord>, gap: int, n: nat)
    ensures
        long_column_widths(flat, gap, 0).len() == 0,
        long_column_widths(flat, gap, n + 1) == if column_lines(flat, gap, n).len() >= 4 {
            long_column_widths(flat, gap, n).push(median(widths(flat, column_lines(flat, gap, n))))
        } else {
            long_column_widths(flat, gap, n)
        },
        long_column_widths(flat, gap, column_count(flat, gap)).len() == 0 ==> body_width(flat, gap) == median(
            widths(flat, lines_by_left(flat)),
        ),
        long_column_widths(flat, gap, column_count(flat, gap)).len() > 0 ==> body_width(flat, gap) == upper_median(
            long_column_widths(flat, gap, column_count(flat, gap)),
        ),
{
}

} // verus!
