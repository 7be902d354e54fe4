//! The text of a selection, as it is sent to be translated: runs of formula
//! words are replaced by numbered place holders.
use crate::copying::{
    find_counting, joined_lines, last_place, layer_flat, lemma_seen_parts, lemma_separator_unseen, lemma_unseen,
    lemma_word_seen, next_counting, pages_present, push_separator, seen, seen_of_words, separator, step_text, step_words,
    text_of_words, word_text, RenderedPage,
};
use crate::lines::{in_column, ColumnFilter};
use crate::page_text::{default_calibration, inked, is_inked, DocCalibration, FlatWord, Layer};
use crate::selection::{Selection, SelectionStep};
use crate::text::{
    blank, decimal, decimal_is_digits, is_space, push_decimal, trim, trimmed, trimmed_is_empty_iff_blank, views,
    without_leading_space, without_trailing_space,
};
use std::collections::HashMap;
use vstd::prelude::*;

verus! {

broadcast use vstd::std_specs::hash::group_hash_axioms;

/// The words that a step over a column goes through: those up to `hi` that
/// count for it.
pub open spec fn goes_through(flat: Seq<FlatWord>, gap: int, col: Option<i64>, j: int, hi: int) -> bool {
    j <= hi && in_column(flat, gap, col, j)
}

/// From word `k` on, only spaces come before a formula word.
pub open spec fn formula_follows(flat: Seq<FlatWord>, gap: int, col: Option<i64>, k: int, hi: int) -> bool
    decreases hi + 1 - k,
{
    if !goes_through(flat, gap, col, k, hi) {
        false
    } else if flat[k].formula {
        true
    } else if inked(flat[k]) {
        false
    } else {
        formula_follows(flat, gap, col, k + 1, hi)
    }
}

/// Word `j` belongs to the run of formula words before it: it is a formula word
/// or a space that leads to one.
pub open spec fn in_run(flat: Seq<FlatWord>, gap: int, col: Option<i64>, j: int, hi: int) -> bool {
    &&& goes_through(flat, gap, col, j, hi)
    &&& flat[j].formula || (!inked(flat[j]) && formula_follows(flat, gap, col, j + 1, hi))
}

/// The run of formula words from word `j` on, the word before it being on line
/// `line`: its text, with its lines on lines of their own; the word behind it;
/// and its last line.
pub open spec fn formula_run(
    flat: Seq<FlatWord>,
    gap: int,
    col: Option<i64>,
    j: int,
    hi: int,
    line: usize,
) -> (Seq<char>, int, usize)
    decreases hi + 1 - j,
{
    if !in_run(flat, gap, col, j, hi) {
        (Seq::empty(), j, line)
    } else {
        let own = if flat[j].line != line {
            seq!['\n'] + flat[j].text@
        } else {
            flat[j].text@
        };
        let rest = formula_run(flat, gap, col, j + 1, hi, flat[j].line);
        (own + rest.0, rest.1, rest.2)
    }
}

/// The place holder of formula number `n`.
pub open spec fn place_holder(n: nat) -> Seq<char> {
    "[公式"@ + decimal(n) + seq![']']
}

/// The text for translation of the words `i..=hi` that count for the column,
/// `n` formulas having come before; and the formulas in it.
pub open spec fn translated_words(
    flat: Seq<FlatWord>,
    gap: int,
    col: Option<i64>,
    i: int,
    hi: int,
    n: nat,
) -> (Seq<char>, Seq<Seq<char>>)
    decreases hi + 1 - i,
{
    if i > hi {
        (Seq::empty(), Seq::empty())
    } else if !in_column(flat, gap, col, i) {
        translated_words(flat, gap, col, i + 1, hi, n)
    } else if flat[i].formula {
        let run = formula_run(flat, gap, col, i, hi, flat[i].line);
        let raw = trimmed(run.0);
        let next = if raw.len() > 0 {
            run.1
        } else {
            i + 1
        };
        let own = if raw.len() > 0 {
            place_holder(n + 1)
        } else {
            flat[i].text@
        };
        let after = next_counting(flat, gap, col, next, hi);
        let step = if after <= hi {
            separator(flat, run.2, flat[after].line)
        } else {
            Seq::empty()
        };
        proof {
            lemma_run_goes_on(flat, gap, col, i, hi, flat[i].line);
        }
        let rest = translated_words(
            flat,
            gap,
            col,
            next,
            hi,
            if raw.len() > 0 {
                n + 1
            } else {
                n
            },
        );
        (
            own + step + rest.0,
            if raw.len() > 0 {
                seq![raw] + rest.1
            } else {
                rest.1
            },
        )
    } else {
        let rest = translated_words(flat, gap, col, i + 1, hi, n);
        (word_text(flat, i, next_counting(flat, gap, col, i + 1, hi), hi) + rest.0, rest.1)
    }
}

pub proof fn lemma_run_goes_on(flat: Seq<FlatWord>, gap: int, col: Option<i64>, j: int, hi: int, line: usize)
    requires
        j <= hi + 1,
    ensures
        j <= formula_run(flat, gap, col, j, hi, line).1 <= hi + 1,
        in_run(flat, gap, col, j, hi) ==> j < formula_run(flat, gap, col, j, hi, line).1,
    decreases hi + 1 - j,
{
    if in_run(flat, gap, col, j, hi) {
        lemma_run_goes_on(flat, gap, col, j + 1, hi, flat[j].line);
    }
}

proof fn lemma_skip(flat: Seq<FlatWord>, gap: int, col: Option<i64>, k: int, r: int, hi: int, n: nat)
    requires
        k <= r <= hi + 1,
        forall|j: int| k <= j < r ==> !in_column(flat, gap, col, j),
    ensures
        translated_words(flat, gap, col, k, hi, n) == translated_words(flat, gap, col, r, hi, n),
    decreases r - k,
{
    if k < r {
        lemma_skip(flat, gap, col, k + 1, r, hi, n);
    }
}

fn leads_to_formula(
    flat: &[FlatWord],
    filter: &ColumnFilter,
    col: Option<i64>,
    from: usize,
    hi: usize,
    Ghost(gap): Ghost<int>,
) -> (r: bool)
    requires
        filter.of(flat@, gap),
        hi < flat@.len(),
        from <= hi + 1,
    ensures
        r == formula_follows(flat@, gap, col, from as int, hi as int),
{
    let n = flat.len();
    let mut k = from;
    while k <= hi
        invariant
            k <= hi + 1 <= n,
            n == flat@.len(),
            filter.of(flat@, gap),
            formula_follows(flat@, gap, col, from as int, hi as int) == formula_follows(
                flat@,
                gap,
                col,
                k as int,
                hi as int,
            ),
        decreases hi + 1 - k,
    {
        if !filter.admits(flat, k, col, Ghost(gap)) {
            return false;
        }
        if flat[k].formula {
            return true;
        }
        if is_inked(&flat[k]) {
            return false;
        }
        k = k + 1;
    }
    false
}

pub(crate) fn gather_run(
    flat: &[FlatWord],
    filter: &ColumnFilter,
    col: Option<i64>,
    i: usize,
    hi: usize,
    Ghost(gap): Ghost<int>,
) -> (r: (String, usize, usize))
    requires
        filter.of(flat@, gap),
        i <= hi < flat@.len(),
    ensures
        r.0@ == formula_run(flat@, gap, col, i as int, hi as int, flat@[i as int].line).0,
        r.1 == formula_run(flat@, gap, col, i as int, hi as int, flat@[i as int].line).1,
        r.2 == formula_run(flat@, gap, col, i as int, hi as int, flat@[i as int].line).2,
        i <= r.1 <= hi + 1,
{
    let n = flat.len();
    let mut raw = String::new();
    let mut line = flat[i].line;
    let mut j = i;
    let ghost all = formula_run(flat@, gap, col, i as int, hi as int, line);
    assert(raw@ + all.0 =~= all.0);
    while j <= hi
        invariant
            i <= j <= hi + 1 <= n,
            n == flat@.len(),
            filter.of(flat@, gap),
            all.0 == raw@ + formula_run(flat@, gap, col, j as int, hi as int, line).0,
            all.1 == formula_run(flat@, gap, col, j as int, hi as int, line).1,
            all.2 == formula_run(flat@, gap, col, j as int, hi as int, line).2,
        ensures
            i <= j <= hi + 1,
            all.0 == raw@,
            all.1 == j,
            all.2 == line,
        decreases hi + 1 - j,
    {
        let belongs = filter.admits(flat, j, col, Ghost(gap)) && (flat[j].formula || (!is_inked(&flat[j])
            && leads_to_formula(flat, filter, col, j + 1, hi, Ghost(gap))));
        if !belongs {
            assert(raw@ + Seq::<char>::empty() =~= raw@);
            break;
        }
        let ghost before = raw@;
        let ghost rest = formula_run(flat@, gap, col, j + 1, hi as int, flat@[j as int].line);
        if flat[j].line != line {
            raw.push('\n');
        }
        raw.append(flat[j].text.as_str());
        proof {
            let own = if flat@[j as int].line != line {
                seq!['\n'] + flat@[j as int].text@
            } else {
                flat@[j as int].text@
            };
            assert(raw@ =~= before + own);
            assert(raw@ + rest.0 =~= before + (own + rest.0));
        }
        line = flat[j].line;
        j = j + 1;
        proof {
            if j > hi {
                assert(raw@ + Seq::<char>::empty() =~= raw@);
            }
        }
    }
    (raw, j, line)
}

/// The text for translation of the words `lo..=hi`, its formulas appended to
/// `formulas` and replaced by their numbers.
pub fn translation_step_text_with(
    flat: &[FlatWord],
    lo: usize,
    hi: usize,
    col: Option<i64>,
    formulas: &mut Vec<String>,
    column_gap_cqw: i64,
) -> (r: String)
    ensures
        r@ == translated_words(
            flat@,
            column_gap_cqw as int,
            col,
            lo as int,
            last_place(flat@, hi as int),
            old(formulas)@.len(),
        ).0,
        views(final(formulas)@) == views(old(formulas)@) + translated_words(
            flat@,
            column_gap_cqw as int,
            col,
            lo as int,
            last_place(flat@, hi as int),
            old(formulas)@.len(),
        ).1,
{
    let n = flat.len();
    let mut out = String::new();
    if n == 0 || lo > hi {
        assert(views(formulas@) + Seq::<Seq<char>>::empty() =~= views(formulas@));
        return out;
    }
    let ghost gap = column_gap_cqw as int;
    let hi = if hi < n {
        hi
    } else {
        n - 1
    };
    let filter = ColumnFilter::new(flat, column_gap_cqw);
    let ghost n0 = formulas@.len();
    let ghost all = translated_words(flat@, gap, col, lo as int, hi as int, n0);
    let mut i = lo;
    assert(out@ + all.0 =~= all.0);
    while i <= hi
        invariant
            i <= hi ==> i < n,
            hi < n == flat@.len(),
            filter.of(flat@, gap),
            all.0 == out@ + translated_words(flat@, gap, col, i as int, hi as int, formulas@.len()).0,
            views(old(formulas)@) + all.1 == views(formulas@) + translated_words(
                flat@,
                gap,
                col,
                i as int,
                hi as int,
                formulas@.len(),
            ).1,
        decreases hi + 1 - i,
    {
        if !filter.admits(flat, i, col, Ghost(gap)) {
            i = i + 1;
            continue;
        }
        let ghost before = out@;
        let ghost f0 = formulas@;
        if flat[i].formula {
            let (raw, end, line) = gather_run(flat, &filter, col, i, hi, Ghost(gap));
            let text = trim(&raw);
            let mut next = i + 1;
            proof {
                lemma_run_goes_on(flat@, gap, col, i as int, hi as int, flat@[i as int].line);
                assert(in_run(flat@, gap, col, i as int, hi as int));
            }
            let ghost raw_text = text@;
            let ghost own: Seq<char>;
            if !text.as_str().is_empty() {
                formulas.push(text);
                next = end;
                out.append("[公式");
                push_decimal(&mut out, formulas.len() as u64);
                out.push(']');
                proof {
                    own = place_holder((f0.len() + 1) as nat);
                    assert(out@ =~= before + own);
                    assert(views(formulas@) =~= views(f0).push(raw_text));
                }
            } else {
                out.append(flat[i].text.as_str());
                proof {
                    own = flat@[i as int].text@;
                }
            }
            let ghost middle = out@;
            let after = find_counting(flat, &filter, col, next, hi, Ghost(gap));
            if after <= hi {
                push_separator(&mut out, flat, line, flat[after].line);
            }
            proof {
                let step = if after <= hi {
                    separator(flat@, line, flat@[after as int].line)
                } else {
                    Seq::empty()
                };
                assert(out@ =~= before + own + step);
                let rest = translated_words(flat@, gap, col, next as int, hi as int, formulas@.len());
                assert(out@ + rest.0 =~= before + (own + step + rest.0));
                if raw_text.len() > 0 {
                    assert(views(formulas@) + rest.1 =~= views(f0) + (seq![raw_text] + rest.1));
                }
            }
            i = next;
            continue;
        }
        let next = find_counting(flat, &filter, col, i + 1, hi, Ghost(gap));
        let line_end = next > hi || flat[next].line != flat[i].line;
        if is_inked(&flat[i]) || !line_end {
            out.append(flat[i].text.as_str());
        }
        if next <= hi {
            push_separator(&mut out, flat, flat[i].line, flat[next].line);
        }
        proof {
            let own = word_text(flat@, i as int, next as int, hi as int);
            assert(out@ =~= before + own);
            lemma_skip(flat@, gap, col, i + 1, next as int, hi as int, formulas@.len());
            let rest = translated_words(flat@, gap, col, next as int, hi as int, formulas@.len());
            assert(out@ + rest.0 =~= before + (own + rest.0));
        }
        i = next;
    }
    assert(out@ + Seq::<char>::empty() =~= out@);
    assert(views(formulas@) + Seq::<Seq<char>>::empty() =~= views(formulas@));
    out
}

/// As `translation_step_text_with`, with the usual column gap.
pub fn translation_step_text(
    flat: &[FlatWord],
    lo: usize,
    hi: usize,
    col: Option<i64>,
    formulas: &mut Vec<String>,
) -> (r: String)
    ensures
        r@ == translated_words(
            flat@,
            default_calibration().column_gap_cqw as int,
            col,
            lo as int,
            last_place(flat@, hi as int),
            old(formulas)@.len(),
        ).0,
        views(final(formulas)@) == views(old(formulas)@) + translated_words(
            flat@,
            default_calibration().column_gap_cqw as int,
            col,
            lo as int,
            last_place(flat@, hi as int),
            old(formulas)@.len(),
        ).1,
{
    translation_step_text_with(flat, lo, hi, col, formulas, DocCalibration::default().column_gap_cqw)
}

/// The texts of the first `n` steps and the formulas in them.
pub open spec fn translated_steps(
    pages: Map<u32, RenderedPage>,
    layer: Layer,
    steps: Seq<SelectionStep>,
    gap: int,
    n: nat,
) -> (Seq<Seq<char>>, Seq<Seq<char>>)
    decreases n,
{
    if n == 0 {
        (Seq::empty(), Seq::empty())
    } else {
        let before = translated_steps(pages, layer, steps, gap, (n - 1) as nat);
        let s = steps[n - 1];
        let flat = step_words(pages, layer, s);
        let own = translated_words(
            flat,
            gap,
            s.column_left,
            s.lo as int,
            last_place(flat, s.hi as int),
            before.1.len(),
        );
        (before.0.push(own.0), before.1 + own.1)
    }
}

/// The text of a selection for translation, one step to a line, and its
/// formulas; none where a page is missing.
pub fn selection_translation_input_with(
    sel: &Selection,
    pages: &HashMap<u32, RenderedPage>,
    column_gap_cqw: i64,
) -> (r: Option<(String, Vec<String>)>)
    ensures
        r is Some <==> pages_present(pages@, sel.steps@, sel.steps@.len() as int),
        r is Some ==> (r->0).0@ == joined_lines(
            translated_steps(pages@, sel.layer, sel.steps@, column_gap_cqw as int, sel.steps@.len()).0,
        ),
        r is Some ==> views((r->0).1@) == translated_steps(
            pages@,
            sel.layer,
            sel.steps@,
            column_gap_cqw as int,
            sel.steps@.len(),
        ).1,
{
    let ghost gap = column_gap_cqw as int;
    let mut formulas: Vec<String> = Vec::new();
    let mut out = String::new();
    let mut i: usize = 0;
    assert(views(formulas@) =~= Seq::<Seq<char>>::empty());
    while i < sel.steps.len()
        invariant
            i <= sel.steps@.len(),
            gap == column_gap_cqw,
            pages_present(pages@, sel.steps@, i as int),
            out@ == joined_lines(translated_steps(pages@, sel.layer, sel.steps@, gap, i as nat).0),
            translated_steps(pages@, sel.layer, sel.steps@, gap, i as nat).0.len() == i,
            views(formulas@) == translated_steps(pages@, sel.layer, sel.steps@, gap, i as nat).1,
        decreases sel.steps@.len() - i,
    {
        let step = sel.steps[i];
        let page = match pages.get(&step.page) {
            Some(p) => p,
            None => {
                assert(!pages@.contains_key(sel.steps@[i as int].page));
                return None;
            },
        };
        assert(views(formulas@).len() == formulas@.len());
        let part = translation_step_text_with(
            layer_flat(page, sel.layer),
            step.lo,
            step.hi,
            step.column_left,
            &mut formulas,
            column_gap_cqw,
        );
        let ghost before = out@;
        if i > 0 {
            out.push('\n');
        }
        out.append(part.as_str());
        proof {
            let t = translated_steps(pages@, sel.layer, sel.steps@, gap, (i + 1) as nat).0;
            let t0 = translated_steps(pages@, sel.layer, sel.steps@, gap, i as nat).0;
            assert(t == t0.push(part@));
            assert(t.drop_last() =~= t0);
            if i == 0 {
                assert(t0 =~= Seq::<Seq<char>>::empty());
                assert(out@ =~= part@);
            } else {
                assert(out@ =~= before + seq!['\n'] + part@);
            }
        }
        i = i + 1;
    }
    Some((out, formulas))
}

/// As `selection_translation_input_with`, with the usual column gap.
pub fn selection_translation_input(sel: &Selection, pages: &HashMap<u32, RenderedPage>) -> (r: Option<
    (String, Vec<String>),
>)
    ensures
        r is Some <==> pages_present(pages@, sel.steps@, sel.steps@.len() as int),
        r is Some ==> (r->0).0@ == joined_lines(
            translated_steps(
                pages@,
                sel.layer,
                sel.steps@,
                default_calibration().column_gap_cqw as int,
                sel.steps@.len(),
            ).0,
        ),
        r is Some ==> views((r->0).1@) == translated_steps(
            pages@,
            sel.layer,
            sel.steps@,
            default_calibration().column_gap_cqw as int,
            sel.steps@.len(),
        ).1,
{
    selection_translation_input_with(sel, pages, DocCalibration::default().column_gap_cqw)
}

/// Some word that counts for the step, on a page that is there, is plain text.
pub open spec fn step_has_plain_text(pages: Map<u32, RenderedPage>, layer: Layer, gap: int, s: SelectionStep) -> bool {
    let flat = step_words(pages, layer, s);
    pages.contains_key(s.page) && exists|i: int|
        s.lo <= i <= last_place(flat, s.hi as int) && in_column(flat, gap, s.column_left, i) && inked(
            #[trigger] flat[i],
        ) && !flat[i].formula
}

/// The selection holds plain text, and not formulas alone.
pub open spec fn holds_plain_text(pages: Map<u32, RenderedPage>, gap: int, sel: Selection) -> bool {
    exists|k: int| 0 <= k < sel.steps@.len() && step_has_plain_text(pages, sel.layer, gap, #[trigger] sel.steps@[k])
}

/// As `selection_has_plain_text_with`, with the usual column gap.
pub fn selection_has_plain_text(sel: &Selection, pages: &HashMap<u32, RenderedPage>) -> (r: bool)
    ensures
        r == holds_plain_text(pages@, default_calibration().column_gap_cqw as int, *sel),
{
    selection_has_plain_text_with(sel, pages, DocCalibration::default().column_gap_cqw)
}

/// Whether a selection holds plain text, and not formulas alone.
pub fn selection_has_plain_text_with(sel: &Selection, pages: &HashMap<u32, RenderedPage>, column_gap_cqw: i64) -> (r: bool)
    ensures
        r == holds_plain_text(pages@, column_gap_cqw as int, *sel),
{
    let ghost gap = column_gap_cqw as int;
    let mut k: usize = 0;
    while k < sel.steps.len()
        invariant
            k <= sel.steps@.len(),
            gap == column_gap_cqw,
            forall|j: int| 0 <= j < k ==> !step_has_plain_text(pages@, sel.layer, gap, #[trigger] sel.steps@[j]),
        decreases sel.steps@.len() - k,
    {
        let step = sel.steps[k];
        match pages.get(&step.page) {
            Some(p) => {
                let flat = layer_flat(p, sel.layer);
                let ghost words = step_words(pages@, sel.layer, step);
                let n = flat.len();
                let filter = ColumnFilter::new(flat, column_gap_cqw);
                let mut i = step.lo;
                while i < n && i <= step.hi
                    invariant
                        n == flat@.len(),
                        gap == column_gap_cqw,
                        filter.of(flat@, gap),
                        words == flat@,
                        words == step_words(pages@, sel.layer, step),
                        pages@.contains_key(step.page),
                        k < sel.steps@.len(),
                        step == sel.steps@[k as int],
                        step.lo <= i,
                        forall|j: int|
                            step.lo <= j < i && j < n ==> !(inked(#[trigger] words[j]) && !words[j].formula && in_column(
                                words,
                                gap,
                                step.column_left,
                                j,
                            )),
                    decreases n - i,
                {
                    if !flat[i].formula && is_inked(&flat[i]) && filter.admits(flat, i, step.column_left, Ghost(gap)) {
                        assert(inked(words[i as int]) && !words[i as int].formula);
                        assert(step_has_plain_text(pages@, sel.layer, gap, sel.steps@[k as int]));
                        return true;
                    }
                    i = i + 1;
                }
                assert(!step_has_plain_text(pages@, sel.layer, gap, sel.steps@[k as int]));
            },
            None => {},
        }
        k = k + 1;
    }
    false
}

/// The formulas among the words `i..=hi` that count for the column: the place of
/// the first word of each, and the place behind its last one.
pub open spec fn formula_spans(flat: Seq<FlatWord>, gap: int, col: Option<i64>, i: int, hi: int) -> Seq<(int, int)>
    decreases hi + 1 - i,
{
    if i > hi {
        Seq::empty()
    } else if in_column(flat, gap, col, i) && flat[i].formula {
        let run = formula_run(flat, gap, col, i, hi, flat[i].line);
        proof {
            lemma_run_goes_on(flat, gap, col, i, hi, flat[i].line);
        }
        if trimmed(run.0).len() > 0 {
            seq![(i, run.1)] + formula_spans(flat, gap, col, run.1, hi)
        } else {
            formula_spans(flat, gap, col, i + 1, hi)
        }
    } else {
        formula_spans(flat, gap, col, i + 1, hi)
    }
}

/// The formula that begins at word `i`.
pub open spec fn formula_at(flat: Seq<FlatWord>, gap: int, col: Option<i64>, i: int, hi: int) -> Seq<char> {
    trimmed(formula_run(flat, gap, col, i, hi, flat[i].line).0)
}

/// The formulas in the text for translation are those of the spans.
pub proof fn formulas_are_those_of_the_spans(flat: Seq<FlatWord>, gap: int, col: Option<i64>, i: int, hi: int, n: nat)
    ensures
        translated_words(flat, gap, col, i, hi, n).1 == formula_spans(flat, gap, col, i, hi).map_values(
            |s: (int, int)| formula_at(flat, gap, col, s.0, hi),
        ),
    decreases hi + 1 - i,
{
    let f = |s: (int, int)| formula_at(flat, gap, col, s.0, hi);
    let all = translated_words(flat, gap, col, i, hi, n).1;
    let spans = formula_spans(flat, gap, col, i, hi);
    if i > hi {
        assert(all =~= spans.map_values(f));
    } else if in_column(flat, gap, col, i) && flat[i].formula {
        let run = formula_run(flat, gap, col, i, hi, flat[i].line);
        lemma_run_goes_on(flat, gap, col, i, hi, flat[i].line);
        if trimmed(run.0).len() > 0 {
            formulas_are_those_of_the_spans(flat, gap, col, run.1, hi, n + 1);
            assert(all =~= spans.map_values(f));
        } else {
            formulas_are_those_of_the_spans(flat, gap, col, i + 1, hi, n);
        }
    } else {
        formulas_are_those_of_the_spans(flat, gap, col, i + 1, hi, n);
    }
}

proof fn lemma_blank_run(flat: Seq<FlatWord>, gap: int, col: Option<i64>, j: int, hi: int, line: usize)
    requires
        forall|k: int| j <= k < formula_run(flat, gap, col, j, hi, line).1 ==> !inked(#[trigger] flat[k]),
    ensures
        blank(formula_run(flat, gap, col, j, hi, line).0),
    decreases hi + 1 - j,
{
    if in_run(flat, gap, col, j, hi) {
        lemma_run_goes_on(flat, gap, col, j + 1, hi, flat[j].line);
        lemma_blank_run(flat, gap, col, j + 1, hi, flat[j].line);
        assert(!inked(flat[j]));
    }
}

/// A formula has a word that shows something.
pub proof fn a_formula_shows_something(flat: Seq<FlatWord>, gap: int, col: Option<i64>, i: int, hi: int)
    requires
        formula_at(flat, gap, col, i, hi).len() > 0,
    ensures
        exists|k: int|
            i <= k < formula_run(flat, gap, col, i, hi, flat[i].line).1 && inked(#[trigger] flat[k]),
{
    let run = formula_run(flat, gap, col, i, hi, flat[i].line);
    trimmed_is_empty_iff_blank(run.0);
    if !exists|k: int| i <= k < run.1 && inked(#[trigger] flat[k]) {
        lemma_blank_run(flat, gap, col, i, hi, flat[i].line);
    }
}

proof fn lemma_plain_words(flat: Seq<FlatWord>, gap: int, col: Option<i64>, i: int, hi: int, n: nat)
    requires
        forall|k: int| i <= k <= hi ==> !(#[trigger] flat[k]).formula,
    ensures
        translated_words(flat, gap, col, i, hi, n).0 == text_of_words(flat, gap, col, i, hi),
        translated_words(flat, gap, col, i, hi, n).1 == Seq::<Seq<char>>::empty(),
    decreases hi + 1 - i,
{
    if i <= hi {
        lemma_plain_words(flat, gap, col, i + 1, hi, n);
        assert(!flat[i].formula);
    }
}

/// Words without formulas are sent to translation just as they are copied.
pub proof fn plain_text_is_sent_as_it_is_copied(flat: Seq<FlatWord>, gap: int, lo: int, hi: int, col: Option<i64>, n: nat)
    requires
        forall|k: int| lo <= k <= last_place(flat, hi) ==> !(#[trigger] flat[k]).formula,
    ensures
        translated_words(flat, gap, col, lo, last_place(flat, hi), n).0 == step_text(flat, gap, lo, hi, col),
        translated_words(flat, gap, col, lo, last_place(flat, hi), n).1.len() == 0,
{
    lemma_plain_words(flat, gap, col, lo, last_place(flat, hi), n);
}

proof fn lemma_formulas_not_empty(flat: Seq<FlatWord>, gap: int, col: Option<i64>, i: int, hi: int, n: nat)
    ensures
        forall|k: int|
            0 <= k < translated_words(flat, gap, col, i, hi, n).1.len() ==> (#[trigger] translated_words(
                flat,
                gap,
                col,
                i,
                hi,
                n,
            ).1[k]).len() > 0,
    decreases hi + 1 - i,
{
    let all = translated_words(flat, gap, col, i, hi, n).1;
    if i > hi {
        assert(all.len() == 0);
    } else if !in_column(flat, gap, col, i) {
        lemma_formulas_not_empty(flat, gap, col, i + 1, hi, n);
        assert(all == translated_words(flat, gap, col, i + 1, hi, n).1);
    } else if flat[i].formula {
        lemma_run_goes_on(flat, gap, col, i, hi, flat[i].line);
        let run = formula_run(flat, gap, col, i, hi, flat[i].line);
        if trimmed(run.0).len() > 0 {
            lemma_formulas_not_empty(flat, gap, col, run.1, hi, n + 1);
            let rest = translated_words(flat, gap, col, run.1, hi, n + 1).1;
            assert(all == seq![trimmed(run.0)] + rest);
            assert forall|k: int| 0 <= k < all.len() implies (#[trigger] all[k]).len() > 0 by {
                if k > 0 {
                    assert(all[k] == rest[k - 1]);
                }
            }
        } else {
            lemma_formulas_not_empty(flat, gap, col, i + 1, hi, n);
            assert(all == translated_words(flat, gap, col, i + 1, hi, n).1);
        }
    } else {
        lemma_formulas_not_empty(flat, gap, col, i + 1, hi, n);
        assert(all == translated_words(flat, gap, col, i + 1, hi, n).1);
    }
}

/// No place holder stands for an empty formula.
pub proof fn no_formula_is_empty(flat: Seq<FlatWord>, gap: int, col: Option<i64>, lo: int, hi: int, n: nat, k: int)
    requires
        0 <= k < translated_words(flat, gap, col, lo, hi, n).1.len(),
    ensures
        translated_words(flat, gap, col, lo, hi, n).1[k].len() > 0,
{
    lemma_formulas_not_empty(flat, gap, col, lo, hi, n);
}

// ── what is sent ──

/// Word `k` may stand inside of a formula: it counts for the column, and is a formula or
/// shows nothing.
pub open spec fn may_be_inside(flat: Seq<FlatWord>, gap: int, col: Option<i64>, k: int) -> bool {
    in_column(flat, gap, col, k) && (flat[k].formula || !inked(flat[k]))
}

/// The span lies among the words `lo..=hi`, starts with a formula, and holds only what may
/// stand inside of one.
pub open spec fn sound_span(flat: Seq<FlatWord>, gap: int, col: Option<i64>, lo: int, hi: int, s: (int, int)) -> bool {
    &&& lo <= s.0 < s.1 <= hi + 1
    &&& flat[s.0].formula
    &&& forall|k: int| s.0 <= k < s.1 ==> #[trigger] may_be_inside(flat, gap, col, k)
}

/// Something parts the two spans: a word between them that cannot stand inside of a
/// formula.
pub open spec fn parted(flat: Seq<FlatWord>, gap: int, col: Option<i64>, a: (int, int), b: (int, int)) -> bool {
    exists|k: int| a.1 <= k < b.0 && !#[trigger] may_be_inside(flat, gap, col, k)
}

/// Word `k` is in one of the spans.
pub open spec fn in_span(spans: Seq<(int, int)>, k: int) -> bool {
    exists|m: int| 0 <= m < spans.len() && (#[trigger] spans[m]).0 <= k < spans[m].1
}

proof fn lemma_formula_follows(flat: Seq<FlatWord>, gap: int, col: Option<i64>, k: int, hi: int, e: int)
    requires
        k <= e <= hi,
        flat[e].formula,
        forall|j: int| k <= j <= e ==> #[trigger] may_be_inside(flat, gap, col, j),
    ensures
        formula_follows(flat, gap, col, k, hi),
    decreases e - k,
{
    assert(may_be_inside(flat, gap, col, k));
    if !flat[k].formula {
        lemma_formula_follows(flat, gap, col, k + 1, hi, e);
    }
}

proof fn lemma_run_shape(flat: Seq<FlatWord>, gap: int, col: Option<i64>, j: int, hi: int, line: usize)
    ensures
        ({
            let e = formula_run(flat, gap, col, j, hi, line).1;
            &&& j <= e
            &&& j <= hi + 1 ==> e <= hi + 1
            &&& forall|k: int| j <= k < e ==> #[trigger] may_be_inside(flat, gap, col, k)
            &&& !in_run(flat, gap, col, e, hi)
        }),
    decreases hi + 1 - j,
{
    if in_run(flat, gap, col, j, hi) {
        lemma_run_shape(flat, gap, col, j + 1, hi, flat[j].line);
        assert(may_be_inside(flat, gap, col, j));
    }
}

proof fn lemma_run_text(flat: Seq<FlatWord>, gap: int, col: Option<i64>, j: int, hi: int, line: usize)
    ensures
        ({
            let r = formula_run(flat, gap, col, j, hi, line);
            seen(r.0) == seen_of_words(flat, gap, col, j, r.1 - 1)
        }),
    decreases hi + 1 - j,
{
    let r = formula_run(flat, gap, col, j, hi, line);
    lemma_unseen(Seq::empty());
    if in_run(flat, gap, col, j, hi) {
        lemma_run_text(flat, gap, col, j + 1, hi, flat[j].line);
        lemma_run_shape(flat, gap, col, j + 1, hi, flat[j].line);
        let rest = formula_run(flat, gap, col, j + 1, hi, flat[j].line);
        let own = if flat[j].line != line {
            seq!['\n'] + flat[j].text@
        } else {
            flat[j].text@
        };
        lemma_seen_parts(own, rest.0);
        if flat[j].line != line {
            lemma_unseen(seq!['\n']);
            lemma_seen_parts(seq!['\n'], flat[j].text@);
            assert(Seq::<char>::empty() + seen(flat[j].text@) =~= seen(flat[j].text@));
        }
    }
}

pub(crate) proof fn lemma_trimmed_seen(s: Seq<char>)
    ensures
        seen(trimmed(s)) == seen(s),
{
    lemma_leading_seen(s);
    lemma_trailing_seen(without_leading_space(s));
}

proof fn lemma_leading_seen(s: Seq<char>)
    ensures
        seen(without_leading_space(s)) == seen(s),
    decreases s.len(),
{
    if s.len() > 0 && is_space(s[0]) {
        lemma_leading_seen(s.drop_first());
        let f = seq![s[0]];
        assert(s =~= f + s.drop_first());
        lemma_seen_parts(f, s.drop_first());
        lemma_unseen(f);
        assert(Seq::<char>::empty() + seen(s.drop_first()) =~= seen(s.drop_first()));
    }
}

proof fn lemma_trailing_seen(s: Seq<char>)
    ensures
        seen(without_trailing_space(s)) == seen(s),
    decreases s.len(),
{
    if s.len() > 0 && is_space(s.last()) {
        lemma_trailing_seen(s.drop_last());
        let l = seq![s.last()];
        assert(s =~= s.drop_last() + l);
        lemma_seen_parts(s.drop_last(), l);
        lemma_unseen(l);
        assert(seen(s.drop_last()) + Seq::<char>::empty() =~= seen(s.drop_last()));
    }
}

/// The `m`th span is sound, stands behind the one before it and is parted from it, and what
/// can be seen of its formula is what can be seen of its words.
pub open spec fn span_stands(
    flat: Seq<FlatWord>,
    gap: int,
    col: Option<i64>,
    lo: int,
    hi: int,
    spans: Seq<(int, int)>,
    m: int,
) -> bool {
    &&& sound_span(flat, gap, col, lo, hi, spans[m])
    &&& m > 0 ==> spans[m - 1].1 <= spans[m].0 && parted(flat, gap, col, spans[m - 1], spans[m])
    &&& seen(formula_at(flat, gap, col, spans[m].0, hi)) == seen_of_words(flat, gap, col, spans[m].0, spans[m].1 - 1)
}

/// Word `k` is a formula that shows something and counts for the column.
pub open spec fn formula_shown(flat: Seq<FlatWord>, gap: int, col: Option<i64>, k: int) -> bool {
    in_column(flat, gap, col, k) && flat[k].formula && inked(flat[k])
}

/// The formulas of a step are its longest stretches of formula words, spaces between them
/// included: the spans come one after the other, each holds only what may stand inside of
/// a formula, something parts any two neighbours, every formula word that shows something
/// and counts for the column is in one of them, and what can be seen of a formula is what
/// can be seen of the words of its span.
pub proof fn formulas_are_the_longest_stretches(flat: Seq<FlatWord>, gap: int, col: Option<i64>, lo: int, hi: int)
    ensures
        forall|m: int|
            0 <= m < formula_spans(flat, gap, col, lo, hi).len() ==> #[trigger] span_stands(
                flat,
                gap,
                col,
                lo,
                hi,
                formula_spans(flat, gap, col, lo, hi),
                m,
            ),
        forall|k: int|
            lo <= k <= hi && #[trigger] formula_shown(flat, gap, col, k) ==> in_span(formula_spans(flat, gap, col, lo, hi), k),
    decreases hi + 1 - lo,
{
    let spans = formula_spans(flat, gap, col, lo, hi);
    if lo <= hi {
        if in_column(flat, gap, col, lo) && flat[lo].formula {
            let run = formula_run(flat, gap, col, lo, hi, flat[lo].line);
            lemma_run_goes_on(flat, gap, col, lo, hi, flat[lo].line);
            lemma_run_shape(flat, gap, col, lo, hi, flat[lo].line);
            lemma_run_text(flat, gap, col, lo, hi, flat[lo].line);
            lemma_trimmed_seen(run.0);
            if trimmed(run.0).len() > 0 {
                formulas_are_the_longest_stretches(flat, gap, col, run.1, hi);
                let rest = formula_spans(flat, gap, col, run.1, hi);
                let first = (lo, run.1);
                assert(spans == seq![first] + rest);
                assert(spans[0] == first);
                assert(sound_span(flat, gap, col, lo, hi, first));
                assert forall|m: int| 0 <= m < spans.len() implies #[trigger] span_stands(flat, gap, col, lo, hi, spans, m) by {
                    if m > 0 {
                        assert(spans[m] == rest[m - 1]);
                        assert(span_stands(flat, gap, col, run.1, hi, rest, m - 1));
                        if m > 1 {
                            assert(spans[m - 1] == rest[m - 2]);
                        } else {
                            let e = rest[0].0;
                            if forall|k: int| run.1 <= k < e ==> #[trigger] may_be_inside(flat, gap, col, k) {
                                assert(may_be_inside(flat, gap, col, e));
                                lemma_runs_into(flat, gap, col, run.1, hi, e);
                            }
                        }
                    }
                }
                assert forall|k: int| lo <= k <= hi && #[trigger] formula_shown(flat, gap, col, k) implies in_span(spans, k) by {
                    if k < run.1 {
                        assert(spans[0].0 <= k < spans[0].1);
                    } else {
                        let m = choose|m: int| 0 <= m < rest.len() && (#[trigger] rest[m]).0 <= k < rest[m].1;
                        assert(spans[m + 1] == rest[m]);
                    }
                }
            } else {
                formulas_are_the_longest_stretches(flat, gap, col, lo + 1, hi);
                trimmed_is_empty_iff_blank(run.0);
                if inked(flat[lo]) {
                    lemma_first_shows(flat, gap, col, lo, hi);
                }
                lemma_spans_from_next(flat, gap, col, lo, hi);
            }
        } else {
            formulas_are_the_longest_stretches(flat, gap, col, lo + 1, hi);
            lemma_spans_from_next(flat, gap, col, lo, hi);
        }
    }
}

proof fn lemma_spans_from_next(flat: Seq<FlatWord>, gap: int, col: Option<i64>, lo: int, hi: int)
    requires
        formula_spans(flat, gap, col, lo, hi) == formula_spans(flat, gap, col, lo + 1, hi),
        !formula_shown(flat, gap, col, lo),
        forall|m: int|
            0 <= m < formula_spans(flat, gap, col, lo + 1, hi).len() ==> #[trigger] span_stands(
                flat,
                gap,
                col,
                lo + 1,
                hi,
                formula_spans(flat, gap, col, lo + 1, hi),
                m,
            ),
        forall|k: int|
            lo + 1 <= k <= hi && #[trigger] formula_shown(flat, gap, col, k) ==> in_span(
                formula_spans(flat, gap, col, lo + 1, hi),
                k,
            ),
    ensures
        forall|m: int|
            0 <= m < formula_spans(flat, gap, col, lo, hi).len() ==> #[trigger] span_stands(
                flat,
                gap,
                col,
                lo,
                hi,
                formula_spans(flat, gap, col, lo, hi),
                m,
            ),
        forall|k: int|
            lo <= k <= hi && #[trigger] formula_shown(flat, gap, col, k) ==> in_span(formula_spans(flat, gap, col, lo, hi), k),
{
    let spans = formula_spans(flat, gap, col, lo, hi);
    assert forall|m: int| 0 <= m < spans.len() implies #[trigger] span_stands(flat, gap, col, lo, hi, spans, m) by {
        assert(span_stands(flat, gap, col, lo + 1, hi, spans, m));
    }
}

proof fn lemma_first_shows(flat: Seq<FlatWord>, gap: int, col: Option<i64>, lo: int, hi: int)
    requires
        lo <= hi,
        in_column(flat, gap, col, lo),
        flat[lo].formula,
        inked(flat[lo]),
    ensures
        !blank(formula_run(flat, gap, col, lo, hi, flat[lo].line).0),
{
    let run = formula_run(flat, gap, col, lo, hi, flat[lo].line).0;
    let rest = formula_run(flat, gap, col, lo + 1, hi, flat[lo].line).0;
    assert(run == flat[lo].text@ + rest);
    if blank(run) {
        assert forall|i: int| 0 <= i < flat[lo].text@.len() implies is_space(#[trigger] flat[lo].text@[i]) by {
            assert(run[i] == flat[lo].text@[i]);
        }
    }
}

/// A word behind which only what may stand inside of a formula parts it from a formula is
/// in a run.
proof fn lemma_runs_into(flat: Seq<FlatWord>, gap: int, col: Option<i64>, j: int, hi: int, e: int)
    requires
        j <= e <= hi,
        flat[e].formula,
        forall|k: int| j <= k <= e ==> #[trigger] may_be_inside(flat, gap, col, k),
    ensures
        in_run(flat, gap, col, j, hi),
{
    assert(may_be_inside(flat, gap, col, j));
    if !flat[j].formula {
        lemma_formula_follows(flat, gap, col, j + 1, hi, e);
    }
}

/// What can be seen of the words `k..=hi` that count for the column, with the spans from the
/// `m`th on replaced by `[公式N]`, numbered on from `n`.
pub open spec fn seen_with_marks(
    flat: Seq<FlatWord>,
    gap: int,
    col: Option<i64>,
    spans: Seq<(int, int)>,
    k: int,
    hi: int,
    m: int,
    n: nat,
) -> Seq<char>
    decreases hi + 1 - k,
{
    if k > hi {
        Seq::empty()
    } else if 0 <= m < spans.len() && k == spans[m].0 && k < spans[m].1 <= hi + 1 {
        seq!['[', '公', '式'] + decimal(n + 1) + seq![']'] + seen_with_marks(flat, gap, col, spans, spans[m].1, hi, m + 1, n + 1)
    } else if in_column(flat, gap, col, k) {
        seen(flat[k].text@) + seen_with_marks(flat, gap, col, spans, k + 1, hi, m, n)
    } else {
        seen_with_marks(flat, gap, col, spans, k + 1, hi, m, n)
    }
}

proof fn lemma_mark_seen(n: nat)
    ensures
        seen(place_holder(n)) == seq!['[', '公', '式'] + decimal(n) + seq![']'],
{
    reveal_strlit("[公式");
    let s = place_holder(n);
    assert("[公式"@ =~= seq!['[', '公', '式']);
    decimal_is_digits(n);
    assert forall|i: int| 0 <= i < s.len() implies !is_space(#[trigger] s[i]) by {
        if 3 <= i < s.len() - 1 {
            assert(s[i] == decimal(n)[i - 3]);
        }
    }
    lemma_all_seen(s);
}

proof fn lemma_all_seen(s: Seq<char>)
    requires
        forall|i: int| 0 <= i < s.len() ==> !is_space(#[trigger] s[i]),
    ensures
        seen(s) == s,
    decreases s.len(),
{
    reveal(Seq::filter);
    if s.len() > 0 {
        assert forall|i: int| 0 <= i < s.drop_last().len() implies !is_space(#[trigger] s.drop_last()[i]) by {
            assert(s.drop_last()[i] == s[i]);
        }
        lemma_all_seen(s.drop_last());
        assert(!is_space(s[s.len() - 1]));
        assert(s.drop_last().push(s.last()) =~= s);
    } else {
        assert(seen(s) =~= s);
    }
}

proof fn lemma_marks_shift(
    flat: Seq<FlatWord>,
    gap: int,
    col: Option<i64>,
    first: (int, int),
    rest: Seq<(int, int)>,
    k: int,
    hi: int,
    m: int,
    n: nat,
)
    requires
        0 <= m,
    ensures
        seen_with_marks(flat, gap, col, seq![first] + rest, k, hi, m + 1, n) == seen_with_marks(flat, gap, col, rest, k, hi, m, n),
    decreases hi + 1 - k,
{
    let spans = seq![first] + rest;
    if k <= hi {
        if m < rest.len() {
            assert(spans[m + 1] == rest[m]);
        }
        if m < rest.len() && k == rest[m].0 && k < rest[m].1 <= hi + 1 {
            lemma_marks_shift(flat, gap, col, first, rest, rest[m].1, hi, m + 1, n + 1);
        } else {
            lemma_marks_shift(flat, gap, col, first, rest, k + 1, hi, m, n);
        }
    }
}

/// What is sent is what is selected, with each formula replaced by its number in brackets:
/// what can be seen of it are the words that count for the column, in their order, and
/// `[公式N]` in place of the `N`th formula; there are as many formulas as spans.
pub proof fn formulas_are_sent_by_number(flat: Seq<FlatWord>, gap: int, col: Option<i64>, lo: int, hi: int, n: nat)
    ensures
        ({
            let spans = formula_spans(flat, gap, col, lo, hi);
            let sent = translated_words(flat, gap, col, lo, hi, n);
            &&& sent.1.len() == spans.len()
            &&& seen(sent.0) == seen_with_marks(flat, gap, col, spans, lo, hi, 0, n)
        }),
    decreases hi + 1 - lo,
{
    let spans = formula_spans(flat, gap, col, lo, hi);
    let sent = translated_words(flat, gap, col, lo, hi, n);
    formulas_are_those_of_the_spans(flat, gap, col, lo, hi, n);
    formulas_are_the_longest_stretches(flat, gap, col, lo, hi);
    lemma_unseen(Seq::empty());
    if lo <= hi {
        if !in_column(flat, gap, col, lo) {
            formulas_are_sent_by_number(flat, gap, col, lo + 1, hi, n);
            if spans.len() > 0 {
                assert(span_stands(flat, gap, col, lo, hi, spans, 0));
                assert(may_be_inside(flat, gap, col, spans[0].0));
            }
        } else if flat[lo].formula {
            let run = formula_run(flat, gap, col, lo, hi, flat[lo].line);
            lemma_run_goes_on(flat, gap, col, lo, hi, flat[lo].line);
            lemma_run_shape(flat, gap, col, lo, hi, flat[lo].line);
            let full = trimmed(run.0).len() > 0;
            let next = if full {
                run.1
            } else {
                lo + 1
            };
            let count = if full {
                n + 1
            } else {
                n
            };
            let own = if full {
                place_holder(n + 1)
            } else {
                flat[lo].text@
            };
            let after = next_counting(flat, gap, col, next, hi);
            let step = if after <= hi {
                separator(flat, run.2, flat[after].line)
            } else {
                Seq::empty()
            };
            let rest = translated_words(flat, gap, col, next, hi, count);
            formulas_are_sent_by_number(flat, gap, col, next, hi, count);
            assert(seen(step) == Seq::<char>::empty()) by {
                if after <= hi {
                    lemma_separator_unseen(flat, run.2, flat[after].line);
                }
            }
            lemma_seen_parts(own + step, rest.0);
            lemma_seen_parts(own, step);
            assert(seen(own) + Seq::<char>::empty() =~= seen(own));
            assert(sent.0 == own + step + rest.0);
            if full {
                let later = formula_spans(flat, gap, col, run.1, hi);
                assert(spans == seq![(lo, run.1)] + later);
                lemma_mark_seen(n + 1);
                lemma_marks_shift(flat, gap, col, (lo, run.1), later, run.1, hi, 0, n + 1);
                assert(spans[0] == (lo, run.1));
            } else {
                trimmed_is_empty_iff_blank(run.0);
                if inked(flat[lo]) {
                    lemma_first_shows(flat, gap, col, lo, hi);
                }
                lemma_unseen(flat[lo].text@);
                assert(spans == formula_spans(flat, gap, col, lo + 1, hi));
                if spans.len() > 0 {
                    formulas_are_the_longest_stretches(flat, gap, col, lo + 1, hi);
                    assert(span_stands(flat, gap, col, lo + 1, hi, spans, 0));
                }
            }
        } else {
            formulas_are_sent_by_number(flat, gap, col, lo + 1, hi, n);
            let next = next_counting(flat, gap, col, lo + 1, hi);
            let own = word_text(flat, lo, next, hi);
            let rest = translated_words(flat, gap, col, lo + 1, hi, n);
            lemma_seen_parts(own, rest.0);
            lemma_word_seen(flat, lo, next, hi);
            if spans.len() > 0 {
                assert(span_stands(flat, gap, col, lo, hi, spans, 0));
                assert(flat[spans[0].0].formula);
            }
        }
    }
}

/// What can be seen of the first `n` steps with their formulas numbered from 1 on, and how
/// many formulas they have.
pub open spec fn seen_of_marked_steps(pages: Map<u32, RenderedPage>, layer: Layer, steps: Seq<SelectionStep>, gap: int, n: nat) -> (
    Seq<char>,
    nat,
)
    decreases n,
{
    if n == 0 {
        (Seq::empty(), 0)
    } else {
        let before = seen_of_marked_steps(pages, layer, steps, gap, (n - 1) as nat);
        let s = steps[n - 1];
        let words = match layer {
            Layer::Body => pages[s.page].body@,
            Layer::Small => pages[s.page].small@,
        };
        let hi: int = if s.hi < words.len() {
            s.hi as int
        } else {
            words.len() - 1
        };
        let spans = formula_spans(words, gap, s.column_left, s.lo as int, hi);
        (
            before.0 + seen_with_marks(words, gap, s.column_left, spans, s.lo as int, hi, 0, before.1),
            before.1 + spans.len(),
        )
    }
}

/// The formulas of a selection are numbered through all its steps, over the words of the
/// selected layer.
pub proof fn a_selection_sends_its_own_layer(pages: Map<u32, RenderedPage>, layer: Layer, steps: Seq<SelectionStep>, gap: int, n: nat)
    requires
        n <= steps.len(),
    ensures
        seen(joined_lines(translated_steps(pages, layer, steps, gap, n).0)) == seen_of_marked_steps(pages, layer, steps, gap, n).0,
        translated_steps(pages, layer, steps, gap, n).1.len() == seen_of_marked_steps(pages, layer, steps, gap, n).1,
        translated_steps(pages, layer, steps, gap, n).0.len() == n,
    decreases n,
{
    lemma_unseen(Seq::empty());
    if n > 0 {
        let m = (n - 1) as nat;
        a_selection_sends_its_own_layer(pages, layer, steps, gap, m);
        let before = translated_steps(pages, layer, steps, gap, m);
        let all = translated_steps(pages, layer, steps, gap, n);
        let s = steps[n - 1];
        let flat = step_words(pages, layer, s);
        let hi = last_place(flat, s.hi as int);
        let own = translated_words(flat, gap, s.column_left, s.lo as int, hi, before.1.len());
        formulas_are_sent_by_number(flat, gap, s.column_left, s.lo as int, hi, before.1.len());
        assert(all.0.drop_last() =~= before.0);
        assert(all.0.last() == own.0);
        if n == 1 {
            assert(before.0.len() == 0);
            assert(joined_lines(all.0) == own.0);
            assert(Seq::<char>::empty() + seen(own.0) =~= seen(own.0));
        } else {
            let text = joined_lines(before.0);
            lemma_seen_parts(text + seq!['\n'], own.0);
            lemma_seen_parts(text, seq!['\n']);
            lemma_unseen(seq!['\n']);
            assert(seen(text) + Seq::<char>::empty() =~= seen(text));
        }
    }
}

proof fn lemma_run_line(flat: Seq<FlatWord>, gap: int, col: Option<i64>, j: int, hi: int, line: usize)
    ensures
        ({
            let r = formula_run(flat, gap, col, j, hi, line);
            r.1 > j ==> r.2 == flat[r.1 - 1].line
        }),
    decreases hi + 1 - j,
{
    if in_run(flat, gap, col, j, hi) {
        lemma_run_line(flat, gap, col, j + 1, hi, flat[j].line);
        lemma_run_shape(flat, gap, col, j + 1, hi, flat[j].line);
    }
}

/// A formula is sent as its number in brackets, followed by what parts its last line from that of
/// the next word that counts, and by what comes behind it.
pub proof fn a_formula_is_parted_from_what_follows(flat: Seq<FlatWord>, gap: int, col: Option<i64>, lo: int, hi: int, n: nat, e: int, after: int)
    requires
        formula_spans(flat, gap, col, lo, hi).len() > 0,
        formula_spans(flat, gap, col, lo, hi)[0] == (lo, e),
        e <= after <= hi + 1,
        forall|k: int| e <= k < after ==> !in_column(flat, gap, col, k),
        after <= hi ==> in_column(flat, gap, col, after),
    ensures
        translated_words(flat, gap, col, lo, hi, n).0 == "[公式"@ + decimal(n + 1) + seq![']'] + (if after <= hi {
            separator(flat, flat[e - 1].line, flat[after].line)
        } else {
            Seq::empty()
        }) + translated_words(flat, gap, col, e, hi, n + 1).0,
{
    formulas_are_the_longest_stretches(flat, gap, col, lo, hi);
    let spans = formula_spans(flat, gap, col, lo, hi);
    assert(span_stands(flat, gap, col, lo, hi, spans, 0));
    assert(may_be_inside(flat, gap, col, lo));
    let run = formula_run(flat, gap, col, lo, hi, flat[lo].line);
    lemma_run_goes_on(flat, gap, col, lo, hi, flat[lo].line);
    lemma_run_line(flat, gap, col, lo, hi, flat[lo].line);
    if trimmed(run.0).len() == 0 {
        // The first span would start further on.
        formulas_are_the_longest_stretches(flat, gap, col, lo + 1, hi);
        assert(span_stands(flat, gap, col, lo + 1, hi, formula_spans(flat, gap, col, lo + 1, hi), 0));
    }
    assert(run.1 == e);
    lemma_next_counting(flat, gap, col, e, hi, after);
}

proof fn lemma_next_counting(flat: Seq<FlatWord>, gap: int, col: Option<i64>, k: int, hi: int, after: int)
    requires
        k <= after <= hi + 1,
        forall|j: int| k <= j < after ==> !in_column(flat, gap, col, j),
        after <= hi ==> in_column(flat, gap, col, after),
    ensures
        next_counting(flat, gap, col, k, hi) == after,
    decreases after - k,
{
    if k < after {
        lemma_next_counting(flat, gap, col, k + 1, hi, after);
    }
}

} // verus!
