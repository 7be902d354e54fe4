use std::collections::HashMap;
use ueberneon::chat::{
    message_body_with, render_segments, render_segments_with, segment_markdown, text_html, toggle, CardBody, ChatItem,
    MessageBody, WorkPart,
};
use ueberneon::classify::classify_words;
use ueberneon::copying::{copy_text_filtered, RenderedPage};
use ueberneon::formula_copy::selection_formula_regions;
use ueberneon::keyed::Table;
use ueberneon::model::{ChatMessage, Role, StreamSegment, ToolCallRecord, ToolCallStatus};
use ueberneon::page_geometry::{spacer_heights, window_bounds};
use ueberneon::page_text::{build_flat, DocCalibration, FlatWord, Layer, OverlayLine, OverlayWord};
use ueberneon::page_view::{text_source, PageTextSource};
use ueberneon::paragraph::paragraph_range;
use ueberneon::paragraph_walk::{paragraph_forward_with, paragraph_walk};
use ueberneon::render_queue::{PrefetchStep, Settle, SETTLE_SLICES};
use ueberneon::selection::{snap_to_word, Selection, SelectionStep};
use ueberneon::sentence::{formula_sentence_walk_with, sentence_forward_with, sentence_walk};
use ueberneon::session::ReaderSession;
use ueberneon::translation_input::{selection_has_plain_text, selection_translation_input, translation_step_text};

fn cqw(x: f64) -> i64 {
    (x * 1e6).round() as i64
}

fn fw(line: usize, text: &str, left: f64, top: f64, height: f64) -> FlatWord {
    FlatWord {
        line,
        text: text.to_string(),
        left_cqw: cqw(left),
        top_cqw: cqw(top),
        width_cqw: cqw(1.0),
        height_cqw: cqw(height),
        line_height_cqw: cqw(height),
        formula: false,
        formula_score: 0,
        gesture: 0,
    }
}

fn fwf(line: usize, text: &str, left: f64, top: f64, height: f64) -> FlatWord {
    FlatWord { formula: true, formula_score: 1_000_000, ..fw(line, text, left, top, height) }
}

fn page(body: Vec<FlatWord>) -> RenderedPage {
    RenderedPage { src: String::new(), body, small: Vec::new(), w_pt: 600_000, h_pt: 800_000, warning: None }
}

fn selection(steps: Vec<SelectionStep>) -> Selection {
    Selection { layer: Layer::Body, steps, formula: false, formula_score: 0, anchor: None }
}

fn step(page: u32, lo: usize, hi: usize, column: Option<f64>) -> SelectionStep {
    SelectionStep { page, lo, hi, column_left: column.map(cqw) }
}

// ── sentences ──

#[test]
fn brackets_before_the_anchor_count_once() {
    let flat = vec![fw(0, "f(a", 0.0, 0.0, 1.0), fw(0, "b)", 2.0, 0.0, 1.0), fw(0, "c;", 4.0, 0.0, 1.0), fw(0, "d.", 6.0, 0.0, 1.0)];
    for idx in 0..3 {
        let steps = sentence_forward_with(&flat, idx, None, 0, DocCalibration::default());
        let got: Vec<(u32, usize, usize)> = steps.iter().map(|s| (s.page, s.lo, s.hi)).collect();
        assert_eq!(got, vec![(0, 0, 2)], "{idx}");
    }
}

#[test]
fn every_word_of_a_formula_sentence_gives_it() {
    let flat = vec![
        fwf(0, "p=", 51.0, 0.0, 2.0),
        fwf(0, "plan(E,g;", 53.0, 0.0, 2.0),
        fwf(0, "Θ,P);", 55.0, 0.0, 2.0),
        fwf(0, "q;", 58.0, 0.0, 2.0),
    ];
    for idx in 0..3 {
        let steps = formula_sentence_walk_with(&flat, idx, 0, DocCalibration::default());
        assert_eq!(steps, vec![step(0, 0, 2, Some(51.0))], "{idx}");
    }
    assert_eq!(formula_sentence_walk_with(&flat, 3, 0, DocCalibration::default()), vec![step(0, 3, 3, Some(51.0))]);
}

#[test]
fn every_word_of_a_paragraph_gives_the_same_range() {
    let mut flat = Vec::new();
    for line in 0..4 {
        let top = if line < 2 { line as f64 * 1.2 } else { 20.0 + line as f64 * 1.2 };
        for i in 0..3 {
            flat.push(fw(line, "word", 10.0 + i as f64 * 3.0, top, 1.0));
        }
    }
    for k in 0..6 {
        assert_eq!(paragraph_range(&flat, k), (0, 5));
        assert_eq!(paragraph_range(&flat, k + 6), (6, 11));
    }
}

// ── the words of a step ──

#[test]
fn a_formula_is_parted_from_the_next_line_of_its_column() {
    let flat = vec![fwf(0, "x", 10.0, 0.0, 2.0), fw(1, "R", 51.0, 0.0, 2.0), fw(2, "is", 10.0, 2.5, 2.0)];
    let mut formulas = Vec::new();
    assert_eq!(translation_step_text(&flat, 0, 2, Some(cqw(10.0)), &mut formulas), "[公式1] is");
    assert_eq!(formulas, vec!["x".to_string()]);
    assert_eq!(copy_text_filtered(&flat, 0, 2, Some(cqw(10.0))), "x is");
}

#[test]
fn words_of_another_column_are_no_plain_text() {
    let flat = vec![fwf(0, "x", 10.0, 0.0, 2.0), fw(1, "R", 51.0, 0.0, 2.0), fwf(2, "y", 10.0, 2.5, 2.0)];
    let pages: HashMap<u32, RenderedPage> = [(1, page(flat))].into_iter().collect();
    assert!(!selection_has_plain_text(&selection(vec![step(1, 0, 2, Some(10.0))]), &pages));
    assert!(selection_has_plain_text(&selection(vec![step(1, 0, 2, Some(51.0))]), &pages));
    assert!(selection_has_plain_text(&selection(vec![step(1, 0, 2, None)]), &pages));
}

#[test]
fn formulas_and_their_boxes_are_in_step() {
    let flat = vec![
        fwf(0, "x", 10.0, 0.0, 2.0),
        fwf(1, "R", 51.0, 0.0, 2.0),
        fwf(2, "y", 10.0, 2.5, 2.0),
        fw(3, "word", 10.0, 5.0, 2.0),
        fwf(4, " ", 10.0, 7.5, 2.0),
    ];
    let pages: HashMap<u32, RenderedPage> = [(1, page(flat))].into_iter().collect();
    let sel = selection(vec![step(1, 0, 4, Some(10.0))]);
    let (text, formulas) = selection_translation_input(&sel, &pages).unwrap();
    assert!(text.starts_with("[公式1]") && text.contains("[公式2]"));
    assert_eq!(formulas, vec!["x".to_string(), "y".to_string()]);
    let regions = selection_formula_regions(&sel, &pages);
    assert_eq!(regions, vec![(1, (240, 0, 24, 48)), (1, (240, 60, 24, 48))]);
    let whole = selection(vec![step(1, 0, 4, None)]);
    let (_, formulas) = selection_translation_input(&whole, &pages).unwrap();
    assert_eq!(selection_formula_regions(&whole, &pages).len(), formulas.len());
}

#[test]
fn a_space_stands_for_the_nearest_word() {
    let flat = vec![fw(0, "A", 0.0, 0.0, 1.0), fw(0, " ", 1.0, 0.0, 1.0), fw(0, " ", 2.0, 0.0, 1.0), fw(0, "B", 3.0, 0.0, 1.0)];
    assert_eq!(snap_to_word(&flat, 1), 0);
    assert_eq!(snap_to_word(&flat, 2), 3);
    let words = |texts: &[&str]| OverlayLine {
        height_cqw: cqw(1.0),
        font_size_pt: cqw(10.0),
        words: texts
            .iter()
            .enumerate()
            .map(|(i, t)| OverlayWord {
                text: t.to_string(),
                left_pct: cqw(i as f64),
                top_cqw: 0,
                width_cqw: cqw(1.0),
                height_cqw: cqw(1.0),
            })
            .collect(),
    };
    let flat = build_flat(&[words(&["A", " ", " ", "B", " "]), words(&[" ", "C"])]);
    let got: Vec<usize> = flat.iter().map(|w| w.gesture).collect();
    assert_eq!(got, vec![0, 0, 3, 3, 3, 6, 6]);
    let (body, small) = classify_words(&[words(&["A", " ", "B"]), words(&["C"])]);
    assert_eq!(body.len() + small.len(), 4);
    assert!(body.windows(2).all(|w| w[0].line <= w[1].line));
    assert!(body.iter().all(|b| small.iter().all(|s| s.line != b.line)));
}

// ── pages ──

#[test]
fn a_window_is_held_to_the_book() {
    assert_eq!(window_bounds(100, 10, 15), (10, 10));
    assert_eq!(window_bounds(0, 10, 0), (1, 1));
    assert_eq!(window_bounds(0, 0, 3), (1, 1));
    assert_eq!(window_bounds(5, 10, 2), (3, 7));
    assert_eq!(window_bounds(u32::MAX, u32::MAX, u32::MAX), (1, u32::MAX));
}

fn session(page_count: u32, start: u32) -> ReaderSession {
    let prefix = (0..=page_count as i64).map(|i| i * 1_000_000).collect();
    ReaderSession::open(
        "book".to_string(),
        "Book".to_string(),
        page_count,
        DocCalibration::default(),
        prefix,
        start,
        page(Vec::new()),
        0,
    )
    .0
}

#[test]
fn the_page_before_the_last_is_fetched_too() {
    let s = session(3, 3);
    assert_eq!(s.prefetch_step(3, 0, false), PrefetchStep::Skip);
    assert_eq!(s.prefetch_step(3, 0, true), PrefetchStep::Render(2));
    assert_eq!(s.prefetch_step(3, 1, true), PrefetchStep::Stop);
    let first = session(3, 1);
    assert_eq!(first.prefetch_step(1, 0, true), PrefetchStep::Skip);
    assert_eq!(first.prefetch_step(1, 0, false), PrefetchStep::Render(2));
}

#[test]
fn the_view_rests_after_all_waits() {
    let s = session(3, 2);
    assert_eq!(s.settle_step(2, 0, 1), Settle::Wait);
    assert_eq!(s.settle_step(2, 0, SETTLE_SLICES), Settle::Settled);
    assert_eq!(s.settle_step(1, 0, SETTLE_SLICES), Settle::Moved);
    assert_eq!(s.settle_step(2, 1, 1), Settle::Moved);
}

#[test]
fn a_page_without_text_is_recognised() {
    assert!(matches!(text_source(false, Vec::new(), Err("e".to_string())), PageTextSource::Text(_)));
    assert!(matches!(text_source(true, Vec::new(), Ok(Some(Vec::new()))), PageTextSource::Recognised(_)));
    assert!(matches!(text_source(true, Vec::new(), Ok(None)), PageTextSource::NotConfigured));
    assert!(matches!(text_source(true, Vec::new(), Err("e".to_string())), PageTextSource::Failed(e) if e == "e"));
}

// ── answers with formulas ──

fn call(name: &str, result: Option<&str>) -> StreamSegment {
    StreamSegment::ToolCall(ToolCallRecord {
        id: "c".to_string(),
        tool_name: name.to_string(),
        args: "{\"a\":1}".to_string(),
        result: result.map(|r| r.to_string()),
        status: ToolCallStatus::Success,
        approval_reason: None,
    })
}

#[test]
fn the_html_of_each_text_can_be_given() {
    let segments = vec![
        StreamSegment::Reasoning("hm".to_string()),
        call("bash", Some("r")),
        StreamSegment::Text("$x$".to_string()),
    ];
    assert_eq!(segment_markdown(&segments[2]), "$x$");
    assert!(segment_markdown(&segments[1]).contains("**Result**\n\n```\nr\n```"));
    assert_eq!(text_html("*a*"), "<p><em>a</em></p>\n");
    let htmls: Vec<String> = ["<i>hm</i>", "<i>doc</i>", "<i>x</i>"].iter().map(|s| s.to_string()).collect();
    let mut opened = Table::new();
    toggle(&mut opened, "m:0");
    let items = render_segments_with(&segments, &htmls, &opened, "m");
    match &items[0] {
        ChatItem::Work(parts) => {
            assert!(matches!(&parts[0], WorkPart::Thought(h) if h == "<i>hm</i>"));
            assert!(matches!(&parts[1], WorkPart::Call(c) if matches!(&c.body, Some(CardBody::Document(h)) if h == "<i>doc</i>")));
        }
        ChatItem::Said(_) => panic!("no work"),
    }
    assert!(matches!(&items[1], ChatItem::Said(h) if h == "<i>x</i>"));
    let m = ChatMessage {
        role: Role::User,
        content: "$x$".to_string(),
        timestamp: String::new(),
        reasoning: String::new(),
        segments: Vec::new(),
        content_html: String::new(),
    };
    assert!(matches!(message_body_with(&m, "<i>x</i>", &Vec::new(), &opened, "m"), MessageBody::Content(h) if h == "<i>x</i>"));
}

#[test]
fn a_changed_file_is_shown_as_differences() {
    let mut opened = Table::new();
    toggle(&mut opened, "m:0");
    for (name, differs) in [("WriteFile", true), ("EditFile", true), ("write_file", false), ("edit_file", false)] {
        let items = render_segments(&vec![call(name, Some("@@ -1 +1 @@\n-a\n+b"))], &opened, "m");
        match &items[0] {
            ChatItem::Work(parts) => {
                assert!(matches!(&parts[0], WorkPart::Call(c) if match &c.body {
                    Some(CardBody::Diff(_)) => differs,
                    Some(CardBody::Document(_)) => !differs,
                    None => false,
                }), "{name}");
            }
            ChatItem::Said(_) => panic!("no work"),
        }
    }
    for (name, shown) in [("WriteFile", false), ("write_file", true)] {
        let items = render_segments(&vec![call(name, None)], &opened, "m");
        match &items[0] {
            ChatItem::Work(parts) => {
                assert!(matches!(&parts[0], WorkPart::Call(c) if c.body.is_some() == shown), "{name}");
            }
            ChatItem::Said(_) => panic!("no work"),
        }
    }
}

#[test]
fn the_scrolled_height_is_that_of_the_book() {
    // Four pages, 100, 150, 80 and 70 high, with 28 between each two: 400 + 84.
    let prefix = [0i64, 1_000_000, 2_500_000, 3_300_000, 4_000_000];
    let gap: i128 = 2_800_000_000;
    for (first, last) in [(1u32, 1u32), (1, 4), (2, 3), (4, 4), (3, 4)] {
        let (above, below) = spacer_heights(&prefix, 10_000, 28_000, first, last);
        let drawn = 10_000 * (prefix[last as usize] - prefix[first as usize - 1]) as i128 + gap * (last - first) as i128;
        let over = if first > 1 { gap } else { 0 };
        let under = if last < 4 { gap } else { 0 };
        assert_eq!(above + over + drawn + under + below, 48_400_000_000);
    }
}

#[test]
fn reading_on_starts_at_a_word() {
    let cal = DocCalibration::default();
    let flat = vec![fw(0, "One.", 0.0, 0.0, 1.0), fw(0, " ", 2.0, 0.0, 1.0), fw(0, "Two", 4.0, 0.0, 1.0)];
    assert_eq!(sentence_forward_with(&flat, 1, None, 0, cal), vec![step(0, 0, 0, Some(0.0))]);
    assert_eq!(sentence_forward_with(&flat, 99, None, 0, cal), vec![step(0, 1, 2, Some(0.0))]);
    assert_eq!(sentence_forward_with(&[], 0, None, 0, cal), vec![]);
    assert_eq!(paragraph_forward_with(&flat, 1, None, 0, cal), vec![step(0, 0, 2, Some(0.0))]);
    assert_eq!(paragraph_forward_with(&flat, 99, None, 0, cal), vec![step(0, 0, 2, Some(0.0))]);
    assert_eq!(paragraph_forward_with(&[], 7, None, 0, cal), vec![]);
}

#[test]
fn no_step_ends_before_it_starts() {
    let page = |words: [&str; 4]| -> Vec<FlatWord> {
        let mut r = Vec::new();
        for (k, w) in words.into_iter().enumerate() {
            let (left, top) = (if k < 2 { 5.0 } else { 55.0 }, if k % 2 == 0 { 10.0 } else { 12.0 });
            let mut f = fw(k, w, left, top, 1.5);
            f.width_cqw = cqw(40.0);
            r.push(f);
        }
        r
    };
    let (prev, flat, next) = (page(["a", "b.", "c", "d"]), page(["e", "f", "g", "h"]), page(["i", "j.", "k", "l."]));
    for idx in 0..4 {
        let sentence = sentence_walk(&flat, idx, Some(&prev), Some(&next), 1);
        let paragraph = paragraph_walk(&flat, idx, Some(&prev), Some(&next), 1);
        assert!(!sentence.is_empty() && !paragraph.is_empty());
        for s in sentence.iter().chain(paragraph.iter()) {
            assert!(s.page <= 2 && s.lo <= s.hi && s.hi < 4, "{idx}");
        }
    }
}
