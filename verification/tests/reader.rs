use std::collections::HashMap;
use ueberneon::boundary::scan_word_boundary;
use ueberneon::classify::{classify_words, classify_words_with, FORMULA_SCORE_THRESHOLD};
use ueberneon::copying::{copy_steps, copy_text_filtered, RenderedPage};
use ueberneon::formula::{formula_block_range, formula_block_range_with};
use ueberneon::lines::{line_columns, line_columns_with};
use ueberneon::page_cache::evict_cache_pages;
use ueberneon::page_geometry::{current_page_from_prefix, page_aspect_at, page_ratio_at, spacer_heights, window_bounds};
use ueberneon::page_text::{build_flat, DocCalibration, FlatWord, Layer, OverlayLine, OverlayWord};
use ueberneon::paragraph::{paragraph_range, paragraph_range_with};
use ueberneon::paragraph_walk::paragraph_walk;
use ueberneon::rects::{formula_copy_key, selection_bbox_px, selection_rects_filtered};
use ueberneon::search::{search_book_pages, PageFile};
use ueberneon::selection::{snap_to_word, Selection, SelectionStep};
use ueberneon::sentence::{formula_sentence_walk, sentence_walk};
use ueberneon::session::shift_extend_selection;
use ueberneon::translation_input::{selection_has_plain_text, selection_translation_input};

fn cqw(x: f64) -> i64 {
    (x * 1e6).round() as i64
}

fn px(x: f64) -> i64 {
    (x * 1e3).round() as i64
}

fn ratios(v: &[f64]) -> Vec<i64> {
    v.iter().map(|x| cqw(*x)).collect()
}

fn spacers_px(prefix: &[i64], start: u32, end: u32) -> (f64, f64) {
    let (top, bottom) = spacer_heights(prefix, 10_000, 28_000, start, end);
    (top as f64 / 1e8, bottom as f64 / 1e8)
}

fn ratio(prefix: &[i64], page: u32) -> f64 {
    page_ratio_at(prefix, page) as f64 / 1e6
}

fn aspect(prefix: &[i64], page: u32) -> f64 {
    page_aspect_at(prefix, page) as f64 / 1e12
}

fn page_of(body: Vec<FlatWord>) -> RenderedPage {
    RenderedPage {
        src: String::new(),
        body,
        small: Vec::new(),
        w_pt: 1_000,
        h_pt: 1_000,
        warning: None,
    }
}

fn book(pages: Vec<(u32, Vec<FlatWord>)>) -> HashMap<u32, RenderedPage> {
    pages.into_iter().map(|(n, words)| (n, page_of(words))).collect()
}

fn fw(line: usize, text: &str, left: f64, top: f64, height: f64) -> FlatWord {
    FlatWord {
        line,
        text: text.to_string(),
        left_cqw: cqw(left),
        top_cqw: cqw(top),
        width_cqw: cqw(1.0),
        height_cqw: cqw(height),
        line_height_cqw: cqw(height),
        formula: false,
        formula_score: 0,
        gesture: 0,
    }
}

fn fwf(line: usize, text: &str, left: f64, top: f64, height: f64) -> FlatWord {
    FlatWord {
        formula: true,
        formula_score: 1_000_000,
        ..fw(line, text, left, top, height)
    }
}

fn overlay_line(words: Vec<(String, f64, f64, f64, f64)>) -> OverlayLine {
    OverlayLine {
        height_cqw: cqw(words.first().map(|w| w.4).unwrap_or(1.0)),
        font_size_pt: cqw(10.0),
        words: words
            .into_iter()
            .map(|(text, left, top, width, height)| OverlayWord {
                text,
                left_pct: cqw(left),
                top_cqw: cqw(top),
                width_cqw: cqw(width),
                height_cqw: cqw(height),
            })
            .collect(),
    }
}

fn overlay_line_with_font(words: Vec<(String, f64, f64, f64, f64)>, font_size_pt: f64) -> OverlayLine {
    let mut line = overlay_line(words);
    line.font_size_pt = cqw(font_size_pt);
    line
}

#[test]
fn search_book_pages_returns_sorted_page_snippets() {
    let files = vec![
        PageFile { name: "2.md".to_string(), text: "另一章\n代数几何简介".to_string() },
        PageFile { name: "1.md".to_string(), text: "线性代数定义\n正文内容".to_string() },
    ];
    let out = search_book_pages(files, "代数", 50, 6000);
    assert_eq!(out.len(), 2);
    assert_eq!(out[0].0, 1);
    assert!(out[0].1.contains("线性代数定义"));
    assert_eq!(out[1].0, 2);
}

#[test]
fn sentence_walk_stays_in_column() {
    let flat = vec![
        fw(0, "One.", 0.0, 0.0, 1.0),
        fw(0, "Two", 2.0, 0.0, 1.0),
        fw(0, "sentences", 4.0, 0.0, 1.0),
        fw(0, "here.", 6.0, 0.0, 1.0),
    ];
    let steps = sentence_walk(&flat, 0, None, None, 0);
    assert_eq!(steps.len(), 1);
    assert_eq!((steps[0].lo, steps[0].hi), (0, 0));
    let steps = sentence_walk(&flat, 2, None, None, 0);
    assert_eq!(steps.len(), 1);
    assert_eq!((steps[0].lo, steps[0].hi), (1, 3));
}

#[test]
fn sentence_walk_flows_left_to_right_column() {
    // 左栏句子未结束 → 续接到右栏;中间穿插的图注列不进入路径
    let flat = vec![
        fw(0, "We", 10.0, 0.0, 2.0),
        fw(0, " ", 13.0, 0.0, 2.0),
        fw(0, "have", 14.0, 0.0, 2.0),
        fw(1, "combined", 10.0, 2.5, 2.0),
        fw(1, " ", 20.0, 2.5, 2.0),
        fw(1, "with", 21.0, 2.5, 2.0),
        fw(2, "Figure", 60.0, 0.0, 1.0),
        fw(2, "1", 61.0, 0.0, 1.0),
        fw(3, "deep", 51.0, 0.0, 2.0),
        fw(3, " ", 56.0, 0.0, 2.0),
        fw(3, "models,", 57.0, 0.0, 2.0),
        fw(4, "model.", 51.0, 5.0, 2.0),
    ];
    let steps = sentence_walk(&flat, 3, None, None, 0);
    assert_eq!(steps.len(), 2, "左栏一步 + 右栏一步");
    assert_eq!((steps[0].lo, steps[0].hi), (0, 5));
    assert_eq!((steps[1].lo, steps[1].hi), (8, 11));
    let copied = copy_steps(
        &Selection {
            layer: Layer::Body,
            formula: false,
            formula_score: 0,
            anchor: None,
            steps,
        },
        &book(vec![(0, flat)]),
    )
    .unwrap();
    assert!(copied.contains("combined with\ndeep models,"), "{copied:?}");
    assert!(!copied.contains("Figure"), "{copied:?}");
}

#[test]
fn sentence_walk_continues_backward_to_left_column_when_sentence_unfinished() {
    let flat = vec![
        fw(0, "L1", 10.0, 0.0, 2.0),
        fw(1, "L2", 10.0, 2.5, 2.0),
        fw(2, "R1", 51.0, 0.0, 2.0),
        fw(3, "end.", 51.0, 2.5, 2.0),
    ];
    let steps = sentence_walk(&flat, 2, None, None, 0);
    assert_eq!(steps.len(), 2, "右栏锚点应向前包含左栏未结束的句子前半");
    assert_eq!((steps[0].lo, steps[0].hi), (0, 1));
    assert_eq!((steps[1].lo, steps[1].hi), (2, 3));
}

#[test]
fn sentence_walk_does_not_continue_backward_when_previous_column_ends_sentence() {
    let flat = vec![
        fw(0, "L1.", 10.0, 0.0, 2.0),
        fw(1, "R1", 51.0, 0.0, 2.0),
        fw(2, "end.", 51.0, 2.5, 2.0),
    ];
    let steps = sentence_walk(&flat, 1, None, None, 0);
    assert_eq!(steps.len(), 1, "左栏句子已结束,不向前续");
    assert_eq!((steps[0].lo, steps[0].hi), (1, 2));
}

#[test]
fn sentence_walk_continues_backward_to_previous_page() {
    let page0 = vec![
        fw(0, "Furthermore,", 51.0, 0.0, 2.0),
        fw(1, "evaluated", 51.0, 2.5, 2.0),
    ];
    let page1 = vec![
        fw(0, "several", 8.8, 0.0, 2.0),
        fw(1, "benchmarks.", 8.8, 2.5, 2.0),
    ];
    let steps = sentence_walk(&page1, 0, Some(&page0), None, 1);
    assert_eq!(steps.len(), 2, "跨页向前续接上一页右栏的句子前半");
    assert_eq!(steps[0].page, 0);
    assert_eq!(steps[1].page, 1);
    assert_eq!((steps[0].lo, steps[0].hi), (0, 1));
}

#[test]
fn sentence_walk_skips_table_formula_and_continues_to_body_text() {
    // 跨页后页首是表格公式列(非正文),句子应跳过它,
    // 从下一页第一个正文列继续,直到句号结束
    let page0 = vec![fw(0, "include", 10.0, 0.0, 2.0)];
    let page1 = vec![
        fwf(0, "[gi]", 51.0, 0.0, 2.0),
        fwf(0, "=", 53.0, 0.0, 2.0),
        fwf(0, "decompose(E,g;Θ,P);", 55.0, 0.0, 2.0),
        fw(1, "HuggingGPT", 8.0, 0.0, 2.0),
        fw(2, "[Shen", 8.0, 3.0, 2.0),
        fw(3, "et", 8.0, 6.0, 2.0),
        fw(4, "al.", 8.0, 9.0, 2.0),
    ];
    let steps = sentence_walk(&page0, 0, None, Some(&page1), 0);
    assert_eq!(steps.len(), 2);
    let copied = copy_steps(
        &Selection {
            layer: Layer::Body,
            formula: false,
            formula_score: 0,
            anchor: None,
            steps,
        },
        &book(vec![(0, page0), (1, page1)]),
    )
    .unwrap();
    assert!(copied.contains("HuggingGPT"), "{copied:?}");
    assert!(copied.contains("al."), "{copied:?}");
    assert!(
        !copied.contains("decompose"),
        "表格公式不应进入句子:{copied:?}"
    );
}

#[test]
fn sentence_walk_skips_figure_label_columns_before_right_text() {
    // 图注标签列有 2 行小字(高 0.8),不是正文尺寸,续接时应跳过
    let flat = vec![
        fw(0, "We", 10.0, 0.0, 2.0),
        fw(0, "have", 14.0, 0.0, 2.0),
        fw(1, "combined", 10.0, 2.5, 2.0),
        fw(1, "with", 20.0, 2.5, 2.0),
        fw(2, "Pla", 60.0, 0.0, 0.8),
        fw(3, "Ability", 60.0, 2.0, 0.8),
        fw(4, "deep", 51.0, 0.0, 2.0),
        fw(4, "models,", 57.0, 0.0, 2.0),
        fw(5, "model.", 51.0, 5.0, 2.0),
    ];
    let steps = sentence_walk(&flat, 3, None, None, 0);
    assert_eq!(steps.len(), 2, "跳过图注标签列,续到右栏正文");
    assert_eq!((steps[0].lo, steps[0].hi), (0, 3));
    assert_eq!((steps[1].lo, steps[1].hi), (6, 8));
    let copied = copy_steps(
        &Selection {
            layer: Layer::Body,
            formula: false,
            formula_score: 0,
            anchor: None,
            steps,
        },
        &book(vec![(0, flat)]),
    )
    .unwrap();
    assert!(!copied.contains("Pla"), "{copied:?}");
}

#[test]
fn sentence_walk_crosses_to_next_page_leftmost() {
    let page0 = vec![
        fw(0, "The", 10.0, 0.0, 2.0),
        fw(1, "sentence", 10.0, 5.0, 2.0),
        fw(2, "continues", 10.0, 10.0, 2.0),
    ];
    let page1 = vec![
        fw(0, "here.", 10.0, 0.0, 2.0),
        fw(1, "more", 10.0, 5.0, 2.0),
    ];
    let steps = sentence_walk(&page0, 2, None, Some(&page1), 0);
    assert_eq!(steps.len(), 2);
    assert_eq!(steps[0].page, 0);
    assert_eq!(steps[1].page, 1);
    assert_eq!(steps[1].hi, 0);
}

#[test]
fn sentence_walk_stops_at_heading_above_paragraph() {
    // 标题行没有句读,但与正文之间有行距 → 三击正文首句不应包含标题
    let flat = vec![
        fw(0, "Hypothesis", 8.0, 0.0, 2.0),
        fw(0, " ", 20.0, 0.0, 2.0),
        fw(0, "4:", 21.0, 0.0, 2.0),
        fw(0, " ", 24.0, 0.0, 2.0),
        fw(0, "The", 25.0, 0.0, 2.0),
        fw(0, " ", 29.0, 0.0, 2.0),
        fw(0, "Agent-Driven", 30.0, 0.0, 2.0),
        fw(0, " ", 43.0, 0.0, 2.0),
        fw(0, "Economy", 44.0, 0.0, 2.0),
        fw(1, "The", 8.0, 6.0, 2.0),
        fw(1, " ", 12.0, 6.0, 2.0),
        fw(1, "fourth", 13.0, 6.0, 2.0),
        fw(1, " ", 20.0, 6.0, 2.0),
        fw(1, "hypothesis", 21.0, 6.0, 2.0),
        fw(2, "is", 8.0, 8.5, 2.0),
        fw(2, " ", 11.0, 8.5, 2.0),
        fw(2, "that", 12.0, 8.5, 2.0),
        fw(3, "models.", 8.0, 11.0, 2.0),
    ];
    let steps = sentence_walk(&flat, 9, None, None, 0);
    assert_eq!(steps.len(), 1, "句子应止于本段,不跨回标题");
    let copied = copy_steps(
        &Selection {
            layer: Layer::Body,
            formula: false,
            formula_score: 0,
            anchor: None,
            steps,
        },
        &book(vec![(0, flat)]),
    )
    .unwrap();
    assert!(!copied.contains("Hypothesis"), "{copied}");
    assert!(copied.starts_with("The fourth hypothesis"), "{copied}");
    assert!(copied.ends_with("models."), "{copied}");
}

#[test]
fn sentence_walk_stops_at_paragraph_end_without_punctuation() {
    // 段内没有句读且段落到行尾结束 → 句子止于段尾,不吞下一段
    let flat = vec![
        fw(0, "First", 8.0, 0.0, 2.0),
        fw(1, "line", 8.0, 2.5, 2.0),
        fw(2, "Next", 8.0, 8.0, 2.0),
    ];
    let steps = sentence_walk(&flat, 1, None, None, 0);
    let copied = copy_steps(
        &Selection {
            layer: Layer::Body,
            formula: false,
            formula_score: 0,
            anchor: None,
            steps,
        },
        &book(vec![(0, flat)]),
    )
    .unwrap();
    assert_eq!(copied, "First line", "{copied}");
}

#[test]
fn copy_text_joins_wrapped_lines_and_keeps_paragraph_breaks() {
    let flat = vec![
        fw(0, "I am", 0.0, 0.0, 2.0),
        fw(0, " ", 5.0, 0.0, 2.0),
        fw(0, "also", 6.0, 0.0, 2.0),
        fw(1, "indebted", 0.0, 2.5, 2.0),
        fw(1, " ", 9.0, 2.5, 2.0),
        fw(1, "to", 10.0, 2.5, 2.0),
        fw(2, "Next", 0.0, 8.0, 2.0),
    ];
    // 软换行合并为空格；垂直间隙大的段落分界保留换行
    assert_eq!(
        copy_text_filtered(&flat, 0, 6, None),
        "I am also indebted to\nNext"
    );
}

#[test]
fn copy_text_joins_cjk_wrapped_lines_without_space() {
    let flat = vec![fw(0, "你好", 0.0, 0.0, 2.0), fw(1, "世界", 0.0, 2.5, 2.0)];
    assert_eq!(copy_text_filtered(&flat, 0, 1, None), "你好世界");
}

#[test]
fn translation_input_joins_wrapped_lines_with_space() {
    let flat = vec![fw(0, "As", 0.0, 0.0, 2.0), fw(1, "models", 0.0, 2.5, 2.0)];
    let sel = Selection {
        layer: Layer::Body,
        formula: false,
        formula_score: 0,
        anchor: None,
        steps: vec![SelectionStep {
            page: 1,
            lo: 0,
            hi: 1,
            column_left: None,
        }],
    };
    let pages = book(vec![(1, flat)]);
    let (text, formulas) = selection_translation_input(&sel, &pages).unwrap();
    assert_eq!(text, "As models");
    assert!(formulas.is_empty());
}

#[test]
fn paragraph_walk_continues_to_right_column_when_at_column_bottom() {
    let flat = vec![
        fw(0, "P1", 10.0, 0.0, 2.0),
        fw(1, "P2", 10.0, 2.5, 2.0),
        fw(2, "P3", 10.0, 5.0, 2.0),
        fw(3, "R1", 51.0, 0.0, 2.0),
        fw(4, "R2", 51.0, 2.5, 2.0),
    ];
    let steps = paragraph_walk(&flat, 1, None, None, 0);
    assert_eq!(steps.len(), 2, "左栏段落在栏底,续接右栏");
    assert_eq!((steps[0].lo, steps[0].hi), (0, 2));
    assert_eq!((steps[1].lo, steps[1].hi), (3, 4));
}

#[test]
fn paragraph_walk_stops_when_right_column_indented() {
    let flat = vec![
        fw(0, "P1", 10.0, 0.0, 2.0),
        fw(1, "P2", 10.0, 2.5, 2.0),
        fw(2, "R1", 52.5, 0.0, 2.0),
        fw(3, "R2", 51.0, 2.5, 2.0),
    ];
    let steps = paragraph_walk(&flat, 0, None, None, 0);
    assert_eq!(steps.len(), 1, "右栏首行缩进,段落止于左栏");
}

#[test]
fn paragraph_walk_skips_figure_label_column_between_text_columns() {
    let flat = vec![
        fw(0, "P1", 10.0, 0.0, 2.0),
        fw(1, "P2", 10.0, 2.5, 2.0),
        fw(2, "P3", 10.0, 5.0, 2.0),
        fw(3, "Pla", 60.0, 0.0, 0.8),
        fw(4, "Ability", 60.0, 2.0, 0.8),
        fw(5, "R1", 51.0, 0.0, 2.0),
        fw(6, "R2", 51.0, 2.5, 2.0),
    ];
    let steps = paragraph_walk(&flat, 1, None, None, 0);
    assert_eq!(steps.len(), 2, "段落跳过图注标签列,续到右栏正文");
    assert_eq!((steps[0].lo, steps[0].hi), (0, 2));
    assert_eq!((steps[1].lo, steps[1].hi), (5, 6));
}

#[test]
fn paragraph_walk_continues_backward_to_left_column_when_right_starts_unindented() {
    let flat = vec![
        fw(0, "L1", 10.0, 0.0, 2.0),
        fw(1, "L2", 10.0, 2.5, 2.0),
        fw(2, "L3", 10.0, 5.0, 2.0),
        fw(3, "R1", 51.0, 0.0, 2.0),
        fw(4, "R2", 51.0, 2.5, 2.0),
    ];
    let steps = paragraph_walk(&flat, 4, None, None, 0);
    assert_eq!(steps.len(), 2, "右栏锚点应向前包含左栏段落");
    assert_eq!((steps[0].lo, steps[0].hi), (0, 2));
    assert_eq!((steps[1].lo, steps[1].hi), (3, 4));
}

#[test]
fn paragraph_walk_does_not_continue_backward_when_right_column_indented() {
    let flat = vec![
        fw(0, "L1", 10.0, 0.0, 2.0),
        fw(1, "L2", 10.0, 2.5, 2.0),
        fw(2, "R1", 52.5, 0.0, 2.0),
        fw(3, "R2", 51.0, 2.5, 2.0),
    ];
    let steps = paragraph_walk(&flat, 3, None, None, 0);
    assert_eq!(steps.len(), 1, "右栏首行缩进,视为新段落,不向前续");
}

#[test]
fn paragraph_walk_crosses_to_next_page_same_column() {
    let page0 = vec![
        fw(0, "P1", 10.0, 0.0, 2.0),
        fw(1, "P2", 10.0, 2.5, 2.0),
        fw(2, "P3", 10.0, 5.0, 2.0),
    ];
    let page1 = vec![fw(0, "P4", 10.0, 0.0, 2.0), fw(1, "P5", 10.0, 2.5, 2.0)];
    let steps = paragraph_walk(&page0, 1, None, Some(&page1), 0);
    assert_eq!(steps.len(), 2, "正文段落跨页续接");
    assert_eq!(steps[0].page, 0);
    assert_eq!(steps[1].page, 1);
    assert_eq!(steps[1].hi, 1);
}

#[test]
fn classify_words_splits_body_and_small() {
    // 判定依据是真实字号:脚注字形盒高度与正文相同(2.0),但字号 8pt
    // (正文 10pt),仍应进小字层;窄碎片 "a" 同样按小字处理。
    let overlay = vec![
        overlay_line(vec![("Hello".into(), 10.0, 0.0, 20.0, 2.0)]),
        overlay_line(vec![("World".into(), 10.0, 5.0, 20.0, 2.0)]),
        overlay_line(vec![("More".into(), 10.0, 10.0, 20.0, 2.0)]),
        overlay_line_with_font(vec![("footnote".into(), 10.0, 10.0, 30.0, 2.0)], 8.0),
        overlay_line_with_font(vec![("a".into(), 3.0, 0.0, 0.5, 1.0)], 8.0),
    ];
    let (body, small) = classify_words(&overlay);
    let body_texts: Vec<&str> = body.iter().map(|w| w.text.as_str()).collect();
    let small_texts: Vec<&str> = small.iter().map(|w| w.text.as_str()).collect();
    assert_eq!(body_texts, vec!["Hello", "World", "More"]);
    assert_eq!(small_texts, vec!["footnote", "a"]);
}

#[test]
fn copy_steps_joins_steps_with_newline() {
    let sel = Selection {
        layer: Layer::Body,
        formula: false,
        formula_score: 0,
        anchor: None,
        steps: vec![
            SelectionStep {
                page: 0,
                lo: 0,
                hi: 2,
                column_left: Some(cqw(10.0)),
            },
            SelectionStep {
                page: 1,
                lo: 0,
                hi: 2,
                column_left: Some(cqw(8.0)),
            },
        ],
    };
    let page0 = vec![
        fw(0, "a", 10.0, 0.0, 2.0),
        fw(0, " ", 13.0, 0.0, 2.0),
        fw(0, "b.", 15.0, 0.0, 2.0),
    ];
    let page1 = vec![
        fw(0, "c", 8.0, 0.0, 2.0),
        fw(0, " ", 12.0, 0.0, 2.0),
        fw(0, "d.", 14.0, 0.0, 2.0),
    ];
    let pages = book(vec![(0, page0), (1, page1)]);
    let text = copy_steps(&sel, &pages).unwrap();
    assert_eq!(text, "a b.\nc d.");
}

fn page_with_words(words: &[&str]) -> RenderedPage {
    page_of(words.iter().enumerate().map(|(i, w)| fw(0, w, i as f64, 0.0, 2.0)).collect())
}

fn selection_with_anchor(page: u32, layer: Layer, idx: usize) -> Selection {
    Selection {
        layer,
        formula: false,
        formula_score: 0,
        anchor: Some((page, layer, idx)),
        steps: vec![SelectionStep {
            page,
            lo: idx,
            hi: idx,
            column_left: None,
        }],
    }
}

#[test]
fn shift_extend_same_page_forward_shrink_and_self() {
    let mut cache = HashMap::new();
    cache.insert(1, page_with_words(&["a", "b", "c", "d", "e"]));
    let sel = selection_with_anchor(1, Layer::Body, 1);

    let ext = shift_extend_selection(&cache, &sel, 1, Layer::Body, 3).unwrap();
    assert_eq!(ext.steps.len(), 1);
    assert_eq!(
        (ext.steps[0].page, ext.steps[0].lo, ext.steps[0].hi),
        (1, 1, 3)
    );
    assert_eq!(ext.anchor, Some((1, Layer::Body, 1)));

    let ext = shift_extend_selection(&cache, &sel, 1, Layer::Body, 0).unwrap();
    assert_eq!((ext.steps[0].lo, ext.steps[0].hi), (0, 1));

    let ext = shift_extend_selection(&cache, &sel, 1, Layer::Body, 1).unwrap();
    assert_eq!((ext.steps[0].lo, ext.steps[0].hi), (1, 1));
}

#[test]
fn shift_extend_cross_page_forward_and_backward_order() {
    let mut cache = HashMap::new();
    cache.insert(1, page_with_words(&["a", " ", "b", " ", "c"]));
    cache.insert(2, page_with_words(&["d", " ", "e", " ", "f", " ", "g"]));

    // 前向:锚点页 1 的 "b"(idx2) → 页 2 的 "f"(idx4)。
    let sel = selection_with_anchor(1, Layer::Body, 2);
    let ext = shift_extend_selection(&cache, &sel, 2, Layer::Body, 4).unwrap();
    assert_eq!(ext.steps.len(), 2);
    assert_eq!(
        (ext.steps[0].page, ext.steps[0].lo, ext.steps[0].hi),
        (1, 2, 4)
    );
    assert_eq!(
        (ext.steps[1].page, ext.steps[1].lo, ext.steps[1].hi),
        (2, 0, 4)
    );
    let text = copy_steps(&ext, &cache).unwrap();
    assert_eq!(text, "b c\nd e f");

    // 后向:锚点页 2 的 "e"(idx2) → 页 1 的 "c"(idx4)。
    let sel = selection_with_anchor(2, Layer::Body, 2);
    let ext = shift_extend_selection(&cache, &sel, 1, Layer::Body, 4).unwrap();
    assert_eq!(
        (ext.steps[0].page, ext.steps[0].lo, ext.steps[0].hi),
        (1, 4, 4)
    );
    assert_eq!(
        (ext.steps[1].page, ext.steps[1].lo, ext.steps[1].hi),
        (2, 0, 2)
    );
    let text = copy_steps(&ext, &cache).unwrap();
    assert_eq!(text, "c\nd e");
}

#[test]
fn shift_extend_rejects_layer_span_and_missing_pages() {
    let mut cache = HashMap::new();
    cache.insert(1, page_with_words(&["a", "b"]));
    cache.insert(2, page_with_words(&["c", "d"]));
    cache.insert(3, page_with_words(&["e", "f"]));

    let sel = selection_with_anchor(1, Layer::Body, 0);
    assert!(shift_extend_selection(&cache, &sel, 1, Layer::Small, 0).is_none());
    assert!(shift_extend_selection(&cache, &sel, 3, Layer::Body, 0).is_none());

    let sel = Selection {
        layer: Layer::Body,
        formula: false,
        formula_score: 0,
        anchor: Some((9, Layer::Body, 0)),
        steps: Vec::new(),
    };
    assert!(shift_extend_selection(&cache, &sel, 1, Layer::Body, 0).is_none());

    let sel = Selection {
        layer: Layer::Body,
        formula: false,
        formula_score: 0,
        anchor: None,
        steps: Vec::new(),
    };
    assert!(shift_extend_selection(&cache, &sel, 1, Layer::Body, 0).is_none());
}

#[test]
fn translation_input_plain_text_has_no_placeholders() {
    let flat = vec![
        fw(0, "As", 0.0, 0.0, 2.0),
        fw(0, " ", 2.0, 0.0, 2.0),
        fw(0, "shown,", 3.0, 0.0, 2.0),
        fw(1, "models", 0.0, 5.0, 2.0),
    ];
    let sel = Selection {
        layer: Layer::Body,
        formula: false,
        formula_score: 0,
        anchor: None,
        steps: vec![SelectionStep {
            page: 1,
            lo: 0,
            hi: 3,
            column_left: None,
        }],
    };
    let pages = book(vec![(1, flat)]);
    let (text, formulas) = selection_translation_input(&sel, &pages).unwrap();
    assert_eq!(text, "As shown,\nmodels");
    assert!(formulas.is_empty());
}

#[test]
fn translation_input_merges_formula_run_into_single_placeholder() {
    let flat = vec![
        fw(0, "where", 0.0, 0.0, 2.0),
        fw(0, " ", 2.0, 0.0, 2.0),
        fwf(0, "p0", 3.0, 0.0, 2.0),
        fw(0, " ", 5.0, 0.0, 2.0),
        fwf(0, "=", 6.0, 0.0, 2.0),
        fw(0, " ", 7.0, 0.0, 2.0),
        fwf(0, "plan(E,g;Θ,P);", 8.0, 0.0, 2.0),
        fw(1, "is", 0.0, 5.0, 2.0),
    ];
    let sel = Selection {
        layer: Layer::Body,
        formula: false,
        formula_score: 0,
        anchor: None,
        steps: vec![SelectionStep {
            page: 1,
            lo: 0,
            hi: 7,
            column_left: None,
        }],
    };
    let pages = book(vec![(1, flat)]);
    let (text, formulas) = selection_translation_input(&sel, &pages).unwrap();
    assert_eq!(text, "where [公式1]\nis");
    assert_eq!(formulas, vec!["p0 = plan(E,g;Θ,P);"]);
}

#[test]
fn translation_input_pure_formula_is_all_placeholders() {
    let flat = vec![
        fwf(0, "p", 0.0, 0.0, 2.0),
        fwf(0, "*", 1.0, 0.0, 2.0),
        fwf(0, "=select(...);", 2.0, 0.0, 2.0),
    ];
    let sel = Selection {
        layer: Layer::Body,
        formula: true,
        formula_score: 1_000_000,
        anchor: None,
        steps: vec![SelectionStep {
            page: 1,
            lo: 0,
            hi: 2,
            column_left: None,
        }],
    };
    let pages = book(vec![(1, flat)]);
    let (text, formulas) = selection_translation_input(&sel, &pages).unwrap();
    assert_eq!(text, "[公式1]");
    assert_eq!(formulas, vec!["p*=select(...);"]);
    assert!(!selection_has_plain_text(&sel, &pages));
}

#[test]
fn translation_has_plain_text_detects_mixed_selection() {
    let flat = vec![fw(0, "text", 0.0, 0.0, 2.0), fwf(0, "x_i", 3.0, 0.0, 2.0)];
    let sel = Selection {
        layer: Layer::Body,
        formula: false,
        formula_score: 0,
        anchor: None,
        steps: vec![SelectionStep {
            page: 1,
            lo: 0,
            hi: 1,
            column_left: None,
        }],
    };
    assert!(selection_has_plain_text(&sel, &book(vec![(1, flat)])));
}

#[test]
fn paragraph_range_stays_in_column_and_stops_at_gap() {
    let flat = vec![
        fw(0, "L1", 5.0, 10.0, 2.0),
        fw(1, "L2", 5.0, 12.5, 2.0),
        fw(2, "L3", 5.0, 20.0, 2.0),
        fw(3, "R1", 52.0, 10.0, 2.0),
        fw(4, "R2", 52.0, 12.5, 2.0),
    ];
    assert_eq!(paragraph_range(&flat, 1), (0, 1), "L1..L2 同段");
    assert_eq!(paragraph_range(&flat, 2), (2, 2), "L3 空行后另起段");
    assert_eq!(paragraph_range(&flat, 3), (3, 4), "右栏不并入左栏");
}

#[test]
fn paragraph_range_keeps_short_glyph_line_within_paragraph() {
    // “canvases.” 场景:前一行盒高 1.46、全小写行盒高 1.08,
    // 行距 2.96 与列中位行距 2.96 一致 → 同一段;
    // 段间距 4.16 超过 1.35× 行距 → 另起段。
    let flat = vec![
        fw(0, "with", 8.0, 40.0, 1.46),
        fw(0, " ", 9.0, 40.0, 1.46),
        fw(0, "connected", 10.0, 40.0, 1.46),
        fw(1, "canvases.", 8.0, 42.96, 1.08),
        fw(2, "Next", 8.0, 47.12, 1.46),
    ];
    assert_eq!(paragraph_range(&flat, 0), (0, 3), "短字形行仍属同一段");
    assert_eq!(paragraph_range(&flat, 4), (4, 4), "段间距处另起段");
}

#[test]
fn current_page_geometry_hits_viewport_center() {
    // 页高 800/800/500（page_w=1 时），页间距 28。
    let prefix = ratios(&[0.0, 800.0, 1600.0, 2100.0]);
    assert_eq!(current_page_from_prefix(&prefix, 100, 28_000, px(0.0), 400_000), 1);
    // 第 2 页顶 = 800 + 28 = 828
    assert_eq!(
        current_page_from_prefix(&prefix, 100, 28_000, px(956.0), 400_000),
        2
    );
    // 第 3 页顶 = 1600 + 56 = 1656
    assert_eq!(
        current_page_from_prefix(&prefix, 100, 28_000, px(1784.0), 400_000),
        3
    );
    // 视口中心超过最后页 → 停在末页
    assert_eq!(
        current_page_from_prefix(&prefix, 100, 28_000, px(99999.0), 400_000),
        3
    );
}

#[test]
fn spacer_heights_use_prefix_and_gaps() {
    // 每页比例 1.0，page_w=100 → 每页高 100，gap=28。
    let prefix = ratios(&[0.0, 1.0, 2.0, 3.0, 4.0, 5.0, 6.0]);
    // 窗口 3..=5：顶部 1..2 两页（100+100+28），底部仅第 6 页（100）。
    assert_eq!(spacers_px(&prefix, 3, 5), (228.0, 100.0));
    // 无顶部/无底部
    assert_eq!(spacers_px(&prefix, 1, 6), (0.0, 0.0));
    // 底部 3 页（4..6）：3*100 + 2*28 = 356
    assert_eq!(spacers_px(&prefix, 1, 3), (0.0, 356.0));
}

#[test]
fn page_ratio_is_prefix_difference() {
    let prefix = ratios(&[0.0, 0.5, 1.0, 2.2]);
    assert_eq!(ratio(&prefix, 1), 0.5);
    assert!(
        (ratio(&prefix, 3) - 1.2).abs() < 1e-9,
        "前缀差分应为 1.2"
    );
    assert_eq!(ratio(&prefix, 99), 1.0, "越界回退默认比例");
}

#[test]
fn placeholder_aspect_is_width_over_height() {
    let prefix = ratios(&[0.0, 0.5, 1.0, 2.2]);
    // h/w = 0.5 → aspect-ratio（width/height）= 2.0
    assert!((aspect(&prefix, 1) - 2.0).abs() < 1e-9);
    // h/w = 1.2 → aspect-ratio ≈ 0.8333
    assert!((aspect(&prefix, 3) - 1.0 / 1.2).abs() < 1e-9);
    assert_eq!(aspect(&prefix, 99), 1.0, "越界回退默认比例");
}

#[test]
fn window_bounds_clamp_to_document() {
    assert_eq!(window_bounds(1, 3, 15), (1, 3));
    assert_eq!(window_bounds(50, 100, 15), (35, 65));
    assert_eq!(window_bounds(100, 100, 15), (85, 100));
    assert_eq!(window_bounds(0, 0, 15), (1, 1));
}

#[test]
fn eviction_keeps_current_and_selection_pages() {
    fn page(n: u32) -> RenderedPage {
        RenderedPage {
            src: n.to_string(),
            body: Vec::new(),
            small: Vec::new(),
            w_pt: 1_000,
            h_pt: 1_000,
            warning: None,
        }
    }
    let mut cache: HashMap<u32, RenderedPage> = (1..=10).map(|p| (p, page(p))).collect();
    let selection = Selection {
        layer: Layer::Body,
        formula: false,
        formula_score: 0,
        anchor: None,
        steps: vec![SelectionStep {
            page: 2,
            lo: 0,
            hi: 0,
            column_left: None,
        }],
    };
    evict_cache_pages(&mut cache, 6, Some(&selection), 4);
    assert!(cache.contains_key(&6), "当前页保留");
    assert!(cache.contains_key(&2), "选区页保留");
    assert!(
        cache.contains_key(&5) && cache.contains_key(&7),
        "最近邻居优先"
    );
    assert_eq!(cache.len(), 4);
    assert!(
        !cache.contains_key(&1) && !cache.contains_key(&10),
        "最远页先淘汰"
    );
}

#[test]
fn copy_text_keeps_short_glyph_soft_wrap_as_space() {
    let flat = vec![
        fw(0, "connected", 8.0, 40.0, 1.46),
        fw(1, "canvases.", 8.0, 42.96, 1.08),
    ];
    assert_eq!(copy_text_filtered(&flat, 0, 1, None), "connected canvases.");
}

#[test]
fn paragraph_indent_starts_new_paragraph() {
    let flat = vec![
        fw(0, "prev.", 8.9, 20.0, 1.0),
        fw(1, "indent", 10.5, 21.5, 1.0),
    ];
    assert_eq!(paragraph_range(&flat, 0), (0, 0));
    assert_eq!(paragraph_range(&flat, 1), (1, 1));
}

#[test]
fn mid_sentence_indent_is_not_a_paragraph_boundary() {
    let flat = vec![
        fw(0, "ties", 8.9, 20.0, 1.0),
        fw(1, "The", 10.5, 21.5, 1.0),
        fw(2, "rest.", 8.9, 23.0, 1.0),
    ];
    assert_eq!(paragraph_range(&flat, 0), (0, 2), "句中续行缩进仍属同一段");
    assert_eq!(paragraph_range(&flat, 2), (0, 2));
}

#[test]
fn copy_text_skips_line_end_spaces() {
    let flat = vec![
        fw(0, "Hello", 0.0, 0.0, 1.0),
        fw(0, " ", 2.0, 0.0, 1.0),
        fw(0, "world", 3.0, 0.0, 1.0),
        fw(0, " ", 7.0, 0.0, 1.0),
        fw(1, "Next", 0.0, 5.0, 1.0),
    ];
    assert_eq!(copy_text_filtered(&flat, 0, 4, None), "Hello world\nNext");
}

#[test]
fn selection_rects_ignore_stray_spaces() {
    let flat = vec![
        fw(0, "Hello", 10.0, 10.0, 1.0),
        fw(0, " ", 70.0, 10.0, 1.0),
        fw(0, "world", 16.0, 10.0, 1.0),
    ];
    let rects = selection_rects_filtered(&flat, 0, 2, None);
    assert_eq!(rects.len(), 1);
    assert!((rects[0].left_cqw as f64 / 1e6 - 10.0).abs() < 1e-9);
    assert!((rects[0].width_cqw as f64 / 1e6 - 7.0).abs() < 1e-9);
}

#[test]
fn snap_to_word_skips_spaces() {
    let flat = vec![
        fw(0, "Hello", 0.0, 0.0, 1.0),
        fw(0, " ", 2.0, 0.0, 1.0),
        fw(0, "world", 3.0, 0.0, 1.0),
    ];
    assert_eq!(snap_to_word(&flat, 1), 0);
    assert_eq!(snap_to_word(&flat, 2), 2);
}

#[test]
fn space_words_snap_gesture_index() {
    let line = OverlayLine {
        height_cqw: cqw(1.0),
        font_size_pt: cqw(10.0),
        words: vec![
            OverlayWord {
                text: "Hello".into(),
                left_pct: cqw(0.0),
                top_cqw: cqw(0.0),
                width_cqw: cqw(1.0),
                height_cqw: cqw(1.0),
            },
            OverlayWord {
                text: " ".into(),
                left_pct: cqw(2.0),
                top_cqw: cqw(0.0),
                width_cqw: cqw(0.1),
                height_cqw: cqw(1.0),
            },
            OverlayWord {
                text: "world".into(),
                left_pct: cqw(3.0),
                top_cqw: cqw(0.0),
                width_cqw: cqw(1.0),
                height_cqw: cqw(1.0),
            },
        ],
    };
    let flat = build_flat(&[line]);
    assert_eq!(flat.len(), 3);
    assert_eq!(flat[0].gesture, 0);
    assert_eq!(flat[1].gesture, 0, "空格吸附到前一个词");
    assert_eq!(flat[2].gesture, 2);
}

#[test]
fn scan_word_boundary_respects_bracket_depth_and_semicolon() {
    let mut d = 1; // 已在括号内
    assert!(!scan_word_boundary("g;", &mut d, None), "括号内分号不打断");
    assert_eq!(d, 1);
    assert!(!scan_word_boundary("Θ,P)", &mut d, None));
    assert_eq!(d, 0);
    assert!(scan_word_boundary(";", &mut d, None), "深度 0 的分号打断");

    let mut d = 0;
    assert!(scan_word_boundary("X；", &mut d, None), "全角分号同样打断");
    assert!(scan_word_boundary("done.", &mut d, None), "句号仍打断");
    assert!(
        !scan_word_boundary("al.", &mut d, Some(",")),
        "引文里的 al. 不打断"
    );
    assert!(
        scan_word_boundary("al.", &mut d, Some("HuggingGPT")),
        "句子末尾的 et al. 打断"
    );

    let mut d = 0;
    assert!(!scan_word_boundary("word", &mut d, None));
}

#[test]
fn formula_sentence_walk_stops_at_line_semicolon() {
    let flat = vec![
        fwf(0, "p0", 51.0, 0.0, 2.0),
        fwf(0, "=", 53.0, 0.0, 2.0),
        fwf(0, "plan(E,g;Θ,P);", 55.0, 0.0, 2.0),
        fwf(1, "ri=reflect(E,g;Θ,P);", 51.0, 3.0, 2.0),
        fwf(2, "m=retrieve(E,g;M);", 51.0, 6.0, 2.0),
    ];
    let steps = formula_sentence_walk(&flat, 1, 0);
    assert_eq!(steps.len(), 1, "公式句不跨行/跨页");
    assert_eq!((steps[0].lo, steps[0].hi), (0, 2));
}

#[test]
fn formula_sentence_walk_keeps_internal_semicolon_in_formula() {
    let flat = vec![
        fwf(0, "p=", 51.0, 0.0, 2.0),
        fwf(0, "plan(E,g;", 53.0, 0.0, 2.0),
        fwf(0, "Θ,P);", 55.0, 0.0, 2.0),
    ];
    let steps = formula_sentence_walk(&flat, 1, 0);
    assert_eq!(steps.len(), 1);
    assert_eq!((steps[0].lo, steps[0].hi), (0, 2), "整条公式一次选中");
}

#[test]
fn formula_block_range_selects_fragments_within_row_band() {
    let flat = vec![
        fwf(0, "p", 51.0, 0.0, 1.5),
        fwf(1, "∗", 53.0, 0.2, 1.5),
        fwf(2, "=select(E,g,P;Θ,F).", 51.0, 1.8, 2.0),
        fwf(3, "ri=reflect(E,g,π;Θ,P);", 51.0, 6.0, 2.0),
    ];
    let (lo, hi) = formula_block_range(&flat, 1);
    assert_eq!((lo, hi), (0, 2), "同一行带的碎片整组选中,不跨表格行");
}

#[test]
fn formula_block_range_covers_lines_outside_flat_order() {
    // top 顺序与 flat 顺序不同(碎片行交叠),选区必须覆盖整组行
    let flat = vec![
        fwf(0, "p", 51.0, 71.45, 1.0),
        fwf(1, "i", 51.0, 70.75, 0.7),
        fwf(2, "=", 51.0, 71.55, 0.5),
        fwf(3, "sub-plan", 51.0, 70.75, 1.5),
    ];
    let (lo, hi) = formula_block_range(&flat, 0);
    assert_eq!((lo, hi), (0, 3), "整条公式(含内容顺序靠后的行)全部选中");
}

#[test]
fn line_columns_use_adjacent_gap_not_cumulative_drift() {
    let flat = vec![
        fw(0, "a", 51.0, 0.0, 2.0),
        fw(1, "b", 52.9, 3.0, 2.0),
        fw(2, "c", 54.7, 6.0, 2.0),
    ];
    let (col_of, _) = line_columns(&flat);
    assert_eq!(
        col_of.get(&0),
        col_of.get(&2),
        "相邻间距 <2cqw 的行属于同一列(公式对齐右移不拆列)"
    );
}

#[test]
fn calibrated_column_gap_splits_tight_columns() {
    let flat = vec![
        fw(0, "a", 10.0, 0.0, 2.0),
        fw(1, "b", 11.5, 3.0, 2.0),
        fw(2, "c", 13.0, 6.0, 2.0),
    ];
    let (col_of_default, _) = line_columns(&flat);
    assert_eq!(
        col_of_default.get(&0),
        col_of_default.get(&2),
        "默认列间距 2.0 会把 1.5cqw 的两栏合并"
    );
    let (col_of_cal, _) = line_columns_with(&flat, cqw(1.0));
    assert_ne!(
        col_of_cal.get(&0),
        col_of_cal.get(&2),
        "校准列间距 1.0 时应分成两栏"
    );
}

#[test]
fn calibrated_small_font_ratio_keeps_mid_size_lines_in_body() {
    let overlay = vec![
        overlay_line(vec![("Hello".into(), 10.0, 0.0, 20.0, 2.0)]),
        overlay_line(vec![("World".into(), 10.0, 3.0, 20.0, 2.0)]),
        overlay_line(vec![("More".into(), 10.0, 6.0, 20.0, 2.0)]),
        overlay_line(vec![("Text".into(), 10.0, 9.0, 20.0, 2.0)]),
        overlay_line_with_font(vec![("note".into(), 10.0, 12.0, 20.0, 2.0)], 8.0),
    ];
    let (_, small_default) = classify_words(&overlay);
    assert!(
        small_default.iter().any(|w| w.text == "note"),
        "默认小字比例 0.91 把 0.8×中位字号判为小字"
    );
    let cal = DocCalibration {
        small_height_ratio: 750_000,
        ..Default::default()
    };
    let (body_cal, small_cal) = classify_words_with(&overlay, cal);
    assert!(body_cal.iter().any(|w| w.text == "note"));
    assert!(!small_cal.iter().any(|w| w.text == "note"));
}

#[test]
fn classify_keeps_x_height_body_line_in_body_when_font_matches() {
    // “canvases.” 这类全小写行:字形包围盒偏矮(1.0 vs 2.0),
    // 但真实字号与正文相同(10pt),应留在正文层;真正的小字(8pt)才进小字层。
    let overlay = vec![
        overlay_line(vec![("Hello".into(), 10.0, 0.0, 20.0, 2.0)]),
        overlay_line(vec![("World".into(), 10.0, 3.0, 20.0, 2.0)]),
        overlay_line(vec![("More".into(), 10.0, 6.0, 20.0, 2.0)]),
        overlay_line(vec![("Text".into(), 10.0, 9.0, 20.0, 2.0)]),
        overlay_line_with_font(vec![("canvases.".into(), 10.0, 12.0, 20.0, 1.0)], 10.0),
        overlay_line_with_font(vec![("footnote".into(), 10.0, 15.0, 20.0, 2.0)], 8.0),
    ];
    let (body, small) = classify_words(&overlay);
    assert!(
        body.iter().any(|w| w.text == "canvases."),
        "同字号全小写行不应进小字层"
    );
    assert!(!small.iter().any(|w| w.text == "canvases."));
    assert!(
        small.iter().any(|w| w.text == "footnote"),
        "真小字仍应进小字层"
    );
}

#[test]
fn classify_falls_back_to_height_when_font_missing() {
    // 字号信息缺失(0)时退回旧的行高比例判定,保证退化页面仍能区分小字。
    let overlay = vec![
        overlay_line_with_font(vec![("Hello".into(), 10.0, 0.0, 20.0, 2.0)], 0.0),
        overlay_line_with_font(vec![("World".into(), 10.0, 3.0, 20.0, 2.0)], 0.0),
        overlay_line_with_font(vec![("More".into(), 10.0, 6.0, 20.0, 2.0)], 0.0),
        overlay_line_with_font(vec![("Text".into(), 10.0, 9.0, 20.0, 2.0)], 0.0),
        overlay_line_with_font(vec![("note".into(), 10.0, 12.0, 20.0, 1.6)], 0.0),
    ];
    let (_, small_default) = classify_words(&overlay);
    assert!(
        small_default.iter().any(|w| w.text == "note"),
        "字号缺失时应按行高比例(0.8×)判为小字"
    );
    let cal = DocCalibration {
        small_height_ratio: 750_000,
        ..Default::default()
    };
    let (body_cal, small_cal) = classify_words_with(&overlay, cal);
    assert!(body_cal.iter().any(|w| w.text == "note"));
    assert!(!small_cal.iter().any(|w| w.text == "note"));
}

#[test]
fn calibrated_vertical_gap_ratio_merges_formula_rows() {
    let flat = vec![
        fwf(0, "p=", 51.0, 0.0, 2.0),
        fwf(1, "plan(E,g;Θ,P);", 51.0, 3.6, 2.0),
    ];
    let (lo_default, hi_default) = formula_block_range(&flat, 0);
    assert_eq!((lo_default, hi_default), (0, 0), "默认 0.6 比例会断块");
    let cal = DocCalibration {
        vertical_gap_ratio: 900_000,
        ..Default::default()
    };
    let (lo_cal, hi_cal) = formula_block_range_with(&flat, 0, cal);
    assert_eq!((lo_cal, hi_cal), (0, 1), "校准 0.9 比例保持同行");
}

#[test]
fn calibrated_paragraph_indent_splits_small_indent() {
    let flat = vec![fw(0, "prev.", 8.0, 0.0, 2.0), fw(1, "next", 8.8, 3.0, 2.0)];
    let (lo_default, hi_default) = paragraph_range(&flat, 1);
    assert_eq!((lo_default, hi_default), (0, 1), "默认缩进 1.0 会合并");
    let cal = DocCalibration {
        paragraph_indent_cqw: cqw(0.5),
        ..Default::default()
    };
    let (lo_cal, hi_cal) = paragraph_range_with(&flat, 1, cal);
    assert_eq!((lo_cal, hi_cal), (1, 1), "校准缩进 0.5 识别为新段落");
}

#[test]
fn formula_block_crosses_to_next_page_same_column() {
    let page0 = vec![
        fwf(0, "p=plan(E,g;Θ,P);", 51.0, 0.0, 2.0),
        fwf(1, "ri=reflect(E,g;Θ,P);", 51.0, 3.0, 2.0),
    ];
    let page1 = vec![fwf(0, "m=retrieve(E,g;M);", 51.0, 0.0, 2.0)];
    let steps = paragraph_walk(&page0, 0, None, Some(&page1), 0);
    assert_eq!(steps.len(), 2, "公式块按同列跨页续接");
    assert_eq!(steps[0].page, 0);
    assert_eq!(steps[1].page, 1);
    assert_eq!(steps[1].hi, 0);
}

#[test]
fn formula_block_does_not_cross_when_next_page_starts_with_body() {
    let page0 = vec![
        fwf(0, "p=plan(E,g;Θ,P);", 51.0, 0.0, 2.0),
        fwf(1, "ri=reflect(E,g;Θ,P);", 51.0, 3.0, 2.0),
    ];
    let page1 = vec![fw(0, "Body text", 51.0, 0.0, 2.0)];
    let steps = paragraph_walk(&page0, 0, None, Some(&page1), 0);
    assert_eq!(steps.len(), 1, "下一页首行不是公式则不跨页");
}

#[test]
fn classify_words_keeps_formula_fragments_and_vertical_text() {
    let overlay = vec![
        overlay_line(vec![("a".into(), 3.0, 0.0, 0.4, 2.0)]),
        overlay_line(vec![("r".into(), 3.0, 5.0, 0.4, 2.0)]),
        overlay_line(vec![("X".into(), 3.0, 10.0, 0.4, 2.0)]),
        overlay_line(vec![("Hello".into(), 10.0, 0.0, 30.0, 2.0)]),
        overlay_line(vec![("World".into(), 10.0, 3.0, 30.0, 2.0)]),
        overlay_line(vec![("More".into(), 10.0, 6.0, 30.0, 2.0)]),
        overlay_line(vec![("Text".into(), 10.0, 9.0, 30.0, 2.0)]),
        overlay_line(vec![("p".into(), 51.0, 0.0, 0.5, 1.5)]),
        overlay_line(vec![("∗".into(), 53.0, 0.2, 0.5, 1.5)]),
        overlay_line(vec![("=plan(E,g;Θ,P);".into(), 51.0, 1.8, 10.0, 2.0)]),
        overlay_line(vec![("ri=reflect(E,g;Θ,P);".into(), 51.0, 4.5, 10.0, 2.0)]),
    ];
    let (body, small) = classify_words(&overlay);
    let small_texts: Vec<&str> = small.iter().map(|w| w.text.as_str()).collect();
    assert_eq!(small_texts, vec!["a", "r", "X"], "竖排列进小字层");
    let body_formula: Vec<&str> = body
        .iter()
        .filter(|w| w.formula)
        .map(|w| w.text.as_str())
        .collect();
    assert_eq!(
        body_formula,
        vec!["p", "∗", "=plan(E,g;Θ,P);", "ri=reflect(E,g;Θ,P);"],
        "公式碎片留在正文层并标记为公式"
    );
    assert!(
        body.iter()
            .filter(|w| w.formula)
            .all(|w| w.formula_score >= FORMULA_SCORE_THRESHOLD),
        "公式词置信度应不低于阈值"
    );
    assert!(
        body.iter()
            .filter(|w| !w.formula)
            .all(|w| w.formula_score < FORMULA_SCORE_THRESHOLD),
        "正文词置信度应低于阈值"
    );
}

#[test]
fn formula_score_uses_isolation_and_centering_for_display_formula() {
    // 同一正文列里:普通句子 vs 被空行隔开、略缩进的独立公式行。
    let overlay = vec![
        overlay_line(vec![
            ("if".into(), 10.0, 0.0, 3.0, 2.0),
            ("x".into(), 14.0, 0.0, 1.0, 2.0),
            (">".into(), 16.0, 0.0, 1.0, 2.0),
            ("0".into(), 18.0, 0.0, 1.0, 2.0),
            ("and".into(), 21.0, 0.0, 3.0, 2.0),
            ("y".into(), 26.0, 0.0, 1.0, 2.0),
            ("<".into(), 28.0, 0.0, 1.0, 2.0),
            ("1".into(), 30.0, 0.0, 1.0, 2.0),
        ]),
        overlay_line(vec![
            ("p0".into(), 12.0, 12.0, 2.0, 2.0),
            ("=".into(), 15.0, 12.0, 1.0, 2.0),
            ("plan(E,g;Θ,P);".into(), 17.0, 12.0, 15.0, 2.0),
        ]),
        overlay_line(vec![
            ("as".into(), 10.0, 22.0, 3.0, 2.0),
            ("required.".into(), 14.0, 22.0, 8.0, 2.0),
        ]),
    ];
    let (body, _) = classify_words(&overlay);
    let formula_words: Vec<&str> = body
        .iter()
        .filter(|w| w.formula)
        .map(|w| w.text.as_str())
        .collect();
    let text_words: Vec<&str> = body
        .iter()
        .filter(|w| !w.formula)
        .map(|w| w.text.as_str())
        .collect();
    assert_eq!(
        formula_words,
        vec!["p0", "=", "plan(E,g;Θ,P);"],
        "独立公式行由上下文置信度识别为公式"
    );
    assert_eq!(
        text_words,
        vec!["if", "x", ">", "0", "and", "y", "<", "1", "as", "required."]
    );
    assert!(
        body.iter()
            .filter(|w| w.formula)
            .all(|w| w.formula_score >= FORMULA_SCORE_THRESHOLD)
    );
    assert!(
        body.iter()
            .filter(|w| !w.formula)
            .all(|w| w.formula_score < FORMULA_SCORE_THRESHOLD)
    );
}

#[test]
fn selection_bbox_and_cache_key_are_stable() {
    let flat = vec![fw(0, "p=", 10.0, 5.0, 2.0), fw(0, "x", 13.0, 5.0, 2.0)];
    let step = SelectionStep {
        page: 1,
        lo: 0,
        hi: 1,
        column_left: Some(cqw(10.0)),
    };
    let bbox = selection_bbox_px(&flat, &step, 612_000);
    let key = formula_copy_key("book-1", 1, bbox);
    assert_eq!(key, formula_copy_key("book-1", 1, bbox));
    assert_ne!(key, formula_copy_key("book-2", 1, bbox));
    assert!(bbox.2 >= 1 && bbox.3 >= 1);
}
