use std::collections::HashMap;
use ueberneon::action_bar::{
    card_place, failure_text, formula_label, join_lines, source_highlighted, status_class, stream_display,
    translated_highlighted, Alignment, Hover, TranslationOutcome,
};
use ueberneon::copying::RenderedPage;
use ueberneon::error::{banner_class, banner_label, ErrorInfo, ErrorSeverity, ErrorSignal, ErrorSource};
use ueberneon::formula_copy::{copy_feedback, insert_formulas, selection_formula_regions, FormulaCopy};
use ueberneon::formula_image::{crop_area, formula_canvas, FormulaCanvas};
use ueberneon::gestures::ClickState;
use ueberneon::page_cache::evict_cache_pages;
use ueberneon::page_geometry::{page_width, window_bounds, zoom_in, zoom_out};
use ueberneon::page_text::{DocCalibration, FlatWord, Layer, OverlayLine, OverlayWord};
use ueberneon::page_view::{
    image_uri, page_double_click, page_key, page_overlay, page_rects, push_length, rect_style, word_class,
    word_double_click, word_press, word_style, DoubleClick, PageKey, PageTextSource, WordPress,
};
use ueberneon::paragraph_walk::paragraph_walk;
use ueberneon::quotes::{find_quote_selection, find_quoted_words, normalize_quote};
use ueberneon::rects::formula_copy_key;
use ueberneon::render_queue::{
    loading_done, open_failed, parse_failed, render_failed, start_page, Acceptance, PrefetchStep,
};
use ueberneon::search::{search_book_pages, search_query, PageFile, SearchState};
use ueberneon::selection::{Selection, SelectionStep};
use ueberneon::sentence::sentence_walk;
use ueberneon::translation_run::{TranslationRun, TranslationStep};
use ueberneon::session::{ActionBarStatus, CopyRequest, ReaderSession, SingleSlotCache};
use ueberneon::sorting::{lower_median_of, median_of};
use ueberneon::text::{
    first_visible_char, is_blank, is_whitespace, last_visible_char, lines_of, parse_number, push_decimal, push_signed,
    replace_all, trim,
};

fn cqw(x: f64) -> i64 {
    (x * 1e6).round() as i64
}

fn word(line: usize, s: &str, left: f64, top: f64) -> FlatWord {
    FlatWord {
        line,
        text: s.to_string(),
        left_cqw: cqw(left),
        top_cqw: cqw(top),
        width_cqw: cqw(1.0),
        height_cqw: cqw(1.0),
        line_height_cqw: cqw(1.0),
        formula: false,
        formula_score: 0,
        gesture: 0,
    }
}

fn formula_word(line: usize, s: &str, left: f64, top: f64) -> FlatWord {
    FlatWord { formula: true, formula_score: 900_000, ..word(line, s, left, top) }
}

fn rendered(body: Vec<FlatWord>, warning: Option<&str>) -> RenderedPage {
    RenderedPage {
        src: String::new(),
        body,
        small: Vec::new(),
        w_pt: 600_000,
        h_pt: 800_000,
        warning: warning.map(|w| w.to_string()),
    }
}

fn words(texts: &[&str]) -> Vec<FlatWord> {
    texts.iter().enumerate().map(|(i, t)| word(0, t, i as f64 * 2.0, 0.0)).collect()
}

fn session(body: Vec<FlatWord>) -> ReaderSession {
    let prefix = (0..=10).map(|i| i * 1_000_000).collect();
    let (s, message) = ReaderSession::open(
        "book".to_string(),
        "Book".to_string(),
        10,
        DocCalibration::default(),
        prefix,
        2,
        rendered(body, None),
        5,
    );
    assert!(message.is_none());
    s
}

fn selected(s: &ReaderSession) -> (usize, usize) {
    let step = s.selection.as_ref().unwrap().steps[0];
    (step.lo, step.hi)
}

// ── text ──

#[test]
fn white_space_is_what_unicode_says() {
    for n in 0..=0x10FFFFu32 {
        if let Some(c) = char::from_u32(n) {
            assert_eq!(is_whitespace(c), c.is_whitespace(), "{n:x}");
        }
    }
}

#[test]
fn texts_are_trimmed_and_split() {
    for s in ["", " ", "\u{3000}a b\u{a0}", "x", "\n\ta\r\n"] {
        assert_eq!(trim(s), s.trim());
        assert_eq!(is_blank(s), s.trim().is_empty());
        assert_eq!(first_visible_char(s), s.trim().chars().next());
        assert_eq!(last_visible_char(s), s.trim().chars().last());
    }
    for s in ["", "a", "a\n", "a\r\nb\n\nc\r", "\n"] {
        let want: Vec<String> = s.lines().map(|l| l.to_string()).collect();
        assert_eq!(lines_of(s), want);
    }
    assert_eq!(replace_all("aXbXX", "X", "--"), "aXbXX".replace("X", "--"));
    assert_eq!(replace_all("aaa", "aa", "b"), "aaa".replace("aa", "b"));
}

#[test]
fn numbers_are_written_and_read() {
    for n in [0u64, 9, 10, 4711, u64::MAX] {
        let mut s = String::new();
        push_decimal(&mut s, n);
        assert_eq!(s, n.to_string());
        assert_eq!(parse_number(&s, u64::MAX), Some(n));
    }
    for n in [0i64, -1, i64::MIN, i64::MAX] {
        let mut s = String::new();
        push_signed(&mut s, n);
        assert_eq!(s, n.to_string());
    }
    for s in ["", "+", "+7", "-7", "7a", "007", "4294967296"] {
        assert_eq!(parse_number(s, u32::MAX as u64), s.parse::<u32>().ok().map(|n| n as u64), "{s}");
    }
}

#[test]
fn medians_are_values() {
    assert_eq!(median_of(&vec![3, 1, 2, 9]), 3);
    assert_eq!(lower_median_of(&vec![3, 1, 2, 9]), 2);
    assert_eq!(median_of(&Vec::new()), 0);
}

// ── errors ──

#[test]
fn errors_show_where_they_belong() {
    let mut s = ErrorSignal::new();
    let make = |severity| ErrorInfo::new("c", "t", "m", severity, ErrorSource::General);
    s.push(make(ErrorSeverity::Fatal));
    s.push(make(ErrorSeverity::Warning));
    s.push(make(ErrorSeverity::Info));
    s.push(make(ErrorSeverity::Info));
    assert!(s.modal.is_some() && s.banner.is_some());
    assert_eq!(s.toasts.len(), 2);
    s.dismiss_toast(9);
    assert_eq!(s.toasts.len(), 2);
    s.dismiss_toast(1);
    assert_eq!(s.toasts.len(), 1);
    s.dismiss_modal();
    s.dismiss_banner();
    assert!(s.modal.is_none() && s.banner.is_none());
    let e = make(ErrorSeverity::Info).with_detail("why");
    assert_eq!(e.detail.as_deref(), Some("why"));
    assert_eq!(e.timestamp.len(), 8);
    assert!(e.timestamp.chars().enumerate().all(|(i, c)| if i % 3 == 2 { c == ':' } else { c.is_ascii_digit() }));
    assert_eq!(banner_label(ErrorSeverity::Fatal), "ERROR");
    assert_eq!(banner_class(ErrorSeverity::Warning), "error-banner error-banner--warn");
    assert_eq!(banner_class(ErrorSeverity::Info), "error-banner");
}

// ── gestures ──

#[test]
fn a_drag_selects_from_its_start() {
    let mut s = session(words(&["a", " ", "b", "c"]));
    s.start_drag(2, Layer::Body, 2);
    s.extend_drag(2, Layer::Body, 3);
    assert_eq!(selected(&s), (2, 3));
    s.extend_drag(2, Layer::Body, 0);
    assert_eq!(selected(&s), (0, 2));
    s.extend_drag(2, Layer::Small, 0);
    assert_eq!(selected(&s), (0, 2));
    s.end_drag();
    assert!(!s.dragging);
    s.begin_shift_extend(2, Layer::Body, 3);
    assert!(s.selection.is_some());
    assert!(!s.press_blank(true));
    assert!(s.press_blank(false));
    assert!(s.selection.is_none());
}

#[test]
fn clicks_select_words_sentences_and_paragraphs() {
    let mut s = session(words(&["One", " ", "two.", " ", "Three."]));
    s.select_word(2, Layer::Body, 1);
    assert_eq!(selected(&s), (0, 0));
    s.select_sentence(2, Layer::Body, 2);
    assert_eq!(selected(&s), (0, 2));
    s.select_paragraph(2, Layer::Body, 0);
    assert_eq!(selected(&s), (0, 4));
    assert_eq!(s.selected_text().as_deref(), Some("One two. Three."));
}

#[test]
fn the_third_click_selects_a_sentence() {
    let mut c = ClickState::new(0);
    assert!(!c.click(1, Layer::Body, 4, 100));
    assert!(!c.click(1, Layer::Body, 4, 400));
    assert!(c.click(1, Layer::Body, 4, 750));
    assert_eq!(c.pending_word(1), None);
    assert!(!c.click(1, Layer::Body, 4, 800));
    assert!(!c.click(1, Layer::Body, 4, 1_151));
    assert_eq!(c.count, 1);
    assert_eq!(c.pending_word(1), Some((Layer::Body, 4)));
    assert_eq!(page_double_click(&c, 1, false), DoubleClick::Word(Layer::Body, 4));
    assert_eq!(page_double_click(&c, 1, true), DoubleClick::Paragraph(Layer::Body, 4));
    assert_eq!(page_double_click(&c, 2, false), DoubleClick::Nothing);
    c.forget(1, 2_000);
    assert_eq!(page_double_click(&c, 1, false), DoubleClick::Nothing);
}

#[test]
fn buttons_and_keys_do_what_they_say() {
    assert_eq!(word_press(true, true), WordPress::Nothing);
    assert_eq!(word_press(false, true), WordPress::ExtendSelection);
    assert_eq!(word_press(false, false), WordPress::StartDrag);
    assert_eq!(word_double_click(Layer::Small, 3, false, true), DoubleClick::Nothing);
    assert_eq!(word_double_click(Layer::Small, 3, true, false), DoubleClick::Paragraph(Layer::Small, 3));
    assert_eq!(word_double_click(Layer::Small, 3, false, false), DoubleClick::Word(Layer::Small, 3));
    assert_eq!(page_key(true, true, true), PageKey::CloseBar);
    assert_eq!(page_key(false, true, true), PageKey::CopyText);
    assert_eq!(page_key(false, false, true), PageKey::Nothing);
    let mut s = session(words(&["a"]));
    assert!(s.context_selects_word());
    s.select_word(2, Layer::Body, 0);
    assert!(!s.context_selects_word());
}

// ── the page ──

#[test]
fn lengths_have_three_digits() {
    for (x, want) in [
        (0i128, "0.000"),
        (1_234_567, "1.235"),
        (-1_500, "-0.002"),
        (500, "0.000"),
        (1_500, "0.002"),
        (2_500, "0.002"),
        (-1, "-0.000"),
        (12_000_000, "12.000"),
    ] {
        let mut s = String::new();
        push_length(&mut s, x);
        assert_eq!(s, want);
    }
    let w = word(0, "x", 1.25, 2.5);
    assert_eq!(
        word_style(&w),
        "left: 1.250%; top: 2.500cqw; width: 1.000cqw; height: 1.000cqw; font-size: 12px; font-size: 1.000cqw; line-height: 12px; line-height: 1.000cqw"
    );
    assert_eq!(word_class(&w), "reader-overlay-word");
    assert_eq!(word_class(&word(0, " ", 0.0, 0.0)), "reader-overlay-word space-word");
}

#[test]
fn the_selection_is_drawn_on_its_page_and_layer() {
    let flat = words(&["a", "b", "c"]);
    let mut s = session(words(&["a", "b", "c"]));
    s.start_drag(2, Layer::Body, 0);
    s.extend_drag(2, Layer::Body, 1);
    let gap = s.cal.column_gap_cqw;
    let r = page_rects(&s.selection, 2, Layer::Body, &flat, gap);
    assert_eq!(r.len(), 1);
    assert_eq!(rect_style(&r[0]), "left: 0.000%; top: 0.000cqw; width: 3.000cqw; height: 1.000cqw");
    assert!(page_rects(&s.selection, 3, Layer::Body, &flat, gap).is_empty());
    assert!(page_rects(&s.selection, 2, Layer::Small, &flat, gap).is_empty());
    assert!(page_rects(&s.selection, 2, Layer::Body, &[], gap).is_empty());
    assert!(page_rects(&None, 2, Layer::Body, &flat, gap).is_empty());
    assert_eq!(page_rects(&s.selection, 2, Layer::Body, &flat[..1], gap).len(), 1);
}

#[test]
fn the_text_of_a_page_comes_from_the_page_or_its_image() {
    let line = || OverlayLine {
        words: vec![OverlayWord {
            text: "word".to_string(),
            left_pct: cqw(5.0),
            top_cqw: cqw(5.0),
            width_cqw: cqw(3.0),
            height_cqw: cqw(1.0),
        }],
        height_cqw: cqw(1.0),
        font_size_pt: 0,
    };
    let cal = DocCalibration::default();
    let (body, small, warning) = page_overlay(&PageTextSource::Recognised(vec![line()]), cal);
    assert_eq!((body.len(), small.len(), warning), (1, 0, None));
    let (body, small, warning) = page_overlay(&PageTextSource::Text(vec![line()]), cal);
    assert_eq!((body.len() + small.len(), warning), (1, None));
    let (body, _, warning) = page_overlay(&PageTextSource::NotConfigured, cal);
    assert!(body.is_empty() && warning.unwrap().starts_with("未配置页面 OCR 模型"));
    let (_, _, warning) = page_overlay(&PageTextSource::Failed("x".to_string()), cal);
    assert_eq!(warning.as_deref(), Some("页面 OCR 失败:x"));
}

#[test]
fn images_hold_their_bytes() {
    assert_eq!(image_uri(&vec![0x89, 0x50, 0x4e]), "data:image/png;base64,iVBO");
}

// ── the queue ──

#[test]
fn late_pages_are_dropped() {
    let mut s = session(Vec::new());
    assert_eq!(s.render_epoch, 0);
    assert!(s.still_wanted(2, 0));
    assert_eq!(s.schedule_render(2, Some(2)), Some(2));
    assert_eq!(s.schedule_render(7, Some(2)), None);
    assert!(!s.still_wanted(2, 0));
    assert!(s.has_new_work(2, 0));
    assert!(!s.is_useful(2, 2, 0));
    assert!(s.is_useful(8, 2, 0));
    assert!(matches!(s.accept_page(2, 2, 0, rendered(Vec::new(), None)), Acceptance::Dropped));
    assert!(matches!(s.accept_page(8, 2, 0, rendered(Vec::new(), None)), Acceptance::Kept(None)));
    assert!(matches!(s.accept_page(7, 7, 1, rendered(Vec::new(), Some("w"))), Acceptance::Kept(Some(_))));
    assert!(matches!(s.accept_page(7, 7, 1, rendered(Vec::new(), Some("w"))), Acceptance::Kept(None)));
    assert_eq!(s.prefetch_step(7, 1, false), PrefetchStep::Skip);
    assert_eq!(s.prefetch_step(7, 1, true), PrefetchStep::Render(6));
    assert_eq!(s.prefetch_step(1, 1, true), PrefetchStep::Stop);
}

#[test]
fn a_jump_stays_within_the_book() {
    let mut s = session(Vec::new());
    let (target, loading, ratio, gaps) = s.request_jump(99, 1_000);
    assert_eq!((target, loading, ratio, gaps), (10, Some(10), 9_000_000, 9 * 28_000));
    assert_eq!(s.jump_lock_until, 1_800);
    let r = s.scrolled(10, 800, 0, 800, 600, 100, 1_500);
    assert_eq!(r.new_page, None);
    let r = s.scrolled(10, 800, 0, 800, 600, 100, 2_000);
    assert_eq!(r.new_page, Some(1));
    let r = s.scrolled(10, 700, 0, 800, 600, 100, 2_000);
    assert_eq!((r.new_page, r.last_width), (None, 800));
    assert_eq!(s.request_jump(2, 0).1, None);
}

#[test]
fn a_book_opens_where_it_was_left() {
    assert_eq!(start_page(Some(4), None, 10), 4);
    assert_eq!(start_page(Some(4), Some(7), 10), 7);
    assert_eq!(start_page(None, Some(70), 10), 10);
    assert_eq!(start_page(Some(0), None, 10), 1);
    assert_eq!(loading_done(Some(3), 3), None);
    assert_eq!(loading_done(Some(3), 4), Some(3));
    assert_eq!(render_failed("x").code, "reader-render-failed");
    assert_eq!(open_failed("x").title, "打开 PDF 失败");
    assert_eq!(parse_failed("x").code, "reader-parse-failed");
    let (s, message) = ReaderSession::open(
        "b".to_string(),
        "B".to_string(),
        1,
        DocCalibration::default(),
        vec![0, 1],
        1,
        rendered(Vec::new(), Some("w")),
        0,
    );
    assert!(s.ocr_warning_shown);
    assert_eq!(message.unwrap().message, "w");
}

#[test]
fn a_page_can_be_recognised_anew() {
    let mut s = session(Vec::new());
    let (loading, message) = s.page_recognised(2, Ok(true));
    assert_eq!(loading, Some(2));
    assert!(message.is_none());
    assert!(!s.cache.contains_key(&2));
    let (_, message) = s.page_recognised(2, Ok(false));
    assert_eq!(message.unwrap().title, "未配置页面 OCR 模型");
    let (loading, message) = s.page_recognised(2, Err("boom".to_string()));
    assert_eq!(loading, None);
    assert_eq!(message.unwrap().message, "boom");
    s.render_again(3);
    assert_eq!(s.render_target, Some(3));
}

#[test]
fn eviction_brings_the_cache_down_to_its_limit() {
    let mut cache: HashMap<u32, RenderedPage> = HashMap::new();
    for p in 1..=9 {
        cache.insert(p, rendered(Vec::new(), None));
    }
    let sel = Selection {
        layer: Layer::Body,
        steps: vec![SelectionStep { page: 9, lo: 0, hi: 0, column_left: None }],
        formula: false,
        formula_score: 0,
        anchor: None,
    };
    evict_cache_pages(&mut cache, 4, Some(&sel), 5);
    let mut left: Vec<u32> = cache.keys().copied().collect();
    left.sort();
    assert_eq!(left, vec![2, 3, 4, 5, 9]);
}

#[test]
fn zoom_stays_within_its_limits() {
    assert_eq!(zoom_in(100), 125);
    assert_eq!(zoom_in(400), 400);
    assert_eq!(zoom_out(100), 75);
    assert_eq!(zoom_out(50), 50);
    assert_eq!(zoom_out(zoom_in(110)), 110);
    assert_eq!(zoom_in(zoom_out(400)), 400);
    assert_eq!(window_bounds(5, 100, 15), (1, 20));
    assert_eq!(page_width(848, 50, 200), 40_000);
    assert_eq!(page_width(10, 100, 200), 20_000);
    assert_eq!(page_width(i32::MAX, u32::MAX, 1), 2_147_483_599 * 4_294_967_295);
}

// ── the bar and the card ──

#[test]
fn the_bar_opens_on_a_selection() {
    let mut s = session(vec![formula_word(0, "x", 0.0, 0.0)]);
    s.open_action_bar(1, 2, true, true);
    assert!(s.action_bar.is_none());
    s.select_word(2, Layer::Body, 0);
    s.open_action_bar(1, 2, true, true);
    let bar = s.action_bar.unwrap();
    assert!(bar.show_formula);
    assert!(!bar.translation_enabled && !bar.explain_enabled);
    assert_eq!(bar.generation, 1);
    s.close_action_bar();
    assert!(s.action_bar.is_none());
    let mut s = session(words(&["plain"]));
    s.select_word(2, Layer::Body, 0);
    s.open_action_bar(1, 2, true, false);
    let bar = s.action_bar.unwrap();
    assert!(bar.translation_enabled && !bar.explain_enabled && !bar.show_formula);
    let (text, formulas) = s.translation_request().unwrap();
    assert_eq!(text, "plain");
    assert!(formulas.is_empty());
    s.scroll_action_bar();
    assert!(s.action_bar.is_none());
}

#[test]
fn only_the_last_translation_is_shown() {
    let mut s = session(words(&["plain"]));
    s.select_word(2, Layer::Body, 0);
    let first = s.start_translation(10, 20, "plain".to_string());
    let second = s.start_translation(10, 20, "plain".to_string());
    s.set_card_text(first, "old".to_string());
    assert_eq!(s.translation.as_ref().unwrap().text, "");
    s.set_card_text(second, "new".to_string());
    assert_eq!(s.translation.as_ref().unwrap().text, "new");
    s.finish_translation(first, TranslationOutcome::Failed("late".to_string()));
    assert_eq!(s.translation.as_ref().unwrap().status, ActionBarStatus::Loading);
    s.finish_translation(
        second,
        TranslationOutcome::Done(
            "done".to_string(),
            Alignment {
                source_text: "plain".to_string(),
                source_sentences: vec!["plain".to_string()],
                translated_sentences: vec!["done".to_string()],
                groups: vec![(0, 0)],
            },
        ),
    );
    assert_eq!(s.translation.as_ref().unwrap().status, ActionBarStatus::Success);
    s.scroll_action_bar();
    assert!(s.translation.is_some());
    s.drag_card((10, 20), (0, 0), (-50, 5));
    let card = s.translation.as_ref().unwrap();
    assert_eq!((card.x, card.y), (0, 25));
    let (text, _, x, y) = s.retry_request().unwrap();
    assert_eq!((text.as_str(), x, y), ("plain", 0, 25));
    s.finish_translation(second, TranslationOutcome::Failed("bad".to_string()));
    assert_eq!(s.translation.as_ref().unwrap().status, ActionBarStatus::Error);
}

#[test]
fn the_card_shows_what_came_in() {
    let parts = vec!["a".to_string(), "b".to_string()];
    assert_eq!(join_lines(&parts), "a\nb");
    assert_eq!(stream_display(&parts, "c"), "a\nb\nc");
    assert_eq!(stream_display(&Vec::new(), "c"), "c");
    assert_eq!(failure_text(&parts, "e"), "a\nb\n\ne");
    assert_eq!(failure_text(&Vec::new(), "e"), "e");
    assert_eq!(card_place(1_000_000, 500_000), (140_000, 100_000));
    assert_eq!(card_place(0, 0), (0, 0));
    let groups = vec![(0, 1), (2, 2)];
    assert!(translated_highlighted(Some(Hover::Source(0)), &groups, 1));
    assert!(!translated_highlighted(Some(Hover::Source(0)), &groups, 2));
    assert!(translated_highlighted(Some(Hover::Translated(2)), &groups, 2));
    assert!(source_highlighted(Some(Hover::Translated(2)), Some(1), 1));
    assert!(!source_highlighted(None, Some(1), 1));
    assert_eq!(formula_label(ActionBarStatus::Idle), "精确复制公式");
    assert_eq!(status_class(ActionBarStatus::Error), "is-error");
}

// ── formulas ──

#[test]
fn a_formula_is_recognised_once() {
    let mut s = session(vec![formula_word(0, "x", 0.0, 0.0)]);
    assert!(matches!(s.formula_copy_action(), FormulaCopy::Nothing));
    s.select_word(2, Layer::Body, 0);
    s.open_action_bar(0, 0, false, false);
    let req = match s.formula_copy_action() {
        FormulaCopy::Recognise(r) => r,
        _ => panic!("nothing to recognise"),
    };
    assert_eq!(req.page, 1);
    assert_eq!(req.fallback, "x");
    let key = req.key.clone();
    assert!(s.request_formula(req));
    assert!(matches!(s.formula_copy_action(), FormulaCopy::Nothing));
    assert!(!s.request_formula(CopyRequest { page: 1, key: key.clone(), bbox: (0, 0, 1, 1), fallback: String::new() }));
    assert!(s.formula_superseded());
    assert!(s.formula_recognised(key.clone(), "old".to_string()).is_none());
    assert!(s.next_formula().is_some());
    let (info, generation) = s.formula_recognised(key, "\\x".to_string()).unwrap();
    assert_eq!(info.title, "已复制 LaTeX");
    assert_eq!(generation, 1);
    assert!(matches!(s.formula_copy_action(), FormulaCopy::Cached(l) if l == "\\x"));
    assert_eq!(s.cached_formula_copied(), Some(1));
    s.reset_action_bar(9);
    assert_eq!(s.action_bar.unwrap().status, ActionBarStatus::Success);
    s.reset_action_bar(1);
    assert_eq!(s.action_bar.unwrap().status, ActionBarStatus::Idle);
    assert!(s.next_formula().is_none());
    assert!(!s.copy_busy);
    assert!(matches!(s.formula_failed(true, "x"), Some(None)));
    assert!(matches!(s.formula_failed(false, "x"), Some(Some(e)) if e.message == "x"));
    assert_eq!(s.action_bar.unwrap().status, ActionBarStatus::Error);
    assert_eq!(copy_feedback(true).title, "已复制");
    assert_eq!(copy_feedback(false).severity, ErrorSeverity::Warning);
}

#[test]
fn one_formula_is_kept() {
    let mut c = SingleSlotCache::new();
    c.put("k".to_string(), "v".to_string());
    assert_eq!(c.get("k").as_deref(), Some("v"));
    assert_eq!(c.get("x"), None);
    c.put("x".to_string(), "w".to_string());
    assert_eq!(c.get("k"), None);
    assert_ne!(formula_copy_key("b", 1, (1, 2, 3, 4)), formula_copy_key("b", 1, (1, 2, 34, 4)));
}

#[test]
fn formulas_go_back_into_their_text() {
    let latex = vec!["x".to_string(), String::new(), "z".to_string()];
    assert_eq!(insert_formulas("a [公式1] b [公式2] c [公式3][公式1]", &latex), "a x b [公式2] c zx");
    let mut pages: HashMap<u32, RenderedPage> = HashMap::new();
    pages.insert(
        2,
        rendered(vec![word(0, "a", 0.0, 0.0), formula_word(0, "x", 2.0, 0.0), word(0, "b", 4.0, 0.0)], None),
    );
    let sel = Selection {
        layer: Layer::Body,
        steps: vec![SelectionStep { page: 2, lo: 0, hi: 2, column_left: None }],
        formula: false,
        formula_score: 0,
        anchor: None,
    };
    let regions = selection_formula_regions(&sel, &pages);
    assert_eq!(regions, vec![(2, (48, 0, 24, 24))]);
}

#[test]
fn an_explanation_asks_about_text_and_formulas() {
    let mut s = session(vec![word(0, "a", 0.0, 0.0), formula_word(0, "x", 2.0, 0.0), word(0, "b", 4.0, 0.0)]);
    assert!(s.explain_request().is_none());
    s.start_drag(2, Layer::Body, 0);
    s.extend_drag(2, Layer::Body, 2);
    s.end_drag();
    s.open_action_bar(0, 0, false, false);
    assert!(s.explain_request().is_none());
    s.open_action_bar(0, 0, false, true);
    let r = s.explain_request().unwrap();
    assert!(r.input.contains("[公式1]"));
    assert_eq!(r.page, 2);
    assert_eq!(r.regions.len(), 1);
    let (latex, misses) = s.formulas_known(&r.regions);
    assert_eq!(latex, vec![String::new()]);
    assert_eq!(misses.len(), 1);
    assert_eq!(misses[0].number, 0);
    assert_eq!(misses[0].region, r.regions[0]);
    s.keep_formula(misses[0].key.clone(), "\\xi".to_string());
    let (latex, misses) = s.formulas_known(&r.regions);
    assert_eq!(latex, vec!["\\xi".to_string()]);
    assert!(misses.is_empty());
}

fn png(width: u32, height: u32) -> Vec<u8> {
    let mut img = image::RgbaImage::from_pixel(width, height, image::Rgba([9, 8, 7, 255]));
    img.put_pixel(1, 1, image::Rgba([1, 2, 3, 0]));
    let mut out = std::io::Cursor::new(Vec::new());
    image::DynamicImage::ImageRgba8(img).write_to(&mut out, image::ImageFormat::Png).unwrap();
    out.into_inner()
}

#[test]
fn a_formula_is_cut_out_and_put_on_white() {
    let bytes = png(6, 5);
    match formula_canvas(&bytes, (1, 1, 2, 90)) {
        FormulaCanvas::Ready(c) => {
            assert_eq!((c.width, c.height), (6, 8));
            assert_eq!(c.pixels.len(), 4 * 6 * 8);
            let at = |x: usize, y: usize| &c.pixels[4 * (y * 6 + x)..4 * (y * 6 + x) + 4];
            assert_eq!(at(0, 0), &[255, 255, 255, 255]);
            assert_eq!(at(2, 2), &[255, 255, 255, 255]);
            assert_eq!(at(3, 2), &[9, 8, 7, 255]);
            assert_eq!(at(3, 5), &[9, 8, 7, 255]);
            assert_eq!(at(4, 2), &[255, 255, 255, 255]);
        }
        other => panic!("{other:?}"),
    }
    assert!(matches!(formula_canvas(&bytes, (6, 0, 1, 1)), FormulaCanvas::OffPage));
    assert!(matches!(formula_canvas(&bytes, (0, 5, 1, 1)), FormulaCanvas::OffPage));
    assert!(matches!(formula_canvas(&bytes, (-1, 0, 20, 1)), FormulaCanvas::Ready(c) if c.width == 11 && c.pixels[4 * 11 * 2 + 4 * 2] == 9));
    assert!(matches!(formula_canvas(&vec![1, 2, 3], (0, 0, 1, 1)), FormulaCanvas::Unreadable(e) if e.starts_with("解码页面图像失败:")));
    assert_eq!(crop_area((4, 0, 9, -3), 6, 5), (4, 0, 2, 1));
}

// ── search and quotes ──

#[test]
fn a_search_takes_no_notice_of_case() {
    let file = |name: &str, text: &str| PageFile { name: name.to_string(), text: text.to_string() };
    let files = || vec![file("0010.md", "x\n  Größe ÄB  \n"), file("0002.md", "äb here"), file("odd.md", "ÄB")];
    let r = search_book_pages(files(), "äB", 50, 6_000);
    assert_eq!(r, vec![(2, "äb here".to_string()), (10, "Größe ÄB".to_string()), (0, "ÄB".to_string())]);
    assert_eq!(search_book_pages(files(), "äB", 1, 6_000).len(), 1);
    assert_eq!(search_book_pages(files(), "äB", 50, 8).len(), 1);
    assert!(search_book_pages(files(), "zz", 50, 6_000).is_empty());
    assert_eq!(search_query("  a "), Some("a".to_string()));
    assert_eq!(search_query("  "), None);
}

#[test]
fn old_results_of_a_search_are_dropped() {
    let mut s = SearchState { results: vec![(1, "x".to_string())], running: false, generation: 0 };
    assert!(s.begin(" ", true).is_none());
    assert!(s.results.is_empty());
    assert!(s.begin("q", false).is_none());
    let (_, first) = s.begin("q", true).unwrap();
    let (q, second) = s.begin(" r ", true).unwrap();
    assert_eq!(q, "r");
    s.finish(first, vec![(9, "old".to_string())]);
    assert!(s.running);
    s.finish(second, vec![(3, "new".to_string())]);
    assert!(!s.running);
    assert_eq!(s.results, vec![(3, "new".to_string())]);
}

#[test]
fn quotes_are_found_across_words() {
    let texts = ["The", " ", "QUICK", "Fox", "jumps"];
    let mut s = session(words(&texts));
    let sel = find_quote_selection(&s.cache, 2, "quick fox").unwrap();
    assert_eq!((sel.steps[0].lo, sel.steps[0].hi), (2, 3));
    assert!(find_quote_selection(&s.cache, 2, " ").is_none());
    assert!(find_quote_selection(&s.cache, 2, "cat").is_none());
    assert!(find_quote_selection(&s.cache, 3, "quick").is_none());
    assert!(s.show_quote(2, "jumps"));
    assert_eq!(selected(&s), (4, 4));
    assert!(!s.show_quote(2, "cat"));
    let got: String = normalize_quote("İ A\tb").into_iter().collect();
    let want: String = "İ A\tb".chars().filter(|c| !c.is_whitespace()).flat_map(|c| c.to_lowercase()).collect();
    assert_eq!(got, want);
    let list: Vec<Vec<char>> = vec![vec!['a'], vec!['b', 'c'], vec!['d']];
    assert_eq!(find_quoted_words(&list, &vec!['c', 'd']), Some((1, 2)));
    assert_eq!(find_quoted_words(&list, &vec!['x']), None);
}

#[test]
fn quotes_behind_wide_characters_are_found() {
    let s = session(words(&["数学", "定理", "证明"]));
    let sel = find_quote_selection(&s.cache, 2, "证明").unwrap();
    assert_eq!((sel.steps[0].lo, sel.steps[0].hi), (2, 2));
}

// ── reading ──

#[test]
fn sentences_and_paragraphs_reach_at_most_one_page_further() {
    let page: Vec<FlatWord> = (0..4)
        .flat_map(|l| (0..3).map(move |i| word(l, "word", 10.0 + i as f64 * 5.0, 10.0 + l as f64 * 1.2)))
        .collect();
    let steps = sentence_walk(&page, 5, Some(&page), Some(&page), 7);
    assert!(!steps.is_empty());
    for s in steps.iter().chain(paragraph_walk(&page, 5, Some(&page), Some(&page), 7).iter()) {
        assert!((6..=8).contains(&s.page));
        assert!(s.lo < page.len() && s.hi < page.len());
        assert!(s.column_left.is_some());
    }
    assert!(steps.iter().any(|s| s.page == 6) && steps.iter().any(|s| s.page == 8));
    assert!(steps.windows(2).all(|w| w[0].page <= w[1].page));
}

#[test]
fn sentences_and_paragraphs_hold_their_word() {
    let page = words(&["One", " ", "(two;", " ", "three)", " ", "four.", " ", "Five."]);
    for i in [0, 2, 4, 6, 8] {
        let mut s = session(page.clone());
        s.select_sentence(2, Layer::Body, i);
        let (lo, hi) = selected(&s);
        assert!(lo <= i && i <= hi, "{i} {lo} {hi}");
        s.select_paragraph(2, Layer::Body, i);
        assert_eq!(selected(&s), (0, 8));
    }
    // the bracket was opened in the sentence before
    let mut s = session(words(&["(One.", " ", "two;", " ", "three)", " ", "four."]));
    s.select_sentence(2, Layer::Body, 6);
    assert_eq!(selected(&s), (1, 6));
}

#[test]
fn white_space_is_not_translated() {
    let mut s = session(words(&["\u{3000}plain "]));
    s.select_word(2, Layer::Body, 0);
    s.open_action_bar(1, 2, true, false);
    assert_eq!(s.translation_request().unwrap().0, "plain");
}

#[test]
fn an_extension_goes_out_from_the_first_word() {
    let mut s = session(words(&["a", "b", "c", "d", "e"]));
    s.select_word(2, Layer::Body, 2);
    s.begin_shift_extend(2, Layer::Body, 4);
    assert_eq!(selected(&s), (2, 4));
    s.begin_shift_extend(2, Layer::Body, 0);
    assert_eq!(selected(&s), (0, 2));
    s.extend_drag(2, Layer::Body, 3);
    assert_eq!(selected(&s), (2, 3));
}

fn lines(items: &[&str]) -> Vec<String> {
    items.iter().map(|s| s.to_string()).collect()
}

#[test]
fn a_text_is_translated_chunk_by_chunk() {
    let mut run = TranslationRun::new(vec![lines(&["A.", "B."]), lines(&["C."])], " [Book]".to_string());
    assert!(matches!(run.next_step(), TranslationStep::Translate(t) if t == "A. B. [Book]"));
    run.received(" a");
    run.received("b \n");
    assert_eq!(run.shown("ab"), "ab");
    run.chunk_done(None);
    assert_eq!(run.parts, lines(&["ab"]));
    assert!(matches!(run.next_step(), TranslationStep::Translate(t) if t == "C. [Book]"));
    run.received("c!");
    assert_eq!(run.shown("c!"), "ab\nc!");
    run.chunk_done(Some("c".to_string()));
    assert!(matches!(run.next_step(), TranslationStep::Finish));
    assert_eq!(run.whole(), "ab\nc");
    assert!(matches!(run.outcome(Err("?".to_string())), TranslationOutcome::Failed(t) if t == "?"));
    let a = Alignment {
        source_text: String::new(),
        source_sentences: Vec::new(),
        translated_sentences: Vec::new(),
        groups: Vec::new(),
    };
    assert!(matches!(run.outcome(Ok(("x".to_string(), a))), TranslationOutcome::Done(t, _) if t == "x"));
}

#[test]
fn a_broken_translation_says_why() {
    let mut run = TranslationRun::new(vec![lines(&["A."]), lines(&["B."])], String::new());
    run.received("a");
    run.chunk_done(Some("a".to_string()));
    run.received("b");
    run.failed("gone".to_string());
    assert!(matches!(run.next_step(), TranslationStep::Finish));
    assert!(matches!(run.outcome(Err("?".to_string())), TranslationOutcome::Failed(t) if t == "a\n\ngone"));
}
