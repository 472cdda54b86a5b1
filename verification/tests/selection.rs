use gpui_react::selection::{resolve_spans, spans_eq, word_range, RegisteredText, SelectionState, Span};

fn reg(key: &str, text: &str) -> RegisteredText {
    RegisteredText { key: key.to_owned(), text: text.to_owned() }
}

fn elems() -> Vec<RegisteredText> {
    vec![reg("p1", "first paragraph"), reg("p2", "second"), reg("p3", "third one")]
}

fn shown(span: &Span) -> &str {
    &span.text[span.range.clone()]
}

#[test]
fn word_selection_keeps_combining_marks_and_emoji_graphemes() {
    let text = "e\u{301}cole";
    assert_eq!(word_range(text, 0), 0..text.len());
    let family = "👩‍👩‍👦";
    assert_eq!(word_range(family, 0), 0..family.len());
}

#[test]
fn spans_within_one_element() {
    let spans = resolve_spans(&elems(), (0, 6), (0, 15));
    assert_eq!(spans.len(), 1);
    assert_eq!(spans[0].key, "p1");
    assert_eq!(shown(&spans[0]), "paragraph");
    assert!(spans_eq(&resolve_spans(&elems(), (0, 15), (0, 6)), &spans));
}

#[test]
fn spans_across_elements_cover_middles_whole() {
    let spans = resolve_spans(&elems(), (0, 6), (2, 5));
    assert_eq!(spans.len(), 3);
    assert_eq!(shown(&spans[0]), "paragraph");
    assert_eq!(shown(&spans[1]), "second");
    assert_eq!(shown(&spans[2]), "third");
    assert!(spans_eq(&resolve_spans(&elems(), (2, 5), (0, 6)), &spans));
}

#[test]
fn drag_lifecycle_and_copy_joins() {
    let mut sel = SelectionState::new();
    sel.arm("p1", 6);
    assert!(sel.promote_pending());
    assert!(sel.is_dragging());
    let spans = resolve_spans(&elems(), (0, 6), (1, 6));
    assert!(sel.update_spans(spans.clone()));
    assert!(!sel.update_spans(spans));
    assert_eq!(sel.wash_range("p1"), Some(6..15));
    assert_eq!(sel.wash_range("p2"), Some(0..6));
    assert_eq!(sel.wash_range("p3"), None);
    sel.end_active_drag();
    assert_eq!(sel.selected_text().as_deref(), Some("paragraph\nsecond"));
    assert_eq!(sel.selected_text().as_deref(), Some("paragraph\nsecond"));
    assert!(sel.has_selection());
    assert!(sel.clear());
    assert!(!sel.clear());
    assert_eq!(sel.selected_text(), None);
}

#[test]
fn drag_survives_forward_virtualization() {
    let mut sel = SelectionState::new();
    sel.arm("p1", 6);
    assert!(sel.promote_pending());
    assert!(sel.update_drag(&elems(), (2, 5)));
    let shifted = [reg("p2", "second"), reg("p3", "third one"), reg("p4", "fourth")];
    assert!(sel.update_drag(&shifted, (2, 4)));
    assert_eq!(sel.selected_text().as_deref(), Some("paragraph\nsecond\nthird one\nfour"));
    sel.end_active_drag();
    assert_eq!(sel.selected_text().as_deref(), Some("paragraph\nsecond\nthird one\nfour"));
    assert!(!sel.is_dragging());
}

#[test]
fn drag_survives_backward_virtualization() {
    let mut sel = SelectionState::new();
    sel.arm("p5", 4);
    assert!(sel.promote_pending());
    let first = [reg("p3", "third"), reg("p4", "fourth"), reg("p5", "fifth")];
    assert!(sel.update_drag(&first, (0, 2)));
    let shifted = [reg("p2", "second"), reg("p3", "third"), reg("p4", "fourth")];
    assert!(sel.update_drag(&shifted, (0, 3)));
    assert_eq!(sel.selected_text().as_deref(), Some("ond\nthird\nfourth\nfift"));
    sel.end_active_drag();
    assert_eq!(sel.selected_text().as_deref(), Some("ond\nthird\nfourth\nfift"));
}

#[test]
fn virtualized_drag_requires_overlap() {
    let mut sel = SelectionState::new();
    sel.arm("p1", 6);
    assert!(sel.promote_pending());
    assert!(sel.update_drag(&elems(), (2, 5)));
    let unrelated = [reg("p8", "eighth"), reg("p9", "ninth")];
    assert!(!sel.update_drag(&unrelated, (1, 3)));
    assert_eq!(sel.selected_text().as_deref(), Some("paragraph\nsecond\nthird"));
}

#[test]
fn virtualized_drag_waits_until_direction_is_known() {
    let mut sel = SelectionState::new();
    sel.arm("p1", 6);
    assert!(sel.promote_pending());
    let shifted = [reg("p2", "second"), reg("p3", "third")];
    assert!(!sel.update_drag(&shifted, (1, 3)));
    assert_eq!(sel.selected_text(), None);
}

#[test]
fn empty_click_clears_on_release() {
    let mut sel = SelectionState::new();
    sel.arm("p1", 3);
    assert!(sel.promote_pending());
    sel.end_active_drag();
    assert_eq!(sel.selected_text(), None);
}

#[test]
fn tap_does_not_select_until_drag() {
    let mut sel = SelectionState::new();
    sel.arm("p1", 3);
    assert!(sel.is_pending());
    assert!(!sel.has_selection());
    assert!(!sel.is_dragging());
    sel.cancel_pending();
    assert!(!sel.is_pending());
    assert_eq!(sel.selected_text(), None);
}

#[test]
fn pending_press_promotes_on_drag() {
    let mut sel = SelectionState::new();
    sel.arm("p1", 6);
    assert!(sel.promote_pending());
    assert!(!sel.promote_pending());
    assert!(sel.is_dragging());
    let spans = resolve_spans(&elems(), (0, 6), (0, 15));
    assert!(sel.update_spans(spans));
    sel.end_active_drag();
    assert_eq!(sel.selected_text().as_deref(), Some("paragraph"));
}

#[test]
fn double_click_span() {
    let mut sel = SelectionState::new();
    sel.begin_with_span(&"p1".to_string(), &"hello world".to_string(), 6..11);
    assert_eq!(sel.wash_range("p1"), Some(6..11));
    sel.end_active_drag();
    assert_eq!(sel.selected_text().as_deref(), Some("world"));
}

#[test]
fn word_ranges() {
    let t = "let foo_bar = 12;";
    assert_eq!(word_range(t, 5), 4..11);
    assert_eq!(word_range(t, 4), 4..11);
    assert_eq!(word_range(t, 11), 4..11);
    assert_eq!(word_range(t, 15), 14..16);
    assert_eq!(&t[word_range(t, 12)], "=");
    assert_eq!(word_range(t, 3), 0..3);
    let u = "héllo wörld";
    assert_eq!(&u[word_range(u, 2)], "héllo");
}

#[test]
fn resolve_spans_clamps_out_of_range_offsets() {
    let spans = resolve_spans(&[reg("a", "hé")], (0, 0), (0, 99));
    assert_eq!(shown(&spans[0]), "hé");
}

#[test]
fn logical_texts_always_separate() {
    let elements = vec![reg("7:0", "let a = 1;"), reg("7:1", "let b = 2;")];
    let mut sel = SelectionState::new();
    sel.arm("7:0", 0);
    assert!(sel.promote_pending());
    assert!(sel.update_spans(resolve_spans(&elements, (0, 0), (1, 10))));
    assert_eq!(sel.selected_text().as_deref(), Some("let a = 1;\nlet b = 2;"));
}

#[test]
fn word_range_at_whitespace_and_end_keeps_the_preceding_word() {
    let t = "ab  cd";
    assert_eq!(word_range(t, 2), 0..2);
    assert_eq!(word_range(t, 3), 3..3);
    assert_eq!(word_range(t, 6), 4..6);
    assert_eq!(word_range("", 0), 0..0);
    // An index inside a multi-byte character clamps down to its start.
    assert_eq!(word_range("é x", 1), 0..2);
}

#[test]
fn a_word_selection_always_holds_the_clamped_offset() {
    let text = "héllo  wörld";
    for ix in 0..text.len() + 3 {
        let mut c = ix.min(text.len());
        while !text.is_char_boundary(c) {
            c -= 1;
        }
        let r = word_range(text, ix);
        assert!(r.start <= c && c <= r.end, "offset {ix}");
        if r.is_empty() {
            assert_eq!(r, c..c);
        }
    }
    assert_eq!(word_range(text, 2), 0..6);
    assert_eq!(word_range(text, 6), 0..6);
    assert_eq!(word_range(text, 7), 7..7);
    assert_eq!(word_range(text, 8), 8..14);
    assert_eq!(word_range(text, 99), 8..14);
}
