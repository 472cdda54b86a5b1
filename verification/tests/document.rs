use gpui_react::document::{find_endpoint, press_text, select_all, select_between, select_endpoints, selected_range, DocumentError};
use gpui_react::offsets::OffsetError;
use gpui_react::selection::{RegisteredText, SelectionState};

fn reg(key: &str, text: &str) -> RegisteredText {
    RegisteredText { key: key.to_owned(), text: text.to_owned() }
}

fn elems() -> Vec<RegisteredText> {
    vec![reg("p1", "first paragraph"), reg("p2", "sécond"), reg("p3", "third one")]
}

#[test]
fn native_selected_range_uses_bytes_and_rejects_changed_source() {
    let mut selection = SelectionState::new();
    selection.begin_with_span(&"key".to_string(), &"a😀b".to_string(), 1..5);
    assert_eq!(selected_range(&selection, "key", "a😀b"), Some(1..5));
    assert_eq!(selected_range(&selection, "key", "z😀b"), Some(1..5));
    assert_eq!(selected_range(&selection, "other", "a😀b"), None);
    assert_eq!(selected_range(&selection, "key", "axxxx"), None);
    assert_eq!(selected_range(&selection, "key", "a"), None);
    selection.clear();
    assert_eq!(selected_range(&selection, "key", "a😀b"), None);
}

#[test]
fn endpoints_resolve_keys_and_utf16_offsets_to_bytes() {
    let entries = elems();
    assert_eq!(find_endpoint(&entries, "p2", 2), Ok((1, 3)));
    assert_eq!(find_endpoint(&entries, "p9", 0), Err(DocumentError::EndpointNotPainted));
    assert_eq!(find_endpoint(&entries, "p2", 7), Err(DocumentError::Offset(OffsetError::ExceedsLength)));
    let emoji = vec![reg("e", "a😀")];
    assert_eq!(find_endpoint(&emoji, "e", 2), Err(DocumentError::Offset(OffsetError::SplitsSurrogate)));
}

#[test]
fn programmatic_selection_checks_paint_revision_and_endpoints() {
    let entries = elems();
    let mut selection = SelectionState::new();
    assert_eq!(
        select_endpoints(&mut selection, &entries, false, 3, 3, ("p1", 6), ("p2", 3)),
        Err(DocumentError::NotPainted)
    );
    assert_eq!(
        select_endpoints(&mut selection, &entries, true, 3, 2, ("p1", 6), ("p2", 3)),
        Err(DocumentError::StaleContent)
    );
    assert_eq!(
        select_endpoints(&mut selection, &entries, true, 3, 3, ("p1", 6), ("zz", 3)),
        Err(DocumentError::EndpointNotPainted)
    );
    assert_eq!(selection.selected_text(), None);
    assert_eq!(select_endpoints(&mut selection, &entries, true, 3, 3, ("p1", 6), ("p2", 2)), Ok(true));
    assert_eq!(selection.selected_text().as_deref(), Some("paragraph\nsé"));
    assert!(!selection.is_dragging());
    // The same selection again changes nothing.
    assert_eq!(select_endpoints(&mut selection, &entries, true, 3, 3, ("p2", 2), ("p1", 6)), Ok(false));
}

#[test]
fn select_all_takes_every_text_once_painted() {
    let entries = elems();
    let mut selection = SelectionState::new();
    assert_eq!(select_all(&mut selection, &entries, false), Err(DocumentError::NotPainted));
    assert_eq!(select_all(&mut selection, &[], true), Ok(false));
    assert_eq!(select_all(&mut selection, &entries, true), Ok(true));
    assert_eq!(selection.selected_text().as_deref(), Some("first paragraph\nsécond\nthird one"));
    // Selecting nothing leaves no selection.
    assert!(select_between(&mut selection, &entries, (0, 3), (0, 3)));
    assert_eq!(selection.selected_text(), None);
    assert!(!selection.has_selection());
}

#[test]
fn presses_select_words_or_whole_texts_or_arm_a_drag() {
    let entry = reg("p1", "hello world");
    let mut selection = SelectionState::new();
    assert!(press_text(&mut selection, &entry, 2, 0, 7));
    assert_eq!(selection.wash_range("p1"), Some(6..11));
    assert!(selection.is_dragging());
    selection.end_active_drag();
    assert_eq!(selection.selected_text().as_deref(), Some("world"));
    assert!(press_text(&mut selection, &entry, 3, 0, 7));
    selection.end_active_drag();
    assert_eq!(selection.selected_text().as_deref(), Some("hello world"));
    // A single press arms a selection; the old one is dropped at once.
    assert!(press_text(&mut selection, &entry, 1, 4, 4));
    assert!(selection.is_pending());
    assert!(!selection.has_selection());
    assert!(!press_text(&mut selection, &entry, 1, 2, 2));
}
