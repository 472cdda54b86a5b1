use gpui_react::editing::{
    word_range, caret_visible, coalescing_edit, edits_coalesce, press_intent, push_undo_snapshot, single_line_text,
    CoalescingEdit, EditError, EditKind, EditSnapshot, Editor, PressIntent, CARET_BLINK_MS,
    UNDO_COALESCE_MS, UNDO_LIMIT,
};
use gpui_react::offsets::{byte_offset, utf16, utf16_length, utf16_offset_to_utf8, utf8_offset_to_utf16, OffsetError};
use std::collections::VecDeque;

#[test]
fn ime_offsets_are_relative_to_replacement_text() {
    assert_eq!(utf16_offset_to_utf8("é🙂", 0), 0);
    assert_eq!(utf16_offset_to_utf8("é🙂", 1), "é".len());
    assert_eq!(utf16_offset_to_utf8("é🙂", 3), "é🙂".len());
}

#[test]
fn utf16_offsets_round_trip_and_reject_surrogate_splits() {
    assert_eq!(utf8_offset_to_utf16("é🙂", "é".len()), 1);
    assert_eq!(utf8_offset_to_utf16("é🙂", "é🙂".len()), 3);
    assert_eq!(utf16_length("a🙂b"), 4);
    assert_eq!(utf16("a🙂b", 5), 3);
    assert_eq!(byte_offset("a🙂b", 3), Ok(5));
    assert_eq!(byte_offset("a🙂b", 2), Err(OffsetError::SplitsSurrogate));
    assert_eq!(byte_offset("a🙂b", 5), Err(OffsetError::ExceedsLength));
}

#[test]
fn single_line_newlines_become_one_space() {
    assert_eq!(single_line_text("a\r\nb\nc\rd"), "a b c d");
}

#[test]
fn caret_blink_phase() {
    assert!(caret_visible(0));
    assert!(caret_visible(CARET_BLINK_MS - 1));
    assert!(!caret_visible(CARET_BLINK_MS));
    assert!(!caret_visible(2 * CARET_BLINK_MS - 1));
    assert!(caret_visible(2 * CARET_BLINK_MS));
}

#[test]
fn insertion_undo_coalescing_requires_one_contiguous_non_whitespace_character() {
    let insert_at_one = CoalescingEdit { kind: EditKind::Insert, anchor: 1 };

    assert_eq!(coalescing_edit(&(0..0), "a", false), Some(insert_at_one));
    assert!(edits_coalesce(insert_at_one, coalescing_edit(&(1..1), "b", false), &(1..1), 699));
    assert!(!edits_coalesce(insert_at_one, coalescing_edit(&(2..2), "b", false), &(2..2), 699));
    assert_eq!(coalescing_edit(&(0..1), "a", false), None);
    assert_eq!(coalescing_edit(&(1..1), "ab", false), None);
    assert_eq!(coalescing_edit(&(1..1), " ", false), None);
    assert_eq!(coalescing_edit(&(1..1), "\n", false), None);
    assert_eq!(coalescing_edit(&(1..1), "\t", false), None);
    assert_eq!(coalescing_edit(&(1..1), "\u{2003}", false), None);
    assert!(!edits_coalesce(
        insert_at_one,
        coalescing_edit(&(1..1), "b", false),
        &(1..1),
        UNDO_COALESCE_MS,
    ));
    assert!(!edits_coalesce(
        CoalescingEdit { kind: EditKind::DeleteBackward, anchor: 1 },
        coalescing_edit(&(1..1), "b", false),
        &(1..1),
        1,
    ));
    assert!(!edits_coalesce(insert_at_one, None, &(1..1), 1));
}

#[test]
fn backward_and_forward_deletions_use_their_own_contiguity_rules() {
    let backward = CoalescingEdit { kind: EditKind::DeleteBackward, anchor: 3 };
    assert_eq!(
        coalescing_edit(&(2..3), "", true),
        Some(CoalescingEdit { kind: EditKind::DeleteBackward, anchor: 2 })
    );
    assert!(edits_coalesce(backward, coalescing_edit(&(2..3), "", true), &(2..3), 699));
    assert!(!edits_coalesce(backward, coalescing_edit(&(1..2), "", true), &(1..2), 699));

    let forward = CoalescingEdit { kind: EditKind::DeleteForward, anchor: 2 };
    assert_eq!(coalescing_edit(&(2..3), "", false), Some(forward));
    assert!(edits_coalesce(forward, coalescing_edit(&(2..3), "", false), &(2..3), 699));
    assert!(!edits_coalesce(forward, coalescing_edit(&(3..4), "", false), &(3..4), 699));
    assert!(!edits_coalesce(forward, coalescing_edit(&(2..3), "", false), &(2..3), UNDO_COALESCE_MS));
    assert_eq!(coalescing_edit(&(2..2), "", false), None);
}

#[test]
fn undo_history_discards_only_the_oldest_snapshot_at_the_limit() {
    let mut history = VecDeque::new();
    for index in 0..=UNDO_LIMIT {
        push_undo_snapshot(
            &mut history,
            EditSnapshot { content: index.to_string(), selected_range: index..index, selection_reversed: false },
        );
    }
    assert_eq!(history.len(), UNDO_LIMIT);
    assert_eq!(history.front().unwrap().content, "1");
    assert_eq!(history.back().unwrap().content, UNDO_LIMIT.to_string());
}

#[test]
fn multi_click_selects_word_then_all_and_does_not_arm_drag() {
    assert_eq!(press_intent(1, false), PressIntent::PlaceCaret);
    assert_eq!(press_intent(1, true), PressIntent::ExtendSelection);
    assert_eq!(press_intent(2, false), PressIntent::SelectWord);
    assert_eq!(press_intent(2, true), PressIntent::SelectWord);
    assert_eq!(press_intent(3, false), PressIntent::SelectAll);
    assert!(press_intent(1, false).arms_drag());
    assert!(press_intent(1, true).arms_drag());
    assert!(!press_intent(2, false).arms_drag());
    assert!(!press_intent(3, false).arms_drag());
}

#[test]
fn delayed_replacement_cannot_erase_a_newer_native_edit() {
    let mut input = Editor::new("", false, false);
    input.replace_text_in_range(None, "a", 0);
    let old = input.revision();
    input.replace_text_in_range(None, "b", 1000);
    let result = input.replace_value("A", old);
    assert_eq!(result, Err(EditError::Stale));
    assert!(result.unwrap_err().message().contains("stale"));
    assert_eq!(input.content(), "ab");
    let revision = input.revision();
    assert_eq!(input.replace_value("AB", revision), Ok(true));
    assert_eq!(input.content(), "AB");
    input.undo();
    assert_eq!(input.content(), "ab");
}

#[test]
fn typing_keeps_selection_and_undo() {
    let mut input = Editor::new("", false, false);
    input.replace_text_in_range(None, "hello", 0);
    input.left();
    assert_eq!(input.content(), "hello");
    assert_eq!(input.selected_range(), 4..4);
    input.undo();
    assert_eq!(input.content(), "");
}

#[test]
fn composition_is_native_and_one_undo_step() {
    let mut input = Editor::new("x", false, false);
    input.replace_and_mark_text_in_range(None, "ni", Some(2..2));
    assert_eq!(input.content(), "xni");
    assert_eq!(input.marked_range(), Some(1..3));
    let revision = input.revision();
    let refused = input.replace_value("late", revision);
    assert_eq!(refused, Err(EditError::Composing));
    assert!(refused.unwrap_err().message().contains("composition"));
    input.replace_and_mark_text_in_range(None, "你", Some(1..1));
    input.replace_text_in_range(None, "你", 0);
    assert_eq!(input.content(), "x你");
    assert!(input.marked_range().is_none());
    input.undo();
    assert_eq!(input.content(), "x");
    input.redo();
    assert_eq!(input.content(), "x你");
}

#[test]
fn selection_and_composition_end_invalidate_old_commands() {
    let mut input = Editor::new("hello", false, false);
    let before = input.revision();
    input.left();
    assert!(input.replace_value("late", before).is_err());
    input.replace_and_mark_text_in_range(None, "é", Some(1..1));
    let before = input.revision();
    input.unmark_text();
    assert!(input.revision() > before);
}

#[test]
fn grapheme_deletion_and_utf16_selection_are_consistent() {
    let mut input = Editor::new("a👩‍💻é", false, false);
    input.backspace(0);
    assert_eq!(input.content(), "a👩‍💻");
    input.backspace(0);
    assert_eq!(input.content(), "a");
    input.replace_text_in_range(None, "🙂z", 0);
    let revision = input.revision();
    assert_eq!(input.select_range(2, 2, false, revision), Err(EditError::Unaligned));
    assert_eq!(input.revision(), revision);
    assert_eq!(input.select_range(3, 1, false, revision), Err(EditError::Inverted));
    assert_eq!(input.select_range(1, 3, false, revision), Ok(()));
    input.replace_text_in_range(None, "X", 0);
    assert_eq!(input.content(), "aXz");
}

#[test]
fn readonly_blocks_native_editing_but_accepts_explicit_application_replacement() {
    let mut input = Editor::new("fixed", false, true);
    input.replace_text_in_range(None, "bad", 0);
    input.replace_and_mark_text_in_range(None, "bad", None);
    input.backspace(0);
    assert_eq!(input.content(), "fixed");
    let revision = input.revision();
    assert_eq!(input.replace_value("updated", revision), Ok(true));
    assert_eq!(input.content(), "updated");
}

#[test]
fn coalesced_typing_undoes_as_one_step_and_redo_restores_it() {
    let mut input = Editor::new("", true, false);
    input.replace_text_in_range(None, "a", 0);
    input.replace_text_in_range(None, "b", 100);
    input.replace_text_in_range(None, "c", 200);
    assert_eq!(input.content(), "abc");
    assert_eq!(input.undo_len(), 1);
    input.replace_text_in_range(None, " ", 300);
    assert_eq!(input.undo_len(), 2);
    input.undo();
    assert_eq!(input.content(), "abc");
    input.undo();
    assert_eq!(input.content(), "");
    assert_eq!(input.redo_len(), 2);
    input.redo();
    assert_eq!(input.content(), "abc");
    assert_eq!(input.selected_range(), 3..3);
}

#[test]
fn single_line_input_flattens_pasted_newlines_and_newline_is_ignored() {
    let mut input = Editor::new("a\nb", false, false);
    assert_eq!(input.content(), "a b");
    input.paste("c\r\nd", 0);
    assert_eq!(input.content(), "a bc d");
    input.newline(0);
    assert_eq!(input.content(), "a bc d");
    let mut area = Editor::new("a", true, false);
    area.newline(0);
    assert_eq!(area.content(), "a\n");
}

#[test]
fn word_and_line_navigation() {
    let mut input = Editor::new("one two\nthree", true, false);
    input.doc_start();
    input.word_right();
    assert_eq!(input.cursor_offset(), 3);
    input.select_word_right();
    assert_eq!(input.selected_range(), 3..7);
    input.doc_end();
    assert_eq!(input.cursor_offset(), 13);
    assert_eq!(input.line_range_at(10), 8..13);
    input.delete_to_line_start(0);
    assert_eq!(input.content(), "one two\n");
    input.select_all();
    assert_eq!(input.cut(0), Some("one two\n".to_string()));
    assert_eq!(input.content(), "");
}

#[test]
fn input_word_range_takes_word_runs_or_one_symbol() {
    assert_eq!(word_range("hello world", 2), 0..5);
    assert_eq!(word_range("foo_bar baz", 4), 0..7);
    assert_eq!(word_range(" hello", 0), 0..0);
    assert_eq!(word_range("a+b", 1), 0..1);
    assert_eq!(word_range("a + b", 2), 2..3);
    assert_eq!(word_range("héllo", 2), 0..6);
    assert_eq!(word_range("abc", 99), 0..3);
    assert_eq!(word_range("", 0), 0..0);
}

#[test]
fn presses_place_extend_and_select_words_or_everything() {
    let mut input = Editor::new("hello world", false, false);
    assert_eq!(input.press(2, false, 7), PressIntent::SelectWord);
    assert_eq!(input.selected_range(), 6..11);
    assert_eq!(input.press(3, false, 0), PressIntent::SelectAll);
    assert_eq!(input.selected_range(), 0..11);
    assert_eq!(input.press(1, false, 3), PressIntent::PlaceCaret);
    assert_eq!(input.selected_range(), 3..3);
    assert_eq!(input.press(1, true, 8), PressIntent::ExtendSelection);
    assert_eq!(input.selected_range(), 3..8);
    assert!(!input.selection_reversed());
    assert_eq!(input.press(1, true, 1), PressIntent::ExtendSelection);
    assert_eq!(input.selected_range(), 1..3);
    assert!(input.selection_reversed());
}

#[test]
fn utf16_ranges_select_and_read_text() {
    let mut input = Editor::new("a🙂bc", false, false);
    input.set_selected_text_range(1..3);
    assert_eq!(input.selected_range(), 1..5);
    assert_eq!(input.selection(), (1, 3, false));
    assert_eq!(input.copy(), Some("🙂".to_string()));
    assert_eq!(input.text_for_range(3..5), (Some("bc".to_string()), 3..5));
    assert_eq!(input.text_length_utf16(), 5);
    input.select_doc_end();
    assert_eq!(input.selected_range(), 1..7);
    input.select_doc_start();
    assert_eq!(input.selected_range(), 0..1);
    assert!(input.selection_reversed());
}

#[test]
fn every_char_boundary_survives_the_utf16_round_trip() {
    let text = "aé🙂 b\u{10FFFF}";
    for b in 0..=text.len() {
        if text.is_char_boundary(b) {
            assert_eq!(byte_offset(text, utf16(text, b)), Ok(b));
        }
    }
    for offset in 0..=utf16_length(text) + 1 {
        if let Ok(b) = byte_offset(text, offset) {
            assert!(text.is_char_boundary(b));
            assert_eq!(utf16(text, b), offset);
        }
    }
}
