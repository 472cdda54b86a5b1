use gpui_react::keys::{
    input_bindings, key_context, text_editor_bindings, EditorAction, KeyBinding, INPUT_KEY_CONTEXT, TEXTAREA_KEY_CONTEXT,
    TEXTAREA_SUBMIT_KEY_CONTEXT,
};

fn has_binding(bindings: &[KeyBinding], keystroke: &str, action: EditorAction) -> bool {
    bindings.iter().any(|b| b.keystroke == keystroke && b.action == action)
}

#[test]
fn macos_word_navigation_uses_alt() {
    let bindings = text_editor_bindings(INPUT_KEY_CONTEXT, false, true, true, true);
    assert!(has_binding(&bindings, "alt-left", EditorAction::WordLeft));
    assert!(has_binding(&bindings, "alt-right", EditorAction::WordRight));
    assert!(!has_binding(&bindings, "ctrl-left", EditorAction::WordLeft));
    assert!(!has_binding(&bindings, "ctrl-right", EditorAction::WordRight));
}

#[test]
fn non_macos_word_navigation_uses_control() {
    let bindings = text_editor_bindings(INPUT_KEY_CONTEXT, false, true, false, true);
    assert!(has_binding(&bindings, "ctrl-left", EditorAction::WordLeft));
    assert!(has_binding(&bindings, "ctrl-right", EditorAction::WordRight));
    assert!(!has_binding(&bindings, "alt-left", EditorAction::WordLeft));
    assert!(!has_binding(&bindings, "alt-right", EditorAction::WordRight));
}

#[test]
fn browser_paste_stays_with_the_dom_event() {
    let bindings = text_editor_bindings(INPUT_KEY_CONTEXT, false, true, true, false);
    assert!(!has_binding(&bindings, "cmd-v", EditorAction::Paste));
    assert!(!has_binding(&bindings, "ctrl-v", EditorAction::Paste));
}

#[test]
fn desktop_paste_uses_the_platform_clipboard_action() {
    let bindings = text_editor_bindings(INPUT_KEY_CONTEXT, false, true, true, true);
    assert!(has_binding(&bindings, "cmd-v", EditorAction::Paste));
    assert!(has_binding(&bindings, "ctrl-v", EditorAction::Paste));
}

#[test]
fn textarea_enter_inserts_a_newline_unless_on_submit_is_set() {
    let textarea = text_editor_bindings(TEXTAREA_KEY_CONTEXT, true, false, true, true);
    assert!(has_binding(&textarea, "enter", EditorAction::Newline));
    assert!(has_binding(&textarea, "shift-enter", EditorAction::Newline));
    assert!(!has_binding(&textarea, "enter", EditorAction::Submit));

    let composer = text_editor_bindings(TEXTAREA_SUBMIT_KEY_CONTEXT, true, true, true, true);
    assert!(has_binding(&composer, "enter", EditorAction::Submit));
    assert!(has_binding(&composer, "shift-enter", EditorAction::Newline));
    assert!(!has_binding(&composer, "enter", EditorAction::Newline));

    let input = text_editor_bindings(INPUT_KEY_CONTEXT, false, true, true, true);
    assert!(has_binding(&input, "enter", EditorAction::Submit));
    assert!(!has_binding(&input, "enter", EditorAction::Newline));
}

#[test]
fn only_multiline_inputs_move_between_lines() {
    let single = text_editor_bindings(INPUT_KEY_CONTEXT, false, true, true, true);
    let multi = text_editor_bindings(TEXTAREA_KEY_CONTEXT, true, false, true, true);
    assert!(!has_binding(&single, "up", EditorAction::Up));
    assert!(has_binding(&multi, "up", EditorAction::Up));
    assert!(has_binding(&multi, "shift-down", EditorAction::SelectDown));
    assert!(has_binding(&single, "shift-ctrl-z", EditorAction::Redo));
    assert_eq!(multi.len(), single.len() + 4);
}

#[test]
fn every_binding_carries_its_key_context() {
    for (multiline, submit) in [(false, true), (true, false), (true, true)] {
        let context = key_context(multiline, submit);
        let bindings = text_editor_bindings(context, multiline, submit, true, true);
        assert!(!bindings.is_empty());
        assert!(bindings.iter().all(|b| b.context == context));
    }
    assert_eq!(key_context(false, false), "ReactInput");
    assert_eq!(key_context(true, false), "ReactTextarea");
    assert_eq!(key_context(true, true), "ReactTextareaSubmit");
}

#[test]
fn every_kind_of_input_is_bound_in_its_own_context() {
    let all = input_bindings(true, true);
    let single = text_editor_bindings(INPUT_KEY_CONTEXT, false, true, true, true);
    let area = text_editor_bindings(TEXTAREA_KEY_CONTEXT, true, false, true, true);
    let submit = text_editor_bindings(TEXTAREA_SUBMIT_KEY_CONTEXT, true, true, true, true);
    assert_eq!(all.len(), single.len() + area.len() + submit.len());
    let enter: Vec<(String, EditorAction)> = all
        .iter()
        .filter(|b| b.keystroke == "enter")
        .map(|b| (b.context.clone(), b.action))
        .collect();
    assert_eq!(
        enter,
        vec![
            ("ReactInput".to_string(), EditorAction::Submit),
            ("ReactTextarea".to_string(), EditorAction::Newline),
            ("ReactTextareaSubmit".to_string(), EditorAction::Submit),
        ]
    );
}
