//! The keyboard shortcuts of text inputs: which keystroke triggers which
//! editing action, by kind of input and by platform convention.
use vstd::prelude::*;

verus! {

/// An editing action a keystroke can trigger.
#[derive(Clone, Copy, Debug, PartialEq, Eq, Structural)]
pub enum EditorAction {
    Backspace,
    Delete,
    Left,
    Right,
    Up,
    Down,
    SelectLeft,
    SelectRight,
    SelectUp,
    SelectDown,
    SelectAll,
    Home,
    End,
    DocStart,
    DocEnd,
    SelectHome,
    SelectEnd,
    SelectDocStart,
    SelectDocEnd,
    WordLeft,
    WordRight,
    SelectWordLeft,
    SelectWordRight,
    DeleteWordLeft,
    DeleteWordRight,
    DeleteToLineStart,
    DeleteToLineEnd,
    Copy,
    Cut,
    Paste,
    Undo,
    Redo,
    Newline,
    Submit,
}

/// One shortcut: a keystroke, the action it triggers, and the key context
/// it is bound in.
#[derive(Clone, Debug, PartialEq, Eq)]
pub struct KeyBinding {
    pub keystroke: String,
    pub action: EditorAction,
    pub context: String,
}

/// The keystrokes and actions of bindings, as values.
pub open spec fn binding_views(b: Seq<KeyBinding>) -> Seq<(Seq<char>, EditorAction)> {
    b.map_values(|k: KeyBinding| (k.keystroke@, k.action))
}

/// Keystrokes and their actions, as values.
pub open spec fn views(b: Seq<(String, EditorAction)>) -> Seq<(Seq<char>, EditorAction)> {
    b.map_values(|p: (String, EditorAction)| (p.0@, p.1))
}

/// The shortcuts every input has: enter, editing and caret movement.
pub open spec fn base_bindings(enter_submits: bool) -> Seq<(Seq<char>, EditorAction)> {
    seq![
        if enter_submits { ("enter"@, EditorAction::Submit) } else { ("enter"@, EditorAction::Newline) },
        ("shift-enter"@, EditorAction::Newline),
        ("backspace"@, EditorAction::Backspace),
        ("delete"@, EditorAction::Delete),
        ("left"@, EditorAction::Left),
        ("right"@, EditorAction::Right),
        ("shift-left"@, EditorAction::SelectLeft),
        ("shift-right"@, EditorAction::SelectRight),
        ("home"@, EditorAction::Home),
        ("end"@, EditorAction::End),
        ("shift-home"@, EditorAction::SelectHome),
        ("shift-end"@, EditorAction::SelectEnd),
        ("cmd-left"@, EditorAction::Home),
        ("cmd-right"@, EditorAction::End),
        ("cmd-backspace"@, EditorAction::DeleteToLineStart),
        ("cmd-delete"@, EditorAction::DeleteToLineEnd),
        ("cmd-up"@, EditorAction::DocStart),
        ("cmd-down"@, EditorAction::DocEnd),
        ("shift-cmd-left"@, EditorAction::SelectHome),
        ("shift-cmd-right"@, EditorAction::SelectEnd),
        ("shift-cmd-up"@, EditorAction::SelectDocStart),
        ("shift-cmd-down"@, EditorAction::SelectDocEnd)
    ]
}

/// Line movement, for inputs of several lines.
pub open spec fn vertical_bindings() -> Seq<(Seq<char>, EditorAction)> {
    seq![
        ("up"@, EditorAction::Up),
        ("down"@, EditorAction::Down),
        ("shift-up"@, EditorAction::SelectUp),
        ("shift-down"@, EditorAction::SelectDown)
    ]
}

/// Word movement and deletion under the platform's word modifier.
pub open spec fn word_bindings(m: Seq<char>) -> Seq<(Seq<char>, EditorAction)> {
    seq![
        (m + "-backspace"@, EditorAction::DeleteWordLeft),
        (m + "-delete"@, EditorAction::DeleteWordRight),
        (m + "-left"@, EditorAction::WordLeft),
        (m + "-right"@, EditorAction::WordRight),
        ("shift-"@ + m + "-left"@, EditorAction::SelectWordLeft),
        ("shift-"@ + m + "-right"@, EditorAction::SelectWordRight)
    ]
}

/// Selection, clipboard and history under one command modifier; paste only
/// where the platform's clipboard action is used.
pub open spec fn clipboard_bindings(m: Seq<char>, paste: bool) -> Seq<(Seq<char>, EditorAction)> {
    seq![
        (m + "-a"@, EditorAction::SelectAll),
        (m + "-c"@, EditorAction::Copy),
        (m + "-x"@, EditorAction::Cut),
        (m + "-z"@, EditorAction::Undo),
        ("shift-"@ + m + "-z"@, EditorAction::Redo)
    ] + if paste {
        seq![(m + "-v"@, EditorAction::Paste)]
    } else {
        Seq::empty()
    }
}

/// The shortcuts of an input: line movement only with several lines, word
/// movement under `alt` (macOS) or `ctrl`, the clipboard under both `cmd`
/// and `ctrl`.
pub open spec fn editor_bindings(
    multiline: bool,
    enter_submits: bool,
    word_navigation_uses_alt: bool,
    bind_paste_shortcut: bool,
) -> Seq<(Seq<char>, EditorAction)> {
    base_bindings(enter_submits) + (if multiline {
        vertical_bindings()
    } else {
        Seq::empty()
    }) + word_bindings(
        if word_navigation_uses_alt {
            "alt"@
        } else {
            "ctrl"@
        },
    ) + clipboard_bindings("cmd"@, bind_paste_shortcut) + clipboard_bindings(
        "ctrl"@,
        bind_paste_shortcut,
    )
}

fn bind(b: &mut Vec<(String, EditorAction)>, key: String, action: EditorAction)
    ensures
        views(final(b)@) == views(old(b)@).push((key@, action)),
{
    let ghost k = key@;
    b.push((key, action));
    assert(views(b@) =~= views(old(b)@).push((k, action)));
}

fn bind_str(b: &mut Vec<(String, EditorAction)>, key: &str, action: EditorAction)
    ensures
        views(final(b)@) == views(old(b)@).push((key@, action)),
{
    bind(b, key.to_string(), action);
}

fn bind_word_keys(b: &mut Vec<(String, EditorAction)>, m: &str)
    ensures
        views(final(b)@) == views(old(b)@) + word_bindings(m@),
{
    bind(b, String::from_str(m).concat("-backspace"), EditorAction::DeleteWordLeft);
    bind(b, String::from_str(m).concat("-delete"), EditorAction::DeleteWordRight);
    bind(b, String::from_str(m).concat("-left"), EditorAction::WordLeft);
    bind(b, String::from_str(m).concat("-right"), EditorAction::WordRight);
    bind(b, String::from_str("shift-").concat(m).concat("-left"), EditorAction::SelectWordLeft);
    bind(b, String::from_str("shift-").concat(m).concat("-right"), EditorAction::SelectWordRight);
    assert(views(b@) =~= views(old(b)@) + word_bindings(m@));
}

fn bind_clipboard_keys(b: &mut Vec<(String, EditorAction)>, m: &str, paste: bool)
    ensures
        views(final(b)@) == views(old(b)@) + clipboard_bindings(m@, paste),
{
    bind(b, String::from_str(m).concat("-a"), EditorAction::SelectAll);
    bind(b, String::from_str(m).concat("-c"), EditorAction::Copy);
    bind(b, String::from_str(m).concat("-x"), EditorAction::Cut);
    bind(b, String::from_str(m).concat("-z"), EditorAction::Undo);
    bind(b, String::from_str("shift-").concat(m).concat("-z"), EditorAction::Redo);
    if paste {
        bind(b, String::from_str(m).concat("-v"), EditorAction::Paste);
    }
    assert(views(b@) =~= views(old(b)@) + clipboard_bindings(m@, paste));
}

/// The keystrokes of an input and the actions they trigger, in binding
/// order.
fn keystrokes(
    multiline: bool,
    enter_submits: bool,
    word_navigation_uses_alt: bool,
    bind_paste_shortcut: bool,
) -> (r: Vec<(String, EditorAction)>)
    ensures
        views(r@) == editor_bindings(multiline, enter_submits, word_navigation_uses_alt, bind_paste_shortcut),
{
    let mut b: Vec<(String, EditorAction)> = Vec::new();
    proof {
        assert(views(b@) =~= Seq::<(Seq<char>, EditorAction)>::empty());
    }
    bind_str(&mut b, "enter", if enter_submits { EditorAction::Submit } else { EditorAction::Newline });
    bind_str(&mut b, "shift-enter", EditorAction::Newline);
    bind_str(&mut b, "backspace", EditorAction::Backspace);
    bind_str(&mut b, "delete", EditorAction::Delete);
    bind_str(&mut b, "left", EditorAction::Left);
    bind_str(&mut b, "right", EditorAction::Right);
    bind_str(&mut b, "shift-left", EditorAction::SelectLeft);
    bind_str(&mut b, "shift-right", EditorAction::SelectRight);
    bind_str(&mut b, "home", EditorAction::Home);
    bind_str(&mut b, "end", EditorAction::End);
    bind_str(&mut b, "shift-home", EditorAction::SelectHome);
    bind_str(&mut b, "shift-end", EditorAction::SelectEnd);
    bind_str(&mut b, "cmd-left", EditorAction::Home);
    bind_str(&mut b, "cmd-right", EditorAction::End);
    bind_str(&mut b, "cmd-backspace", EditorAction::DeleteToLineStart);
    bind_str(&mut b, "cmd-delete", EditorAction::DeleteToLineEnd);
    bind_str(&mut b, "cmd-up", EditorAction::DocStart);
    bind_str(&mut b, "cmd-down", EditorAction::DocEnd);
    bind_str(&mut b, "shift-cmd-left", EditorAction::SelectHome);
    bind_str(&mut b, "shift-cmd-right", EditorAction::SelectEnd);
    bind_str(&mut b, "shift-cmd-up", EditorAction::SelectDocStart);
    bind_str(&mut b, "shift-cmd-down", EditorAction::SelectDocEnd);
    let ghost base = views(b@);
    proof {
        assert(base =~= base_bindings(enter_submits));
    }
    if multiline {
        bind_str(&mut b, "up", EditorAction::Up);
        bind_str(&mut b, "down", EditorAction::Down);
        bind_str(&mut b, "shift-up", EditorAction::SelectUp);
        bind_str(&mut b, "shift-down", EditorAction::SelectDown);
        proof {
            assert(views(b@) =~= base + vertical_bindings());
        }
    } else {
        proof {
            assert(views(b@) =~= base + Seq::<(Seq<char>, EditorAction)>::empty());
        }
    }
    let m = if word_navigation_uses_alt { "alt" } else { "ctrl" };
    bind_word_keys(&mut b, m);
    bind_clipboard_keys(&mut b, "cmd", bind_paste_shortcut);
    bind_clipboard_keys(&mut b, "ctrl", bind_paste_shortcut);
    b
}

/// The shortcuts of an input, each bound in the key context `context`, in
/// binding order.
pub fn text_editor_bindings(
    context: &str,
    multiline: bool,
    enter_submits: bool,
    word_navigation_uses_alt: bool,
    bind_paste_shortcut: bool,
) -> (r: Vec<KeyBinding>)
    ensures
        binding_views(r@) == editor_bindings(multiline, enter_submits, word_navigation_uses_alt, bind_paste_shortcut),
        forall|i: int| 0 <= i < r@.len() ==> #[trigger] r@[i].context@ == context@,
{
    let pairs = keystrokes(multiline, enter_submits, word_navigation_uses_alt, bind_paste_shortcut);
    let ghost expected = views(pairs@);
    let mut r: Vec<KeyBinding> = Vec::new();
    let mut i: usize = 0;
    while i < pairs.len()
        invariant
            i <= pairs@.len(),
            expected == views(pairs@),
            r@.len() == i,
            forall|j: int| 0 <= j < i ==> (#[trigger] r@[j].keystroke@, r@[j].action) == expected[j],
            forall|j: int| 0 <= j < i ==> #[trigger] r@[j].context@ == context@,
        decreases pairs@.len() - i,
    {
        let keystroke = pairs[i].0.clone();
        let action = pairs[i].1;
        r.push(KeyBinding { keystroke, action, context: context.to_string() });
        i = i + 1;
    }
    proof {
        assert(binding_views(r@) =~= expected);
    }
    r
}

/// The key context of a single-line input.
pub const INPUT_KEY_CONTEXT: &'static str = "ReactInput";

/// The key context of a multi-line input where enter inserts a line.
pub const TEXTAREA_KEY_CONTEXT: &'static str = "ReactTextarea";

/// The key context of a multi-line input where enter submits.
pub const TEXTAREA_SUBMIT_KEY_CONTEXT: &'static str = "ReactTextareaSubmit";

/// The key context an input is focused in: one per pair of `multiline` and,
/// for multi-line inputs, `submit_on_enter`.
pub fn key_context(multiline: bool, submit_on_enter: bool) -> (r: &'static str)
    ensures
        r@ == if !multiline {
            INPUT_KEY_CONTEXT@
        } else if submit_on_enter {
            TEXTAREA_SUBMIT_KEY_CONTEXT@
        } else {
            TEXTAREA_KEY_CONTEXT@
        },
{
    if !multiline {
        INPUT_KEY_CONTEXT
    } else if submit_on_enter {
        TEXTAREA_SUBMIT_KEY_CONTEXT
    } else {
        TEXTAREA_KEY_CONTEXT
    }
}

/// The shortcuts of every kind of input, each in its own key context: single
/// line inputs, where enter submits; text areas, where it inserts a line; and
/// text areas that submit on enter.
pub fn input_bindings(word_navigation_uses_alt: bool, bind_paste_shortcut: bool) -> (r: Vec<KeyBinding>)
    ensures
        ({
            let single = editor_bindings(false, true, word_navigation_uses_alt, bind_paste_shortcut);
            let area = editor_bindings(true, false, word_navigation_uses_alt, bind_paste_shortcut);
            let submit = editor_bindings(true, true, word_navigation_uses_alt, bind_paste_shortcut);
            &&& binding_views(r@) == single + area + submit
            &&& forall|i: int| 0 <= i < r@.len() ==> #[trigger] r@[i].context@ == if i < single.len() {
                INPUT_KEY_CONTEXT@
            } else if i < single.len() + area.len() {
                TEXTAREA_KEY_CONTEXT@
            } else {
                TEXTAREA_SUBMIT_KEY_CONTEXT@
            }
        }),
{
    let mut r = text_editor_bindings(INPUT_KEY_CONTEXT, false, true, word_navigation_uses_alt, bind_paste_shortcut);
    let ghost first = r@;
    let mut area = text_editor_bindings(TEXTAREA_KEY_CONTEXT, true, false, word_navigation_uses_alt, bind_paste_shortcut);
    let ghost second = area@;
    let mut submit = text_editor_bindings(
        TEXTAREA_SUBMIT_KEY_CONTEXT,
        true,
        true,
        word_navigation_uses_alt,
        bind_paste_shortcut,
    );
    let ghost third = submit@;
    r.append(&mut area);
    r.append(&mut submit);
    proof {
        assert(r@ == first + second + third);
        assert(binding_views(r@) =~= binding_views(first) + binding_views(second) + binding_views(third));
        assert(binding_views(first).len() == first.len());
        assert(binding_views(second).len() == second.len());
        assert forall|i: int| 0 <= i < r@.len() implies #[trigger] r@[i].context@ == if i < first.len() {
            INPUT_KEY_CONTEXT@
        } else if i < first.len() + second.len() {
            TEXTAREA_KEY_CONTEXT@
        } else {
            TEXTAREA_SUBMIT_KEY_CONTEXT@
        } by {
            if i < first.len() {
                assert(r@[i] == first[i]);
            } else if i < first.len() + second.len() {
                assert(r@[i] == second[i - first.len()]);
            } else {
                assert(r@[i] == third[i - first.len() - second.len()]);
            }
        }
    }
    r
}

/// Enter submits exactly when the input asks for it, and inserts a line
/// otherwise; shift-enter always inserts a line.
pub proof fn lemma_enter(multiline: bool, enter_submits: bool, alt: bool, paste: bool)
    ensures
        editor_bindings(multiline, enter_submits, alt, paste)[0] == if enter_submits {
            ("enter"@, EditorAction::Submit)
        } else {
            ("enter"@, EditorAction::Newline)
        },
        editor_bindings(multiline, enter_submits, alt, paste)[1] == ("shift-enter"@, EditorAction::Newline),
{
}

/// Word movement uses the platform's modifier: `alt` where
/// `word_navigation_uses_alt`, else `ctrl`; the other modifier moves no word.
pub proof fn lemma_word_modifier(multiline: bool, enter_submits: bool, alt: bool, paste: bool)
    ensures
        ({
            let b = editor_bindings(multiline, enter_submits, alt, paste);
            let (used, other) = if alt { ("alt"@, "ctrl"@) } else { ("ctrl"@, "alt"@) };
            b.contains((used + "-left"@, EditorAction::WordLeft)) && b.contains(
                (used + "-right"@, EditorAction::WordRight),
            ) && !b.contains((other + "-left"@, EditorAction::WordLeft)) && !b.contains(
                (other + "-right"@, EditorAction::WordRight),
            )
        }),
{
    reveal_strlit("alt");
    reveal_strlit("ctrl");
    reveal_strlit("-left");
    reveal_strlit("-right");
    let b = editor_bindings(multiline, enter_submits, alt, paste);
    let base = base_bindings(enter_submits);
    let vert = if multiline { vertical_bindings() } else { Seq::empty() };
    let used = if alt { "alt"@ } else { "ctrl"@ };
    let other = if alt { "ctrl"@ } else { "alt"@ };
    let words = word_bindings(used);
    let k: int = (base.len() + vert.len()) as int;
    assert(b[k + 2] == words[2]);
    assert(b[k + 3] == words[3]);
    assert forall|i: int| 0 <= i < b.len() implies b[i].1 == EditorAction::WordLeft ==> b[i].0 == used + "-left"@ by {
        if i < base.len() {
        } else if i < k {
        } else if i < k + 6 {
            assert(b[i] == words[i - k]);
        } else {
        }
    }
    assert forall|i: int| 0 <= i < b.len() implies b[i].1 == EditorAction::WordRight ==> b[i].0 == used + "-right"@ by {
        if i < k {
        } else if i < k + 6 {
            assert(b[i] == words[i - k]);
        } else {
        }
    }
    assert(used + "-left"@ != other + "-left"@) by {
        assert((used + "-left"@)[0] != (other + "-left"@)[0]);
    }
    assert(used + "-right"@ != other + "-right"@) by {
        assert((used + "-right"@)[0] != (other + "-right"@)[0]);
    }
}

/// Paste is bound under `cmd` and `ctrl` exactly when the platform's
/// clipboard action is used.
pub proof fn lemma_paste(multiline: bool, enter_submits: bool, alt: bool, paste: bool)
    ensures
        ({
            let b = editor_bindings(multiline, enter_submits, alt, paste);
            (exists|i: int| 0 <= i < b.len() && b[i].1 == EditorAction::Paste) == paste
        }),
{
    let b = editor_bindings(multiline, enter_submits, alt, paste);
    let base = base_bindings(enter_submits);
    let vert: Seq<(Seq<char>, EditorAction)> = if multiline { vertical_bindings() } else { Seq::empty() };
    let k: int = (base.len() + vert.len() + 6) as int;
    if paste {
        assert(b[k + 5].1 == EditorAction::Paste);
    } else {
        assert forall|i: int| 0 <= i < b.len() implies b[i].1 != EditorAction::Paste by {
            if i < base.len() {
            } else if i < base.len() + vert.len() {
            } else if i < k {
            } else if i < k + 5 {
            } else {
            }
        }
    }
}

} // verus!
