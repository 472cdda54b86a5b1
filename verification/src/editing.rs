//! The editing rules of a text input: caret blinking, what a press selects,
//! single-line text, undo history and how consecutive edits merge into one
//! undo step.
use vstd::prelude::*;
use vstd::std_specs::iter::IteratorSpec;
use vstd::string::StringSliceAdditionalSpecFns;
use crate::offsets::{char_len_utf8, char_utf8_len, lemma_take_push, lemma_utf8_len_push, utf16_len, utf16_stop, utf8_len, utf8_stop};
use crate::text::{boundary, split_chars};
use crate::segment::{covering_pieces, grapheme_pieces, graphemes, ordered_pieces, pieces_view, word_bound_pieces, word_bounds};
use vstd::utf8::{decode_utf8, is_char_boundary_iff_not_is_continuation_byte, is_char_boundary_start_end_of_seq, valid_utf8};
use std::collections::VecDeque;
use std::ops::Range;

verus! {

/// One caret phase, in milliseconds.
pub const CARET_BLINK_MS: u64 = 500;

/// Edits closer together than this, in milliseconds, may merge.
pub const UNDO_COALESCE_MS: u64 = 700;

/// The most undo steps kept.
pub const UNDO_LIMIT: usize = 200;

/// The caret shows in even phases since the last activity.
pub fn caret_visible(ms_since_activity: u64) -> (r: bool)
    ensures
        r == ((ms_since_activity / CARET_BLINK_MS) % 2 == 0),
{
    (ms_since_activity / CARET_BLINK_MS) % 2 == 0
}

/// What a mouse press does.
#[derive(Clone, Copy, Debug, PartialEq, Eq, Structural)]
pub enum PressIntent {
    SelectAll,
    SelectWord,
    ExtendSelection,
    PlaceCaret,
}

impl PressIntent {
    /// A single press may go on to drag a selection; multi-clicks may not.
    pub fn arms_drag(self) -> (r: bool)
        ensures
            r == (self == PressIntent::ExtendSelection || self == PressIntent::PlaceCaret),
    {
        match self {
            PressIntent::ExtendSelection | PressIntent::PlaceCaret => true,
            _ => false,
        }
    }
}

/// A triple click selects all, a double click a word, a shifted click
/// extends the selection, and any other click places the caret.
pub open spec fn intent_of(click_count: usize, shift: bool) -> PressIntent {
    if click_count >= 3 {
        PressIntent::SelectAll
    } else if click_count == 2 {
        PressIntent::SelectWord
    } else if shift {
        PressIntent::ExtendSelection
    } else {
        PressIntent::PlaceCaret
    }
}

/// What a press with this click count and shift state does.
pub fn press_intent(click_count: usize, shift: bool) -> (r: PressIntent)
    ensures
        r == intent_of(click_count, shift),
{
    if click_count >= 3 {
        PressIntent::SelectAll
    } else if click_count == 2 {
        PressIntent::SelectWord
    } else if shift {
        PressIntent::ExtendSelection
    } else {
        PressIntent::PlaceCaret
    }
}

/// Whether `char::is_alphanumeric` holds of a character: Unicode's
/// Alphabetic or Numeric property.
pub uninterp spec fn alphanumeric(c: char) -> bool;

/// `char::is_alphanumeric`.
#[verifier::external_body]
fn is_alphanumeric(c: char) -> (r: bool)
    ensures
        r == alphanumeric(c),
{
    c.is_alphanumeric()
}

/// A character that belongs to a word: alphanumeric or `_`.
pub open spec fn word_char(c: char) -> bool {
    alphanumeric(c) || c == '_'
}

/// From `k` on, the most characters whose UTF-8 length stays within `ix`:
/// the character index of the last boundary at or before byte `ix`.
pub open spec fn char_floor(s: Seq<char>, ix: int, k: int) -> int
    decreases s.len() - k,
{
    if k < s.len() && utf8_len(s.take(k + 1)) <= ix {
        char_floor(s, ix, k + 1)
    } else {
        k
    }
}

/// Where the run of word characters ending at `k` starts.
pub open spec fn run_start(s: Seq<char>, k: int) -> int
    decreases k,
{
    if k <= 0 {
        0
    } else if word_char(s[k - 1]) {
        run_start(s, k - 1)
    } else {
        k
    }
}

/// Where the run of word characters starting at `k` ends.
pub open spec fn run_end(s: Seq<char>, k: int) -> int
    decreases s.len() - k,
{
    if k >= s.len() {
        s.len() as int
    } else if word_char(s[k]) {
        run_end(s, k + 1)
    } else {
        k
    }
}

/// The word an input selects around byte `ix`, in characters: the run of
/// word characters touching the boundary at or before `ix`; away from any
/// word, the character there unless it is white space.
pub open spec fn input_word(s: Seq<char>, ix: int) -> (int, int) {
    let k = char_floor(s, ix, 0);
    let at = k < s.len() && word_char(s[k]);
    let before = k > 0 && word_char(s[k - 1]);
    if !at && !before {
        if k < s.len() && !crate::text::whitespace(s[k]) {
            (k, k + 1)
        } else {
            (k, k)
        }
    } else {
        (run_start(s, k), run_end(s, k))
    }
}

proof fn lemma_char_floor(s: Seq<char>, ix: int, k: int)
    requires
        0 <= k <= s.len(),
    ensures
        k <= char_floor(s, ix, k) <= s.len(),
    decreases s.len() - k,
{
    if k < s.len() && utf8_len(s.take(k + 1)) <= ix {
        lemma_char_floor(s, ix, k + 1);
    }
}

proof fn lemma_runs(s: Seq<char>, k: int)
    requires
        0 <= k <= s.len(),
    ensures
        0 <= run_start(s, k) <= k <= run_end(s, k) <= s.len(),
    decreases s.len() - k,
{
    lemma_run_start(s, k);
    if k < s.len() && word_char(s[k]) {
        lemma_runs(s, k + 1);
    }
}

proof fn lemma_run_start(s: Seq<char>, k: int)
    requires
        0 <= k <= s.len(),
    ensures
        0 <= run_start(s, k) <= k,
    decreases k,
{
    if k > 0 && word_char(s[k - 1]) {
        lemma_run_start(s, k - 1);
    }
}

/// The byte range of the word an input selects around byte `ix`.
pub fn word_range(text: &str, ix: usize) -> (r: Range<usize>)
    ensures
        ({
            let (a, b) = input_word(text@, ix as int);
            r.start == utf8_len(text@.take(a)) && r.end == utf8_len(text@.take(b))
        }),
{
    let ghost s = text@;
    let n = text.unicode_len();
    let total = text.as_bytes().len();
    let mut k: usize = 0;
    let mut at_k: usize = 0;
    proof {
        assert(s.take(0) =~= Seq::<char>::empty());
        crate::offsets::lemma_prefix_lengths(s, 0);
    }
    while k < n
        invariant
            n == s.len(),
            s == text@,
            total == utf8_len(s),
            k <= n,
            at_k == utf8_len(s.take(k as int)),
            char_floor(s, ix as int, k as int) == char_floor(s, ix as int, 0),
        ensures
            k <= n,
            at_k == utf8_len(s.take(k as int)),
            char_floor(s, ix as int, 0) == k,
        decreases n - k,
    {
        let c = text.get_char(k);
        let len = char_len_utf8(c);
        proof {
            lemma_take_push(s, k as int);
            lemma_utf8_len_push(s.take(k as int), c);
            crate::offsets::lemma_prefix_lengths(s, k + 1);
        }
        if at_k + len > ix {
            break;
        }
        at_k = at_k + len;
        k = k + 1;
    }
    let at_word = k < n && is_word(text.get_char(k));
    let before_word = k > 0 && is_word(text.get_char(k - 1));
    if !at_word && !before_word {
        if k < n {
            let c = text.get_char(k);
            if !crate::text::is_whitespace(c) {
                proof {
                    lemma_take_push(s, k as int);
                    lemma_utf8_len_push(s.take(k as int), c);
                    crate::offsets::lemma_prefix_lengths(s, k + 1);
                }
                return at_k..at_k + char_len_utf8(c);
            }
        }
        return at_k..at_k;
    }
    let mut start = k;
    let mut at_start = at_k;
    while start > 0
        invariant
            s == text@,
            start <= k <= n,
            n == s.len(),
            at_start == utf8_len(s.take(start as int)),
            run_start(s, start as int) == run_start(s, k as int),
        ensures
            start <= k,
            at_start == utf8_len(s.take(start as int)),
            run_start(s, k as int) == start,
        decreases start,
    {
        let c = text.get_char(start - 1);
        if !is_word(c) {
            break;
        }
        proof {
            lemma_take_push(s, start - 1);
            lemma_utf8_len_push(s.take(start - 1), c);
        }
        at_start = at_start - char_len_utf8(c);
        start = start - 1;
    }
    let mut end = k;
    let mut at_end = at_k;
    while end < n
        invariant
            s == text@,
            k <= end <= n,
            n == s.len(),
            total == utf8_len(s),
            at_end == utf8_len(s.take(end as int)),
            run_end(s, end as int) == run_end(s, k as int),
        ensures
            at_end == utf8_len(s.take(end as int)),
            run_end(s, k as int) == end,
        decreases n - end,
    {
        let c = text.get_char(end);
        if !is_word(c) {
            break;
        }
        proof {
            lemma_take_push(s, end as int);
            lemma_utf8_len_push(s.take(end as int), c);
            crate::offsets::lemma_prefix_lengths(s, end + 1);
        }
        at_end = at_end + char_len_utf8(c);
        end = end + 1;
    }
    at_start..at_end
}

fn is_word(c: char) -> (r: bool)
    ensures
        r == word_char(c),
{
    c == '_' || is_alphanumeric(c)
}

/// Each CR LF pair, and each other CR or LF, becomes one space.
pub open spec fn single_line(s: Seq<char>) -> Seq<char>
    decreases s.len(),
{
    if s.len() == 0 {
        Seq::empty()
    } else {
        let c = s.last();
        let rest = s.drop_last();
        if c == '\n' && rest.len() > 0 && rest.last() == '\r' {
            single_line(rest)
        } else if c == '\r' || c == '\n' {
            single_line(rest).push(' ')
        } else {
            single_line(rest).push(c)
        }
    }
}

/// The text with each CR LF pair, and each other CR or LF, made one space.
pub fn single_line_text(text: &str) -> (r: String)
    ensures
        r@ == single_line(text@),
{
    broadcast use vstd::string::group_string_axioms;

    let ghost s = text@;
    let mut chars = text.chars();
    let mut out = String::new();
    let mut seg_start: usize = 0;
    let mut pos: usize = 0;
    let mut prev_cr = false;
    let total = text.as_bytes().len();
    let ghost mut seg_k: int = 0;
    let ghost mut k: int = 0;
    proof {
        assert(s.take(0) =~= Seq::<char>::empty());
        assert(s.skip(0) =~= s);
        assert(s.subrange(0, 0) =~= Seq::<char>::empty());
        assert(out@ =~= Seq::<char>::empty());
        crate::offsets::lemma_prefix_lengths(s, 0);
        assert(text.spec_bytes() == crate::text::utf8_of(s));
    }
    loop
        invariant
            s == text@,
            chars.remaining() == s.skip(k),
            0 <= seg_k <= k <= s.len(),
            pos == utf8_len(s.take(k)),
            seg_start == utf8_len(s.take(seg_k)),
            pos <= utf8_len(s),
            utf8_len(s) == total,
            out@ + s.subrange(seg_k, k) == single_line(s.take(k)),
            prev_cr == (k > 0 && s[k - 1] == '\r'),
            forall|j: int| seg_k <= j < k ==> #[trigger] s[j] != '\r' && s[j] != '\n',
        ensures
            k == s.len(),
            0 <= seg_k <= k,
            pos == utf8_len(s.take(k)),
            seg_start == utf8_len(s.take(seg_k)),
            out@ + s.subrange(seg_k, k) == single_line(s.take(k)),
        decreases s.len() - k,
    {
        let next = chars.next();
        match next {
            None => {
                proof {
                    assert(s.skip(k).len() == 0);
                }
                break;
            },
            Some(c) => {
                proof {
                    assert(s.skip(k)[0] == s[k]);
                    assert(s.skip(k).drop_first() =~= s.skip(k + 1));
                    lemma_take_push(s, k);
                    lemma_utf8_len_push(s.take(k), c);
                    crate::offsets::lemma_prefix_lengths(s, k + 1);
                    assert(s.take(k + 1).drop_last() =~= s.take(k));
                    assert(s.take(k + 1).last() == c);
                }
                let width = char_len_utf8(c);
                if c == '\r' || c == '\n' {
                    if !(c == '\n' && prev_cr) {
                        let head = split_chars(text, pos, Ghost(k)).0;
                        proof {
                            assert(head@.take(seg_k) =~= s.take(seg_k));
                        }
                        let seg = split_chars(head, seg_start, Ghost(seg_k)).1;
                        proof {
                            assert(seg@ =~= s.subrange(seg_k, k));
                        }
                        out.append(seg);
                        out.append(" ");
                        proof {
                            reveal_strlit(" ");
                        }
                    }
                    seg_start = pos + width;
                    proof {
                        seg_k = k + 1;
                    }
                } else {
                    proof {
                        assert(s.subrange(seg_k, k + 1) =~= s.subrange(seg_k, k).push(c));
                    }
                }
                prev_cr = c == '\r';
                pos = pos + width;
                proof {
                    k = k + 1;
                    assert(s.subrange(k, k) =~= Seq::<char>::empty());
                }
            },
        }
    }
    let head = split_chars(text, pos, Ghost(k));
    proof {
        assert(head.0@.take(seg_k) =~= s.take(seg_k));
    }
    let seg = split_chars(head.0, seg_start, Ghost(seg_k)).1;
    proof {
        assert(seg@ =~= s.subrange(seg_k, k));
        assert(s.take(k) =~= s);
    }
    out.append(seg);
    out
}


/// How an edit changes the text, for merging undo steps.
#[derive(Clone, Copy, Debug, PartialEq, Eq, Structural)]
pub enum EditKind {
    Insert,
    DeleteBackward,
    DeleteForward,
}

/// An edit that may merge with the next one of its kind at `anchor`.
#[derive(Clone, Copy, Debug, PartialEq, Eq, Structural)]
pub struct CoalescingEdit {
    pub kind: EditKind,
    pub anchor: usize,
}

/// The mergeable form of replacing `range` with `new_text`, if any: a
/// deletion, forward or backward by the selection's direction, anchored at
/// its start; or one typed non-space character at a caret, anchored after it.
pub open spec fn coalescing(range: Range<usize>, new_text: Seq<char>, len: int, reversed: bool) -> Option<CoalescingEdit> {
    if new_text.len() == 0 {
        if !(range.start < range.end) {
            None
        } else {
            Some(
                CoalescingEdit {
                    kind: if reversed {
                        EditKind::DeleteBackward
                    } else {
                        EditKind::DeleteForward
                    },
                    anchor: range.start,
                },
            )
        }
    } else if !(range.start < range.end) && new_text.len() == 1 && !crate::text::whitespace(new_text[0]) {
        Some(CoalescingEdit { kind: EditKind::Insert, anchor: (range.start + len) as usize })
    } else {
        None
    }
}

/// The mergeable form of replacing `range` with `new_text`, if any.
pub fn coalescing_edit(range: &Range<usize>, new_text: &str, selection_reversed: bool) -> (r: Option<CoalescingEdit>)
    requires
        range.start + new_text.spec_bytes().len() <= usize::MAX,
    ensures
        r == coalescing(*range, new_text@, new_text.spec_bytes().len() as int, selection_reversed),
{
    let len = new_text.as_bytes().len();
    if len == 0 {
        proof {
            assert(new_text.spec_bytes() == crate::text::utf8_of(new_text@));
            if new_text@.len() > 0 {
                lemma_utf8_len_push(new_text@.drop_last(), new_text@.last());
                assert(new_text@.drop_last().push(new_text@.last()) =~= new_text@);
            }
        }
        if !(range.start < range.end) {
            return None;
        }
        return Some(
            CoalescingEdit {
                kind: if selection_reversed {
                    EditKind::DeleteBackward
                } else {
                    EditKind::DeleteForward
                },
                anchor: range.start,
            },
        );
    }
    proof {
        assert(new_text.spec_bytes() == crate::text::utf8_of(new_text@));
        if new_text@.len() == 0 {
            assert(crate::text::utf8_of(new_text@) =~= Seq::<u8>::empty());
        }
    }
    if range.start < range.end {
        return None;
    }
    let n = new_text.unicode_len();
    if n != 1 {
        return None;
    }
    let c = new_text.get_char(0);
    if crate::text::is_whitespace(c) {
        return None;
    }
    Some(CoalescingEdit { kind: EditKind::Insert, anchor: range.start + len })
}

/// Whether an edit merges into the previous undo step: of the same kind,
/// within the merge window, and continuing where the previous one stopped.
pub open spec fn coalesces(previous: CoalescingEdit, current: Option<CoalescingEdit>, range: Range<usize>, elapsed_ms: u64) -> bool {
    match current {
        None => false,
        Some(c) => previous.kind == c.kind && elapsed_ms < UNDO_COALESCE_MS && if c.kind == EditKind::DeleteBackward {
            range.end == previous.anchor
        } else {
            range.start == previous.anchor
        },
    }
}

/// Typing: a character that is not white space, typed at a caret, is an
/// insertion anchored just after it; the next character typed right there
/// merges into the same undo step exactly when it is not white space either
/// and comes within 700 ms.
pub proof fn lemma_typing_coalesces(a: usize, c1: char, l1: int, c2: char, l2: int, ms: u64)
    requires
        !crate::text::whitespace(c1),
        1 <= l1,
        a + l1 <= usize::MAX,
    ensures
        coalescing(span(a, a), seq![c1], l1, false) == Some(
            CoalescingEdit { kind: EditKind::Insert, anchor: (a + l1) as usize },
        ),
        ({
            let b = (a + l1) as usize;
            let first = CoalescingEdit { kind: EditKind::Insert, anchor: b };
            coalesces(first, coalescing(span(b, b), seq![c2], l2, false), span(b, b), ms) == (!crate::text::whitespace(
                c2,
            ) && ms < 700)
        }),
{
}

/// Deleting: a backward deletion of `s..e` is anchored at `s`, and the next
/// backward deletion that ends at `s` merges with it exactly when it comes
/// within 700 ms; a forward deletion of `s..e` is anchored at `s`, and the
/// next forward deletion starting at `s` merges with it likewise.
pub proof fn lemma_deleting_coalesces(s: usize, e: usize, s2: usize, e2: usize, ms: u64)
    requires
        s < e,
        s2 < s,
        s < e2,
    ensures
        coalescing(span(s, e), Seq::empty(), 0, true) == Some(
            CoalescingEdit { kind: EditKind::DeleteBackward, anchor: s },
        ),
        coalesces(
            CoalescingEdit { kind: EditKind::DeleteBackward, anchor: s },
            coalescing(span(s2, s), Seq::empty(), 0, true),
            span(s2, s),
            ms,
        ) == (ms < 700),
        coalescing(span(s, e), Seq::empty(), 0, false) == Some(
            CoalescingEdit { kind: EditKind::DeleteForward, anchor: s },
        ),
        coalesces(
            CoalescingEdit { kind: EditKind::DeleteForward, anchor: s },
            coalescing(span(s, e2), Seq::empty(), 0, false),
            span(s, e2),
            ms,
        ) == (ms < 700),
{
}

/// Whether an edit merges into the previous undo step.
pub fn edits_coalesce(previous: CoalescingEdit, current: Option<CoalescingEdit>, range: &Range<usize>, elapsed_ms: u64) -> (r: bool)
    ensures
        r == coalesces(previous, current, *range, elapsed_ms),
{
    let current = match current {
        None => {
            return false;
        },
        Some(c) => c,
    };
    if previous.kind != current.kind || elapsed_ms >= UNDO_COALESCE_MS {
        return false;
    }
    match current.kind {
        EditKind::Insert | EditKind::DeleteForward => range.start == previous.anchor,
        EditKind::DeleteBackward => range.end == previous.anchor,
    }
}

/// The text and selection an undo step restores.
pub struct EditSnapshot {
    pub content: String,
    pub selected_range: Range<usize>,
    pub selection_reversed: bool,
}

/// Pushes an undo step, dropping the oldest at the limit.
pub fn push_undo_snapshot(history: &mut VecDeque<EditSnapshot>, snapshot: EditSnapshot)
    ensures
        final(history)@ == if old(history)@.len() == UNDO_LIMIT {
            old(history)@.drop_first().push(snapshot)
        } else {
            old(history)@.push(snapshot)
        },
{
    if history.len() == UNDO_LIMIT {
        history.pop_front();
    }
    history.push_back(snapshot);
}


/// A byte range of `bytes` that lies on character boundaries, in order.
pub open spec fn span_ok(bytes: Seq<u8>, r: Range<usize>) -> bool {
    r.start <= r.end <= bytes.len() && boundary(bytes, r.start as int) && boundary(bytes, r.end as int)
}

/// An undo step whose selection lies within its own text.
pub open spec fn snapshot_ok(s: EditSnapshot) -> bool {
    span_ok(crate::text::utf8_of(s.content@), s.selected_range)
}

/// The range from `a` to `b`.
pub open spec fn span(a: usize, b: usize) -> Range<usize> {
    Range { start: a, end: b }
}

/// `offset`, or `len` when it lies past the end.
pub open spec fn clamp(offset: usize, len: int) -> usize {
    if (offset as int) < len {
        offset
    } else {
        len as usize
    }
}

/// The last piece start below `offset`, or zero.
pub open spec fn prev_start(ps: Seq<(int, int)>, offset: int) -> int
    decreases ps.len(),
{
    if ps.len() == 0 {
        0
    } else if ps.last().0 < offset {
        ps.last().0
    } else {
        prev_start(ps.drop_last(), offset)
    }
}

/// The first piece start above `offset`, or `len`.
pub open spec fn next_start(ps: Seq<(int, int)>, offset: int, len: int) -> int
    decreases ps.len(),
{
    if ps.len() == 0 {
        len
    } else if ps[0].0 > offset {
        ps[0].0
    } else {
        next_start(ps.drop_first(), offset, len)
    }
}

/// The text of a piece holds a character that is not white space.
pub open spec fn inked(bytes: Seq<u8>, p: (int, int)) -> bool {
    !crate::text::all_whitespace(decode_utf8(bytes.subrange(p.0, p.0 + p.1)))
}

/// The start of the last inked piece that starts below `offset`, or zero.
pub open spec fn prev_word_start(bytes: Seq<u8>, ps: Seq<(int, int)>, offset: int) -> int
    decreases ps.len(),
{
    if ps.len() == 0 {
        0
    } else if ps.last().0 < offset && inked(bytes, ps.last()) {
        ps.last().0
    } else {
        prev_word_start(bytes, ps.drop_last(), offset)
    }
}

/// The end of the first inked piece that ends above `offset`, or the end.
pub open spec fn next_word_end(bytes: Seq<u8>, ps: Seq<(int, int)>, offset: int) -> int
    decreases ps.len(),
{
    if ps.len() == 0 {
        bytes.len() as int
    } else if ps[0].0 + ps[0].1 > offset && inked(bytes, ps[0]) {
        ps[0].0 + ps[0].1
    } else {
        next_word_end(bytes, ps.drop_first(), offset)
    }
}

/// The text of piece `p` of `bytes`.
pub open spec fn piece_text(bytes: Seq<u8>, p: (int, int)) -> Seq<char> {
    decode_utf8(bytes.subrange(p.0, p.0 + p.1))
}

proof fn lemma_ordered_rest(bytes: Seq<u8>, ps: Seq<(int, int)>)
    requires
        ordered_pieces(bytes, ps),
        ps.len() > 0,
    ensures
        ordered_pieces(bytes, ps.drop_first()),
        ordered_pieces(bytes, ps.drop_last()),
{
    let f = ps.drop_first();
    let l = ps.drop_last();
    assert forall|i: int| 0 <= i < f.len() implies 0 <= (#[trigger] f[i]).0 && 0 < f[i].1 && f[i].0 + f[i].1
        <= bytes.len() && boundary(bytes, f[i].0) && boundary(bytes, f[i].0 + f[i].1) by {
        assert(f[i] == ps[i + 1]);
    }
    assert forall|i: int, j: int| 0 <= i < j < f.len() implies (#[trigger] f[i]).0 + f[i].1 <= (#[trigger] f[j]).0 by {
        assert(f[i] == ps[i + 1] && f[j] == ps[j + 1]);
    }
    assert forall|i: int| 0 <= i < l.len() implies 0 <= (#[trigger] l[i]).0 && 0 < l[i].1 && l[i].0 + l[i].1
        <= bytes.len() && boundary(bytes, l[i].0) && boundary(bytes, l[i].0 + l[i].1) by {
        assert(l[i] == ps[i]);
    }
    assert forall|i: int, j: int| 0 <= i < j < l.len() implies (#[trigger] l[i]).0 + l[i].1 <= (#[trigger] l[j]).0 by {
        assert(l[i] == ps[i] && l[j] == ps[j]);
    }
}

/// Moving right by a grapheme: before the end of the text the result lies
/// strictly after `offset`; it is the first grapheme start after `offset`,
/// or the end of the text when none is.
pub proof fn lemma_next_start(bytes: Seq<u8>, ps: Seq<(int, int)>, offset: int)
    requires
        ordered_pieces(bytes, ps),
    ensures
        ({
            let r = next_start(ps, offset, bytes.len() as int);
            &&& r <= bytes.len()
            &&& offset < bytes.len() ==> offset < r
            &&& r == bytes.len() || exists|j: int| 0 <= j < ps.len() && ps[j].0 == r && offset < r
            &&& forall|j: int| 0 <= j < ps.len() && offset < ps[j].0 ==> r <= #[trigger] ps[j].0
        }),
    decreases ps.len(),
{
    if ps.len() > 0 {
        lemma_ordered_rest(bytes, ps);
        lemma_next_start(bytes, ps.drop_first(), offset);
        let r = next_start(ps, offset, bytes.len() as int);
        assert(0 < ps[0].1 && ps[0].0 + ps[0].1 <= bytes.len());
        if ps[0].0 > offset {
            assert forall|j: int| 0 <= j < ps.len() && offset < ps[j].0 implies r <= #[trigger] ps[j].0 by {
                if j > 0 {
                    assert(ps[0].0 + ps[0].1 <= ps[j].0);
                }
            }
        } else {
            let f = ps.drop_first();
            assert forall|j: int| 0 <= j < ps.len() && offset < ps[j].0 implies r <= #[trigger] ps[j].0 by {
                assert(j > 0);
                assert(f[j - 1] == ps[j]);
            }
            if r != bytes.len() {
                let k = choose|k: int| 0 <= k < f.len() && f[k].0 == r && offset < r;
                assert(ps[k + 1] == f[k]);
            }
        }
    }
}

/// Moving left by a grapheme: the result is the last grapheme start before
/// `offset`, or zero when none is; after the start of the text it lies
/// strictly before `offset`.
pub proof fn lemma_prev_start(bytes: Seq<u8>, ps: Seq<(int, int)>, offset: int)
    requires
        ordered_pieces(bytes, ps),
    ensures
        ({
            let r = prev_start(ps, offset);
            &&& 0 <= r
            &&& 0 < offset ==> r < offset
            &&& r == 0 || exists|j: int| 0 <= j < ps.len() && ps[j].0 == r && r < offset
            &&& forall|j: int| 0 <= j < ps.len() && ps[j].0 < offset ==> #[trigger] ps[j].0 <= r
        }),
    decreases ps.len(),
{
    if ps.len() > 0 {
        lemma_ordered_rest(bytes, ps);
        lemma_prev_start(bytes, ps.drop_last(), offset);
        let r = prev_start(ps, offset);
        let l = ps.drop_last();
        let n = ps.len() - 1;
        assert(0 <= ps[n].0);
        if ps[n].0 < offset {
            assert forall|j: int| 0 <= j < ps.len() && ps[j].0 < offset implies #[trigger] ps[j].0 <= r by {
                if j < n {
                    assert(ps[j].0 + ps[j].1 <= ps[n].0);
                    assert(0 < ps[j].1);
                }
            }
        } else {
            assert forall|j: int| 0 <= j < ps.len() && ps[j].0 < offset implies #[trigger] ps[j].0 <= r by {
                assert(j < n);
                assert(l[j] == ps[j]);
            }
            if r != 0 {
                let k = choose|k: int| 0 <= k < l.len() && l[k].0 == r && r < offset;
                assert(ps[k] == l[k]);
            }
        }
    }
}

/// Moving left by a word: the result is the start of the last word segment
/// that starts before `offset` and holds a character that is not white
/// space, or zero when none does. Segments of white space alone are passed
/// over.
pub proof fn lemma_prev_word_start(bytes: Seq<u8>, ps: Seq<(int, int)>, offset: int)
    requires
        ordered_pieces(bytes, ps),
    ensures
        ({
            let r = prev_word_start(bytes, ps, offset);
            &&& 0 <= r
            &&& 0 < offset ==> r < offset
            &&& r == 0 || exists|j: int|
                0 <= j < ps.len() && ps[j].0 == r && r < offset && !crate::text::all_whitespace(
                    piece_text(bytes, ps[j]),
                )
            &&& forall|j: int|
                0 <= j < ps.len() && ps[j].0 < offset && !crate::text::all_whitespace(piece_text(bytes, ps[j]))
                    ==> #[trigger] ps[j].0 <= r
        }),
    decreases ps.len(),
{
    if ps.len() > 0 {
        lemma_ordered_rest(bytes, ps);
        lemma_prev_word_start(bytes, ps.drop_last(), offset);
        let r = prev_word_start(bytes, ps, offset);
        let l = ps.drop_last();
        let n = ps.len() - 1;
        assert(0 <= ps[n].0);
        if ps[n].0 < offset && inked(bytes, ps[n]) {
            assert forall|j: int|
                0 <= j < ps.len() && ps[j].0 < offset && !crate::text::all_whitespace(piece_text(bytes, ps[j]))
                    implies #[trigger] ps[j].0 <= r by {
                if j < n {
                    assert(ps[j].0 + ps[j].1 <= ps[n].0);
                    assert(0 < ps[j].1);
                }
            }
        } else {
            assert forall|j: int|
                0 <= j < ps.len() && ps[j].0 < offset && !crate::text::all_whitespace(piece_text(bytes, ps[j]))
                    implies #[trigger] ps[j].0 <= r by {
                assert(j < n);
                assert(l[j] == ps[j]);
            }
            if r != 0 {
                let k = choose|k: int|
                    0 <= k < l.len() && l[k].0 == r && r < offset && !crate::text::all_whitespace(
                        piece_text(bytes, l[k]),
                    );
                assert(ps[k] == l[k]);
            }
        }
    }
}

/// Moving right by a word: the result is the end of the first word segment
/// that ends after `offset` and holds a character that is not white space,
/// or the end of the text when none does. Before the end of the text it
/// lies strictly after `offset`.
pub proof fn lemma_next_word_end(bytes: Seq<u8>, ps: Seq<(int, int)>, offset: int)
    requires
        ordered_pieces(bytes, ps),
    ensures
        ({
            let r = next_word_end(bytes, ps, offset);
            &&& r <= bytes.len()
            &&& offset < bytes.len() ==> offset < r
            &&& r == bytes.len() || exists|j: int|
                0 <= j < ps.len() && ps[j].0 + ps[j].1 == r && offset < r && !crate::text::all_whitespace(
                    piece_text(bytes, ps[j]),
                )
            &&& forall|j: int|
                0 <= j < ps.len() && offset < ps[j].0 + ps[j].1 && !crate::text::all_whitespace(
                    piece_text(bytes, ps[j]),
                ) ==> r <= #[trigger] ps[j].0 + ps[j].1
        }),
    decreases ps.len(),
{
    if ps.len() > 0 {
        lemma_ordered_rest(bytes, ps);
        lemma_next_word_end(bytes, ps.drop_first(), offset);
        let r = next_word_end(bytes, ps, offset);
        let f = ps.drop_first();
        assert(0 < ps[0].1 && ps[0].0 + ps[0].1 <= bytes.len());
        if ps[0].0 + ps[0].1 > offset && inked(bytes, ps[0]) {
            assert forall|j: int|
                0 <= j < ps.len() && offset < ps[j].0 + ps[j].1 && !crate::text::all_whitespace(
                    piece_text(bytes, ps[j]),
                ) implies r <= #[trigger] ps[j].0 + ps[j].1 by {
                if j > 0 {
                    assert(ps[0].0 + ps[0].1 <= ps[j].0);
                }
            }
        } else {
            assert forall|j: int|
                0 <= j < ps.len() && offset < ps[j].0 + ps[j].1 && !crate::text::all_whitespace(
                    piece_text(bytes, ps[j]),
                ) implies r <= #[trigger] ps[j].0 + ps[j].1 by {
                assert(j > 0);
                assert(f[j - 1] == ps[j]);
            }
            if r != bytes.len() {
                let k = choose|k: int|
                    0 <= k < f.len() && f[k].0 + f[k].1 == r && offset < r && !crate::text::all_whitespace(
                        piece_text(bytes, f[k]),
                    );
                assert(ps[k + 1] == f[k]);
            }
        }
    }
}

/// Just after the last newline before `offset`, or zero.
pub open spec fn line_start(b: Seq<u8>, offset: int) -> int
    decreases offset,
{
    if offset <= 0 {
        0
    } else if b[offset - 1] == 10 {
        offset
    } else {
        line_start(b, offset - 1)
    }
}

/// The first newline at or after `offset`, or the end.
pub open spec fn line_end(b: Seq<u8>, offset: int) -> int
    decreases b.len() - offset,
{
    if offset >= b.len() {
        b.len() as int
    } else if b[offset] == 10 {
        offset
    } else {
        line_end(b, offset + 1)
    }
}

/// The start of a line: at or before `offset`, just after a newline or at
/// the start of the text, with no newline between it and `offset`.
pub proof fn lemma_line_start(b: Seq<u8>, offset: int)
    requires
        0 <= offset <= b.len(),
    ensures
        0 <= line_start(b, offset) <= offset,
        line_start(b, offset) == 0 || b[line_start(b, offset) - 1] == 10,
        forall|i: int| line_start(b, offset) <= i < offset ==> #[trigger] b[i] != 10,
    decreases offset,
{
    if offset > 0 && b[offset - 1] != 10 {
        lemma_line_start(b, offset - 1);
    }
}

/// The end of a line: at or after `offset`, at a newline or at the end of
/// the text, with no newline between `offset` and it.
pub proof fn lemma_line_end(b: Seq<u8>, offset: int)
    requires
        0 <= offset <= b.len(),
    ensures
        offset <= line_end(b, offset) <= b.len(),
        line_end(b, offset) == b.len() || b[line_end(b, offset)] == 10,
        forall|i: int| offset <= i < line_end(b, offset) ==> #[trigger] b[i] != 10,
    decreases b.len() - offset,
{
    if offset < b.len() && b[offset] != 10 {
        lemma_line_end(b, offset + 1);
    }
}

/// A run of word characters reaches back from `k` to just after a
/// character that is not one, or to the start.
pub proof fn lemma_run_start_law(s: Seq<char>, k: int)
    requires
        0 <= k <= s.len(),
    ensures
        0 <= run_start(s, k) <= k,
        run_start(s, k) == 0 || !(alphanumeric(s[run_start(s, k) - 1]) || s[run_start(s, k) - 1] == '_'),
        forall|i: int| run_start(s, k) <= i < k ==> alphanumeric(#[trigger] s[i]) || s[i] == '_',
    decreases k,
{
    if k > 0 && word_char(s[k - 1]) {
        lemma_run_start_law(s, k - 1);
    }
}

/// A run of word characters reaches on from `k` to just before a character
/// that is not one, or to the end.
pub proof fn lemma_run_end_law(s: Seq<char>, k: int)
    requires
        0 <= k <= s.len(),
    ensures
        k <= run_end(s, k) <= s.len(),
        run_end(s, k) == s.len() || !(alphanumeric(s[run_end(s, k)]) || s[run_end(s, k)] == '_'),
        forall|i: int| k <= i < run_end(s, k) ==> alphanumeric(#[trigger] s[i]) || s[i] == '_',
    decreases s.len() - k,
{
    if k < s.len() && word_char(s[k]) {
        lemma_run_end_law(s, k + 1);
    }
}

/// The character floor of byte `ix`: the most characters whose UTF-8 length
/// stays within `ix`.
pub proof fn lemma_char_floor_law(s: Seq<char>, ix: int, k: int)
    requires
        0 <= k <= s.len(),
        utf8_len(s.take(k)) <= ix,
    ensures
        k <= char_floor(s, ix, k) <= s.len(),
        utf8_len(s.take(char_floor(s, ix, k))) <= ix,
        char_floor(s, ix, k) == s.len() || ix < utf8_len(s.take(char_floor(s, ix, k) + 1)),
    decreases s.len() - k,
{
    if k < s.len() && utf8_len(s.take(k + 1)) <= ix {
        lemma_char_floor_law(s, ix, k + 1);
    }
}

/// Text on one line holds no carriage return and no line feed, and text
/// that held none comes through unchanged.
pub proof fn lemma_single_line(s: Seq<char>)
    ensures
        forall|i: int| 0 <= i < single_line(s).len() ==> #[trigger] single_line(s)[i] != '\r' && single_line(s)[i] != '\n',
        (forall|i: int| 0 <= i < s.len() ==> #[trigger] s[i] != '\r' && s[i] != '\n') ==> single_line(s) == s,
        single_line(s).len() <= s.len(),
    decreases s.len(),
{
    if s.len() > 0 {
        let rest = s.drop_last();
        lemma_single_line(rest);
        if forall|i: int| 0 <= i < s.len() ==> #[trigger] s[i] != '\r' && s[i] != '\n' {
            assert forall|i: int| 0 <= i < rest.len() implies #[trigger] rest[i] != '\r' && rest[i] != '\n' by {
                assert(rest[i] == s[i]);
            }
            assert(s.last() == s[s.len() - 1]);
            assert(rest.push(s.last()) =~= s);
        }
        let out = single_line(s);
        let r = single_line(rest);
        assert forall|i: int| 0 <= i < out.len() implies #[trigger] out[i] != '\r' && out[i] != '\n' by {
            if i < r.len() {
                assert(out[i] == r[i]);
            }
        }
    }
}

/// What an undo step records: text, selection, direction.
pub open spec fn step_view(s: EditSnapshot) -> (Seq<char>, Range<usize>, bool) {
    (s.content@, s.selected_range, s.selection_reversed)
}

/// The views of undo steps.
pub open spec fn steps(h: Seq<EditSnapshot>) -> Seq<(Seq<char>, Range<usize>, bool)> {
    h.map_values(|s: EditSnapshot| step_view(s))
}

/// Undo steps after pushing one, dropping the oldest at the limit.
pub open spec fn pushed<T>(h: Seq<T>, s: T) -> Seq<T> {
    if h.len() == UNDO_LIMIT {
        h.drop_first().push(s)
    } else {
        h.push(s)
    }
}

/// Milliseconds from `when` to `now`, zero when `now` is earlier.
pub open spec fn elapsed(now: u64, when: u64) -> u64 {
    if now >= when {
        (now - when) as u64
    } else {
        0
    }
}

/// The bytes after replacing `start..end` of `b` with `r`.
pub open spec fn spliced(b: Seq<u8>, start: int, end: int, r: Seq<u8>) -> Seq<u8> {
    b.subrange(0, start) + r + b.subrange(end, b.len() as int)
}

/// Why an application command was refused.
#[derive(Clone, Copy, Debug, PartialEq, Eq, Structural)]
pub enum EditError {
    /// The command was issued against an older revision.
    Stale,
    /// An input method composition is in progress.
    Composing,
    /// The selection's start exceeds its end.
    Inverted,
    /// The selection lies outside the text or splits a surrogate pair.
    Unaligned,
}

impl EditError {
    /// The human-readable message of this error.
    pub fn message(&self) -> (r: String)
        ensures
            r@ == match *self {
                EditError::Stale => "stale input revision"@,
                EditError::Composing => "input composition is active"@,
                EditError::Inverted => "selection start exceeds end"@,
                EditError::Unaligned => "selection is outside text or splits a UTF-16 surrogate pair"@,
            },
    {
        match self {
            EditError::Stale => "stale input revision".to_string(),
            EditError::Composing => "input composition is active".to_string(),
            EditError::Inverted => "selection start exceeds end".to_string(),
            EditError::Unaligned => "selection is outside text or splits a UTF-16 surrogate pair".to_string(),
        }
    }
}

/// The revision after one more change.
pub open spec fn next_revision(r: u64) -> u64 {
    if r == u64::MAX {
        0
    } else {
        (r + 1) as u64
    }
}

/// What an input holds, as its operations speak of it.
#[verifier::ext_equal]
pub struct EditorView {
    pub text: Seq<char>,
    pub range: Range<usize>,
    pub reversed: bool,
    pub marked: Option<Range<usize>>,
    pub rev: u64,
    pub multiline: bool,
    pub read_only: bool,
    pub undo: Seq<(Seq<char>, Range<usize>, bool)>,
    pub redo: Seq<(Seq<char>, Range<usize>, bool)>,
    pub last: Option<(CoalescingEdit, u64)>,
}

/// The UTF-8 bytes of a view's text.
pub open spec fn vbytes(v: EditorView) -> Seq<u8> {
    crate::text::utf8_of(v.text)
}

/// The caret offset of a view.
pub open spec fn caret(v: EditorView) -> usize {
    if v.reversed {
        v.range.start
    } else {
        v.range.end
    }
}

/// The caret at `offset`, or at the end when past it.
pub open spec fn moved(v: EditorView, offset: usize) -> EditorView {
    let o = clamp(offset, vbytes(v).len() as int);
    EditorView { range: span(o, o), reversed: false, rev: next_revision(v.rev), ..v }
}

/// The caret end of the selection moved to `offset`, or to the end when
/// past it; the selection turns around when the caret crosses its anchor.
pub open spec fn selected(v: EditorView, offset: usize) -> EditorView {
    let o = clamp(offset, vbytes(v).len() as int);
    let anchor = if v.reversed {
        v.range.end
    } else {
        v.range.start
    };
    let (range, reversed) = if v.reversed && o <= anchor || !v.reversed && anchor <= o {
        (
            if v.reversed {
                span(o, anchor)
            } else {
                span(anchor, o)
            },
            v.reversed,
        )
    } else {
        (
            if v.reversed {
                span(anchor, o)
            } else {
                span(o, anchor)
            },
            !v.reversed,
        )
    };
    EditorView { range, reversed, rev: next_revision(v.rev), ..v }
}

/// The byte offset of UTF-16 offset `x` of the view's text: the first
/// character boundary at or after it, or the end.
pub open spec fn from16(v: EditorView, x: usize) -> usize {
    utf8_len(v.text.take(utf16_stop(v.text, x as int, 0))) as usize
}

/// The UTF-16 offset of byte offset `x` of the view's text.
pub open spec fn to16(v: EditorView, x: usize) -> usize {
    utf16_len(v.text.take(utf8_stop(v.text, x as int, 0))) as usize
}

/// The range an edit replaces: the given UTF-16 range, else the
/// composition, else the selection.
pub open spec fn target(v: EditorView, range16: Option<Range<usize>>) -> Range<usize> {
    match range16 {
        Some(r) => span(from16(v, r.start), from16(v, r.end)),
        None => match v.marked {
            Some(m) => m,
            None => v.range,
        },
    }
}

/// The text an edit inserts: kept as given in a multi-line input.
pub open spec fn inserted(v: EditorView, t: Seq<char>) -> Seq<char> {
    if v.multiline {
        t
    } else {
        single_line(t)
    }
}

/// The history after an edit of `range` by `repl`: a new undo step unless
/// it merges into the last one, no redo steps, and the edit as the last one.
pub open spec fn recorded(v: EditorView, range: Range<usize>, repl: Seq<char>, now: u64) -> EditorView {
    let len = crate::text::utf8_of(repl).len() as int;
    let current = coalescing(range, repl, len, v.reversed);
    let merges = match v.last {
        Some((p, w)) => coalesces(p, current, range, elapsed(now, w)),
        None => false,
    };
    EditorView {
        undo: if merges {
            v.undo
        } else {
            pushed(v.undo, (v.text, v.range, v.reversed))
        },
        redo: Seq::empty(),
        last: match current {
            Some(e) => Some((e, now)),
            None => None,
        },
        ..v
    }
}

/// The view after a native edit replaces its target with `new_text`: the
/// caret after the inserted text, no composition, one revision on.
pub open spec fn replaced(v: EditorView, range16: Option<Range<usize>>, new_text: Seq<char>, now: u64) -> EditorView {
    if v.read_only {
        v
    } else {
        let r = target(v, range16);
        let repl = inserted(v, new_text);
        let rb = crate::text::utf8_of(repl);
        let h = if v.marked is None {
            recorded(v, r, repl, now)
        } else {
            v
        };
        let cursor = (r.start + rb.len()) as usize;
        EditorView {
            text: decode_utf8(spliced(vbytes(v), r.start as int, r.end as int, rb)),
            range: span(cursor, cursor),
            reversed: false,
            marked: None,
            rev: next_revision(v.rev),
            ..h
        }
    }
}

/// The view after an undo: the last undo step comes back, the present goes
/// on the redo list, the composition and the coalescing edit end.
pub open spec fn undone(v: EditorView) -> EditorView {
    if v.read_only || v.undo.len() == 0 {
        v
    } else {
        let s = v.undo.last();
        EditorView {
            text: s.0,
            range: s.1,
            reversed: s.2,
            marked: None,
            rev: next_revision(v.rev),
            undo: v.undo.drop_last(),
            redo: v.redo.push((v.text, v.range, v.reversed)),
            last: None,
            ..v
        }
    }
}

/// The view after a redo: the last undone step comes back, the present goes
/// on the undo list.
pub open spec fn redone(v: EditorView) -> EditorView {
    if v.read_only || v.redo.len() == 0 {
        v
    } else {
        let s = v.redo.last();
        EditorView {
            text: s.0,
            range: s.1,
            reversed: s.2,
            marked: None,
            rev: next_revision(v.rev),
            undo: pushed(v.undo, (v.text, v.range, v.reversed)),
            redo: v.redo.drop_last(),
            last: None,
            ..v
        }
    }
}

/// Whether a native edit of a view begins its own undo step rather than
/// merging into the last one.
pub open spec fn starts_step(v: EditorView, range16: Option<Range<usize>>, new_text: Seq<char>, now: u64) -> bool {
    let r = target(v, range16);
    let repl = inserted(v, new_text);
    match v.last {
        Some((p, w)) => !coalesces(
            p,
            coalescing(r, repl, crate::text::utf8_of(repl).len() as int, v.reversed),
            r,
            elapsed(now, w),
        ),
        None => true,
    }
}

/// A native edit that begins its own undo step is taken back by one undo:
/// the text, the selection and its direction are those before the edit.
pub proof fn lemma_undo_restores_edit(v: EditorView, range16: Option<Range<usize>>, new_text: Seq<char>, now: u64)
    requires
        !v.read_only,
        v.marked is None,
        starts_step(v, range16, new_text, now),
    ensures
        ({
            let u = undone(replaced(v, range16, new_text, now));
            u.text == v.text && u.range == v.range && u.reversed == v.reversed
        }),
{
    let w = replaced(v, range16, new_text, now);
    assert(w.undo.last() == (v.text, v.range, v.reversed));
}

/// An undo followed by a redo gives back the text, selection and undo
/// history that were there before the undo.
pub proof fn lemma_redo_after_undo(v: EditorView)
    requires
        !v.read_only,
        v.undo.len() > 0,
        v.undo.len() <= UNDO_LIMIT,
    ensures
        ({
            let r = redone(undone(v));
            r.text == v.text && r.range == v.range && r.reversed == v.reversed && r.undo == v.undo
                && r.redo == v.redo
        }),
{
    let u = undone(v);
    assert(u.redo.last() == (v.text, v.range, v.reversed));
    assert(u.redo.drop_last() =~= v.redo);
    assert(u.undo.push(v.undo.last()) =~= v.undo);
}

/// An undo followed by a redo, after a native edit with an undo step to go
/// back to, lands on the edited text with the caret after the insertion.
pub proof fn lemma_redo_replays_edit(v: EditorView, range16: Option<Range<usize>>, new_text: Seq<char>, now: u64)
    requires
        !v.read_only,
        v.marked is None,
        v.undo.len() <= UNDO_LIMIT,
        starts_step(v, range16, new_text, now) || v.undo.len() > 0,
    ensures
        ({
            let w = replaced(v, range16, new_text, now);
            let r = redone(undone(w));
            r.text == w.text && r.range == w.range && r.reversed == w.reversed
        }),
{
    let w = replaced(v, range16, new_text, now);
    assert(w.undo.len() > 0);
}

proof fn lemma_splice_boundary(b: Seq<u8>, start: int, end: int, rb: Seq<u8>, k: int)
    requires
        0 <= start <= b.len(),
        0 <= end <= b.len(),
        boundary(b, start),
        boundary(b, end),
        valid_utf8(b),
        valid_utf8(rb),
        0 <= k <= rb.len(),
        boundary(rb, k),
    ensures
        boundary(spliced(b, start, end, rb), start + k),
        spliced(b, start, end, rb).len() == start + rb.len() + (b.len() - end),
{
    let n = spliced(b, start, end, rb);
    assert(n.len() == start + rb.len() + (b.len() - end));
    if k < rb.len() {
        if k == 0 {
            is_char_boundary_start_end_of_seq(rb);
            is_char_boundary_iff_not_is_continuation_byte(rb, 0);
        }
        assert(n[start + k] == rb[k]);
    } else if end < b.len() {
        if end == 0 {
            is_char_boundary_start_end_of_seq(b);
            is_char_boundary_iff_not_is_continuation_byte(b, 0);
        }
        assert(n[start + k] == b[end]);
    }
}

/// A byte offset from a UTF-16 offset is a boundary within the text.
proof fn lemma_from16(v: EditorView, x: usize)
    requires
        vbytes(v).len() <= usize::MAX,
    ensures
        boundary(vbytes(v), from16(v, x) as int),
        from16(v, x) <= vbytes(v).len(),
        from16(v, x) as int == utf8_len(v.text.take(utf16_stop(v.text, x as int, 0))),
{
    crate::offsets::lemma_utf16_stop_range(v.text, x as int, 0);
    let k = utf16_stop(v.text, x as int, 0);
    crate::text::lemma_prefix_is_boundary(v.text, k);
}

/// The byte offset within `t` of UTF-16 offset `x` of `t`.
pub open spec fn within16(t: Seq<char>, x: usize) -> int {
    utf8_len(t.take(utf16_stop(t, x as int, 0)))
}

/// The view after a composition step replaces its target with `new_text`
/// and marks it; the selection falls inside the new text when given in
/// UTF-16 offsets of it, else after it. The first step of a composition
/// records one undo step for the whole composition.
pub open spec fn marked_replaced(
    v: EditorView,
    range16: Option<Range<usize>>,
    new_text: Seq<char>,
    sel16: Option<Range<usize>>,
) -> EditorView {
    if v.read_only {
        v
    } else {
        let r = target(v, range16);
        let repl = inserted(v, new_text);
        let rb = crate::text::utf8_of(repl);
        let h = if v.marked is None {
            EditorView {
                undo: pushed(v.undo, (v.text, v.range, v.reversed)),
                redo: Seq::empty(),
                last: None,
                ..v
            }
        } else {
            v
        };
        let cursor = (r.start + rb.len()) as usize;
        EditorView {
            text: decode_utf8(spliced(vbytes(v), r.start as int, r.end as int, rb)),
            marked: if rb.len() > 0 {
                Some(span(r.start, cursor))
            } else {
                None
            },
            range: match sel16 {
                Some(x) => span(
                    (r.start + within16(repl, x.start)) as usize,
                    (r.start + within16(repl, x.end)) as usize,
                ),
                None => span(cursor, cursor),
            },
            rev: next_revision(v.rev),
            ..h
        }
    }
}

/// Why an application command is refused before it looks at its arguments.
pub open spec fn revision_error(v: EditorView, expected: u64) -> Option<EditError> {
    if expected != v.rev {
        Some(EditError::Stale)
    } else if v.marked is Some {
        Some(EditError::Composing)
    } else {
        None
    }
}

/// The view after the application replaces the whole text: one undo step,
/// the caret at the end, unless the text is already that.
pub open spec fn value_replaced(v: EditorView, value: Seq<char>) -> EditorView {
    let t = inserted(v, value);
    if t == v.text {
        v
    } else {
        let end = crate::text::utf8_of(t).len() as usize;
        EditorView {
            text: t,
            range: span(end, end),
            reversed: false,
            undo: pushed(v.undo, (v.text, v.range, v.reversed)),
            redo: Seq::empty(),
            last: None,
            rev: next_revision(v.rev),
            ..v
        }
    }
}

/// The empty text.
pub open spec fn nothing() -> Seq<char> {
    Seq::empty()
}

/// Deletes the selection, or, when it is empty, from the caret to `to`;
/// nothing when `to` is the caret. A read-only input refuses.
pub open spec fn deleted_to(v: EditorView, to: usize, now: u64) -> EditorView {
    if v.read_only {
        v
    } else if v.range.start == v.range.end {
        if to == caret(v) {
            v
        } else {
            replaced(selected(v, to), None, nothing(), now)
        }
    } else {
        replaced(v, None, nothing(), now)
    }
}

/// The start of a line is a boundary.
proof fn lemma_line_start_boundary(b: Seq<u8>, offset: int)
    requires
        valid_utf8(b),
        0 <= offset <= b.len(),
    ensures
        0 <= line_start(b, offset) <= offset,
        boundary(b, line_start(b, offset)),
    decreases offset,
{
    if offset > 0 && b[offset - 1] != 10 {
        lemma_line_start_boundary(b, offset - 1);
    } else if offset > 0 {
        crate::text::lemma_after_newline(b, offset - 1);
    }
}

/// The end of a line is a boundary.
proof fn lemma_line_end_boundary(b: Seq<u8>, offset: int)
    requires
        0 <= offset <= b.len(),
    ensures
        offset <= line_end(b, offset) <= b.len(),
        boundary(b, line_end(b, offset)),
    decreases b.len() - offset,
{
    if offset < b.len() && b[offset] != 10 {
        lemma_line_end_boundary(b, offset + 1);
    }
}

/// The text state of an input: its content, selection, composition,
/// revision counter and undo history.
pub struct Editor {
    content: String,
    selected_range: Range<usize>,
    selection_reversed: bool,
    marked_range: Option<Range<usize>>,
    revision: u64,
    multiline: bool,
    read_only: bool,
    undo_stack: VecDeque<EditSnapshot>,
    redo_stack: Vec<EditSnapshot>,
    last_edit: Option<(CoalescingEdit, u64)>,
}

impl View for Editor {
    type V = EditorView;

    open spec fn view(&self) -> EditorView {
        EditorView {
            text: self.text(),
            range: self.range(),
            reversed: self.reversed(),
            marked: self.marked(),
            rev: self.rev(),
            multiline: self.is_multiline(),
            read_only: self.is_read_only(),
            undo: steps(self.undo_steps()),
            redo: steps(self.redo_steps()),
            last: self.last(),
        }
    }
}

impl Editor {
    /// The text.
    pub closed spec fn text(&self) -> Seq<char> {
        self.content@
    }

    /// The text's UTF-8 bytes.
    pub open spec fn bytes(&self) -> Seq<u8> {
        crate::text::utf8_of(self.text())
    }

    /// The selected byte range.
    pub closed spec fn range(&self) -> Range<usize> {
        self.selected_range
    }

    /// The caret is at the start of the selection.
    pub closed spec fn reversed(&self) -> bool {
        self.selection_reversed
    }

    /// The byte range of the composition in progress, if any.
    pub closed spec fn marked(&self) -> Option<Range<usize>> {
        self.marked_range
    }

    /// The revision counter, advanced by every change of text or selection.
    pub closed spec fn rev(&self) -> u64 {
        self.revision
    }

    /// Newlines are kept.
    pub closed spec fn is_multiline(&self) -> bool {
        self.multiline
    }

    /// Native editing is refused.
    pub closed spec fn is_read_only(&self) -> bool {
        self.read_only
    }

    /// The undo steps, oldest first.
    pub closed spec fn undo_steps(&self) -> Seq<EditSnapshot> {
        self.undo_stack@
    }

    /// The redo steps, the next one last.
    pub closed spec fn redo_steps(&self) -> Seq<EditSnapshot> {
        self.redo_stack@
    }

    /// The last mergeable edit and when it happened, in milliseconds.
    pub closed spec fn last(&self) -> Option<(CoalescingEdit, u64)> {
        self.last_edit
    }

    /// The selection and composition lie within the text on character
    /// boundaries, and so do those of every undo and redo step.
    pub closed spec fn wf(&self) -> bool {
        let b = crate::text::utf8_of(self.content@);
        &&& span_ok(b, self.selected_range)
        &&& (self.marked_range matches Some(m) ==> span_ok(b, m))
        &&& self.undo_stack@.len() <= UNDO_LIMIT
        &&& forall|i: int| 0 <= i < self.undo_stack@.len() ==> #[trigger] snapshot_ok(self.undo_stack@[i])
        &&& forall|i: int| 0 <= i < self.redo_stack@.len() ==> #[trigger] snapshot_ok(self.redo_stack@[i])
    }

    /// Unchanged text, composition, history and settings.
    pub open spec fn same_but_selection(&self, old: &Editor) -> bool {
        &&& self.text() == old.text()
        &&& self.marked() == old.marked()
        &&& self.is_multiline() == old.is_multiline()
        &&& self.is_read_only() == old.is_read_only()
        &&& self.undo_steps() == old.undo_steps()
        &&& self.redo_steps() == old.redo_steps()
        &&& self.last() == old.last()
    }

    /// The text.
    pub fn content(&self) -> (r: &str)
        ensures
            r@ == self.text(),
    {
        self.content.as_str()
    }

    /// The selected byte range.
    pub fn selected_range(&self) -> (r: Range<usize>)
        ensures
            r == self.range(),
    {
        self.selected_range.start..self.selected_range.end
    }

    /// The caret is at the start of the selection.
    pub fn selection_reversed(&self) -> (r: bool)
        ensures
            r == self.reversed(),
    {
        self.selection_reversed
    }

    /// The byte range of the composition in progress, if any.
    pub fn marked_range(&self) -> (r: Option<Range<usize>>)
        ensures
            r == self.marked(),
    {
        match &self.marked_range {
            Some(m) => Some(m.start..m.end),
            None => None,
        }
    }

    /// The revision counter.
    pub fn revision(&self) -> (r: u64)
        ensures
            r == self.rev(),
    {
        self.revision
    }

    /// The number of undo steps.
    pub fn undo_len(&self) -> (r: usize)
        ensures
            r == self.undo_steps().len(),
    {
        self.undo_stack.len()
    }

    /// The number of redo steps.
    pub fn redo_len(&self) -> (r: usize)
        ensures
            r == self.redo_steps().len(),
    {
        self.redo_stack.len()
    }

    /// The byte length of the text.
    fn text_len(&self) -> (r: usize)
        ensures
            r == self.bytes().len(),
    {
        self.content.as_str().as_bytes().len()
    }

    /// Where the caret is: the selection's start when reversed, else its end.
    pub fn cursor_offset(&self) -> (r: usize)
        ensures
            r == if self.reversed() {
                self.range().start
            } else {
                self.range().end
            },
    {
        if self.selection_reversed {
            self.selected_range.start
        } else {
            self.selected_range.end
        }
    }

    /// Puts the caret at `offset`, or at the end when past it.
    pub fn move_to(&mut self, offset: usize)
        requires
            old(self).wf(),
            boundary(old(self).bytes(), clamp(offset, old(self).bytes().len() as int) as int),
        ensures
            final(self).wf(),
            final(self).same_but_selection(old(self)),
            final(self).range() == span(
                clamp(offset, old(self).bytes().len() as int),
                clamp(offset, old(self).bytes().len() as int),
            ),
            !final(self).reversed(),
            final(self).rev() == next_revision(old(self).rev()),
            final(self)@ == moved(old(self)@, offset),
    {
        let len = self.text_len();
        let offset = if offset < len {
            offset
        } else {
            len
        };
        self.selected_range = offset..offset;
        self.selection_reversed = false;
        self.revision = self.revision.wrapping_add(1);
        assert(self@ =~= moved(old(self)@, offset));
    }

    /// Moves the caret end of the selection to `offset`, or to the end when
    /// past it; the selection turns around when the caret crosses its anchor.
    pub fn select_to(&mut self, offset: usize)
        requires
            old(self).wf(),
            boundary(old(self).bytes(), clamp(offset, old(self).bytes().len() as int) as int),
        ensures
            final(self).wf(),
            final(self).same_but_selection(old(self)),
            ({
                let o = clamp(offset, old(self).bytes().len() as int);
                let anchor = if old(self).reversed() {
                    old(self).range().end
                } else {
                    old(self).range().start
                };
                if old(self).reversed() && o <= anchor || !old(self).reversed() && anchor <= o {
                    final(self).reversed() == old(self).reversed() && final(self).range() == if old(self).reversed() {
                        span(o, anchor)
                    } else {
                        span(anchor, o)
                    }
                } else {
                    final(self).reversed() == !old(self).reversed() && final(self).range() == if old(self).reversed() {
                        span(anchor, o)
                    } else {
                        span(o, anchor)
                    }
                }
            }),
            final(self).rev() == next_revision(old(self).rev()),
            final(self)@ == selected(old(self)@, offset),
    {
        let len = self.text_len();
        let offset = if offset < len {
            offset
        } else {
            len
        };
        let mut start = self.selected_range.start;
        let mut end = self.selected_range.end;
        if self.selection_reversed {
            start = offset;
        } else {
            end = offset;
        }
        if end < start {
            self.selection_reversed = !self.selection_reversed;
            self.selected_range = end..start;
        } else {
            self.selected_range = start..end;
        }
        self.revision = self.revision.wrapping_add(1);
        assert(self@ =~= selected(old(self)@, offset));
    }

    /// What a mouse press at byte `index` does to the selection: a triple
    /// click selects everything, a double click the word there, a shifted
    /// click extends the selection, any other click places the caret.
    /// Returns the press's intent, which says whether a drag may follow.
    pub fn press(&mut self, click_count: usize, shift: bool, index: usize) -> (intent: PressIntent)
        requires
            old(self).wf(),
            boundary(old(self).bytes(), clamp(index, old(self).bytes().len() as int) as int),
        ensures
            final(self).wf(),
            intent == intent_of(click_count, shift),
            final(self)@ == match intent {
                PressIntent::SelectAll => selected(moved(old(self)@, 0), old(self).bytes().len() as usize),
                PressIntent::SelectWord => {
                    let (a, b) = input_word(old(self).text(), index as int);
                    selected(
                        moved(old(self)@, utf8_len(old(self).text().take(a)) as usize),
                        utf8_len(old(self).text().take(b)) as usize,
                    )
                },
                PressIntent::ExtendSelection => selected(old(self)@, index),
                PressIntent::PlaceCaret => moved(old(self)@, index),
            },
    {
        let intent = press_intent(click_count, shift);
        match intent {
            PressIntent::SelectAll => {
                self.move_to(0);
                let len = self.text_len();
                self.select_to(len);
            },
            PressIntent::SelectWord => {
                let range = word_range(self.content.as_str(), index);
                proof {
                    let t = self.text();
                    lemma_char_floor(t, index as int, 0);
                    let k = char_floor(t, index as int, 0);
                    lemma_runs(t, k);
                    let (a, b) = input_word(t, index as int);
                    crate::text::lemma_prefix_is_boundary(t, a);
                    crate::text::lemma_prefix_is_boundary(t, b);
                }
                self.move_to(range.start);
                self.select_to(range.end);
            },
            PressIntent::ExtendSelection => {
                self.select_to(index);
            },
            PressIntent::PlaceCaret => {
                self.move_to(index);
            },
        }
        intent
    }

    /// Selects the whole text, forwards.
    pub fn select_all(&mut self)
        requires
            old(self).wf(),
        ensures
            final(self).wf(),
            final(self).same_but_selection(old(self)),
            final(self).range() == span(0, old(self).bytes().len() as usize),
            !final(self).reversed(),
            final(self).rev() == old(self).rev(),
    {
        let len = self.text_len();
        self.selected_range = 0..len;
        self.selection_reversed = false;
    }

    /// The start of the last grapheme that starts before `offset`, or zero.
    pub fn previous_boundary(&self, offset: usize) -> (r: usize)
        ensures
            r == prev_start(graphemes(self.text()), offset as int),
            boundary(self.bytes(), r as int),
            r <= self.bytes().len(),
            0 < offset ==> r < offset,
            r == 0 || exists|j: int| 0 <= j < graphemes(self.text()).len() && graphemes(self.text())[j].0 == r,
            forall|j: int|
                0 <= j < graphemes(self.text()).len() && graphemes(self.text())[j].0 < offset ==> #[trigger] graphemes(
                    self.text(),
                )[j].0 <= r,
    {
        let ps = grapheme_pieces(self.content.as_str());
        let ghost g = graphemes(self.text());
        let mut i = ps.len();
        proof {
            assert(pieces_view(ps@).take(i as int) =~= pieces_view(ps@));
        }
        while i > 0
            invariant
                i <= ps@.len(),
                g == pieces_view(ps@),
                g == graphemes(self.text()),
                covering_pieces(self.bytes(), g),
                prev_start(g, offset as int) == prev_start(g.take(i as int), offset as int),
            decreases i,
        {
            let (start, _len) = ps[i - 1];
            proof {
                assert(g[i - 1] == (start as int, _len as int));
                assert(g.take(i as int).last() == g[i - 1]);
                assert(g.take(i as int).drop_last() =~= g.take(i - 1));
            }
            if start < offset {
                proof {
                    assert(ordered_pieces(self.bytes(), g));
                    assert(0 <= g[i - 1].0);
                    assert(prev_start(g.take(i as int), offset as int) == start);
                    lemma_prev_start(self.bytes(), g, offset as int);
                }
                return start;
            }
            i = i - 1;
        }
        proof {
            assert(g.take(i as int).len() == 0);
            lemma_prev_start(self.bytes(), g, offset as int);
        }
        0
    }

    /// The start of the first grapheme that starts after `offset`, or the end.
    pub fn next_boundary(&self, offset: usize) -> (r: usize)
        ensures
            r == next_start(graphemes(self.text()), offset as int, self.bytes().len() as int),
            boundary(self.bytes(), r as int),
            r <= self.bytes().len(),
            (offset as int) < self.bytes().len() ==> offset < r,
            r == self.bytes().len() || exists|j: int|
                0 <= j < graphemes(self.text()).len() && graphemes(self.text())[j].0 == r,
            forall|j: int|
                0 <= j < graphemes(self.text()).len() && offset < graphemes(self.text())[j].0 ==> r
                    <= #[trigger] graphemes(self.text())[j].0,
    {
        let ps = grapheme_pieces(self.content.as_str());
        let ghost g = graphemes(self.text());
        let mut i: usize = 0;
        proof {
            assert(g.skip(0) =~= g);
        }
        while i < ps.len()
            invariant
                i <= ps@.len(),
                g == pieces_view(ps@),
                g == graphemes(self.text()),
                covering_pieces(self.bytes(), g),
                next_start(g, offset as int, self.bytes().len() as int) == next_start(
                    g.skip(i as int),
                    offset as int,
                    self.bytes().len() as int,
                ),
            decreases ps@.len() - i,
        {
            let (start, _len) = ps[i];
            proof {
                assert(g[i as int] == (start as int, _len as int));
                assert(g.skip(i as int)[0] == g[i as int]);
                assert(g.skip(i as int).drop_first() =~= g.skip(i + 1));
            }
            if start > offset {
                proof {
                    assert(ordered_pieces(self.bytes(), g));
                    assert(0 <= g[i as int].0);
                    assert(next_start(g.skip(i as int), offset as int, self.bytes().len() as int) == start);
                    lemma_next_start(self.bytes(), g, offset as int);
                }
                return start;
            }
            i = i + 1;
        }
        proof {
            assert(g.skip(i as int).len() == 0);
            lemma_next_start(self.bytes(), g, offset as int);
        }
        self.text_len()
    }

    /// The start of the last word segment with ink that starts before
    /// `offset`, or zero.
    pub fn previous_word_boundary(&self, offset: usize) -> (r: usize)
        ensures
            r == prev_word_start(self.bytes(), word_bounds(self.text()), offset as int),
            boundary(self.bytes(), r as int),
            r <= self.bytes().len(),
            0 < offset ==> r < offset,
            r == 0 || exists|j: int|
                0 <= j < word_bounds(self.text()).len() && word_bounds(self.text())[j].0 == r
                    && !crate::text::all_whitespace(piece_text(self.bytes(), word_bounds(self.text())[j])),
            forall|j: int|
                0 <= j < word_bounds(self.text()).len() && word_bounds(self.text())[j].0 < offset
                    && !crate::text::all_whitespace(piece_text(self.bytes(), word_bounds(self.text())[j])) ==> #[trigger] word_bounds(
                    self.text(),
                )[j].0 <= r,
    {
        let text = self.content.as_str();
        let ps = word_bound_pieces(text);
        let ghost g = word_bounds(self.text());
        let ghost b = self.bytes();
        let total = text.as_bytes().len();
        let mut i = ps.len();
        proof {
            assert(g.take(i as int) =~= g);
        }
        while i > 0
            invariant
                i <= ps@.len(),
                g == pieces_view(ps@),
                g == word_bounds(self.text()),
                b == self.bytes(),
                total == b.len(),
                b == text.spec_bytes(),
                covering_pieces(b, g),
                prev_word_start(b, g, offset as int) == prev_word_start(b, g.take(i as int), offset as int),
            decreases i,
        {
            let (start, len) = ps[i - 1];
            proof {
                assert(g[i - 1] == (start as int, len as int));
                assert(g.take(i as int).last() == g[i - 1]);
                assert(g.take(i as int).drop_last() =~= g.take(i - 1));
                assert(ordered_pieces(b, g));
                assert(0 <= g[i - 1].0 && g[i - 1].0 + g[i - 1].1 <= b.len());
            }
            if start < offset {
                let word = crate::text::slice(text, start, start + len);
                if !crate::text::is_all_whitespace(word) {
                    proof {
                        assert(prev_word_start(b, g.take(i as int), offset as int) == start);
                        lemma_prev_word_start(b, g, offset as int);
                    }
                    return start;
                }
            }
            i = i - 1;
        }
        proof {
            assert(g.take(i as int).len() == 0);
            lemma_prev_word_start(b, g, offset as int);
        }
        0
    }

    /// The end of the first word segment with ink that ends after `offset`,
    /// or the end.
    pub fn next_word_boundary(&self, offset: usize) -> (r: usize)
        ensures
            r == next_word_end(self.bytes(), word_bounds(self.text()), offset as int),
            boundary(self.bytes(), r as int),
            r <= self.bytes().len(),
            (offset as int) < self.bytes().len() ==> offset < r,
            r == self.bytes().len() || exists|j: int|
                0 <= j < word_bounds(self.text()).len() && word_bounds(self.text())[j].0 + word_bounds(
                    self.text(),
                )[j].1 == r && !crate::text::all_whitespace(piece_text(self.bytes(), word_bounds(self.text())[j])),
            forall|j: int|
                0 <= j < word_bounds(self.text()).len() && offset < word_bounds(self.text())[j].0 + word_bounds(
                    self.text(),
                )[j].1 && !crate::text::all_whitespace(piece_text(self.bytes(), word_bounds(self.text())[j]))
                    ==> r <= #[trigger] word_bounds(self.text())[j].0 + word_bounds(self.text())[j].1,
    {
        let text = self.content.as_str();
        let ps = word_bound_pieces(text);
        let ghost g = word_bounds(self.text());
        let ghost b = self.bytes();
        let total = text.as_bytes().len();
        let mut i: usize = 0;
        proof {
            assert(g.skip(0) =~= g);
        }
        while i < ps.len()
            invariant
                i <= ps@.len(),
                g == pieces_view(ps@),
                g == word_bounds(self.text()),
                b == self.bytes(),
                total == b.len(),
                b == text.spec_bytes(),
                covering_pieces(b, g),
                next_word_end(b, g, offset as int) == next_word_end(b, g.skip(i as int), offset as int),
            decreases ps@.len() - i,
        {
            let (start, len) = ps[i];
            proof {
                assert(g[i as int] == (start as int, len as int));
                assert(g.skip(i as int)[0] == g[i as int]);
                assert(g.skip(i as int).drop_first() =~= g.skip(i + 1));
                assert(ordered_pieces(b, g));
                assert(0 <= g[i as int].0 && g[i as int].0 + g[i as int].1 <= b.len());
            }
            let end = start + len;
            if end > offset {
                let word = crate::text::slice(text, start, end);
                if !crate::text::is_all_whitespace(word) {
                    proof {
                        assert(next_word_end(b, g.skip(i as int), offset as int) == end);
                        lemma_next_word_end(b, g, offset as int);
                    }
                    return end;
                }
            }
            i = i + 1;
        }
        proof {
            assert(g.skip(i as int).len() == 0);
            lemma_next_word_end(b, g, offset as int);
        }
        self.text_len()
    }

    /// The line around `offset`: from just after the last newline before it
    /// to the first newline at or after it.
    pub fn line_range_at(&self, offset: usize) -> (r: Range<usize>)
        requires
            offset <= self.bytes().len(),
        ensures
            r.start == line_start(self.bytes(), offset as int),
            r.end == line_end(self.bytes(), offset as int),
    {
        let b = self.content.as_str().as_bytes();
        let mut start = offset;
        while start > 0 && b[start - 1] != 10
            invariant
                start <= offset <= b@.len(),
                b@ == self.bytes(),
                line_start(b@, offset as int) == line_start(b@, start as int),
            decreases start,
        {
            start = start - 1;
        }
        let mut end = offset;
        while end < b.len() && b[end] != 10
            invariant
                offset <= end <= b@.len(),
                b@ == self.bytes(),
                line_end(b@, offset as int) == line_end(b@, end as int),
            decreases b@.len() - end,
        {
            end = end + 1;
        }
        start..end
    }

    /// The state an undo step would record now.
    pub open spec fn state(&self) -> (Seq<char>, Range<usize>, bool) {
        (self.text(), self.range(), self.reversed())
    }

    /// Whether the next edit of `range` by `new_text`, at `now`, merges into
    /// the last undo step.
    pub open spec fn merges(&self, range: Range<usize>, new_text: Seq<char>, len: int, now: u64) -> bool {
        match self.last() {
            Some((p, w)) => coalesces(p, coalescing(range, new_text, len, self.reversed()), range, elapsed(now, w)),
            None => false,
        }
    }

    fn snapshot(&self) -> (s: EditSnapshot)
        requires
            self.wf(),
        ensures
            step_view(s) == self.state(),
            snapshot_ok(s),
    {
        EditSnapshot {
            content: self.content.clone(),
            selected_range: self.selected_range.start..self.selected_range.end,
            selection_reversed: self.selection_reversed,
        }
    }

    /// Records an undo step for an edit of `range` by `new_text` at `now`,
    /// unless it merges into the last one, and forgets the redo steps.
    fn record_edit(&mut self, range: &Range<usize>, new_text: &str, now: u64)
        requires
            old(self).wf(),
            range.start + new_text.spec_bytes().len() <= usize::MAX,
        ensures
            final(self).wf(),
            final(self).text() == old(self).text(),
            final(self).range() == old(self).range(),
            final(self).reversed() == old(self).reversed(),
            final(self).marked() == old(self).marked(),
            final(self).rev() == old(self).rev(),
            final(self).is_multiline() == old(self).is_multiline(),
            final(self).is_read_only() == old(self).is_read_only(),
            steps(final(self).undo_steps()) == if old(self).merges(*range, new_text@, new_text.spec_bytes().len() as int, now) {
                steps(old(self).undo_steps())
            } else {
                pushed(steps(old(self).undo_steps()), old(self).state())
            },
            final(self).redo_steps().len() == 0,
            final(self).last() == match coalescing(*range, new_text@, new_text.spec_bytes().len() as int, old(self).reversed()) {
                Some(e) => Some((e, now)),
                None => None,
            },
    {
        let current = coalescing_edit(range, new_text, self.selection_reversed);
        let mergeable = match self.last_edit {
            Some((previous, when)) => {
                let gap = if now >= when {
                    now - when
                } else {
                    0
                };
                edits_coalesce(previous, current, range, gap)
            },
            None => false,
        };
        if !mergeable {
            let snapshot = self.snapshot();
            let ghost before = self.undo_stack@;
            push_undo_snapshot(&mut self.undo_stack, snapshot);
            proof {
                if before.len() == UNDO_LIMIT {
                    assert(steps(self.undo_stack@) =~= pushed(steps(before), step_view(snapshot)));
                } else {
                    assert(steps(self.undo_stack@) =~= pushed(steps(before), step_view(snapshot)));
                }
                assert forall|i: int| 0 <= i < self.undo_stack@.len() implies #[trigger] snapshot_ok(self.undo_stack@[i]) by {
                    if before.len() == UNDO_LIMIT {
                        if i < self.undo_stack@.len() - 1 {
                            assert(self.undo_stack@[i] == before[i + 1]);
                        }
                    } else {
                        if i < self.undo_stack@.len() - 1 {
                            assert(self.undo_stack@[i] == before[i]);
                        }
                    }
                }
            }
        }
        self.redo_stack = Vec::new();
        self.last_edit = match current {
            Some(e) => Some((e, now)),
            None => None,
        };
    }

    /// Puts back an undo or redo step.
    fn restore(&mut self, snapshot: EditSnapshot)
        requires
            old(self).wf(),
            snapshot_ok(snapshot),
        ensures
            final(self).wf(),
            final(self).state() == step_view(snapshot),
            final(self).marked() is None,
            final(self).last() is None,
            final(self).rev() == next_revision(old(self).rev()),
            final(self).undo_steps() == old(self).undo_steps(),
            final(self).redo_steps() == old(self).redo_steps(),
            final(self).is_multiline() == old(self).is_multiline(),
            final(self).is_read_only() == old(self).is_read_only(),
    {
        self.content = snapshot.content;
        self.selected_range = snapshot.selected_range;
        self.selection_reversed = snapshot.selection_reversed;
        self.marked_range = None;
        self.last_edit = None;
        self.revision = self.revision.wrapping_add(1);
    }

    /// Returns to the last undo step, keeping the present for redo.
    pub fn undo(&mut self)
        requires
            old(self).wf(),
        ensures
            final(self).wf(),
            final(self)@ == undone(old(self)@),
            final(self).is_multiline() == old(self).is_multiline(),
            final(self).is_read_only() == old(self).is_read_only(),
            if old(self).is_read_only() || old(self).undo_steps().len() == 0 {
                final(self).state() == old(self).state() && final(self).rev() == old(self).rev()
                    && final(self).marked() == old(self).marked() && steps(final(self).undo_steps())
                    == steps(old(self).undo_steps()) && steps(final(self).redo_steps()) == steps(
                    old(self).redo_steps(),
                ) && final(self).last() == old(self).last()
            } else {
                &&& final(self).state() == step_view(old(self).undo_steps().last())
                &&& steps(final(self).undo_steps()) == steps(old(self).undo_steps().drop_last())
                &&& steps(final(self).redo_steps()) == steps(old(self).redo_steps()).push(old(self).state())
                &&& final(self).marked() is None
                &&& final(self).last() is None
                &&& final(self).rev() == next_revision(old(self).rev())
            },
    {
        if self.read_only {
            return;
        }
        let ghost undo0 = self.undo_stack@;
        let ghost redo0 = self.redo_stack@;
        if let Some(previous) = self.undo_stack.pop_back() {
            let snapshot = self.snapshot();
            self.redo_stack.push(snapshot);
            proof {
                assert(self.undo_stack@ =~= undo0.drop_last());
                assert(steps(self.undo_stack@) =~= steps(undo0.drop_last()));
                assert(steps(self.redo_stack@) =~= steps(redo0).push(step_view(snapshot)));
                assert(previous == undo0[undo0.len() - 1]);
                assert forall|i: int| 0 <= i < self.redo_stack@.len() implies #[trigger] snapshot_ok(self.redo_stack@[i]) by {
                    if i < redo0.len() {
                        assert(self.redo_stack@[i] == redo0[i]);
                    }
                }
                assert forall|i: int| 0 <= i < self.undo_stack@.len() implies #[trigger] snapshot_ok(self.undo_stack@[i]) by {
                    assert(self.undo_stack@[i] == undo0[i]);
                }
            }
            self.restore(previous);
        }
    }

    /// Returns to the last undone step, keeping the present for undo.
    pub fn redo(&mut self)
        requires
            old(self).wf(),
        ensures
            final(self).wf(),
            final(self)@ == redone(old(self)@),
            final(self).is_multiline() == old(self).is_multiline(),
            final(self).is_read_only() == old(self).is_read_only(),
            if old(self).is_read_only() || old(self).redo_steps().len() == 0 {
                final(self).state() == old(self).state() && final(self).rev() == old(self).rev()
                    && final(self).marked() == old(self).marked() && steps(final(self).undo_steps())
                    == steps(old(self).undo_steps()) && steps(final(self).redo_steps()) == steps(
                    old(self).redo_steps(),
                ) && final(self).last() == old(self).last()
            } else {
                &&& final(self).state() == step_view(old(self).redo_steps().last())
                &&& steps(final(self).redo_steps()) == steps(old(self).redo_steps().drop_last())
                &&& steps(final(self).undo_steps()) == pushed(steps(old(self).undo_steps()), old(self).state())
                &&& final(self).marked() is None
                &&& final(self).last() is None
                &&& final(self).rev() == next_revision(old(self).rev())
            },
    {
        if self.read_only {
            return;
        }
        let ghost undo0 = self.undo_stack@;
        let ghost redo0 = self.redo_stack@;
        if let Some(next) = self.redo_stack.pop() {
            let snapshot = self.snapshot();
            push_undo_snapshot(&mut self.undo_stack, snapshot);
            proof {
                assert(self.redo_stack@ =~= redo0.drop_last());
                assert(steps(self.redo_stack@) =~= steps(redo0.drop_last()));
                assert(steps(self.undo_stack@) =~= pushed(steps(undo0), step_view(snapshot)));
                assert(next == redo0[redo0.len() - 1]);
                assert forall|i: int| 0 <= i < self.undo_stack@.len() implies #[trigger] snapshot_ok(self.undo_stack@[i]) by {
                    if undo0.len() == UNDO_LIMIT {
                        if i < self.undo_stack@.len() - 1 {
                            assert(self.undo_stack@[i] == undo0[i + 1]);
                        }
                    } else if i < self.undo_stack@.len() - 1 {
                        assert(self.undo_stack@[i] == undo0[i]);
                    }
                }
                assert forall|i: int| 0 <= i < self.redo_stack@.len() implies #[trigger] snapshot_ok(self.redo_stack@[i]) by {
                    assert(self.redo_stack@[i] == redo0[i]);
                }
            }
            self.restore(next);
        }
    }

    /// The range an edit replaces, on boundaries of the text.
    fn resolve(&self, range16: &Option<Range<usize>>) -> (r: Range<usize>)
        requires
            self.wf(),
        ensures
            r == target(self@, *range16),
            r.start <= self.bytes().len(),
            r.end <= self.bytes().len(),
            boundary(self.bytes(), r.start as int),
            boundary(self.bytes(), r.end as int),
    {
        let len = self.text_len();
        match range16 {
            Some(r) => {
                let a = crate::offsets::utf16_offset_to_utf8(self.content.as_str(), r.start);
                let b = crate::offsets::utf16_offset_to_utf8(self.content.as_str(), r.end);
                proof {
                    lemma_from16(self@, r.start);
                    lemma_from16(self@, r.end);
                }
                a..b
            },
            None => match &self.marked_range {
                Some(m) => m.start..m.end,
                None => self.selected_range.start..self.selected_range.end,
            },
        }
    }

    /// The text an edit inserts.
    fn insertion(&self, new_text: &str) -> (r: String)
        ensures
            r@ == inserted(self@, new_text@),
    {
        if self.multiline {
            new_text.to_string()
        } else {
            single_line_text(new_text)
        }
    }

    /// Replaces the target of a native edit with `new_text` at time `now`,
    /// in milliseconds; a read-only input refuses.
    pub fn replace_text_in_range(&mut self, range16: Option<Range<usize>>, new_text: &str, now: u64)
        requires
            old(self).wf(),
        ensures
            final(self).wf(),
            final(self)@ == replaced(old(self)@, range16, new_text@, now),
    {
        if self.read_only {
            return;
        }
        let range = self.resolve(&range16);
        let replacement = self.insertion(new_text);
        let repl = replacement.as_str();
        let current = self.content.as_str();
        let new_content = crate::text::splice(current, range.start, range.end, repl);
        let total = new_content.as_str().as_bytes().len();
        let rlen = repl.as_bytes().len();
        let ghost b = self.bytes();
        let ghost rb = repl.spec_bytes();
        proof {
            assert(current.spec_bytes() == b);
            assert(rb == crate::text::utf8_of(repl@));
            vstd::utf8::encode_utf8_valid_utf8(repl@);
            vstd::utf8::encode_utf8_valid_utf8(self.text());
            lemma_splice_boundary(b, range.start as int, range.end as int, rb, rb.len() as int);
            assert(crate::text::utf8_of(new_content@) == spliced(b, range.start as int, range.end as int, rb));
        }
        if self.marked_range.is_none() {
            self.record_edit(&range, repl, now);
        }
        let ghost h = self@;
        self.content = new_content;
        let cursor = range.start + rlen;
        self.selected_range = cursor..cursor;
        self.selection_reversed = false;
        self.marked_range = None;
        self.revision = self.revision.wrapping_add(1);
        proof {
            vstd::utf8::encode_utf8_decode_utf8(new_content@);
            assert(self@ =~= replaced(old(self)@, range16, new_text@, now));
        }
    }

    /// Replaces the target of a composition step with `new_text` and marks
    /// it, selecting within it as the input method asks.
    pub fn replace_and_mark_text_in_range(
        &mut self,
        range16: Option<Range<usize>>,
        new_text: &str,
        selected16: Option<Range<usize>>,
    )
        requires
            old(self).wf(),
            selected16 matches Some(x) ==> x.start <= x.end,
        ensures
            final(self).wf(),
            final(self)@ == marked_replaced(old(self)@, range16, new_text@, selected16),
    {
        if self.read_only {
            return;
        }
        let range = self.resolve(&range16);
        if self.marked_range.is_none() {
            let snapshot = self.snapshot();
            let ghost before = self.undo_stack@;
            push_undo_snapshot(&mut self.undo_stack, snapshot);
            self.redo_stack = Vec::new();
            self.last_edit = None;
            proof {
                assert(steps(self.undo_stack@) =~= pushed(steps(before), step_view(snapshot)));
                assert forall|i: int| 0 <= i < self.undo_stack@.len() implies #[trigger] snapshot_ok(self.undo_stack@[i]) by {
                    if before.len() == UNDO_LIMIT {
                        if i < self.undo_stack@.len() - 1 {
                            assert(self.undo_stack@[i] == before[i + 1]);
                        }
                    } else if i < self.undo_stack@.len() - 1 {
                        assert(self.undo_stack@[i] == before[i]);
                    }
                }
            }
        }
        let replacement = self.insertion(new_text);
        let repl = replacement.as_str();
        let current = self.content.as_str();
        let new_content = crate::text::splice(current, range.start, range.end, repl);
        let total = new_content.as_str().as_bytes().len();
        let rlen = repl.as_bytes().len();
        let ghost b = crate::text::utf8_of(old(self).text());
        let ghost rb = repl.spec_bytes();
        proof {
            assert(current.spec_bytes() == b);
            assert(rb == crate::text::utf8_of(repl@));
            vstd::utf8::encode_utf8_valid_utf8(repl@);
            vstd::utf8::encode_utf8_valid_utf8(old(self).text());
            lemma_splice_boundary(b, range.start as int, range.end as int, rb, rb.len() as int);
            lemma_splice_boundary(b, range.start as int, range.end as int, rb, 0);
            assert(crate::text::utf8_of(new_content@) == spliced(b, range.start as int, range.end as int, rb));
        }
        let cursor = range.start + rlen;
        let ghost h = self@;
        self.content = new_content;
        self.marked_range = if rlen > 0 {
            Some(range.start..cursor)
        } else {
            None
        };
        match selected16 {
            Some(x) => {
                let a = crate::offsets::utf16_offset_to_utf8(repl, x.start);
                let e = crate::offsets::utf16_offset_to_utf8(repl, x.end);
                proof {
                    let t = repl@;
                    crate::offsets::lemma_utf16_stop_range(t, x.start as int, 0);
                    crate::offsets::lemma_utf16_stop_range(t, x.end as int, 0);
                    crate::offsets::lemma_utf16_stop_monotone(t, x.start as int, x.end as int, 0);
                    crate::offsets::lemma_utf8_len_monotone(t, utf16_stop(t, x.start as int, 0), utf16_stop(t, x.end as int, 0));
                    crate::text::lemma_prefix_is_boundary(t, utf16_stop(t, x.start as int, 0));
                    crate::text::lemma_prefix_is_boundary(t, utf16_stop(t, x.end as int, 0));
                    lemma_splice_boundary(b, range.start as int, range.end as int, rb, a as int);
                    lemma_splice_boundary(b, range.start as int, range.end as int, rb, e as int);
                }
                self.selected_range = (range.start + a)..(range.start + e);
            },
            None => {
                self.selected_range = cursor..cursor;
            },
        }
        self.revision = self.revision.wrapping_add(1);
        proof {
            vstd::utf8::encode_utf8_decode_utf8(new_content@);
            assert(self@ =~= marked_replaced(old(self)@, range16, new_text@, selected16));
        }
    }

    /// Ends the composition, keeping its text.
    pub fn unmark_text(&mut self)
        requires
            old(self).wf(),
        ensures
            final(self).wf(),
            final(self)@ == (EditorView { marked: None, rev: next_revision(old(self)@.rev), ..old(self)@ }),
    {
        self.marked_range = None;
        self.revision = self.revision.wrapping_add(1);
        assert(self@ =~= (EditorView { marked: None, rev: next_revision(old(self)@.rev), ..old(self)@ }));
    }

    /// Selects a UTF-16 range, forwards.
    pub fn set_selected_text_range(&mut self, range16: Range<usize>)
        requires
            old(self).wf(),
            range16.start <= range16.end,
        ensures
            final(self).wf(),
            final(self)@ == (EditorView {
                range: span(from16(old(self)@, range16.start), from16(old(self)@, range16.end)),
                reversed: false,
                rev: next_revision(old(self)@.rev),
                ..old(self)@
            }),
    {
        let len = self.text_len();
        let r = self.resolve(&Some(range16.start..range16.end));
        proof {
            let t = self.text();
            lemma_from16(self@, range16.start);
            lemma_from16(self@, range16.end);
            crate::offsets::lemma_utf16_stop_range(t, range16.start as int, 0);
            crate::offsets::lemma_utf16_stop_range(t, range16.end as int, 0);
            crate::offsets::lemma_utf16_stop_monotone(t, range16.start as int, range16.end as int, 0);
            crate::offsets::lemma_utf8_len_monotone(t, utf16_stop(t, range16.start as int, 0), utf16_stop(t, range16.end as int, 0));
            assert(r.start <= r.end);
        }
        self.selected_range = r;
        self.selection_reversed = false;
        self.revision = self.revision.wrapping_add(1);
        assert(self@ =~= (EditorView {
            range: span(from16(old(self)@, range16.start), from16(old(self)@, range16.end)),
            reversed: false,
            rev: next_revision(old(self)@.rev),
            ..old(self)@
        }));
    }

    /// The selection in UTF-16 offsets, and its direction.
    pub fn selection(&self) -> (r: (usize, usize, bool))
        requires
            self.wf(),
        ensures
            r == (to16(self@, self@.range.start), to16(self@, self@.range.end), self@.reversed),
    {
        let text = self.content.as_str();
        let a = crate::offsets::utf8_offset_to_utf16(text, self.selected_range.start);
        let b = crate::offsets::utf8_offset_to_utf16(text, self.selected_range.end);
        (a, b, self.selection_reversed)
    }

    /// The length of the text in UTF-16 code units.
    pub fn text_length_utf16(&self) -> (r: usize)
        ensures
            r == utf16_len(self.text()),
    {
        crate::offsets::utf16_length(self.content.as_str())
    }

    /// The selected text, when the selection is not empty.
    pub fn copy(&self) -> (r: Option<String>)
        requires
            self.wf(),
        ensures
            match r {
                Some(t) => self@.range.start < self@.range.end && t@ == decode_utf8(
                    self.bytes().subrange(self@.range.start as int, self@.range.end as int),
                ),
                None => self@.range.start >= self@.range.end,
            },
    {
        if self.selected_range.start < self.selected_range.end {
            let t = crate::text::slice(self.content.as_str(), self.selected_range.start, self.selected_range.end);
            Some(t.to_string())
        } else {
            None
        }
    }

    /// The text of a UTF-16 range, when it is not inverted, and the range
    /// actually covered, in UTF-16 offsets.
    pub fn text_for_range(&self, range16: Range<usize>) -> (r: (Option<String>, Range<usize>))
        requires
            self.wf(),
        ensures
            ({
                let a = from16(self@, range16.start);
                let b = from16(self@, range16.end);
                &&& r.1 == span(to16(self@, a), to16(self@, b))
                &&& match r.0 {
                    Some(t) => a <= b && t@ == decode_utf8(self.bytes().subrange(a as int, b as int)),
                    None => a > b,
                }
            }),
    {
        let range = self.resolve(&Some(range16.start..range16.end));
        let text = self.content.as_str();
        let a = crate::offsets::utf8_offset_to_utf16(text, range.start);
        let b = crate::offsets::utf8_offset_to_utf16(text, range.end);
        let t = if range.start <= range.end {
            Some(crate::text::slice(text, range.start, range.end).to_string())
        } else {
            None
        };
        (t, a..b)
    }

    /// Refuses an application command issued against an older revision or
    /// during a composition.
    pub fn check_revision(&self, expected: u64) -> (r: Result<(), EditError>)
        ensures
            r == match revision_error(self@, expected) {
                Some(e) => Err(e),
                None => Ok::<(), EditError>(()),
            },
    {
        if expected != self.revision {
            return Err(EditError::Stale);
        }
        if self.marked_range.is_some() {
            return Err(EditError::Composing);
        }
        Ok(())
    }

    /// The application replaces the whole text, unless the input changed
    /// since `expected_revision`. Returns whether the text changed.
    pub fn replace_value(&mut self, value: &str, expected_revision: u64) -> (r: Result<bool, EditError>)
        requires
            old(self).wf(),
        ensures
            final(self).wf(),
            match revision_error(old(self)@, expected_revision) {
                Some(e) => r == Err::<bool, EditError>(e) && final(self)@ == old(self)@,
                None => r == Ok::<bool, EditError>(inserted(old(self)@, value@) != old(self)@.text)
                    && final(self)@ == value_replaced(old(self)@, value@),
            },
    {
        self.check_revision(expected_revision)?;
        let t = self.insertion(value);
        if crate::text::str_eq(self.content.as_str(), t.as_str()) {
            return Ok(false);
        }
        let snapshot = self.snapshot();
        let ghost before = self.undo_stack@;
        push_undo_snapshot(&mut self.undo_stack, snapshot);
        self.redo_stack = Vec::new();
        self.last_edit = None;
        let end = t.as_str().as_bytes().len();
        self.content = t;
        self.selected_range = end..end;
        self.selection_reversed = false;
        self.revision = self.revision.wrapping_add(1);
        proof {
            assert(steps(self.undo_stack@) =~= pushed(steps(before), step_view(snapshot)));
            assert forall|i: int| 0 <= i < self.undo_stack@.len() implies #[trigger] snapshot_ok(self.undo_stack@[i]) by {
                if before.len() == UNDO_LIMIT {
                    if i < self.undo_stack@.len() - 1 {
                        assert(self.undo_stack@[i] == before[i + 1]);
                    }
                } else if i < self.undo_stack@.len() - 1 {
                    assert(self.undo_stack@[i] == before[i]);
                }
            }
            assert(steps(self.redo_stack@) =~= Seq::empty());
            assert(t@ != old(self)@.text);
            assert(self@.text == t@);
            assert(self@.range == span(end, end));
            assert(self@ =~= value_replaced(old(self)@, value@));
        }
        Ok(true)
    }

    /// The application selects a UTF-16 range, unless the input changed
    /// since `expected_revision`, the range is inverted, or it does not fall
    /// on character boundaries within the text.
    pub fn select_range(&mut self, start: usize, end: usize, reversed: bool, expected_revision: u64) -> (r: Result<(), EditError>)
        requires
            old(self).wf(),
        ensures
            final(self).wf(),
            ({
                let v = old(self)@;
                let a = from16(v, start);
                let b = from16(v, end);
                match revision_error(v, expected_revision) {
                    Some(e) => r == Err::<(), EditError>(e) && final(self)@ == v,
                    None => if start > end {
                        r == Err::<(), EditError>(EditError::Inverted) && final(self)@ == v
                    } else if to16(v, a) != start || to16(v, b) != end {
                        r == Err::<(), EditError>(EditError::Unaligned) && final(self)@ == v
                    } else {
                        r is Ok && final(self)@ == (EditorView {
                            range: span(a, b),
                            reversed,
                            rev: next_revision(v.rev),
                            ..v
                        })
                    },
                }
            }),
    {
        self.check_revision(expected_revision)?;
        if start > end {
            return Err(EditError::Inverted);
        }
        let len = self.text_len();
        let range = self.resolve(&Some(start..end));
        let text = self.content.as_str();
        let a = crate::offsets::utf8_offset_to_utf16(text, range.start);
        let b = crate::offsets::utf8_offset_to_utf16(text, range.end);
        if a != start || b != end {
            return Err(EditError::Unaligned);
        }
        proof {
            let t = self.text();
            lemma_from16(self@, start);
            lemma_from16(self@, end);
            crate::offsets::lemma_utf16_stop_range(t, start as int, 0);
            crate::offsets::lemma_utf16_stop_range(t, end as int, 0);
            crate::offsets::lemma_utf16_stop_monotone(t, start as int, end as int, 0);
            crate::offsets::lemma_utf8_len_monotone(t, utf16_stop(t, start as int, 0), utf16_stop(t, end as int, 0));
        }
        self.selected_range = range;
        self.selection_reversed = reversed;
        self.revision = self.revision.wrapping_add(1);
        assert(self@ =~= (EditorView {
            range: span(from16(old(self)@, start), from16(old(self)@, end)),
            reversed,
            rev: next_revision(old(self)@.rev),
            ..old(self)@
        }));
        Ok(())
    }

    /// Deletes the selection, or from the caret to `to` when it is empty.
    fn delete_to(&mut self, to: usize, now: u64)
        requires
            old(self).wf(),
            boundary(old(self).bytes(), clamp(to, old(self).bytes().len() as int) as int),
            to <= old(self).bytes().len(),
        ensures
            final(self).wf(),
            final(self)@ == deleted_to(old(self)@, to, now),
    {
        if self.read_only {
            return;
        }
        if self.selected_range.start == self.selected_range.end {
            if to == self.cursor_offset() {
                return;
            }
            self.select_to(to);
        }
        proof {
            reveal_strlit("");
        }
        self.replace_text_in_range(None, "", now);
    }

    /// Deletes the selection, or the grapheme before the caret.
    pub fn backspace(&mut self, now: u64)
        requires
            old(self).wf(),
        ensures
            final(self).wf(),
            final(self)@ == deleted_to(old(self)@, prev_start(graphemes(old(self)@.text), caret(old(self)@) as int) as usize, now),
    {
        let to = self.previous_boundary(self.cursor_offset());
        self.delete_to(to, now);
    }

    /// Deletes the selection, or the grapheme after the caret.
    pub fn delete(&mut self, now: u64)
        requires
            old(self).wf(),
        ensures
            final(self).wf(),
            final(self)@ == deleted_to(old(self)@, next_start(graphemes(old(self)@.text), caret(old(self)@) as int, vbytes(old(self)@).len() as int) as usize, now),
    {
        let to = self.next_boundary(self.cursor_offset());
        self.delete_to(to, now);
    }

    /// Deletes the selection, or back to the start of the previous word.
    pub fn delete_word_left(&mut self, now: u64)
        requires
            old(self).wf(),
        ensures
            final(self).wf(),
            final(self)@ == deleted_to(old(self)@, prev_word_start(vbytes(old(self)@), word_bounds(old(self)@.text), caret(old(self)@) as int) as usize, now),
    {
        let to = self.previous_word_boundary(self.cursor_offset());
        self.delete_to(to, now);
    }

    /// Deletes the selection, or on to the end of the next word.
    pub fn delete_word_right(&mut self, now: u64)
        requires
            old(self).wf(),
        ensures
            final(self).wf(),
            final(self)@ == deleted_to(old(self)@, next_word_end(vbytes(old(self)@), word_bounds(old(self)@.text), caret(old(self)@) as int) as usize, now),
    {
        let to = self.next_word_boundary(self.cursor_offset());
        self.delete_to(to, now);
    }

    /// Deletes the selection, or back to the start of the line.
    pub fn delete_to_line_start(&mut self, now: u64)
        requires
            old(self).wf(),
        ensures
            final(self).wf(),
            final(self)@ == deleted_to(old(self)@, line_start(vbytes(old(self)@), caret(old(self)@) as int) as usize, now),
    {
        let c = self.cursor_offset();
        let to = self.line_range_at(c).start;
        proof {
            vstd::utf8::encode_utf8_valid_utf8(self.text());
            lemma_line_start_boundary(self.bytes(), c as int);
        }
        self.delete_to(to, now);
    }

    /// Deletes the selection, or on to the end of the line.
    pub fn delete_to_line_end(&mut self, now: u64)
        requires
            old(self).wf(),
        ensures
            final(self).wf(),
            final(self)@ == deleted_to(old(self)@, line_end(vbytes(old(self)@), caret(old(self)@) as int) as usize, now),
    {
        let c = self.cursor_offset();
        let to = self.line_range_at(c).end;
        proof {
            lemma_line_end_boundary(self.bytes(), c as int);
        }
        self.delete_to(to, now);
    }

    /// Removes the selected text and returns it; nothing when the selection
    /// is empty or the input is read-only.
    pub fn cut(&mut self, now: u64) -> (r: Option<String>)
        requires
            old(self).wf(),
        ensures
            final(self).wf(),
            if old(self)@.read_only || old(self)@.range.start == old(self)@.range.end {
                r is None && final(self)@ == old(self)@
            } else {
                r matches Some(t) && t@ == decode_utf8(vbytes(old(self)@).subrange(old(self)@.range.start as int, old(self)@.range.end as int))
                    && final(self)@ == replaced(old(self)@, None, nothing(), now)
            },
    {
        if self.read_only || self.selected_range.start == self.selected_range.end {
            return None;
        }
        let copied = self.copy();
        proof {
            reveal_strlit("");
        }
        self.replace_text_in_range(None, "", now);
        copied
    }

    /// Inserts `text` over the target, as typed; a read-only input refuses.
    pub fn paste(&mut self, text: &str, now: u64)
        requires
            old(self).wf(),
        ensures
            final(self).wf(),
            final(self)@ == replaced(old(self)@, None, text@, now),
    {
        if self.read_only {
            return;
        }
        self.replace_text_in_range(None, text, now);
    }

    /// Inserts a line break in a multi-line input.
    pub fn newline(&mut self, now: u64)
        requires
            old(self).wf(),
        ensures
            final(self).wf(),
            final(self)@ == if old(self)@.multiline && !old(self)@.read_only {
                replaced(old(self)@, None, seq!['\n'], now)
            } else {
                old(self)@
            },
    {
        if self.multiline && !self.read_only {
            proof {
                reveal_strlit("\n");
            }
            self.replace_text_in_range(None, "\n", now);
            assert("\n"@ =~= seq!['\n']);
        }
    }

    /// Collapses the selection to its start, or moves the caret one
    /// grapheme back.
    pub fn left(&mut self)
        requires
            old(self).wf(),
        ensures
            final(self).wf(),
            final(self)@ == moved(old(self)@, if old(self)@.range.start == old(self)@.range.end {
                prev_start(graphemes(old(self)@.text), caret(old(self)@) as int) as usize
            } else {
                old(self)@.range.start
            }),
    {
        let offset = if self.selected_range.start == self.selected_range.end {
            self.previous_boundary(self.cursor_offset())
        } else {
            self.selected_range.start
        };
        self.move_to(offset);
    }

    /// Collapses the selection to its end, or moves the caret one grapheme
    /// on.
    pub fn right(&mut self)
        requires
            old(self).wf(),
        ensures
            final(self).wf(),
            final(self)@ == moved(old(self)@, if old(self)@.range.start == old(self)@.range.end {
                next_start(graphemes(old(self)@.text), caret(old(self)@) as int, vbytes(old(self)@).len() as int) as usize
            } else {
                old(self)@.range.end
            }),
    {
        let offset = if self.selected_range.start == self.selected_range.end {
            self.next_boundary(self.cursor_offset())
        } else {
            self.selected_range.end
        };
        self.move_to(offset);
    }

    /// Extends the selection one grapheme back.
    pub fn select_left(&mut self)
        requires
            old(self).wf(),
        ensures
            final(self).wf(),
            final(self)@ == selected(old(self)@, prev_start(graphemes(old(self)@.text), caret(old(self)@) as int) as usize),
    {
        let to = self.previous_boundary(self.cursor_offset());
        self.select_to(to);
    }

    /// Extends the selection one grapheme on.
    pub fn select_right(&mut self)
        requires
            old(self).wf(),
        ensures
            final(self).wf(),
            final(self)@ == selected(old(self)@, next_start(graphemes(old(self)@.text), caret(old(self)@) as int, vbytes(old(self)@).len() as int) as usize),
    {
        let to = self.next_boundary(self.cursor_offset());
        self.select_to(to);
    }

    /// Moves the caret to the start of the previous word.
    pub fn word_left(&mut self)
        requires
            old(self).wf(),
        ensures
            final(self).wf(),
            final(self)@ == moved(old(self)@, prev_word_start(vbytes(old(self)@), word_bounds(old(self)@.text), caret(old(self)@) as int) as usize),
    {
        let to = self.previous_word_boundary(self.cursor_offset());
        self.move_to(to);
    }

    /// Moves the caret to the end of the next word.
    pub fn word_right(&mut self)
        requires
            old(self).wf(),
        ensures
            final(self).wf(),
            final(self)@ == moved(old(self)@, next_word_end(vbytes(old(self)@), word_bounds(old(self)@.text), caret(old(self)@) as int) as usize),
    {
        let to = self.next_word_boundary(self.cursor_offset());
        self.move_to(to);
    }

    /// Extends the selection to the start of the previous word.
    pub fn select_word_left(&mut self)
        requires
            old(self).wf(),
        ensures
            final(self).wf(),
            final(self)@ == selected(old(self)@, prev_word_start(vbytes(old(self)@), word_bounds(old(self)@.text), caret(old(self)@) as int) as usize),
    {
        let to = self.previous_word_boundary(self.cursor_offset());
        self.select_to(to);
    }

    /// Extends the selection to the end of the next word.
    pub fn select_word_right(&mut self)
        requires
            old(self).wf(),
        ensures
            final(self).wf(),
            final(self)@ == selected(old(self)@, next_word_end(vbytes(old(self)@), word_bounds(old(self)@.text), caret(old(self)@) as int) as usize),
    {
        let to = self.next_word_boundary(self.cursor_offset());
        self.select_to(to);
    }

    /// Moves the caret to the start of the text.
    pub fn doc_start(&mut self)
        requires
            old(self).wf(),
        ensures
            final(self).wf(),
            final(self)@ == moved(old(self)@, 0),
    {
        self.move_to(0);
    }

    /// Moves the caret to the end of the text.
    pub fn doc_end(&mut self)
        requires
            old(self).wf(),
        ensures
            final(self).wf(),
            final(self)@ == moved(old(self)@, vbytes(old(self)@).len() as usize),
    {
        let len = self.text_len();
        self.move_to(len);
    }

    /// Extends the selection to the start of the text.
    pub fn select_doc_start(&mut self)
        requires
            old(self).wf(),
        ensures
            final(self).wf(),
            final(self)@ == selected(old(self)@, 0),
    {
        self.select_to(0);
    }

    /// Extends the selection to the end of the text.
    pub fn select_doc_end(&mut self)
        requires
            old(self).wf(),
        ensures
            final(self).wf(),
            final(self)@ == selected(old(self)@, vbytes(old(self)@).len() as usize),
    {
        let len = self.text_len();
        self.select_to(len);
    }

    /// An input holding `initial_value`, made single-line unless
    /// `multiline`, with the caret at its end.
    pub fn new(initial_value: &str, multiline: bool, read_only: bool) -> (e: Editor)
        ensures
            e.wf(),
            e.text() == if multiline {
                initial_value@
            } else {
                single_line(initial_value@)
            },
            e.range().start == e.bytes().len() && e.range().end == e.bytes().len(),
            !e.reversed(),
            e.marked() is None,
            e.rev() == 0,
            e.is_multiline() == multiline,
            e.is_read_only() == read_only,
            e.undo_steps().len() == 0,
            e.redo_steps().len() == 0,
            e.last() is None,
    {
        let content = if multiline {
            initial_value.to_string()
        } else {
            single_line_text(initial_value)
        };
        let end = content.as_str().as_bytes().len();
        Editor {
            content,
            selected_range: end..end,
            selection_reversed: false,
            marked_range: None,
            revision: 0,
            multiline,
            read_only,
            undo_stack: VecDeque::new(),
            redo_stack: Vec::new(),
            last_edit: None,
        }
    }
}

} // verus!
