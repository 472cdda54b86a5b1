//! Cross-element text selection state.
//!
//! Each registered text is a complete logical paragraph. Selection uses paint
//! order and keeps its source strings, so selected content survives after
//! virtualization removes the corresponding views. State belongs to one
//! document.
use std::ops::Range;
use vstd::prelude::*;
use vstd::string::StringSliceAdditionalSpecFns;
use vstd::utf8::*;
use crate::text::{boundary, clamped, utf8_of, clamp_boundary, slice, str_eq, all_whitespace};

verus! {

broadcast use vstd::utf8::group_utf8_lib;

/// One element's slice of the selection, in document order.
#[derive(Debug)]
pub struct Span {
    /// Stable logical key inside the document.
    pub key: String,
    /// Byte range of the selection inside `text`.
    pub range: Range<usize>,
    /// The element's source, retained until the selection is cleared.
    pub text: String,
}

impl Clone for Span {
    fn clone(&self) -> (r: Span)
        ensures
            r@ == self@,
    {
        Span {
            key: self.key.clone(),
            range: self.range.start..self.range.end,
            text: self.text.clone(),
        }
    }
}

proof fn lemma_view_push(s: Seq<Span>, x: Span)
    ensures
        spans_view(s.push(x)) == spans_view(s).push(x@),
{
    assert(spans_view(s.push(x)) =~= spans_view(s).push(x@));
}

/// A copy of a span.
pub fn copy_span(s: &Span) -> (r: Span)
    ensures
        r@ == s@,
{
    Span { key: s.key.clone(), range: s.range.start..s.range.end, text: s.text.clone() }
}

/// A painted text element: its key and its source.
#[derive(Clone, Debug)]
pub struct RegisteredText {
    pub key: String,
    pub text: String,
}

/// A span as values.
pub struct SpanView {
    pub key: Seq<char>,
    pub start: int,
    pub end: int,
    pub text: Seq<char>,
}

impl View for Span {
    type V = SpanView;

    open spec fn view(&self) -> SpanView {
        SpanView {
            key: self.key@,
            start: self.range.start as int,
            end: self.range.end as int,
            text: self.text@,
        }
    }
}

/// The spans of a sequence, as values.
pub open spec fn spans_view(spans: Seq<Span>) -> Seq<SpanView> {
    spans.map_values(|s: Span| s@)
}

/// The key and text of each registered element.
pub open spec fn texts_view(elements: Seq<RegisteredText>) -> Seq<(Seq<char>, Seq<char>)> {
    elements.map_values(|e: RegisteredText| (e.key@, e.text@))
}

/// A span whose range lies on character boundaries of its text.
pub open spec fn span_wf(s: SpanView) -> bool {
    &&& 0 <= s.start <= s.end <= utf8_of(s.text).len()
    &&& boundary(utf8_of(s.text), s.start)
    &&& boundary(utf8_of(s.text), s.end)
}

/// Every span is well formed.
pub open spec fn all_wf(spans: Seq<SpanView>) -> bool {
    forall|i: int| 0 <= i < spans.len() ==> #[trigger] span_wf(spans[i])
}

/// The lexicographic order of `(element index, byte offset)` positions.
pub open spec fn position_le(a: (int, int), b: (int, int)) -> bool {
    a.0 < b.0 || (a.0 == b.0 && a.1 <= b.1)
}

/// The spans of elements `start.0 .. n` for a selection from `start` to `end`:
/// the first element from `start.1`, the last to `end.1`, the others whole,
/// each offset clamped to a boundary, empty slices skipped.
pub open spec fn resolve_upto(
    elements: Seq<(Seq<char>, Seq<char>)>,
    start: (int, int),
    end: (int, int),
    n: int,
) -> Seq<SpanView>
    decreases n,
{
    if n <= start.0 || n <= 0 {
        Seq::empty()
    } else {
        let prev = resolve_upto(elements, start, end, n - 1);
        let i = n - 1;
        let bytes = utf8_of(elements[i].1);
        let from = clamped(bytes, if i == start.0 { start.1 } else { 0 });
        let to = clamped(bytes, if i == end.0 { end.1 } else { bytes.len() as int });
        if from < to {
            prev.push(SpanView { key: elements[i].0, start: from, end: to, text: elements[i].1 })
        } else {
            prev
        }
    }
}

/// The spans between two positions, in either order.
pub open spec fn resolved(elements: Seq<(Seq<char>, Seq<char>)>, a: (int, int), b: (int, int)) -> Seq<
    SpanView,
> {
    let (start, end) = if position_le(a, b) {
        (a, b)
    } else {
        (b, a)
    };
    resolve_upto(
        elements,
        start,
        end,
        if end.0 + 1 < elements.len() {
            end.0 + 1
        } else {
            elements.len() as int
        },
    )
}

proof fn lemma_resolve_wf(
    elements: Seq<(Seq<char>, Seq<char>)>,
    start: (int, int),
    end: (int, int),
    n: int,
)
    requires
        n <= elements.len(),
        0 <= start.1,
        0 <= end.1,
    ensures
        all_wf(resolve_upto(elements, start, end, n)),
    decreases n,
{
    if n > start.0 && n > 0 {
        lemma_resolve_wf(elements, start, end, n - 1);
        let i = n - 1;
        let bytes = utf8_of(elements[i].1);
        let a = if i == start.0 { start.1 } else { 0 };
        let b = if i == end.0 { end.1 } else { bytes.len() as int };
        crate::text::lemma_clamped(bytes, a);
        crate::text::lemma_clamped(bytes, b);
    }
}

/// Resolves the spans for a selection between `a` and `b`, each an
/// `(element index, byte offset)` into `elements` (document-ordered painted
/// runs). Handles either direction; empty slices are skipped.
pub fn resolve_spans(elements: &[RegisteredText], a: (usize, usize), b: (usize, usize)) -> (r: Vec<
    Span,
>)
    requires
        a.0 < usize::MAX,
        b.0 < usize::MAX,
    ensures
        spans_view(r@) == resolved(texts_view(elements@), (a.0 as int, a.1 as int), (b.0 as int, b.1 as int)),
        all_wf(spans_view(r@)),
{
    let ghost els = texts_view(elements@);
    let (start, end) = if a.0 < b.0 || (a.0 == b.0 && a.1 <= b.1) {
        (a, b)
    } else {
        (b, a)
    };
    let ghost gs = (start.0 as int, start.1 as int);
    let ghost ge = (end.0 as int, end.1 as int);
    let stop = if end.0 + 1 < elements.len() {
        end.0 + 1
    } else {
        elements.len()
    };
    let mut spans: Vec<Span> = Vec::new();
    if start.0 >= stop {
        assert(spans_view(spans@) =~= resolve_upto(els, gs, ge, stop as int));
        proof {
            lemma_resolve_wf(els, gs, ge, stop as int);
        }
        return spans;
    }
    let mut ei = start.0;
    assert(spans_view(spans@) =~= resolve_upto(els, gs, ge, ei as int));
    while ei < stop
        invariant
            start.0 <= ei <= stop <= elements@.len(),
            els == texts_view(elements@),
            gs == (start.0 as int, start.1 as int),
            ge == (end.0 as int, end.1 as int),
            spans_view(spans@) == resolve_upto(els, gs, ge, ei as int),
        decreases stop - ei,
    {
        let entry = &elements[ei];
        let text = entry.text.as_str();
        let from0 = if ei == start.0 {
            start.1
        } else {
            0
        };
        let to0 = if ei == end.0 {
            end.1
        } else {
            text.as_bytes().len()
        };
        let from = clamp_boundary(text, from0);
        let to = clamp_boundary(text, to0);
        let ghost before = spans_view(spans@);
        assert(els[ei as int] == (entry.key@, entry.text@));
        assert(text.spec_bytes() == utf8_of(els[ei as int].1));
        assert(from as int == clamped(
            utf8_of(els[ei as int].1),
            if ei as int == gs.0 {
                gs.1
            } else {
                0
            },
        ));
        assert(to as int == clamped(
            utf8_of(els[ei as int].1),
            if ei as int == ge.0 {
                ge.1
            } else {
                utf8_of(els[ei as int].1).len() as int
            },
        ));
        if from < to {
            spans.push(Span { key: entry.key.clone(), range: from..to, text: entry.text.clone() });
            assert(spans_view(spans@) =~= before.push(
                SpanView {
                    key: entry.key@,
                    start: from as int,
                    end: to as int,
                    text: entry.text@,
                },
            ));
        }
        ei = ei + 1;
    }
    proof {
        lemma_resolve_wf(els, gs, ge, stop as int);
    }
    spans
}

/// Resolving a selection does not depend on which end is the anchor.
pub proof fn lemma_resolve_symmetric(
    elements: Seq<(Seq<char>, Seq<char>)>,
    a: (int, int),
    b: (int, int),
)
    ensures
        resolved(elements, a, b) == resolved(elements, b, a),
{
    if position_le(a, b) && position_le(b, a) {
        assert(a == b);
    }
}

/// A piece `(start, length)` holds byte offset `ix`.
pub open spec fn piece_holds(p: (int, int), ix: int) -> bool {
    p.0 <= ix < p.0 + p.1
}

/// The range a word selection at byte `ix` takes: the Unicode word holding the
/// clamped offset, else the grapheme holding it unless that is white space,
/// else the word ending there, else the empty range at the offset.
pub open spec fn word_range_spec(text: Seq<char>, ix: int) -> (int, int) {
    let bytes = utf8_of(text);
    let c = clamped(bytes, ix);
    let ws = crate::segment::unicode_words(text);
    let gs = crate::segment::graphemes(text);
    if exists|i: int| 0 <= i < ws.len() && piece_holds(#[trigger] ws[i], c) {
        let i = choose|i: int| 0 <= i < ws.len() && piece_holds(#[trigger] ws[i], c);
        (ws[i].0, ws[i].0 + ws[i].1)
    } else if exists|g: int|
        0 <= g < gs.len() && piece_holds(#[trigger] gs[g], c) && !all_whitespace(
            decode_utf8(bytes.subrange(gs[g].0, gs[g].0 + gs[g].1)),
        ) {
        let g = choose|g: int|
            0 <= g < gs.len() && piece_holds(#[trigger] gs[g], c) && !all_whitespace(
                decode_utf8(bytes.subrange(gs[g].0, gs[g].0 + gs[g].1)),
            );
        (gs[g].0, gs[g].0 + gs[g].1)
    } else if exists|i: int| 0 <= i < ws.len() && (#[trigger] ws[i]).0 + ws[i].1 == c {
        let i = choose|i: int| 0 <= i < ws.len() && (#[trigger] ws[i]).0 + ws[i].1 == c;
        (ws[i].0, ws[i].0 + ws[i].1)
    } else {
        (c, c)
    }
}

proof fn lemma_unique_holder(bytes: Seq<u8>, ps: Seq<(int, int)>, i: int, k: int, c: int)
    requires
        crate::segment::ordered_pieces(bytes, ps),
        0 <= i < ps.len(),
        0 <= k < ps.len(),
        piece_holds(ps[i], c),
        piece_holds(ps[k], c),
    ensures
        i == k,
{
    if i < k {
        assert(ps[i].0 + ps[i].1 <= ps[k].0);
    } else if k < i {
        assert(ps[k].0 + ps[k].1 <= ps[i].0);
    }
}

proof fn lemma_unique_end(bytes: Seq<u8>, ps: Seq<(int, int)>, i: int, k: int, c: int)
    requires
        crate::segment::ordered_pieces(bytes, ps),
        0 <= i < ps.len(),
        0 <= k < ps.len(),
        ps[i].0 + ps[i].1 == c,
        ps[k].0 + ps[k].1 == c,
    ensures
        i == k,
{
    if i < k {
        assert(ps[i].0 + ps[i].1 <= ps[k].0);
        assert(0 < ps[k].1);
    } else if k < i {
        assert(ps[k].0 + ps[k].1 <= ps[i].0);
        assert(0 < ps[i].1);
    }
}

/// What the scan of the words established: no word holds the clamped offset,
/// and `preceding` is the word ending there, if any.
#[verifier::opaque]
spec fn word_scan_done(text: Seq<char>, ix: int, preceding: Option<(usize, usize)>) -> bool {
    let bytes = utf8_of(text);
    let c = clamped(bytes, ix);
    let ws = crate::segment::unicode_words(text);
    &&& crate::segment::ordered_pieces(bytes, ws)
    &&& forall|j: int| 0 <= j < ws.len() ==> !piece_holds(#[trigger] ws[j], c)
    &&& match preceding {
        Some((s, e)) => exists|j: int|
            0 <= j < ws.len() && (#[trigger] ws[j]).0 + ws[j].1 == c && s == ws[j].0 && e == c,
        None => forall|j: int| 0 <= j < ws.len() ==> (#[trigger] ws[j]).0 + ws[j].1 != c,
    }
}

/// After no word holds the offset: the word ending at it, or the empty range.
proof fn lemma_word_range_fallback(text: Seq<char>, ix: int, preceding: Option<(usize, usize)>)
    requires
        word_scan_done(text, ix, preceding),
        ({
            let bytes = utf8_of(text);
            let c = clamped(bytes, ix);
            let gs = crate::segment::graphemes(text);
            !exists|g: int|
                0 <= g < gs.len() && piece_holds(#[trigger] gs[g], c) && !all_whitespace(
                    decode_utf8(bytes.subrange(gs[g].0, gs[g].0 + gs[g].1)),
                )
        }),
    ensures
        word_range_spec(text, ix) == (match preceding {
            Some((s, e)) => (s as int, e as int),
            None => (clamped(utf8_of(text), ix), clamped(utf8_of(text), ix)),
        }),
{
    reveal(word_scan_done);
    let bytes = utf8_of(text);
    let c = clamped(bytes, ix);
    let ws = crate::segment::unicode_words(text);
    if let Some((s, e)) = preceding {
        let j = choose|j: int|
            0 <= j < ws.len() && (#[trigger] ws[j]).0 + ws[j].1 == c && s == ws[j].0 && e == c;
        let k = choose|k: int| 0 <= k < ws.len() && (#[trigger] ws[k]).0 + ws[k].1 == c;
        lemma_unique_end(bytes, ws, j, k, c);
    }
}

/// The selection of a word holds the clamped offset; it is the Unicode word
/// holding that offset where there is one, and it is empty only at the
/// offset itself.
proof fn lemma_word_range_law(text: Seq<char>, ix: int)
    requires
        crate::segment::ordered_pieces(utf8_of(text), crate::segment::unicode_words(text)),
    ensures
        ({
            let c = clamped(utf8_of(text), ix);
            let r = word_range_spec(text, ix);
            let ws = crate::segment::unicode_words(text);
            &&& r.0 <= c <= r.1
            &&& forall|i: int|
                0 <= i < ws.len() && piece_holds(#[trigger] ws[i], c) ==> r == (ws[i].0, ws[i].0 + ws[i].1)
            &&& r.0 == r.1 ==> r == (c, c)
        }),
{
    let bytes = utf8_of(text);
    let c = clamped(bytes, ix);
    let ws = crate::segment::unicode_words(text);
    if exists|i: int| 0 <= i < ws.len() && piece_holds(#[trigger] ws[i], c) {
        let k = choose|i: int| 0 <= i < ws.len() && piece_holds(#[trigger] ws[i], c);
        assert forall|i: int|
            0 <= i < ws.len() && piece_holds(#[trigger] ws[i], c) implies word_range_spec(text, ix) == (
            ws[i].0,
            ws[i].0 + ws[i].1,
        ) by {
            lemma_unique_holder(bytes, ws, i, k, c);
        }
    } else if exists|i: int| 0 <= i < ws.len() && (#[trigger] ws[i]).0 + ws[i].1 == c {
        let k = choose|i: int| 0 <= i < ws.len() && (#[trigger] ws[i]).0 + ws[i].1 == c;
        assert(0 < ws[k].1);
    }
}

/// Selects a Unicode word or a whole non-space grapheme under the pointer. At
/// whitespace or end of text, the word ending at the pointer, if any. The
/// range always holds the offset, clamped to the text and snapped down to a
/// character boundary; it is the word holding that offset where one does, and
/// it is empty only at the offset itself.
#[verifier::rlimit(40)]
pub fn word_range(text: &str, ix: usize) -> (r: Range<usize>)
    ensures
        (r.start as int, r.end as int) == word_range_spec(text@, ix as int),
        r.start <= r.end <= text.spec_bytes().len(),
        boundary(text.spec_bytes(), r.start as int),
        boundary(text.spec_bytes(), r.end as int),
        r.start <= clamped(text.spec_bytes(), ix as int) <= r.end,
        forall|i: int|
            0 <= i < crate::segment::unicode_words(text@).len() && piece_holds(
                #[trigger] crate::segment::unicode_words(text@)[i],
                clamped(text.spec_bytes(), ix as int),
            ) ==> r.start == crate::segment::unicode_words(text@)[i].0 && r.end
                == crate::segment::unicode_words(text@)[i].0 + crate::segment::unicode_words(text@)[i].1,
        r.start == r.end ==> r.start == clamped(text.spec_bytes(), ix as int),
{
    let c = clamp_boundary(text, ix);
    let tb = text.as_bytes();
    let ghost bytes = text.spec_bytes();
    assert(tb@ == bytes);
    assert(tb.len() == tb@.len());
    assert(bytes == utf8_of(text@));
    let words = crate::segment::word_pieces(text);
    let ghost ws = crate::segment::unicode_words(text@);
    proof {
        lemma_word_range_law(text@, ix as int);
    }
    let mut preceding: Option<(usize, usize)> = None;
    let mut i: usize = 0;
    while i < words.len()
        invariant
            i <= words@.len(),
            ws == crate::segment::pieces_view(words@),
            ws == crate::segment::unicode_words(text@),
            crate::segment::ordered_pieces(bytes, ws),
            bytes == text.spec_bytes(),
            bytes == utf8_of(text@),
            c as int == clamped(bytes, ix as int),
            c <= bytes.len(),
            boundary(bytes, c as int),
            bytes.len() <= usize::MAX,
            forall|j: int| 0 <= j < i ==> !piece_holds(#[trigger] ws[j], c as int),
            match preceding {
                Some((s, e)) => s <= e <= bytes.len() && boundary(bytes, s as int) && boundary(bytes, e as int),
                None => true,
            },
            match preceding {
                Some((s, e)) => exists|j: int|
                    0 <= j < i && (#[trigger] ws[j]).0 + ws[j].1 == c && s == ws[j].0 && e == c,
                None => forall|j: int| 0 <= j < i ==> (#[trigger] ws[j]).0 + ws[j].1 != c,
            },
        decreases words@.len() - i,
    {
        let (start, len) = words[i];
        assert(ws[i as int] == (start as int, len as int));
        let end = start + len;
        if start <= c && c < end {
            proof {
                assert(piece_holds(ws[i as int], c as int));
                let k = choose|k: int| 0 <= k < ws.len() && piece_holds(#[trigger] ws[k], c as int);
                lemma_unique_holder(bytes, ws, i as int, k, c as int);
            }
            return start..end;
        }
        if end == c {
            preceding = Some((start, end));
        }
        i = i + 1;
    }
    assert(tb@.len() <= usize::MAX);
    assert(word_scan_done(text@, ix as int, preceding)) by {
        reveal(word_scan_done);
    }
    let gs = crate::segment::grapheme_pieces(text);
    let ghost gv = crate::segment::graphemes(text@);
    let mut g: usize = 0;
    while g < gs.len()
        invariant
            g <= gs@.len(),
            gv == crate::segment::pieces_view(gs@),
            gv == crate::segment::graphemes(text@),
            crate::segment::covering_pieces(bytes, gv),
            bytes == text.spec_bytes(),
            bytes == utf8_of(text@),
            bytes.len() <= usize::MAX,
            c as int == clamped(bytes, ix as int),
            c <= bytes.len(),
            boundary(bytes, c as int),
            match preceding {
                Some((s, e)) => s <= e <= bytes.len() && boundary(bytes, s as int) && boundary(bytes, e as int),
                None => true,
            },
            forall|j: int| 0 <= j < g ==> !piece_holds(#[trigger] gv[j], c as int),
            word_scan_done(text@, ix as int, preceding),
        decreases gs@.len() - g,
    {
        let (start, len) = gs[g];
        assert(gv[g as int] == (start as int, len as int));
        if start <= c && c < start + len {
            let piece = slice(text, start, start + len);
            assert(piece_holds(gv[g as int], c as int));
            if !crate::text::is_all_whitespace(piece) {
                proof {
                    let k = choose|k: int|
                        0 <= k < gv.len() && piece_holds(#[trigger] gv[k], c as int)
                            && !all_whitespace(
                            decode_utf8(bytes.subrange(gv[k].0, gv[k].0 + gv[k].1)),
                        );
                    lemma_unique_holder(bytes, gv, g as int, k, c as int);
                    reveal(word_scan_done);
                }
                return start..start + len;
            }
            proof {
                assert forall|k: int|
                    0 <= k < gv.len() && piece_holds(#[trigger] gv[k], c as int) implies all_whitespace(
                    decode_utf8(bytes.subrange(gv[k].0, gv[k].0 + gv[k].1)),
                ) by {
                    lemma_unique_holder(bytes, gv, g as int, k, c as int);
                }
                lemma_word_range_fallback(text@, ix as int, preceding);
                reveal(word_scan_done);
                lemma_word_range_law(text@, ix as int);
            }
            return match preceding {
                Some((s, e)) => s..e,
                None => c..c,
            };
        }
        g = g + 1;
    }
    proof {
        lemma_word_range_fallback(text@, ix as int, preceding);
    }
    match preceding {
        Some((s, e)) => s..e,
        None => c..c,
    }
}

/// Two span lists hold the same values.
pub fn spans_eq(a: &Vec<Span>, b: &Vec<Span>) -> (r: bool)
    ensures
        r == (spans_view(a@) == spans_view(b@)),
{
    if a.len() != b.len() {
        proof {
            if spans_view(a@) == spans_view(b@) {
                assert(spans_view(a@).len() == spans_view(b@).len());
            }
        }
        return false;
    }
    let mut i: usize = 0;
    while i < a.len()
        invariant
            a@.len() == b@.len(),
            i <= a@.len(),
            forall|j: int| 0 <= j < i ==> a@[j]@ == b@[j]@,
        decreases a@.len() - i,
    {
        let x = &a[i];
        let y = &b[i];
        if !(str_eq(x.key.as_str(), y.key.as_str()) && x.range.start == y.range.start
            && x.range.end == y.range.end && str_eq(x.text.as_str(), y.text.as_str())) {
            proof {
                assert(spans_view(a@)[i as int] != spans_view(b@)[i as int]);
            }
            return false;
        }
        i = i + 1;
    }
    assert(spans_view(a@) =~= spans_view(b@));
    true
}

/// The selection state as values.
pub struct SelectionView {
    /// Element that owns the drag (where the pointer went down).
    pub anchor_key: Seq<char>,
    /// Byte offset of the anchor within its element.
    pub anchor_ix: int,
    pub dragging: bool,
    /// Direction established while the anchor is still painted.
    pub forward: Option<bool>,
    /// Resolved spans in document order.
    pub spans: Seq<SpanView>,
    pub active: bool,
    /// A press keeps ordinary click routing until a move starts a drag.
    pub pending: bool,
}

/// The state with no press, drag or selection.
pub open spec fn idle_view() -> SelectionView {
    SelectionView {
        anchor_key: Seq::empty(),
        anchor_ix: 0,
        dragging: false,
        forward: None,
        spans: Seq::empty(),
        active: false,
        pending: false,
    }
}

/// Some span of an active selection is non-empty.
pub open spec fn has_selection_spec(v: SelectionView) -> bool {
    v.active && exists|i: int| 0 <= i < v.spans.len() && (#[trigger] v.spans[i]).start < v.spans[i].end
}

/// The first non-empty span of `key` among the first `n` spans.
pub open spec fn wash_index(spans: Seq<SpanView>, key: Seq<char>, n: int) -> Option<int>
    decreases n,
{
    if n <= 0 {
        None
    } else {
        match wash_index(spans, key, n - 1) {
            Some(i) => Some(i),
            None => if spans[n - 1].key == key && spans[n - 1].start < spans[n - 1].end {
                Some(n - 1)
            } else {
                None
            },
        }
    }
}

/// The first span of `key` among the first `n` spans.
pub open spec fn span_index(spans: Seq<SpanView>, key: Seq<char>, n: int) -> Option<int>
    decreases n,
{
    if n <= 0 {
        None
    } else {
        match span_index(spans, key, n - 1) {
            Some(i) => Some(i),
            None => if spans[n - 1].key == key {
                Some(n - 1)
            } else {
                None
            },
        }
    }
}

/// The first of the first `n` elements whose key is `key`.
pub open spec fn element_index(elements: Seq<(Seq<char>, Seq<char>)>, key: Seq<char>, n: int) -> Option<
    int,
>
    decreases n,
{
    if n <= 0 {
        None
    } else {
        match element_index(elements, key, n - 1) {
            Some(i) => Some(i),
            None => if elements[n - 1].0 == key {
                Some(n - 1)
            } else {
                None
            },
        }
    }
}

/// The first of the first `n` elements that some span belongs to.
pub open spec fn first_overlap(elements: Seq<(Seq<char>, Seq<char>)>, spans: Seq<SpanView>, n: int) -> Option<
    int,
>
    decreases n,
{
    if n <= 0 {
        None
    } else {
        match first_overlap(elements, spans, n - 1) {
            Some(i) => Some(i),
            None => if span_index(spans, elements[n - 1].0, spans.len() as int) is Some {
                Some(n - 1)
            } else {
                None
            },
        }
    }
}

/// The last of the first `n` elements that some span belongs to.
pub open spec fn last_overlap(elements: Seq<(Seq<char>, Seq<char>)>, spans: Seq<SpanView>, n: int) -> Option<
    int,
>
    decreases n,
{
    if n <= 0 {
        None
    } else if span_index(spans, elements[n - 1].0, spans.len() as int) is Some {
        Some(n - 1)
    } else {
        last_overlap(elements, spans, n - 1)
    }
}

/// A drag whose anchor scrolled out of the painted frame: the selected run
/// that overlaps this frame joins the frame's spans to the retained ones.
/// Forward, the retained spans before the first overlapping element stay and
/// the frame resolves from that span's start to the head; backward, the frame
/// resolves from the head to the last overlapping element's span end and the
/// retained spans after it stay. `None` when nothing overlaps.
pub open spec fn extended(
    existing: Seq<SpanView>,
    elements: Seq<(Seq<char>, Seq<char>)>,
    head: (int, int),
    forward: bool,
) -> Option<Seq<SpanView>> {
    if forward {
        match first_overlap(elements, existing, elements.len() as int) {
            Some(ei) => {
                let si = span_index(existing, elements[ei].0, existing.len() as int)->Some_0;
                Some(
                    existing.subrange(0, si) + resolved(elements, (ei, existing[si].start), head),
                )
            },
            None => None,
        }
    } else {
        match last_overlap(elements, existing, elements.len() as int) {
            Some(ei) => {
                let si = span_index(existing, elements[ei].0, existing.len() as int)->Some_0;
                Some(
                    resolved(elements, head, (ei, existing[si].end)) + existing.subrange(
                        si + 1,
                        existing.len() as int,
                    ),
                )
            },
            None => None,
        }
    }
}

pub(crate) fn find_span(spans: &Vec<Span>, key: &str) -> (r: Option<usize>)
    ensures
        match r {
            Some(i) => span_index(spans_view(spans@), key@, spans@.len() as int) == Some(i as int)
                && i < spans@.len(),
            None => span_index(spans_view(spans@), key@, spans@.len() as int) is None,
        },
{
    let mut i: usize = 0;
    while i < spans.len()
        invariant
            i <= spans@.len(),
            span_index(spans_view(spans@), key@, i as int) is None,
        decreases spans@.len() - i,
    {
        if str_eq(spans[i].key.as_str(), key) {
            proof {
                assert(span_index(spans_view(spans@), key@, (i + 1) as int) == Some(i as int));
                lemma_span_index_stays(spans_view(spans@), key@, (i + 1) as int, spans@.len() as int);
            }
            return Some(i);
        }
        i = i + 1;
    }
    None
}

pub(crate) fn find_element(elements: &[RegisteredText], key: &str) -> (r: Option<usize>)
    ensures
        match r {
            Some(i) => element_index(texts_view(elements@), key@, elements@.len() as int) == Some(
                i as int,
            ) && i < elements@.len(),
            None => element_index(texts_view(elements@), key@, elements@.len() as int) is None,
        },
{
    let mut i: usize = 0;
    while i < elements.len()
        invariant
            i <= elements@.len(),
            element_index(texts_view(elements@), key@, i as int) is None,
        decreases elements@.len() - i,
    {
        if str_eq(elements[i].key.as_str(), key) {
            proof {
                assert(element_index(texts_view(elements@), key@, (i + 1) as int) == Some(i as int));
                lemma_element_index_stays(
                    texts_view(elements@),
                    key@,
                    (i + 1) as int,
                    elements@.len() as int,
                );
            }
            return Some(i);
        }
        i = i + 1;
    }
    None
}

proof fn lemma_span_index_stays(spans: Seq<SpanView>, key: Seq<char>, n: int, m: int)
    requires
        n <= m,
        span_index(spans, key, n) is Some,
    ensures
        span_index(spans, key, m) == span_index(spans, key, n),
    decreases m - n,
{
    if n < m {
        lemma_span_index_stays(spans, key, n, m - 1);
    }
}

proof fn lemma_element_index_stays(
    elements: Seq<(Seq<char>, Seq<char>)>,
    key: Seq<char>,
    n: int,
    m: int,
)
    requires
        n <= m,
        element_index(elements, key, n) is Some,
    ensures
        element_index(elements, key, m) == element_index(elements, key, n),
    decreases m - n,
{
    if n < m {
        lemma_element_index_stays(elements, key, n, m - 1);
    }
}

proof fn lemma_span_index_bounds(spans: Seq<SpanView>, key: Seq<char>, n: int)
    requires
        span_index(spans, key, n) is Some,
        n <= spans.len(),
    ensures
        0 <= span_index(spans, key, n)->Some_0 < n,
    decreases n,
{
    if n > 0 && span_index(spans, key, n - 1) is Some {
        lemma_span_index_bounds(spans, key, n - 1);
    }
}

proof fn lemma_overlap_bounds(elements: Seq<(Seq<char>, Seq<char>)>, spans: Seq<SpanView>, n: int)
    requires
        n <= elements.len(),
    ensures
        first_overlap(elements, spans, n) matches Some(i) ==> 0 <= i < n && span_index(
            spans,
            elements[i].0,
            spans.len() as int,
        ) is Some,
        last_overlap(elements, spans, n) matches Some(i) ==> 0 <= i < n && span_index(
            spans,
            elements[i].0,
            spans.len() as int,
        ) is Some,
    decreases n,
{
    if n > 0 {
        lemma_overlap_bounds(elements, spans, n - 1);
    }
}

/// The spans of a drag whose anchor is no longer painted, joined to the spans
/// retained from earlier frames.
pub fn extend_virtualized_drag(
    existing: &Vec<Span>,
    elements: &[RegisteredText],
    head: (usize, usize),
    forward: bool,
) -> (r: Option<Vec<Span>>)
    requires
        all_wf(spans_view(existing@)),
        head.0 < usize::MAX,
        elements@.len() < usize::MAX,
    ensures
        match r {
            Some(v) => extended(
                spans_view(existing@),
                texts_view(elements@),
                (head.0 as int, head.1 as int),
                forward,
            ) == Some(spans_view(v@)) && all_wf(spans_view(v@)),
            None => extended(
                spans_view(existing@),
                texts_view(elements@),
                (head.0 as int, head.1 as int),
                forward,
            ) is None,
        },
{
    let ghost els = texts_view(elements@);
    let ghost ex = spans_view(existing@);
    proof {
        lemma_overlap_bounds(els, ex, els.len() as int);
    }
    if forward {
        let mut e: usize = 0;
        while e < elements.len()
            invariant
                e <= elements@.len(),
                els == texts_view(elements@),
                ex == spans_view(existing@),
                first_overlap(els, ex, e as int) is None,
                head.0 < usize::MAX,
                elements@.len() < usize::MAX,
                all_wf(ex),
                forward,
            decreases elements@.len() - e,
        {
            match find_span(existing, elements[e].key.as_str()) {
                Some(si) => {
                    assert(first_overlap(els, ex, (e + 1) as int) == Some(e as int));
                    proof {
                        lemma_overlap_full_first(els, ex, (e + 1) as int, els.len() as int);
                    }
                    let start = existing[si].range.start;
                    let mut merged: Vec<Span> = Vec::new();
                    let mut k: usize = 0;
                    while k < si
                        invariant
                            k <= si < existing@.len(),
                            ex == spans_view(existing@),
                            spans_view(merged@) == ex.subrange(0, k as int),
                        decreases si - k,
                    {
                        let ghost pre = merged@;
                        let c = copy_span(&existing[k]);
                        merged.push(c);
                        proof {
                            lemma_view_push(pre, c);
                        }
                        assert(spans_view(merged@) =~= ex.subrange(0, (k + 1) as int));
                        k = k + 1;
                    }
                    let tail = resolve_spans(elements, (e, start), head);
                    let ghost before = spans_view(merged@);
                    let mut t: usize = 0;
                    while t < tail.len()
                        invariant
                            t <= tail@.len(),
                            spans_view(merged@) == before + spans_view(tail@).subrange(0, t as int),
                        decreases tail@.len() - t,
                    {
                        let ghost pre = merged@;
                        let c = copy_span(&tail[t]);
                        merged.push(c);
                        proof {
                            lemma_view_push(pre, c);
                        }
                        assert(spans_view(merged@) =~= before + spans_view(tail@).subrange(
                            0,
                            (t + 1) as int,
                        ));
                        t = t + 1;
                    }
                    assert(spans_view(tail@).subrange(0, tail@.len() as int) =~= spans_view(tail@));
                    assert(all_wf(spans_view(merged@))) by {
                        assert forall|j: int| 0 <= j < spans_view(merged@).len() implies #[trigger] span_wf(
                            spans_view(merged@)[j],
                        ) by {
                            if j < si {
                                assert(spans_view(merged@)[j] == ex[j]);
                            } else {
                                assert(spans_view(merged@)[j] == spans_view(tail@)[j - si]);
                            }
                        }
                    }
                    return Some(merged);
                },
                None => {},
            }
            assert(first_overlap(els, ex, (e + 1) as int) is None);
            e = e + 1;
        }
        None
    } else {
        let mut e: usize = elements.len();
        while e > 0
            invariant
                e <= elements@.len(),
                els == texts_view(elements@),
                ex == spans_view(existing@),
                head.0 < usize::MAX,
                elements@.len() < usize::MAX,
                all_wf(ex),
                !forward,
                forall|n: int| e <= n <= els.len() ==> last_overlap(els, ex, n) == last_overlap(els, ex, e as int),
            decreases e,
        {
            match find_span(existing, elements[e - 1].key.as_str()) {
                Some(si) => {
                    assert(last_overlap(els, ex, e as int) == Some((e - 1) as int));
                    let end = existing[si].range.end;
                    assert(existing.len() == existing@.len());
                    let mut merged = resolve_spans(elements, head, (e - 1, end));
                    let ghost before = spans_view(merged@);
                    let mut k: usize = si + 1;
                    while k < existing.len()
                        invariant
                            si < k <= existing@.len(),
                            ex == spans_view(existing@),
                            spans_view(merged@) == before + ex.subrange(si + 1, k as int),
                        decreases existing@.len() - k,
                    {
                        let ghost pre = merged@;
                        let c = copy_span(&existing[k]);
                        merged.push(c);
                        proof {
                            lemma_view_push(pre, c);
                        }
                        assert(spans_view(merged@) =~= before + ex.subrange(si + 1, (k + 1) as int));
                        k = k + 1;
                    }
                    assert(all_wf(spans_view(merged@))) by {
                        assert forall|j: int| 0 <= j < spans_view(merged@).len() implies #[trigger] span_wf(
                            spans_view(merged@)[j],
                        ) by {
                            if j < before.len() {
                                assert(spans_view(merged@)[j] == before[j]);
                            } else {
                                assert(spans_view(merged@)[j] == ex[si + 1 + j - before.len()]);
                            }
                        }
                    }
                    return Some(merged);
                },
                None => {},
            }
            e = e - 1;
        }
        assert(last_overlap(els, ex, 0) is None);
        None
    }
}

proof fn lemma_overlap_full_first(
    elements: Seq<(Seq<char>, Seq<char>)>,
    spans: Seq<SpanView>,
    n: int,
    m: int,
)
    requires
        n <= m,
        first_overlap(elements, spans, n) is Some,
    ensures
        first_overlap(elements, spans, m) == first_overlap(elements, spans, n),
    decreases m - n,
{
    if n < m {
        lemma_overlap_full_first(elements, spans, n, m - 1);
    }
}

/// One span's selected text.
pub open spec fn span_text(s: SpanView) -> Seq<char> {
    decode_utf8(utf8_of(s.text).subrange(s.start, s.end))
}

/// The text of the first `n` spans, non-empty ones joined by one newline, and
/// whether any was non-empty.
pub open spec fn joined_upto(spans: Seq<SpanView>, n: int) -> (Seq<char>, bool)
    decreases n,
{
    if n <= 0 {
        (Seq::empty(), false)
    } else {
        let (prev, any) = joined_upto(spans, n - 1);
        let s = spans[n - 1];
        if s.start < s.end {
            if any {
                (prev + seq!['\n'] + span_text(s), true)
            } else {
                (span_text(s), true)
            }
        } else {
            (prev, any)
        }
    }
}

/// Complete logical texts joined with one newline between them.
pub open spec fn joined(spans: Seq<SpanView>) -> Seq<char> {
    joined_upto(spans, spans.len() as int).0
}

/// Joins the non-empty spans' texts with one newline between them.
pub fn join_spans(spans: &Vec<Span>) -> (r: String)
    requires
        all_wf(spans_view(spans@)),
    ensures
        r@ == joined(spans_view(spans@)),
{
    let ghost sv = spans_view(spans@);
    let mut out = String::new();
    let mut any = false;
    let mut i: usize = 0;
    while i < spans.len()
        invariant
            i <= spans@.len(),
            sv == spans_view(spans@),
            all_wf(sv),
            joined_upto(sv, i as int) == (out@, any),
            !any ==> out@ == Seq::<char>::empty(),
        decreases spans@.len() - i,
    {
        let span = &spans[i];
        assert(sv[i as int] == span@);
        assert(span_wf(sv[i as int]));
        if span.range.start < span.range.end {
            if any {
                let newline = "\n";
                proof {
                    reveal_strlit("\n");
                }
                out.append(newline);
            }
            let ghost prev = out@;
            let piece = slice(span.text.as_str(), span.range.start, span.range.end);
            out.append(piece);
            assert(piece@ == span_text(sv[i as int]));
            if !any {
                assert(out@ =~= piece@);
            }
            any = true;
        }
        i = i + 1;
    }
    out
}

/// Live selection for one document.
pub struct SelectionState {
    anchor_key: String,
    anchor_ix: usize,
    dragging: bool,
    forward: Option<bool>,
    spans: Vec<Span>,
    active: bool,
    pending: bool,
}

impl View for SelectionState {
    type V = SelectionView;

    closed spec fn view(&self) -> SelectionView {
        SelectionView {
            anchor_key: self.anchor_key@,
            anchor_ix: self.anchor_ix as int,
            dragging: self.dragging,
            forward: self.forward,
            spans: spans_view(self.spans@),
            active: self.active,
            pending: self.pending,
        }
    }
}

impl SelectionState {
    /// Every retained span lies on character boundaries of its text.
    pub open spec fn wf(&self) -> bool {
        all_wf(self@.spans)
    }

    /// No press, drag or selection.
    pub fn new() -> (r: Self)
        ensures
            r@ == idle_view(),
            r.wf(),
    {
        let r = SelectionState {
            anchor_key: String::new(),
            anchor_ix: 0,
            dragging: false,
            forward: None,
            spans: Vec::new(),
            active: false,
            pending: false,
        };
        assert(r@.spans =~= Seq::<SpanView>::empty());
        r
    }

    /// Remembers a press without selecting. The next dragging move promotes it.
    /// True when this discarded a selection.
    pub fn arm(&mut self, key: &str, ix: usize) -> (changed: bool)
        ensures
            changed == has_selection_spec(old(self)@),
            final(self)@ == (SelectionView {
                anchor_key: key@,
                anchor_ix: ix as int,
                dragging: false,
                forward: None,
                spans: Seq::empty(),
                active: false,
                pending: true,
            }),
            final(self).wf(),
    {
        let changed = self.has_selection();
        self.anchor_key = key.to_owned();
        self.anchor_ix = ix;
        self.dragging = false;
        self.forward = None;
        self.active = false;
        self.pending = true;
        self.spans = Vec::new();
        assert(self@.spans =~= Seq::<SpanView>::empty());
        changed
    }

    /// Turns a pending press into a live drag. True when this call started it.
    pub fn promote_pending(&mut self) -> (started: bool)
        ensures
            started == old(self)@.pending,
            old(self)@.pending ==> final(self)@ == (SelectionView {
                pending: false,
                dragging: true,
                active: true,
                ..old(self)@
            }),
            !old(self)@.pending ==> final(self)@ == old(self)@,
            old(self).wf() ==> final(self).wf(),
    {
        if !self.pending {
            return false;
        }
        self.pending = false;
        self.dragging = true;
        self.active = true;
        true
    }

    /// Drops a pending press, returning to the idle state.
    pub fn cancel_pending(&mut self)
        ensures
            old(self)@.pending ==> final(self)@ == idle_view(),
            !old(self)@.pending ==> final(self)@ == old(self)@,
            old(self).wf() ==> final(self).wf(),
    {
        if self.pending {
            *self = SelectionState::new();
        }
    }

    /// A press waits for a drag.
    pub fn is_pending(&self) -> (b: bool)
        ensures
            b == self@.pending,
    {
        self.pending
    }

    /// Begins with an immediate span: a double or triple click inside one
    /// element. True when the spans changed.
    pub fn begin_with_span(&mut self, key: &String, text: &String, range: Range<usize>) -> (changed: bool)
        requires
            span_wf(SpanView { key: key@, start: range.start as int, end: range.end as int, text: text@ }),
        ensures
            changed == (old(self)@.spans != seq![
                SpanView { key: key@, start: range.start as int, end: range.end as int, text: text@ },
            ]),
            final(self)@ == (SelectionView {
                anchor_key: key@,
                anchor_ix: range.start as int,
                dragging: true,
                forward: None,
                spans: seq![
                    SpanView {
                        key: key@,
                        start: range.start as int,
                        end: range.end as int,
                        text: text@,
                    },
                ],
                active: true,
                pending: false,
            }),
            final(self).wf(),
    {
        let mut spans: Vec<Span> = Vec::new();
        let span = Span { key: key.clone(), text: text.clone(), range: range.start..range.end };
        spans.push(span);
        assert(spans_view(spans@) =~= seq![span@]);
        let changed = !spans_eq(&self.spans, &spans);
        self.anchor_key = key.clone();
        self.anchor_ix = range.start;
        self.dragging = true;
        self.forward = None;
        self.active = true;
        self.pending = false;
        self.spans = spans;
        changed
    }

    /// A drag is live.
    pub fn is_dragging(&self) -> (b: bool)
        ensures
            b == (self@.active && self@.dragging),
    {
        self.active && self.dragging
    }

    /// Replaces the resolved spans. True when they changed; an inactive
    /// selection keeps its spans.
    pub fn update_spans(&mut self, spans: Vec<Span>) -> (changed: bool)
        requires
            all_wf(spans_view(spans@)),
        ensures
            changed == (old(self)@.active && old(self)@.spans != spans_view(spans@)),
            changed ==> final(self)@ == (SelectionView { spans: spans_view(spans@), ..old(self)@ }),
            !changed ==> final(self)@ == old(self)@,
            old(self).wf() ==> final(self).wf(),
    {
        if !self.active || spans_eq(&self.spans, &spans) {
            return false;
        }
        self.spans = spans;
        true
    }

    /// Ends the active drag even when its anchor is no longer painted. A drag
    /// that selected nothing clears the state.
    pub fn end_active_drag(&mut self)
        ensures
            has_selection_spec(SelectionView { dragging: false, ..old(self)@ }) ==> final(self)@ == (
            SelectionView { dragging: false, ..old(self)@ }),
            !has_selection_spec(SelectionView { dragging: false, ..old(self)@ }) ==> final(self)@
                == idle_view(),
            old(self).wf() ==> final(self).wf(),
    {
        self.dragging = false;
        if !self.has_selection() {
            self.clear();
        }
    }

    /// Clears everything. True when a selection was discarded.
    pub fn clear(&mut self) -> (changed: bool)
        ensures
            changed == has_selection_spec(old(self)@),
            final(self)@ == idle_view(),
            final(self).wf(),
    {
        let changed = self.has_selection();
        *self = SelectionState::new();
        changed
    }

    /// Some span of an active selection is non-empty.
    pub fn has_selection(&self) -> (b: bool)
        ensures
            b == has_selection_spec(self@),
    {
        if !self.active {
            return false;
        }
        let mut i: usize = 0;
        while i < self.spans.len()
            invariant
                i <= self.spans@.len(),
                self.active,
                forall|j: int| 0 <= j < i ==> !(self.spans@[j].range.start < self.spans@[j].range.end),
            decreases self.spans@.len() - i,
        {
            if self.spans[i].range.start < self.spans[i].range.end {
                assert(self@.spans[i as int].start < self@.spans[i as int].end);
                return true;
            }
            i = i + 1;
        }
        assert(!exists|j: int| 0 <= j < self@.spans.len() && (#[trigger] self@.spans[j]).start < self@.spans[j].end) by {
            assert forall|j: int| 0 <= j < self@.spans.len() implies !((#[trigger] self@.spans[j]).start < self@.spans[j].end) by {
                assert(self@.spans[j] == self.spans@[j]@);
            }
        }
        false
    }

    /// The resolved spans in document order.
    pub fn spans(&self) -> (r: &Vec<Span>)
        ensures
            spans_view(r@) == self@.spans,
    {
        &self.spans
    }

    /// The painted range for `key` this frame: the first non-empty span of
    /// that key while the selection is active.
    pub fn wash_range(&self, key: &str) -> (r: Option<Range<usize>>)
        ensures
            !self@.active ==> r is None,
            self@.active ==> match wash_index(self@.spans, key@, self@.spans.len() as int) {
                Some(i) => r matches Some(range) && range.start == self@.spans[i].start && range.end
                    == self@.spans[i].end,
                None => r is None,
            },
    {
        if !self.active {
            return None;
        }
        let ghost sv = self@.spans;
        let mut i: usize = 0;
        while i < self.spans.len()
            invariant
                i <= self.spans@.len(),
                self.active,
                sv == spans_view(self.spans@),
                sv == self@.spans,
                wash_index(sv, key@, i as int) is None,
            decreases self.spans@.len() - i,
        {
            let s = &self.spans[i];
            assert(sv[i as int] == s@);
            if str_eq(s.key.as_str(), key) && s.range.start < s.range.end {
                proof {
                    assert(wash_index(sv, key@, (i + 1) as int) == Some(i as int));
                    lemma_wash_index_stays(sv, key@, (i + 1) as int, sv.len() as int);
                }
                return Some(s.range.start..s.range.end);
            }
            i = i + 1;
        }
        None
    }

    /// The full selected text, spans joined in document order.
    pub fn selected_text(&self) -> (r: Option<String>)
        requires
            self.wf(),
        ensures
            has_selection_spec(self@) ==> (r matches Some(t) && t@ == joined(self@.spans)),
            !has_selection_spec(self@) ==> r is None,
    {
        if !self.has_selection() {
            return None;
        }
        Some(join_spans(&self.spans))
    }

    /// Resolves a drag head against this frame's visible runs. While the
    /// anchor is painted, the selection runs from the anchor to the head and
    /// records the drag's direction. Once virtualization removed the anchor, an
    /// overlapping selected run joins the frame to the retained spans. True
    /// when the spans changed.
    pub fn update_drag(&mut self, elements: &[RegisteredText], head: (usize, usize)) -> (changed: bool)
        requires
            old(self).wf(),
            head.0 < usize::MAX,
            elements@.len() < usize::MAX,
        ensures
            final(self).wf(),
            !(old(self)@.active && old(self)@.dragging) ==> !changed && final(self)@ == old(self)@,
            old(self)@.active && old(self)@.dragging ==> match element_index(
                texts_view(elements@),
                old(self)@.anchor_key,
                elements@.len() as int,
            ) {
                Some(ai) => {
                    let anchor = (ai, old(self)@.anchor_ix);
                    let spans = resolved(texts_view(elements@), anchor, (head.0 as int, head.1 as int));
                    let moved = SelectionView {
                        forward: Some(position_le(anchor, (head.0 as int, head.1 as int))),
                        ..old(self)@
                    };
                    &&& changed == (moved.spans != spans)
                    &&& changed ==> final(self)@ == (SelectionView { spans, ..moved })
                    &&& !changed ==> final(self)@ == moved
                },
                None => match old(self)@.forward {
                    None => !changed && final(self)@ == old(self)@,
                    Some(forward) => match extended(
                        old(self)@.spans,
                        texts_view(elements@),
                        (head.0 as int, head.1 as int),
                        forward,
                    ) {
                        None => !changed && final(self)@ == old(self)@,
                        Some(spans) => {
                            &&& changed == (old(self)@.spans != spans)
                            &&& changed ==> final(self)@ == (SelectionView { spans, ..old(self)@ })
                            &&& !changed ==> final(self)@ == old(self)@
                        },
                    },
                },
            },
    {
        if !self.is_dragging() {
            return false;
        }
        let spans = match find_element(elements, self.anchor_key.as_str()) {
            Some(anchor_element) => {
                let anchor = (anchor_element, self.anchor_ix);
                let forward = anchor.0 < head.0 || (anchor.0 == head.0 && anchor.1 <= head.1);
                self.forward = Some(forward);
                resolve_spans(elements, anchor, head)
            },
            None => {
                let forward = match self.forward {
                    Some(f) => f,
                    None => {
                        return false;
                    },
                };
                match extend_virtualized_drag(&self.spans, elements, head, forward) {
                    Some(spans) => spans,
                    None => {
                        return false;
                    },
                }
            },
        };
        self.update_spans(spans)
    }
}

proof fn lemma_wash_index_stays(spans: Seq<SpanView>, key: Seq<char>, n: int, m: int)
    requires
        n <= m,
        wash_index(spans, key, n) is Some,
    ensures
        wash_index(spans, key, m) == wash_index(spans, key, n),
    decreases m - n,
{
    if n < m {
        lemma_wash_index_stays(spans, key, n, m - 1);
    }
}

} // verus!
