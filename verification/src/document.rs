//! The decisions of a selectable document: programmatic selection by
//! painted keys and UTF-16 offsets, select-all, and reading back the native
//! selection of one text only while its source is unchanged.
use vstd::prelude::*;
use vstd::string::StringSliceAdditionalSpecFns;
use std::ops::Range;
use crate::offsets::{byte_offset, utf16_exact, utf16_len, utf8_len, OffsetError};
use crate::selection::{
    element_index, find_element, find_span, has_selection_spec, idle_view, resolve_spans, resolved,
    span_index, spans_eq, texts_view, wash_index, word_range, word_range_spec, RegisteredText,
    SelectionState, SelectionView, SpanView,
};
use crate::text::{boundary, utf8_of};

verus! {

/// Why a document command was refused.
#[derive(Clone, Copy, Debug, PartialEq, Eq, Structural)]
pub enum DocumentError {
    /// The document has not painted yet, so nothing is selectable.
    NotPainted,
    /// The command was issued against older content.
    StaleContent,
    /// No painted, selectable text has the endpoint's key.
    EndpointNotPainted,
    /// The endpoint's offset is not a character boundary of its text.
    Offset(OffsetError),
}

impl DocumentError {
    /// The human-readable message of this error.
    pub fn message(&self) -> (r: String)
        ensures
            r@ == match *self {
                DocumentError::NotPainted => "document has not painted"@,
                DocumentError::StaleContent => "stale document content revision"@,
                DocumentError::EndpointNotPainted => "selection endpoint is not painted"@,
                DocumentError::Offset(OffsetError::SplitsSurrogate) => "offset splits a UTF-16 surrogate pair"@,
                DocumentError::Offset(OffsetError::ExceedsLength) => "offset exceeds text length"@,
            },
    {
        match self {
            DocumentError::NotPainted => "document has not painted".to_string(),
            DocumentError::StaleContent => "stale document content revision".to_string(),
            DocumentError::EndpointNotPainted => "selection endpoint is not painted".to_string(),
            DocumentError::Offset(OffsetError::SplitsSurrogate) => "offset splits a UTF-16 surrogate pair".to_string(),
            DocumentError::Offset(OffsetError::ExceedsLength) => "offset exceeds text length".to_string(),
        }
    }
}

/// Where an endpoint given by key and UTF-16 offset lies: the first text of
/// that key and the byte offset of that boundary.
pub open spec fn endpoint(texts: Seq<(Seq<char>, Seq<char>)>, key: Seq<char>, offset: int) -> Result<(int, int), DocumentError> {
    match element_index(texts, key, texts.len() as int) {
        None => Err(DocumentError::EndpointNotPainted),
        Some(i) => match utf16_exact(texts[i].1, offset, 0) {
            Some(k) => Ok((i, utf8_len(texts[i].1.take(k)))),
            None => Err(
                DocumentError::Offset(
                    if offset < utf16_len(texts[i].1) {
                        OffsetError::SplitsSurrogate
                    } else {
                        OffsetError::ExceedsLength
                    },
                ),
            ),
        },
    }
}

/// Finds an endpoint among the painted texts.
pub fn find_endpoint(entries: &[RegisteredText], key: &str, offset: usize) -> (r: Result<(usize, usize), DocumentError>)
    ensures
        match r {
            Ok((i, b)) => endpoint(texts_view(entries@), key@, offset as int) == Ok::<(int, int), DocumentError>(
                (i as int, b as int),
            ) && i < entries@.len(),
            Err(e) => endpoint(texts_view(entries@), key@, offset as int) == Err::<(int, int), DocumentError>(e),
        },
{
    let index = match find_element(entries, key) {
        Some(i) => i,
        None => return Err(DocumentError::EndpointNotPainted),
    };
    let total = entries[index].text.as_str().as_bytes().len();
    proof {
        let t = entries@[index as int].text@;
        assert(total == utf8_len(t));
        assert(texts_view(entries@)[index as int].1 == t);
        if let Some(k) = utf16_exact(t, offset as int, 0) {
            crate::offsets::lemma_utf16_exact_range(t, offset as int, 0);
            crate::offsets::lemma_prefix_lengths(t, k);
        }
    }
    match byte_offset(entries[index].text.as_str(), offset) {
        Ok(b) => Ok((index, b)),
        Err(e) => Err(DocumentError::Offset(e)),
    }
}

/// The selection after selecting from one position to another: anchored at
/// the start, holding the resolved spans, not dragging; no selection at all
/// when every span is empty.
pub open spec fn selected_between(key: Seq<char>, ix: int, spans: Seq<SpanView>) -> SelectionView {
    let v = SelectionView {
        anchor_key: key,
        anchor_ix: ix,
        dragging: false,
        forward: None,
        spans,
        active: true,
        pending: false,
    };
    if has_selection_spec(v) {
        v
    } else {
        idle_view()
    }
}

/// Selects from `start` to `end`, positions as (text index, byte offset),
/// the way a finished drag would. True when the spans changed.
pub fn select_between(
    selection: &mut SelectionState,
    entries: &[RegisteredText],
    start: (usize, usize),
    end: (usize, usize),
) -> (changed: bool)
    requires
        start.0 < entries@.len(),
        end.0 < usize::MAX,
    ensures
        ({
            let spans = resolved(
                texts_view(entries@),
                (start.0 as int, start.1 as int),
                (end.0 as int, end.1 as int),
            );
            &&& changed == (old(selection)@.spans != spans)
            &&& final(selection)@ == selected_between(entries@[start.0 as int].key@, start.1 as int, spans)
            &&& final(selection).wf()
        }),
{
    let n = entries.len();
    let spans = resolve_spans(entries, start, end);
    let changed = !spans_eq(selection.spans(), &spans);
    let key = entries[start.0].key.as_str();
    selection.arm(key, start.1);
    selection.promote_pending();
    selection.update_spans(spans);
    selection.end_active_drag();
    changed
}

/// Selects every selectable text once the document has painted. True when
/// the spans changed; nothing happens without texts.
pub fn select_all(
    selection: &mut SelectionState,
    entries: &[RegisteredText],
    painted: bool,
) -> (r: Result<bool, DocumentError>)
    requires
        entries@.len() < usize::MAX,
    ensures
        !painted ==> r == Err::<bool, DocumentError>(DocumentError::NotPainted) && final(selection)@ == old(selection)@,
        painted && entries@.len() == 0 ==> r == Ok::<bool, DocumentError>(false) && final(selection)@ == old(selection)@,
        painted && entries@.len() > 0 ==> ({
            let last = (entries@.len() - 1) as int;
            let spans = resolved(
                texts_view(entries@),
                (0, 0),
                (last, utf8_of(entries@[last].text@).len() as int),
            );
            &&& r == Ok::<bool, DocumentError>(old(selection)@.spans != spans)
            &&& final(selection)@ == selected_between(entries@[0].key@, 0, spans)
        }),
{
    if !painted {
        return Err(DocumentError::NotPainted);
    }
    if entries.len() == 0 {
        return Ok(false);
    }
    let last = entries.len() - 1;
    let len = entries[last].text.as_str().as_bytes().len();
    Ok(select_between(selection, entries, (0, 0), (last, len)))
}

/// Selects between two endpoints given by key and UTF-16 offset, once the
/// document has painted and only against its current content.
pub fn select_endpoints(
    selection: &mut SelectionState,
    entries: &[RegisteredText],
    painted: bool,
    content_revision: u64,
    expected_content_revision: u64,
    start: (&str, usize),
    end: (&str, usize),
) -> (r: Result<bool, DocumentError>)
    requires
        entries@.len() < usize::MAX,
    ensures
        ({
            let texts = texts_view(entries@);
            let a = endpoint(texts, start.0@, start.1 as int);
            let b = endpoint(texts, end.0@, end.1 as int);
            if !painted {
                r == Err::<bool, DocumentError>(DocumentError::NotPainted) && final(selection)@ == old(selection)@
            } else if expected_content_revision != content_revision {
                r == Err::<bool, DocumentError>(DocumentError::StaleContent) && final(selection)@ == old(selection)@
            } else if a is Err {
                r == Err::<bool, DocumentError>(a->Err_0) && final(selection)@ == old(selection)@
            } else if b is Err {
                r == Err::<bool, DocumentError>(b->Err_0) && final(selection)@ == old(selection)@
            } else {
                let spans = resolved(texts, a->Ok_0, b->Ok_0);
                &&& r == Ok::<bool, DocumentError>(old(selection)@.spans != spans)
                &&& final(selection)@ == selected_between(entries@[a->Ok_0.0].key@, a->Ok_0.1, spans)
            }
        }),
{
    if !painted {
        return Err(DocumentError::NotPainted);
    }
    if expected_content_revision != content_revision {
        return Err(DocumentError::StaleContent);
    }
    let a = find_endpoint(entries, start.0, start.1)?;
    let b = find_endpoint(entries, end.0, end.1)?;
    Ok(select_between(selection, entries, a, b))
}

/// Equal bytes of two texts over a range.
pub open spec fn same_bytes(a: Seq<u8>, b: Seq<u8>, start: int, end: int) -> bool {
    a.subrange(start, end) == b.subrange(start, end)
}

/// A byte range that slices a text: in order, in bounds, on boundaries.
pub open spec fn slices(bytes: Seq<u8>, start: int, end: int) -> bool {
    start <= end <= bytes.len() && boundary(bytes, start) && boundary(bytes, end)
}

/// Whether two byte strings agree over a range.
fn equal_bytes(t: &[u8], u: &[u8], start: usize, end: usize) -> (r: bool)
    requires
        start <= end <= t@.len(),
        end <= u@.len(),
    ensures
        r == same_bytes(t@, u@, start as int, end as int),
{
    let mut i = start;
    while i < end
        invariant
            start <= i <= end <= t@.len(),
            end <= u@.len(),
            forall|k: int| start <= k < i ==> t@[k] == u@[k],
        decreases end - i,
    {
        if t[i] != u[i] {
            proof {
                assert(t@.subrange(start as int, end as int)[i - start] != u@.subrange(
                    start as int,
                    end as int,
                )[i - start]);
            }
            return false;
        }
        i = i + 1;
    }
    assert(t@.subrange(start as int, end as int) =~= u@.subrange(start as int, end as int));
    true
}

/// The native selection of the text `key`, in byte offsets, while `text`
/// still has the selected source's bytes there; `None` when the key is not
/// selected or its text changed under the selection.
pub fn selected_range(selection: &SelectionState, key: &str, text: &str) -> (r: Option<Range<usize>>)
    ensures
        ({
            let v = selection@;
            let w = if v.active { wash_index(v.spans, key@, v.spans.len() as int) } else { None };
            let s = span_index(v.spans, key@, v.spans.len() as int);
            match (w, s) {
                (Some(i), Some(j)) => {
                    let (a, b) = (v.spans[i].start, v.spans[i].end);
                    let t = text.spec_bytes();
                    let u = utf8_of(v.spans[j].text);
                    if slices(t, a, b) && slices(u, a, b) && same_bytes(t, u, a, b) {
                        r matches Some(x) && x.start == a && x.end == b
                    } else {
                        r is None
                    }
                },
                _ => r is None,
            }
        }),
{
    let range = match selection.wash_range(key) {
        Some(range) => range,
        None => return None,
    };
    let spans = selection.spans();
    let j = match find_span(spans, key) {
        Some(j) => j,
        None => return None,
    };
    let source = spans[j].text.as_str();
    proof {
        assert(selection@.spans[j as int] == spans@[j as int]@);
    }
    let t = text.as_bytes();
    let u = source.as_bytes();
    if !(range.start <= range.end && range.end <= t.len() && range.end <= u.len()) {
        return None;
    }
    if !(crate::text::is_boundary(t, range.start) && crate::text::is_boundary(t, range.end)
        && crate::text::is_boundary(u, range.start) && crate::text::is_boundary(u, range.end)) {
        return None;
    }
    if !equal_bytes(t, u, range.start, range.end) {
        return None;
    }
    Some(range)
}

/// A selection that starts as one span of a text, already dragging.
pub open spec fn begun(key: Seq<char>, text: Seq<char>, start: int, end: int) -> SelectionView {
    SelectionView {
        anchor_key: key,
        anchor_ix: start,
        dragging: true,
        forward: None,
        spans: seq![SpanView { key, start, end, text }],
        active: true,
        pending: false,
    }
}

/// A press waiting to become a drag, anchored at a byte offset of a text.
pub open spec fn armed(key: Seq<char>, ix: int) -> SelectionView {
    SelectionView {
        anchor_key: key,
        anchor_ix: ix,
        dragging: false,
        forward: None,
        spans: Seq::empty(),
        active: false,
        pending: true,
    }
}

/// What a press on a selectable text does to the selection: a triple click
/// selects the whole text and a double click the word at byte `character`,
/// both at once; any other press arms a selection at byte `offset` that
/// begins once the pointer drags. True when the selection visibly changed.
pub fn press_text(
    selection: &mut SelectionState,
    entry: &RegisteredText,
    click_count: usize,
    offset: usize,
    character: usize,
) -> (changed: bool)
    ensures
        final(selection).wf(),
        click_count >= 3 ==> ({
            let whole = begun(entry.key@, entry.text@, 0, utf8_of(entry.text@).len() as int);
            changed == (old(selection)@.spans != whole.spans) && final(selection)@ == whole
        }),
        click_count == 2 ==> ({
            let (a, b) = word_range_spec(entry.text@, character as int);
            let word = begun(entry.key@, entry.text@, a, b);
            changed == (old(selection)@.spans != word.spans) && final(selection)@ == word
        }),
        click_count < 2 ==> changed == has_selection_spec(old(selection)@) && final(selection)@
            == armed(entry.key@, offset as int),
{
    if click_count >= 3 {
        let len = entry.text.as_str().as_bytes().len();
        selection.begin_with_span(&entry.key, &entry.text, 0..len)
    } else if click_count == 2 {
        let range = word_range(entry.text.as_str(), character);
        selection.begin_with_span(&entry.key, &entry.text, range)
    } else {
        selection.arm(entry.key.as_str(), offset)
    }
}

} // verus!
