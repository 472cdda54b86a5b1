//! Unicode segmentation of text, from the `unicode-segmentation` crate.
use vstd::prelude::*;
use vstd::string::StringSliceAdditionalSpecFns;
use unicode_segmentation::UnicodeSegmentation;
use crate::text::boundary;

verus! {

/// The words of a text by UAX#29 word boundaries (the segments that hold an
/// alphanumeric character), as `(byte offset, byte length)` in text order.
pub uninterp spec fn unicode_words(text: Seq<char>) -> Seq<(int, int)>;

/// The extended grapheme clusters of a text, as `(byte offset, byte length)`
/// in text order.
pub uninterp spec fn graphemes(text: Seq<char>) -> Seq<(int, int)>;

/// The segments of a text by UAX#29 word boundaries, as `(byte offset, byte
/// length)` in text order.
pub uninterp spec fn word_bounds(text: Seq<char>) -> Seq<(int, int)>;

/// Non-empty pieces on character boundaries, each ending at or before the next starts.
pub open spec fn ordered_pieces(bytes: Seq<u8>, pieces: Seq<(int, int)>) -> bool {
    &&& forall|i: int|
        0 <= i < pieces.len() ==> 0 <= (#[trigger] pieces[i]).0 && 0 < pieces[i].1 && pieces[i].0
            + pieces[i].1 <= bytes.len() && boundary(bytes, pieces[i].0) && boundary(
            bytes,
            pieces[i].0 + pieces[i].1,
        )
    &&& forall|i: int, j: int|
        0 <= i < j < pieces.len() ==> (#[trigger] pieces[i]).0 + pieces[i].1 <= (
        #[trigger] pieces[j]).0
}

/// Pieces that cover the text from its start to its end without gaps.
pub open spec fn covering_pieces(bytes: Seq<u8>, pieces: Seq<(int, int)>) -> bool {
    &&& ordered_pieces(bytes, pieces)
    &&& pieces.len() == 0 <==> bytes.len() == 0
    &&& pieces.len() > 0 ==> pieces[0].0 == 0 && pieces.last().0 + pieces.last().1 == bytes.len()
    &&& forall|i: int|
        0 <= i < pieces.len() - 1 ==> (#[trigger] pieces[i]).0 + pieces[i].1 == pieces[i + 1].0
}

/// The pieces as integers.
pub open spec fn pieces_view(v: Seq<(usize, usize)>) -> Seq<(int, int)> {
    v.map_values(|p: (usize, usize)| (p.0 as int, p.1 as int))
}

/// `UnicodeSegmentation::unicode_word_indices`: the words of `text`, which are
/// substrings of it, yielded in text order.
#[verifier::external_body]
pub(crate) fn word_pieces(text: &str) -> (r: Vec<(usize, usize)>)
    ensures
        pieces_view(r@) == unicode_words(text@),
        ordered_pieces(text.spec_bytes(), pieces_view(r@)),
{
    text.unicode_word_indices().map(|(start, word)| (start, word.len())).collect()
}

/// `UnicodeSegmentation::grapheme_indices` with extended clusters: a
/// partition of `text` into substrings, yielded in text order.
#[verifier::external_body]
pub(crate) fn grapheme_pieces(text: &str) -> (r: Vec<(usize, usize)>)
    ensures
        pieces_view(r@) == graphemes(text@),
        covering_pieces(text.spec_bytes(), pieces_view(r@)),
{
    text.grapheme_indices(true).map(|(start, g)| (start, g.len())).collect()
}

/// `UnicodeSegmentation::split_word_bound_indices`: a partition of `text`
/// into substrings at UAX#29 word boundaries, yielded in text order.
#[verifier::external_body]
pub(crate) fn word_bound_pieces(text: &str) -> (r: Vec<(usize, usize)>)
    ensures
        pieces_view(r@) == word_bounds(text@),
        covering_pieces(text.spec_bytes(), pieces_view(r@)),
{
    text.split_word_bound_indices().map(|(start, w)| (start, w.len())).collect()
}

} // verus!
