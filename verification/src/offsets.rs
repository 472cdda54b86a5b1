//! Conversions between byte offsets into UTF-8 text and UTF-16 code unit
//! offsets, as platform text input and painted geometry exchange them.
use vstd::prelude::*;
use vstd::string::StringSliceAdditionalSpecFns;
use vstd::utf8::*;
use crate::text::{
    boundary, lemma_boundary_is_char_boundary, lemma_encode_concat, lemma_prefix_is_boundary, slice, utf8_of,
};

verus! {

broadcast use vstd::utf8::group_utf8_lib;

/// The UTF-8 length of one character.
pub open spec fn char_utf8_len(c: char) -> int {
    let v = c as u32;
    if v <= 0x7f {
        1
    } else if v <= 0x7ff {
        2
    } else if v <= 0xffff {
        3
    } else {
        4
    }
}

/// The UTF-16 length of one character.
pub open spec fn char_utf16_len(c: char) -> int {
    if (c as u32) <= 0xffff {
        1
    } else {
        2
    }
}

/// The UTF-8 length of a character sequence.
pub open spec fn utf8_len(s: Seq<char>) -> int {
    utf8_of(s).len() as int
}

/// The UTF-16 length of a character sequence.
pub open spec fn utf16_len(s: Seq<char>) -> int
    decreases s.len(),
{
    if s.len() == 0 {
        0
    } else {
        utf16_len(s.drop_last()) + char_utf16_len(s.last())
    }
}

proof fn lemma_scalar_len(c: char)
    ensures
        encode_scalar(c as u32).len() == char_utf8_len(c),
{
    char_is_scalar(c);
}

/// Appending a character adds its UTF-8 length.
pub proof fn lemma_utf8_len_push(t: Seq<char>, c: char)
    ensures
        utf8_len(t.push(c)) == utf8_len(t) + char_utf8_len(c),
    decreases t.len(),
{
    lemma_scalar_len(c);
    if t.len() == 0 {
        assert(t.push(c).drop_first() =~= Seq::<char>::empty());
        assert(t.push(c)[0] == c);
        assert(encode_utf8(Seq::<char>::empty()) =~= Seq::<u8>::empty());
        assert(encode_utf8(t) =~= Seq::<u8>::empty());
    } else {
        assert(t.push(c).drop_first() =~= t.drop_first().push(c));
        assert(t.push(c)[0] == t[0]);
        lemma_utf8_len_push(t.drop_first(), c);
    }
}

pub(crate) proof fn lemma_take_push(s: Seq<char>, i: int)
    requires
        0 <= i < s.len(),
    ensures
        s.take(i + 1) == s.take(i).push(s[i]),
{
    assert(s.take(i + 1) =~= s.take(i).push(s[i]));
}

/// The UTF-16 length of a prefix never exceeds its UTF-8 length.
pub(crate) proof fn lemma_prefix_lengths(s: Seq<char>, i: int)
    requires
        0 <= i <= s.len(),
    ensures
        0 <= utf16_len(s.take(i)) <= utf8_len(s.take(i)) <= utf8_len(s),
    decreases s.len() - i,
{
    if i < s.len() {
        lemma_prefix_lengths(s, i + 1);
        lemma_take_push(s, i);
        lemma_utf8_len_push(s.take(i), s[i]);
        lemma_utf16_below_utf8(s.take(i));
    } else {
        assert(s.take(i) =~= s);
        lemma_utf16_below_utf8(s);
    }
}

proof fn lemma_utf16_below_utf8(s: Seq<char>)
    ensures
        0 <= utf16_len(s) <= utf8_len(s),
    decreases s.len(),
{
    if s.len() > 0 {
        lemma_utf16_below_utf8(s.drop_last());
        lemma_utf8_len_push(s.drop_last(), s.last());
        assert(s.drop_last().push(s.last()) =~= s);
    }
}

pub(crate) fn char_len_utf8(c: char) -> (n: usize)
    ensures
        n == char_utf8_len(c),
{
    let v = c as u32;
    if v <= 0x7f {
        1
    } else if v <= 0x7ff {
        2
    } else if v <= 0xffff {
        3
    } else {
        4
    }
}

pub(crate) fn char_len_utf16(c: char) -> (n: usize)
    ensures
        n == char_utf16_len(c),
{
    if (c as u32) <= 0xffff {
        1
    } else {
        2
    }
}

/// The first prefix length, from `k` on, whose UTF-16 length reaches `offset`,
/// or the whole length when none does.
pub open spec fn utf16_stop(s: Seq<char>, offset: int, k: int) -> int
    decreases s.len() - k,
{
    if k >= s.len() || utf16_len(s.take(k)) >= offset {
        k
    } else {
        utf16_stop(s, offset, k + 1)
    }
}

/// The UTF-16 stop lies between the start of the search and the end.
pub proof fn lemma_utf16_stop_range(s: Seq<char>, offset: int, k: int)
    requires
        0 <= k <= s.len(),
    ensures
        k <= utf16_stop(s, offset, k) <= s.len(),
    decreases s.len() - k,
{
    if k < s.len() && utf16_len(s.take(k)) < offset {
        lemma_utf16_stop_range(s, offset, k + 1);
    }
}

/// A larger UTF-16 offset stops no earlier.
pub proof fn lemma_utf16_stop_monotone(s: Seq<char>, a: int, b: int, k: int)
    requires
        0 <= k <= s.len(),
        a <= b,
    ensures
        utf16_stop(s, a, k) <= utf16_stop(s, b, k),
    decreases s.len() - k,
{
    if k < s.len() {
        if utf16_len(s.take(k)) >= a {
            lemma_utf16_stop_range(s, b, k);
        } else {
            lemma_utf16_stop_monotone(s, a, b, k + 1);
        }
    }
}

/// A longer prefix has no shorter UTF-8 encoding.
pub proof fn lemma_utf8_len_monotone(s: Seq<char>, i: int, j: int)
    requires
        0 <= i <= j <= s.len(),
    ensures
        utf8_len(s.take(i)) <= utf8_len(s.take(j)),
{
    assert(s.take(j).take(i) =~= s.take(i));
    lemma_prefix_lengths(s.take(j), i);
}

/// The UTF-8 stop lies between the start of the search and the end.
pub proof fn lemma_utf8_stop_range(s: Seq<char>, offset: int, k: int)
    requires
        0 <= k <= s.len(),
    ensures
        k <= utf8_stop(s, offset, k) <= s.len(),
    decreases s.len() - k,
{
    if k < s.len() && utf8_len(s.take(k)) < offset {
        lemma_utf8_stop_range(s, offset, k + 1);
    }
}

/// The first prefix length, from `k` on, whose UTF-8 length reaches `offset`,
/// or the whole length when none does.
pub open spec fn utf8_stop(s: Seq<char>, offset: int, k: int) -> int
    decreases s.len() - k,
{
    if k >= s.len() || utf8_len(s.take(k)) >= offset {
        k
    } else {
        utf8_stop(s, offset, k + 1)
    }
}

/// The byte offset of the first character boundary at or after UTF-16
/// offset `offset`, or the text's length.
pub fn utf16_offset_to_utf8(text: &str, offset: usize) -> (r: usize)
    ensures
        r == utf8_len(text@.take(utf16_stop(text@, offset as int, 0))),
{
    let n = text.unicode_len();
    let ghost s = text@;
    let mut utf8_offset: usize = 0;
    let mut utf16_count: usize = 0;
    let mut i: usize = 0;
    proof {
        assert(s.take(0) =~= Seq::<char>::empty());
        lemma_prefix_lengths(s, 0);
        assert(text.spec_bytes().len() == utf8_len(s));
    }
    let total = text.as_bytes().len();
    while i < n
        invariant
            n == s.len(),
            s == text@,
            i <= n,
            total == utf8_len(s),
            utf8_offset == utf8_len(s.take(i as int)),
            utf16_count == utf16_len(s.take(i as int)),
            utf16_stop(s, offset as int, 0) == utf16_stop(s, offset as int, i as int),
        ensures
            i == n || utf16_count >= offset,
        decreases n - i,
    {
        if utf16_count >= offset {
            break;
        }
        let c = text.get_char(i);
        proof {
            lemma_take_push(s, i as int);
            lemma_utf8_len_push(s.take(i as int), c);
            assert(s.take(i + 1).drop_last() =~= s.take(i as int));
            lemma_prefix_lengths(s, i + 1);
        }
        utf16_count = utf16_count + char_len_utf16(c);
        utf8_offset = utf8_offset + char_len_utf8(c);
        i = i + 1;
    }
    utf8_offset
}

/// The UTF-16 offset of the first character boundary at or after byte offset
/// `offset`, or the text's UTF-16 length.
pub fn utf8_offset_to_utf16(text: &str, offset: usize) -> (r: usize)
    ensures
        r == utf16_len(text@.take(utf8_stop(text@, offset as int, 0))),
{
    let n = text.unicode_len();
    let ghost s = text@;
    let mut utf16_offset: usize = 0;
    let mut utf8_count: usize = 0;
    let mut i: usize = 0;
    proof {
        assert(s.take(0) =~= Seq::<char>::empty());
        lemma_prefix_lengths(s, 0);
    }
    let total = text.as_bytes().len();
    while i < n
        invariant
            n == s.len(),
            s == text@,
            i <= n,
            total == utf8_len(s),
            utf16_offset == utf16_len(s.take(i as int)),
            utf8_count == utf8_len(s.take(i as int)),
            utf8_stop(s, offset as int, 0) == utf8_stop(s, offset as int, i as int),
        ensures
            i == n || utf8_count >= offset,
        decreases n - i,
    {
        if utf8_count >= offset {
            break;
        }
        let c = text.get_char(i);
        proof {
            lemma_take_push(s, i as int);
            lemma_utf8_len_push(s.take(i as int), c);
            assert(s.take(i + 1).drop_last() =~= s.take(i as int));
            lemma_prefix_lengths(s, i + 1);
        }
        utf8_count = utf8_count + char_len_utf8(c);
        utf16_offset = utf16_offset + char_len_utf16(c);
        i = i + 1;
    }
    utf16_offset
}

/// The UTF-16 length of a text.
pub fn utf16_length(text: &str) -> (r: usize)
    ensures
        r == utf16_len(text@),
{
    let n = text.unicode_len();
    let ghost s = text@;
    let mut count: usize = 0;
    let mut i: usize = 0;
    proof {
        assert(s.take(0) =~= Seq::<char>::empty());
        lemma_prefix_lengths(s, 0);
    }
    let total = text.as_bytes().len();
    while i < n
        invariant
            n == s.len(),
            s == text@,
            i <= n,
            total == utf8_len(s),
            count == utf16_len(s.take(i as int)),
        decreases n - i,
    {
        let c = text.get_char(i);
        proof {
            lemma_take_push(s, i as int);
            assert(s.take(i + 1).drop_last() =~= s.take(i as int));
            lemma_prefix_lengths(s, i + 1);
        }
        count = count + char_len_utf16(c);
        i = i + 1;
    }
    assert(s.take(n as int) =~= s);
    count
}

/// The UTF-16 length of the text before byte `byte`.
pub fn utf16(text: &str, byte: usize) -> (r: usize)
    requires
        byte <= text.spec_bytes().len(),
        boundary(text.spec_bytes(), byte as int),
    ensures
        r == utf16_len(decode_utf8(utf8_of(text@).subrange(0, byte as int))),
{
    let prefix = slice(text, 0, byte);
    utf16_length(prefix)
}

/// Why a UTF-16 offset has no byte offset.
#[derive(Clone, Copy, Debug, PartialEq, Eq, Structural)]
pub enum OffsetError {
    /// The offset falls between the two units of a surrogate pair.
    SplitsSurrogate,
    /// The offset is past the end of the text.
    ExceedsLength,
}

/// The first prefix length, from `k` on, whose UTF-16 length is `offset`.
pub open spec fn utf16_exact(s: Seq<char>, offset: int, k: int) -> Option<int>
    decreases s.len() + 1 - k,
{
    if k > s.len() || k < 0 {
        None
    } else if utf16_len(s.take(k)) == offset {
        Some(k)
    } else {
        utf16_exact(s, offset, k + 1)
    }
}

/// The byte offset of UTF-16 offset `offset`: the boundary whose UTF-16
/// prefix length is exactly `offset`. An offset inside a surrogate pair or
/// past the end has none.
pub fn byte_offset(text: &str, offset: usize) -> (r: Result<usize, OffsetError>)
    ensures
        match utf16_exact(text@, offset as int, 0) {
            Some(k) => r == Ok::<usize, OffsetError>(utf8_len(text@.take(k)) as usize),
            None => if offset < utf16_len(text@) {
                r == Err::<usize, OffsetError>(OffsetError::SplitsSurrogate)
            } else {
                r == Err::<usize, OffsetError>(OffsetError::ExceedsLength)
            },
        },
{
    let n = text.unicode_len();
    let ghost s = text@;
    let mut units: usize = 0;
    let mut byte: usize = 0;
    let mut i: usize = 0;
    proof {
        assert(s.take(0) =~= Seq::<char>::empty());
        lemma_prefix_lengths(s, 0);
    }
    let total = text.as_bytes().len();
    while i < n
        invariant
            n == s.len(),
            s == text@,
            i <= n,
            total == utf8_len(s),
            byte == utf8_len(s.take(i as int)),
            units == utf16_len(s.take(i as int)),
            units <= offset,
            utf16_exact(s, offset as int, 0) == utf16_exact(s, offset as int, i as int),
        decreases n - i,
    {
        if units == offset {
            return Ok(byte);
        }
        let c = text.get_char(i);
        proof {
            lemma_take_push(s, i as int);
            lemma_utf8_len_push(s.take(i as int), c);
            assert(s.take(i + 1).drop_last() =~= s.take(i as int));
            lemma_prefix_lengths(s, i + 1);
        }
        units = units + char_len_utf16(c);
        byte = byte + char_len_utf8(c);
        i = i + 1;
        if units > offset {
            proof {
                lemma_utf16_exact_none_after(s, offset as int, i as int);
                lemma_utf16_monotone(s, i as int, n as int);
                assert(s.take(n as int) =~= s);
            }
            return Err(OffsetError::SplitsSurrogate);
        }
    }
    assert(s.take(n as int) =~= s);
    assert(utf16_exact(s, offset as int, n + 1) is None);
    if units == offset {
        Ok(total)
    } else {
        Err(OffsetError::ExceedsLength)
    }
}

proof fn lemma_utf16_monotone(s: Seq<char>, i: int, j: int)
    requires
        0 <= i <= j <= s.len(),
    ensures
        utf16_len(s.take(i)) <= utf16_len(s.take(j)),
    decreases j - i,
{
    if i < j {
        lemma_utf16_monotone(s, i, j - 1);
        lemma_take_push(s, j - 1);
        assert(s.take(j).drop_last() =~= s.take(j - 1));
    }
}

/// An exact UTF-16 stop lies between the start of the search and the end.
pub(crate) proof fn lemma_utf16_exact_range(s: Seq<char>, offset: int, k: int)
    requires
        0 <= k,
    ensures
        utf16_exact(s, offset, k) matches Some(j) ==> k <= j <= s.len(),
    decreases s.len() + 1 - k,
{
    if k <= s.len() && utf16_len(s.take(k)) != offset {
        lemma_utf16_exact_range(s, offset, k + 1);
    }
}

proof fn lemma_utf16_exact_none_after(s: Seq<char>, offset: int, i: int)
    requires
        0 <= i <= s.len(),
        utf16_len(s.take(i)) > offset,
    ensures
        utf16_exact(s, offset, i) is None,
    decreases s.len() + 1 - i,
{
    if i < s.len() {
        lemma_utf16_monotone(s, i, i + 1);
        lemma_utf16_exact_none_after(s, offset, i + 1);
    } else {
        assert(utf16_exact(s, offset, i + 1) is None);
    }
}


/// Each character adds at least one UTF-16 unit.
proof fn lemma_utf16_strict(s: Seq<char>, j: int, k: int)
    requires
        0 <= j < k <= s.len(),
    ensures
        utf16_len(s.take(j)) < utf16_len(s.take(k)),
{
    lemma_take_push(s, j);
    assert(s.take(j + 1).drop_last() =~= s.take(j));
    lemma_utf16_monotone(s, j + 1, k);
}

/// Searching from `j` for the UTF-16 length of the first `k` characters
/// finds `k`.
proof fn lemma_utf16_exact_finds(s: Seq<char>, k: int, j: int)
    requires
        0 <= j <= k <= s.len(),
    ensures
        utf16_exact(s, utf16_len(s.take(k)), j) == Some(k),
    decreases k - j,
{
    if j < k {
        lemma_utf16_strict(s, j, k);
        lemma_utf16_exact_finds(s, k, j + 1);
    }
}

/// An exact stop has the UTF-16 length it was searched for.
proof fn lemma_utf16_exact_value(s: Seq<char>, offset: int, j: int)
    ensures
        utf16_exact(s, offset, j) matches Some(k) ==> utf16_len(s.take(k)) == offset,
    decreases s.len() + 1 - j,
{
    if 0 <= j <= s.len() && utf16_len(s.take(j)) != offset {
        lemma_utf16_exact_value(s, offset, j + 1);
    }
}

/// A UTF-16 offset that has a byte offset lands on a character boundary, and
/// the text before that boundary is exactly `offset` UTF-16 units long.
pub proof fn lemma_byte_offset_lands(s: Seq<char>, offset: int)
    requires
        utf16_exact(s, offset, 0) is Some,
    ensures
        ({
            let b = utf8_len(s.take(utf16_exact(s, offset, 0)->Some_0));
            &&& 0 <= b <= utf8_of(s).len()
            &&& boundary(utf8_of(s), b)
            &&& utf16_len(decode_utf8(utf8_of(s).subrange(0, b))) == offset
        }),
{
    let k = utf16_exact(s, offset, 0)->Some_0;
    lemma_utf16_exact_range(s, offset, 0);
    lemma_utf16_exact_value(s, offset, 0);
    lemma_prefix_is_boundary(s, k);
    assert(s =~= s.take(k) + s.skip(k));
    lemma_encode_concat(s.take(k), s.skip(k));
    let b = utf8_len(s.take(k));
    assert(utf8_of(s).subrange(0, b) =~= encode_utf8(s.take(k)));
    encode_utf8_decode_utf8(s.take(k));
}

/// Every character boundary `b` comes back from UTF-16: the UTF-16 length of
/// the text before `b` is an offset whose byte offset is `b` again.
pub proof fn lemma_boundary_round_trip(s: Seq<char>, b: int)
    requires
        0 <= b <= utf8_of(s).len(),
        boundary(utf8_of(s), b),
    ensures
        utf16_exact(s, utf16_len(decode_utf8(utf8_of(s).subrange(0, b))), 0) matches Some(k)
            && utf8_len(s.take(k)) == b,
{
    let bytes = utf8_of(s);
    encode_utf8_valid_utf8(s);
    encode_utf8_decode_utf8(s);
    lemma_boundary_is_char_boundary(bytes, b);
    decode_utf8_split(bytes, b);
    valid_utf8_split(bytes, b);
    let pre = decode_utf8(bytes.subrange(0, b));
    let k = pre.len() as int;
    assert(s.take(k) =~= pre);
    decode_utf8_encode_utf8(bytes.subrange(0, b));
    assert(bytes.subrange(0, b).len() == b);
    lemma_utf16_exact_finds(s, k, 0);
}

} // verus!
