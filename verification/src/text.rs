//! Byte-level helpers over UTF-8 text.
use vstd::prelude::*;
use vstd::string::StringSliceAdditionalSpecFns;
use vstd::utf8::*;

verus! {

broadcast use vstd::utf8::group_utf8_lib;

/// The UTF-8 bytes of a character sequence.
pub open spec fn utf8_of(s: Seq<char>) -> Seq<u8> {
    encode_utf8(s)
}

/// Two strings are equal exactly when their characters are.
pub fn str_eq(a: &str, b: &str) -> (r: bool)
    ensures
        r == (a@ == b@),
{
    let x = a.as_bytes();
    let y = b.as_bytes();
    proof {
        encode_utf8_decode_utf8(a@);
        encode_utf8_decode_utf8(b@);
    }
    if x.len() != y.len() {
        return false;
    }
    let mut i: usize = 0;
    while i < x.len()
        invariant
            x@.len() == y@.len(),
            x@ == encode_utf8(a@),
            y@ == encode_utf8(b@),
            i <= x@.len(),
            forall|j: int| 0 <= j < i ==> x@[j] == y@[j],
        decreases x@.len() - i,
    {
        if x[i] != y[i] {
            return false;
        }
        i = i + 1;
    }
    assert(x@ =~= y@);
    assert(a@ == decode_utf8(x@));
    assert(b@ == decode_utf8(y@));
    true
}

/// `std::str::from_utf8`: the documentation promises `Ok` exactly for valid
/// UTF-8, borrowing the same bytes.
#[verifier::external_body]
pub(crate) fn utf8_text<'a>(bytes: &'a [u8]) -> (r: Option<&'a str>)
    ensures
        r is Some <==> valid_utf8(bytes@),
        r matches Some(s) ==> s.spec_bytes() == bytes@,
{
    std::str::from_utf8(bytes).ok()
}

/// `index` starts a character of `bytes` or is its end: the byte there is not
/// a continuation byte.
pub open spec fn boundary(bytes: Seq<u8>, index: int) -> bool {
    index == 0 || index == bytes.len() || (0 < index < bytes.len() && !is_continuation_byte(
        bytes[index],
    ))
}

/// In valid UTF-8, a byte that is not a continuation byte starts a character.
pub proof fn lemma_boundary_is_char_boundary(bytes: Seq<u8>, index: int)
    requires
        valid_utf8(bytes),
        boundary(bytes, index),
    ensures
        is_char_boundary(bytes, index),
    decreases bytes.len(),
{
    if index == 0 {
    } else if index == bytes.len() {
        is_char_boundary_start_end_of_seq(bytes);
    } else {
        let l = length_of_first_scalar(bytes);
        let rest = pop_first_scalar(bytes);
        assert(index >= l);
        assert(rest.len() == bytes.len() - l);
        if index - l == 0 {
        } else {
            assert(rest[index - l] == bytes[index]);
            lemma_boundary_is_char_boundary(rest, index - l);
        }
    }
}

/// The bytes between two boundaries of UTF-8 text form UTF-8 text again.
pub proof fn lemma_boundary_slice_valid(bytes: Seq<u8>, a: int, b: int)
    requires
        valid_utf8(bytes),
        boundary(bytes, a),
        boundary(bytes, b),
        a <= b,
    ensures
        valid_utf8(bytes.subrange(a, b)),
{
    lemma_boundary_is_char_boundary(bytes, a);
    valid_utf8_split(bytes, a);
    let rest = bytes.subrange(a, bytes.len() as int);
    assert(boundary(rest, b - a)) by {
        if b < bytes.len() {
            assert(rest[b - a] == bytes[b]);
        }
    }
    lemma_boundary_is_char_boundary(rest, b - a);
    valid_utf8_split(rest, b - a);
    assert(rest.subrange(0, b - a) =~= bytes.subrange(a, b));
}

/// The text between two byte boundaries.
pub fn slice<'a>(text: &'a str, a: usize, b: usize) -> (r: &'a str)
    requires
        a <= b,
        boundary(text.spec_bytes(), a as int),
        boundary(text.spec_bytes(), b as int),
    ensures
        r.spec_bytes() == text.spec_bytes().subrange(a as int, b as int),
        r@ == decode_utf8(text.spec_bytes().subrange(a as int, b as int)),
{
    let bytes = text.as_bytes();
    proof {
        encode_utf8_valid_utf8(text@);
        lemma_boundary_slice_valid(bytes@, a as int, b as int);
    }
    let r = utf8_text(&bytes[a..b]).unwrap();
    proof {
        encode_utf8_decode_utf8(r@);
    }
    r
}

/// The largest boundary at or below `index`, counting down from `index`.
pub open spec fn boundary_at_or_below(bytes: Seq<u8>, index: int) -> int
    decreases index,
{
    if index <= 0 || boundary(bytes, index) {
        index
    } else {
        boundary_at_or_below(bytes, index - 1)
    }
}

/// A byte offset clamped into `text` and snapped down to a character boundary.
pub open spec fn clamped(bytes: Seq<u8>, index: int) -> int {
    boundary_at_or_below(bytes, if index < bytes.len() { index } else { bytes.len() as int })
}

proof fn lemma_below_is_boundary(bytes: Seq<u8>, index: int)
    requires
        0 <= index <= bytes.len(),
    ensures
        boundary(bytes, boundary_at_or_below(bytes, index)),
        0 <= boundary_at_or_below(bytes, index) <= index,
    decreases index,
{
    if index > 0 && !boundary(bytes, index) {
        lemma_below_is_boundary(bytes, index - 1);
    }
}

/// Clamps a byte offset into `text` and snaps it down to a char boundary.
pub fn clamp_boundary(text: &str, ix: usize) -> (r: usize)
    ensures
        r == clamped(text.spec_bytes(), ix as int),
        boundary(text.spec_bytes(), r as int),
        r <= text.spec_bytes().len(),
{
    let bytes = text.as_bytes();
    let mut ix = if ix < bytes.len() { ix } else { bytes.len() };
    let ghost start = ix;
    proof {
        lemma_below_is_boundary(bytes@, ix as int);
    }
    while ix > 0 && ix < bytes.len() && is_continuation(bytes[ix])
        invariant
            bytes@ == text.spec_bytes(),
            ix <= start <= bytes@.len(),
            boundary_at_or_below(bytes@, ix as int) == boundary_at_or_below(bytes@, start as int),
        decreases ix,
    {
        ix = ix - 1;
    }
    proof {
        lemma_below_is_boundary(bytes@, ix as int);
    }
    ix
}

/// Whether byte `index` of `bytes` is a character boundary.
pub fn is_boundary(bytes: &[u8], index: usize) -> (r: bool)
    requires
        index <= bytes@.len(),
    ensures
        r == boundary(bytes@, index as int),
{
    index == 0 || index == bytes.len() || !is_continuation(bytes[index])
}

fn is_continuation(b: u8) -> (r: bool)
    ensures
        r == is_continuation_byte(b),
{
    0x80 <= b && b <= 0xbf
}

/// The clamped offset is a boundary within the text.
pub proof fn lemma_clamped(bytes: Seq<u8>, index: int)
    requires
        0 <= index,
    ensures
        boundary(bytes, clamped(bytes, index)),
        0 <= clamped(bytes, index) <= bytes.len(),
        clamped(bytes, index) <= index,
{
    lemma_below_is_boundary(bytes, if index < bytes.len() { index } else { bytes.len() as int });
}

/// A character with the Unicode `White_Space` property, as `char::is_whitespace`
/// documents it.
pub open spec fn whitespace(c: char) -> bool {
    let v = c as u32;
    (0x9 <= v <= 0xd) || v == 0x20 || v == 0x85 || v == 0xa0 || v == 0x1680 || (0x2000 <= v
        <= 0x200a) || v == 0x2028 || v == 0x2029 || v == 0x202f || v == 0x205f || v == 0x3000
}

/// Whether a character is Unicode white space.
pub fn is_whitespace(c: char) -> (r: bool)
    ensures
        r == whitespace(c),
{
    let v = c as u32;
    (0x9 <= v && v <= 0xd) || v == 0x20 || v == 0x85 || v == 0xa0 || v == 0x1680 || (0x2000 <= v
        && v <= 0x200a) || v == 0x2028 || v == 0x2029 || v == 0x202f || v == 0x205f || v
        == 0x3000
}

/// Every character of a sequence is white space.
pub open spec fn all_whitespace(s: Seq<char>) -> bool {
    forall|i: int| 0 <= i < s.len() ==> #[trigger] whitespace(s[i])
}

/// Whether every character of a text is white space.
pub fn is_all_whitespace(s: &str) -> (r: bool)
    ensures
        r == all_whitespace(s@),
{
    let n = s.unicode_len();
    let mut i: usize = 0;
    while i < n
        invariant
            n == s@.len(),
            i <= n,
            forall|j: int| 0 <= j < i ==> #[trigger] whitespace(s@[j]),
        decreases n - i,
    {
        if !is_whitespace(s.get_char(i)) {
            return false;
        }
        i = i + 1;
    }
    true
}


/// The encoding of a concatenation is the concatenation of the encodings.
pub proof fn lemma_encode_concat(a: Seq<char>, b: Seq<char>)
    ensures
        encode_utf8(a + b) == encode_utf8(a) + encode_utf8(b),
    decreases a.len(),
{
    if a.len() == 0 {
        assert(a + b =~= b);
        assert(encode_utf8(a) =~= Seq::<u8>::empty());
        assert(encode_utf8(a) + encode_utf8(b) =~= encode_utf8(b));
    } else {
        assert((a + b).drop_first() =~= a.drop_first() + b);
        assert((a + b)[0] == a[0]);
        lemma_encode_concat(a.drop_first(), b);
        assert(encode_utf8(a + b) =~= encode_utf8(a) + encode_utf8(b));
    }
}

/// The end of a prefix of whole characters is a character boundary.
pub proof fn lemma_prefix_boundary(chars: Seq<char>, k: int)
    requires
        0 <= k <= chars.len(),
    ensures
        is_char_boundary(encode_utf8(chars), encode_utf8(chars.take(k)).len() as int),
    decreases k,
{
    let bytes = encode_utf8(chars);
    encode_utf8_valid_utf8(chars);
    if k == 0 {
        assert(chars.take(0) =~= Seq::<char>::empty());
        assert(encode_utf8(chars.take(0)) =~= Seq::<u8>::empty());
    } else {
        encode_utf8_first_scalar(chars);
        char_u32_cast(chars[0], decode_first_scalar(bytes));
        assert(pop_first_scalar(bytes) =~= encode_utf8(chars.drop_first()));
        let rest = chars.drop_first();
        assert(chars.take(k) =~= seq![chars[0]] + rest.take(k - 1));
        lemma_encode_concat(seq![chars[0]], rest.take(k - 1));
        assert(seq![chars[0]].drop_first() =~= Seq::<char>::empty());
        assert(encode_utf8(seq![chars[0]]) =~= encode_scalar(chars[0] as u32) + encode_utf8(Seq::<char>::empty()));
        assert(encode_utf8(chars) =~= encode_scalar(chars[0] as u32) + encode_utf8(rest));
        assert(length_of_first_scalar(bytes) == encode_scalar(chars[0] as u32).len());
        lemma_prefix_boundary(rest, k - 1);
    }
}

/// Splits a text after its first `k` characters, given the byte length
/// `mid` of those characters.
pub(crate) fn split_chars<'a>(text: &'a str, mid: usize, Ghost(k): Ghost<int>) -> (r: (&'a str, &'a str))
    requires
        0 <= k <= text@.len(),
        mid == utf8_of(text@.take(k)).len(),
    ensures
        r.0@ == text@.take(k),
        r.1@ == text@.skip(k),
{
    proof {
        lemma_prefix_boundary(text@, k);
        encode_utf8_decode_utf8(text@);
        assert(text@ =~= text@.take(k) + text@.skip(k));
        lemma_encode_concat(text@.take(k), text@.skip(k));
    }
    let r = text.split_at(mid);
    proof {
        let bytes = text.spec_bytes();
        assert(r.0.spec_bytes() =~= utf8_of(text@.take(k)));
        assert(r.1.spec_bytes() =~= utf8_of(text@.skip(k)));
        encode_utf8_decode_utf8(r.0@);
        encode_utf8_decode_utf8(r.1@);
        encode_utf8_decode_utf8(text@.take(k));
        encode_utf8_decode_utf8(text@.skip(k));
    }
    r
}


/// The text with the bytes from `start` to `end` replaced by `replacement`.
pub fn splice(text: &str, start: usize, end: usize, replacement: &str) -> (r: String)
    requires
        start <= text.spec_bytes().len(),
        end <= text.spec_bytes().len(),
        boundary(text.spec_bytes(), start as int),
        boundary(text.spec_bytes(), end as int),
    ensures
        utf8_of(r@) == text.spec_bytes().subrange(0, start as int) + replacement.spec_bytes()
            + text.spec_bytes().subrange(end as int, text.spec_bytes().len() as int),
        r@ == decode_utf8(text.spec_bytes().subrange(0, start as int)) + replacement@ + decode_utf8(
            text.spec_bytes().subrange(end as int, text.spec_bytes().len() as int),
        ),
{
    let len = text.as_bytes().len();
    let prefix = slice(text, 0, start);
    let suffix = slice(text, end, len);
    let mut out = String::from_str(prefix);
    out.append(replacement);
    out.append(suffix);
    proof {
        let b = text.spec_bytes();
        encode_utf8_valid_utf8(text@);
        lemma_boundary_slice_valid(b, 0, start as int);
        lemma_boundary_slice_valid(b, end as int, len as int);
        decode_utf8_encode_utf8(b.subrange(0, start as int));
        decode_utf8_encode_utf8(b.subrange(end as int, len as int));
        lemma_encode_concat(prefix@ + replacement@, suffix@);
        lemma_encode_concat(prefix@, replacement@);
        encode_utf8_decode_utf8(replacement@);
        assert(out@ == prefix@ + replacement@ + suffix@);
        assert(replacement.spec_bytes() == utf8_of(replacement@));
    }
    out
}

/// Every byte position that ends a prefix of whole characters is a
/// boundary.
pub proof fn lemma_prefix_is_boundary(chars: Seq<char>, k: int)
    requires
        0 <= k <= chars.len(),
    ensures
        boundary(encode_utf8(chars), encode_utf8(chars.take(k)).len() as int),
        encode_utf8(chars.take(k)).len() <= encode_utf8(chars).len(),
{
    let b = encode_utf8(chars);
    lemma_prefix_boundary(chars, k);
    encode_utf8_valid_utf8(chars);
    assert(chars =~= chars.take(k) + chars.skip(k));
    lemma_encode_concat(chars.take(k), chars.skip(k));
    let m = encode_utf8(chars.take(k)).len() as int;
    if 0 < m < b.len() {
        is_char_boundary_iff_not_is_continuation_byte(b, m);
    }
}


/// In valid UTF-8, the position after a character boundary holding an
/// ASCII byte is a character boundary too.
pub proof fn lemma_after_ascii(b: Seq<u8>, p: int)
    requires
        valid_utf8(b),
        0 <= p < b.len(),
        is_char_boundary(b, p),
        b[p] < 0x80,
    ensures
        is_char_boundary(b, p + 1),
    decreases b.len(),
{
    let l = length_of_first_scalar(b);
    let rest = pop_first_scalar(b);
    if p == 0 {
        assert(l == 1);
        reveal_with_fuel(is_char_boundary, 2);
    } else {
        assert(is_char_boundary(b, p) == is_char_boundary(rest, p - l));
        assert(is_char_boundary(b, p + 1) == is_char_boundary(rest, p + 1 - l));
        if p - l < 0 {
            assert(!is_char_boundary(rest, p - l));
        } else {
            assert(rest[p - l] == b[p]);
            lemma_after_ascii(rest, p - l);
        }
    }
}

/// The position after a newline byte is a boundary.
pub proof fn lemma_after_newline(b: Seq<u8>, p: int)
    requires
        valid_utf8(b),
        0 <= p < b.len(),
        b[p] == 10,
    ensures
        boundary(b, p + 1),
{
    is_char_boundary_iff_not_is_continuation_byte(b, p);
    lemma_after_ascii(b, p);
    if p + 1 < b.len() {
        is_char_boundary_iff_not_is_continuation_byte(b, p + 1);
    }
}

/// The decimal digit character of `d`, for `d` below ten.
pub open spec fn digit(d: int) -> char {
    if d == 0 { '0' } else if d == 1 { '1' } else if d == 2 { '2' } else if d == 3 { '3' } else if d
        == 4 { '4' } else if d == 5 { '5' } else if d == 6 { '6' } else if d == 7 { '7' } else if d
        == 8 { '8' } else { '9' }
}

/// The decimal digits of a number, most significant first, with no leading zero.
pub open spec fn decimal(n: nat) -> Seq<char>
    decreases n,
{
    if n < 10 {
        seq![digit(n as int)]
    } else {
        decimal(n / 10).push(digit((n % 10) as int))
    }
}

fn digit_str(d: u64) -> (r: &'static str)
    requires
        d < 10,
    ensures
        r@ == seq![digit(d as int)],
{
    proof {
        reveal_strlit("0");
        reveal_strlit("1");
        reveal_strlit("2");
        reveal_strlit("3");
        reveal_strlit("4");
        reveal_strlit("5");
        reveal_strlit("6");
        reveal_strlit("7");
        reveal_strlit("8");
        reveal_strlit("9");
    }
    if d == 0 {
        "0"
    } else if d == 1 {
        "1"
    } else if d == 2 {
        "2"
    } else if d == 3 {
        "3"
    } else if d == 4 {
        "4"
    } else if d == 5 {
        "5"
    } else if d == 6 {
        "6"
    } else if d == 7 {
        "7"
    } else if d == 8 {
        "8"
    } else {
        "9"
    }
}

/// A number written in decimal, as `Display` writes it.
pub fn decimal_string(n: u64) -> (r: String)
    ensures
        r@ == decimal(n as nat),
    decreases n,
{
    if n < 10 {
        String::from_str(digit_str(n))
    } else {
        let mut s = decimal_string(n / 10);
        s.append(digit_str(n % 10));
        s
    }
}

} // verus!
