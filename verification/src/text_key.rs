//! Keys of the texts a document selects across: the host id of a text node,
//! or a name. Snapshots and commands write a node's key as `text:` and its
//! decimal id, and a name as itself.
use vstd::prelude::*;
use crate::text::{decimal, decimal_string, digit};

verus! {

/// The key of one selectable text.
#[derive(Clone, Debug, PartialEq, Eq)]
pub enum TextKey {
    Node(u32),
    Named(String),
}

/// An ASCII decimal digit.
pub open spec fn is_digit(c: char) -> bool {
    '0' <= c && c <= '9'
}

/// The number the digits of `s` write, most significant first.
pub open spec fn digits_value(s: Seq<char>) -> int
    decreases s.len(),
{
    if s.len() == 0 {
        0
    } else {
        digits_value(s.drop_last()) * 10 + (s.last() as u32 - 48)
    }
}

/// Every character of `d` is an ASCII digit.
pub open spec fn all_digits(d: Seq<char>) -> bool {
    forall|i: int| 0 <= i < d.len() ==> is_digit(#[trigger] d[i])
}

/// `s` without a leading `+`.
pub open spec fn unsigned(s: Seq<char>) -> Seq<char> {
    if s.len() > 0 && s[0] == '+' {
        s.drop_first()
    } else {
        s
    }
}

/// What `u32::from_str` accepts: an optional `+`, then one or more ASCII
/// digits whose number fits in a `u32`.
pub open spec fn parsed_u32(s: Seq<char>) -> Option<u32> {
    let d = unsigned(s);
    if d.len() > 0 && all_digits(d) && digits_value(d) <= u32::MAX {
        Some(digits_value(d) as u32)
    } else {
        None
    }
}

/// The prefix of a node key.
pub open spec fn node_prefix() -> Seq<char> {
    seq!['t', 'e', 'x', 't', ':']
}

/// The node id a key text names: `text:` followed by a number `u32`
/// parsing accepts.
pub open spec fn node_of(text: Seq<char>) -> Option<u32> {
    if text.len() >= 5 && text.take(5) == node_prefix() {
        parsed_u32(text.skip(5))
    } else {
        None
    }
}

/// The string form of a key.
pub open spec fn key_text(key: TextKey) -> Seq<char> {
    match key {
        TextKey::Node(id) => node_prefix() + decimal(id as nat),
        TextKey::Named(name) => name@,
    }
}

/// A digit-only sequence never writes a smaller number when it grows.
proof fn lemma_digits_grow(d: Seq<char>, i: int, j: int)
    requires
        0 <= i <= j <= d.len(),
        forall|k: int| 0 <= k < j ==> is_digit(#[trigger] d[k]),
    ensures
        0 <= digits_value(d.take(i)) <= digits_value(d.take(j)),
    decreases j,
{
    if j > 0 {
        if i < j {
            lemma_digits_grow(d, i, j - 1);
        } else {
            lemma_digits_grow(d, j - 1, j - 1);
        }
        assert(d.take(j).drop_last() =~= d.take(j - 1));
        assert(d.take(j).last() == d[j - 1]);
    } else {
        assert(d.take(0) =~= Seq::<char>::empty());
    }
}

/// Parses the characters of `text` from `start` on as `u32::from_str` does.
fn parse_u32_from(text: &str, start: usize) -> (r: Option<u32>)
    requires
        start <= text@.len(),
    ensures
        r == parsed_u32(text@.skip(start as int)),
{
    let n = text.unicode_len();
    let ghost s = text@.skip(start as int);
    let mut i = start;
    if i < n && text.get_char(i) == '+' {
        i = i + 1;
    }
    let ghost d = unsigned(s);
    proof {
        assert(d =~= text@.skip(i as int));
    }
    if i == n {
        return None;
    }
    let first = i;
    let mut v: u64 = 0;
    proof {
        assert(d.take(0) =~= Seq::<char>::empty());
    }
    while i < n
        invariant
            n == text@.len(),
            first <= i <= n,
            d == text@.skip(first as int),
            d.len() > 0,
            s == text@.skip(start as int),
            d == unsigned(s),
            forall|k: int| 0 <= k < i - first ==> is_digit(#[trigger] d[k]),
            v == digits_value(d.take(i - first)),
            v <= u32::MAX,
        decreases n - i,
    {
        let c = text.get_char(i);
        let ghost k = i - first;
        assert(d[k] == c);
        if c < '0' || c > '9' {
            proof {
                assert(!is_digit(d[k]));
                assert(!all_digits(d));
            }
            return None;
        }
        let digit = (c as u32 - 48) as u64;
        proof {
            assert(d.take(k + 1).drop_last() =~= d.take(k));
            assert(d.take(k + 1).last() == c);
        }
        let next = v * 10 + digit;
        proof {
            assert(digits_value(d.take(k + 1)) == next);
        }
        if next > 0xFFFF_FFFF {
            proof {
                if all_digits(d) {
                    lemma_digits_grow(d, k + 1, d.len() as int);
                    assert(d.take(d.len() as int) =~= d);
                }
            }
            return None;
        }
        v = next;
        i = i + 1;
    }
    proof {
        assert(d.take(n - first) =~= d);
    }
    Some(v as u32)
}

impl TextKey {
    /// Parses the string form used in snapshots and commands: `text:` and a
    /// number is a node's key, anything else a name.
    pub fn parse(text: &str) -> (r: TextKey)
        ensures
            match node_of(text@) {
                Some(id) => r == TextKey::Node(id),
                None => r matches TextKey::Named(name) && name@ == text@,
            },
    {
        let n = text.unicode_len();
        let mut prefixed = n >= 5;
        if prefixed {
            prefixed = text.get_char(0) == 't' && text.get_char(1) == 'e' && text.get_char(2) == 'x'
                && text.get_char(3) == 't' && text.get_char(4) == ':';
        }
        proof {
            if n >= 5 {
                assert(prefixed == (text@.take(5) =~= node_prefix()));
            }
        }
        if prefixed {
            if let Some(id) = parse_u32_from(text, 5) {
                return TextKey::Node(id);
            }
        }
        TextKey::Named(text.to_string())
    }

    /// The string form of this key.
    pub fn to_text(&self) -> (r: String)
        ensures
            r@ == key_text(*self),
    {
        match self {
            TextKey::Node(id) => {
                let mut r = "text:".to_string();
                proof {
                    reveal_strlit("text:");
                    assert("text:"@ =~= node_prefix());
                }
                let digits = decimal_string(*id as u64);
                r.append(digits.as_str());
                r
            },
            TextKey::Named(name) => name.clone(),
        }
    }
}


/// A decimal digit character writes its number.
proof fn lemma_digit(k: int)
    requires
        0 <= k < 10,
    ensures
        is_digit(digit(k)),
        digit(k) as u32 - 48 == k,
{
}

/// The decimal digits of a number are digits and write that number.
proof fn lemma_decimal_digits(n: nat)
    ensures
        decimal(n).len() > 0,
        all_digits(decimal(n)),
        digits_value(decimal(n)) == n,
    decreases n,
{
    if n < 10 {
        lemma_digit(n as int);
        let d = decimal(n);
        assert(d.drop_last() =~= Seq::<char>::empty());
        assert(digits_value(d.drop_last()) == 0);
        assert(d.last() == digit(n as int));
        assert(digits_value(d) == digits_value(d.drop_last()) * 10 + (d.last() as u32 - 48));
    } else {
        lemma_decimal_digits(n / 10);
        lemma_digit((n % 10) as int);
        let d = decimal(n);
        assert(d.drop_last() =~= decimal(n / 10));
        assert((n / 10) * 10 + n % 10 == n);
        assert(d.last() == digit((n % 10) as int));
        assert(digits_value(d) == digits_value(d.drop_last()) * 10 + (d.last() as u32 - 48));
        assert forall|i: int| 0 <= i < d.len() implies is_digit(#[trigger] d[i]) by {
            if i < d.len() - 1 {
                assert(d[i] == decimal(n / 10)[i]);
            }
        }
    }
}

/// A key's string form parses back to the key, unless the key is a name that
/// itself reads as a node's key.
pub proof fn lemma_key_round_trip(key: TextKey)
    requires
        !(key matches TextKey::Named(name) && node_of(name@) is Some),
    ensures
        match node_of(key_text(key)) {
            Some(id) => key == TextKey::Node(id),
            None => key matches TextKey::Named(name) && name@ == key_text(key),
        },
{
    if let TextKey::Node(id) = key {
        let t = key_text(key);
        lemma_decimal_digits(id as nat);
        assert(t.take(5) =~= node_prefix());
        assert(t.skip(5) =~= decimal(id as nat));
        assert(is_digit(decimal(id as nat)[0]));
        assert(unsigned(t.skip(5)) == decimal(id as nat));
    }
}

} // verus!
