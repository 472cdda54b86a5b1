//! Find-in-document matching: a query becomes a regular expression (escaped
//! unless the query is itself one, wrapped in word boundaries on request), and
//! matching reports the non-empty byte ranges it finds.
use vstd::prelude::*;
use vstd::string::StringSliceAdditionalSpecFns;
use std::ops::Range;
use crate::text::boundary;
use crate::compiled::{build, build_error_text, compiles, find_ranges, refusal_message, regex_matches, Compiled};

verus! {

/// What to look for and how.
#[derive(Debug, Clone, Default, PartialEq, Eq)]
pub struct Query {
    pub query: String,
    pub regex: bool,
    pub case_sensitive: bool,
    pub whole_word: bool,
}

/// A character with meaning in a regular expression.
pub open spec fn meta_character(c: char) -> bool {
    c == '\\' || c == '.' || c == '+' || c == '*' || c == '?' || c == '(' || c == ')' || c
        == '|' || c == '[' || c == ']' || c == '{' || c == '}' || c == '^' || c == '$' || c
        == '#' || c == '&' || c == '-' || c == '~'
}

/// A text with a backslash before each meta character.
pub open spec fn escaped(text: Seq<char>) -> Seq<char>
    decreases text.len(),
{
    if text.len() == 0 {
        Seq::empty()
    } else {
        let c = text.last();
        escaped(text.drop_last()) + if meta_character(c) {
            seq!['\\', c]
        } else {
            seq![c]
        }
    }
}

/// `regex::escape`: the source puts a backslash before each of the characters
/// `\ . + * ? ( ) | [ ] { } ^ $ # & - ~` and copies every other character.
#[verifier::external_body]
fn escape(text: &str) -> (r: String)
    ensures
        r@ == escaped(text@),
{
    regex::escape(text)
}

/// Ranges in a text: each on character boundaries, in order, none overlapping.
pub open spec fn matches_in(bytes: Seq<u8>, ranges: Seq<Range<usize>>) -> bool {
    &&& forall|i: int|
        0 <= i < ranges.len() ==> (#[trigger] ranges[i]).start <= ranges[i].end <= bytes.len()
            && boundary(bytes, ranges[i].start as int) && boundary(bytes, ranges[i].end as int)
    &&& forall|i: int, j: int|
        0 <= i < j < ranges.len() ==> (#[trigger] ranges[i]).end <= (#[trigger] ranges[j]).start
}

/// The expression a query searches with: the query itself when it is a
/// regular expression, else the query escaped; wrapped as `\b(?:…)\b` for
/// whole words.
pub open spec fn pattern_of(query: Seq<char>, regex: bool, whole_word: bool) -> Seq<char> {
    let base = if regex {
        query
    } else {
        escaped(query)
    };
    if whole_word {
        "\\b(?:"@ + base + ")\\b"@
    } else {
        base
    }
}

/// Builds the expression text for a query.
pub fn pattern(query: &Query) -> (r: String)
    ensures
        r@ == pattern_of(query.query@, query.regex, query.whole_word),
{
    let base = if query.regex {
        query.query.clone()
    } else {
        escape(query.query.as_str())
    };
    if query.whole_word {
        let open = String::from_str("\\b(?:");
        let wrapped = open.concat(base.as_str());
        let r = wrapped.concat(")\\b");
        proof {
            reveal_strlit("\\b(?:");
            reveal_strlit(")\\b");
        }
        r
    } else {
        base
    }
}

/// Why a query cannot be searched for.
#[derive(Debug, Clone, PartialEq, Eq)]
pub enum SearchError {
    /// The expression does not compile; the message says why.
    Pattern(String),
}

/// The ranges among `found` that are not empty, in order.
pub open spec fn nonempty(found: Seq<Range<usize>>) -> Seq<Range<usize>>
    decreases found.len(),
{
    if found.len() == 0 {
        Seq::empty()
    } else {
        let rest = nonempty(found.drop_last());
        if found.last().start < found.last().end {
            rest.push(found.last())
        } else {
            rest
        }
    }
}

/// Dropping empty ranges keeps ranges that lie in a text in order.
pub proof fn lemma_nonempty_matches(bytes: Seq<u8>, found: Seq<Range<usize>>)
    requires
        matches_in(bytes, found),
    ensures
        matches_in(bytes, nonempty(found)),
        forall|i: int|
            0 <= i < nonempty(found).len() ==> (#[trigger] nonempty(found)[i]).start
                < nonempty(found)[i].end && found.contains(nonempty(found)[i]),
    decreases found.len(),
{
    if found.len() > 0 {
        let s = found.drop_last();
        let last = found.last();
        assert forall|i: int, j: int| 0 <= i < j < s.len() implies (#[trigger] s[i]).end <= (
        #[trigger] s[j]).start by {
            assert(s[i] == found[i] && s[j] == found[j]);
        }
        assert forall|i: int| 0 <= i < s.len() implies (#[trigger] s[i]).start <= s[i].end
            <= bytes.len() && boundary(bytes, s[i].start as int) && boundary(
            bytes,
            s[i].end as int,
        ) by {
            assert(s[i] == found[i]);
        }
        lemma_nonempty_matches(bytes, s);
        let rest = nonempty(s);
        assert forall|i: int| 0 <= i < rest.len() implies (#[trigger] rest[i]).end <= last.start
            && found.contains(rest[i]) by {
            let k = choose|k: int| 0 <= k < s.len() && s[k] == rest[i];
            assert(found[k] == s[k]);
            assert(found[found.len() - 1] == last);
        }
        let out = nonempty(found);
        assert(out == if last.start < last.end { rest.push(last) } else { rest });
        assert forall|i: int| 0 <= i < out.len() implies (#[trigger] out[i]).start < out[i].end
            && found.contains(out[i]) by {
            if i < rest.len() {
                assert(out[i] == rest[i]);
            } else {
                assert(out[i] == last);
                assert(found[found.len() - 1] == last);
            }
        }
        assert forall|i: int, j: int| 0 <= i < j < out.len() implies (#[trigger] out[i]).end <= (
        #[trigger] out[j]).start by {
            assert(out[i] == rest[i]);
            if j < rest.len() {
                assert(out[j] == rest[j]);
            } else {
                assert(out[j] == last);
            }
        }
        assert forall|i: int| 0 <= i < out.len() implies (#[trigger] out[i]).start <= out[i].end
            <= bytes.len() && boundary(bytes, out[i].start as int) && boundary(
            bytes,
            out[i].end as int,
        ) by {
            let k = choose|k: int| 0 <= k < found.len() && found[k] == out[i];
        }
    }
}

/// Keeps the non-empty ranges, in order.
pub fn nonempty_ranges(found: Vec<Range<usize>>) -> (r: Vec<Range<usize>>)
    ensures
        r@ == nonempty(found@),
{
    let mut r: Vec<Range<usize>> = Vec::new();
    let mut i: usize = 0;
    while i < found.len()
        invariant
            i <= found@.len(),
            r@ == nonempty(found@.take(i as int)),
        decreases found@.len() - i,
    {
        let m = found[i].start..found[i].end;
        proof {
            assert(found@.take(i + 1).drop_last() =~= found@.take(i as int));
            assert(found@.take(i + 1).last() == found@[i as int]);
        }
        if m.start < m.end {
            r.push(m);
        }
        i = i + 1;
    }
    assert(found@.take(found@.len() as int) =~= found@);
    r
}

/// A compiled query.
pub struct Matcher {
    pub query: Query,
    expression: Compiled,
}

impl Matcher {
    /// The query this matcher searches for.
    pub closed spec fn searched(&self) -> Query {
        self.query
    }

    /// The expression text this matcher was compiled from.
    pub closed spec fn pattern(&self) -> Seq<char> {
        self.expression@.0
    }

    /// Whether this matcher folds case.
    pub closed spec fn folds_case(&self) -> bool {
        self.expression@.1
    }

    /// Compiles a query; fails exactly when its expression does not compile,
    /// case-insensitively unless the query is case-sensitive.
    pub fn new(query: Query) -> (r: Result<Matcher, SearchError>)
        ensures
            r is Ok <==> compiles(
                pattern_of(query.query@, query.regex, query.whole_word),
                !query.case_sensitive,
            ),
            r matches Ok(m) ==> m.searched() == query && m.pattern() == pattern_of(
                query.query@,
                query.regex,
                query.whole_word,
            ) && m.folds_case() == !query.case_sensitive,
            r matches Err(SearchError::Pattern(message)) ==> message@ == build_error_text(
                pattern_of(query.query@, query.regex, query.whole_word),
                !query.case_sensitive,
            ),
    {
        let text = pattern(&query);
        match build(text.as_str(), !query.case_sensitive) {
            Ok(expression) => Ok(Matcher { query, expression }),
            Err(e) => Err(SearchError::Pattern(refusal_message(&e))),
        }
    }

    /// The non-empty matches in `text`, as byte ranges in order; none for an
    /// empty query.
    pub fn ranges(&self, text: &str) -> (r: Vec<Range<usize>>)
        ensures
            self.searched().query@.len() == 0 ==> r@.len() == 0,
            self.searched().query@.len() > 0 ==> r@ == nonempty(
                regex_matches(self.pattern(), self.folds_case(), text@),
            ),
            matches_in(text.spec_bytes(), r@),
            forall|i: int| 0 <= i < r@.len() ==> (#[trigger] r@[i]).start < r@[i].end,
    {
        if self.query.query.as_str().unicode_len() == 0 {
            return Vec::new();
        }
        let found = find_ranges(&self.expression, text);
        let r = nonempty_ranges(found);
        proof {
            lemma_nonempty_matches(text.spec_bytes(), found@);
        }
        r
    }
}

} // verus!
