//! The row bookkeeping of a virtualized list: which logical rows the
//! supplied children cover, how a pending request for rows grows, how new
//! children line up with old ones, and which commands the row count allows.
use vstd::prelude::*;

verus! {

/// A half-open range of logical rows.
#[derive(Clone, Copy, Debug, PartialEq, Eq, Structural)]
pub struct RowRange {
    pub start: usize,
    pub end: usize,
}

/// The smaller of two integers.
pub open spec fn min(a: int, b: int) -> int {
    if a <= b {
        a
    } else {
        b
    }
}

/// The rows the children cover: from the window start, clamped to the row
/// count, for as many rows as there are children, clamped again.
pub open spec fn supplied_spec(start: usize, children: usize, count: usize) -> (int, int) {
    let s = min(start as int, count as int);
    (s, min(s + children, count as int))
}

/// The logical rows the supplied children stand for.
pub fn supplied(start: usize, children: usize, count: usize) -> (r: RowRange)
    ensures
        (r.start as int, r.end as int) == supplied_spec(start, children, count),
        r.start <= start && r.start <= count && (r.start == start || r.start == count),
        r.start <= r.end <= count,
        r.end - r.start <= children,
        r.end == count || r.end - r.start == children,
{
    let s = if start < count {
        start
    } else {
        count
    };
    let end = if children > count - s {
        count
    } else {
        s + children
    };
    RowRange { start: s, end }
}

/// Where the supplied window starts: the props' window start, clamped to
/// the row count, when the list is windowed; zero when every row is a child.
pub fn window_start(item_count: Option<usize>, start: usize, count: usize) -> (r: usize)
    ensures
        r == match item_count {
            Some(_) => min(start as int, count as int),
            None => 0,
        },
        r <= count || item_count is None,
        item_count is Some ==> r <= start && (r == start || r == count),
{
    match item_count {
        Some(_) => if start < count {
            start
        } else {
            count
        },
        None => 0,
    }
}

/// A range grown to take in one more row: the row alone when nothing is
/// pending.
pub fn cover(pending: Option<RowRange>, index: usize) -> (r: RowRange)
    requires
        index < usize::MAX,
    ensures
        match pending {
            None => r == (RowRange { start: index, end: (index + 1) as usize }),
            Some(p) => r.start == min(p.start as int, index as int) && r.end == (if p.end >= index + 1 {
                p.end as int
            } else {
                index + 1
            }),
        },
        r.start <= index < r.end,
        pending matches Some(p) ==> r.start <= p.start && p.end <= r.end && (r.start == p.start || r.start
            == index) && (r.end == p.end || r.end == index + 1),
{
    match pending {
        None => RowRange { start: index, end: index + 1 },
        Some(p) => RowRange {
            start: if p.start < index {
                p.start
            } else {
                index
            },
            end: if p.end >= index + 1 {
                p.end
            } else {
                index + 1
            },
        },
    }
}

/// `a` and `b` agree on their first `n` items.
pub open spec fn common_prefix(a: Seq<u64>, b: Seq<u64>, n: int) -> bool {
    n <= a.len() && n <= b.len() && forall|i: int| 0 <= i < n ==> a[i] == b[i]
}

/// The `i`-th item from the end.
pub open spec fn from_end(s: Seq<u64>, i: int) -> u64 {
    s[s.len() - i]
}

/// `a` and `b` agree on their last `n` items.
pub open spec fn common_suffix(a: Seq<u64>, b: Seq<u64>, n: int) -> bool {
    n <= a.len() && n <= b.len() && forall|i: int|
        0 < i <= n ==> #[trigger] from_end(a, i) == from_end(b, i)
}

/// How new children line up with old ones, by view identity: the longest
/// common prefix, then the longest common suffix of what remains. The rows
/// between them are replaced; the others keep their measurements.
pub fn splice_bounds(old: &[u64], new: &[u64]) -> (r: (usize, usize))
    ensures
        common_prefix(old@, new@, r.0 as int),
        r.0 == old@.len() || r.0 == new@.len() || old@[r.0 as int] != new@[r.0 as int],
        common_suffix(old@.skip(r.0 as int), new@.skip(r.0 as int), r.1 as int),
        r.0 + r.1 == old@.len() || r.0 + r.1 == new@.len() || old@[old@.len() - r.1 - 1]
            != new@[new@.len() - r.1 - 1],
{
    let mut prefix: usize = 0;
    while prefix < old.len() && prefix < new.len()
        invariant
            common_prefix(old@, new@, prefix as int),
        ensures
            common_prefix(old@, new@, prefix as int),
            prefix == old@.len() || prefix == new@.len() || old@[prefix as int] != new@[prefix as int],
        decreases old@.len() - prefix,
    {
        if old[prefix] != new[prefix] {
            break;
        }
        prefix = prefix + 1;
    }
    let mut suffix: usize = 0;
    while suffix < old.len() - prefix && suffix < new.len() - prefix
        invariant
            common_prefix(old@, new@, prefix as int),
            suffix <= old@.len() - prefix,
            suffix <= new@.len() - prefix,
            forall|i: int| 0 < i <= suffix ==> #[trigger] from_end(old@, i) == from_end(new@, i),
        ensures
            suffix <= old@.len() - prefix,
            suffix <= new@.len() - prefix,
            forall|i: int| 0 < i <= suffix ==> #[trigger] from_end(old@, i) == from_end(new@, i),
            prefix + suffix == old@.len() || prefix + suffix == new@.len() || old@[old@.len()
                - suffix - 1] != new@[new@.len() - suffix - 1],
        decreases old@.len() - suffix,
    {
        if old[old.len() - 1 - suffix] != new[new.len() - 1 - suffix] {
            break;
        }
        suffix = suffix + 1;
    }
    proof {
        let a = old@.skip(prefix as int);
        let b = new@.skip(prefix as int);
        assert forall|i: int| 0 < i <= suffix implies #[trigger] from_end(a, i) == from_end(b, i) by {
            assert(from_end(old@, i) == from_end(new@, i));
        }
    }
    (prefix, suffix)
}

/// Why a list command was refused.
#[derive(Clone, Copy, Debug, PartialEq, Eq, Structural)]
pub enum ListError {
    /// A scroll target past the last row.
    IndexPastEnd,
    /// A measurement range that is inverted or past the last row.
    BadRange,
}

impl ListError {
    /// The human-readable message of this error.
    pub fn message(&self) -> (r: String)
        ensures
            r@ == match *self {
                ListError::IndexPastEnd => "list index exceeds item count"@,
                ListError::BadRange => "invalid list measurement range"@,
            },
    {
        match self {
            ListError::IndexPastEnd => "list index exceeds item count".to_string(),
            ListError::BadRange => "invalid list measurement range".to_string(),
        }
    }
}

/// A scroll target may be any row, or the end.
pub fn check_scroll_to(index: usize, count: usize) -> (r: Result<(), ListError>)
    ensures
        r == if index <= count {
            Ok::<(), ListError>(())
        } else {
            Err(ListError::IndexPastEnd)
        },
{
    if index <= count {
        Ok(())
    } else {
        Err(ListError::IndexPastEnd)
    }
}

/// Rows to measure again must be an ordered range of existing rows.
pub fn check_remeasure(start: usize, end: usize, count: usize) -> (r: Result<RowRange, ListError>)
    ensures
        r == if start <= end && end <= count {
            Ok::<RowRange, ListError>(RowRange { start, end })
        } else {
            Err(ListError::BadRange)
        },
{
    if start <= end && end <= count {
        Ok(RowRange { start, end })
    } else {
        Err(ListError::BadRange)
    }
}

} // verus!
