//! The keyword values of typed style props and their names on the wire.
use vstd::prelude::*;
use crate::text::str_eq;

verus! {

/// A length given by keyword rather than in pixels.
#[derive(Clone, Copy, Debug, PartialEq, Eq, Structural)]
pub enum NamedLength {
    /// `"100%"`: the whole of the parent.
    Fill,
    /// `"auto"`.
    Auto,
}

/// The main axis of a flex container.
#[derive(Clone, Copy, Debug, PartialEq, Eq, Structural)]
pub enum Direction {
    Row,
    Column,
    RowReverse,
    ColumnReverse,
}

/// Cross-axis alignment of a flex container's children.
#[derive(Clone, Copy, Debug, PartialEq, Eq, Structural)]
pub enum Align {
    Start,
    Center,
    End,
    Stretch,
}

/// The wire name of each named length.
pub open spec fn length_name(v: NamedLength) -> Seq<char> {
    match v {
        NamedLength::Fill => "100%"@,
        NamedLength::Auto => "auto"@,
    }
}

/// The wire name of each direction.
pub open spec fn direction_name(v: Direction) -> Seq<char> {
    match v {
        Direction::Row => "row"@,
        Direction::Column => "column"@,
        Direction::RowReverse => "rowReverse"@,
        Direction::ColumnReverse => "columnReverse"@,
    }
}

/// The wire name of each alignment.
pub open spec fn align_name(v: Align) -> Seq<char> {
    match v {
        Align::Start => "start"@,
        Align::Center => "center"@,
        Align::End => "end"@,
        Align::Stretch => "stretch"@,
    }
}

impl NamedLength {
    /// The value a wire name stands for, if any.
    pub fn parse(name: &str) -> (r: Option<NamedLength>)
        ensures
            r matches Some(v) ==> length_name(v) == name@,
            r is None ==> forall|v: NamedLength| length_name(v) != name@,
    {
        if str_eq(name, "100%") {
            Some(NamedLength::Fill)
        } else if str_eq(name, "auto") {
            Some(NamedLength::Auto)
        } else {
            proof {
                assert forall|v: NamedLength| length_name(v) != name@ by {
                    match v {
                        NamedLength::Fill => {},
                        NamedLength::Auto => {},
                    }
                }
            }
            None
        }
    }

    /// The wire name of this value.
    pub fn name(self) -> (r: &'static str)
        ensures
            r@ == length_name(self),
    {
        match self {
            NamedLength::Fill => "100%",
            NamedLength::Auto => "auto",
        }
    }
}

impl Direction {
    /// The value a wire name stands for, if any.
    pub fn parse(name: &str) -> (r: Option<Direction>)
        ensures
            r matches Some(v) ==> direction_name(v) == name@,
            r is None ==> forall|v: Direction| direction_name(v) != name@,
    {
        if str_eq(name, "row") {
            Some(Direction::Row)
        } else if str_eq(name, "column") {
            Some(Direction::Column)
        } else if str_eq(name, "rowReverse") {
            Some(Direction::RowReverse)
        } else if str_eq(name, "columnReverse") {
            Some(Direction::ColumnReverse)
        } else {
            proof {
                assert forall|v: Direction| direction_name(v) != name@ by {
                    match v {
                        Direction::Row => {},
                        Direction::Column => {},
                        Direction::RowReverse => {},
                        Direction::ColumnReverse => {},
                    }
                }
            }
            None
        }
    }

    /// The wire name of this value.
    pub fn name(self) -> (r: &'static str)
        ensures
            r@ == direction_name(self),
    {
        match self {
            Direction::Row => "row",
            Direction::Column => "column",
            Direction::RowReverse => "rowReverse",
            Direction::ColumnReverse => "columnReverse",
        }
    }
}

impl Align {
    /// The value a wire name stands for, if any.
    pub fn parse(name: &str) -> (r: Option<Align>)
        ensures
            r matches Some(v) ==> align_name(v) == name@,
            r is None ==> forall|v: Align| align_name(v) != name@,
    {
        if str_eq(name, "start") {
            Some(Align::Start)
        } else if str_eq(name, "center") {
            Some(Align::Center)
        } else if str_eq(name, "end") {
            Some(Align::End)
        } else if str_eq(name, "stretch") {
            Some(Align::Stretch)
        } else {
            proof {
                assert forall|v: Align| align_name(v) != name@ by {
                    match v {
                        Align::Start => {},
                        Align::Center => {},
                        Align::End => {},
                        Align::Stretch => {},
                    }
                }
            }
            None
        }
    }

    /// The wire name of this value.
    pub fn name(self) -> (r: &'static str)
        ensures
            r@ == align_name(self),
    {
        match self {
            Align::Start => "start",
            Align::Center => "center",
            Align::End => "end",
            Align::Stretch => "stretch",
        }
    }
}

/// Distinct values have distinct wire names, so a name parses back to the
/// value that printed it.
pub proof fn lemma_names_distinct()
    ensures
        forall|a: NamedLength, b: NamedLength| length_name(a) == length_name(b) ==> a == b,
        forall|a: Direction, b: Direction| direction_name(a) == direction_name(b) ==> a == b,
        forall|a: Align, b: Align| align_name(a) == align_name(b) ==> a == b,
{
    reveal_strlit("100%");
    reveal_strlit("auto");
    reveal_strlit("row");
    reveal_strlit("column");
    reveal_strlit("rowReverse");
    reveal_strlit("columnReverse");
    reveal_strlit("start");
    reveal_strlit("center");
    reveal_strlit("end");
    reveal_strlit("stretch");
    assert forall|a: NamedLength, b: NamedLength| length_name(a) == length_name(b) implies a == b by {
        if a != b {
            assert(length_name(a)[0] != length_name(b)[0]);
        }
    }
    assert forall|a: Direction, b: Direction| direction_name(a) == direction_name(b) implies a
        == b by {
        if a != b {
            assert(direction_name(a).len() != direction_name(b).len() || direction_name(a)[0]
                != direction_name(b)[0]);
        }
    }
    assert forall|a: Align, b: Align| align_name(a) == align_name(b) implies a == b by {
        if a != b {
            assert(align_name(a).len() != align_name(b).len() || align_name(a)[0] != align_name(
                b,
            )[0]);
        }
    }
}

} // verus!
