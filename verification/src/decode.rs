//! The decisions of transaction decoding: which names the wire knows, which
//! fields each operation needs and in what order a missing one is reported,
//! and how style definitions enter the session's table. Reading the text is
//! left to a JSON reader, which hands each object's fields here.
use vstd::prelude::*;
use crate::registry::{Op, Prepared};
use crate::text::{decimal, decimal_string, str_eq};

verus! {

/// The operation an object names.
#[derive(Clone, Copy, Debug, PartialEq, Eq, Structural)]
pub enum OpCode {
    Create,
    Props,
    Listen,
    Place,
    Remove,
    Hidden,
    Command,
    Query,
    Style,
    DropStyle,
}

/// A field of an operation object.
#[derive(Clone, Copy, Debug, PartialEq, Eq, Structural)]
pub enum OpField {
    Op,
    Id,
    Component,
    Props,
    Subscription,
    Parent,
    Child,
    Before,
    Hidden,
    Request,
    Value,
    Style,
}

/// A field of a transaction object.
#[derive(Clone, Copy, Debug, PartialEq, Eq, Structural)]
pub enum TxField {
    Version,
    Sequence,
    Operations,
}

/// Why an object did not decode.
#[derive(Clone, Copy, Debug, PartialEq, Eq, Structural)]
pub enum DecodeError {
    /// A required field is absent.
    Missing(OpField),
    /// The transaction lacks its sequence number.
    MissingSequence,
    /// The transaction lacks its operations.
    MissingOperations,
    /// An operation gives props before naming its component.
    PropsBeforeComponent,
    /// The transaction is not of protocol version 1.
    UnsupportedVersion,
    /// A style definition's id lies too far past the end of the table.
    StyleSkipsTooFar,
    /// A props field names a style id with no definition.
    UnknownStyle(u32),
}

/// The wire name of an operation field.
pub open spec fn op_field_name(f: OpField) -> Seq<char> {
    match f {
        OpField::Op => "op"@,
        OpField::Id => "id"@,
        OpField::Component => "component"@,
        OpField::Props => "props"@,
        OpField::Subscription => "subscription"@,
        OpField::Parent => "parent"@,
        OpField::Child => "child"@,
        OpField::Before => "before"@,
        OpField::Hidden => "hidden"@,
        OpField::Request => "request"@,
        OpField::Value => "value"@,
        OpField::Style => "style"@,
    }
}

/// The wire name of an operation.
pub open spec fn op_name(c: OpCode) -> Seq<char> {
    match c {
        OpCode::Create => "create"@,
        OpCode::Props => "props"@,
        OpCode::Listen => "listen"@,
        OpCode::Place => "place"@,
        OpCode::Remove => "remove"@,
        OpCode::Hidden => "hidden"@,
        OpCode::Command => "command"@,
        OpCode::Query => "query"@,
        OpCode::Style => "style"@,
        OpCode::DropStyle => "dropStyle"@,
    }
}

/// The wire name of a transaction field.
pub open spec fn tx_field_name(f: TxField) -> Seq<char> {
    match f {
        TxField::Version => "version"@,
        TxField::Sequence => "sequence"@,
        TxField::Operations => "operations"@,
    }
}

impl DecodeError {
    /// The human-readable message of this error.
    pub fn message(&self) -> (r: String)
        ensures
            r@ == match *self {
                DecodeError::Missing(f) => match f {
                    OpField::Op => "missing field `op`"@,
                    OpField::Id => "missing field `id`"@,
                    OpField::Component => "missing field `component`"@,
                    OpField::Props => "missing field `props`"@,
                    OpField::Subscription => "missing field `subscription`"@,
                    OpField::Parent => "missing field `parent`"@,
                    OpField::Child => "missing field `child`"@,
                    OpField::Before => "missing field `before`"@,
                    OpField::Hidden => "missing field `hidden`"@,
                    OpField::Request => "missing field `request`"@,
                    OpField::Value => "missing field `value`"@,
                    OpField::Style => "missing field `style`"@,
                },
                DecodeError::MissingSequence => "missing field `sequence`"@,
                DecodeError::MissingOperations => "missing field `operations`"@,
                DecodeError::PropsBeforeComponent => "component must precede props in an operation"@,
                DecodeError::UnsupportedVersion => "unsupported protocol version"@,
                DecodeError::StyleSkipsTooFar => "style id skips too far"@,
                DecodeError::UnknownStyle(id) => "unknown style "@ + decimal(id as nat),
            },
    {
        match self {
            DecodeError::Missing(f) => match f {
                OpField::Op => "missing field `op`".to_string(),
                OpField::Id => "missing field `id`".to_string(),
                OpField::Component => "missing field `component`".to_string(),
                OpField::Props => "missing field `props`".to_string(),
                OpField::Subscription => "missing field `subscription`".to_string(),
                OpField::Parent => "missing field `parent`".to_string(),
                OpField::Child => "missing field `child`".to_string(),
                OpField::Before => "missing field `before`".to_string(),
                OpField::Hidden => "missing field `hidden`".to_string(),
                OpField::Request => "missing field `request`".to_string(),
                OpField::Value => "missing field `value`".to_string(),
                OpField::Style => "missing field `style`".to_string(),
            },
            DecodeError::MissingSequence => "missing field `sequence`".to_string(),
            DecodeError::MissingOperations => "missing field `operations`".to_string(),
            DecodeError::PropsBeforeComponent => "component must precede props in an operation".to_string(),
            DecodeError::UnsupportedVersion => "unsupported protocol version".to_string(),
            DecodeError::StyleSkipsTooFar => "style id skips too far".to_string(),
            DecodeError::UnknownStyle(id) => {
                let mut r = "unknown style ".to_string();
                let digits = decimal_string(*id as u64);
                r.append(digits.as_str());
                r
            },
        }
    }
}

/// The wire name of an operation field.
pub fn op_field_str(f: OpField) -> (s: &'static str)
    ensures
        s@ == op_field_name(f),
{
    match f {
        OpField::Op => "op",
        OpField::Id => "id",
        OpField::Component => "component",
        OpField::Props => "props",
        OpField::Subscription => "subscription",
        OpField::Parent => "parent",
        OpField::Child => "child",
        OpField::Before => "before",
        OpField::Hidden => "hidden",
        OpField::Request => "request",
        OpField::Value => "value",
        OpField::Style => "style",
    }
}

/// The operation of a wire name.
pub fn op_code(name: &str) -> (r: Option<OpCode>)
    ensures
        match r {
            Some(c) => op_name(c) == name@,
            None => forall|c: OpCode| op_name(c) != name@,
        },
{
    if str_eq(name, "create") {
        Some(OpCode::Create)
    } else if str_eq(name, "props") {
        Some(OpCode::Props)
    } else if str_eq(name, "listen") {
        Some(OpCode::Listen)
    } else if str_eq(name, "place") {
        Some(OpCode::Place)
    } else if str_eq(name, "remove") {
        Some(OpCode::Remove)
    } else if str_eq(name, "hidden") {
        Some(OpCode::Hidden)
    } else if str_eq(name, "command") {
        Some(OpCode::Command)
    } else if str_eq(name, "query") {
        Some(OpCode::Query)
    } else if str_eq(name, "style") {
        Some(OpCode::Style)
    } else if str_eq(name, "dropStyle") {
        Some(OpCode::DropStyle)
    } else {
        None
    }
}

/// The operation field of a wire name.
pub fn op_field(name: &str) -> (r: Option<OpField>)
    ensures
        match r {
            Some(f) => op_field_name(f) == name@,
            None => forall|f: OpField| op_field_name(f) != name@,
        },
{
    if str_eq(name, "op") {
        Some(OpField::Op)
    } else if str_eq(name, "id") {
        Some(OpField::Id)
    } else if str_eq(name, "component") {
        Some(OpField::Component)
    } else if str_eq(name, "props") {
        Some(OpField::Props)
    } else if str_eq(name, "subscription") {
        Some(OpField::Subscription)
    } else if str_eq(name, "parent") {
        Some(OpField::Parent)
    } else if str_eq(name, "child") {
        Some(OpField::Child)
    } else if str_eq(name, "before") {
        Some(OpField::Before)
    } else if str_eq(name, "hidden") {
        Some(OpField::Hidden)
    } else if str_eq(name, "request") {
        Some(OpField::Request)
    } else if str_eq(name, "value") {
        Some(OpField::Value)
    } else if str_eq(name, "style") {
        Some(OpField::Style)
    } else {
        None
    }
}

/// The transaction field of a wire name.
pub fn tx_field(name: &str) -> (r: Option<TxField>)
    ensures
        match r {
            Some(f) => tx_field_name(f) == name@,
            None => forall|f: TxField| tx_field_name(f) != name@,
        },
{
    if str_eq(name, "version") {
        Some(TxField::Version)
    } else if str_eq(name, "sequence") {
        Some(TxField::Sequence)
    } else if str_eq(name, "operations") {
        Some(TxField::Operations)
    } else {
        None
    }
}

/// The fields of one operation object, as read; absent ones are `None`.
pub struct OperationFields<P, V, S> {
    pub op: Option<OpCode>,
    pub id: Option<u32>,
    pub kind: Option<u16>,
    pub props: Option<P>,
    pub subscription: Option<Option<u64>>,
    pub parent: Option<Option<u32>>,
    pub child: Option<u32>,
    pub before: Option<Option<u32>>,
    pub hidden: Option<bool>,
    pub request: Option<u64>,
    pub value: Option<V>,
    pub style: Option<S>,
}

impl<P, V, S> OperationFields<P, V, S> {
    /// An object with no fields read yet.
    pub fn new() -> (r: Self)
        ensures
            r.op is None && r.id is None && r.kind is None && r.props is None && r.subscription is None
                && r.parent is None && r.child is None && r.before is None && r.hidden is None
                && r.request is None && r.value is None && r.style is None,
    {
        OperationFields {
            op: None,
            id: None,
            kind: None,
            props: None,
            subscription: None,
            parent: None,
            child: None,
            before: None,
            hidden: None,
            request: None,
            value: None,
            style: None,
        }
    }
}

/// What one operation object amounts to.
pub enum Assembled<P, V, S> {
    /// A structural operation.
    Op(Op<P>),
    /// Defines (`Some`) or drops (`None`) the session style with this id.
    Style { id: u32, definition: Option<S> },
    /// A call whose raw value the component decodes next.
    Call { id: u32, kind: u16, request: u64, command: bool, raw: V },
}

/// The component an operation's props decode for: it must already be named.
pub fn props_kind(kind: Option<u16>) -> (r: Result<u16, DecodeError>)
    ensures
        r == match kind {
            Some(k) => Ok::<u16, DecodeError>(k),
            None => Err(DecodeError::PropsBeforeComponent),
        },
{
    match kind {
        Some(k) => Ok(k),
        None => Err(DecodeError::PropsBeforeComponent),
    }
}

/// An explicit `null` and an absent field both mean none.
pub open spec fn flat<T>(o: Option<Option<T>>) -> Option<T> {
    match o {
        Some(Some(x)) => Some(x),
        _ => None,
    }
}

fn flatten<T>(o: Option<Option<T>>) -> (r: Option<T>)
    ensures
        r == flat(o),
{
    match o {
        Some(Some(x)) => Some(x),
        _ => None,
    }
}

/// The operation an object's fields make, or the first missing field in
/// the order each operation reads them.
pub open spec fn assembly<P, V, S>(f: OperationFields<P, V, S>) -> Result<Assembled<P, V, S>, DecodeError> {
    let missing = |g: OpField| Err::<Assembled<P, V, S>, DecodeError>(DecodeError::Missing(g));
    match f.op {
        None => missing(OpField::Op),
        Some(op) => if op == OpCode::Style || op == OpCode::DropStyle {
            match f.id {
                None => missing(OpField::Id),
                Some(id) => if op == OpCode::Style {
                    match f.style {
                        None => missing(OpField::Style),
                        Some(s) => Ok(Assembled::Style { id, definition: Some(s) }),
                    }
                } else {
                    Ok(Assembled::Style { id, definition: None })
                },
            }
        } else if op == OpCode::Command || op == OpCode::Query {
            if f.kind is None {
                missing(OpField::Component)
            } else if f.value is None {
                missing(OpField::Value)
            } else if f.id is None {
                missing(OpField::Id)
            } else if f.request is None {
                missing(OpField::Request)
            } else {
                Ok(
                    Assembled::Call {
                        id: f.id->0,
                        kind: f.kind->0,
                        request: f.request->0,
                        command: op == OpCode::Command,
                        raw: f.value->0,
                    },
                )
            }
        } else if op == OpCode::Place {
            match f.child {
                None => missing(OpField::Child),
                Some(child) => Ok(
                    Assembled::Op(
                        Op::Place { parent: flat(f.parent), child, before: flat(f.before) },
                    ),
                ),
            }
        } else if f.id is None {
            missing(OpField::Id)
        } else {
            let id = f.id->0;
            if op == OpCode::Create || op == OpCode::Props {
                if f.kind is None {
                    missing(OpField::Component)
                } else if f.props is None {
                    missing(OpField::Props)
                } else if op == OpCode::Create {
                    Ok(
                        Assembled::Op(
                            Op::Create {
                                id,
                                kind: f.kind->0,
                                props: f.props->0,
                                subscription: flat(f.subscription),
                                place: match f.parent {
                                    Some(p) => Some((p, flat(f.before))),
                                    None => None,
                                },
                            },
                        ),
                    )
                } else {
                    Ok(Assembled::Op(Op::Props { id, kind: f.kind->0, props: f.props->0 }))
                }
            } else if op == OpCode::Listen {
                Ok(Assembled::Op(Op::Listen { id, subscription: flat(f.subscription) }))
            } else if op == OpCode::Remove {
                Ok(Assembled::Op(Op::Remove { id }))
            } else {
                match f.hidden {
                    None => missing(OpField::Hidden),
                    Some(hidden) => Ok(Assembled::Op(Op::Hidden { id, hidden })),
                }
            }
        },
    }
}

/// Turns an operation object's fields into its operation.
pub fn assemble<P, V, S>(f: OperationFields<P, V, S>) -> (r: Result<Assembled<P, V, S>, DecodeError>)
    ensures
        r == assembly(f),
{
    let ghost g = f;
    let OperationFields {
        op,
        id,
        kind,
        props,
        subscription,
        parent,
        child,
        before,
        hidden,
        request,
        value,
        style,
    } = f;
    let op = match op {
        None => {
            return Err(DecodeError::Missing(OpField::Op));
        },
        Some(op) => op,
    };
    match op {
        OpCode::Style | OpCode::DropStyle => {
            let id = match id {
                None => {
                    return Err(DecodeError::Missing(OpField::Id));
                },
                Some(id) => id,
            };
            if op == OpCode::Style {
                match style {
                    None => Err(DecodeError::Missing(OpField::Style)),
                    Some(s) => Ok(Assembled::Style { id, definition: Some(s) }),
                }
            } else {
                Ok(Assembled::Style { id, definition: None })
            }
        },
        OpCode::Command | OpCode::Query => {
            let kind = match kind {
                None => {
                    return Err(DecodeError::Missing(OpField::Component));
                },
                Some(k) => k,
            };
            let raw = match value {
                None => {
                    return Err(DecodeError::Missing(OpField::Value));
                },
                Some(v) => v,
            };
            let id = match id {
                None => {
                    return Err(DecodeError::Missing(OpField::Id));
                },
                Some(id) => id,
            };
            let request = match request {
                None => {
                    return Err(DecodeError::Missing(OpField::Request));
                },
                Some(r) => r,
            };
            Ok(Assembled::Call { id, kind, request, command: op == OpCode::Command, raw })
        },
        OpCode::Place => match child {
            None => Err(DecodeError::Missing(OpField::Child)),
            Some(child) => Ok(
                Assembled::Op(Op::Place { parent: flatten(parent), child, before: flatten(before) }),
            ),
        },
        _ => {
            let id = match id {
                None => {
                    return Err(DecodeError::Missing(OpField::Id));
                },
                Some(id) => id,
            };
            match op {
                OpCode::Create | OpCode::Props => {
                    let kind = match kind {
                        None => {
                            return Err(DecodeError::Missing(OpField::Component));
                        },
                        Some(k) => k,
                    };
                    let props = match props {
                        None => {
                            return Err(DecodeError::Missing(OpField::Props));
                        },
                        Some(p) => p,
                    };
                    if op == OpCode::Create {
                        let place = match parent {
                            Some(p) => Some((p, flatten(before))),
                            None => None,
                        };
                        Ok(
                            Assembled::Op(
                                Op::Create {
                                    id,
                                    kind,
                                    props,
                                    subscription: flatten(subscription),
                                    place,
                                },
                            ),
                        )
                    } else {
                        Ok(Assembled::Op(Op::Props { id, kind, props }))
                    }
                },
                OpCode::Listen => Ok(Assembled::Op(Op::Listen { id, subscription: flatten(subscription) })),
                OpCode::Remove => Ok(Assembled::Op(Op::Remove { id })),
                _ => match hidden {
                    None => Err(DecodeError::Missing(OpField::Hidden)),
                    Some(hidden) => Ok(Assembled::Op(Op::Hidden { id, hidden })),
                },
            }
        },
    }
}

/// How far past the end of the style table a new definition may reach.
pub const STYLE_SKIP: usize = 4096;

/// The definition a style table holds for an id, if any.
pub open spec fn style_at<S>(table: Seq<Option<S>>, id: u32) -> Option<S> {
    if (id as int) < table.len() {
        table[id as int]
    } else {
        None
    }
}

/// After recording `definition` for `id`, the id reads back as it and every
/// other id as before.
pub open spec fn installed<S>(before: Seq<Option<S>>, id: u32, definition: Option<S>, after: Seq<Option<S>>) -> bool {
    &&& style_at(after, id) == definition
    &&& forall|other: u32| other != id ==> #[trigger] style_at(after, other) == style_at(before, other)
}

/// What the last of `defs` that names `id` records for it, if one does.
pub open spec fn last_definition<S>(defs: Seq<(u32, Option<S>)>, id: u32) -> Option<Option<S>>
    decreases defs.len(),
{
    if defs.len() == 0 {
        None
    } else if defs.last().0 == id {
        Some(defs.last().1)
    } else {
        last_definition(defs.drop_last(), id)
    }
}

/// Across any run of style definitions and drops, in one transaction or over
/// many, an id reads back the last definition recorded for it (none after a
/// drop), and an id no step names reads as it did before the run.
pub proof fn lemma_last_definition_wins<S>(tables: Seq<Seq<Option<S>>>, defs: Seq<(u32, Option<S>)>, id: u32)
    requires
        tables.len() == defs.len() + 1,
        forall|k: int| 0 <= k < defs.len() ==> installed(tables[k], defs[k].0, defs[k].1, #[trigger] tables[k + 1]),
    ensures
        style_at(tables.last(), id) == match last_definition(defs, id) {
            Some(d) => d,
            None => style_at(tables[0], id),
        },
    decreases defs.len(),
{
    if defs.len() > 0 {
        let k = defs.len() - 1;
        assert(installed(tables[k], defs[k].0, defs[k].1, tables[k + 1]));
        lemma_last_definition_wins(tables.drop_last(), defs.drop_last(), id);
        assert(tables.drop_last().last() == tables[k]);
    }
}

/// The definition a props field's style id refers to, or `UnknownStyle` where
/// the table holds none for it.
pub fn resolve_style<S>(table: &Vec<Option<S>>, id: u32) -> (r: Result<&S, DecodeError>)
    ensures
        match r {
            Ok(s) => style_at(table@, id) == Some(*s),
            Err(e) => style_at(table@, id) is None && e == DecodeError::UnknownStyle(id),
        },
{
    if (id as usize) < table.len() {
        match &table[id as usize] {
            Some(s) => Ok(s),
            None => Err(DecodeError::UnknownStyle(id)),
        }
    } else {
        Err(DecodeError::UnknownStyle(id))
    }
}

/// Records a style definition, or drops one with `None`. Dropping an id past
/// the table's end changes nothing; defining one grows the table. Once it
/// succeeds, the id reads back as `definition` and every other id as before.
pub fn install<S>(table: &mut Vec<Option<S>>, id: u32, definition: Option<S>) -> (r: Result<(), DecodeError>)
    ensures
        r is Ok ==> installed(old(table)@, id, definition, final(table)@),
        r is Err ==> final(table)@ == old(table)@,
        ({
            let len = old(table)@.len();
            if (id as int) >= len && definition is None {
                r is Ok && final(table)@ == old(table)@
            } else if (id as int) > len + STYLE_SKIP {
                r == Err::<(), DecodeError>(DecodeError::StyleSkipsTooFar) && final(table)@ == old(table)@
            } else {
                &&& r is Ok
                &&& final(table)@.len() == if (id as int) < len {
                    len as int
                } else {
                    id + 1
                }
                &&& final(table)@[id as int] == definition
                &&& forall|i: int|
                    0 <= i < final(table)@.len() && i != id ==> #[trigger] final(table)@[i] == if i < len {
                        old(table)@[i]
                    } else {
                        None::<S>
                    }
            }
        }),
{
    let slot = id as usize;
    let len = table.len();
    if slot >= len {
        if definition.is_none() {
            return Ok(());
        }
        if slot - len > STYLE_SKIP {
            return Err(DecodeError::StyleSkipsTooFar);
        }
        while table.len() <= slot
            invariant
                len == old(table)@.len(),
                len <= table@.len() <= slot + 1,
                forall|i: int| 0 <= i < len ==> #[trigger] table@[i] == old(table)@[i],
                forall|i: int| len <= i < table@.len() ==> #[trigger] table@[i] == None::<S>,
            decreases slot + 1 - table@.len(),
        {
            table.push(None);
        }
    }
    table.set(slot, definition);
    Ok(())
}

/// The transaction an object's fields make: version 1, with a sequence
/// number and operations.
pub fn transaction<P>(version: Option<u32>, sequence: Option<u64>, operations: Option<Vec<Op<P>>>) -> (r: Result<
    Prepared<P>,
    DecodeError,
>)
    ensures
        match r {
            Ok(p) => version == Some(1u32) && sequence == Some(p.sequence) && operations is Some
                && p.operations@ == operations->0@,
            Err(e) => if version != Some(1u32) {
                e == DecodeError::UnsupportedVersion
            } else if sequence is None {
                e == DecodeError::MissingSequence
            } else {
                operations is None && e == DecodeError::MissingOperations
            },
        },
{
    match version {
        Some(1) => {},
        _ => {
            return Err(DecodeError::UnsupportedVersion);
        },
    }
    let sequence = match sequence {
        None => {
            return Err(DecodeError::MissingSequence);
        },
        Some(s) => s,
    };
    match operations {
        None => Err(DecodeError::MissingOperations),
        Some(ops) => Ok(Prepared::new(sequence, ops)),
    }
}

} // verus!
