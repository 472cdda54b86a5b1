//! The standard controls' registrations: their names, capabilities and order,
//! and the positional props schemas of the `document`, `container` and `text`
//! controls, as their props types declare them.
use vstd::prelude::*;
use crate::registry::{Capabilities, Registration, Registry, RegistryError, registered};
use crate::wire::{Field, Schema, WireType};

verus! {

/// What a control accepts, as a `Capabilities` value.
pub open spec fn caps(children: bool, events: bool, commands: bool, queries: bool, view: bool) -> Capabilities {
    Capabilities { events, commands, queries, children, view }
}

/// `e` registers `name` with these capabilities and schema.
pub open spec fn registers(e: Registration, name: Seq<char>, c: Capabilities, schema: Schema) -> bool {
    e.name@ == name && e.capabilities == c && e.schema == schema
}

/// The native controls in the order they register: `list`, `container`,
/// `text` and `input`, all of them views.
pub open spec fn control_set(
    regs: Seq<Registration>,
    list: Schema,
    container: Schema,
    text: Schema,
    input: Schema,
) -> bool {
    &&& regs.len() == 4
    &&& registers(regs[0], "list"@, caps(true, true, true, true, true), list)
    &&& registers(regs[1], "container"@, caps(true, true, true, true, true), container)
    &&& registers(regs[2], "text"@, caps(false, false, false, true, true), text)
    &&& registers(regs[3], "input"@, caps(false, true, true, true, true), input)
}

/// The five built-in controls in the order they register: the `document` and
/// `list` views, the `container` and `text` host elements, and the `input` view.
pub open spec fn builtin_set(
    regs: Seq<Registration>,
    document: Schema,
    list: Schema,
    container: Schema,
    text: Schema,
    input: Schema,
) -> bool {
    &&& regs.len() == 5
    &&& registers(regs[0], "document"@, caps(true, true, true, true, true), document)
    &&& registers(regs[1], "list"@, caps(true, true, true, true, true), list)
    &&& registers(regs[2], "container"@, caps(true, true, true, true, false), container)
    &&& registers(regs[3], "text"@, caps(false, false, false, true, false), text)
    &&& registers(regs[4], "input"@, caps(false, true, true, true, true), input)
}

fn registration(name: &str, c: Capabilities, schema: Schema) -> (r: Registration)
    ensures
        registers(r, name@, c, schema),
{
    Registration { name: name.to_string(), capabilities: c, schema }
}

/// Registers the native controls, each with its props schema: `list`,
/// `container`, `text` and `input`. Stops at the first refusal.
pub fn register(
    registry: &mut Registry,
    list: Schema,
    container: Schema,
    text: Schema,
    input: Schema,
) -> (r: Result<(), RegistryError>)
    ensures
        exists|regs: Seq<Registration>|
            control_set(regs, list, container, text, input) && registered(
                old(registry).entries(),
                regs,
                final(registry).entries(),
                r,
            ),
{
    let all = Capabilities { events: true, commands: true, queries: true, children: true, view: true };
    let queries = Capabilities { events: false, commands: false, queries: true, children: false, view: true };
    let interactive = Capabilities { events: true, commands: true, queries: true, children: false, view: true };
    let mut regs: Vec<Registration> = Vec::new();
    regs.push(registration("list", all, list));
    regs.push(registration("container", all, container));
    regs.push(registration("text", queries, text));
    regs.push(registration("input", interactive, input));
    let ghost seqs = regs@;
    let r = registry.register_all(regs);
    assert(control_set(seqs, list, container, text, input));
    r
}

/// Registers the five built-in controls: `document`, `list`, `container`,
/// `text` and `input`, each with its props schema. Stops at the first refusal.
pub fn register_builtins(
    registry: &mut Registry,
    document: Schema,
    list: Schema,
    container: Schema,
    text: Schema,
    input: Schema,
) -> (r: Result<(), RegistryError>)
    ensures
        exists|regs: Seq<Registration>|
            builtin_set(regs, document, list, container, text, input) && registered(
                old(registry).entries(),
                regs,
                final(registry).entries(),
                r,
            ),
{
    let all = Capabilities { events: true, commands: true, queries: true, children: true, view: true };
    let element = Capabilities { events: true, commands: true, queries: true, children: true, view: false };
    let text_caps = Capabilities { events: false, commands: false, queries: true, children: false, view: false };
    let interactive = Capabilities { events: true, commands: true, queries: true, children: false, view: true };
    let mut regs: Vec<Registration> = Vec::new();
    regs.push(registration("document", all, document));
    regs.push(registration("list", all, list));
    regs.push(registration("container", element, container));
    regs.push(registration("text", text_caps, text));
    regs.push(registration("input", interactive, input));
    let ghost seqs = regs@;
    let r = registry.register_all(regs);
    assert(builtin_set(seqs, document, list, container, text, input));
    r
}

/// A positional schema's fields as values: wire name, wire type, and whether
/// the prop must be present; `None` for a tagged schema.
pub open spec fn schema_fields(s: Schema) -> Option<Seq<(Seq<char>, WireType, bool)>> {
    match s {
        Schema::Fields(v) => Some(v@.map_values(|f: Field| (f.name@, f.kind, f.required))),
        Schema::Tagged => None,
    }
}

/// The `text` control's props, in declaration order. Every prop has a
/// default, so none is required.
pub open spec fn text_fields() -> Seq<(Seq<char>, WireType, bool)> {
    seq![
        ("text"@, WireType::Str, false),
        ("style"@, WireType::Style, false),
        ("textKey"@, WireType::Str, false),
        ("selectable"@, WireType::Bool, false),
        ("searchable"@, WireType::Bool, false),
        ("matchIndexOffset"@, WireType::U32, false),
        ("measure"@, WireType::Bool, false),
    ]
}

/// The `container` control's props, in declaration order; none is required.
pub open spec fn container_fields() -> Seq<(Seq<char>, WireType, bool)> {
    seq![
        ("style"@, WireType::Style, false),
        ("scroll"@, WireType::Value, false),
        ("focusable"@, WireType::Bool, false),
        ("label"@, WireType::Str, false),
        ("scrollGroup"@, WireType::Str, false),
        ("blockMouse"@, WireType::Bool, false),
        ("measure"@, WireType::Bool, false),
    ]
}

/// The `document` control's props, in declaration order; none is required.
pub open spec fn document_fields() -> Seq<(Seq<char>, WireType, bool)> {
    seq![
        ("style"@, WireType::Style, false),
        ("search"@, WireType::Value, false),
        ("selectionColor"@, WireType::Value, false),
    ]
}

fn field(name: &'static str, kind: WireType) -> (f: Field)
    ensures
        f.name@ == name@,
        f.kind == kind,
        !f.required,
{
    Field { name, kind, required: false }
}

/// The `text` control's positional props schema.
pub fn text_schema() -> (s: Schema)
    ensures
        schema_fields(s) == Some(text_fields()),
{
    let mut v: Vec<Field> = Vec::new();
    v.push(field("text", WireType::Str));
    v.push(field("style", WireType::Style));
    v.push(field("textKey", WireType::Str));
    v.push(field("selectable", WireType::Bool));
    v.push(field("searchable", WireType::Bool));
    v.push(field("matchIndexOffset", WireType::U32));
    v.push(field("measure", WireType::Bool));
    assert(v@.map_values(|f: Field| (f.name@, f.kind, f.required)) =~= text_fields());
    Schema::Fields(v)
}

/// The `container` control's positional props schema.
pub fn container_schema() -> (s: Schema)
    ensures
        schema_fields(s) == Some(container_fields()),
{
    let mut v: Vec<Field> = Vec::new();
    v.push(field("style", WireType::Style));
    v.push(field("scroll", WireType::Value));
    v.push(field("focusable", WireType::Bool));
    v.push(field("label", WireType::Str));
    v.push(field("scrollGroup", WireType::Str));
    v.push(field("blockMouse", WireType::Bool));
    v.push(field("measure", WireType::Bool));
    assert(v@.map_values(|f: Field| (f.name@, f.kind, f.required)) =~= container_fields());
    Schema::Fields(v)
}

/// The `document` control's positional props schema.
pub fn document_schema() -> (s: Schema)
    ensures
        schema_fields(s) == Some(document_fields()),
{
    let mut v: Vec<Field> = Vec::new();
    v.push(field("style", WireType::Style));
    v.push(field("search", WireType::Value));
    v.push(field("selectionColor", WireType::Value));
    assert(v@.map_values(|f: Field| (f.name@, f.kind, f.required)) =~= document_fields());
    Schema::Fields(v)
}

/// Registers the five built-in controls with the schemas their props types
/// declare for `document`, `container` and `text`, and the given ones for
/// `list` and `input`. Stops at the first refusal.
pub fn register_kit(registry: &mut Registry, list: Schema, input: Schema) -> (r: Result<(), RegistryError>)
    ensures
        exists|regs: Seq<Registration>, document: Schema, container: Schema, text: Schema|
            schema_fields(document) == Some(document_fields()) && schema_fields(container) == Some(
                container_fields(),
            ) && schema_fields(text) == Some(text_fields()) && builtin_set(
                regs,
                document,
                list,
                container,
                text,
                input,
            ) && registered(old(registry).entries(), regs, final(registry).entries(), r),
{
    let document = document_schema();
    let container = container_schema();
    let text = text_schema();
    let ghost (d, c, t) = (document, container, text);
    let r = register_builtins(registry, document, list, container, text, input);
    assert(schema_fields(d) == Some(document_fields()));
    r
}

} // verus!
