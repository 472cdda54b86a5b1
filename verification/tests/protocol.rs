use gpui_react::controls::{register, register_builtins, register_kit};
use gpui_react::decode::{assemble, install, op_code, resolve_style, op_field, transaction, tx_field, Assembled, DecodeError, OpCode, OpField, OperationFields, TxField};
use gpui_react::protocol::{CallResult, Shared, SharedDefinition, Transaction};
use std::sync::Arc;
use gpui_react::registry::{kinds_known, Capabilities, Op, Registration, Registry, RegistryError};
use gpui_react::schema::{camel, derive_fields, wire_type, DeriveError, DerivedField, FieldDecl, ItemShape, TypeShape};
use gpui_react::search::{pattern, Matcher, Query, SearchError};
use gpui_react::style::{Align, Direction, NamedLength};
use gpui_react::wire::{check_fields, ErrorKind, Field, FieldValue, PropsReader, Reader, Schema, WireType};

fn named(name: &str) -> Registration {
    Registration { name: name.to_string(), capabilities: Capabilities::default(), schema: Schema::Tagged }
}

#[test]
fn registration_checks_names_duplicates_and_capabilities() {
    let mut registry = Registry::new();
    assert_eq!(registry.register(named("counter")), Ok(0));
    assert_eq!(registry.register(named("counter")), Err(RegistryError::Duplicate("counter".to_string())));
    assert_eq!(registry.register(named("Bad Name")), Err(RegistryError::InvalidName));
    assert!(!registry.supports("counter", "events").unwrap());
    assert!(registry.supports("missing", "events").is_err());
    assert_eq!(registry.capabilities("missing"), Err(RegistryError::Unknown("missing".to_string())));
    assert_eq!(RegistryError::Unknown("missing".to_string()).message(), "unknown component missing");
    assert_eq!(RegistryError::Duplicate("counter".to_string()).message(), "duplicate component counter");
    assert_eq!(registry.kind("counter"), Ok(0));
    assert_eq!(registry.len(), 1);
}

#[test]
fn controls_register_in_order_and_twice_fails() {
    let mut registry = Registry::new();
    assert_eq!(register(&mut registry, Schema::Tagged, Schema::Tagged, Schema::Tagged, Schema::Tagged), Ok(()));
    assert_eq!(registry.kind("list"), Ok(0));
    assert_eq!(registry.kind("input"), Ok(3));
    let text = registry.capabilities("text").unwrap();
    assert!(text.queries && text.view && !text.events && !text.children);
    assert!(registry.capabilities("container").unwrap().children);
    assert_eq!(registry.supports("list", "children"), Ok(true));
    assert_eq!(registry.supports("text", "commands"), Ok(false));
    assert_eq!(registry.supports("list", "scrolling"), Ok(false));
    assert_eq!(
        register(&mut registry, Schema::Tagged, Schema::Tagged, Schema::Tagged, Schema::Tagged),
        Err(RegistryError::Duplicate("list".to_string()))
    );
    assert_eq!(registry.len(), 4);
}

#[test]
fn builtins_register_host_elements_and_stop_at_the_first_refusal() {
    let mut registry = Registry::new();
    registry.register(named("container")).unwrap();
    let r = register_builtins(&mut registry, Schema::Tagged, Schema::Tagged, Schema::Tagged, Schema::Tagged, Schema::Tagged);
    assert_eq!(r, Err(RegistryError::Duplicate("container".to_string())));
    // `document` and `list` went in before the refusal.
    assert_eq!(registry.kind("document"), Ok(1));
    assert_eq!(registry.kind("list"), Ok(2));
    assert!(registry.kind("text").is_err());
    let mut fresh = Registry::new();
    assert_eq!(register_builtins(&mut fresh, Schema::Tagged, Schema::Tagged, Schema::Tagged, Schema::Tagged, Schema::Tagged), Ok(()));
    assert!(!fresh.capabilities("container").unwrap().view);
    assert!(fresh.capabilities("document").unwrap().view);
}

fn query(text: &str, regex: bool, case_sensitive: bool, whole_word: bool) -> Query {
    Query { query: text.to_string(), regex, case_sensitive, whole_word }
}

#[test]
fn search_validates_regex_and_never_matches_empty_ranges() {
    assert!(matches!(Matcher::new(query("[", true, false, false)), Err(SearchError::Pattern(_))));
    let matcher = Matcher::new(query("token|$", true, false, false)).unwrap();
    assert_eq!(matcher.ranges("token token"), vec![0..5, 6..11]);
    let empty = Matcher::new(query("", false, false, false)).unwrap();
    assert!(empty.ranges("anything").is_empty());
}

#[test]
fn a_refused_expression_reports_the_regex_error() {
    let expected = regex::RegexBuilder::new("[").case_insensitive(true).build().unwrap_err().to_string();
    assert!(!expected.is_empty());
    assert_eq!(Matcher::new(query("[", true, false, false)).err(), Some(SearchError::Pattern(expected)));
}

#[test]
fn literal_case_word_and_unicode_matching() {
    let matcher = Matcher::new(query("TOKEN", false, false, true)).unwrap();
    assert_eq!(matcher.ranges("token tokens TOKEN"), vec![0..5, 13..18]);
    let matcher = Matcher::new(query("[😀]", false, false, false)).unwrap();
    assert_eq!(matcher.ranges("x [😀] y"), vec![2..8]);
    let matcher = Matcher::new(query("é", false, true, false)).unwrap();
    assert_eq!(matcher.ranges("Éé"), vec![2..4]);
}

#[test]
fn patterns_escape_literals_and_wrap_whole_words() {
    assert_eq!(pattern(&query("a.b", false, false, false)), "a\\.b");
    assert_eq!(pattern(&query("a.b", true, false, false)), "a.b");
    assert_eq!(pattern(&query("x", false, false, true)), "\\b(?:x)\\b");
}

#[test]
fn style_keywords_parse_their_wire_names() {
    assert_eq!(NamedLength::parse("100%"), Some(NamedLength::Fill));
    assert_eq!(NamedLength::parse("auto"), Some(NamedLength::Auto));
    assert_eq!(NamedLength::parse("fill"), None);
    assert_eq!(Direction::parse("rowReverse"), Some(Direction::RowReverse));
    assert_eq!(Direction::parse("row-reverse"), None);
    assert_eq!(Align::parse("stretch"), Some(Align::Stretch));
    for d in [Direction::Row, Direction::Column, Direction::RowReverse, Direction::ColumnReverse] {
        assert_eq!(Direction::parse(d.name()), Some(d));
    }
    for a in [Align::Start, Align::Center, Align::End, Align::Stretch] {
        assert_eq!(Align::parse(a.name()), Some(a));
    }
    assert_eq!(NamedLength::Fill.name(), "100%");
}

#[test]
fn transactions_measure_their_encoded_text() {
    let t = Transaction::from_encoded("{\"é\":1}".to_string());
    assert_eq!(t.len(), 8);
    assert!(!t.is_empty());
    assert!(Transaction::from_encoded(String::new()).is_empty());
    assert_eq!(t.as_str(), "{\"é\":1}");
    let shared = Shared::new(5u32);
    assert_eq!(**shared.as_arc(), 5);
}

fn decl(ident: &str, ty: TypeShape) -> FieldDecl {
    FieldDecl { ident: ident.to_string(), skip: false, default: false, rename: None, flatten: false, ty }
}

fn path(name: &str) -> TypeShape {
    TypeShape::Path { name: name.to_string(), argument: None }
}

fn wrapped(name: &str, inner: TypeShape) -> TypeShape {
    TypeShape::Path { name: name.to_string(), argument: Some(Box::new(inner)) }
}

fn expect(name: &str, kind: WireType, required: bool) -> DerivedField {
    DerivedField { name: name.to_string(), kind, required }
}

#[test]
fn derive_maps_types_names_and_required() {
    let mut defaulted = decl("defaulted", path("u32"));
    defaulted.default = true;
    let mut renamed = decl("original_name", path("bool"));
    renamed.rename = Some("renamed".to_string());
    let mut hidden = decl("hidden", path("u32"));
    hidden.skip = true;
    let fields = vec![
        decl("flag", path("bool")),
        decl("count", path("usize")),
        decl("signed", path("i32")),
        decl("ratio", path("f32")),
        decl("wide", path("f64")),
        decl("text", path("String")),
        decl("shared", path("SharedString")),
        decl("style", wrapped("Shared", path("Style"))),
        decl("maybe_text", wrapped("Option", path("String"))),
        defaulted,
        renamed,
        hidden,
        decl("tree", wrapped("Vec", path("u32"))),
        decl("boxed", wrapped("Box", path("f32"))),
    ];
    let want = vec![
        expect("flag", WireType::Bool, true),
        expect("count", WireType::U32, true),
        expect("signed", WireType::I32, true),
        expect("ratio", WireType::F32, true),
        expect("wide", WireType::F64, true),
        expect("text", WireType::Str, true),
        expect("shared", WireType::Str, true),
        expect("style", WireType::Style, true),
        expect("maybeText", WireType::Str, false),
        expect("defaulted", WireType::U32, false),
        expect("renamed", WireType::Bool, true),
        expect("tree", WireType::Value, true),
        expect("boxed", WireType::F32, true),
    ];
    assert_eq!(derive_fields(false, true, ItemShape::Named(fields)), Ok(want));
    let all_default = derive_fields(true, false, ItemShape::Named(vec![decl("value", path("u32"))])).unwrap();
    assert!(!all_default[0].required);
    assert_eq!(derive_fields(false, false, ItemShape::Unit), Ok(vec![]));
    assert_eq!(derive_fields(false, false, ItemShape::Unnamed), Err(DeriveError::UnnamedFields));
    assert_eq!(derive_fields(false, false, ItemShape::NotStruct), Err(DeriveError::NotStruct));
    let mut flat = decl("inner", path("Inner"));
    flat.flatten = true;
    assert_eq!(
        derive_fields(false, false, ItemShape::Named(vec![flat])),
        Err(DeriveError::Flattened("inner".to_string()))
    );
    assert_eq!(camel("r_hello_world"), "rHelloWorld");
    assert_eq!(camel("already"), "already");
    assert_eq!(wire_type(&wrapped("Option", wrapped("Arc", path("i64")))), (WireType::I32, true));
    assert_eq!(wire_type(&path("Option")), (WireType::Value, true));
    assert_eq!(wire_type(&TypeShape::Other), (WireType::Value, false));
    let raw = derive_fields(false, false, ItemShape::Named(vec![decl("r#type", path("bool"))])).unwrap();
    assert_eq!(raw[0].name, "type");
}

#[test]
fn positional_style_id_resolves() {
    // mask 0b01, style id 0, then the trailer: key count 0, table offset.
    let bytes = [1u8, 0, 0, 0, 0, 0, 0, 5, 0, 0, 0];
    let mut reader = Reader::new(&bytes).unwrap();
    let fields = PropsReader {
        fields: vec![
            Field { name: "style", kind: WireType::Style, required: false },
            Field { name: "search", kind: WireType::Value, required: false },
        ],
    };
    let mut styles: Vec<Option<String>> = Vec::new();
    install(&mut styles, 0, Some("default".to_string())).unwrap();
    let values = fields.read(&mut reader, &styles).unwrap();
    assert_eq!(values.len(), 1);
    assert_eq!(values[0].0, "style");
    assert!(matches!(values[0].1, FieldValue::Style(0)));
    assert_eq!(resolve_style(&styles, 0), Ok(&"default".to_string()));
    assert!(reader.finished());
}

#[test]
fn a_positional_style_id_without_a_definition_is_refused() {
    let bytes = [1u8, 3, 0, 0, 0, 0, 0, 5, 0, 0, 0];
    let fields = PropsReader { fields: vec![Field { name: "style", kind: WireType::Style, required: false }] };
    let mut styles: Vec<Option<String>> = Vec::new();
    install(&mut styles, 3, Some("late".to_string())).unwrap();
    let mut reader = Reader::new(&bytes).unwrap();
    assert!(matches!(fields.read(&mut reader, &styles).unwrap()[0].1, FieldValue::Style(3)));
    install(&mut styles, 3, None).unwrap();
    let mut reader = Reader::new(&bytes).unwrap();
    let error = fields.read(&mut reader, &styles).err().unwrap();
    assert_eq!(error.kind, ErrorKind::UnknownStyle(3));
    assert_eq!(error.message(), "unknown style 3");
}

#[test]
fn operation_names_and_fields_decode_exactly() {
    assert_eq!(op_code("dropStyle"), Some(OpCode::DropStyle));
    assert_eq!(op_code("drop_style"), None);
    assert_eq!(op_field("subscription"), Some(OpField::Subscription));
    assert_eq!(tx_field("operations"), Some(TxField::Operations));
    assert_eq!(tx_field("ops"), None);

    let mut fields: OperationFields<u8, u8, u8> = OperationFields::new();
    fields.op = Some(OpCode::Create);
    fields.id = Some(4);
    fields.kind = Some(1);
    assert!(matches!(assemble(fields), Err(DecodeError::Missing(OpField::Props))));

    let mut fields: OperationFields<u8, u8, u8> = OperationFields::new();
    fields.op = Some(OpCode::Create);
    fields.id = Some(4);
    fields.kind = Some(1);
    fields.props = Some(9);
    fields.parent = Some(None);
    match assemble(fields) {
        Ok(Assembled::Op(Op::Create { id, kind, props, subscription, place })) => {
            assert_eq!((id, kind, props, subscription, place), (4, 1, 9, None, Some((None, None))));
        }
        _ => panic!("expected a create"),
    }

    let mut fields: OperationFields<u8, u8, u8> = OperationFields::new();
    fields.op = Some(OpCode::Place);
    assert!(matches!(assemble(fields), Err(DecodeError::Missing(OpField::Child))));
    let fields: OperationFields<u8, u8, u8> = OperationFields::new();
    assert!(matches!(assemble(fields), Err(DecodeError::Missing(OpField::Op))));
}

#[test]
fn transactions_need_version_one_a_sequence_and_operations() {
    let ok = transaction::<u8>(Some(1), Some(7), Some(vec![])).unwrap();
    assert_eq!(ok.sequence, 7);
    assert!(matches!(transaction::<u8>(Some(2), Some(7), Some(vec![])), Err(DecodeError::UnsupportedVersion)));
    assert!(matches!(transaction::<u8>(Some(1), None, Some(vec![])), Err(DecodeError::MissingSequence)));
    assert!(matches!(transaction::<u8>(Some(1), Some(7), None), Err(DecodeError::MissingOperations)));
}

#[test]
fn style_table_grows_to_an_id_and_refuses_far_skips() {
    let mut table: Vec<Option<u8>> = Vec::new();
    assert_eq!(install(&mut table, 2, Some(5)), Ok(()));
    assert_eq!(table, vec![None, None, Some(5)]);
    assert_eq!(install(&mut table, 9, None), Ok(()));
    assert_eq!(table.len(), 3);
    assert_eq!(install(&mut table, 2, None), Ok(()));
    assert_eq!(table, vec![None, None, None]);
    assert_eq!(install(&mut table, 3 + 4097, Some(1)), Err(DecodeError::StyleSkipsTooFar));
    assert_eq!(install(&mut table, 3 + 4096, Some(1)), Ok(()));
}

#[test]
fn a_style_id_reads_back_its_last_definition_until_dropped() {
    let mut table: Vec<Option<u8>> = Vec::new();
    assert_eq!(resolve_style(&table, 0), Err(DecodeError::UnknownStyle(0)));
    install(&mut table, 1, Some(7)).unwrap();
    assert_eq!(resolve_style(&table, 1), Ok(&7));
    install(&mut table, 1, Some(8)).unwrap();
    assert_eq!(resolve_style(&table, 1), Ok(&8));
    assert_eq!(resolve_style(&table, 0), Err(DecodeError::UnknownStyle(0)));
    install(&mut table, 1, None).unwrap();
    let dropped = resolve_style(&table, 1).unwrap_err();
    assert_eq!(dropped, DecodeError::UnknownStyle(1));
    assert_eq!(dropped.message(), "unknown style 1");
    assert_eq!(resolve_style(&table, 40), Err(DecodeError::UnknownStyle(40)));
}

#[test]
fn verify_rejects_a_mismatch() {
    let schema = Schema::Fields(vec![
        Field { name: "b", kind: WireType::U32, required: true },
        Field { name: "a", kind: WireType::U32, required: true },
    ]);
    let serde_order = vec!["a".to_string(), "b".to_string()];
    let error = check_fields(&schema, Some(&serde_order)).unwrap_err();
    assert_eq!(error.kind, ErrorKind::FieldsDiffer);
    assert!(error.message().contains("differ"));
    let same = vec!["b".to_string(), "a".to_string()];
    assert!(check_fields(&schema, Some(&same)).is_ok());
    assert_eq!(check_fields(&schema, None).unwrap_err().kind, ErrorKind::FieldsWithoutStruct);
    assert!(check_fields(&Schema::Tagged, None).is_ok());
    assert!(check_fields(&Schema::Fields(vec![]), None).is_ok());
}

struct Theme(u8);

impl SharedDefinition for Theme {
    fn default_shared() -> Arc<Self> {
        Arc::new(Theme(7))
    }
}

#[test]
fn shared_values_default_to_the_definition_default() {
    let shared: Shared<Theme> = Shared::default();
    assert_eq!(shared.as_arc().0, 7);
    assert_eq!(Shared::new(Theme(2)).as_arc().0, 2);
}

#[test]
fn reader_takes_strings_and_rejects_broken_utf8() {
    // "hi" as a length-prefixed string, an empty key table, the table offset.
    let bytes = [2u8, 0, 0, 0, b'h', b'i', 0, 0, 6, 0, 0, 0];
    let mut reader = Reader::new(&bytes).unwrap();
    assert_eq!(reader.str().unwrap(), "hi");
    assert!(reader.finished());
    let broken = [1u8, 0, 0, 0, 0xff, 0, 0, 5, 0, 0, 0];
    let mut reader = Reader::new(&broken).unwrap();
    assert_eq!(reader.str().unwrap_err().kind, ErrorKind::NotUtf8);
    assert_eq!(Reader::new(&[1, 2]).err().map(|e| e.kind), Some(ErrorKind::Short));
}

#[test]
fn rows_reuse_freed_slots_last_freed_first() {
    let mut rows: gpui_react::registry::Rows<String> = gpui_react::registry::Rows::new();
    rows.reserve(4);
    assert_eq!(rows.insert("a".to_string()), 0);
    assert_eq!(rows.insert_with(|slot| format!("row {slot}")), 1);
    assert_eq!(rows.get(1), "row 1");
    rows.get_mut(0).push('!');
    assert_eq!(rows.get(0), "a!");
    assert_eq!(rows.remove(0), "a!");
    assert_eq!(rows.insert_with(|slot| format!("again {slot}")), 0);
    assert_eq!(rows.insert("c".to_string()), 2);
    assert_eq!(rows.remove(2), "c");
    assert_eq!(rows.remove(0), "again 0");
    assert_eq!(rows.insert("d".to_string()), 0);
    assert_eq!(rows.insert("e".to_string()), 2);
}

#[test]
fn a_failed_call_is_answered_with_its_message() {
    assert_eq!(CallResult::new(3, Ok::<u8, String>(1)), CallResult { request: 3, value: Some(1), error: None });
    assert_eq!(
        CallResult::new(4, Err::<u8, String>("no".to_string())),
        CallResult { request: 4, value: None, error: Some("no".to_string()) }
    );
}

#[test]
fn creations_must_name_registered_kinds() {
    let ops: Vec<Op<()>> = vec![Op::Create { id: 0, kind: 1, props: (), subscription: None, place: None }];
    assert!(kinds_known(&ops, 2));
    assert!(!kinds_known(&ops, 1));
    assert!(kinds_known(&Vec::<Op<()>>::new(), 0));
}

#[test]
fn a_cloned_shared_value_is_the_same_allocation() {
    let a = Shared::new(5u8);
    let b = a.clone();
    assert!(Arc::ptr_eq(a.as_arc(), b.as_arc()));
    assert_eq!(**b.as_arc(), 5);
}

#[test]
fn lib_schemas_match_serde() {
    let mut registry = Registry::new();
    register_kit(&mut registry, Schema::Tagged, Schema::Tagged).unwrap();
    let schema = registry.schema();
    assert_eq!(schema.iter().map(|k| k.name.as_str()).collect::<Vec<_>>(), ["document", "list", "container", "text", "input"]);
    let text = &schema[3];
    let Schema::Fields(fields) = &text.fields else { panic!("text has a positional schema") };
    assert_eq!(
        fields.iter().map(|f| f.name).collect::<Vec<_>>(),
        ["text", "style", "textKey", "selectable", "searchable", "matchIndexOffset", "measure"]
    );
    assert!(fields.iter().all(|f| !f.required), "every text prop has a default");
    assert_eq!(fields[1].kind, WireType::Style);
    assert_eq!(fields[5].kind, WireType::U32);
    assert_eq!(fields[0], Field { name: "text", kind: WireType::Str, required: false });
    assert!(text.capabilities.queries);
}

#[test]
fn register_kit_twice_fails() {
    let mut registry = Registry::new();
    register_kit(&mut registry, Schema::Tagged, Schema::Tagged).unwrap();
    assert!(register_kit(&mut registry, Schema::Tagged, Schema::Tagged).is_err());
}
