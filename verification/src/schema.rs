//! How a props struct's wire schema follows from its declaration, the way
//! serde reads the same struct: each field's wire name (renamed, or
//! camel-cased for `rename_all = "camelCase"`), its wire type from its Rust
//! type, and whether it must be present.
use vstd::prelude::*;
use crate::text::str_eq;
use crate::wire::WireType;

verus! {

/// A Rust type as far as the wire cares: the last segment of a path with its
/// first generic type argument, or anything else.
#[derive(Debug)]
pub enum TypeShape {
    Path { name: String, argument: Option<Box<TypeShape>> },
    Other,
}

/// The wire type of a plain type name.
pub open spec fn named_wire(n: Seq<char>) -> WireType {
    if n == "bool"@ {
        WireType::Bool
    } else if n == "i8"@ || n == "i16"@ || n == "i32"@ || n == "i64"@ || n == "isize"@ {
        WireType::I32
    } else if n == "u8"@ || n == "u16"@ || n == "u32"@ || n == "u64"@ || n == "usize"@ {
        WireType::U32
    } else if n == "f32"@ {
        WireType::F32
    } else if n == "f64"@ {
        WireType::F64
    } else if n == "String"@ || n == "SharedString"@ || n == "str"@ || n == "Cow"@ || n
        == "PathBuf"@ {
        WireType::Str
    } else if n == "Shared"@ {
        WireType::Style
    } else {
        WireType::Value
    }
}

/// A pointer type that the wire sees through.
pub open spec fn is_pointer(n: Seq<char>) -> bool {
    n == "Box"@ || n == "Arc"@ || n == "Rc"@
}

/// The wire type of a Rust type, and whether the type is optional: `Option`
/// makes its argument optional, `Box`, `Arc` and `Rc` are seen through.
pub open spec fn wire_of(t: TypeShape) -> (WireType, bool)
    decreases t,
{
    match t {
        TypeShape::Other => (WireType::Value, false),
        TypeShape::Path { name, argument } => {
            if name@ == "Option"@ {
                match argument {
                    Some(a) => (wire_of(*a).0, true),
                    None => (WireType::Value, true),
                }
            } else if is_pointer(name@) {
                match argument {
                    Some(a) => wire_of(*a),
                    None => (WireType::Value, false),
                }
            } else {
                (named_wire(name@), false)
            }
        },
    }
}

fn named_wire_type(n: &str) -> (r: WireType)
    ensures
        r == named_wire(n@),
{
    if str_eq(n, "bool") {
        WireType::Bool
    } else if str_eq(n, "i8") || str_eq(n, "i16") || str_eq(n, "i32") || str_eq(n, "i64")
        || str_eq(n, "isize") {
        WireType::I32
    } else if str_eq(n, "u8") || str_eq(n, "u16") || str_eq(n, "u32") || str_eq(n, "u64")
        || str_eq(n, "usize") {
        WireType::U32
    } else if str_eq(n, "f32") {
        WireType::F32
    } else if str_eq(n, "f64") {
        WireType::F64
    } else if str_eq(n, "String") || str_eq(n, "SharedString") || str_eq(n, "str") || str_eq(
        n,
        "Cow",
    ) || str_eq(n, "PathBuf") {
        WireType::Str
    } else if str_eq(n, "Shared") {
        WireType::Style
    } else {
        WireType::Value
    }
}

/// The wire type of a field type, and whether the type is optional.
pub fn wire_type(ty: &TypeShape) -> (r: (WireType, bool))
    ensures
        r == wire_of(*ty),
    decreases ty,
{
    match ty {
        TypeShape::Other => (WireType::Value, false),
        TypeShape::Path { name, argument } => {
            if str_eq(name.as_str(), "Option") {
                match argument {
                    Some(a) => (wire_type(a).0, true),
                    None => (WireType::Value, true),
                }
            } else if str_eq(name.as_str(), "Box") || str_eq(name.as_str(), "Arc") || str_eq(
                name.as_str(),
                "Rc",
            ) {
                match argument {
                    Some(a) => wire_type(a),
                    None => (WireType::Value, false),
                }
            } else {
                (named_wire_type(name.as_str()), false)
            }
        },
    }
}

/// What `char::to_uppercase` yields for a character: Unicode's full
/// uppercase mapping, one or more characters.
pub uninterp spec fn uppercase(c: char) -> Seq<char>;

/// `char::to_uppercase`, collected into a string.
#[verifier::external_body]
fn upper(c: char) -> (r: String)
    ensures
        r@ == uppercase(c),
{
    c.to_uppercase().collect()
}

/// `char::to_string`: the documentation promises a string of that one character.
#[verifier::external_body]
fn char_string(c: char) -> (r: String)
    ensures
        r@ == seq![c],
{
    c.to_string()
}

/// `snake_case` to `camelCase`: underscores go, and the character after an
/// underscore is uppercased. `upper` says whether the last character dropped
/// was an underscore.
pub open spec fn camel_from(s: Seq<char>, upper: bool) -> Seq<char>
    decreases s.len(),
{
    if s.len() == 0 {
        Seq::empty()
    } else if s[0] == '_' {
        camel_from(s.drop_first(), true)
    } else if upper {
        uppercase(s[0]) + camel_from(s.drop_first(), false)
    } else {
        seq![s[0]] + camel_from(s.drop_first(), false)
    }
}

/// A part of a name without underscores comes through unchanged, and an
/// underscore followed by a character becomes that character uppercased:
/// `camel_from(p + "_" + x + t) == p + uppercase(x) + camel_from(t)`.
pub proof fn lemma_camel_parts(p: Seq<char>, x: char, t: Seq<char>)
    requires
        forall|i: int| 0 <= i < p.len() ==> #[trigger] p[i] != '_',
        x != '_',
    ensures
        camel_from(p, false) == p,
        camel_from(p + seq!['_', x] + t, false) == p + uppercase(x) + camel_from(t, false),
    decreases p.len(),
{
    if p.len() == 0 {
        assert(seq!['_', x] + t =~= p + seq!['_', x] + t);
        assert((seq!['_', x] + t).drop_first() =~= seq![x] + t);
        assert((seq![x] + t).drop_first() =~= t);
        assert((seq!['_', x] + t)[0] == '_');
        assert((seq![x] + t)[0] == x);
        assert(camel_from(seq![x] + t, true) == uppercase(x) + camel_from(t, false));
        assert(camel_from(seq!['_', x] + t, false) == camel_from(seq![x] + t, true));
        assert(p + uppercase(x) + camel_from(t, false) =~= uppercase(x) + camel_from(t, false));
    } else {
        let rest = p.drop_first();
        assert forall|i: int| 0 <= i < rest.len() implies #[trigger] rest[i] != '_' by {
            assert(rest[i] == p[i + 1]);
        }
        lemma_camel_parts(rest, x, t);
        assert((p + seq!['_', x] + t).drop_first() =~= rest + seq!['_', x] + t);
        assert((p + seq!['_', x] + t)[0] == p[0]);
        assert(seq![p[0]] + rest =~= p);
        assert(seq![p[0]] + (rest + uppercase(x) + camel_from(t, false)) =~= p + uppercase(x) + camel_from(t, false));
    }
}

/// The camel-case form of a field name, as serde's `rename_all = "camelCase"`
/// writes it.
pub fn camel(name: &str) -> (r: String)
    ensures
        r@ == camel_from(name@, false),
{
    let n = name.unicode_len();
    let mut out = String::new();
    let mut upper_next = false;
    let mut i: usize = 0;
    proof {
        assert(name@.skip(0) =~= name@);
    }
    while i < n
        invariant
            n == name@.len(),
            i <= n,
            out@ + camel_from(name@.skip(i as int), upper_next) == camel_from(name@, false),
        decreases n - i,
    {
        let c = name.get_char(i);
        proof {
            assert(name@.skip(i as int)[0] == c);
            assert(name@.skip(i as int).drop_first() =~= name@.skip(i + 1));
        }
        if c == '_' {
            upper_next = true;
        } else if upper_next {
            let u = upper(c);
            out.append(u.as_str());
            upper_next = false;
            proof {
                assert(out@ + camel_from(name@.skip(i + 1), false) =~= camel_from(name@, false));
            }
        } else {
            let t = char_string(c);
            out.append(t.as_str());
            proof {
                assert(out@ + camel_from(name@.skip(i + 1), false) =~= camel_from(name@, false));
            }
        }
        i = i + 1;
    }
    proof {
        assert(name@.skip(n as int).len() == 0);
        assert(out@ + Seq::<char>::empty() =~= out@);
    }
    out
}

/// A named field as the derive reads it: its identifier, its serde
/// attributes and its type.
#[derive(Debug)]
pub struct FieldDecl {
    pub ident: String,
    /// `skip` or `skip_deserializing`.
    pub skip: bool,
    pub default: bool,
    pub rename: Option<String>,
    pub flatten: bool,
    pub ty: TypeShape,
}

/// The fields of the item the derive is applied to.
#[derive(Debug)]
pub enum ItemShape {
    Named(Vec<FieldDecl>),
    Unit,
    Unnamed,
    NotStruct,
}

/// One schema entry: wire name, wire type, whether it must be present.
#[derive(Debug, Clone, PartialEq, Eq)]
pub struct DerivedField {
    pub name: String,
    pub kind: WireType,
    pub required: bool,
}

/// Why no schema can be derived.
#[derive(Debug, Clone, PartialEq, Eq)]
pub enum DeriveError {
    /// The item is not a struct.
    NotStruct,
    /// The struct's fields have no names.
    UnnamedFields,
    /// This field is flattened.
    Flattened(String),
}

impl DeriveError {
    /// The message the derive reports.
    pub fn message(&self) -> (r: String)
        ensures
            r@ == match *self {
                DeriveError::NotStruct => "ComponentProps is for structs"@,
                DeriveError::UnnamedFields => "ComponentProps needs named fields"@,
                DeriveError::Flattened(_) => "ComponentProps does not support flattened fields"@,
            },
    {
        match self {
            DeriveError::NotStruct => "ComponentProps is for structs".to_string(),
            DeriveError::UnnamedFields => "ComponentProps needs named fields".to_string(),
            DeriveError::Flattened(_) => "ComponentProps does not support flattened fields".to_string(),
        }
    }
}

/// A field identifier without its raw `r#` prefix.
pub open spec fn unraw(ident: Seq<char>) -> Seq<char> {
    if ident.len() >= 2 && ident[0] == 'r' && ident[1] == '#' {
        ident.skip(2)
    } else {
        ident
    }
}

/// The wire name of a field: its rename, else its identifier, camel-cased
/// when the struct asks for it.
pub open spec fn wire_name(f: FieldDecl, camel_case: bool) -> Seq<char> {
    match f.rename {
        Some(n) => n@,
        None => if camel_case {
            camel_from(unraw(f.ident@), false)
        } else {
            unraw(f.ident@)
        },
    }
}

/// The schema entry a field that is neither skipped nor flattened gives.
pub open spec fn entry_of(f: FieldDecl, all_default: bool, camel_case: bool, e: DerivedField) -> bool {
    &&& e.name@ == wire_name(f, camel_case)
    &&& e.kind == wire_of(f.ty).0
    &&& e.required == !(all_default || f.default || wire_of(f.ty).1)
}

/// The schema of `fields`, skipping skipped fields, or `None` when a field
/// that is not skipped is flattened.
pub open spec fn derived(
    fields: Seq<FieldDecl>,
    all_default: bool,
    camel_case: bool,
    out: Seq<DerivedField>,
) -> bool
    decreases fields.len(),
{
    if fields.len() == 0 {
        out.len() == 0
    } else {
        let f = fields.last();
        if f.skip {
            derived(fields.drop_last(), all_default, camel_case, out)
        } else {
            out.len() > 0 && entry_of(f, all_default, camel_case, out.last()) && derived(
                fields.drop_last(),
                all_default,
                camel_case,
                out.drop_last(),
            )
        }
    }
}

/// Field `k` is the first one that is flattened and not skipped.
pub open spec fn first_flattened(fields: Seq<FieldDecl>, k: int) -> bool {
    0 <= k < fields.len() && fields[k].flatten && !fields[k].skip && forall|j: int|
        0 <= j < k ==> !(#[trigger] fields[j]).flatten || fields[j].skip
}

fn strip_raw(ident: &str) -> (r: String)
    ensures
        r@ == unraw(ident@),
{
    let n = ident.unicode_len();
    if n >= 2 && ident.get_char(0) == 'r' && ident.get_char(1) == '#' {
        ident.substring_char(2, n).to_string()
    } else {
        ident.to_string()
    }
}

/// The positional schema a props struct declares, as the derive emits it:
/// fields in order, skipped ones left out, each named as serde names it, typed
/// by its Rust type, and required unless the struct or the field has a
/// default or the type is optional.
pub fn derive_fields(all_default: bool, camel_case: bool, item: ItemShape) -> (r: Result<Vec<DerivedField>, DeriveError>)
    ensures
        item is NotStruct ==> r == Err::<Vec<DerivedField>, DeriveError>(DeriveError::NotStruct),
        item is Unnamed ==> r == Err::<Vec<DerivedField>, DeriveError>(DeriveError::UnnamedFields),
        item is Unit ==> (r matches Ok(v) && v@.len() == 0),
        item matches ItemShape::Named(fields) ==> match r {
            Ok(v) => derived(fields@, all_default, camel_case, v@) && forall|k: int|
                !first_flattened(fields@, k),
            Err(e) => exists|k: int|
                first_flattened(fields@, k) && e == DeriveError::Flattened(e->Flattened_0)
                    && e->Flattened_0@ == fields@[k].ident@,
        },
{
    let ghost given = item;
    let fields = match item {
        ItemShape::Named(fields) => fields,
        ItemShape::Unit => return Ok(Vec::new()),
        ItemShape::Unnamed => return Err(DeriveError::UnnamedFields),
        ItemShape::NotStruct => return Err(DeriveError::NotStruct),
    };
    let mut out: Vec<DerivedField> = Vec::new();
    let mut i: usize = 0;
    while i < fields.len()
        invariant
            given == ItemShape::Named(fields),
            given == item,
            i <= fields@.len(),
            derived(fields@.take(i as int), all_default, camel_case, out@),
            forall|j: int| 0 <= j < i ==> !(#[trigger] fields@[j]).flatten || fields@[j].skip,
        decreases fields@.len() - i,
    {
        let f = &fields[i];
        proof {
            assert(fields@.take(i + 1).drop_last() =~= fields@.take(i as int));
            assert(fields@.take(i + 1).last() == fields@[i as int]);
        }
        if f.skip {
            i = i + 1;
            continue;
        }
        if f.flatten {
            let ident = f.ident.clone();
            let err = DeriveError::Flattened(ident);
            proof {
                assert(first_flattened(fields@, i as int));
                assert(err->Flattened_0@ == fields@[i as int].ident@);
                assert(exists|k: int|
                    first_flattened(fields@, k) && err == DeriveError::Flattened(err->Flattened_0)
                        && err->Flattened_0@ == fields@[k].ident@);
                assert(item is Named);
                assert(item->Named_0@ == fields@);
            }
            return Err(err);
        }
        let name = match &f.rename {
            Some(n) => n.clone(),
            None => {
                let ident = strip_raw(f.ident.as_str());
                if camel_case {
                    camel(ident.as_str())
                } else {
                    ident
                }
            },
        };
        let (kind, optional) = wire_type(&f.ty);
        let required = !(all_default || f.default || optional);
        let ghost before = out@;
        out.push(DerivedField { name, kind, required });
        proof {
            assert(out@.drop_last() =~= before);
        }
        i = i + 1;
    }
    proof {
        assert(fields@.take(fields@.len() as int) =~= fields@);
        assert forall|k: int| !first_flattened(fields@, k) by {}
    }
    Ok(out)
}

} // verus!
