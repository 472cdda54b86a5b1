//! The component registry and the per-kind row tables. A registration names a
//! component, its capabilities and its props schema; the registry resolves
//! names to dense kind indices in registration order.
use vstd::prelude::*;
use vstd::string::StringSliceAdditionalSpecFns;
use crate::wire::{Field, Schema};

verus! {

/// What a component accepts beyond props.
#[derive(Clone, Copy, Debug, Default, PartialEq, Eq, Structural)]
pub struct Capabilities {
    pub events: bool,
    pub commands: bool,
    pub queries: bool,
    pub children: bool,
    /// The node is a native view entity rather than host-owned data.
    pub view: bool,
}

/// What a decoded payload is for.
#[derive(Clone, Copy, Debug, PartialEq, Eq, Structural)]
pub enum Kind {
    Props,
    Command,
    Query,
}

/// The name of a payload kind, as error contexts print it.
pub fn kind_name(kind: Kind) -> (s: &'static str)
    ensures
        s@ == kind_name_spec(kind),
{
    match kind {
        Kind::Props => "props",
        Kind::Command => "command",
        Kind::Query => "query",
    }
}

/// The name of each payload kind.
pub open spec fn kind_name_spec(kind: Kind) -> Seq<char> {
    match kind {
        Kind::Props => "props"@,
        Kind::Command => "command"@,
        Kind::Query => "query"@,
    }
}

/// One component as the worker sees it.
#[derive(Debug)]
pub struct KindSchema {
    pub name: String,
    pub capabilities: Capabilities,
    /// `Tagged` when the props type has no positional schema and travels as a map.
    pub fields: Schema,
}

/// Everything the registry records of one component.
#[derive(Debug)]
pub struct Registration {
    pub name: String,
    pub capabilities: Capabilities,
    pub schema: Schema,
}

/// Why a registration or a lookup failed.
#[derive(Clone, Debug, PartialEq, Eq)]
pub enum RegistryError {
    /// The name is empty or holds a byte other than `a`-`z`, `0`-`9` or `-`.
    InvalidName,
    /// A component of this name is already registered.
    Duplicate(String),
    /// The registry holds the most components a kind index can number.
    TooMany,
    /// No component of this name is registered.
    Unknown(String),
}

impl RegistryError {
    /// The human-readable message of this error, naming the component where there is one.
    pub fn message(&self) -> (r: String)
        ensures
            r@ == match *self {
                RegistryError::InvalidName => "component names must contain lowercase ASCII letters, digits, or hyphens"@,
                RegistryError::Duplicate(name) => "duplicate component "@ + name@,
                RegistryError::TooMany => "too many components"@,
                RegistryError::Unknown(name) => "unknown component "@ + name@,
            },
    {
        match self {
            RegistryError::InvalidName => "component names must contain lowercase ASCII letters, digits, or hyphens".to_string(),
            RegistryError::Duplicate(name) => {
                let mut r = "duplicate component ".to_string();
                r.append(name.as_str());
                r
            },
            RegistryError::TooMany => "too many components".to_string(),
            RegistryError::Unknown(name) => {
                let mut r = "unknown component ".to_string();
                r.append(name.as_str());
                r
            },
        }
    }
}

/// The most components a registry holds: kind indices stay below `u16::MAX`.
pub const MAX_KINDS: usize = 65535;

/// A byte allowed in a component name.
pub open spec fn name_byte(b: u8) -> bool {
    (97 <= b <= 122) || (48 <= b <= 57) || b == 45
}

/// A valid component name: non-empty, lowercase ASCII letters, digits, hyphens.
pub open spec fn valid_name(bytes: Seq<u8>) -> bool {
    bytes.len() > 0 && forall|i: int| 0 <= i < bytes.len() ==> #[trigger] name_byte(bytes[i])
}

/// A component name is valid exactly when it is not empty and every byte of
/// it is a lowercase ASCII letter `a`-`z`, a digit `0`-`9`, or a hyphen.
pub proof fn lemma_valid_name(bytes: Seq<u8>)
    ensures
        valid_name(bytes) <==> (bytes.len() > 0 && forall|i: int|
            0 <= i < bytes.len() ==> ((0x61 <= #[trigger] bytes[i] && bytes[i] <= 0x7a) || (0x30 <= bytes[i]
                && bytes[i] <= 0x39) || bytes[i] == 0x2d)),
{
    assert forall|i: int| 0 <= i < bytes.len() implies name_byte(bytes[i]) == ((0x61 <= #[trigger] bytes[i]
        && bytes[i] <= 0x7a) || (0x30 <= bytes[i] && bytes[i] <= 0x39) || bytes[i] == 0x2d) by {}
}

/// Checks a component name.
pub fn is_valid_name(name: &str) -> (b: bool)
    ensures
        b == valid_name(name.spec_bytes()),
        b == (name.spec_bytes().len() > 0 && forall|i: int|
            0 <= i < name.spec_bytes().len() ==> ((0x61 <= #[trigger] name.spec_bytes()[i] && name.spec_bytes()[i]
                <= 0x7a) || (0x30 <= name.spec_bytes()[i] && name.spec_bytes()[i] <= 0x39) || name.spec_bytes()[i]
                == 0x2d)),
{
    proof {
        lemma_valid_name(name.spec_bytes());
    }
    let bytes = name.as_bytes();
    if bytes.len() == 0 {
        return false;
    }
    let mut i: usize = 0;
    while i < bytes.len()
        invariant
            bytes@ == name.spec_bytes(),
            i <= bytes@.len(),
            forall|j: int| 0 <= j < i ==> #[trigger] name_byte(bytes@[j]),
        decreases bytes@.len() - i,
    {
        let b = bytes[i];
        if !((b >= 97 && b <= 122) || (b >= 48 && b <= 57) || b == 45) {
            assert(!name_byte(bytes@[i as int]));
            return false;
        }
        i = i + 1;
    }
    true
}

/// A copy of a schema with the same fields.
pub fn copy_schema(schema: &Schema) -> (r: Schema)
    ensures
        match (schema, r) {
            (Schema::Tagged, Schema::Tagged) => true,
            (Schema::Fields(a), Schema::Fields(b)) => a@ == b@,
            _ => false,
        },
{
    match schema {
        Schema::Tagged => Schema::Tagged,
        Schema::Fields(fields) => {
            let mut out: Vec<Field> = Vec::new();
            let mut i: usize = 0;
            while i < fields.len()
                invariant
                    i <= fields@.len(),
                    out@ == fields@.subrange(0, i as int),
                decreases fields@.len() - i,
            {
                out.push(fields[i]);
                i = i + 1;
            }
            assert(out@ =~= fields@);
            Schema::Fields(out)
        },
    }
}

/// Two schemas with the same fields.
pub open spec fn same_schema(a: Schema, b: Schema) -> bool {
    match (a, b) {
        (Schema::Tagged, Schema::Tagged) => true,
        (Schema::Fields(x), Schema::Fields(y)) => x@ == y@,
        _ => false,
    }
}

/// A capability by its name: `events`, `commands`, `queries`, `children`.
pub open spec fn has_capability(c: Capabilities, name: Seq<char>) -> bool {
    if name == "events"@ {
        c.events
    } else if name == "commands"@ {
        c.commands
    } else if name == "queries"@ {
        c.queries
    } else if name == "children"@ {
        c.children
    } else {
        false
    }
}

/// The names of registrations, in order.
pub open spec fn names_of(regs: Seq<Registration>) -> Seq<Seq<char>> {
    regs.map_values(|e: Registration| e.name@)
}

/// The names of two runs of registrations are the names of each, in turn.
pub proof fn lemma_names_of_add(a: Seq<Registration>, b: Seq<Registration>)
    ensures
        names_of(a + b) == names_of(a) + names_of(b),
{
    assert(names_of(a + b) =~= names_of(a) + names_of(b));
}

/// Whether a registry holding `names` refuses `reg`.
pub open spec fn refused(names: Seq<Seq<char>>, reg: Registration) -> bool {
    !valid_name(crate::text::utf8_of(reg.name@)) || names.contains(reg.name@) || names.len()
        >= MAX_KINDS
}

/// The error a registry holding `names` refuses `reg` with.
pub open spec fn refusal_is(names: Seq<Seq<char>>, reg: Registration, e: RegistryError) -> bool {
    if !valid_name(crate::text::utf8_of(reg.name@)) {
        e == RegistryError::InvalidName
    } else if names.contains(reg.name@) {
        e is Duplicate && e->Duplicate_0@ == reg.name@
    } else {
        names.len() >= MAX_KINDS && e == RegistryError::TooMany
    }
}

/// Each of `regs` goes in after those before it.
pub open spec fn accepts_all(names: Seq<Seq<char>>, regs: Seq<Registration>) -> bool {
    forall|j: int|
        0 <= j < regs.len() ==> !refused(names + names_of(regs.take(j)), #[trigger] regs[j])
}

/// `regs[k]` is the first of `regs` refused after those before it went in.
pub open spec fn first_refusal(names: Seq<Seq<char>>, regs: Seq<Registration>, k: int) -> bool {
    0 <= k < regs.len() && accepts_all(names, regs.take(k)) && refused(
        names + names_of(regs.take(k)),
        regs[k],
    )
}

/// The outcome of registering `regs` in order into `before`: all of them and
/// `Ok`, or those before the first refusal and its error.
pub open spec fn registered(
    before: Seq<Registration>,
    regs: Seq<Registration>,
    after: Seq<Registration>,
    r: Result<(), RegistryError>,
) -> bool {
    if accepts_all(names_of(before), regs) {
        r is Ok && after == before + regs
    } else {
        exists|k: int|
            first_refusal(names_of(before), regs, k) && after == before + regs.take(k) && (
            r matches Err(e) && refusal_is(names_of(before) + names_of(regs.take(k)), regs[k], e))
    }
}

/// Component names, capabilities and schemas, indexed by kind.
pub struct Registry {
    entries: Vec<Registration>,
}

impl Registry {
    #[verifier::type_invariant]
    spec fn inv(self) -> bool {
        &&& self.entries@.len() <= MAX_KINDS
        &&& forall|i: int, j: int|
            0 <= i < j < self.entries@.len() ==> #[trigger] self.entries@[i].name@
                != #[trigger] self.entries@[j].name@
    }

    /// The registrations in kind order.
    pub closed spec fn entries(&self) -> Seq<Registration> {
        self.entries@
    }

    /// The registered names in kind order.
    pub open spec fn names(&self) -> Seq<Seq<char>> {
        self.entries().map_values(|e: Registration| e.name@)
    }

    /// The registered capabilities in kind order.
    pub open spec fn caps(&self) -> Seq<Capabilities> {
        self.entries().map_values(|e: Registration| e.capabilities)
    }

    /// No name is registered twice, and kind indices fit below `u16::MAX`.
    pub proof fn lemma_unique(&self)
        requires
            self.well_formed(),
        ensures
            self.names().len() <= MAX_KINDS,
            forall|i: int, j: int|
                0 <= i < self.names().len() && 0 <= j < self.names().len() && i != j
                    ==> self.names()[i] != self.names()[j],
    {
        assert forall|i: int, j: int|
            0 <= i < self.names().len() && 0 <= j < self.names().len() && i != j implies self.names()[i]
                != self.names()[j] by {
            if i < j {
                assert(self.entries@[i].name@ != self.entries@[j].name@);
            } else {
                assert(self.entries@[j].name@ != self.entries@[i].name@);
            }
        }
    }

    /// What every registry satisfies.
    pub closed spec fn well_formed(&self) -> bool {
        self.inv()
    }

    /// Every registry value is well formed.
    pub fn check_well_formed(&self)
        ensures
            self.well_formed(),
    {
        proof {
            use_type_invariant(self);
        }
    }

    /// An empty registry.
    pub fn new() -> (r: Registry)
        ensures
            r.entries().len() == 0,
    {
        Registry { entries: Vec::new() }
    }

    /// The number of registered components.
    pub fn len(&self) -> (n: usize)
        ensures
            n == self.entries().len(),
    {
        self.entries.len()
    }

    /// Registers a component under the next kind index.
    pub fn register(&mut self, registration: Registration) -> (r: Result<u16, RegistryError>)
        ensures
            !valid_name(crate::text::utf8_of(registration.name@)) ==> r == Err::<
                u16,
                RegistryError,
            >(RegistryError::InvalidName) && final(self).entries() == old(self).entries(),
            valid_name(crate::text::utf8_of(registration.name@)) && old(self).names().contains(
                registration.name@,
            ) ==> (r matches Err(RegistryError::Duplicate(n)) && n@ == registration.name@)
                && final(self).entries() == old(self).entries(),
            valid_name(crate::text::utf8_of(registration.name@)) && !old(self).names().contains(
                registration.name@,
            ) && old(self).entries().len() >= MAX_KINDS ==> r == Err::<u16, RegistryError>(
                RegistryError::TooMany,
            ) && final(self).entries() == old(self).entries(),
            valid_name(crate::text::utf8_of(registration.name@)) && !old(self).names().contains(
                registration.name@,
            ) && old(self).entries().len() < MAX_KINDS ==> r == Ok::<u16, RegistryError>(
                old(self).entries().len() as u16,
            ) && final(self).entries() == old(self).entries().push(registration),
    {
        proof {
            use_type_invariant(&*self);
        }
        if !is_valid_name(registration.name.as_str()) {
            return Err(RegistryError::InvalidName);
        }
        let mut i: usize = 0;
        while i < self.entries.len()
            invariant
                i <= self.entries@.len(),
                valid_name(crate::text::utf8_of(registration.name@)),
                forall|j: int| 0 <= j < i ==> self.entries@[j].name@ != registration.name@,
            decreases self.entries@.len() - i,
        {
            if crate::text::str_eq(self.entries[i].name.as_str(), registration.name.as_str()) {
                proof {
                    assert(self.names()[i as int] == registration.name@);
                }
                return Err(RegistryError::Duplicate(registration.name));
            }
            i = i + 1;
        }
        assert(!self.names().contains(registration.name@)) by {
            if self.names().contains(registration.name@) {
                let k = choose|k: int| 0 <= k < self.names().len() && self.names()[k] == registration.name@;
                assert(self.entries@[k].name@ == registration.name@);
            }
        }
        if self.entries.len() >= MAX_KINDS {
            return Err(RegistryError::TooMany);
        }
        let k = self.entries.len() as u16;
        let mut entries = Vec::new();
        std::mem::swap(&mut entries, &mut self.entries);
        let ghost before = entries@;
        entries.push(registration);
        self.entries = entries;
        Ok(k)
    }

    /// Registers each of `regs` in order, stopping at the first refusal; the
    /// registrations before it stay.
    pub fn register_all(&mut self, regs: Vec<Registration>) -> (r: Result<(), RegistryError>)
        ensures
            registered(old(self).entries(), regs@, final(self).entries(), r),
    {
        let ghost all = regs@;
        let ghost start = self.entries();
        let mut rest = regs;
        let mut i: usize = 0;
        proof {
            assert(all.skip(0) =~= all);
            assert(start + all.take(0) =~= start);
        }
        while rest.len() > 0
            invariant
                start == old(self).entries(),
                all == regs@,
                i <= all.len(),
                rest@ == all.skip(i as int),
                self.entries() == start + all.take(i as int),
                accepts_all(names_of(start), all.take(i as int)),
            decreases rest@.len(),
        {
            let reg = rest.remove(0);
            proof {
                assert(reg == all[i as int]);
                lemma_names_of_add(start, all.take(i as int));
                assert(self.names() == names_of(self.entries()));
            }
            let ghost names = self.names();
            match self.register(reg) {
                Ok(_) => {
                    proof {
                        assert(all.take(i + 1) =~= all.take(i as int).push(all[i as int]));
                        assert(self.entries() =~= start + all.take(i + 1));
                        assert forall|j: int| 0 <= j < all.take(i + 1).len() implies !refused(
                            names_of(start) + names_of(all.take(i + 1).take(j)),
                            #[trigger] all.take(i + 1)[j],
                        ) by {
                            if j < i {
                                assert(all.take(i + 1).take(j) =~= all.take(i as int).take(j));
                                assert(all.take(i + 1)[j] == all.take(i as int)[j]);
                            } else {
                                assert(all.take(i + 1).take(j) =~= all.take(i as int));
                            }
                        }
                        assert(all.skip(i + 1) =~= all.skip(i as int).drop_first());
                    }
                    i = i + 1;
                },
                Err(e) => {
                    proof {
                        assert(names == names_of(start) + names_of(all.take(i as int)));
                        assert(refusal_is(names, all[i as int], e));
                        assert(refused(names, all[i as int]));
                        assert(first_refusal(names_of(start), all, i as int));
                        assert(!accepts_all(names_of(start), all)) by {
                            assert(all.take(i as int) == all.take(i as int));
                            assert(!refused(names_of(start) + names_of(all.take(i as int)), all[i as int]) ==> false);
                        }
                        assert(self.entries() == start + all.take(i as int));
                        let k = i as int;
                        assert(first_refusal(names_of(start), all, k) && self.entries() == start
                            + all.take(k) && (Err::<(), RegistryError>(e) matches Err(e2)
                            && refusal_is(names_of(start) + names_of(all.take(k)), all[k], e2)));
                    }
                    return Err(e);
                },
            }
        }
        proof {
            assert(all.skip(i as int).len() == 0);
            assert(all.take(i as int) =~= all);
        }
        Ok(())
    }

    /// The kind index of a registered name.
    pub fn kind(&self, name: &str) -> (r: Result<u16, RegistryError>)
        ensures
            match r {
                Ok(k) => k < self.names().len() && self.names()[k as int] == name@,
                Err(e) => e == RegistryError::Unknown(e->Unknown_0) && e->Unknown_0@ == name@
                    && !self.names().contains(name@),
            },
    {
        proof {
            use_type_invariant(self);
        }
        let mut i: usize = 0;
        while i < self.entries.len()
            invariant
                i <= self.entries@.len(),
                self.entries@.len() <= MAX_KINDS,
                forall|j: int| 0 <= j < i ==> self.entries@[j].name@ != name@,
            decreases self.entries@.len() - i,
        {
            if crate::text::str_eq(self.entries[i].name.as_str(), name) {
                return Ok(i as u16);
            }
            i = i + 1;
        }
        assert(!self.names().contains(name@)) by {
            if self.names().contains(name@) {
                let k = choose|k: int| 0 <= k < self.names().len() && self.names()[k] == name@;
                assert(self.entries@[k].name@ == name@);
            }
        }
        Err(RegistryError::Unknown(name.to_owned()))
    }

    /// The registration of a kind index.
    pub fn registration(&self, kind: u16) -> (r: &Registration)
        requires
            kind < self.entries().len(),
        ensures
            *r == self.entries()[kind as int],
    {
        &self.entries[kind as usize]
    }

    /// What a command (or query) carries to the component of `kind`: its
    /// value, or, where the component takes no commands (or queries), the
    /// error that becomes the call's answer.
    pub fn call_value<V>(&self, kind: u16, command: bool, value: V) -> (r: Result<V, String>)
        requires
            kind < self.entries().len(),
        ensures
            ({
                let c = self.caps()[kind as int];
                let name = self.names()[kind as int];
                if (command && c.commands) || (!command && c.queries) {
                    r == Ok::<V, String>(value)
                } else if command {
                    r matches Err(m) && m@ == name + " command: "@ + name + " has no commands"@
                } else {
                    r matches Err(m) && m@ == name + " query: "@ + name + " has no queries"@
                }
            }),
    {
        let entry = &self.entries[kind as usize];
        proof {
            assert(self.caps()[kind as int] == entry.capabilities);
            assert(self.names()[kind as int] == entry.name@);
        }
        if command && entry.capabilities.commands || !command && entry.capabilities.queries {
            return Ok(value);
        }
        let mut m = entry.name.clone();
        if command {
            m.append(" command: ");
            m.append(entry.name.as_str());
            m.append(" has no commands");
        } else {
            m.append(" query: ");
            m.append(entry.name.as_str());
            m.append(" has no queries");
        }
        Err(m)
    }

    /// The capabilities of a registered name.
    pub fn capabilities(&self, name: &str) -> (r: Result<Capabilities, RegistryError>)
        ensures
            match r {
                Ok(c) => exists|k: int|
                    0 <= k < self.names().len() && self.names()[k] == name@ && c
                        == self.caps()[k],
                Err(e) => e == RegistryError::Unknown(e->Unknown_0) && e->Unknown_0@ == name@
                    && !self.names().contains(name@),
            },
    {
        let k = self.kind(name)?;
        let c = self.entries[k as usize].capabilities;
        assert(self.caps()[k as int] == c);
        Ok(c)
    }

    /// Whether the component `name` has a capability, by its name:
    /// `events`, `commands`, `queries` or `children`; any other name is no
    /// capability.
    pub fn supports(&self, name: &str, capability: &str) -> (r: Result<bool, RegistryError>)
        ensures
            match r {
                Ok(b) => exists|k: int|
                    0 <= k < self.names().len() && self.names()[k] == name@ && b == has_capability(
                        self.caps()[k],
                        capability@,
                    ),
                Err(e) => e == RegistryError::Unknown(e->Unknown_0) && e->Unknown_0@ == name@
                    && !self.names().contains(name@),
            },
    {
        let c = self.capabilities(name)?;
        proof {
            reveal_strlit("events");
            reveal_strlit("commands");
            reveal_strlit("queries");
            reveal_strlit("children");
        }
        Ok(if crate::text::str_eq(capability, "events") {
            c.events
        } else if crate::text::str_eq(capability, "commands") {
            c.commands
        } else if crate::text::str_eq(capability, "queries") {
            c.queries
        } else if crate::text::str_eq(capability, "children") {
            c.children
        } else {
            false
        })
    }

    /// The kind table the worker encodes against: index order is kind order.
    pub fn schema(&self) -> (r: Vec<KindSchema>)
        ensures
            r@.len() == self.entries().len(),
            forall|k: int|
                0 <= k < r@.len() ==> #[trigger] r@[k].name@ == self.entries()[k].name@
                    && r@[k].capabilities == self.entries()[k].capabilities && same_schema(
                    r@[k].fields,
                    self.entries()[k].schema,
                ),
    {
        let mut out: Vec<KindSchema> = Vec::new();
        let mut i: usize = 0;
        while i < self.entries.len()
            invariant
                i <= self.entries@.len(),
                out@.len() == i,
                forall|k: int|
                    0 <= k < i ==> #[trigger] out@[k].name@ == self.entries@[k].name@
                        && out@[k].capabilities == self.entries@[k].capabilities && same_schema(
                        out@[k].fields,
                        self.entries@[k].schema,
                    ),
            decreases self.entries@.len() - i,
        {
            let e = &self.entries[i];
            out.push(
                KindSchema {
                    name: e.name.clone(),
                    capabilities: e.capabilities,
                    fields: copy_schema(&e.schema),
                },
            );
            i = i + 1;
        }
        out
    }
}


/// Dense rows with a free list. Removed rows are reused, most recently freed
/// first, before the vector grows.
pub struct Rows<T> {
    rows: Vec<Option<T>>,
    free: Vec<u32>,
}

impl<T> Rows<T> {
    /// The free list holds exactly the empty rows, each once, and every slot
    /// fits in a `u32`.
    pub closed spec fn wf(&self) -> bool {
        &&& self.rows@.len() <= 0x1_0000_0000
        &&& forall|i: int, j: int|
            0 <= i < j < self.free@.len() ==> #[trigger] self.free@[i] != #[trigger] self.free@[j]
        &&& forall|i: int|
            0 <= i < self.free@.len() ==> #[trigger] self.free@[i] < self.rows@.len()
                && self.rows@[self.free@[i] as int] is None
        &&& forall|s: int|
            0 <= s < self.rows@.len() && self.rows@[s] is None ==> #[trigger] self.free@.contains(
                s as u32,
            )
    }

    /// The live rows by slot.
    pub closed spec fn live(&self) -> Map<u32, T> {
        Map::new(
            |s: u32| s < self.rows@.len() && self.rows@[s as int] is Some,
            |s: u32| self.rows@[s as int]->Some_0,
        )
    }

    /// The free list, reused from its end.
    pub closed spec fn free_slots(&self) -> Seq<u32> {
        self.free@
    }

    /// The number of slots ever used, live or free.
    pub closed spec fn slot_count(&self) -> nat {
        self.rows@.len()
    }

    /// The slot the next insertion takes.
    pub open spec fn next_slot(&self) -> u32 {
        if self.free_slots().len() > 0 {
            self.free_slots().last()
        } else {
            self.slot_count() as u32
        }
    }

    /// An empty table.
    pub fn new() -> (r: Self)
        ensures
            r.wf(),
            r.live() == Map::<u32, T>::empty(),
            r.free_slots().len() == 0,
            r.slot_count() == 0,
    {
        let r = Rows { rows: Vec::new(), free: Vec::new() };
        assert(r.live() =~= Map::<u32, T>::empty());
        r
    }

    /// Makes room for `additional` rows beyond those the free list can hold.
    pub fn reserve(&mut self, additional: usize)
        requires
            old(self).wf(),
        ensures
            final(self).wf(),
            final(self).live() == old(self).live(),
            final(self).free_slots() == old(self).free_slots(),
            final(self).slot_count() == old(self).slot_count(),
    {
        let additional = additional.saturating_sub(self.free.len());
        self.rows.reserve(additional);
    }

    /// Inserts a row into the next slot.
    pub fn insert(&mut self, row: T) -> (slot: u32)
        requires
            old(self).wf(),
            old(self).free_slots().len() > 0 || old(self).slot_count() < 0xFFFF_FFFF,
        ensures
            final(self).wf(),
            slot == old(self).next_slot(),
            !old(self).live().contains_key(slot),
            final(self).live() == old(self).live().insert(slot, row),
            final(self).free_slots() == if old(self).free_slots().len() > 0 {
                old(self).free_slots().drop_last()
            } else {
                old(self).free_slots()
            },
            final(self).slot_count() == if old(self).free_slots().len() > 0 {
                old(self).slot_count()
            } else {
                old(self).slot_count() + 1
            },
    {
        match self.free.pop() {
            Some(slot) => {
                proof {
                    assert(old(self).free@[old(self).free@.len() - 1] == slot);
                }
                self.rows.set(slot as usize, Some(row));
                proof {
                    assert forall|i: int, j: int|
                        0 <= i < j < self.free@.len() implies #[trigger] self.free@[i]
                        != #[trigger] self.free@[j] by {
                        assert(self.free@[i] == old(self).free@[i]);
                        assert(self.free@[j] == old(self).free@[j]);
                    }
                    assert forall|i: int| 0 <= i < self.free@.len() implies #[trigger] self.free@[i]
                        < self.rows@.len() && self.rows@[self.free@[i] as int] is None by {
                        assert(self.free@[i] == old(self).free@[i]);
                        assert(old(self).free@[i] != old(self).free@[old(self).free@.len() - 1]);
                    }
                    assert forall|s: int|
                        0 <= s < self.rows@.len() && self.rows@[s] is None implies #[trigger] self.free@.contains(
                        s as u32,
                    ) by {
                        assert(old(self).free@.contains(s as u32));
                        let k = choose|k: int|
                            0 <= k < old(self).free@.len() && old(self).free@[k] == s as u32;
                        assert(k != old(self).free@.len() - 1);
                        assert(self.free@[k] == s as u32);
                    }
                    assert(self.live() =~= old(self).live().insert(slot, row));
                }
                slot
            },
            None => {
                let slot = self.rows.len() as u32;
                self.rows.push(Some(row));
                proof {
                    assert forall|s: int|
                        0 <= s < self.rows@.len() && self.rows@[s] is None implies #[trigger] self.free@.contains(
                        s as u32,
                    ) by {
                        assert(s < old(self).rows@.len());
                        assert(old(self).rows@[s] is None);
                    }
                    assert(self.live() =~= old(self).live().insert(slot, row));
                }
                slot
            },
        }
    }

    /// The row in a live slot.
    pub fn get(&self, slot: u32) -> (r: &T)
        requires
            self.wf(),
            self.live().contains_key(slot),
        ensures
            *r == self.live()[slot],
    {
        self.rows[slot as usize].as_ref().unwrap()
    }

    /// The row in a live slot, to change in place.
    pub fn get_mut(&mut self, slot: u32) -> (r: &mut T)
        requires
            old(self).wf(),
            old(self).live().contains_key(slot),
        ensures
            *r == old(self).live()[slot],
            final(self).wf(),
            final(self).live() == old(self).live().insert(slot, *final(r)),
            final(self).free_slots() == old(self).free_slots(),
            final(self).slot_count() == old(self).slot_count(),
    {
        self.rows[slot as usize].as_mut().unwrap()
    }

    /// The slot the next insertion takes.
    fn next_free(&self) -> (slot: u32)
        requires
            self.wf(),
            self.free_slots().len() > 0 || self.slot_count() < 0xFFFF_FFFF,
        ensures
            slot == self.next_slot(),
    {
        if self.free.len() > 0 {
            self.free[self.free.len() - 1]
        } else {
            self.rows.len() as u32
        }
    }

    /// Inserts a row built with knowledge of the slot it goes into.
    pub fn insert_with<F: FnOnce(u32) -> T>(&mut self, build: F) -> (slot: u32)
        requires
            old(self).wf(),
            old(self).free_slots().len() > 0 || old(self).slot_count() < 0xFFFF_FFFF,
            build.requires((old(self).next_slot(),)),
        ensures
            final(self).wf(),
            slot == old(self).next_slot(),
            !old(self).live().contains_key(slot),
            exists|row: T| build.ensures((slot,), row) && final(self).live() == old(self).live().insert(slot, row),
            final(self).free_slots() == if old(self).free_slots().len() > 0 {
                old(self).free_slots().drop_last()
            } else {
                old(self).free_slots()
            },
            final(self).slot_count() == if old(self).free_slots().len() > 0 {
                old(self).slot_count()
            } else {
                old(self).slot_count() + 1
            },
    {
        let slot = self.next_free();
        let row = build(slot);
        let placed = self.insert(row);
        assert(placed == slot);
        placed
    }

    /// Removes the row in a live slot and frees the slot for reuse.
    pub fn remove(&mut self, slot: u32) -> (r: T)
        requires
            old(self).wf(),
            old(self).live().contains_key(slot),
        ensures
            final(self).wf(),
            r == old(self).live()[slot],
            final(self).live() == old(self).live().remove(slot),
            final(self).free_slots() == old(self).free_slots().push(slot),
            final(self).slot_count() == old(self).slot_count(),
    {
        proof {
            if self.free@.contains(slot) {
                let k = choose|k: int| 0 <= k < self.free@.len() && self.free@[k] == slot;
                assert(self.rows@[slot as int] is None);
            }
        }
        self.free.push(slot);
        let mut taken: Option<T> = None;
        self.rows.set_and_swap(slot as usize, &mut taken);
        proof {
            assert forall|s: int|
                0 <= s < self.rows@.len() && self.rows@[s] is None implies #[trigger] self.free@.contains(
                s as u32,
            ) by {
                if s != slot as int {
                    assert(old(self).free@.contains(s as u32));
                    let k = choose|k: int|
                        0 <= k < old(self).free@.len() && old(self).free@[k] == s as u32;
                    assert(self.free@[k] == s as u32);
                } else {
                    assert(self.free@[self.free@.len() - 1] == slot);
                }
            }
            assert forall|i: int| 0 <= i < self.free@.len() implies #[trigger] self.free@[i]
                < self.rows@.len() && self.rows@[self.free@[i] as int] is None by {
                if i < old(self).free@.len() {
                    assert(self.free@[i] == old(self).free@[i]);
                }
            }
            assert(self.live() =~= old(self).live().remove(slot));
        }
        taken.unwrap()
    }
}

/// The two laws of slot reuse: an insertion takes a slot that holds no row and
/// stores the row there, and a removed slot is the next one an insertion takes.
pub proof fn lemma_removed_slot_is_reused<T>(before: Rows<T>, after: Rows<T>, slot: u32)
    requires
        before.wf(),
        after.free_slots() == before.free_slots().push(slot),
    ensures
        after.next_slot() == slot,
{
    assert(after.free_slots().last() == slot);
}


/// One committed change, carrying each component's decoded payload `P`.
pub enum Op<P> {
    Create {
        id: u32,
        kind: u16,
        props: P,
        subscription: Option<u64>,
        /// Placement folded into creation: `Some((parent, before))` places
        /// the new node, with `parent == None` meaning the root list.
        place: Option<(Option<u32>, Option<u32>)>,
    },
    Props { id: u32, kind: u16, props: P },
    Listen { id: u32, subscription: Option<u64> },
    Place { parent: Option<u32>, child: u32, before: Option<u32> },
    Remove { id: u32 },
    Hidden { id: u32, hidden: bool },
    /// A payload that failed to decode is the call's result and never
    /// reaches native code.
    Call { id: u32, kind: u16, request: u64, command: bool, value: Result<P, String> },
}

/// A decoded transaction ready for the UI thread.
pub struct Prepared<P> {
    pub sequence: u64,
    pub operations: Vec<Op<P>>,
}

impl<P> Prepared<P> {
    /// A transaction of the given sequence number.
    pub fn new(sequence: u64, operations: Vec<Op<P>>) -> (r: Self)
        ensures
            r.sequence == sequence,
            r.operations@ == operations@,
    {
        Prepared { sequence, operations }
    }

    /// The transaction's sequence number.
    pub fn sequence(&self) -> (r: u64)
        ensures
            r == self.sequence,
    {
        self.sequence
    }
}

/// The number of creations of component `kind` among `ops`.
pub open spec fn creates_of<P>(ops: Seq<Op<P>>, kind: int) -> nat
    decreases ops.len(),
{
    if ops.len() == 0 {
        0
    } else {
        creates_of(ops.drop_last(), kind) + match ops.last() {
            Op::Create { kind: k, .. } => if k == kind {
                1nat
            } else {
                0nat
            },
            _ => 0nat,
        }
    }
}

/// The highest id created among `ops`, if any.
pub open spec fn highest_created<P>(ops: Seq<Op<P>>) -> Option<u32>
    decreases ops.len(),
{
    if ops.len() == 0 {
        None
    } else {
        let rest = highest_created(ops.drop_last());
        match ops.last() {
            Op::Create { id, .. } => match rest {
                Some(h) => Some(if h > id {
                    h
                } else {
                    id
                }),
                None => Some(id),
            },
            _ => rest,
        }
    }
}

/// Every creation among `ops` names one of `kinds` components.
pub open spec fn kinds_below<P>(ops: Seq<Op<P>>, kinds: int) -> bool {
    forall|i: int|
        0 <= i < ops.len() ==> match #[trigger] ops[i] {
            Op::Create { kind, .. } => kind < kinds,
            _ => true,
        }
}

/// Whether every creation names a component below `kinds`, as
/// `creation_counts` needs.
pub fn kinds_known<P>(ops: &Vec<Op<P>>, kinds: usize) -> (b: bool)
    ensures
        b == kinds_below(ops@, kinds as int),
{
    let mut i: usize = 0;
    while i < ops.len()
        invariant
            i <= ops@.len(),
            forall|j: int|
                0 <= j < i ==> match #[trigger] ops@[j] {
                    Op::Create { kind, .. } => kind < kinds,
                    _ => true,
                },
        decreases ops@.len() - i,
    {
        if let Op::Create { kind, .. } = &ops[i] {
            if *kind as usize >= kinds {
                return false;
            }
        }
        i = i + 1;
    }
    true
}

/// The highest created id and the number of creations per component, so
/// that the node vector and each table grow once per transaction.
pub fn creation_counts<P>(ops: &Vec<Op<P>>, kinds: usize) -> (r: (Option<u32>, Vec<usize>))
    requires
        kinds_below(ops@, kinds as int),
    ensures
        r.0 == highest_created(ops@),
        r.1@.len() == kinds,
        forall|k: int| 0 <= k < kinds ==> #[trigger] r.1@[k] == creates_of(ops@, k),
{
    let mut counts: Vec<usize> = Vec::new();
    let mut k: usize = 0;
    while k < kinds
        invariant
            k <= kinds,
            counts@.len() == k,
            forall|j: int| 0 <= j < k ==> #[trigger] counts@[j] == 0,
        decreases kinds - k,
    {
        counts.push(0);
        k = k + 1;
    }
    let mut highest: Option<u32> = None;
    let mut i: usize = 0;
    proof {
        assert(ops@.take(0) =~= Seq::<Op<P>>::empty());
        assert forall|j: int| 0 <= j < kinds implies #[trigger] counts@[j] == creates_of(ops@.take(0), j) by {}
    }
    while i < ops.len()
        invariant
            kinds_below(ops@, kinds as int),
            i <= ops@.len(),
            counts@.len() == kinds,
            highest == highest_created(ops@.take(i as int)),
            forall|j: int| 0 <= j < kinds ==> #[trigger] counts@[j] == creates_of(ops@.take(i as int), j),
            forall|j: int| 0 <= j < kinds ==> #[trigger] creates_of(ops@.take(i as int), j) <= i,
        decreases ops@.len() - i,
    {
        proof {
            assert(ops@.take(i + 1).drop_last() =~= ops@.take(i as int));
            assert(ops@.take(i + 1).last() == ops@[i as int]);
        }
        match &ops[i] {
            Op::Create { id, kind, .. } => {
                proof {
                    assert(kinds_below(ops@, kinds as int));
                    assert(match ops@[i as int] {
                        Op::Create { kind, .. } => kind < kinds,
                        _ => true,
                    });
                }
                highest = match highest {
                    Some(h) => Some(if h > *id {
                        h
                    } else {
                        *id
                    }),
                    None => Some(*id),
                };
                let c = counts[*kind as usize];
                counts.set(*kind as usize, c + 1);
            },
            _ => {},
        }
        proof {
            assert forall|j: int| 0 <= j < kinds implies #[trigger] creates_of(ops@.take(i + 1), j) <= i + 1 by {
                assert(creates_of(ops@.take(i as int), j) <= i);
            }
        }
        i = i + 1;
    }
    proof {
        assert(ops@.take(i as int) =~= ops@);
    }
    (highest, counts)
}

} // verus!
