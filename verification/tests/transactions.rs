use gpui_react::apply::{apply_prepared, ApplyError, Tables};
use gpui_react::protocol::Reply;
use gpui_react::registry::{Capabilities, Op, Prepared, Registration, Registry};
use gpui_react::tree::{Host, HostError};
use gpui_react::wire::Schema;
use std::collections::HashMap;

/// Values as the toolkit sees them: a number, nothing, or a view's state.
#[derive(Clone, Debug, PartialEq)]
enum Val {
    Num(u32),
    Text(String),
    Unit,
    State { value: u32, children: Vec<u32> },
}

/// A toolkit whose rows hold a value and the ids of their visible children.
#[derive(Default)]
struct Rows {
    rows: HashMap<(u16, u32), (u32, u32, Vec<u32>)>,
    next: u32,
}

impl Rows {
    fn value_of(&self, id: u32) -> Option<u32> {
        self.rows.values().find(|r| r.0 == id).map(|r| r.1)
    }
}

impl Tables<Val> for Rows {
    fn reserve(&mut self, _: u16, _: usize) {}
    fn create(&mut self, kind: u16, id: u32, _: u16, props: Val, _: bool) -> Result<u32, String> {
        let Val::Num(value) = props else { return Err("props must be a number".to_string()) };
        self.next += 1;
        self.rows.insert((kind, self.next), (id, value, vec![]));
        Ok(self.next)
    }
    fn set_props(&mut self, kind: u16, slot: u32, props: Val) -> Result<(), String> {
        let Val::Num(value) = props else { return Err("props must be a number".to_string()) };
        self.rows.get_mut(&(kind, slot)).unwrap().1 = value;
        Ok(())
    }
    fn remove(&mut self, kind: u16, slot: u32) {
        self.rows.remove(&(kind, slot));
    }
    fn set_children(&mut self, kind: u16, slot: u32, children: Vec<u32>) {
        self.rows.get_mut(&(kind, slot)).unwrap().2 = children;
    }
    fn child_changed(&mut self, _: u16, _: u32, _: u32) {}
    fn command(&mut self, _: u16, _: u32, _: Val) -> Result<Val, String> {
        Ok(Val::Unit)
    }
    fn query(&mut self, kind: u16, slot: u32, _: Val) -> Result<Val, String> {
        let (_, value, children) = self.rows[&(kind, slot)].clone();
        let children = children.iter().map(|c| self.value_of(*c).unwrap()).collect();
        Ok(Val::State { value, children })
    }
    fn defer_route(&mut self, _: u32, _: u16, _: u32) {}
}

fn registry() -> Registry {
    let mut registry = Registry::new();
    let view = Capabilities { events: false, commands: false, queries: true, children: true, view: true };
    let leaf = Capabilities { events: false, commands: false, queries: true, children: false, view: true };
    registry.register(Registration { name: "view".to_string(), capabilities: view, schema: Schema::Tagged }).unwrap();
    registry.register(Registration { name: "leaf".to_string(), capabilities: leaf, schema: Schema::Tagged }).unwrap();
    registry
}

/// An operation as the worker writes it, before its props are decoded.
enum Wire {
    Create(u32, u16, i64),
    Props(u32, i64),
    Place(Option<u32>, u32, Option<u32>),
    Remove(u32),
    Command(u32, u64, &'static str),
    Query(u32, u64),
}

/// Decodes the operations, as the session's decoder does, then applies them:
/// props that are not a `u32` refuse the whole transaction before it applies.
fn apply(host: &mut Host, rows: &mut Rows, sequence: u64, ops: Vec<Wire>) -> Result<Reply<Val>, String> {
    let mut operations = Vec::new();
    for op in ops {
        operations.push(match op {
            Wire::Create(id, kind, value) => Op::Create {
                id,
                kind,
                props: Val::Num(u32::try_from(value).map_err(|e| e.to_string())?),
                subscription: None,
                place: None,
            },
            Wire::Props(id, value) => {
                Op::Props { id, kind: 0, props: Val::Num(u32::try_from(value).map_err(|e| e.to_string())?) }
            }
            Wire::Place(parent, child, before) => Op::Place { parent, child, before },
            Wire::Remove(id) => Op::Remove { id },
            Wire::Command(id, request, value) => Op::Call {
                id,
                kind: 0,
                request,
                command: true,
                value: host.registry().call_value(0, true, Val::Text(value.to_string())),
            },
            Wire::Query(id, request) => Op::Call {
                id,
                kind: 0,
                request,
                command: false,
                value: host.registry().call_value(0, false, Val::Unit),
            },
        });
    }
    match apply_prepared(host, rows, Prepared { sequence, operations }) {
        Ok(reply) => Ok(reply),
        Err(e) => Err(e.message(host.registry())),
    }
}

fn create(id: u32) -> Wire {
    Wire::Create(id, 0, id as i64)
}

#[test]
fn topology_is_validated_before_any_component_is_created_or_updated() {
    let mut host = Host::new(registry());
    let mut rows = Rows::default();
    let invalid = vec![create(1), Wire::Place(None, 1, None), Wire::Props(1, -1)];
    assert!(apply(&mut host, &mut rows, 1, invalid).is_err());
    assert!(host.is_empty());
    apply(&mut host, &mut rows, 1, vec![create(1), Wire::Place(None, 1, None)]).unwrap();
    let invalid =
        vec![Wire::Props(1, 99), create(2), Wire::Place(Some(1), 2, None), Wire::Place(Some(2), 1, None)];
    assert!(apply(&mut host, &mut rows, 2, invalid).is_err());
    assert_eq!(host.len(), 1);
    assert_eq!(rows.value_of(1), Some(1));
    assert_eq!(rows.rows.len(), 1);
}

#[test]
fn invalid_parent_and_insertion_anchor_leave_the_original_tree_unchanged() {
    let mut host = Host::new(registry());
    let mut rows = Rows::default();
    apply(&mut host, &mut rows, 1, vec![Wire::Create(1, 1, 1), Wire::Place(None, 1, None)]).unwrap();
    assert!(apply(&mut host, &mut rows, 2, vec![create(2), Wire::Place(Some(1), 2, None)]).is_err());
    assert!(apply(&mut host, &mut rows, 2, vec![create(2), Wire::Place(None, 2, Some(99))]).is_err());
    assert_eq!(host.roots(), vec![1]);
    assert_eq!(host.len(), 1);
}

#[test]
fn invalid_calls_return_errors_without_losing_other_committed_changes() {
    let mut host = Host::new(registry());
    let mut rows = Rows::default();
    let reply = apply(
        &mut host,
        &mut rows,
        1,
        vec![create(1), Wire::Place(None, 1, None), Wire::Command(1, 1, "unsupported"), Wire::Query(999, 2), Wire::Query(1, 3)],
    )
    .unwrap();
    assert!(reply.results[0].error.as_ref().unwrap().contains("no commands"));
    assert!(reply.results[1].error.as_ref().unwrap().contains("unknown view"));
    assert_eq!(reply.results[2].value, Some(Val::State { value: 1, children: vec![] }));
    assert!(apply(&mut host, &mut rows, 1, vec![]).is_err());
    assert!(apply(&mut host, &mut rows, 2, vec![create(1)]).is_err());
    assert!(apply(&mut host, &mut rows, 2, vec![create(2)]).is_err());
}

#[test]
fn refusals_name_what_the_tree_refused_and_change_nothing() {
    let mut host = Host::new(registry());
    let mut rows = Rows::default();
    apply(&mut host, &mut rows, 1, vec![create(1), Wire::Place(None, 1, None)]).unwrap();
    let cycle = vec![create(2), Wire::Place(Some(1), 2, None), Wire::Place(Some(2), 1, None)];
    assert_eq!(apply(&mut host, &mut rows, 2, cycle).err(), Some(HostError::Cycle.message(host.registry())));
    let unplaced = vec![create(2)];
    assert_eq!(apply(&mut host, &mut rows, 2, unplaced).err(), Some("new view 2 was not attached".to_string()));
    let removed = vec![Wire::Remove(1), Wire::Place(None, 1, None)];
    assert_eq!(apply(&mut host, &mut rows, 2, removed).err(), Some("unknown view 1".to_string()));
    assert_eq!(apply(&mut host, &mut rows, 3, vec![]).err(), Some("transaction sequence is out of order".to_string()));
    assert_eq!(host.len(), 1);
    assert_eq!(rows.rows.len(), 1);
    let reply = apply(&mut host, &mut rows, 2, vec![create(2), Wire::Place(Some(1), 2, None), Wire::Query(1, 1)]).unwrap();
    assert_eq!(reply.sequence, 2);
    assert_eq!(reply.results[0].value, Some(Val::State { value: 1, children: vec![2] }));
    assert_eq!(host.children(1), Some(vec![2]));
}

#[test]
fn only_the_toolkit_fails_a_transaction_the_tree_accepts() {
    let mut host = Host::new(registry());
    let mut rows = Rows::default();
    apply(&mut host, &mut rows, 1, vec![create(1), Wire::Place(None, 1, None)]).unwrap();
    let text = Op::Props { id: 1, kind: 0, props: Val::Text("not a number".to_string()) };
    let refused = apply_prepared(&mut host, &mut rows, Prepared { sequence: 2, operations: vec![text] });
    assert_eq!(refused.err(), Some(ApplyError::Toolkit("props must be a number".to_string())));
    let unknown = Op::Props { id: 7, kind: 0, props: Val::Num(1) };
    let refused = apply_prepared(&mut host, &mut rows, Prepared { sequence: 2, operations: vec![unknown] });
    assert_eq!(refused.err(), Some(ApplyError::Refused(HostError::Unknown(7))));
    let stranger = Op::Create { id: 5, kind: 9, props: Val::Num(1), subscription: None, place: None };
    let refused = apply_prepared(&mut host, &mut rows, Prepared { sequence: 2, operations: vec![stranger] });
    assert_eq!(refused.err(), Some(ApplyError::UnknownKind));
    assert_eq!(host.len(), 1);
}
