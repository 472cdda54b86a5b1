use gpui_react::registry::{Capabilities, Registration, Registry};
use gpui_react::tree::{Host, HostError};
use gpui_react::wire::Schema;

fn registry() -> Registry {
    let mut registry = Registry::new();
    let boxed = Capabilities { events: true, commands: false, queries: false, children: true, view: false };
    let leaf = Capabilities { events: false, commands: false, queries: false, children: false, view: false };
    registry.register(Registration { name: "box".to_string(), capabilities: boxed, schema: Schema::Tagged }).unwrap();
    registry.register(Registration { name: "leaf".to_string(), capabilities: leaf, schema: Schema::Tagged }).unwrap();
    registry
}

fn create(host: &mut Host, id: u32, kind: u16) {
    host.prepare_create(id, kind, None).unwrap();
    host.install(id, kind, id, 0).unwrap();
}

/// A root box 0 holding box 3 and leaves 2 and 1, in that order.
fn tree() -> Host {
    let mut host = Host::new(registry());
    host.begin(1).unwrap();
    create(&mut host, 0, 0);
    create(&mut host, 1, 1);
    create(&mut host, 2, 1);
    create(&mut host, 3, 0);
    host.place(None, 0, None).unwrap();
    host.place(Some(0), 1, None).unwrap();
    host.place(Some(0), 2, Some(1)).unwrap();
    host.place(Some(0), 3, Some(2)).unwrap();
    host.finish().unwrap();
    host
}

#[test]
fn places_children_in_order_before_an_anchor() {
    let host = tree();
    assert_eq!(host.roots(), vec![0]);
    assert_eq!(host.children(0), Some(vec![3, 2, 1]));
    assert_eq!(host.children(3), Some(vec![]));
    assert_eq!(host.len(), 4);
}

#[test]
fn refused_placements_leave_a_settled_tree_unchanged() {
    let mut host = tree();
    host.begin(2).unwrap();
    assert_eq!(host.place(Some(1), 3, None), Err(HostError::NoChildren));
    assert_eq!(host.place(Some(3), 0, None), Err(HostError::Cycle));
    assert_eq!(host.place(Some(3), 3, None), Err(HostError::Cycle));
    assert_eq!(host.place(Some(3), 1, Some(2)), Err(HostError::BadAnchor));
    assert_eq!(host.place(Some(9), 1, None), Err(HostError::Unknown(9)));
    assert_eq!(host.children(0), Some(vec![3, 2, 1]));
    assert_eq!(host.roots(), vec![0]);
}

#[test]
fn moves_keep_every_node_and_reorder_siblings() {
    let mut host = tree();
    host.begin(2).unwrap();
    host.place(Some(3), 1, None).unwrap();
    host.place(Some(0), 3, None).unwrap();
    assert_eq!(host.children(0), Some(vec![2, 3]));
    assert_eq!(host.children(3), Some(vec![1]));
    host.finish().unwrap();
    assert_eq!(host.len(), 4);
}

#[test]
fn hidden_children_stay_in_the_tree_but_not_in_the_visible_list() {
    let mut host = tree();
    host.begin(2).unwrap();
    host.set_hidden(2, true).unwrap();
    assert_eq!(host.children(0), Some(vec![3, 2, 1]));
    assert_eq!(host.visible_children(0), Some(vec![3, 1]));
    host.set_hidden(2, false).unwrap();
    assert_eq!(host.visible_children(0), Some(vec![3, 2, 1]));
}

#[test]
fn removal_releases_the_subtree_and_frees_its_ids() {
    let mut host = tree();
    host.begin(2).unwrap();
    let mut retired = Vec::new();
    let released = host.remove(0, &mut retired).unwrap();
    assert_eq!(released.len(), 4);
    assert_eq!(released.last().unwrap().0, 0);
    assert!(host.node(1).is_none());
    assert!(host.roots().is_empty());
    assert_eq!(host.remove(0, &mut retired).err(), Some(HostError::Unknown(0)));
    host.finish().unwrap();
    assert!(host.is_empty());
    // A freed id can be created again, with a newer generation.
    host.begin(3).unwrap();
    assert_eq!(host.prepare_create(1, 1, None), Ok(1));
}

#[test]
fn transactions_apply_in_sequence_and_new_nodes_must_be_placed() {
    let mut host = Host::new(registry());
    assert_eq!(host.begin(2), Err(HostError::OutOfOrder));
    host.begin(1).unwrap();
    create(&mut host, 0, 0);
    assert_eq!(host.finish().err(), Some(HostError::NotAttached(0)));
    assert_eq!(host.prepare_create(0, 0, None), Err(HostError::InUse(0)));
    assert_eq!(host.prepare_create(0xFFFF_FFFE, 0, None), Err(HostError::IdOutOfRange));
    assert_eq!(host.prepare_create(200_000, 0, None), Err(HostError::SkipsTooFar(200_000)));
    assert_eq!(host.prepare_create(5, 1, Some(1)), Err(HostError::NoEvents(1)));
    // The refused subscription still counts: ids must keep increasing.
    assert_eq!(host.prepare_create(5, 0, Some(1)), Err(HostError::SubscriptionOrder));
    assert_eq!(host.prepare_create(5, 0, Some(2)), Ok(0));
    assert_eq!(host.prepare_create(6, 0, Some(2)), Err(HostError::SubscriptionOrder));
    host.place(None, 0, None).unwrap();
    assert!(host.finish().is_ok());
    assert_eq!(host.begin(1), Err(HostError::OutOfOrder));
    assert!(host.begin(2).is_ok());
}

#[test]
fn checked_lookups_name_the_failing_id() {
    let host = tree();
    assert!(host.existing(1).is_ok());
    assert_eq!(host.existing(7).err(), Some(HostError::Unknown(7)));
    assert_eq!(host.checked(1, 0).err(), Some(HostError::Mismatch(1)));
    assert!(host.checked(1, 1).is_ok());
    assert_eq!(HostError::Cycle.message(host.registry()), "child insertion would create a cycle");
}

#[test]
fn error_messages_name_the_view_or_component() {
    let host = tree();
    let registry = host.registry();
    assert_eq!(HostError::Unknown(7).message(registry), "unknown view 7");
    assert_eq!(HostError::Mismatch(1).message(registry), "component mismatch for view 1");
    assert_eq!(HostError::InUse(0).message(registry), "host ID 0 is in use");
    assert_eq!(HostError::SkipsTooFar(200000).message(registry), "host ID 200000 skips too far ahead");
    assert_eq!(HostError::NotAttached(42).message(registry), "new view 42 was not attached");
    assert_eq!(HostError::NoEvents(1).message(registry), "leaf has no events");
    assert_eq!(HostError::ViewNoEvents.message(registry), "view has no events");
    assert_eq!(HostError::RequestOrder.message(registry), "request must increase and fit in 32 bits");
}

#[test]
fn listening_on_a_view_without_events_is_refused() {
    let mut host = tree();
    host.begin(2).unwrap();
    assert_eq!(host.listen(1, Some(1)).err(), Some(HostError::ViewNoEvents));
    assert!(host.listen(0, Some(2)).is_ok());
}

#[test]
fn a_call_runs_on_a_node_of_its_component_or_answers_why_not() {
    let host = tree();
    let found = host.call_target(1, 1, Ok::<u8, String>(9)).unwrap();
    assert_eq!((found.0.slot, found.1), (1, 9));
    assert_eq!(host.call_target(1, 0, Ok::<u8, String>(9)).err(), Some("component mismatch for view 1".to_string()));
    assert_eq!(host.call_target(8, 1, Ok::<u8, String>(9)).err(), Some("unknown view 8".to_string()));
    assert_eq!(host.call_target(1, 1, Err::<u8, String>("bad value".to_string())).err(), Some("bad value".to_string()));
}
