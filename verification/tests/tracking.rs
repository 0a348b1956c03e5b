//! The collections of entities and the entities that wait for inference.

use trondb::error::EngineError;
use trondb::tracking::{EntityCollections, InferenceQueue};
use trondb::value::LogicalId;

fn id(s: &str) -> LogicalId {
    LogicalId::from_string(s)
}

#[test]
fn entities_are_tracked() {
    let mut homes = EntityCollections::new();
    assert_eq!(homes.get(&id("v1")), None);
    homes.track(&id("v1"), "venues");
    homes.track(&id("v2"), "venues");
    homes.track(&id("p1"), "people");
    assert_eq!(homes.find_collection_for_entity(&id("v1")).unwrap(), "venues");
    homes.track(&id("v2"), "people");
    assert_eq!(homes.get(&id("v2")), Some("people".to_string()));
    match homes.find_collection_for_entity(&id("x")) {
        Err(EngineError::EntityNotFound(n)) => assert_eq!(n, "x"),
        other => panic!("{other:?}"),
    }
}

#[test]
fn a_dropped_collection_leaves_no_entities() {
    let mut homes = EntityCollections::new();
    for (e, c) in [("a", "x"), ("b", "y"), ("c", "x")] {
        homes.track(&id(e), c);
    }
    let mut gone: Vec<String> = homes.forget_collection("x").iter().map(|e| e.as_str().to_string()).collect();
    gone.sort();
    assert_eq!(gone, vec!["a", "c"]);
    assert_eq!(homes.get(&id("a")), None);
    assert_eq!(homes.get(&id("b")), Some("y".to_string()));
    assert!(homes.forget_collection("x").is_empty());
}

#[test]
fn each_entity_waits_once() {
    let mut queue = InferenceQueue::new();
    queue.enqueue(&id("a"));
    queue.enqueue(&id("b"));
    queue.enqueue(&id("a"));
    assert!(queue.contains(&id("a")));
    let mut taken: Vec<String> = queue.take_all().iter().map(|e| e.as_str().to_string()).collect();
    taken.sort();
    assert_eq!(taken, vec!["a", "b"]);
    assert!(!queue.contains(&id("a")));
    assert!(queue.take_all().is_empty());
}
