//! Vector indexes: the bookkeeping of the library with a real graph beside it.

use anndists::dist::DistCosine;
use hnsw_rs::hnsw::Hnsw;
use trondb::index::{
    Found, HnswIdMap, HnswIndex, EF_CONSTRUCTION, EF_SEARCH, MAX_ELEMENTS, MAX_LAYER, MAX_NB_CONNECTION,
};
use trondb::value::LogicalId;

fn make_id(s: &str) -> LogicalId {
    LogicalId::from_string(s)
}

struct VectorIndex {
    graph: Hnsw<'static, f32, DistCosine>,
    book: HnswIndex,
}

fn new_graph() -> Hnsw<'static, f32, DistCosine> {
    Hnsw::new(MAX_NB_CONNECTION, MAX_ELEMENTS, MAX_LAYER, EF_CONSTRUCTION, DistCosine)
}

impl VectorIndex {
    fn new(dimensions: usize) -> Self {
        VectorIndex { graph: new_graph(), book: HnswIndex::new(dimensions) }
    }

    fn insert(&mut self, id: &LogicalId, vector: &[f32]) {
        if let Some(slot) = self.book.insert(id) {
            self.graph.insert((vector, slot));
        }
    }

    fn remove(&mut self, id: &LogicalId) {
        self.book.remove(id);
    }

    fn rebuild(&mut self, live: &[(LogicalId, Vec<f32>)]) {
        let ids: Vec<LogicalId> = live.iter().map(|(id, _)| id.clone()).collect();
        let slots = self.book.rebuild(&ids);
        self.graph = new_graph();
        for (slot, (_, vector)) in slots.iter().zip(live) {
            self.graph.insert((vector.as_slice(), *slot));
        }
    }

    fn search(&self, query: &[f32], k: usize) -> Vec<(LogicalId, f32)> {
        if self.book.is_empty() {
            return Vec::new();
        }
        let found: Vec<Found> = self
            .graph
            .search(query, k, EF_SEARCH)
            .iter()
            .map(|n| Found { slot: n.d_id, similarity: (1.0 - n.distance).to_bits() })
            .collect();
        self.book.resolve(&found).into_iter().map(|h| (h.id, f32::from_bits(h.score))).collect()
    }
}

#[test]
fn insert_and_search() {
    let mut idx = VectorIndex::new(3);
    idx.insert(&make_id("e1"), &[1.0, 0.0, 0.0]);
    idx.insert(&make_id("e2"), &[0.0, 1.0, 0.0]);
    idx.insert(&make_id("e3"), &[0.9, 0.1, 0.0]);

    let results = idx.search(&[1.0, 0.0, 0.0], 3);
    assert!(results.len() >= 2 && results.len() <= 3);
    assert_eq!(results[0].0, make_id("e1"));
    assert!(results[0].1 > 0.99);
}

#[test]
fn search_empty_index() {
    let idx = VectorIndex::new(3);
    let results = idx.search(&[1.0, 0.0, 0.0], 5);
    assert!(results.is_empty());
}

#[test]
fn idempotent_insert() {
    let mut idx = VectorIndex::new(3);
    idx.insert(&make_id("e1"), &[1.0, 0.0, 0.0]);
    idx.insert(&make_id("e1"), &[1.0, 0.0, 0.0]);
    assert_eq!(idx.book.len(), 1);
}

#[test]
fn similarity_score_range() {
    let mut idx = VectorIndex::new(3);
    idx.insert(&make_id("e1"), &[1.0, 0.0, 0.0]);
    idx.insert(&make_id("e2"), &[0.0, 1.0, 0.0]);

    let results = idx.search(&[1.0, 0.0, 0.0], 2);
    assert_eq!(results.len(), 2);
    assert!(results[0].1 > 0.9);
    assert!(results[1].1 < 0.1);
}

#[test]
fn results_sorted_descending() {
    let mut idx = VectorIndex::new(3);
    idx.insert(&make_id("e1"), &[1.0, 0.0, 0.0]);
    idx.insert(&make_id("e2"), &[0.5, 0.5, 0.0]);
    idx.insert(&make_id("e3"), &[0.0, 1.0, 0.0]);

    let results = idx.search(&[1.0, 0.0, 0.0], 3);
    for w in results.windows(2) {
        assert!(w[0].1 >= w[1].1, "results should be sorted by descending similarity");
    }
}

#[test]
fn len_and_dimensions() {
    let mut idx = VectorIndex::new(5);
    assert_eq!(idx.book.dimensions(), 5);
    assert_eq!(idx.book.len(), 0);
    assert!(idx.book.is_empty());

    idx.insert(&make_id("e1"), &[1.0, 0.0, 0.0, 0.0, 0.0]);
    assert_eq!(idx.book.len(), 1);
    assert!(!idx.book.is_empty());
}

#[test]
fn remove_excludes_from_search() {
    let mut idx = VectorIndex::new(3);
    idx.insert(&make_id("e1"), &[1.0, 0.0, 0.0]);
    idx.insert(&make_id("e2"), &[0.0, 1.0, 0.0]);
    idx.insert(&make_id("e3"), &[0.9, 0.1, 0.0]);

    idx.remove(&make_id("e1"));

    let results = idx.search(&[1.0, 0.0, 0.0], 3);
    assert!(results.iter().all(|(id, _)| id != &make_id("e1")));
    assert_eq!(idx.book.len(), 2);
}

#[test]
fn remove_nonexistent_is_noop() {
    let mut idx = VectorIndex::new(3);
    idx.insert(&make_id("e1"), &[1.0, 0.0, 0.0]);
    idx.remove(&make_id("nonexistent"));
    assert_eq!(idx.book.len(), 1);
}

#[test]
fn tombstone_count_tracking() {
    let mut idx = VectorIndex::new(3);
    idx.insert(&make_id("e1"), &[1.0, 0.0, 0.0]);
    idx.insert(&make_id("e2"), &[0.0, 1.0, 0.0]);
    assert_eq!(idx.book.tombstone_count(), 0);
    idx.remove(&make_id("e1"));
    assert_eq!(idx.book.tombstone_count(), 1);
    assert!(idx.book.needs_rebuild());
}

#[test]
fn rebuild_clears_tombstones() {
    let mut idx = VectorIndex::new(3);
    idx.insert(&make_id("e1"), &[1.0, 0.0, 0.0]);
    idx.insert(&make_id("e2"), &[0.0, 1.0, 0.0]);
    idx.insert(&make_id("e3"), &[0.5, 0.5, 0.0]);
    idx.remove(&make_id("e1"));

    let live_data: Vec<(LogicalId, Vec<f32>)> = vec![
        (make_id("e2"), vec![0.0, 1.0, 0.0]),
        (make_id("e3"), vec![0.5, 0.5, 0.0]),
    ];
    idx.rebuild(&live_data);

    assert_eq!(idx.book.len(), 2);
    assert_eq!(idx.book.tombstone_count(), 0);
    assert!(!idx.book.needs_rebuild());

    let results = idx.search(&[0.0, 1.0, 0.0], 2);
    assert_eq!(results[0].0, make_id("e2"));
}

#[test]
fn slots_are_given_in_order() {
    let mut book = HnswIndex::new(2);
    assert_eq!(book.insert(&make_id("a")), Some(0));
    assert_eq!(book.insert(&make_id("b")), Some(1));
    assert_eq!(book.insert(&make_id("a")), None);
    book.remove(&make_id("a"));
    book.remove(&make_id("a"));
    assert_eq!(book.tombstone_count(), 1);
    assert_eq!(book.insert(&make_id("a")), None);
    let hits = book.resolve(&vec![
        Found { slot: 0, similarity: 0.9f32.to_bits() },
        Found { slot: 1, similarity: 0.1f32.to_bits() },
        Found { slot: 7, similarity: 0.5f32.to_bits() },
    ]);
    assert_eq!(hits.len(), 1);
    assert_eq!(hits[0].id, make_id("b"));
}

#[test]
fn rebuild_is_due_above_a_tenth() {
    let mut book = HnswIndex::new(2);
    for i in 0..22 {
        book.insert(&make_id(&format!("e{i}")));
    }
    book.remove(&make_id("e0"));
    book.remove(&make_id("e1"));
    assert!(!book.needs_rebuild());
    book.remove(&make_id("e2"));
    assert!(book.needs_rebuild());
    let mut gone = HnswIndex::new(2);
    assert!(!gone.needs_rebuild());
    gone.insert(&make_id("x"));
    gone.remove(&make_id("x"));
    assert!(gone.needs_rebuild());
}

#[test]
fn id_maps_are_restored() {
    let mut book = HnswIndex::new(3);
    book.insert(&make_id("e1"));
    book.insert(&make_id("e2"));
    book.insert(&make_id("e3"));
    book.remove(&make_id("e2"));
    let map = book.snapshot_id_maps();
    assert_eq!(map.next_idx, 3);
    assert_eq!(map.tombstones, vec!["e2".to_string()]);
    let mut pairs = map.id_to_idx.clone();
    pairs.sort();
    assert_eq!(pairs, vec![("e1".to_string(), 0), ("e2".to_string(), 1), ("e3".to_string(), 2)]);
    let mut back = HnswIndex::from_snapshot(3, &map);
    assert_eq!(back.len(), 2);
    assert_eq!(back.tombstone_count(), 1);
    assert_eq!(back.insert(&make_id("e4")), Some(3));
    assert_eq!(back.insert(&make_id("e2")), None);
    let twice = HnswIdMap {
        id_to_idx: vec![("a".into(), 0)],
        idx_to_id: vec![(0, "a".into())],
        next_idx: 1,
        tombstones: vec!["a".into(), "a".into()],
    };
    assert_eq!(HnswIndex::from_snapshot(1, &twice).tombstone_count(), 1);
}

#[test]
fn an_entity_counts_once_until_a_rebuild() {
    let mut book = HnswIndex::new(2);
    book.insert(&make_id("a"));
    book.insert(&make_id("b"));
    book.insert(&make_id("a"));
    assert_eq!((book.len(), book.tombstone_count()), (2, 0));
    book.remove(&make_id("a"));
    book.insert(&make_id("a"));
    assert_eq!((book.len(), book.tombstone_count()), (1, 1));
    book.remove(&make_id("c"));
    assert_eq!((book.len(), book.tombstone_count()), (1, 1));
    book.rebuild(&vec![make_id("b")]);
    assert_eq!((book.len(), book.tombstone_count()), (1, 0));
    assert_eq!(book.insert(&make_id("a")), Some(1));
    assert_eq!((book.len(), book.tombstone_count()), (2, 0));
}
