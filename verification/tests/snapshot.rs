//! Snapshots of vector indexes.

use anndists::dist::DistCosine;
use hnsw_rs::hnsw::Hnsw;
use hnsw_rs::hnswio::HnswIo;
use hnsw_rs::prelude::AnnT;
use trondb::hnsw_snapshot::{
    basename, check_meta, check_snapshot, checksum, checksum_of_digest, hex_of, snapshot_meta, split_key,
};
use trondb::id_map::{decode_id_map, encode_id_map, id_map_of, restored_index, saved_id_map};
use trondb::index::{
    Found, HnswIdMap, HnswIndex, EF_CONSTRUCTION, EF_SEARCH, MAX_ELEMENTS, MAX_LAYER, MAX_NB_CONNECTION,
};
use trondb::value::LogicalId;

fn make_id(s: &str) -> LogicalId {
    LogicalId::from_string(s)
}

fn filled(ids: &[&str]) -> HnswIndex {
    let mut index = HnswIndex::new(3);
    for id in ids {
        index.insert(&make_id(id));
    }
    index
}

#[test]
fn snapshot_meta_contains_correct_values() {
    let index = filled(&["e1", "e2", "e3"]);
    let idmap = saved_id_map(&index).unwrap();
    let meta = snapshot_meta(&index, 42, checksum(b"graph", b"data", &idmap));
    assert_eq!(meta.version, 1);
    assert_eq!(meta.entity_count, 3);
    assert_eq!(meta.lsn, 42);
    assert_eq!(meta.dimensions, 3);
    assert!(meta.checksum.starts_with("sha256:"));
}

#[test]
fn snapshot_idmap_round_trips() {
    let index = filled(&["e1", "e2"]);
    let bytes = saved_id_map(&index).unwrap();
    let idmap = decode_id_map(&bytes).unwrap();
    assert_eq!(idmap.id_to_idx.len(), 2);
    assert_eq!(idmap.idx_to_id.len(), 2);
    assert_eq!(idmap.next_idx, 2);
    assert!(idmap.tombstones.is_empty());
    assert!(idmap.id_to_idx.iter().any(|p| p.0 == "e1"));
    assert!(idmap.id_to_idx.iter().any(|p| p.0 == "e2"));
}

#[test]
fn snapshot_save_and_load_roundtrip() {
    let dir = tempfile::tempdir().unwrap();
    let mut graph: Hnsw<'static, f32, DistCosine> =
        Hnsw::new(MAX_NB_CONNECTION, MAX_ELEMENTS, MAX_LAYER, EF_CONSTRUCTION, DistCosine);
    let mut index = HnswIndex::new(3);
    for (id, v) in [("e1", [1.0f32, 0.0, 0.0]), ("e2", [0.0, 1.0, 0.0]), ("e3", [0.5, 0.5, 0.0])] {
        let slot = index.insert(&make_id(id)).unwrap();
        graph.insert((v.as_slice(), slot));
    }
    index.remove(&make_id("e2"));

    let name = basename("venues", "default");
    graph.file_dump(dir.path(), &name).unwrap();
    assert!(dir.path().join("venues_default.hnsw.graph").exists());
    assert!(dir.path().join("venues_default.hnsw.data").exists());
    let idmap = saved_id_map(&index).unwrap();
    let meta = snapshot_meta(&index, 42, checksum(b"graph", b"data", &idmap));

    assert!(check_snapshot(&meta, b"graph", b"data", &idmap).is_ok());
    assert_eq!(meta.lsn, 42);
    assert_eq!(meta.version, 1);
    let reader = Box::leak(Box::new(HnswIo::new(dir.path(), &name)));
    let restored_graph: Hnsw<'static, f32, DistCosine> = reader.load_hnsw().unwrap();
    let restored = restored_index(meta.dimensions, &idmap).unwrap();

    let found: Vec<Found> = restored_graph
        .search(&[1.0, 0.0, 0.0], 5, EF_SEARCH)
        .iter()
        .map(|n| Found { slot: n.d_id, similarity: (1.0 - n.distance).to_bits() })
        .collect();
    let results = restored.resolve(&found);
    assert!(!results.is_empty(), "search should return results");
    assert!(
        results.iter().all(|h| h.id != make_id("e2")),
        "tombstoned entity should not appear in results"
    );
    assert!(results.iter().any(|h| h.id == make_id("e1")), "e1 should be in results");
    assert_eq!(restored.len(), 2);
    assert_eq!(restored.tombstone_count(), 1);
    assert_eq!(restored.dimensions(), 3);
}

#[test]
fn snapshot_preserves_tombstones() {
    let mut index = filled(&["e1", "e2"]);
    index.remove(&make_id("e1"));
    let idmap = decode_id_map(&saved_id_map(&index).unwrap()).unwrap();
    assert_eq!(idmap.tombstones.len(), 1);
    assert!(idmap.tombstones.contains(&"e1".to_string()));
}

#[test]
fn id_map_bytes_are_exact() {
    let map = HnswIdMap {
        id_to_idx: vec![("a".into(), 0)],
        idx_to_id: vec![(0, "a".into())],
        next_idx: 1,
        tombstones: vec![],
    };
    let mut expected: Vec<u8> = Vec::new();
    for n in [1u64, 1] {
        expected.extend_from_slice(&n.to_le_bytes());
    }
    expected.push(b'a');
    for n in [0u64, 1, 0, 1] {
        expected.extend_from_slice(&n.to_le_bytes());
    }
    expected.push(b'a');
    for n in [1u64, 0] {
        expected.extend_from_slice(&n.to_le_bytes());
    }
    assert_eq!(encode_id_map(&map).unwrap(), expected);
    let back = decode_id_map(&expected).unwrap();
    assert_eq!(back.id_to_idx, map.id_to_idx);
    assert_eq!(back.idx_to_id, map.idx_to_id);
}

#[test]
fn broken_id_maps_are_refused() {
    let message = decode_id_map(&[1, 2, 3]).err().unwrap();
    assert!(message.starts_with("idmap deserialise failed: "));
    assert!(restored_index(3, &[1, 2, 3]).is_err());
    let map = id_map_of(&vec![("x".to_string(), 4)], &vec![(4, "x".to_string())], 5, &vec!["x".to_string()]).unwrap();
    assert_eq!(map.next_idx, 5);
    assert_eq!(map.id_to_idx, vec![("x".to_string(), 4)]);
}

#[test]
fn checksum_is_the_digest_of_all_parts() {
    let abc = "sha256:ba7816bf8f01cfea414140de5dae2223b00361a396177a9cb410ff61f20015ad";
    assert_eq!(checksum(b"a", b"b", b"c"), abc);
    assert_eq!(checksum(b"abc", b"", b""), abc);
    assert_ne!(checksum(b"a", b"b", b"d"), abc);
    assert_eq!(hex_of(&vec![0, 0x0f, 0xa0, 0xff]), "000fa0ff");
    assert_eq!(checksum_of_digest(&vec![1, 2]), "sha256:0102");
}

#[test]
fn misfit_snapshots_are_refused() {
    let index = filled(&["e1"]);
    let good = checksum(b"g", b"d", b"i");
    let meta = snapshot_meta(&index, 1, good.clone());
    assert!(check_meta(&meta, &good).is_ok());
    let mut old = snapshot_meta(&index, 1, good.clone());
    old.version = 2;
    assert_eq!(check_meta(&old, &good).unwrap_err(), "unsupported snapshot version: 2");
    let mut other = snapshot_meta(&index, 1, good.clone());
    other.max_nb_connection = 8;
    assert_eq!(
        check_meta(&other, &good).unwrap_err(),
        "HNSW parameter mismatch: snapshot(8,100000,200) != current(16,100000,200)"
    );
    let fault = check_snapshot(&meta, b"g", b"d", b"j").unwrap_err();
    assert_eq!(
        fault,
        format!("checksum mismatch: computed {} != stored {}", checksum(b"g", b"d", b"j"), good)
    );
}

#[test]
fn keys_split_at_the_first_colon() {
    assert_eq!(split_key("venues:default"), Some(("venues".to_string(), "default".to_string())));
    assert_eq!(split_key("a:b:c"), Some(("a".to_string(), "b:c".to_string())));
    assert_eq!(split_key("plain"), None);
    assert_eq!(split_key(":x"), Some(("".to_string(), "x".to_string())));
}

#[test]
fn inconsistent_id_maps_are_told_apart() {
    let index = |m: &HnswIdMap| restored_index(3, &encode_id_map(m).unwrap()).unwrap();
    let mut saved = filled(&["a", "b"]);
    saved.remove(&make_id("a"));
    let mut map = saved.snapshot_id_maps();
    assert!(saved.is_well_formed());
    assert!(index(&map).is_well_formed());
    assert_eq!(index(&map).len(), 1);
    map.tombstones.push("never".to_string());
    assert!(!index(&map).is_well_formed());
    map.tombstones.pop();
    map.next_idx = 1;
    assert!(!index(&map).is_well_formed());
    assert!(index(&map).has_room());
    map.next_idx = usize::MAX;
    assert!(!index(&map).has_room());
    map.next_idx = 2;
    map.idx_to_id.pop();
    assert!(!index(&map).is_well_formed());
}
