//! Sortable keys, and field indexes over a stored partition.

use fjall::{Config, PartitionCreateOptions, PartitionHandle};
use tempfile::TempDir;
use trondb::error::{EngineError, Got};
use trondb::field_index::{encode_sortable, FieldIndex};
use trondb::types::FieldType;
use trondb::value::{LogicalId, Value};

struct StoredIndex {
    partition: PartitionHandle,
    keys: FieldIndex,
}

impl StoredIndex {
    fn new(partition: PartitionHandle, field_types: Vec<(String, FieldType)>) -> Self {
        StoredIndex { partition, keys: FieldIndex::new(field_types) }
    }

    fn insert(&self, id: &LogicalId, values: &[Value]) -> Result<(), EngineError> {
        let key = self.keys.entry_key(id, values)?;
        self.partition.insert(key, self.keys.entry_value(id)).unwrap();
        Ok(())
    }

    fn remove(&self, id: &LogicalId, values: &[Value]) -> Result<(), EngineError> {
        let key = self.keys.entry_key(id, values)?;
        self.partition.remove(key).unwrap();
        Ok(())
    }

    fn scan(&self, prefix: Vec<u8>) -> Vec<LogicalId> {
        let stored: Vec<Vec<u8>> = self.partition.prefix(prefix).map(|kv| kv.unwrap().1.to_vec()).collect();
        self.keys.stored_ids(&stored)
    }

    fn lookup_eq(&self, values: &[Value]) -> Result<Vec<LogicalId>, EngineError> {
        Ok(self.scan(self.keys.lookup_eq(values)?))
    }

    fn lookup_prefix(&self, values: &[Value]) -> Result<Vec<LogicalId>, EngineError> {
        Ok(self.scan(self.keys.lookup_prefix(values)?))
    }

    fn lookup_range(&self, from: &[Value], to: &[Value]) -> Result<Vec<LogicalId>, EngineError> {
        let (lower, upper) = self.keys.lookup_range(from, to)?;
        let stored: Vec<Vec<u8>> = self.partition.range(lower..=upper).map(|kv| kv.unwrap().1.to_vec()).collect();
        Ok(self.keys.stored_ids(&stored))
    }
}

fn open_test_partition() -> (PartitionHandle, TempDir) {
    let dir = TempDir::new().unwrap();
    let ks = Config::new(dir.path()).open().unwrap();
    let part = ks.open_partition("test_idx", PartitionCreateOptions::default()).unwrap();
    (part, dir)
}

fn text(s: &str) -> Value {
    Value::String(s.into())
}

fn float(x: f64) -> Value {
    Value::Float(x.to_bits())
}

#[test]
fn encode_text_sorts_lexicographically() {
    let a = encode_sortable(&Value::String("alpha".into()), &FieldType::Text).unwrap();
    let b = encode_sortable(&Value::String("beta".into()), &FieldType::Text).unwrap();
    assert!(a < b);
}

#[test]
fn encode_int_negative_before_positive() {
    let neg = encode_sortable(&Value::Int(-10), &FieldType::Int).unwrap();
    let zero = encode_sortable(&Value::Int(0), &FieldType::Int).unwrap();
    let pos = encode_sortable(&Value::Int(10), &FieldType::Int).unwrap();
    assert!(neg < zero);
    assert!(zero < pos);
}

#[test]
fn encode_int_preserves_order() {
    let a = encode_sortable(&Value::Int(100), &FieldType::Int).unwrap();
    let b = encode_sortable(&Value::Int(200), &FieldType::Int).unwrap();
    assert!(a < b);
}

#[test]
fn encode_bool_false_before_true() {
    let f = encode_sortable(&Value::Bool(false), &FieldType::Bool).unwrap();
    let t = encode_sortable(&Value::Bool(true), &FieldType::Bool).unwrap();
    assert!(f < t);
}

#[test]
fn encode_float_preserves_order() {
    let a = encode_sortable(&float(-1.5), &FieldType::Float).unwrap();
    let b = encode_sortable(&float(0.0), &FieldType::Float).unwrap();
    let c = encode_sortable(&float(1.5), &FieldType::Float).unwrap();
    assert!(a < b);
    assert!(b < c);
}

#[test]
fn encode_datetime_sorts_chronologically() {
    let a = encode_sortable(
        &Value::String("2024-01-01T00:00:00Z".into()),
        &FieldType::DateTime,
    ).unwrap();
    let b = encode_sortable(
        &Value::String("2024-06-15T12:00:00Z".into()),
        &FieldType::DateTime,
    ).unwrap();
    assert!(a < b);
}

#[test]
fn encode_compound_key() {
    let key = trondb::field_index::encode_compound_key(
        &[Value::String("venue1".into()), Value::String("2024-01-01T00:00:00Z".into())],
        &[FieldType::Text, FieldType::DateTime],
    ).unwrap();
    assert!(key.contains(&0x00));
}

#[test]
fn compound_key_prefix_ordering() {
    let key_a = trondb::field_index::encode_compound_key(
        &[Value::String("a".into()), Value::String("2024-01-01".into())],
        &[FieldType::Text, FieldType::DateTime],
    ).unwrap();
    let key_b = trondb::field_index::encode_compound_key(
        &[Value::String("b".into()), Value::String("2024-01-01".into())],
        &[FieldType::Text, FieldType::DateTime],
    ).unwrap();
    assert!(key_a < key_b);
}

#[test]
fn field_index_insert_and_lookup_eq() {
    let (partition, _dir) = open_test_partition();
    let idx = StoredIndex::new(partition, vec![("status".into(), FieldType::Text)]);
    let id1 = LogicalId::from_string("e1");
    let id2 = LogicalId::from_string("e2");

    idx.insert(&id1, &[text("active")]).unwrap();
    idx.insert(&id2, &[text("active")]).unwrap();

    let results = idx.lookup_eq(&[text("active")]).unwrap();
    assert_eq!(results.len(), 2);
    assert_eq!(results, vec![id1, id2]);
}

#[test]
fn field_index_lookup_eq_no_match() {
    let (partition, _dir) = open_test_partition();
    let idx = StoredIndex::new(partition, vec![("status".into(), FieldType::Text)]);
    let id1 = LogicalId::from_string("e1");
    idx.insert(&id1, &[text("active")]).unwrap();

    let results = idx.lookup_eq(&[text("inactive")]).unwrap();
    assert!(results.is_empty());
}

#[test]
fn field_index_remove() {
    let (partition, _dir) = open_test_partition();
    let idx = StoredIndex::new(partition, vec![("status".into(), FieldType::Text)]);
    let id1 = LogicalId::from_string("e1");
    idx.insert(&id1, &[text("active")]).unwrap();
    idx.remove(&id1, &[text("active")]).unwrap();

    let results = idx.lookup_eq(&[text("active")]).unwrap();
    assert!(results.is_empty());
}

#[test]
fn field_index_compound_key_prefix_lookup() {
    let (partition, _dir) = open_test_partition();
    let idx = StoredIndex::new(
        partition,
        vec![("venue_id".into(), FieldType::Text), ("start_date".into(), FieldType::DateTime)],
    );
    let id1 = LogicalId::from_string("e1");
    let id2 = LogicalId::from_string("e2");
    let id3 = LogicalId::from_string("e3");

    idx.insert(&id1, &[text("v1"), text("2024-01-01")]).unwrap();
    idx.insert(&id2, &[text("v1"), text("2024-06-01")]).unwrap();
    idx.insert(&id3, &[text("v2"), text("2024-01-01")]).unwrap();

    let results = idx.lookup_prefix(&[text("v1")]).unwrap();
    assert_eq!(results.len(), 2);
    assert_eq!(results, vec![id1, id2]);
}

#[test]
fn field_index_range_lookup() {
    let (partition, _dir) = open_test_partition();
    let idx = StoredIndex::new(partition, vec![("score".into(), FieldType::Int)]);
    for i in 0..10 {
        let id = LogicalId::from_string(&format!("e{i}"));
        idx.insert(&id, &[Value::Int(i * 10)]).unwrap();
    }
    let results = idx.lookup_range(&[Value::Int(20)], &[Value::Int(50)]).unwrap();
    assert_eq!(results.len(), 4);
    let names: Vec<&str> = results.iter().map(|id| id.as_str()).collect();
    assert_eq!(names, vec!["e2", "e3", "e4", "e5"]);
}

#[test]
fn field_index_lookup_eq_wrong_count_fails() {
    let (partition, _dir) = open_test_partition();
    let idx = StoredIndex::new(
        partition,
        vec![("a".into(), FieldType::Text), ("b".into(), FieldType::Text)],
    );
    let result = idx.lookup_eq(&[text("x")]);
    assert!(result.is_err());
    assert!(matches!(
        result,
        Err(EngineError::InvalidQuery(m)) if m == "lookup_eq requires 2 values, got 1"
    ));
}

#[test]
fn encoded_bytes_are_exact() {
    assert_eq!(encode_sortable(&Value::Int(0), &FieldType::Int).unwrap(), vec![0x80, 0, 0, 0, 0, 0, 0, 0]);
    assert_eq!(encode_sortable(&Value::Int(-1), &FieldType::Int).unwrap(), vec![0x7F, 255, 255, 255, 255, 255, 255, 255]);
    assert_eq!(encode_sortable(&float(1.5), &FieldType::Float).unwrap(), vec![0xBF, 0xF8, 0, 0, 0, 0, 0, 0]);
    assert_eq!(
        encode_sortable(&float(-1.5), &FieldType::Float).unwrap(),
        vec![0x40, 0x07, 255, 255, 255, 255, 255, 255]
    );
    assert_eq!(encode_sortable(&Value::Bool(true), &FieldType::Bool).unwrap(), vec![1]);
    assert_eq!(encode_sortable(&text("é"), &FieldType::Text).unwrap(), vec![0xC3, 0xA9, 0]);
    let key = trondb::field_index::encode_compound_key(
        &[text("v"), Value::Bool(false)],
        &[FieldType::Text, FieldType::Bool],
    ).unwrap();
    assert_eq!(key, vec![b'v', 0, 0]);
}

#[test]
fn entry_key_ends_with_the_id() {
    let idx = FieldIndex::new(vec![("status".into(), FieldType::Text)]);
    let id = LogicalId::from_string("e1");
    assert_eq!(idx.entry_key(&id, &[text("on")]).unwrap(), b"on\0\0e1".to_vec());
    assert_eq!(idx.entry_value(&id), b"e1".to_vec());
    let (lower, upper) = idx.lookup_range(&[text("a")], &[text("b")]).unwrap();
    assert_eq!(lower, b"a\0".to_vec());
    assert_eq!(upper.len(), 67);
    assert_eq!(upper[..2].to_vec(), b"b\0".to_vec());
    assert!(upper[2..].iter().all(|b| *b == 0xFF));
}

#[test]
fn wrong_types_are_refused() {
    let e = encode_sortable(&text("a\"b"), &FieldType::Int);
    match e {
        Err(EngineError::InvalidFieldType { field: _, expected, got }) => {
            assert_eq!(expected, "Int");
            match got {
                Got::Text(t) => assert_eq!(t, "String(\"a\\\"b\")"),
                other => panic!("unexpected {other:?}"),
            }
        }
        other => panic!("unexpected {other:?}"),
    }
    assert!(encode_sortable(&Value::Null, &FieldType::Text).is_err());
    assert!(encode_sortable(&Value::Int(1), &FieldType::EntityRef("venues".into())).is_err());
    match encode_sortable(&float(1.5), &FieldType::Int) {
        Err(EngineError::InvalidFieldType { field, expected, got: Got::Float(bits) }) => {
            assert_eq!(field, "Int");
            assert_eq!(expected, "Int");
            assert_eq!(bits, 1.5f64.to_bits());
        }
        other => panic!("unexpected {other:?}"),
    }
}

#[test]
fn both_zeros_have_one_key() {
    let key = |x: f64| encode_sortable(&float(x), &FieldType::Float).unwrap();
    assert_eq!(key(-0.0), key(0.0));
    assert_eq!(key(0.0), vec![0x80, 0, 0, 0, 0, 0, 0, 0]);
    assert!(key(-1.5) < key(-0.0));
    assert!(key(-5.0e-324) < key(-0.0));
    assert!(key(-0.0) < key(5.0e-324));
    assert!(key(f64::NEG_INFINITY) < key(-1.5));
    let idx = FieldIndex::new(vec![("x".into(), FieldType::Float)]);
    let stored = idx.entry_key(&LogicalId::from_string("e1"), &[float(-0.0)]).unwrap();
    let asked = idx.lookup_eq(&[float(0.0)]).unwrap();
    assert!(stored.starts_with(&asked));
}

#[test]
fn stored_ids_skip_what_is_no_text() {
    let idx = FieldIndex::new(vec![("status".into(), FieldType::Text)]);
    let ids = idx.stored_ids(&vec![b"e1".to_vec(), vec![0xFF, 0xFE], b"e2".to_vec()]);
    assert_eq!(ids, vec![LogicalId::from_string("e1"), LogicalId::from_string("e2")]);
}

#[test]
fn lookups_find_what_is_live_in_order() {
    let (part, _dir) = open_test_partition();
    let idx = StoredIndex::new(part, vec![("city".into(), FieldType::Text), ("open".into(), FieldType::Bool)]);
    let values = |city: &str, open: bool| [text(city), Value::Bool(open)];
    let e = |s: &str| LogicalId::from_string(s);
    idx.insert(&e("b"), &values("London", true)).unwrap();
    idx.insert(&e("a"), &values("London", true)).unwrap();
    idx.insert(&e("é"), &values("London", true)).unwrap();
    idx.insert(&e("B"), &values("London", true)).unwrap();
    idx.insert(&e("a"), &values("London", true)).unwrap();
    idx.insert(&e("c"), &values("London", false)).unwrap();
    idx.insert(&e("d"), &values("Lond", true)).unwrap();
    idx.remove(&e("b"), &values("London", true)).unwrap();
    idx.remove(&e("a"), &values("London", false)).unwrap();
    assert_eq!(idx.lookup_eq(&values("London", true)).unwrap(), vec![e("B"), e("a"), e("é")]);
    assert_eq!(idx.lookup_eq(&values("London", false)).unwrap(), vec![e("c")]);
    idx.insert(&e("b"), &values("London", true)).unwrap();
    idx.remove(&e("B"), &values("London", true)).unwrap();
    assert_eq!(idx.lookup_eq(&values("London", true)).unwrap(), vec![e("a"), e("b"), e("é")]);
}

#[test]
fn a_stored_negative_zero_is_found() {
    let (part, _dir) = open_test_partition();
    let idx = StoredIndex::new(part, vec![("x".into(), FieldType::Float)]);
    let e = |s: &str| LogicalId::from_string(s);
    idx.insert(&e("minus"), &[float(-0.0)]).unwrap();
    idx.insert(&e("plus"), &[float(0.0)]).unwrap();
    idx.insert(&e("low"), &[float(-1.5)]).unwrap();
    assert_eq!(idx.lookup_eq(&[float(0.0)]).unwrap(), vec![e("minus"), e("plus")]);
    assert_eq!(idx.lookup_range(&[float(-2.0)], &[float(-0.0)]).unwrap(), vec![e("low"), e("minus"), e("plus")]);
}
