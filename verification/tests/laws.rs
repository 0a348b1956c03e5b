//! What holds across statements, on concrete values.

use std::collections::{BTreeMap, BTreeSet};

use trondb::background::is_recomputed;
use trondb::confirm::{confirm, ConfirmPlan};
use trondb::edge::{bounded_confidence, Edge, EdgeSource};
use trondb::fetch::{fetch_in_range, fetch_looked_up, fetch_scanned, range_bounds_from_clause, FetchPlan, FetchStrategy};
use trondb::field_index::FieldIndex;
use trondb::fields::FieldMap;
use trondb::filter::{entity_matches, WhereClause};
use trondb::insert::{build_entity, indexed_values, InsertPlan};
use trondb::journal::{effects, records, steps, Statement, Step};
use trondb::location::LocState;
use trondb::replay::{
    apply_wal_record, records_after, replay_step, wal_records_since, RecordType, ReplayAction, WalRecord,
};
use trondb::rows::FieldList;
use trondb::types::{CollectionSchema, Entity, FieldType, Metric, StoredRepresentation};
use trondb::update::{apply_assignments, values_or_null};
use trondb::value::{Literal, LogicalId, Value};

fn id(s: &str) -> LogicalId {
    LogicalId::from_string(s)
}

fn text(s: &str) -> Value {
    Value::String(s.to_string())
}

fn lit(s: &str) -> Literal {
    Literal::String(s.to_string())
}

fn inserted(name: &str, city: &str, seats: i64) -> Entity {
    let p = InsertPlan {
        collection: "venues".into(),
        fields: vec!["id".into(), "city".into(), "seats".into()],
        values: vec![lit(name), lit(city), Literal::Int(seats)],
        vectors: vec![],
    };
    build_entity(&p, &id(name), &vec![])
}

fn fetch(condition: WhereClause) -> FetchPlan {
    FetchPlan {
        collection: "venues".into(),
        fields: FieldList::All,
        filter: Some(condition),
        order_by: vec![],
        limit: None,
        strategy: FetchStrategy::FullScan,
        hints: vec![],
    }
}

#[test]
fn what_is_inserted_is_read_back() {
    let all = vec![inserted("v1", "London", 80), inserted("v2", "Paris", 20)];
    let r = fetch_scanned(&all, &fetch(WhereClause::Eq("city".into(), lit("London"))));
    assert_eq!(r.rows.len(), 1);
    assert_eq!(r.rows[0].values.get("id"), Some(&text("v1")));
    assert_eq!(r.rows[0].values.get("seats"), Some(&Value::Int(80)));
}

#[test]
fn what_is_updated_is_read_back() {
    let mut e = inserted("v1", "London", 80);
    apply_assignments(&mut e, &vec![("city".into(), lit("Rome")), ("city".into(), lit("Oslo"))]);
    let r = fetch_scanned(&vec![e], &fetch(WhereClause::Eq("city".into(), lit("Oslo"))));
    assert_eq!(r.rows[0].values.get("city"), Some(&text("Oslo")));
    assert_eq!(r.rows[0].values.get("seats"), Some(&Value::Int(80)));
}

#[test]
fn conditions_have_opposites() {
    let e = inserted("v1", "London", 80);
    let eq = |n| WhereClause::Eq("seats".into(), Literal::Int(n));
    let neq = |n| WhereClause::Neq("seats".into(), Literal::Int(n));
    for n in [80, 81] {
        assert_ne!(entity_matches(&e, &eq(n)), entity_matches(&e, &neq(n)));
        assert_ne!(entity_matches(&e, &eq(n)), entity_matches(&e, &WhereClause::Not(Box::new(eq(n)))));
    }
    for f in ["city", "gone"] {
        assert_ne!(
            entity_matches(&e, &WhereClause::IsNull(f.into())),
            entity_matches(&e, &WhereClause::IsNotNull(f.into()))
        );
    }
}

/// The entries of an index, kept as statements keep them.
struct Kept {
    index: FieldIndex,
    fields: Vec<String>,
    entries: BTreeSet<Vec<u8>>,
}

impl Kept {
    fn values(&self, m: &FieldMap) -> Option<Vec<Value>> {
        indexed_values(self.index.field_types(), m)
    }

    fn insert(&mut self, old: Option<&Entity>, new: &Entity) {
        if let Some(values) = old.and_then(|e| self.values(&e.metadata)) {
            self.entries.remove(&self.index.entry_key(&new.id, &values).unwrap());
        }
        if let Some(values) = self.values(&new.metadata) {
            self.entries.insert(self.index.entry_key(&new.id, &values).unwrap());
        }
    }

    fn delete(&mut self, old: &Entity) {
        if let Ok(key) = self.index.entry_key(&old.id, &values_or_null(&self.fields, &old.metadata)) {
            self.entries.remove(&key);
        }
    }

    fn rebuilt(&self, store: &BTreeMap<String, Entity>) -> BTreeSet<Vec<u8>> {
        store
            .values()
            .filter_map(|e| self.values(&e.metadata).map(|v| self.index.entry_key(&e.id, &v).unwrap()))
            .collect()
    }
}

#[test]
fn an_index_holds_what_is_stored() {
    let types = vec![("city".to_string(), FieldType::Text), ("seats".to_string(), FieldType::Int)];
    let mut kept = Kept {
        index: FieldIndex::new(types),
        fields: vec!["city".into(), "seats".into()],
        entries: BTreeSet::new(),
    };
    let mut store: BTreeMap<String, Entity> = BTreeMap::new();
    for e in [inserted("a", "London", 1), inserted("b", "London", 1), inserted("a", "Paris", 2)] {
        kept.insert(store.get(e.id.as_str()), &e);
        store.insert(e.id.as_str().to_string(), e);
        assert_eq!(kept.entries, kept.rebuilt(&store));
    }
    let bare = Entity::new(id("c"));
    kept.insert(None, &bare);
    store.insert("c".into(), bare);
    assert_eq!(kept.entries, kept.rebuilt(&store));
    assert_eq!(kept.entries.len(), 2);
    for name in ["b", "c"] {
        let old = store.remove(name).unwrap();
        kept.delete(&old);
        assert_eq!(kept.entries, kept.rebuilt(&store));
    }
    assert_eq!(kept.entries.len(), 1);
}

#[test]
fn a_lookup_answers_what_a_scan_does() {
    let all = vec![inserted("a", "London", 1), inserted("b", "Lon", 1), inserted("c", "London", 3)];
    let index = FieldIndex::new(vec![("city".to_string(), FieldType::Text)]);
    let prefix = index.lookup_eq(&[text("London")]).unwrap();
    let condition = || WhereClause::Eq("city".into(), lit("London"));
    let scanned = fetch_scanned(&all, &fetch(condition()));
    let found: Vec<Option<Entity>> = all
        .iter()
        .filter(|e| {
            let values = indexed_values(index.field_types(), &e.metadata).unwrap();
            index.entry_key(&e.id, &values).unwrap().starts_with(&prefix)
        })
        .map(|e| Some(e.clone()))
        .collect();
    let looked_up = fetch_looked_up(&found, &fetch(condition()));
    let ids = |rows: &Vec<trondb::rows::Row>| -> Vec<Value> {
        rows.iter().map(|r| r.values.get("id").unwrap().clone()).collect()
    };
    assert_eq!(ids(&scanned.rows), ids(&looked_up.rows));
    assert_eq!(ids(&scanned.rows), vec![text("a"), text("c")]);
}

#[test]
fn replay_repeats_what_was_done() {
    let deletion = replay_step(RecordType::EntityDelete, true, 0, &vec![]);
    for action in effects(&Statement::DeleteEntity) {
        assert!(deletion.actions.contains(&action));
    }
    let edge = replay_step(RecordType::EdgeConfirm, true, 0, &vec![]);
    assert_eq!(edge.actions, effects(&Statement::ConfirmEdge));
    let stale = replay_step(RecordType::ReprDirty, true, 2, &vec![Some(LocState::Clean)]);
    assert_eq!(stale.actions, vec![ReplayAction::Transition(2, LocState::Dirty)]);
    assert_eq!(records(&Statement::Update(vec![2])), vec![RecordType::EntityWrite, RecordType::ReprDirty]);
}

/// A store of one collection and one entity, as far as a statement changes it.
#[derive(Clone, Debug, PartialEq)]
struct Disk {
    collection: bool,
    entity: Option<u8>,
}

fn apply(actions: &[ReplayAction], disk: &mut Disk) {
    for a in actions {
        match a {
            ReplayAction::StoreCollection => disk.collection = true,
            ReplayAction::StoreEntity => disk.entity = Some(7),
            ReplayAction::DeleteEntity => disk.entity = None,
            ReplayAction::DropCollection => *disk = Disk { collection: false, entity: None },
            _ => {}
        }
    }
}

#[test]
fn recovery_finishes_what_was_cut_short() {
    let cases = [
        (Statement::CreateCollection, Disk { collection: false, entity: None }),
        (Statement::Insert(2), Disk { collection: true, entity: None }),
        (Statement::Update(vec![0]), Disk { collection: true, entity: Some(1) }),
        (Statement::DeleteEntity, Disk { collection: true, entity: Some(1) }),
        (Statement::DropCollection, Disk { collection: true, entity: Some(1) }),
        (Statement::Recompute(0), Disk { collection: true, entity: Some(1) }),
    ];
    for (statement, start) in cases {
        let all = effects(&statement);
        let mut whole = start.clone();
        apply(&all, &mut whole);
        for k in 0..=all.len() {
            let mut disk = start.clone();
            apply(&all[..k], &mut disk);
            for t in records(&statement) {
                let step = replay_step(t, disk.collection, 0, &vec![Some(LocState::Clean)]);
                apply(&step.actions, &mut disk);
            }
            assert_eq!(disk, whole, "{statement:?} cut after {k}");
        }
    }
}

/// A store of collections and entities, as far as statements change it.
type Store = (BTreeMap<String, u8>, BTreeMap<(String, String), u8>);

/// A statement about a collection and an entity, and what it writes.
type Deed = (Statement, &'static str, &'static str, u8);

fn change(actions: &[ReplayAction], deed: &Deed, store: &mut Store) {
    let (collection, entity) = (deed.1.to_string(), deed.2.to_string());
    for a in actions {
        match a {
            ReplayAction::StoreCollection => {
                store.0.insert(collection.clone(), deed.3);
            }
            ReplayAction::StoreEntity => {
                store.1.insert((collection.clone(), entity.clone()), deed.3);
            }
            ReplayAction::DeleteEntity => {
                store.1.remove(&(collection.clone(), entity.clone()));
            }
            ReplayAction::DropCollection => {
                store.0.remove(&collection);
                store.1.retain(|k, _| k.0 != collection);
            }
            _ => {}
        }
    }
}

fn restart(deeds: &[Deed], store: &mut Store) {
    for deed in deeds {
        for t in records(&deed.0) {
            let known = store.0.contains_key(deed.1);
            let step = replay_step(t, known, 0, &vec![Some(LocState::Clean)]);
            change(&step.actions, deed, store);
        }
    }
}

#[test]
fn a_restart_brings_back_what_was_committed() {
    let deeds: Vec<Deed> = vec![
        (Statement::CreateCollection, "a", "", 1),
        (Statement::Insert(1), "a", "x", 2),
        (Statement::CreateCollection, "b", "", 3),
        (Statement::Insert(0), "b", "x", 4),
        (Statement::Update(vec![0]), "a", "x", 5),
        (Statement::DropCollection, "a", "", 6),
        (Statement::CreateCollection, "a", "", 7),
        (Statement::Insert(0), "a", "y", 8),
        (Statement::DeleteEntity, "b", "x", 9),
        (Statement::Insert(0), "b", "z", 10),
        (Statement::Recompute(0), "b", "z", 11),
        (Statement::DropCollection, "b", "", 12),
    ];
    let mut whole = Store::default();
    for deed in &deeds {
        change(&effects(&deed.0), deed, &mut whole);
    }
    assert_eq!(whole.0.get("a"), Some(&7));
    assert_eq!(whole.1.len(), 1);
    let mut done = Store::default();
    for deed in &deeds {
        let all = effects(&deed.0);
        for k in 0..=all.len() {
            let mut store = done.clone();
            change(&all[..k], deed, &mut store);
            restart(&deeds, &mut store);
            assert_eq!(store, whole, "{deed:?} cut after {k}");
        }
        change(&all, deed, &mut done);
    }
}

#[test]
fn applying_a_record_is_replaying_it() {
    let states = vec![Some(LocState::Dirty)];
    for t in [RecordType::TxBegin, RecordType::TxCommit, RecordType::TxAbort, RecordType::Checkpoint] {
        let step = apply_wal_record(t, true, 0, &states);
        assert!(step.actions.is_empty() && !step.counted && !step.handled);
    }
    for t in [RecordType::EntityWrite, RecordType::EdgeDelete, RecordType::ReprWrite, RecordType::SchemaDropColl] {
        for known in [false, true] {
            let (a, b) = (apply_wal_record(t, known, 1, &states), replay_step(t, known, 1, &states));
            assert_eq!((a.actions, a.counted, a.handled), (b.actions, b.counted, b.handled));
        }
    }
    assert_eq!(
        apply_wal_record(RecordType::EdgeWrite, true, 0, &vec![]).actions,
        vec![ReplayAction::StoreEdge]
    );
}

#[test]
fn reading_on_gives_the_rest() {
    let record = |lsn, tx_id, record_type| WalRecord {
        lsn,
        ts: 0,
        tx_id,
        record_type,
        schema_ver: 1,
        collection: "c".into(),
        payload: vec![],
    };
    let log = vec![
        record(5, 1, RecordType::TxBegin),
        record(2, 2, RecordType::EdgeWrite),
        record(5, 3, RecordType::EdgeWrite),
        record(9, 4, RecordType::TxCommit),
        record(3, 5, RecordType::Checkpoint),
    ];
    let all: Vec<(u64, u64)> = wal_records_since(&log, 0).iter().map(|r| (r.lsn, r.tx_id)).collect();
    assert_eq!(all, vec![(2, 2), (3, 5), (5, 1), (5, 3), (9, 4)]);
    for b in 0..10 {
        let rest: Vec<(u64, u64)> = wal_records_since(&log, b).iter().map(|r| (r.lsn, r.tx_id)).collect();
        let filtered: Vec<(u64, u64)> = all.iter().copied().filter(|r| r.0 > b).collect();
        assert_eq!(rest, filtered);
    }
}

#[test]
fn a_range_lookup_answers_what_a_scan_does() {
    let mut all: Vec<Entity> = (0..8).map(|i| inserted(&format!("e{i}"), "London", 10 * i - 30)).collect();
    all.push(Entity::new(id("bare")));
    let index = FieldIndex::new(vec![("seats".to_string(), FieldType::Int)]);
    let int = |n: i64| Literal::Int(n);
    let and = |a, b| WhereClause::And(Box::new(a), Box::new(b));
    let ids = |rows: &Vec<trondb::rows::Row>| -> Vec<Value> {
        rows.iter().map(|r| r.values.get("id").unwrap().clone()).collect()
    };
    let answers = |clause: &dyn Fn() -> WhereClause| {
        let (from, to) = range_bounds_from_clause(&clause());
        let (first, last) = index.lookup_range(&from, &to).unwrap();
        let within = |e: &Entity| match indexed_values(index.field_types(), &e.metadata) {
            Some(values) => {
                let key = index.entry_key(&e.id, &values).unwrap();
                first <= key && key <= last
            }
            None => false,
        };
        let found: Vec<Option<Entity>> = all.iter().filter(|e| within(e)).map(|e| Some(e.clone())).collect();
        let scanned = fetch_scanned(&all, &fetch(clause()));
        let ranged = fetch_in_range(&found, &fetch(clause()));
        assert_eq!(ids(&scanned.rows), ids(&ranged.rows));
        ranged.rows.len()
    };
    let seats = || "seats".to_string();
    assert_eq!(answers(&|| WhereClause::Gt(seats(), int(20))), 2);
    assert_eq!(answers(&|| WhereClause::Gte(seats(), int(20))), 3);
    assert_eq!(answers(&|| WhereClause::Lt(seats(), int(-20))), 1);
    assert_eq!(answers(&|| WhereClause::Lte(seats(), int(-20))), 2);
    for (low, high) in [(-30, 0), (-5, 25), (10, 10), (20, 10)] {
        let both = || and(WhereClause::Gt(seats(), int(low)), WhereClause::Lte(seats(), int(high)));
        answers(&both);
        answers(&|| and(both(), WhereClause::Eq("city".into(), lit("London"))));
        answers(&|| and(WhereClause::Gte(seats(), int(low)), both()));
    }
}

#[test]
fn nothing_is_done_before_the_commit() {
    for s in [
        Statement::CreateCollection,
        Statement::Insert(3),
        Statement::Update(vec![0, 1]),
        Statement::DropCollection,
        Statement::Recompute(1),
    ] {
        let all = steps(&s);
        let commit = all.iter().position(|x| *x == Step::Commit).unwrap();
        assert_eq!(all[0], Step::Begin);
        assert!(all[..commit].iter().all(|x| !matches!(x, Step::Apply(_))));
        assert!(all[commit + 1..].iter().all(|x| matches!(x, Step::Apply(_))));
    }
}

#[test]
fn the_log_is_read_in_order() {
    let record = |lsn| WalRecord {
        lsn,
        ts: 0,
        tx_id: 1,
        record_type: RecordType::EdgeWrite,
        schema_ver: 1,
        collection: "c".into(),
        payload: vec![],
    };
    let log = vec![record(5), record(2), record(9), record(3)];
    let since: Vec<u64> = wal_records_since(&log, 2).iter().map(|r| r.lsn).collect();
    assert_eq!(since, vec![3, 5, 9]);
    let after: Vec<u64> = records_after(&log, 2).iter().map(|r| r.lsn).collect();
    assert_eq!(after, vec![5, 9, 3]);
}

#[test]
fn confirmation_keeps_what_was_stored() {
    let mut metadata = FieldMap::new();
    metadata.insert("why".to_string(), text("similar"));
    let old = Edge {
        from_id: id("p"),
        to_id: id("v"),
        edge_type: "likes".into(),
        confidence: 0.4f32.to_bits(),
        metadata,
        created_at: 3,
        source: EdgeSource::Inferred,
    };
    let plan = ConfirmPlan {
        edge_type: "likes".into(),
        from_id: "p".into(),
        to_id: "v".into(),
        confidence: 0.7f32.to_bits(),
        confidence_shown: "0.70".into(),
    };
    let once = confirm(&plan, Some(&old), 8).unwrap().edge;
    assert_eq!(once.metadata.get("why"), Some(&text("similar")));
    let twice = confirm(&plan, Some(&once), 11).unwrap().edge;
    assert_eq!(twice.created_at, once.created_at);
    assert_eq!(twice.confidence, once.confidence);
    assert_eq!(twice.metadata.get("why"), Some(&text("similar")));
}

#[test]
fn decayed_confidence_stays_in_bounds() {
    let b = f64::to_bits;
    assert_eq!(bounded_confidence(b(0.05), b(0.1)), b(0.1));
    assert_eq!(bounded_confidence(b(0.5), b(0.1)), b(0.5));
    assert_eq!(bounded_confidence(b(7.0), b(0.1)), b(1.0));
    assert_eq!(bounded_confidence(b(f64::NAN), b(0.1)), b(0.1));
}

fn managed(fields: &[&str]) -> StoredRepresentation {
    StoredRepresentation {
        name: "r".into(),
        model: None,
        dimensions: Some(1),
        metric: Metric::Cosine,
        sparse: false,
        fields: fields.iter().map(|s| s.to_string()).collect(),
        computed_at: 0,
        model_version: String::new(),
    }
}

/// Computes what is stale and can be computed, and gives how many.
fn recompute(schema: &CollectionSchema, states: &mut BTreeMap<(&str, u32), LocState>, stored: &[&str]) -> usize {
    let dirty: Vec<(&str, u32)> =
        states.iter().filter(|(_, s)| **s == LocState::Dirty).map(|(k, _)| *k).collect();
    let mut count = 0;
    for key in dirty {
        if is_recomputed(stored.contains(&key.0), Some(schema), key.1, true) {
            for action in effects(&Statement::Recompute(key.1)) {
                if let ReplayAction::Transition(place, state) = action {
                    states.insert((key.0, place), state);
                }
            }
            count += 1;
        }
    }
    count
}

#[test]
fn a_round_of_recomputation_leaves_nothing_due() {
    let schema = CollectionSchema {
        name: "venues".into(),
        representations: vec![managed(&["name"]), managed(&[])],
        fields: vec![],
        indexes: vec![],
        vectoriser_config: None,
    };
    let mut states = BTreeMap::from([
        (("a", 0), LocState::Dirty),
        (("a", 1), LocState::Dirty),
        (("b", 0), LocState::Dirty),
        (("c", 0), LocState::Clean),
        (("gone", 0), LocState::Dirty),
    ]);
    assert_eq!(recompute(&schema, &mut states, &["a", "b", "c"]), 2);
    assert_eq!(states[&("a", 0)], LocState::Clean);
    assert_eq!(states[&("a", 1)], LocState::Dirty);
    assert_eq!(states[&("b", 0)], LocState::Clean);
    assert_eq!(states[&("c", 0)], LocState::Clean);
    assert_eq!(states[&("gone", 0)], LocState::Dirty);
    assert_eq!(recompute(&schema, &mut states, &["a", "b", "c"]), 0);
}

#[test]
fn an_index_is_filled_from_what_is_stored() {
    let index = FieldIndex::new(vec![("city".to_string(), FieldType::Text)]);
    let mut all = vec![inserted("a", "London", 1), inserted("b", "Paris", 2)];
    all.push(Entity::new(id("bare")));
    let fill = |entries: &mut BTreeMap<Vec<u8>, Vec<u8>>, order: &[usize]| {
        for i in order {
            if let Some(values) = indexed_values(index.field_types(), &all[*i].metadata) {
                entries.insert(index.entry_key(&all[*i].id, &values).unwrap(), index.entry_value(&all[*i].id));
            }
        }
    };
    let mut once = BTreeMap::new();
    fill(&mut once, &[0, 1, 2]);
    assert_eq!(once.len(), 2);
    let mut again = once.clone();
    fill(&mut again, &[2, 1, 0]);
    assert_eq!(once, again);
}

#[test]
fn what_is_deleted_is_read_no_more() {
    let mut all = vec![inserted("a", "London", 1), inserted("b", "London", 2), inserted("c", "Paris", 3)];
    let ids = |all: &Vec<Entity>| -> Vec<Value> {
        let r = fetch_scanned(all, &fetch(WhereClause::Eq("city".into(), lit("London"))));
        r.rows.iter().map(|row| row.values.get("id").unwrap().clone()).collect()
    };
    assert_eq!(ids(&all), vec![text("a"), text("b")]);
    all.remove(2);
    assert_eq!(ids(&all), vec![text("a"), text("b")]);
    all.remove(0);
    assert_eq!(ids(&all), vec![text("b")]);
}
