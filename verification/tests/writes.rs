//! CREATE COLLECTION, INSERT, UPDATE and DELETE.

use trondb::collection::{
    build_collection_schema, create_collection, created_collection, dense_indexes, dropped_collection,
    index_field_types, keys_kept, sparse_indexes, CreateCollectionPlan, FieldDecl, IndexDecl, RepresentationDecl,
};
use trondb::edge::{AdjacencyIndex, DecayConfig, EdgeSource, EdgeType, InferenceConfig};
use trondb::error::EngineError;
use trondb::fields::FieldMap;
use trondb::insert::{
    belongs_to, build_entity, check_insert, computed_representation, fields_to_encode, find_id_in_fields,
    find_representation, indexed_values, inserted_entity, model_of_recipe, placements, representations_to_compute,
    vectoriser_missing, wants_inference, InsertPlan,
};
use trondb::location::{Encoding, LocState, Tier};
use trondb::result::QueryResult;
use trondb::types::{CollectionSchema, FieldType, Metric, ReprState, ReprType, VectorData};
use trondb::update::{
    apply_assignments, deleted_entity, detach, index_changes, stale_representations, updated_entity, values_or_null,
    DeletePlan, UpdatePlan,
};
use trondb::value::{Literal, LogicalId, Value};

fn id(s: &str) -> LogicalId {
    LogicalId::from_string(s)
}

fn text(s: &str) -> Value {
    Value::String(s.to_string())
}

fn lit(s: &str) -> Literal {
    Literal::String(s.to_string())
}

fn dense(xs: &[f32]) -> VectorData {
    VectorData::Dense(xs.iter().map(|x| x.to_bits()).collect())
}

fn repr(name: &str, dimensions: Option<usize>, sparse: bool, fields: &[&str]) -> RepresentationDecl {
    RepresentationDecl {
        name: name.into(),
        model: None,
        dimensions,
        metric: Metric::Cosine,
        sparse,
        fields: fields.iter().map(|s| s.to_string()).collect(),
    }
}

fn field(name: &str, field_type: FieldType) -> FieldDecl {
    FieldDecl { name: name.into(), field_type }
}

fn index(name: &str, fields: &[&str]) -> IndexDecl {
    IndexDecl {
        name: name.into(),
        fields: fields.iter().map(|s| s.to_string()).collect(),
        partial_condition: None,
    }
}

fn collection(
    representations: Vec<RepresentationDecl>,
    fields: Vec<FieldDecl>,
    indexes: Vec<IndexDecl>,
) -> CreateCollectionPlan {
    CreateCollectionPlan { name: "venues".into(), representations, fields, indexes, vectoriser_config: None }
}

fn venues() -> CollectionSchema {
    build_collection_schema(&collection(
        vec![repr("default", Some(3), false, &[]), repr("words", None, true, &["name"])],
        vec![field("name", FieldType::Text), field("city", FieldType::Text)],
        vec![index("idx_city", &["city"])],
    ))
}

fn insert(fields: &[(&str, Literal)], vectors: Vec<(&str, VectorData)>) -> InsertPlan {
    InsertPlan {
        collection: "venues".into(),
        fields: fields.iter().map(|f| f.0.to_string()).collect(),
        values: fields.iter().map(|f| f.1.clone()).collect(),
        vectors: vectors.into_iter().map(|(n, v)| (n.to_string(), v)).collect(),
    }
}

fn message(r: &QueryResult) -> Value {
    r.rows[0].values.get("result").unwrap().clone()
}

#[test]
fn create_collection_validates_duplicate_repr() {
    let p = collection(
        vec![repr("identity", Some(3), false, &[]), repr("identity", Some(3), false, &[])],
        vec![],
        vec![],
    );
    match create_collection(&p) {
        Err(EngineError::DuplicateRepresentation(name)) => assert_eq!(name, "identity"),
        other => panic!("expected DuplicateRepresentation, got {other:?}"),
    }
}

#[test]
fn create_collection_validates_duplicate_field() {
    let p = collection(
        vec![repr("default", Some(3), false, &[])],
        vec![field("status", FieldType::Text), field("status", FieldType::Text)],
        vec![],
    );
    match create_collection(&p) {
        Err(EngineError::DuplicateField(name)) => assert_eq!(name, "status"),
        other => panic!("expected DuplicateField, got {other:?}"),
    }
}

#[test]
fn create_collection_validates_duplicate_index() {
    let p = collection(
        vec![repr("default", Some(3), false, &[])],
        vec![field("status", FieldType::Text)],
        vec![index("idx_status", &["status"]), index("idx_status", &["status"])],
    );
    match create_collection(&p) {
        Err(EngineError::DuplicateIndex(name)) => assert_eq!(name, "idx_status"),
        other => panic!("expected DuplicateIndex, got {other:?}"),
    }
}

#[test]
fn indexes_are_made_for_a_schema() {
    let schema = venues();
    assert_eq!(dense_indexes(&schema), vec![("venues:default".to_string(), 3)]);
    assert_eq!(sparse_indexes(&schema), vec!["venues:words".to_string()]);
    let types = index_field_types(&schema, &schema.indexes[0]);
    assert_eq!(types.len(), 1);
    assert_eq!(types[0].0, "city");
    assert!(matches!(types[0].1, FieldType::Text));
    let p = collection(vec![repr("default", Some(3), false, &[])], vec![], vec![]);
    assert_eq!(
        message(&created_collection(&p)),
        text("Collection 'venues' created (1 representations, 0 fields, 0 indexes)")
    );
    let keys = vec!["venues:a".to_string(), "venuesx:a".to_string()];
    assert_eq!(keys_kept(&keys, "venues"), vec!["venuesx:a".to_string()]);
    assert_eq!(message(&dropped_collection("venues", true).unwrap()), text("Collection 'venues' dropped"));
    assert!(matches!(dropped_collection("venues", false), Err(EngineError::CollectionNotFound(_))));
}

#[test]
fn insert_validates_dimensions() {
    let p = insert(&[("id", lit("v1"))], vec![("default", dense(&[1.0, 2.0]))]);
    match check_insert(&p, Some(&venues())) {
        Err(EngineError::InvalidQuery(msg)) => {
            assert!(msg.contains("3 dimensions"), "error should mention expected dims: {msg}");
            assert!(msg.contains("got 2"), "error should mention actual dims: {msg}");
        }
        other => panic!("expected InvalidQuery, got {other:?}"),
    }
    assert!(matches!(check_insert(&p, None), Err(EngineError::CollectionNotFound(_))));
    let unknown = insert(&[], vec![("none", dense(&[1.0]))]);
    match check_insert(&unknown, Some(&venues())) {
        Err(EngineError::InvalidQuery(m)) => assert_eq!(m, "no representation 'none' in collection 'venues'"),
        other => panic!("{other:?}"),
    }
    let good = insert(&[], vec![("default", dense(&[1.0, 0.0, 0.0]))]);
    assert!(check_insert(&good, Some(&venues())).is_ok());
    assert_eq!(find_representation(&venues().representations, "words"), Some(1));
}

#[test]
fn sparse_vectors_have_no_dimensions() {
    let sparse = VectorData::Sparse(vec![(1, 0.5f32.to_bits())]);
    assert!(check_insert(&insert(&[], vec![("words", sparse)]), Some(&venues())).is_ok());
}

#[test]
fn entities_are_built_from_statements() {
    let p = insert(
        &[("id", lit("v1")), ("name", lit("Jazz")), ("seats", Literal::Int(80))],
        vec![("default", dense(&[1.0, 0.0, 0.0]))],
    );
    let given = find_id_in_fields(&p.fields, &p.values).unwrap();
    assert_eq!(given, id("v1"));
    let e = build_entity(&p, &given, &vec![None]);
    assert_eq!(e.metadata.get("name"), Some(&text("Jazz")));
    assert_eq!(e.metadata.get("seats"), Some(&Value::Int(80)));
    assert_eq!(e.metadata.get("id"), None);
    assert_eq!(e.representations.len(), 1);
    assert_eq!(e.representations[0].recipe_hash, [0u8; 32]);
    let hashed = build_entity(&p, &given, &vec![Some([7u8; 32])]);
    assert_eq!(hashed.representations[0].recipe_hash, [7u8; 32]);
    let placed = placements(&e);
    assert_eq!(placed.len(), 1);
    assert_eq!(placed[0].0.entity_id, id("v1"));
    assert_eq!(placed[0].1.tier, Tier::Fjall);
    assert_eq!(placed[0].1.state, LocState::Clean);
    assert_eq!(placed[0].1.encoding, Encoding::Float32);
    assert_eq!(find_id_in_fields(&vec!["name".to_string()], &vec![lit("x")]), None);
    assert_eq!(message(&inserted_entity(&given)), text("Inserted entity 'v1'"));
}

#[test]
fn managed_representations_are_computed() {
    let schema = build_collection_schema(&collection(
        vec![repr("default", Some(3), false, &[]), repr("both", Some(3), false, &["name", "city"])],
        vec![],
        vec![],
    ));
    let mut m = FieldMap::new();
    m.insert("city".to_string(), text("London"));
    let p = insert(&[], vec![]);
    assert_eq!(representations_to_compute(&p, &schema, &m), vec![1]);
    let fields = fields_to_encode(&schema.representations[1], &m);
    assert_eq!(fields, vec![("city".to_string(), text("London"))]);
    let given = insert(&[], vec![("both", dense(&[0.0, 0.0, 1.0]))]);
    assert!(representations_to_compute(&given, &schema, &m).is_empty());
    assert!(representations_to_compute(&p, &schema, &FieldMap::new()).is_empty());
    let r = computed_representation(&schema.representations[1], dense(&[1.0]), [9u8; 32]);
    assert_eq!(r.repr_type, ReprType::Composite);
    assert_eq!(r.state, ReprState::Clean);
    match vectoriser_missing(&schema.representations[1], "venues") {
        EngineError::InvalidQuery(m) => assert_eq!(
            m,
            "representation 'both' has FIELDS but no vectoriser registered for collection 'venues'"
        ),
        other => panic!("{other:?}"),
    }
    assert_eq!(model_of_recipe(&schema, "default"), None);
    assert_eq!(model_of_recipe(&schema, "both"), Some("unknown".to_string()));
}

#[test]
fn index_entries_need_every_field() {
    let types = vec![("city".to_string(), FieldType::Text), ("open".to_string(), FieldType::Bool)];
    let mut m = FieldMap::new();
    m.insert("city".to_string(), text("L"));
    assert_eq!(indexed_values(&types, &m), None);
    m.insert("open".to_string(), Value::Bool(true));
    assert_eq!(indexed_values(&types, &m), Some(vec![text("L"), Value::Bool(true)]));
    assert!(belongs_to("venues:idx", "venues"));
    assert!(!belongs_to("venues2:idx", "venues"));
}

#[test]
fn updates_assign_and_mark_stale() {
    let schema = build_collection_schema(&collection(
        vec![repr("a", Some(3), false, &["name"]), repr("b", Some(3), false, &["city"]), repr("c", Some(3), false, &[])],
        vec![field("city", FieldType::Text)],
        vec![index("idx_city", &["city"])],
    ));
    let p = insert(&[("name", lit("Jazz")), ("city", lit("London"))], vec![]);
    let mut e = build_entity(&p, &id("v1"), &vec![]);
    let mut before = FieldMap::new();
    before.insert("name".to_string(), text("Jazz"));
    before.insert("city".to_string(), text("London"));
    let assignments = vec![("city".to_string(), lit("Paris"))];
    apply_assignments(&mut e, &assignments);
    assert_eq!(e.metadata.get("city"), Some(&text("Paris")));
    assert_eq!(e.metadata.get("name"), Some(&text("Jazz")));
    let stale = stale_representations(&id("v1"), Some(&schema), &assignments);
    assert_eq!(stale.len(), 1);
    assert_eq!(stale[0].repr_index, 1);
    assert!(stale_representations(&id("v1"), None, &assignments).is_empty());
    assert!(stale_representations(&id("v1"), Some(&schema), &vec![("other".to_string(), lit("x"))]).is_empty());
    let changes = index_changes("venues", &schema, &before, &e.metadata);
    assert_eq!(changes.len(), 1);
    assert_eq!(changes[0].key, "venues:idx_city");
    assert_eq!(changes[0].old_values, vec![text("London")]);
    assert_eq!(changes[0].new_values, vec![text("Paris")]);
    let same = index_changes("venues", &schema, &before, &before);
    assert_eq!(same[0].old_values, same[0].new_values);
    assert_eq!(values_or_null(&vec!["gone".to_string()], &before), vec![Value::Null]);
    let u = UpdatePlan { collection: "venues".into(), entity_id: "v1".into(), assignments };
    assert_eq!(message(&updated_entity(&u)), text("Entity 'v1' updated in 'venues'"));
    let d = DeletePlan { collection: "venues".into(), entity_id: "v1".into() };
    assert_eq!(message(&deleted_entity(&d)), text("Entity 'v1' deleted from 'venues'"));
}

#[test]
fn deleted_entities_lose_their_edges() {
    let mut adj = AdjacencyIndex::new();
    let one = 1.0f32.to_bits();
    adj.insert(&id("a"), "knows", &id("b"), one, 0, EdgeSource::StructuralEdge);
    adj.insert(&id("b"), "knows", &id("c"), one, 0, EdgeSource::StructuralEdge);
    adj.insert(&id("a"), "knows", &id("c"), one, 0, EdgeSource::StructuralEdge);
    detach(&mut adj, &id("b"));
    let left: Vec<LogicalId> = adj.get(&id("a"), "knows").into_iter().map(|e| e.to_id).collect();
    assert_eq!(left, vec![id("c")]);
    assert!(adj.get(&id("b"), "knows").is_empty());
    assert_eq!(adj.get_backward(&id("c"), "knows"), vec![id("a")]);
    assert!(adj.get_backward(&id("b"), "knows").is_empty());
}

#[test]
fn inference_waits_for_automatic_types() {
    let make = |auto: bool| EdgeType {
        name: "likes".into(),
        from_collection: "venues".into(),
        to_collection: "venues".into(),
        decay_config: DecayConfig {
            decay_fn: None,
            decay_rate: None,
            floor: None,
            promote_threshold: None,
            prune_threshold: None,
        },
        inference_config: InferenceConfig { auto, confidence_floor: 0, limit: 3 },
    };
    assert!(wants_inference(&vec![make(false), make(true)], "venues"));
    assert!(!wants_inference(&vec![make(false)], "venues"));
    assert!(!wants_inference(&vec![make(true)], "people"));
}

#[test]
fn detaching_leaves_other_edges_as_they_are() {
    let mut adj = AdjacencyIndex::new();
    let mut add = |from: &str, t: &str, to: &str, confidence: f32, at: u64, source| {
        adj.insert(&id(from), t, &id(to), confidence.to_bits(), at, source);
    };
    add("a", "knows", "b", 0.9, 1, EdgeSource::Inferred);
    add("a", "knows", "x", 0.8, 2, EdgeSource::StructuralEdge);
    add("a", "knows", "c", 0.7, 3, EdgeSource::Confirmed);
    add("a", "knows", "b", 0.6, 4, EdgeSource::StructuralEdge);
    add("b", "knows", "x", 0.5, 5, EdgeSource::StructuralEdge);
    add("x", "knows", "c", 0.4, 6, EdgeSource::StructuralEdge);
    add("x", "likes", "x", 0.3, 7, EdgeSource::StructuralEdge);
    add("x", "knows", "b", 0.2, 8, EdgeSource::StructuralEdge);
    let (forward, backward) = detach(&mut adj, &id("x"));
    assert_eq!((forward.len(), backward.len()), (3, 3));
    let (none, neither) = adj.edges_involving(&id("x"));
    assert!(none.is_empty() && neither.is_empty());
    let kept: Vec<(String, f32, u64, EdgeSource)> = adj
        .get(&id("a"), "knows")
        .into_iter()
        .map(|e| (e.to_id.as_str().to_string(), f32::from_bits(e.confidence), e.created_at, e.source))
        .collect();
    assert_eq!(
        kept,
        vec![
            ("b".to_string(), 0.9, 1, EdgeSource::Inferred),
            ("c".to_string(), 0.7, 3, EdgeSource::Confirmed),
            ("b".to_string(), 0.6, 4, EdgeSource::StructuralEdge),
        ]
    );
    assert!(adj.get(&id("b"), "knows").is_empty());
    assert_eq!(adj.get_backward(&id("b"), "knows"), vec![id("a"), id("a")]);
    assert_eq!(adj.get_backward(&id("c"), "knows"), vec![id("a")]);
    assert_eq!(adj.len(), 3);
}
