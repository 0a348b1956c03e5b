//! Joins.

use trondb::edge::{AdjacencyIndex, DecayConfig, EdgeSource, EdgeType, InferenceConfig};
use trondb::filter::WhereClause;
use trondb::join::{
    build_join_columns, join_answer, project_join_row, JoinClause, JoinFieldList, JoinPlan, JoinSources, JoinType,
    QualifiedField,
};
use trondb::fields::FieldMap;
use trondb::result::QueryResult;
use trondb::types::Entity;
use trondb::value::{Literal, LogicalId, Value};

fn id(s: &str) -> LogicalId {
    LogicalId::from_string(s)
}

fn text(s: &str) -> Value {
    Value::String(s.to_string())
}

fn entity(name: &str, fields: &[(&str, Value)]) -> Entity {
    let mut e = Entity::new(id(name));
    for (k, v) in fields {
        e.metadata.insert(k.to_string(), v.clone());
    }
    e
}

fn qualified(alias: &str, field: &str) -> QualifiedField {
    QualifiedField { alias: alias.into(), field: field.into() }
}

fn plan(join_type: JoinType, fields: JoinFieldList) -> JoinPlan {
    JoinPlan {
        from_collection: "people".into(),
        from_alias: "p".into(),
        joins: vec![JoinClause {
            join_type,
            collection: "venues".into(),
            alias: "v".into(),
            on_left: qualified("p", "venue"),
            on_right: qualified("v", "id"),
            confidence_threshold: None,
        }],
        fields,
        filter: None,
        limit: None,
    }
}

fn people() -> Vec<Entity> {
    vec![
        entity("p1", &[("name", text("Ann")), ("venue", text("v1"))]),
        entity("p2", &[("name", text("Bo")), ("venue", text("v9"))]),
    ]
}

fn venues() -> Vec<Vec<Entity>> {
    vec![vec![entity("v1", &[("city", text("London"))]), entity("v2", &[("city", text("Paris"))])]]
}

fn answer(p: &JoinPlan) -> QueryResult {
    let adjacency = AdjacencyIndex::new();
    join_answer(p, &JoinSources { left: &people(), right: &venues(), edge_types: &vec![], adjacency: &adjacency })
}

#[test]
fn inner_joins_pair_matches() {
    let r = answer(&plan(
        JoinType::Inner,
        JoinFieldList::Named(vec![qualified("p", "name"), qualified("v", "city")]),
    ));
    assert_eq!(r.rows.len(), 1);
    assert_eq!(r.rows[0].values.get("p.name"), Some(&text("Ann")));
    assert_eq!(r.rows[0].values.get("v.city"), Some(&text("London")));
    assert_eq!(r.columns, vec!["p.name", "v.city"]);
    assert_eq!(r.tier, "Fjall");
}

#[test]
fn left_joins_keep_the_left() {
    let r = answer(&plan(JoinType::Left, JoinFieldList::All));
    assert_eq!(r.rows.len(), 2);
    assert_eq!(r.rows[1].values.get("p.id"), Some(&text("p2")));
    assert_eq!(r.rows[1].values.get("v.id"), Some(&Value::Null));
}

#[test]
fn right_and_full_joins_keep_the_right() {
    let r = answer(&plan(JoinType::Right, JoinFieldList::All));
    let right: Vec<&Value> = r.rows.iter().map(|row| row.values.get("v.id").unwrap()).collect();
    assert_eq!(right, vec![&text("v1"), &text("v2")]);
    assert_eq!(r.rows[1].values.get("p.id"), Some(&Value::Null));
    let f = answer(&plan(JoinType::Full, JoinFieldList::All));
    assert_eq!(f.rows.len(), 3);
}

#[test]
fn joined_rows_are_filtered_and_limited() {
    let mut p = plan(JoinType::Left, JoinFieldList::All);
    p.filter = Some(WhereClause::Eq("v.city".into(), Literal::String("London".into())));
    assert_eq!(answer(&p).rows.len(), 1);
    p.filter = None;
    p.limit = Some(1);
    assert_eq!(answer(&p).rows.len(), 1);
}

#[test]
fn edges_join_with_their_confidence() {
    let mut adjacency = AdjacencyIndex::new();
    adjacency.insert(&id("p1"), "likes", &id("v2"), 0.75f32.to_bits(), 0, EdgeSource::Inferred);
    adjacency.insert(&id("p1"), "likes", &id("v1"), 0.25f32.to_bits(), 0, EdgeSource::Inferred);
    let likes = EdgeType {
        name: "likes".into(),
        from_collection: "people".into(),
        to_collection: "venues".into(),
        decay_config: DecayConfig {
            decay_fn: None,
            decay_rate: None,
            floor: None,
            promote_threshold: None,
            prune_threshold: None,
        },
        inference_config: InferenceConfig { auto: false, confidence_floor: 0, limit: 1 },
    };
    let mut p = plan(JoinType::Inner, JoinFieldList::All);
    p.joins[0].on_left = qualified("p", "id");
    p.joins[0].confidence_threshold = Some(0.5f32.to_bits());
    let types = vec![likes];
    let src = JoinSources { left: &people(), right: &venues(), edge_types: &types, adjacency: &adjacency };
    let r = join_answer(&p, &src);
    assert_eq!(r.rows.len(), 1);
    assert_eq!(r.rows[0].values.get("v.id"), Some(&text("v2")));
    assert_eq!(r.rows[0].values.get("_edge.confidence"), Some(&Value::Float(0.75f64.to_bits())));
}

#[test]
fn projection_fills_what_is_missing() {
    let mut m = FieldMap::new();
    m.insert("p.name".to_string(), text("Ann"));
    let fields = JoinFieldList::Named(vec![qualified("p", "name"), qualified("v", "city")]);
    let row = project_join_row(&m, &fields);
    assert_eq!(row.values.get("v.city"), Some(&Value::Null));
    assert_eq!(build_join_columns(&vec![row], &fields), vec!["p.name", "v.city"]);
    let all = project_join_row(&m, &JoinFieldList::All);
    assert_eq!(build_join_columns(&vec![all], &JoinFieldList::All), vec!["p.name"]);
}
