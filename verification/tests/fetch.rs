//! FETCH.

use trondb::error::EngineError;
use trondb::fetch::{
    fetch_access, fetch_in_range, fetch_looked_up, fetch_scanned, pick_tighter_lower, pick_tighter_upper,
    range_bounds_from_clause, scoped_key, FetchAccess, FetchPlan, FetchStrategy,
};
use trondb::filter::WhereClause;
use trondb::result::{QueryMode, QueryResult};
use trondb::rows::{FieldList, OrderByClause, SortDirection};
use trondb::types::Entity;
use trondb::value::{Literal, LogicalId, Value};

fn text(s: &str) -> Value {
    Value::String(s.to_string())
}

fn entity(id: &str, fields: &[(&str, Value)]) -> Entity {
    let mut e = Entity::new(LogicalId::from_string(id));
    for (name, value) in fields {
        e.metadata.insert(name.to_string(), value.clone());
    }
    e
}

fn plan(filter: Option<WhereClause>, strategy: FetchStrategy) -> FetchPlan {
    FetchPlan {
        collection: "items".into(),
        fields: FieldList::All,
        filter,
        order_by: vec![],
        limit: None,
        strategy,
        hints: vec![],
    }
}

fn scores() -> Vec<Entity> {
    (1..=5).map(|i| entity(&format!("item{i}"), &[("score", Value::Int(i * 10))])).collect()
}

fn found_scores() -> Vec<Option<Entity>> {
    scores().into_iter().map(Some).collect()
}

fn ints(r: &QueryResult) -> Vec<i64> {
    r.rows
        .iter()
        .map(|row| match row.values.get("score") {
            Some(Value::Int(n)) => *n,
            _ => panic!("expected an integer"),
        })
        .collect()
}

fn range() -> FetchStrategy {
    FetchStrategy::FieldIndexRange("idx_score".into())
}

fn score(clause: fn(String, Literal) -> WhereClause, n: i64) -> WhereClause {
    clause("score".into(), Literal::Int(n))
}

#[test]
fn execute_fetch_all() {
    let all = vec![entity("v1", &[("name", text("Venue A"))]), entity("v2", &[("name", text("Venue B"))])];
    let result = fetch_scanned(&all, &plan(None, FetchStrategy::FullScan));
    assert_eq!(result.rows.len(), 2);
    assert_eq!(result.entities_scanned, 2);
}

#[test]
fn execute_fetch_with_filter() {
    let all = vec![
        entity("v1", &[("name", text("The Shard")), ("city", text("London"))]),
        entity("v2", &[("name", text("Old Trafford")), ("city", text("Manchester"))]),
    ];
    let filter = WhereClause::Eq("city".into(), Literal::String("London".into()));
    let result = fetch_scanned(&all, &plan(Some(filter), FetchStrategy::FullScan));
    assert_eq!(result.rows.len(), 1);
    assert_eq!(result.rows[0].values.get("city"), Some(&text("London")));
}

#[test]
fn fetch_via_field_index_range() {
    let p = plan(Some(score(WhereClause::Gte, 30)), range());
    let result = fetch_in_range(&found_scores(), &p);
    assert_eq!(ints(&result), vec![30, 40, 50]);
    assert_eq!(result.tier, "FieldIndex");
    assert_eq!(result.mode, QueryMode::Deterministic);
}

#[test]
fn fetch_via_field_index_range_strict_gt() {
    let p = plan(Some(score(WhereClause::Gt, 30)), range());
    assert_eq!(ints(&fetch_in_range(&found_scores(), &p)), vec![40, 50]);
}

#[test]
fn fetch_via_field_index_range_and_bounds() {
    let filter = WhereClause::And(
        Box::new(score(WhereClause::Gte, 20)),
        Box::new(score(WhereClause::Lte, 40)),
    );
    assert_eq!(range_bounds_from_clause(&filter), (vec![Value::Int(20)], vec![Value::Int(40)]));
    assert_eq!(ints(&fetch_in_range(&found_scores(), &plan(Some(filter), range()))), vec![20, 30, 40]);
}

#[test]
fn fetch_lt_excludes_boundary() {
    let p = plan(Some(score(WhereClause::Lt, 30)), range());
    assert_eq!(ints(&fetch_in_range(&found_scores(), &p)), vec![10, 20]);
}

#[test]
fn fetch_lte_includes_boundary() {
    let p = plan(Some(score(WhereClause::Lte, 30)), range());
    assert_eq!(ints(&fetch_in_range(&found_scores(), &p)), vec![10, 20, 30]);
}

#[test]
fn fetch_gte_lte_fullscan_fallback() {
    let p = plan(Some(score(WhereClause::Gte, 30)), FetchStrategy::FullScan);
    let result = fetch_scanned(&scores(), &p);
    assert_eq!(ints(&result), vec![30, 40, 50]);
    assert_eq!(result.tier, "Fjall");
}

#[test]
fn fetch_order_by_desc_with_limit() {
    let mut p = plan(None, FetchStrategy::FullScan);
    p.order_by = vec![OrderByClause { field: "score".into(), direction: SortDirection::Desc }];
    p.limit = Some(2);
    let result = fetch_scanned(&scores(), &p);
    assert_eq!(ints(&result), vec![50, 40]);
    assert_eq!(result.entities_scanned, 5);
}

#[test]
fn lookups_skip_what_is_gone() {
    let found = vec![None, Some(entity("a", &[("city", text("L"))]))];
    let p = plan(
        Some(WhereClause::Eq("city".into(), Literal::String("L".into()))),
        FetchStrategy::FieldIndexLookup("idx_city".into()),
    );
    let result = fetch_looked_up(&found, &p);
    assert_eq!(result.rows.len(), 1);
    assert_eq!(result.entities_scanned, 2);
    assert_eq!(result.rows[0].values.get("id"), Some(&text("a")));
}

#[test]
fn access_follows_the_strategy() {
    assert!(matches!(fetch_access(&plan(None, FetchStrategy::FullScan), false), Ok(FetchAccess::Scan)));
    let eq = || Some(score(WhereClause::Eq, 3));
    let lookup = || FetchStrategy::FieldIndexLookup("idx".into());
    match fetch_access(&plan(eq(), lookup()), true) {
        Ok(FetchAccess::Lookup(vs)) => assert_eq!(vs, vec![Value::Int(3)]),
        other => panic!("{other:?}"),
    }
    match fetch_access(&plan(eq(), lookup()), false) {
        Err(EngineError::InvalidQuery(m)) => assert_eq!(m, "field index 'idx' not found"),
        other => panic!("{other:?}"),
    }
    match fetch_access(&plan(None, lookup()), true) {
        Err(EngineError::InvalidQuery(m)) => assert_eq!(m, "FieldIndexLookup requires Eq filter"),
        other => panic!("{other:?}"),
    }
    match fetch_access(&plan(None, range()), true) {
        Err(EngineError::InvalidQuery(m)) => assert_eq!(m, "FieldIndexRange requires a range filter"),
        other => panic!("{other:?}"),
    }
    match fetch_access(&plan(Some(score(WhereClause::Gt, 7)), range()), true) {
        Ok(FetchAccess::Range(from, to)) => {
            assert_eq!(from, vec![Value::Int(7)]);
            assert_eq!(to, vec![Value::Int(i64::MAX)]);
        }
        other => panic!("{other:?}"),
    }
    assert_eq!(scoped_key("items", "idx"), "items:idx");
}

#[test]
fn bounds_tighten() {
    let one = vec![Value::Int(1)];
    let two = vec![Value::Int(2)];
    assert_eq!(pick_tighter_lower(&one, &two), two);
    assert_eq!(pick_tighter_upper(&one, &two), one);
    assert!(pick_tighter_lower(&[], &two).is_empty());
    assert_eq!(pick_tighter_upper(&one, &[]), one);
}
