//! Values, their order, patterns and sorting.

use std::cmp::Ordering;
use trondb::fields::FieldMap;
use trondb::filter::{entity_matches, is_listed, like_match, WhereClause};
use trondb::float_bits::{double_equal, double_is_nan, double_less, double_of_int, double_of_single, single_less};
use trondb::rows::{build_columns, entity_to_row, every_column, limit_rows, sort_rows, FieldList, OrderByClause, Row, SortDirection};
use trondb::score::rank_scores;
use trondb::text::{decimal, decimal_i64, join, starts_with, text_less};
use trondb::types::Entity;
use trondb::value::{
    compare_values, literal_to_value, rank_values, value_gt, value_lt, values_equal, Literal, LogicalId, Rank, Value,
};

fn text(s: &str) -> Value {
    Value::String(s.to_string())
}

fn float(x: f64) -> Value {
    Value::Float(x.to_bits())
}

fn row(fields: &[(&str, Value)]) -> Row {
    let mut values = FieldMap::new();
    for (name, value) in fields {
        values.insert(name.to_string(), value.clone());
    }
    Row { values, score: None }
}

fn asc(field: &str) -> OrderByClause {
    OrderByClause { field: field.to_string(), direction: SortDirection::Asc }
}

fn desc(field: &str) -> OrderByClause {
    OrderByClause { field: field.to_string(), direction: SortDirection::Desc }
}

#[test]
fn doubles_compare_as_numbers() {
    let b = f64::to_bits;
    assert!(double_less(b(-1.5), b(0.0)));
    assert!(double_less(b(-2.0), b(-1.0)));
    assert!(!double_less(b(-0.0), b(0.0)));
    assert!(double_equal(b(-0.0), b(0.0)));
    assert!(!double_equal(b(f64::NAN), b(f64::NAN)));
    assert!(double_is_nan(b(f64::NAN)));
    assert!(!double_less(b(f64::NAN), b(1.0)));
    assert!(double_less(b(1.0), b(f64::INFINITY)));
    assert!(single_less((-1.0f32).to_bits(), 1.0f32.to_bits()));
}

#[test]
fn integers_become_doubles() {
    for n in [0i64, 1, -1, 7, 1_000_000_007, (1 << 53) + 1, (1 << 53) + 3, i64::MAX, i64::MIN, -(1 << 60) - 5] {
        assert_eq!(double_of_int(n), (n as f64).to_bits(), "{n}");
    }
    for x in [0.0f32, -0.0, 1.5, -3.25, f32::MIN_POSITIVE, 1.0e-45, f32::MAX, f32::INFINITY] {
        assert_eq!(double_of_single(x.to_bits()), (x as f64).to_bits(), "{x}");
    }
    assert!(f64::from_bits(double_of_single(f32::NAN.to_bits())).is_nan());
}

#[test]
fn values_of_different_types() {
    assert!(value_gt(&Value::Int(2), &float(1.5)));
    assert!(value_lt(&float(1.5), &Value::Int(2)));
    assert!(!value_gt(&text("b"), &Value::Int(1)));
    assert!(value_gt(&text("b"), &text("a")));
    assert!(!values_equal(&Value::Int(1), &float(1.0)));
    assert!(values_equal(&Value::Null, &Value::Null));
    assert_eq!(literal_to_value(&Literal::Bool(true)), Value::Bool(true));
}

#[test]
fn ranks_flip_and_chain() {
    let values = [Value::Int(3), float(2.5), Value::Int(-1)];
    for a in &values {
        for b in &values {
            assert_eq!(rank_values(Some(a), Some(b)), rank_values(Some(b), Some(a)).flip());
        }
    }
    assert_eq!(rank_values(Some(&Value::Int(3)), Some(&float(2.5))), Rank::Greater);
    assert_eq!(compare_values(Some(&text("a")), Some(&text("b"))), Ordering::Less);
    assert_eq!(compare_values(None, Some(&Value::Int(1))), Ordering::Greater);
    assert_eq!(compare_values(Some(&Value::Null), Some(&Value::Int(1))), Ordering::Greater);
    assert_eq!(compare_values(Some(&Value::Int(1)), Some(&Value::Null)), Ordering::Less);
    assert_eq!(rank_scores(0.5f32.to_bits(), 0.25f32.to_bits()), Rank::Less);
}

#[test]
fn patterns_match() {
    assert!(like_match("Jazz Club", "Jazz%"));
    assert!(like_match("Jazz Club", "%Club"));
    assert!(like_match("Jazz Club", "%z C%"));
    assert!(like_match("cat", "c_t"));
    assert!(!like_match("cart", "c_t"));
    assert!(like_match("", "%"));
    assert!(!like_match("", "_"));
    assert!(like_match("abc", "abc"));
    assert!(!like_match("abc", "ab"));
    assert!(like_match("né", "n_"));
}

#[test]
fn lists_hold_values() {
    let list = vec![Literal::Int(1), Literal::String("x".into())];
    assert!(is_listed(&text("x"), &list));
    assert!(is_listed(&Value::Int(1), &list));
    assert!(!is_listed(&Value::Int(2), &list));
}

#[test]
fn conditions_on_an_entity() {
    let mut e = Entity::new(LogicalId::from_string("e1"));
    e.metadata.insert("age".to_string(), Value::Int(30));
    e.metadata.insert("note".to_string(), Value::Null);
    let age = |n| Literal::Int(n);
    assert!(entity_matches(&e, &WhereClause::Gte("age".into(), age(30))));
    assert!(!entity_matches(&e, &WhereClause::Gt("age".into(), age(30))));
    assert!(entity_matches(&e, &WhereClause::Neq("age".into(), age(31))));
    assert!(entity_matches(&e, &WhereClause::IsNull("missing".into())));
    assert!(entity_matches(&e, &WhereClause::IsNull("note".into())));
    assert!(entity_matches(&e, &WhereClause::IsNotNull("age".into())));
    assert!(entity_matches(&e, &WhereClause::In("age".into(), vec![age(1), age(30)])));
    let not = WhereClause::Not(Box::new(WhereClause::Lt("age".into(), age(30))));
    assert!(entity_matches(&e, &not));
    let both = WhereClause::And(
        Box::new(WhereClause::Gte("age".into(), age(20))),
        Box::new(WhereClause::Lte("age".into(), age(29))),
    );
    assert!(!entity_matches(&e, &both));
    let either = WhereClause::Or(Box::new(both), Box::new(WhereClause::Eq("age".into(), age(30))));
    assert!(entity_matches(&e, &either));
}

#[test]
fn rows_sort_stably_with_nulls_last() {
    let mut rows = vec![
        row(&[("n", Value::Int(2)), ("k", text("a"))]),
        row(&[("k", text("b"))]),
        row(&[("n", Value::Int(1)), ("k", text("c"))]),
        row(&[("n", Value::Int(2)), ("k", text("d"))]),
    ];
    sort_rows(&mut rows, &vec![asc("n")]);
    let order: Vec<&Value> = rows.iter().map(|r| r.values.get("k").unwrap()).collect();
    assert_eq!(order, vec![&text("c"), &text("a"), &text("d"), &text("b")]);
    sort_rows(&mut rows, &vec![desc("n"), desc("k")]);
    let order: Vec<&Value> = rows.iter().map(|r| r.values.get("k").unwrap()).collect();
    assert_eq!(order, vec![&text("b"), &text("d"), &text("a"), &text("c")]);
    limit_rows(&mut rows, Some(2));
    assert_eq!(rows.len(), 2);
    limit_rows(&mut rows, None);
    assert_eq!(rows.len(), 2);
}

#[test]
fn rows_show_the_asked_fields() {
    let mut e = Entity::new(LogicalId::from_string("e1"));
    e.metadata.insert("name".to_string(), text("A"));
    e.metadata.insert("city".to_string(), text("L"));
    let all = entity_to_row(&e, &FieldList::All);
    assert_eq!(all.values.get("id"), Some(&text("e1")));
    assert_eq!(all.values.len(), 3);
    let named = FieldList::Named(vec!["city".into(), "gone".into(), "id".into()]);
    let some = entity_to_row(&e, &named);
    assert_eq!(some.values.get("city"), Some(&text("L")));
    assert_eq!(some.values.get("name"), None);
    assert_eq!(build_columns(&vec![some], &named), vec!["id", "city", "gone"]);
    assert_eq!(build_columns(&vec![all], &FieldList::All), vec!["id", "city", "name"]);
    let rows = vec![row(&[("b", Value::Null)]), row(&[("a", Value::Null), ("b", Value::Null)])];
    assert_eq!(every_column(&rows), vec!["a", "b"]);
}

#[test]
fn texts_are_built() {
    assert_eq!(decimal(0), "0");
    assert_eq!(decimal(u64::MAX), u64::MAX.to_string());
    assert_eq!(decimal_i64(i64::MIN), i64::MIN.to_string());
    assert_eq!(join(&vec!["a".to_string(), "".to_string(), "b".to_string()], ", "), "a, , b");
    assert!(starts_with("venues:x", "venues:"));
    assert!(!starts_with("ven", "venues"));
    assert!(text_less("Z", "a"));
    assert!(text_less("a", "é"));
}
