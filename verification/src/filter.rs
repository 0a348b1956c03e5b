//! The WHERE rules: which entities and joined rows a clause selects.

use vstd::prelude::*;
use vstd::string::*;

use crate::fields::FieldMap;
use crate::text::{chars_of, text_equal};
use crate::types::Entity;
use crate::value;
use crate::value::{id_value, literal_to_value, value_gt, value_lt, values_equal, Literal, Val, Value};

verus! {

/// A condition on the fields of an entity or of a joined row.
#[derive(Debug)]
pub enum WhereClause {
    Eq(String, Literal),
    Neq(String, Literal),
    Gt(String, Literal),
    Lt(String, Literal),
    Gte(String, Literal),
    Lte(String, Literal),
    And(Box<WhereClause>, Box<WhereClause>),
    Or(Box<WhereClause>, Box<WhereClause>),
    Not(Box<WhereClause>),
    IsNull(String),
    IsNotNull(String),
    In(String, Vec<Literal>),
    Like(String, String),
}

/// The name under which an entity's id is addressed.
pub open spec fn id_field() -> Seq<char> {
    "id"@
}

/// Whether a text matches a pattern in which `%` stands for any text and `_`
/// for any single character.
pub open spec fn like(v: Seq<char>, p: Seq<char>) -> bool
    decreases p.len(),
{
    if p.len() == 0 {
        v.len() == 0
    } else if p[0] == '%' {
        exists|i: int| 0 <= i <= v.len() && like(#[trigger] v.skip(i), p.drop_first())
    } else if p[0] == '_' {
        v.len() > 0 && like(v.drop_first(), p.drop_first())
    } else {
        v.len() > 0 && v[0] == p[0] && like(v.drop_first(), p.drop_first())
    }
}

/// Whether the text from `vi` on matches the pattern from `pi` on.
pub fn like_match_recursive(value: &[char], vi: usize, pattern: &[char], pi: usize) -> (r: bool)
    requires
        pi <= pattern@.len(),
    ensures
        r == (vi <= value@.len() && like(value@.skip(vi as int), pattern@.skip(pi as int))),
    decreases pattern@.len() - pi,
{
    let ghost p = pattern@.skip(pi as int);
    let ghost v = value@.skip(vi as int);
    if pi == pattern.len() {
        return vi == value.len();
    }
    proof {
        assert(p.drop_first() =~= pattern@.skip(pi as int + 1));
        assert(p[0] == pattern@[pi as int]);
    }
    let c = pattern[pi];
    if c == '%' {
        let mut i: usize = vi;
        while i <= value.len()
            invariant
                vi <= i,
                pi < pattern.len(),
                vi <= value.len() ==> i <= value.len(),
                v == value@.skip(vi as int),
                p == pattern@.skip(pi as int),
                p.len() > 0,
                p[0] == '%',
                p.drop_first() == pattern@.skip(pi as int + 1),
                forall|j: int| vi <= j < i ==> !like(#[trigger] value@.skip(j), p.drop_first()),
            decreases value@.len() + 1 - i,
        {
            if like_match_recursive(value, i, pattern, pi + 1) {
                proof {
                    assert(v.skip(i - vi) =~= value@.skip(i as int));
                    assert(like(v.skip(i - vi), p.drop_first()));
                }
                return true;
            }
            if i == value.len() {
                proof {
                    assert forall|j: int| 0 <= j <= v.len() implies !like(#[trigger] v.skip(j), p.drop_first()) by {
                        assert(v.skip(j) =~= value@.skip(vi + j));
                    }
                }
                return false;
            }
            i += 1;
        }
        false
    } else if vi < value.len() {
        proof {
            assert(v.drop_first() =~= value@.skip(vi as int + 1));
        }
        if c == '_' {
            like_match_recursive(value, vi + 1, pattern, pi + 1)
        } else {
            value[vi] == c && like_match_recursive(value, vi + 1, pattern, pi + 1)
        }
    } else {
        false
    }
}

/// Whether a text matches a pattern.
pub fn like_match(value: &str, pattern: &str) -> (r: bool)
    ensures
        r == like(value@, pattern@),
{
    let v = chars_of(value);
    let p = chars_of(pattern);
    proof {
        assert(v@.skip(0) =~= v@);
        assert(p@.skip(0) =~= p@);
    }
    like_match_recursive(v.as_slice(), 0, p.as_slice(), 0)
}

/// The value of a field, where there is one.
pub open spec fn field_of(m: Map<Seq<char>, Val>, f: Seq<char>) -> Option<Val> {
    if m.contains_key(f) {
        Some(m[f])
    } else {
        None
    }
}

/// The value of a field of an entity, whose id counts as a field.
pub open spec fn entity_field(id: Seq<char>, m: Map<Seq<char>, Val>, f: Seq<char>) -> Option<Val> {
    if f == id_field() {
        Some(Val::Str(id))
    } else {
        field_of(m, f)
    }
}

/// Whether a value is one of the listed literals.
pub open spec fn listed(v: Val, lits: Seq<Literal>) -> bool {
    exists|i: int| 0 <= i < lits.len() && value::val_eq((#[trigger] lits[i])@, v)
}

/// Whether a clause selects an entity. The order comparisons read the stored
/// fields alone; the other conditions also know the id.
pub open spec fn entity_sat(id: Seq<char>, m: Map<Seq<char>, Val>, c: WhereClause) -> bool
    decreases c,
{
    match c {
        WhereClause::Eq(f, lit) => match entity_field(id, m, f@) {
            Some(v) => value::val_eq(v, lit@),
            None => false,
        },
        WhereClause::Neq(f, lit) => match entity_field(id, m, f@) {
            Some(v) => !value::val_eq(v, lit@),
            None => true,
        },
        WhereClause::Gt(f, lit) => match field_of(m, f@) {
            Some(v) => value::val_gt(v, lit@),
            None => false,
        },
        WhereClause::Lt(f, lit) => match field_of(m, f@) {
            Some(v) => value::val_lt(v, lit@),
            None => false,
        },
        WhereClause::Gte(f, lit) => match field_of(m, f@) {
            Some(v) => value::val_gt(v, lit@) || value::val_eq(v, lit@),
            None => false,
        },
        WhereClause::Lte(f, lit) => match field_of(m, f@) {
            Some(v) => value::val_lt(v, lit@) || value::val_eq(v, lit@),
            None => false,
        },
        WhereClause::And(a, b) => entity_sat(id, m, *a) && entity_sat(id, m, *b),
        WhereClause::Or(a, b) => entity_sat(id, m, *a) || entity_sat(id, m, *b),
        WhereClause::Not(a) => !entity_sat(id, m, *a),
        WhereClause::IsNull(f) => value::absent(entity_field(id, m, f@)),
        WhereClause::IsNotNull(f) => !value::absent(entity_field(id, m, f@)),
        WhereClause::In(f, lits) => match entity_field(id, m, f@) {
            Some(v) => listed(v, lits@),
            None => false,
        },
        WhereClause::Like(f, p) => match entity_field(id, m, f@) {
            Some(Val::Str(s)) => like(s, p@),
            _ => false,
        },
    }
}

fn is_id(field: &str) -> (r: bool)
    ensures
        r == (field@ == id_field()),
{
    text_equal(field, "id")
}

/// Whether a value equals one of the listed literals.
pub fn is_listed(v: &Value, lits: &Vec<Literal>) -> (r: bool)
    ensures
        r == listed(v@, lits@),
{
    let mut i: usize = 0;
    while i < lits.len()
        invariant
            i <= lits.len(),
            forall|j: int| 0 <= j < i ==> !value::val_eq((#[trigger] lits@[j])@, v@),
        decreases lits.len() - i,
    {
        let x = literal_to_value(&lits[i]);
        if values_equal(&x, v) {
            return true;
        }
        i += 1;
    }
    false
}

/// Whether a clause selects an entity.
pub fn entity_matches(entity: &Entity, clause: &WhereClause) -> (r: bool)
    ensures
        r == entity_sat(entity.id@, entity.metadata@, *clause),
    decreases clause,
{
    match clause {
        WhereClause::Eq(field, lit) => {
            let expected = literal_to_value(lit);
            if is_id(field.as_str()) {
                return values_equal(&id_value(&entity.id), &expected);
            }
            match entity.metadata.get(field.as_str()) {
                Some(v) => values_equal(v, &expected),
                None => false,
            }
        },
        WhereClause::Neq(field, lit) => {
            let expected = literal_to_value(lit);
            if is_id(field.as_str()) {
                return !values_equal(&id_value(&entity.id), &expected);
            }
            match entity.metadata.get(field.as_str()) {
                Some(v) => !values_equal(v, &expected),
                None => true,
            }
        },
        WhereClause::Gt(field, lit) => {
            let threshold = literal_to_value(lit);
            match entity.metadata.get(field.as_str()) {
                Some(v) => value_gt(v, &threshold),
                None => false,
            }
        },
        WhereClause::Lt(field, lit) => {
            let threshold = literal_to_value(lit);
            match entity.metadata.get(field.as_str()) {
                Some(v) => value_lt(v, &threshold),
                None => false,
            }
        },
        WhereClause::Gte(field, lit) => {
            let threshold = literal_to_value(lit);
            match entity.metadata.get(field.as_str()) {
                Some(v) => value_gt(v, &threshold) || values_equal(v, &threshold),
                None => false,
            }
        },
        WhereClause::Lte(field, lit) => {
            let threshold = literal_to_value(lit);
            match entity.metadata.get(field.as_str()) {
                Some(v) => value_lt(v, &threshold) || values_equal(v, &threshold),
                None => false,
            }
        },
        WhereClause::And(a, b) => entity_matches(entity, a) && entity_matches(entity, b),
        WhereClause::Or(a, b) => entity_matches(entity, a) || entity_matches(entity, b),
        WhereClause::Not(a) => !entity_matches(entity, a),
        WhereClause::IsNull(field) => {
            if is_id(field.as_str()) {
                return false;
            }
            match entity.metadata.get(field.as_str()) {
                Some(Value::Null) => true,
                Some(_) => false,
                None => true,
            }
        },
        WhereClause::IsNotNull(field) => {
            if is_id(field.as_str()) {
                return true;
            }
            match entity.metadata.get(field.as_str()) {
                Some(Value::Null) => false,
                Some(_) => true,
                None => false,
            }
        },
        WhereClause::In(field, lits) => {
            if is_id(field.as_str()) {
                return is_listed(&id_value(&entity.id), lits);
            }
            match entity.metadata.get(field.as_str()) {
                Some(v) => is_listed(v, lits),
                None => false,
            }
        },
        WhereClause::Like(field, pattern) => {
            if is_id(field.as_str()) {
                return like_match(entity.id.as_str(), pattern.as_str());
            }
            match entity.metadata.get(field.as_str()) {
                Some(Value::String(s)) => like_match(s.as_str(), pattern.as_str()),
                _ => false,
            }
        },
    }
}

/// Whether a clause selects a joined row, whose fields carry their alias.
pub open spec fn row_sat(m: Map<Seq<char>, Val>, c: WhereClause) -> bool
    decreases c,
{
    match c {
        WhereClause::Eq(f, lit) => match field_of(m, f@) {
            Some(v) => value::val_eq(v, lit@),
            None => false,
        },
        WhereClause::Neq(f, lit) => match field_of(m, f@) {
            Some(v) => !value::val_eq(v, lit@),
            None => true,
        },
        WhereClause::Gt(f, lit) => match field_of(m, f@) {
            Some(v) => value::val_gt(v, lit@),
            None => false,
        },
        WhereClause::Lt(f, lit) => match field_of(m, f@) {
            Some(v) => value::val_lt(v, lit@),
            None => false,
        },
        WhereClause::Gte(f, lit) => match field_of(m, f@) {
            Some(v) => value::val_gt(v, lit@) || value::val_eq(v, lit@),
            None => false,
        },
        WhereClause::Lte(f, lit) => match field_of(m, f@) {
            Some(v) => value::val_lt(v, lit@) || value::val_eq(v, lit@),
            None => false,
        },
        WhereClause::And(a, b) => row_sat(m, *a) && row_sat(m, *b),
        WhereClause::Or(a, b) => row_sat(m, *a) || row_sat(m, *b),
        WhereClause::Not(a) => !row_sat(m, *a),
        WhereClause::IsNull(f) => value::absent(field_of(m, f@)),
        WhereClause::IsNotNull(f) => !value::absent(field_of(m, f@)),
        WhereClause::In(f, lits) => match field_of(m, f@) {
            Some(v) => listed(v, lits@),
            None => false,
        },
        WhereClause::Like(f, p) => match field_of(m, f@) {
            Some(Val::Str(s)) => like(s, p@),
            _ => false,
        },
    }
}

/// Whether a clause selects a joined row.
pub fn join_row_matches(combined: &FieldMap, clause: &WhereClause) -> (r: bool)
    ensures
        r == row_sat(combined@, *clause),
    decreases clause,
{
    match clause {
        WhereClause::Eq(field, lit) => {
            let expected = literal_to_value(lit);
            match combined.get(field.as_str()) {
                Some(v) => values_equal(v, &expected),
                None => false,
            }
        },
        WhereClause::Neq(field, lit) => {
            let expected = literal_to_value(lit);
            match combined.get(field.as_str()) {
                Some(v) => !values_equal(v, &expected),
                None => true,
            }
        },
        WhereClause::Gt(field, lit) => {
            let threshold = literal_to_value(lit);
            match combined.get(field.as_str()) {
                Some(v) => value_gt(v, &threshold),
                None => false,
            }
        },
        WhereClause::Lt(field, lit) => {
            let threshold = literal_to_value(lit);
            match combined.get(field.as_str()) {
                Some(v) => value_lt(v, &threshold),
                None => false,
            }
        },
        WhereClause::Gte(field, lit) => {
            let threshold = literal_to_value(lit);
            match combined.get(field.as_str()) {
                Some(v) => value_gt(v, &threshold) || values_equal(v, &threshold),
                None => false,
            }
        },
        WhereClause::Lte(field, lit) => {
            let threshold = literal_to_value(lit);
            match combined.get(field.as_str()) {
                Some(v) => value_lt(v, &threshold) || values_equal(v, &threshold),
                None => false,
            }
        },
        WhereClause::And(a, b) => join_row_matches(combined, a) && join_row_matches(combined, b),
        WhereClause::Or(a, b) => join_row_matches(combined, a) || join_row_matches(combined, b),
        WhereClause::Not(a) => !join_row_matches(combined, a),
        WhereClause::IsNull(field) => match combined.get(field.as_str()) {
            Some(Value::Null) => true,
            Some(_) => false,
            None => true,
        },
        WhereClause::IsNotNull(field) => match combined.get(field.as_str()) {
            Some(Value::Null) => false,
            Some(_) => true,
            None => false,
        },
        WhereClause::In(field, lits) => match combined.get(field.as_str()) {
            Some(v) => is_listed(v, lits),
            None => false,
        },
        WhereClause::Like(field, pattern) => match combined.get(field.as_str()) {
            Some(Value::String(s)) => like_match(s.as_str(), pattern.as_str()),
            _ => false,
        },
    }
}

} // verus!
