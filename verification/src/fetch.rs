//! FETCH: which entities are read, and what is made of them.

use vstd::prelude::*;
use vstd::string::*;

use crate::error::{EngineError, ErrorView};
use crate::field_index;
use crate::filter;
use crate::filter::{entity_matches, WhereClause};
use crate::result::{QueryMode, QueryResult};
use crate::rows;
use crate::rows::{build_columns, entity_to_row, limit_rows, sort_rows, FieldList, OrderByClause, Row, RowView};
use crate::sort;
use crate::text;
use crate::text::{cat3, own};
use crate::types::Entity;
use crate::value;
use crate::value::{literal_to_value, value_gt, value_lt, Val, Value};

verus! {

/// How the entities of a FETCH are found.
#[derive(Debug)]
pub enum FetchStrategy {
    FullScan,
    FieldIndexLookup(String),
    FieldIndexRange(String),
}

/// A planned FETCH.
#[derive(Debug)]
pub struct FetchPlan {
    pub collection: String,
    pub fields: FieldList,
    pub filter: Option<WhereClause>,
    pub order_by: Vec<OrderByClause>,
    pub limit: Option<usize>,
    pub strategy: FetchStrategy,
    pub hints: Vec<String>,
}

/// What to read for a FETCH.
#[derive(Debug)]
pub enum FetchAccess {
    /// Every entity of the collection.
    Scan,
    /// The entities that an index holds under these values.
    Lookup(Vec<Value>),
    /// The entities that an index holds between these values.
    Range(Vec<Value>, Vec<Value>),
}

/// The larger of two lower bounds, the second where they cannot be told apart.
pub open spec fn tighter_lower(a: Seq<Val>, b: Seq<Val>) -> Seq<Val> {
    if a.len() == 1 && b.len() == 1 && !value::val_gt(a[0], b[0]) {
        b
    } else {
        a
    }
}

/// The smaller of two upper bounds, the second where they cannot be told apart.
pub open spec fn tighter_upper(a: Seq<Val>, b: Seq<Val>) -> Seq<Val> {
    if a.len() == 1 && b.len() == 1 && !value::val_lt(a[0], b[0]) {
        b
    } else {
        a
    }
}

fn copy_values(a: &[Value]) -> (r: Vec<Value>)
    ensures
        field_index::vals(r@) == field_index::vals(a@),
{
    let mut r: Vec<Value> = Vec::new();
    let mut i: usize = 0;
    while i < a.len()
        invariant
            i <= a.len(),
            r@ == a@.subrange(0, i as int),
        decreases a.len() - i,
    {
        r.push(a[i].clone());
        proof {
            assert(a@.subrange(0, i as int + 1) =~= a@.subrange(0, i as int).push(a@[i as int]));
        }
        i += 1;
    }
    assert(r@ =~= a@);
    r
}

/// The larger of two lower bounds.
pub fn pick_tighter_lower(a: &[Value], b: &[Value]) -> (r: Vec<Value>)
    ensures
        field_index::vals(r@) == tighter_lower(field_index::vals(a@), field_index::vals(b@)),
{
    if a.len() == 1 && b.len() == 1 {
        if value_gt(&a[0], &b[0]) {
            copy_values(a)
        } else {
            copy_values(b)
        }
    } else {
        copy_values(a)
    }
}

/// The smaller of two upper bounds.
pub fn pick_tighter_upper(a: &[Value], b: &[Value]) -> (r: Vec<Value>)
    ensures
        field_index::vals(r@) == tighter_upper(field_index::vals(a@), field_index::vals(b@)),
{
    if a.len() == 1 && b.len() == 1 {
        if value_lt(&a[0], &b[0]) {
            copy_values(a)
        } else {
            copy_values(b)
        }
    } else {
        copy_values(a)
    }
}

/// The inclusive bounds that a clause sets: those of its comparisons, narrowed
/// where two are joined by AND, and the whole range of integers elsewhere.
pub open spec fn bounds(c: WhereClause) -> (Seq<Val>, Seq<Val>)
    decreases c,
{
    match c {
        WhereClause::Gt(_, lit) => (seq![lit@], seq![Val::Int(i64::MAX)]),
        WhereClause::Gte(_, lit) => (seq![lit@], seq![Val::Int(i64::MAX)]),
        WhereClause::Lt(_, lit) => (seq![Val::Int(i64::MIN)], seq![lit@]),
        WhereClause::Lte(_, lit) => (seq![Val::Int(i64::MIN)], seq![lit@]),
        WhereClause::And(a, b) => (
            tighter_lower(bounds(*a).0, bounds(*b).0),
            tighter_upper(bounds(*a).1, bounds(*b).1),
        ),
        _ => (seq![Val::Int(i64::MIN)], seq![Val::Int(i64::MAX)]),
    }
}

fn one(v: Value) -> (r: Vec<Value>)
    ensures
        field_index::vals(r@) == seq![v@],
{
    let mut r: Vec<Value> = Vec::new();
    r.push(v);
    assert(field_index::vals(r@) =~= seq![v@]);
    r
}

/// The inclusive bounds that a clause sets.
pub fn range_bounds_from_clause(clause: &WhereClause) -> (r: (Vec<Value>, Vec<Value>))
    ensures
        (field_index::vals(r.0@), field_index::vals(r.1@)) == bounds(*clause),
    decreases clause,
{
    match clause {
        WhereClause::Gt(_, lit) | WhereClause::Gte(_, lit) => (
            one(literal_to_value(lit)),
            one(Value::Int(i64::MAX)),
        ),
        WhereClause::Lt(_, lit) | WhereClause::Lte(_, lit) => (
            one(Value::Int(i64::MIN)),
            one(literal_to_value(lit)),
        ),
        WhereClause::And(left, right) => {
            let l = range_bounds_from_clause(left);
            let r = range_bounds_from_clause(right);
            let lower = pick_tighter_lower(l.0.as_slice(), r.0.as_slice());
            let upper = pick_tighter_upper(l.1.as_slice(), r.1.as_slice());
            (lower, upper)
        },
        _ => (one(Value::Int(i64::MIN)), one(Value::Int(i64::MAX))),
    }
}

/// The name under which an index or a vector index of a collection is registered.
pub open spec fn scoped(collection: Seq<char>, name: Seq<char>) -> Seq<char> {
    collection + ":"@ + name
}

/// The name under which an index or a vector index of a collection is registered.
pub fn scoped_key(collection: &str, name: &str) -> (s: String)
    ensures
        s@ == scoped(collection@, name@),
{
    cat3(collection, ":", name)
}

/// The error of an index that is not registered.
pub open spec fn index_missing(name: Seq<char>) -> ErrorView {
    ErrorView::InvalidQuery("field index '"@ + name + "' not found"@)
}

/// What to read for a FETCH, where `index_exists` says whether the index that
/// the plan names is registered.
pub fn fetch_access(p: &FetchPlan, index_exists: bool) -> (r: Result<FetchAccess, EngineError>)
    ensures
        match p.strategy {
            FetchStrategy::FullScan => r is Ok && r->Ok_0 is Scan,
            FetchStrategy::FieldIndexLookup(name) => if !index_exists {
                r is Err && r->Err_0@ == index_missing(name@)
            } else {
                match p.filter {
                    Some(WhereClause::Eq(_, lit)) => r matches Ok(FetchAccess::Lookup(v)) && field_index::vals(v@)
                        == seq![lit@],
                    _ => r is Err && r->Err_0@ == ErrorView::InvalidQuery(
                        "FieldIndexLookup requires Eq filter"@,
                    ),
                }
            },
            FetchStrategy::FieldIndexRange(name) => if !index_exists {
                r is Err && r->Err_0@ == index_missing(name@)
            } else {
                match p.filter {
                    Some(c) => r matches Ok(FetchAccess::Range(a, b)) && (
                        field_index::vals(a@),
                        field_index::vals(b@),
                    ) == bounds(c),
                    None => r is Err && r->Err_0@ == ErrorView::InvalidQuery(
                        "FieldIndexRange requires a range filter"@,
                    ),
                }
            },
        },
{
    match &p.strategy {
        FetchStrategy::FullScan => Ok(FetchAccess::Scan),
        FetchStrategy::FieldIndexLookup(name) => {
            if !index_exists {
                return Err(EngineError::InvalidQuery(cat3("field index '", name.as_str(), "' not found")));
            }
            match &p.filter {
                Some(WhereClause::Eq(_, lit)) => Ok(FetchAccess::Lookup(one(literal_to_value(lit)))),
                _ => Err(EngineError::InvalidQuery(own("FieldIndexLookup requires Eq filter"))),
            }
        },
        FetchStrategy::FieldIndexRange(name) => {
            if !index_exists {
                return Err(EngineError::InvalidQuery(cat3("field index '", name.as_str(), "' not found")));
            }
            match &p.filter {
                Some(c) => {
                    let b = range_bounds_from_clause(c);
                    Ok(FetchAccess::Range(b.0, b.1))
                },
                None => Err(EngineError::InvalidQuery(own("FieldIndexRange requires a range filter"))),
            }
        },
    }
}

/// Whether an entity passes an optional clause.
pub open spec fn passes(e: Entity, filter: Option<WhereClause>) -> bool {
    match filter {
        Some(c) => filter::entity_sat(e.id@, e.metadata@, c),
        None => true,
    }
}

/// The row of an entity.
pub open spec fn row_of(e: Entity, fields: FieldList) -> RowView {
    RowView { values: rows::projected(e.id@, e.metadata@, fields), score: None }
}

/// The rows of those entities that pass the clause, in order.
pub open spec fn selected_rows(es: Seq<Entity>, filter: Option<WhereClause>, fields: FieldList) -> Seq<RowView>
    decreases es.len(),
{
    if es.len() == 0 {
        Seq::empty()
    } else {
        let before = selected_rows(es.drop_last(), filter, fields);
        if passes(es.last(), filter) {
            before.push(row_of(es.last(), fields))
        } else {
            before
        }
    }
}

/// Those items that are present, in order.
pub open spec fn present<A>(s: Seq<Option<A>>) -> Seq<A>
    decreases s.len(),
{
    if s.len() == 0 {
        Seq::empty()
    } else {
        match s.last() {
            Some(x) => present(s.drop_last()).push(x),
            None => present(s.drop_last()),
        }
    }
}

fn rows_of(es: &Vec<Entity>, filter: &Option<WhereClause>, fields: &FieldList) -> (r: Vec<Row>)
    ensures
        rows::row_views(r@) == selected_rows(es@, *filter, *fields),
{
    let mut r: Vec<Row> = Vec::new();
    let mut i: usize = 0;
    proof {
        assert(rows::row_views(r@) =~= selected_rows(es@.subrange(0, 0), *filter, *fields));
    }
    while i < es.len()
        invariant
            i <= es.len(),
            rows::row_views(r@) == selected_rows(es@.subrange(0, i as int), *filter, *fields),
        decreases es.len() - i,
    {
        let ghost before = rows::row_views(r@);
        proof {
            let next = es@.subrange(0, i as int + 1);
            assert(next.drop_last() =~= es@.subrange(0, i as int));
            assert(next.last() == es@[i as int]);
        }
        let keep = match filter {
            Some(c) => entity_matches(&es[i], c),
            None => true,
        };
        if keep {
            let row = entity_to_row(&es[i], fields);
            r.push(row);
            proof {
                assert(rows::row_views(r@) =~= before.push(row_of(es@[i as int], *fields)));
            }
        }
        i += 1;
    }
    assert(es@.subrange(0, es@.len() as int) =~= es@);
    r
}

/// Whether `r` holds the base rows, ordered and limited as the plan says, with
/// the columns of those rows.
pub open spec fn is_answer(r: QueryResult, base: Seq<RowView>, p: FetchPlan) -> bool {
    &&& exists|sorted: Seq<RowView>| #[trigger]
        sort::stably_sorted(base, sorted, rows::row_rank(p.order_by@)) && rows::row_views(r.rows@)
            == rows::limited(sorted, p.limit)
    &&& match p.fields {
        FieldList::Named(names) => text::views(r.columns@) == rows::named_columns(text::views(names@)),
        FieldList::All => rows::all_columns(r.rows@, text::views(r.columns@)),
    }
    &&& r.mode == QueryMode::Deterministic
}

fn answer(base: Vec<Row>, p: &FetchPlan, scanned: usize, tier: &str) -> (r: QueryResult)
    ensures
        is_answer(r, rows::row_views(base@), *p),
        r.entities_scanned == scanned,
        r.tier@ == tier@,
{
    let mut rows = base;
    sort_rows(&mut rows, &p.order_by);
    let ghost sorted = rows::row_views(rows@);
    let ghost before = rows@;
    limit_rows(&mut rows, p.limit);
    proof {
        assert(rows::row_views(rows@) =~= rows::limited(sorted, p.limit));
    }
    let columns = build_columns(&rows, &p.fields);
    QueryResult {
        columns,
        rows,
        entities_scanned: scanned,
        mode: QueryMode::Deterministic,
        tier: own(tier),
    }
}

/// Answers a FETCH from every entity of the collection.
pub fn fetch_scanned(entities: &Vec<Entity>, p: &FetchPlan) -> (r: QueryResult)
    ensures
        is_answer(r, selected_rows(entities@, p.filter, p.fields), *p),
        r.entities_scanned == entities@.len(),
        r.tier@ == "Fjall"@,
{
    let base = rows_of(entities, &p.filter, &p.fields);
    answer(base, p, entities.len(), "Fjall")
}

fn rows_of_found(found: &Vec<Option<Entity>>, filter: &Option<WhereClause>, fields: &FieldList) -> (r: Vec<Row>)
    ensures
        rows::row_views(r@) == selected_rows(present(found@), *filter, *fields),
{
    let mut r: Vec<Row> = Vec::new();
    let mut i: usize = 0;
    proof {
        assert(rows::row_views(r@) =~= selected_rows(present(found@.subrange(0, 0)), *filter, *fields));
    }
    while i < found.len()
        invariant
            i <= found.len(),
            rows::row_views(r@) == selected_rows(present(found@.subrange(0, i as int)), *filter, *fields),
        decreases found.len() - i,
    {
        let ghost before = rows::row_views(r@);
        let ghost prev = present(found@.subrange(0, i as int));
        proof {
            let next = found@.subrange(0, i as int + 1);
            assert(next.drop_last() =~= found@.subrange(0, i as int));
            assert(next.last() == found@[i as int]);
        }
        if let Some(e) = &found[i] {
            proof {
                assert(prev.push(*e).drop_last() =~= prev);
            }
            let keep = match filter {
                Some(c) => entity_matches(e, c),
                None => true,
            };
            if keep {
                let row = entity_to_row(e, fields);
                r.push(row);
                proof {
                    assert(rows::row_views(r@) =~= before.push(row_of(*e, *fields)));
                }
            }
        }
        i += 1;
    }
    assert(found@.subrange(0, found@.len() as int) =~= found@);
    r
}

/// Answers a FETCH from the entities that an equality lookup named; an entity
/// that is no longer stored is absent.
pub fn fetch_looked_up(found: &Vec<Option<Entity>>, p: &FetchPlan) -> (r: QueryResult)
    ensures
        is_answer(r, selected_rows(present(found@), None, p.fields), *p),
        r.entities_scanned == found@.len(),
        r.tier@ == "FieldIndex"@,
{
    let base = rows_of_found(found, &None, &p.fields);
    answer(base, p, found.len(), "FieldIndex")
}

/// Answers a FETCH from the entities that a range lookup named. The clause is
/// applied again, since the bounds of the lookup are inclusive.
pub fn fetch_in_range(found: &Vec<Option<Entity>>, p: &FetchPlan) -> (r: QueryResult)
    ensures
        is_answer(r, selected_rows(present(found@), p.filter, p.fields), *p),
        r.entities_scanned == found@.len(),
        r.tier@ == "FieldIndex"@,
{
    let base = rows_of_found(found, &p.filter, &p.fields);
    answer(base, p, found.len(), "FieldIndex")
}

/// Whether every comparison that sets a bound is between the field `f` and an integer.
pub open spec fn bounds_field(c: WhereClause, f: Seq<char>) -> bool
    decreases c,
{
    match c {
        WhereClause::Gt(g, lit) => g@ == f && lit@ is Int,
        WhereClause::Gte(g, lit) => g@ == f && lit@ is Int,
        WhereClause::Lt(g, lit) => g@ == f && lit@ is Int,
        WhereClause::Lte(g, lit) => g@ == f && lit@ is Int,
        WhereClause::And(a, b) => bounds_field(*a, f) && bounds_field(*b, f),
        _ => true,
    }
}

/// A range lookup misses nothing: an entity that the clause selects has its
/// value between the bounds that the clause sets.
pub proof fn lemma_bounds_complete(c: WhereClause, f: Seq<char>, id: Seq<char>, m: Map<Seq<char>, Val>, v: i64)
    requires
        bounds_field(c, f),
        filter::field_of(m, f) == Some(Val::Int(v)),
        filter::entity_sat(id, m, c),
    ensures
        bounds(c).0.len() == 1,
        bounds(c).1.len() == 1,
        bounds(c).0[0] matches Val::Int(lo) && lo <= v,
        bounds(c).1[0] matches Val::Int(hi) && v <= hi,
    decreases c,
{
    match c {
        WhereClause::And(a, b) => {
            lemma_bounds_complete(*a, f, id, m, v);
            lemma_bounds_complete(*b, f, id, m, v);
        },
        _ => {},
    }
}

} // verus!
