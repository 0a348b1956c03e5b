//! Query results.

use vstd::prelude::*;

use crate::fields::single_field;
use crate::rows;
use crate::rows::{Row, RowView};
use crate::text;
use crate::text::own;
use crate::value::{Val, Value};

verus! {

/// Whether a query is answered exactly or by similarity.
#[derive(Clone, Copy, PartialEq, Eq, Structural, Debug)]
pub enum QueryMode {
    Deterministic,
    Probabilistic,
}

/// The answer to a query.
#[derive(Debug)]
pub struct QueryResult {
    pub columns: Vec<String>,
    pub rows: Vec<Row>,
    pub entities_scanned: usize,
    pub mode: QueryMode,
    pub tier: String,
}

/// The row with one field.
pub open spec fn one_field(name: Seq<char>, v: Val) -> RowView {
    RowView { values: Map::<Seq<char>, Val>::empty().insert(name, v), score: None }
}

/// Whether a result is one row that says what was done, to so many entities.
pub open spec fn is_counted(
    r: QueryResult,
    column: Seq<char>,
    message: Seq<char>,
    tier: Seq<char>,
    scanned: usize,
) -> bool {
    &&& text::views(r.columns@) == seq![column]
    &&& rows::row_views(r.rows@) == seq![one_field(column, Val::Str(message))]
    &&& r.entities_scanned == scanned
    &&& r.mode == QueryMode::Deterministic
    &&& r.tier@ == tier
}

/// Whether a result is one row that says what was done.
pub open spec fn is_message(r: QueryResult, column: Seq<char>, message: Seq<char>, tier: Seq<char>) -> bool {
    is_counted(r, column, message, tier, 0)
}

/// A result of one row that says what was done.
pub fn message_result(column: &str, message: String, tier: &str) -> (r: QueryResult)
    ensures
        is_message(r, column@, message@, tier@),
{
    let mut columns: Vec<String> = Vec::new();
    columns.push(own(column));
    let mut rows: Vec<Row> = Vec::new();
    let values = single_field(column, Value::String(message));
    rows.push(Row { values, score: None });
    let r = QueryResult {
        columns,
        rows,
        entities_scanned: 0,
        mode: QueryMode::Deterministic,
        tier: own(tier),
    };
    assert(text::views(r.columns@) =~= seq![column@]);
    assert(rows::row_views(r.rows@) =~= seq![one_field(column@, Val::Str(message@))]);
    r
}

} // verus!
