//! Which rows a FETCH answers, in which order, and under which columns.

use vstd::prelude::*;
use vstd::string::*;

use crate::fetch;
use crate::fetch::FetchPlan;
use crate::filter;
use crate::filter::WhereClause;
use crate::result::QueryResult;
use crate::rows;
use crate::rows::{FieldList, OrderByClause, Row, RowView, SortDirection};
use crate::selection;
use crate::sort;
use crate::text;
use crate::types::Entity;
use crate::value;
use crate::value::{Rank, Val};

verus! {

/// A limit keeps the first items, as many as it says or all where there are fewer.
pub proof fn lemma_limit_keeps_first<A>(s: Seq<A>, limit: Option<usize>)
    ensures
        limit is None ==> rows::limited(s, limit) == s,
        limit matches Some(n) ==> {
            &&& rows::limited(s, limit).len() == (if n <= s.len() {
                n as nat
            } else {
                s.len()
            })
            &&& forall|i: int|
                0 <= i < rows::limited(s, limit).len() ==> #[trigger] rows::limited(s, limit)[i] == s[i]
        },
{
}

/// The rows that a FETCH starts from are those of exactly the entities that its condition
/// selects, in their order, without a score.
pub proof fn lemma_fetch_in_order(es: Seq<Entity>, clause: Option<WhereClause>, fields: FieldList)
    ensures
        selection::is_selection(
            es,
            fetch::selected_rows(es, clause, fields),
            |e: Entity| clause matches Some(c) ==> filter::entity_sat(e.id@, e.metadata@, c),
            |e: Entity| RowView { values: rows::projected(e.id@, e.metadata@, fields), score: None },
        ),
    decreases es.len(),
{
    let keep = |e: Entity| clause matches Some(c) ==> filter::entity_sat(e.id@, e.metadata@, c);
    let make = |e: Entity| RowView { values: rows::projected(e.id@, e.metadata@, fields), score: None };
    let after = fetch::selected_rows(es, clause, fields);
    if es.len() == 0 {
        selection::lemma_selection_empty(es, after, keep, make);
    } else {
        lemma_fetch_in_order(es.drop_last(), clause, fields);
        selection::lemma_selection_grows(
            es,
            fetch::selected_rows(es.drop_last(), clause, fields),
            after,
            keep,
            make,
        );
    }
}

/// The entities that a lookup found are those still stored, in the order in which it named
/// them.
pub proof fn lemma_present_in_order<A>(found: Seq<Option<A>>)
    ensures
        selection::is_selection(found, fetch::present(found), |x: Option<A>| x is Some, |x: Option<A>| x->0),
    decreases found.len(),
{
    let keep = |x: Option<A>| x is Some;
    let make = |x: Option<A>| x->0;
    let after = fetch::present(found);
    if found.len() == 0 {
        selection::lemma_selection_empty(found, after, keep, make);
    } else {
        lemma_present_in_order(found.drop_last());
        selection::lemma_selection_grows(found, fetch::present(found.drop_last()), after, keep, make);
    }
}

/// A FETCH answers rows of those that it starts from, each no more often than it is there,
/// and no more than its limit; as many as there are where the limit allows.
pub proof fn lemma_fetch_answers(r: QueryResult, base: Seq<RowView>, p: FetchPlan)
    requires
        fetch::is_answer(r, base, p),
    ensures
        p.limit is None ==> r.rows@.len() == base.len(),
        p.limit matches Some(n) ==> r.rows@.len() == (if n <= base.len() {
            n as nat
        } else {
            base.len()
        }),
        exists|a: Seq<int>| #[trigger] takes(rows::row_views(r.rows@), base, a),
{
    let s = choose|s: Seq<RowView>| #[trigger]
        sort::stably_sorted(base, s, rows::row_rank(p.order_by@)) && rows::row_views(r.rows@) == rows::limited(
            s,
            p.limit,
        );
    let a = choose|a: Seq<int>| #[trigger]
        sort::arrangement(base, s, a) && (sort::total_on(base, rows::row_rank(p.order_by@)) ==> sort::in_order(
            s,
            a,
            rows::row_rank(p.order_by@),
        ));
    let rs = rows::row_views(r.rows@);
    assert(rs.len() == r.rows@.len());
    let b = a.take(rs.len() as int);
    assert forall|i: int| 0 <= i < b.len() implies 0 <= #[trigger] b[i] < base.len() by {
        assert(b[i] == a[i]);
    }
    assert forall|i: int, j: int| 0 <= i < j < b.len() implies #[trigger] b[i] != #[trigger] b[j] by {
        assert(b[i] == a[i] && b[j] == a[j]);
    }
    assert forall|i: int| 0 <= i < b.len() implies rs[i] == base[#[trigger] b[i]] by {
        assert(b[i] == a[i]);
        assert(s[i] == base[a[i]]);
    }
    assert(takes(rs, base, b));
}

/// Whether rows are taken from others, at different places.
pub open spec fn takes(rs: Seq<RowView>, base: Seq<RowView>, a: Seq<int>) -> bool {
    &&& a.len() == rs.len()
    &&& forall|i: int| 0 <= i < a.len() ==> 0 <= #[trigger] a[i] < base.len()
    &&& forall|i: int| 0 <= i < a.len() ==> rs[i] == base[#[trigger] a[i]]
    &&& forall|i: int, j: int| 0 <= i < j < a.len() ==> #[trigger] a[i] != #[trigger] a[j]
}

/// Whether the first `n` items of a sequence are in order, and none of those that another
/// holds belongs before one of them without being among them.
pub open spec fn leads_in_order<T>(base: Seq<T>, s: Seq<T>, n: int, rank: spec_fn(T, T) -> Rank) -> bool {
    &&& forall|i: int, j: int|
        #![trigger s[i], s[j]]
        0 <= i < j < n ==> rank(s[i], s[j]) != Rank::Greater
    &&& forall|i: int, c: int|
        #![trigger s[i], base[c]]
        0 <= i < n && 0 <= c < base.len() && rank(base[c], s[i]) == Rank::Less ==> s.take(n).contains(base[c])
}

proof fn lemma_leads_in_order<T>(base: Seq<T>, s: Seq<T>, n: int, rank: spec_fn(T, T) -> Rank)
    requires
        sort::stably_sorted(base, s, rank),
        sort::total_on(base, rank),
        0 <= n <= s.len(),
    ensures
        leads_in_order(base, s, n, rank),
{
    let a = choose|a: Seq<int>| #[trigger]
        sort::arrangement(base, s, a) && (sort::total_on(base, rank) ==> sort::in_order(s, a, rank));
    assert forall|i: int, c: int|
        #![trigger s[i], base[c]]
        0 <= i < n && 0 <= c < base.len() && rank(base[c], s[i]) == Rank::Less implies s.take(n).contains(base[c]) by {
        sort::lemma_arrangement_onto(a, c);
        let j = choose|j: int| 0 <= j < a.len() && a[j] == c;
        assert(s[j] == base[c]);
        assert(s[i] == base[a[i]]);
        if j < n {
            assert(s.take(n)[j] == base[c]);
        } else {
            assert(rank(s[i], s[j]) != Rank::Greater);
            assert(rank(base[a[i]], base[c]) == rank(base[c], base[a[i]]).flipped());
        }
    }
}

/// A FETCH that ORDER BY can order answers in order: no row comes after one that the terms
/// put behind it. And none that is left out for the limit belongs before one that is
/// answered.
pub proof fn lemma_fetch_ordered(r: QueryResult, base: Seq<RowView>, p: FetchPlan)
    requires
        fetch::is_answer(r, base, p),
        sort::total_on(base, rows::row_rank(p.order_by@)),
    ensures
        leads_in_order(
            base,
            rows::row_views(r.rows@),
            r.rows@.len() as int,
            |a: RowView, b: RowView| rows::order_rank(a.values, b.values, p.order_by@),
        ),
{
    let rank = rows::row_rank(p.order_by@);
    let f = |a: RowView, b: RowView| rows::order_rank(a.values, b.values, p.order_by@);
    assert(rank =~= f);
    let s = choose|s: Seq<RowView>| #[trigger]
        sort::stably_sorted(base, s, rank) && rows::row_views(r.rows@) == rows::limited(s, p.limit);
    let n = r.rows@.len() as int;
    let rs = rows::row_views(r.rows@);
    assert(rs.len() == n);
    assert(s.len() == base.len());
    lemma_leads_in_order(base, s, n, rank);
    assert(rs.take(n) =~= s.take(n));
    lemma_leads_prefix(base, s, rs, n, rank);
}

proof fn lemma_leads_prefix<T>(base: Seq<T>, s: Seq<T>, t: Seq<T>, n: int, rank: spec_fn(T, T) -> Rank)
    requires
        leads_in_order(base, s, n, rank),
        0 <= n <= s.len(),
        n <= t.len(),
        s.take(n) == t.take(n),
    ensures
        leads_in_order(base, t, n, rank),
{
    assert forall|i: int| 0 <= i < n implies #[trigger] t[i] == s[i] by {
        assert(s.take(n)[i] == s[i]);
        assert(t.take(n)[i] == t[i]);
    }
}

/// ORDER BY tells two rows apart by its first term under which they differ, in the
/// direction of that term: ascending as the fields rank, descending the other way round.
pub proof fn lemma_first_term_decides(
    a: Map<Seq<char>, Val>,
    b: Map<Seq<char>, Val>,
    order_by: Seq<OrderByClause>,
    i: int,
)
    requires
        0 <= i < order_by.len(),
        forall|j: int|
            0 <= j < i ==> value::val_rank(
                filter::field_of(a, (#[trigger] order_by[j]).field@),
                filter::field_of(b, order_by[j].field@),
            ) == Rank::Equal,
        value::val_rank(filter::field_of(a, order_by[i].field@), filter::field_of(b, order_by[i].field@))
            != Rank::Equal,
    ensures
        ({
            let r = value::val_rank(
                filter::field_of(a, order_by[i].field@),
                filter::field_of(b, order_by[i].field@),
            );
            match order_by[i].direction {
                SortDirection::Asc => rows::order_rank(a, b, order_by) == r,
                SortDirection::Desc => (rows::order_rank(a, b, order_by) == Rank::Less <==> r == Rank::Greater) && (
                rows::order_rank(a, b, order_by) == Rank::Greater <==> r == Rank::Less),
            }
        }),
    decreases order_by.len(),
{
    if i > 0 {
        let rest = order_by.drop_first();
        assert forall|j: int| 0 <= j < i - 1 implies value::val_rank(
            filter::field_of(a, (#[trigger] rest[j]).field@),
            filter::field_of(b, rest[j].field@),
        ) == Rank::Equal by {
            assert(rest[j] == order_by[j + 1]);
        }
        assert(rest[i - 1] == order_by[i]);
        assert(value::val_rank(
            filter::field_of(a, order_by[0].field@),
            filter::field_of(b, order_by[0].field@),
        ) == Rank::Equal);
        lemma_first_term_decides(a, b, rest, i - 1);
    }
}

/// Rows that no term of ORDER BY tells apart rank as equal.
pub proof fn lemma_no_term_decides(a: Map<Seq<char>, Val>, b: Map<Seq<char>, Val>, order_by: Seq<OrderByClause>)
    requires
        forall|j: int|
            0 <= j < order_by.len() ==> value::val_rank(
                filter::field_of(a, (#[trigger] order_by[j]).field@),
                filter::field_of(b, order_by[j].field@),
            ) == Rank::Equal,
    ensures
        rows::order_rank(a, b, order_by) == Rank::Equal,
    decreases order_by.len(),
{
    if order_by.len() > 0 {
        let rest = order_by.drop_first();
        assert forall|j: int| 0 <= j < rest.len() implies value::val_rank(
            filter::field_of(a, (#[trigger] rest[j]).field@),
            filter::field_of(b, rest[j].field@),
        ) == Rank::Equal by {
            assert(rest[j] == order_by[j + 1]);
        }
        assert(value::val_rank(
            filter::field_of(a, order_by[0].field@),
            filter::field_of(b, order_by[0].field@),
        ) == Rank::Equal);
        lemma_no_term_decides(a, b, rest);
    }
}

/// The columns of named fields are the id, then each name once; a name that first occurs
/// before another comes before it.
pub proof fn lemma_named_columns(names: Seq<Seq<char>>)
    ensures
        rows::named_columns(names).len() > 0,
        rows::named_columns(names)[0] == "id"@,
        rows::named_columns(names).no_duplicates(),
        forall|k: Seq<char>| #[trigger]
            rows::named_columns(names).contains(k) <==> k == "id"@ || names.contains(k),
        forall|i: int|
            0 <= i < names.len() ==> rows::named_columns(#[trigger] names.take(i)).is_prefix_of(
                rows::named_columns(names),
            ),
    decreases names.len(),
{
    let all = rows::named_columns(names);
    if names.len() == 0 {
        assert(all[0] == "id"@);
    } else {
        let head = names.drop_last();
        let x = names.last();
        let cols = rows::named_columns(head);
        lemma_named_columns(head);
        assert(head.push(x) =~= names);
        assert forall|k: Seq<char>| #[trigger] all.contains(k) <==> k == "id"@ || names.contains(k) by {
            if cols.contains(k) {
                let i = choose|i: int| 0 <= i < cols.len() && cols[i] == k;
                assert(all[i] == k);
            }
            if head.contains(k) {
                let i = choose|i: int| 0 <= i < head.len() && head[i] == k;
                assert(names[i] == k);
            }
            if names.contains(k) {
                let i = choose|i: int| 0 <= i < names.len() && names[i] == k;
                if i < head.len() {
                    assert(head[i] == k);
                } else if !cols.contains(x) {
                    assert(all[cols.len() as int] == k);
                }
            }
            if all.contains(k) && !cols.contains(k) {
                assert(names[names.len() - 1] == x);
            }
        }
        assert forall|i: int| 0 <= i < names.len() implies rows::named_columns(#[trigger] names.take(i)).is_prefix_of(
            all,
        ) by {
            if i < head.len() {
                assert(head.take(i) =~= names.take(i));
                assert(rows::named_columns(head.take(i)).is_prefix_of(cols));
            } else {
                assert(names.take(i) =~= head);
            }
        }
    }
}

/// Where every field is asked for, the columns are the id and then every field of the rows
/// but the id, each once and in increasing order.
pub proof fn lemma_all_columns(rs: Seq<Row>, cols: Seq<Seq<char>>)
    requires
        rows::all_columns(rs, cols),
    ensures
        cols.len() > 0,
        cols[0] == "id"@,
        forall|i: int, j: int|
            #![trigger cols[i], cols[j]]
            1 <= i < j < cols.len() ==> text::text_lt(cols[i], cols[j]),
        forall|i: int, k: Seq<char>|
            0 <= i < rs.len() && #[trigger] rs[i].values@.contains_key(k) ==> cols.contains(k),
        forall|c: int|
            1 <= c < cols.len() ==> #[trigger] cols[c] != "id"@ && exists|i: int|
                0 <= i < rs.len() && (#[trigger] rs[i]).values@.contains_key(cols[c]),
{
    let rest = cols.drop_first();
    assert forall|i: int, j: int|
        #![trigger cols[i], cols[j]]
        1 <= i < j < cols.len() implies text::text_lt(cols[i], cols[j]) by {
        assert(rest[i - 1] == cols[i] && rest[j - 1] == cols[j]);
    }
    assert forall|i: int, k: Seq<char>|
        0 <= i < rs.len() && #[trigger] rs[i].values@.contains_key(k) implies cols.contains(k) by {
        assert(rows::some_row_has(rs, k));
        if k == "id"@ {
            assert(cols[0] == k);
        } else {
            assert(rest.contains(k));
            let j = choose|j: int| 0 <= j < rest.len() && rest[j] == k;
            assert(cols[j + 1] == k);
        }
    }
    assert forall|c: int| 1 <= c < cols.len() implies #[trigger] cols[c] != "id"@ && exists|i: int|
        0 <= i < rs.len() && (#[trigger] rs[i]).values@.contains_key(cols[c]) by {
        assert(rest[c - 1] == cols[c]);
        assert(rest.contains(cols[c]));
    }
}

/// Whether an integer passes the comparisons of a condition, each read as including its
/// bound.
pub open spec fn within_bounds(c: WhereClause, v: i64) -> bool
    decreases c,
{
    match c {
        WhereClause::Gt(_, lit) => lit@ matches Val::Int(n) ==> n <= v,
        WhereClause::Gte(_, lit) => lit@ matches Val::Int(n) ==> n <= v,
        WhereClause::Lt(_, lit) => lit@ matches Val::Int(n) ==> v <= n,
        WhereClause::Lte(_, lit) => lit@ matches Val::Int(n) ==> v <= n,
        WhereClause::And(a, b) => within_bounds(*a, v) && within_bounds(*b, v),
        _ => true,
    }
}

/// A range lookup reads no more than it must: of the integers, exactly those lie between the
/// bounds of a condition that pass each of its comparisons, read as including its bound.
pub proof fn lemma_bounds_tight(c: WhereClause, f: Seq<char>, v: i64)
    requires
        fetch::bounds_field(c, f),
    ensures
        fetch::bounds(c).0.len() == 1,
        fetch::bounds(c).1.len() == 1,
        fetch::bounds(c).0[0] is Int,
        fetch::bounds(c).1[0] is Int,
        within_bounds(c, v) <==> fetch::bounds(c).0[0]->Int_0 <= v <= fetch::bounds(c).1[0]->Int_0,
    decreases c,
{
    if let WhereClause::And(a, b) = c {
        lemma_bounds_tight(*a, f, v);
        lemma_bounds_tight(*b, f, v);
    }
}

/// Whether some row holds the field.
pub open spec fn is_field_of(rs: Seq<Row>, k: Seq<char>) -> bool {
    exists|i: int| 0 <= i < rs.len() && #[trigger] rs[i].values@.contains_key(k)
}

/// The columns of a JOIN that asks for every field are exactly the fields of its rows, each
/// once and in increasing order.
pub proof fn lemma_sorted_columns(rs: Seq<Row>, cols: Seq<Seq<char>>)
    requires
        rows::sorted_columns(rs, cols),
    ensures
        forall|i: int, j: int|
            #![trigger cols[i], cols[j]]
            0 <= i < j < cols.len() ==> text::text_lt(cols[i], cols[j]),
        forall|i: int, k: Seq<char>|
            0 <= i < rs.len() && #[trigger] rs[i].values@.contains_key(k) ==> cols.contains(k),
        forall|c: int| 0 <= c < cols.len() ==> is_field_of(rs, #[trigger] cols[c]),
{
    assert forall|i: int, k: Seq<char>|
        0 <= i < rs.len() && #[trigger] rs[i].values@.contains_key(k) implies cols.contains(k) by {
        assert(rows::some_row_has(rs, k));
    }
    assert forall|c: int| 0 <= c < cols.len() implies is_field_of(rs, #[trigger] cols[c]) by {
        assert(cols.contains(cols[c]));
        let i = choose|i: int| 0 <= i < rs.len() && (#[trigger] rs[i]).values@.contains_key(cols[c]);
        assert(rs[i].values@.contains_key(cols[c]));
    }
}

} // verus!
