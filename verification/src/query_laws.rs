//! What conditions, ORDER BY, FETCH and SEARCH keep.

use vstd::prelude::*;
use vstd::string::*;
use vstd::utf8::*;

use crate::fetch;
use crate::filter;
use crate::filter::WhereClause;
use crate::float_bits;
use crate::insert;
use crate::insert::InsertPlan;
use crate::rows;
use crate::rows::{FieldList, OrderByClause, RowView, SortDirection};
use crate::search;
use crate::search::{Candidate, HitView};
use crate::sort;
use crate::text;
use crate::types::Entity;
use crate::update;
use crate::value;
use crate::value::{Literal, Rank, Val};

verus! {

/// A pattern that is a percent sign matches every text.
pub proof fn lemma_like_any(v: Seq<char>)
    ensures
        filter::like(v, seq!['%']),
{
    let p = seq!['%'];
    assert(p.drop_first() =~= Seq::empty());
    assert(v.skip(v.len() as int) =~= Seq::empty());
    assert(filter::like(v.skip(v.len() as int), p.drop_first()));
}

/// A pattern without wildcards matches itself alone.
pub proof fn lemma_like_plain(v: Seq<char>, p: Seq<char>)
    requires
        !p.contains('%'),
        !p.contains('_'),
    ensures
        filter::like(v, p) <==> v == p,
    decreases p.len(),
{
    if p.len() == 0 {
        if v.len() == 0 {
            assert(v =~= p);
        }
    } else {
        assert(p.contains(p[0]));
        let q = p.drop_first();
        assert forall|c: char| q.contains(c) implies p.contains(c) by {
            let i = choose|i: int| 0 <= i < q.len() && q[i] == c;
            assert(p[i + 1] == c);
        }
        if v.len() > 0 {
            lemma_like_plain(v.drop_first(), q);
            if v[0] == p[0] && v.drop_first() == q {
                assert(v =~= seq![v[0]] + v.drop_first());
                assert(p =~= seq![p[0]] + q);
            }
        }
    }
}

/// A pattern that ends in its only percent sign matches what begins with the rest of it.
pub proof fn lemma_like_prefix(v: Seq<char>, p: Seq<char>)
    requires
        !p.contains('%'),
        !p.contains('_'),
    ensures
        filter::like(v, p.push('%')) <==> text::has_prefix(v, p),
    decreases p.len(),
{
    let w = p.push('%');
    if p.len() == 0 {
        assert(w =~= seq!['%']);
        lemma_like_any(v);
        assert(v.subrange(0, 0) =~= p);
    } else {
        assert(p.contains(p[0]));
        let q = p.drop_first();
        assert(w.drop_first() =~= q.push('%'));
        assert forall|c: char| q.contains(c) implies p.contains(c) by {
            let i = choose|i: int| 0 <= i < q.len() && q[i] == c;
            assert(p[i + 1] == c);
        }
        if v.len() > 0 {
            let u = v.drop_first();
            lemma_like_prefix(u, q);
            if text::has_prefix(v, p) {
                assert(v.subrange(0, p.len() as int)[0] == p[0]);
                assert(u.subrange(0, q.len() as int) =~= q) by {
                    assert forall|i: int| 0 <= i < q.len() implies u[i] == q[i] by {
                        assert(v.subrange(0, p.len() as int)[i + 1] == p[i + 1]);
                    }
                }
            }
            if v[0] == p[0] && text::has_prefix(u, q) {
                assert(v.subrange(0, p.len() as int) =~= p) by {
                    assert forall|i: int| 0 <= i < p.len() implies v[i] == p[i] by {
                        if i > 0 {
                            assert(u.subrange(0, q.len() as int)[i - 1] == q[i - 1]);
                        }
                    }
                }
            }
        }
    }
}

/// Of a condition and its opposite exactly one selects an entity: of equal and not
/// equal, of null and not null, and of any condition and its negation.
pub proof fn lemma_opposites(id: Seq<char>, m: Map<Seq<char>, Val>, f: String, lit: Literal, c: Box<WhereClause>)
    ensures
        filter::entity_sat(id, m, WhereClause::Neq(f, lit)) == !filter::entity_sat(id, m, WhereClause::Eq(f, lit)),
        filter::entity_sat(id, m, WhereClause::IsNotNull(f)) == !filter::entity_sat(id, m, WhereClause::IsNull(f)),
        filter::entity_sat(id, m, WhereClause::Not(c)) == !filter::entity_sat(id, m, *c),
        filter::row_sat(m, WhereClause::Neq(f, lit)) == !filter::row_sat(m, WhereClause::Eq(f, lit)),
        filter::row_sat(m, WhereClause::IsNotNull(f)) == !filter::row_sat(m, WhereClause::IsNull(f)),
        filter::row_sat(m, WhereClause::Not(c)) == !filter::row_sat(m, *c),
{
}

/// The kinds of what a field may hold.
pub open spec fn kind(v: Option<Val>) -> int {
    match v {
        None => 0,
        Some(Val::Null) => 1,
        Some(Val::Str(_)) => 2,
        Some(Val::Int(_)) => 3,
        Some(Val::Float(_)) => 4,
        Some(Val::Bool(_)) => 5,
    }
}

/// Whether what a field holds is a number, where it is a float.
pub open spec fn is_number_if_float(v: Option<Val>) -> bool {
    v matches Some(Val::Float(b)) ==> !float_bits::f64_is_nan(b)
}

/// Whether two things that a field holds can be ordered: they are of one kind, or one of
/// them is absent and the other is not.
pub open spec fn orderable(a: Option<Val>, b: Option<Val>) -> bool {
    &&& is_number_if_float(a)
    &&& is_number_if_float(b)
    &&& kind(a) == kind(b) || value::absent(a) != value::absent(b)
}

proof fn lemma_text_order(a: Seq<char>, b: Seq<char>, c: Seq<char>)
    ensures
        !(text::text_lt(a, b) && text::text_lt(b, a)),
        !text::text_lt(b, a) && !text::text_lt(c, b) ==> !text::text_lt(c, a),
{
    let x = encode_utf8(a);
    let y = encode_utf8(b);
    let z = encode_utf8(c);
    text::lemma_bytes_lt_irreflexive(x);
    if text::bytes_lt(x, y) && text::bytes_lt(y, x) {
        text::lemma_bytes_lt_transitive(x, y, x);
    }
    text::lemma_bytes_lt_total(x, y);
    text::lemma_bytes_lt_total(y, z);
    if !text::bytes_lt(y, x) && !text::bytes_lt(z, y) && text::bytes_lt(z, x) {
        if text::bytes_lt(x, y) {
            text::lemma_bytes_lt_transitive(z, x, y);
        }
    }
}

/// The order of two things that can be ordered is turned around when they are.
pub proof fn lemma_rank_flips(a: Option<Val>, b: Option<Val>)
    requires
        orderable(a, b),
    ensures
        value::val_rank(b, a) == value::val_rank(a, b).flipped(),
{
    if a matches Some(Val::Str(x)) && b matches Some(Val::Str(y)) {
        lemma_text_order(a->0->Str_0, b->0->Str_0, b->0->Str_0);
    }
}

/// What is not after a second thing, which is not after a third, is not after the third.
pub proof fn lemma_rank_transitive(a: Option<Val>, b: Option<Val>, c: Option<Val>)
    requires
        orderable(a, b),
        orderable(b, c),
        orderable(a, c),
        value::val_rank(a, b) != Rank::Greater,
        value::val_rank(b, c) != Rank::Greater,
    ensures
        value::val_rank(a, c) != Rank::Greater,
{
    if kind(a) == 2 && kind(b) == 2 && kind(c) == 2 {
        lemma_text_order(a->0->Str_0, b->0->Str_0, c->0->Str_0);
        lemma_text_order(a->0->Str_0, c->0->Str_0, c->0->Str_0);
        lemma_text_order(a->0->Str_0, b->0->Str_0, b->0->Str_0);
        lemma_text_order(b->0->Str_0, c->0->Str_0, c->0->Str_0);
    }
}

/// A field that is absent comes after every one that is not.
pub proof fn lemma_nulls_last(a: Option<Val>, b: Option<Val>)
    requires
        !value::absent(a),
        value::absent(b),
    ensures
        value::val_rank(a, b) == Rank::Less,
        value::val_rank(b, a) == Rank::Greater,
{
}

/// Whether every term of an ORDER BY can order two rows.
pub open spec fn rows_orderable(a: RowView, b: RowView, order_by: Seq<OrderByClause>) -> bool {
    forall|i: int|
        0 <= i < order_by.len() ==> orderable(
            filter::field_of(a.values, (#[trigger] order_by[i]).field@),
            filter::field_of(b.values, order_by[i].field@),
        )
}

proof fn lemma_rest_orderable(a: RowView, b: RowView, order_by: Seq<OrderByClause>)
    requires
        order_by.len() > 0,
        rows_orderable(a, b, order_by),
    ensures
        orderable(
            filter::field_of(a.values, order_by[0].field@),
            filter::field_of(b.values, order_by[0].field@),
        ),
        rows_orderable(a, b, order_by.drop_first()),
{
    assert forall|i: int| 0 <= i < order_by.drop_first().len() implies orderable(
        filter::field_of(a.values, (#[trigger] order_by.drop_first()[i]).field@),
        filter::field_of(b.values, order_by.drop_first()[i].field@),
    ) by {
        assert(order_by.drop_first()[i] == order_by[i + 1]);
    }
}

proof fn lemma_row_rank_flips(a: RowView, b: RowView, order_by: Seq<OrderByClause>)
    requires
        rows_orderable(a, b, order_by),
    ensures
        rows::order_rank(b.values, a.values, order_by) == rows::order_rank(a.values, b.values, order_by).flipped(),
    decreases order_by.len(),
{
    if order_by.len() > 0 {
        let c = order_by[0];
        lemma_rest_orderable(a, b, order_by);
        lemma_rank_flips(filter::field_of(a.values, c.field@), filter::field_of(b.values, c.field@));
        lemma_row_rank_flips(a, b, order_by.drop_first());
    }
}

proof fn lemma_clause_rank(a: RowView, b: RowView, d: RowView, c: OrderByClause)
    requires
        orderable(filter::field_of(a.values, c.field@), filter::field_of(b.values, c.field@)),
        orderable(filter::field_of(b.values, c.field@), filter::field_of(d.values, c.field@)),
        orderable(filter::field_of(a.values, c.field@), filter::field_of(d.values, c.field@)),
        rows::clause_rank(a.values, b.values, c) != Rank::Greater,
        rows::clause_rank(b.values, d.values, c) != Rank::Greater,
    ensures
        rows::clause_rank(a.values, d.values, c) != Rank::Greater,
        rows::clause_rank(a.values, d.values, c) == Rank::Equal ==> rows::clause_rank(a.values, b.values, c)
            == Rank::Equal && rows::clause_rank(b.values, d.values, c) == Rank::Equal,
{
    let x = filter::field_of(a.values, c.field@);
    let y = filter::field_of(b.values, c.field@);
    let z = filter::field_of(d.values, c.field@);
    lemma_rank_flips(x, y);
    lemma_rank_flips(y, z);
    lemma_rank_flips(x, z);
    match c.direction {
        SortDirection::Asc => {
            lemma_rank_transitive(x, y, z);
            if value::val_rank(x, z) == Rank::Equal {
                lemma_rank_transitive(y, z, x);
                lemma_rank_transitive(z, x, y);
            }
        },
        SortDirection::Desc => {
            lemma_rank_transitive(z, y, x);
            if value::val_rank(x, z) == Rank::Equal {
                lemma_rank_transitive(y, x, z);
                lemma_rank_transitive(x, z, y);
            }
        },
    }
}

proof fn lemma_row_rank_transitive(a: RowView, b: RowView, d: RowView, order_by: Seq<OrderByClause>)
    requires
        rows_orderable(a, b, order_by),
        rows_orderable(b, d, order_by),
        rows_orderable(a, d, order_by),
        rows::order_rank(a.values, b.values, order_by) != Rank::Greater,
        rows::order_rank(b.values, d.values, order_by) != Rank::Greater,
    ensures
        rows::order_rank(a.values, d.values, order_by) != Rank::Greater,
    decreases order_by.len(),
{
    if order_by.len() > 0 {
        lemma_rest_orderable(a, b, order_by);
        lemma_rest_orderable(b, d, order_by);
        lemma_rest_orderable(a, d, order_by);
        lemma_clause_rank(a, b, d, order_by[0]);
        if rows::clause_rank(a.values, d.values, order_by[0]) == Rank::Equal {
            lemma_row_rank_transitive(a, b, d, order_by.drop_first());
        }
    }
}

/// ORDER BY orders rows totally where every term can order every two of them: then a
/// FETCH answers them in order.
pub proof fn lemma_order_by_total(rs: Seq<RowView>, order_by: Seq<OrderByClause>)
    requires
        forall|i: int, j: int|
            0 <= i < rs.len() && 0 <= j < rs.len() ==> rows_orderable(
                #[trigger] rs[i],
                #[trigger] rs[j],
                order_by,
            ),
    ensures
        sort::total_on(rs, rows::row_rank(order_by)),
{
    let rank = rows::row_rank(order_by);
    assert forall|i: int, j: int|
        #![trigger rs[i], rs[j]]
        0 <= i < rs.len() && 0 <= j < rs.len() implies rank(rs[j], rs[i]) == rank(rs[i], rs[j]).flipped() by {
        lemma_row_rank_flips(rs[i], rs[j], order_by);
    }
    assert forall|i: int, j: int, k: int|
        #![trigger rs[i], rs[j], rs[k]]
        0 <= i < rs.len() && 0 <= j < rs.len() && 0 <= k < rs.len() && rank(rs[i], rs[j]) != Rank::Greater && rank(
            rs[j],
            rs[k],
        ) != Rank::Greater implies rank(rs[i], rs[k]) != Rank::Greater by {
        lemma_row_rank_transitive(rs[i], rs[j], rs[k], order_by);
    }
}

/// A FETCH selects an entity exactly where its condition does.
pub proof fn lemma_fetch_selects(es: Seq<Entity>, filter: Option<WhereClause>, fields: FieldList)
    ensures
        forall|i: int|
            0 <= i < es.len() && fetch::passes(#[trigger] es[i], filter) ==> fetch::selected_rows(
                es,
                filter,
                fields,
            ).contains(fetch::row_of(es[i], fields)),
        forall|r: RowView| #[trigger]
            fetch::selected_rows(es, filter, fields).contains(r) ==> exists|i: int|
                0 <= i < es.len() && fetch::passes(#[trigger] es[i], filter) && r == fetch::row_of(es[i], fields),
    decreases es.len(),
{
    if es.len() > 0 {
        let head = es.drop_last();
        lemma_fetch_selects(head, filter, fields);
        let before = fetch::selected_rows(head, filter, fields);
        let after = fetch::selected_rows(es, filter, fields);
        assert forall|i: int| 0 <= i < es.len() && fetch::passes(#[trigger] es[i], filter) implies after.contains(
            fetch::row_of(es[i], fields),
        ) by {
            if i < head.len() {
                assert(head[i] == es[i]);
                let r = fetch::row_of(es[i], fields);
                assert(before.contains(r));
                let a = choose|a: int| 0 <= a < before.len() && before[a] == r;
                assert(after[a] == r);
            } else {
                assert(after[before.len() as int] == fetch::row_of(es[i], fields));
            }
        }
        assert forall|r: RowView| #[trigger] after.contains(r) implies exists|i: int|
            0 <= i < es.len() && fetch::passes(#[trigger] es[i], filter) && r == fetch::row_of(es[i], fields) by {
            let a = choose|a: int| 0 <= a < after.len() && after[a] == r;
            if a < before.len() {
                assert(before[a] == r);
                assert(before.contains(r));
                let i = choose|i: int|
                    0 <= i < head.len() && fetch::passes(#[trigger] head[i], filter) && r == fetch::row_of(
                        head[i],
                        fields,
                    );
                assert(es[i] == head[i]);
            } else {
                assert(es[es.len() - 1] == es.last());
            }
        }
    }
}

/// Whether a hit is one of the candidates that may be answered.
pub open spec fn is_answerable(h: HitView, cs: Seq<Candidate>, allowed: Option<Seq<Seq<char>>>) -> bool {
    exists|j: int| 0 <= j < cs.len() && search::answerable(#[trigger] cs[j], allowed) && h == cs[j].hit@
}

/// A SEARCH never answers an entity whose vector is stale, or one that its pre-filter
/// leaves out, and never more than it asks for.
pub proof fn lemma_search_sound(cs: Seq<Candidate>, allowed: Option<Seq<Seq<char>>>, k: usize)
    ensures
        rows::limited(search::answerable_hits(cs, allowed), Some(k)).len() <= k,
        forall|i: int|
            0 <= i < search::answerable_hits(cs, allowed).len() ==> is_answerable(
                #[trigger] search::answerable_hits(cs, allowed)[i],
                cs,
                allowed,
            ),
    decreases cs.len(),
{
    if cs.len() > 0 {
        let head = cs.drop_last();
        lemma_search_sound(head, allowed, k);
        let before = search::answerable_hits(head, allowed);
        let after = search::answerable_hits(cs, allowed);
        assert forall|i: int| 0 <= i < after.len() implies is_answerable(#[trigger] after[i], cs, allowed) by {
            if i < before.len() {
                assert(after[i] == before[i]);
                assert(is_answerable(before[i], head, allowed));
                let j = choose|j: int|
                    0 <= j < head.len() && search::answerable(#[trigger] head[j], allowed) && before[i]
                        == head[j].hit@;
                assert(cs[j] == head[j]);
            } else {
                assert(cs[cs.len() - 1] == cs.last());
            }
        }
    }
}

/// A SEARCH answers what it may: every candidate that may be answered is among the hits
/// to answer, and is answered where no more of them are there than are asked for.
pub proof fn lemma_search_complete(cs: Seq<Candidate>, allowed: Option<Seq<Seq<char>>>, k: usize, j: int)
    requires
        0 <= j < cs.len(),
        search::answerable(cs[j], allowed),
    ensures
        search::answerable_hits(cs, allowed).contains(cs[j].hit@),
        search::answerable_hits(cs, allowed).len() <= k ==> rows::limited(
            search::answerable_hits(cs, allowed),
            Some(k),
        ).contains(cs[j].hit@),
    decreases cs.len(),
{
    let head = cs.drop_last();
    let before = search::answerable_hits(head, allowed);
    let after = search::answerable_hits(cs, allowed);
    if j < head.len() {
        assert(head[j] == cs[j]);
        lemma_search_complete(head, allowed, k, j);
        let i = choose|i: int| 0 <= i < before.len() && before[i] == cs[j].hit@;
        assert(after[i] == before[i]);
    } else {
        assert(after[before.len() as int] == cs[j].hit@);
    }
    if after.len() <= k {
        assert(rows::limited(after, Some(k)) =~= after);
    }
}

/// What is inserted is read back: a FETCH with a condition that a field equals the value
/// inserted for it selects the entity, and its row holds the value and the id. A float
/// that is not a number equals nothing, and is left out.
pub proof fn lemma_insert_then_fetch(
    p: InsertPlan,
    e: Entity,
    id: Seq<char>,
    hashes: Seq<Option<[u8; 32]>>,
    i: int,
)
    requires
        insert::is_inserted(e, p, id, hashes),
        0 <= i < insert::paired(p.fields@, p.values@),
        p.fields@[i]@ != filter::id_field(),
        forall|j: int|
            i < j < insert::paired(p.fields@, p.values@) ==> (#[trigger] p.fields@[j])@ != p.fields@[i]@,
        is_number_if_float(Some(p.values@[i]@)),
    ensures
        fetch::passes(e, Some(WhereClause::Eq(p.fields@[i], p.values@[i]))),
        fetch::row_of(e, FieldList::All).values.contains_key(p.fields@[i]@),
        fetch::row_of(e, FieldList::All).values[p.fields@[i]@] == p.values@[i]@,
        fetch::row_of(e, FieldList::All).values[filter::id_field()] == Val::Str(id),
{
    let n = insert::paired(p.fields@, p.values@);
    insert::lemma_insert_stores(p.fields@, p.values@, n, i);
    if e.metadata@.contains_key(filter::id_field()) {
        insert::lemma_insert_stores_only(p.fields@, p.values@, n, filter::id_field());
    }
}

/// What is updated is read back: the row of an entity holds the last value assigned to
/// each field, and every other field as it was.
pub proof fn lemma_update_then_fetch(
    id: Seq<char>,
    m: Map<Seq<char>, Val>,
    a: Seq<(String, Literal)>,
    i: int,
    k: Seq<char>,
)
    requires
        0 <= i < a.len(),
        forall|j: int| i < j < a.len() ==> (#[trigger] a[j]).0@ != a[i].0@,
        !update::assigned_names(a).contains(k),
    ensures
        rows::projected(id, update::assigned(m, a), FieldList::All).contains_key(a[i].0@),
        rows::projected(id, update::assigned(m, a), FieldList::All)[a[i].0@] == a[i].1@,
        rows::projected(id, update::assigned(m, a), FieldList::All).contains_key(k) == rows::projected(
            id,
            m,
            FieldList::All,
        ).contains_key(k),
        rows::projected(id, m, FieldList::All).contains_key(k) ==> rows::projected(
            id,
            update::assigned(m, a),
            FieldList::All,
        )[k] == rows::projected(id, m, FieldList::All)[k],
{
    update::lemma_update_assigns(m, a, i);
    update::lemma_update_keeps_others(m, a, k);
}

/// What is deleted is read no more, and nothing else changes: the rows of a FETCH without
/// an entity are those with it, less the row of that entity where it was selected.
pub proof fn lemma_delete_then_fetch(es: Seq<Entity>, i: int, filter: Option<WhereClause>, fields: FieldList)
    requires
        0 <= i < es.len(),
    ensures
        fetch::selected_rows(es, filter, fields) == fetch::selected_rows(es.take(i), filter, fields) + (
        if fetch::passes(es[i], filter) {
            seq![fetch::row_of(es[i], fields)]
        } else {
            Seq::empty()
        }) + fetch::selected_rows(es.skip(i + 1), filter, fields),
        fetch::selected_rows(es.remove(i), filter, fields) == fetch::selected_rows(es.take(i), filter, fields)
            + fetch::selected_rows(es.skip(i + 1), filter, fields),
{
    let a = es.take(i);
    let one = seq![es[i]];
    let b = es.skip(i + 1);
    assert(es =~= (a + one) + b);
    assert(es.remove(i) =~= a + b);
    lemma_selected_concat(a + one, b, filter, fields);
    lemma_selected_concat(a, one, filter, fields);
    lemma_selected_concat(a, b, filter, fields);
    assert(one.drop_last() =~= Seq::empty());
    assert(fetch::selected_rows(one.drop_last(), filter, fields) =~= Seq::<RowView>::empty());
    assert(fetch::selected_rows(one, filter, fields) =~= if fetch::passes(es[i], filter) {
        seq![fetch::row_of(es[i], fields)]
    } else {
        Seq::empty()
    });
}

proof fn lemma_selected_concat(a: Seq<Entity>, b: Seq<Entity>, filter: Option<WhereClause>, fields: FieldList)
    ensures
        fetch::selected_rows(a + b, filter, fields) == fetch::selected_rows(a, filter, fields)
            + fetch::selected_rows(b, filter, fields),
    decreases b.len(),
{
    if b.len() == 0 {
        assert(a + b =~= a);
        assert(fetch::selected_rows(a, filter, fields) + fetch::selected_rows(b, filter, fields)
            =~= fetch::selected_rows(a, filter, fields));
    } else {
        assert((a + b).drop_last() =~= a + b.drop_last());
        lemma_selected_concat(a, b.drop_last(), filter, fields);
        assert(fetch::selected_rows(a + b, filter, fields) =~= fetch::selected_rows(a, filter, fields)
            + fetch::selected_rows(b, filter, fields));
    }
}

} // verus!
