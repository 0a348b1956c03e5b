//! A FETCH answers the same rows whichever way its entities are found.

use vstd::prelude::*;
use vstd::set_lib::*;

use crate::error::ErrorView;
use crate::fetch;
use crate::field_index;
use crate::filter;
use crate::filter::WhereClause;
use crate::index_laws;
use crate::insert;
use crate::key_order;
use crate::rows::{FieldList, RowView};
use crate::text;
use crate::types::{Entity, FieldType};
use crate::value::{Literal, Val};

verus! {

/// Whether two entities have the same id and the same fields.
pub open spec fn same_entity(a: Entity, b: Entity) -> bool {
    a.id@ == b.id@ && a.metadata@ == b.metadata@
}

/// Whether what was found is what the collection holds at some places, each once.
pub open spec fn read_at(found: Seq<Option<Entity>>, es: Seq<Entity>, at: Seq<int>) -> bool {
    &&& at.len() == found.len()
    &&& at.no_duplicates()
    &&& forall|i: int|
        0 <= i < at.len() ==> 0 <= #[trigger] at[i] < es.len() && found[i] is Some && same_entity(
            found[i]->0,
            es[at[i]],
        )
}

/// The entry of an entity in an index on one field.
pub open spec fn entry_of(field: Seq<char>, t: FieldType, e: Entity) -> Option<Seq<u8>> {
    index_laws::entry(seq![field], seq![t], e.id@, e.metadata@)
}

/// Whether an entity has an entry in an index on one field that begins with a prefix.
pub open spec fn under(field: Seq<char>, t: FieldType, e: Entity, prefix: Seq<u8>) -> bool {
    entry_of(field, t, e) matches Some(k) && key_order::begins(k, prefix)
}

/// Whether an entity has an entry in an index on one field from a key to another, both
/// inclusive.
pub open spec fn between(field: Seq<char>, t: FieldType, e: Entity, first: Seq<u8>, last: Seq<u8>) -> bool {
    entry_of(field, t, e) matches Some(k) && !text::bytes_lt(k, first) && !text::bytes_lt(last, k)
}

/// Whether a clause is a comparison of the field `f` with an integer, or joins such a
/// comparison by AND with others that set no other bounds.
pub open spec fn ranged(c: WhereClause, f: Seq<char>) -> bool
    decreases c,
{
    match c {
        WhereClause::Gt(_, _) | WhereClause::Gte(_, _) | WhereClause::Lt(_, _) | WhereClause::Lte(_, _) =>
            fetch::bounds_field(c, f),
        WhereClause::And(a, b) => fetch::bounds_field(c, f) && (ranged(*a, f) || ranged(*b, f)),
        _ => false,
    }
}

/// The places at which entities pass a clause and have a row.
spec fn picked(es: Seq<Entity>, filter: Option<WhereClause>, fields: FieldList, row: RowView) -> Set<int> {
    Set::new(|i: int| 0 <= i < es.len() && fetch::passes(es[i], filter) && fetch::row_of(es[i], fields) == row)
}

proof fn lemma_picked_count(es: Seq<Entity>, filter: Option<WhereClause>, fields: FieldList, row: RowView)
    ensures
        picked(es, filter, fields, row).finite(),
        fetch::selected_rows(es, filter, fields).to_multiset().count(row) == picked(es, filter, fields, row).len(),
    decreases es.len(),
{
    broadcast use vstd::seq_lib::group_to_multiset_ensures;

    let all = picked(es, filter, fields, row);
    if es.len() == 0 {
        assert(all =~= Set::empty());
        assert(!fetch::selected_rows(es, filter, fields).contains(row));
    } else {
        let head = es.drop_last();
        let n = head.len() as int;
        lemma_picked_count(head, filter, fields, row);
        let before = picked(head, filter, fields, row);
        if fetch::passes(es.last(), filter) && fetch::row_of(es.last(), fields) == row {
            assert(all =~= before.insert(n));
        } else {
            assert(all =~= before);
        }
    }
}

proof fn lemma_present_all(found: Seq<Option<Entity>>)
    requires
        forall|i: int| 0 <= i < found.len() ==> #[trigger] found[i] is Some,
    ensures
        fetch::present(found) == Seq::new(found.len(), |i: int| found[i]->0),
    decreases found.len(),
{
    if found.len() > 0 {
        let head = found.drop_last();
        assert forall|i: int| 0 <= i < head.len() implies #[trigger] head[i] is Some by {
            assert(found[i] is Some);
        }
        lemma_present_all(head);
        assert(found[found.len() - 1] is Some);
    }
    assert(fetch::present(found) =~= Seq::new(found.len(), |i: int| found[i]->0));
}

/// What is found holds the rows that a scan does, where the places at which it was read
/// are those that a scan selects.
proof fn lemma_same_rows(
    es: Seq<Entity>,
    found: Seq<Option<Entity>>,
    at: Seq<int>,
    again: Option<WhereClause>,
    filter: Option<WhereClause>,
    fields: FieldList,
)
    requires
        read_at(found, es, at),
        forall|j: int|
            0 <= j < es.len() ==> (fetch::passes(#[trigger] es[j], filter) <==> at.contains(j) && fetch::passes(
                es[j],
                again,
            )),
    ensures
        fetch::selected_rows(fetch::present(found), again, fields).to_multiset() == fetch::selected_rows(
            es,
            filter,
            fields,
        ).to_multiset(),
{
    let got = fetch::present(found);
    assert forall|i: int| 0 <= i < found.len() implies #[trigger] found[i] is Some by {
        assert(0 <= at[i] < es.len());
    }
    lemma_present_all(found);
    let x = fetch::selected_rows(got, again, fields).to_multiset();
    let y = fetch::selected_rows(es, filter, fields).to_multiset();
    assert forall|row: RowView| x.count(row) == y.count(row) by {
        lemma_picked_count(got, again, fields, row);
        lemma_picked_count(es, filter, fields, row);
        let a = picked(got, again, fields, row);
        let b = picked(es, filter, fields, row);
        let f = |i: int| at[i];
        assert(a.map(f) =~= b) by {
            assert forall|j: int| b.contains(j) implies a.map(f).contains(j) by {
                assert(fetch::passes(es[j], filter));
                let i = choose|i: int| 0 <= i < at.len() && at[i] == j;
                assert(same_entity(found[i]->0, es[at[i]]));
                assert(got[i] == found[i]->0);
                assert(a.contains(i));
                assert(f(i) == j);
            }
            assert forall|j: int| a.map(f).contains(j) implies b.contains(j) by {
                let i = choose|i: int| a.contains(i) && f(i) == j;
                assert(same_entity(found[i]->0, es[at[i]]));
                assert(got[i] == found[i]->0);
                assert(at.contains(at[i]));
            }
        }
        assert(vstd::relations::injective_on(f, a)) by {
            assert forall|i: int, j: int| a.contains(i) && a.contains(j) && #[trigger] f(i) == #[trigger] f(j)
                implies i == j by {}
        }
        lemma_map_size(a, b, f);
    }
    assert(x =~= y);
}

proof fn lemma_int_bounds(c: WhereClause, f: Seq<char>)
    requires
        fetch::bounds_field(c, f),
    ensures
        fetch::bounds(c).0.len() == 1,
        fetch::bounds(c).1.len() == 1,
        fetch::bounds(c).0[0] is Int,
        fetch::bounds(c).1[0] is Int,
    decreases c,
{
    match c {
        WhereClause::And(a, b) => {
            lemma_int_bounds(*a, f);
            lemma_int_bounds(*b, f);
        },
        _ => {},
    }
}

proof fn lemma_ranged_stores(c: WhereClause, f: Seq<char>, id: Seq<char>, m: Map<Seq<char>, Val>)
    requires
        ranged(c, f),
        filter::entity_sat(id, m, c),
    ensures
        fetch::bounds_field(c, f),
        m.contains_key(f),
    decreases c,
{
    match c {
        WhereClause::And(a, b) => {
            if ranged(*a, f) {
                lemma_ranged_stores(*a, f, id, m);
            } else {
                lemma_ranged_stores(*b, f, id, m);
            }
        },
        _ => {},
    }
}

proof fn lemma_one_key(v: Val, t: FieldType)
    ensures
        field_index::sortable(v, t) matches Some(k) ==> field_index::compound(seq![v], seq![t]) == Ok::<
            Seq<u8>,
            ErrorView,
        >(k),
{
    let vs = seq![v];
    let ts = seq![t];
    assert(vs.drop_first().len() == 0);
    assert(field_index::compound(vs.drop_first(), ts.drop_first()) == Ok::<Seq<u8>, ErrorView>(
        Seq::empty(),
    ));
    if field_index::sortable(v, t) is Some {
        let k = field_index::sortable(v, t)->0;
        assert(k + Seq::<u8>::empty() =~= k);
    }
}

/// A range lookup answers the rows of a scan. In an index on an integer field, where
/// every stored entity that has the field holds an integer in it, the entities whose
/// entries lie between the keys of the bounds that the clause sets give, with the clause
/// applied again, the rows that a scan of the collection gives, each as often.
pub proof fn lemma_range_is_scan(
    field: Seq<char>,
    c: WhereClause,
    es: Seq<Entity>,
    found: Seq<Option<Entity>>,
    at: Seq<int>,
    fields: FieldList,
)
    requires
        ranged(c, field),
        forall|j: int|
            0 <= j < es.len() && (#[trigger] es[j]).metadata@.contains_key(field) ==> es[j].metadata@[field] is Int,
        read_at(found, es, at),
        field_index::compound(fetch::bounds(c).0, seq![FieldType::Int]) matches Ok(first)
            && field_index::compound(fetch::bounds(c).1, seq![FieldType::Int]) matches Ok(end) && forall|j: int|
            0 <= j < es.len() ==> (at.contains(j) <==> between(
                field,
                FieldType::Int,
                #[trigger] es[j],
                first,
                field_index::range_end(end),
            )),
    ensures
        fetch::selected_rows(fetch::present(found), Some(c), fields).to_multiset() == fetch::selected_rows(
            es,
            Some(c),
            fields,
        ).to_multiset(),
{
    let t = FieldType::Int;
    let names = seq![field];
    let ts = seq![t];
    assert forall|j: int| 0 <= j < es.len() && fetch::passes(#[trigger] es[j], Some(c)) implies at.contains(j) by {
        let m = es[j].metadata@;
        let id = es[j].id@;
        lemma_ranged_stores(c, field, id, m);
        lemma_int_bounds(c, field);
        let v = m[field];
        let n = v->Int_0;
        fetch::lemma_bounds_complete(c, field, id, m, n);
        let lo = fetch::bounds(c).0[0];
        let hi = fetch::bounds(c).1[0];
        assert(fetch::bounds(c).0 =~= seq![lo]);
        assert(fetch::bounds(c).1 =~= seq![hi]);
        lemma_one_key(v, t);
        lemma_one_key(lo, t);
        lemma_one_key(hi, t);
        assert(index_laws::index_values(names, m) =~= seq![v]) by {
            assert(names[0] == field);
        }
        assert(insert::all_stored(names, m));
        key_order::lemma_lookup_range_exact(v, lo, hi, t, id);
        assert(between(
            field,
            t,
            es[j],
            field_index::sortable(lo, t)->0,
            field_index::range_end(field_index::sortable(hi, t)->0),
        ));
    }
    lemma_same_rows(es, found, at, Some(c), Some(c), fields);
}

/// An equality lookup answers the rows of a scan. In an index on one field, where every
/// stored entity that has the field holds a value of its type with a key of its own, the
/// entities whose entries begin with the key of a value give the rows that a scan of the
/// collection for that value gives, each as often. The id is no stored field, and is left
/// out.
pub proof fn lemma_lookup_rows_are_scan(
    field: String,
    lit: Literal,
    t: FieldType,
    es: Seq<Entity>,
    found: Seq<Option<Entity>>,
    at: Seq<int>,
    fields: FieldList,
)
    requires
        field@ != filter::id_field(),
        forall|j: int| 0 <= j < es.len() ==> index_laws::fits(seq![field@], seq![t], (#[trigger] es[j]).metadata@),
        key_order::indexable(seq![lit@], seq![t]),
        read_at(found, es, at),
        field_index::compound(seq![lit@], seq![t]) matches Ok(key) && forall|j: int|
            0 <= j < es.len() ==> (at.contains(j) <==> under(field@, t, #[trigger] es[j], key)),
    ensures
        fetch::selected_rows(fetch::present(found), None, fields).to_multiset() == fetch::selected_rows(
            es,
            Some(WhereClause::Eq(field, lit)),
            fields,
        ).to_multiset(),
{
    let c = WhereClause::Eq(field, lit);
    let names = seq![field@];
    let ts = seq![t];
    assert forall|j: int| 0 <= j < es.len() implies (fetch::passes(#[trigger] es[j], Some(c)) <==> at.contains(j)
        && fetch::passes(es[j], None)) by {
        let id = es[j].id@;
        let store = Map::<Seq<char>, Map<Seq<char>, Val>>::empty().insert(id, es[j].metadata@);
        assert(index_laws::fits(names, ts, es[j].metadata@));
        index_laws::lemma_lookup_is_scan(field, lit, t, store, id);
        let key = field_index::compound(seq![lit@], ts)->Ok_0;
        if under(field@, t, es[j], key) {
            assert(index_laws::holds_entry(names, ts, store, id, entry_of(field@, t, es[j])->0));
        }
    }
    lemma_same_rows(es, found, at, None, Some(c), fields);
}

} // verus!
