//! What holds of a field index while entities are stored, changed and deleted: it holds
//! the entries of what is stored, and no others.

use vstd::prelude::*;
use vstd::utf8::*;

use crate::field_index;
use crate::filter;
use crate::filter::WhereClause;
use crate::insert;
use crate::key_order;
use crate::types::FieldType;
use crate::update;
use crate::value;
use crate::value::{Literal, Val};

verus! {

/// The values of an entity in the fields of an index, null where one is not stored.
pub open spec fn index_values(names: Seq<Seq<char>>, m: Map<Seq<char>, Val>) -> Seq<Val> {
    Seq::new(names.len(), |i: int| update::value_or_null(m, names[i]))
}

/// The entry of an entity in an index: none unless it stores every field of the index,
/// and each with a value that goes with its type.
pub open spec fn entry(names: Seq<Seq<char>>, ts: Seq<FieldType>, id: Seq<char>, m: Map<Seq<char>, Val>) -> Option<
    Seq<u8>,
> {
    if !insert::all_stored(names, m) {
        None
    } else {
        match field_index::compound(index_values(names, m), ts) {
            Ok(key) => Some(field_index::entry_bytes(key, id)),
            Err(_) => None,
        }
    }
}

/// The entries of all stored entities.
pub open spec fn entries(
    names: Seq<Seq<char>>,
    ts: Seq<FieldType>,
    store: Map<Seq<char>, Map<Seq<char>, Val>>,
) -> Set<Seq<u8>> {
    Set::new(|e: Seq<u8>| exists|id: Seq<char>| #[trigger] holds_entry(names, ts, store, id, e))
}

/// Whether a stored entity has an entry.
pub open spec fn holds_entry(
    names: Seq<Seq<char>>,
    ts: Seq<FieldType>,
    store: Map<Seq<char>, Map<Seq<char>, Val>>,
    id: Seq<char>,
    e: Seq<u8>,
) -> bool {
    store.contains_key(id) && entry(names, ts, id, store[id]) == Some(e)
}

/// Whether the values of an entity, where it stores every field of an index, have keys
/// that tell them apart from all others.
pub open spec fn fits(names: Seq<Seq<char>>, ts: Seq<FieldType>, m: Map<Seq<char>, Val>) -> bool {
    insert::all_stored(names, m) ==> key_order::indexable(index_values(names, m), ts)
}

/// Whether that holds of every stored entity.
pub open spec fn all_fit(
    names: Seq<Seq<char>>,
    ts: Seq<FieldType>,
    store: Map<Seq<char>, Map<Seq<char>, Val>>,
) -> bool {
    forall|id: Seq<char>| #[trigger] store.contains_key(id) ==> fits(names, ts, store[id])
}

/// An index without an entry, if there is one to take out.
pub open spec fn without(s: Set<Seq<u8>>, e: Option<Seq<u8>>) -> Set<Seq<u8>> {
    match e {
        Some(b) => s.remove(b),
        None => s,
    }
}

/// An index with an entry, if there is one to put in.
pub open spec fn with(s: Set<Seq<u8>>, e: Option<Seq<u8>>) -> Set<Seq<u8>> {
    match e {
        Some(b) => s.insert(b),
        None => s,
    }
}

/// The entry that an index holds of an entity, if the entity is stored.
pub open spec fn held(
    names: Seq<Seq<char>>,
    ts: Seq<FieldType>,
    store: Map<Seq<char>, Map<Seq<char>, Val>>,
    id: Seq<char>,
) -> Option<Seq<u8>> {
    if store.contains_key(id) {
        entry(names, ts, id, store[id])
    } else {
        None
    }
}

/// Entries tell entities apart: two that are equal are of one entity with equal values.
pub proof fn lemma_entries_apart(
    vs: Seq<Val>,
    ws: Seq<Val>,
    ts: Seq<FieldType>,
    id: Seq<char>,
    other: Seq<char>,
)
    requires
        key_order::indexable(vs, ts),
        key_order::indexable(ws, ts),
        field_index::compound(vs, ts) matches Ok(a) && field_index::compound(ws, ts) matches Ok(b)
            && field_index::entry_bytes(a, id) == field_index::entry_bytes(b, other),
    ensures
        key_order::alike(vs, ws),
        id == other,
{
    let a = field_index::compound(vs, ts)->Ok_0;
    let b = field_index::compound(ws, ts)->Ok_0;
    let x = field_index::entry_bytes(a, id);
    let y = field_index::entry_bytes(b, other);
    assert(y.subrange(0, b.len() as int) =~= b);
    assert(key_order::begins(x, b));
    key_order::lemma_lookup_eq_exact(vs, ws, ts, id);
    key_order::lemma_alike_same_key(vs, ws, ts);
    let n = a.len() as int + 1;
    assert(x.subrange(n, x.len() as int) =~= encode_utf8(id));
    assert(y.subrange(n, y.len() as int) =~= encode_utf8(other));
    encode_utf8_decode_utf8(id);
    encode_utf8_decode_utf8(other);
}

proof fn lemma_one_holder(
    names: Seq<Seq<char>>,
    ts: Seq<FieldType>,
    store: Map<Seq<char>, Map<Seq<char>, Val>>,
    id: Seq<char>,
    other: Seq<char>,
    e: Seq<u8>,
)
    requires
        all_fit(names, ts, store),
        holds_entry(names, ts, store, id, e),
        holds_entry(names, ts, store, other, e),
    ensures
        id == other,
{
    lemma_entries_apart(index_values(names, store[id]), index_values(names, store[other]), ts, id, other);
}

/// DELETE takes out of an index the entry of the entity, and no other.
pub proof fn lemma_delete_keeps_index(
    names: Seq<Seq<char>>,
    ts: Seq<FieldType>,
    store: Map<Seq<char>, Map<Seq<char>, Val>>,
    id: Seq<char>,
)
    requires
        all_fit(names, ts, store),
    ensures
        entries(names, ts, store.remove(id)) == without(entries(names, ts, store), held(names, ts, store, id)),
{
    let after = store.remove(id);
    let want = without(entries(names, ts, store), held(names, ts, store, id));
    assert forall|e: Seq<u8>| entries(names, ts, after).contains(e) <==> want.contains(e) by {
        if entries(names, ts, after).contains(e) {
            let x = choose|x: Seq<char>| #[trigger] holds_entry(names, ts, after, x, e);
            assert(holds_entry(names, ts, store, x, e));
            if held(names, ts, store, id) == Some(e) {
                assert(holds_entry(names, ts, store, id, e));
                lemma_one_holder(names, ts, store, id, x, e);
            }
        }
        if want.contains(e) {
            let x = choose|x: Seq<char>| #[trigger] holds_entry(names, ts, store, x, e);
            assert(holds_entry(names, ts, after, x, e));
        }
    }
    assert(entries(names, ts, after) =~= want);
}

/// INSERT, of a new entity or over an old one, takes the old entry of the entity out of
/// an index and puts its new one in: the index is that of what is stored now.
pub proof fn lemma_insert_keeps_index(
    names: Seq<Seq<char>>,
    ts: Seq<FieldType>,
    store: Map<Seq<char>, Map<Seq<char>, Val>>,
    id: Seq<char>,
    m: Map<Seq<char>, Val>,
)
    requires
        all_fit(names, ts, store),
    ensures
        entries(names, ts, store.insert(id, m)) == with(
            without(entries(names, ts, store), held(names, ts, store, id)),
            entry(names, ts, id, m),
        ),
{
    lemma_delete_keeps_index(names, ts, store, id);
    let bare = store.remove(id);
    let after = store.insert(id, m);
    let want = with(entries(names, ts, bare), entry(names, ts, id, m));
    assert forall|e: Seq<u8>| entries(names, ts, after).contains(e) <==> want.contains(e) by {
        if entries(names, ts, after).contains(e) {
            let x = choose|x: Seq<char>| #[trigger] holds_entry(names, ts, after, x, e);
            if x != id {
                assert(holds_entry(names, ts, bare, x, e));
            }
        }
        if want.contains(e) {
            if entry(names, ts, id, m) == Some(e) {
                assert(holds_entry(names, ts, after, id, e));
            } else {
                let x = choose|x: Seq<char>| #[trigger] holds_entry(names, ts, bare, x, e);
                assert(holds_entry(names, ts, after, x, e));
            }
        }
    }
    assert(entries(names, ts, after) =~= want);
}

proof fn lemma_null_has_no_key(vs: Seq<Val>, ts: Seq<FieldType>, i: int)
    requires
        vs.len() == ts.len(),
        0 <= i < vs.len(),
        vs[i] is Null,
    ensures
        field_index::compound(vs, ts) is Err,
    decreases vs.len(),
{
    if i > 0 {
        assert(vs.drop_first()[i - 1] == vs[i]);
        lemma_null_has_no_key(vs.drop_first(), ts.drop_first(), i - 1);
    }
}

/// UPDATE writes null for a field that is not stored, and null has no key: what it takes
/// out of an index and puts in are the entries of the entity before and after.
pub proof fn lemma_update_entry(names: Seq<Seq<char>>, ts: Seq<FieldType>, id: Seq<char>, m: Map<Seq<char>, Val>)
    requires
        names.len() == ts.len(),
    ensures
        entry(names, ts, id, m) == (match field_index::compound(index_values(names, m), ts) {
            Ok(key) => Some(field_index::entry_bytes(key, id)),
            Err(_) => None,
        }),
{
    if !insert::all_stored(names, m) {
        let i = choose|i: int| 0 <= i < names.len() && !m.contains_key(#[trigger] names[i]);
        assert(index_values(names, m)[i] is Null);
        lemma_null_has_no_key(index_values(names, m), ts, i);
    }
}

/// An equality lookup in an index finds exactly the stored entities that hold values equal
/// to those looked up.
pub proof fn lemma_index_finds(
    names: Seq<Seq<char>>,
    ts: Seq<FieldType>,
    store: Map<Seq<char>, Map<Seq<char>, Val>>,
    ws: Seq<Val>,
    id: Seq<char>,
)
    requires
        names.len() == ts.len(),
        all_fit(names, ts, store),
        key_order::indexable(ws, ts),
    ensures
        field_index::compound(ws, ts) matches Ok(key) && ((exists|e: Seq<u8>|
            #[trigger] holds_entry(names, ts, store, id, e) && key_order::begins(e, key)) <==> store.contains_key(id)
            && insert::all_stored(names, store[id]) && key_order::alike(index_values(names, store[id]), ws)),
{
    key_order::lemma_lookup_eq_exact(ws, ws, ts, id);
    let key = field_index::compound(ws, ts)->Ok_0;
    if store.contains_key(id) && insert::all_stored(names, store[id]) {
        let vs = index_values(names, store[id]);
        key_order::lemma_lookup_eq_exact(vs, ws, ts, id);
        let e = field_index::entry_bytes(field_index::compound(vs, ts)->Ok_0, id);
        assert(holds_entry(names, ts, store, id, e));
    }
}

/// A lookup answers what a scan does: in an index over one field, the stored entities
/// that are found under a value are those that satisfy the condition that the field
/// equals the value. The id is no stored field, and is left out.
pub proof fn lemma_lookup_is_scan(
    field: String,
    lit: Literal,
    t: FieldType,
    store: Map<Seq<char>, Map<Seq<char>, Val>>,
    id: Seq<char>,
)
    requires
        field@ != filter::id_field(),
        all_fit(seq![field@], seq![t], store),
        key_order::indexable(seq![lit@], seq![t]),
        store.contains_key(id),
    ensures
        field_index::compound(seq![lit@], seq![t]) matches Ok(key) && ((exists|e: Seq<u8>|
            #[trigger] holds_entry(seq![field@], seq![t], store, id, e) && key_order::begins(e, key))
            <==> filter::entity_sat(id, store[id], WhereClause::Eq(field, lit))),
{
    let names = seq![field@];
    let ts = seq![t];
    let ws = seq![lit@];
    let m = store[id];
    lemma_index_finds(names, ts, store, ws, id);
    assert(names[0] == field@);
    assert(ws[0] == lit@);
    if m.contains_key(field@) {
        assert(insert::all_stored(names, m));
        let vs = index_values(names, m);
        assert(vs[0] == m[field@]);
        assert(field_index::sortable(vs[0], ts[0]) is Some && key_order::plain(vs[0]));
        assert(field_index::sortable(ws[0], ts[0]) is Some && key_order::plain(ws[0]));
        key_order::lemma_plain_values_total(vs[0], ws[0], t);
        assert(key_order::alike(vs, ws) == value::val_eq(vs[0], ws[0]));
    } else {
        assert(!insert::all_stored(names, m)) by {
            assert(!m.contains_key(names[0]));
        }
    }
}

} // verus!
