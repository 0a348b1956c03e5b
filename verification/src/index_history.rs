//! What a lookup in a field index finds after entries were put in and taken out.

use vstd::prelude::*;
use vstd::utf8::*;

use crate::field_index;
use crate::index_laws;
use crate::insert;
use crate::key_order;
use crate::text;
use crate::types::FieldType;
use crate::value;
use crate::value::Val;

verus! {

/// An entry that is put into an index or taken out of it: of an entity, with values.
pub enum IndexOp {
    Insert(Seq<char>, Seq<Val>),
    Remove(Seq<char>, Seq<Val>),
}

impl IndexOp {
    /// The entity of the entry.
    pub open spec fn id(self) -> Seq<char> {
        match self {
            IndexOp::Insert(id, _) => id,
            IndexOp::Remove(id, _) => id,
        }
    }

    /// The values of the entry.
    pub open spec fn values(self) -> Seq<Val> {
        match self {
            IndexOp::Insert(_, vs) => vs,
            IndexOp::Remove(_, vs) => vs,
        }
    }
}

/// The keys that an index holds, each with what is stored under it, after entries were
/// put in and taken out. Values that do not go with their types are refused, and change
/// nothing.
pub open spec fn contents(ops: Seq<IndexOp>, ts: Seq<FieldType>) -> Map<Seq<u8>, Seq<u8>>
    decreases ops.len(),
{
    if ops.len() == 0 {
        Map::empty()
    } else {
        let before = contents(ops.drop_last(), ts);
        match field_index::compound(ops.last().values(), ts) {
            Ok(key) => match ops.last() {
                IndexOp::Insert(id, _) => before.insert(field_index::entry_bytes(key, id), encode_utf8(id)),
                IndexOp::Remove(id, _) => before.remove(field_index::entry_bytes(key, id)),
            },
            Err(_) => before,
        }
    }
}

/// Whether an entity is in an index with values equal to these: the last entry of it
/// with such values was put in.
pub open spec fn live(ops: Seq<IndexOp>, id: Seq<char>, ws: Seq<Val>) -> bool
    decreases ops.len(),
{
    if ops.len() == 0 {
        false
    } else if ops.last().id() == id && key_order::alike(ops.last().values(), ws) {
        ops.last() is Insert
    } else {
        live(ops.drop_last(), id, ws)
    }
}

/// Whether every entry has values with keys of their own.
pub open spec fn all_indexable(ops: Seq<IndexOp>, ts: Seq<FieldType>) -> bool {
    forall|i: int| 0 <= i < ops.len() ==> key_order::indexable((#[trigger] ops[i]).values(), ts)
}

/// Whether these are the keys of a map that begin with a prefix, in the order of bytes.
pub open spec fn prefix_scan(m: Map<Seq<u8>, Seq<u8>>, prefix: Seq<u8>, keys: Seq<Seq<u8>>) -> bool {
    &&& forall|k: Seq<u8>| #[trigger] keys.contains(k) <==> m.contains_key(k) && key_order::begins(k, prefix)
    &&& forall|i: int, j: int| 0 <= i < j < keys.len() ==> text::bytes_lt(#[trigger] keys[i], #[trigger] keys[j])
}

/// The ids that are stored under keys.
pub open spec fn ids_at(m: Map<Seq<u8>, Seq<u8>>, keys: Seq<Seq<u8>>) -> Seq<Seq<char>> {
    field_index::utf8_texts(keys.map_values(|k: Seq<u8>| m[k]))
}

/// Whether a key is that of an entity with such values.
spec fn keeps(k: Seq<u8>, v: Seq<u8>, id: Seq<char>, vs: Seq<Val>, ts: Seq<FieldType>) -> bool {
    &&& key_order::indexable(vs, ts)
    &&& field_index::compound(vs, ts) matches Ok(key) && k == field_index::entry_bytes(key, id)
    &&& v == encode_utf8(id)
}

proof fn lemma_contents(ops: Seq<IndexOp>, ts: Seq<FieldType>, k: Seq<u8>)
    requires
        all_indexable(ops, ts),
        contents(ops, ts).contains_key(k),
    ensures
        exists|id: Seq<char>, vs: Seq<Val>| #[trigger] keeps(k, contents(ops, ts)[k], id, vs, ts),
    decreases ops.len(),
{
    let head = ops.drop_last();
    let op = ops.last();
    assert(op == ops[ops.len() - 1]);
    key_order::lemma_lookup_eq_exact(op.values(), op.values(), ts, op.id());
    let e = field_index::entry_bytes(field_index::compound(op.values(), ts)->Ok_0, op.id());
    if op is Insert && k == e {
        assert(keeps(k, contents(ops, ts)[k], op.id(), op.values(), ts));
    } else {
        assert(all_indexable(head, ts)) by {
            assert forall|i: int| 0 <= i < head.len() implies key_order::indexable(
                (#[trigger] head[i]).values(),
                ts,
            ) by {
                assert(head[i] == ops[i]);
            }
        }
        lemma_contents(head, ts, k);
        assert(contents(head, ts)[k] == contents(ops, ts)[k]);
    }
}

proof fn lemma_live(ops: Seq<IndexOp>, ts: Seq<FieldType>, id: Seq<char>, ws: Seq<Val>)
    requires
        all_indexable(ops, ts),
        key_order::indexable(ws, ts),
    ensures
        field_index::compound(ws, ts) matches Ok(key) && (contents(ops, ts).contains_key(
            field_index::entry_bytes(key, id),
        ) <==> live(ops, id, ws)),
    decreases ops.len(),
{
    key_order::lemma_lookup_eq_exact(ws, ws, ts, id);
    if ops.len() > 0 {
        let head = ops.drop_last();
        let op = ops.last();
        assert(op == ops[ops.len() - 1]);
        assert forall|i: int| 0 <= i < head.len() implies key_order::indexable((#[trigger] head[i]).values(), ts) by {
            assert(head[i] == ops[i]);
        }
        lemma_live(head, ts, id, ws);
        key_order::lemma_lookup_eq_exact(op.values(), ws, ts, op.id());
        let a = field_index::compound(op.values(), ts)->Ok_0;
        let b = field_index::compound(ws, ts)->Ok_0;
        if field_index::entry_bytes(a, op.id()) == field_index::entry_bytes(b, id) {
            index_laws::lemma_entries_apart(op.values(), ws, ts, op.id(), id);
        } else if op.id() == id && key_order::alike(op.values(), ws) {
            key_order::lemma_alike_same_key(op.values(), ws, ts);
        }
    }
}

proof fn lemma_ids_at(m: Map<Seq<u8>, Seq<u8>>, keys: Seq<Seq<u8>>, ids: Seq<Seq<char>>)
    requires
        ids.len() == keys.len(),
        forall|i: int| 0 <= i < keys.len() ==> m[#[trigger] keys[i]] == encode_utf8(ids[i]),
    ensures
        ids_at(m, keys) == ids,
    decreases keys.len(),
{
    let stored = keys.map_values(|k: Seq<u8>| m[k]);
    if keys.len() == 0 {
        assert(ids_at(m, keys) =~= ids);
    } else {
        let head = keys.drop_last();
        assert forall|i: int| 0 <= i < head.len() implies m[#[trigger] head[i]] == encode_utf8(
            ids.drop_last()[i],
        ) by {
            assert(head[i] == keys[i]);
        }
        lemma_ids_at(m, head, ids.drop_last());
        assert(stored.drop_last() =~= head.map_values(|k: Seq<u8>| m[k]));
        assert(m[keys[keys.len() - 1]] == encode_utf8(ids.last()));
        encode_utf8_valid_utf8(ids.last());
        encode_utf8_decode_utf8(ids.last());
        assert(ids.drop_last().push(ids.last()) =~= ids);
    }
}

/// A lookup finds what is in the index. After any entries were put in and taken out, the
/// ids that are stored under the keys that begin with the bytes looked up are exactly
/// those of the entities that are in the index with such values, each once, in the order
/// of their bytes.
pub proof fn lemma_lookup_finds_live(ops: Seq<IndexOp>, ts: Seq<FieldType>, ws: Seq<Val>, keys: Seq<Seq<u8>>)
    requires
        all_indexable(ops, ts),
        key_order::indexable(ws, ts),
        field_index::compound(ws, ts) matches Ok(prefix) && prefix_scan(contents(ops, ts), prefix, keys),
    ensures
        forall|id: Seq<char>| #[trigger] ids_at(contents(ops, ts), keys).contains(id) <==> live(ops, id, ws),
        forall|i: int, j: int|
            0 <= i < j < ids_at(contents(ops, ts), keys).len() ==> text::text_lt(
                #[trigger] ids_at(contents(ops, ts), keys)[i],
                #[trigger] ids_at(contents(ops, ts), keys)[j],
            ),
        ids_at(contents(ops, ts), keys).no_duplicates(),
{
    let m = contents(ops, ts);
    let b = field_index::compound(ws, ts)->Ok_0;
    let ids = Seq::new(
        keys.len(),
        |i: int| choose|id: Seq<char>| keys[i] == #[trigger] field_index::entry_bytes(b, id) && m[keys[i]] == encode_utf8(id),
    );
    assert forall|i: int| 0 <= i < keys.len() implies #[trigger] keys[i] == field_index::entry_bytes(b, ids[i])
        && m[keys[i]] == encode_utf8(ids[i]) by {
        let k = keys[i];
        assert(keys.contains(k));
        lemma_contents(ops, ts, k);
        let (id, vs) = choose|id: Seq<char>, vs: Seq<Val>| #[trigger] keeps(k, m[k], id, vs, ts);
        key_order::lemma_lookup_eq_exact(vs, ws, ts, id);
        key_order::lemma_alike_same_key(vs, ws, ts);
        assert(k == field_index::entry_bytes(b, id) && m[k] == encode_utf8(id));
    }
    lemma_ids_at(m, keys, ids);
    assert forall|id: Seq<char>| #[trigger] ids.contains(id) <==> live(ops, id, ws) by {
        lemma_live(ops, ts, id, ws);
        let e = field_index::entry_bytes(b, id);
        if ids.contains(id) {
            let i = choose|i: int| 0 <= i < ids.len() && ids[i] == id;
            assert(keys[i] == e);
            assert(keys.contains(e));
        }
        if live(ops, id, ws) {
            key_order::lemma_lookup_eq_exact(ws, ws, ts, id);
            lemma_alike_self(ws, ts);
            assert(keys.contains(e));
            let i = choose|i: int| 0 <= i < keys.len() && keys[i] == e;
            assert(field_index::entry_bytes(b, ids[i]) == e);
            index_laws::lemma_entries_apart(ws, ws, ts, ids[i], id);
            assert(ids.contains(id));
        }
    }
    let sep = b.push(0u8);
    assert forall|i: int, j: int| 0 <= i < j < ids.len() implies text::text_lt(#[trigger] ids[i], #[trigger] ids[j]) by {
        assert(text::bytes_lt(keys[i], keys[j]));
        text::lemma_bytes_lt_prefix(sep, encode_utf8(ids[i]), encode_utf8(ids[j]));
    }
    assert forall|i: int, j: int| 0 <= i < ids.len() && 0 <= j < ids.len() && i != j implies ids[i] != ids[j] by {
        text::lemma_bytes_lt_irreflexive(encode_utf8(ids[i]));
        if i < j {
            assert(text::text_lt(ids[i], ids[j]));
        } else {
            assert(text::text_lt(ids[j], ids[i]));
        }
    }
}

proof fn lemma_alike_self(ws: Seq<Val>, ts: Seq<FieldType>)
    requires
        key_order::indexable(ws, ts),
    ensures
        key_order::alike(ws, ws),
{
    assert forall|i: int| 0 <= i < ws.len() implies value::val_eq(#[trigger] ws[i], ws[i]) by {
        key_order::lemma_plain_values_total(ws[i], ws[i], ts[i]);
    }
}

/// The entries that are put into an index for stored entities: of each that stores every
/// field of the index, in order.
pub open spec fn filling(
    names: Seq<Seq<char>>,
    store: Map<Seq<char>, Map<Seq<char>, Val>>,
    ids: Seq<Seq<char>>,
) -> Seq<IndexOp>
    decreases ids.len(),
{
    if ids.len() == 0 {
        Seq::empty()
    } else {
        let before = filling(names, store, ids.drop_last());
        let id = ids.last();
        if insert::all_stored(names, store[id]) {
            before.push(IndexOp::Insert(id, index_laws::index_values(names, store[id])))
        } else {
            before
        }
    }
}

proof fn lemma_filling(
    ops: Seq<IndexOp>,
    names: Seq<Seq<char>>,
    ts: Seq<FieldType>,
    store: Map<Seq<char>, Map<Seq<char>, Val>>,
    ids: Seq<Seq<char>>,
    k: Seq<u8>,
)
    ensures
        contents(ops + filling(names, store, ids), ts).contains_key(k) <==> contents(ops, ts).contains_key(k)
            || exists|i: int|
            0 <= i < ids.len() && index_laws::entry(names, ts, #[trigger] ids[i], store[ids[i]]) == Some(k),
    decreases ids.len(),
{
    let all = ops + filling(names, store, ids);
    if ids.len() == 0 {
        assert(all =~= ops);
    } else {
        let head = ids.drop_last();
        let id = ids.last();
        lemma_filling(ops, names, ts, store, head, k);
        let before = ops + filling(names, store, head);
        if insert::all_stored(names, store[id]) {
            assert(all.drop_last() =~= before);
            assert(all.last() == IndexOp::Insert(id, index_laws::index_values(names, store[id])));
        } else {
            assert(all =~= before);
        }
        if exists|i: int|
            0 <= i < head.len() && index_laws::entry(names, ts, #[trigger] head[i], store[head[i]]) == Some(k) {
            let i = choose|i: int|
                0 <= i < head.len() && index_laws::entry(names, ts, #[trigger] head[i], store[head[i]]) == Some(k);
            assert(ids[i] == head[i]);
        }
        if exists|i: int|
            0 <= i < ids.len() && index_laws::entry(names, ts, #[trigger] ids[i], store[ids[i]]) == Some(k) {
            let i = choose|i: int|
                0 <= i < ids.len() && index_laws::entry(names, ts, #[trigger] ids[i], store[ids[i]]) == Some(k);
            if i < head.len() {
                assert(head[i] == ids[i]);
            }
        }
        assert(ids[ids.len() - 1] == id);
    }
}

/// An index is brought back from what is stored: filling one from all stored entities, in
/// whatever order, leaves it with their entries and those that it had. One that is new, or
/// had no others, has exactly the entries of what is stored.
pub proof fn lemma_index_refilled(
    ops: Seq<IndexOp>,
    names: Seq<Seq<char>>,
    ts: Seq<FieldType>,
    store: Map<Seq<char>, Map<Seq<char>, Val>>,
    ids: Seq<Seq<char>>,
)
    requires
        forall|id: Seq<char>| #[trigger] ids.contains(id) <==> store.contains_key(id),
    ensures
        contents(ops + filling(names, store, ids), ts).dom() == contents(ops, ts).dom().union(
            index_laws::entries(names, ts, store),
        ),
        contents(ops, ts).dom().subset_of(index_laws::entries(names, ts, store)) ==> contents(
            ops + filling(names, store, ids),
            ts,
        ).dom() == index_laws::entries(names, ts, store),
{
    let after = contents(ops + filling(names, store, ids), ts).dom();
    let held = index_laws::entries(names, ts, store);
    assert forall|k: Seq<u8>| after.contains(k) <==> contents(ops, ts).dom().contains(k) || held.contains(k) by {
        lemma_filling(ops, names, ts, store, ids, k);
        if held.contains(k) {
            let id = choose|id: Seq<char>| #[trigger] index_laws::holds_entry(names, ts, store, id, k);
            assert(ids.contains(id));
            let i = choose|i: int| 0 <= i < ids.len() && ids[i] == id;
            assert(index_laws::entry(names, ts, ids[i], store[ids[i]]) == Some(k));
        }
        if exists|i: int|
            0 <= i < ids.len() && index_laws::entry(names, ts, #[trigger] ids[i], store[ids[i]]) == Some(k) {
            let i = choose|i: int|
                0 <= i < ids.len() && index_laws::entry(names, ts, #[trigger] ids[i], store[ids[i]]) == Some(k);
            assert(ids.contains(ids[i]));
            assert(index_laws::holds_entry(names, ts, store, ids[i], k));
        }
    }
    assert(after =~= contents(ops, ts).dom().union(held));
    if contents(ops, ts).dom().subset_of(held) {
        assert(after =~= held);
    }
}

} // verus!
