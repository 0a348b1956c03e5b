//! UPDATE and DELETE of an entity.

use vstd::prelude::*;
use vstd::string::*;

use crate::edge;
use crate::edge::{AdjView, AdjacencyIndex, EdgeList, EntryView};
use crate::fetch;
use crate::fetch::scoped_key;
use crate::fields::FieldMap;
use crate::location::{ReprKey, ReprKeyView};
use crate::result;
use crate::result::{message_result, QueryResult};
use crate::text;
use crate::text::{cat5, contains_text};
use crate::types::{CollectionSchema, Entity, StoredIndex, StoredRepresentation};
use crate::value::{literal_to_value, Literal, LogicalId, Val, Value};

verus! {

/// A planned UPDATE.
#[derive(Debug)]
pub struct UpdatePlan {
    pub collection: String,
    pub entity_id: String,
    pub assignments: Vec<(String, Literal)>,
}

/// A planned DELETE.
#[derive(Debug)]
pub struct DeletePlan {
    pub collection: String,
    pub entity_id: String,
}

/// Fields after assignments, made in order.
pub open spec fn assigned(m: Map<Seq<char>, Val>, a: Seq<(String, Literal)>) -> Map<Seq<char>, Val>
    decreases a.len(),
{
    if a.len() == 0 {
        m
    } else {
        assigned(m, a.drop_last()).insert(a.last().0@, a.last().1@)
    }
}

/// Makes the assignments of an UPDATE.
pub fn apply_assignments(entity: &mut Entity, assignments: &Vec<(String, Literal)>)
    ensures
        final(entity).id == old(entity).id,
        final(entity).representations == old(entity).representations,
        final(entity).metadata@ == assigned(old(entity).metadata@, assignments@),
{
    let ghost start = entity.metadata@;
    let ghost all = assignments@;
    let mut i: usize = 0;
    while i < assignments.len()
        invariant
            i <= assignments.len(),
            all == assignments@,
            start == old(entity).metadata@,
            entity.id == old(entity).id,
            entity.representations == old(entity).representations,
            entity.metadata@ == assigned(start, all.subrange(0, i as int)),
        decreases assignments.len() - i,
    {
        proof {
            let next = all.subrange(0, i as int + 1);
            assert(next.drop_last() =~= all.subrange(0, i as int));
            assert(next.last() == all[i as int]);
        }
        entity.metadata.insert(assignments[i].0.clone(), literal_to_value(&assignments[i].1));
        i += 1;
    }
    assert(all.subrange(0, all.len() as int) =~= all);
}

/// The names that are assigned to.
pub open spec fn assigned_names(a: Seq<(String, Literal)>) -> Seq<Seq<char>> {
    a.map_values(|x: (String, Literal)| x.0@)
}

/// An UPDATE leaves every field alone that it does not assign to.
pub proof fn lemma_update_keeps_others(m: Map<Seq<char>, Val>, a: Seq<(String, Literal)>, k: Seq<char>)
    requires
        !assigned_names(a).contains(k),
    ensures
        assigned(m, a).contains_key(k) == m.contains_key(k),
        m.contains_key(k) ==> assigned(m, a)[k] == m[k],
    decreases a.len(),
{
    if a.len() > 0 {
        let head = a.drop_last();
        assert(assigned_names(a)[a.len() - 1] == a.last().0@);
        assert(!assigned_names(head).contains(k)) by {
            if assigned_names(head).contains(k) {
                let i = choose|i: int| 0 <= i < head.len() && assigned_names(head)[i] == k;
                assert(assigned_names(a)[i] == k);
            }
        }
        lemma_update_keeps_others(m, head, k);
    }
}

/// After an UPDATE a field holds the last value that was assigned to it.
pub proof fn lemma_update_assigns(m: Map<Seq<char>, Val>, a: Seq<(String, Literal)>, i: int)
    requires
        0 <= i < a.len(),
        forall|j: int| i < j < a.len() ==> (#[trigger] a[j]).0@ != a[i].0@,
    ensures
        assigned(m, a).contains_key(a[i].0@),
        assigned(m, a)[a[i].0@] == a[i].1@,
    decreases a.len(),
{
    if i < a.len() - 1 {
        let head = a.drop_last();
        assert forall|j: int| i < j < head.len() implies (#[trigger] head[j]).0@ != head[i].0@ by {
            assert(head[j] == a[j]);
        }
        lemma_update_assigns(m, head, i);
        assert(a[a.len() - 1].0@ != a[i].0@);
    }
}

/// Whether a representation is computed from some of the names.
pub open spec fn depends_on(r: StoredRepresentation, names: Seq<Seq<char>>) -> bool {
    exists|i: int| 0 <= i < r.fields@.len() && names.contains((#[trigger] r.fields@[i])@)
}

/// The places of the representations that are computed from some of the names.
pub open spec fn stale_places(reprs: Seq<StoredRepresentation>, names: Seq<Seq<char>>) -> Seq<int>
    decreases reprs.len(),
{
    if reprs.len() == 0 {
        Seq::empty()
    } else {
        let before = stale_places(reprs.drop_last(), names);
        if depends_on(reprs.last(), names) {
            before.push(reprs.len() - 1)
        } else {
            before
        }
    }
}

fn uses_some(r: &StoredRepresentation, names: &Vec<String>) -> (b: bool)
    ensures
        b == depends_on(*r, text::views(names@)),
{
    let mut i: usize = 0;
    while i < r.fields.len()
        invariant
            i <= r.fields.len(),
            forall|j: int| 0 <= j < i ==> !text::views(names@).contains((#[trigger] r.fields@[j])@),
        decreases r.fields.len() - i,
    {
        if contains_text(names, r.fields[i].as_str()) {
            return true;
        }
        i += 1;
    }
    false
}

/// The model of the keys of representations.
pub open spec fn repr_key_views(s: Seq<ReprKey>) -> Seq<ReprKeyView> {
    s.map_values(|k: ReprKey| k@)
}

/// The representations of an entity that an UPDATE makes stale: those computed from a
/// field that it assigns to.
pub fn stale_representations(
    entity_id: &LogicalId,
    schema: Option<&CollectionSchema>,
    assignments: &Vec<(String, Literal)>,
) -> (r: Vec<ReprKey>)
    ensures
        repr_key_views(r@) == (match schema {
            Some(s) => stale_places(s.representations@, assigned_names(assignments@)).map_values(
                |i: int| ReprKeyView { entity_id: entity_id@, repr_index: i as u32 },
            ),
            None => Seq::empty(),
        }),
{
    let mut r: Vec<ReprKey> = Vec::new();
    match schema {
        None => {
            assert(repr_key_views(r@) =~= Seq::empty());
        },
        Some(s) => {
            let ghost f = |i: int| ReprKeyView { entity_id: entity_id@, repr_index: i as u32 };
            let ghost all = s.representations@;
            let ghost changed = assigned_names(assignments@);
            let mut names: Vec<String> = Vec::new();
            let mut i: usize = 0;
            while i < assignments.len()
                invariant
                    i <= assignments.len(),
                    names@.len() == i,
                    forall|j: int| 0 <= j < i ==> (#[trigger] names@[j])@ == assignments@[j].0@,
                decreases assignments.len() - i,
            {
                names.push(assignments[i].0.clone());
                i += 1;
            }
            assert(text::views(names@) =~= changed);
            let mut i: usize = 0;
            proof {
                assert(repr_key_views(r@) =~= stale_places(all.subrange(0, 0), changed).map_values(f));
            }
            while i < s.representations.len()
                invariant
                    i <= s.representations.len(),
                    all == s.representations@,
                    text::views(names@) == changed,
                    f == (|i: int| ReprKeyView { entity_id: entity_id@, repr_index: i as u32 }),
                    repr_key_views(r@) == stale_places(all.subrange(0, i as int), changed).map_values(f),
                decreases s.representations.len() - i,
            {
                let ghost before = repr_key_views(r@);
                let ghost places = stale_places(all.subrange(0, i as int), changed);
                proof {
                    let next = all.subrange(0, i as int + 1);
                    assert(next.drop_last() =~= all.subrange(0, i as int));
                    assert(next.last() == all[i as int]);
                }
                if uses_some(&s.representations[i], &names) {
                    let key = ReprKey { entity_id: entity_id.clone(), repr_index: i as u32 };
                    r.push(key);
                    proof {
                        assert(repr_key_views(r@) =~= before.push(key@));
                        assert(places.push(i as int).map_values(f) =~= places.map_values(f).push(f(i as int)));
                    }
                }
                i += 1;
            }
            assert(all.subrange(0, all.len() as int) =~= all);
        },
    }
    r
}

proof fn lemma_stale_places(reprs: Seq<StoredRepresentation>, names: Seq<Seq<char>>, i: int)
    ensures
        stale_places(reprs, names).contains(i) <==> 0 <= i < reprs.len() && depends_on(reprs[i], names),
    decreases reprs.len(),
{
    if reprs.len() > 0 {
        let head = reprs.drop_last();
        let before = stale_places(head, names);
        let after = stale_places(reprs, names);
        lemma_stale_places(head, names, i);
        if 0 <= i < head.len() {
            assert(head[i] == reprs[i]);
        }
        if before.contains(i) {
            let a = choose|a: int| 0 <= a < before.len() && before[a] == i;
            assert(after[a] == i);
        }
        if depends_on(reprs.last(), names) {
            assert(after[before.len() as int] == reprs.len() - 1);
            if after.contains(i) && i != reprs.len() - 1 {
                let a = choose|a: int| 0 <= a < after.len() && after[a] == i;
                assert(before[a] == i);
            }
        }
    }
}

/// An UPDATE makes a representation stale exactly where it assigns to a field that the
/// representation is computed from.
pub proof fn lemma_stale_exactly(reprs: Seq<StoredRepresentation>, a: Seq<(String, Literal)>, i: int)
    requires
        0 <= i < reprs.len(),
    ensures
        stale_places(reprs, assigned_names(a)).contains(i) <==> exists|j: int|
            0 <= j < reprs[i].fields@.len() && assigned_names(a).contains((#[trigger] reprs[i].fields@[j])@),
{
    lemma_stale_places(reprs, assigned_names(a), i);
}

/// The value of a field, null where it is not stored.
pub open spec fn value_or_null(m: Map<Seq<char>, Val>, k: Seq<char>) -> Val {
    if m.contains_key(k) {
        m[k]
    } else {
        Val::Null
    }
}

/// The values of fields, null where they are not stored.
pub fn values_or_null(fields: &Vec<String>, metadata: &FieldMap) -> (r: Vec<Value>)
    ensures
        r@.len() == fields@.len(),
        forall|i: int| 0 <= i < r@.len() ==> (#[trigger] r@[i])@ == value_or_null(metadata@, fields@[i]@),
{
    let mut r: Vec<Value> = Vec::new();
    let mut i: usize = 0;
    while i < fields.len()
        invariant
            i <= fields.len(),
            r@.len() == i,
            forall|j: int| 0 <= j < i ==> (#[trigger] r@[j])@ == value_or_null(metadata@, fields@[j]@),
        decreases fields.len() - i,
    {
        match metadata.get(fields[i].as_str()) {
            Some(v) => r.push(v.clone()),
            None => r.push(Value::Null),
        }
        i += 1;
    }
    r
}

/// What changes in an index: the entry to remove and the entry to add.
#[derive(Debug)]
pub struct IndexChange {
    pub key: String,
    pub old_values: Vec<Value>,
    pub new_values: Vec<Value>,
}

/// Whether a change takes an entity from the values of one map to those of another.
pub open spec fn is_change(
    c: IndexChange,
    collection: Seq<char>,
    index: StoredIndex,
    old_map: Map<Seq<char>, Val>,
    new_map: Map<Seq<char>, Val>,
) -> bool {
    &&& c.key@ == fetch::scoped(collection, index.name@)
    &&& c.old_values@.len() == index.fields@.len()
    &&& c.new_values@.len() == index.fields@.len()
    &&& forall|i: int|
        0 <= i < c.old_values@.len() ==> (#[trigger] c.old_values@[i])@ == value_or_null(
            old_map,
            index.fields@[i]@,
        )
    &&& forall|i: int|
        0 <= i < c.new_values@.len() ==> (#[trigger] c.new_values@[i])@ == value_or_null(
            new_map,
            index.fields@[i]@,
        )
}

/// What an UPDATE changes in the indexes of a collection, one change for each.
pub fn index_changes(collection: &str, schema: &CollectionSchema, before: &FieldMap, after: &FieldMap) -> (r: Vec<
    IndexChange,
>)
    ensures
        r@.len() == schema.indexes@.len(),
        forall|i: int|
            0 <= i < r@.len() ==> is_change(
                #[trigger] r@[i],
                collection@,
                schema.indexes@[i],
                before@,
                after@,
            ),
{
    let mut r: Vec<IndexChange> = Vec::new();
    let mut i: usize = 0;
    while i < schema.indexes.len()
        invariant
            i <= schema.indexes.len(),
            r@.len() == i,
            forall|j: int|
                0 <= j < i ==> is_change(
                    #[trigger] r@[j],
                    collection@,
                    schema.indexes@[j],
                    before@,
                    after@,
                ),
        decreases schema.indexes.len() - i,
    {
        let index = &schema.indexes[i];
        r.push(
            IndexChange {
                key: scoped_key(collection, index.name.as_str()),
                old_values: values_or_null(&index.fields, before),
                new_values: values_or_null(&index.fields, after),
            },
        );
        i += 1;
    }
    r
}

/// What an UPDATE reports.
pub fn updated_entity(p: &UpdatePlan) -> (r: QueryResult)
    ensures
        result::is_counted(
            r,
            "result"@,
            "Entity '"@ + p.entity_id@ + "' updated in '"@ + p.collection@ + "'"@,
            "Fjall"@,
            1,
        ),
{
    let mut r = message_result(
        "result",
        cat5("Entity '", p.entity_id.as_str(), "' updated in '", p.collection.as_str(), "'"),
        "Fjall",
    );
    r.entities_scanned = 1;
    r
}

/// What a DELETE reports.
pub fn deleted_entity(p: &DeletePlan) -> (r: QueryResult)
    ensures
        result::is_counted(
            r,
            "result"@,
            "Entity '"@ + p.entity_id@ + "' deleted from '"@ + p.collection@ + "'"@,
            "Fjall"@,
            1,
        ),
{
    let mut r = message_result(
        "result",
        cat5("Entity '", p.entity_id.as_str(), "' deleted from '", p.collection.as_str(), "'"),
        "Fjall",
    );
    r.entities_scanned = 1;
    r
}

proof fn lemma_outgoing_lists(
    m: Map<edge::EdgeKey, Seq<EntryView>>,
    id: Seq<char>,
    ts: Seq<Seq<char>>,
    t: Seq<char>,
    to: Seq<char>,
)
    requires
        ts.contains(t),
        edge::target_count(m[(id, t)], to) > 0,
    ensures
        edge::outgoing(m, id, ts).contains((t, to)),
    decreases ts.len(),
{
    let u = ts.last();
    let head = ts.drop_last();
    let here = m[(id, u)].map_values(|e: EntryView| (u, e.to_id));
    let all = edge::outgoing(m, id, ts);
    if u == t {
        lemma_target_listed(m[(id, u)], to);
        let i = choose|i: int| 0 <= i < m[(id, u)].len() && (#[trigger] m[(id, u)][i]).to_id == to;
        assert(here[i] == (t, to));
        assert(all[edge::outgoing(m, id, head).len() + i] == (t, to));
    } else {
        let a = choose|a: int| 0 <= a < ts.len() && ts[a] == t;
        assert(head[a] == t);
        lemma_outgoing_lists(m, id, head, t, to);
        let part = edge::outgoing(m, id, head);
        let b = choose|b: int| 0 <= b < part.len() && part[b] == (t, to);
        assert(all[b] == (t, to));
    }
}

proof fn lemma_target_listed(s: Seq<EntryView>, to: Seq<char>)
    requires
        edge::target_count(s, to) > 0,
    ensures
        exists|i: int| 0 <= i < s.len() && (#[trigger] s[i]).to_id == to,
    decreases s.len(),
{
    if s.len() > 0 {
        if s.last().to_id == to {
            assert(s[s.len() - 1].to_id == to);
        } else {
            lemma_target_listed(s.drop_last(), to);
            let i = choose|i: int| 0 <= i < s.drop_last().len() && (#[trigger] s.drop_last()[i]).to_id == to;
            assert(s[i].to_id == to);
        }
    }
}

proof fn lemma_incoming_lists(
    m: Map<edge::EdgeKey, Seq<Seq<char>>>,
    id: Seq<char>,
    ts: Seq<Seq<char>>,
    t: Seq<char>,
    from: Seq<char>,
)
    requires
        ts.contains(t),
        edge::id_count(m[(id, t)], from) > 0,
    ensures
        edge::incoming(m, id, ts).contains((t, from)),
    decreases ts.len(),
{
    let u = ts.last();
    let head = ts.drop_last();
    let here = m[(id, u)].map_values(|f: Seq<char>| (u, f));
    let all = edge::incoming(m, id, ts);
    if u == t {
        lemma_source_listed(m[(id, u)], from);
        let i = choose|i: int| 0 <= i < m[(id, u)].len() && m[(id, u)][i] == from;
        assert(here[i] == (t, from));
        assert(all[edge::incoming(m, id, head).len() + i] == (t, from));
    } else {
        let a = choose|a: int| 0 <= a < ts.len() && ts[a] == t;
        assert(head[a] == t);
        lemma_incoming_lists(m, id, head, t, from);
        let part = edge::incoming(m, id, head);
        let b = choose|b: int| 0 <= b < part.len() && part[b] == (t, from);
        assert(all[b] == (t, from));
    }
}

proof fn lemma_source_listed(s: Seq<Seq<char>>, from: Seq<char>)
    requires
        edge::id_count(s, from) > 0,
    ensures
        s.contains(from),
    decreases s.len(),
{
    if s.len() > 0 {
        if s.last() == from {
            assert(s[s.len() - 1] == from);
        } else {
            lemma_source_listed(s.drop_last(), from);
            let i = choose|i: int| 0 <= i < s.drop_last().len() && s.drop_last()[i] == from;
            assert(s[i] == from);
        }
    }
}

proof fn lemma_outgoing_only(
    m: Map<edge::EdgeKey, Seq<EntryView>>,
    id: Seq<char>,
    ts: Seq<Seq<char>>,
    t: Seq<char>,
    to: Seq<char>,
)
    requires
        edge::outgoing(m, id, ts).contains((t, to)),
    ensures
        ts.contains(t),
        edge::target_count(m[(id, t)], to) > 0,
    decreases ts.len(),
{
    let u = ts.last();
    let head = ts.drop_last();
    let part = edge::outgoing(m, id, head);
    let all = edge::outgoing(m, id, ts);
    let a = choose|a: int| 0 <= a < all.len() && all[a] == (t, to);
    if a < part.len() {
        assert(part[a] == (t, to));
        lemma_outgoing_only(m, id, head, t, to);
        let b = choose|b: int| 0 <= b < head.len() && head[b] == t;
        assert(ts[b] == t);
    } else {
        assert(m[(id, u)][a - part.len()].to_id == to);
        assert(ts[ts.len() - 1] == t);
        lemma_target_counted(m[(id, u)], a - part.len());
    }
}

proof fn lemma_target_counted(s: Seq<EntryView>, i: int)
    requires
        0 <= i < s.len(),
    ensures
        edge::target_count(s, s[i].to_id) > 0,
    decreases s.len(),
{
    if i < s.len() - 1 {
        lemma_target_counted(s.drop_last(), i);
    }
}

proof fn lemma_incoming_only(
    m: Map<edge::EdgeKey, Seq<Seq<char>>>,
    id: Seq<char>,
    ts: Seq<Seq<char>>,
    t: Seq<char>,
    from: Seq<char>,
)
    requires
        edge::incoming(m, id, ts).contains((t, from)),
    ensures
        ts.contains(t),
        edge::id_count(m[(id, t)], from) > 0,
    decreases ts.len(),
{
    let u = ts.last();
    let head = ts.drop_last();
    let part = edge::incoming(m, id, head);
    let all = edge::incoming(m, id, ts);
    let a = choose|a: int| 0 <= a < all.len() && all[a] == (t, from);
    if a < part.len() {
        assert(part[a] == (t, from));
        lemma_incoming_only(m, id, head, t, from);
        let b = choose|b: int| 0 <= b < head.len() && head[b] == t;
        assert(ts[b] == t);
    } else {
        assert(m[(id, u)][a - part.len()] == from);
        assert(ts[ts.len() - 1] == t);
        lemma_source_counted(m[(id, u)], a - part.len());
    }
}

proof fn lemma_source_counted(s: Seq<Seq<char>>, i: int)
    requires
        0 <= i < s.len(),
    ensures
        edge::id_count(s, s[i]) > 0,
    decreases s.len(),
{
    if i < s.len() - 1 {
        lemma_source_counted(s.drop_last(), i);
    }
}

/// Whether two lists are the edges from an entity and those to it.
pub open spec fn lists_edges(v: AdjView, id: Seq<char>, out: Seq<(Seq<char>, Seq<char>)>, back: Seq<(Seq<char>, Seq<char>)>) -> bool {
    &&& forall|t: Seq<char>, to: Seq<char>| #[trigger] v.edge_count(id, t, to) > 0 <==> out.contains((t, to))
    &&& forall|t: Seq<char>, from: Seq<char>| #[trigger] v.edge_count(from, t, id) > 0 <==> back.contains((t, from))
}

proof fn lemma_lists_edges(v: AdjView, id: Seq<char>, ts: Seq<Seq<char>>, us: Seq<Seq<char>>)
    requires
        v.consistent(),
        edge::lists_types(v.forward, id, ts),
        edge::lists_types(v.backward, id, us),
    ensures
        lists_edges(v, id, edge::outgoing(v.forward, id, ts), edge::incoming(v.backward, id, us)),
{
    let out = edge::outgoing(v.forward, id, ts);
    let back = edge::incoming(v.backward, id, us);
    assert forall|t: Seq<char>, to: Seq<char>| #[trigger] v.edge_count(id, t, to) > 0 <==> out.contains((t, to)) by {
        if v.edge_count(id, t, to) > 0 {
            assert(v.forward.contains_key((id, t)));
            assert(ts.contains(t));
            lemma_outgoing_lists(v.forward, id, ts, t, to);
        }
        if out.contains((t, to)) {
            lemma_outgoing_only(v.forward, id, ts, t, to);
            assert(ts.contains(t));
        }
    }
    assert forall|t: Seq<char>, from: Seq<char>| #[trigger] v.edge_count(from, t, id) > 0 <==> back.contains(
        (t, from),
    ) by {
        assert(edge::target_count(edge::list_at(v.forward, (from, t)), id) == edge::id_count(
            edge::list_at(v.backward, (id, t)),
            from,
        ));
        if v.edge_count(from, t, id) > 0 {
            assert(v.backward.contains_key((id, t)));
            assert(us.contains(t));
            lemma_incoming_lists(v.backward, id, us, t, from);
        }
        if back.contains((t, from)) {
            lemma_incoming_only(v.backward, id, us, t, from);
            assert(us.contains(t));
        }
    }
}

proof fn lemma_no_targets(s: Seq<EntryView>)
    requires
        forall|x: Seq<char>| #[trigger] edge::target_count(s, x) == 0,
    ensures
        s.len() == 0,
{
    if s.len() > 0 {
        lemma_target_counted(s, 0);
        assert(edge::target_count(s, s[0].to_id) == 0);
    }
}

proof fn lemma_no_sources(s: Seq<Seq<char>>)
    requires
        forall|x: Seq<char>| #[trigger] edge::id_count(s, x) == 0,
    ensures
        s.len() == 0,
{
    if s.len() > 0 {
        lemma_source_counted(s, 0);
        assert(edge::id_count(s, s[0]) == 0);
    }
}

/// How the lists stand while the edges from an entity are taken out: its targets lose it,
/// and the lists of outgoing edges of others are as they were.
spec fn leaving(v: AdjView, before: AdjView, id: Seq<char>, done: Seq<(Seq<char>, Seq<char>)>) -> bool {
    &&& v.consistent()
    &&& forall|t: Seq<char>, x: Seq<char>| #[trigger]
        v.edge_count(id, t, x) == (if done.contains((t, x)) {
            0
        } else {
            before.edge_count(id, t, x)
        })
    &&& forall|k: edge::EdgeKey|
        k.0 != id ==> #[trigger] edge::list_at(v.forward, k) == edge::list_at(before.forward, k)
    &&& forall|k: edge::EdgeKey| #[trigger]
        edge::list_at(v.backward, k) == (if done.contains((k.1, k.0)) {
            edge::without_id(edge::list_at(before.backward, k), id)
        } else {
            edge::list_at(before.backward, k)
        })
}

/// How the lists stand while the edges to an entity are taken out after those from it: its
/// sources lose it, and nothing else changes.
spec fn left(v: AdjView, before: AdjView, id: Seq<char>, done: Seq<(Seq<char>, Seq<char>)>) -> bool {
    &&& v.consistent()
    &&& forall|k: edge::EdgeKey| k.0 == id ==> (#[trigger] edge::list_at(v.forward, k)).len() == 0
    &&& forall|k: edge::EdgeKey|
        k.0 != id ==> #[trigger] edge::list_at(v.forward, k) == (if done.contains((k.1, k.0)) {
            edge::without_target(edge::list_at(before.forward, k), id)
        } else {
            edge::list_at(before.forward, k)
        })
    &&& forall|k: edge::EdgeKey|
        k.0 != id ==> #[trigger] edge::list_at(v.backward, k) == edge::without_id(
            edge::list_at(before.backward, k),
            id,
        )
}

proof fn lemma_leaving_step(
    v: AdjView,
    before: AdjView,
    id: Seq<char>,
    outs: Seq<(Seq<char>, Seq<char>)>,
    i: int,
)
    requires
        0 <= i < outs.len(),
        leaving(v, before, id, outs.subrange(0, i)),
    ensures
        leaving(v.removed(id, outs[i].0, outs[i].1), before, id, outs.subrange(0, i + 1)),
{
    let (t0, x0) = outs[i];
    let w = v.removed(id, t0, x0);
    let done = outs.subrange(0, i);
    let next = outs.subrange(0, i + 1);
    edge::lemma_remove_consistent(v, id, t0, x0);
    assert forall|t: Seq<char>, x: Seq<char>| #[trigger] w.edge_count(id, t, x) == (if next.contains((t, x)) {
        0
    } else {
        before.edge_count(id, t, x)
    }) by {
        edge::lemma_removed_edges(v, id, t0, x0, id, t, x);
        lemma_next_pair(outs, i, (t, x));
        assert(v.edge_count(id, t, x) == (if done.contains((t, x)) {
            0
        } else {
            before.edge_count(id, t, x)
        }));
    }
    assert forall|k: edge::EdgeKey| k.0 != id implies #[trigger] edge::list_at(w.forward, k) == edge::list_at(
        before.forward,
        k,
    ) by {
        edge::lemma_removed_lists(v, id, t0, x0, k);
        assert(edge::list_at(v.forward, k) == edge::list_at(before.forward, k));
    }
    assert forall|k: edge::EdgeKey| #[trigger] edge::list_at(w.backward, k) == (if next.contains((k.1, k.0)) {
        edge::without_id(edge::list_at(before.backward, k), id)
    } else {
        edge::list_at(before.backward, k)
    }) by {
        let was = edge::list_at(before.backward, k);
        edge::lemma_removed_lists(v, id, t0, x0, k);
        lemma_next_pair(outs, i, (k.1, k.0));
        assert(edge::list_at(v.backward, k) == (if done.contains((k.1, k.0)) {
            edge::without_id(was, id)
        } else {
            was
        }));
        edge::lemma_id_count_without(was, id, id);
        edge::lemma_without_id_absent(edge::without_id(was, id), id);
    }
}

proof fn lemma_left_step(
    v: AdjView,
    before: AdjView,
    id: Seq<char>,
    backs: Seq<(Seq<char>, Seq<char>)>,
    i: int,
)
    requires
        0 <= i < backs.len(),
        left(v, before, id, backs.subrange(0, i)),
    ensures
        left(v.removed(backs[i].1, backs[i].0, id), before, id, backs.subrange(0, i + 1)),
{
    let (t0, f0) = backs[i];
    let w = v.removed(f0, t0, id);
    let done = backs.subrange(0, i);
    let next = backs.subrange(0, i + 1);
    edge::lemma_remove_consistent(v, f0, t0, id);
    assert forall|k: edge::EdgeKey| k.0 == id implies (#[trigger] edge::list_at(w.forward, k)).len() == 0 by {
        edge::lemma_removed_lists(v, f0, t0, id, k);
        assert(edge::list_at(v.forward, k).len() == 0);
    }
    assert forall|k: edge::EdgeKey| k.0 != id implies #[trigger] edge::list_at(w.forward, k) == (if next.contains(
        (k.1, k.0),
    ) {
        edge::without_target(edge::list_at(before.forward, k), id)
    } else {
        edge::list_at(before.forward, k)
    }) by {
        let was = edge::list_at(before.forward, k);
        edge::lemma_removed_lists(v, f0, t0, id, k);
        lemma_next_pair(backs, i, (k.1, k.0));
        assert(edge::list_at(v.forward, k) == (if done.contains((k.1, k.0)) {
            edge::without_target(was, id)
        } else {
            was
        }));
        edge::lemma_target_count_without(was, id, id);
        edge::lemma_without_target_absent(edge::without_target(was, id), id);
    }
    assert forall|k: edge::EdgeKey| k.0 != id implies #[trigger] edge::list_at(w.backward, k) == edge::without_id(
        edge::list_at(before.backward, k),
        id,
    ) by {
        edge::lemma_removed_lists(v, f0, t0, id, k);
        assert(edge::list_at(v.backward, k) == edge::without_id(edge::list_at(before.backward, k), id));
    }
}

/// With the edges from an entity all taken out, those to it can be.
proof fn lemma_half_detached(
    v: AdjView,
    before: AdjView,
    id: Seq<char>,
    outs: Seq<(Seq<char>, Seq<char>)>,
    backs: Seq<(Seq<char>, Seq<char>)>,
)
    requires
        before.consistent(),
        lists_edges(before, id, outs, backs),
        leaving(v, before, id, outs),
    ensures
        left(v, before, id, Seq::empty()),
{
    assert forall|k: edge::EdgeKey| k.0 == id implies (#[trigger] edge::list_at(v.forward, k)).len() == 0 by {
        let s = edge::list_at(v.forward, k);
        assert forall|x: Seq<char>| #[trigger] edge::target_count(s, x) == 0 by {
            assert(v.edge_count(id, k.1, x) == edge::target_count(s, x));
            assert(before.edge_count(id, k.1, x) > 0 <==> outs.contains((k.1, x)));
        }
        lemma_no_targets(s);
    }
    assert forall|k: edge::EdgeKey| k.0 != id implies #[trigger] edge::list_at(v.backward, k) == edge::without_id(
        edge::list_at(before.backward, k),
        id,
    ) by {
        let was = edge::list_at(before.backward, k);
        if !outs.contains((k.1, k.0)) {
            assert(before.edge_count(id, k.1, k.0) == 0);
            assert(edge::target_count(edge::list_at(before.forward, (id, k.1)), k.0) == edge::id_count(was, id));
            edge::lemma_without_id_absent(was, id);
        }
    }
}

proof fn lemma_wholly_detached(
    v: AdjView,
    before: AdjView,
    id: Seq<char>,
    outs: Seq<(Seq<char>, Seq<char>)>,
    backs: Seq<(Seq<char>, Seq<char>)>,
)
    requires
        before.consistent(),
        lists_edges(before, id, outs, backs),
        left(v, before, id, backs),
    ensures
        v == before.detached(id),
{
    let want = before.detached(id);
    assert forall|k: edge::EdgeKey| edge::list_at(v.forward, k) == #[trigger] edge::list_at(want.forward, k) by {
        edge::lemma_detached_lists(before, id, k);
        let was = edge::list_at(before.forward, k);
        if k.0 == id {
            assert(edge::list_at(v.forward, k) =~= Seq::<EntryView>::empty());
        } else if !backs.contains((k.1, k.0)) {
            assert(before.edge_count(k.0, k.1, id) == 0);
            edge::lemma_without_target_absent(was, id);
        }
    }
    assert forall|k: edge::EdgeKey| edge::list_at(v.backward, k) == #[trigger] edge::list_at(want.backward, k) by {
        edge::lemma_detached_lists(before, id, k);
        if k.0 == id {
            let s = edge::list_at(v.backward, k);
            assert forall|f: Seq<char>| #[trigger] edge::id_count(s, f) == 0 by {
                let from_f = edge::list_at(v.forward, (f, k.1));
                assert(edge::target_count(from_f, id) == edge::id_count(edge::list_at(v.backward, (id, k.1)), f));
                assert(edge::list_at(want.forward, (f, k.1)) == from_f);
                edge::lemma_detached_edges(before, id, f, k.1, id);
            }
            lemma_no_sources(s);
            assert(s =~= Seq::<Seq<char>>::empty());
        }
    }
    assert forall|k: edge::EdgeKey| #[trigger] v.forward.dom().contains(k) <==> want.forward.dom().contains(k) by {
        assert(edge::list_at(v.forward, k) == edge::list_at(want.forward, k));
        assert(v.forward.contains_key(k) ==> v.forward[k].len() > 0);
    }
    assert(v.forward.dom() =~= want.forward.dom());
    assert forall|k: edge::EdgeKey| v.forward.dom().contains(k) implies #[trigger] v.forward[k] == want.forward[k] by {
        assert(edge::list_at(v.forward, k) == edge::list_at(want.forward, k));
        assert(want.forward.dom().contains(k));
    }
    assert(v.forward =~= want.forward);
    assert forall|k: edge::EdgeKey| #[trigger] v.backward.dom().contains(k) <==> want.backward.dom().contains(k) by {
        assert(edge::list_at(v.backward, k) == edge::list_at(want.backward, k));
        assert(v.backward.contains_key(k) ==> v.backward[k].len() > 0);
    }
    assert(v.backward.dom() =~= want.backward.dom());
    assert forall|k: edge::EdgeKey| v.backward.dom().contains(k) implies #[trigger] v.backward[k] == want.backward[k] by {
        assert(edge::list_at(v.backward, k) == edge::list_at(want.backward, k));
        assert(want.backward.dom().contains(k));
    }
    assert(v.backward =~= want.backward);
}

/// Removes every edge from an entity and to it, and gives them: those from it, then
/// those to it, as pairs of a type and the other end. All other edges stay as they are
/// and in their order.
pub fn detach(adjacency: &mut AdjacencyIndex, id: &LogicalId) -> (r: (EdgeList, EdgeList))
    requires
        old(adjacency)@.consistent(),
    ensures
        final(adjacency)@ == old(adjacency)@.detached(id@),
        final(adjacency)@.consistent(),
        lists_edges(old(adjacency)@, id@, edge::edge_list_view(r.0@), edge::edge_list_view(r.1@)),
        forall|f: Seq<char>, t: Seq<char>|
            #![trigger edge::list_at(final(adjacency)@.forward, (f, t))]
            edge::list_at(final(adjacency)@.forward, (f, t)) == (if f == id@ {
                Seq::empty()
            } else {
                edge::without_target(edge::list_at(old(adjacency)@.forward, (f, t)), id@)
            }),
        forall|x: Seq<char>, t: Seq<char>|
            #![trigger edge::list_at(final(adjacency)@.backward, (x, t))]
            edge::list_at(final(adjacency)@.backward, (x, t)) == (if x == id@ {
                Seq::empty()
            } else {
                edge::without_id(edge::list_at(old(adjacency)@.backward, (x, t)), id@)
            }),
{
    let ghost before = adjacency@;
    let (out, back) = adjacency.edges_involving(id);
    let ghost outs = edge::edge_list_view(out@);
    let ghost backs = edge::edge_list_view(back@);
    proof {
        let ts = choose|ts: Seq<Seq<char>>| #[trigger]
            edge::lists_types(before.forward, id@, ts) && outs == edge::outgoing(before.forward, id@, ts);
        let us = choose|ts: Seq<Seq<char>>| #[trigger]
            edge::lists_types(before.backward, id@, ts) && backs == edge::incoming(before.backward, id@, ts);
        lemma_lists_edges(before, id@, ts, us);
    }
    let mut i: usize = 0;
    while i < out.len()
        invariant
            i <= out.len(),
            outs == edge::edge_list_view(out@),
            leaving(adjacency@, before, id@, outs.subrange(0, i as int)),
        decreases out.len() - i,
    {
        proof {
            lemma_leaving_step(adjacency@, before, id@, outs, i as int);
            assert(outs[i as int] == (out@[i as int].0@, out@[i as int].1@));
        }
        adjacency.remove(id, out[i].0.as_str(), &out[i].1);
        i += 1;
    }
    proof {
        assert(outs.subrange(0, outs.len() as int) =~= outs);
        lemma_half_detached(adjacency@, before, id@, outs, backs);
        assert(backs.subrange(0, 0) =~= Seq::empty());
    }
    let mut i: usize = 0;
    while i < back.len()
        invariant
            i <= back.len(),
            backs == edge::edge_list_view(back@),
            left(adjacency@, before, id@, backs.subrange(0, i as int)),
        decreases back.len() - i,
    {
        proof {
            lemma_left_step(adjacency@, before, id@, backs, i as int);
            assert(backs[i as int] == (back@[i as int].0@, back@[i as int].1@));
        }
        adjacency.remove(&back[i].1, back[i].0.as_str(), id);
        i += 1;
    }
    proof {
        assert(backs.subrange(0, backs.len() as int) =~= backs);
        lemma_wholly_detached(adjacency@, before, id@, outs, backs);
        assert forall|k: edge::EdgeKey|
            edge::list_at(adjacency@.forward, k) == (if k.0 == id@ {
                Seq::empty()
            } else {
                edge::without_target(edge::list_at(before.forward, k), id@)
            }) && edge::list_at(adjacency@.backward, k) == (if k.0 == id@ {
                Seq::empty()
            } else {
                edge::without_id(edge::list_at(before.backward, k), id@)
            }) by {
            edge::lemma_detached_lists(before, id@, k);
        }
    }
    (out, back)
}

proof fn lemma_next_pair(s: Seq<(Seq<char>, Seq<char>)>, i: int, p: (Seq<char>, Seq<char>))
    requires
        0 <= i < s.len(),
    ensures
        s.subrange(0, i + 1).contains(p) <==> s.subrange(0, i).contains(p) || s[i] == p,
{
    let next = s.subrange(0, i + 1);
    let done = s.subrange(0, i);
    if done.contains(p) {
        let a = choose|a: int| 0 <= a < done.len() && done[a] == p;
        assert(next[a] == p);
    }
    if s[i] == p {
        assert(next[i] == p);
    }
    if next.contains(p) {
        let a = choose|a: int| 0 <= a < next.len() && next[a] == p;
        if a < i {
            assert(done[a] == p);
        }
    }
}

} // verus!
