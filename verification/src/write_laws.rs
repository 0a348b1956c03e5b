//! What the statements that write, and the work beside them, store and leave alone.

use vstd::prelude::*;
use vstd::string::*;

use crate::background;
use crate::collection;
use crate::collection::CreateCollectionPlan;
use crate::confirm;
use crate::confirm::ConfirmPlan;
use crate::edge;
use crate::edge::{AdjView, Edge, EdgeKey, EdgeSource, EdgeType, EdgeView, EntryView};
use crate::error::ErrorView;
use crate::float_bits;
use crate::graph;
use crate::graph::InsertEdgePlan;
use crate::infer_laws;
use crate::inference;
use crate::inference::AuditView;
use crate::insert;
use crate::insert::InsertPlan;
use crate::location::{Encoding, LocState, Tier};
use crate::search::HitView;
use crate::selection;
use crate::text;
use crate::types::{
    CollectionSchema, Entity, FieldType, ReprState, Representation, StoredField, StoredIndex, StoredRepresentation,
    VectorData,
};
use crate::update;
use crate::update::IndexChange;
use crate::value::{Literal, Val};

verus! {

/// Edges are inferred for an entity that changes along exactly the types that lead from its
/// collection and are set to, in order; and there are such types exactly where inference is
/// wanted at all.
pub proof fn lemma_auto_types(types: Seq<EdgeType>, collection: Seq<char>)
    ensures
        selection::is_selection(
            types,
            background::auto_types(types, collection),
            |t: EdgeType| t.from_collection@ == collection && t.inference_config.auto,
            |t: EdgeType| t,
        ),
        insert::infers(types, collection) <==> background::auto_types(types, collection).len() > 0,
    decreases types.len(),
{
    let keep = |t: EdgeType| t.from_collection@ == collection && t.inference_config.auto;
    let make = |t: EdgeType| t;
    let after = background::auto_types(types, collection);
    if types.len() == 0 {
        selection::lemma_selection_empty(types, after, keep, make);
    } else {
        let head = types.drop_last();
        let before = background::auto_types(head, collection);
        lemma_auto_types(head, collection);
        selection::lemma_selection_grows(types, before, after, keep, make);
        if insert::infers(head, collection) {
            let i = choose|i: int|
                0 <= i < head.len() && (#[trigger] head[i]).inference_config.auto && head[i].from_collection@
                    == collection;
            assert(types[i] == head[i]);
        }
        if insert::infers(types, collection) {
            let i = choose|i: int|
                0 <= i < types.len() && (#[trigger] types[i]).inference_config.auto && types[i].from_collection@
                    == collection;
            if i < head.len() {
                assert(head[i] == types[i]);
            }
        }
        if keep(types.last()) {
            assert(types[types.len() - 1] == types.last());
        }
    }
}

/// Exactly the types of edges with a threshold are swept, in order.
pub proof fn lemma_swept_types(types: Seq<EdgeType>)
    ensures
        selection::is_selection(
            types,
            background::swept_types(types),
            |t: EdgeType| t.decay_config.prune_threshold is Some,
            |t: EdgeType| t,
        ),
    decreases types.len(),
{
    let keep = |t: EdgeType| t.decay_config.prune_threshold is Some;
    let make = |t: EdgeType| t;
    let after = background::swept_types(types);
    if types.len() == 0 {
        selection::lemma_selection_empty(types, after, keep, make);
    } else {
        lemma_swept_types(types.drop_last());
        selection::lemma_selection_grows(types, background::swept_types(types.drop_last()), after, keep, make);
    }
}

/// An edge that was inferred is pruned once its effective confidence is a number below the
/// threshold, and not before; no other edge ever is.
pub proof fn lemma_pruned_exactly(source: EdgeSource, effective: u32, threshold: u32)
    ensures
        background::pruned(source, effective, threshold) <==> source == EdgeSource::Inferred
            && !float_bits::f32_is_nan(effective) && !float_bits::f32_is_nan(threshold) && float_bits::f32_key(effective)
            < float_bits::f32_key(threshold),
{
}

/// Whether a hit may become an edge.
pub open spec fn may_become_edge(h: HitView, source: Seq<char>, es: Seq<EntryView>, floor: u32) -> bool {
    h.id != source && infer_laws::none_leads_to(es, h.id) && !float_bits::f32_lt(h.score, floor)
}

/// The hits that become edges are the first that may, in order and as many as the limit
/// says: all of those that may, where they are fewer; and once the limit is reached more
/// hits add none.
pub proof fn lemma_first_become_edges(
    hits: Seq<HitView>,
    source: Seq<char>,
    es: Seq<EntryView>,
    floor: u32,
    limit: usize,
    i: int,
)
    requires
        0 <= i <= hits.len(),
    ensures
        background::targets(hits, source, es, floor, limit).len() <= limit,
        background::targets(hits, source, es, floor, limit).len() < limit ==> selection::is_selection(
            hits,
            background::targets(hits, source, es, floor, limit),
            |h: HitView| may_become_edge(h, source, es, floor),
            |h: HitView| h,
        ),
        background::targets(hits.take(i), source, es, floor, limit).is_prefix_of(
            background::targets(hits, source, es, floor, limit),
        ),
        background::targets(hits.take(i), source, es, floor, limit).len() == limit ==> background::targets(
            hits,
            source,
            es,
            floor,
            limit,
        ) == background::targets(hits.take(i), source, es, floor, limit),
        i < hits.len() && background::targets(hits.take(i), source, es, floor, limit).len() < limit
            && may_become_edge(hits[i], source, es, floor) ==> background::targets(
            hits.take(i + 1),
            source,
            es,
            floor,
            limit,
        ) == background::targets(hits.take(i), source, es, floor, limit).push(hits[i]),
    decreases hits.len(),
{
    let keep = |h: HitView| may_become_edge(h, source, es, floor);
    let make = |h: HitView| h;
    let after = background::targets(hits, source, es, floor, limit);
    if i < hits.len() {
        let next = hits.take(i + 1);
        assert(next.drop_last() =~= hits.take(i));
        assert(next.last() == hits[i]);
        assert(crate::infer::leads_to(es, hits[i].id) <==> !infer_laws::none_leads_to(es, hits[i].id));
    }
    if hits.len() == 0 {
        assert(hits.take(i) =~= hits);
        selection::lemma_selection_empty(hits, after, keep, make);
    } else {
        let head = hits.drop_last();
        let before = background::targets(head, source, es, floor, limit);
        assert(crate::infer::leads_to(es, hits.last().id) <==> !infer_laws::none_leads_to(es, hits.last().id));
        if i < hits.len() {
            assert(head.take(i) =~= hits.take(i));
            lemma_first_become_edges(head, source, es, floor, limit, i);
        } else {
            assert(hits.take(i) =~= hits);
            lemma_first_become_edges(head, source, es, floor, limit, 0);
        }
        if after.len() < limit {
            selection::lemma_selection_grows(hits, before, after, keep, make);
        }
    }
}

/// A vector is computed again only where its representation is declared and has fields to
/// compute it from.
pub proof fn lemma_recomputable(schema: CollectionSchema, repr_index: u32)
    ensures
        background::recomputable(schema, repr_index) <==> (exists|i: int|
            i == repr_index && 0 <= i < schema.representations@.len() && (#[trigger] schema.representations@[i]).fields@.len()
                != 0),
{
    if background::recomputable(schema, repr_index) {
        assert(schema.representations@[repr_index as int].fields@.len() != 0);
    }
}

proof fn lemma_repr_place(reprs: Seq<StoredRepresentation>, name: Seq<char>)
    ensures
        match insert::repr_place(reprs, name) {
            Some(i) => 0 <= i < reprs.len() && reprs[i].name@ == name && forall|j: int|
                0 <= j < i ==> (#[trigger] reprs[j]).name@ != name,
            None => forall|j: int| 0 <= j < reprs.len() ==> (#[trigger] reprs[j]).name@ != name,
        },
    decreases reprs.len(),
{
    if reprs.len() > 0 {
        let head = reprs.drop_last();
        lemma_repr_place(head, name);
        assert(reprs[reprs.len() - 1] == reprs.last());
        assert forall|j: int| 0 <= j < head.len() implies head[j] == #[trigger] reprs[j] by {}
    }
}

/// Whether a vector fits a representation: it is sparse, or no dimensions are declared, or
/// it has as many as are.
pub open spec fn fits(v: VectorData, r: StoredRepresentation) -> bool {
    match v {
        VectorData::Sparse(_) => true,
        VectorData::Dense(d) => r.dimensions matches Some(n) ==> d@.len() == n,
    }
}

/// Whether a vector that an INSERT gives is accepted: its representation is declared, and it
/// fits the first of that name.
#[verifier::opaque]
pub open spec fn accepted(name: Seq<char>, v: VectorData, reprs: Seq<StoredRepresentation>) -> bool {
    exists|i: int|
        0 <= i < reprs.len() && (#[trigger] reprs[i]).name@ == name && fits(v, reprs[i]) && forall|j: int|
            0 <= j < i ==> (#[trigger] reprs[j]).name@ != name
}

proof fn lemma_vector_accepted(name: Seq<char>, v: VectorData, reprs: Seq<StoredRepresentation>, collection: Seq<char>)
    ensures
        insert::vector_fault(name, v, reprs, collection) is None <==> accepted(name, v, reprs),
{
    reveal(accepted);
    lemma_repr_place(reprs, name);
    if accepted(name, v, reprs) {
        let i = choose|i: int|
            0 <= i < reprs.len() && (#[trigger] reprs[i]).name@ == name && fits(v, reprs[i]) && forall|j: int|
                0 <= j < i ==> (#[trigger] reprs[j]).name@ != name;
        let k = insert::repr_place(reprs, name)->0;
        if k < i {
            assert(reprs[k].name@ != name);
        } else if i < k {
            assert(reprs[i].name@ != name);
        }
    }
}

/// Whether a vector is the first of an INSERT that is not accepted.
pub open spec fn first_refused(vs: Seq<(String, VectorData)>, reprs: Seq<StoredRepresentation>, i: int) -> bool {
    &&& 0 <= i < vs.len()
    &&& !accepted(vs[i].0@, vs[i].1, reprs)
    &&& forall|j: int| 0 <= j < i ==> accepted((#[trigger] vs[j]).0@, vs[j].1, reprs)
}

/// An INSERT is accepted exactly where its collection is known and each of its vectors is
/// accepted; otherwise the error is that of the first that is not.
pub proof fn lemma_insert_accepted(p: InsertPlan, schema: Option<&CollectionSchema>)
    ensures
        match schema {
            None => insert::insert_fault(p, schema) == Some(ErrorView::CollectionNotFound(p.collection@)),
            Some(s) => match insert::insert_fault(p, schema) {
                None => forall|i: int|
                    0 <= i < p.vectors@.len() ==> accepted(
                        (#[trigger] p.vectors@[i]).0@,
                        p.vectors@[i].1,
                        s.representations@,
                    ),
                Some(e) => exists|i: int| #[trigger]
                    first_refused(p.vectors@, s.representations@, i) && insert::vector_fault(
                        p.vectors@[i].0@,
                        p.vectors@[i].1,
                        s.representations@,
                        p.collection@,
                    ) == Some(e),
            },
        },
{
    if let Some(s) = schema {
        lemma_vectors_accepted(p.vectors@, s.representations@, p.collection@);
    }
}

proof fn lemma_vectors_accepted(
    vs: Seq<(String, VectorData)>,
    reprs: Seq<StoredRepresentation>,
    collection: Seq<char>,
)
    ensures
        match insert::vectors_fault(vs, reprs, collection) {
            None => forall|i: int| 0 <= i < vs.len() ==> accepted((#[trigger] vs[i]).0@, vs[i].1, reprs),
            Some(e) => exists|i: int| #[trigger]
                first_refused(vs, reprs, i) && insert::vector_fault(vs[i].0@, vs[i].1, reprs, collection) == Some(e),
        },
    decreases vs.len(),
{
    if vs.len() > 0 {
        let head = vs.drop_last();
        let n = head.len() as int;
        lemma_vectors_accepted(head, reprs, collection);
        assert(vs[n] == vs.last());
        lemma_vector_accepted(vs.last().0@, vs.last().1, reprs, collection);
        match insert::vectors_fault(head, reprs, collection) {
            None => {
                assert forall|i: int| 0 <= i < n implies accepted((#[trigger] vs[i]).0@, vs[i].1, reprs) by {
                    assert(head[i] == vs[i]);
                }
                if insert::vectors_fault(vs, reprs, collection) is Some {
                    assert(first_refused(vs, reprs, n));
                }
            },
            Some(e) => {
                let i = choose|i: int| #[trigger]
                    first_refused(head, reprs, i) && insert::vector_fault(head[i].0@, head[i].1, reprs, collection)
                        == Some(e);
                assert(vs[i] == head[i]);
                assert forall|j: int| 0 <= j < i implies accepted((#[trigger] vs[j]).0@, vs[j].1, reprs) by {
                    assert(head[j] == vs[j]);
                }
                assert(first_refused(vs, reprs, i));
            },
        }
    }
}

/// The id that an INSERT gives is the first text that stands under the name of the id.
pub proof fn lemma_given_id(fields: Seq<String>, values: Seq<Literal>, n: nat)
    requires
        n <= fields.len(),
        n <= values.len(),
    ensures
        match insert::given_id(fields, values, n) {
            Some(s) => exists|i: int| #[trigger] names_id(fields, values, i) && i < n && values[i]@ == Val::Str(s)
                && forall|j: int| 0 <= j < i ==> !#[trigger] names_id(fields, values, j),
            None => forall|i: int| 0 <= i < n ==> !#[trigger] names_id(fields, values, i),
        },
    decreases n,
{
    if n > 0 {
        lemma_given_id(fields, values, (n - 1) as nat);
        match insert::given_id(fields, values, (n - 1) as nat) {
            Some(s) => {
                let i = choose|i: int| #[trigger] names_id(fields, values, i) && i < n - 1 && values[i]@ == Val::Str(s)
                    && forall|j: int| 0 <= j < i ==> !#[trigger] names_id(fields, values, j);
                assert(names_id(fields, values, i) && i < n);
            },
            None => {
                if names_id(fields, values, n - 1) {
                    assert(names_id(fields, values, n - 1) && values[n - 1]@ == Val::Str(values[n - 1]->String_0@));
                }
            },
        }
    }
}

/// Whether the field at a place is the id and its value a text.
pub open spec fn names_id(fields: Seq<String>, values: Seq<Literal>, i: int) -> bool {
    0 <= i < fields.len() && fields[i]@ == "id"@ && values[i] is String
}

/// The representations of a new entity that are computed are exactly those that have fields,
/// some of them stored, and that no vector is given for, in order.
pub proof fn lemma_computed_places(reprs: Seq<StoredRepresentation>, given: Seq<Seq<char>>, m: Map<Seq<char>, Val>)
    ensures
        forall|i: int| #[trigger]
            insert::computed_places(reprs, given, m).contains(i) <==> 0 <= i < reprs.len() && !given.contains(
                reprs[i].name@,
            ) && exists|j: int| 0 <= j < reprs[i].fields@.len() && m.contains_key((#[trigger] reprs[i].fields@[j])@),
        forall|a: int, b: int|
            0 <= a < b < insert::computed_places(reprs, given, m).len() ==> #[trigger] insert::computed_places(
                reprs,
                given,
                m,
            )[a] < #[trigger] insert::computed_places(reprs, given, m)[b],
    decreases reprs.len(),
{
    let after = insert::computed_places(reprs, given, m);
    if reprs.len() > 0 {
        let head = reprs.drop_last();
        let n = head.len() as int;
        let before = insert::computed_places(head, given, m);
        lemma_computed_places(head, given, m);
        let r = reprs.last();
        assert(reprs[n] == r);
        let ns = text::views(r.fields@);
        assert(insert::some_stored(ns, m) <==> exists|j: int|
            0 <= j < r.fields@.len() && m.contains_key((#[trigger] r.fields@[j])@)) by {
            if insert::some_stored(ns, m) {
                let j = choose|j: int| 0 <= j < ns.len() && m.contains_key(#[trigger] ns[j]);
                assert(m.contains_key(r.fields@[j]@));
            }
            if exists|j: int| 0 <= j < r.fields@.len() && m.contains_key((#[trigger] r.fields@[j])@) {
                let j = choose|j: int| 0 <= j < r.fields@.len() && m.contains_key((#[trigger] r.fields@[j])@);
                assert(m.contains_key(ns[j]));
            }
        }
        assert forall|i: int| 0 <= i < before.len() implies before[i] < n by {
            assert(before.contains(before[i]));
        }
        assert forall|i: int| #[trigger] after.contains(i) <==> 0 <= i < reprs.len() && !given.contains(
            reprs[i].name@,
        ) && exists|j: int| 0 <= j < reprs[i].fields@.len() && m.contains_key((#[trigger] reprs[i].fields@[j])@) by {
            if 0 <= i < n {
                assert(head[i] == reprs[i]);
            }
            if before.contains(i) {
                let a = choose|a: int| 0 <= a < before.len() && before[a] == i;
                assert(after[a] == i);
            }
            if insert::computed(r, given, m) {
                assert(after[before.len() as int] == n);
            }
            if after.contains(i) && i != n {
                let a = choose|a: int| 0 <= a < after.len() && after[a] == i;
                assert(before[a] == i);
            }
            if after.contains(n) {
                let a = choose|a: int| 0 <= a < after.len() && after[a] == n;
                if a < before.len() {
                    assert(before[a] == n);
                }
            }
        }
        assert forall|a: int, b: int| 0 <= a < b < after.len() implies #[trigger] after[a] < #[trigger] after[b] by {
            assert(after[a] == before[a]);
            if b < before.len() {
                assert(after[b] == before[b]);
            }
        }
    }
}

/// A vector is computed from exactly the stored fields of its representation with their
/// values, in order.
pub proof fn lemma_encoded_fields(names: Seq<Seq<char>>, m: Map<Seq<char>, Val>)
    ensures
        selection::is_selection(
            names,
            insert::field_set(names, m),
            |k: Seq<char>| m.contains_key(k),
            |k: Seq<char>| (k, m[k]),
        ),
    decreases names.len(),
{
    let keep = |k: Seq<char>| m.contains_key(k);
    let make = |k: Seq<char>| (k, m[k]);
    let after = insert::field_set(names, m);
    if names.len() == 0 {
        selection::lemma_selection_empty(names, after, keep, make);
    } else {
        lemma_encoded_fields(names.drop_last(), m);
        selection::lemma_selection_grows(names, insert::field_set(names.drop_last(), m), after, keep, make);
    }
}

/// What an INSERT stores keeps each vector as it was given, under the name that it was given
/// for and in order, and not stale.
pub proof fn lemma_insert_keeps_vectors(
    e: Entity,
    p: InsertPlan,
    id: Seq<char>,
    hashes: Seq<Option<[u8; 32]>>,
    i: int,
)
    requires
        insert::is_inserted(e, p, id, hashes),
        0 <= i < p.vectors@.len(),
    ensures
        e.id@ == id,
        e.representations@.len() == p.vectors@.len(),
        e.representations@[i].name@ == p.vectors@[i].0@,
        e.representations@[i].vector.same(p.vectors@[i].1),
        e.representations@[i].state == ReprState::Clean,
        hashes[i] matches Some(h) ==> e.representations@[i].recipe_hash@ == h@,
{
    assert(insert::is_given(
        e.representations@[i],
        p.vectors@[i].0@,
        p.vectors@[i].1,
        p.fields@,
        hashes[i],
    ));
}

/// A new vector is stored on disk, current and in its first version, encoded as what it is.
pub proof fn lemma_placed(v: VectorData)
    ensures
        insert::placed(v).tier == Tier::Fjall,
        insert::placed(v).state == LocState::Clean,
        insert::placed(v).version == 1,
        v is Sparse ==> insert::placed(v).encoding == Encoding::Sparse,
        v is Dense ==> insert::placed(v).encoding == Encoding::Float32,
{
}

/// An UPDATE takes an entity out of an index by what its fields held and puts it in by what
/// they hold now, a field that is not stored being null; so a field that is not assigned to
/// stands the same on both sides.
pub proof fn lemma_index_change(
    c: IndexChange,
    name: Seq<char>,
    index: StoredIndex,
    m: Map<Seq<char>, Val>,
    a: Seq<(String, Literal)>,
    i: int,
)
    requires
        update::is_change(c, name, index, m, update::assigned(m, a)),
        0 <= i < index.fields@.len(),
    ensures
        c.key@ == name + ":"@ + index.name@,
        c.old_values@.len() == index.fields@.len(),
        c.new_values@.len() == index.fields@.len(),
        m.contains_key(index.fields@[i]@) ==> c.old_values@[i]@ == m[index.fields@[i]@],
        !m.contains_key(index.fields@[i]@) ==> c.old_values@[i]@ == Val::Null,
        !update::assigned_names(a).contains(index.fields@[i]@) ==> c.new_values@[i]@ == c.old_values@[i]@,
        forall|j: int|
            0 <= j < a.len() && (#[trigger] a[j]).0@ == index.fields@[i]@ && (forall|k: int|
                j < k < a.len() ==> (#[trigger] a[k]).0@ != index.fields@[i]@) ==> c.new_values@[i]@ == a[j].1@,
{
    let k = index.fields@[i]@;
    assert(c.old_values@[i]@ == update::value_or_null(m, k));
    assert(c.new_values@[i]@ == update::value_or_null(update::assigned(m, a), k));
    if !update::assigned_names(a).contains(k) {
        update::lemma_update_keeps_others(m, a, k);
    }
    assert forall|j: int|
        0 <= j < a.len() && (#[trigger] a[j]).0@ == k && (forall|l: int| j < l < a.len() ==> (#[trigger] a[l]).0@ != k)
        implies c.new_values@[i]@ == a[j].1@ by {
        update::lemma_update_assigns(m, a, j);
    }
}

proof fn lemma_first_repeat(names: Seq<Seq<char>>)
    ensures
        match collection::first_repeat(names) {
            Some(n) => exists|j: int| #[trigger] repeats(names, j) && names[j] == n && forall|i: int|
                0 <= i < j ==> !#[trigger] repeats(names, i),
            None => names.no_duplicates(),
        },
    decreases names.len(),
{
    if names.len() > 0 {
        let head = names.drop_last();
        let n = head.len() as int;
        lemma_first_repeat(head);
        assert(names[n] == names.last());
        assert forall|i: int| 0 <= i < n implies (#[trigger] repeats(names, i) <==> repeats(head, i)) by {
            assert(names.take(i) =~= head.take(i));
        }
        assert(names.take(n) =~= head);
        match collection::first_repeat(head) {
            Some(x) => {
                let j = choose|j: int| #[trigger] repeats(head, j) && head[j] == x && forall|i: int|
                    0 <= i < j ==> !#[trigger] repeats(head, i);
                assert(repeats(names, j));
            },
            None => {
                assert forall|i: int| 0 <= i < n implies !#[trigger] repeats(names, i) by {
                    if repeats(head, i) {
                        let a = choose|a: int| 0 <= a < head.take(i).len() && head.take(i)[a] == head[i];
                        assert(head[a] == head[i]);
                    }
                }
                if head.contains(names.last()) {
                    assert(repeats(names, n));
                } else {
                    assert forall|a: int, b: int| 0 <= a < b < names.len() implies names[a] != names[b] by {
                        assert(head[a] == names[a]);
                        if b < n {
                            assert(head[b] == names[b]);
                        }
                    }
                }
            },
        }
    }
}

/// Whether the item at a place already occurs before it.
pub open spec fn repeats(names: Seq<Seq<char>>, j: int) -> bool {
    0 <= j < names.len() && names.take(j).contains(names[j])
}

/// A CREATE COLLECTION is accepted exactly where no two representations, no two fields and no
/// two indexes have one name. Otherwise the error names what repeats first, representations
/// before fields and fields before indexes.
pub proof fn lemma_collection_accepted(p: CreateCollectionPlan)
    ensures
        ({
            let rs = collection::repr_names(p.representations@);
            let fs = collection::field_names(p.fields@);
            let is = collection::index_names(p.indexes@);
            match collection::refusal(p) {
                None => rs.no_duplicates() && fs.no_duplicates() && is.no_duplicates(),
                Some(ErrorView::DuplicateRepresentation(n)) => exists|j: int| #[trigger] repeats(rs, j) && rs[j] == n,
                Some(ErrorView::DuplicateField(n)) => rs.no_duplicates() && exists|j: int| #[trigger] repeats(fs, j)
                    && fs[j] == n,
                Some(ErrorView::DuplicateIndex(n)) => rs.no_duplicates() && fs.no_duplicates() && exists|j: int|
                    #[trigger] repeats(is, j) && is[j] == n,
                Some(_) => false,
            }
        }),
{
    lemma_first_repeat(collection::repr_names(p.representations@));
    lemma_first_repeat(collection::field_names(p.fields@));
    lemma_first_repeat(collection::index_names(p.indexes@));
}

/// The schema of a collection holds what was declared, clause by clause and in order.
pub proof fn lemma_declared(s: CollectionSchema, p: CreateCollectionPlan, i: int)
    requires
        collection::declared(s, p),
    ensures
        s.name@ == p.name@,
        s.representations@.len() == p.representations@.len(),
        s.fields@.len() == p.fields@.len(),
        s.indexes@.len() == p.indexes@.len(),
        0 <= i < p.representations@.len() ==> s.representations@[i].name@ == p.representations@[i].name@
            && s.representations@[i].dimensions == p.representations@[i].dimensions && s.representations@[i].sparse
            == p.representations@[i].sparse && s.representations@[i].fields@ == p.representations@[i].fields@
            && s.representations@[i].metric == p.representations@[i].metric && s.representations@[i].model
            == p.representations@[i].model,
        0 <= i < p.fields@.len() ==> s.fields@[i].name@ == p.fields@[i].name@ && s.fields@[i].field_type
            == p.fields@[i].field_type,
        0 <= i < p.indexes@.len() ==> s.indexes@[i].name@ == p.indexes@[i].name@ && s.indexes@[i].fields@
            == p.indexes@[i].fields@ && s.indexes@[i].partial_condition == p.indexes@[i].partial_condition,
{
}

/// A collection has a vector index for each representation with dimensions that is not
/// sparse, under the key made of its name and that of the representation, with those
/// dimensions; and a sparse index for each that is sparse. Both are in order.
pub proof fn lemma_collection_indexes(name: Seq<char>, reprs: Seq<StoredRepresentation>)
    ensures
        selection::is_selection(
            reprs,
            collection::dense_keys(name, reprs),
            |r: StoredRepresentation| r.dimensions is Some && !r.sparse,
            |r: StoredRepresentation| (name + ":"@ + r.name@, r.dimensions->0),
        ),
        selection::is_selection(
            reprs,
            collection::sparse_keys(name, reprs),
            |r: StoredRepresentation| r.sparse,
            |r: StoredRepresentation| name + ":"@ + r.name@,
        ),
    decreases reprs.len(),
{
    let dense = |r: StoredRepresentation| r.dimensions is Some && !r.sparse;
    let dense_key = |r: StoredRepresentation| (name + ":"@ + r.name@, r.dimensions->0);
    let sparse = |r: StoredRepresentation| r.sparse;
    let sparse_key = |r: StoredRepresentation| name + ":"@ + r.name@;
    let ds = collection::dense_keys(name, reprs);
    let ss = collection::sparse_keys(name, reprs);
    if reprs.len() == 0 {
        selection::lemma_selection_empty(reprs, ds, dense, dense_key);
        selection::lemma_selection_empty(reprs, ss, sparse, sparse_key);
    } else {
        let head = reprs.drop_last();
        lemma_collection_indexes(name, head);
        selection::lemma_selection_grows(reprs, collection::dense_keys(name, head), ds, dense, dense_key);
        selection::lemma_selection_grows(reprs, collection::sparse_keys(name, head), ss, sparse, sparse_key);
    }
}

/// Whether a name is that of a declared field of a type, the first of that name.
pub open spec fn field_declared(fields: Seq<StoredField>, name: Seq<char>, t: FieldType) -> bool {
    exists|i: int|
        0 <= i < fields.len() && (#[trigger] fields[i]).name@ == name && fields[i].field_type == t && forall|j: int|
            0 <= j < i ==> (#[trigger] fields[j]).name@ != name
}

/// The fields of an index are exactly those of its names that are declared, in order, each
/// with its declared type.
pub proof fn lemma_index_fields(fields: Seq<StoredField>, names: Seq<Seq<char>>)
    ensures
        selection::is_selection(
            names,
            collection::typed_fields(fields, names),
            |n: Seq<char>| collection::field_place(fields, n) is Some,
            |n: Seq<char>| (n, fields[collection::field_place(fields, n)->0].field_type),
        ),
        forall|i: int|
            0 <= i < names.len() ==> (collection::field_place(fields, #[trigger] names[i]) is Some <==> exists|j: int|
                0 <= j < fields.len() && (#[trigger] fields[j]).name@ == names[i]),
        forall|i: int|
            0 <= i < names.len() && collection::field_place(fields, #[trigger] names[i]) is Some ==> field_declared(
                fields,
                names[i],
                fields[collection::field_place(fields, names[i])->0].field_type,
            ),
    decreases names.len(),
{
    let keep = |n: Seq<char>| collection::field_place(fields, n) is Some;
    let make = |n: Seq<char>| (n, fields[collection::field_place(fields, n)->0].field_type);
    let after = collection::typed_fields(fields, names);
    if names.len() == 0 {
        selection::lemma_selection_empty(names, after, keep, make);
    } else {
        lemma_index_fields(fields, names.drop_last());
        selection::lemma_selection_grows(
            names,
            collection::typed_fields(fields, names.drop_last()),
            after,
            keep,
            make,
        );
    }
    assert forall|i: int| 0 <= i < names.len() implies (collection::field_place(fields, #[trigger] names[i]) is Some
        <==> exists|j: int| 0 <= j < fields.len() && (#[trigger] fields[j]).name@ == names[i]) && (
    collection::field_place(fields, names[i]) is Some ==> field_declared(
        fields,
        names[i],
        fields[collection::field_place(fields, names[i])->0].field_type,
    )) by {
        lemma_field_place(fields, names[i]);
    }
}

proof fn lemma_field_place(fields: Seq<StoredField>, name: Seq<char>)
    ensures
        match collection::field_place(fields, name) {
            Some(i) => 0 <= i < fields.len() && fields[i].name@ == name && forall|j: int|
                0 <= j < i ==> (#[trigger] fields[j]).name@ != name,
            None => forall|j: int| 0 <= j < fields.len() ==> (#[trigger] fields[j]).name@ != name,
        },
    decreases fields.len(),
{
    if fields.len() > 0 {
        let head = fields.drop_last();
        lemma_field_place(head, name);
        assert(fields[fields.len() - 1] == fields.last());
        assert forall|j: int| 0 <= j < head.len() implies head[j] == #[trigger] fields[j] by {}
    }
}

/// Dropping a collection keeps exactly the index keys that do not begin with its name and a
/// colon.
pub proof fn lemma_keys_outside(name: Seq<char>, key: Seq<char>)
    ensures
        collection::outside(name)(key) <==> !text::has_prefix(key, name + ":"@),
        !collection::outside(name)(name + ":"@ + key),
{
    let k = name + ":"@ + key;
    let p = name + ":"@;
    assert(k.subrange(0, p.len() as int) =~= p);
}

/// The edge that an INSERT EDGE gives joins the entities that it names, is certain, never
/// decays by being inferred, dates from now and holds the fields given.
pub proof fn lemma_edge_given(p: InsertEdgePlan, now: u64, i: int)
    requires
        0 <= i < p.metadata@.len(),
        forall|j: int| i < j < p.metadata@.len() ==> (#[trigger] p.metadata@[j]).0@ != p.metadata@[i].0@,
    ensures
        graph::edge_given(p, now).from_id == p.from_id@,
        graph::edge_given(p, now).to_id == p.to_id@,
        graph::edge_given(p, now).edge_type == p.edge_type@,
        graph::edge_given(p, now).confidence == 0x3f80_0000u32,
        graph::edge_given(p, now).created_at == now,
        graph::edge_given(p, now).source == EdgeSource::StructuralEdge,
        graph::edge_given(p, now).metadata.contains_key(p.metadata@[i].0@),
        graph::edge_given(p, now).metadata[p.metadata@[i].0@] == p.metadata@[i].1@,
{
    update::lemma_update_assigns(Map::empty(), p.metadata@, i);
}

/// Filling an index adds, to the edges of a type from a source, exactly the stored edges of
/// that type from that source, each as it is stored and in order.
pub proof fn lemma_index_filled(v: AdjView, es: Seq<Edge>, k: EdgeKey)
    ensures
        edge::list_at(v.forward, k).is_prefix_of(edge::list_at(graph::with_edges(v, es).forward, k)),
        selection::is_selection(
            es,
            edge::list_at(graph::with_edges(v, es).forward, k).skip(edge::list_at(v.forward, k).len() as int),
            |e: Edge| e.from_id@ == k.0 && e.edge_type@ == k.1,
            |e: Edge|
                EntryView { to_id: e.to_id@, confidence: e.confidence, created_at: e.created_at, source: e.source },
        ),
    decreases es.len(),
{
    let keep = |e: Edge| e.from_id@ == k.0 && e.edge_type@ == k.1;
    let make = |e: Edge|
        EntryView { to_id: e.to_id@, confidence: e.confidence, created_at: e.created_at, source: e.source };
    let n = edge::list_at(v.forward, k).len() as int;
    let after = edge::list_at(graph::with_edges(v, es).forward, k);
    if es.len() == 0 {
        selection::lemma_selection_empty(es, after.skip(n), keep, make);
    } else {
        let head = es.drop_last();
        lemma_index_filled(v, head, k);
        let before = edge::list_at(graph::with_edges(v, head).forward, k);
        let e = es.last();
        if keep(e) {
            assert(after =~= before.push(make(e)));
            assert(after.skip(n) =~= before.skip(n).push(make(e)));
        } else {
            assert((e.from_id@, e.edge_type@) != k);
            assert(after =~= before);
        }
        selection::lemma_selection_grows(es, before.skip(n), after.skip(n), keep, make);
    }
}

/// What a CONFIRM EDGE gives joins the entities that it names with the confidence that it
/// gives. It dates from now, unless the edge was confirmed before: then from when it was.
pub proof fn lemma_confirmed_edge(p: ConfirmPlan, existing: Option<EdgeView>, now: u64)
    ensures
        confirm::confirmed(p, existing, now) matches Ok(e) ==> {
            &&& e.from_id == p.from_id@
            &&& e.to_id == p.to_id@
            &&& e.edge_type == p.edge_type@
            &&& e.confidence == p.confidence
            &&& e.source == EdgeSource::Confirmed
            &&& existing is None ==> e.created_at == now && e.metadata == Map::<Seq<char>, Val>::empty()
            &&& existing matches Some(was) ==> e.metadata == was.metadata
            &&& existing matches Some(was) ==> (was.source == EdgeSource::Inferred ==> e.created_at == now)
            &&& existing matches Some(was) ==> (was.source == EdgeSource::Confirmed ==> e.created_at
                == was.created_at)
        },
        existing is None ==> confirm::confirmed(p, existing, now) is Ok,
        existing matches Some(was) ==> (was.source != EdgeSource::StructuralEdge ==> confirm::confirmed(
            p,
            existing,
            now,
        ) is Ok),
{
}

/// The inferences of an entity come out newest first: exactly those that were recorded for
/// it, in the order opposite to that in which they were.
pub proof fn lemma_history_newest_first(s: Seq<AuditView>, id: Seq<char>)
    ensures
        selection::is_selection(
            s,
            inference::newest_of(s, id).reverse(),
            |e: AuditView| e.source_entity == id,
            |e: AuditView| e,
        ),
    decreases s.len(),
{
    let keep = |e: AuditView| e.source_entity == id;
    let make = |e: AuditView| e;
    let after = inference::newest_of(s, id);
    if s.len() == 0 {
        selection::lemma_selection_empty(s, after.reverse(), keep, make);
    } else {
        let before = inference::newest_of(s.drop_last(), id);
        lemma_history_newest_first(s.drop_last(), id);
        if keep(s.last()) {
            assert(after.reverse() =~= before.reverse().push(s.last()));
        }
        selection::lemma_selection_grows(s, before.reverse(), after.reverse(), keep, make);
    }
}

/// Recording an inference puts it last. The others stay in their order, all of them where
/// there is room, and all but the oldest where there is not.
pub proof fn lemma_recorded_last(s: Seq<AuditView>, e: AuditView, capacity: nat)
    ensures
        inference::recorded(s, e, capacity).len() > 0,
        inference::recorded(s, e, capacity).last() == e,
        s.len() < capacity ==> inference::recorded(s, e, capacity).drop_last() == s,
        s.len() >= capacity && s.len() > 0 ==> inference::recorded(s, e, capacity).drop_last() == s.drop_first(),
{
    if s.len() >= capacity && s.len() > 0 {
        assert(s.skip(1).push(e).drop_last() =~= s.drop_first());
    } else {
        assert(s.push(e).drop_last() =~= s);
    }
}

/// The row of an inference says when it was, of which entity, along which type, how much it
/// looked at, how much of that was good enough, and what set it off.
pub proof fn lemma_history_row(e: AuditView)
    ensures
        ({
            let v = inference::history_row(e).values;
            &&& v["timestamp"@] == Val::Int(e.timestamp as i64)
            &&& v["entity_id"@] == Val::Str(e.source_entity)
            &&& v["edge_type"@] == Val::Str(e.edge_type)
            &&& v["candidates_evaluated"@] == Val::Int(e.candidates_evaluated as i64)
            &&& v["candidates_above_threshold"@] == Val::Int(e.candidates_above_threshold as i64)
            &&& v["trigger"@] == Val::Str(e.trigger.text())
            &&& forall|k: Seq<char>| v.contains_key(k) <==> inference::history_columns().contains(k)
        }),
{
    reveal_strlit("timestamp");
    reveal_strlit("entity_id");
    reveal_strlit("edge_type");
    reveal_strlit("candidates_evaluated");
    reveal_strlit("candidates_above_threshold");
    reveal_strlit("trigger");
    let cs = inference::history_columns();
    assert("timestamp"@[0] == 't' && "entity_id"@[0] == 'e' && "edge_type"@[0] == 'e' && "trigger"@[0] == 't');
    assert("timestamp"@.len() != "trigger"@.len());
    assert("entity_id"@[1] == 'n' && "edge_type"@[1] == 'd');
    assert("candidates_evaluated"@.len() != "candidates_above_threshold"@.len());
    assert("candidates_evaluated"@[0] == 'c' && "candidates_above_threshold"@[0] == 'c');
    let v = inference::history_row(e).values;
    assert forall|k: Seq<char>| v.contains_key(k) <==> cs.contains(k) by {
        assert(cs[0] == "timestamp"@ && cs[1] == "entity_id"@ && cs[2] == "edge_type"@ && cs[3]
            == "candidates_evaluated"@ && cs[4] == "candidates_above_threshold"@ && cs[5] == "trigger"@);
        if cs.contains(k) {
            let i = choose|i: int| 0 <= i < cs.len() && cs[i] == k;
        }
    }
}

/// A vector has a recipe exactly where the first representation of its name is computed from
/// fields. Its model is the one of the collection, where that names one.
pub proof fn lemma_recipe_model(schema: CollectionSchema, name: Seq<char>, i: int)
    requires
        0 <= i < schema.representations@.len(),
        schema.representations@[i].name@ == name,
        forall|j: int| 0 <= j < i ==> (#[trigger] schema.representations@[j]).name@ != name,
    ensures
        insert::recipe_model(schema, name) is Some <==> schema.representations@[i].fields@.len() > 0,
        schema.representations@[i].fields@.len() > 0 ==> {
            &&& schema.vectoriser_config matches Some(c) ==> (c.model matches Some(m) ==> insert::recipe_model(
                schema,
                name,
            ) == Some(m@))
            &&& schema.vectoriser_config is None || schema.vectoriser_config->0.model is None ==> insert::recipe_model(
                schema,
                name,
            ) == Some("unknown"@)
        },
{
    lemma_repr_place(schema.representations@, name);
    let k = insert::repr_place(schema.representations@, name)->0;
    if k < i {
        assert(schema.representations@[k].name@ != name);
    } else if i < k {
        assert(schema.representations@[i].name@ != name);
    }
}

/// Whether a field that a representation is computed from is among the names.
pub open spec fn computed_from(r: StoredRepresentation, names: Seq<Seq<char>>) -> bool {
    exists|f: int, n: int|
        0 <= f < r.fields@.len() && 0 <= n < names.len() && (#[trigger] r.fields@[f])@ == #[trigger] names[n]
}

/// The representations that an UPDATE makes stale are those that are computed from a field
/// it sets, in the order of their places.
pub proof fn lemma_stale_in_order(reprs: Seq<StoredRepresentation>, names: Seq<Seq<char>>)
    ensures
        forall|i: int|
            0 <= i < reprs.len() ==> (#[trigger] update::stale_places(reprs, names).contains(i) <==> computed_from(
                reprs[i],
                names,
            )),
        forall|a: int| 0 <= a < update::stale_places(reprs, names).len() ==> 0 <= #[trigger] update::stale_places(
            reprs,
            names,
        )[a] < reprs.len(),
        forall|a: int, b: int|
            0 <= a < b < update::stale_places(reprs, names).len() ==> #[trigger] update::stale_places(reprs, names)[a]
                < #[trigger] update::stale_places(reprs, names)[b],
    decreases reprs.len(),
{
    if reprs.len() > 0 {
        let before = update::stale_places(reprs.drop_last(), names);
        let after = update::stale_places(reprs, names);
        lemma_stale_in_order(reprs.drop_last(), names);
        lemma_computed_from(reprs.last(), names);
        assert forall|i: int| 0 <= i < reprs.len() implies (#[trigger] after.contains(i) <==> computed_from(
            reprs[i],
            names,
        )) by {
            if i < reprs.len() - 1 {
                assert(reprs.drop_last()[i] == reprs[i]);
                assert(before.contains(i) <==> computed_from(reprs[i], names));
                if before.contains(i) {
                    let a = choose|a: int| 0 <= a < before.len() && before[a] == i;
                    assert(after[a] == i);
                }
                if after.contains(i) {
                    let a = choose|a: int| 0 <= a < after.len() && after[a] == i;
                    assert(before[a] == i);
                }
            } else if computed_from(reprs[i], names) {
                assert(after[after.len() - 1] == i);
            } else if after.contains(i) {
                let a = choose|a: int| 0 <= a < after.len() && after[a] == i;
                assert(before[a] == i);
            }
        }
        assert forall|a: int| 0 <= a < after.len() implies 0 <= #[trigger] after[a] < reprs.len() by {
            if a < before.len() {
                assert(after[a] == before[a]);
            }
        }
        assert forall|a: int, b: int| 0 <= a < b < after.len() implies #[trigger] after[a] < #[trigger] after[b] by {
            assert(after[a] == before[a]);
            if b < before.len() {
                assert(after[b] == before[b]);
            }
        }
    }
}

proof fn lemma_computed_from(r: StoredRepresentation, names: Seq<Seq<char>>)
    ensures
        update::depends_on(r, names) <==> computed_from(r, names),
{
    if update::depends_on(r, names) {
        let f = choose|f: int| 0 <= f < r.fields@.len() && names.contains((#[trigger] r.fields@[f])@);
        let n = choose|n: int| 0 <= n < names.len() && names[n] == r.fields@[f]@;
        assert(r.fields@[f]@ == names[n]);
    }
    if computed_from(r, names) {
        let (f, n) = choose|f: int, n: int|
            0 <= f < r.fields@.len() && 0 <= n < names.len() && (#[trigger] r.fields@[f])@ == #[trigger] names[n];
        assert(names.contains(r.fields@[f]@));
    }
}

/// A vector that is computed again keeps its name, its kind, its fields, its age and its model;
/// it has the new vector and the hash of its recipe, and is clean.
pub proof fn lemma_refreshed(r: Representation, was: Representation, v: VectorData, hash: [u8; 32])
    requires
        background::is_refreshed(r, was, v, hash),
    ensures
        r.name@ == was.name@,
        r.repr_type == was.repr_type,
        text::views(r.fields@) == text::views(was.fields@),
        r.vector == v,
        r.recipe_hash == hash,
        r.state == ReprState::Clean,
        r.computed_at == was.computed_at,
        r.model_version@ == was.model_version@,
{
}

/// Whether CONFIRM EDGE found no edge, one that was inferred, or another.
pub open spec fn found(existing: Option<EdgeView>) -> int {
    match existing {
        None => 0,
        Some(e) => if e.source == EdgeSource::Inferred {
            1
        } else {
            2
        },
    }
}

/// What CONFIRM EDGE answers tells apart whether the edge is new, was inferred or was there
/// already.
pub proof fn lemma_confirm_tells(p: ConfirmPlan, a: Option<EdgeView>, b: Option<EdgeView>)
    ensures
        confirm::confirm_message(p, a) == confirm::confirm_message(p, b) <==> found(a) == found(b),
        text::has_prefix(confirm::confirm_message(p, a), "Edge '"@ + p.edge_type@ + "' re-confirmed: "@) <==> found(a)
            == 2,
{
    let head = "Edge '"@ + p.edge_type@;
    let x = confirm::confirm_message(p, a);
    let y = confirm::confirm_message(p, b);
    let n: int = head.len() as int;
    let m: int = n + "' confirmed: "@.len() + confirm::named(p).len();
    reveal_strlit("' confirmed: ");
    reveal_strlit("' re-confirmed: ");
    reveal_strlit(" (new Confirmed edge at ");
    reveal_strlit(" (was Inferred, now Confirmed at ");
    let q = head + "' re-confirmed: "@;
    assert(found(a) == 2 ==> x[n + 2] == 'r');
    assert(found(b) == 2 ==> y[n + 2] == 'r');
    assert(found(a) != 2 ==> x[n + 2] == 'c');
    assert(found(b) != 2 ==> y[n + 2] == 'c');
    assert(found(a) == 0 ==> x[m + 2] == 'n');
    assert(found(b) == 0 ==> y[m + 2] == 'n');
    assert(found(a) == 1 ==> x[m + 2] == 'w');
    assert(found(b) == 1 ==> y[m + 2] == 'w');
    assert(q[n + 2] == 'r');
    if found(a) == 2 {
        assert(x.subrange(0, q.len() as int) =~= q);
    }
    if text::has_prefix(x, q) {
        assert(x.subrange(0, q.len() as int)[n + 2] == x[n + 2]);
    }
}

} // verus!
