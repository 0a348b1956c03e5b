//! The work that runs beside queries: inferring edges for entities that changed,
//! pruning inferred edges that decayed, and computing stale vectors again.

use vstd::prelude::*;
use vstd::string::*;

use crate::edge;
use crate::edge::{AdjEntry, Edge, EdgeSource, EdgeType, EdgeView, EntryView};
use crate::error::{EngineError, ErrorView};
use crate::fields::FieldMap;
use crate::float_bits;
use crate::float_bits::single_less;
use crate::infer;
use crate::infer::leads;
use crate::journal;
use crate::journal::Statement;
use crate::location::{LocState, ReprKeyView};
use crate::replay;
use crate::replay::ReplayAction;
use crate::search;
use crate::search::{Hit, HitView};
use crate::text;
use crate::text::{own, text_equal};
use crate::types::{clone_reprs, CollectionSchema, Entity, ReprState, Representation, VectorData};
use crate::value::{ids_equal, LogicalId};

verus! {

/// The edge types along which edges are inferred for entities of a collection when
/// they change.
pub open spec fn auto_types(types: Seq<EdgeType>, collection: Seq<char>) -> Seq<EdgeType>
    decreases types.len(),
{
    if types.len() == 0 {
        Seq::empty()
    } else {
        let before = auto_types(types.drop_last(), collection);
        let t = types.last();
        if t.from_collection@ == collection && t.inference_config.auto {
            before.push(t)
        } else {
            before
        }
    }
}

/// The edge types along which edges are inferred for entities of a collection when
/// they change.
pub fn types_to_infer(types: &Vec<EdgeType>, collection: &str) -> (r: Vec<EdgeType>)
    ensures
        r@ == auto_types(types@, collection@),
{
    let mut r: Vec<EdgeType> = Vec::new();
    let ghost all = types@;
    let mut i: usize = 0;
    proof {
        assert(r@ =~= auto_types(all.subrange(0, 0), collection@));
    }
    while i < types.len()
        invariant
            i <= types.len(),
            all == types@,
            r@ == auto_types(all.subrange(0, i as int), collection@),
        decreases types.len() - i,
    {
        proof {
            let next = all.subrange(0, i as int + 1);
            assert(next.drop_last() =~= all.subrange(0, i as int));
            assert(next.last() == all[i as int]);
        }
        if text_equal(types[i].from_collection.as_str(), collection) && types[i].inference_config.auto {
            r.push(types[i].clone());
        }
        i += 1;
    }
    assert(all.subrange(0, all.len() as int) =~= all);
    r
}

/// Whether a hit becomes an edge: its score is not below the floor, it is not the
/// source, and no edge of the type leads to it yet.
pub open spec fn taken(h: HitView, source: Seq<char>, es: Seq<EntryView>, floor: u32) -> bool {
    &&& !float_bits::f32_lt(h.score, floor)
    &&& h.id != source
    &&& !infer::leads_to(es, h.id)
}

/// The hits that become edges: the first that may, as many as the limit.
pub open spec fn targets(
    hits: Seq<HitView>,
    source: Seq<char>,
    es: Seq<EntryView>,
    floor: u32,
    limit: usize,
) -> Seq<HitView>
    decreases hits.len(),
{
    if hits.len() == 0 {
        Seq::empty()
    } else {
        let before = targets(hits.drop_last(), source, es, floor, limit);
        if before.len() < limit && taken(hits.last(), source, es, floor) {
            before.push(hits.last())
        } else {
            before
        }
    }
}

proof fn lemma_targets_done(
    hits: Seq<HitView>,
    source: Seq<char>,
    es: Seq<EntryView>,
    floor: u32,
    limit: usize,
    i: int,
)
    requires
        0 <= i <= hits.len(),
        targets(hits.subrange(0, i), source, es, floor, limit).len() >= limit,
    ensures
        targets(hits, source, es, floor, limit) == targets(hits.subrange(0, i), source, es, floor, limit),
    decreases hits.len() - i,
{
    if i < hits.len() {
        assert(hits.subrange(0, i + 1).drop_last() =~= hits.subrange(0, i));
        lemma_targets_done(hits, source, es, floor, limit, i + 1);
    } else {
        assert(hits.subrange(0, i) =~= hits);
    }
}

/// The hits that become edges of a type from an entity, given what the vector index
/// found and the edges of the type that there are.
pub fn edges_to_infer(entity_id: &LogicalId, t: &EdgeType, hits: &Vec<Hit>, existing: &Vec<AdjEntry>) -> (r: Vec<Hit>)
    ensures
        search::hit_views(r@) == targets(
            search::hit_views(hits@),
            entity_id@,
            edge::entry_views(existing@),
            t.inference_config.confidence_floor,
            t.inference_config.limit,
        ),
{
    let ghost all = search::hit_views(hits@);
    let ghost evs = edge::entry_views(existing@);
    let floor = t.inference_config.confidence_floor;
    let limit = t.inference_config.limit;
    let mut r: Vec<Hit> = Vec::new();
    let mut i: usize = 0;
    proof {
        assert(search::hit_views(r@) =~= targets(all.subrange(0, 0), entity_id@, evs, floor, limit));
    }
    while i < hits.len()
        invariant
            i <= hits.len(),
            all == search::hit_views(hits@),
            evs == edge::entry_views(existing@),
            floor == t.inference_config.confidence_floor,
            limit == t.inference_config.limit,
            search::hit_views(r@) == targets(all.subrange(0, i as int), entity_id@, evs, floor, limit),
        decreases hits.len() - i,
    {
        let ghost before = search::hit_views(r@);
        if r.len() >= limit {
            proof {
                lemma_targets_done(all, entity_id@, evs, floor, limit, i as int);
            }
            return r;
        }
        proof {
            let next = all.subrange(0, i as int + 1);
            assert(next.drop_last() =~= all.subrange(0, i as int));
            assert(next.last() == hits@[i as int]@);
        }
        let h = &hits[i];
        if !single_less(h.score, floor) && !ids_equal(&h.id, entity_id) && !leads(existing, &h.id) {
            r.push(h.clone());
            proof {
                assert(search::hit_views(r@) =~= before.push(hits@[i as int]@));
            }
        }
        i += 1;
    }
    assert(all.subrange(0, all.len() as int) =~= all);
    r
}

/// The edge that a hit becomes.
pub fn inferred_edge(entity_id: &LogicalId, edge_type: &str, hit: &Hit, now_millis: u64) -> (e: Edge)
    ensures
        e@ == (EdgeView {
            from_id: entity_id@,
            to_id: hit.id@,
            edge_type: edge_type@,
            confidence: hit.score,
            metadata: Map::empty(),
            created_at: now_millis,
            source: EdgeSource::Inferred,
        }),
{
    Edge {
        from_id: entity_id.clone(),
        to_id: hit.id.clone(),
        edge_type: own(edge_type),
        confidence: hit.score,
        metadata: FieldMap::new(),
        created_at: now_millis,
        source: EdgeSource::Inferred,
    }
}

/// No edge is inferred from an entity to itself, to where one leads already, or below
/// the floor, and never more than the limit.
pub proof fn lemma_inferred_sound(hits: Seq<HitView>, source: Seq<char>, es: Seq<EntryView>, floor: u32, limit: usize)
    ensures
        targets(hits, source, es, floor, limit).len() <= limit,
        forall|i: int|
            0 <= i < targets(hits, source, es, floor, limit).len() ==> taken(
                #[trigger] targets(hits, source, es, floor, limit)[i],
                source,
                es,
                floor,
            ),
    decreases hits.len(),
{
    if hits.len() > 0 {
        lemma_inferred_sound(hits.drop_last(), source, es, floor, limit);
    }
}

/// Whether a decayed edge is pruned: only an inferred one is, once its effective
/// confidence is below the threshold.
pub open spec fn pruned(source: EdgeSource, effective: u32, threshold: u32) -> bool {
    source == EdgeSource::Inferred && float_bits::f32_lt(effective, threshold)
}

/// Whether a decayed edge is pruned.
pub fn is_pruned(e: &Edge, effective: u32, threshold: u32) -> (b: bool)
    ensures
        b == pruned(e.source, effective, threshold),
{
    match e.source {
        EdgeSource::Inferred => single_less(effective, threshold),
        _ => false,
    }
}

/// An edge that was given or confirmed is never pruned, however far it decays.
pub proof fn lemma_permanent_edges_stay(source: EdgeSource, effective: u32, threshold: u32)
    requires
        source != EdgeSource::Inferred,
    ensures
        !pruned(source, effective, threshold),
{
}

/// The error of an entity that no collection is known for.
pub fn find_collection_for_entity(entity_id: &LogicalId, known: Option<&String>) -> (r: Result<String, EngineError>)
    ensures
        match r {
            Ok(c) => known is Some && c@ == known->0@,
            Err(e) => known is None && e@ == ErrorView::EntityNotFound(entity_id@),
        },
{
    match known {
        Some(c) => Ok(c.clone()),
        None => Err(EngineError::EntityNotFound(own(entity_id.as_str()))),
    }
}

/// Whether the representation of a vector is declared, and computed from fields.
pub open spec fn recomputable(schema: CollectionSchema, repr_index: u32) -> bool {
    repr_index < schema.representations@.len() && schema.representations@[repr_index as int].fields@.len() > 0
}

/// Whether the representation of a vector is declared, and computed from fields.
pub fn is_recomputable(schema: &CollectionSchema, repr_index: u32) -> (b: bool)
    ensures
        b == recomputable(*schema, repr_index),
{
    let i = repr_index as usize;
    if i >= schema.representations.len() {
        return false;
    }
    schema.representations[i].fields.len() > 0
}

/// Whether a representation is another one computed again.
pub open spec fn is_refreshed(r: Representation, was: Representation, v: VectorData, hash: [u8; 32]) -> bool {
    &&& r.name@ == was.name@
    &&& r.repr_type == was.repr_type
    &&& text::views(r.fields@) == text::views(was.fields@)
    &&& r.vector == v
    &&& r.recipe_hash == hash
    &&& r.state == ReprState::Clean
    &&& r.computed_at == was.computed_at
    &&& r.model_version@ == was.model_version@
}

/// The entity with a vector computed again. Nothing else of it changes, and nothing at
/// all where it has no such vector.
pub fn recomputed(entity: &Entity, repr_index: u32, vector: VectorData, recipe_hash: [u8; 32]) -> (r: Entity)
    ensures
        r.id@ == entity.id@,
        r.metadata@ == entity.metadata@,
        r.representations@.len() == entity.representations@.len(),
        forall|i: int|
            0 <= i < r.representations@.len() ==> if i == repr_index {
                is_refreshed(#[trigger] r.representations@[i], entity.representations@[i], vector, recipe_hash)
            } else {
                r.representations@[i].same(entity.representations@[i])
            },
{
    let i = repr_index as usize;
    let mut representations = clone_reprs(&entity.representations);
    let ghost copied = representations@;
    if i < representations.len() {
        let was = representations[i].clone();
        let fresh = Representation {
            name: was.name,
            repr_type: was.repr_type,
            fields: was.fields,
            vector,
            recipe_hash,
            state: ReprState::Clean,
            computed_at: was.computed_at,
            model_version: was.model_version,
        };
        assert(copied[i as int].same(entity.representations@[i as int]));
        representations.set(i, fresh);
    }
    Entity { id: entity.id.clone(), metadata: entity.metadata.clone(), representations }
}

/// Whether a stale vector is computed again: the collection of its entity is known, the
/// entity is stored, its representation is computed from fields, and there is something
/// to compute it with.
pub fn is_recomputed(
    stored: bool,
    schema: Option<&CollectionSchema>,
    repr_index: u32,
    has_vectoriser: bool,
) -> (b: bool)
    ensures
        b == (stored && has_vectoriser && match schema {
            Some(s) => recomputable(*s, repr_index),
            None => false,
        }),
{
    match schema {
        Some(s) => stored && has_vectoriser && is_recomputable(s, repr_index),
        None => false,
    }
}

/// The states of vectors after a round of recomputation over stale ones: each that is due
/// is taken up and written, and no other is touched.
pub open spec fn round(
    states: Map<ReprKeyView, LocState>,
    keys: Seq<ReprKeyView>,
    due: spec_fn(ReprKeyView) -> bool,
) -> Map<ReprKeyView, LocState>
    decreases keys.len(),
{
    if keys.len() == 0 {
        states
    } else {
        let before = round(states, keys.drop_last(), due);
        let k = keys.last();
        if due(k) {
            before.insert(
                k,
                replay::moved_to(
                    LocState::Recomputing,
                    journal::effects_of(Statement::Recompute(k.repr_index)),
                ),
            )
        } else {
            before
        }
    }
}

/// How many vectors a round of recomputation computes.
pub open spec fn round_count(keys: Seq<ReprKeyView>, due: spec_fn(ReprKeyView) -> bool) -> nat
    decreases keys.len(),
{
    if keys.len() == 0 {
        0
    } else {
        round_count(keys.drop_last(), due) + if due(keys.last()) {
            1nat
        } else {
            0nat
        }
    }
}

/// Whether keys are those of the stale vectors, each once.
pub open spec fn lists_dirty(keys: Seq<ReprKeyView>, states: Map<ReprKeyView, LocState>) -> bool {
    &&& keys.no_duplicates()
    &&& forall|k: ReprKeyView| #[trigger] keys.contains(k) <==> states.contains_key(k) && states[k] == LocState::Dirty
}

proof fn lemma_round_states(
    states: Map<ReprKeyView, LocState>,
    keys: Seq<ReprKeyView>,
    due: spec_fn(ReprKeyView) -> bool,
)
    requires
        forall|i: int| 0 <= i < keys.len() ==> states.contains_key(#[trigger] keys[i]),
    ensures
        round(states, keys, due).dom() == states.dom(),
        forall|k: ReprKeyView| #[trigger]
            states.contains_key(k) ==> round(states, keys, due)[k] == (if keys.contains(k) && due(k) {
                LocState::Clean
            } else {
                states[k]
            }),
    decreases keys.len(),
{
    if keys.len() > 0 {
        let head = keys.drop_last();
        let last = keys.last();
        assert(keys[keys.len() - 1] == last);
        assert forall|i: int| 0 <= i < head.len() implies states.contains_key(#[trigger] head[i]) by {
            assert(head[i] == keys[i]);
        }
        lemma_round_states(states, head, due);
        let es = journal::effects_of(Statement::Recompute(last.repr_index));
        assert(es.last() == ReplayAction::Transition(last.repr_index, LocState::Clean));
        assert(round(states, keys, due).dom() =~= states.dom());
        assert forall|k: ReprKeyView| #[trigger] states.contains_key(k) implies round(states, keys, due)[k] == (
        if keys.contains(k) && due(k) {
            LocState::Clean
        } else {
            states[k]
        }) by {
            if head.contains(k) {
                let i = choose|i: int| 0 <= i < head.len() && head[i] == k;
                assert(keys[i] == k);
            }
            if keys.contains(k) && k != last {
                let i = choose|i: int| 0 <= i < keys.len() && keys[i] == k;
                assert(head[i] == k);
            }
        }
    }
}

proof fn lemma_round_count(keys: Seq<ReprKeyView>, due: spec_fn(ReprKeyView) -> bool)
    requires
        keys.no_duplicates(),
    ensures
        keys.to_set().filter(due).finite(),
        round_count(keys, due) == keys.to_set().filter(due).len(),
    decreases keys.len(),
{
    let all = keys.to_set().filter(due);
    if keys.len() == 0 {
        assert(all =~= Set::empty());
    } else {
        let head = keys.drop_last();
        let last = keys.last();
        lemma_round_count(head, due);
        let before = head.to_set().filter(due);
        assert forall|k: ReprKeyView| keys.contains(k) <==> head.contains(k) || k == last by {
            if head.contains(k) {
                let i = choose|i: int| 0 <= i < head.len() && head[i] == k;
                assert(keys[i] == k);
            }
            if keys.contains(k) && k != last {
                let i = choose|i: int| 0 <= i < keys.len() && keys[i] == k;
                assert(head[i] == k);
            }
            assert(keys[keys.len() - 1] == last);
        }
        assert(!head.contains(last)) by {
            if head.contains(last) {
                let i = choose|i: int| 0 <= i < head.len() && head[i] == last;
                assert(keys[i] == keys[keys.len() - 1]);
            }
        }
        if due(last) {
            assert(all =~= before.insert(last));
        } else {
            assert(all =~= before);
        }
    }
}

/// A round of recomputation leaves every stale vector that is due clean, and all others
/// as they were; it counts those that were due; and another round finds none of them.
pub proof fn lemma_recompute_round(
    states: Map<ReprKeyView, LocState>,
    keys: Seq<ReprKeyView>,
    due: spec_fn(ReprKeyView) -> bool,
    keys_then: Seq<ReprKeyView>,
)
    requires
        lists_dirty(keys, states),
        lists_dirty(keys_then, round(states, keys, due)),
    ensures
        round(states, keys, due).dom() == states.dom(),
        forall|k: ReprKeyView| #[trigger]
            states.contains_key(k) ==> round(states, keys, due)[k] == (if states[k] == LocState::Dirty && due(k) {
                LocState::Clean
            } else {
                states[k]
            }),
        round_count(keys, due) == keys.to_set().filter(due).len(),
        round_count(keys_then, due) == 0,
        round(round(states, keys, due), keys_then, due) == round(states, keys, due),
{
    let after = round(states, keys, due);
    assert forall|i: int| 0 <= i < keys.len() implies states.contains_key(#[trigger] keys[i]) by {
        assert(keys.contains(keys[i]));
    }
    lemma_round_states(states, keys, due);
    lemma_round_count(keys, due);
    assert forall|i: int| 0 <= i < keys_then.len() implies after.contains_key(#[trigger] keys_then[i]) && !due(
        keys_then[i],
    ) by {
        assert(keys_then.contains(keys_then[i]));
        assert(states.contains_key(keys_then[i]));
    }
    lemma_round_states(after, keys_then, due);
    lemma_round_count(keys_then, due);
    assert(keys_then.to_set().filter(due) =~= Set::empty());
    assert forall|k: ReprKeyView| after.contains_key(k) implies round(after, keys_then, due)[k] == after[k] by {
        if keys_then.contains(k) {
            let i = choose|i: int| 0 <= i < keys_then.len() && keys_then[i] == k;
            assert(!due(keys_then[i]));
        }
    }
    assert(round(after, keys_then, due) =~= after);
}

/// Whether a type of edges is swept for edges that decayed: where it has a threshold.
pub open spec fn swept(t: EdgeType) -> bool {
    t.decay_config.prune_threshold is Some
}

/// The types of edges that are swept for edges that decayed, in order.
pub open spec fn swept_types(types: Seq<EdgeType>) -> Seq<EdgeType>
    decreases types.len(),
{
    if types.len() == 0 {
        Seq::empty()
    } else {
        let before = swept_types(types.drop_last());
        if swept(types.last()) {
            before.push(types.last())
        } else {
            before
        }
    }
}

/// The types of edges that are swept for edges that decayed, each with the bits of its
/// threshold.
pub fn types_to_sweep(types: &Vec<EdgeType>) -> (r: Vec<(EdgeType, u64)>)
    ensures
        r@.map_values(|x: (EdgeType, u64)| x.0) == swept_types(types@),
        forall|i: int| 0 <= i < r@.len() ==> (#[trigger] r@[i]).0.decay_config.prune_threshold == Some(r@[i].1),
{
    let mut r: Vec<(EdgeType, u64)> = Vec::new();
    let ghost all = types@;
    let ghost f = |x: (EdgeType, u64)| x.0;
    let mut i: usize = 0;
    proof {
        assert(r@.map_values(f) =~= swept_types(all.subrange(0, 0)));
    }
    while i < types.len()
        invariant
            i <= types.len(),
            all == types@,
            f == (|x: (EdgeType, u64)| x.0),
            r@.map_values(f) == swept_types(all.subrange(0, i as int)),
            forall|j: int| 0 <= j < r@.len() ==> (#[trigger] r@[j]).0.decay_config.prune_threshold == Some(r@[j].1),
        decreases types.len() - i,
    {
        let ghost before = r@.map_values(f);
        proof {
            let next = all.subrange(0, i as int + 1);
            assert(next.drop_last() =~= all.subrange(0, i as int));
            assert(next.last() == all[i as int]);
        }
        if let Some(threshold) = types[i].decay_config.prune_threshold {
            r.push((types[i].clone(), threshold));
            proof {
                assert(r@.map_values(f) =~= before.push(all[i as int]));
            }
        }
        i += 1;
    }
    assert(all.subrange(0, all.len() as int) =~= all);
    r
}

} // verus!
