//! What the log and its replay do, and what the indexes in memory keep.

use vstd::prelude::*;
use vstd::string::*;

use crate::edge;
use crate::edge::{AdjView, EdgeKey, EntryView};
use crate::field_index;
use crate::float_bits;
use crate::float_bits::F64_ONE;
use crate::hnsw_snapshot;
use crate::hnsw_snapshot::HnswSnapshotMeta;
use crate::index;
use crate::index::{Found, IndexView};
use crate::journal;
use crate::journal::{Statement, Step};
use crate::location::{LocState, Tier};
use crate::replay;
use crate::replay::{RecordType, RecordView, ReplayAction, Restored};
use crate::search::HitView;
use crate::selection;
use crate::tracking;
use crate::types::Representation;

verus! {

/// The records after a place in the log are exactly those with a greater number, in order.
pub proof fn lemma_after_in_order(s: Seq<RecordView>, lsn: u64)
    ensures
        selection::is_selection(s, replay::after(s, lsn), |r: RecordView| lsn < r.lsn, |r: RecordView| r),
    decreases s.len(),
{
    let keep = |r: RecordView| lsn < r.lsn;
    let make = |r: RecordView| r;
    let after = replay::after(s, lsn);
    if s.len() == 0 {
        selection::lemma_selection_empty(s, after, keep, make);
    } else {
        lemma_after_in_order(s.drop_last(), lsn);
        selection::lemma_selection_grows(s, replay::after(s.drop_last(), lsn), after, keep, make);
    }
}

/// The vectors that restored indexes still lack are exactly the dense ones for which an
/// index of their collection and name was saved before the entity was written, in order.
pub proof fn lemma_places_behind(restored: Seq<Restored>, rs: Seq<Representation>, name: Seq<char>, lsn: u64)
    ensures
        forall|i: int| #[trigger]
            replay::places_behind(restored, rs, name, lsn).contains(i) <==> 0 <= i < rs.len() && rs[i].vector is Dense
                && saved_before(restored, name + ":"@ + rs[i].name@, lsn),
        forall|a: int, b: int|
            0 <= a < b < replay::places_behind(restored, rs, name, lsn).len() ==> #[trigger] replay::places_behind(
                restored,
                rs,
                name,
                lsn,
            )[a] < #[trigger] replay::places_behind(restored, rs, name, lsn)[b],
    decreases rs.len(),
{
    let after = replay::places_behind(restored, rs, name, lsn);
    if rs.len() > 0 {
        let head = rs.drop_last();
        let n = head.len() as int;
        let before = replay::places_behind(restored, head, name, lsn);
        lemma_places_behind(restored, head, name, lsn);
        assert(rs[n] == rs.last());
        assert forall|i: int| 0 <= i < before.len() implies before[i] < n by {
            assert(before.contains(before[i]));
        }
        assert forall|i: int| #[trigger] after.contains(i) <==> 0 <= i < rs.len() && rs[i].vector is Dense
            && saved_before(restored, name + ":"@ + rs[i].name@, lsn) by {
            if 0 <= i < n {
                assert(head[i] == rs[i]);
            }
            if before.contains(i) {
                let a = choose|a: int| 0 <= a < before.len() && before[a] == i;
                assert(after[a] == i);
            }
            if after.len() > before.len() {
                assert(after[before.len() as int] == n);
            }
            if after.contains(i) && i != n {
                let a = choose|a: int| 0 <= a < after.len() && after[a] == i;
                assert(before[a] == i);
            }
            if after.contains(n) {
                let a = choose|a: int| 0 <= a < after.len() && after[a] == n;
                if a < before.len() {
                    assert(before[a] == n);
                }
            }
        }
        assert forall|a: int, b: int| 0 <= a < b < after.len() implies #[trigger] after[a] < #[trigger] after[b] by {
            assert(after[a] == before[a]);
            if b < before.len() {
                assert(after[b] == before[b]);
            }
        }
    }
}

/// Whether an index with a key was saved before a place in the log.
pub open spec fn saved_before(restored: Seq<Restored>, key: Seq<char>, lsn: u64) -> bool {
    exists|i: int| 0 <= i < restored.len() && (#[trigger] restored[i]).key@ == key && restored[i].lsn < lsn
}

/// The transitions that make vectors clean again: every vector that is stale or being
/// computed becomes clean, a stale one is first taken up, and no other is touched.
pub proof fn lemma_cleaning_exactly(states: Seq<Option<LocState>>, a: ReplayAction)
    requires
        states.len() <= u32::MAX,
    ensures
        replay::cleaning_all(states).contains(a) <==> cleans(states, a),
    decreases states.len(),
{
    let all = replay::cleaning_all(states);
    if states.len() > 0 {
        let head = states.drop_last();
        let n = head.len() as int;
        let before = replay::cleaning_all(head);
        let more = replay::cleaning(n as u32, states.last());
        lemma_cleaning_exactly(head, a);
        assert(states[n] == states.last());
        if before.contains(a) {
            let i = choose|i: int| 0 <= i < before.len() && before[i] == a;
            assert(all[i] == a);
        }
        if more.contains(a) {
            let i = choose|i: int| 0 <= i < more.len() && more[i] == a;
            assert(all[before.len() + i] == a);
        }
        if all.contains(a) {
            let i = choose|i: int| 0 <= i < all.len() && all[i] == a;
            if i < before.len() {
                assert(before[i] == a);
            } else {
                assert(more[i - before.len()] == a);
            }
        }
        assert(more.contains(a) <==> cleans(states, a) && a->Transition_0 == n) by {
            match states.last() {
                Some(LocState::Dirty) => {
                    assert(more[0] == ReplayAction::Transition(n as u32, LocState::Recomputing));
                    assert(more[1] == ReplayAction::Transition(n as u32, LocState::Clean));
                },
                Some(LocState::Recomputing) => {
                    assert(more[0] == ReplayAction::Transition(n as u32, LocState::Clean));
                },
                _ => {},
            }
        }
        if cleans(states, a) && a->Transition_0 != n {
            assert(head[a->Transition_0 as int] == states[a->Transition_0 as int]);
        }
        if cleans(head, a) {
            assert(head[a->Transition_0 as int] == states[a->Transition_0 as int]);
        }
    }
}

/// Whether an action is one of those that make vectors clean again, by their states.
pub open spec fn cleans(states: Seq<Option<LocState>>, a: ReplayAction) -> bool {
    match a {
        ReplayAction::Transition(place, s) => {
            &&& place < states.len()
            &&& {
                ||| s == LocState::Clean && (states[place as int] == Some(LocState::Dirty) || states[place as int]
                    == Some(LocState::Recomputing))
                ||| s == LocState::Recomputing && states[place as int] == Some(LocState::Dirty)
            }
        },
        _ => false,
    }
}

/// Whether a record of a type is one that stores an edge.
pub open spec fn stores_edge(t: RecordType) -> bool {
    t is EdgeWrite || t is EdgeConfirm || t is EdgeConfidenceUpdate || t is EdgeInferred
}

/// Whether replaying a record is to do an action: what the record says, as far as what it is
/// about is known.
pub open spec fn is_to_do(t: RecordType, known: bool, place: u32, states: Seq<Option<LocState>>, a: ReplayAction) -> bool {
    match a {
        ReplayAction::StoreCollection => t is SchemaCreateColl && !known,
        ReplayAction::RegisterSchema => t is SchemaCreateColl,
        ReplayAction::TrackEntity => t is EntityWrite || t is ReprWrite,
        ReplayAction::StoreEntity => (t is EntityWrite || t is ReprWrite) && known,
        ReplayAction::DeleteEntity => t is EntityDelete && known,
        ReplayAction::DeleteFromTier(tier) => t is EntityDelete && (tier == Tier::NVMe || tier == Tier::Archive),
        ReplayAction::ForgetLocations => t is EntityDelete,
        ReplayAction::RegisterLocation => t is LocationUpdate,
        ReplayAction::Transition(at, s) => {
            ||| t is ReprDirty && at == place && s == LocState::Dirty && states.len() > 0 && states[0] is Some
            ||| t is ReprWrite && cleans(states, a)
        },
        ReplayAction::StoreEdgeType => t is SchemaCreateEdgeType && !known,
        ReplayAction::RegisterEdgeType => t is SchemaCreateEdgeType,
        ReplayAction::StoreEdge => stores_edge(t) && known,
        ReplayAction::DeleteEdge => t is EdgeDelete,
        ReplayAction::DropCollection => t is SchemaDropColl && known,
        ReplayAction::ForgetSchema => t is SchemaDropColl,
        ReplayAction::ForgetIndexes => t is SchemaDropColl,
        ReplayAction::ForgetEntities => t is SchemaDropColl,
        ReplayAction::DropEdgeType => t is SchemaDropEdgeType && known,
        ReplayAction::ForgetEdgeType => t is SchemaDropEdgeType,
        ReplayAction::ForgetEdges => t is SchemaDropEdgeType,
    }
}

/// Replaying a record does exactly what the record says: no other action, and none left out.
#[verifier::rlimit(40)]
pub proof fn lemma_replay_exactly(t: RecordType, known: bool, place: u32, states: Seq<Option<LocState>>, a: ReplayAction)
    requires
        states.len() <= u32::MAX,
    ensures
        replay::actions_of(t, known, place, states).contains(a) <==> is_to_do(t, known, place, states, a),
{
    let all = replay::actions_of(t, known, place, states);
    match t {
        RecordType::SchemaCreateColl => {
            assert(all[all.len() - 1] == ReplayAction::RegisterSchema);
            assert(!known ==> all[0] == ReplayAction::StoreCollection);
        },
        RecordType::EntityWrite => {
            assert(all[0] == ReplayAction::TrackEntity);
            assert(known ==> all[1] == ReplayAction::StoreEntity);
        },
        RecordType::EntityDelete => {
            assert(all[all.len() - 3] == ReplayAction::DeleteFromTier(Tier::NVMe));
            assert(all[all.len() - 2] == ReplayAction::DeleteFromTier(Tier::Archive));
            assert(all[all.len() - 1] == ReplayAction::ForgetLocations);
            assert(known ==> all[0] == ReplayAction::DeleteEntity);
        },
        RecordType::LocationUpdate => {
            assert(all[0] == ReplayAction::RegisterLocation);
        },
        RecordType::SchemaCreateEdgeType => {
            assert(all[all.len() - 1] == ReplayAction::RegisterEdgeType);
            assert(!known ==> all[0] == ReplayAction::StoreEdgeType);
        },
        RecordType::EdgeWrite
        | RecordType::EdgeConfirm
        | RecordType::EdgeConfidenceUpdate
        | RecordType::EdgeInferred => {
            assert(known ==> all[0] == ReplayAction::StoreEdge);
        },
        RecordType::EdgeDelete => {
            assert(all[0] == ReplayAction::DeleteEdge);
        },
        RecordType::SchemaDropColl => {
            assert(all[all.len() - 3] == ReplayAction::ForgetSchema);
            assert(all[all.len() - 2] == ReplayAction::ForgetIndexes);
            assert(all[all.len() - 1] == ReplayAction::ForgetEntities);
            assert(known ==> all[0] == ReplayAction::DropCollection);
        },
        RecordType::SchemaDropEdgeType => {
            assert(all[all.len() - 2] == ReplayAction::ForgetEdgeType);
            assert(all[all.len() - 1] == ReplayAction::ForgetEdges);
            assert(known ==> all[0] == ReplayAction::DropEdgeType);
        },
        RecordType::ReprDirty => {
            assert(states.len() > 0 && states[0] is Some ==> all[0] == ReplayAction::Transition(
                place,
                LocState::Dirty,
            ));
        },
        RecordType::ReprWrite => {
            let more = replay::cleaning_all(states);
            let n = all.len() - more.len();
            lemma_cleaning_exactly(states, a);
            assert(all[0] == ReplayAction::TrackEntity);
            assert(known ==> all[1] == ReplayAction::StoreEntity);
            if more.contains(a) {
                let i = choose|i: int| 0 <= i < more.len() && more[i] == a;
                assert(all[n + i] == a);
            }
            if all.contains(a) {
                let i = choose|i: int| 0 <= i < all.len() && all[i] == a;
                if i >= n {
                    assert(more[i - n] == a);
                }
            }
        },
        _ => {},
    }
}

/// A record is one that the engine replays exactly where it counts as replayed in some
/// store; one that creates something counts only where that is new, and one that writes to
/// something or drops it only where that is there.
pub proof fn lemma_counts(t: RecordType)
    ensures
        replay::replayable(t) <==> replay::counts(t, true) || replay::counts(t, false),
        t is SchemaCreateColl || t is SchemaCreateEdgeType ==> replay::counts(t, false) && !replay::counts(t, true),
        t is EntityWrite || stores_edge(t) || t is SchemaDropColl || t is SchemaDropEdgeType ==> replay::counts(t, true)
            && !replay::counts(t, false),
        t is EntityDelete || t is EdgeDelete || t is LocationUpdate || t is ReprDirty || t is ReprWrite
            ==> replay::counts(t, true) && replay::counts(t, false),
        replay::control(t) <==> t is TxBegin || t is TxCommit || t is TxAbort || t is Checkpoint,
        replay::control(t) ==> !replay::replayable(t),
{
}

/// Whether a statement is to do an action.
pub open spec fn is_effect(s: Statement, a: ReplayAction) -> bool {
    match a {
        ReplayAction::StoreCollection => s is CreateCollection,
        ReplayAction::RegisterSchema => s is CreateCollection,
        ReplayAction::TrackEntity => s is Insert,
        ReplayAction::StoreEntity => s is Insert || s is Update || s is Recompute,
        ReplayAction::DeleteEntity => s is DeleteEntity,
        ReplayAction::DeleteFromTier(tier) => s is DeleteEntity && (tier == Tier::NVMe || tier == Tier::Archive),
        ReplayAction::ForgetLocations => s is DeleteEntity,
        ReplayAction::RegisterLocation => s matches Statement::Insert(n) && n > 0,
        ReplayAction::Transition(place, to) => {
            ||| s matches Statement::Update(stale) && stale@.contains(place) && to == LocState::Dirty
            ||| s == Statement::Recompute(place) && to == LocState::Clean
        },
        ReplayAction::StoreEdgeType => s is CreateEdgeType,
        ReplayAction::RegisterEdgeType => s is CreateEdgeType,
        ReplayAction::StoreEdge => s is InsertEdge || s is ConfirmEdge || s is ReconfirmEdge || s is InferEdge,
        ReplayAction::DeleteEdge => s is DeleteEdge || s is PruneEdge,
        ReplayAction::DropCollection => s is DropCollection,
        ReplayAction::ForgetSchema => s is DropCollection,
        ReplayAction::ForgetIndexes => s is DropCollection,
        ReplayAction::ForgetEntities => s is DropCollection,
        ReplayAction::DropEdgeType => s is DropEdgeType,
        ReplayAction::ForgetEdgeType => s is DropEdgeType,
        ReplayAction::ForgetEdges => s is DropEdgeType,
    }
}

/// A statement does exactly what it is to do to the store and the tables.
#[verifier::rlimit(40)]
pub proof fn lemma_effects_exactly(s: Statement, a: ReplayAction)
    ensures
        journal::effects_of(s).contains(a) <==> is_effect(s, a),
{
    let all = journal::effects_of(s);
    match s {
        Statement::CreateCollection => {
            assert(all[0] == ReplayAction::StoreCollection && all[1] == ReplayAction::RegisterSchema);
        },
        Statement::Insert(n) => {
            assert(all[0] == ReplayAction::StoreEntity && all[1] == ReplayAction::TrackEntity);
            assert(n > 0 ==> all[2] == ReplayAction::RegisterLocation);
        },
        Statement::Update(stale) => {
            assert(all[0] == ReplayAction::StoreEntity);
            if let ReplayAction::Transition(place, to) = a {
                if stale@.contains(place) && to == LocState::Dirty {
                    let i = choose|i: int| 0 <= i < stale@.len() && stale@[i] == place;
                    assert(all[i + 1] == a);
                }
            }
            if all.contains(a) {
                let i = choose|i: int| 0 <= i < all.len() && all[i] == a;
                if i > 0 {
                    assert(a == ReplayAction::Transition(stale@[i - 1], LocState::Dirty));
                }
            }
        },
        Statement::DeleteEntity => {
            assert(all[0] == ReplayAction::ForgetLocations && all[1] == ReplayAction::DeleteEntity);
            assert(all[2] == ReplayAction::DeleteFromTier(Tier::NVMe));
            assert(all[3] == ReplayAction::DeleteFromTier(Tier::Archive));
        },
        Statement::CreateEdgeType => {
            assert(all[0] == ReplayAction::StoreEdgeType && all[1] == ReplayAction::RegisterEdgeType);
        },
        Statement::InsertEdge
        | Statement::ConfirmEdge
        | Statement::ReconfirmEdge
        | Statement::InferEdge => {
            assert(all[0] == ReplayAction::StoreEdge);
        },
        Statement::DeleteEdge | Statement::PruneEdge => {
            assert(all[0] == ReplayAction::DeleteEdge);
        },
        Statement::DropCollection => {
            assert(all[0] == ReplayAction::ForgetIndexes && all[1] == ReplayAction::ForgetEntities);
            assert(all[2] == ReplayAction::DropCollection && all[3] == ReplayAction::ForgetSchema);
        },
        Statement::DropEdgeType => {
            assert(all[0] == ReplayAction::ForgetEdges && all[1] == ReplayAction::DropEdgeType);
            assert(all[2] == ReplayAction::ForgetEdgeType);
        },
        Statement::Recompute(place) => {
            assert(all[0] == ReplayAction::StoreEntity);
            assert(all[1] == ReplayAction::Transition(place, LocState::Clean));
        },
    }
}

/// A statement is carried out by beginning a transaction, appending each of its records,
/// committing, and then doing each of its effects, in order and nothing else.
pub proof fn lemma_steps_in_order(s: Statement)
    ensures
        ({
            let steps = journal::steps_of(s);
            let rs = journal::records_of(s);
            let es = journal::effects_of(s);
            &&& rs.len() > 0
            &&& es.len() > 0
            &&& steps.len() == rs.len() + es.len() + 2
            &&& steps[0] == Step::Begin
            &&& forall|i: int| 0 <= i < rs.len() ==> steps[i + 1] == Step::Append(#[trigger] rs[i])
            &&& steps[rs.len() as int + 1] == Step::Commit
            &&& forall|j: int| 0 <= j < es.len() ==> steps[rs.len() + 2 + j] == Step::Apply(#[trigger] es[j])
        }),
{
}

/// The hits of a vector index are exactly what the graph found that stands for an entity
/// which is there, each with its similarity, in order.
pub proof fn lemma_resolved_in_order(v: IndexView, found: Seq<Found>)
    ensures
        selection::is_selection(
            found,
            index::resolved(v, found),
            |f: Found| v.ids.contains_key(f.slot) && !v.dead.contains(v.ids[f.slot]),
            |f: Found| HitView { id: v.ids[f.slot], score: f.similarity },
        ),
    decreases found.len(),
{
    let keep = |f: Found| v.ids.contains_key(f.slot) && !v.dead.contains(v.ids[f.slot]);
    let make = |f: Found| HitView { id: v.ids[f.slot], score: f.similarity };
    let after = index::resolved(v, found);
    if found.len() == 0 {
        selection::lemma_selection_empty(found, after, keep, make);
    } else {
        lemma_resolved_in_order(v, found.drop_last());
        selection::lemma_selection_grows(found, index::resolved(v, found.drop_last()), after, keep, make);
    }
}

/// Taking edges out of a list leaves exactly those that do not lead to the entity, or do not
/// come from it, in order.
pub proof fn lemma_lists_without(es: Seq<EntryView>, ids: Seq<Seq<char>>, x: Seq<char>)
    ensures
        selection::is_selection(es, edge::without_target(es, x), |e: EntryView| e.to_id != x, |e: EntryView| e),
        selection::is_selection(ids, edge::without_id(ids, x), |id: Seq<char>| id != x, |id: Seq<char>| id),
    decreases es.len() + ids.len(),
{
    let keep = |e: EntryView| e.to_id != x;
    let make = |e: EntryView| e;
    let keep_id = |id: Seq<char>| id != x;
    let make_id = |id: Seq<char>| id;
    if es.len() == 0 {
        selection::lemma_selection_empty(es, edge::without_target(es, x), keep, make);
    } else {
        lemma_lists_without(es.drop_last(), ids, x);
        selection::lemma_selection_grows(
            es,
            edge::without_target(es.drop_last(), x),
            edge::without_target(es, x),
            keep,
            make,
        );
    }
    if ids.len() == 0 {
        selection::lemma_selection_empty(ids, edge::without_id(ids, x), keep_id, make_id);
    } else {
        lemma_lists_without(es, ids.drop_last(), x);
        selection::lemma_selection_grows(
            ids,
            edge::without_id(ids.drop_last(), x),
            edge::without_id(ids, x),
            keep_id,
            make_id,
        );
    }
}

/// Dropping an edge type removes its edges, on both sides of the index, and no others.
pub proof fn lemma_type_removed_lists(v: AdjView, t: Seq<char>, k: EdgeKey)
    ensures
        k.1 == t ==> edge::list_at(v.type_removed(t).forward, k).len() == 0 && edge::list_at(
            v.type_removed(t).backward,
            k,
        ).len() == 0,
        k.1 != t ==> edge::list_at(v.type_removed(t).forward, k) == edge::list_at(v.forward, k) && edge::list_at(
            v.type_removed(t).backward,
            k,
        ) == edge::list_at(v.backward, k),
{
}

/// Under a step the stored confidence holds until more than the seconds of the rate have
/// passed, and the floor holds from there on. A decayed confidence that lies between the
/// floor and one is left as it is.
pub proof fn lemma_step_exactly(confidence: u32, elapsed_secs: u64, rate: u64, floor: u64)
    requires
        !float_bits::f64_is_nan(elapsed_secs),
        !float_bits::f64_is_nan(rate),
    ensures
        float_bits::f64_key(elapsed_secs) <= float_bits::f64_key(rate) ==> edge::step_value(
            confidence,
            elapsed_secs,
            rate,
            floor,
        ) == float_bits::f32_to_f64(confidence),
        float_bits::f64_key(rate) < float_bits::f64_key(elapsed_secs) ==> edge::step_value(
            confidence,
            elapsed_secs,
            rate,
            floor,
        ) == floor,
{
}

/// A decayed confidence between the floor and one is left as it is; one below the floor
/// becomes the floor, and one above one becomes one.
pub proof fn lemma_bounded_exactly(decayed: u64, floor: u64)
    requires
        !float_bits::f64_is_nan(decayed),
        !float_bits::f64_is_nan(floor),
        float_bits::f64_key(floor) <= float_bits::f64_key(F64_ONE),
    ensures
        float_bits::f64_key(floor) <= float_bits::f64_key(decayed) <= float_bits::f64_key(F64_ONE) ==> edge::bounded(
            decayed,
            floor,
        ) == decayed,
        float_bits::f64_key(decayed) < float_bits::f64_key(floor) ==> edge::bounded(decayed, floor) == floor,
        float_bits::f64_key(F64_ONE) < float_bits::f64_key(decayed) ==> edge::bounded(decayed, floor) == F64_ONE,
{
}

/// A snapshot is accepted exactly where its version and the way in which its graph was made
/// are those of the engine and the checksum of its files is the one stored.
pub proof fn lemma_snapshot_accepted(m: HnswSnapshotMeta, computed: Seq<char>)
    ensures
        hnsw_snapshot::fault(m, computed) is None <==> m.version == hnsw_snapshot::SNAPSHOT_VERSION
            && m.max_nb_connection == index::MAX_NB_CONNECTION && m.max_elements == index::MAX_ELEMENTS
            && m.ef_construction == index::EF_CONSTRUCTION && computed == m.checksum@,
{
}

/// Dropping a collection forgets exactly the entities that belong to it.
pub proof fn lemma_others_stay(m: Map<Seq<char>, Seq<char>>, name: Seq<char>, id: Seq<char>)
    ensures
        tracking::others(m, name).contains_key(id) <==> m.contains_key(id) && m[id] != name,
        tracking::others(m, name).contains_key(id) ==> tracking::others(m, name)[id] == m[id],
{
}

/// The number that hexadecimal digits stand for.
pub open spec fn hex_number(s: Seq<char>) -> int
    decreases s.len(),
{
    if s.len() == 0 {
        0
    } else {
        hex_number(s.drop_last()) * 16 + (if s.last() <= '9' {
            s.last() as int - '0' as int
        } else {
            10 + s.last() as int - 'a' as int
        })
    }
}

/// The hexadecimal numeral of a number that has so many digits stands for it.
pub proof fn lemma_hex_numeral(x: nat, n: nat)
    ensures
        hnsw_snapshot::hex(x, n).len() == n,
        x < vstd::arithmetic::power::pow(16, n) ==> hex_number(hnsw_snapshot::hex(x, n)) == x,
    decreases n,
{
    reveal(vstd::arithmetic::power::pow);
    if n > 0 {
        lemma_hex_numeral(x / 16, (n - 1) as nat);
        let s = hnsw_snapshot::hex(x, n);
        assert(s.drop_last() =~= hnsw_snapshot::hex(x / 16, (n - 1) as nat));
        assert(s.last() == hnsw_snapshot::hex_digit(x % 16));
    }
}

proof fn lemma_hex_length(bytes: Seq<u8>)
    ensures
        hnsw_snapshot::hex_bytes(bytes).len() == 2 * bytes.len(),
    decreases bytes.len(),
{
    if bytes.len() > 0 {
        lemma_hex_length(bytes.drop_last());
        lemma_hex_numeral(bytes.last() as nat, 2);
    }
}

/// Bytes are written with two hexadecimal digits each, in order.
pub proof fn lemma_hex_bytes(bytes: Seq<u8>, i: int)
    requires
        0 <= i < bytes.len(),
    ensures
        hnsw_snapshot::hex_bytes(bytes).len() == 2 * bytes.len(),
        hnsw_snapshot::hex_bytes(bytes).subrange(2 * i, 2 * i + 2) == hnsw_snapshot::hex(bytes[i] as nat, 2),
    decreases bytes.len(),
{
    let head = bytes.drop_last();
    let before = hnsw_snapshot::hex_bytes(head);
    let two = hnsw_snapshot::hex(bytes.last() as nat, 2);
    let all = hnsw_snapshot::hex_bytes(bytes);
    lemma_hex_length(head);
    lemma_hex_length(bytes);
    lemma_hex_numeral(bytes.last() as nat, 2);
    if i < head.len() {
        lemma_hex_bytes(head, i);
        assert(all.subrange(2 * i, 2 * i + 2) =~= before.subrange(2 * i, 2 * i + 2));
    } else {
        assert(all.subrange(2 * i, 2 * i + 2) =~= two);
    }
}

/// Pairs of an entity and a slot say under which slot each entity stands: the last pair of
/// an entity counts.
pub proof fn lemma_slots_of(s: Seq<(String, usize)>, i: int)
    requires
        0 <= i < s.len(),
        forall|j: int| i < j < s.len() ==> (#[trigger] s[j]).0@ != s[i].0@,
    ensures
        index::slots_of(s).contains_key(s[i].0@),
        index::slots_of(s)[s[i].0@] == s[i].1,
    decreases s.len(),
{
    if i < s.len() - 1 {
        let head = s.drop_last();
        assert forall|j: int| i < j < head.len() implies (#[trigger] head[j]).0@ != head[i].0@ by {
            assert(head[j] == s[j]);
        }
        lemma_slots_of(head, i);
        assert(s[s.len() - 1].0@ != s[i].0@);
    }
}

/// Pairs of a slot and an entity say which entity stands under each slot, and names which
/// entities are gone.
pub proof fn lemma_ids_of(s: Seq<(usize, String)>, i: int, names: Seq<String>, id: Seq<char>)
    requires
        0 <= i < s.len(),
        forall|j: int| i < j < s.len() ==> (#[trigger] s[j]).0 != s[i].0,
    ensures
        index::ids_of(s).contains_key(s[i].0),
        index::ids_of(s)[s[i].0] == s[i].1@,
        index::names_of(names).contains(id) <==> exists|k: int| 0 <= k < names.len() && (#[trigger] names[k])@ == id,
    decreases s.len(),
{
    lemma_names_of(names, id);
    if i < s.len() - 1 {
        let head = s.drop_last();
        assert forall|j: int| i < j < head.len() implies (#[trigger] head[j]).0 != head[i].0 by {
            assert(head[j] == s[j]);
        }
        lemma_ids_of(head, i, names, id);
        assert(s[s.len() - 1].0 != s[i].0);
    }
}

proof fn lemma_names_of(names: Seq<String>, id: Seq<char>)
    ensures
        index::names_of(names).contains(id) <==> exists|k: int| 0 <= k < names.len() && (#[trigger] names[k])@ == id,
    decreases names.len(),
{
    if names.len() > 0 {
        let head = names.drop_last();
        lemma_names_of(head, id);
        if exists|k: int| 0 <= k < head.len() && (#[trigger] head[k])@ == id {
            let k = choose|k: int| 0 <= k < head.len() && (#[trigger] head[k])@ == id;
            assert(names[k]@ == id);
        }
        if exists|k: int| 0 <= k < names.len() && (#[trigger] names[k])@ == id {
            let k = choose|k: int| 0 <= k < names.len() && (#[trigger] names[k])@ == id;
            if k < head.len() {
                assert(head[k]@ == id);
            }
        }
        assert(names[names.len() - 1]@ == names.last()@);
    }
}

/// What a lookup finds are the ids among the entries that are texts, in order.
pub proof fn lemma_texts_in_order(items: Seq<Seq<u8>>)
    ensures
        selection::is_selection(
            items,
            field_index::utf8_texts(items),
            |b: Seq<u8>| vstd::utf8::valid_utf8(b),
            |b: Seq<u8>| vstd::utf8::decode_utf8(b),
        ),
    decreases items.len(),
{
    let keep = |b: Seq<u8>| vstd::utf8::valid_utf8(b);
    let make = |b: Seq<u8>| vstd::utf8::decode_utf8(b);
    let after = field_index::utf8_texts(items);
    if items.len() == 0 {
        selection::lemma_selection_empty(items, after, keep, make);
    } else {
        lemma_texts_in_order(items.drop_last());
        selection::lemma_selection_grows(items, field_index::utf8_texts(items.drop_last()), after, keep, make);
    }
}

/// The edges that leave or reach an entity are listed type by type: those of one list of
/// types and then those of another are those of both, and those of one type are its list, in
/// order.
pub proof fn lemma_edges_by_type(v: AdjView, id: Seq<char>, ts: Seq<Seq<char>>, us: Seq<Seq<char>>, t: Seq<char>)
    ensures
        edge::outgoing(v.forward, id, ts + us) == edge::outgoing(v.forward, id, ts) + edge::outgoing(v.forward, id, us),
        edge::incoming(v.backward, id, ts + us) == edge::incoming(v.backward, id, ts) + edge::incoming(
            v.backward,
            id,
            us,
        ),
        edge::outgoing(v.forward, id, seq![t]).len() == v.forward[(id, t)].len(),
        edge::incoming(v.backward, id, seq![t]).len() == v.backward[(id, t)].len(),
        forall|i: int|
            0 <= i < v.forward[(id, t)].len() ==> #[trigger] edge::outgoing(v.forward, id, seq![t])[i] == (
                t,
                v.forward[(id, t)][i].to_id,
            ),
        forall|i: int|
            0 <= i < v.backward[(id, t)].len() ==> #[trigger] edge::incoming(v.backward, id, seq![t])[i] == (
                t,
                v.backward[(id, t)][i],
            ),
    decreases us.len(),
{
    let one = seq![t];
    assert(one.drop_last() =~= Seq::empty());
    assert(edge::outgoing(v.forward, id, one.drop_last()) =~= Seq::empty());
    assert(edge::incoming(v.backward, id, one.drop_last()) =~= Seq::empty());
    if us.len() == 0 {
        assert(ts + us =~= ts);
        assert(edge::outgoing(v.forward, id, ts) + edge::outgoing(v.forward, id, us) =~= edge::outgoing(
            v.forward,
            id,
            ts,
        ));
        assert(edge::incoming(v.backward, id, ts) + edge::incoming(v.backward, id, us) =~= edge::incoming(
            v.backward,
            id,
            ts,
        ));
    } else {
        lemma_edges_by_type(v, id, ts, us.drop_last(), t);
        assert((ts + us).drop_last() =~= ts + us.drop_last());
        assert((ts + us).last() == us.last());
        assert(edge::outgoing(v.forward, id, ts + us) =~= edge::outgoing(v.forward, id, ts) + edge::outgoing(
            v.forward,
            id,
            us,
        ));
        assert(edge::incoming(v.backward, id, ts + us) =~= edge::incoming(v.backward, id, ts) + edge::incoming(
            v.backward,
            id,
            us,
        ));
    }
}

/// Entities that are added one after the other, each for the first time, get the slots that
/// follow those in use, in order.
pub proof fn lemma_slots_in_order(v: IndexView, ids: Seq<Seq<char>>, i: int)
    requires
        ids.no_duplicates(),
        0 <= i < ids.len(),
        v.next + ids.len() <= usize::MAX,
    ensures
        index::added_all(v, ids).next == v.next + ids.len(),
        index::added_all(v, ids).dead == v.dead,
        index::added_all(v, ids).slots.contains_key(ids[i]),
        index::added_all(v, ids).slots[ids[i]] == v.next + i,
        index::added_all(v, ids).ids.contains_key((v.next + i) as usize),
        index::added_all(v, ids).ids[(v.next + i) as usize] == ids[i],
    decreases ids.len(),
{
    let head = ids.drop_last();
    assert(head.no_duplicates()) by {
        assert forall|a: int, b: int| 0 <= a < head.len() && 0 <= b < head.len() && a != b implies head[a]
            != head[b] by {
            assert(ids[a] != ids[b]);
        }
    }
    if head.len() > 0 {
        let j: int = if i < head.len() {
            i
        } else {
            0
        };
        lemma_slots_in_order(v, head, j);
        assert(ids[j] != ids[ids.len() - 1]);
    } else {
        assert(index::added_all(v, head) == v);
    }
}

/// An entity that is taken out of the index is in no answer, every other one is answered as
/// before, and taking it out again changes nothing.
pub proof fn lemma_removed_not_found(v: IndexView, id: Seq<char>, found: Seq<Found>)
    requires
        v.well_formed(),
    ensures
        forall|i: int|
            0 <= i < index::resolved(v.removed(id), found).len() ==> (#[trigger] index::resolved(
                v.removed(id),
                found,
            )[i]).id != id,
        selection::is_selection(
            index::resolved(v, found),
            index::resolved(v.removed(id), found),
            |h: HitView| h.id != id,
            |h: HitView| h,
        ),
        v.removed(id).removed(id) == v.removed(id),
    decreases found.len(),
{
    let keep = |h: HitView| h.id != id;
    let make = |h: HitView| h;
    let w = v.removed(id);
    let all = index::resolved(v, found);
    let rest = index::resolved(w, found);
    assert(w.dead.insert(id) =~= w.dead || !v.slots.contains_key(id));
    if found.len() == 0 {
        selection::lemma_selection_empty(all, rest, keep, make);
    } else {
        let f = found.last();
        let before = index::resolved(v, found.drop_last());
        let less = index::resolved(w, found.drop_last());
        lemma_removed_not_found(v, id, found.drop_last());
        if v.ids.contains_key(f.slot) && !v.dead.contains(v.ids[f.slot]) {
            assert(v.slots.contains_key(v.ids[f.slot]));
            assert(all.drop_last() =~= before);
            selection::lemma_selection_grows(all, less, rest, keep, make);
        } else {
            assert(rest == less);
        }
        assert forall|i: int| 0 <= i < rest.len() implies (#[trigger] rest[i]).id != id by {
            if i < less.len() {
                assert(rest[i] == less[i]);
            } else {
                assert(v.slots.contains_key(v.ids[f.slot]));
            }
        }
    }
}

} // verus!
