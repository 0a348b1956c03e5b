//! The records of the write-ahead log, and what replaying one does.

use vstd::prelude::*;
use vstd::string::*;

use crate::fetch;
use crate::fetch::scoped_key;
use crate::location::{LocState, Tier};
use crate::sort;
use crate::sort::{stable_sort, Comparator};
use crate::text;
use crate::text::{cat2, starts_with, text_equal};
use crate::types::{Entity, Representation, VectorData};
use crate::value;
use crate::value::Rank;

verus! {

/// What a record of the log says.
#[derive(Clone, Copy, PartialEq, Eq, Structural, Debug)]
pub enum RecordType {
    TxBegin,
    TxCommit,
    TxAbort,
    Checkpoint,
    EntityWrite,
    EntityDelete,
    ReprWrite,
    ReprDirty,
    EdgeWrite,
    EdgeInferred,
    EdgeConfidenceUpdate,
    EdgeConfirm,
    EdgeDelete,
    LocationUpdate,
    SchemaCreateColl,
    SchemaCreateEdgeType,
    SchemaDropColl,
    SchemaDropEdgeType,
    /// A record of the routing layer.
    Foreign,
}

/// A record of the log.
#[derive(Debug)]
pub struct WalRecord {
    pub lsn: u64,
    pub ts: i64,
    pub tx_id: u64,
    pub record_type: RecordType,
    pub schema_ver: u32,
    pub collection: String,
    pub payload: Vec<u8>,
}

/// What replaying a record does to the store and to the tables in memory.
#[derive(Clone, Copy, PartialEq, Eq, Structural, Debug)]
pub enum ReplayAction {
    /// Stores the collection of the record.
    StoreCollection,
    /// Keeps the schema of the record in memory.
    RegisterSchema,
    /// Notes the collection of the entity of the record.
    TrackEntity,
    /// Stores the entity of the record, in place of what is stored.
    StoreEntity,
    /// Deletes the entity of the record from its collection.
    DeleteEntity,
    /// Deletes the entity of the record from a tier.
    DeleteFromTier(Tier),
    /// Forgets where the vectors of the entity of the record are.
    ForgetLocations,
    /// Notes where a vector is.
    RegisterLocation,
    /// Moves the vector at a place of the entity of the record to a state.
    Transition(u32, LocState),
    /// Stores the edge type of the record.
    StoreEdgeType,
    /// Keeps the edge type of the record in memory.
    RegisterEdgeType,
    /// Stores the edge of the record, in place of what is stored.
    StoreEdge,
    /// Deletes the edge of the record.
    DeleteEdge,
    /// Drops the collection of the record from the store.
    DropCollection,
    /// Forgets the schema of the record.
    ForgetSchema,
    /// Forgets the indexes of the collection of the record.
    ForgetIndexes,
    /// Forgets the entities of the collection of the record, and where they are.
    ForgetEntities,
    /// Drops the edge type of the record from the store.
    DropEdgeType,
    /// Forgets the edge type of the record.
    ForgetEdgeType,
    /// Forgets the edges of the edge type of the record.
    ForgetEdges,
}

/// What replaying a record does, whether it counts as replayed, and whether it is a
/// record that the engine replays at all.
#[derive(Debug)]
pub struct ReplayStep {
    pub actions: Vec<ReplayAction>,
    pub counted: bool,
    pub handled: bool,
}

/// Whether the engine replays records of a type.
pub open spec fn replayable(t: RecordType) -> bool {
    !(t is TxBegin || t is TxCommit || t is TxAbort || t is Checkpoint || t is Foreign)
}

/// The transitions that make a vector clean again, by its state.
pub open spec fn cleaning(place: u32, state: Option<LocState>) -> Seq<ReplayAction> {
    match state {
        Some(LocState::Dirty) => seq![
            ReplayAction::Transition(place, LocState::Recomputing),
            ReplayAction::Transition(place, LocState::Clean),
        ],
        Some(LocState::Recomputing) => seq![ReplayAction::Transition(place, LocState::Clean)],
        _ => Seq::empty(),
    }
}

/// The transitions that make vectors clean again, by their states.
pub open spec fn cleaning_all(states: Seq<Option<LocState>>) -> Seq<ReplayAction>
    decreases states.len(),
{
    if states.len() == 0 {
        Seq::empty()
    } else {
        cleaning_all(states.drop_last()) + cleaning((states.len() - 1) as u32, states.last())
    }
}

/// What replaying a record does. `known` is whether the store has the collection or
/// edge type that the record is about; `place` the place of the vector that it makes
/// stale; `states` the states of the vectors that it is about, where they are noted.
pub open spec fn actions_of(t: RecordType, known: bool, place: u32, states: Seq<Option<LocState>>) -> Seq<
    ReplayAction,
> {
    match t {
        RecordType::SchemaCreateColl => if known {
            seq![ReplayAction::RegisterSchema]
        } else {
            seq![ReplayAction::StoreCollection, ReplayAction::RegisterSchema]
        },
        RecordType::EntityWrite => if known {
            seq![ReplayAction::TrackEntity, ReplayAction::StoreEntity]
        } else {
            seq![ReplayAction::TrackEntity]
        },
        RecordType::EntityDelete => {
            let rest = seq![
                ReplayAction::DeleteFromTier(Tier::NVMe),
                ReplayAction::DeleteFromTier(Tier::Archive),
                ReplayAction::ForgetLocations,
            ];
            if known {
                seq![ReplayAction::DeleteEntity] + rest
            } else {
                rest
            }
        },
        RecordType::LocationUpdate => seq![ReplayAction::RegisterLocation],
        RecordType::SchemaCreateEdgeType => if known {
            seq![ReplayAction::RegisterEdgeType]
        } else {
            seq![ReplayAction::StoreEdgeType, ReplayAction::RegisterEdgeType]
        },
        RecordType::EdgeWrite
        | RecordType::EdgeConfirm
        | RecordType::EdgeConfidenceUpdate
        | RecordType::EdgeInferred => if known {
            seq![ReplayAction::StoreEdge]
        } else {
            Seq::empty()
        },
        RecordType::EdgeDelete => seq![ReplayAction::DeleteEdge],
        RecordType::SchemaDropColl => {
            let rest = seq![ReplayAction::ForgetSchema, ReplayAction::ForgetIndexes, ReplayAction::ForgetEntities];
            if known {
                seq![ReplayAction::DropCollection] + rest
            } else {
                rest
            }
        },
        RecordType::SchemaDropEdgeType => {
            let rest = seq![ReplayAction::ForgetEdgeType, ReplayAction::ForgetEdges];
            if known {
                seq![ReplayAction::DropEdgeType] + rest
            } else {
                rest
            }
        },
        RecordType::ReprDirty => if states.len() > 0 && states[0] is Some {
            seq![ReplayAction::Transition(place, LocState::Dirty)]
        } else {
            Seq::empty()
        },
        RecordType::ReprWrite => {
            let first = if known {
                seq![ReplayAction::TrackEntity, ReplayAction::StoreEntity]
            } else {
                seq![ReplayAction::TrackEntity]
            };
            first + cleaning_all(states)
        },
        _ => Seq::empty(),
    }
}

/// Whether a record counts as replayed: one that creates something counts where that
/// is new, one that writes to or drops something where that exists, any other always.
pub open spec fn counts(t: RecordType, known: bool) -> bool {
    match t {
        RecordType::SchemaCreateColl | RecordType::SchemaCreateEdgeType => !known,
        RecordType::EntityWrite
        | RecordType::EdgeWrite
        | RecordType::EdgeConfirm
        | RecordType::EdgeConfidenceUpdate
        | RecordType::EdgeInferred
        | RecordType::SchemaDropColl
        | RecordType::SchemaDropEdgeType => known,
        RecordType::EntityDelete
        | RecordType::LocationUpdate
        | RecordType::EdgeDelete
        | RecordType::ReprDirty
        | RecordType::ReprWrite => true,
        _ => false,
    }
}

fn push_cleaning(actions: &mut Vec<ReplayAction>, place: u32, state: Option<LocState>)
    ensures
        final(actions)@ == old(actions)@ + cleaning(place, state),
{
    let ghost before = actions@;
    match state {
        Some(LocState::Dirty) => {
            actions.push(ReplayAction::Transition(place, LocState::Recomputing));
            actions.push(ReplayAction::Transition(place, LocState::Clean));
        },
        Some(LocState::Recomputing) => {
            actions.push(ReplayAction::Transition(place, LocState::Clean));
        },
        _ => {},
    }
    assert(actions@ =~= before + cleaning(place, state));
}

/// What replaying a record does.
pub fn replay_step(t: RecordType, known: bool, place: u32, states: &Vec<Option<LocState>>) -> (r: ReplayStep)
    ensures
        r.actions@ == actions_of(t, known, place, states@),
        r.counted == counts(t, known),
        r.handled == replayable(t),
{
    let mut actions: Vec<ReplayAction> = Vec::new();
    let mut counted = true;
    let mut handled = true;
    match t {
        RecordType::SchemaCreateColl => {
            if !known {
                actions.push(ReplayAction::StoreCollection);
            }
            actions.push(ReplayAction::RegisterSchema);
            counted = !known;
        },
        RecordType::EntityWrite => {
            actions.push(ReplayAction::TrackEntity);
            if known {
                actions.push(ReplayAction::StoreEntity);
            }
            counted = known;
        },
        RecordType::EntityDelete => {
            if known {
                actions.push(ReplayAction::DeleteEntity);
            }
            actions.push(ReplayAction::DeleteFromTier(Tier::NVMe));
            actions.push(ReplayAction::DeleteFromTier(Tier::Archive));
            actions.push(ReplayAction::ForgetLocations);
        },
        RecordType::LocationUpdate => {
            actions.push(ReplayAction::RegisterLocation);
        },
        RecordType::SchemaCreateEdgeType => {
            if !known {
                actions.push(ReplayAction::StoreEdgeType);
            }
            actions.push(ReplayAction::RegisterEdgeType);
            counted = !known;
        },
        RecordType::EdgeWrite
        | RecordType::EdgeConfirm
        | RecordType::EdgeConfidenceUpdate
        | RecordType::EdgeInferred => {
            if known {
                actions.push(ReplayAction::StoreEdge);
            }
            counted = known;
        },
        RecordType::EdgeDelete => {
            actions.push(ReplayAction::DeleteEdge);
        },
        RecordType::SchemaDropColl => {
            if known {
                actions.push(ReplayAction::DropCollection);
            }
            actions.push(ReplayAction::ForgetSchema);
            actions.push(ReplayAction::ForgetIndexes);
            actions.push(ReplayAction::ForgetEntities);
            counted = known;
        },
        RecordType::SchemaDropEdgeType => {
            if known {
                actions.push(ReplayAction::DropEdgeType);
            }
            actions.push(ReplayAction::ForgetEdgeType);
            actions.push(ReplayAction::ForgetEdges);
            counted = known;
        },
        RecordType::ReprDirty => {
            if states.len() > 0 && states[0].is_some() {
                actions.push(ReplayAction::Transition(place, LocState::Dirty));
            }
        },
        RecordType::ReprWrite => {
            actions.push(ReplayAction::TrackEntity);
            if known {
                actions.push(ReplayAction::StoreEntity);
            }
            let ghost first = actions@;
            let ghost all = states@;
            let mut i: usize = 0;
            proof {
                assert(first + cleaning_all(all.subrange(0, 0)) =~= first);
            }
            while i < states.len()
                invariant
                    i <= states.len(),
                    all == states@,
                    actions@ == first + cleaning_all(all.subrange(0, i as int)),
                decreases states.len() - i,
            {
                proof {
                    let next = all.subrange(0, i as int + 1);
                    assert(next.drop_last() =~= all.subrange(0, i as int));
                    assert(next.last() == all[i as int]);
                    assert((first + cleaning_all(all.subrange(0, i as int))) + cleaning(i as u32, all[i as int])
                        =~= first + (cleaning_all(all.subrange(0, i as int)) + cleaning(
                        i as u32,
                        all[i as int],
                    )));
                }
                push_cleaning(&mut actions, i as u32, states[i]);
                i += 1;
            }
            assert(all.subrange(0, all.len() as int) =~= all);
        },
        _ => {
            counted = false;
            handled = false;
        },
    }
    proof {
        assert(actions@ =~= actions_of(t, known, place, states@));
    }
    ReplayStep { actions, counted, handled }
}

/// The model of a [`WalRecord`].
pub struct RecordView {
    pub lsn: u64,
    pub ts: i64,
    pub tx_id: u64,
    pub record_type: RecordType,
    pub schema_ver: u32,
    pub collection: Seq<char>,
    pub payload: Seq<u8>,
}

impl View for WalRecord {
    type V = RecordView;

    open spec fn view(&self) -> RecordView {
        RecordView {
            lsn: self.lsn,
            ts: self.ts,
            tx_id: self.tx_id,
            record_type: self.record_type,
            schema_ver: self.schema_ver,
            collection: self.collection@,
            payload: self.payload@,
        }
    }
}

impl Clone for WalRecord {
    fn clone(&self) -> (r: Self)
        ensures
            r@ == self@,
    {
        let mut payload: Vec<u8> = Vec::new();
        payload.extend_from_slice(self.payload.as_slice());
        assert(payload@ =~= self.payload@);
        WalRecord {
            lsn: self.lsn,
            ts: self.ts,
            tx_id: self.tx_id,
            record_type: self.record_type,
            schema_ver: self.schema_ver,
            collection: self.collection.clone(),
            payload,
        }
    }
}

/// The views of a sequence of records.
pub open spec fn record_views(s: Seq<WalRecord>) -> Seq<RecordView> {
    s.map_values(|r: WalRecord| r@)
}

/// The records after a place in the log.
pub open spec fn after(s: Seq<RecordView>, lsn: u64) -> Seq<RecordView>
    decreases s.len(),
{
    if s.len() == 0 {
        Seq::empty()
    } else {
        let before = after(s.drop_last(), lsn);
        if s.last().lsn > lsn {
            before.push(s.last())
        } else {
            before
        }
    }
}

/// The records that are replayed on top of a snapshot: those after it.
pub fn records_after(records: &Vec<WalRecord>, lsn: u64) -> (r: Vec<WalRecord>)
    ensures
        record_views(r@) == after(record_views(records@), lsn),
{
    let mut r: Vec<WalRecord> = Vec::new();
    let ghost all = record_views(records@);
    let mut i: usize = 0;
    proof {
        assert(record_views(r@) =~= after(all.subrange(0, 0), lsn));
    }
    while i < records.len()
        invariant
            i <= records.len(),
            all == record_views(records@),
            record_views(r@) == after(all.subrange(0, i as int), lsn),
        decreases records.len() - i,
    {
        let ghost before = record_views(r@);
        proof {
            let next = all.subrange(0, i as int + 1);
            assert(next.drop_last() =~= all.subrange(0, i as int));
            assert(next.last() == records@[i as int]@);
        }
        if records[i].lsn > lsn {
            r.push(records[i].clone());
            proof {
                assert(record_views(r@) =~= before.push(records@[i as int]@));
            }
        }
        i += 1;
    }
    assert(all.subrange(0, all.len() as int) =~= all);
    r
}

struct LogOrder;

impl Comparator<WalRecord> for LogOrder {
    closed spec fn rank(&self, a: WalRecord, b: WalRecord) -> Rank {
        value::rank_by(a.lsn < b.lsn, b.lsn < a.lsn)
    }

    fn compare(&self, a: &WalRecord, b: &WalRecord) -> (r: Rank) {
        if a.lsn < b.lsn {
            Rank::Less
        } else if b.lsn < a.lsn {
            Rank::Greater
        } else {
            Rank::Equal
        }
    }
}

/// The order of the log.
pub open spec fn log_order() -> spec_fn(RecordView, RecordView) -> Rank {
    |a: RecordView, b: RecordView| value::rank_by(a.lsn < b.lsn, b.lsn < a.lsn)
}

/// The records after a place in the log, in its order, from the records of all its
/// segments.
pub fn wal_records_since(records: &Vec<WalRecord>, since_lsn: u64) -> (r: Vec<WalRecord>)
    ensures
        sort::stably_sorted(after(record_views(records@), since_lsn), record_views(r@), log_order()),
{
    let mut r = records_after(records, since_lsn);
    let ghost before = r@;
    stable_sort(&mut r, &LogOrder);
    proof {
        let f = |a: WalRecord, b: WalRecord| LogOrder.rank(a, b);
        let view = |x: WalRecord| x@;
        assert forall|a: WalRecord, b: WalRecord| #[trigger] f(a, b) == log_order()(view(a), view(b)) by {}
        sort::lemma_sorted_views(before, r@, f, view, log_order());
    }
    r
}

/// What is read of the log after a place is exactly its records after that place, each
/// as often as it is there and those of transactions among them, in increasing order.
pub proof fn lemma_log_in_order(s: Seq<RecordView>, r: Seq<RecordView>, lsn: u64)
    requires
        sort::stably_sorted(after(s, lsn), r, log_order()),
    ensures
        forall|i: int| 0 <= i < r.len() ==> (#[trigger] r[i]).lsn > lsn && s.contains(r[i]),
        forall|i: int, j: int| 0 <= i < j < r.len() ==> (#[trigger] r[i]).lsn <= (#[trigger] r[j]).lsn,
        forall|x: RecordView| #[trigger] s.contains(x) && x.lsn > lsn ==> r.contains(x),
        r.to_multiset() == after(s, lsn).to_multiset(),
{
    let kept = after(s, lsn);
    assert(sort::total_on(kept, log_order()));
    let p = choose|p: Seq<int>| #[trigger] sort::arrangement(kept, r, p) && sort::in_order(r, p, log_order());
    sort::lemma_arrangement_multiset(kept, r, p);
    assert forall|i: int| 0 <= i < r.len() implies (#[trigger] r[i]).lsn > lsn && s.contains(r[i]) by {
        assert(r[i] == kept[p[i]]);
        lemma_after(s, lsn, r[i]);
        assert(kept.contains(kept[p[i]]));
    }
    assert forall|x: RecordView| #[trigger] s.contains(x) && x.lsn > lsn implies r.contains(x) by {
        lemma_after(s, lsn, x);
        let i = choose|i: int| 0 <= i < kept.len() && kept[i] == x;
        sort::lemma_arrangement_onto(p, i);
        let j = choose|j: int| 0 <= j < p.len() && p[j] == i;
        assert(r[j] == kept[p[j]]);
    }
}

/// Where a record goes among records that are in order: behind those not after it.
spec fn slot(t: Seq<RecordView>, x: RecordView) -> int
    decreases t.len(),
{
    if t.len() == 0 || t.last().lsn <= x.lsn {
        t.len() as int
    } else {
        slot(t.drop_last(), x)
    }
}

/// Records in the order of the log, those of one place as they stood.
spec fn lined_up(s: Seq<RecordView>) -> Seq<RecordView>
    decreases s.len(),
{
    if s.len() == 0 {
        Seq::empty()
    } else {
        let t = lined_up(s.drop_last());
        t.insert(slot(t, s.last()), s.last())
    }
}

proof fn lemma_slot(t: Seq<RecordView>, x: RecordView)
    requires
        forall|i: int, j: int| 0 <= i < j < t.len() ==> (#[trigger] t[i]).lsn <= (#[trigger] t[j]).lsn,
    ensures
        0 <= slot(t, x) <= t.len(),
        forall|i: int| 0 <= i < slot(t, x) ==> (#[trigger] t[i]).lsn <= x.lsn,
        forall|i: int| slot(t, x) <= i < t.len() ==> (#[trigger] t[i]).lsn > x.lsn,
    decreases t.len(),
{
    if t.len() > 0 && t.last().lsn > x.lsn {
        lemma_slot(t.drop_last(), x);
        assert forall|i: int| 0 <= i < slot(t, x) implies (#[trigger] t[i]).lsn <= x.lsn by {
            assert(t.drop_last()[i] == t[i]);
        }
        assert forall|i: int| slot(t, x) <= i < t.len() implies (#[trigger] t[i]).lsn > x.lsn by {
            if i < t.len() - 1 {
                assert(t.drop_last()[i] == t[i]);
            }
        }
    } else if t.len() > 0 {
        assert forall|i: int| 0 <= i < t.len() implies (#[trigger] t[i]).lsn <= x.lsn by {
            if i < t.len() - 1 {
                assert(t[i].lsn <= t[t.len() - 1].lsn);
            }
        }
    }
}

spec fn lines_up(s: Seq<RecordView>, r: Seq<RecordView>, p: Seq<int>) -> bool {
    sort::arrangement(s, r, p) && sort::in_order(r, p, log_order())
}

proof fn lemma_lined_up(s: Seq<RecordView>) -> (p: Seq<int>)
    ensures
        lines_up(s, lined_up(s), p),
    decreases s.len(),
{
    if s.len() == 0 {
        Seq::empty()
    } else {
        let head = s.drop_last();
        let n = head.len() as int;
        let x = s.last();
        let q = lemma_lined_up(head);
        let t = lined_up(head);
        assert forall|i: int, j: int| 0 <= i < j < t.len() implies (#[trigger] t[i]).lsn <= (#[trigger] t[j]).lsn by {}
        lemma_slot(t, x);
        let at = slot(t, x);
        let p = q.insert(at, n);
        let r = lined_up(s);
        assert forall|i: int| 0 <= i < p.len() implies #[trigger] r[i] == s[p[i]] by {
            if i < at {
                assert(t[i] == head[q[i]]);
            } else if i > at {
                assert(t[i - 1] == head[q[i - 1]]);
            }
        }
        assert forall|i: int| 0 <= i < p.len() implies 0 <= #[trigger] p[i] < s.len() by {
            if i < at {
                assert(0 <= q[i] < n);
            } else if i > at {
                assert(0 <= q[i - 1] < n);
            }
        }
        assert forall|i: int, j: int| 0 <= i < j < p.len() implies #[trigger] p[i] != #[trigger] p[j] by {
            let i0 = if i < at { i } else { i - 1 };
            let j0 = if j < at { j } else { j - 1 };
            if i != at {
                assert(p[i] == q[i0] && 0 <= q[i0] < n);
            }
            if j != at {
                assert(p[j] == q[j0] && 0 <= q[j0] < n);
            }
            if i != at && j != at {
                assert(q[i0] != q[j0]);
            }
        }
        assert(sort::arrangement(s, r, p));
        assert forall|i: int, j: int|
            #![trigger r[i], r[j]]
            0 <= i < j < r.len() implies {
            ||| log_order()(r[i], r[j]) == Rank::Less
            ||| log_order()(r[i], r[j]) == Rank::Equal && p[i] < p[j]
        } by {
            let i0 = if i < at { i } else { i - 1 };
            let j0 = if j < at { j } else { j - 1 };
            if i == at {
                assert(r[j] == t[j0]);
            } else if j == at {
                assert(r[i] == t[i0]);
                assert(p[i] == q[i0] && 0 <= q[i0] < n);
            } else {
                assert(r[i] == t[i0] && r[j] == t[j0]);
                assert(p[i] == q[i0] && p[j] == q[j0]);
            }
        }
        p
    }
}

proof fn lemma_reading_lined_up(s: Seq<RecordView>, r: Seq<RecordView>)
    requires
        sort::stably_sorted(s, r, log_order()),
    ensures
        r == lined_up(s),
{
    let p = lemma_lined_up(s);
    assert(sort::arrangement(s, lined_up(s), p));
    assert(sort::total_on(s, log_order()));
    sort::lemma_stable_order_unique(s, r, lined_up(s), log_order());
}

proof fn lemma_after_put(t: Seq<RecordView>, x: RecordView, lsn: u64)
    requires
        forall|i: int, j: int| 0 <= i < j < t.len() ==> (#[trigger] t[i]).lsn <= (#[trigger] t[j]).lsn,
    ensures
        after(t.insert(slot(t, x), x), lsn) == (if x.lsn > lsn {
            after(t, lsn).insert(slot(after(t, lsn), x), x)
        } else {
            after(t, lsn)
        }),
    decreases t.len(),
{
    lemma_slot(t, x);
    if t.len() == 0 || t.last().lsn <= x.lsn {
        let put = t.insert(slot(t, x), x);
        assert(put =~= t.push(x));
        assert(put.drop_last() =~= t);
        if x.lsn > lsn {
            let kept = after(t, lsn);
            if kept.len() > 0 {
                lemma_after(t, lsn, kept.last());
                assert(kept.contains(kept.last()));
                let i = choose|i: int| 0 <= i < t.len() && t[i] == kept.last();
                assert(t[i].lsn <= x.lsn);
            }
            assert(kept.insert(slot(kept, x), x) =~= kept.push(x));
        }
    } else {
        let head = t.drop_last();
        let l = t.last();
        assert forall|i: int, j: int| 0 <= i < j < head.len() implies (#[trigger] head[i]).lsn <= (
        #[trigger] head[j]).lsn by {
            assert(t[i].lsn <= t[j].lsn);
        }
        lemma_after_put(head, x, lsn);
        lemma_slot(head, x);
        let put = t.insert(slot(t, x), x);
        assert(put =~= head.insert(slot(head, x), x).push(l));
        assert(put.drop_last() =~= head.insert(slot(head, x), x));
        if x.lsn > lsn {
            let kept = after(head, lsn);
            assert(after(t, lsn) =~= kept.push(l));
            assert(kept.push(l).drop_last() =~= kept);
            assert(slot(kept.push(l), x) == slot(kept, x));
            lemma_slot_within(kept, x);
            assert(kept.insert(slot(kept, x), x).push(l) =~= kept.push(l).insert(slot(kept, x), x));
        }
    }
}

proof fn lemma_slot_within(t: Seq<RecordView>, x: RecordView)
    ensures
        0 <= slot(t, x) <= t.len(),
    decreases t.len(),
{
    if t.len() > 0 && t.last().lsn > x.lsn {
        lemma_slot_within(t.drop_last(), x);
    }
}

proof fn lemma_after_lined_up(s: Seq<RecordView>, lsn: u64)
    ensures
        after(lined_up(s), lsn) == lined_up(after(s, lsn)),
    decreases s.len(),
{
    if s.len() > 0 {
        let head = s.drop_last();
        let t = lined_up(head);
        let p = lemma_lined_up(head);
        assert forall|i: int, j: int| 0 <= i < j < t.len() implies (#[trigger] t[i]).lsn <= (#[trigger] t[j]).lsn by {}
        lemma_after_put(t, s.last(), lsn);
        lemma_after_lined_up(head, lsn);
        let kept = after(head, lsn);
        assert(kept.push(s.last()).drop_last() =~= kept);
    }
}

proof fn lemma_after_twice(s: Seq<RecordView>, a: u64, b: u64)
    requires
        a <= b,
    ensures
        after(after(s, a), b) == after(s, b),
    decreases s.len(),
{
    if s.len() > 0 {
        lemma_after_twice(s.drop_last(), a, b);
        let kept = after(s.drop_last(), a);
        assert(kept.push(s.last()).drop_last() =~= kept);
    }
}

/// Reading on from a later place gives the rest of what reading from an earlier one
/// gives: of one log, what is read after `b` is what is read after `a`, without what is
/// not after `b`.
pub proof fn lemma_reading_on(s: Seq<RecordView>, from_a: Seq<RecordView>, from_b: Seq<RecordView>, a: u64, b: u64)
    requires
        a <= b,
        sort::stably_sorted(after(s, a), from_a, log_order()),
        sort::stably_sorted(after(s, b), from_b, log_order()),
    ensures
        from_b == after(from_a, b),
{
    lemma_reading_lined_up(after(s, a), from_a);
    lemma_reading_lined_up(after(s, b), from_b);
    lemma_after_lined_up(after(s, a), b);
    lemma_after_twice(s, a, b);
}

proof fn lemma_after(s: Seq<RecordView>, lsn: u64, x: RecordView)
    ensures
        after(s, lsn).contains(x) <==> s.contains(x) && x.lsn > lsn,
    decreases s.len(),
{
    if s.len() > 0 {
        let head = s.drop_last();
        let before = after(head, lsn);
        let kept = after(s, lsn);
        lemma_after(head, lsn, x);
        if head.contains(x) {
            let i = choose|i: int| 0 <= i < head.len() && head[i] == x;
            assert(s[i] == x);
        }
        if s.contains(x) {
            let i = choose|i: int| 0 <= i < s.len() && s[i] == x;
            if i < head.len() {
                assert(head[i] == x);
            }
        }
        assert(s[s.len() - 1] == s.last());
        if before.contains(x) {
            let i = choose|i: int| 0 <= i < before.len() && before[i] == x;
            assert(kept[i] == x);
        }
        if s.last().lsn > lsn {
            assert(kept[before.len() as int] == s.last());
            if kept.contains(x) && x != s.last() {
                let i = choose|i: int| 0 <= i < kept.len() && kept[i] == x;
                assert(before[i] == x);
            }
        }
    }
}

/// Whether a replica passes over a record that it is sent: it keeps no transactions.
pub open spec fn control(t: RecordType) -> bool {
    t is TxBegin || t is TxCommit || t is TxAbort || t is Checkpoint
}

/// Whether a replica passes over a record that it is sent.
pub fn is_control(t: RecordType) -> (b: bool)
    ensures
        b == control(t),
{
    match t {
        RecordType::TxBegin | RecordType::TxCommit | RecordType::TxAbort | RecordType::Checkpoint => true,
        _ => false,
    }
}

/// What applying a record that came from another node does.
pub open spec fn applied_actions(t: RecordType, known: bool, place: u32, states: Seq<Option<LocState>>) -> Seq<
    ReplayAction,
> {
    if control(t) {
        Seq::empty()
    } else {
        actions_of(t, known, place, states)
    }
}

/// What applying a record that came from another node does: nothing for one of a
/// transaction, and for another what replaying it does.
pub fn apply_wal_record(t: RecordType, known: bool, place: u32, states: &Vec<Option<LocState>>) -> (r: ReplayStep)
    ensures
        r.actions@ == applied_actions(t, known, place, states@),
        r.counted == counts(t, known),
        r.handled == replayable(t),
{
    if is_control(t) {
        let actions: Vec<ReplayAction> = Vec::new();
        assert(actions@ =~= Seq::<ReplayAction>::empty());
        return ReplayStep { actions, counted: false, handled: false };
    }
    replay_step(t, known, place, states)
}

/// A vector index that was restored from a snapshot, and where the log stood then.
#[derive(Debug)]
pub struct Restored {
    pub key: String,
    pub lsn: u64,
}

/// Whether some restored index has a key and lags behind a place in the log.
pub open spec fn lags(restored: Seq<Restored>, key: Seq<char>, lsn: u64) -> bool {
    exists|i: int| 0 <= i < restored.len() && (#[trigger] restored[i]).key@ == key && restored[i].lsn < lsn
}

fn is_lagging(restored: &Vec<Restored>, key: &str, lsn: u64) -> (b: bool)
    ensures
        b == lags(restored@, key@, lsn),
{
    let mut i: usize = 0;
    while i < restored.len()
        invariant
            i <= restored.len(),
            forall|j: int| 0 <= j < i ==> !((#[trigger] restored@[j]).key@ == key@ && restored@[j].lsn < lsn),
        decreases restored.len() - i,
    {
        if text_equal(restored[i].key.as_str(), key) && restored[i].lsn < lsn {
            return true;
        }
        i += 1;
    }
    false
}

/// The places of the vectors of an entity, written at a place in the log, that restored
/// indexes still lack.
pub open spec fn places_behind(
    restored: Seq<Restored>,
    rs: Seq<Representation>,
    collection: Seq<char>,
    lsn: u64,
) -> Seq<int>
    decreases rs.len(),
{
    if rs.len() == 0 {
        Seq::empty()
    } else {
        let before = places_behind(restored, rs.drop_last(), collection, lsn);
        let r = rs.last();
        if r.vector is Dense && lags(restored, fetch::scoped(collection, r.name@), lsn) {
            before.push(rs.len() - 1)
        } else {
            before
        }
    }
}

/// The places of the vectors of an entity that restored indexes still lack.
pub fn vectors_to_catch_up(restored: &Vec<Restored>, entity: &Entity, collection: &str, lsn: u64) -> (r: Vec<usize>)
    ensures
        r@.map_values(|i: usize| i as int) == places_behind(
            restored@,
            entity.representations@,
            collection@,
            lsn,
        ),
        forall|i: int| 0 <= i < r@.len() ==> (#[trigger] r@[i]) < entity.representations@.len(),
{
    let ghost f = |i: usize| i as int;
    let ghost all = entity.representations@;
    let mut r: Vec<usize> = Vec::new();
    let mut i: usize = 0;
    proof {
        assert(r@.map_values(f) =~= places_behind(restored@, all.subrange(0, 0), collection@, lsn));
    }
    while i < entity.representations.len()
        invariant
            i <= entity.representations.len(),
            all == entity.representations@,
            f == (|i: usize| i as int),
            r@.map_values(f) == places_behind(restored@, all.subrange(0, i as int), collection@, lsn),
            forall|k: int| 0 <= k < r@.len() ==> (#[trigger] r@[k]) < i,
        decreases entity.representations.len() - i,
    {
        let ghost before = r@.map_values(f);
        proof {
            let next = all.subrange(0, i as int + 1);
            assert(next.drop_last() =~= all.subrange(0, i as int));
            assert(next.last() == all[i as int]);
        }
        let repr = &entity.representations[i];
        match &repr.vector {
            VectorData::Dense(_) => {
                let key = scoped_key(collection, repr.name.as_str());
                if is_lagging(restored, key.as_str(), lsn) {
                    r.push(i);
                    proof {
                        assert(r@.map_values(f) =~= before.push(i as int));
                    }
                }
            },
            VectorData::Sparse(_) => {},
        }
        i += 1;
    }
    assert(all.subrange(0, all.len() as int) =~= all);
    r
}

/// Whether a restored index still holds an entity of a collection that was deleted at
/// a place in the log.
pub fn must_forget(restored: &Restored, collection: &str, lsn: u64) -> (b: bool)
    ensures
        b == (text::has_prefix(restored.key@, collection@ + ":"@) && restored.lsn < lsn),
{
    let prefix = cat2(collection, ":");
    starts_with(restored.key.as_str(), prefix.as_str()) && restored.lsn < lsn
}

/// The state of a vector after transitions.
pub open spec fn moved_to(state: LocState, actions: Seq<ReplayAction>) -> LocState
    decreases actions.len(),
{
    if actions.len() == 0 {
        state
    } else {
        match actions.last() {
            ReplayAction::Transition(_, s) => s,
            _ => moved_to(state, actions.drop_last()),
        }
    }
}

/// Replaying the write of a computed vector leaves the vector clean, whatever its state
/// was, and leaves a clean one alone.
pub proof fn lemma_write_cleans(place: u32, state: LocState)
    ensures
        moved_to(state, cleaning(place, Some(state))) == LocState::Clean,
        state == LocState::Clean ==> cleaning(place, Some(state)).len() == 0,
{
}

/// No record of a transaction, and none of the routing layer, does anything or counts.
pub proof fn lemma_control_does_nothing(t: RecordType, known: bool, place: u32, states: Seq<Option<LocState>>)
    requires
        !replayable(t),
    ensures
        actions_of(t, known, place, states).len() == 0,
        !counts(t, known),
{
}

/// Applying a record is replaying it, and a record of a transaction does nothing.
pub proof fn lemma_applying_is_replaying(t: RecordType, known: bool, place: u32, states: Seq<Option<LocState>>)
    ensures
        applied_actions(t, known, place, states) == actions_of(t, known, place, states),
        control(t) ==> applied_actions(t, known, place, states).len() == 0,
{
}

} // verus!
