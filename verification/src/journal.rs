//! The order in which a statement that writes is carried out: it is logged and committed
//! first, and applied after.

use vstd::prelude::*;

use crate::location::{LocState, Tier};
use crate::replay;
use crate::replay::{RecordType, ReplayAction};

verus! {

/// A statement, or a piece of background work, that writes.
#[derive(Debug)]
pub enum Statement {
    CreateCollection,
    /// An INSERT of an entity with so many vectors.
    Insert(u32),
    /// An UPDATE that makes the vectors at these places stale.
    Update(Vec<u32>),
    DeleteEntity,
    CreateEdgeType,
    InsertEdge,
    DeleteEdge,
    ConfirmEdge,
    ReconfirmEdge,
    InferEdge,
    PruneEdge,
    DropCollection,
    DropEdgeType,
    /// Computing the vector at a place again.
    Recompute(u32),
}

/// One step of carrying out a statement.
#[derive(Clone, Copy, PartialEq, Eq, Structural, Debug)]
pub enum Step {
    /// Begins a transaction in the log.
    Begin,
    /// Appends a record to the log.
    Append(RecordType),
    /// Commits the transaction.
    Commit,
    /// Does to the store and the tables what the record says.
    Apply(ReplayAction),
}

/// `n` times the same.
pub open spec fn times<A>(x: A, n: nat) -> Seq<A> {
    Seq::new(n, |i: int| x)
}

/// The records that a statement appends.
pub open spec fn records_of(s: Statement) -> Seq<RecordType> {
    match s {
        Statement::CreateCollection => seq![RecordType::SchemaCreateColl],
        Statement::Insert(n) => seq![RecordType::EntityWrite] + times(RecordType::LocationUpdate, n as nat),
        Statement::Update(stale) => seq![RecordType::EntityWrite] + times(RecordType::ReprDirty, stale@.len()),
        Statement::DeleteEntity => seq![RecordType::EntityDelete],
        Statement::CreateEdgeType => seq![RecordType::SchemaCreateEdgeType],
        Statement::InsertEdge => seq![RecordType::EdgeWrite],
        Statement::DeleteEdge | Statement::PruneEdge => seq![RecordType::EdgeDelete],
        Statement::ConfirmEdge => seq![RecordType::EdgeConfirm],
        Statement::ReconfirmEdge => seq![RecordType::EdgeConfidenceUpdate],
        Statement::InferEdge => seq![RecordType::EdgeInferred],
        Statement::DropCollection => seq![RecordType::SchemaDropColl],
        Statement::DropEdgeType => seq![RecordType::SchemaDropEdgeType],
        Statement::Recompute(_) => seq![RecordType::ReprWrite],
    }
}

/// What a statement does to the store and the tables, in order. The edges of an entity
/// that is deleted are removed beside this, and leave no records.
pub open spec fn effects_of(s: Statement) -> Seq<ReplayAction> {
    match s {
        Statement::CreateCollection => seq![ReplayAction::StoreCollection, ReplayAction::RegisterSchema],
        Statement::Insert(n) => seq![ReplayAction::StoreEntity, ReplayAction::TrackEntity] + times(
            ReplayAction::RegisterLocation,
            n as nat,
        ),
        Statement::Update(stale) => seq![ReplayAction::StoreEntity] + stale@.map_values(
            |place: u32| ReplayAction::Transition(place, LocState::Dirty),
        ),
        Statement::DeleteEntity => seq![
            ReplayAction::ForgetLocations,
            ReplayAction::DeleteEntity,
            ReplayAction::DeleteFromTier(Tier::NVMe),
            ReplayAction::DeleteFromTier(Tier::Archive),
        ],
        Statement::CreateEdgeType => seq![ReplayAction::StoreEdgeType, ReplayAction::RegisterEdgeType],
        Statement::InsertEdge
        | Statement::ConfirmEdge
        | Statement::ReconfirmEdge
        | Statement::InferEdge => seq![ReplayAction::StoreEdge],
        Statement::DeleteEdge | Statement::PruneEdge => seq![ReplayAction::DeleteEdge],
        Statement::DropCollection => seq![
            ReplayAction::ForgetIndexes,
            ReplayAction::ForgetEntities,
            ReplayAction::DropCollection,
            ReplayAction::ForgetSchema,
        ],
        Statement::DropEdgeType => seq![
            ReplayAction::ForgetEdges,
            ReplayAction::DropEdgeType,
            ReplayAction::ForgetEdgeType,
        ],
        Statement::Recompute(place) => seq![
            ReplayAction::StoreEntity,
            ReplayAction::Transition(place, LocState::Clean),
        ],
    }
}

/// How a statement is carried out.
pub open spec fn steps_of(s: Statement) -> Seq<Step> {
    seq![Step::Begin] + records_of(s).map_values(|r: RecordType| Step::Append(r)) + seq![Step::Commit] + effects_of(
        s,
    ).map_values(|a: ReplayAction| Step::Apply(a))
}

fn repeat_record(r: &mut Vec<RecordType>, x: RecordType, n: usize)
    ensures
        final(r)@ == old(r)@ + times(x, n as nat),
{
    let ghost before = r@;
    let mut i: usize = 0;
    while i < n
        invariant
            i <= n,
            r@ == before + times(x, i as nat),
        decreases n - i,
    {
        r.push(x);
        proof {
            assert(r@ =~= before + times(x, (i + 1) as nat));
        }
        i += 1;
    }
    assert(r@ =~= before + times(x, n as nat));
}

/// The records that a statement appends.
pub fn records(s: &Statement) -> (r: Vec<RecordType>)
    ensures
        r@ == records_of(*s),
{
    let mut r: Vec<RecordType> = Vec::new();
    match s {
        Statement::CreateCollection => r.push(RecordType::SchemaCreateColl),
        Statement::Insert(n) => {
            r.push(RecordType::EntityWrite);
            repeat_record(&mut r, RecordType::LocationUpdate, *n as usize);
        },
        Statement::Update(stale) => {
            r.push(RecordType::EntityWrite);
            repeat_record(&mut r, RecordType::ReprDirty, stale.len());
        },
        Statement::DeleteEntity => r.push(RecordType::EntityDelete),
        Statement::CreateEdgeType => r.push(RecordType::SchemaCreateEdgeType),
        Statement::InsertEdge => r.push(RecordType::EdgeWrite),
        Statement::DeleteEdge | Statement::PruneEdge => r.push(RecordType::EdgeDelete),
        Statement::ConfirmEdge => r.push(RecordType::EdgeConfirm),
        Statement::ReconfirmEdge => r.push(RecordType::EdgeConfidenceUpdate),
        Statement::InferEdge => r.push(RecordType::EdgeInferred),
        Statement::DropCollection => r.push(RecordType::SchemaDropColl),
        Statement::DropEdgeType => r.push(RecordType::SchemaDropEdgeType),
        Statement::Recompute(_) => r.push(RecordType::ReprWrite),
    }
    assert(r@ =~= records_of(*s));
    r
}

/// What a statement does to the store and the tables, in order.
pub fn effects(s: &Statement) -> (r: Vec<ReplayAction>)
    ensures
        r@ == effects_of(*s),
{
    let mut r: Vec<ReplayAction> = Vec::new();
    match s {
        Statement::CreateCollection => {
            r.push(ReplayAction::StoreCollection);
            r.push(ReplayAction::RegisterSchema);
        },
        Statement::Insert(n) => {
            r.push(ReplayAction::StoreEntity);
            r.push(ReplayAction::TrackEntity);
            let ghost first = r@;
            let mut i: u32 = 0;
            while i < *n
                invariant
                    i <= *n,
                    r@ == first + times(ReplayAction::RegisterLocation, i as nat),
                decreases *n - i,
            {
                r.push(ReplayAction::RegisterLocation);
                proof {
                    assert(r@ =~= first + times(ReplayAction::RegisterLocation, (i + 1) as nat));
                }
                i += 1;
            }
        },
        Statement::Update(stale) => {
            r.push(ReplayAction::StoreEntity);
            let ghost f = |place: u32| ReplayAction::Transition(place, LocState::Dirty);
            let ghost first = r@;
            let mut i: usize = 0;
            proof {
                assert(first + stale@.subrange(0, 0).map_values(f) =~= first);
            }
            while i < stale.len()
                invariant
                    i <= stale.len(),
                    f == (|place: u32| ReplayAction::Transition(place, LocState::Dirty)),
                    r@ == first + stale@.subrange(0, i as int).map_values(f),
                decreases stale.len() - i,
            {
                r.push(ReplayAction::Transition(stale[i], LocState::Dirty));
                proof {
                    assert(r@ =~= first + stale@.subrange(0, i as int + 1).map_values(f));
                }
                i += 1;
            }
            assert(stale@.subrange(0, stale@.len() as int) =~= stale@);
        },
        Statement::DeleteEntity => {
            r.push(ReplayAction::ForgetLocations);
            r.push(ReplayAction::DeleteEntity);
            r.push(ReplayAction::DeleteFromTier(Tier::NVMe));
            r.push(ReplayAction::DeleteFromTier(Tier::Archive));
        },
        Statement::CreateEdgeType => {
            r.push(ReplayAction::StoreEdgeType);
            r.push(ReplayAction::RegisterEdgeType);
        },
        Statement::InsertEdge | Statement::ConfirmEdge | Statement::ReconfirmEdge | Statement::InferEdge => {
            r.push(ReplayAction::StoreEdge);
        },
        Statement::DeleteEdge | Statement::PruneEdge => {
            r.push(ReplayAction::DeleteEdge);
        },
        Statement::DropCollection => {
            r.push(ReplayAction::ForgetIndexes);
            r.push(ReplayAction::ForgetEntities);
            r.push(ReplayAction::DropCollection);
            r.push(ReplayAction::ForgetSchema);
        },
        Statement::DropEdgeType => {
            r.push(ReplayAction::ForgetEdges);
            r.push(ReplayAction::DropEdgeType);
            r.push(ReplayAction::ForgetEdgeType);
        },
        Statement::Recompute(place) => {
            r.push(ReplayAction::StoreEntity);
            r.push(ReplayAction::Transition(*place, LocState::Clean));
        },
    }
    assert(r@ =~= effects_of(*s));
    r
}

/// How a statement is carried out.
pub fn steps(s: &Statement) -> (r: Vec<Step>)
    ensures
        r@ == steps_of(*s),
{
    let logged = records(s);
    let applied = effects(s);
    let ghost f = |x: RecordType| Step::Append(x);
    let ghost g = |a: ReplayAction| Step::Apply(a);
    let mut r: Vec<Step> = Vec::new();
    r.push(Step::Begin);
    let ghost head = r@;
    let mut i: usize = 0;
    proof {
        assert(head + logged@.subrange(0, 0).map_values(f) =~= head);
    }
    while i < logged.len()
        invariant
            i <= logged.len(),
            f == (|x: RecordType| Step::Append(x)),
            r@ == head + logged@.subrange(0, i as int).map_values(f),
        decreases logged.len() - i,
    {
        r.push(Step::Append(logged[i]));
        proof {
            assert(r@ =~= head + logged@.subrange(0, i as int + 1).map_values(f));
        }
        i += 1;
    }
    assert(logged@.subrange(0, logged@.len() as int) =~= logged@);
    r.push(Step::Commit);
    let ghost middle = r@;
    let mut i: usize = 0;
    proof {
        assert(middle + applied@.subrange(0, 0).map_values(g) =~= middle);
    }
    while i < applied.len()
        invariant
            i <= applied.len(),
            g == (|a: ReplayAction| Step::Apply(a)),
            r@ == middle + applied@.subrange(0, i as int).map_values(g),
        decreases applied.len() - i,
    {
        r.push(Step::Apply(applied[i]));
        proof {
            assert(r@ =~= middle + applied@.subrange(0, i as int + 1).map_values(g));
        }
        i += 1;
    }
    assert(applied@.subrange(0, applied@.len() as int) =~= applied@);
    assert(r@ =~= steps_of(*s));
    r
}

/// Nothing is applied before it is committed, and nothing is logged after.
pub proof fn lemma_write_ahead(s: Statement, i: int, j: int)
    requires
        0 <= i < steps_of(s).len(),
        0 <= j < steps_of(s).len(),
        steps_of(s)[i] == Step::Commit,
    ensures
        steps_of(s)[j] is Apply ==> i < j,
        steps_of(s)[j] is Append || steps_of(s)[j] is Begin ==> j < i,
        steps_of(s)[j] == Step::Commit ==> i == j,
{
    let n = records_of(s).len();
    assert(steps_of(s)[n as int + 1] == Step::Commit);
}

/// Whether the store has what a record is about when the record is replayed after a
/// crash: not what the record itself creates.
pub open spec fn known_then(r: RecordType) -> bool {
    !(r is SchemaCreateColl || r is SchemaCreateEdgeType)
}

/// What replaying the records of a statement does, given the state in which the vector
/// that a recomputation is about was left.
pub open spec fn replayed(s: Statement, i: int) -> Seq<ReplayAction> {
    let r = records_of(s)[i];
    match s {
        Statement::Update(stale) => replay::actions_of(
            r,
            true,
            if i > 0 {
                stale@[i - 1]
            } else {
                0
            },
            seq![Some(LocState::Clean)],
        ),
        Statement::Recompute(place) => replay::actions_of(
            r,
            true,
            0,
            Seq::new((place + 1) as nat, |k: int| Some(LocState::Recomputing)),
        ),
        _ => replay::actions_of(r, known_then(r), 0, Seq::empty()),
    }
}

proof fn lemma_cleaning_has(states: Seq<Option<LocState>>, place: int)
    requires
        0 <= place < states.len(),
        states.len() <= u32::MAX + 1,
        states[place] == Some(LocState::Recomputing),
    ensures
        replay::cleaning_all(states).contains(ReplayAction::Transition(place as u32, LocState::Clean)),
    decreases states.len(),
{
    let a = ReplayAction::Transition(place as u32, LocState::Clean);
    let head = states.drop_last();
    let before = replay::cleaning_all(head);
    let all = replay::cleaning_all(states);
    if place == states.len() - 1 {
        assert(all[before.len() as int] == a);
    } else {
        lemma_cleaning_has(head, place);
        let k = choose|k: int| 0 <= k < before.len() && before[k] == a;
        assert(all[k] == a);
    }
}

/// Recovery repeats what is logged: whatever a committed statement was to do, replaying
/// its records does. The edges that go with a deleted entity are outside of this: their
/// removal leaves no records.
pub proof fn lemma_replay_repeats(s: Statement, a: ReplayAction)
    requires
        effects_of(s).contains(a),
    ensures
        exists|i: int| 0 <= i < records_of(s).len() && #[trigger] replayed(s, i).contains(a),
{
    let k = choose|k: int| 0 <= k < effects_of(s).len() && effects_of(s)[k] == a;
    match s {
        Statement::Insert(n) => {
            assert(records_of(s)[0] == RecordType::EntityWrite);
            if k < 2 {
                assert(replayed(s, 0)[1 - k] == a);
                assert(replayed(s, 0).contains(a));
            } else {
                assert(records_of(s)[1] == RecordType::LocationUpdate);
                assert(replayed(s, 1)[0] == a);
                assert(replayed(s, 1).contains(a));
            }
        },
        Statement::Update(stale) => {
            if k == 0 {
                assert(replayed(s, 0)[1] == a);
                assert(replayed(s, 0).contains(a));
            } else {
                assert(records_of(s)[k] == RecordType::ReprDirty);
                assert(replayed(s, k)[0] == a);
                assert(replayed(s, k).contains(a));
            }
        },
        Statement::DeleteEntity => {
            let r = replayed(s, 0);
            assert(r[0] == ReplayAction::DeleteEntity);
            assert(r[1] == ReplayAction::DeleteFromTier(Tier::NVMe));
            assert(r[2] == ReplayAction::DeleteFromTier(Tier::Archive));
            assert(r[3] == ReplayAction::ForgetLocations);
            assert(r.contains(a));
        },
        Statement::DropCollection => {
            let r = replayed(s, 0);
            assert(r[0] == ReplayAction::DropCollection);
            assert(r[1] == ReplayAction::ForgetSchema);
            assert(r[2] == ReplayAction::ForgetIndexes);
            assert(r[3] == ReplayAction::ForgetEntities);
            assert(r.contains(a));
        },
        Statement::DropEdgeType => {
            let r = replayed(s, 0);
            assert(r[0] == ReplayAction::DropEdgeType);
            assert(r[1] == ReplayAction::ForgetEdgeType);
            assert(r[2] == ReplayAction::ForgetEdges);
            assert(r.contains(a));
        },
        Statement::Recompute(place) => {
            let states: Seq<Option<LocState>> = Seq::new(
                (place + 1) as nat,
                |i: int| Some(LocState::Recomputing),
            );
            let first = seq![ReplayAction::TrackEntity, ReplayAction::StoreEntity];
            assert(replayed(s, 0) =~= first + replay::cleaning_all(states));
            if k == 0 {
                assert(replayed(s, 0)[1] == a);
                assert(replayed(s, 0).contains(a));
            } else {
                lemma_cleaning_has(states, place as int);
                let c = replay::cleaning_all(states);
                let j = choose|j: int| 0 <= j < c.len() && c[j] == a;
                assert(replayed(s, 0)[2 + j] == a);
                assert(replayed(s, 0).contains(a));
            }
        },
        _ => {
            assert(replayed(s, 0)[k] == a);
            assert(replayed(s, 0).contains(a));
        },
    }
}

} // verus!
