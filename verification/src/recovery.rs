//! What recovery brings back: a statement that was committed is finished by the replay of
//! its records, wherever a crash cut it short.

use vstd::prelude::*;

use crate::journal;
use crate::journal::Statement;
use crate::location::LocState;
use crate::replay;
use crate::replay::{RecordType, ReplayAction};

verus! {

/// What the store holds: collections, entities of collections, types of edges, and edges.
pub struct Disk {
    pub collections: Map<Seq<char>, Seq<u8>>,
    pub entities: Map<(Seq<char>, Seq<char>), Seq<u8>>,
    pub edge_types: Map<Seq<char>, Seq<u8>>,
    pub edges: Map<(Seq<char>, Seq<char>, Seq<char>), Seq<u8>>,
}

/// What a statement and its records are about, and what they write.
pub struct Subject {
    pub collection: Seq<char>,
    pub id: Seq<char>,
    pub edge_type: Seq<char>,
    pub from: Seq<char>,
    pub to: Seq<char>,
    pub bytes: Seq<u8>,
}

/// The store after an action. Those that are not here change what is in memory alone.
pub open spec fn applied(a: ReplayAction, s: Subject, d: Disk) -> Disk {
    match a {
        ReplayAction::StoreCollection => Disk { collections: d.collections.insert(s.collection, s.bytes), ..d },
        ReplayAction::StoreEntity => Disk { entities: d.entities.insert((s.collection, s.id), s.bytes), ..d },
        ReplayAction::DeleteEntity => Disk { entities: d.entities.remove((s.collection, s.id)), ..d },
        ReplayAction::DropCollection => Disk {
            collections: d.collections.remove(s.collection),
            entities: d.entities.remove_keys(Set::new(|k: (Seq<char>, Seq<char>)| k.0 == s.collection)),
            ..d
        },
        ReplayAction::StoreEdgeType => Disk { edge_types: d.edge_types.insert(s.edge_type, s.bytes), ..d },
        ReplayAction::StoreEdge => Disk { edges: d.edges.insert((s.edge_type, s.from, s.to), s.bytes), ..d },
        ReplayAction::DeleteEdge => Disk { edges: d.edges.remove((s.edge_type, s.from, s.to)), ..d },
        ReplayAction::DropEdgeType => Disk {
            edge_types: d.edge_types.remove(s.edge_type),
            edges: d.edges.remove_keys(Set::new(|k: (Seq<char>, Seq<char>, Seq<char>)| k.0 == s.edge_type)),
            ..d
        },
        _ => d,
    }
}

/// The store after actions, one after the other.
pub open spec fn run(actions: Seq<ReplayAction>, s: Subject, d: Disk) -> Disk
    decreases actions.len(),
{
    if actions.len() == 0 {
        d
    } else {
        applied(actions.last(), s, run(actions.drop_last(), s, d))
    }
}

/// Whether the store has what a record belongs to.
pub open spec fn known(t: RecordType, s: Subject, d: Disk) -> bool {
    match t {
        RecordType::SchemaCreateColl
        | RecordType::SchemaDropColl
        | RecordType::EntityWrite
        | RecordType::EntityDelete
        | RecordType::ReprWrite => d.collections.contains_key(s.collection),
        _ => d.edge_types.contains_key(s.edge_type),
    }
}

/// The store after the replay of a record; the place and the states are those of the
/// vectors that the record is about.
pub open spec fn replayed(t: RecordType, place: u32, states: Seq<Option<LocState>>, s: Subject, d: Disk) -> Disk {
    run(replay::actions_of(t, known(t, s, d), place, states), s, d)
}

/// The store after the replay of records, one after the other.
pub open spec fn recovered(
    ts: Seq<RecordType>,
    places: Seq<u32>,
    states: Seq<Seq<Option<LocState>>>,
    s: Subject,
    d: Disk,
) -> Disk
    decreases ts.len(),
{
    if ts.len() == 0 {
        d
    } else {
        let i = ts.len() - 1;
        replayed(ts[i], places[i], states[i], s, recovered(ts.drop_last(), places, states, s, d))
    }
}

/// Whether a statement can be run: it creates nothing that is there, and belongs to
/// something that is.
pub open spec fn ready(st: Statement, s: Subject, d: Disk) -> bool {
    match st {
        Statement::CreateCollection => !d.collections.contains_key(s.collection),
        Statement::CreateEdgeType => !d.edge_types.contains_key(s.edge_type),
        Statement::Insert(_)
        | Statement::Update(_)
        | Statement::DeleteEntity
        | Statement::Recompute(_)
        | Statement::DropCollection => d.collections.contains_key(s.collection),
        Statement::InsertEdge
        | Statement::ConfirmEdge
        | Statement::ReconfirmEdge
        | Statement::InferEdge
        | Statement::DropEdgeType => d.edge_types.contains_key(s.edge_type),
        Statement::DeleteEdge | Statement::PruneEdge => true,
    }
}

/// The one action of a statement that changes the store.
pub open spec fn deed(st: Statement) -> ReplayAction {
    match st {
        Statement::CreateCollection => ReplayAction::StoreCollection,
        Statement::Insert(_) | Statement::Update(_) | Statement::Recompute(_) => ReplayAction::StoreEntity,
        Statement::DeleteEntity => ReplayAction::DeleteEntity,
        Statement::CreateEdgeType => ReplayAction::StoreEdgeType,
        Statement::InsertEdge
        | Statement::ConfirmEdge
        | Statement::ReconfirmEdge
        | Statement::InferEdge => ReplayAction::StoreEdge,
        Statement::DeleteEdge | Statement::PruneEdge => ReplayAction::DeleteEdge,
        Statement::DropCollection => ReplayAction::DropCollection,
        Statement::DropEdgeType => ReplayAction::DropEdgeType,
    }
}

/// Where that action stands among those of the statement.
spec fn deed_place(st: Statement) -> int {
    match st {
        Statement::DeleteEntity => 1,
        Statement::DropCollection => 2,
        Statement::DropEdgeType => 1,
        _ => 0,
    }
}

/// Whether an action leaves the store alone.
spec fn quiet(a: ReplayAction) -> bool {
    match a {
        ReplayAction::StoreCollection
        | ReplayAction::StoreEntity
        | ReplayAction::DeleteEntity
        | ReplayAction::DropCollection
        | ReplayAction::StoreEdgeType
        | ReplayAction::StoreEdge
        | ReplayAction::DeleteEdge
        | ReplayAction::DropEdgeType => false,
        _ => true,
    }
}

proof fn lemma_quiet(actions: Seq<ReplayAction>, s: Subject, d: Disk)
    requires
        forall|i: int| 0 <= i < actions.len() ==> quiet(#[trigger] actions[i]),
    ensures
        run(actions, s, d) == d,
    decreases actions.len(),
{
    if actions.len() > 0 {
        lemma_quiet(actions.drop_last(), s, d);
        assert(quiet(actions[actions.len() - 1]));
    }
}

proof fn lemma_one_deed(actions: Seq<ReplayAction>, p: int, s: Subject, d: Disk)
    requires
        0 <= p < actions.len(),
        forall|i: int| 0 <= i < actions.len() && i != p ==> quiet(#[trigger] actions[i]),
    ensures
        run(actions, s, d) == applied(actions[p], s, d),
    decreases actions.len(),
{
    let head = actions.drop_last();
    if p == actions.len() - 1 {
        lemma_quiet(head, s, d);
    } else {
        assert(quiet(actions[actions.len() - 1]));
        lemma_one_deed(head, p, s, d);
    }
}

proof fn lemma_effects(st: Statement)
    ensures
        0 <= deed_place(st) < journal::effects_of(st).len(),
        journal::effects_of(st)[deed_place(st)] == deed(st),
        forall|i: int|
            0 <= i < journal::effects_of(st).len() && i != deed_place(st) ==> quiet(
                #[trigger] journal::effects_of(st)[i],
            ),
{
    let es = journal::effects_of(st);
    match st {
        Statement::Insert(n) => {
            assert forall|i: int| 0 <= i < es.len() && i != 0 implies quiet(#[trigger] es[i]) by {
                if i >= 2 {
                    assert(es[i] == ReplayAction::RegisterLocation);
                }
            }
        },
        _ => {},
    }
}

proof fn lemma_cut_short(st: Statement, s: Subject, d: Disk, k: int)
    requires
        0 <= k <= journal::effects_of(st).len(),
    ensures
        run(journal::effects_of(st).take(k), s, d) == (if k <= deed_place(st) {
            d
        } else {
            applied(deed(st), s, d)
        }),
{
    lemma_effects(st);
    let part = journal::effects_of(st).take(k);
    if k <= deed_place(st) {
        assert forall|i: int| 0 <= i < part.len() implies quiet(#[trigger] part[i]) by {
            assert(part[i] == journal::effects_of(st)[i]);
        }
        lemma_quiet(part, s, d);
    } else {
        assert forall|i: int| 0 <= i < part.len() && i != deed_place(st) implies quiet(#[trigger] part[i]) by {
            assert(part[i] == journal::effects_of(st)[i]);
        }
        lemma_one_deed(part, deed_place(st), s, d);
    }
}

proof fn lemma_cleaning_quiet(states: Seq<Option<LocState>>)
    ensures
        forall|i: int|
            0 <= i < replay::cleaning_all(states).len() ==> quiet(#[trigger] replay::cleaning_all(states)[i]),
    decreases states.len(),
{
    if states.len() > 0 {
        lemma_cleaning_quiet(states.drop_last());
        let before = replay::cleaning_all(states.drop_last());
        let all = replay::cleaning_all(states);
        assert forall|i: int| 0 <= i < all.len() implies quiet(#[trigger] all[i]) by {
            if i < before.len() {
                assert(all[i] == before[i]);
            }
        }
    }
}

/// The replay of the first record of a statement does its deed, or finds it done.
proof fn lemma_first_record(
    st: Statement,
    place: u32,
    states: Seq<Option<LocState>>,
    s: Subject,
    d: Disk,
    done: bool,
)
    requires
        ready(st, s, d),
    ensures
        replayed(
            journal::records_of(st)[0],
            place,
            states,
            s,
            if done {
                applied(deed(st), s, d)
            } else {
                d
            },
        ) == applied(deed(st), s, d),
{
    let x = if done {
        applied(deed(st), s, d)
    } else {
        d
    };
    let t = journal::records_of(st)[0];
    let actions = replay::actions_of(t, known(t, s, x), place, states);
    let goal = applied(deed(st), s, d);
    match st {
        Statement::Insert(_) | Statement::Update(_) => {
            lemma_one_deed(actions, 1, s, x);
            assert(x.entities.insert((s.collection, s.id), s.bytes) =~= goal.entities);
        },
        Statement::Recompute(_) => {
            lemma_cleaning_quiet(states);
            let cleaning = replay::cleaning_all(states);
            assert forall|i: int| 0 <= i < actions.len() && i != 1 implies quiet(#[trigger] actions[i]) by {
                if i >= 2 {
                    assert(actions[i] == cleaning[i - 2]);
                }
            }
            lemma_one_deed(actions, 1, s, x);
            assert(x.entities.insert((s.collection, s.id), s.bytes) =~= goal.entities);
        },
        Statement::CreateCollection | Statement::CreateEdgeType => {
            if done {
                lemma_quiet(actions, s, x);
            } else {
                lemma_one_deed(actions, 0, s, x);
            }
        },
        Statement::DropCollection | Statement::DropEdgeType => {
            if done {
                lemma_quiet(actions, s, x);
            } else {
                lemma_one_deed(actions, 0, s, x);
            }
        },
        Statement::DeleteEntity => {
            lemma_one_deed(actions, 0, s, x);
            assert(x.entities.remove((s.collection, s.id)) =~= goal.entities);
        },
        Statement::DeleteEdge | Statement::PruneEdge => {
            lemma_one_deed(actions, 0, s, x);
            assert(x.edges.remove((s.edge_type, s.from, s.to)) =~= goal.edges);
        },
        _ => {
            lemma_one_deed(actions, 0, s, x);
            assert(x.edges.insert((s.edge_type, s.from, s.to), s.bytes) =~= goal.edges);
        },
    }
}

proof fn lemma_later_records(
    ts: Seq<RecordType>,
    places: Seq<u32>,
    states: Seq<Seq<Option<LocState>>>,
    s: Subject,
    d: Disk,
)
    requires
        ts.len() > 0,
        forall|i: int| 0 < i < ts.len() ==> (#[trigger] ts[i] is LocationUpdate || ts[i] is ReprDirty),
    ensures
        recovered(ts, places, states, s, d) == replayed(ts[0], places[0], states[0], s, d),
    decreases ts.len(),
{
    let i = ts.len() - 1;
    let head = ts.drop_last();
    if i == 0 {
        assert(recovered(head, places, states, s, d) == d);
    } else {
        lemma_later_records(head, places, states, s, d);
        let x = recovered(head, places, states, s, d);
        assert(ts[i] is LocationUpdate || ts[i] is ReprDirty);
        lemma_quiet(replay::actions_of(ts[i], known(ts[i], s, x), places[i], states[i]), s, x);
    }
}

/// Recovery finishes what a crash cut short: after a statement was committed, and however
/// many of its actions were done, the replay of its records leaves the store as all of
/// its actions would have left it.
pub proof fn lemma_recovery_finishes(
    st: Statement,
    s: Subject,
    d: Disk,
    k: int,
    places: Seq<u32>,
    states: Seq<Seq<Option<LocState>>>,
)
    requires
        ready(st, s, d),
        0 <= k <= journal::effects_of(st).len(),
    ensures
        recovered(
            journal::records_of(st),
            places,
            states,
            s,
            run(journal::effects_of(st).take(k), s, d),
        ) == run(journal::effects_of(st), s, d),
{
    let es = journal::effects_of(st);
    let ts = journal::records_of(st);
    let cut = run(es.take(k), s, d);
    lemma_effects(st);
    lemma_cut_short(st, s, d, k);
    lemma_one_deed(es, deed_place(st), s, d);
    assert forall|i: int| 0 < i < ts.len() implies (#[trigger] ts[i] is LocationUpdate || ts[i] is ReprDirty) by {}
    lemma_later_records(ts, places, states, s, cut);
    lemma_first_record(st, places[0], states[0], s, d, k > deed_place(st));
}

/// A statement changes nothing in the store but by its one deed.
pub proof fn lemma_statement_changes(st: Statement, s: Subject, d: Disk)
    ensures
        run(journal::effects_of(st), s, d) == applied(deed(st), s, d),
{
    lemma_effects(st);
    lemma_one_deed(journal::effects_of(st), deed_place(st), s, d);
}

/// The store after statements, one after the other, each about its subject.
pub open spec fn after_all(sts: Seq<Statement>, ss: Seq<Subject>, d: Disk) -> Disk
    decreases sts.len(),
{
    if sts.len() == 0 {
        d
    } else {
        run(
            journal::effects_of(sts.last()),
            ss[sts.len() - 1],
            after_all(sts.drop_last(), ss, d),
        )
    }
}

/// Whether statements can be run one after the other: each when its turn comes.
pub open spec fn ready_all(sts: Seq<Statement>, ss: Seq<Subject>, d: Disk) -> bool {
    forall|i: int| 0 <= i < sts.len() ==> ready(#[trigger] sts[i], ss[i], after_all(sts.take(i), ss, d))
}

/// The store after the replay of the records of statements, in the order of the log.
pub open spec fn all_recovered(
    sts: Seq<Statement>,
    ss: Seq<Subject>,
    places: Seq<Seq<u32>>,
    states: Seq<Seq<Seq<Option<LocState>>>>,
    d: Disk,
) -> Disk
    decreases sts.len(),
{
    if sts.len() == 0 {
        d
    } else {
        let i = sts.len() - 1;
        recovered(
            journal::records_of(sts[i]),
            places[i],
            states[i],
            ss[i],
            all_recovered(sts.drop_last(), ss, places, states, d),
        )
    }
}

/// The replay of the records of a statement, over whatever store: it does the deed of the
/// statement where the statement could be run, and nothing else.
proof fn lemma_records_attempt(
    st: Statement,
    places: Seq<u32>,
    states: Seq<Seq<Option<LocState>>>,
    s: Subject,
    x: Disk,
)
    ensures
        recovered(journal::records_of(st), places, states, s, x) == (if ready(st, s, x) {
            applied(deed(st), s, x)
        } else {
            x
        }),
{
    let ts = journal::records_of(st);
    assert forall|i: int| 0 < i < ts.len() implies (#[trigger] ts[i] is LocationUpdate || ts[i] is ReprDirty) by {}
    lemma_later_records(ts, places, states, s, x);
    if ready(st, s, x) {
        lemma_first_record(st, places[0], states[0], s, x, false);
    } else {
        let actions = replay::actions_of(ts[0], known(ts[0], s, x), places[0], states[0]);
        match st {
            Statement::Recompute(_) => {
                lemma_cleaning_quiet(states[0]);
                let cleaning = replay::cleaning_all(states[0]);
                assert forall|i: int| 0 <= i < actions.len() implies quiet(#[trigger] actions[i]) by {
                    if i >= 1 {
                        assert(actions[i] == cleaning[i - 1]);
                    }
                }
            },
            _ => {},
        }
        lemma_quiet(actions, s, x);
    }
}

/// Whether two maps hold the same under a key.
spec fn same_at<K>(a: Map<K, Seq<u8>>, b: Map<K, Seq<u8>>, k: K) -> bool {
    a.contains_key(k) == b.contains_key(k) && (a.contains_key(k) ==> a[k] == b[k])
}

/// Whether what was there and is no longer left nothing behind.
spec fn emptied(now: Disk, end: Disk) -> bool {
    &&& forall|k: (Seq<char>, Seq<char>)| #[trigger]
        end.entities.contains_key(k) && now.collections.contains_key(k.0) ==> end.collections.contains_key(k.0)
    &&& forall|k: (Seq<char>, Seq<char>, Seq<char>)| #[trigger]
        end.edges.contains_key(k) && now.edge_types.contains_key(k.0) ==> end.edge_types.contains_key(k.0)
}

/// How a store that a replay over `end` has reached stands when the log has come to
/// `now`: each thing in it is as it is now or as it is in the end, and where something
/// is still missing so is all that belongs to it.
spec fn close(r: Disk, now: Disk, end: Disk) -> bool {
    &&& forall|c: Seq<char>|
        #![trigger r.collections.contains_key(c)]
        same_at(r.collections, now.collections, c) || same_at(r.collections, end.collections, c)
    &&& forall|c: Seq<char>|
        #![trigger r.edge_types.contains_key(c)]
        same_at(r.edge_types, now.edge_types, c) || same_at(r.edge_types, end.edge_types, c)
    &&& forall|k: (Seq<char>, Seq<char>)|
        #![trigger r.entities.contains_key(k)]
        same_at(r.entities, now.entities, k) || same_at(r.entities, end.entities, k)
    &&& forall|k: (Seq<char>, Seq<char>, Seq<char>)|
        #![trigger r.edges.contains_key(k)]
        same_at(r.edges, now.edges, k) || same_at(r.edges, end.edges, k)
    &&& forall|k: (Seq<char>, Seq<char>)| #[trigger]
        r.entities.contains_key(k) && now.collections.contains_key(k.0) ==> r.collections.contains_key(k.0)
    &&& forall|k: (Seq<char>, Seq<char>, Seq<char>)| #[trigger]
        r.edges.contains_key(k) && now.edge_types.contains_key(k.0) ==> r.edge_types.contains_key(k.0)
}

proof fn lemma_close_step(st: Statement, s: Subject, r: Disk, now: Disk, end: Disk)
    requires
        ready(st, s, now),
        close(r, now, end),
        emptied(now, end),
    ensures
        close(
            if ready(st, s, r) {
                applied(deed(st), s, r)
            } else {
                r
            },
            applied(deed(st), s, now),
            end,
        ),
{
    let r2 = if ready(st, s, r) {
        applied(deed(st), s, r)
    } else {
        r
    };
    let now2 = applied(deed(st), s, now);
    assert(r.collections.contains_key(s.collection) || !r.collections.contains_key(s.collection));
    assert(r.edge_types.contains_key(s.edge_type) || !r.edge_types.contains_key(s.edge_type));
    assert forall|c: Seq<char>|
        #![trigger r2.collections.contains_key(c)]
        same_at(r2.collections, now2.collections, c) || same_at(r2.collections, end.collections, c) by {
        assert(r.collections.contains_key(c) || !r.collections.contains_key(c));
    }
    assert forall|c: Seq<char>|
        #![trigger r2.edge_types.contains_key(c)]
        same_at(r2.edge_types, now2.edge_types, c) || same_at(r2.edge_types, end.edge_types, c) by {
        assert(r.edge_types.contains_key(c) || !r.edge_types.contains_key(c));
    }
    assert forall|k: (Seq<char>, Seq<char>)|
        #![trigger r2.entities.contains_key(k)]
        same_at(r2.entities, now2.entities, k) || same_at(r2.entities, end.entities, k) by {
        assert(r.entities.contains_key(k) || !r.entities.contains_key(k));
        assert(end.entities.contains_key(k) || !end.entities.contains_key(k));
    }
    assert forall|k: (Seq<char>, Seq<char>, Seq<char>)|
        #![trigger r2.edges.contains_key(k)]
        same_at(r2.edges, now2.edges, k) || same_at(r2.edges, end.edges, k) by {
        assert(r.edges.contains_key(k) || !r.edges.contains_key(k));
        assert(end.edges.contains_key(k) || !end.edges.contains_key(k));
    }
}

proof fn lemma_emptied_step(st: Statement, s: Subject, now: Disk, x: Disk)
    requires
        ready(st, s, x),
        emptied(now, x),
    ensures
        emptied(now, applied(deed(st), s, x)),
{
    let y = applied(deed(st), s, x);
    assert forall|k: (Seq<char>, Seq<char>)| #[trigger]
        y.entities.contains_key(k) && now.collections.contains_key(k.0) implies y.collections.contains_key(k.0) by {
        assert(x.entities.contains_key(k) || !x.entities.contains_key(k));
    }
    assert forall|k: (Seq<char>, Seq<char>, Seq<char>)| #[trigger]
        y.edges.contains_key(k) && now.edge_types.contains_key(k.0) implies y.edge_types.contains_key(k.0) by {
        assert(x.edges.contains_key(k) || !x.edges.contains_key(k));
    }
}

proof fn lemma_ready_head(sts: Seq<Statement>, ss: Seq<Subject>, d: Disk)
    requires
        ready_all(sts, ss, d),
        sts.len() > 0,
    ensures
        ready_all(sts.drop_last(), ss, d),
        ready(sts.last(), ss[sts.len() - 1], after_all(sts.drop_last(), ss, d)),
        after_all(sts, ss, d) == applied(
            deed(sts.last()),
            ss[sts.len() - 1],
            after_all(sts.drop_last(), ss, d),
        ),
{
    let head = sts.drop_last();
    let i = sts.len() - 1;
    assert forall|j: int| 0 <= j < head.len() implies ready(
        #[trigger] head[j],
        ss[j],
        after_all(head.take(j), ss, d),
    ) by {
        assert(head.take(j) =~= sts.take(j));
        assert(ready(sts[j], ss[j], after_all(sts.take(j), ss, d)));
    }
    assert(sts.take(i) =~= head);
    assert(ready(sts[i], ss[i], after_all(sts.take(i), ss, d)));
    lemma_statement_changes(sts.last(), ss[i], after_all(head, ss, d));
}

proof fn lemma_ready_take(sts: Seq<Statement>, ss: Seq<Subject>, d: Disk, m: int)
    requires
        ready_all(sts, ss, d),
        0 <= m <= sts.len(),
    ensures
        ready_all(sts.take(m), ss, d),
{
    let part = sts.take(m);
    assert forall|j: int| 0 <= j < part.len() implies ready(
        #[trigger] part[j],
        ss[j],
        after_all(part.take(j), ss, d),
    ) by {
        assert(part.take(j) =~= sts.take(j));
        assert(ready(sts[j], ss[j], after_all(sts.take(j), ss, d)));
    }
}

/// What was there after the first `m` statements, and is not after all, left nothing.
proof fn lemma_emptied(sts: Seq<Statement>, ss: Seq<Subject>, d: Disk, m: int)
    requires
        ready_all(sts, ss, d),
        0 <= m <= sts.len(),
    ensures
        emptied(after_all(sts.take(m), ss, d), after_all(sts, ss, d)),
    decreases sts.len(),
{
    let now = after_all(sts.take(m), ss, d);
    if m == sts.len() {
        assert(sts.take(m) =~= sts);
    } else {
        let head = sts.drop_last();
        lemma_ready_head(sts, ss, d);
        lemma_emptied(head, ss, d, m);
        assert(head.take(m) =~= sts.take(m));
        lemma_emptied_step(sts.last(), ss[sts.len() - 1], now, after_all(head, ss, d));
    }
}

proof fn lemma_replay_close(
    sts: Seq<Statement>,
    ss: Seq<Subject>,
    d: Disk,
    m: int,
    places: Seq<Seq<u32>>,
    states: Seq<Seq<Seq<Option<LocState>>>>,
)
    requires
        ready_all(sts, ss, d),
        0 <= m <= sts.len(),
    ensures
        close(
            all_recovered(sts.take(m), ss, places, states, after_all(sts, ss, d)),
            after_all(sts.take(m), ss, d),
            after_all(sts, ss, d),
        ),
    decreases m,
{
    let end = after_all(sts, ss, d);
    if m == 0 {
        lemma_emptied(sts, ss, d, 0);
    } else {
        let i = m - 1;
        let part = sts.take(m);
        lemma_replay_close(sts, ss, d, i, places, states);
        lemma_emptied(sts, ss, d, i);
        lemma_ready_take(sts, ss, d, m);
        lemma_ready_head(part, ss, d);
        assert(part.drop_last() =~= sts.take(i));
        let now = after_all(sts.take(i), ss, d);
        let r = all_recovered(sts.take(i), ss, places, states, end);
        lemma_records_attempt(part[i], places[i], states[i], ss[i], r);
        lemma_close_step(part[i], ss[i], r, now, end);
    }
}

/// A restart after a restart finds nothing to do: the replay of the records of all
/// statements over the store that they left leaves it as it is.
pub proof fn lemma_replay_again(
    sts: Seq<Statement>,
    ss: Seq<Subject>,
    d: Disk,
    places: Seq<Seq<u32>>,
    states: Seq<Seq<Seq<Option<LocState>>>>,
)
    requires
        ready_all(sts, ss, d),
    ensures
        all_recovered(sts, ss, places, states, after_all(sts, ss, d)) == after_all(sts, ss, d),
{
    let end = after_all(sts, ss, d);
    lemma_replay_close(sts, ss, d, sts.len() as int, places, states);
    assert(sts.take(sts.len() as int) =~= sts);
    let r = all_recovered(sts, ss, places, states, end);
    assert forall|c: Seq<char>| r.collections.contains_key(c) == end.collections.contains_key(c)
        && (r.collections.contains_key(c) ==> r.collections[c] == end.collections[c]) by {}
    assert(r.collections =~= end.collections);
    assert forall|c: Seq<char>| r.edge_types.contains_key(c) == end.edge_types.contains_key(c)
        && (r.edge_types.contains_key(c) ==> r.edge_types[c] == end.edge_types[c]) by {}
    assert(r.edge_types =~= end.edge_types);
    assert forall|k: (Seq<char>, Seq<char>)| r.entities.contains_key(k) == end.entities.contains_key(k)
        && (r.entities.contains_key(k) ==> r.entities[k] == end.entities[k]) by {}
    assert(r.entities =~= end.entities);
    assert forall|k: (Seq<char>, Seq<char>, Seq<char>)| r.edges.contains_key(k) == end.edges.contains_key(k)
        && (r.edges.contains_key(k) ==> r.edges[k] == end.edges[k]) by {}
    assert(r.edges =~= end.edges);
}

/// Replay of a whole log over the store that the first `j` of its statements left goes on
/// from there to the end.
proof fn lemma_replay_from(
    sts: Seq<Statement>,
    ss: Seq<Subject>,
    d: Disk,
    j: int,
    places: Seq<Seq<u32>>,
    states: Seq<Seq<Seq<Option<LocState>>>>,
)
    requires
        ready_all(sts, ss, d),
        0 <= j <= sts.len(),
    ensures
        all_recovered(sts, ss, places, states, after_all(sts.take(j), ss, d)) == after_all(sts, ss, d),
    decreases sts.len(),
{
    if j == sts.len() {
        assert(sts.take(j) =~= sts);
        lemma_replay_again(sts, ss, d, places, states);
    } else {
        let i = sts.len() - 1;
        let head = sts.drop_last();
        lemma_ready_head(sts, ss, d);
        lemma_replay_from(head, ss, d, j, places, states);
        assert(head.take(j) =~= sts.take(j));
        lemma_records_attempt(sts[i], places[i], states[i], ss[i], after_all(head, ss, d));
    }
}

/// A restart brings back all that was committed. Of statements that were run one after
/// the other, each when it could be, the replay of all their records in the order of the
/// log leaves the store as all of the statements would have left it: over the store as
/// it was before the first of them, and over the store that a crash left, with `j` of
/// them done and `k` actions of the next. The edges that go with a deleted entity are
/// outside of this.
pub proof fn lemma_restart(
    sts: Seq<Statement>,
    ss: Seq<Subject>,
    d: Disk,
    j: int,
    k: int,
    places: Seq<Seq<u32>>,
    states: Seq<Seq<Seq<Option<LocState>>>>,
)
    requires
        ready_all(sts, ss, d),
        0 <= j < sts.len(),
        0 <= k <= journal::effects_of(sts[j]).len(),
    ensures
        all_recovered(sts, ss, places, states, d) == after_all(sts, ss, d),
        all_recovered(
            sts,
            ss,
            places,
            states,
            run(journal::effects_of(sts[j]).take(k), ss[j], after_all(sts.take(j), ss, d)),
        ) == after_all(sts, ss, d),
{
    assert(sts.take(0) =~= Seq::empty());
    lemma_replay_from(sts, ss, d, 0, places, states);
    lemma_cut_short(sts[j], ss[j], after_all(sts.take(j), ss, d), k);
    lemma_replay_from(sts, ss, d, j, places, states);
    let part = sts.take(j + 1);
    assert(part.drop_last() =~= sts.take(j));
    lemma_statement_changes(sts[j], ss[j], after_all(sts.take(j), ss, d));
    lemma_replay_from(sts, ss, d, j + 1, places, states);
}

/// Applying a record that came from another node leaves the store as replaying it does,
/// and a record of a transaction leaves it alone.
pub proof fn lemma_applied_is_replayed(t: RecordType, place: u32, states: Seq<Option<LocState>>, s: Subject, d: Disk)
    ensures
        run(replay::applied_actions(t, known(t, s, d), place, states), s, d) == replayed(t, place, states, s, d),
        replay::control(t) ==> replayed(t, place, states, s, d) == d,
{
    replay::lemma_applying_is_replaying(t, known(t, s, d), place, states);
}

} // verus!
