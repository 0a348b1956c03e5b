//! The record of what was inferred.

use std::collections::VecDeque;

use vstd::prelude::*;
use vstd::string::*;

use crate::fields::FieldMap;
use crate::result::{QueryMode, QueryResult};
use crate::rows;
use crate::rows::{Row, RowView};
use crate::text;
use crate::text::own;
use crate::value::{id_value, ids_equal, LogicalId, Val, Value};

verus! {

/// A candidate of an inference. The score is the bits of a single.
#[derive(Debug)]
pub struct InferenceCandidate {
    pub entity_id: LogicalId,
    pub similarity_score: u32,
    pub accepted: bool,
}

impl Clone for InferenceCandidate {
    fn clone(&self) -> (r: Self)
        ensures
            r == *self,
    {
        InferenceCandidate {
            entity_id: self.entity_id.clone(),
            similarity_score: self.similarity_score,
            accepted: self.accepted,
        }
    }
}

/// What started an inference.
#[derive(Clone, Copy, PartialEq, Eq, Structural, Debug)]
pub enum InferenceTrigger {
    Explicit,
    Background,
}

impl InferenceTrigger {
    /// The name of the trigger.
    pub open spec fn text(self) -> Seq<char> {
        match self {
            InferenceTrigger::Explicit => "Explicit"@,
            InferenceTrigger::Background => "Background"@,
        }
    }

    /// The name of the trigger.
    pub fn name(self) -> (s: &'static str)
        ensures
            s@ == self.text(),
    {
        match self {
            InferenceTrigger::Explicit => "Explicit",
            InferenceTrigger::Background => "Background",
        }
    }
}

/// One inference.
#[derive(Debug)]
pub struct InferenceAuditEntry {
    pub timestamp: u64,
    pub source_entity: LogicalId,
    pub edge_type: String,
    pub candidates_evaluated: usize,
    pub candidates_above_threshold: usize,
    pub top_candidates: Vec<InferenceCandidate>,
    pub trigger: InferenceTrigger,
}

/// The model of an [`InferenceAuditEntry`].
pub struct AuditView {
    pub timestamp: u64,
    pub source_entity: Seq<char>,
    pub edge_type: Seq<char>,
    pub candidates_evaluated: usize,
    pub candidates_above_threshold: usize,
    pub top_candidates: Seq<InferenceCandidate>,
    pub trigger: InferenceTrigger,
}

impl View for InferenceAuditEntry {
    type V = AuditView;

    open spec fn view(&self) -> AuditView {
        AuditView {
            timestamp: self.timestamp,
            source_entity: self.source_entity@,
            edge_type: self.edge_type@,
            candidates_evaluated: self.candidates_evaluated,
            candidates_above_threshold: self.candidates_above_threshold,
            top_candidates: self.top_candidates@,
            trigger: self.trigger,
        }
    }
}

impl Clone for InferenceAuditEntry {
    fn clone(&self) -> (r: Self)
        ensures
            r@ == self@,
    {
        let mut top: Vec<InferenceCandidate> = Vec::new();
        let mut i: usize = 0;
        while i < self.top_candidates.len()
            invariant
                i <= self.top_candidates.len(),
                top@ == self.top_candidates@.subrange(0, i as int),
            decreases self.top_candidates.len() - i,
        {
            top.push(self.top_candidates[i].clone());
            proof {
                assert(self.top_candidates@.subrange(0, i as int + 1) =~= self.top_candidates@.subrange(
                    0,
                    i as int,
                ).push(self.top_candidates@[i as int]));
            }
            i += 1;
        }
        assert(top@ =~= self.top_candidates@);
        InferenceAuditEntry {
            timestamp: self.timestamp,
            source_entity: self.source_entity.clone(),
            edge_type: self.edge_type.clone(),
            candidates_evaluated: self.candidates_evaluated,
            candidates_above_threshold: self.candidates_above_threshold,
            top_candidates: top,
            trigger: self.trigger,
        }
    }
}

/// The views of a sequence of entries.
pub open spec fn audit_views(s: Seq<InferenceAuditEntry>) -> Seq<AuditView> {
    s.map_values(|e: InferenceAuditEntry| e@)
}

/// The entries with one more. Where they already fill the buffer the oldest goes.
pub open spec fn recorded(s: Seq<AuditView>, e: AuditView, capacity: nat) -> Seq<AuditView> {
    if s.len() >= capacity && s.len() > 0 {
        s.skip(1).push(e)
    } else {
        s.push(e)
    }
}

/// The entries of an entity, the newest first.
pub open spec fn newest_of(s: Seq<AuditView>, id: Seq<char>) -> Seq<AuditView>
    decreases s.len(),
{
    if s.len() == 0 {
        Seq::empty()
    } else {
        let older = newest_of(s.drop_last(), id);
        if s.last().source_entity == id {
            seq![s.last()] + older
        } else {
            older
        }
    }
}

/// The last inferences, as many as the buffer holds.
pub struct InferenceAuditBuffer {
    entries: VecDeque<InferenceAuditEntry>,
    capacity: usize,
}

impl View for InferenceAuditBuffer {
    type V = Seq<AuditView>;

    /// The entries, the oldest first.
    closed spec fn view(&self) -> Seq<AuditView> {
        audit_views(self.entries@)
    }
}

impl InferenceAuditBuffer {
    /// How many entries the buffer is for.
    pub closed spec fn room(&self) -> nat {
        self.capacity as nat
    }

    #[verifier::type_invariant]
    spec fn within_room(self) -> bool {
        self.entries@.len() <= self.capacity || self.entries@.len() <= 1
    }

    /// A buffer without entries.
    pub fn new(capacity: usize) -> (b: Self)
        ensures
            b@ == Seq::<AuditView>::empty(),
            b.room() == capacity,
    {
        let b = InferenceAuditBuffer { entries: VecDeque::new(), capacity };
        assert(b@ =~= Seq::<AuditView>::empty());
        b
    }

    /// Adds an entry.
    pub fn record(&mut self, entry: InferenceAuditEntry)
        ensures
            final(self)@ == recorded(old(self)@, entry@, old(self).room()),
            final(self).room() == old(self).room(),
    {
        proof {
            use_type_invariant(&*self);
        }
        let ghost before = self@;
        let mut entries: VecDeque<InferenceAuditEntry> = VecDeque::new();
        std::mem::swap(&mut entries, &mut self.entries);
        let ghost held = entries@;
        if entries.len() >= self.capacity {
            let _ = entries.pop_front();
        }
        let ghost kept = entries@;
        entries.push_back(entry);
        proof {
            assert(before == audit_views(held));
            assert(audit_views(entries@) =~= recorded(before, entry@, self.capacity as nat));
        }
        self.entries = entries;
    }

    /// The entries of an entity, the newest first, at most `limit` of them.
    pub fn query(&self, entity_id: &LogicalId, limit: Option<usize>) -> (r: Vec<InferenceAuditEntry>)
        ensures
            audit_views(r@) == rows::limited(newest_of(self@, entity_id@), limit),
    {
        let ghost all = self@;
        let ghost want = newest_of(all, entity_id@);
        let mut r: Vec<InferenceAuditEntry> = Vec::new();
        let mut i: usize = self.entries.len();
        proof {
            assert(all.subrange(0, i as int) =~= all);
            assert(audit_views(r@) + want =~= want);
        }
        while i > 0
            invariant
                i <= self.entries@.len(),
                all == audit_views(self.entries@),
                want == newest_of(all, entity_id@),
                audit_views(r@) + newest_of(all.subrange(0, i as int), entity_id@) == want,
                limit matches Some(n) ==> r@.len() <= n,
            decreases i,
        {
            if let Some(n) = limit {
                if r.len() >= n {
                    proof {
                        assert(audit_views(r@) =~= rows::limited(want, limit));
                    }
                    return r;
                }
            }
            let ghost before = audit_views(r@);
            let ghost here = all.subrange(0, i as int);
            let ghost rest = newest_of(all.subrange(0, i as int - 1), entity_id@);
            proof {
                assert(here.drop_last() =~= all.subrange(0, i as int - 1));
                assert(here.last() == self.entries@[i as int - 1]@);
            }
            i -= 1;
            if ids_equal(&self.entries[i].source_entity, entity_id) {
                r.push(self.entries[i].clone());
                proof {
                    assert(audit_views(r@) =~= before.push(here.last()));
                    assert(before + (seq![here.last()] + rest) =~= before.push(here.last()) + rest);
                }
            }
        }
        proof {
            assert(all.subrange(0, 0) =~= Seq::empty());
            assert(audit_views(r@) =~= want);
            assert(audit_views(r@) =~= rows::limited(want, limit));
        }
        r
    }

    /// How many entries there are.
    pub fn len(&self) -> (n: usize)
        ensures
            n == self@.len(),
            n <= self.room() || n <= 1,
    {
        proof {
            use_type_invariant(&*self);
        }
        self.entries.len()
    }
}

/// The buffer never holds more than it is for, or one entry where it is for none.
pub proof fn lemma_audit_bounded(s: Seq<AuditView>, e: AuditView, capacity: nat)
    requires
        s.len() <= capacity || s.len() <= 1,
    ensures
        recorded(s, e, capacity).len() <= capacity || recorded(s, e, capacity).len() <= 1,
{
}

/// What was recorded last is the first that a query for its entity gives.
pub proof fn lemma_audit_newest_first(s: Seq<AuditView>, e: AuditView, capacity: nat)
    ensures
        newest_of(recorded(s, e, capacity), e.source_entity).len() > 0,
        newest_of(recorded(s, e, capacity), e.source_entity)[0] == e,
{
    let r = recorded(s, e, capacity);
    assert(r.last() == e);
}

/// While the buffer has room, nothing that was recorded is lost.
pub proof fn lemma_audit_keeps(s: Seq<AuditView>, e: AuditView, capacity: nat, id: Seq<char>)
    requires
        s.len() < capacity,
    ensures
        newest_of(recorded(s, e, capacity), id) == (if e.source_entity == id {
            seq![e] + newest_of(s, id)
        } else {
            newest_of(s, id)
        }),
{
    assert(s.push(e).drop_last() =~= s);
}

/// The row of an entry. Counts and times are integers.
pub open spec fn history_row(e: AuditView) -> RowView {
    RowView {
        values: Map::empty().insert("timestamp"@, Val::Int(e.timestamp as i64)).insert(
            "entity_id"@,
            Val::Str(e.source_entity),
        ).insert("edge_type"@, Val::Str(e.edge_type)).insert(
            "candidates_evaluated"@,
            Val::Int(e.candidates_evaluated as i64),
        ).insert("candidates_above_threshold"@, Val::Int(e.candidates_above_threshold as i64)).insert(
            "trigger"@,
            Val::Str(e.trigger.text()),
        ),
        score: None,
    }
}

fn build_history_row(e: &InferenceAuditEntry) -> (r: Row)
    ensures
        r@ == history_row(e@),
{
    let mut values = FieldMap::new();
    values.insert(own("timestamp"), Value::Int(e.timestamp as i64));
    values.insert(own("entity_id"), id_value(&e.source_entity));
    values.insert(own("edge_type"), Value::String(e.edge_type.clone()));
    values.insert(own("candidates_evaluated"), Value::Int(e.candidates_evaluated as i64));
    values.insert(own("candidates_above_threshold"), Value::Int(e.candidates_above_threshold as i64));
    values.insert(own("trigger"), Value::String(own(e.trigger.name())));
    Row { values, score: None }
}

/// The columns of EXPLAIN HISTORY.
pub open spec fn history_columns() -> Seq<Seq<char>> {
    seq![
        "timestamp"@,
        "entity_id"@,
        "edge_type"@,
        "candidates_evaluated"@,
        "candidates_above_threshold"@,
        "trigger"@,
    ]
}

/// What EXPLAIN HISTORY answers: the inferences of an entity, the newest first.
pub fn explain_history(buffer: &InferenceAuditBuffer, entity_id: &LogicalId, limit: Option<usize>) -> (r: QueryResult)
    ensures
        text::views(r.columns@) == history_columns(),
        rows::row_views(r.rows@) == rows::limited(newest_of(buffer@, entity_id@), limit).map_values(
            |e: AuditView| history_row(e),
        ),
        r.entities_scanned == 0,
        r.mode == QueryMode::Deterministic,
        r.tier@ == "Ram"@,
{
    let entries = buffer.query(entity_id, limit);
    let ghost want = audit_views(entries@).map_values(|e: AuditView| history_row(e));
    let mut rows: Vec<Row> = Vec::new();
    let mut i: usize = 0;
    while i < entries.len()
        invariant
            i <= entries.len(),
            rows@.len() == i,
            forall|j: int| 0 <= j < i ==> (#[trigger] rows@[j])@ == history_row(entries@[j]@),
        decreases entries.len() - i,
    {
        rows.push(build_history_row(&entries[i]));
        i += 1;
    }
    assert(rows::row_views(rows@) =~= want);
    let mut columns: Vec<String> = Vec::new();
    columns.push(own("timestamp"));
    columns.push(own("entity_id"));
    columns.push(own("edge_type"));
    columns.push(own("candidates_evaluated"));
    columns.push(own("candidates_above_threshold"));
    columns.push(own("trigger"));
    assert(text::views(columns@) =~= history_columns());
    QueryResult { columns, rows, entities_scanned: 0, mode: QueryMode::Deterministic, tier: own("Ram") }
}

} // verus!
