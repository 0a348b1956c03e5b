//! The record of inferences.

use trondb::inference::{
    explain_history, InferenceAuditBuffer, InferenceAuditEntry, InferenceCandidate, InferenceTrigger,
};
use trondb::value::{LogicalId, Value};

fn make_entry(entity: &str, edge_type: &str) -> InferenceAuditEntry {
    InferenceAuditEntry {
        timestamp: 0,
        source_entity: LogicalId::from_string(entity),
        edge_type: edge_type.into(),
        candidates_evaluated: 5,
        candidates_above_threshold: 2,
        top_candidates: vec![],
        trigger: InferenceTrigger::Explicit,
    }
}

#[test]
fn audit_buffer_records_and_queries() {
    let mut buf = InferenceAuditBuffer::new(100);
    buf.record(make_entry("e1", "likes"));
    buf.record(make_entry("e2", "likes"));
    buf.record(make_entry("e1", "visits"));

    let results = buf.query(&LogicalId::from_string("e1"), None);
    assert_eq!(results.len(), 2);
}

#[test]
fn audit_buffer_evicts_oldest() {
    let mut buf = InferenceAuditBuffer::new(2);
    buf.record(make_entry("e1", "a"));
    buf.record(make_entry("e2", "b"));
    buf.record(make_entry("e3", "c"));

    assert_eq!(buf.len(), 2);
    let all = buf.query(&LogicalId::from_string("e1"), None);
    assert!(all.is_empty());
}

#[test]
fn audit_buffer_respects_limit() {
    let mut buf = InferenceAuditBuffer::new(100);
    for i in 0..20 {
        buf.record(make_entry("e1", &format!("type{i}")));
    }
    let results = buf.query(&LogicalId::from_string("e1"), Some(5));
    assert_eq!(results.len(), 5);
    assert_eq!(results[0].edge_type, "type19");
    assert_eq!(results[4].edge_type, "type15");
}

#[test]
fn a_buffer_for_nothing_holds_one_entry() {
    let mut buf = InferenceAuditBuffer::new(0);
    assert_eq!(buf.len(), 0);
    buf.record(make_entry("e1", "a"));
    buf.record(make_entry("e1", "b"));
    assert_eq!(buf.len(), 1);
    assert_eq!(buf.query(&LogicalId::from_string("e1"), None)[0].edge_type, "b");
    assert!(buf.query(&LogicalId::from_string("e1"), Some(0)).is_empty());
}

#[test]
fn history_shows_entries_newest_first() {
    let mut buf = InferenceAuditBuffer::new(10);
    let mut first = make_entry("e1", "likes");
    first.timestamp = 7;
    first.top_candidates.push(InferenceCandidate {
        entity_id: LogicalId::from_string("e9"),
        similarity_score: 0.5f32.to_bits(),
        accepted: true,
    });
    let mut second = make_entry("e1", "all");
    second.trigger = InferenceTrigger::Background;
    buf.record(first);
    buf.record(second);
    let r = explain_history(&buf, &LogicalId::from_string("e1"), None);
    assert_eq!(r.rows.len(), 2);
    assert_eq!(r.columns.len(), 6);
    assert_eq!(r.rows[0].values.get("trigger"), Some(&Value::String("Background".into())));
    assert_eq!(r.rows[1].values.get("timestamp"), Some(&Value::Int(7)));
    assert_eq!(r.rows[1].values.get("candidates_evaluated"), Some(&Value::Int(5)));
    assert_eq!(r.tier, "Ram");
    assert_eq!(buf.query(&LogicalId::from_string("e1"), None)[1].top_candidates.len(), 1);
}
