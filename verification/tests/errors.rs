//! The messages of errors.

use trondb::error::{EngineError, Got};
use trondb::location::LocState;

#[test]
fn error_display_messages() {
    assert!(EngineError::DuplicateIndex("idx1".into()).message("").contains("idx1"));
    assert!(EngineError::DuplicateRepresentation("identity".into()).message("").contains("identity"));
    assert!(EngineError::DuplicateField("status".into()).message("").contains("status"));
    assert!(EngineError::FieldNotIndexed("city".into()).message("").contains("city"));
    assert!(EngineError::SparseVectorRequired("venues".into()).message("").contains("venues"));
    assert!(EngineError::InvalidFieldType {
        field: "age".into(),
        expected: "Int".into(),
        got: Got::Text("String".into()),
    }.message("").contains("age"));
}

#[test]
fn messages_are_exact() {
    assert_eq!(EngineError::CollectionNotFound("venues".into()).message(""), "collection not found: venues");
    assert_eq!(
        EngineError::DimensionMismatch { expected: 3, got: 12 }.message(""),
        "dimension mismatch: expected 3, got 12"
    );
    assert_eq!(
        EngineError::InvalidStateTransition { from: LocState::Clean, to: LocState::Recomputing }.message(""),
        "invalid state transition: Clean → Recomputing"
    );
}

#[test]
fn a_double_is_written_by_the_caller() {
    let e = EngineError::InvalidFieldType {
        field: "Int".into(),
        expected: "Int".into(),
        got: Got::Float(1.5f64.to_bits()),
    };
    assert_eq!(e.double(), Some(1.5f64.to_bits()));
    assert_eq!(e.message("1.5"), "invalid field type for Int: expected Int, got Float(1.5)");
    assert_eq!(EngineError::Wal("torn".into()).double(), None);
    assert_eq!(EngineError::Wal("torn".into()).message("1.5"), "WAL error: torn");
}
