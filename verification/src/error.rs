//! The errors of the engine and their messages.

use vstd::prelude::*;
use vstd::string::*;

use crate::location::LocState;
use crate::text;
use crate::text::{cat2, cat3, cat4, decimal_usize, own};

verus! {

/// What stood where a value of a declared type was expected.
#[derive(Debug)]
pub enum Got {
    /// The value, written out.
    Text(String),
    /// A double, by its bits, which is written out by whoever shows the error.
    Float(u64),
}

/// The model of a [`Got`].
pub enum GotView {
    Text(Seq<char>),
    Float(u64),
}

impl View for Got {
    type V = GotView;

    open spec fn view(&self) -> GotView {
        match *self {
            Got::Text(s) => GotView::Text(s@),
            Got::Float(b) => GotView::Float(b),
        }
    }
}

impl Got {
    /// What is shown of it, given what is written of the double where it is one.
    pub open spec fn text(self, double: Seq<char>) -> Seq<char> {
        match self {
            Got::Text(s) => s@,
            Got::Float(_) => "Float("@ + double + ")"@,
        }
    }

    fn shown(&self, double: &str) -> (r: String)
        ensures
            r@ == self.text(double@),
    {
        match self {
            Got::Text(s) => s.clone(),
            Got::Float(_) => cat3("Float(", double, ")"),
        }
    }
}

/// Why a request failed.
#[allow(inconsistent_fields)]
#[derive(Debug)]
pub enum EngineError {
    CollectionNotFound(String),
    CollectionAlreadyExists(String),
    EntityNotFound(String),
    DimensionMismatch { expected: usize, got: usize },
    InvalidQuery(String),
    Wal(String),
    Storage(String),
    UnsupportedOperation(String),
    InvalidStateTransition { from: LocState, to: LocState },
    LocationNotFound(String),
    EdgeTypeNotFound(String),
    EdgeTypeAlreadyExists(String),
    DuplicateIndex(String),
    DuplicateRepresentation(String),
    DuplicateField(String),
    FieldNotIndexed(String),
    SparseVectorRequired(String),
    InvalidFieldType { field: String, expected: String, got: Got },
    JoinError(String),
    Internal(String),
}

/// The model of an [`EngineError`].
#[allow(inconsistent_fields)]
pub enum ErrorView {
    CollectionNotFound(Seq<char>),
    CollectionAlreadyExists(Seq<char>),
    EntityNotFound(Seq<char>),
    DimensionMismatch { expected: usize, got: usize },
    InvalidQuery(Seq<char>),
    Wal(Seq<char>),
    Storage(Seq<char>),
    UnsupportedOperation(Seq<char>),
    InvalidStateTransition { from: LocState, to: LocState },
    LocationNotFound(Seq<char>),
    EdgeTypeNotFound(Seq<char>),
    EdgeTypeAlreadyExists(Seq<char>),
    DuplicateIndex(Seq<char>),
    DuplicateRepresentation(Seq<char>),
    DuplicateField(Seq<char>),
    FieldNotIndexed(Seq<char>),
    SparseVectorRequired(Seq<char>),
    InvalidFieldType { field: Seq<char>, expected: Seq<char>, got: GotView },
    JoinError(Seq<char>),
    Internal(Seq<char>),
}

impl View for EngineError {
    type V = ErrorView;

    open spec fn view(&self) -> ErrorView {
        match *self {
            EngineError::CollectionNotFound(s) => ErrorView::CollectionNotFound(s@),
            EngineError::CollectionAlreadyExists(s) => ErrorView::CollectionAlreadyExists(s@),
            EngineError::EntityNotFound(s) => ErrorView::EntityNotFound(s@),
            EngineError::DimensionMismatch { expected, got } => ErrorView::DimensionMismatch { expected, got },
            EngineError::InvalidQuery(s) => ErrorView::InvalidQuery(s@),
            EngineError::Wal(s) => ErrorView::Wal(s@),
            EngineError::Storage(s) => ErrorView::Storage(s@),
            EngineError::UnsupportedOperation(s) => ErrorView::UnsupportedOperation(s@),
            EngineError::InvalidStateTransition { from, to } => ErrorView::InvalidStateTransition { from, to },
            EngineError::LocationNotFound(s) => ErrorView::LocationNotFound(s@),
            EngineError::EdgeTypeNotFound(s) => ErrorView::EdgeTypeNotFound(s@),
            EngineError::EdgeTypeAlreadyExists(s) => ErrorView::EdgeTypeAlreadyExists(s@),
            EngineError::DuplicateIndex(s) => ErrorView::DuplicateIndex(s@),
            EngineError::DuplicateRepresentation(s) => ErrorView::DuplicateRepresentation(s@),
            EngineError::DuplicateField(s) => ErrorView::DuplicateField(s@),
            EngineError::FieldNotIndexed(s) => ErrorView::FieldNotIndexed(s@),
            EngineError::SparseVectorRequired(s) => ErrorView::SparseVectorRequired(s@),
            EngineError::InvalidFieldType { field, expected, got } => ErrorView::InvalidFieldType {
                field: field@,
                expected: expected@,
                got: got@,
            },
            EngineError::JoinError(s) => ErrorView::JoinError(s@),
            EngineError::Internal(s) => ErrorView::Internal(s@),
        }
    }
}

impl EngineError {
    /// The double in the error that is still to be written out, if it holds one.
    pub open spec fn double_of(self) -> Option<u64> {
        match self {
            EngineError::InvalidFieldType { field: _, expected: _, got: Got::Float(b) } => Some(b),
            _ => None,
        }
    }

    /// The bits of the double in the error that is still to be written out, if it holds
    /// one.
    pub fn double(&self) -> (r: Option<u64>)
        ensures
            r == self.double_of(),
    {
        match self {
            EngineError::InvalidFieldType { field: _, expected: _, got: Got::Float(b) } => Some(*b),
            _ => None,
        }
    }

    /// The text that a user sees, given what is written of the double in the error.
    pub open spec fn text(self, double: Seq<char>) -> Seq<char> {
        match self {
            EngineError::CollectionNotFound(s) => "collection not found: "@ + s@,
            EngineError::CollectionAlreadyExists(s) => "collection already exists: "@ + s@,
            EngineError::EntityNotFound(s) => "entity not found: "@ + s@,
            EngineError::DimensionMismatch { expected, got } => "dimension mismatch: expected "@ + text::dec(
                expected as nat,
            ) + ", got "@ + text::dec(got as nat),
            EngineError::InvalidQuery(s) => "invalid query: "@ + s@,
            EngineError::Wal(s) => "WAL error: "@ + s@,
            EngineError::Storage(s) => "storage error: "@ + s@,
            EngineError::UnsupportedOperation(s) => "unsupported operation: "@ + s@,
            EngineError::InvalidStateTransition { from, to } => "invalid state transition: "@ + from.text()
                + " → "@ + to.text(),
            EngineError::LocationNotFound(s) => "location not found: "@ + s@,
            EngineError::EdgeTypeNotFound(s) => "edge type not found: "@ + s@,
            EngineError::EdgeTypeAlreadyExists(s) => "edge type already exists: "@ + s@,
            EngineError::DuplicateIndex(s) => "duplicate index: "@ + s@,
            EngineError::DuplicateRepresentation(s) => "duplicate representation: "@ + s@,
            EngineError::DuplicateField(s) => "duplicate field: "@ + s@,
            EngineError::FieldNotIndexed(s) => "field not indexed (ScalarPreFilter requires index): "@ + s@,
            EngineError::SparseVectorRequired(s) =>
                "sparse vector required but collection has no sparse representation: "@ + s@,
            EngineError::InvalidFieldType { field, expected, got } => "invalid field type for "@ + field@
                + ": expected "@ + expected@ + ", got "@ + got.text(double),
            EngineError::JoinError(s) => "join error: "@ + s@,
            EngineError::Internal(s) => "internal error: "@ + s@,
        }
    }

    /// The text that a user sees. `double` is what the caller writes of the double that
    /// [`EngineError::double`] hands out; it is not looked at where there is none.
    pub fn message(&self, double: &str) -> (r: String)
        ensures
            r@ == self.text(double@),
    {
        match self {
            EngineError::CollectionNotFound(s) => cat2("collection not found: ", s.as_str()),
            EngineError::CollectionAlreadyExists(s) => cat2("collection already exists: ", s.as_str()),
            EngineError::EntityNotFound(s) => cat2("entity not found: ", s.as_str()),
            EngineError::DimensionMismatch { expected, got } => {
                let e = decimal_usize(*expected);
                let g = decimal_usize(*got);
                cat4("dimension mismatch: expected ", e.as_str(), ", got ", g.as_str())
            },
            EngineError::InvalidQuery(s) => cat2("invalid query: ", s.as_str()),
            EngineError::Wal(s) => cat2("WAL error: ", s.as_str()),
            EngineError::Storage(s) => cat2("storage error: ", s.as_str()),
            EngineError::UnsupportedOperation(s) => cat2("unsupported operation: ", s.as_str()),
            EngineError::InvalidStateTransition { from, to } => cat4(
                "invalid state transition: ",
                from.name(),
                " → ",
                to.name(),
            ),
            EngineError::LocationNotFound(s) => cat2("location not found: ", s.as_str()),
            EngineError::EdgeTypeNotFound(s) => cat2("edge type not found: ", s.as_str()),
            EngineError::EdgeTypeAlreadyExists(s) => cat2("edge type already exists: ", s.as_str()),
            EngineError::DuplicateIndex(s) => cat2("duplicate index: ", s.as_str()),
            EngineError::DuplicateRepresentation(s) => cat2("duplicate representation: ", s.as_str()),
            EngineError::DuplicateField(s) => cat2("duplicate field: ", s.as_str()),
            EngineError::FieldNotIndexed(s) => cat2(
                "field not indexed (ScalarPreFilter requires index): ",
                s.as_str(),
            ),
            EngineError::SparseVectorRequired(s) => cat2(
                "sparse vector required but collection has no sparse representation: ",
                s.as_str(),
            ),
            EngineError::InvalidFieldType { field, expected, got } => {
                let mut s = own("invalid field type for ");
                s.append(field.as_str());
                s.append(": expected ");
                s.append(expected.as_str());
                s.append(", got ");
                let g = got.shown(double);
                s.append(g.as_str());
                s
            },
            EngineError::JoinError(s) => cat2("join error: ", s.as_str()),
            EngineError::Internal(s) => cat2("internal error: ", s.as_str()),
        }
    }
}

} // verus!
