//! Collections, entities and their representations.

use vstd::prelude::*;
use vstd::string::*;

use crate::fields::FieldMap;
use crate::text::clone_texts;
use crate::value::LogicalId;

verus! {

/// The declared type of a field.
#[derive(Debug)]
pub enum FieldType {
    Text,
    DateTime,
    Bool,
    Int,
    Float,
    EntityRef(String),
}

impl Clone for FieldType {
    fn clone(&self) -> (r: Self)
        ensures
            r == *self,
    {
        match self {
            FieldType::Text => FieldType::Text,
            FieldType::DateTime => FieldType::DateTime,
            FieldType::Bool => FieldType::Bool,
            FieldType::Int => FieldType::Int,
            FieldType::Float => FieldType::Float,
            FieldType::EntityRef(s) => FieldType::EntityRef(s.clone()),
        }
    }
}

/// The similarity measure of a representation.
#[derive(Clone, Copy, PartialEq, Eq, Structural, Debug)]
pub enum Metric {
    Cosine,
    InnerProduct,
}

/// The numbers of a representation, as the bits of singles. A sparse vector
/// holds pairs of a dimension and its weight.
#[derive(Debug)]
pub enum VectorData {
    Dense(Vec<u32>),
    Sparse(Vec<(u32, u32)>),
}

impl Clone for VectorData {
    fn clone(&self) -> (r: Self)
        ensures
            r.same(*self),
    {
        match self {
            VectorData::Dense(v) => {
                let c = v.clone();
                assert(c@ =~= v@);
                VectorData::Dense(c)
            },
            VectorData::Sparse(v) => {
                let mut c: Vec<(u32, u32)> = Vec::new();
                let mut i: usize = 0;
                while i < v.len()
                    invariant
                        i <= v.len(),
                        c@ == v@.subrange(0, i as int),
                    decreases v.len() - i,
                {
                    c.push(v[i]);
                    proof {
                        assert(v@.subrange(0, i as int + 1) =~= v@.subrange(0, i as int).push(v@[i as int]));
                    }
                    i += 1;
                }
                assert(c@ =~= v@);
                VectorData::Sparse(c)
            },
        }
    }
}

impl VectorData {
    /// Whether two vectors are of one kind and hold the same numbers.
    pub open spec fn same(self, other: Self) -> bool {
        match (self, other) {
            (VectorData::Dense(a), VectorData::Dense(b)) => a@ == b@,
            (VectorData::Sparse(a), VectorData::Sparse(b)) => a@ == b@,
            _ => false,
        }
    }
}

/// Whether a representation comes from one field or from several.
#[derive(Clone, Copy, PartialEq, Eq, Structural, Debug)]
pub enum ReprType {
    Atomic,
    Composite,
}

/// Whether a representation reflects the fields that it was computed from.
#[derive(Clone, Copy, PartialEq, Eq, Structural, Debug)]
pub enum ReprState {
    Clean,
    Dirty,
}

/// One vector of an entity.
#[derive(Debug)]
pub struct Representation {
    pub name: String,
    pub repr_type: ReprType,
    pub fields: Vec<String>,
    pub vector: VectorData,
    pub recipe_hash: [u8; 32],
    pub state: ReprState,
    pub computed_at: u64,
    pub model_version: String,
}

impl Clone for Representation {
    fn clone(&self) -> (r: Self)
        ensures
            r.same(*self),
    {
        Representation {
            name: self.name.clone(),
            repr_type: self.repr_type,
            fields: clone_texts(&self.fields),
            vector: self.vector.clone(),
            recipe_hash: self.recipe_hash,
            state: self.state,
            computed_at: self.computed_at,
            model_version: self.model_version.clone(),
        }
    }
}

impl Representation {
    /// Whether two representations hold the same in each field.
    pub open spec fn same(self, other: Self) -> bool {
        &&& self.name@ == other.name@
        &&& self.repr_type == other.repr_type
        &&& crate::text::views(self.fields@) == crate::text::views(other.fields@)
        &&& self.vector.same(other.vector)
        &&& self.recipe_hash@ == other.recipe_hash@
        &&& self.state == other.state
        &&& self.computed_at == other.computed_at
        &&& self.model_version@ == other.model_version@
    }
}

/// A stored document with its vectors.
#[derive(Debug)]
pub struct Entity {
    pub id: LogicalId,
    pub metadata: FieldMap,
    pub representations: Vec<Representation>,
}

impl Entity {
    /// An entity without fields and vectors.
    pub fn new(id: LogicalId) -> (e: Self)
        ensures
            e.id == id,
            e.metadata@ == Map::<Seq<char>, crate::value::Val>::empty(),
            e.representations@.len() == 0,
    {
        Entity { id, metadata: FieldMap::new(), representations: Vec::new() }
    }

    /// Whether two entities hold the same id, fields and vectors.
    pub open spec fn same(self, other: Self) -> bool {
        &&& self.id@ == other.id@
        &&& self.metadata@ == other.metadata@
        &&& reprs_same(self.representations@, other.representations@)
    }
}

/// Whether two sequences of representations hold the same, item by item.
pub open spec fn reprs_same(a: Seq<Representation>, b: Seq<Representation>) -> bool {
    a.len() == b.len() && forall|i: int| 0 <= i < a.len() ==> (#[trigger] a[i]).same(b[i])
}

/// A copy of a sequence of representations.
pub fn clone_reprs(v: &Vec<Representation>) -> (r: Vec<Representation>)
    ensures
        reprs_same(r@, v@),
{
    let mut r: Vec<Representation> = Vec::new();
    let mut i: usize = 0;
    while i < v.len()
        invariant
            i <= v.len(),
            r@.len() == i,
            forall|j: int| 0 <= j < i ==> (#[trigger] r@[j]).same(v@[j]),
        decreases v.len() - i,
    {
        r.push(v[i].clone());
        i += 1;
    }
    r
}

impl Clone for Entity {
    fn clone(&self) -> (r: Self)
        ensures
            r.same(*self),
    {
        Entity {
            id: self.id.clone(),
            metadata: self.metadata.clone(),
            representations: clone_reprs(&self.representations),
        }
    }
}

/// A representation as a collection declares it.
#[derive(Debug)]
pub struct StoredRepresentation {
    pub name: String,
    pub model: Option<String>,
    pub dimensions: Option<usize>,
    pub metric: Metric,
    pub sparse: bool,
    pub fields: Vec<String>,
    pub computed_at: u64,
    pub model_version: String,
}

/// A field as a collection declares it.
#[derive(Debug)]
pub struct StoredField {
    pub name: String,
    pub field_type: FieldType,
}

/// An index as a collection declares it.
#[derive(Debug)]
pub struct StoredIndex {
    pub name: String,
    pub fields: Vec<String>,
    pub partial_condition: Option<String>,
}

/// How a collection computes vectors.
#[derive(Debug)]
pub struct VectoriserConfig {
    pub model: Option<String>,
    pub model_path: Option<String>,
    pub device: Option<String>,
    pub vectoriser_type: Option<String>,
    pub endpoint: Option<String>,
    pub auth: Option<String>,
}

/// The declaration of a collection.
#[derive(Debug)]
pub struct CollectionSchema {
    pub name: String,
    pub representations: Vec<StoredRepresentation>,
    pub fields: Vec<StoredField>,
    pub indexes: Vec<StoredIndex>,
    pub vectoriser_config: Option<VectoriserConfig>,
}

/// A copy of an optional text.
pub fn clone_opt_text(o: &Option<String>) -> (r: Option<String>)
    ensures
        r == *o,
{
    match o {
        Some(s) => Some(s.clone()),
        None => None,
    }
}

} // verus!
