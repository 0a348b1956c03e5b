//! Where representations live and whether they are current.

use vstd::prelude::*;

use crate::value::LogicalId;

verus! {

/// Whether a stored representation is current.
#[derive(Clone, Copy, PartialEq, Eq, Structural, Debug)]
pub enum LocState {
    Clean,
    Dirty,
    Recomputing,
}

impl LocState {
    /// The name of the state.
    pub open spec fn text(self) -> Seq<char> {
        match self {
            LocState::Clean => "Clean"@,
            LocState::Dirty => "Dirty"@,
            LocState::Recomputing => "Recomputing"@,
        }
    }

    /// The name of the state.
    pub fn name(self) -> (s: &'static str)
        ensures
            s@ == self.text(),
    {
        match self {
            LocState::Clean => "Clean",
            LocState::Dirty => "Dirty",
            LocState::Recomputing => "Recomputing",
        }
    }
}

/// A storage tier.
#[derive(Clone, Copy, PartialEq, Eq, Structural, Debug)]
pub enum Tier {
    Fjall,
    NVMe,
    Archive,
}

/// How a vector is stored.
#[derive(Clone, Copy, PartialEq, Eq, Structural, Debug)]
pub enum Encoding {
    Float32,
    Sparse,
}

/// Names one representation of one entity, by its place among them.
#[derive(Debug)]
pub struct ReprKey {
    pub entity_id: LogicalId,
    pub repr_index: u32,
}

/// The model of a [`ReprKey`].
pub struct ReprKeyView {
    pub entity_id: Seq<char>,
    pub repr_index: u32,
}

impl View for ReprKey {
    type V = ReprKeyView;

    open spec fn view(&self) -> ReprKeyView {
        ReprKeyView { entity_id: self.entity_id@, repr_index: self.repr_index }
    }
}

impl Clone for ReprKey {
    fn clone(&self) -> (r: Self)
        ensures
            r == *self,
    {
        ReprKey { entity_id: self.entity_id.clone(), repr_index: self.repr_index }
    }
}

/// Where a representation is stored on the local node.
#[derive(Clone, Copy, PartialEq, Eq, Structural, Debug)]
pub struct LocationDescriptor {
    pub tier: Tier,
    pub state: LocState,
    pub version: u64,
    pub encoding: Encoding,
    pub last_accessed: u64,
}

} // verus!
