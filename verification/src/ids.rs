//! What regions, entities and clients are called.
//!
//! Each is a number of its own kind, as on the wire, so that one is not taken
//! for another.

use vstd::prelude::*;

verus! {

/// Which region.
#[derive(Clone, Copy, Debug, PartialEq, Eq, Structural)]
pub struct RegionId {
    /// The number on the wire.
    pub raw: u32,
}

/// What a region calls an entity of its own.
#[derive(Clone, Copy, Debug, PartialEq, Eq, Structural)]
pub struct EntityId {
    /// The number on the wire.
    pub raw: u32,
}

/// What a game calls an entity from the moment it asks for it.
#[derive(Clone, Copy, Debug, PartialEq, Eq, Structural)]
pub struct EntityHandle {
    /// The number on the wire.
    pub raw: u32,
}

/// One live connection to an edge.
#[derive(Clone, Copy, Debug, PartialEq, Eq, Structural)]
pub struct ClientId {
    /// The number on the wire.
    pub raw: u64,
}

/// What is behind an entity.
#[derive(Clone, Copy, Debug, PartialEq, Eq, Structural)]
pub enum EntityKind {
    /// Nothing: it is seen, and is sent nothing.
    Unattended,
    /// A game client, which is sent what the entity can see.
    Observer,
}

} // verus!
