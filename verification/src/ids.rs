use vstd::prelude::*;

verus! {

/// Identifies one object (a card instance) in a running game.
#[derive(Debug, Clone, Copy, PartialEq, Eq, Hash, Structural)]
pub struct ObjectId(pub u64);

/// Identifies a card archetype in the catalog.
#[derive(Debug, Clone, Copy, PartialEq, Eq, Hash, Structural)]
pub struct ArchetypeId(pub u32);

} // verus!
