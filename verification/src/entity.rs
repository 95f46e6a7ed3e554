//! Plain-value handles for world entities.

use vstd::prelude::*;

verus! {

/// A handle to a world entity: a 32-bit index paired with a generation.
/// The grid logic only ever reads the index.
#[derive(Clone, Copy, Debug, PartialEq, Eq, Hash, Structural)]
pub struct Entity {
    pub gen: u32,
    pub id: u32,
}

impl Entity {
    pub fn id(&self) -> (r: u32)
        ensures
            r == self.id,
    {
        self.id
    }
}

/// The generation-one entity carrying index `id`.
pub fn ent_from_id(id: u32) -> (r: Entity)
    ensures
        r.id == id,
        r.gen == 1,
{
    Entity { gen: 1, id }
}

} // verus!
