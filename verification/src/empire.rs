//! The empire record: a claimant with a display color, a growth budget, a
//! capital tile, and a per-terrain movement cost vector.

use vstd::prelude::*;

verus! {

/// One empire of the registry. `costs` is indexed by
/// [`Terrain::spec_ordinal`](crate::terrain::Terrain::spec_ordinal): entry
/// `k` is the cost of moving into a tile whose terrain has ordinal `k`.
#[derive(Clone, Copy, Debug)]
pub struct Empire {
    /// Identifier; zero is reserved to mean "unowned" and never names an
    /// empire.
    pub id: u32,
    /// Packed `0xAABBGGRR` display color.
    pub color: u32,
    /// Claim budget: the greatest number of tiles this empire may claim in
    /// one growth event.
    pub size: u32,
    /// Row-major index of the capital tile.
    pub cap_index: usize,
    /// Cost to move into a tile, by terrain ordinal.
    pub costs: [u32; 8],
}

impl Empire {
    /// Builds an empire record from its parts.
    pub fn new(id: u32, color: u32, size: u32, settings: [u32; 8], cap_index: usize) -> (e: Empire)
        ensures
            e == (Empire { id, color, size, cap_index, costs: settings }),
    {
        Empire { id, color, costs: settings, size, cap_index }
    }
}

} // verus!
