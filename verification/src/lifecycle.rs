//! Tile lifecycle states.

use vstd::prelude::*;

verus! {

/// Tile lifecycle states: a tile is born active and may later be superseded
/// by a newer memory or retracted outright.
#[derive(Debug, Clone, Copy, PartialEq, Eq, Structural, PartialOrd, Ord, Hash)]
pub enum TileLifecycle {
    Active,
    Superseded,
    Retracted,
}

impl TileLifecycle {
    /// The state's name as shown to people: `Active`, `Superseded` or `Retracted`.
    pub fn label(&self) -> (s: &'static str)
        ensures
            s@ == (match *self {
                TileLifecycle::Active => "Active"@,
                TileLifecycle::Superseded => "Superseded"@,
                TileLifecycle::Retracted => "Retracted"@,
            }),
    {
        match self {
            TileLifecycle::Active => "Active",
            TileLifecycle::Superseded => "Superseded",
            TileLifecycle::Retracted => "Retracted",
        }
    }
}

} // verus!
