//! Settings that the library itself reads.

use vstd::prelude::*;

verus! {

/// Layout algorithm for word placement
#[derive(Debug, Clone, Copy, PartialEq, Eq, Structural)]
pub enum LayoutMode {
    /// Spiral placement from center outward
    Spiral,
    /// Physics-based repulsion where words push each other apart
    Amoeba,
}

impl Default for LayoutMode {
    fn default() -> (r: LayoutMode)
        ensures
            r == LayoutMode::Amoeba,
    {
        LayoutMode::Amoeba
    }
}

} // verus!
