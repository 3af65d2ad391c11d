use vstd::prelude::*;

use crate::wave_function_collapse::WfcCell as TileSet;

verus! {

/// A cell of the wave function collapse that records whether it was collapsed.
pub struct WfcCell {
    pub possible_tiles: TileSet,
    pub collapsed: bool,
}

impl WfcCell {
    /// A cell that may still become any of `possible_tiles`, not collapsed yet.
    pub fn new(possible_tiles: TileSet) -> (c: Self)
        ensures
            c.possible_tiles@ == possible_tiles@,
            !c.collapsed,
    {
        Self { possible_tiles, collapsed: false }
    }
}

} // verus!
