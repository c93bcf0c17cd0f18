//! Ground pack kinds for the base map.

use vstd::prelude::*;

verus! {

/// Kind of ground group parked on the map.
#[derive(Clone, Copy, Debug, PartialEq, Eq, Structural)]
pub enum GroundKind {
    Armor,
    Supply,
    Artillery,
    Train,
}

pub open spec fn ground_label(k: GroundKind) -> Seq<char> {
    match k {
        GroundKind::Armor => "Armor"@,
        GroundKind::Supply => "Supply"@,
        GroundKind::Artillery => "Artillery"@,
        GroundKind::Train => "Train"@,
    }
}

impl GroundKind {
    /// Display label.
    pub fn label(self) -> (r: &'static str)
        ensures
            r@ == ground_label(self),
    {
        match self {
            GroundKind::Armor => "Armor",
            GroundKind::Supply => "Supply",
            GroundKind::Artillery => "Artillery",
            GroundKind::Train => "Train",
        }
    }
}

} // verus!
