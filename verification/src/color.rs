//! The four token colors and their fixed placement on the shared track.

use crate::board::AntiClockNeighbor;
use vstd::prelude::*;
use vstd::string::StringExecFns;

verus! {

/// A token color. The board has four quadrants; clockwise they are Yellow,
/// Blue, Red, Green, with Yellow taken as the first quadrant.
#[derive(Clone, Copy, Debug, PartialEq, Eq, Structural)]
pub enum Color {
    Yellow,
    Blue,
    Red,
    Green,
}

impl Color {
    /// The fixed starting displacement of this color on the shared 52-cell
    /// outer track: 13 cells for each clockwise step from Yellow.
    pub open spec fn offset(self) -> u32 {
        match self {
            Color::Yellow => 0,
            Color::Blue => 13,
            Color::Red => 26,
            Color::Green => 39,
        }
    }

    /// As Yellow is the first quadrant its offset is 0; every other color
    /// gets +13 for each clockwise step of distance from Yellow.
    pub fn pos_offset(&self) -> (r: u32)
        ensures
            r == self.offset(),
    {
        match self {
            Color::Yellow => 0,
            Color::Blue => 13,
            Color::Red => 26,
            Color::Green => 39,
        }
    }
}

impl Color {
    /// The color's display name.
    pub open spec fn label_spec(self) -> Seq<char> {
        match self {
            Color::Yellow => "Yellow"@,
            Color::Blue => "Blue"@,
            Color::Red => "Red"@,
            Color::Green => "Green"@,
        }
    }

    /// The color's display name, used to label a seat at the table.
    pub fn label(&self) -> (r: String)
        ensures
            r@ == self.label_spec(),
    {
        match self {
            Color::Yellow => String::from_str("Yellow"),
            Color::Blue => String::from_str("Blue"),
            Color::Red => String::from_str("Red"),
            Color::Green => String::from_str("Green"),
        }
    }
}

/// Colors in the fixed anticlockwise order
/// Red -> Green -> Yellow -> Blue -> Red, used to hand out a neighbouring
/// quadrant once one player has picked a color.
impl AntiClockNeighbor for Color {
    open spec fn neighbor_spec(self) -> Color {
        match self {
            Color::Red => Color::Green,
            Color::Green => Color::Yellow,
            Color::Yellow => Color::Blue,
            Color::Blue => Color::Red,
        }
    }

    fn neighbor(&self) -> (r: Color) {
        match self {
            Color::Red => Color::Green,
            Color::Green => Color::Yellow,
            Color::Yellow => Color::Blue,
            Color::Blue => Color::Red,
        }
    }
}

/// The track offsets 0, 13, 26 and 39 are pairwise distinct: no two colors
/// share a starting cell on the outer track.
pub proof fn lemma_pos_offset_injective(a: Color, b: Color)
    requires
        a.offset() == b.offset(),
    ensures
        a == b,
{
}

} // verus!
