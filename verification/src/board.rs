//! Quadrant placement on the cross-shaped board.
//!
//! A quadrant is named either by its geometric corner ([`Position`]) or by the
//! color that owns it ([`Color`]); both carry the same fixed layout data that
//! a renderer reads: which of the 18 play tiles in front of a corner carry the
//! corner's color.

use crate::color::Color;
use vstd::prelude::*;

verus! {

/// A cyclic successor in the fixed anticlockwise order of the four board
/// quadrants, used to walk from one quadrant to the next.
pub trait AntiClockNeighbor: Sized {
    /// The successor in the cyclic order.
    spec fn neighbor_spec(self) -> Self;

    /// Returns the next quadrant anticlockwise.
    fn neighbor(&self) -> (r: Self)
        ensures
            r == self.neighbor_spec(),
    ;
}

/// One corner of the board, named geometrically from the default camera.
#[derive(Clone, Copy, Debug, PartialEq, Eq, Structural)]
pub enum Position {
    RightFar,
    RightNear,
    LeftNear,
    LeftFar,
}

/// Corners in the fixed anticlockwise order
/// RightFar -> RightNear -> LeftNear -> LeftFar -> RightFar.
impl AntiClockNeighbor for Position {
    open spec fn neighbor_spec(self) -> Position {
        match self {
            Position::RightFar => Position::RightNear,
            Position::RightNear => Position::LeftNear,
            Position::LeftNear => Position::LeftFar,
            Position::LeftFar => Position::RightFar,
        }
    }

    fn neighbor(&self) -> (r: Position) {
        match self {
            Position::RightFar => Position::RightNear,
            Position::RightNear => Position::LeftNear,
            Position::LeftNear => Position::LeftFar,
            Position::LeftFar => Position::RightFar,
        }
    }
}

/// Whether play tile `i` of the 3 x 6 strip in front of a corner carries the
/// corner's own color. The colored tiles are the entry cell, the first cell
/// of the outer loop, and the home stretch of that quadrant.
pub open spec fn tile_colored(p: Position, i: int) -> bool {
    match p {
        Position::LeftNear => i == 3 || i == 4 || i == 7 || i == 10 || i == 13 || i == 16,
        Position::RightNear => i == 4 || i == 6 || i == 7 || i == 8 || i == 9 || i == 10,
        Position::RightFar => i == 1 || i == 4 || i == 7 || i == 10 || i == 13 || i == 14,
        Position::LeftFar => i == 7 || i == 8 || i == 9 || i == 10 || i == 11 || i == 13,
    }
}

impl Position {
    /// Marks, for each of the 18 play tiles of this corner's strip, whether
    /// the tile carries the corner's color.
    pub fn play_tile_has_color(&self) -> (r: [bool; 18])
        ensures
            forall|i: int| 0 <= i < 18 ==> r[i] == tile_colored(*self, i),
    {
        match self {
            Position::LeftNear => [
                false, false, false, true, true, false, false, true, false, false, true, false,
                false, true, false, false, true, false,
            ],
            Position::RightNear => [
                false, false, false, false, true, false, true, true, true, true, true, false,
                false, false, false, false, false, false,
            ],
            Position::RightFar => [
                false, true, false, false, true, false, false, true, false, false, true, false,
                false, true, true, false, false, false,
            ],
            Position::LeftFar => [
                false, false, false, false, false, false, false, true, true, true, true, true,
                false, true, false, false, false, false,
            ],
        }
    }

    /// The corner owned by a color: Yellow sits left-near, and the others
    /// follow clockwise.
    pub open spec fn of_color_spec(c: Color) -> Position {
        match c {
            Color::Yellow => Position::LeftNear,
            Color::Green => Position::RightNear,
            Color::Red => Position::RightFar,
            Color::Blue => Position::LeftFar,
        }
    }

    /// Maps a color to the corner it owns.
    pub fn of_color(c: Color) -> (r: Position)
        ensures
            r == Position::of_color_spec(c),
    {
        match c {
            Color::Yellow => Position::LeftNear,
            Color::Green => Position::RightNear,
            Color::Red => Position::RightFar,
            Color::Blue => Position::LeftFar,
        }
    }
}

impl Color {
    /// Marks, for each of the 18 play tiles of this color's strip, whether
    /// the tile carries this color; the strip is the one of the corner the
    /// color owns.
    pub fn play_tile_has_color(&self) -> (r: [bool; 18])
        ensures
            forall|i: int| 0 <= i < 18 ==> r[i] == tile_colored(Position::of_color_spec(*self), i),
    {
        Position::of_color(*self).play_tile_has_color()
    }
}

} // verus!
