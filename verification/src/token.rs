//! The per-token movement state machine and its board coordinates.
//!
//! A token walks `Home -> Running -> FinalWalk -> Done`, never backwards.
//! `Running` covers the player's personal 51 cells of the shared outer loop,
//! `FinalWalk` the 6-cell home stretch, so a full walk is 57 cells.

use crate::color::Color;
use vstd::prelude::*;

verus! {

/// Status of a token. There are 4 tokens of each color, with ids 1 to 4.
#[derive(Clone, Copy, Debug, PartialEq, Eq, Structural)]
pub enum Status {
    /// Not on the track yet; it enters only on a throw of 6.
    Home,
    /// On the outer loop, at position `pos` of the player's personal
    /// 52-cell loop (1 to 51), before the color offset is applied.
    Running { pos: u8 },
    /// On the 6-cell home stretch, at position `pos` (1 to 6).
    FinalWalk { pos: u8 },
    /// Finished; no further transition is accepted.
    Done,
}

/// The positions a status may legally hold.
pub open spec fn status_wf(s: Status) -> bool {
    match s {
        Status::Home => true,
        Status::Running { pos } => 1 <= pos <= 51,
        Status::FinalWalk { pos } => 1 <= pos <= 6,
        Status::Done => true,
    }
}

/// Whether a throw of `count` may be applied to a token in status `s`:
/// out of `Home` only on a 6, on the track only as far as the 57th and
/// last cell of the walk, and never out of `Done`.
pub open spec fn valid_move(s: Status, count: u8) -> bool {
    match s {
        Status::Home => count == 6,
        Status::Running { pos } => pos + count <= 57,
        Status::FinalWalk { pos } => pos + count <= 6,
        Status::Done => false,
    }
}

/// The transition table: where a valid throw of `count` takes status `s`.
/// Entering the track always starts at position 1; a walk beyond cell 51
/// carries straight on into the home stretch; the 6th stretch cell is `Done`.
pub open spec fn next_status(s: Status, count: u8) -> Status
    recommends
        valid_move(s, count),
{
    match s {
        Status::Home => Status::Running { pos: 1 },
        Status::Running { pos } => {
            let total = pos + count;
            if total <= 51 {
                Status::Running { pos: total as u8 }
            } else if total == 57 {
                Status::Done
            } else {
                Status::FinalWalk { pos: (total - 51) as u8 }
            }
        }
        Status::FinalWalk { pos } => {
            let total = pos + count;
            if total == 6 {
                Status::Done
            } else {
                Status::FinalWalk { pos: total as u8 }
            }
        }
        Status::Done => s,
    }
}

/// Why a move was rejected.
#[derive(Clone, Copy, Debug, PartialEq, Eq, Structural)]
pub enum MoveError {
    /// The count is not a legal move from the current status; the token is
    /// unchanged and the caller may retry with a valid count.
    InvalidMove,
    /// A transition was applied to a `Done` token without checking
    /// `is_valid_move` first; distinct from `InvalidMove` for diagnostic
    /// clarity, it marks a caller defect rather than a bad throw.
    TerminalState,
}

/// The board cell `(x, z)` of a token in status `s` with color `c`, or
/// `None` while the token is still at home. Yellow starts at cell `(0, 0)`;
/// a renderer takes the negative of the z value.
///
/// A running token is first placed on the shared loop at
/// `global = (pos + offset) % 52` and then mapped through the fixed
/// piecewise table over the nine arms of the cross-shaped board.
pub open spec fn coord_of(s: Status, c: Color) -> Option<(u8, u8)>
    recommends
        status_wf(s),
{
    match s {
        Status::Home => None,
        Status::Running { pos } => {
            let g = (pos + c.offset()) % 52;
            if g <= 5 {
                Some((6u8, g as u8))
            } else if g <= 11 {
                Some(((11 - g) as u8, 6u8))
            } else if g == 12 {
                Some((0u8, 7u8))
            } else if g <= 18 {
                Some(((g - 13) as u8, 8u8))
            } else if g <= 24 {
                Some((6u8, (g - 10) as u8))
            } else if g == 25 {
                Some((7u8, 14u8))
            } else if g <= 31 {
                Some((8u8, (40 - g) as u8))
            } else if g <= 37 {
                Some(((g - 23) as u8, 8u8))
            } else if g == 38 {
                Some((14u8, 7u8))
            } else if g <= 44 {
                Some(((53 - g) as u8, 6u8))
            } else if g <= 50 {
                Some((8u8, (50 - g) as u8))
            } else {
                Some((7u8, 0u8))
            }
        }
        Status::FinalWalk { pos } => match c {
            Color::Yellow => Some((7u8, pos)),
            Color::Blue => Some((pos, 7u8)),
            Color::Red => Some((7u8, (14 - pos) as u8)),
            Color::Green => Some(((14 - pos) as u8, 7u8)),
        },
        Status::Done => match c {
            Color::Yellow => Some((7u8, 6u8)),
            Color::Blue => Some((6u8, 7u8)),
            Color::Red => Some((7u8, 8u8)),
            Color::Green => Some((8u8, 7u8)),
        },
    }
}

/// One playing piece: a color, an id between 1 and 4, and a movement status.
#[derive(Clone, Copy, Debug, PartialEq, Eq, Structural)]
pub struct Token {
    pub color: Color,
    pub id: u8,
    pub status: Status,
}

/// Bounds recursion in `move_token`: only the `Running` case moves again.
pub open spec fn move_rank(s: Status) -> nat {
    match s {
        Status::Running { .. } => 1nat,
        _ => 0nat,
    }
}

impl Token {
    /// A token whose id and position are within their bounds.
    pub open spec fn wf(self) -> bool {
        &&& 1 <= self.id <= 4
        &&& status_wf(self.status)
    }

    /// A fresh token, still at home.
    pub fn new(color: Color, id: u8) -> (r: Token)
        requires
            1 <= id <= 4,
        ensures
            r == (Token { color, id, status: Status::Home }),
    {
        Token { color, id, status: Status::Home }
    }

    /// The same token placed in the given status.
    pub fn with_status(self, status: Status) -> (r: Token)
        ensures
            r == (Token { color: self.color, id: self.id, status }),
    {
        Token { color: self.color, id: self.id, status }
    }

    /// Whether a throw of `count` may be applied to this token.
    pub fn is_valid_move(&self, count: u8) -> (b: bool)
        ensures
            b == valid_move(self.status, count),
    {
        match self.status {
            Status::Home => count == 6,
            Status::Running { pos } => (pos as u16) + (count as u16) <= 57,
            Status::FinalWalk { pos } => (pos as u16) + (count as u16) <= 6,
            Status::Done => false,
        }
    }

    /// Applies a throw of `count`: on an invalid move the token is left
    /// unchanged and `InvalidMove` is reported; on a valid one the status
    /// becomes exactly `next_status` -- never a third outcome, and never
    /// `TerminalState`, since validity is checked before anything mutates.
    pub fn move_token(&mut self, count: u8) -> (r: Result<(), MoveError>)
        requires
            old(self).wf(),
        ensures
            final(self).wf(),
            final(self).color == old(self).color,
            final(self).id == old(self).id,
            valid_move(old(self).status, count) ==> r is Ok && final(self).status
                == next_status(old(self).status, count),
            !valid_move(old(self).status, count) ==> r == Err::<(), MoveError>(
                MoveError::InvalidMove,
            ) && *final(self) == *old(self),
        decreases move_rank(self.status),
    {
        if !self.is_valid_move(count) {
            return Err(MoveError::InvalidMove);
        }
        match self.status {
            Status::Home => {
                self.status = Status::Running { pos: 1 };
                Ok(())
            }
            Status::Running { pos } => {
                let total = pos + count;
                if total <= 51 {
                    self.status = Status::Running { pos: total };
                    Ok(())
                } else {
                    // Transition to the home stretch, then walk the steps
                    // that are left; that inner move is always valid.
                    self.status = Status::FinalWalk { pos: 1 };
                    match self.move_token(total - 52) {
                        Ok(()) => Ok(()),
                        Err(e) => Err(e),
                    }
                }
            }
            Status::FinalWalk { pos } => {
                let total = pos + count;
                if total == 6 {
                    self.status = Status::Done;
                } else {
                    self.status = Status::FinalWalk { pos: total };
                }
                Ok(())
            }
            Status::Done => Err(MoveError::TerminalState),
        }
    }

    /// The board cell of this token, or `None` while it is at home.
    pub fn get_x_z(&self) -> (r: Option<(u8, u8)>)
        requires
            self.wf(),
        ensures
            r == coord_of(self.status, self.color),
    {
        match self.status {
            Status::Home => None,
            Status::Running { pos } => {
                let g = ((pos as u32 + self.color.pos_offset()) % 52) as u8;
                if g <= 5 {
                    Some((6, g))
                } else if g <= 11 {
                    Some((11 - g, 6))
                } else if g == 12 {
                    Some((0, 7))
                } else if g <= 18 {
                    Some((g - 13, 8))
                } else if g <= 24 {
                    Some((6, g - 10))
                } else if g == 25 {
                    Some((7, 14))
                } else if g <= 31 {
                    Some((8, 40 - g))
                } else if g <= 37 {
                    Some((g - 23, 8))
                } else if g == 38 {
                    Some((14, 7))
                } else if g <= 44 {
                    Some((53 - g, 6))
                } else if g <= 50 {
                    Some((8, 50 - g))
                } else {
                    Some((7, 0))
                }
            }
            Status::FinalWalk { pos } => match self.color {
                Color::Yellow => Some((7, pos)),
                Color::Blue => Some((pos, 7)),
                Color::Red => Some((7, 14 - pos)),
                Color::Green => Some((14 - pos, 7)),
            },
            Status::Done => match self.color {
                Color::Yellow => Some((7, 6)),
                Color::Blue => Some((6, 7)),
                Color::Red => Some((7, 8)),
                Color::Green => Some((8, 7)),
            },
        }
    }
}

/// Movement only goes forward: a valid move never returns to `Home`, never
/// re-enters `Running` from the stretch, and never leaves `Done`.
pub proof fn lemma_moves_forward(s: Status, count: u8)
    requires
        status_wf(s),
        valid_move(s, count),
    ensures
        next_status(s, count) !is Home,
        s is FinalWalk ==> next_status(s, count) is FinalWalk || next_status(s, count) is Done,
        s is Done ==> false,
        status_wf(next_status(s, count)),
{
}

} // verus!
