//! The message contract exchanged with clients.
//!
//! A client sends a [`Command`], the server answers with exactly one
//! [`Response`]. Both travel as single text frames; the byte format lives in
//! [`crate::codec`].

use crate::color::Color;
use vstd::prelude::*;

verus! {

/// A client request.
#[derive(Clone, Copy, Debug, PartialEq, Eq, Structural)]
pub enum Command {
    /// Create a fresh game and return its id.
    CreateGame,
    /// Ask which colors of game `id` are still unclaimed.
    AvailableColors { id: u32 },
    /// Take a seat in game `id`, preferring `color`.
    JoinGame { id: u32, color: Color },
    /// Start game `id` once enough seats are taken.
    StartGame { id: u32 },
}

/// A server answer.
#[derive(Debug, PartialEq, Eq)]
pub enum Response {
    /// The remaining unclaimed colors of a game.
    AvailableColors { colors: Vec<Color> },
    /// The color actually granted to a join request; it may differ from the
    /// requested one, so that a taken color costs no extra round-trip.
    PickedColor { color: Color },
    /// The id of a freshly created game.
    CreateGameResponse { game_id: u32 },
    /// A request that could not be served; the connection stays open.
    FailureMessage { message: String },
}

impl Response {
    /// Wraps a list of colors as an `AvailableColors` answer.
    pub fn make_available_colors(colors: Vec<Color>) -> (r: Response)
        ensures
            r == (Response::AvailableColors { colors }),
    {
        Response::AvailableColors { colors }
    }

    /// The answer for a game where every color is still unclaimed.
    pub fn all_color_response() -> (r: Response)
        ensures
            r matches Response::AvailableColors { colors } && colors@ == seq![
                Color::Yellow,
                Color::Blue,
                Color::Red,
                Color::Green,
            ],
    {
        let colors = vec![Color::Yellow, Color::Blue, Color::Red, Color::Green];
        proof {
            assert(colors@ =~= seq![Color::Yellow, Color::Blue, Color::Red, Color::Green]);
        }
        Response::AvailableColors { colors }
    }
}

} // verus!
