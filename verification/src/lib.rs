//! A Ludo rules engine with a message-based multiplayer session layer.
//!
//! The crate covers the per-token movement state machine and its mapping from
//! track positions to board coordinates, the game lifecycle, the registry that
//! hands out game identifiers, and the wire protocol spoken with clients.
//! Transport plumbing (sockets, tasks) lives outside the library; everything
//! here is pure logic with contracts.

pub mod board;
pub mod codec;
pub mod color;
pub mod game;
pub mod player;
pub mod protocol;
pub mod registry;
pub mod session;
pub mod token;
