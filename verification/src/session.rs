//! Per-request logic of a client connection: dispatch a decoded command
//! against the registry and produce the one response owed for it.
//!
//! The transport loops (reading frames, writing them back through a
//! single-slot handoff queue) live outside the library; they hand every
//! inbound frame to [`handle_frame`] and send back exactly what it returns,
//! so responses leave in the order their requests were processed.

use crate::codec::{
    close_list, decode_command, encode_response, failure_wire_of, json_safe, rpre_avail,
    wire_colors, wire_command, wire_response,
};
use crate::game::{avail_seq, grant, joinable, players_of, seats_after_join};
use crate::protocol::{Command, Response};
use crate::registry::{valid_id, AppState};
use vstd::prelude::*;
use vstd::string::StringExecFns;

verus! {

/// The text of every failure answer, whatever the request failed on.
pub open spec fn failure_text() -> Seq<char> {
    "Failed to handler request"@
}

/// The frame of the one failure answer the server ever sends.
pub open spec fn failure_wire() -> Seq<u8> {
    failure_wire_of(failure_text())
}

/// A failure answer carrying the fixed failure text.
pub open spec fn is_failure(r: Response) -> bool {
    r matches Response::FailureMessage { message } && message@ == failure_text()
}

/// Whether a start request will succeed: colors are being selected and at
/// least two seats are taken.
pub open spec fn startable(s: crate::game::Status) -> bool {
    s matches crate::game::Status::ColorSelection { players } && players@.len() >= 2
}

/// The one failure answer the server ever sends.
pub fn failure_response() -> (r: Response)
    ensures
        is_failure(r),
{
    Response::FailureMessage { message: String::from_str("Failed to handler request") }
}

/// Dispatches one decoded command against the registry and returns the
/// response owed for it. Every per-request error is absorbed into a
/// `FailureMessage`; nothing here ends the connection.
///
/// A successful `StartGame` is answered with the started game's remaining
/// unclaimed colors.
pub fn handle_command(command: Command, state: &mut AppState) -> (r: Response)
    requires
        old(state).wf(),
        old(state)@.len() < u32::MAX,
    ensures
        final(state).wf(),
        final(state)@.len() <= old(state)@.len() + 1,
        command is CreateGame ==> {
            &&& r matches Response::CreateGameResponse { game_id } && game_id == old(state)@.len()
                + 1
            &&& final(state)@.len() == old(state)@.len() + 1
            &&& forall|i: int| 0 <= i < old(state)@.len() ==> final(state)@[i] == old(state)@[i]
            &&& final(state)@[old(state)@.len() as int].status is Created
            &&& final(state)@[old(state)@.len() as int].id == old(state)@.len() + 1
        },
        command matches Command::AvailableColors { id } ==> *final(state) == *old(state) && (if
            valid_id(old(state)@, id) {
            r matches Response::AvailableColors { colors } && colors@ == avail_seq(
                old(state)@[id - 1].status,
            )
        } else {
            is_failure(r)
        }),
        command matches Command::JoinGame { id, color } ==> {
            &&& final(state)@.len() == old(state)@.len()
            &&& !valid_id(old(state)@, id) ==> is_failure(r) && *final(state) == *old(state)
            &&& valid_id(old(state)@, id) ==> {
                let g0 = old(state)@[id - 1].status;
                &&& forall|j: int|
                    0 <= j < old(state)@.len() && j != id - 1 ==> final(state)@[j] == old(
                        state,
                    )@[j]
                &&& joinable(g0) ==> (r matches Response::PickedColor { color: granted }
                    && granted == grant(players_of(g0), color) && final(state)@[id - 1].status
                    is ColorSelection && seats_after_join(
                    players_of(g0),
                    players_of(final(state)@[id - 1].status),
                    grant(players_of(g0), color),
                ))
                &&& !joinable(g0) ==> is_failure(r) && final(state)@[id - 1] == old(state)@[id - 1]
            }
        },
        command matches Command::StartGame { id } ==> {
            &&& final(state)@.len() == old(state)@.len()
            &&& !valid_id(old(state)@, id) ==> is_failure(r) && *final(state) == *old(state)
            &&& valid_id(old(state)@, id) ==> {
                let g0 = old(state)@[id - 1].status;
                &&& forall|j: int|
                    0 <= j < old(state)@.len() && j != id - 1 ==> final(state)@[j] == old(
                        state,
                    )@[j]
                &&& startable(g0) ==> (r matches Response::AvailableColors { colors } && colors@
                    == avail_seq(g0) && final(state)@[id - 1].status is InProgress && players_of(
                    final(state)@[id - 1].status,
                ) == players_of(g0))
                &&& !startable(g0) ==> is_failure(r) && final(state)@[id - 1] == old(state)@[id - 1]
            }
        },
{
    match command {
        Command::CreateGame => {
            let game_id = state.create_game();
            Response::CreateGameResponse { game_id }
        }
        Command::AvailableColors { id } => match state.available_colors(id) {
            Ok(colors) => Response::make_available_colors(colors),
            Err(_) => failure_response(),
        },
        Command::JoinGame { id, color } => match state.join_game(id, color) {
            Ok(granted) => Response::PickedColor { color: granted },
            Err(_) => failure_response(),
        },
        Command::StartGame { id } => match state.start_game(id) {
            Ok(()) => match state.available_colors(id) {
                Ok(colors) => Response::make_available_colors(colors),
                Err(_) => failure_response(),
            },
            Err(_) => failure_response(),
        },
    }
}

/// The failure text never needs escaping on the wire.
proof fn lemma_failure_text_safe()
    ensures
        json_safe(failure_text()),
{
    reveal_strlit("Failed to handler request");
}

/// Handles one inbound frame as the read loop does: decode the command,
/// dispatch it, encode the one response owed for it. A frame that is not a
/// canonical command is answered with the failure frame; the registry is
/// then untouched.
pub fn handle_frame(frame: &Vec<u8>, state: &mut AppState) -> (out: Vec<u8>)
    requires
        old(state).wf(),
        old(state)@.len() < u32::MAX,
    ensures
        final(state).wf(),
        final(state)@.len() <= old(state)@.len() + 1,
        (forall|c: Command| frame@ != #[trigger] wire_command(c)) ==> *final(state) == *old(state)
            && out@ == failure_wire(),
        frame@ == wire_command(Command::CreateGame) ==> {
            &&& out@ == wire_response(
                Response::CreateGameResponse { game_id: (old(state)@.len() + 1) as u32 },
            )
            &&& final(state)@.len() == old(state)@.len() + 1
            &&& forall|i: int| 0 <= i < old(state)@.len() ==> final(state)@[i] == old(state)@[i]
            &&& final(state)@[old(state)@.len() as int].status is Created
            &&& final(state)@[old(state)@.len() as int].id == old(state)@.len() + 1
        },
        forall|id: u32|
            frame@ == #[trigger] wire_command(Command::AvailableColors { id }) ==> *final(state)
                == *old(state) && (if valid_id(old(state)@, id) {
                out@ == rpre_avail() + wire_colors(avail_seq(old(state)@[id - 1].status))
                    + close_list()
            } else {
                out@ == failure_wire()
            }),
        forall|id: u32, color: crate::color::Color|
            frame@ == #[trigger] wire_command(Command::JoinGame { id, color }) ==> {
                &&& final(state)@.len() == old(state)@.len()
                &&& !valid_id(old(state)@, id) ==> out@ == failure_wire() && *final(state) == *old(
                    state,
                )
                &&& valid_id(old(state)@, id) ==> {
                    let g0 = old(state)@[id - 1].status;
                    &&& forall|j: int|
                        0 <= j < old(state)@.len() && j != id - 1 ==> final(state)@[j] == old(
                            state,
                        )@[j]
                    &&& joinable(g0) ==> (out@ == wire_response(
                        Response::PickedColor { color: grant(players_of(g0), color) },
                    ) && final(state)@[id - 1].status is ColorSelection && seats_after_join(
                        players_of(g0),
                        players_of(final(state)@[id - 1].status),
                        grant(players_of(g0), color),
                    ))
                    &&& !joinable(g0) ==> out@ == failure_wire() && final(state)@[id - 1] == old(
                        state,
                    )@[id - 1]
                }
            },
        forall|id: u32|
            frame@ == #[trigger] wire_command(Command::StartGame { id }) ==> {
                &&& final(state)@.len() == old(state)@.len()
                &&& !valid_id(old(state)@, id) ==> out@ == failure_wire() && *final(state) == *old(
                    state,
                )
                &&& valid_id(old(state)@, id) ==> {
                    let g0 = old(state)@[id - 1].status;
                    &&& forall|j: int|
                        0 <= j < old(state)@.len() && j != id - 1 ==> final(state)@[j] == old(
                            state,
                        )@[j]
                    &&& startable(g0) ==> (out@ == rpre_avail() + wire_colors(avail_seq(g0))
                        + close_list() && final(state)@[id - 1].status is InProgress && players_of(
                        final(state)@[id - 1].status,
                    ) == players_of(g0))
                    &&& !startable(g0) ==> out@ == failure_wire() && final(state)@[id - 1] == old(
                        state,
                    )@[id - 1]
                }
            },
{
    match decode_command(frame) {
        Ok(command) => {
            let resp = handle_command(command, state);
            proof {
                lemma_failure_text_safe();
            }
            let out = encode_response(&resp);
            proof {
                assert forall|c: Command| frame@ == #[trigger] wire_command(c) implies c
                    == command by {
                    crate::codec::lemma_wire_command_injective(c, command);
                }
            }
            out
        }
        Err(_) => {
            let resp = failure_response();
            proof {
                lemma_failure_text_safe();
            }
            let out = encode_response(&resp);
            out
        }
    }
}

} // verus!
