use ludo::codec::{decode_response, encode_command};
use ludo::color::Color;
use ludo::protocol::{Command, Response};
use ludo::registry::AppState;
use ludo::session::{handle_command, handle_frame};

#[test]
fn create_games_in_order() {
    let mut state = AppState::new();
    for i in 1..10u32 {
        let request = encode_command(&Command::CreateGame);
        let out = handle_frame(&request, &mut state);
        let response = decode_response(&out).unwrap();
        assert_eq!(response, Response::CreateGameResponse { game_id: i });
    }
}

#[test]
fn dispatch_answers_each_command() {
    let mut state = AppState::new();
    assert_eq!(
        handle_command(Command::CreateGame, &mut state),
        Response::CreateGameResponse { game_id: 1 }
    );
    assert_eq!(
        handle_command(Command::AvailableColors { id: 1 }, &mut state),
        Response::AvailableColors {
            colors: vec![Color::Yellow, Color::Blue, Color::Red, Color::Green],
        }
    );
    assert_eq!(
        handle_command(Command::JoinGame { id: 1, color: Color::Red }, &mut state),
        Response::PickedColor { color: Color::Red }
    );
    assert_eq!(
        handle_command(Command::JoinGame { id: 1, color: Color::Red }, &mut state),
        Response::PickedColor { color: Color::Green }
    );
    // A successful start is answered with the remaining unclaimed colors.
    assert_eq!(
        handle_command(Command::StartGame { id: 1 }, &mut state),
        Response::AvailableColors { colors: vec![Color::Yellow, Color::Blue] }
    );
}

#[test]
fn failures_share_one_message() {
    let mut state = AppState::new();
    let failure = Response::FailureMessage { message: "Failed to handler request".to_string() };
    assert_eq!(handle_command(Command::AvailableColors { id: 5 }, &mut state), failure);
    assert_eq!(
        handle_command(Command::JoinGame { id: 5, color: Color::Red }, &mut state),
        failure
    );
    assert_eq!(handle_command(Command::StartGame { id: 5 }, &mut state), failure);
}

#[test]
fn garbage_frames_get_the_failure_frame() {
    let mut state = AppState::new();
    let out = handle_frame(&b"not json at all".to_vec(), &mut state);
    assert_eq!(
        out,
        b"{\"type\":\"FailureMessage\",\"message\":\"Failed to handler request\"}".to_vec()
    );
    // The registry is untouched by a bad frame.
    let out = handle_frame(&encode_command(&Command::CreateGame), &mut state);
    assert_eq!(
        decode_response(&out).unwrap(),
        Response::CreateGameResponse { game_id: 1 }
    );
}

#[test]
fn protocol_helpers_build_responses() {
    assert_eq!(
        Response::all_color_response(),
        Response::AvailableColors {
            colors: vec![Color::Yellow, Color::Blue, Color::Red, Color::Green],
        }
    );
    assert_eq!(
        Response::make_available_colors(vec![Color::Red]),
        Response::AvailableColors { colors: vec![Color::Red] }
    );
}
