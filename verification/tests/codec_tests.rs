use ludo::codec::{decode_command, decode_response, encode_command, encode_response};
use ludo::color::Color;
use ludo::protocol::{Command, Response};

#[test]
fn test_serde() {
    let game_id = 42;
    let command = encode_command(&Command::AvailableColors { id: game_id });

    let original_command = decode_command(&command).unwrap();

    assert_eq!(original_command, Command::AvailableColors { id: game_id });
}

#[test]
fn command_frames_are_canonical_json() {
    assert_eq!(encode_command(&Command::CreateGame), b"{\"type\":\"CreateGame\"}".to_vec());
    assert_eq!(
        encode_command(&Command::AvailableColors { id: 42 }),
        b"{\"type\":\"AvailableColors\",\"id\":42}".to_vec()
    );
    assert_eq!(
        encode_command(&Command::JoinGame { id: 7, color: Color::Blue }),
        b"{\"type\":\"JoinGame\",\"id\":7,\"color\":{\"type\":\"Blue\"}}".to_vec()
    );
    assert_eq!(
        encode_command(&Command::StartGame { id: 4294967295 }),
        b"{\"type\":\"StartGame\",\"id\":4294967295}".to_vec()
    );
}

#[test]
fn response_frames_are_canonical_json() {
    assert_eq!(
        encode_response(&Response::CreateGameResponse { game_id: 1 }),
        b"{\"type\":\"CreateGameResponse\",\"game_id\":1}".to_vec()
    );
    assert_eq!(
        encode_response(&Response::PickedColor { color: Color::Red }),
        b"{\"type\":\"PickedColor\",\"color\":{\"type\":\"Red\"}}".to_vec()
    );
    assert_eq!(
        encode_response(&Response::AvailableColors { colors: vec![] }),
        b"{\"type\":\"AvailableColors\",\"colors\":[]}".to_vec()
    );
    assert_eq!(
        encode_response(&Response::AvailableColors {
            colors: vec![Color::Yellow, Color::Green],
        }),
        b"{\"type\":\"AvailableColors\",\"colors\":[{\"type\":\"Yellow\"},{\"type\":\"Green\"}]}"
            .to_vec()
    );
    assert_eq!(
        encode_response(&Response::FailureMessage { message: "oops".to_string() }),
        b"{\"type\":\"FailureMessage\",\"message\":\"oops\"}".to_vec()
    );
}

#[test]
fn every_command_round_trips() {
    let commands = [
        Command::CreateGame,
        Command::AvailableColors { id: 0 },
        Command::AvailableColors { id: 4294967295 },
        Command::JoinGame { id: 10, color: Color::Yellow },
        Command::JoinGame { id: 3, color: Color::Green },
        Command::StartGame { id: 1 },
    ];
    for c in commands {
        assert_eq!(decode_command(&encode_command(&c)).unwrap(), c);
    }
}

#[test]
fn every_response_round_trips() {
    let responses = [
        Response::AvailableColors { colors: vec![] },
        Response::AvailableColors {
            colors: vec![Color::Yellow, Color::Blue, Color::Red, Color::Green],
        },
        Response::PickedColor { color: Color::Blue },
        Response::CreateGameResponse { game_id: 123456 },
        Response::FailureMessage { message: "Failed to handler request".to_string() },
        Response::FailureMessage { message: String::new() },
    ];
    for r in responses {
        let encoded = encode_response(&r);
        assert_eq!(decode_response(&encoded).unwrap(), r);
    }
}

#[test]
fn decoding_message_text_rebuilds_it_byte_by_byte() {
    let frame = b"{\"type\":\"FailureMessage\",\"message\":\"hi there\"}".to_vec();
    let decoded = decode_response(&frame).unwrap();
    assert_eq!(decoded, Response::FailureMessage { message: "hi there".to_string() });
}

#[test]
fn malformed_commands_are_protocol_errors() {
    let bad: [&[u8]; 9] = [
        b"",
        b"{}",
        b"{\"type\":\"Unknown\"}",
        b"{\"type\":\"CreateGame\"} ",
        b"{\"type\":\"AvailableColors\",\"id\":}",
        b"{\"type\":\"AvailableColors\",\"id\":01}",
        b"{\"type\":\"AvailableColors\",\"id\":4294967296}",
        b"{\"type\":\"JoinGame\",\"id\":7,\"color\":{\"type\":\"Pink\"}}",
        b"{\"type\":\"StartGame\",\"id\":1,\"x\":2}",
    ];
    for frame in bad {
        assert!(decode_command(&frame.to_vec()).is_err());
    }
}

#[test]
fn malformed_responses_are_protocol_errors() {
    let bad: [&[u8]; 6] = [
        b"",
        b"{\"type\":\"CreateGame\"}",
        b"{\"type\":\"AvailableColors\",\"colors\":[,]}",
        b"{\"type\":\"AvailableColors\",\"colors\":[{\"type\":\"Yellow\"},]}",
        b"{\"type\":\"FailureMessage\",\"message\":\"unterminated}",
        b"{\"type\":\"CreateGameResponse\",\"game_id\":-1}",
    ];
    for frame in bad {
        assert!(decode_response(&frame.to_vec()).is_err());
    }
}

#[test]
fn to_json_matches_the_encoder() {
    let r = Response::CreateGameResponse { game_id: 9 };
    assert_eq!(r.to_json(), "{\"type\":\"CreateGameResponse\",\"game_id\":9}");
}
