use ludo::color::Color;
use ludo::game::GameError;
use ludo::registry::{AppState, RegistryError};

#[test]
fn first_game_gets_id_one() {
    let mut state = AppState::new();
    assert_eq!(state.create_game(), 1);
}

#[test]
fn created_ids_are_distinct_and_gapless() {
    let mut state = AppState::new();
    let mut ids: Vec<u32> = Vec::new();
    for _ in 0..100 {
        ids.push(state.create_game());
    }
    for (i, id) in ids.iter().enumerate() {
        assert_eq!(*id, (i + 1) as u32);
    }
    for a in 0..ids.len() {
        for b in 0..ids.len() {
            if a != b {
                assert_ne!(ids[a], ids[b]);
            }
        }
    }
}

#[test]
fn unknown_ids_are_not_found() {
    let mut state = AppState::new();
    state.create_game();
    assert_eq!(state.available_colors(0), Err(RegistryError::NotFound));
    assert_eq!(state.available_colors(2), Err(RegistryError::NotFound));
    assert_eq!(state.join_game(99, Color::Red), Err(RegistryError::NotFound));
    assert_eq!(state.start_game(99), Err(RegistryError::NotFound));
}

#[test]
fn games_are_independent() {
    let mut state = AppState::new();
    let a = state.create_game();
    let b = state.create_game();
    assert_eq!(state.join_game(a, Color::Red), Ok(Color::Red));
    // Game b is untouched: Red is still free there.
    assert_eq!(state.join_game(b, Color::Red), Ok(Color::Red));
    assert_eq!(
        state.available_colors(a),
        Ok(vec![Color::Yellow, Color::Blue, Color::Green])
    );
}

#[test]
fn registry_passes_game_errors_through() {
    let mut state = AppState::new();
    let id = state.create_game();
    assert_eq!(
        state.start_game(id),
        Err(RegistryError::Game(GameError::NotEnoughPlayers))
    );
    for _ in 0..4 {
        state.join_game(id, Color::Yellow).unwrap();
    }
    assert_eq!(
        state.join_game(id, Color::Yellow),
        Err(RegistryError::Game(GameError::NoColorAvailable))
    );
    state.start_game(id).unwrap();
    assert_eq!(
        state.join_game(id, Color::Yellow),
        Err(RegistryError::Game(GameError::WrongStatus))
    );
}
