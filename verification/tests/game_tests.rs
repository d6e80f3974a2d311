use ludo::color::Color;
use ludo::game::{Game, GameError};
use ludo::player::Player;

#[test]
fn fresh_player_has_four_home_tokens() {
    let p = Player::new(Color::Green, "Green".to_string());
    assert_eq!(p.tokens.len(), 4);
    for (i, t) in p.tokens.iter().enumerate() {
        assert_eq!(t.id as usize, i + 1);
        assert_eq!(t.color, Color::Green);
        assert_eq!(t.status, ludo::token::Status::Home);
    }
    assert_eq!(p.name, "Green");
    assert_eq!(p.color(), Color::Green);
}

#[test]
fn join_grants_the_requested_color() {
    let mut g = Game::new(1);
    assert_eq!(g.join(Color::Red), Ok(Color::Red));
    assert!(g.has_color(Color::Red));
    assert!(!g.has_color(Color::Yellow));
}

#[test]
fn join_grants_a_neighbour_when_taken() {
    let mut g = Game::new(1);
    assert_eq!(g.join(Color::Red), Ok(Color::Red));
    // Red is taken: the nearest free color anticlockwise is Green.
    assert_eq!(g.join(Color::Red), Ok(Color::Green));
    assert_eq!(g.join(Color::Red), Ok(Color::Yellow));
    assert_eq!(g.join(Color::Red), Ok(Color::Blue));
}

#[test]
fn a_fifth_join_finds_no_color() {
    let mut g = Game::new(1);
    for _ in 0..4 {
        g.join(Color::Yellow).unwrap();
    }
    assert_eq!(g.join(Color::Yellow), Err(GameError::NoColorAvailable));
}

#[test]
fn start_needs_at_least_two_seats() {
    let mut g = Game::new(1);
    assert_eq!(g.start(), Err(GameError::NotEnoughPlayers));
    g.join(Color::Blue).unwrap();
    assert_eq!(g.start(), Err(GameError::NotEnoughPlayers));
    g.join(Color::Green).unwrap();
    assert_eq!(g.start(), Ok(()));
}

#[test]
fn join_after_start_is_refused() {
    let mut g = Game::new(1);
    g.join(Color::Blue).unwrap();
    g.join(Color::Green).unwrap();
    g.start().unwrap();
    assert_eq!(g.join(Color::Red), Err(GameError::WrongStatus));
    assert_eq!(g.start(), Err(GameError::WrongStatus));
}

#[test]
fn complete_ends_a_running_game() {
    let mut g = Game::new(1);
    assert_eq!(g.complete(), Err(GameError::WrongStatus));
    g.join(Color::Blue).unwrap();
    g.join(Color::Green).unwrap();
    g.start().unwrap();
    assert_eq!(g.complete(), Ok(()));
    assert_eq!(g.complete(), Err(GameError::WrongStatus));
}

#[test]
fn abandon_from_any_non_terminal_state() {
    let mut g = Game::new(1);
    assert_eq!(g.abandon(), Ok(()));
    assert_eq!(g.abandon(), Err(GameError::WrongStatus));

    let mut g = Game::new(2);
    g.join(Color::Blue).unwrap();
    assert_eq!(g.abandon(), Ok(()));

    let mut g = Game::new(3);
    g.join(Color::Blue).unwrap();
    g.join(Color::Green).unwrap();
    g.start().unwrap();
    g.complete().unwrap();
    assert_eq!(g.abandon(), Err(GameError::WrongStatus));
}

#[test]
fn available_colors_shrink_as_seats_fill() {
    let mut g = Game::new(1);
    assert_eq!(
        g.available_colors(),
        vec![Color::Yellow, Color::Blue, Color::Red, Color::Green]
    );
    g.join(Color::Red).unwrap();
    assert_eq!(g.available_colors(), vec![Color::Yellow, Color::Blue, Color::Green]);
    g.join(Color::Yellow).unwrap();
    assert_eq!(g.available_colors(), vec![Color::Blue, Color::Green]);
}
