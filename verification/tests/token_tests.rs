use ludo::color::Color;
use ludo::token::{MoveError, Status, Token};

#[test]
fn new_token_is_home() {
    let t = Token::new(Color::Yellow, 1);
    assert_eq!(t.status, Status::Home);
    assert_eq!(t.color, Color::Yellow);
    assert_eq!(t.id, 1);
}

#[test]
fn home_leaves_only_on_six() {
    let t = Token::new(Color::Red, 1);
    for count in 0..=5u8 {
        assert!(!t.is_valid_move(count));
    }
    assert!(t.is_valid_move(6));
}

#[test]
fn home_enters_track_at_one() {
    let mut t = Token::new(Color::Red, 1);
    t.move_token(6).unwrap();
    assert_eq!(t, Token::new(Color::Red, 1).with_status(Status::Running { pos: 1 }));
}

#[test]
fn running_moves_forward() {
    let mut t = Token::new(Color::Red, 1).with_status(Status::Running { pos: 10 });
    t.move_token(6).unwrap();
    assert_eq!(t, Token::new(Color::Red, 1).with_status(Status::Running { pos: 16 }));
}

#[test]
fn running_49_plus_3_enters_final_walk() {
    let mut t = Token::new(Color::Red, 1).with_status(Status::Running { pos: 49 });
    t.move_token(3).unwrap();
    assert_eq!(t, Token::new(Color::Red, 1).with_status(Status::FinalWalk { pos: 1 }));
}

#[test]
fn running_51_plus_6_is_done() {
    let mut t = Token::new(Color::Red, 1).with_status(Status::Running { pos: 51 });
    t.move_token(6).unwrap();
    assert_eq!(t, Token::new(Color::Red, 1).with_status(Status::Done));
}

#[test]
fn final_walk_2_plus_4_is_done() {
    let mut t = Token::new(Color::Red, 1).with_status(Status::FinalWalk { pos: 2 });
    t.move_token(4).unwrap();
    assert_eq!(t, Token::new(Color::Red, 1).with_status(Status::Done));
}

#[test]
fn final_walk_2_plus_3_stays_on_stretch() {
    let mut t = Token::new(Color::Red, 1).with_status(Status::FinalWalk { pos: 2 });
    t.move_token(3).unwrap();
    assert_eq!(t, Token::new(Color::Red, 1).with_status(Status::FinalWalk { pos: 5 }));
}

#[test]
fn invalid_move_leaves_token_unchanged() {
    let mut t = Token::new(Color::Blue, 2);
    assert_eq!(t.move_token(5), Err(MoveError::InvalidMove));
    assert_eq!(t, Token::new(Color::Blue, 2));

    let mut t = Token::new(Color::Blue, 2).with_status(Status::Running { pos: 51 });
    assert_eq!(t.move_token(7), Err(MoveError::InvalidMove));
    assert_eq!(t.status, Status::Running { pos: 51 });

    let mut t = Token::new(Color::Blue, 2).with_status(Status::FinalWalk { pos: 4 });
    assert_eq!(t.move_token(3), Err(MoveError::InvalidMove));
    assert_eq!(t.status, Status::FinalWalk { pos: 4 });
}

#[test]
fn done_token_accepts_no_move() {
    let mut t = Token::new(Color::Green, 3).with_status(Status::Done);
    for count in 0..=6u8 {
        assert!(!t.is_valid_move(count));
    }
    assert_eq!(t.move_token(6), Err(MoveError::InvalidMove));
    assert_eq!(t.status, Status::Done);
}

#[test]
fn home_has_no_coordinate() {
    assert_eq!(Token::new(Color::Yellow, 1).get_x_z(), None);
}

#[test]
fn coordinates_at_track_boundaries() {
    // Yellow at personal position 1 stands at global cell 1.
    let t = Token::new(Color::Yellow, 1).with_status(Status::Running { pos: 1 });
    assert_eq!(t.get_x_z(), Some((6, 1)));
    // Yellow at personal position 51 stands at global cell 51.
    let t = Token::new(Color::Yellow, 1).with_status(Status::Running { pos: 51 });
    assert_eq!(t.get_x_z(), Some((7, 0)));
    // Red at personal position 26 wraps to global cell 0.
    let t = Token::new(Color::Red, 1).with_status(Status::Running { pos: 26 });
    assert_eq!(t.get_x_z(), Some((6, 0)));
}

#[test]
fn coordinates_on_each_arm() {
    let at = |pos: u8| Token::new(Color::Yellow, 1).with_status(Status::Running { pos }).get_x_z();
    assert_eq!(at(8), Some((3, 6)));
    assert_eq!(at(12), Some((0, 7)));
    assert_eq!(at(15), Some((2, 8)));
    assert_eq!(at(20), Some((6, 10)));
    assert_eq!(at(25), Some((7, 14)));
    assert_eq!(at(28), Some((8, 12)));
    assert_eq!(at(35), Some((12, 8)));
    assert_eq!(at(38), Some((14, 7)));
    assert_eq!(at(41), Some((12, 6)));
    assert_eq!(at(47), Some((8, 3)));
}

#[test]
fn coordinates_on_home_stretch() {
    let fw = |c: Color, pos: u8| Token::new(c, 1).with_status(Status::FinalWalk { pos }).get_x_z();
    assert_eq!(fw(Color::Yellow, 3), Some((7, 3)));
    assert_eq!(fw(Color::Blue, 2), Some((2, 7)));
    assert_eq!(fw(Color::Red, 4), Some((7, 10)));
    assert_eq!(fw(Color::Green, 5), Some((9, 7)));
}

#[test]
fn coordinates_when_done() {
    let done = |c: Color| Token::new(c, 1).with_status(Status::Done).get_x_z();
    assert_eq!(done(Color::Yellow), Some((7, 6)));
    assert_eq!(done(Color::Blue), Some((6, 7)));
    assert_eq!(done(Color::Red), Some((7, 8)));
    assert_eq!(done(Color::Green), Some((8, 7)));
}
