use ludo::board::AntiClockNeighbor;
use ludo::board::Position;
use ludo::color::Color;

#[test]
fn test_pos_offset() {
    assert_eq!(0, Color::Yellow.pos_offset());
    assert_eq!(13, Color::Blue.pos_offset());
    assert_eq!(26, Color::Red.pos_offset());
    assert_eq!(39, Color::Green.pos_offset());
}

#[test]
fn pos_offset_is_injective() {
    let colors = [Color::Yellow, Color::Blue, Color::Red, Color::Green];
    for a in 0..colors.len() {
        for b in 0..colors.len() {
            if a != b {
                assert_ne!(colors[a].pos_offset(), colors[b].pos_offset());
            }
        }
    }
}

#[test]
fn color_neighbor_cycle() {
    assert_eq!(Color::Red.neighbor(), Color::Green);
    assert_eq!(Color::Green.neighbor(), Color::Yellow);
    assert_eq!(Color::Yellow.neighbor(), Color::Blue);
    assert_eq!(Color::Blue.neighbor(), Color::Red);
}

#[test]
fn color_labels() {
    assert_eq!(Color::Yellow.label(), "Yellow");
    assert_eq!(Color::Blue.label(), "Blue");
    assert_eq!(Color::Red.label(), "Red");
    assert_eq!(Color::Green.label(), "Green");
}

#[test]
fn position_neighbor_cycle() {
    assert_eq!(Position::RightFar.neighbor(), Position::RightNear);
    assert_eq!(Position::RightNear.neighbor(), Position::LeftNear);
    assert_eq!(Position::LeftNear.neighbor(), Position::LeftFar);
    assert_eq!(Position::LeftFar.neighbor(), Position::RightFar);
}

#[test]
fn play_tiles_of_left_near_corner() {
    let tiles = Position::LeftNear.play_tile_has_color();
    for (i, has) in tiles.iter().enumerate() {
        let expected = i == 3 || i == 4 || i == 7 || i == 10 || i == 13 || i == 16;
        assert_eq!(*has, expected);
    }
}

#[test]
fn play_tiles_of_each_color() {
    let yellow = Color::Yellow.play_tile_has_color();
    let green = Color::Green.play_tile_has_color();
    let red = Color::Red.play_tile_has_color();
    let blue = Color::Blue.play_tile_has_color();
    for i in 0..18 {
        assert_eq!(yellow[i], i == 3 || i == 4 || i == 7 || i == 10 || i == 13 || i == 16);
        assert_eq!(green[i], i == 4 || i == 6 || i == 7 || i == 8 || i == 9 || i == 10);
        assert_eq!(red[i], i == 1 || i == 4 || i == 7 || i == 10 || i == 13 || i == 14);
        assert_eq!(blue[i], i == 7 || i == 8 || i == 9 || i == 10 || i == 11 || i == 13);
    }
}
