use anima_solver::{Direction, Vec2};

const ALL: [Direction; 4] = [Direction::Right, Direction::Up, Direction::Left, Direction::Down];

#[test]
fn rotate_ccw_goes_right_up_left_down() {
    assert_eq!(Direction::Right.rotate_ccw(), Direction::Up);
    assert_eq!(Direction::Up.rotate_ccw(), Direction::Left);
    assert_eq!(Direction::Left.rotate_ccw(), Direction::Down);
    assert_eq!(Direction::Down.rotate_ccw(), Direction::Right);
}

#[test]
fn rotate_cw_goes_right_down_left_up() {
    assert_eq!(Direction::Right.rotate_cw(), Direction::Down);
    assert_eq!(Direction::Down.rotate_cw(), Direction::Left);
    assert_eq!(Direction::Left.rotate_cw(), Direction::Up);
    assert_eq!(Direction::Up.rotate_cw(), Direction::Right);
}

#[test]
fn reverse_swaps_opposites() {
    assert_eq!(Direction::Right.reverse(), Direction::Left);
    assert_eq!(Direction::Left.reverse(), Direction::Right);
    assert_eq!(Direction::Up.reverse(), Direction::Down);
    assert_eq!(Direction::Down.reverse(), Direction::Up);
}

#[test]
fn rotations_undo_each_other() {
    for d in ALL {
        assert_eq!(d.rotate_cw().rotate_ccw(), d);
        assert_eq!(d.rotate_ccw().rotate_cw(), d);
        assert_eq!(d.rotate_ccw().rotate_ccw(), d.reverse());
        assert_eq!(d.reverse().reverse(), d);
        assert_eq!(d.rotate_ccw().rotate_ccw().rotate_ccw().rotate_ccw(), d);
    }
}

#[test]
fn to_vec2_gives_unit_offsets() {
    assert_eq!(Direction::Right.to_vec2(), Vec2::new(1, 0));
    assert_eq!(Direction::Up.to_vec2(), Vec2::new(0, 1));
    assert_eq!(Direction::Left.to_vec2(), Vec2::new(-1, 0));
    assert_eq!(Direction::Down.to_vec2(), Vec2::new(0, -1));
    for d in ALL {
        assert_eq!(d.to_vec2() + d.reverse().to_vec2(), Vec2::zero());
    }
}

#[test]
fn names_are_capitalised() {
    assert_eq!(Direction::Right.to_string(), "Right");
    assert_eq!(Direction::Up.to_string(), "Up");
    assert_eq!(Direction::Left.to_string(), "Left");
    assert_eq!(Direction::Down.to_string(), "Down");
}

#[test]
fn keywords_are_lower_case() {
    assert_eq!(Direction::from_keyword("right").unwrap(), Direction::Right);
    assert_eq!(Direction::from_keyword("up").unwrap(), Direction::Up);
    assert_eq!(Direction::from_keyword("left").unwrap(), Direction::Left);
    assert_eq!(Direction::from_keyword("down").unwrap(), Direction::Down);
    assert_eq!("left".parse::<Direction>().unwrap(), Direction::Left);
}

#[test]
fn other_text_is_handed_back() {
    let e = Direction::from_keyword("Right").unwrap_err();
    assert_eq!(e.text(), "Right");
    let e = "".parse::<Direction>().unwrap_err();
    assert_eq!(e.text(), "");
    let e = "upward".parse::<Direction>().unwrap_err();
    assert_eq!(e.text(), "upward");
    assert_eq!(format!("{:?}", e), "ParseDirectionError(\"upward\")");
}
