use anima_solver::State;

#[test]
fn picture_has_a_margin_to_the_right_and_the_top() {
    let (state, data) = State::parse("r.\n. \n\nR 1 1\nB 0 0").unwrap();
    assert_eq!(state.display(&data), "    \n    \nrR  \nB   \n");
}

#[test]
fn actors_hide_goals() {
    let (state, data) = State::parse("rb\n\nB 0 0\nR 1 0").unwrap();
    assert_eq!(state.display(&data), "    \n    \nBR  \n");
}

#[test]
fn actors_in_the_margin_are_drawn() {
    let (state, data) = State::parse(".\n\nR 2 2\nB 3 0").unwrap();
    assert_eq!(state.display(&data), "  R\n   \n.  \n");
}

#[test]
fn actors_off_the_picture_are_left_out() {
    let (state, data) = State::parse(".\n\nR -1 0\nB 0 3").unwrap();
    assert_eq!(state.display(&data), "   \n   \n.  \n");
}

#[test]
fn empty_board_is_two_by_two() {
    let (state, data) = State::parse("\n").unwrap();
    assert_eq!(state.display(&data), "  \n  \n");
}
