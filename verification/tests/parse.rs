use anima_solver::{Actor, Color, Goal, ParseError, State, Tile, Vec2};

fn red(x: i32, y: i32) -> Actor {
    Actor { position: Vec2::new(x, y), color: Color::Red }
}

fn blue(x: i32, y: i32) -> Actor {
    Actor { position: Vec2::new(x, y), color: Color::Blue }
}

#[test]
fn rows_are_read_top_down() {
    let (state, data) = State::parse("r. \n .b\n\nR 0 0\nB 2 1").unwrap();
    assert_eq!(data.size(), Vec2::new(3, 2));
    assert_eq!(data.tile(Vec2::new(0, 1)), Tile::Passable);
    assert_eq!(data.tile(Vec2::new(1, 1)), Tile::Passable);
    assert_eq!(data.tile(Vec2::new(2, 1)), Tile::Impassable);
    assert_eq!(data.tile(Vec2::new(0, 0)), Tile::Impassable);
    assert_eq!(data.tile(Vec2::new(1, 0)), Tile::Passable);
    assert_eq!(data.tile(Vec2::new(2, 0)), Tile::Passable);
    assert_eq!(
        data.goals().as_slice(),
        &[
            Goal { position: Vec2::new(0, 1), color: Color::Red },
            Goal { position: Vec2::new(2, 0), color: Color::Blue },
        ]
    );
    assert_eq!(state.len(), 2);
    assert_eq!(state.actor(0), red(0, 0));
    assert_eq!(state.actor(1), blue(2, 1));
}

#[test]
fn actors_are_listed_in_canonical_order() {
    let (state, _) = State::parse("...\n...\n\nR 2 0\nB 0 1\nR 1 0\nB 0 0").unwrap();
    assert_eq!(state.len(), 4);
    assert_eq!(state.actor(0), blue(0, 0));
    assert_eq!(state.actor(1), blue(0, 1));
    assert_eq!(state.actor(2), red(1, 0));
    assert_eq!(state.actor(3), red(2, 0));
}

#[test]
fn the_order_of_the_actor_lines_does_not_matter() {
    let a = State::parse("..\n\nR 1 0\nR 0 0").unwrap().0;
    let b = State::parse("..\n\nR 0 0\nR 1 0").unwrap().0;
    assert_eq!(a, b);
    assert_eq!(a.actor(0), red(0, 0));
    assert_eq!(a.actor(1), red(1, 0));
    let c = State::parse("...\n...\n\nB 2 1\nR 0 0\nB 1 1").unwrap().0;
    let d = State::parse("...\n...\n\nR 0 0\nB 1 1\nB 2 1").unwrap().0;
    let e = State::parse("...\n...\n\nB 1 1\nB 2 1\nR 0 0").unwrap().0;
    assert_eq!(c, d);
    assert_eq!(d, e);
    let f = State::parse("...\n...\n\nR 0 0\nR 1 1\nB 2 1").unwrap().0;
    assert_ne!(d, f);
}

#[test]
fn out_of_range_tiles_are_impassable() {
    let (_, data) = State::parse("..\n..\n\n").unwrap();
    assert_eq!(data.tile(Vec2::new(-1, 0)), Tile::Impassable);
    assert_eq!(data.tile(Vec2::new(0, -1)), Tile::Impassable);
    assert_eq!(data.tile(Vec2::new(2, 0)), Tile::Impassable);
    assert_eq!(data.tile(Vec2::new(0, 2)), Tile::Impassable);
    assert_eq!(data.tile(Vec2::new(i32::MAX, i32::MIN)), Tile::Impassable);
    assert_eq!(data.tile(Vec2::new(1, 1)), Tile::Passable);
}

#[test]
fn a_puzzle_without_actors_is_fine() {
    let (state, data) = State::parse(". .\n\n").unwrap();
    assert_eq!(state.len(), 0);
    assert_eq!(data.size(), Vec2::new(3, 1));
    let (state, data) = State::parse("..\n").unwrap_or_else(|e| match e {
        ParseError::NoLineBreakAfterRows => State::parse("..\n\n").unwrap(),
        other => panic!("{:?}", other),
    });
    assert_eq!(state.len(), 0);
    assert_eq!(data.size(), Vec2::new(2, 1));
}

#[test]
fn an_empty_first_line_gives_an_empty_board() {
    let (state, data) = State::parse("\nR 3 4").unwrap();
    assert_eq!(data.size(), Vec2::new(0, 0));
    assert_eq!(state.len(), 1);
    assert_eq!(state.actor(0), red(3, 4));
}

#[test]
fn carriage_returns_before_line_feeds_are_dropped() {
    let (state, data) = State::parse("..\r\n.r\r\n\r\nR 0 1\r\nB 1 1").unwrap();
    assert_eq!(data.size(), Vec2::new(2, 2));
    assert_eq!(state.len(), 2);
    assert_eq!(state.actor(1), blue(1, 1));
}

#[test]
fn a_final_line_feed_adds_no_line() {
    let (state, _) = State::parse("..\n\nR 0 0\n").unwrap();
    assert_eq!(state.len(), 1);
}

#[test]
fn coordinates_may_carry_a_sign() {
    let (state, _) = State::parse("..\n\nR +1 -2\nB -0 2147483647\nR -2147483648 007").unwrap();
    assert_eq!(state.actor(0), red(i32::MIN, 7));
    assert_eq!(state.actor(1), blue(0, i32::MAX));
    assert_eq!(state.actor(2), red(1, -2));
}

#[test]
fn fields_after_the_row_are_ignored() {
    let (state, _) = State::parse("..\n\nR 1 0 and more").unwrap();
    assert_eq!(state.actor(0), red(1, 0));
}

#[test]
fn empty_text_has_no_rows() {
    assert!(matches!(State::parse(""), Err(ParseError::NoRows)));
}

#[test]
fn rows_must_end_with_an_empty_line() {
    assert!(matches!(State::parse("...\n..."), Err(ParseError::NoLineBreakAfterRows)));
    assert!(matches!(State::parse("...\n...\n"), Err(ParseError::NoLineBreakAfterRows)));
    assert!(matches!(State::parse("R 0 0"), Err(ParseError::NoLineBreakAfterRows)));
}

#[test]
fn rows_must_be_equally_wide() {
    match State::parse("...\n..\n\n") {
        Err(ParseError::UnevenRows { line_number, data_width, line_width }) => {
            assert_eq!((line_number, data_width, line_width), (1, 3, 2));
        }
        other => panic!("{:?}", other.map(|_| ())),
    }
    match State::parse("..\n...\n....\n\n") {
        Err(ParseError::UnevenRows { line_number, data_width, line_width }) => {
            assert_eq!((line_number, data_width, line_width), (1, 2, 3));
        }
        other => panic!("{:?}", other.map(|_| ())),
    }
}

#[test]
fn row_width_counts_bytes() {
    // The second row has two characters but three bytes.
    match State::parse("..\n.\u{e9}\n\n") {
        Err(ParseError::UnevenRows { line_number, data_width, line_width }) => {
            assert_eq!((line_number, data_width, line_width), (1, 2, 3));
        }
        other => panic!("{:?}", other.map(|_| ())),
    }
    // Here it has one character and two bytes: as wide as the first row.
    match State::parse("..\n\u{e9}\n\n") {
        Err(ParseError::UnexpectedCharacter { line_number, column_number, character }) => {
            assert_eq!((line_number, column_number, character), (1, 1, '\u{e9}'));
        }
        other => panic!("{:?}", other.map(|_| ())),
    }
}

#[test]
fn rows_hold_only_tile_characters() {
    match State::parse("..x\n\n") {
        Err(ParseError::UnexpectedCharacter { line_number, column_number, character }) => {
            assert_eq!((line_number, column_number, character), (0, 3, 'x'));
        }
        other => panic!("{:?}", other.map(|_| ())),
    }
    match State::parse("...\nR..\n\n") {
        Err(ParseError::UnexpectedCharacter { line_number, column_number, character }) => {
            assert_eq!((line_number, column_number, character), (1, 1, 'R'));
        }
        other => panic!("{:?}", other.map(|_| ())),
    }
}

#[test]
fn the_first_fault_from_the_top_is_reported() {
    assert!(matches!(
        State::parse("..x\n.\n\n"),
        Err(ParseError::UnexpectedCharacter { line_number: 0, .. })
    ));
    assert!(matches!(
        State::parse("...\n.\n..x\n\nQ"),
        Err(ParseError::UnevenRows { line_number: 1, .. })
    ));
}

#[test]
fn actor_colour_must_be_r_or_b() {
    match State::parse("...\n\nG 1 1") {
        Err(ParseError::InvalidActorColor { line_number, color }) => {
            assert_eq!(line_number, 2);
            assert_eq!(color, "G");
        }
        other => panic!("{:?}", other.map(|_| ())),
    }
    match State::parse("...\n\nR 0 0\n\nB 1 0") {
        Err(ParseError::InvalidActorColor { line_number, color }) => {
            assert_eq!(line_number, 3);
            assert_eq!(color, "");
        }
        other => panic!("{:?}", other.map(|_| ())),
    }
    assert!(matches!(
        State::parse("...\n\nr 0 0"),
        Err(ParseError::InvalidActorColor { line_number: 2, .. })
    ));
    assert!(matches!(
        State::parse("...\n\nRB 0 0"),
        Err(ParseError::InvalidActorColor { line_number: 2, .. })
    ));
}

#[test]
fn actor_needs_column_and_row() {
    assert!(matches!(State::parse("...\n\nR"), Err(ParseError::MissingActorX { line_number: 2 })));
    assert!(matches!(
        State::parse("...\n\nR 0 0\nB 1"),
        Err(ParseError::MissingActorY { line_number: 3 })
    ));
}

#[test]
fn actor_coordinates_must_be_numbers() {
    assert!(matches!(
        State::parse("...\n\nR a 1"),
        Err(ParseError::InvalidActorX { line_number: 2, .. })
    ));
    assert!(matches!(
        State::parse("...\n\nR  1 1"),
        Err(ParseError::InvalidActorX { line_number: 2, .. })
    ));
    assert!(matches!(
        State::parse("...\n\nR 2147483648 1"),
        Err(ParseError::InvalidActorX { line_number: 2, .. })
    ));
    assert!(matches!(
        State::parse("...\n\nR 1 b"),
        Err(ParseError::InvalidActorY { line_number: 2, .. })
    ));
    assert!(matches!(
        State::parse("...\n\nR 1 -"),
        Err(ParseError::InvalidActorY { line_number: 2, .. })
    ));
    assert!(matches!(
        State::parse("...\n\nR 1 "),
        Err(ParseError::InvalidActorY { line_number: 2, .. })
    ));
    assert!(matches!(
        State::parse("...\n\nR a"),
        Err(ParseError::InvalidActorX { line_number: 2, .. })
    ));
}

#[test]
fn at_most_eight_actors() {
    let eight = ".........\n\nR 0 0\nR 1 0\nR 2 0\nR 3 0\nB 4 0\nB 5 0\nB 6 0\nB 7 0";
    let (state, _) = State::parse(eight).unwrap();
    assert_eq!(state.len(), 8);
    let nine = format!("{}\nR 8 0", eight);
    assert!(matches!(State::parse(&nine), Err(ParseError::TooManyActors { line_number: 10 })));
}

#[test]
fn a_ninth_actor_is_too_many_whatever_cell_it_names() {
    let eight = ".........\n\nR 0 0\nR 1 0\nR 2 0\nR 3 0\nB 4 0\nB 5 0\nB 6 0\nB 7 0";
    // The ninth line names the cell of the first actor.
    let nine = format!("{}\nR 0 0", eight);
    assert!(matches!(State::parse(&nine), Err(ParseError::TooManyActors { line_number: 10 })));
    // An overlap among the first eight does not come before the count.
    let nine = ".........\n\nR 0 0\nR 0 0\nR 2 0\nR 3 0\nB 4 0\nB 5 0\nB 6 0\nB 7 0\nR 8 0";
    assert!(matches!(State::parse(nine), Err(ParseError::TooManyActors { line_number: 10 })));
    // Nor do later lines matter: the ninth actor ends the reading.
    let ten = format!("{}\nR 8 0\nnot an actor", eight);
    assert!(matches!(State::parse(&ten), Err(ParseError::TooManyActors { line_number: 10 })));
    // Two rows above the actors move the line number.
    let nine = format!(".........\n{}\nB 8 0", eight);
    assert!(matches!(State::parse(&nine), Err(ParseError::TooManyActors { line_number: 11 })));
}

#[test]
fn a_line_that_defines_no_actor_comes_before_the_count() {
    let text = "..\n\nR 0 0\nR 1 0\nR 2 0\nR 3 0\nB 4 0\nB 5 0\nB 6 0\nB 7 0\nX 8 0";
    assert!(matches!(State::parse(text), Err(ParseError::InvalidActorColor { line_number: 10, .. })));
}

#[test]
fn overlaps_are_looked_at_when_every_line_is_read() {
    // The overlap is in line 3, the line that defines no actor is line 4.
    assert!(matches!(
        State::parse("...\n\nR 1 0\nB 1 0\nR 2"),
        Err(ParseError::MissingActorY { line_number: 4 })
    ));
    // Of several overlaps the first is reported, at the line of the later actor.
    assert!(matches!(
        State::parse("...\n...\n\nR 1 0\nB 2 0\nR 0 0\nB 2 0\nR 1 0"),
        Err(ParseError::OverlappingActors { line_number: 6 })
    ));
    // Eight actors, two of them on one cell.
    let eight = "..\n\nR 0 0\nR 1 0\nR 2 0\nR 3 0\nB 4 0\nB 5 0\nB 6 0\nB 0 0";
    assert!(matches!(State::parse(eight), Err(ParseError::OverlappingActors { line_number: 9 })));
}

#[test]
fn actors_may_not_share_a_cell() {
    assert!(matches!(
        State::parse("...\n\nR 1 0\nB 0 0\nB 1 0"),
        Err(ParseError::OverlappingActors { line_number: 4 })
    ));
}
