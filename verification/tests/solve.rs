use anima_solver::Direction::{Down, Left, Right, Up};
use anima_solver::{solve, Color, Data, Direction, State, Transition};
use std::collections::{HashSet, VecDeque};

const SQUARE_DANCE: &str = " ....\n.r.r.\n.. ..\n.r.r.\n.... \n\nR 2 1\nR 1 2\nR 3 2\nR 2 3";
const FRACTAL: &str =
    "  r  \n ... \n. b .\n.....\n. r .\n ... \n  b  \n\nR 1 3\nR 3 3\nB 2 2\nB 2 4";
const ANTIPARTICLE: &str = ".....\n.r.r.\n.....\n.r.r.\n.....\n\nR 1 2\nR 2 1\nB 2 2\nR 2 3\nR 3 2";

/// Whether the commands cover every goal at their end.
fn solves(text: &str, path: &[Direction]) -> bool {
    let (mut state, data) = State::parse(text).unwrap();
    for d in path {
        state = state.transition(&data, d);
    }
    !path.is_empty() && data.is_solved_by(&state)
}

/// The actors after the commands, as (column, row, is red).
fn replay(text: &str, path: &[Direction]) -> Vec<(i32, i32, bool)> {
    let (mut state, data) = State::parse(text).unwrap();
    for d in path {
        state = state.transition(&data, d);
    }
    (0..state.len())
        .map(|i| state.actor(i))
        .map(|a| (a.position.x, a.position.y, a.color == Color::Red))
        .collect()
}

/// Length of a shortest solution, found by plain breadth-first search.
fn shortest(start: &State, data: &Data) -> Option<usize> {
    let mut seen = HashSet::new();
    let mut queue = VecDeque::new();
    seen.insert(start.clone());
    queue.push_back((start.clone(), 0usize));
    while let Some((state, depth)) = queue.pop_front() {
        for (_, outcome) in state.transitions(data) {
            match outcome {
                Transition::Success => return Some(depth + 1),
                Transition::Indeterminate(next) => {
                    if seen.insert(next.clone()) {
                        queue.push_back((next, depth + 1));
                    }
                }
            }
        }
    }
    None
}

fn check_against_breadth_first(text: &str) {
    let (state, data) = State::parse(text).unwrap();
    let expected = shortest(&state, &data);
    let found = solve(state, &data);
    assert_eq!(found.as_ref().map(|p| p.len()), expected, "{:?}", text);
    if let Some(path) = found {
        assert!(solves(text, &path), "{:?}", text);
        for k in 1..path.len() {
            assert!(!solves(text, &path[..k]), "{:?}", text);
        }
    }
}

#[test]
fn square_dance() {
    let (state, data) = State::parse(SQUARE_DANCE).unwrap();
    let path = solve(state, &data).unwrap();
    assert_eq!(path.len(), 12);
    assert!(solves(SQUARE_DANCE, &path));
    assert_eq!(
        replay(SQUARE_DANCE, &path),
        vec![(1, 1, true), (1, 3, true), (3, 1, true), (3, 3, true)]
    );
    check_against_breadth_first(SQUARE_DANCE);
}

#[test]
fn fractal() {
    let (state, data) = State::parse(FRACTAL).unwrap();
    let path = solve(state, &data).unwrap();
    assert_eq!(path.len(), 13);
    assert!(solves(FRACTAL, &path));
    check_against_breadth_first(FRACTAL);
}

#[test]
fn antiparticle() {
    let (state, data) = State::parse(ANTIPARTICLE).unwrap();
    let path = solve(state, &data).unwrap();
    assert_eq!(path.len(), 22);
    assert!(solves(ANTIPARTICLE, &path));
    let reds: Vec<_> = replay(ANTIPARTICLE, &path).into_iter().filter(|a| a.2).collect();
    assert_eq!(reds, vec![(1, 1, true), (1, 3, true), (3, 1, true), (3, 3, true)]);
    assert_eq!(replay(ANTIPARTICLE, &path).len(), 5);
    check_against_breadth_first(ANTIPARTICLE);
}

#[test]
fn square_dance_has_a_worked_solution_of_twelve_commands() {
    let worked = [Up, Left, Down, Down, Right, Right, Up, Up, Left, Down, Down, Up];
    assert!(solves(SQUARE_DANCE, &worked));
    assert_eq!(
        replay(SQUARE_DANCE, &worked),
        vec![(1, 1, true), (1, 3, true), (3, 1, true), (3, 3, true)]
    );
    for k in 1..worked.len() {
        assert!(!solves(SQUARE_DANCE, &worked[..k]));
    }
}

#[test]
fn antiparticle_has_a_worked_solution_of_twenty_two_commands() {
    let worked = [
        Down, Down, Up, Up, Up, Left, Left, Right, Up, Right, Right, Down, Down, Down, Left,
        Down, Right, Right, Up, Left, Up, Down,
    ];
    assert!(solves(ANTIPARTICLE, &worked));
    let reds: Vec<_> = replay(ANTIPARTICLE, &worked).into_iter().filter(|a| a.2).collect();
    assert_eq!(reds, vec![(1, 1, true), (1, 3, true), (3, 1, true), (3, 3, true)]);
}

#[test]
fn one_command_suffices() {
    let (state, data) = State::parse(".r\n\nR 0 0").unwrap();
    assert_eq!(solve(state, &data), Some(vec![Direction::Right]));
    let (state, data) = State::parse("r.\n\nR 1 0").unwrap();
    assert_eq!(solve(state, &data), Some(vec![Direction::Left]));
    let (state, data) = State::parse("r\n.\n\nR 0 0").unwrap();
    assert_eq!(solve(state, &data), Some(vec![Direction::Up]));
    let (state, data) = State::parse(".\nr\n\nR 0 1").unwrap();
    assert_eq!(solve(state, &data), Some(vec![Direction::Down]));
}

#[test]
fn a_straight_line_is_walked() {
    let (state, data) = State::parse("....r\n\nR 0 0").unwrap();
    assert_eq!(solve(state, &data), Some(vec![Direction::Right; 4]));
}

#[test]
fn a_solved_start_still_takes_one_command() {
    let (state, data) = State::parse("r\n\nR 0 0").unwrap();
    assert_eq!(solve(state, &data), Some(vec![Direction::Right]));
    let (state, data) = State::parse("...\n\nR 1 0").unwrap();
    assert_eq!(solve(state, &data), Some(vec![Direction::Right]));
}

#[test]
fn a_goal_without_an_actor_of_its_colour_has_no_solution() {
    let (state, data) = State::parse("..b\n...\n\nR 0 0").unwrap();
    assert_eq!(solve(state, &data), None);
    let (state, data) = State::parse(".....\n.r.r.\n.....\n.r.b.\n.....\n\nR 1 2\nR 2 1\nR 2 3").unwrap();
    assert_eq!(solve(state, &data), None);
    let (state, data) = State::parse("r\n\n").unwrap();
    assert_eq!(solve(state, &data), None);
}

#[test]
fn a_walled_in_goal_has_no_solution() {
    let (state, data) = State::parse("r ..\n  ..\n\nR 2 0").unwrap();
    assert_eq!(solve(state, &data), None);
}

#[test]
fn opposite_colours_cannot_both_be_served_on_a_line() {
    // With one row, red and blue always keep their distance or bounce.
    check_against_breadth_first("r..b\n\nB 0 0\nR 3 0");
}

#[test]
fn small_puzzles_agree_with_breadth_first_search() {
    let boards = [
        "r..\n...\n..b\n\n",
        "..r\n. .\nb..\n\n",
        ".rb.\n....\n\n",
        "r.r\n...\n...\n\n",
        ". r\n.b.\n.. \n\n",
        "rb\n..\n\n",
    ];
    let casts = [
        "R 0 0\nB 1 0",
        "R 1 0\nB 0 0",
        "R 0 0\nB 1 1",
        "R 0 1\nR 1 0\nB 1 1",
        "B 0 0\nR 1 1\nR 0 1",
        "R 0 0\nR 1 0\nB 0 1\nB 1 1",
        "R 0 0",
    ];
    for board in boards {
        for cast in casts {
            check_against_breadth_first(&format!("{}{}", board, cast));
        }
    }
}

#[test]
fn heuristic_never_exceeds_the_commands_still_needed() {
    for text in [SQUARE_DANCE, "r..\n...\n..b\n\nR 2 0\nB 0 2", ".rb.\n....\n\nR 0 0\nB 3 0\nR 3 1"] {
        let (start, data) = State::parse(text).unwrap();
        let mut seen = HashSet::new();
        let mut queue = VecDeque::new();
        seen.insert(start.clone());
        queue.push_back((start, 0usize));
        let mut checked = 0;
        while let Some((state, depth)) = queue.pop_front() {
            if let Some(path) = solve(state.clone(), &data) {
                let remaining = if data.is_solved_by(&state) { 0 } else { path.len() };
                assert!(state.heuristic(&data) <= remaining);
                checked += 1;
            }
            if depth < 3 {
                for (_, outcome) in state.transitions(&data) {
                    if let Transition::Indeterminate(next) = outcome {
                        if seen.insert(next.clone()) {
                            queue.push_back((next, depth + 1));
                        }
                    }
                }
            }
        }
        assert!(checked > 0);
    }
}

#[test]
fn heuristic_changes_by_at_most_one_per_command() {
    let (start, data) = State::parse(ANTIPARTICLE).unwrap();
    let mut state = start;
    let commands = [Direction::Up, Direction::Left, Direction::Left, Direction::Down, Direction::Right];
    for d in commands.iter().cycle().take(40) {
        let next = state.transition(&data, d);
        assert!(state.heuristic(&data) <= next.heuristic(&data) + 1);
        assert!(next.heuristic(&data) <= state.heuristic(&data) + 1);
        state = next;
    }
}

#[test]
fn solving_twice_gives_the_same_answer() {
    let (state, data) = State::parse(FRACTAL).unwrap();
    let first = solve(state.clone(), &data);
    let second = solve(state, &data);
    assert_eq!(first, second);
}
