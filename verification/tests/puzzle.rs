use anima_solver::{Direction, State, Transition, UNREACHABLE};
use std::collections::hash_map::DefaultHasher;
use std::hash::{Hash, Hasher};

fn state(text: &str) -> State {
    State::parse(text).unwrap().0
}

fn after(text: &str, command: Direction) -> State {
    let (state, data) = State::parse(text).unwrap();
    state.transition(&data, &command)
}

fn hash_of(state: &State) -> u64 {
    let mut hasher = DefaultHasher::new();
    state.hash(&mut hasher);
    hasher.finish()
}

#[test]
fn red_moves_with_the_command() {
    assert_eq!(after("...\n...\n\nR 1 0", Direction::Right), state("...\n...\n\nR 2 0"));
    assert_eq!(after("...\n...\n\nR 1 0", Direction::Left), state("...\n...\n\nR 0 0"));
    assert_eq!(after("...\n...\n\nR 1 0", Direction::Up), state("...\n...\n\nR 1 1"));
    assert_eq!(after("...\n...\n\nR 1 1", Direction::Down), state("...\n...\n\nR 1 0"));
}

#[test]
fn blue_moves_against_the_command() {
    assert_eq!(after("...\n...\n\nB 1 0", Direction::Right), state("...\n...\n\nB 0 0"));
    assert_eq!(after("...\n...\n\nB 1 0", Direction::Left), state("...\n...\n\nB 2 0"));
    assert_eq!(after("...\n...\n\nB 1 1", Direction::Up), state("...\n...\n\nB 1 0"));
    assert_eq!(after("...\n...\n\nB 1 0", Direction::Down), state("...\n...\n\nB 1 1"));
}

#[test]
fn transition_is_deterministic() {
    let text = " ....\n.r.r.\n.. ..\n.r.r.\n.... \n\nR 2 1\nB 1 2\nR 3 2\nB 2 3";
    let (start, data) = State::parse(text).unwrap();
    for command in [Direction::Right, Direction::Up, Direction::Left, Direction::Down] {
        let first = start.transition(&data, &command);
        let second = start.transition(&data, &command);
        assert_eq!(first, second);
        assert_eq!(hash_of(&first), hash_of(&second));
        assert_eq!(first.transition(&data, &command), second.transition(&data, &command));
    }
}

#[test]
fn the_grid_edge_stops_an_actor() {
    let text = "..\n..\n\nR 1 1";
    assert_eq!(after(text, Direction::Right), state(text));
    assert_eq!(after(text, Direction::Up), state(text));
    let text = "..\n..\n\nB 1 1";
    assert_eq!(after(text, Direction::Left), state(text));
    assert_eq!(after(text, Direction::Down), state(text));
    let text = "..\n..\n\nR 0 0";
    assert_eq!(after(text, Direction::Left), state(text));
    assert_eq!(after(text, Direction::Down), state(text));
}

#[test]
fn an_impassable_cell_stops_an_actor() {
    let text = ". .\n\nR 0 0\nB 2 0";
    assert_eq!(after(text, Direction::Right), state(text));
}

#[test]
fn an_actor_off_the_grid_can_step_onto_it() {
    assert_eq!(after("..\n\nR -1 0", Direction::Right), state("..\n\nR 0 0"));
    assert_eq!(after("..\n\nR -2 0", Direction::Right), state("..\n\nR -2 0"));
    assert_eq!(
        after("..\n\nR 2147483647 0\nB -2147483648 0", Direction::Right),
        state("..\n\nB -2147483648 0\nR 2147483647 0")
    );
}

#[test]
fn head_on_actors_both_stay() {
    let text = "...\n\nR 0 0\nB 2 0";
    assert_eq!(after(text, Direction::Right), state(text));
    let text = "...\n\nB 0 0\nR 2 0";
    assert_eq!(after(text, Direction::Left), state("...\n\nB 0 0\nR 2 0"));
}

#[test]
fn an_actor_cannot_enter_a_cell_that_is_held() {
    // The second actor is stopped by the edge and holds its cell.
    let text = "..\n\nR 0 0\nR 1 0";
    assert_eq!(after(text, Direction::Right), state(text));
    let text = "..\n\nR 0 0\nB 1 0";
    assert_eq!(after(text, Direction::Left), state(text));
}

#[test]
fn undone_moves_can_undo_further_moves() {
    // The second red actor and the blue actor meet and go back; the first
    // red actor then finds the second one on the cell it moved to.
    let text = "....\n\nR 0 0\nR 1 0\nB 3 0";
    assert_eq!(after(text, Direction::Right), state(text));
}

#[test]
fn actors_in_a_row_move_together() {
    assert_eq!(after("....\n\nR 0 0\nR 1 0\nR 2 0", Direction::Right), state("....\n\nR 1 0\nR 2 0\nR 3 0"));
}

#[test]
fn actors_may_swap_cells() {
    assert_eq!(after("..\n\nR 0 0\nB 1 0", Direction::Right), state("..\n\nB 0 0\nR 1 0"));
}

#[test]
fn result_is_in_canonical_order() {
    let next = after("...\n...\n\nR 2 1\nB 2 0\nR 0 1\nB 0 0", Direction::Up);
    // Up: red to row 1 is blocked at the top, blue moves down and is blocked.
    assert_eq!(next, state("...\n...\n\nB 0 0\nR 0 1\nB 2 0\nR 2 1"));
    for i in 1..next.len() {
        let (a, b) = (next.actor(i - 1), next.actor(i));
        assert!((a.position.x, a.position.y) <= (b.position.x, b.position.y));
    }
}

#[test]
fn the_order_of_the_actors_does_not_matter() {
    let board = "....\n....\n\n";
    let one = format!("{}R 0 0\nB 3 1\nR 1 1", board);
    let other = format!("{}R 1 1\nR 0 0\nB 3 1", board);
    assert_eq!(state(&one), state(&other));
    assert_eq!(hash_of(&state(&one)), hash_of(&state(&other)));
    for command in [Direction::Right, Direction::Up, Direction::Left, Direction::Down] {
        let a = after(&one, command);
        let b = after(&other, command);
        assert_eq!(a, b);
        assert_eq!(hash_of(&a), hash_of(&b));
    }
}

#[test]
fn a_canonical_state_stays_as_it_is() {
    let text = "...\n\nR 0 0\nB 1 0\nR 2 0";
    let (start, data) = State::parse(text).unwrap();
    // Nobody can move up or down on a board of one row.
    let once = start.transition(&data, &Direction::Up);
    let twice = once.transition(&data, &Direction::Down);
    assert_eq!(once, start);
    assert_eq!(twice, once);
}

#[test]
fn states_with_the_same_actors_are_equal_and_hash_alike() {
    let a = state("..\n\nR 1 0\nR 0 0");
    let b = state("..\n\nR 0 0\nR 1 0");
    assert_eq!(a, b);
    assert_eq!(hash_of(&a), hash_of(&b));
    let c = state("..\n\nR 0 0\nB 1 0");
    assert_ne!(a, c);
}

#[test]
fn clone_is_equal() {
    let start = state("...\n\nR 0 0\nB 2 0");
    let copy = start.clone();
    assert_eq!(copy, start);
    assert_eq!(copy.len(), 2);
    assert_eq!(copy.actor(1), start.actor(1));
}

#[test]
fn solved_means_every_goal_is_covered_in_its_colour() {
    let (s, data) = State::parse("rb.\n\nR 0 0\nB 1 0").unwrap();
    assert!(data.is_solved_by(&s));
    let (s, data) = State::parse("rb.\n\nB 0 0\nR 1 0").unwrap();
    assert!(!data.is_solved_by(&s));
    let (s, data) = State::parse("rb.\n\nR 0 0\nB 2 0").unwrap();
    assert!(!data.is_solved_by(&s));
    let (s, data) = State::parse("...\n\nR 0 0").unwrap();
    assert!(data.is_solved_by(&s));
    let (s, data) = State::parse("r..\n\nR 0 0\nR 1 0\nB 2 0").unwrap();
    assert!(data.is_solved_by(&s));
}

#[test]
fn transitions_come_right_up_left_down() {
    let (start, data) = State::parse("...\n.r.\n...\n\nR 0 1").unwrap();
    let all = start.transitions(&data);
    assert_eq!(all[0].0, Direction::Right);
    assert_eq!(all[1].0, Direction::Up);
    assert_eq!(all[2].0, Direction::Left);
    assert_eq!(all[3].0, Direction::Down);
    assert_eq!(all[0].1, Transition::Success);
    assert_eq!(all[1].1, Transition::Indeterminate(state("...\n.r.\n...\n\nR 0 2")));
    assert_eq!(all[2].1, Transition::Indeterminate(state("...\n.r.\n...\n\nR 0 1")));
    assert_eq!(all[3].1, Transition::Indeterminate(state("...\n.r.\n...\n\nR 0 0")));
    let again = start.transitions(&data);
    assert_eq!(all, again);
}

#[test]
fn outcome_is_one_of_the_transitions() {
    let (start, data) = State::parse("...\n.r.\n...\n\nR 0 1").unwrap();
    let all = start.transitions(&data);
    assert_eq!(start.outcome(&data, Direction::Right), all[0]);
    assert_eq!(start.outcome(&data, Direction::Down), all[3]);
}

#[test]
fn heuristic_is_the_manhattan_distance_for_one_goal() {
    let (s, data) = State::parse("....r\n.....\n\nR 0 0").unwrap();
    assert_eq!(s.heuristic(&data), 5);
    let (s, data) = State::parse("....r\n.....\n\nR 4 1").unwrap();
    assert_eq!(s.heuristic(&data), 0);
}

#[test]
fn heuristic_takes_the_nearest_actor_of_the_colour() {
    let (s, data) = State::parse("....r\n.....\n\nR 0 0\nR 3 1\nB 4 0").unwrap();
    assert_eq!(s.heuristic(&data), 1);
}

#[test]
fn heuristic_takes_the_farthest_goal() {
    let (s, data) = State::parse("r...b\n.....\n.....\n\nR 1 2\nB 4 0").unwrap();
    // red goal at (0, 2): distance 1; blue goal at (4, 2): distance 2.
    assert_eq!(s.heuristic(&data), 2);
}

#[test]
fn heuristic_without_goals_is_zero() {
    let (s, data) = State::parse(".....\n\nR 1 0").unwrap();
    assert_eq!(s.heuristic(&data), 0);
}

#[test]
fn heuristic_of_a_missing_colour_is_the_sentinel() {
    let (s, data) = State::parse("r...b\n\nR 1 0").unwrap();
    assert_eq!(s.heuristic(&data), UNREACHABLE);
    assert_eq!(UNREACHABLE, usize::MAX);
}

#[test]
fn heuristic_copes_with_far_away_actors() {
    let (s, data) = State::parse("r\n\nR -2147483648 2147483647").unwrap();
    assert_eq!(s.heuristic(&data) as u64, 2147483648u64 + 2147483647u64);
}

#[test]
fn canonical_order_is_the_order_of_the_actor_type() {
    let next = after(
        "....\n....\n....\n\nB 3 2\nR 3 1\nR 0 1\nB 0 0\nR 2 0\nB 2 1\nR 1 1",
        Direction::Up,
    );
    let listed: Vec<_> = (0..next.len()).map(|i| next.actor(i)).collect();
    let mut sorted = listed.clone();
    sorted.sort();
    assert_eq!(listed, sorted);
}
