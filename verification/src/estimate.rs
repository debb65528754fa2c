//! What the distance estimate promises: it is zero exactly on solved
//! states, one command lowers it by at most one, and so it never exceeds
//! the number of commands that are still needed.

use crate::canonical::lemma_canonical_is_sorted_permutation;
use crate::direction::Direction;
use crate::model::{moved_or_back, Actor, Board, Goal, UNREACHABLE};
use crate::rounds::lemma_retreats_shape;
use vstd::prelude::*;
use vstd::seq_lib::group_to_multiset_ensures;

verus! {

/// The goal distance is a minimum: it lies between 0 and `UNREACHABLE`, no
/// actor of the goal's colour is nearer, and unless it is `UNREACHABLE`
/// some actor of the goal's colour is exactly that far away.
pub proof fn lemma_goal_distance_is_minimum(goal: Goal, actors: Seq<Actor>)
    ensures
        0 <= Board::goal_distance(goal, actors) <= UNREACHABLE,
        forall|k: int|
            0 <= k < actors.len() && (#[trigger] actors[k]).color == goal.color
                ==> Board::goal_distance(goal, actors) <= goal.position.manhattan(
                actors[k].position,
            ),
        Board::goal_distance(goal, actors) == UNREACHABLE || exists|k: int|
            0 <= k < actors.len() && (#[trigger] actors[k]).color == goal.color
                && Board::goal_distance(goal, actors) == goal.position.manhattan(
                actors[k].position,
            ),
    decreases actors.len(),
{
    if actors.len() > 0 {
        let front = actors.drop_last();
        lemma_goal_distance_is_minimum(goal, front);
        let d = Board::goal_distance(goal, actors);
        assert forall|k: int|
            0 <= k < actors.len() && (#[trigger] actors[k]).color == goal.color implies d
            <= goal.position.manhattan(actors[k].position) by {
            if k < front.len() {
                assert(front[k] == actors[k]);
            }
        }
        if d != UNREACHABLE {
            if actors.last().color == goal.color && d == goal.position.manhattan(
                actors.last().position,
            ) {
                assert(actors[actors.len() - 1].color == goal.color);
            } else {
                let k = choose|k: int|
                    0 <= k < front.len() && (#[trigger] front[k]).color == goal.color
                        && Board::goal_distance(goal, front) == goal.position.manhattan(
                        front[k].position,
                    );
                assert(actors[k] == front[k]);
            }
        }
    }
}

/// The estimate is a maximum: no goal distance among the first `count`
/// goals is larger, and unless it is 0 one of them is exactly that large.
pub proof fn lemma_estimate_is_maximum(board: Board, actors: Seq<Actor>, count: int)
    requires
        0 <= count <= board.goals.len(),
    ensures
        0 <= board.estimate_upto(actors, count) <= UNREACHABLE,
        forall|k: int|
            0 <= k < count ==> Board::goal_distance(#[trigger] board.goals[k], actors)
                <= board.estimate_upto(actors, count),
        board.estimate_upto(actors, count) == 0 || exists|k: int|
            0 <= k < count && Board::goal_distance(#[trigger] board.goals[k], actors)
                == board.estimate_upto(actors, count),
    decreases count,
{
    if count > 0 {
        lemma_estimate_is_maximum(board, actors, count - 1);
        lemma_goal_distance_is_minimum(board.goals[count - 1], actors);
        let e = board.estimate_upto(actors, count);
        if e != 0 {
            if e == Board::goal_distance(board.goals[count - 1], actors) {
            } else {
                let k = choose|k: int|
                    0 <= k < count - 1 && Board::goal_distance(#[trigger] board.goals[k], actors)
                        == board.estimate_upto(actors, count - 1);
                assert(Board::goal_distance(board.goals[k], actors) == e);
            }
        }
    }
}

/// The estimate is 0 exactly on the states that cover every goal.
pub proof fn lemma_estimate_zero_iff_solved(board: Board, actors: Seq<Actor>)
    ensures
        board.estimate(actors) == 0 <==> board.solved(actors),
        board.estimate(actors) >= 0,
{
    let n = board.goals.len() as int;
    lemma_estimate_is_maximum(board, actors, n);
    if board.solved(actors) {
        if board.estimate(actors) != 0 {
            let k = choose|k: int|
                0 <= k < n && Board::goal_distance(#[trigger] board.goals[k], actors)
                    == board.estimate(actors);
            let goal = board.goals[k];
            lemma_goal_distance_is_minimum(goal, actors);
            assert(Board::covered(goal, actors));
            let i = choose|i: int|
                0 <= i < actors.len() && (#[trigger] actors[i]).position == goal.position
                    && actors[i].color == goal.color;
            assert(goal.position.manhattan(actors[i].position) == 0);
        }
    }
    if board.estimate(actors) == 0 {
        assert forall|k: int| 0 <= k < n implies Board::covered(
            #[trigger] board.goals[k],
            actors,
        ) by {
            let goal = board.goals[k];
            lemma_goal_distance_is_minimum(goal, actors);
            assert(Board::goal_distance(goal, actors) == 0);
            let i = choose|i: int|
                0 <= i < actors.len() && (#[trigger] actors[i]).color == goal.color
                    && Board::goal_distance(goal, actors) == goal.position.manhattan(
                    actors[i].position,
                );
            assert(actors[i].position == goal.position);
        }
    }
}

/// One command keeps the number of actors, and every actor of the new state
/// comes from an actor of the old state that has the same colour and stood
/// on the same cell or on a neighbouring one.
pub proof fn lemma_step_moves_one_cell(board: Board, actors: Seq<Actor>, command: Direction)
    requires
        board.wf(),
    ensures
        board.step(actors, command).len() == actors.len(),
        forall|k: int|
            0 <= k < actors.len() ==> exists|p: int|
                0 <= p < actors.len() && actors[p].color == (#[trigger] board.step(
                    actors,
                    command,
                )[k]).color && actors[p].position.manhattan(board.step(actors, command)[k].position)
                    <= 1,
{
    broadcast use group_to_multiset_ensures;

    let moved = board.advance_all(actors, command);
    let settled = board.resolve(actors, command);
    let next = board.step(actors, command);
    assert(moved_or_back(moved, moved, actors));
    lemma_retreats_shape(moved, moved, actors, actors.len());
    lemma_canonical_is_sorted_permutation(settled);
    assert forall|k: int| 0 <= k < actors.len() implies exists|p: int|
        0 <= p < actors.len() && actors[p].color == (#[trigger] next[k]).color
            && actors[p].position.manhattan(next[k].position) <= 1 by {
        assert(next.to_multiset().count(next[k]) > 0);
        assert(settled.contains(next[k]));
        let p = choose|p: int| 0 <= p < settled.len() && settled[p] == next[k];
        assert(settled[p].color == moved[p].color);
        assert(moved[p] == board.advance(actors[p], command));
        assert(actors[p].position.manhattan(settled[p].position) <= 1);
    }
}

/// One command lowers the distance of a goal by at most one.
pub proof fn lemma_goal_distance_consistent(
    board: Board,
    goal: Goal,
    actors: Seq<Actor>,
    command: Direction,
)
    requires
        board.wf(),
    ensures
        Board::goal_distance(goal, actors) <= Board::goal_distance(
            goal,
            board.step(actors, command),
        ) + 1,
{
    let next = board.step(actors, command);
    lemma_goal_distance_is_minimum(goal, actors);
    lemma_goal_distance_is_minimum(goal, next);
    lemma_step_moves_one_cell(board, actors, command);
    if Board::goal_distance(goal, next) != UNREACHABLE {
        let k = choose|k: int|
            0 <= k < next.len() && (#[trigger] next[k]).color == goal.color
                && Board::goal_distance(goal, next) == goal.position.manhattan(next[k].position);
        let p = choose|p: int|
            0 <= p < actors.len() && actors[p].color == next[k].color
                && actors[p].position.manhattan(next[k].position) <= 1;
        assert(goal.position.manhattan(actors[p].position) <= goal.position.manhattan(
            next[k].position,
        ) + 1);
    }
}

/// One command lowers the estimate by at most one.
pub proof fn lemma_estimate_consistent(board: Board, actors: Seq<Actor>, command: Direction)
    requires
        board.wf(),
    ensures
        board.estimate(actors) <= board.estimate(board.step(actors, command)) + 1,
{
    let n = board.goals.len() as int;
    let next = board.step(actors, command);
    lemma_estimate_is_maximum(board, actors, n);
    lemma_estimate_is_maximum(board, next, n);
    if board.estimate(actors) != 0 {
        let k = choose|k: int|
            0 <= k < n && Board::goal_distance(#[trigger] board.goals[k], actors)
                == board.estimate(actors);
        lemma_goal_distance_consistent(board, board.goals[k], actors, command);
    }
}

/// The estimate of the state reached by the first `done` commands, plus
/// `done`, never exceeds the length of a command sequence that ends in a
/// solved state.
pub proof fn lemma_estimate_along_path(
    board: Board,
    actors: Seq<Actor>,
    commands: Seq<Direction>,
    done: int,
)
    requires
        board.wf(),
        board.solved(board.run(actors, commands)),
        0 <= done <= commands.len(),
    ensures
        board.estimate(board.run(actors, commands.take(done))) + done <= commands.len(),
    decreases commands.len() - done,
{
    if done == commands.len() {
        assert(commands.take(done) == commands);
        lemma_estimate_zero_iff_solved(board, board.run(actors, commands));
    } else {
        lemma_estimate_along_path(board, actors, commands, done + 1);
        let longer = commands.take(done + 1);
        assert(longer.drop_last() == commands.take(done));
        lemma_estimate_consistent(board, board.run(actors, commands.take(done)), longer.last());
    }
}

/// The estimate is admissible: it never exceeds the number of commands of
/// any sequence that leads from the state to a solved one.
pub proof fn lemma_estimate_admissible(board: Board, actors: Seq<Actor>, commands: Seq<Direction>)
    requires
        board.wf(),
        board.solved(board.run(actors, commands)),
    ensures
        board.estimate(actors) <= commands.len(),
{
    lemma_estimate_along_path(board, actors, commands, 0);
    assert(commands.take(0).len() == 0);
}

} // verus!
