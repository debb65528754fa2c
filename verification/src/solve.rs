//! Best-first search for a shortest command sequence.

use crate::direction::Direction;
use crate::estimate::lemma_estimate_zero_iff_solved;
use crate::frontier::{Frontier, Node};
use crate::model::Actor;
use crate::puzzle::{command, Data, State, Transition};
use crate::search::{
    extends, is_child, lemma_after_discard, lemma_after_expansion, lemma_exhausted,
    lemma_solution_bound, lemma_trail_extend, lemma_trail_path_len, search_inv, trail_path,
    trail_wf, waiting,
};
use crate::universe::{bounded_states, lemma_bounded_states_finite};
use crate::visited::{seen_contains, seen_insert, seen_new, seen_states};
use vstd::multiset::group_multiset_axioms;
use vstd::prelude::*;
use vstd::set_lib::lemma_len_subset;

verus! {

/// The `k`-th command in the order in which commands are tried.
fn command_at(k: usize) -> (d: Direction)
    requires
        k < 4,
    ensures
        d == command(k as int),
{
    if k == 0 {
        Direction::Right
    } else if k == 1 {
        Direction::Up
    } else if k == 2 {
        Direction::Left
    } else {
        Direction::Down
    }
}

/// Tries the four commands in `state`, which was discovered as entry
/// `index` of the trail at the given distance from the start. A command
/// that covers every goal ends the expansion and is returned. Every other
/// command adds an entry to the trail and a node to the frontier.
fn expand(
    state: &State,
    distance: usize,
    index: usize,
    data: &Data,
    frontier: &mut Frontier,
    parents: &mut Vec<(usize, Direction)>,
) -> (found: Option<Direction>)
    requires
        old(frontier).wf(),
        trail_wf(old(parents)@),
        index <= old(parents)@.len(),
        distance == trail_path(old(parents)@, index as int).len(),
    ensures
        final(frontier).wf(),
        trail_wf(final(parents)@),
        extends(final(parents)@, old(parents)@),
        forall|node: Node| #[trigger]
            old(frontier).contents().contains(node) ==> final(frontier).contents().contains(node),
        forall|node: Node| #[trigger]
            final(frontier).contents().contains(node) ==> old(frontier).contents().contains(node)
                || is_child(
                data@,
                state@,
                distance as int,
                index as int,
                old(parents)@,
                final(parents)@,
                node,
            ),
        match found {
            Some(action) => data@.solved(data@.step(state@, action)),
            None => {
                &&& final(frontier).count() == old(frontier).count() + 4
                &&& forall|d: Direction|
                    !data@.solved(#[trigger] data@.step(state@, d)) && waiting(
                        final(frontier).contents(),
                        data@.step(state@, d),
                        distance + 1,
                    )
            },
        },
{
    proof {
        use_type_invariant(state);
        use_type_invariant(data);
    }
    let mut k: usize = 0;
    while k < 4
        invariant
            k <= 4,
            state.wf(),
            data.wf(),
            frontier.wf(),
            trail_wf(parents@),
            extends(parents@, old(parents)@),
            index <= old(parents)@.len(),
            distance == trail_path(old(parents)@, index as int).len(),
            frontier.count() == old(frontier).count() + k,
            forall|node: Node| #[trigger]
                old(frontier).contents().contains(node) ==> frontier.contents().contains(node),
            forall|node: Node| #[trigger]
                frontier.contents().contains(node) ==> old(frontier).contents().contains(node)
                    || is_child(
                    data@,
                    state@,
                    distance as int,
                    index as int,
                    old(parents)@,
                    parents@,
                    node,
                ),
            forall|j: int|
                0 <= j < k ==> !data@.solved(#[trigger] data@.step(state@, command(j))) && waiting(
                    frontier.contents(),
                    data@.step(state@, command(j)),
                    distance + 1,
                ),
        decreases 4 - k,
    {
        let (action, transition) = state.outcome(data, command_at(k));
        match transition {
            Transition::Success => {
                return Some(action);
            },
            Transition::Indeterminate(next) => {
                let ghost trail_before = parents@;
                let ghost contents_before = frontier.contents();
                parents.push((index, action));
                let discovered = parents.len();
                proof {
                    lemma_trail_path_len(old(parents)@, index as int);
                    lemma_trail_extend(old(parents)@, parents@, index as int);
                    assert(parents@[discovered - 1] == (index, action));
                    assert(trail_path(parents@, discovered as int) == trail_path(
                        old(parents)@,
                        index as int,
                    ).push(action));
                    lemma_estimate_zero_iff_solved(data@, next@);
                }
                let estimate: u128 = next.heuristic(data) as u128 + (distance + 1) as u128;
                let node = Node { state: next, distance: distance + 1, estimate, index: discovered };
                frontier.push(node);
                proof {
                    broadcast use group_multiset_axioms;

                    assert(frontier.contents().contains(node));
                    assert(data@.step(state@, action) == node.state@);
                    assert(is_child(
                        data@,
                        state@,
                        distance as int,
                        index as int,
                        old(parents)@,
                        parents@,
                        node,
                    ));
                    assert forall|other: Node| #[trigger]
                        frontier.contents().contains(other) implies old(
                        frontier,
                    ).contents().contains(other) || is_child(
                        data@,
                        state@,
                        distance as int,
                        index as int,
                        old(parents)@,
                        parents@,
                        other,
                    ) by {
                        if other != node && !old(frontier).contents().contains(other) {
                            assert(contents_before.contains(other));
                            assert(is_child(
                                data@,
                                state@,
                                distance as int,
                                index as int,
                                old(parents)@,
                                trail_before,
                                other,
                            ));
                            lemma_trail_extend(trail_before, parents@, other.index as int);
                        }
                    }
                    assert forall|j: int| 0 <= j < k + 1 implies !data@.solved(
                        #[trigger] data@.step(state@, command(j)),
                    ) && waiting(
                        frontier.contents(),
                        data@.step(state@, command(j)),
                        distance + 1,
                    ) by {
                        if j < k {
                            let held = choose|held: Node| #[trigger]
                                contents_before.contains(held) && held.state@ == data@.step(
                                    state@,
                                    command(j),
                                ) && held.distance <= distance + 1;
                            assert(frontier.contents().contains(held));
                        }
                    }
                }
            },
        }
        k += 1;
    }
    proof {
        assert forall|d: Direction|
            !data@.solved(#[trigger] data@.step(state@, d)) && waiting(
                frontier.contents(),
                data@.step(state@, d),
                distance + 1,
            ) by {
            let j: int = match d {
                Direction::Right => 0,
                Direction::Up => 1,
                Direction::Left => 2,
                Direction::Down => 3,
            };
            assert(d == command(j));
        }
    }
    None
}

/// Reads the commands that lead to the discovery `index` off the trail and
/// appends `action`.
fn reconstruct(parents: &Vec<(usize, Direction)>, index: usize, action: Direction) -> (path: Vec<
    Direction,
>)
    requires
        trail_wf(parents@),
        index <= parents@.len(),
    ensures
        path@ == trail_path(parents@, index as int).push(action),
{
    let ghost whole = trail_path(parents@, index as int).push(action);
    let mut backwards: Vec<Direction> = Vec::new();
    backwards.push(action);
    let mut current = index;
    assert(trail_path(parents@, current as int) + backwards@.reverse() == whole);
    while current != 0
        invariant
            trail_wf(parents@),
            current <= parents@.len(),
            trail_path(parents@, current as int) + backwards@.reverse() == whole,
        decreases current,
    {
        let entry = parents[current - 1];
        let ghost before = backwards@;
        backwards.push(entry.1);
        proof {
            assert(backwards@.reverse() == seq![entry.1] + before.reverse());
            assert(trail_path(parents@, current as int) == trail_path(
                parents@,
                entry.0 as int,
            ).push(entry.1));
            assert(trail_path(parents@, entry.0 as int) + backwards@.reverse() == trail_path(
                parents@,
                current as int,
            ) + before.reverse());
        }
        current = entry.0;
    }
    assert(backwards@.reverse() == whole);
    let mut path: Vec<Direction> = Vec::new();
    let mut k = backwards.len();
    while k > 0
        invariant
            k <= backwards@.len(),
            path@.len() == backwards@.len() - k,
            forall|i: int| 0 <= i < path@.len() ==> path@[i] == backwards@[backwards@.len() - 1 - i],
        decreases k,
    {
        k -= 1;
        path.push(backwards[k]);
    }
    assert(path@ == backwards@.reverse());
    path
}

/// Finds a shortest sequence of commands after which every goal is
/// covered, or reports that there is none. At least one command is always
/// given: for a puzzle that starts out solved the answer is a shortest
/// non-empty sequence after which it is solved again.
pub fn solve(initial_state: State, data: &Data) -> (solution: Option<Vec<Direction>>)
    ensures
        match solution {
            Some(path) => {
                &&& data@.solves(initial_state@, path@)
                &&& forall|other: Seq<Direction>|
                    data@.solves(initial_state@, other) ==> path@.len() <= other.len()
            },
            None => forall|other: Seq<Direction>| !data@.solves(initial_state@, other),
        },
{
    proof {
        use_type_invariant(&initial_state);
        use_type_invariant(data);
    }
    let ghost board = data@;
    let ghost start = initial_state@;
    let mut states = seen_new();
    let mut parents: Vec<(usize, Direction)> = Vec::with_capacity(4 * 1024);
    let mut queue = Frontier::with_capacity(1024);

    let first = expand(&initial_state, 0, 0, data, &mut queue, &mut parents);
    match first {
        Some(action) => {
            let mut path: Vec<Direction> = Vec::new();
            path.push(action);
            proof {
                assert(path@.drop_last() == Seq::<Direction>::empty());
                assert(board.run(start, path@.drop_last()) == start);
                assert(path@.last() == action);
                assert(board.run(start, path@) == board.step(start, action));
            }
            return Some(path);
        },
        None => {},
    }
    let ghost mut seen: Map<Seq<Actor>, int> = Map::empty().insert(start, 0);
    let ghost mut floor: int = board.estimate(start);
    proof {
        broadcast use group_multiset_axioms;

        lemma_estimate_zero_iff_solved(board, start);
        lemma_after_expansion(
            board,
            start,
            Map::empty(),
            0,
            Seq::empty(),
            parents@,
            vstd::multiset::Multiset::empty(),
            vstd::multiset::Multiset::empty(),
            queue.contents(),
            start,
            0,
            0,
        );
        lemma_bounded_states_finite(8);
    }
    seen_insert(&mut states, initial_state);
    assert(seen.dom() =~= seen_states(states));

    loop
        invariant
            board == data@,
            start == initial_state@,
            board.wf(),
            queue.wf(),
            search_inv(board, start, seen, floor, parents@, queue.contents()),
            seen.dom().contains(start),
            seen[start] == 0,
            seen.dom() == seen_states(states),
            bounded_states(8).finite(),
            seen.dom().subset_of(bounded_states(8)),
        decreases bounded_states(8).len() - seen.dom().len(), queue.count(),
    {
        let ghost before = queue.contents();
        let ghost trail = parents@;
        proof {
            lemma_len_subset(seen.dom(), bounded_states(8));
            queue.lemma_count();
        }
        match queue.pop() {
            None => {
                proof {
                    assert forall|node: Node| !before.contains(node) by {
                        broadcast use group_multiset_axioms;

                    }
                    assert forall|other: Seq<Direction>| !board.solves(start, other) by {
                        lemma_exhausted(board, start, seen, floor, trail, before, other);
                    }
                }
                return None;
            },
            Some(parent_node) => {
                let ghost rest = queue.contents();
                proof {
                    broadcast use group_multiset_axioms;

                    assert(crate::search::node_ok(board, start, trail, floor, parent_node));
                    assert forall|node: Node| #[trigger] rest.contains(node) implies before.contains(
                        node,
                    ) by {}
                    assert forall|node: Node| #[trigger] before.contains(node) implies rest.contains(
                        node,
                    ) || node == parent_node by {}
                }
                if !seen_contains(&states, &parent_node.state) {
                    let found = expand(
                        &parent_node.state,
                        parent_node.distance,
                        parent_node.index,
                        data,
                        &mut queue,
                        &mut parents,
                    );
                    match found {
                        Some(action) => {
                            let path = reconstruct(&parents, parent_node.index, action);
                            proof {
                                lemma_trail_extend(trail, parents@, parent_node.index as int);
                                let recorded = trail_path(trail, parent_node.index as int);
                                assert(path@.drop_last() == recorded);
                                assert(board.run(start, path@) == board.step(
                                    parent_node.state@,
                                    action,
                                ));
                                assert forall|other: Seq<Direction>|
                                    board.solves(start, other) implies path@.len()
                                    <= other.len() by {
                                    lemma_solution_bound(
                                        board,
                                        start,
                                        seen,
                                        floor,
                                        trail,
                                        before,
                                        parent_node,
                                        other,
                                    );
                                }
                            }
                            return Some(path);
                        },
                        None => {},
                    }
                    proof {
                        lemma_after_expansion(
                            board,
                            start,
                            seen,
                            floor,
                            trail,
                            parents@,
                            before,
                            rest,
                            queue.contents(),
                            parent_node.state@,
                            parent_node.distance as int,
                            parent_node.index as int,
                        );
                        seen = seen.insert(parent_node.state@, parent_node.distance as int);
                        floor = parent_node.estimate as int;
                    }
                    seen_insert(&mut states, parent_node.state);
                    proof {
                        assert(seen.dom() =~= seen_states(states));
                        lemma_len_subset(seen.dom(), bounded_states(8));
                    }
                } else {
                    proof {
                        lemma_after_discard(
                            board,
                            start,
                            seen,
                            floor,
                            trail,
                            before,
                            rest,
                            parent_node,
                        );
                    }
                }
            },
        }
    }
}

} // verus!
