//! What the search knows while it runs, and why that is enough: the record
//! of how each state was discovered, the conditions that hold between the
//! expanded states and the frontier, and the two conclusions drawn from
//! them: an empty frontier means that no solution exists, and the first
//! solution found is a shortest one.

use crate::direction::Direction;
use crate::estimate::{
    lemma_estimate_along_path, lemma_estimate_consistent, lemma_estimate_zero_iff_solved,
};
use crate::frontier::Node;
use crate::model::{Actor, Board};
use vstd::multiset::Multiset;
use vstd::prelude::*;

verus! {

/// The parent trail: entry `i` records the discovery with index `i + 1`,
/// as the index of the state it was discovered from (0 for the start) and
/// the command that led there. A state is always discovered from an earlier
/// one.
pub open spec fn trail_wf(trail: Seq<(usize, Direction)>) -> bool {
    forall|i: int| 0 <= i < trail.len() ==> (#[trigger] trail[i]).0 <= i
}

/// `longer` begins with the entries of `trail`.
pub open spec fn extends(longer: Seq<(usize, Direction)>, trail: Seq<(usize, Direction)>) -> bool {
    &&& trail.len() <= longer.len()
    &&& forall|i: int| 0 <= i < trail.len() ==> #[trigger] longer[i] == trail[i]
}

/// The commands that lead from the start to the discovery with the given
/// index, read off the trail.
pub open spec fn trail_path(trail: Seq<(usize, Direction)>, index: int) -> Seq<Direction>
    decreases index,
{
    if index <= 0 || index > trail.len() || trail[index - 1].0 >= index {
        Seq::empty()
    } else {
        trail_path(trail, trail[index - 1].0 as int).push(trail[index - 1].1)
    }
}

/// A recorded path is no longer than its index.
pub proof fn lemma_trail_path_len(trail: Seq<(usize, Direction)>, index: int)
    ensures
        trail_path(trail, index).len() <= if index < 0 {
            0
        } else {
            index
        },
    decreases index,
{
    if !(index <= 0 || index > trail.len() || trail[index - 1].0 >= index) {
        lemma_trail_path_len(trail, trail[index - 1].0 as int);
    }
}

/// New entries at the end of the trail change no recorded path.
pub proof fn lemma_trail_extend(
    trail: Seq<(usize, Direction)>,
    longer: Seq<(usize, Direction)>,
    index: int,
)
    requires
        extends(longer, trail),
        index <= trail.len(),
    ensures
        trail_path(longer, index) == trail_path(trail, index),
    decreases index,
{
    if index > 0 {
        assert(longer[index - 1] == trail[index - 1]);
        if trail[index - 1].0 < index {
            lemma_trail_extend(trail, longer, trail[index - 1].0 as int);
        }
    }
}

/// What must hold of a node that waits in the frontier: the trail records
/// how its state is reached from the start, its distance is the length of
/// that path, its estimate is distance plus the state's distance estimate
/// and at least `floor`, and its state is well formed and not solved.
pub open spec fn node_ok(
    board: Board,
    start: Seq<Actor>,
    trail: Seq<(usize, Direction)>,
    floor: int,
    node: Node,
) -> bool {
    &&& 1 <= node.index <= trail.len()
    &&& node.state@ == board.run(start, trail_path(trail, node.index as int))
    &&& node.distance == trail_path(trail, node.index as int).len()
    &&& node.estimate == node.distance + board.estimate(node.state@)
    &&& node.estimate >= floor
    &&& node.state.wf()
    &&& !board.solved(node.state@)
}

/// Some node with state `target` and a distance of at most `bound` waits.
pub open spec fn waiting(contents: Multiset<Node>, target: Seq<Actor>, bound: int) -> bool {
    exists|node: Node| #[trigger]
        contents.contains(node) && node.state@ == target && node.distance <= bound
}

/// `target` has been expanded at a distance of at most `bound`, or waits
/// with such a distance.
pub open spec fn reached(
    seen: Map<Seq<Actor>, int>,
    contents: Multiset<Node>,
    target: Seq<Actor>,
    bound: int,
) -> bool {
    (seen.dom().contains(target) && seen[target] <= bound) || waiting(contents, target, bound)
}

/// No command leads from an expanded state to a solved one, and each
/// leads to a state that is reached one step further from the start.
pub open spec fn closed(board: Board, seen: Map<Seq<Actor>, int>, contents: Multiset<Node>) -> bool {
    forall|s: Seq<Actor>, d: Direction|
        seen.dom().contains(s) ==> !board.solved(#[trigger] board.step(s, d)) && reached(
            seen,
            contents,
            board.step(s, d),
            seen[s] + 1,
        )
}

/// The conditions that hold whenever the search is about to take a node
/// from the frontier. `seen` maps each expanded state to the distance at
/// which it was expanded; `floor` is the estimate of the node expanded
/// last.
pub open spec fn search_inv(
    board: Board,
    start: Seq<Actor>,
    seen: Map<Seq<Actor>, int>,
    floor: int,
    trail: Seq<(usize, Direction)>,
    contents: Multiset<Node>,
) -> bool {
    &&& trail_wf(trail)
    &&& forall|s: Seq<Actor>| #[trigger]
        seen.dom().contains(s) ==> s.len() <= 8 && seen[s] + board.estimate(s) <= floor
    &&& forall|node: Node| #[trigger]
        contents.contains(node) ==> node_ok(board, start, trail, floor, node)
    &&& closed(board, seen, contents)
}

/// What expanding a state adds to the frontier: a node for the state that
/// some command leads to, one step further from the start, recorded in the
/// trail as discovered from `index`.
pub open spec fn is_child(
    board: Board,
    from: Seq<Actor>,
    distance: int,
    index: int,
    trail: Seq<(usize, Direction)>,
    longer: Seq<(usize, Direction)>,
    node: Node,
) -> bool {
    exists|d: Direction|
        {
            &&& node.state@ == #[trigger] board.step(from, d)
            &&& !board.solved(node.state@)
            &&& node.state.wf()
            &&& node.distance == distance + 1
            &&& 1 <= node.index <= longer.len()
            &&& trail_path(longer, node.index as int) == trail_path(trail, index).push(d)
            &&& node.estimate == node.distance + board.estimate(node.state@)
        }
}

/// The conditions survive the expansion of a state that had not been
/// expanded before.
pub proof fn lemma_after_expansion(
    board: Board,
    start: Seq<Actor>,
    seen: Map<Seq<Actor>, int>,
    floor: int,
    trail: Seq<(usize, Direction)>,
    longer: Seq<(usize, Direction)>,
    before: Multiset<Node>,
    rest: Multiset<Node>,
    after: Multiset<Node>,
    from: Seq<Actor>,
    distance: int,
    index: int,
)
    requires
        board.wf(),
        search_inv(board, start, seen, floor, trail, before),
        !seen.dom().contains(from),
        from.len() <= 8,
        0 <= index <= trail.len(),
        from == board.run(start, trail_path(trail, index)),
        distance == trail_path(trail, index).len(),
        floor <= distance + board.estimate(from),
        forall|node: Node| #[trigger] rest.contains(node) ==> before.contains(node),
        forall|node: Node| #[trigger]
            before.contains(node) ==> rest.contains(node) || (node.state@ == from && distance
                <= node.distance),
        forall|node: Node| #[trigger]
            rest.contains(node) ==> distance + board.estimate(from) <= node.estimate,
        trail_wf(longer),
        extends(longer, trail),
        forall|node: Node| #[trigger] rest.contains(node) ==> after.contains(node),
        forall|node: Node| #[trigger]
            after.contains(node) ==> rest.contains(node) || is_child(
                board,
                from,
                distance,
                index,
                trail,
                longer,
                node,
            ),
        forall|d: Direction|
            !board.solved(#[trigger] board.step(from, d)) && waiting(
                after,
                board.step(from, d),
                distance + 1,
            ),
    ensures
        search_inv(
            board,
            start,
            seen.insert(from, distance),
            distance + board.estimate(from),
            longer,
            after,
        ),
{
    let seen2 = seen.insert(from, distance);
    let floor2 = distance + board.estimate(from);
    assert forall|node: Node| #[trigger] after.contains(node) implies node_ok(
        board,
        start,
        longer,
        floor2,
        node,
    ) by {
        if rest.contains(node) {
            assert(before.contains(node));
            lemma_trail_extend(trail, longer, node.index as int);
        } else {
            let d = choose|d: Direction|
                {
                    &&& node.state@ == #[trigger] board.step(from, d)
                    &&& !board.solved(node.state@)
                    &&& node.state.wf()
                    &&& node.distance == distance + 1
                    &&& 1 <= node.index <= longer.len()
                    &&& trail_path(longer, node.index as int) == trail_path(trail, index).push(d)
                    &&& node.estimate == node.distance + board.estimate(node.state@)
                };
            let path = trail_path(trail, index).push(d);
            assert(path.drop_last() == trail_path(trail, index));
            lemma_estimate_consistent(board, from, d);
        }
    }
    assert forall|s: Seq<Actor>, d: Direction| seen2.dom().contains(s) implies !board.solved(
        #[trigger] board.step(s, d),
    ) && reached(seen2, after, board.step(s, d), seen2[s] + 1) by {
        let target = board.step(s, d);
        if s == from {
        } else {
            assert(seen.dom().contains(s));
            assert(reached(seen, before, target, seen[s] + 1));
            if seen.dom().contains(target) && seen[target] <= seen[s] + 1 {
            } else {
                let node = choose|node: Node| #[trigger]
                    before.contains(node) && node.state@ == target && node.distance <= seen[s] + 1;
                if rest.contains(node) {
                    assert(after.contains(node));
                } else {
                    assert(target == from);
                }
            }
        }
    }
}

/// The conditions survive the removal of a frontier node whose state has
/// been expanded before.
pub proof fn lemma_after_discard(
    board: Board,
    start: Seq<Actor>,
    seen: Map<Seq<Actor>, int>,
    floor: int,
    trail: Seq<(usize, Direction)>,
    before: Multiset<Node>,
    rest: Multiset<Node>,
    stale: Node,
)
    requires
        search_inv(board, start, seen, floor, trail, before),
        before.contains(stale),
        seen.dom().contains(stale.state@),
        forall|node: Node| #[trigger] rest.contains(node) ==> before.contains(node),
        forall|node: Node| #[trigger] before.contains(node) ==> rest.contains(node) || node == stale,
    ensures
        search_inv(board, start, seen, floor, trail, rest),
{
    assert forall|s: Seq<Actor>, d: Direction| seen.dom().contains(s) implies !board.solved(
        #[trigger] board.step(s, d),
    ) && reached(seen, rest, board.step(s, d), seen[s] + 1) by {
        let target = board.step(s, d);
        assert(reached(seen, before, target, seen[s] + 1));
        if seen.dom().contains(target) && seen[target] <= seen[s] + 1 {
        } else {
            let node = choose|node: Node| #[trigger]
                before.contains(node) && node.state@ == target && node.distance <= seen[s] + 1;
            if rest.contains(node) {
            } else {
                assert(node == stale);
                assert(node_ok(board, start, trail, floor, stale));
            }
        }
    }
}

/// Every state on a path from the start has been expanded early enough and
/// is not solved, or some state on the path waits in the frontier at a
/// distance no larger than its place on the path.
pub proof fn lemma_reach(
    board: Board,
    start: Seq<Actor>,
    seen: Map<Seq<Actor>, int>,
    contents: Multiset<Node>,
    commands: Seq<Direction>,
)
    requires
        closed(board, seen, contents),
        seen.dom().contains(start),
        seen[start] <= 0,
    ensures
        ({
            &&& seen.dom().contains(board.run(start, commands))
            &&& seen[board.run(start, commands)] <= commands.len()
            &&& commands.len() > 0 ==> !board.solved(board.run(start, commands))
        }) || exists|j: int|
            0 <= j <= commands.len() && waiting(
                contents,
                #[trigger] board.run(start, commands.take(j)),
                j,
            ),
    decreases commands.len(),
{
    if commands.len() > 0 {
        let front = commands.drop_last();
        lemma_reach(board, start, seen, contents, front);
        let s = board.run(start, front);
        if seen.dom().contains(s) && seen[s] <= front.len() {
            let target = board.step(s, commands.last());
            assert(target == board.run(start, commands));
            assert(reached(seen, contents, target, seen[s] + 1));
            if !(seen.dom().contains(target) && seen[target] <= seen[s] + 1) {
                let node = choose|node: Node| #[trigger]
                    contents.contains(node) && node.state@ == target && node.distance <= seen[s]
                        + 1;
                assert(commands.take(commands.len() as int) == commands);
                assert(waiting(
                    contents,
                    board.run(start, commands.take(commands.len() as int)),
                    commands.len() as int,
                ));
            }
        } else {
            let j = choose|j: int|
                0 <= j <= front.len() && waiting(
                    contents,
                    #[trigger] board.run(start, front.take(j)),
                    j,
                );
            assert(front.take(j) == commands.take(j));
        }
    }
}

/// With an empty frontier no command sequence solves the puzzle.
pub proof fn lemma_exhausted(
    board: Board,
    start: Seq<Actor>,
    seen: Map<Seq<Actor>, int>,
    floor: int,
    trail: Seq<(usize, Direction)>,
    contents: Multiset<Node>,
    commands: Seq<Direction>,
)
    requires
        search_inv(board, start, seen, floor, trail, contents),
        seen.dom().contains(start),
        seen[start] <= 0,
        forall|node: Node| !contents.contains(node),
    ensures
        !board.solves(start, commands),
{
    lemma_reach(board, start, seen, contents, commands);
}

/// A solution has at least as many commands as the least estimate in the
/// frontier, and so more than the distance of any node with that estimate.
pub proof fn lemma_solution_bound(
    board: Board,
    start: Seq<Actor>,
    seen: Map<Seq<Actor>, int>,
    floor: int,
    trail: Seq<(usize, Direction)>,
    contents: Multiset<Node>,
    least: Node,
    commands: Seq<Direction>,
)
    requires
        board.wf(),
        search_inv(board, start, seen, floor, trail, contents),
        seen.dom().contains(start),
        seen[start] <= 0,
        contents.contains(least),
        forall|node: Node| #[trigger] contents.contains(node) ==> least.estimate <= node.estimate,
        board.solves(start, commands),
    ensures
        least.distance + 1 <= commands.len(),
{
    lemma_reach(board, start, seen, contents, commands);
    let j = choose|j: int|
        0 <= j <= commands.len() && waiting(
            contents,
            #[trigger] board.run(start, commands.take(j)),
            j,
        );
    let node = choose|node: Node| #[trigger]
        contents.contains(node) && node.state@ == board.run(start, commands.take(j))
            && node.distance <= j;
    assert(node_ok(board, start, trail, floor, node));
    assert(node_ok(board, start, trail, floor, least));
    if j == commands.len() {
        assert(commands.take(j) == commands);
    }
    lemma_estimate_along_path(board, start, commands, j);
    lemma_estimate_zero_iff_solved(board, least.state@);
}

} // verus!
