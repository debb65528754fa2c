//! What holds of every move: no two actors ever share a cell, actors that
//! head for the same cell both stay where they are, an actor whose way is
//! blocked stays where it is, and colours never change.

use crate::canonical::{
    lemma_canonical_is_sorted_permutation, lemma_canonical_of_permutation,
    lemma_permutation_collision_free,
};
use crate::direction::Direction;
use crate::estimate::lemma_step_moves_one_cell;
use crate::model::{
    canonical, collision_free, moved_or_back, other_on_cell, retreat, retreats, shares_cell,
    Actor, Board, Color,
};
use crate::rounds::{
    lemma_displaced_bound, lemma_retreats_collision_free, lemma_retreats_head_on,
    lemma_retreats_shape,
};
use vstd::prelude::*;
use vstd::seq_lib::group_to_multiset_ensures;

verus! {

/// The state after a command holds exactly the actors that are left after
/// collision resolution.
pub proof fn lemma_step_holds_resolved(board: Board, actors: Seq<Actor>, command: Direction, i: int)
    requires
        0 <= i < actors.len(),
    ensures
        board.resolve(actors, command).len() == actors.len(),
        board.step(actors, command).contains(board.resolve(actors, command)[i]),
{
    broadcast use group_to_multiset_ensures;

    let moved = board.advance_all(actors, command);
    let after = board.resolve(actors, command);
    assert(moved_or_back(moved, moved, actors));
    lemma_retreats_shape(moved, moved, actors, actors.len());
    lemma_canonical_is_sorted_permutation(after);
    assert(after.contains(after[i]));
    assert(after.to_multiset().count(after[i]) > 0);
}

/// A command given in a state where no two actors share a cell leads to
/// such a state again, with as many actors as before.
pub proof fn lemma_step_keeps_actors_apart(board: Board, actors: Seq<Actor>, command: Direction)
    requires
        collision_free(actors),
    ensures
        collision_free(board.resolve(actors, command)),
        collision_free(board.step(actors, command)),
        board.step(actors, command).len() == actors.len(),
{
    let moved = board.advance_all(actors, command);
    assert(moved_or_back(moved, moved, actors));
    lemma_displaced_bound(moved, actors);
    lemma_retreats_collision_free(moved, actors, actors.len());
    lemma_retreats_shape(moved, moved, actors, actors.len());
    let after = board.resolve(actors, command);
    lemma_canonical_is_sorted_permutation(after);
    lemma_permutation_collision_free(after, canonical(after));
}

/// Two actors whose tentative moves end on the same cell both stand after
/// the command where they stood before it: neither of them wins the cell.
pub proof fn lemma_collision_symmetry(
    board: Board,
    actors: Seq<Actor>,
    command: Direction,
    i: int,
    j: int,
)
    requires
        0 <= i < actors.len(),
        0 <= j < actors.len(),
        i != j,
        board.advance(actors[i], command).position == board.advance(actors[j], command).position,
    ensures
        board.resolve(actors, command)[i] == actors[i],
        board.resolve(actors, command)[j] == actors[j],
        board.step(actors, command).contains(actors[i]),
        board.step(actors, command).contains(actors[j]),
{
    let moved = board.advance_all(actors, command);
    assert(moved_or_back(moved, moved, actors));
    assert(moved[i] == board.advance(actors[i], command));
    assert(moved[j] == board.advance(actors[j], command));
    lemma_retreats_shape(moved, moved, actors, actors.len());
    lemma_retreats_head_on(moved, actors, actors.len(), i, j);
    lemma_retreats_head_on(moved, actors, actors.len(), j, i);
    lemma_step_holds_resolved(board, actors, command, i);
    lemma_step_holds_resolved(board, actors, command, j);
}

/// An actor that heads for an impassable cell, or for a cell off the grid,
/// stands after the command where it stood before it.
pub proof fn lemma_blocked_actor_stays(board: Board, actors: Seq<Actor>, command: Direction, i: int)
    requires
        0 <= i < actors.len(),
        !board.passable(
            Board::target_x(actors[i], command),
            Board::target_y(actors[i], command),
        ),
    ensures
        board.resolve(actors, command)[i] == actors[i],
        board.step(actors, command).contains(actors[i]),
{
    let moved = board.advance_all(actors, command);
    assert(moved_or_back(moved, moved, actors));
    lemma_retreats_shape(moved, moved, actors, actors.len());
    assert(moved[i] == actors[i]);
    lemma_step_holds_resolved(board, actors, command, i);
}

/// Place `j` of the second listing is the place of some actor of the first.
spec fn has_source(length: int, place: spec_fn(int) -> int, j: int) -> bool {
    exists|i: int| 0 <= i < length && #[trigger] place(i) == j
}

/// `to` lists the actors of `from` in another order: actor `i` of `from` is
/// actor `place(i)` of `to`, no two actors have the same place, and every
/// place is taken.
spec fn relisted(from: Seq<Actor>, to: Seq<Actor>, place: spec_fn(int) -> int) -> bool {
    &&& from.len() == to.len()
    &&& forall|i: int|
        0 <= i < from.len() ==> 0 <= #[trigger] place(i) < to.len() && to[place(i)] == from[i]
    &&& forall|i: int, j: int|
        0 <= i < from.len() && 0 <= j < from.len() && #[trigger] place(i) == #[trigger] place(j)
            ==> i == j
    &&& forall|j: int| 0 <= j < to.len() ==> #[trigger] has_source(from.len() as int, place, j)
}

/// Two listings of the same actors, none of them twice, are listings in
/// another order of each other.
proof fn lemma_relisting_exists(a: Seq<Actor>, b: Seq<Actor>) -> (place: spec_fn(int) -> int)
    requires
        collision_free(a),
        a.to_multiset() == b.to_multiset(),
    ensures
        relisted(a, b, place),
{
    broadcast use group_to_multiset_ensures;

    lemma_permutation_collision_free(a, b);
    assert(a.len() == a.to_multiset().len());
    assert(b.len() == b.to_multiset().len());
    let place = |i: int| choose|j: int| 0 <= j < b.len() && b[j] == a[i];
    assert forall|i: int| 0 <= i < a.len() implies 0 <= #[trigger] place(i) < b.len() && b[place(
        i,
    )] == a[i] by {
        assert(a.contains(a[i]));
        assert(b.to_multiset().count(a[i]) > 0);
        assert(b.contains(a[i]));
        let j = choose|j: int| 0 <= j < b.len() && b[j] == a[i];
    }
    assert forall|i: int, j: int|
        0 <= i < a.len() && 0 <= j < a.len() && #[trigger] place(i) == #[trigger] place(
            j,
        ) implies i == j by {
        assert(a[i] == a[j]);
        if i < j {
            assert(a[i].position != a[j].position);
        } else if j < i {
            assert(a[j].position != a[i].position);
        }
    }
    assert forall|j: int| 0 <= j < b.len() implies #[trigger] has_source(
        a.len() as int,
        place,
        j,
    ) by {
        assert(b.contains(b[j]));
        assert(a.to_multiset().count(b[j]) > 0);
        assert(a.contains(b[j]));
        let i = choose|i: int| 0 <= i < a.len() && a[i] == b[j];
        let k = place(i);
        assert(b[k] == b[j]);
        if k < j {
            assert(b[k].position != b[j].position);
        } else if j < k {
            assert(b[j].position != b[k].position);
        }
        assert(place(i) == j);
    }
    place
}

/// A round of retreats does to another listing of the same actors what it
/// does to this one.
proof fn lemma_retreat_relisted(
    current: Seq<Actor>,
    origin: Seq<Actor>,
    current2: Seq<Actor>,
    origin2: Seq<Actor>,
    place: spec_fn(int) -> int,
)
    requires
        current.len() == origin.len(),
        relisted(current, current2, place),
        relisted(origin, origin2, place),
    ensures
        relisted(retreat(current, origin), retreat(current2, origin2), place),
{
    let next = retreat(current, origin);
    let next2 = retreat(current2, origin2);
    assert forall|i: int| 0 <= i < next.len() implies 0 <= #[trigger] place(i) < next2.len()
        && next2[place(i)] == next[i] by {
        let k = place(i);
        assert(current2[k] == current[i]);
        assert(origin2[k] == origin[i]);
        if shares_cell(current, i) {
            let j = choose|j: int| other_on_cell(current, i, j);
            assert(current2[place(j)] == current[j]);
            assert(other_on_cell(current2, k, place(j)));
        }
        if shares_cell(current2, k) {
            let j2 = choose|j2: int| other_on_cell(current2, k, j2);
            assert(has_source(current.len() as int, place, j2));
            let j = choose|j: int| 0 <= j < current.len() && #[trigger] place(j) == j2;
            assert(current2[place(j)] == current[j]);
            assert(other_on_cell(current, i, j));
        }
    }
    assert forall|j: int| 0 <= j < next2.len() implies #[trigger] has_source(
        next.len() as int,
        place,
        j,
    ) by {
        assert(has_source(current.len() as int, place, j));
    }
}

/// Rounds of retreats do to another listing of the same actors what they
/// do to this one.
proof fn lemma_retreats_relisted(
    current: Seq<Actor>,
    origin: Seq<Actor>,
    current2: Seq<Actor>,
    origin2: Seq<Actor>,
    place: spec_fn(int) -> int,
    rounds: nat,
)
    requires
        current.len() == origin.len(),
        relisted(current, current2, place),
        relisted(origin, origin2, place),
    ensures
        relisted(retreats(current, origin, rounds), retreats(current2, origin2, rounds), place),
    decreases rounds,
{
    if rounds > 0 {
        lemma_retreat_relisted(current, origin, current2, origin2, place);
        lemma_retreats_relisted(
            retreat(current, origin),
            origin,
            retreat(current2, origin2),
            origin2,
            place,
            (rounds - 1) as nat,
        );
    }
}

/// A listing in another order of actors that stand on different cells
/// holds the same actors.
proof fn lemma_relisted_holds_the_same(a: Seq<Actor>, b: Seq<Actor>, place: spec_fn(int) -> int)
    requires
        relisted(a, b, place),
        collision_free(a),
        collision_free(b),
    ensures
        a.to_multiset() == b.to_multiset(),
{
    broadcast use group_to_multiset_ensures;

    assert(a.no_duplicates()) by {
        assert forall|i: int, j: int| 0 <= i < a.len() && 0 <= j < a.len() && i != j implies a[i]
            != a[j] by {
            if i < j {
                assert(a[i].position != a[j].position);
            } else {
                assert(a[j].position != a[i].position);
            }
        }
    }
    assert(b.no_duplicates()) by {
        assert forall|i: int, j: int| 0 <= i < b.len() && 0 <= j < b.len() && i != j implies b[i]
            != b[j] by {
            if i < j {
                assert(b[i].position != b[j].position);
            } else {
                assert(b[j].position != b[i].position);
            }
        }
    }
    a.lemma_multiset_has_no_duplicates();
    b.lemma_multiset_has_no_duplicates();
    assert forall|v: Actor| a.to_multiset().count(v) == b.to_multiset().count(v) by {
        if a.contains(v) {
            let i = choose|i: int| 0 <= i < a.len() && a[i] == v;
            assert(b[place(i)] == v);
            assert(b.contains(v));
            assert(a.to_multiset().contains(v));
            assert(b.to_multiset().contains(v));
        } else if b.contains(v) {
            let j = choose|j: int| 0 <= j < b.len() && b[j] == v;
            assert(has_source(a.len() as int, place, j));
            let i = choose|i: int| 0 <= i < a.len() && #[trigger] place(i) == j;
            assert(a[i] == v);
        } else {
            assert(a.to_multiset().count(v) == 0);
            assert(b.to_multiset().count(v) == 0);
        }
    }
    assert(a.to_multiset() =~= b.to_multiset());
}

/// The order in which a state lists its actors has no influence on the
/// state that a command leads to.
pub proof fn lemma_step_ignores_listing_order(
    board: Board,
    a: Seq<Actor>,
    b: Seq<Actor>,
    command: Direction,
)
    requires
        collision_free(a),
        a.to_multiset() == b.to_multiset(),
    ensures
        board.step(a, command) == board.step(b, command),
{
    lemma_permutation_collision_free(a, b);
    let place = lemma_relisting_exists(a, b);
    let moved = board.advance_all(a, command);
    let moved2 = board.advance_all(b, command);
    assert(relisted(moved, moved2, place)) by {
        assert forall|i: int| 0 <= i < moved.len() implies 0 <= #[trigger] place(i) < moved2.len()
            && moved2[place(i)] == moved[i] by {
            assert(b[place(i)] == a[i]);
        }
        assert forall|j: int| 0 <= j < moved2.len() implies #[trigger] has_source(
            moved.len() as int,
            place,
            j,
        ) by {
            assert(has_source(a.len() as int, place, j));
        }
    }
    lemma_retreats_relisted(moved, a, moved2, b, place, a.len());
    lemma_step_keeps_actors_apart(board, a, command);
    lemma_step_keeps_actors_apart(board, b, command);
    lemma_relisted_holds_the_same(board.resolve(a, command), board.resolve(b, command), place);
    lemma_canonical_of_permutation(board.resolve(a, command), board.resolve(b, command));
}

/// A colour that no actor has before a sequence of commands, no actor has
/// after it.
pub proof fn lemma_colors_stay(
    board: Board,
    actors: Seq<Actor>,
    commands: Seq<Direction>,
    color: Color,
)
    requires
        board.wf(),
        forall|i: int| 0 <= i < actors.len() ==> (#[trigger] actors[i]).color != color,
    ensures
        forall|i: int|
            0 <= i < board.run(actors, commands).len() ==> (#[trigger] board.run(
                actors,
                commands,
            )[i]).color != color,
    decreases commands.len(),
{
    if commands.len() > 0 {
        let before = board.run(actors, commands.drop_last());
        lemma_colors_stay(board, actors, commands.drop_last(), color);
        lemma_step_moves_one_cell(board, before, commands.last());
        let after = board.step(before, commands.last());
        assert forall|i: int| 0 <= i < after.len() implies (#[trigger] after[i]).color != color by {
            let p = choose|p: int|
                0 <= p < before.len() && before[p].color == after[i].color
                    && before[p].position.manhattan(after[i].position) <= 1;
            assert(before[p].color != color);
        }
    }
}

/// A puzzle with a goal whose colour no actor has cannot be solved.
pub proof fn lemma_missing_color_unsolvable(
    board: Board,
    actors: Seq<Actor>,
    commands: Seq<Direction>,
    k: int,
)
    requires
        board.wf(),
        0 <= k < board.goals.len(),
        forall|i: int| 0 <= i < actors.len() ==> (#[trigger] actors[i]).color != board.goals[k].color,
    ensures
        !board.solves(actors, commands),
{
    lemma_colors_stay(board, actors, commands, board.goals[k].color);
    assert(!Board::covered(board.goals[k], board.run(actors, commands)));
}

} // verus!
