//! The order of the scan is immaterial: scanning the pairs of actors one
//! after the other leaves every actor where the rounds of the model leave
//! it, in which all actors that share a cell go back at once.

use crate::collide::{
    lemma_revert_pair_shape, lemma_scan_row_shape, lemma_settle_collision_free,
    lemma_settle_shape, lemma_sweep_shape, revert_pair, scan_row, settle, sweep,
};
use crate::direction::Direction;
use crate::model::{
    collision_free, moved_or_back, other_on_cell, retreat, retreats, shares_cell, Actor, Board,
};
use crate::rounds::{
    lemma_displaced_bound, lemma_retreat_shape, lemma_retreats_collision_free,
    lemma_retreats_head_on, lemma_retreats_shape,
};
use vstd::prelude::*;

verus! {

/// Actor `k` is a lasting reason for putting actor `i` back: it stands
/// where it stood before the move, and it either stood on the cell that
/// actor `i` headed for or headed for the same cell.
pub open spec fn is_reason(
    current: Seq<Actor>,
    start: Seq<Actor>,
    origin: Seq<Actor>,
    i: int,
    k: int,
) -> bool {
    &&& 0 <= k < current.len()
    &&& k != i
    &&& current[k].position == origin[k].position
    &&& (origin[k].position == start[i].position || start[k].position == start[i].position)
}

/// Some actor is a lasting reason for putting actor `i` back.
pub open spec fn has_reason(current: Seq<Actor>, start: Seq<Actor>, origin: Seq<Actor>, i: int)
    -> bool {
    exists|k: int| is_reason(current, start, origin, i, k)
}

/// Every actor that was put back has a lasting reason.
pub open spec fn justified(current: Seq<Actor>, start: Seq<Actor>, origin: Seq<Actor>) -> bool {
    forall|i: int|
        0 <= i < current.len() && current[i].position != start[i].position ==> #[trigger] has_reason(
            current,
            start,
            origin,
            i,
        )
}

/// The collision rule gives every actor it puts back a lasting reason.
pub proof fn lemma_revert_pair_justified(
    current: Seq<Actor>,
    start: Seq<Actor>,
    origin: Seq<Actor>,
    i: int,
    j: int,
)
    requires
        moved_or_back(current, start, origin),
        justified(current, start, origin),
        0 <= i < j < current.len(),
    ensures
        justified(revert_pair(current, origin, i, j), start, origin),
{
    let next = revert_pair(current, origin, i, j);
    if current[i].position == current[j].position {
        assert forall|p: int|
            0 <= p < next.len() && next[p].position != start[p].position implies #[trigger] has_reason(
            next,
            start,
            origin,
            p,
        ) by {
            if current[p].position != start[p].position {
                assert(has_reason(current, start, origin, p));
                let k = choose|k: int| is_reason(current, start, origin, p, k);
                assert(is_reason(next, start, origin, p, k));
            } else if p == i {
                assert(is_reason(next, start, origin, p, j));
            } else {
                assert(p == j);
                assert(is_reason(next, start, origin, p, i));
            }
        }
    }
}

/// One row of the scan gives every actor it puts back a lasting reason.
pub proof fn lemma_scan_row_justified(
    current: Seq<Actor>,
    start: Seq<Actor>,
    origin: Seq<Actor>,
    i: int,
    j: int,
)
    requires
        moved_or_back(current, start, origin),
        justified(current, start, origin),
        0 <= i < j,
    ensures
        justified(scan_row(current, origin, i, j), start, origin),
    decreases origin.len() - j,
{
    if j < origin.len() {
        lemma_revert_pair_shape(current, start, origin, i, j);
        lemma_revert_pair_justified(current, start, origin, i, j);
        lemma_scan_row_justified(revert_pair(current, origin, i, j), start, origin, i, j + 1);
    }
}

/// One pass over all pairs gives every actor it puts back a lasting reason.
pub proof fn lemma_sweep_justified(
    current: Seq<Actor>,
    start: Seq<Actor>,
    origin: Seq<Actor>,
    i: int,
)
    requires
        moved_or_back(current, start, origin),
        justified(current, start, origin),
        0 <= i,
    ensures
        justified(sweep(current, origin, i), start, origin),
    decreases origin.len() - i,
{
    if i < origin.len() {
        lemma_scan_row_shape(current, start, origin, i, i + 1);
        lemma_scan_row_justified(current, start, origin, i, i + 1);
        lemma_sweep_justified(scan_row(current, origin, i, i + 1), start, origin, i + 1);
    }
}

/// Collision resolution gives every actor it puts back a lasting reason.
pub proof fn lemma_settle_justified(
    current: Seq<Actor>,
    start: Seq<Actor>,
    origin: Seq<Actor>,
    rounds: nat,
)
    requires
        moved_or_back(current, start, origin),
        justified(current, start, origin),
    ensures
        justified(settle(current, origin, rounds), start, origin),
    decreases rounds,
{
    if rounds != 0 && !collision_free(current) {
        lemma_sweep_shape(current, start, origin, 0);
        lemma_sweep_justified(current, start, origin, 0);
        lemma_settle_justified(sweep(current, origin, 0), start, origin, (rounds - 1) as nat);
    }
}

/// The actors after the tentative moves and the scan that undoes
/// collisions.
pub open spec fn scanned(board: Board, actors: Seq<Actor>, command: Direction) -> Seq<Actor> {
    settle(board.advance_all(actors, command), actors, actors.len())
}

/// Of two actors whose tentative moves end on the same cell, the first
/// stands after the command where it stood before it.
proof fn lemma_stays_when_contested(
    board: Board,
    actors: Seq<Actor>,
    command: Direction,
    i: int,
    j: int,
)
    requires
        board.wf(),
        collision_free(actors),
        0 <= i < actors.len(),
        0 <= j < actors.len(),
        i != j,
        board.advance(actors[i], command).position == board.advance(actors[j], command).position,
    ensures
        scanned(board, actors, command)[i] == actors[i],
{
    let moved = board.advance_all(actors, command);
    let after = scanned(board, actors, command);
    assert(moved_or_back(moved, moved, actors));
    assert(justified(moved, moved, actors));
    lemma_settle_shape(moved, moved, actors, actors.len());
    lemma_settle_justified(moved, moved, actors, actors.len());
    lemma_displaced_bound(moved, actors);
    lemma_settle_collision_free(moved, actors, actors.len());
    assert(moved[i] == board.advance(actors[i], command));
    assert(moved[j] == board.advance(actors[j], command));
    lemma_contested(actors, moved, after, i, j);
    if after[i].position != actors[i].position {
        let k = choose|k: int| third_mover(actors, moved, i, j, k);
        assert(moved[k] == board.advance(actors[k], command));
        lemma_apart(actors, i, j);
        lemma_apart(actors, i, k);
        lemma_apart(actors, j, k);
        lemma_two_ways_in(board, actors[i], actors[j], actors[k], command);
    }
}

/// Actors `i`, `j` and `k` are three different actors that all move, and
/// all onto the same cell.
spec fn third_mover(actors: Seq<Actor>, moved: Seq<Actor>, i: int, j: int, k: int) -> bool {
    &&& 0 <= k < actors.len()
    &&& k != i
    &&& k != j
    &&& moved[k].position == moved[i].position
    &&& moved[j].position == moved[i].position
    &&& moved[i].position != actors[i].position
    &&& moved[j].position != actors[j].position
    &&& moved[k].position != actors[k].position
}

/// If actor `i` and actor `j` head for the same cell and actor `i` holds
/// it in the end, then a third actor moved onto that cell as well.
proof fn lemma_contested(
    actors: Seq<Actor>,
    moved: Seq<Actor>,
    after: Seq<Actor>,
    i: int,
    j: int,
)
    requires
        collision_free(actors),
        collision_free(after),
        moved_or_back(after, moved, actors),
        justified(after, moved, actors),
        0 <= i < actors.len(),
        0 <= j < actors.len(),
        i != j,
        moved[i].position == moved[j].position,
    ensures
        after[i].position == actors[i].position || exists|k: int|
            third_mover(actors, moved, i, j, k),
{
    let cell = moved[i].position;
    if after[i].position != actors[i].position {
        assert(after[i].position == cell);
        lemma_apart(after, i, j);
        assert(after[j].position != moved[j].position);
        assert(has_reason(after, moved, actors, j));
        let k = choose|k: int| is_reason(after, moved, actors, j, k);
        assert(k != i);
        lemma_apart(after, i, k);
        assert(third_mover(actors, moved, i, j, k));
    }
}

/// The tentative move of an actor leaves it where it is or takes it to the
/// cell it heads for.
proof fn lemma_advance_shape(board: Board, actor: Actor, command: Direction)
    requires
        board.wf(),
    ensures
        board.advance(actor, command) == actor || (board.advance(actor, command).position.x
            == Board::target_x(actor, command) && board.advance(actor, command).position.y
            == Board::target_y(actor, command)),
{
}

/// Three actors cannot all move onto one cell: a cell is entered with the
/// command or against it, so two of the three would come from the same
/// cell.
proof fn lemma_two_ways_in(board: Board, a: Actor, b: Actor, c: Actor, command: Direction)
    requires
        board.wf(),
        board.advance(a, command).position == board.advance(b, command).position,
        board.advance(a, command).position == board.advance(c, command).position,
        board.advance(a, command).position != a.position,
        board.advance(b, command).position != b.position,
        board.advance(c, command).position != c.position,
        a.position != b.position,
        a.position != c.position,
    ensures
        b.position == c.position,
{
    lemma_advance_shape(board, a, command);
    lemma_advance_shape(board, b, command);
    lemma_advance_shape(board, c, command);
}

/// Two different actors of a state without collisions stand on different
/// cells.
proof fn lemma_apart(actors: Seq<Actor>, p: int, q: int)
    requires
        collision_free(actors),
        0 <= p < actors.len(),
        0 <= q < actors.len(),
        p != q,
    ensures
        actors[p].position != actors[q].position,
{
    if p < q {
        assert(actors[p].position != actors[q].position);
    } else {
        assert(actors[q].position != actors[p].position);
    }
}

/// `current` has put back no actor that `other` has left where its
/// tentative move took it.
pub open spec fn no_further_back(current: Seq<Actor>, other: Seq<Actor>, start: Seq<Actor>) -> bool {
    forall|i: int|
        0 <= i < current.len() && (#[trigger] other[i]).position == start[i].position
            ==> current[i].position == start[i].position
}

/// The scan of one pair puts no actor back that the rounds leave where its
/// tentative move took it.
proof fn lemma_revert_pair_no_further(
    current: Seq<Actor>,
    start: Seq<Actor>,
    origin: Seq<Actor>,
    rounds: nat,
    i: int,
    j: int,
)
    requires
        moved_or_back(start, start, origin),
        moved_or_back(current, start, origin),
        collision_free(retreats(start, origin, rounds)),
        rounds > 0,
        no_further_back(current, retreats(start, origin, rounds), start),
        0 <= i < j < current.len(),
    ensures
        no_further_back(revert_pair(current, origin, i, j), retreats(start, origin, rounds), start),
{
    let after = retreats(start, origin, rounds);
    let next = revert_pair(current, origin, i, j);
    lemma_retreats_shape(start, start, origin, rounds);
    if current[i].position == current[j].position {
        assert forall|k: int|
            0 <= k < next.len() && (#[trigger] after[k]).position == start[k].position implies next[k].position
            == start[k].position by {
            if (k == i || k == j) && start[k].position != origin[k].position {
                let m = if k == i {
                    j
                } else {
                    i
                };
                assert(current[k].position == start[k].position);
                if current[m].position == start[m].position {
                    lemma_retreats_head_on(start, origin, rounds, k, m);
                } else {
                    assert(after[m].position != start[m].position);
                    assert(after[m].position == origin[m].position);
                    if k < m {
                        assert(after[k].position != after[m].position);
                    } else {
                        assert(after[m].position != after[k].position);
                    }
                }
            }
        }
    }
}

/// The scan of one row puts no actor back that the rounds leave where its
/// tentative move took it.
proof fn lemma_scan_row_no_further(
    current: Seq<Actor>,
    start: Seq<Actor>,
    origin: Seq<Actor>,
    rounds: nat,
    i: int,
    j: int,
)
    requires
        moved_or_back(start, start, origin),
        moved_or_back(current, start, origin),
        collision_free(retreats(start, origin, rounds)),
        rounds > 0,
        no_further_back(current, retreats(start, origin, rounds), start),
        0 <= i < j,
    ensures
        no_further_back(scan_row(current, origin, i, j), retreats(start, origin, rounds), start),
    decreases origin.len() - j,
{
    if j < origin.len() {
        lemma_revert_pair_shape(current, start, origin, i, j);
        lemma_revert_pair_no_further(current, start, origin, rounds, i, j);
        lemma_scan_row_no_further(
            revert_pair(current, origin, i, j),
            start,
            origin,
            rounds,
            i,
            j + 1,
        );
    }
}

/// One pass of the scan puts no actor back that the rounds leave where
/// its tentative move took it.
proof fn lemma_sweep_no_further(
    current: Seq<Actor>,
    start: Seq<Actor>,
    origin: Seq<Actor>,
    rounds: nat,
    i: int,
)
    requires
        moved_or_back(start, start, origin),
        moved_or_back(current, start, origin),
        collision_free(retreats(start, origin, rounds)),
        rounds > 0,
        no_further_back(current, retreats(start, origin, rounds), start),
        0 <= i,
    ensures
        no_further_back(sweep(current, origin, i), retreats(start, origin, rounds), start),
    decreases origin.len() - i,
{
    if i < origin.len() {
        lemma_scan_row_shape(current, start, origin, i, i + 1);
        lemma_scan_row_no_further(current, start, origin, rounds, i, i + 1);
        lemma_sweep_no_further(scan_row(current, origin, i, i + 1), start, origin, rounds, i + 1);
    }
}

/// The scan puts no actor back that the rounds leave where its tentative
/// move took it.
proof fn lemma_settle_no_further(
    current: Seq<Actor>,
    start: Seq<Actor>,
    origin: Seq<Actor>,
    rounds: nat,
    passes: nat,
)
    requires
        moved_or_back(start, start, origin),
        moved_or_back(current, start, origin),
        collision_free(retreats(start, origin, rounds)),
        rounds > 0,
        no_further_back(current, retreats(start, origin, rounds), start),
    ensures
        no_further_back(settle(current, origin, passes), retreats(start, origin, rounds), start),
    decreases passes,
{
    if passes != 0 && !collision_free(current) {
        lemma_sweep_shape(current, start, origin, 0);
        lemma_sweep_no_further(current, start, origin, rounds, 0);
        lemma_settle_no_further(
            sweep(current, origin, 0),
            start,
            origin,
            rounds,
            (passes - 1) as nat,
        );
    }
}

/// The rounds put no actor back that the scan leaves where its tentative
/// move took it.
proof fn lemma_retreats_no_further(
    board: Board,
    actors: Seq<Actor>,
    command: Direction,
    current: Seq<Actor>,
    rounds: nat,
)
    requires
        board.wf(),
        collision_free(actors),
        moved_or_back(current, board.advance_all(actors, command), actors),
        no_further_back(current, scanned(board, actors, command), board.advance_all(actors, command)),
    ensures
        no_further_back(
            retreats(current, actors, rounds),
            scanned(board, actors, command),
            board.advance_all(actors, command),
        ),
    decreases rounds,
{
    if rounds > 0 {
        let start = board.advance_all(actors, command);
        let scanned = scanned(board, actors, command);
        let next = retreat(current, actors);
        assert(moved_or_back(start, start, actors));
        lemma_settle_shape(start, start, actors, actors.len());
        lemma_displaced_bound(start, actors);
        lemma_settle_collision_free(start, actors, actors.len());
        lemma_retreat_shape(current, start, actors);
        assert forall|i: int|
            0 <= i < next.len() && (#[trigger] scanned[i]).position == start[i].position implies next[i].position
            == start[i].position by {
            if start[i].position != actors[i].position && shares_cell(current, i) {
                let j = choose|j: int| other_on_cell(current, i, j);
                assert(current[i].position == start[i].position);
                assert(start[i] == board.advance(actors[i], command));
                assert(start[j] == board.advance(actors[j], command));
                if current[j].position == start[j].position {
                    lemma_stays_when_contested(board, actors, command, i, j);
                } else {
                    assert(scanned[j].position != start[j].position);
                    assert(scanned[j].position == actors[j].position);
                    if i < j {
                        assert(scanned[i].position != scanned[j].position);
                    } else {
                        assert(scanned[j].position != scanned[i].position);
                    }
                }
            }
        }
        lemma_retreats_no_further(board, actors, command, next, (rounds - 1) as nat);
    }
}

/// The order of the scan is immaterial: after a command, collision
/// resolution leaves every actor where rounds of simultaneous retreat
/// leave it.
pub proof fn lemma_scan_order_is_immaterial(board: Board, actors: Seq<Actor>, command: Direction)
    requires
        board.wf(),
        collision_free(actors),
    ensures
        scanned(board, actors, command) == board.resolve(actors, command),
{
    let start = board.advance_all(actors, command);
    let scanned = scanned(board, actors, command);
    let rounds = actors.len();
    let parallel = retreats(start, actors, rounds);
    assert(moved_or_back(start, start, actors));
    lemma_settle_shape(start, start, actors, rounds);
    lemma_retreats_shape(start, start, actors, rounds);
    if rounds > 0 {
        lemma_displaced_bound(start, actors);
        lemma_retreats_collision_free(start, actors, rounds);
        lemma_settle_no_further(start, start, actors, rounds, rounds);
        lemma_retreats_no_further(board, actors, command, start, rounds);
        assert forall|i: int| 0 <= i < scanned.len() implies scanned[i] == parallel[i] by {
            assert(scanned[i].color == start[i].color);
            assert(parallel[i].color == start[i].color);
            if scanned[i].position == start[i].position {
                assert(parallel[i].position == start[i].position);
            } else {
                assert(parallel[i].position != start[i].position);
            }
        }
    }
    assert(scanned =~= parallel);
}

} // verus!
