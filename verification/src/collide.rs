//! Collision resolution as it is carried out: the pairs of actors are
//! scanned in a fixed order, two actors found on the same cell are both put
//! back at once, and the scan is repeated until a pass finds no collision.

use crate::actors::{actors_of, list_get, list_len, list_set};
use crate::model::{collision_free, moved_or_back, restored, Actor};
use crate::rounds::{displaced, lemma_displaced_bound, lemma_displaced_zero};
use arrayvec::ArrayVec;
use vstd::prelude::*;

verus! {

/// The collision rule for one pair: if actors `i` and `j` stand on the same
/// cell, both go back to where they stood before the move.
pub open spec fn revert_pair(current: Seq<Actor>, origin: Seq<Actor>, i: int, j: int) -> Seq<
    Actor,
> {
    if current[i].position == current[j].position {
        current.update(i, restored(current, origin, i)).update(j, restored(current, origin, j))
    } else {
        current
    }
}

/// The collision rule applied to the pairs `(i, j)`, `(i, j + 1)`, ... in turn.
pub open spec fn scan_row(current: Seq<Actor>, origin: Seq<Actor>, i: int, j: int) -> Seq<Actor>
    decreases origin.len() - j,
{
    if j >= origin.len() {
        current
    } else {
        scan_row(revert_pair(current, origin, i, j), origin, i, j + 1)
    }
}

/// One full pass over all pairs with first index at least `i`, row by row.
pub open spec fn sweep(current: Seq<Actor>, origin: Seq<Actor>, i: int) -> Seq<Actor>
    decreases origin.len() - i,
{
    if i >= origin.len() {
        current
    } else {
        sweep(scan_row(current, origin, i, i + 1), origin, i + 1)
    }
}

/// Full passes repeated until one finds no collision, at most `rounds` of
/// them.
pub open spec fn settle(current: Seq<Actor>, origin: Seq<Actor>, rounds: nat) -> Seq<Actor>
    decreases rounds,
{
    if rounds == 0 || collision_free(current) {
        current
    } else {
        settle(sweep(current, origin, 0), origin, (rounds - 1) as nat)
    }
}

/// Putting one actor back lowers the number of displaced actors by one if
/// it was displaced, and leaves the number alone if it was not.
pub proof fn lemma_displaced_restore(current: Seq<Actor>, origin: Seq<Actor>, i: int)
    requires
        current.len() == origin.len(),
        0 <= i < current.len(),
    ensures
        displaced(current.update(i, restored(current, origin, i)), origin) + (if current[i].position
            != origin[i].position {
            1nat
        } else {
            0nat
        }) == displaced(current, origin),
    decreases current.len(),
{
    let after = current.update(i, restored(current, origin, i));
    if i == current.len() - 1 {
        assert(after.drop_last() == current.drop_last());
    } else {
        lemma_displaced_restore(current.drop_last(), origin.drop_last(), i);
        assert(after.drop_last() == current.drop_last().update(
            i,
            restored(current.drop_last(), origin.drop_last(), i),
        ));
    }
}

/// Applying the collision rule to one pair never displaces anyone, and
/// puts at least one displaced actor back if the pair collided.
pub proof fn lemma_revert_pair_progress(current: Seq<Actor>, origin: Seq<Actor>, i: int, j: int)
    requires
        current.len() == origin.len(),
        0 <= i < j < current.len(),
        collision_free(origin),
    ensures
        displaced(revert_pair(current, origin, i, j), origin) <= displaced(current, origin),
        current[i].position == current[j].position ==> displaced(
            revert_pair(current, origin, i, j),
            origin,
        ) < displaced(current, origin),
{
    if current[i].position == current[j].position {
        let mid = current.update(i, restored(current, origin, i));
        lemma_displaced_restore(current, origin, i);
        lemma_displaced_restore(mid, origin, j);
        assert(restored(mid, origin, j) == restored(current, origin, j));
        assert(origin[i].position != origin[j].position);
    }
}

/// The collision rule only ever puts actors back.
pub proof fn lemma_revert_pair_shape(
    current: Seq<Actor>,
    start: Seq<Actor>,
    origin: Seq<Actor>,
    i: int,
    j: int,
)
    requires
        moved_or_back(current, start, origin),
        0 <= i < j < current.len(),
    ensures
        moved_or_back(revert_pair(current, origin, i, j), start, origin),
{
}

/// One row of the scan only ever puts actors back.
pub proof fn lemma_scan_row_shape(
    current: Seq<Actor>,
    start: Seq<Actor>,
    origin: Seq<Actor>,
    i: int,
    j: int,
)
    requires
        moved_or_back(current, start, origin),
        0 <= i < j,
    ensures
        moved_or_back(scan_row(current, origin, i, j), start, origin),
    decreases origin.len() - j,
{
    if j < origin.len() {
        lemma_revert_pair_shape(current, start, origin, i, j);
        lemma_scan_row_shape(revert_pair(current, origin, i, j), start, origin, i, j + 1);
    }
}

/// One pass over all pairs only ever puts actors back.
pub proof fn lemma_sweep_shape(current: Seq<Actor>, start: Seq<Actor>, origin: Seq<Actor>, i: int)
    requires
        moved_or_back(current, start, origin),
        0 <= i,
    ensures
        moved_or_back(sweep(current, origin, i), start, origin),
    decreases origin.len() - i,
{
    if i < origin.len() {
        lemma_scan_row_shape(current, start, origin, i, i + 1);
        lemma_sweep_shape(scan_row(current, origin, i, i + 1), start, origin, i + 1);
    }
}

/// After collision resolution every actor has kept its colour and stands
/// either on the cell of its tentative move or where it stood before.
pub proof fn lemma_settle_shape(
    current: Seq<Actor>,
    start: Seq<Actor>,
    origin: Seq<Actor>,
    rounds: nat,
)
    requires
        moved_or_back(current, start, origin),
    ensures
        moved_or_back(settle(current, origin, rounds), start, origin),
    decreases rounds,
{
    if rounds != 0 && !collision_free(current) {
        lemma_sweep_shape(current, start, origin, 0);
        lemma_settle_shape(sweep(current, origin, 0), start, origin, (rounds - 1) as nat);
    }
}

/// One row of the scan displaces nobody, and if it puts nobody back then
/// it changes nothing and actor `i` shares its cell with no actor from `j`
/// on.
pub proof fn lemma_scan_row_progress(current: Seq<Actor>, origin: Seq<Actor>, i: int, j: int)
    requires
        current.len() == origin.len(),
        collision_free(origin),
        0 <= i < j,
    ensures
        scan_row(current, origin, i, j).len() == current.len(),
        displaced(scan_row(current, origin, i, j), origin) <= displaced(current, origin),
        displaced(scan_row(current, origin, i, j), origin) == displaced(current, origin) ==> {
            &&& scan_row(current, origin, i, j) == current
            &&& forall|q: int|
                j <= q < current.len() ==> current[i].position != (#[trigger] current[q]).position
        },
    decreases origin.len() - j,
{
    if j < origin.len() {
        lemma_revert_pair_progress(current, origin, i, j);
        lemma_scan_row_progress(revert_pair(current, origin, i, j), origin, i, j + 1);
    }
}

/// One pass over all pairs displaces nobody, and if it puts nobody back
/// then it changes nothing and no two actors share a cell, the first of
/// them at `i` or later.
pub proof fn lemma_sweep_progress(current: Seq<Actor>, origin: Seq<Actor>, i: int)
    requires
        current.len() == origin.len(),
        collision_free(origin),
        0 <= i,
    ensures
        sweep(current, origin, i).len() == current.len(),
        displaced(sweep(current, origin, i), origin) <= displaced(current, origin),
        displaced(sweep(current, origin, i), origin) == displaced(current, origin) ==> {
            &&& sweep(current, origin, i) == current
            &&& forall|p: int, q: int|
                i <= p < q < current.len() ==> (#[trigger] current[p]).position != (
                #[trigger] current[q]).position
        },
    decreases origin.len() - i,
{
    if i < origin.len() {
        lemma_scan_row_progress(current, origin, i, i + 1);
        lemma_sweep_progress(scan_row(current, origin, i, i + 1), origin, i + 1);
    }
}

/// Given as many rounds as there are displaced actors, collision
/// resolution ends with no two actors on one cell.
pub proof fn lemma_settle_collision_free(current: Seq<Actor>, origin: Seq<Actor>, rounds: nat)
    requires
        current.len() == origin.len(),
        collision_free(origin),
        displaced(current, origin) <= rounds,
    ensures
        collision_free(settle(current, origin, rounds)),
        settle(current, origin, rounds).len() == current.len(),
    decreases rounds,
{
    if !collision_free(current) {
        lemma_sweep_progress(current, origin, 0);
        if displaced(current, origin) == 0 {
            lemma_displaced_zero(current, origin);
            assert forall|p: int, q: int| 0 <= p < q < current.len() implies (
            #[trigger] current[p]).position != (#[trigger] current[q]).position by {
                assert(origin[p].position != origin[q].position);
            }
        }
        lemma_settle_collision_free(sweep(current, origin, 0), origin, (rounds - 1) as nat);
    }
}

/// Undoes colliding moves until no two actors share a cell. `origin` holds
/// the actors as they stood before the move.
pub(crate) fn resolve(current: &mut ArrayVec<Actor, 8>, origin: &ArrayVec<Actor, 8>)
    requires
        actors_of(*old(current)).len() == actors_of(*origin).len(),
        collision_free(actors_of(*origin)),
    ensures
        actors_of(*final(current)) == settle(
            actors_of(*old(current)),
            actors_of(*origin),
            actors_of(*origin).len(),
        ),
        collision_free(actors_of(*final(current))),
        actors_of(*final(current)).len() == actors_of(*origin).len(),
{
    let n = list_len(origin);
    let ghost start = actors_of(*current);
    let ghost orig = actors_of(*origin);
    let ghost mut rounds: nat = n as nat;
    proof {
        lemma_displaced_bound(start, orig);
    }
    let mut done = false;
    while !done
        invariant
            n == orig.len(),
            orig == actors_of(*origin),
            collision_free(orig),
            actors_of(*current).len() == n,
            settle(start, orig, n as nat) == settle(actors_of(*current), orig, rounds),
            displaced(actors_of(*current), orig) <= rounds,
            done ==> collision_free(actors_of(*current)),
        decreases rounds + (if done { 0nat } else { 1nat }),
    {
        done = true;
        let ghost before = actors_of(*current);
        let mut i: usize = 0;
        while i < n
            invariant
                i <= n,
                n == orig.len(),
                orig == actors_of(*origin),
                collision_free(orig),
                before.len() == n,
                actors_of(*current).len() == n,
                sweep(before, orig, 0) == sweep(actors_of(*current), orig, i as int),
                displaced(actors_of(*current), orig) <= displaced(before, orig),
                !done ==> displaced(actors_of(*current), orig) < displaced(before, orig),
                !done ==> !collision_free(before),
                done ==> actors_of(*current) == before,
                done ==> forall|p: int, q: int|
                    0 <= p < q < n && p < i ==> (#[trigger] before[p]).position != (
                    #[trigger] before[q]).position,
            decreases n - i,
        {
            let ghost row_start = actors_of(*current);
            let mut j: usize = i + 1;
            while j < n
                invariant
                    i < j <= n,
                    n == orig.len(),
                    orig == actors_of(*origin),
                    collision_free(orig),
                    before.len() == n,
                    actors_of(*current).len() == n,
                    scan_row(row_start, orig, i as int, i + 1) == scan_row(
                        actors_of(*current),
                        orig,
                        i as int,
                        j as int,
                    ),
                    displaced(actors_of(*current), orig) <= displaced(before, orig),
                    !done ==> displaced(actors_of(*current), orig) < displaced(before, orig),
                    !done ==> !collision_free(before),
                    done ==> actors_of(*current) == before,
                    done ==> forall|p: int, q: int|
                        0 <= p < q < n && p < i ==> (#[trigger] before[p]).position != (
                        #[trigger] before[q]).position,
                    done ==> forall|q: int|
                        i < q < j ==> before[i as int].position != (#[trigger] before[q]).position,
                decreases n - j,
            {
                let a = list_get(current, i);
                let b = list_get(current, j);
                let ghost cur = actors_of(*current);
                proof {
                    lemma_revert_pair_progress(cur, orig, i as int, j as int);
                }
                if a.position == b.position {
                    let home_a = list_get(origin, i);
                    let home_b = list_get(origin, j);
                    list_set(current, i, Actor { position: home_a.position, color: a.color });
                    list_set(current, j, Actor { position: home_b.position, color: b.color });
                    proof {
                        if done {
                            assert(before[i as int].position == before[j as int].position);
                        }
                        assert(actors_of(*current) == revert_pair(cur, orig, i as int, j as int));
                    }
                    done = false;
                }
                j += 1;
            }
            i += 1;
        }
        proof {
            if !done {
                rounds = (rounds - 1) as nat;
            }
        }
    }
}

} // verus!
