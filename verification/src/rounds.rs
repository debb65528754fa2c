//! Rounds of retreat: what holds of the collision rule of the model. The
//! rounds only ever put actors back, they come to rest within as many
//! rounds as there are displaced actors, and at rest no two actors share a
//! cell.

use crate::model::{
    collision_free, moved_or_back, other_on_cell, retreat, retreats, shares_cell, Actor,
};
use vstd::prelude::*;

verus! {

/// How many actors stand somewhere else than in `origin`.
pub open spec fn displaced(current: Seq<Actor>, origin: Seq<Actor>) -> nat
    decreases current.len(),
{
    if current.len() == 0 || origin.len() != current.len() {
        0
    } else {
        displaced(current.drop_last(), origin.drop_last()) + if current.last().position
            != origin.last().position {
            1nat
        } else {
            0nat
        }
    }
}

/// No more actors can be displaced than there are.
pub proof fn lemma_displaced_bound(current: Seq<Actor>, origin: Seq<Actor>)
    ensures
        displaced(current, origin) <= current.len(),
    decreases current.len(),
{
    if current.len() != 0 && origin.len() == current.len() {
        lemma_displaced_bound(current.drop_last(), origin.drop_last());
    }
}

/// When nobody is displaced, everybody stands where they stood in `origin`.
pub proof fn lemma_displaced_zero(current: Seq<Actor>, origin: Seq<Actor>)
    requires
        current.len() == origin.len(),
        displaced(current, origin) == 0,
    ensures
        forall|k: int|
            0 <= k < current.len() ==> (#[trigger] current[k]).position == origin[k].position,
    decreases current.len(),
{
    if current.len() != 0 {
        lemma_displaced_zero(current.drop_last(), origin.drop_last());
        assert forall|k: int| 0 <= k < current.len() implies (#[trigger] current[k]).position
            == origin[k].position by {
            if k < current.len() - 1 {
                assert(current.drop_last()[k] == current[k]);
                assert(origin.drop_last()[k] == origin[k]);
            }
        }
    }
}

/// Moving actors back never raises the number of displaced actors, and
/// lowers it if a displaced actor is moved back.
pub proof fn lemma_displaced_falls(current: Seq<Actor>, next: Seq<Actor>, origin: Seq<Actor>)
    requires
        current.len() == origin.len(),
        next.len() == origin.len(),
        forall|i: int|
            0 <= i < current.len() ==> (#[trigger] next[i]).position == current[i].position
                || next[i].position == origin[i].position,
    ensures
        displaced(next, origin) <= displaced(current, origin),
        (exists|i: int|
            0 <= i < current.len() && (#[trigger] next[i]).position == origin[i].position
                && current[i].position != origin[i].position) ==> displaced(next, origin)
            < displaced(current, origin),
    decreases current.len(),
{
    if current.len() > 0 {
        let n = current.len() - 1;
        assert forall|i: int| 0 <= i < n implies (#[trigger] next.drop_last()[i]).position
            == current.drop_last()[i].position || next.drop_last()[i].position
            == origin.drop_last()[i].position by {
            assert(next[i].position == current[i].position || next[i].position
                == origin[i].position);
        }
        lemma_displaced_falls(current.drop_last(), next.drop_last(), origin.drop_last());
        assert(next[n].position == current[n].position || next[n].position == origin[n].position);
        if exists|i: int|
            0 <= i < current.len() && (#[trigger] next[i]).position == origin[i].position
                && current[i].position != origin[i].position {
            let i = choose|i: int|
                0 <= i < current.len() && (#[trigger] next[i]).position == origin[i].position
                    && current[i].position != origin[i].position;
            if i < n {
                assert(next.drop_last()[i].position == origin.drop_last()[i].position);
                assert(current.drop_last()[i].position != origin.drop_last()[i].position);
            }
        }
    }
}

/// A round only ever puts actors back.
pub proof fn lemma_retreat_shape(current: Seq<Actor>, start: Seq<Actor>, origin: Seq<Actor>)
    requires
        moved_or_back(current, start, origin),
    ensures
        moved_or_back(retreat(current, origin), start, origin),
        forall|i: int|
            0 <= i < current.len() && current[i].position == origin[i].position ==> (
            #[trigger] retreat(current, origin)[i]).position == origin[i].position,
{
}

/// A round changes nothing when no two actors share a cell, and puts a
/// displaced actor back when two do.
pub proof fn lemma_retreat_progress(current: Seq<Actor>, origin: Seq<Actor>)
    requires
        current.len() == origin.len(),
        collision_free(origin),
    ensures
        collision_free(current) ==> retreat(current, origin) == current,
        displaced(retreat(current, origin), origin) <= displaced(current, origin),
        !collision_free(current) ==> displaced(retreat(current, origin), origin) < displaced(
            current,
            origin,
        ),
{
    let next = retreat(current, origin);
    lemma_displaced_falls(current, next, origin);
    if collision_free(current) {
        assert forall|i: int| 0 <= i < current.len() implies next[i] == current[i] by {
            if shares_cell(current, i) {
                let j = choose|j: int| other_on_cell(current, i, j);
                if i < j {
                    assert(current[i].position != current[j].position);
                } else {
                    assert(current[j].position != current[i].position);
                }
            }
        }
        assert(next =~= current);
    } else {
        let (p, q) = choose|p: int, q: int|
            0 <= p < q < current.len() && (#[trigger] current[p]).position == (
            #[trigger] current[q]).position;
        assert(other_on_cell(current, p, q));
        assert(other_on_cell(current, q, p));
        assert(origin[p].position != origin[q].position);
        if current[p].position != origin[p].position {
            assert(next[p].position == origin[p].position);
        } else {
            assert(next[q].position == origin[q].position);
        }
    }
}

/// Rounds only ever put actors back, and an actor that is back stays back.
pub proof fn lemma_retreats_shape(
    current: Seq<Actor>,
    start: Seq<Actor>,
    origin: Seq<Actor>,
    rounds: nat,
)
    requires
        moved_or_back(current, start, origin),
    ensures
        moved_or_back(retreats(current, origin, rounds), start, origin),
        forall|i: int|
            0 <= i < current.len() && current[i].position == origin[i].position ==> (
            #[trigger] retreats(current, origin, rounds)[i]).position == origin[i].position,
    decreases rounds,
{
    if rounds > 0 {
        lemma_retreat_shape(current, start, origin);
        lemma_retreats_shape(retreat(current, origin), start, origin, (rounds - 1) as nat);
    }
}

/// Rounds change nothing once no two actors share a cell.
pub proof fn lemma_retreats_fixpoint(current: Seq<Actor>, origin: Seq<Actor>, rounds: nat)
    requires
        current.len() == origin.len(),
        collision_free(origin),
        collision_free(current),
    ensures
        retreats(current, origin, rounds) == current,
    decreases rounds,
{
    if rounds > 0 {
        lemma_retreat_progress(current, origin);
        lemma_retreats_fixpoint(current, origin, (rounds - 1) as nat);
    }
}

/// Given as many rounds as there are displaced actors, no two actors share
/// a cell in the end.
pub proof fn lemma_retreats_collision_free(current: Seq<Actor>, origin: Seq<Actor>, rounds: nat)
    requires
        current.len() == origin.len(),
        collision_free(origin),
        displaced(current, origin) <= rounds,
    ensures
        collision_free(retreats(current, origin, rounds)),
    decreases rounds,
{
    lemma_retreat_progress(current, origin);
    if collision_free(current) {
        lemma_retreats_fixpoint(current, origin, rounds);
    } else if rounds == 0 {
        lemma_displaced_zero(current, origin);
        assert forall|p: int, q: int| 0 <= p < q < current.len() implies (
        #[trigger] current[p]).position != (#[trigger] current[q]).position by {
            assert(origin[p].position != origin[q].position);
        }
    } else {
        lemma_retreats_collision_free(retreat(current, origin), origin, (rounds - 1) as nat);
    }
}

/// Two actors that share a cell at the start are both back after the
/// rounds.
pub proof fn lemma_retreats_head_on(start: Seq<Actor>, origin: Seq<Actor>, rounds: nat, p: int, q: int)
    requires
        moved_or_back(start, start, origin),
        rounds > 0,
        0 <= p < start.len(),
        0 <= q < start.len(),
        p != q,
        start[p].position == start[q].position,
    ensures
        retreats(start, origin, rounds)[p].position == origin[p].position,
{
    assert(other_on_cell(start, p, q));
    let next = retreat(start, origin);
    assert(next[p].position == origin[p].position);
    lemma_retreat_shape(start, start, origin);
    lemma_retreats_shape(next, start, origin, (rounds - 1) as nat);
}

} // verus!
