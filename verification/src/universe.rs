//! The state space is finite: an actor is two `i32` coordinates and one of
//! two colours, and a state lists at most eight actors. This is what makes
//! the search come to an end.

use crate::model::{Actor, Color};
use crate::vec2::Vec2;
use vstd::prelude::*;
use vstd::set_lib::{lemma_set_subset_finite, FiniteFull};

verus! {

/// All actor lists of at most `limit` actors.
pub open spec fn bounded_states(limit: nat) -> Set<Seq<Actor>> {
    Set::new(|s: Seq<Actor>| s.len() <= limit)
}

/// The two actors that can stand on the cell `(x, y)`.
spec fn cell_actors(x: i32, y: i32) -> Set<Actor> {
    set![
        Actor { position: Vec2 { x, y }, color: Color::Red },
        Actor { position: Vec2 { x, y }, color: Color::Blue },
    ]
}

/// The actors that can stand in column `x`.
spec fn column_actors(x: i32) -> Set<Actor> {
    Set::<i32>::full().map(|y: i32| cell_actors(x, y)).flatten()
}

/// There are finitely many actors.
pub proof fn lemma_actors_finite()
    ensures
        Set::<Actor>::full().finite(),
{
    let ints = Set::<i32>::full();
    <i32 as FiniteFull>::full_properties();
    assert forall|x: i32| (#[trigger] column_actors(x)).finite() by {
        let cells = ints.map(|y: i32| cell_actors(x, y));
        ints.lemma_map_finite(|y: i32| cell_actors(x, y));
        assert forall|c: Set<Actor>| cells.contains(c) implies #[trigger] c.finite() by {
            let y = choose|y: i32| ints.contains(y) && c == cell_actors(x, y);
            assert(cell_actors(x, y).finite());
        }
        cells.lemma_flatten_finite();
    }
    let columns = ints.map(|x: i32| column_actors(x));
    ints.lemma_map_finite(|x: i32| column_actors(x));
    assert forall|c: Set<Actor>| columns.contains(c) implies #[trigger] c.finite() by {
        let x = choose|x: i32| ints.contains(x) && c == column_actors(x);
        assert(column_actors(x).finite());
    }
    columns.lemma_flatten_finite();
    let all = columns.flatten();
    assert forall|a: Actor| all.contains(a) by {
        let x = a.position.x;
        let y = a.position.y;
        assert(ints.contains(x) && ints.contains(y));
        assert(a == Actor { position: Vec2 { x, y }, color: a.color });
        assert(cell_actors(x, y).contains(a));
        let cells = ints.map(|y: i32| cell_actors(x, y));
        assert(cells.contains(cell_actors(x, y)));
        assert(column_actors(x).contains(a));
        assert(columns.contains(column_actors(x)));
    }
    assert(Set::<Actor>::full() =~= all);
}

/// The lists made by appending one actor to a list of `states`.
spec fn extended(states: Set<Seq<Actor>>) -> Set<Seq<Actor>> {
    states.map(|s: Seq<Actor>| Set::<Actor>::full().map(|a: Actor| s.push(a))).flatten()
}

/// There are finitely many actor lists of at most `limit` actors.
pub proof fn lemma_bounded_states_finite(limit: nat)
    ensures
        bounded_states(limit).finite(),
    decreases limit,
{
    if limit == 0 {
        assert(bounded_states(0) =~= set![Seq::<Actor>::empty()]) by {
            assert forall|s: Seq<Actor>| s.len() <= 0 implies s == Seq::<Actor>::empty() by {
                assert(s =~= Seq::<Actor>::empty());
            }
        }
    } else {
        let shorter = bounded_states((limit - 1) as nat);
        lemma_bounded_states_finite((limit - 1) as nat);
        lemma_actors_finite();
        let actors = Set::<Actor>::full();
        let families = shorter.map(|s: Seq<Actor>| actors.map(|a: Actor| s.push(a)));
        shorter.lemma_map_finite(|s: Seq<Actor>| actors.map(|a: Actor| s.push(a)));
        assert forall|f: Set<Seq<Actor>>| families.contains(f) implies #[trigger] f.finite() by {
            let s = choose|s: Seq<Actor>|
                shorter.contains(s) && f == actors.map(|a: Actor| s.push(a));
            actors.lemma_map_finite(|a: Actor| s.push(a));
        }
        families.lemma_flatten_finite();
        let longer = extended(shorter);
        assert(longer == families.flatten());
        assert(shorter.union(longer).finite());
        assert forall|s: Seq<Actor>| bounded_states(limit).contains(s) implies shorter.union(
            longer,
        ).contains(s) by {
            if s.len() == limit {
                let front = s.drop_last();
                let a = s.last();
                assert(s =~= front.push(a));
                assert(shorter.contains(front));
                assert(actors.contains(a));
                let family = actors.map(|a: Actor| front.push(a));
                assert(family.contains(s));
                assert(families.contains(family));
                assert(longer.contains(s));
            } else {
                assert(shorter.contains(s));
            }
        }
        assert(bounded_states(limit).subset_of(shorter.union(longer)));
        lemma_set_subset_finite(shorter.union(longer), bounded_states(limit));
    }
}

} // verus!
