//! Canonical order of the actors of a state, so that the same configuration
//! is always the same list.

use crate::actors::{actors_of, list_get, list_len, list_set};
use crate::model::{
    actor_order, canonical, collision_free, is_canonical, precedes, Actor, Color,
};
use arrayvec::ArrayVec;
use vstd::multiset::group_multiset_axioms;
use vstd::prelude::*;
use vstd::relations::{sorted_by, total_ordering};
use vstd::seq_lib::{group_to_multiset_ensures, lemma_sorted_unique, to_multiset_update};

verus! {

/// The canonical order is a total order on actors.
pub proof fn lemma_order_total()
    ensures
        total_ordering(actor_order()),
{
    let r = actor_order();
    assert forall|a: Actor, b: Actor| #[trigger] r(a, b) && #[trigger] r(b, a) implies a == b by {
        assert(a.position.x == b.position.x);
        assert(a.position.y == b.position.y);
        assert(a.color == b.color);
    }
    assert forall|a: Actor, b: Actor, c: Actor| #[trigger] r(a, b) && #[trigger] r(b, c) implies r(
        a,
        c,
    ) by {
        assert(precedes(a, b) && precedes(b, c));
    }
    assert forall|a: Actor, b: Actor| #[trigger] r(a, b) || #[trigger] r(b, a) by {
        assert(precedes(a, b) || precedes(b, a));
    }
    assert forall|a: Actor| #[trigger] r(a, a) by {
        assert(precedes(a, a));
    }
}

/// The canonical listing holds the same actors, each as often as before,
/// and is in canonical order.
pub proof fn lemma_canonical_is_sorted_permutation(actors: Seq<Actor>)
    ensures
        canonical(actors).to_multiset() == actors.to_multiset(),
        canonical(actors).len() == actors.len(),
        is_canonical(canonical(actors)),
{
    broadcast use group_to_multiset_ensures;

    lemma_order_total();
    actors.lemma_sort_by_ensures(actor_order());
    let sorted = canonical(actors);
    assert(sorted.len() == sorted.to_multiset().len());
    assert(actors.len() == actors.to_multiset().len());
    assert forall|i: int, j: int| 0 <= i < j < sorted.len() implies precedes(
        #[trigger] sorted[i],
        #[trigger] sorted[j],
    ) by {
        assert(actor_order()(sorted[i], sorted[j]));
    }
}

/// A listing in canonical order is its own canonical listing.
pub proof fn lemma_canonical_fixpoint(actors: Seq<Actor>)
    requires
        is_canonical(actors),
    ensures
        canonical(actors) == actors,
{
    lemma_order_total();
    actors.lemma_sort_by_ensures(actor_order());
    assert(sorted_by(actors, actor_order()));
    lemma_sorted_unique(canonical(actors), actors, actor_order());
}

/// Canonicalising twice is the same as canonicalising once.
pub proof fn lemma_canonical_idempotent(actors: Seq<Actor>)
    ensures
        canonical(canonical(actors)) == canonical(actors),
{
    lemma_canonical_is_sorted_permutation(actors);
    lemma_canonical_fixpoint(canonical(actors));
}

/// Two listings of the same actors, in whatever order, have the same
/// canonical listing.
pub proof fn lemma_canonical_of_permutation(a: Seq<Actor>, b: Seq<Actor>)
    requires
        a.to_multiset() == b.to_multiset(),
    ensures
        canonical(a) == canonical(b),
{
    lemma_order_total();
    a.lemma_sort_by_ensures(actor_order());
    b.lemma_sort_by_ensures(actor_order());
    lemma_sorted_unique(canonical(a), canonical(b), actor_order());
}

/// Two canonical listings of the same actors are the same listing: states
/// that hold the same actors are equal.
pub proof fn lemma_same_actors_same_listing(a: Seq<Actor>, b: Seq<Actor>)
    requires
        is_canonical(a),
        is_canonical(b),
        a.to_multiset() == b.to_multiset(),
    ensures
        a == b,
{
    lemma_canonical_fixpoint(a);
    lemma_canonical_fixpoint(b);
    lemma_canonical_of_permutation(a, b);
}

/// Listing the same actors in another order cannot put two on one cell.
pub proof fn lemma_permutation_collision_free(a: Seq<Actor>, b: Seq<Actor>)
    requires
        collision_free(a),
        a.to_multiset() == b.to_multiset(),
    ensures
        collision_free(b),
{
    broadcast use group_to_multiset_ensures;

    assert(a.no_duplicates()) by {
        assert forall|i: int, j: int| 0 <= i < a.len() && 0 <= j < a.len() && i != j implies a[i]
            != a[j] by {
            if i < j {
                assert(a[i].position != a[j].position);
            } else {
                assert(a[j].position != a[i].position);
            }
        }
    }
    a.lemma_multiset_has_no_duplicates();
    b.lemma_multiset_has_no_duplicates_conv();
    assert forall|i: int, j: int| 0 <= i < j < b.len() implies (#[trigger] b[i]).position != (
    #[trigger] b[j]).position by {
        assert(b[i] != b[j]);
        assert(b.to_multiset().count(b[i]) > 0);
        assert(b.to_multiset().count(b[j]) > 0);
        assert(a.contains(b[i]));
        assert(a.contains(b[j]));
        let p = choose|p: int| 0 <= p < a.len() && a[p] == b[i];
        let q = choose|q: int| 0 <= q < a.len() && a[q] == b[j];
        if p < q {
            assert(a[p].position != a[q].position);
        } else {
            assert(a[q].position != a[p].position);
        }
    }
}

/// Whether `a` may stand before `b` in a canonical listing.
pub fn in_order(a: Actor, b: Actor) -> (r: bool)
    ensures
        r == precedes(a, b),
{
    if a.position.x != b.position.x {
        a.position.x < b.position.x
    } else if a.position.y != b.position.y {
        a.position.y < b.position.y
    } else {
        match (a.color, b.color) {
            (Color::Blue, Color::Red) => false,
            _ => true,
        }
    }
}

/// Exchanging two neighbours keeps the actors that a listing holds.
proof fn lemma_exchange_keeps_actors(s: Seq<Actor>, j: int)
    requires
        0 < j < s.len(),
    ensures
        s.update(j - 1, s[j]).update(j, s[j - 1]).to_multiset() == s.to_multiset(),
{
    broadcast use group_multiset_axioms;
    broadcast use group_to_multiset_ensures;

    let t = s.update(j - 1, s[j]);
    to_multiset_update(s, j - 1, s[j]);
    to_multiset_update(t, j, s[j - 1]);
    assert(s.to_multiset().count(s[j - 1]) > 0);
    assert(s.to_multiset().count(s[j]) > 0);
    assert(s.to_multiset().insert(s[j]).remove(s[j - 1]).insert(s[j - 1]).remove(s[j])
        =~= s.to_multiset());
}

/// Puts the list into canonical order, in place.
pub(crate) fn sort_list(list: &mut ArrayVec<Actor, 8>)
    ensures
        actors_of(*final(list)) == canonical(actors_of(*old(list))),
{
    let n = list_len(list);
    let ghost start = actors_of(*list);
    let mut i: usize = 1;
    while i < n
        invariant
            1 <= i,
            actors_of(*list).len() == n,
            actors_of(*list).to_multiset() == start.to_multiset(),
            forall|p: int, q: int|
                0 <= p < q < i && q < n ==> precedes(
                    #[trigger] actors_of(*list)[p],
                    #[trigger] actors_of(*list)[q],
                ),
        decreases n - i,
    {
        let mut j: usize = i;
        let mut moving = true;
        while moving
            invariant
                j <= i < n,
                actors_of(*list).len() == n,
                actors_of(*list).to_multiset() == start.to_multiset(),
                forall|p: int, q: int|
                    0 <= p < q <= i && p != j && q != j ==> precedes(
                        #[trigger] actors_of(*list)[p],
                        #[trigger] actors_of(*list)[q],
                    ),
                forall|q: int|
                    j < q <= i ==> precedes(actors_of(*list)[j as int], #[trigger] actors_of(*list)[q]),
                !moving ==> (j == 0 || precedes(
                    actors_of(*list)[j - 1],
                    actors_of(*list)[j as int],
                )),
            decreases j + (if moving { 1nat } else { 0nat }),
        {
            if j == 0 {
                moving = false;
            } else {
                let a = list_get(list, j - 1);
                let b = list_get(list, j);
                if in_order(a, b) {
                    moving = false;
                } else {
                    proof {
                        lemma_exchange_keeps_actors(actors_of(*list), j as int);
                    }
                    list_set(list, j - 1, b);
                    list_set(list, j, a);
                    j -= 1;
                }
            }
        }
        proof {
            let cur = actors_of(*list);
            assert forall|p: int, q: int| 0 <= p < q < i + 1 && q < n implies precedes(
                #[trigger] cur[p],
                #[trigger] cur[q],
            ) by {
                if q == j {
                    if p < j - 1 {
                        assert(precedes(cur[p], cur[j - 1]));
                    }
                } else if p == j {
                } else {
                }
            }
        }
        i += 1;
    }
    proof {
        let cur = actors_of(*list);
        lemma_order_total();
        start.lemma_sort_by_ensures(actor_order());
        assert(sorted_by(cur, actor_order())) by {
            assert forall|p: int, q: int| 0 <= p < q < cur.len() implies #[trigger] actor_order()(
                cur[p],
                cur[q],
            ) by {
                assert(precedes(cur[p], cur[q]));
            }
        }
        lemma_sorted_unique(cur, canonical(start), actor_order());
    }
}

} // verus!
