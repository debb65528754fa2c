//! The fixed-capacity actor list of a state, kept in an `arrayvec::ArrayVec`.
//!
//! The list lives inline in the state, so states are cheap to copy and hash.
//! Verus cannot look inside the outside type: what the list holds is given a
//! name, `actors_of`, and each operation used by the crate is stated over
//! that name. These statements are taken on trust from the `arrayvec`
//! sources; everything built on them is proved.

use crate::model::Actor;
use arrayvec::ArrayVec;
use vstd::prelude::*;

verus! {

/// `arrayvec::ArrayVec`, a vector of at most `CAP` elements stored inline.
/// Its contents are hidden from the verifier.
#[verifier::external_type_specification]
#[verifier::external_body]
#[verifier::reject_recursive_types(T)]
pub struct ExArrayVec<T, const CAP: usize>(ArrayVec<T, CAP>);

/// The actors held by a list, in order.
pub uninterp spec fn actors_of(list: ArrayVec<Actor, 8>) -> Seq<Actor>;

/// `ArrayVec::new`: a list that holds nothing.
#[verifier::external_body]
pub(crate) fn list_new() -> (list: ArrayVec<Actor, 8>)
    ensures
        actors_of(list) == Seq::<Actor>::empty(),
{
    ArrayVec::new()
}

/// `ArrayVec::len`: the number of actors held, which never exceeds the
/// capacity of 8.
#[verifier::external_body]
pub(crate) fn list_len(list: &ArrayVec<Actor, 8>) -> (n: usize)
    ensures
        n == actors_of(*list).len(),
        n <= 8,
{
    list.len()
}

/// `ArrayVec::push`: appends one actor. The outside function panics on a
/// full list, so a free slot is required.
#[verifier::external_body]
pub(crate) fn list_push(list: &mut ArrayVec<Actor, 8>, actor: Actor)
    requires
        actors_of(*old(list)).len() < 8,
    ensures
        actors_of(*final(list)) == actors_of(*old(list)).push(actor),
{
    list.push(actor)
}

/// Indexing through `Deref<Target = [T]>`: the actor at position `i`.
#[verifier::external_body]
pub(crate) fn list_get(list: &ArrayVec<Actor, 8>, i: usize) -> (actor: Actor)
    requires
        i < actors_of(*list).len(),
    ensures
        actor == actors_of(*list)[i as int],
{
    list[i]
}

/// Assignment through `DerefMut`: replaces the actor at position `i` and
/// leaves the others alone.
#[verifier::external_body]
pub(crate) fn list_set(list: &mut ArrayVec<Actor, 8>, i: usize, actor: Actor)
    requires
        i < actors_of(*old(list)).len(),
    ensures
        actors_of(*final(list)) == actors_of(*old(list)).update(i as int, actor),
{
    list[i] = actor;
}

/// `Clone for ArrayVec`: a list holding the same actors in the same order.
#[verifier::external_body]
pub(crate) fn list_clone(list: &ArrayVec<Actor, 8>) -> (copy: ArrayVec<Actor, 8>)
    ensures
        actors_of(copy) == actors_of(*list),
{
    list.clone()
}

} // verus!
