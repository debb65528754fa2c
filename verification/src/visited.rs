//! The set of states that the search has already expanded, kept in a
//! `rustc_hash::FxHashSet`: a standard hash set that hashes with the fast,
//! non-cryptographic `FxHasher`.
//!
//! The set is keyed by `State`. Every state lists its actors in canonical
//! order, and two states are equal exactly if their lists are equal, which is
//! proved where `State` is defined; so states that hold the same actors are
//! one key. The hash of a state is derived and is computed from its actor
//! list alone. On that, and on the documentation of `HashSet`, rest the
//! statements below; they are taken on trust.

use crate::model::Actor;
use crate::puzzle::State;
use core::hash::BuildHasherDefault;
use rustc_hash::{FxHashSet, FxHasher};
use vstd::prelude::*;

verus! {

/// `rustc_hash::FxHasher`, the hasher of the set. It is used as a type
/// only; nothing is claimed of the hashes it computes.
#[verifier::external_type_specification]
#[verifier::external_body]
pub struct ExFxHasher(FxHasher);

/// `core::hash::BuildHasherDefault`, which makes a fresh default hasher
/// for every key. It is used as a type only.
#[verifier::external_type_specification]
#[verifier::external_body]
#[verifier::reject_recursive_types(H)]
pub struct ExBuildHasherDefault<H>(BuildHasherDefault<H>);

/// The actor lists of the states held by a set.
pub uninterp spec fn seen_states(set: FxHashSet<State>) -> Set<Seq<Actor>>;

/// `Default for HashSet`, with `FxHasher` as the hasher of the set:
/// a set that holds nothing.
#[verifier::external_body]
pub(crate) fn seen_new() -> (set: FxHashSet<State>)
    ensures
        seen_states(set) == Set::<Seq<Actor>>::empty(),
{
    FxHashSet::default()
}

/// `HashSet::contains`: whether a state with the same actor list is held.
#[verifier::external_body]
pub(crate) fn seen_contains(set: &FxHashSet<State>, state: &State) -> (held: bool)
    ensures
        held == seen_states(*set).contains(state@),
{
    set.contains(state)
}

/// `HashSet::insert`: afterwards the set holds the state's actor list and
/// everything it held before.
#[verifier::external_body]
pub(crate) fn seen_insert(set: &mut FxHashSet<State>, state: State)
    ensures
        seen_states(*final(set)) == seen_states(*old(set)).insert(state@),
{
    set.insert(state);
}

} // verus!
