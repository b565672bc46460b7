//! The list of predicates a rule carries, kept in a `smallvec::SmallVec`
//! (rules rarely carry more than four predicates).
use smallvec::SmallVec;
use vstd::prelude::*;

use crate::perms::predicate::Predicate;

verus! {

/// The predicates of a rule, all of which must hold for the rule to apply.
/// The vector is held in a private field that only the trusted functions
/// below touch; `group_items` names what it holds.
#[verifier::external_body]
#[derive(Debug)]
pub struct PredicateGroup {
    items: SmallVec<[Predicate; 4]>,
}

/// The predicates a group holds, in order.
pub uninterp spec fn group_items(g: PredicateGroup) -> Seq<Predicate>;

/// `SmallVec::from_vec`: the group holding the items of `v`, in order
/// (it takes over the vector's buffer, or copies the items inline; it does
/// not panic).
#[verifier::external_body]
pub(crate) fn group_from_vec(v: Vec<Predicate>) -> (g: PredicateGroup)
    ensures
        group_items(g) == v@,
{
    PredicateGroup { items: SmallVec::from_vec(v) }
}

/// `SmallVec::len`: the number of predicates held.
#[verifier::external_body]
pub(crate) fn group_len(g: &PredicateGroup) -> (r: usize)
    ensures
        r == group_items(*g).len(),
{
    g.items.len()
}

/// Indexing a `SmallVec` (through its slice), which panics out of bounds:
/// the predicate at position `i`.
#[verifier::external_body]
pub(crate) fn group_get(g: &PredicateGroup, i: usize) -> (r: Predicate)
    requires
        i < group_items(*g).len(),
    ensures
        r == group_items(*g)[i as int],
{
    g.items[i]
}

/// `SmallVec::clone`: a group with the same predicates (the items are
/// `Copy`, so each is copied as is).
#[verifier::external_body]
pub(crate) fn group_clone(g: &PredicateGroup) -> (r: PredicateGroup)
    ensures
        group_items(r) == group_items(*g),
{
    PredicateGroup { items: g.items.clone() }
}

impl PredicateGroup {
    /// The group holding `preds`, in order.
    pub fn from_vec(preds: Vec<Predicate>) -> (g: PredicateGroup)
        ensures
            group_items(g) == preds@,
    {
        group_from_vec(preds)
    }

    /// The number of predicates in the group.
    pub fn len(&self) -> (r: usize)
        ensures
            r == group_items(*self).len(),
    {
        group_len(self)
    }
}

} // verus!
