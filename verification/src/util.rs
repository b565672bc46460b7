use std::cmp::Ordering;

use vstd::prelude::*;
use vstd::std_specs::cmp::{PartialEqIs, PartialEqSpec, PartialOrdIs, PartialOrdSpec};

verus! {

/// A comparison operator as it appears in predicate expressions such as
/// `score>=10` or `rating<=safe`.
#[derive(Clone, Copy, Debug, PartialEq, Eq, Structural)]
pub enum Comparator {
    Lt,
    Lte,
    Eq,
    Neq,
    Gte,
    Gt,
}

impl Comparator {
    /// Whether `x <op> y` holds for this operator, by the equality and
    /// ordering of `T`.
    pub open spec fn holds<T: PartialEq + PartialOrd>(self, x: T, y: T) -> bool {
        match self {
            Comparator::Lt => x.is_lt(&y),
            Comparator::Lte => x.is_le(&y),
            Comparator::Eq => x.is_eq(&y),
            Comparator::Neq => x.is_ne(&y),
            Comparator::Gte => x.is_ge(&y),
            Comparator::Gt => x.is_gt(&y),
        }
    }

    /// Apply the operator to `x` (left-hand side) and `y` (right-hand side).
    /// Where `T`'s `==` and comparisons follow their specification, as those
    /// of integers and ratings do, the result is the comparison `holds`
    /// describes.
    pub fn cmp<T: PartialEq + PartialOrd>(&self, x: T, y: T) -> (r: bool)
        ensures
            T::obeys_eq_spec() && T::obeys_partial_cmp_spec() ==> r == self.holds(x, y),
    {
        match self {
            Comparator::Lt => x < y,
            Comparator::Lte => x <= y,
            Comparator::Eq => x == y,
            Comparator::Neq => x != y,
            Comparator::Gte => x >= y,
            Comparator::Gt => x > y,
        }
    }
}

/// The operators are related as on any total order: `!=` is the negation
/// of `==`, `>` and `>=` are `<` and `<=` with the operands swapped, `<=`
/// is `<` or `==`, and `>=` is the negation of `<`.
pub open spec fn operators_agree<T: PartialEq + PartialOrd>(x: T, y: T) -> bool {
    &&& Comparator::Neq.holds(x, y) == !Comparator::Eq.holds(x, y)
    &&& Comparator::Gt.holds(x, y) == Comparator::Lt.holds(y, x)
    &&& Comparator::Gte.holds(x, y) == Comparator::Lte.holds(y, x)
    &&& Comparator::Lte.holds(x, y) == (Comparator::Lt.holds(x, y) || Comparator::Eq.holds(x, y))
    &&& Comparator::Gte.holds(x, y) == !Comparator::Lt.holds(x, y)
}

/// The operators agree with each other on any two values that `T`
/// compares as a total order does: the comparison gives an answer, `==`
/// holds exactly when it answers `Equal`, and comparing the other way
/// round gives the opposite answer.
pub proof fn lemma_operators_agree<T: PartialEq + PartialOrd>(x: T, y: T)
    requires
        x.partial_cmp_spec(&y) is Some,
        x.eq_spec(&y) <==> x.partial_cmp_spec(&y) == Some(Ordering::Equal),
        x.partial_cmp_spec(&y) == Some(Ordering::Less) <==> y.partial_cmp_spec(&x) == Some(Ordering::Greater),
        x.partial_cmp_spec(&y) == Some(Ordering::Greater) <==> y.partial_cmp_spec(&x) == Some(Ordering::Less),
        x.partial_cmp_spec(&y) == Some(Ordering::Equal) <==> y.partial_cmp_spec(&x) == Some(Ordering::Equal),
    ensures
        operators_agree(x, y),
{
}

/// On integers the operators agree with each other as on any total order.
pub proof fn lemma_operators_agree_i64(x: i64, y: i64)
    ensures
        operators_agree(x, y),
{
    lemma_operators_agree(x, y);
}

} // verus!
