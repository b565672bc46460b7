//! Permission rules and the order of their strength.
use std::cmp::Ordering;

use vstd::prelude::*;

use crate::auth::RoleKey;
use crate::perms::group::{group_clone, group_items, group_len, PredicateGroup};
use crate::perms::permission::{count_char_from, Permission};
use crate::perms::predicate::Predicate;

verus! {

/// A rule: `role` and every higher role may perform `perm` on resources
/// that satisfy all of `conds`. `exact` tells whether the rule's key named
/// one permission rather than a wildcard over several.
#[derive(Debug)]
pub struct Rule {
    pub perm: Permission,
    pub conds: PredicateGroup,
    pub role: RoleKey,
    pub exact: bool,
}

/// The contents of a rule.
pub ghost struct RuleView {
    pub perm: Permission,
    pub conds: Seq<Predicate>,
    pub role: RoleKey,
    pub exact: bool,
}

impl View for Rule {
    type V = RuleView;

    open spec fn view(&self) -> RuleView {
        RuleView { perm: self.perm, conds: group_items(self.conds), role: self.role, exact: self.exact }
    }
}

/// The number of dots in the key of `p`.
pub open spec fn depth(p: Permission) -> nat {
    count_char_from(p.key_text(), '.', 0)
}

/// Whether rule `a` is strictly weaker than rule `b`. Strength is compared
/// on, in turn: the number of predicates, exactness (an exact key is
/// stronger than a wildcard), the depth of the permission's key, and the
/// role.
pub open spec fn weaker(a: RuleView, b: RuleView) -> bool {
    ||| a.conds.len() < b.conds.len()
    ||| a.conds.len() == b.conds.len() && !a.exact && b.exact
    ||| a.conds.len() == b.conds.len() && a.exact == b.exact && depth(a.perm) < depth(b.perm)
    ||| a.conds.len() == b.conds.len() && a.exact == b.exact && depth(a.perm) == depth(b.perm)
        && a.role.0 < b.role.0
}

/// Whether rules `a` and `b` are equally strong.
pub open spec fn equally_strong(a: RuleView, b: RuleView) -> bool {
    &&& a.conds.len() == b.conds.len()
    &&& a.exact == b.exact
    &&& depth(a.perm) == depth(b.perm)
    &&& a.role == b.role
}

/// How the strength of `a` compares to that of `b`.
pub open spec fn strength_order(a: RuleView, b: RuleView) -> Ordering {
    if weaker(a, b) {
        Ordering::Less
    } else if equally_strong(a, b) {
        Ordering::Equal
    } else {
        Ordering::Greater
    }
}

/// Strength is a strict weak order: no rule is weaker than itself, and
/// being weaker is transitive.
pub proof fn lemma_weaker_is_strict_order(a: RuleView, b: RuleView, c: RuleView)
    ensures
        !weaker(a, a),
        weaker(a, b) && weaker(b, c) ==> weaker(a, c),
{
}

/// Any two rules compare one way: `a` is weaker than `b`, or as strong as
/// it, or stronger, and comparing them the other way round gives the
/// opposite answer.
pub proof fn lemma_strength_order_flips(a: RuleView, b: RuleView)
    ensures
        weaker(a, b) || equally_strong(a, b) || weaker(b, a),
        strength_order(a, b) == Ordering::Less <==> strength_order(b, a) == Ordering::Greater,
        strength_order(a, b) == Ordering::Equal <==> strength_order(b, a) == Ordering::Equal,
{
}

impl Rule {
    /// How the strength of this rule compares to that of `other`.
    pub fn cmp(&self, other: &Rule) -> (o: Ordering)
        ensures
            o == strength_order(self@, other@),
    {
        let a_len = group_len(&self.conds);
        let b_len = group_len(&other.conds);
        if a_len != b_len {
            return if a_len < b_len {
                Ordering::Less
            } else {
                Ordering::Greater
            };
        }
        if self.exact != other.exact {
            return if other.exact {
                Ordering::Less
            } else {
                Ordering::Greater
            };
        }
        let a_depth = self.perm.path_depth();
        let b_depth = other.perm.path_depth();
        if a_depth != b_depth {
            return if a_depth < b_depth {
                Ordering::Less
            } else {
                Ordering::Greater
            };
        }
        if self.role.0 < other.role.0 {
            Ordering::Less
        } else if self.role.0 == other.role.0 {
            Ordering::Equal
        } else {
            Ordering::Greater
        }
    }
}

impl Clone for Rule {
    /// A rule with the same permission, predicates, role and exactness.
    fn clone(&self) -> (r: Rule)
        ensures
            r@ == self@,
    {
        Rule { perm: self.perm, conds: group_clone(&self.conds), role: self.role, exact: self.exact }
    }
}

impl PartialEq for Rule {
    fn eq(&self, other: &Rule) -> (r: bool) {
        match self.cmp(other) {
            Ordering::Equal => true,
            _ => false,
        }
    }
}

impl vstd::std_specs::cmp::PartialEqSpecImpl for Rule {
    open spec fn obeys_eq_spec() -> bool {
        true
    }

    open spec fn eq_spec(&self, other: &Rule) -> bool {
        equally_strong(self@, other@)
    }
}

impl Eq for Rule {

}

impl PartialOrd for Rule {
    fn partial_cmp(&self, other: &Rule) -> (r: Option<Ordering>) {
        Some(self.cmp(other))
    }
}

impl vstd::std_specs::cmp::PartialOrdSpecImpl for Rule {
    open spec fn obeys_partial_cmp_spec() -> bool {
        true
    }

    open spec fn partial_cmp_spec(&self, other: &Rule) -> Option<Ordering> {
        Some(strength_order(self@, other@))
    }
}

} // verus!
