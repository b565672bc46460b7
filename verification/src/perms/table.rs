//! Building permission tables from configured rule keys, and checking a
//! permission against a table.
use vstd::multiset::Multiset;
use vstd::prelude::*;

use crate::auth::RoleKey;
use crate::perms::context::{ContextData, ResourceContext};
use crate::perms::group::{group_clone, group_get, group_items, group_len, PredicateGroup};
use crate::perms::key::{
    first_invalid, parse_conditions_range, preds_text, rule_conditions,
    split_rule_key, split_rule_key_chars,
};
use crate::perms::permission::{all_permissions, keys_matching, lookup_key, KeyLookupError, Permission, PermissionScope};
use crate::perms::predicate::{Predicate, PredicateError};
use crate::perms::rule::{weaker, Rule, RuleView};
use crate::post::Collection;
use crate::text::chars_of;

verus! {

/// The reasons a rule key is rejected.
#[derive(Clone, Copy, Debug, PartialEq, Eq)]
pub enum RuleKeyError {
    /// The key is not a permission pattern followed by an optional
    /// parenthesised predicate list.
    Malformed,
    /// The permission pattern names no permission.
    Lookup(KeyLookupError),
    /// An expression of the predicate list is rejected.
    InvalidPredicate(PredicateError),
    /// A predicate cannot be used with one of the permissions the key covers.
    NotAllowed { predicate: Predicate, permission: Permission },
}

/// A rejected entry: its position among the entries, and why.
#[derive(Clone, Copy, Debug, PartialEq, Eq)]
pub struct RegisterError {
    pub entry: usize,
    pub kind: RuleKeyError,
}

/// The rule that grants `p` to `role` under `conds`.
pub open spec fn rule_for(p: Permission, conds: Seq<Predicate>, role: RoleKey, exact: bool) -> RuleView {
    RuleView { perm: p, conds, role, exact }
}

/// The rules that a key covering `perms` yields, in order, stopping at the
/// first permission that one of `conds` cannot be used with.
pub open spec fn rules_for(perms: Seq<Permission>, conds: Seq<Predicate>, role: RoleKey, exact: bool) -> (
    Seq<RuleView>,
    Option<RuleKeyError>,
)
    decreases perms.len(),
{
    if perms.len() == 0 {
        (Seq::empty(), None)
    } else {
        let (rs, e) = rules_for(perms.drop_last(), conds, role, exact);
        if e is Some {
            (rs, e)
        } else {
            match first_invalid(conds, perms.last().spec_scope()) {
                Some(c) => (rs, Some(RuleKeyError::NotAllowed { predicate: c, permission: perms.last() })),
                None => (rs.push(rule_for(perms.last(), conds, role, exact)), None),
            }
        }
    }
}

/// The rules that the configured entry `key: role` registers, in order,
/// and the error that stops it, if any. A key that names one permission
/// gives exact rules; a wildcard that covers one permission counts as exact
/// too.
pub open spec fn entry_rules(key: Seq<char>, role: RoleKey, collection: Option<Collection>) -> (
    Seq<RuleView>,
    Option<RuleKeyError>,
) {
    match split_rule_key(key) {
        None => (Seq::empty(), Some(RuleKeyError::Malformed)),
        Some((k, preds)) => match lookup_key(k) {
            Err(e) => (Seq::empty(), Some(RuleKeyError::Lookup(e))),
            Ok(perms) => match rule_conditions(preds, collection) {
                Err(e) => (Seq::empty(), Some(RuleKeyError::InvalidPredicate(e))),
                Ok(conds) => rules_for(perms, conds, role, perms.len() == 1),
            },
        },
    }
}

/// `state` with `r` appended to the list of its permission.
pub open spec fn register_rule(state: Seq<Seq<RuleView>>, r: RuleView) -> Seq<Seq<RuleView>> {
    let i = r.perm.index_spec() as int;
    state.update(i, state[i].push(r))
}

/// `state` with each of `rules` registered in turn.
pub open spec fn register_rules(state: Seq<Seq<RuleView>>, rules: Seq<RuleView>) -> Seq<Seq<RuleView>>
    decreases rules.len(),
{
    if rules.len() == 0 {
        state
    } else {
        register_rule(register_rules(state, rules.drop_last()), rules.last())
    }
}

/// `state` with the entries registered in turn, and the first rejected entry
/// with its error, if any. The rules of the entries before it, and those its
/// own key yielded before the error, stay registered.
pub open spec fn register_entries(
    state: Seq<Seq<RuleView>>,
    entries: Seq<(Seq<char>, RoleKey)>,
    collection: Option<Collection>,
) -> (Seq<Seq<RuleView>>, Option<(int, RuleKeyError)>)
    decreases entries.len(),
{
    if entries.len() == 0 {
        (state, None)
    } else {
        let (s, e) = register_entries(state, entries.drop_last(), collection);
        if e is Some {
            (s, e)
        } else {
            let (rs, ee) = entry_rules(entries.last().0, entries.last().1, collection);
            (
                register_rules(s, rs),
                match ee {
                    Some(k) => Some(((entries.len() - 1) as int, k)),
                    None => None,
                },
            )
        }
    }
}

/// The configured entries as text and role.
pub open spec fn entries_view(entries: Seq<(String, RoleKey)>) -> Seq<(Seq<char>, RoleKey)> {
    entries.map_values(|e: (String, RoleKey)| (e.0@, e.1))
}

/// The contents of a list of rules.
pub open spec fn rules_view(v: Seq<Rule>) -> Seq<RuleView> {
    v.map_values(|r: Rule| r@)
}

/// The contents of a list of rule lists.
pub open spec fn buckets_view(v: Seq<Vec<Rule>>) -> Seq<Seq<RuleView>> {
    Seq::new(v.len(), |i: int| rules_view(v[i]@))
}

/// Whether every predicate of `r` can be used with its permission.
pub open spec fn usable(r: RuleView) -> bool {
    forall|k: int| 0 <= k < r.conds.len() ==> (#[trigger] r.conds[k]).spec_is_valid_in(r.perm.spec_scope())
}

/// Whether `state` has a list for each permission, and each list holds
/// usable rules of its own permission.
pub open spec fn well_formed(state: Seq<Seq<RuleView>>) -> bool {
    &&& state.len() == Permission::COUNT
    &&& forall|i: int, j: int|
        0 <= i < state.len() && 0 <= j < state[i].len() ==> (#[trigger] state[i][j]).perm.index_spec()
            == i && usable(state[i][j])
}

/// Whether no rule of `s` is weaker than a rule after it: strongest first.
pub open spec fn by_strength(s: Seq<RuleView>) -> bool {
    forall|i: int, j: int| 0 <= i < j < s.len() ==> !weaker(#[trigger] s[i], #[trigger] s[j])
}

/// Whether every one of `conds` holds of `ctx`.
pub open spec fn all_hold(conds: Seq<Predicate>, ctx: ContextData) -> bool {
    forall|k: int| 0 <= k < conds.len() ==> (#[trigger] conds[k]).spec_matches(ctx)
}

/// The answer of a rule list for `role` in `ctx`: the first rule whose
/// predicates all hold decides, granting the permission to its role and
/// every higher one; when no rule applies the answer is no.
pub open spec fn decide(rules: Seq<RuleView>, ctx: ContextData, role: RoleKey) -> bool
    decreases rules.len(),
{
    if rules.len() == 0 {
        false
    } else if all_hold(rules[0].conds, ctx) {
        role.0 >= rules[0].role.0
    } else {
        decide(rules.drop_first(), ctx, role)
    }
}

/// The position of the first rule of `rules` whose predicates all hold of
/// `ctx`.
pub open spec fn first_applicable(rules: Seq<RuleView>, ctx: ContextData) -> Option<int>
    decreases rules.len(),
{
    if rules.len() == 0 {
        None
    } else if all_hold(rules[0].conds, ctx) {
        Some(0)
    } else {
        match first_applicable(rules.drop_first(), ctx) {
            Some(j) => Some(j + 1),
            None => None,
        }
    }
}

proof fn lemma_first_applicable(rules: Seq<RuleView>, ctx: ContextData, role: RoleKey)
    ensures
        match first_applicable(rules, ctx) {
            Some(j) => {
                &&& 0 <= j < rules.len()
                &&& all_hold(rules[j].conds, ctx)
                &&& forall|k: int| 0 <= k < j ==> !all_hold((#[trigger] rules[k]).conds, ctx)
                &&& decide(rules, ctx, role) == (role.0 >= rules[j].role.0)
            },
            None => {
                &&& forall|k: int| 0 <= k < rules.len() ==> !all_hold((#[trigger] rules[k]).conds, ctx)
                &&& !decide(rules, ctx, role)
            },
        },
    decreases rules.len(),
{
    if rules.len() > 0 && !all_hold(rules[0].conds, ctx) {
        let tail = rules.drop_first();
        lemma_first_applicable(tail, ctx, role);
        assert forall|k: int| 1 <= k < rules.len() implies rules[k] == #[trigger] tail[k - 1] by {}
        match first_applicable(tail, ctx) {
            Some(j) => {
                assert forall|k: int| 0 <= k < j + 1 implies !all_hold((#[trigger] rules[k]).conds, ctx) by {
                    if k > 0 {
                        assert(rules[k] == tail[k - 1]);
                    }
                }
            },
            None => {
                assert forall|k: int| 0 <= k < rules.len() implies !all_hold((#[trigger] rules[k]).conds, ctx) by {
                    if k > 0 {
                        assert(rules[k] == tail[k - 1]);
                    }
                }
            },
        }
    }
}

/// Whether `rules[j]` applies in `ctx` and no applicable rule of `rules` is
/// stronger.
pub open spec fn strongest_applicable(rules: Seq<RuleView>, ctx: ContextData, j: int) -> bool {
    &&& 0 <= j < rules.len()
    &&& all_hold(rules[j].conds, ctx)
    &&& forall|k: int|
        0 <= k < rules.len() && all_hold((#[trigger] rules[k]).conds, ctx) ==> !weaker(rules[j], rules[k])
}

proof fn lemma_mutually_not_weaker(a: RuleView, b: RuleView)
    requires
        !weaker(a, b),
        !weaker(b, a),
    ensures
        a.role == b.role,
{
}

/// In a list ordered strongest first, the answer is that of a strongest
/// applicable rule: the permission is granted exactly when some applicable
/// rule, weaker than no other applicable rule, grants it to the role. So
/// the answer does not depend on how rules of equal strength are ordered.
pub proof fn lemma_decided_by_strongest_applicable(rules: Seq<RuleView>, ctx: ContextData, role: RoleKey)
    requires
        by_strength(rules),
    ensures
        decide(rules, ctx, role) <==> exists|j: int| #[trigger] strongest_applicable(rules, ctx, j) && role.0 >= rules[j].role.0,
{
    lemma_first_applicable(rules, ctx, role);
    match first_applicable(rules, ctx) {
        Some(j0) => {
            assert(strongest_applicable(rules, ctx, j0));
            if exists|j: int| #[trigger] strongest_applicable(rules, ctx, j) && role.0 >= rules[j].role.0 {
                let j = choose|j: int| #[trigger] strongest_applicable(rules, ctx, j) && role.0 >= rules[j].role.0;
                assert(all_hold(rules[j0].conds, ctx));
                assert(all_hold(rules[j].conds, ctx));
                lemma_mutually_not_weaker(rules[j], rules[j0]);
            }
        },
        None => {
            if exists|j: int| #[trigger] strongest_applicable(rules, ctx, j) && role.0 >= rules[j].role.0 {
                let j = choose|j: int| #[trigger] strongest_applicable(rules, ctx, j) && role.0 >= rules[j].role.0;
                assert(all_hold(rules[j].conds, ctx));
            }
        },
    }
}

/// A permission granted to a role in a context is granted to every role at
/// least as high in that context.
pub proof fn lemma_higher_role_keeps_grant(rules: Seq<RuleView>, ctx: ContextData, role: RoleKey, higher: RoleKey)
    requires
        decide(rules, ctx, role),
        higher.0 >= role.0,
    ensures
        decide(rules, ctx, higher),
    decreases rules.len(),
{
    if rules.len() > 0 && !all_hold(rules[0].conds, ctx) {
        lemma_higher_role_keeps_grant(rules.drop_first(), ctx, role, higher);
    }
}

/// Registering the entries `a` and then, in a second call, the entries `b`
/// is the same as registering `a + b` at once, as long as no entry of `a`
/// is rejected; an entry of `b` rejected in the second call is reported at
/// its position in `a + b` shifted back by the length of `a`.
pub proof fn lemma_register_entries_append(
    state: Seq<Seq<RuleView>>,
    a: Seq<(Seq<char>, RoleKey)>,
    b: Seq<(Seq<char>, RoleKey)>,
    collection: Option<Collection>,
)
    requires
        register_entries(state, a, collection).1 is None,
    ensures
        ({
            let first = register_entries(state, a, collection).0;
            let (s2, e2) = register_entries(first, b, collection);
            register_entries(state, a + b, collection) == (
                s2,
                match e2 {
                    Some((j, k)) => Some((j + a.len(), k)),
                    None => None,
                },
            )
        }),
    decreases b.len(),
{
    if b.len() == 0 {
        assert(a + b =~= a);
    } else {
        assert((a + b).drop_last() =~= a + b.drop_last());
        assert((a + b).last() == b.last());
        lemma_register_entries_append(state, a, b.drop_last(), collection);
    }
}

/// Whether every list of `later` extends the list of `earlier` at the
/// same position: registering only appends.
pub open spec fn extends(earlier: Seq<Seq<RuleView>>, later: Seq<Seq<RuleView>>) -> bool {
    &&& later.len() == earlier.len()
    &&& forall|i: int|
        0 <= i < earlier.len() ==> (#[trigger] later[i]).len() >= earlier[i].len() && later[i].subrange(
            0,
            earlier[i].len() as int,
        ) == earlier[i]
}

proof fn lemma_extends_trans(a: Seq<Seq<RuleView>>, b: Seq<Seq<RuleView>>, c: Seq<Seq<RuleView>>)
    requires
        extends(a, b),
        extends(b, c),
    ensures
        extends(a, c),
{
    assert forall|i: int| 0 <= i < a.len() implies (#[trigger] c[i]).len() >= a[i].len() && c[i].subrange(
        0,
        a[i].len() as int,
    ) == a[i] by {
        assert(c[i].subrange(0, a[i].len() as int) =~= c[i].subrange(0, b[i].len() as int).subrange(
            0,
            a[i].len() as int,
        ));
    }
}

proof fn lemma_register_rules_extends(state: Seq<Seq<RuleView>>, rules: Seq<RuleView>)
    requires
        state.len() == Permission::COUNT,
    ensures
        extends(state, register_rules(state, rules)),
    decreases rules.len(),
{
    if rules.len() == 0 {
        assert forall|i: int| 0 <= i < state.len() implies (#[trigger] state[i]).subrange(0, state[i].len() as int)
            == state[i] by {
            assert(state[i].subrange(0, state[i].len() as int) =~= state[i]);
        }
    } else {
        let front = rules.drop_last();
        lemma_register_rules_extends(state, front);
        let s = register_rules(state, front);
        let r = rules.last();
        let j = r.perm.index_spec() as int;
        let s2 = register_rule(s, r);
        assert(0 <= j < Permission::COUNT);
        assert forall|i: int| 0 <= i < s.len() implies (#[trigger] s2[i]).len() >= s[i].len() && s2[i].subrange(
            0,
            s[i].len() as int,
        ) == s[i] by {
            assert(s2[i].subrange(0, s[i].len() as int) =~= s[i]);
        }
        lemma_extends_trans(state, s, s2);
    }
}

/// Registering entries only appends: whatever the outcome, every list of
/// the state before extends to the list after, including when an entry is
/// rejected (the rules registered before the rejection stay).
pub proof fn lemma_register_entries_extends(
    state: Seq<Seq<RuleView>>,
    entries: Seq<(Seq<char>, RoleKey)>,
    collection: Option<Collection>,
)
    requires
        state.len() == Permission::COUNT,
    ensures
        extends(state, register_entries(state, entries, collection).0),
    decreases entries.len(),
{
    if entries.len() == 0 {
        lemma_register_rules_extends(state, Seq::empty());
    } else {
        let front = entries.drop_last();
        lemma_register_entries_extends(state, front, collection);
        let (s, e) = register_entries(state, front, collection);
        if e is None {
            let (rs, ee) = entry_rules(entries.last().0, entries.last().1, collection);
            lemma_register_rules_extends(s, rs);
            lemma_extends_trans(state, s, register_rules(s, rs));
        }
    }
}

/// Whether the configured entry `key` is accepted, registered for
/// `collection`: it is a permission pattern followed by an optional
/// predicate list (the grammar `split_rule_key` reads), the pattern names
/// at least one permission, every expression of the list parses, and every
/// predicate (with the condition on `collection`, if any) can be used with
/// every permission the key covers.
pub open spec fn entry_accepted(key: Seq<char>, collection: Option<Collection>) -> bool {
    match split_rule_key(key) {
        None => false,
        Some((k, preds)) => match lookup_key(k) {
            Err(_) => false,
            Ok(perms) => match rule_conditions(preds, collection) {
                Err(_) => false,
                Ok(conds) => forall|j: int, m: int|
                    0 <= j < perms.len() && 0 <= m < conds.len() ==> (#[trigger] conds[m]).spec_is_valid_in(
                        (#[trigger] perms[j]).spec_scope(),
                    ),
            },
        },
    }
}

/// The rules granting each of `perms` to `role` under `conds`, in order.
pub open spec fn rules_of(perms: Seq<Permission>, conds: Seq<Predicate>, role: RoleKey, exact: bool) -> Seq<RuleView> {
    perms.map_values(|q: Permission| rule_for(q, conds, role, exact))
}

proof fn lemma_rules_for_ok(perms: Seq<Permission>, conds: Seq<Predicate>, role: RoleKey, exact: bool)
    ensures
        rules_for(perms, conds, role, exact).1 is None <==> forall|j: int|
            0 <= j < perms.len() ==> first_invalid(conds, (#[trigger] perms[j]).spec_scope()) is None,
        rules_for(perms, conds, role, exact).1 is None ==> rules_for(perms, conds, role, exact).0 == rules_of(
            perms,
            conds,
            role,
            exact,
        ),
    decreases perms.len(),
{
    if perms.len() > 0 {
        let front = perms.drop_last();
        lemma_rules_for_ok(front, conds, role, exact);
        assert forall|j: int| 0 <= j < front.len() implies #[trigger] front[j] == perms[j] by {}
        assert(perms[perms.len() - 1] == perms.last());
        if forall|j: int| 0 <= j < perms.len() ==> first_invalid(conds, (#[trigger] perms[j]).spec_scope()) is None {
            assert forall|j: int| 0 <= j < front.len() implies first_invalid(
                conds,
                (#[trigger] front[j]).spec_scope(),
            ) is None by {
                assert(front[j] == perms[j]);
            }
            assert(first_invalid(conds, perms[perms.len() - 1].spec_scope()) is None);
        }
        if rules_for(perms, conds, role, exact).1 is None {
            assert forall|j: int| 0 <= j < perms.len() implies first_invalid(
                conds,
                (#[trigger] perms[j]).spec_scope(),
            ) is None by {
                if j < front.len() {
                    assert(front[j] == perms[j]);
                }
            }
            assert(rules_of(perms, conds, role, exact) =~= rules_of(front, conds, role, exact).push(
                rule_for(perms.last(), conds, role, exact),
            ));
        }
    }
}

proof fn lemma_entry_rules_ok(key: Seq<char>, role: RoleKey, collection: Option<Collection>)
    ensures
        entry_rules(key, role, collection).1 is None <==> entry_accepted(key, collection),
{
    match split_rule_key(key) {
        Some((k, preds)) => match lookup_key(k) {
            Ok(perms) => match rule_conditions(preds, collection) {
                Ok(conds) => {
                    lemma_rules_for_ok(perms, conds, role, perms.len() == 1);
                    assert forall|j: int| 0 <= j < perms.len() implies (first_invalid(
                        conds,
                        (#[trigger] perms[j]).spec_scope(),
                    ) is None <==> forall|m: int|
                        0 <= m < conds.len() ==> (#[trigger] conds[m]).spec_is_valid_in(perms[j].spec_scope())) by {
                        lemma_first_invalid_none(conds, perms[j].spec_scope());
                    }
                },
                Err(_) => {},
            },
            Err(_) => {},
        },
        None => {},
    }
}

/// Registering entries rejects none of them exactly when every entry is
/// accepted: its key fits the grammar, names at least one permission, and
/// its predicates parse and can be used with every permission it covers.
pub proof fn lemma_register_entries_succeeds_iff(
    state: Seq<Seq<RuleView>>,
    entries: Seq<(Seq<char>, RoleKey)>,
    collection: Option<Collection>,
)
    ensures
        register_entries(state, entries, collection).1 is None <==> forall|k: int|
            0 <= k < entries.len() ==> entry_accepted((#[trigger] entries[k]).0, collection),
    decreases entries.len(),
{
    if entries.len() > 0 {
        let front = entries.drop_last();
        lemma_register_entries_succeeds_iff(state, front, collection);
        lemma_entry_rules_ok(entries.last().0, entries.last().1, collection);
        assert forall|k: int| 0 <= k < front.len() implies #[trigger] front[k] == entries[k] by {}
        assert(entries[entries.len() - 1] == entries.last());
        if forall|k: int| 0 <= k < entries.len() ==> entry_accepted((#[trigger] entries[k]).0, collection) {
            assert forall|k: int| 0 <= k < front.len() implies entry_accepted((#[trigger] front[k]).0, collection) by {
                assert(front[k] == entries[k]);
            }
            assert(entry_accepted(entries[entries.len() - 1].0, collection));
        }
        if register_entries(state, entries, collection).1 is None {
            assert forall|k: int| 0 <= k < entries.len() implies entry_accepted((#[trigger] entries[k]).0, collection) by {
                if k < front.len() {
                    assert(front[k] == entries[k]);
                }
            }
        }
    }
}

/// Whether a rule belongs to the list at position `i`.
pub open spec fn in_slot(i: int) -> spec_fn(RuleView) -> bool {
    |r: RuleView| r.perm.index_spec() == i
}

proof fn lemma_register_rules_slot(state: Seq<Seq<RuleView>>, rules: Seq<RuleView>, i: int)
    requires
        state.len() == Permission::COUNT,
        0 <= i < Permission::COUNT,
    ensures
        register_rules(state, rules).len() == Permission::COUNT,
        register_rules(state, rules)[i] == state[i] + rules.filter(in_slot(i)),
    decreases rules.len(),
{
    if rules.len() == 0 {
        assert(rules.filter(in_slot(i)) =~= Seq::<RuleView>::empty()) by {
            reveal(Seq::filter);
        }
        assert(state[i] + Seq::<RuleView>::empty() =~= state[i]);
    } else {
        let front = rules.drop_last();
        let x = rules.last();
        lemma_register_rules_slot(state, front, i);
        assert(rules =~= front.push(x));
        front.lemma_filter_push(x, in_slot(i));
        let s = register_rules(state, front);
        if x.perm.index_spec() == i {
            assert((state[i] + front.filter(in_slot(i))).push(x) =~= state[i] + front.filter(in_slot(i)).push(x));
        }
    }
}

/// Whether the permissions of `s` come in strictly increasing declaration
/// order.
pub open spec fn index_increasing(s: Seq<Permission>) -> bool {
    forall|a: int, b: int| 0 <= a < b < s.len() ==> (#[trigger] s[a]).index_spec() < (#[trigger] s[b]).index_spec()
}

proof fn lemma_all_permissions_increasing()
    ensures
        index_increasing(all_permissions()),
        forall|k: int| 0 <= k < Permission::COUNT ==> (#[trigger] all_permissions()[k]).index_spec() == k,
{
    let s = all_permissions();
    assert(s[0].index_spec() == 0);
    assert(s[1].index_spec() == 1);
    assert(s[2].index_spec() == 2);
    assert(s[3].index_spec() == 3);
    assert(s[4].index_spec() == 4);
    assert(s[5].index_spec() == 5);
    assert(s[6].index_spec() == 6);
    assert(s[7].index_spec() == 7);
    assert(s[8].index_spec() == 8);
    assert(s[9].index_spec() == 9);
    assert(s[10].index_spec() == 10);
    assert(s[11].index_spec() == 11);
    assert(s[12].index_spec() == 12);
}

proof fn lemma_filter_increasing(s: Seq<Permission>, pred: spec_fn(Permission) -> bool)
    requires
        index_increasing(s),
    ensures
        index_increasing(s.filter(pred)),
    decreases s.len(),
{
    if s.len() > 0 {
        let front = s.drop_last();
        let x = s.last();
        assert(s =~= front.push(x));
        assert forall|a: int, b: int| 0 <= a < b < front.len() implies (#[trigger] front[a]).index_spec() < (
        #[trigger] front[b]).index_spec() by {
            assert(front[a] == s[a] && front[b] == s[b]);
        }
        lemma_filter_increasing(front, pred);
        front.lemma_filter_push(x, pred);
        if pred(x) {
            let f = front.filter(pred);
            assert forall|a: int| 0 <= a < f.len() implies (#[trigger] f[a]).index_spec() < x.index_spec() by {
                assert(f.contains(f[a]));
                front.lemma_filter_contains_rev(pred, f[a]);
                let c = choose|c: int| 0 <= c < front.len() && front[c] == f[a];
                assert(s[c] == front[c]);
                assert(s[s.len() - 1] == x);
            }
            let g = f.push(x);
            assert forall|a: int, b: int| 0 <= a < b < g.len() implies (#[trigger] g[a]).index_spec() < (
            #[trigger] g[b]).index_spec() by {
                if b == g.len() - 1 {
                    assert(g[a] == f[a]);
                } else {
                    assert(g[a] == f[a] && g[b] == f[b]);
                }
            }
        }
    }
}

proof fn lemma_index_injective(a: Permission, b: Permission)
    requires
        a.index_spec() == b.index_spec(),
    ensures
        a == b,
{
    match a {
        Permission::PostView => {},
        Permission::PostEditTag => {},
        Permission::PostDelete => {},
        Permission::PostMoveOut => {},
        Permission::PostMoveIn => {},
        Permission::UserInvite => {},
        Permission::UserEditRole => {},
        Permission::UserModMute => {},
        Permission::UserModBan => {},
        Permission::TagEditName => {},
        Permission::TagImplicationCreate => {},
        Permission::TagImplicationEdit => {},
        Permission::TagImplicationDelete => {},
    }
}

proof fn lemma_rules_of_slot(perms: Seq<Permission>, conds: Seq<Predicate>, role: RoleKey, exact: bool, p: Permission)
    requires
        index_increasing(perms),
    ensures
        rules_of(perms, conds, role, exact).filter(in_slot(p.index_spec() as int)) == (if perms.contains(p) {
            seq![rule_for(p, conds, role, exact)]
        } else {
            Seq::<RuleView>::empty()
        }),
    decreases perms.len(),
{
    let i = p.index_spec() as int;
    if perms.len() == 0 {
        assert(rules_of(perms, conds, role, exact) =~= Seq::<RuleView>::empty());
        assert(Seq::<RuleView>::empty().filter(in_slot(i)) =~= Seq::<RuleView>::empty()) by {
            reveal(Seq::filter);
        }
    } else {
        let front = perms.drop_last();
        let x = perms.last();
        assert(perms =~= front.push(x));
        assert forall|a: int, b: int| 0 <= a < b < front.len() implies (#[trigger] front[a]).index_spec() < (
        #[trigger] front[b]).index_spec() by {
            assert(front[a] == perms[a] && front[b] == perms[b]);
        }
        lemma_rules_of_slot(front, conds, role, exact, p);
        let r = rule_for(x, conds, role, exact);
        assert(rules_of(perms, conds, role, exact) =~= rules_of(front, conds, role, exact).push(r));
        rules_of(front, conds, role, exact).lemma_filter_push(r, in_slot(i));
        if x == p {
            if front.contains(p) {
                let c = choose|c: int| 0 <= c < front.len() && front[c] == p;
                assert(perms[c] == front[c]);
                assert(perms[perms.len() - 1] == x);
            }
            assert(perms[perms.len() - 1] == x);
            assert(Seq::<RuleView>::empty().push(r) =~= seq![r]);
        } else {
            if x.index_spec() == i {
                lemma_index_injective(x, p);
            }
            if front.contains(p) {
                let c = choose|c: int| 0 <= c < front.len() && front[c] == p;
                assert(perms[c] == p);
            }
            if perms.contains(p) {
                let c = choose|c: int| 0 <= c < perms.len() && perms[c] == p;
                assert(c < front.len());
                assert(front[c] == p);
            }
        }
    }
}

/// The rules that the configured entry `key: role`, registered for
/// `collection`, adds to the list of `p`: when the entry is accepted and its
/// key covers `p`, the one rule granting `p` to `role` under the entry's
/// predicates, exact when the key covers one permission; nothing otherwise.
pub open spec fn entry_rule_for(key: Seq<char>, role: RoleKey, collection: Option<Collection>, p: Permission) -> Seq<RuleView> {
    match split_rule_key(key) {
        Some((k, preds)) => match lookup_key(k) {
            Ok(perms) => match rule_conditions(preds, collection) {
                Ok(conds) => if entry_accepted(key, collection) && perms.contains(p) {
                    seq![rule_for(p, conds, role, perms.len() == 1)]
                } else {
                    Seq::empty()
                },
                Err(_) => Seq::empty(),
            },
            Err(_) => Seq::empty(),
        },
        None => Seq::empty(),
    }
}

/// The rules the entries add to the list of `p`, in the order of the
/// entries: one for each entry whose key covers `p`.
pub open spec fn slot_additions(entries: Seq<(Seq<char>, RoleKey)>, collection: Option<Collection>, p: Permission) -> Seq<RuleView>
    decreases entries.len(),
{
    if entries.len() == 0 {
        Seq::empty()
    } else {
        slot_additions(entries.drop_last(), collection, p) + entry_rule_for(
            entries.last().0,
            entries.last().1,
            collection,
            p,
        )
    }
}

proof fn lemma_keys_matching_increasing(v: Seq<char>)
    ensures
        index_increasing(keys_matching(v)),
{
    lemma_all_permissions_increasing();
    assert forall|pred: spec_fn(Permission) -> bool| #[trigger] index_increasing(all_permissions().filter(pred)) by {
        lemma_filter_increasing(all_permissions(), pred);
    }
}

proof fn lemma_entry_slot(key: Seq<char>, role: RoleKey, collection: Option<Collection>, p: Permission)
    requires
        entry_accepted(key, collection),
    ensures
        entry_rules(key, role, collection).0.filter(in_slot(p.index_spec() as int)) == entry_rule_for(
            key,
            role,
            collection,
            p,
        ),
{
    lemma_entry_rules_ok(key, role, collection);
    match split_rule_key(key) {
        Some((k, preds)) => match lookup_key(k) {
            Ok(perms) => match rule_conditions(preds, collection) {
                Ok(conds) => {
                    lemma_rules_for_ok(perms, conds, role, perms.len() == 1);
                    lemma_keys_matching_increasing(k);
                    lemma_rules_of_slot(perms, conds, role, perms.len() == 1, p);
                },
                Err(_) => {},
            },
            Err(_) => {},
        },
        None => {},
    }
}

/// When no entry is rejected, the list of each permission `p` after
/// registration is the list before, followed by one rule for each entry
/// whose key covers `p`, in the order of the entries: the rule grants `p` to
/// the entry's role under its predicates (and the condition on
/// `collection`, if any), and is exact when the key covers one permission.
pub proof fn lemma_register_entries_slots(
    state: Seq<Seq<RuleView>>,
    entries: Seq<(Seq<char>, RoleKey)>,
    collection: Option<Collection>,
    p: Permission,
)
    requires
        state.len() == Permission::COUNT,
        register_entries(state, entries, collection).1 is None,
    ensures
        register_entries(state, entries, collection).0[p.index_spec() as int] == state[p.index_spec() as int]
            + slot_additions(entries, collection, p),
    decreases entries.len(),
{
    let i = p.index_spec() as int;
    if entries.len() == 0 {
        assert(state[i] + Seq::<RuleView>::empty() =~= state[i]);
    } else {
        let front = entries.drop_last();
        let last = entries.last();
        lemma_register_entries_slots(state, front, collection, p);
        lemma_register_entries_extends(state, front, collection);
        let s = register_entries(state, front, collection).0;
        let (rs, ee) = entry_rules(last.0, last.1, collection);
        lemma_register_rules_slot(s, rs, i);
        lemma_entry_rules_ok(last.0, last.1, collection);
        lemma_entry_slot(last.0, last.1, collection, p);
        assert(state[i] + slot_additions(front, collection, p) + entry_rule_for(last.0, last.1, collection, p)
            =~= state[i] + slot_additions(entries, collection, p));
    }
}

/// Collects the rules of the configured permissions, one list per
/// permission, before they are ordered into a table.
pub struct PermissionTableBuilder(Vec<Vec<Rule>>);

/// The rules of each permission, strongest first; `check` answers from it.
pub struct PermissionTable(Vec<Vec<Rule>>);

impl PermissionTable {
    /// A list of usable rules for each permission, each list strongest
    /// first.
    #[verifier::type_invariant]
    spec fn inv(self) -> bool {
        &&& self.0@.len() == Permission::COUNT
        &&& well_formed(buckets_view(self.0@))
        &&& forall|i: int| 0 <= i < self.0@.len() ==> by_strength(#[trigger] buckets_view(self.0@)[i])
    }
}

impl View for PermissionTableBuilder {
    type V = Seq<Seq<RuleView>>;

    closed spec fn view(&self) -> Seq<Seq<RuleView>> {
        buckets_view(self.0@)
    }
}

impl View for PermissionTable {
    type V = Seq<Seq<RuleView>>;

    closed spec fn view(&self) -> Seq<Seq<RuleView>> {
        buckets_view(self.0@)
    }
}

/// An empty list for each permission.
pub open spec fn empty_state() -> Seq<Seq<RuleView>> {
    Seq::new(Permission::COUNT as nat, |i: int| Seq::<RuleView>::empty())
}

proof fn lemma_first_invalid_none(conds: Seq<Predicate>, scope: PermissionScope)
    ensures
        first_invalid(conds, scope) is None <==> forall|k: int| 0 <= k < conds.len() ==> (
        #[trigger] conds[k]).spec_is_valid_in(scope),
    decreases conds.len(),
{
    if conds.len() > 0 {
        lemma_first_invalid_none(conds.drop_last(), scope);
        assert forall|k: int| 0 <= k < conds.len() - 1 implies #[trigger] conds.drop_last()[k] == conds[k] by {}
        if first_invalid(conds, scope) is None {
            assert forall|k: int| 0 <= k < conds.len() implies (#[trigger] conds[k]).spec_is_valid_in(scope) by {
                if k < conds.len() - 1 {
                    assert(conds.drop_last()[k] == conds[k]);
                }
            }
        }
        if forall|k: int| 0 <= k < conds.len() ==> (#[trigger] conds[k]).spec_is_valid_in(scope) {
            assert(conds[conds.len() - 1] == conds.last());
            assert forall|k: int| 0 <= k < conds.drop_last().len() implies (
            #[trigger] conds.drop_last()[k]).spec_is_valid_in(scope) by {
                assert(conds[k].spec_is_valid_in(scope));
            }
        }
    }
}

proof fn lemma_first_invalid_sticks(conds: Seq<Predicate>, scope: PermissionScope, k: int)
    requires
        0 <= k <= conds.len(),
        first_invalid(conds.take(k), scope) is Some,
    ensures
        first_invalid(conds, scope) == first_invalid(conds.take(k), scope),
    decreases conds.len() - k,
{
    if k < conds.len() {
        assert(conds.take(k + 1).drop_last() =~= conds.take(k));
        lemma_first_invalid_sticks(conds, scope, k + 1);
    } else {
        assert(conds.take(k) =~= conds);
    }
}

proof fn lemma_rules_for_sticks(perms: Seq<Permission>, conds: Seq<Predicate>, role: RoleKey, exact: bool, k: int)
    requires
        0 <= k <= perms.len(),
        rules_for(perms.take(k), conds, role, exact).1 is Some,
    ensures
        rules_for(perms, conds, role, exact) == rules_for(perms.take(k), conds, role, exact),
    decreases perms.len() - k,
{
    if k < perms.len() {
        assert(perms.take(k + 1).drop_last() =~= perms.take(k));
        lemma_rules_for_sticks(perms, conds, role, exact, k + 1);
    } else {
        assert(perms.take(k) =~= perms);
    }
}

proof fn lemma_register_entries_sticks(
    state: Seq<Seq<RuleView>>,
    entries: Seq<(Seq<char>, RoleKey)>,
    collection: Option<Collection>,
    k: int,
)
    requires
        0 <= k <= entries.len(),
        register_entries(state, entries.take(k), collection).1 is Some,
    ensures
        register_entries(state, entries, collection) == register_entries(state, entries.take(k), collection),
    decreases entries.len() - k,
{
    if k < entries.len() {
        assert(entries.take(k + 1).drop_last() =~= entries.take(k));
        lemma_register_entries_sticks(state, entries, collection, k + 1);
    } else {
        assert(entries.take(k) =~= entries);
    }
}

/// The first predicate of `g` that cannot be used with permissions of
/// `scope`.
fn first_invalid_in(g: &PredicateGroup, scope: PermissionScope) -> (r: Option<Predicate>)
    ensures
        r == first_invalid(group_items(*g), scope),
{
    let ghost items = group_items(*g);
    let n = group_len(g);
    let mut k: usize = 0;
    while k < n
        invariant
            items == group_items(*g),
            n == items.len(),
            k <= n,
            first_invalid(items.take(k as int), scope) is None,
        decreases n - k,
    {
        let c = group_get(g, k);
        assert(items.take(k + 1).drop_last() =~= items.take(k as int));
        if !c.is_valid_in(scope) {
            proof {
                lemma_first_invalid_sticks(items, scope, k + 1);
            }
            return Some(c);
        }
        k = k + 1;
    }
    assert(items.take(n as int) =~= items);
    None
}

/// Whether every predicate of `g` holds of `ctx`.
fn all_match(g: &PredicateGroup, ctx: &ContextData) -> (r: bool)
    requires
        forall|k: int|
            0 <= k < group_items(*g).len() ==> (#[trigger] group_items(*g)[k]).spec_is_valid_in(
                ctx.scope(),
            ),
    ensures
        r == all_hold(group_items(*g), *ctx),
{
    let n = group_len(g);
    let mut k: usize = 0;
    while k < n
        invariant
            n == group_items(*g).len(),
            k <= n,
            forall|j: int|
                0 <= j < group_items(*g).len() ==> (#[trigger] group_items(*g)[j]).spec_is_valid_in(
                    ctx.scope(),
                ),
            forall|j: int| 0 <= j < k ==> (#[trigger] group_items(*g)[j]).spec_matches(*ctx),
        decreases n - k,
    {
        let c = group_get(g, k);
        if !c.matches(ctx) {
            return false;
        }
        k = k + 1;
    }
    true
}

impl PermissionTableBuilder {
    /// Whether the builder holds a list for each permission, of usable rules
    /// of that permission.
    pub open spec fn wf(&self) -> bool {
        well_formed(self@)
    }

    /// A builder with no rules.
    pub fn new() -> (b: Self)
        ensures
            b.wf(),
            b@ == empty_state(),
    {
        let mut v: Vec<Vec<Rule>> = Vec::new();
        let mut i: usize = 0;
        while i < Permission::COUNT
            invariant
                i <= Permission::COUNT,
                v@.len() == i,
                forall|j: int| 0 <= j < i ==> (#[trigger] v@[j])@.len() == 0,
            decreases Permission::COUNT - i,
        {
            v.push(Vec::new());
            i = i + 1;
        }
        let b = PermissionTableBuilder(v);
        assert forall|j: int| 0 <= j < Permission::COUNT implies b@[j] =~= Seq::<RuleView>::empty() by {
            assert(v@[j]@.len() == 0);
        }
        assert(b@ =~= empty_state());
        b
    }

    /// Append `rule` to the list of its permission. Every predicate of the
    /// rule must be usable with its permission.
    pub fn register(&mut self, rule: Rule)
        requires
            old(self).wf(),
            usable(rule@),
        ensures
            final(self).wf(),
            final(self)@ == register_rule(old(self)@, rule@),
    {
        let ghost r = rule@;
        let i = rule.perm.as_usize();
        let ghost before = self.0@;
        self.0[i].push(rule);
        proof {
            assert(rules_view(self.0@[i as int]@) =~= rules_view(before[i as int]@).push(r));
            assert(self@ =~= register_rule(buckets_view(before), r));
        }
    }

    /// Register the rules that one configured entry yields; on an error the
    /// rules it yielded before the error stay registered.
    fn register_entry(&mut self, key: &String, role: RoleKey, collection: Option<Collection>) -> (r: Result<(), RuleKeyError>)
        requires
            old(self).wf(),
        ensures
            final(self).wf(),
            final(self)@ == register_rules(old(self)@, entry_rules(key@, role, collection).0),
            r is Ok ==> entry_rules(key@, role, collection).1 is None,
            r matches Err(e) ==> entry_rules(key@, role, collection).1 == Some(e),
    {
        let s = chars_of(key.as_str());
        let (k, preds) = match split_rule_key_chars(s.as_slice()) {
            Some(parts) => parts,
            None => {
                return Err(RuleKeyError::Malformed);
            },
        };
        let perms = match Permission::from_key_chars(s.as_slice(), 0, k) {
            Ok(p) => p,
            Err(e) => {
                return Err(RuleKeyError::Lookup(e));
            },
        };
        let conds = match parse_conditions_range(s.as_slice(), preds, collection) {
            Ok(c) => c,
            Err(e) => {
                return Err(RuleKeyError::InvalidPredicate(e));
            },
        };
        assert(preds_text(s@, preds) == split_rule_key(key@).unwrap().1);
        let exact = perms.len() == 1;
        let ghost cs = group_items(conds);
        let ghost start = self@;
        assert(entry_rules(key@, role, collection) == rules_for(perms@, cs, role, exact));
        let ghost mut done: Seq<RuleView> = Seq::empty();
        let mut j: usize = 0;
        while j < perms.len()
            invariant
                self.wf(),
                cs == group_items(conds),
                exact == (perms@.len() == 1),
                j <= perms@.len(),
                self@ == register_rules(start, done),
                start == old(self)@,
                entry_rules(key@, role, collection) == rules_for(perms@, cs, role, exact),
                rules_for(perms@.take(j as int), cs, role, exact) == (done, None::<RuleKeyError>),
            decreases perms@.len() - j,
        {
            let p = perms[j];
            assert(perms@.take(j + 1).drop_last() =~= perms@.take(j as int));
            match first_invalid_in(&conds, p.scope()) {
                Some(c) => {
                    proof {
                        lemma_rules_for_sticks(perms@, cs, role, exact, j + 1);
                    }
                    return Err(RuleKeyError::NotAllowed { predicate: c, permission: p });
                },
                None => {},
            }
            proof {
                lemma_first_invalid_none(cs, p.spec_scope());
            }
            let rule = Rule { perm: p, conds: group_clone(&conds), role, exact };
            self.register(rule);
            proof {
                let r = rule_for(p, cs, role, exact);
                assert(done.push(r).drop_last() =~= done);
                done = done.push(r);
            }
            j = j + 1;
        }
        assert(perms@.take(perms@.len() as int) =~= perms@);
        Ok(())
    }

    /// Parse each configured `(key, role)` entry and register the rules it
    /// yields, in order; stop at the first entry that is rejected, whose
    /// position is reported with the reason. The rules registered before
    /// the error stay in the builder. When `collection` is given, each rule
    /// also requires the post to be in that collection.
    pub fn parse_and_register(&mut self, perms: &Vec<(String, RoleKey)>, collection: Option<Collection>) -> (r: Result<(), RegisterError>)
        requires
            old(self).wf(),
        ensures
            final(self).wf(),
            final(self)@ == register_entries(old(self)@, entries_view(perms@), collection).0,
            r is Ok ==> register_entries(old(self)@, entries_view(perms@), collection).1 is None,
            r matches Err(e) ==> register_entries(old(self)@, entries_view(perms@), collection).1
                == Some((e.entry as int, e.kind)),
            r is Ok <==> forall|k: int|
                0 <= k < perms@.len() ==> entry_accepted((#[trigger] perms@[k]).0@, collection),
            r is Ok ==> forall|p: Permission|
                #[trigger] final(self)@[p.index_spec() as int] == old(self)@[p.index_spec() as int]
                    + slot_additions(entries_view(perms@), collection, p),
    {
        let ghost ev = entries_view(perms@);
        let ghost start = self@;
        proof {
            lemma_register_entries_succeeds_iff(start, ev, collection);
            assert forall|k: int| 0 <= k < perms@.len() implies #[trigger] ev[k] == (perms@[k].0@, perms@[k].1) by {}
            if forall|k: int| 0 <= k < perms@.len() ==> entry_accepted((#[trigger] perms@[k]).0@, collection) {
                assert forall|k: int| 0 <= k < ev.len() implies entry_accepted((#[trigger] ev[k]).0, collection) by {
                    assert(ev[k].0 == perms@[k].0@);
                }
            }
            if register_entries(start, ev, collection).1 is None {
                assert forall|k: int| 0 <= k < perms@.len() implies entry_accepted((#[trigger] perms@[k]).0@, collection) by {
                    assert(ev[k].0 == perms@[k].0@);
                }
            }
        }
        let mut i: usize = 0;
        while i < perms.len()
            invariant
                self.wf(),
                ev == entries_view(perms@),
                register_entries(start, ev, collection).1 is None <==> forall|k: int|
                    0 <= k < perms@.len() ==> entry_accepted((#[trigger] perms@[k]).0@, collection),
                i <= perms@.len(),
                start == old(self)@,
                register_entries(start, ev.take(i as int), collection) == (
                    self@,
                    None::<(int, RuleKeyError)>,
                ),
            decreases perms@.len() - i,
        {
            let (key, role) = (&perms[i].0, perms[i].1);
            proof {
                assert(ev.take(i + 1).drop_last() =~= ev.take(i as int));
                assert(ev.take(i + 1).last() == (key@, role));
                assert(ev.take(i + 1).len() - 1 == i);
            }
            match self.register_entry(key, role, collection) {
                Ok(()) => {},
                Err(kind) => {
                    proof {
                        assert(register_entries(start, ev.take(i + 1), collection) == (
                            self@,
                            Some((i as int, kind)),
                        ));
                        lemma_register_entries_sticks(start, ev, collection, i + 1);
                    }
                    return Err(RegisterError { entry: i, kind });
                },
            }
            i = i + 1;
        }
        assert(ev.take(perms@.len() as int) =~= ev);
        proof {
            assert forall|p: Permission| #[trigger] self@[p.index_spec() as int] == start[p.index_spec() as int]
                + slot_additions(ev, collection, p) by {
                lemma_register_entries_slots(start, ev, collection, p);
            }
        }
        Ok(())
    }
}

/// Inserting `x` anywhere adds one `x` to the multiset of a sequence.
proof fn lemma_insert_to_multiset<A>(s: Seq<A>, j: int, x: A)
    requires
        0 <= j <= s.len(),
    ensures
        s.insert(j, x).to_multiset() =~= s.to_multiset().insert(x),
{
    broadcast use vstd::seq_lib::group_to_multiset_ensures;
    broadcast use vstd::multiset::group_multiset_axioms;

    let t = s.insert(j, x);
    assert(t.remove(j) =~= s);
    assert(t[j] == x);
    assert(t.contains(x));
    assert(s.to_multiset() =~= t.to_multiset().remove(x));
}

/// Sequences with equal multisets hold the same elements.
proof fn lemma_same_multiset_contains<A>(a: Seq<A>, b: Seq<A>, x: A)
    requires
        a.to_multiset() == b.to_multiset(),
        a.contains(x),
    ensures
        b.contains(x),
{
    broadcast use vstd::seq_lib::group_to_multiset_ensures;

    assert(a.to_multiset().count(x) > 0);
    assert(b.to_multiset().count(x) > 0);
}

/// Whether rule `a` is strictly weaker than rule `b`.
fn is_weaker(a: &Rule, b: &Rule) -> (r: bool)
    ensures
        r == weaker(a@, b@),
{
    match a.cmp(b) {
        std::cmp::Ordering::Less => true,
        _ => false,
    }
}

/// The rules of `v`, strongest first: an insertion sort by strength. Rules
/// of equal strength may come in any order.
fn sort_by_strength(v: Vec<Rule>) -> (r: Vec<Rule>)
    ensures
        rules_view(r@).to_multiset() == rules_view(v@).to_multiset(),
        by_strength(rules_view(r@)),
{
    broadcast use vstd::seq_lib::group_to_multiset_ensures;
    broadcast use vstd::multiset::group_multiset_axioms;

    let ghost orig = rules_view(v@);
    let mut rest = v;
    let mut out: Vec<Rule> = Vec::new();
    assert(rules_view(out@) =~= Seq::<RuleView>::empty());
    assert(rules_view(out@).to_multiset() =~= Multiset::<RuleView>::empty());
    while rest.len() > 0
        invariant
            rules_view(out@).to_multiset().add(rules_view(rest@).to_multiset()) == orig.to_multiset(),
            by_strength(rules_view(out@)),
        decreases rest@.len(),
    {
        let ghost rest_before = rules_view(rest@);
        let ghost out_before = rules_view(out@);
        let x = rest.pop().unwrap();
        let ghost xv = x@;
        assert(rest_before =~= rules_view(rest@).push(xv));
        let mut j: usize = 0;
        while j < out.len() && !is_weaker(&out[j], &x)
            invariant
                j <= out@.len(),
                out_before == rules_view(out@),
                xv == x@,
                forall|k: int| 0 <= k < j ==> !weaker(#[trigger] out_before[k], xv),
            decreases out@.len() - j,
        {
            j = j + 1;
        }
        let ghost at_end = j == out.len();
        out.insert(j, x);
        proof {
            let now = rules_view(out@);
            assert(now =~= out_before.insert(j as int, xv));
            lemma_insert_to_multiset(out_before, j as int, xv);
            let rest_now = rules_view(rest@);
            assert(rest_before == rest_now.push(xv));
            rest_now.to_multiset_ensures();
            assert(rest_now.push(xv).to_multiset() =~= rest_now.to_multiset().insert(xv));
            assert(now.to_multiset().add(rest_now.to_multiset()) =~= out_before.to_multiset().add(
                rest_before.to_multiset(),
            ));
            assert forall|a: int, b: int| 0 <= a < b < now.len() implies !weaker(
                #[trigger] now[a],
                #[trigger] now[b],
            ) by {
                if b < j {
                } else if b == j {
                } else if a < j {
                    assert(now[b] == out_before[b - 1]);
                } else if a == j {
                    assert(now[b] == out_before[b - 1]);
                    assert(weaker(out_before[j as int], xv));
                    if b - 1 > j {
                        assert(!weaker(out_before[j as int], out_before[b - 1]));
                    }
                } else {
                    assert(now[a] == out_before[a - 1]);
                    assert(now[b] == out_before[b - 1]);
                }
            }
        }
    }
    assert(rules_view(rest@) =~= Seq::<RuleView>::empty());
    out
}

impl Default for PermissionTableBuilder {
    /// A builder with no rules.
    fn default() -> (b: Self)
        ensures
            b.wf(),
            b@ == empty_state(),
    {
        Self::new()
    }
}

impl PermissionTableBuilder {
    /// Order each permission's rules by strength, strongest first, into a
    /// table. Each list keeps exactly its rules; the order among rules of
    /// equal strength is not fixed.
    pub fn build(self) -> (t: PermissionTable)
        requires
            self.wf(),
        ensures
            t@.len() == Permission::COUNT,
            forall|i: int| 0 <= i < Permission::COUNT ==> (#[trigger] t@[i]).to_multiset() == self@[i].to_multiset(),
            forall|i: int| 0 <= i < Permission::COUNT ==> by_strength(#[trigger] t@[i]),
    {
        let ghost orig = self.0@;
        let ghost view = self@;
        let mut rest = self.0;
        let mut out: Vec<Vec<Rule>> = Vec::new();
        let mut i: usize = 0;
        while i < Permission::COUNT
            invariant
                orig.len() == Permission::COUNT,
                view == buckets_view(orig),
                well_formed(view),
                i <= Permission::COUNT,
                rest@ == orig.skip(i as int),
                out@.len() == i,
                forall|k: int|
                    0 <= k < i ==> rules_view((#[trigger] out@[k])@).to_multiset() == view[k].to_multiset(),
                forall|k: int| 0 <= k < i ==> by_strength(rules_view((#[trigger] out@[k])@)),
            decreases Permission::COUNT - i,
        {
            let b = rest.remove(0);
            assert(b == orig[i as int]);
            assert(rest@ =~= orig.skip(i + 1));
            let sorted = sort_by_strength(b);
            out.push(sorted);
            i = i + 1;
        }
        let ghost tv = buckets_view(out@);
        assert forall|k: int, j: int| 0 <= k < tv.len() && 0 <= j < tv[k].len() implies (
        #[trigger] tv[k][j]).perm.index_spec() == k && usable(tv[k][j]) by {
            assert(tv[k].contains(tv[k][j]));
            lemma_same_multiset_contains(tv[k], view[k], tv[k][j]);
            let m = choose|m: int| 0 <= m < view[k].len() && view[k][m] == tv[k][j];
            assert(view[k][m].perm.index_spec() == k && usable(view[k][m]));
        }
        let t = PermissionTable(out);
        assert(t@ == tv);
        t
    }
}

impl PermissionTable {
    /// Whether `role` may perform `perm` on the resource `ctx`: the
    /// strongest rule of `perm` whose predicates all hold decides, granting
    /// the permission to its role and every higher one; when none applies
    /// the answer is no. The rules of every permission are kept strongest
    /// first, so the answer is that of a strongest applicable rule, however
    /// rules of equal strength are ordered. The context must be of the
    /// permission's scope.
    pub fn check<C: ResourceContext>(&self, perm: Permission, ctx: &C, role: RoleKey) -> (r: bool)
        requires
            ctx.context_data().scope() == perm.spec_scope(),
        ensures
            r == decide(self@[perm.index_spec() as int], ctx.context_data(), role),
            r <==> exists|j: int|
                #[trigger] strongest_applicable(self@[perm.index_spec() as int], ctx.context_data(), j)
                    && role.0 >= self@[perm.index_spec() as int][j].role.0,
            well_formed(self@),
            by_strength(self@[perm.index_spec() as int]),
    {
        proof {
            use_type_invariant(self);
            lemma_decided_by_strongest_applicable(self@[perm.index_spec() as int], ctx.context_data(), role);
        }
        let idx = perm.as_usize();
        let rules = &self.0[idx];
        let ghost rv = self@[idx as int];
        assert(rv == rules_view(rules@));
        let c = ctx.as_enum();
        assert(rv.skip(0) =~= rv);
        let mut i: usize = 0;
        while i < rules.len()
            invariant
                i <= rules@.len(),
                c == ctx.context_data(),
                rv == self@[perm.index_spec() as int],
                rv == rules_view(rules@),
                c.scope() == perm.spec_scope(),
                forall|j: int| 0 <= j < rv.len() ==> (#[trigger] rv[j]).perm == perm && usable(rv[j]),
                well_formed(self@),
                by_strength(rv),
                decide(rv, c, role) <==> exists|j: int| #[trigger] strongest_applicable(rv, c, j) && role.0 >= rv[j].role.0,
                decide(rv, c, role) == decide(rv.skip(i as int), c, role),
            decreases rules@.len() - i,
        {
            let rule = &rules[i];
            assert(rv.skip(i as int)[0] == rv[i as int]);
            assert(rv.skip(i as int).drop_first() =~= rv.skip(i + 1));
            assert(rv[i as int] == rule@);
            if all_match(&rule.conds, &c) {
                return role.0 >= rule.role.0;
            }
            i = i + 1;
        }
        false
    }
}

} // verus!
