use std::cmp::Ordering;
use std::collections::HashMap;

use server::auth::RoleKey;
use server::perms::context::{ContextData, PostContext, ResourceContext, TagContext, UserContext};
use server::perms::group::PredicateGroup;
use server::perms::permission::{KeyLookupError, Permission, PermissionScope};
use server::perms::predicate::{Predicate, PredicateError};
use server::perms::rule::Rule;
use server::perms::table::{PermissionTableBuilder, RegisterError, RuleKeyError};
use server::post::{Collection, Rating};
use server::util::Comparator;

fn mock_post_ctx(rating: Rating, owned: bool) -> PostContext {
    PostContext {
        rating,
        score: 0,
        owned,
        collection: Collection(0),
    }
}

fn group(preds: Vec<Predicate>) -> PredicateGroup {
    PredicateGroup::from_vec(preds)
}

fn entries(raw: &[(&str, u16)]) -> Vec<(String, RoleKey)> {
    raw.iter().map(|(k, v)| (k.to_string(), RoleKey(*v))).collect()
}

#[test]
fn test_predicate_post_rating() {
    let cond_rating = Predicate::PostRating {
        cmp: Comparator::Lte,
        rating: Rating::Safe,
    };
    let ctx_safe = mock_post_ctx(Rating::Safe, false);
    let ctx_risky = mock_post_ctx(Rating::Risky, false);
    let ctx_unsafe = mock_post_ctx(Rating::Unsafe, false);

    assert!(cond_rating.matches(&ctx_safe.as_enum()));
    assert!(!cond_rating.matches(&ctx_risky.as_enum()));
    assert!(!cond_rating.matches(&ctx_unsafe.as_enum()));
}

#[test]
fn test_predicate_post_score() {
    let cond_score_eq = Predicate::PostScore {
        cmp: Comparator::Eq,
        score: 0,
    };
    let cond_score_gt = Predicate::PostScore {
        cmp: Comparator::Gt,
        score: 0,
    };
    let ctx = mock_post_ctx(Rating::Safe, false);

    assert!(cond_score_eq.matches(&ctx.as_enum()));
    assert!(!cond_score_gt.matches(&ctx.as_enum()));
}

#[test]
fn test_predicate_post_owned() {
    let cond_owned = Predicate::PostOwned(true);
    let cond_not_owned = Predicate::PostOwned(false);
    let ctx_owned = mock_post_ctx(Rating::Safe, true);
    let ctx_unowned = mock_post_ctx(Rating::Safe, false);

    assert!(cond_owned.matches(&ctx_owned.as_enum()));
    assert!(!cond_owned.matches(&ctx_unowned.as_enum()));
    assert!(cond_not_owned.matches(&ctx_unowned.as_enum()));
    assert!(!cond_not_owned.matches(&ctx_owned.as_enum()));
}

#[test]
fn test_predicate_post_collection() {
    let cond_collection0 = Predicate::PostCollection(Collection(0));
    let cond_collection1 = Predicate::PostCollection(Collection(1));
    let ctx = mock_post_ctx(Rating::Safe, false);

    assert!(cond_collection0.matches(&ctx.as_enum()));
    assert!(!cond_collection1.matches(&ctx.as_enum()));
}

#[test]
fn test_permission_exact() {
    let res = Permission::from_key("post.view").expect("from_key failed");
    let perm = res.get(0).expect("no permission returned");
    assert_eq!(*perm, Permission::PostView);
}

#[test]
fn test_permission_wildcard() {
    let mut res = Permission::from_key("post.move.*").expect("from_key failed");
    let mut expected = vec![Permission::PostMoveIn, Permission::PostMoveOut];
    res.sort_unstable();
    expected.sort_unstable();
    assert_eq!(res, expected);
}

#[test]
fn test_permission_wildcard_all() {
    let res = Permission::from_key("*").expect("from_key failed");
    assert_eq!(&Permission::MEMBERS, res.as_slice());
}

#[test]
fn test_permission_path_depth() {
    assert_eq!(Permission::PostView.path_depth(), 1);
    assert_eq!(Permission::PostEditTag.path_depth(), 2);
    assert_eq!(Permission::PostMoveIn.path_depth(), 2);
}

#[test]
fn test_permission_scope() {
    assert_eq!(Permission::PostView.scope(), PermissionScope::Post);
    assert_eq!(Permission::UserInvite.scope(), PermissionScope::User);
    assert_eq!(Permission::TagImplicationEdit.scope(), PermissionScope::Tag);
}

#[test]
fn test_permission_construction_success() {
    let mut raw = HashMap::new();
    raw.insert("post.view", 0);
    raw.insert("post.edit.tag", 1);
    raw.insert("post.edit.tag(owned)", 2);

    let iter: Vec<(String, RoleKey)> = raw.iter().map(|(k, v)| (k.to_string(), RoleKey(*v))).collect();
    let mut builder = PermissionTableBuilder::default();
    assert!(builder.parse_and_register(&iter, None).is_ok());
}

#[test]
fn test_permission_construction_mismatched_scope() {
    let mut raw = HashMap::new();
    raw.insert("tag.edit.name(score>50)", 3);
    raw.insert("user.invite(owned)", 3);

    let iter: Vec<(String, RoleKey)> = raw.iter().map(|(k, v)| (k.to_string(), RoleKey(*v))).collect();
    let mut builder = PermissionTableBuilder::default();
    assert!(builder.parse_and_register(&iter, None).is_err());
}

#[test]
fn test_permission_rule_role() {
    let a = Rule {
        perm: Permission::PostView,
        conds: group(vec![]),
        role: RoleKey(1),
        exact: true,
    };
    let b = Rule {
        perm: Permission::PostView,
        conds: group(vec![]),
        role: RoleKey(0),
        exact: true,
    };
    // higher role rule is stronger
    assert_eq!(a.cmp(&b), Ordering::Greater);
}

#[test]
fn test_permission_rule_path_depth() {
    let a = Rule {
        perm: Permission::PostView,
        conds: group(vec![]),
        role: RoleKey(1),
        exact: true,
    };
    let b = Rule {
        perm: Permission::PostEditTag,
        conds: group(vec![]),
        role: RoleKey(0),
        exact: true,
    };
    // post.view is weaker than post.edit.tag even though it has a higher role
    assert_eq!(a.cmp(&b), Ordering::Less);
}

#[test]
fn test_permission_rule_wildcard() {
    let a = Rule {
        perm: Permission::PostEditTag,
        conds: group(vec![]),
        role: RoleKey(1),
        exact: false,
    };
    let b = Rule {
        perm: Permission::PostView,
        conds: group(vec![]),
        role: RoleKey(0),
        exact: true,
    };
    // wildcard is weaker even though it has a higher role
    assert_eq!(a.cmp(&b), Ordering::Less);
}

#[test]
fn test_permission_rule_conds() {
    let owned = Predicate::PostOwned(true);
    let rating = Predicate::PostRating {
        cmp: Comparator::Lte,
        rating: Rating::Safe,
    };
    let a = Rule {
        perm: Permission::PostEditTag,
        conds: group(vec![owned.clone()]),
        role: RoleKey(1),
        exact: true,
    };
    let b = Rule {
        perm: Permission::PostView,
        conds: group(vec![owned, rating]),
        role: RoleKey(0),
        exact: false,
    };
    // less predicates is weaker even though everything else is stronger
    assert_eq!(a.cmp(&b), Ordering::Less);
}

#[test]
fn test_check_perm_implicit_deny() {
    let perms = PermissionTableBuilder::default().build();
    assert!(!perms.check(
        Permission::PostView,
        &mock_post_ctx(Rating::Safe, false),
        RoleKey(0),
    ));
}

#[test]
fn test_check_perm_engine_priority() {
    let mut builder = PermissionTableBuilder::default();

    let cond_owned = Predicate::PostOwned(true);
    let cond_rating = Predicate::PostRating {
        cmp: Comparator::Eq,
        rating: Rating::Safe,
    };

    // rule A: weakest
    builder.register(Rule {
        perm: Permission::PostView,
        conds: group(vec![]),
        role: RoleKey(0),
        exact: true,
    });

    // rule B: strongest
    builder.register(Rule {
        perm: Permission::PostView,
        conds: group(vec![cond_owned.clone(), cond_rating.clone()]),
        role: RoleKey(1),
        exact: true,
    });

    // rule C: >E, <D
    builder.register(Rule {
        perm: Permission::PostView,
        conds: group(vec![cond_owned.clone()]),
        role: RoleKey(1),
        exact: false,
    });

    // rule D: >C, <B
    builder.register(Rule {
        perm: Permission::PostView,
        conds: group(vec![cond_owned.clone()]),
        role: RoleKey(0),
        exact: true,
    });

    // rule E: >A, <*
    builder.register(Rule {
        perm: Permission::PostView,
        conds: group(vec![]),
        role: RoleKey(1),
        exact: true,
    });

    let perms = builder.build();

    // context matches B
    let ctx_all = mock_post_ctx(Rating::Safe, true);
    assert_eq!(perms.check(Permission::PostView, &ctx_all, RoleKey(0)), false);

    // context matches owned=true, fails B, should match D before C
    let ctx_one = mock_post_ctx(Rating::Risky, true);
    assert_eq!(perms.check(Permission::PostView, &ctx_one, RoleKey(0)), true);

    // no predicates true, fails B+D+C, should match E before A because role >
    let ctx_none = mock_post_ctx(Rating::Safe, false);
    assert_eq!(perms.check(Permission::PostView, &ctx_none, RoleKey(0)), false);
}

// Further cases of the library's own.

#[test]
fn predicate_parses_comparisons_and_flags() {
    assert_eq!(
        Predicate::from_str("rating<=risky"),
        Ok(Predicate::PostRating { cmp: Comparator::Lte, rating: Rating::Risky })
    );
    assert_eq!(
        Predicate::from_str("  score >= 10 "),
        Ok(Predicate::PostScore { cmp: Comparator::Gte, score: 10 })
    );
    assert_eq!(
        Predicate::from_str("score<-5"),
        Ok(Predicate::PostScore { cmp: Comparator::Lt, score: -5 })
    );
    assert_eq!(
        Predicate::from_str("score!=+7"),
        Ok(Predicate::PostScore { cmp: Comparator::Neq, score: 7 })
    );
    assert_eq!(
        Predicate::from_str("rating=unsafe"),
        Ok(Predicate::PostRating { cmp: Comparator::Eq, rating: Rating::Unsafe })
    );
    assert_eq!(
        Predicate::from_str("score>0"),
        Ok(Predicate::PostScore { cmp: Comparator::Gt, score: 0 })
    );
    assert_eq!(Predicate::from_str("owned"), Ok(Predicate::PostOwned(true)));
    assert_eq!(Predicate::from_str(" ! owned "), Ok(Predicate::PostOwned(false)));
    // trimming covers Unicode white space, as `str::trim` does
    assert_eq!(Predicate::from_str("\u{3000}owned\u{a0}"), Ok(Predicate::PostOwned(true)));
}

#[test]
fn predicate_score_bounds() {
    assert_eq!(
        Predicate::from_str("score=-9223372036854775808"),
        Ok(Predicate::PostScore { cmp: Comparator::Eq, score: i64::MIN })
    );
    assert_eq!(
        Predicate::from_str("score=9223372036854775807"),
        Ok(Predicate::PostScore { cmp: Comparator::Eq, score: i64::MAX })
    );
    assert_eq!(Predicate::from_str("score=9223372036854775808"), Err(PredicateError::InvalidInteger));
    assert_eq!(Predicate::from_str("score=-9223372036854775809"), Err(PredicateError::InvalidInteger));
    assert_eq!(Predicate::from_str("score=00000000000000000000042"), Ok(Predicate::PostScore { cmp: Comparator::Eq, score: 42 }));
}

#[test]
fn predicate_errors() {
    assert_eq!(Predicate::from_str("rating=bad"), Err(PredicateError::InvalidRating));
    assert_eq!(Predicate::from_str("score=ten"), Err(PredicateError::InvalidInteger));
    assert_eq!(Predicate::from_str("score="), Err(PredicateError::InvalidInteger));
    assert_eq!(Predicate::from_str("score=-"), Err(PredicateError::InvalidInteger));
    assert_eq!(Predicate::from_str("size>3"), Err(PredicateError::UnknownComparison));
    assert_eq!(Predicate::from_str("deleted"), Err(PredicateError::UnknownFlag));
    assert_eq!(Predicate::from_str(""), Err(PredicateError::UnknownFlag));
    // the first operator of the list that occurs wins: `<=` before `=`
    assert_eq!(Predicate::from_str("rating=<=safe"), Err(PredicateError::UnknownComparison));
}

#[test]
fn predicate_keys_and_scopes() {
    assert_eq!(Predicate::PostOwned(true).key(), "owned");
    assert_eq!(Predicate::PostScore { cmp: Comparator::Eq, score: 1 }.key(), "score");
    assert_eq!(Predicate::PostRating { cmp: Comparator::Eq, rating: Rating::Safe }.key(), "rating");
    assert_eq!(Predicate::PostCollection(Collection(3)).key(), "collection");
    assert!(Predicate::PostOwned(true).is_valid_in(PermissionScope::Post));
    assert!(!Predicate::PostOwned(true).is_valid_in(PermissionScope::User));
    assert!(!Predicate::PostOwned(true).is_valid_in(PermissionScope::Tag));
}

#[test]
fn permission_lookup_errors_and_keys() {
    assert_eq!(Permission::from_key("post.nothing"), Err(KeyLookupError::UnknownKey));
    assert_eq!(Permission::from_key("blog.*"), Err(KeyLookupError::NoMatch));
    assert_eq!(
        Permission::from_key("tag.implication.*"),
        Ok(vec![
            Permission::TagImplicationCreate,
            Permission::TagImplicationEdit,
            Permission::TagImplicationDelete
        ])
    );
    for p in Permission::MEMBERS {
        assert_eq!(Permission::from_key(p.as_str()), Ok(vec![p]));
    }
    assert_eq!(Permission::PostView.as_usize(), 0);
    assert_eq!(Permission::TagImplicationDelete.as_usize(), Permission::COUNT - 1);
    assert_eq!(Permission::members(), Permission::MEMBERS.to_vec());
    assert_eq!(Permission::TagImplicationCreate.path_depth(), 2);
}

#[test]
fn context_scopes() {
    let user = UserContext { user_role: RoleKey(2) };
    assert_eq!(user.as_enum(), ContextData::User(user));
    let tag = TagContext {};
    assert_eq!(tag.as_enum(), ContextData::Tag(tag));
}

#[test]
fn rule_keys_register_rules() {
    let mut builder = PermissionTableBuilder::new();
    let raw = entries(&[("post.view", 0), ("post.edit.*(owned)", 2), ("post.move.*", 3)]);
    assert_eq!(builder.parse_and_register(&raw, None), Ok(()));
    let table = builder.build();
    let own = mock_post_ctx(Rating::Safe, true);
    let other = mock_post_ctx(Rating::Safe, false);
    assert!(table.check(Permission::PostView, &own, RoleKey(0)));
    // the wildcard covers one permission, post.edit.tag, and needs ownership
    assert!(table.check(Permission::PostEditTag, &own, RoleKey(2)));
    assert!(!table.check(Permission::PostEditTag, &own, RoleKey(1)));
    assert!(!table.check(Permission::PostEditTag, &other, RoleKey(9)));
    assert!(table.check(Permission::PostMoveIn, &other, RoleKey(3)));
    assert!(table.check(Permission::PostMoveOut, &other, RoleKey(4)));
    assert!(!table.check(Permission::PostDelete, &other, RoleKey(100)));
}

#[test]
fn rule_key_errors_report_entry_and_keep_earlier_rules() {
    let mut builder = PermissionTableBuilder::new();
    let raw = entries(&[("post.delete", 1), ("post.view(", 0), ("post.view", 0)]);
    assert_eq!(
        builder.parse_and_register(&raw, None),
        Err(RegisterError { entry: 1, kind: RuleKeyError::Malformed })
    );
    let table = builder.build();
    let ctx = mock_post_ctx(Rating::Safe, false);
    assert!(table.check(Permission::PostDelete, &ctx, RoleKey(1)));
    assert!(!table.check(Permission::PostView, &ctx, RoleKey(5)));

    let cases: Vec<(&str, RuleKeyError)> = vec![
        ("Post.view", RuleKeyError::Malformed),
        ("post.view()", RuleKeyError::Malformed),
        ("post.view(owned))", RuleKeyError::Malformed),
        ("post.view*", RuleKeyError::Malformed),
        ("", RuleKeyError::Malformed),
        ("post.unknown", RuleKeyError::Lookup(KeyLookupError::UnknownKey)),
        ("blog.*", RuleKeyError::Lookup(KeyLookupError::NoMatch)),
        ("post.view(score>x)", RuleKeyError::InvalidPredicate(PredicateError::InvalidInteger)),
        ("post.view(owned,)", RuleKeyError::InvalidPredicate(PredicateError::UnknownFlag)),
        (
            "user.invite(owned)",
            RuleKeyError::NotAllowed { predicate: Predicate::PostOwned(true), permission: Permission::UserInvite },
        ),
    ];
    for (key, err) in cases {
        let mut b = PermissionTableBuilder::new();
        assert_eq!(b.parse_and_register(&entries(&[(key, 0)]), None), Err(RegisterError { entry: 0, kind: err }), "{key}");
    }
}

#[test]
fn wildcard_across_scopes_keeps_rules_before_rejection() {
    // `*(owned)` is registered for the post permissions, then rejected at
    // the first user permission.
    let mut builder = PermissionTableBuilder::new();
    let res = builder.parse_and_register(&entries(&[("*(owned)", 0)]), None);
    assert_eq!(
        res,
        Err(RegisterError {
            entry: 0,
            kind: RuleKeyError::NotAllowed { predicate: Predicate::PostOwned(true), permission: Permission::UserInvite },
        })
    );
    let table = builder.build();
    let own = mock_post_ctx(Rating::Safe, true);
    assert!(table.check(Permission::PostMoveIn, &own, RoleKey(0)));
    let user = UserContext { user_role: RoleKey(0) };
    assert!(!table.check(Permission::UserInvite, &user, RoleKey(0)));
}

#[test]
fn collection_rules_require_the_collection() {
    let mut builder = PermissionTableBuilder::new();
    assert_eq!(builder.parse_and_register(&entries(&[("post.view", 1)]), Some(Collection(7))), Ok(()));
    let table = builder.build();
    let mut inside = mock_post_ctx(Rating::Safe, false);
    inside.collection = Collection(7);
    let outside = mock_post_ctx(Rating::Safe, false);
    assert!(table.check(Permission::PostView, &inside, RoleKey(1)));
    assert!(!table.check(Permission::PostView, &outside, RoleKey(1)));
}

#[test]
fn higher_roles_keep_grants() {
    let mut builder = PermissionTableBuilder::new();
    let raw = entries(&[("post.view", 2), ("post.view(rating=safe)", 0)]);
    assert_eq!(builder.parse_and_register(&raw, None), Ok(()));
    let table = builder.build();
    let safe = mock_post_ctx(Rating::Safe, false);
    let risky = mock_post_ctx(Rating::Risky, false);
    for role in 0..5u16 {
        assert!(table.check(Permission::PostView, &safe, RoleKey(role)));
        assert_eq!(table.check(Permission::PostView, &risky, RoleKey(role)), role >= 2);
    }
}

#[test]
fn registering_in_two_calls_equals_one_call() {
    let a = entries(&[("post.view", 1), ("post.delete(owned)", 0)]);
    let b = entries(&[("post.delete", 2)]);
    let mut once = PermissionTableBuilder::new();
    let mut all = a.clone();
    all.extend(b.clone());
    assert_eq!(once.parse_and_register(&all, None), Ok(()));
    let mut twice = PermissionTableBuilder::new();
    assert_eq!(twice.parse_and_register(&a, None), Ok(()));
    assert_eq!(twice.parse_and_register(&b, None), Ok(()));
    let (once, twice) = (once.build(), twice.build());
    for owned in [false, true] {
        let ctx = mock_post_ctx(Rating::Safe, owned);
        for role in 0..4u16 {
            for p in Permission::MEMBERS {
                if p.scope() == PermissionScope::Post {
                    assert_eq!(once.check(p, &ctx, RoleKey(role)), twice.check(p, &ctx, RoleKey(role)));
                }
            }
        }
    }
}

#[test]
fn rule_ordering_is_consistent() {
    let a = Rule { perm: Permission::PostView, conds: group(vec![]), role: RoleKey(3), exact: true };
    let b = Rule { perm: Permission::PostDelete, conds: group(vec![]), role: RoleKey(3), exact: true };
    assert_eq!(a.cmp(&b), Ordering::Equal);
    assert!(a == b);
    assert_eq!(a.partial_cmp(&b), Some(Ordering::Equal));
    let c = Rule { perm: Permission::PostView, conds: group(vec![Predicate::PostOwned(false)]), role: RoleKey(0), exact: false };
    assert_eq!(a.cmp(&c), Ordering::Less);
    assert_eq!(c.cmp(&a), Ordering::Greater);
    assert!(a < c);
    assert_eq!(c.conds.len(), 1);
}

#[test]
fn cloned_rule_keeps_its_parts() {
    let c = Rule { perm: Permission::PostMoveIn, conds: group(vec![Predicate::PostOwned(true)]), role: RoleKey(2), exact: false };
    let d = c.clone();
    assert_eq!(d.perm, Permission::PostMoveIn);
    assert_eq!(d.role, RoleKey(2));
    assert!(!d.exact);
    assert_eq!(d.conds.len(), 1);
    assert_eq!(d.cmp(&c), Ordering::Equal);
}
