use server::auth::{Auth, Role, RoleKey};
use server::model::{permission_table, rank_permissions};
use server::perms::context::PostContext;
use server::perms::permission::Permission;
use server::perms::table::{RegisterError, RuleKeyError};
use server::post::{Collection, Rating};

fn role(id: &str) -> Role {
    Role { id: id.to_string(), name: id.to_string(), owner: false, user: false, guest: false }
}

fn post(owned: bool) -> PostContext {
    PostContext { rating: Rating::Safe, score: 0, owned, collection: Collection(0) }
}

#[test]
fn configured_rules_become_a_table() {
    let auth = Auth::new(64, vec![role("owner"), role("user"), role("guest")]);
    let permissions = vec![
        ("post.view".to_string(), "guest".to_string()),
        ("post.edit.tag(owned)".to_string(), "user".to_string()),
        ("post.*".to_string(), "owner".to_string()),
    ];
    let ranked = rank_permissions(&auth, &permissions);
    assert_eq!(ranked[0], ("post.view".to_string(), RoleKey(0)));
    assert_eq!(ranked[2], ("post.*".to_string(), RoleKey(2)));
    let table = permission_table(&auth, &permissions).expect("valid rules");
    assert!(table.check(Permission::PostView, &post(false), RoleKey(0)));
    assert!(table.check(Permission::PostEditTag, &post(true), RoleKey(1)));
    assert!(!table.check(Permission::PostEditTag, &post(false), RoleKey(1)));
    assert!(table.check(Permission::PostEditTag, &post(false), RoleKey(2)));
    assert!(!table.check(Permission::PostDelete, &post(true), RoleKey(1)));
}

#[test]
fn configured_rule_errors_are_reported() {
    let auth = Auth::new(64, vec![role("owner")]);
    let permissions = vec![
        ("post.view".to_string(), "owner".to_string()),
        ("post.view(rating=great)".to_string(), "owner".to_string()),
    ];
    assert_eq!(
        permission_table(&auth, &permissions).err(),
        Some(RegisterError {
            entry: 1,
            kind: RuleKeyError::InvalidPredicate(server::perms::predicate::PredicateError::InvalidRating)
        })
    );
}
