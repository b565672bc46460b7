use server::auth::Role;
use server::config::{
    default_rescan_seconds, CollectionConfig, Config, ConfigError, GeneralConfig, LibraryConfig, RoleIssue,
};

fn role(id: &str, name: &str, owner: bool, user: bool, guest: bool) -> Role {
    Role { id: id.to_string(), name: name.to_string(), owner, user, guest }
}

/// A valid configuration: an owner and a user role, one rule, one default
/// collection with one rule, and one library in that collection.
fn create_valid_config() -> Config {
    Config {
        general: GeneralConfig { storage_path: "/mnt/media/pmo".to_string(), allow_signups: false },
        roles: vec![role("owner", "Owner", true, false, false), role("user", "User", false, true, false)],
        permissions: vec![("post.view".to_string(), "owner".to_string())],
        collections: vec![(
            "col1".to_string(),
            CollectionConfig {
                name: "Primary Collection".to_string(),
                default: true,
                permissions: vec![("post.view".to_string(), "user".to_string())],
            },
        )],
        libraries: vec![(
            "lib1".to_string(),
            LibraryConfig {
                name: "Main Library".to_string(),
                path: "/mnt/media/lib1".to_string(),
                collection: Some("col1".to_string()),
                rescan_seconds: 600,
            },
        )],
    }
}

fn collection_mut<'a>(config: &'a mut Config, id: &str) -> &'a mut CollectionConfig {
    &mut config.collections.iter_mut().find(|(k, _)| k == id).unwrap().1
}

fn library_mut<'a>(config: &'a mut Config, id: &str) -> &'a mut LibraryConfig {
    &mut config.libraries.iter_mut().find(|(k, _)| k == id).unwrap().1
}

#[test]
fn test_valid_config_is_ok() {
    let config = create_valid_config();
    assert!(config.validate().is_ok());
}

#[test]
fn test_duplicate_role_ids() {
    let mut config = create_valid_config();
    config.roles.push(Role {
        id: "owner".to_string(),
        name: "Owner".to_string(),
        owner: false,
        user: false,
        guest: false,
    });
    assert!(config.validate().is_err());
}

#[test]
fn test_multiple_owner_roles() {
    let mut config = create_valid_config();
    config.roles.push(Role {
        id: "owner2".to_string(),
        name: "Owner 2".to_string(),
        owner: true,
        user: false,
        guest: false,
    });
    assert!(config.validate().is_err());
}

#[test]
fn test_multiple_user_roles() {
    let mut config = create_valid_config();
    config.roles.push(Role {
        id: "user2".to_string(),
        name: "User 2".to_string(),
        owner: false,
        user: true,
        guest: false,
    });
    assert!(config.validate().is_err());
}

#[test]
fn test_multiple_guest_roles() {
    let mut config = create_valid_config();
    config.roles.push(Role {
        id: "guest1".to_string(),
        name: "Guest".to_string(),
        owner: false,
        user: false,
        guest: true,
    });
    assert!(config.validate().is_ok());

    config.roles.push(Role {
        id: "guest2".to_string(),
        name: "Guest 2".to_string(),
        owner: false,
        user: false,
        guest: true,
    });
    assert!(config.validate().is_err());
}

#[test]
fn test_global_permission_nonexistent_role() {
    let mut config = create_valid_config();
    config.permissions.push(("post.edit".to_string(), "nonexistent_role".to_string()));
    assert!(config.validate().is_err());
}

#[test]
fn test_multiple_default_collections() {
    let mut config = create_valid_config();
    config.collections.push((
        "col2".to_string(),
        CollectionConfig {
            name: "Secondary Collection".to_string(),
            default: true,
            permissions: Vec::new(),
        },
    ));
    assert!(config.validate().is_err());
}

#[test]
fn test_collection_permission_nonexistent_role() {
    let mut config = create_valid_config();
    let col = collection_mut(&mut config, "col1");
    col.permissions.push(("post.edit".to_string(), "nonexistent".to_string()));
    assert!(config.validate().is_err());
}

#[test]
fn test_library_references_nonexistent_collection() {
    let mut config = create_valid_config();
    let lib = library_mut(&mut config, "lib1");
    lib.collection = Some("col2".to_string());
    assert!(config.validate().is_err());
}

// Further cases of the library's own: which error each problem gives.

#[test]
fn config_errors_name_the_problem() {
    let mut c = create_valid_config();
    c.roles.push(role("owner", "Again", false, false, false));
    assert_eq!(c.validate(), Err(ConfigError::Roles { index: 2, issue: RoleIssue::DuplicateId }));

    let mut c = create_valid_config();
    c.roles.push(role("x", "X", true, true, false));
    assert_eq!(c.validate(), Err(ConfigError::Roles { index: 2, issue: RoleIssue::MultipleOwners }));

    let mut c = create_valid_config();
    c.roles.push(role("x", "X", false, true, false));
    assert_eq!(c.validate(), Err(ConfigError::Roles { index: 2, issue: RoleIssue::MultipleUsers }));

    let mut c = create_valid_config();
    c.permissions.push(("post.edit.tag".to_string(), "ghost".to_string()));
    assert_eq!(c.validate(), Err(ConfigError::Permissions { index: 1 }));

    let mut c = create_valid_config();
    c.collections.push((
        "col2".to_string(),
        CollectionConfig { name: "Second".to_string(), default: true, permissions: Vec::new() },
    ));
    assert_eq!(c.validate(), Err(ConfigError::MultipleDefaultCollections { index: 1 }));

    let mut c = create_valid_config();
    collection_mut(&mut c, "col1").permissions.push(("post.delete".to_string(), "nobody".to_string()));
    assert_eq!(c.validate(), Err(ConfigError::CollectionPermissions { collection: 0, index: 1 }));

    let mut c = create_valid_config();
    library_mut(&mut c, "lib1").collection = Some("elsewhere".to_string());
    assert_eq!(c.validate(), Err(ConfigError::Libraries { index: 0 }));

    // a library without a collection is fine
    let mut c = create_valid_config();
    library_mut(&mut c, "lib1").collection = None;
    assert_eq!(c.validate(), Ok(()));

    // the roles block is checked before the permissions block
    let mut c = create_valid_config();
    c.permissions.push(("post.edit.tag".to_string(), "ghost".to_string()));
    c.roles.push(role("user", "Again", false, false, false));
    assert_eq!(c.validate(), Err(ConfigError::Roles { index: 2, issue: RoleIssue::DuplicateId }));
}

#[test]
fn repeated_mapping_keys_are_rejected() {
    let mut c = create_valid_config();
    c.permissions.push(("post.view".to_string(), "user".to_string()));
    assert_eq!(c.validate(), Err(ConfigError::DuplicatePermission { index: 1 }));

    let mut c = create_valid_config();
    c.collections.push((
        "col1".to_string(),
        CollectionConfig { name: "Again".to_string(), default: false, permissions: Vec::new() },
    ));
    assert_eq!(c.validate(), Err(ConfigError::DuplicateCollection { index: 1 }));

    let mut c = create_valid_config();
    let lib = c.libraries[0].clone();
    c.libraries.push(lib);
    assert_eq!(c.validate(), Err(ConfigError::DuplicateLibrary { index: 1 }));

    let mut c = create_valid_config();
    collection_mut(&mut c, "col1").permissions.push(("post.view".to_string(), "owner".to_string()));
    assert_eq!(c.validate(), Err(ConfigError::DuplicateCollectionPermission { collection: 0, index: 1 }));

    // a repeated key is reported before a problem in the roles block
    let mut c = create_valid_config();
    c.roles.push(role("owner", "Again", false, false, false));
    c.permissions.push(("post.view".to_string(), "owner".to_string()));
    assert_eq!(c.validate(), Err(ConfigError::DuplicatePermission { index: 1 }));
}

#[test]
fn rescan_default_is_ten_minutes() {
    assert_eq!(default_rescan_seconds(), 600);
}
