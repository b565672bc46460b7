//! The server configuration and its validation. Paths are kept as text: the
//! storage driver, not the configuration, checks that they exist. The
//! mappings of the configuration file (permissions, collections, libraries)
//! are lists of `(key, value)` entries; validation rejects a list that
//! repeats a key (`keys_distinct`).
use vstd::prelude::*;

use crate::auth::{lemma_role_keys_domain, role_keys, Role};

verus! {

/// The whole configuration.
#[derive(Clone, Debug)]
pub struct Config {
    pub general: GeneralConfig,
    /// The roles from the highest to the lowest.
    pub roles: Vec<Role>,
    /// Global rules: rule key and role id.
    pub permissions: Vec<(String, String)>,
    /// Collections by id.
    pub collections: Vec<(String, CollectionConfig)>,
    /// Libraries by id.
    pub libraries: Vec<(String, LibraryConfig)>,
}

/// General settings.
#[derive(Clone, Debug)]
pub struct GeneralConfig {
    pub storage_path: String,
    pub allow_signups: bool,
}

/// A collection of posts.
#[derive(Clone, Debug)]
pub struct CollectionConfig {
    pub name: String,
    /// Whether new posts go to this collection.
    pub default: bool,
    /// Rules that hold in this collection only: rule key and role id.
    pub permissions: Vec<(String, String)>,
}

/// A library: a directory scanned for media.
#[derive(Clone, Debug)]
pub struct LibraryConfig {
    pub name: String,
    pub path: String,
    /// The id of the collection its posts go to.
    pub collection: Option<String>,
    /// How often the directory is scanned.
    pub rescan_seconds: u64,
}

/// The scan interval of a library that sets none: ten minutes.
pub fn default_rescan_seconds() -> (r: u64)
    ensures
        r == 600,
{
    600
}

/// What is wrong with a role.
#[derive(Clone, Copy, Debug, PartialEq, Eq, Structural)]
pub enum RoleIssue {
    /// Its id is that of an earlier role.
    DuplicateId,
    /// It is an owner role, and so is an earlier role.
    MultipleOwners,
    /// It is a user role, and so is an earlier role.
    MultipleUsers,
    /// It is a guest role, and so is an earlier role.
    MultipleGuests,
}

/// The first problem found in a configuration. Positions count entries in
/// the order of the configuration's lists.
#[derive(Clone, Copy, Debug, PartialEq, Eq, Structural)]
pub enum ConfigError {
    /// In the roles block: the role at `index`.
    Roles { index: usize, issue: RoleIssue },
    /// In the permissions block: the entry at `index` names no role.
    Permissions { index: usize },
    /// In the collections block: the collection at `index` is a second
    /// default collection.
    MultipleDefaultCollections { index: usize },
    /// In the collections block: the entry at `index` of the rules of the
    /// collection at `collection` names no role.
    CollectionPermissions { collection: usize, index: usize },
    /// In the libraries block: the library at `index` names no collection.
    Libraries { index: usize },
    /// In the permissions block: the entry at `index` repeats the key of an
    /// earlier entry.
    DuplicatePermission { index: usize },
    /// In the collections block: the collection at `index` repeats the id
    /// of an earlier one.
    DuplicateCollection { index: usize },
    /// In the libraries block: the library at `index` repeats the id of an
    /// earlier one.
    DuplicateLibrary { index: usize },
    /// In the rules of the collection at `collection`: the entry at `index`
    /// repeats the key of an earlier entry.
    DuplicateCollectionPermission { collection: usize, index: usize },
}

/// Whether no two of the entries `entries[0..n]` have the same key, as in
/// the mappings of the configuration file.
pub open spec fn keys_distinct<V>(entries: Seq<(String, V)>) -> bool {
    forall|i: int, j: int| 0 <= i < j < entries.len() ==> (#[trigger] entries[i]).0@ != (#[trigger] entries[j]).0@
}

/// The first of the entries `entries[0..n]` whose key is that of an earlier
/// entry.
pub open spec fn first_duplicate<V>(entries: Seq<(String, V)>, n: nat) -> Option<int>
    decreases n,
{
    if n == 0 {
        None
    } else {
        match first_duplicate(entries, (n - 1) as nat) {
            Some(x) => Some(x),
            None => if exists|i: int| 0 <= i < n - 1 && (#[trigger] entries[i]).0@ == entries[n - 1].0@ {
                Some(n - 1)
            } else {
                None
            },
        }
    }
}

/// The first collection, among `collections[0..n]`, whose rules repeat a
/// key, with the position of the repeated entry.
pub open spec fn first_duplicate_in_collections(collections: Seq<(String, CollectionConfig)>, n: nat) -> Option<(int, int)>
    decreases n,
{
    if n == 0 {
        None
    } else {
        match first_duplicate_in_collections(collections, (n - 1) as nat) {
            Some(x) => Some(x),
            None => {
                let block = collections[n - 1].1.permissions@;
                match first_duplicate(block, block.len()) {
                    Some(k) => Some((n - 1, k)),
                    None => None,
                }
            },
        }
    }
}

/// The first repeated key of the configuration's mappings: in the
/// permissions block, then the collections block, then the libraries block,
/// then the rules of each collection in turn.
pub open spec fn duplicate_key_error(c: Config) -> Option<ConfigError> {
    match first_duplicate(c.permissions@, c.permissions@.len()) {
        Some(i) => Some(ConfigError::DuplicatePermission { index: i as usize }),
        None => match first_duplicate(c.collections@, c.collections@.len()) {
            Some(i) => Some(ConfigError::DuplicateCollection { index: i as usize }),
            None => match first_duplicate(c.libraries@, c.libraries@.len()) {
                Some(i) => Some(ConfigError::DuplicateLibrary { index: i as usize }),
                None => match first_duplicate_in_collections(c.collections@, c.collections@.len()) {
                    Some((i, k)) => Some(
                        ConfigError::DuplicateCollectionPermission { collection: i as usize, index: k as usize },
                    ),
                    None => None,
                },
            },
        },
    }
}

/// What is wrong with the role at `i`, judged against the roles before it.
/// A duplicate id is reported before a duplicate flag, and the flags in the
/// order owner, user, guest.
pub open spec fn role_issue(roles: Seq<Role>, i: int) -> Option<RoleIssue> {
    if exists|j: int| 0 <= j < i && (#[trigger] roles[j]).id@ == roles[i].id@ {
        Some(RoleIssue::DuplicateId)
    } else if roles[i].owner && exists|j: int| 0 <= j < i && (#[trigger] roles[j]).owner {
        Some(RoleIssue::MultipleOwners)
    } else if roles[i].user && exists|j: int| 0 <= j < i && (#[trigger] roles[j]).user {
        Some(RoleIssue::MultipleUsers)
    } else if roles[i].guest && exists|j: int| 0 <= j < i && (#[trigger] roles[j]).guest {
        Some(RoleIssue::MultipleGuests)
    } else {
        None
    }
}

/// The first of the roles `roles[0..n]` that has an issue.
pub open spec fn first_role_issue(roles: Seq<Role>, n: nat) -> Option<(int, RoleIssue)>
    decreases n,
{
    if n == 0 {
        None
    } else {
        match first_role_issue(roles, (n - 1) as nat) {
            Some(x) => Some(x),
            None => match role_issue(roles, n - 1) {
                Some(k) => Some((n - 1, k)),
                None => None,
            },
        }
    }
}

/// Whether some role has the id `id`.
pub open spec fn has_role(roles: Seq<Role>, id: Seq<char>) -> bool {
    exists|j: int| 0 <= j < roles.len() && (#[trigger] roles[j]).id@ == id
}

/// The first of the entries `block[0..n]` whose role id names no role.
pub open spec fn first_missing_role(block: Seq<(String, String)>, roles: Seq<Role>, n: nat) -> Option<int>
    decreases n,
{
    if n == 0 {
        None
    } else {
        match first_missing_role(block, roles, (n - 1) as nat) {
            Some(x) => Some(x),
            None => if has_role(roles, block[n - 1].1@) {
                None
            } else {
                Some(n - 1)
            },
        }
    }
}

/// What is wrong with the collection at `i`: being a second default
/// collection, or holding a rule whose role does not exist.
pub open spec fn collection_issue(collections: Seq<(String, CollectionConfig)>, roles: Seq<Role>, i: int) -> Option<ConfigError> {
    if collections[i].1.default && exists|j: int| 0 <= j < i && (#[trigger] collections[j]).1.default {
        Some(ConfigError::MultipleDefaultCollections { index: i as usize })
    } else {
        let block = collections[i].1.permissions@;
        match first_missing_role(block, roles, block.len()) {
            Some(k) => Some(ConfigError::CollectionPermissions { collection: i as usize, index: k as usize }),
            None => None,
        }
    }
}

/// The issue of the first of the collections `collections[0..n]` that has
/// one.
pub open spec fn first_collection_issue(collections: Seq<(String, CollectionConfig)>, roles: Seq<Role>, n: nat) -> Option<ConfigError>
    decreases n,
{
    if n == 0 {
        None
    } else {
        match first_collection_issue(collections, roles, (n - 1) as nat) {
            Some(x) => Some(x),
            None => collection_issue(collections, roles, n - 1),
        }
    }
}

/// Whether some collection has the id `id`.
pub open spec fn has_collection(collections: Seq<(String, CollectionConfig)>, id: Seq<char>) -> bool {
    exists|j: int| 0 <= j < collections.len() && (#[trigger] collections[j]).0@ == id
}

/// The first of the libraries `libraries[0..n]` that names a collection
/// that does not exist.
pub open spec fn first_bad_library(libraries: Seq<(String, LibraryConfig)>, collections: Seq<(String, CollectionConfig)>, n: nat) -> Option<int>
    decreases n,
{
    if n == 0 {
        None
    } else {
        match first_bad_library(libraries, collections, (n - 1) as nat) {
            Some(x) => Some(x),
            None => match libraries[n - 1].1.collection {
                Some(c) => if has_collection(collections, c@) {
                    None
                } else {
                    Some(n - 1)
                },
                None => None,
            },
        }
    }
}

/// The first problem of a configuration, looking at repeated keys of its
/// mappings, then the roles, then the global rules, then the collections,
/// then the libraries.
pub open spec fn config_error(c: Config) -> Option<ConfigError> {
    let roles = c.roles@;
    match duplicate_key_error(c) {
        Some(e) => Some(e),
        None => match first_role_issue(roles, roles.len()) {
        Some((i, k)) => Some(ConfigError::Roles { index: i as usize, issue: k }),
        None => match first_missing_role(c.permissions@, roles, c.permissions@.len()) {
            Some(i) => Some(ConfigError::Permissions { index: i as usize }),
            None => match first_collection_issue(c.collections@, roles, c.collections@.len()) {
                Some(e) => Some(e),
                None => match first_bad_library(c.libraries@, c.collections@, c.libraries@.len()) {
                    Some(i) => Some(ConfigError::Libraries { index: i as usize }),
                    None => None,
                },
            },
        },
        },
    }
}

/// Whether the roles have distinct ids, and at most one of them is the
/// owner role, one the user role and one the guest role.
pub open spec fn roles_valid(roles: Seq<Role>) -> bool {
    forall|i: int, j: int|
        0 <= i < j < roles.len() ==> {
            &&& (#[trigger] roles[i]).id@ != (#[trigger] roles[j]).id@
            &&& !(roles[i].owner && roles[j].owner)
            &&& !(roles[i].user && roles[j].user)
            &&& !(roles[i].guest && roles[j].guest)
        }
}

/// Whether every rule of `block` names one of the roles.
pub open spec fn rules_name_roles(block: Seq<(String, String)>, roles: Seq<Role>) -> bool {
    forall|k: int| 0 <= k < block.len() ==> has_role(roles, (#[trigger] block[k]).1@)
}

/// Whether at most one collection is the default one, and every rule of
/// every collection names one of the roles.
pub open spec fn collections_valid(collections: Seq<(String, CollectionConfig)>, roles: Seq<Role>) -> bool {
    &&& forall|i: int, j: int|
        0 <= i < j < collections.len() ==> !((#[trigger] collections[i]).1.default
            && (#[trigger] collections[j]).1.default)
    &&& forall|i: int|
        0 <= i < collections.len() ==> rules_name_roles((#[trigger] collections[i]).1.permissions@, roles)
}

/// Whether every library that names a collection names one of the
/// collections.
pub open spec fn libraries_valid(libraries: Seq<(String, LibraryConfig)>, collections: Seq<(String, CollectionConfig)>) -> bool {
    forall|i: int|
        0 <= i < libraries.len() ==> ((#[trigger] libraries[i]).1.collection matches Some(c) ==> has_collection(
            collections,
            c@,
        ))
}

/// Whether a configuration is valid: its mappings repeat no key, its roles
/// are valid, every rule names a role, at most one collection is the
/// default one, and every library names an existing collection, if any.
pub open spec fn config_valid(c: Config) -> bool {
    &&& keys_distinct(c.permissions@)
    &&& keys_distinct(c.collections@)
    &&& keys_distinct(c.libraries@)
    &&& forall|i: int| 0 <= i < c.collections@.len() ==> keys_distinct((#[trigger] c.collections@[i]).1.permissions@)
    &&& roles_valid(c.roles@)
    &&& rules_name_roles(c.permissions@, c.roles@)
    &&& collections_valid(c.collections@, c.roles@)
    &&& libraries_valid(c.libraries@, c.collections@)
}

proof fn lemma_first_duplicate_stays<V>(entries: Seq<(String, V)>, k: nat, n: nat)
    requires
        k <= n,
        first_duplicate(entries, k) is Some,
    ensures
        first_duplicate(entries, n) == first_duplicate(entries, k),
    decreases n - k,
{
    if k < n {
        lemma_first_duplicate_stays(entries, k, (n - 1) as nat);
    }
}

proof fn lemma_first_duplicate_none<V>(entries: Seq<(String, V)>, n: nat)
    requires
        n <= entries.len(),
    ensures
        first_duplicate(entries, n) is None <==> keys_distinct(entries.take(n as int)),
    decreases n,
{
    if n > 0 {
        lemma_first_duplicate_none(entries, (n - 1) as nat);
        let t = entries.take(n as int);
        let u = entries.take(n - 1);
        assert forall|i: int| 0 <= i < n - 1 implies #[trigger] u[i] == t[i] && t[i] == entries[i] by {}
        if first_duplicate(entries, n) is None {
            assert forall|i: int, j: int| 0 <= i < j < t.len() implies (#[trigger] t[i]).0@ != (#[trigger] t[j]).0@ by {
                if j < n - 1 {
                    assert(u[i] == t[i]);
                    assert(u[j] == t[j]);
                } else {
                    assert(t[i] == entries[i]);
                }
            }
        }
        if keys_distinct(t) {
            assert forall|i: int, j: int| 0 <= i < j < u.len() implies (#[trigger] u[i]).0@ != (#[trigger] u[j]).0@ by {
                assert(u[i] == t[i]);
                assert(u[j] == t[j]);
            }
            if exists|i: int| 0 <= i < n - 1 && (#[trigger] entries[i]).0@ == entries[n - 1].0@ {
                let i = choose|i: int| 0 <= i < n - 1 && (#[trigger] entries[i]).0@ == entries[n - 1].0@;
                assert(t[i] == entries[i]);
                assert(t[n - 1] == entries[n - 1]);
            }
        }
    }
}

/// The position of the first entry of `entries` whose key is that of an
/// earlier entry, if any.
pub fn find_duplicate_key<V>(entries: &Vec<(String, V)>) -> (r: Option<usize>)
    ensures
        match r {
            Some(i) => first_duplicate(entries@, entries@.len()) == Some(i as int),
            None => first_duplicate(entries@, entries@.len()) is None,
        },
{
    let mut j: usize = 0;
    while j < entries.len()
        invariant
            j <= entries@.len(),
            first_duplicate(entries@, j as nat) is None,
        decreases entries@.len() - j,
    {
        let mut i: usize = 0;
        while i < j
            invariant
                j < entries@.len(),
                i <= j,
                first_duplicate(entries@, j as nat) is None,
                forall|k: int| 0 <= k < i ==> (#[trigger] entries@[k]).0@ != entries@[j as int].0@,
            decreases j - i,
        {
            if entries[i].0 == entries[j].0 {
                proof {
                    assert(entries@[i as int].0@ == entries@[j as int].0@);
                    assert(first_duplicate(entries@, (j + 1) as nat) == Some(j as int));
                    lemma_first_duplicate_stays(entries@, (j + 1) as nat, entries@.len());
                }
                return Some(j);
            }
            i = i + 1;
        }
        j = j + 1;
    }
    None
}

proof fn lemma_first_duplicate_in_collections_stays(collections: Seq<(String, CollectionConfig)>, k: nat, n: nat)
    requires
        k <= n,
        first_duplicate_in_collections(collections, k) is Some,
    ensures
        first_duplicate_in_collections(collections, n) == first_duplicate_in_collections(collections, k),
    decreases n - k,
{
    if k < n {
        lemma_first_duplicate_in_collections_stays(collections, k, (n - 1) as nat);
    }
}

/// Check that no mapping of the configuration repeats a key: the
/// permissions block, the collections block, the libraries block, then the
/// rules of each collection in turn.
pub fn validate_distinct_keys(c: &Config) -> (r: Result<(), ConfigError>)
    ensures
        r matches Ok(()) ==> duplicate_key_error(*c) is None,
        r matches Err(e) ==> duplicate_key_error(*c) == Some(e),
{
    match find_duplicate_key(&c.permissions) {
        Some(i) => {
            return Err(ConfigError::DuplicatePermission { index: i });
        },
        None => {},
    }
    match find_duplicate_key(&c.collections) {
        Some(i) => {
            return Err(ConfigError::DuplicateCollection { index: i });
        },
        None => {},
    }
    match find_duplicate_key(&c.libraries) {
        Some(i) => {
            return Err(ConfigError::DuplicateLibrary { index: i });
        },
        None => {},
    }
    let collections = &c.collections;
    let mut i: usize = 0;
    while i < collections.len()
        invariant
            collections@ == c.collections@,
            first_duplicate(c.permissions@, c.permissions@.len()) is None,
            first_duplicate(c.collections@, c.collections@.len()) is None,
            first_duplicate(c.libraries@, c.libraries@.len()) is None,
            i <= collections@.len(),
            first_duplicate_in_collections(collections@, i as nat) is None,
        decreases collections@.len() - i,
    {
        match find_duplicate_key(&collections[i].1.permissions) {
            Some(k) => {
                proof {
                    lemma_first_duplicate_in_collections_stays(collections@, (i + 1) as nat, collections@.len());
                }
                return Err(ConfigError::DuplicateCollectionPermission { collection: i, index: k });
            },
            None => {},
        }
        i = i + 1;
    }
    Ok(())
}

/// Check the roles: ids are distinct, and at most one role is the owner
/// role, one the user role and one the guest role.
pub fn validate_roles(roles: &Vec<Role>) -> (r: Result<(), ConfigError>)
    ensures
        r matches Ok(()) ==> first_role_issue(roles@, roles@.len()) is None,
        r matches Err(e) ==> first_role_issue(roles@, roles@.len()) matches Some((i, k)) && e
            == (ConfigError::Roles { index: i as usize, issue: k }),
        r is Ok <==> roles_valid(roles@),
{
    proof {
        lemma_roles_valid_iff(roles@);
    }
    let mut seen_owner = false;
    let mut seen_user = false;
    let mut seen_guest = false;
    let mut i: usize = 0;
    while i < roles.len()
        invariant
            i <= roles@.len(),
            first_role_issue(roles@, i as nat) is None,
            seen_owner == exists|j: int| 0 <= j < i && (#[trigger] roles@[j]).owner,
            seen_user == exists|j: int| 0 <= j < i && (#[trigger] roles@[j]).user,
            seen_guest == exists|j: int| 0 <= j < i && (#[trigger] roles@[j]).guest,
        decreases roles@.len() - i,
    {
        let role = &roles[i];
        let mut j: usize = 0;
        while j < i
            invariant
                i < roles@.len(),
                j <= i,
                *role == roles@[i as int],
                first_role_issue(roles@, i as nat) is None,
                forall|k: int| 0 <= k < j ==> (#[trigger] roles@[k]).id@ != roles@[i as int].id@,
            decreases i - j,
        {
            if roles[j].id == role.id {
                proof {
                    assert(roles@[j as int].id@ == roles@[i as int].id@);
                    assert(role_issue(roles@, i as int) == Some(RoleIssue::DuplicateId));
                    lemma_first_role_issue_stays(roles@, (i + 1) as nat, roles@.len());
                }
                return Err(ConfigError::Roles { index: i, issue: RoleIssue::DuplicateId });
            }
            j = j + 1;
        }
        if role.owner {
            if seen_owner {
                proof {
                    lemma_first_role_issue_stays(roles@, (i + 1) as nat, roles@.len());
                }
                return Err(ConfigError::Roles { index: i, issue: RoleIssue::MultipleOwners });
            }
            seen_owner = true;
        }
        if role.user {
            if seen_user {
                proof {
                    lemma_first_role_issue_stays(roles@, (i + 1) as nat, roles@.len());
                }
                return Err(ConfigError::Roles { index: i, issue: RoleIssue::MultipleUsers });
            }
            seen_user = true;
        }
        if role.guest {
            if seen_guest {
                proof {
                    lemma_first_role_issue_stays(roles@, (i + 1) as nat, roles@.len());
                }
                return Err(ConfigError::Roles { index: i, issue: RoleIssue::MultipleGuests });
            }
            seen_guest = true;
        }
        i = i + 1;
    }
    Ok(())
}

/// Once a prefix of the roles has an issue, the first issue of every longer
/// prefix is that one.
proof fn lemma_first_role_issue_stays(roles: Seq<Role>, k: nat, n: nat)
    requires
        k <= n,
        first_role_issue(roles, k) is Some,
    ensures
        first_role_issue(roles, n) == first_role_issue(roles, k),
    decreases n - k,
{
    if k < n {
        lemma_first_role_issue_stays(roles, k, (n - 1) as nat);
    }
}

/// Whether some role has the id `id`.
fn role_exists(roles: &Vec<Role>, id: &String) -> (r: bool)
    ensures
        r == has_role(roles@, id@),
{
    let mut j: usize = 0;
    while j < roles.len()
        invariant
            j <= roles@.len(),
            forall|k: int| 0 <= k < j ==> (#[trigger] roles@[k]).id@ != id@,
        decreases roles@.len() - j,
    {
        if roles[j].id == *id {
            return true;
        }
        j = j + 1;
    }
    false
}

proof fn lemma_first_missing_role_stays(block: Seq<(String, String)>, roles: Seq<Role>, k: nat, n: nat)
    requires
        k <= n,
        first_missing_role(block, roles, k) is Some,
    ensures
        first_missing_role(block, roles, n) == first_missing_role(block, roles, k),
    decreases n - k,
{
    if k < n {
        lemma_first_missing_role_stays(block, roles, k, (n - 1) as nat);
    }
}

/// Check that every rule of `block` names an existing role; on failure,
/// the position of the first rule that does not.
pub fn validate_perms_block_roles(block: &Vec<(String, String)>, roles: &Vec<Role>) -> (r: Result<(), usize>)
    ensures
        r matches Ok(()) ==> first_missing_role(block@, roles@, block@.len()) is None,
        r matches Err(i) ==> first_missing_role(block@, roles@, block@.len()) == Some(i as int),
        r is Ok <==> rules_name_roles(block@, roles@),
{
    proof {
        lemma_rules_name_roles_iff(block@, roles@);
    }
    let mut i: usize = 0;
    while i < block.len()
        invariant
            i <= block@.len(),
            first_missing_role(block@, roles@, i as nat) is None,
        decreases block@.len() - i,
    {
        if !role_exists(roles, &block[i].1) {
            proof {
                lemma_first_missing_role_stays(block@, roles@, (i + 1) as nat, block@.len());
            }
            return Err(i);
        }
        i = i + 1;
    }
    Ok(())
}

proof fn lemma_first_collection_issue_stays(
    collections: Seq<(String, CollectionConfig)>,
    roles: Seq<Role>,
    k: nat,
    n: nat,
)
    requires
        k <= n,
        first_collection_issue(collections, roles, k) is Some,
    ensures
        first_collection_issue(collections, roles, n) == first_collection_issue(collections, roles, k),
    decreases n - k,
{
    if k < n {
        lemma_first_collection_issue_stays(collections, roles, k, (n - 1) as nat);
    }
}

/// Check the collections: at most one is the default collection, and every
/// rule of each names an existing role.
pub fn validate_collections(collections: &Vec<(String, CollectionConfig)>, roles: &Vec<Role>) -> (r: Result<(), ConfigError>)
    ensures
        r matches Ok(()) ==> first_collection_issue(collections@, roles@, collections@.len()) is None,
        r matches Err(e) ==> first_collection_issue(collections@, roles@, collections@.len()) == Some(
            e,
        ),
        r is Ok <==> collections_valid(collections@, roles@),
{
    proof {
        lemma_collections_valid_iff(collections@, roles@);
    }
    let mut seen_default = false;
    let mut i: usize = 0;
    while i < collections.len()
        invariant
            i <= collections@.len(),
            first_collection_issue(collections@, roles@, i as nat) is None,
            seen_default == exists|j: int| 0 <= j < i && (#[trigger] collections@[j]).1.default,
        decreases collections@.len() - i,
    {
        let collection = &collections[i].1;
        if collection.default {
            if seen_default {
                proof {
                    lemma_first_collection_issue_stays(collections@, roles@, (i + 1) as nat, collections@.len());
                }
                return Err(ConfigError::MultipleDefaultCollections { index: i });
            }
            seen_default = true;
        }
        match validate_perms_block_roles(&collection.permissions, roles) {
            Ok(()) => {},
            Err(k) => {
                proof {
                    lemma_first_collection_issue_stays(collections@, roles@, (i + 1) as nat, collections@.len());
                }
                return Err(ConfigError::CollectionPermissions { collection: i, index: k });
            },
        }
        i = i + 1;
    }
    Ok(())
}

/// Whether some collection has the id `id`.
fn collection_exists(collections: &Vec<(String, CollectionConfig)>, id: &String) -> (r: bool)
    ensures
        r == has_collection(collections@, id@),
{
    let mut j: usize = 0;
    while j < collections.len()
        invariant
            j <= collections@.len(),
            forall|k: int| 0 <= k < j ==> (#[trigger] collections@[k]).0@ != id@,
        decreases collections@.len() - j,
    {
        if collections[j].0 == *id {
            return true;
        }
        j = j + 1;
    }
    false
}

proof fn lemma_first_bad_library_stays(
    libraries: Seq<(String, LibraryConfig)>,
    collections: Seq<(String, CollectionConfig)>,
    k: nat,
    n: nat,
)
    requires
        k <= n,
        first_bad_library(libraries, collections, k) is Some,
    ensures
        first_bad_library(libraries, collections, n) == first_bad_library(libraries, collections, k),
    decreases n - k,
{
    if k < n {
        lemma_first_bad_library_stays(libraries, collections, k, (n - 1) as nat);
    }
}

/// Check that every library that names a collection names an existing one.
pub fn validate_libraries(libraries: &Vec<(String, LibraryConfig)>, collections: &Vec<(String, CollectionConfig)>) -> (r: Result<(), ConfigError>)
    ensures
        r matches Ok(()) ==> first_bad_library(libraries@, collections@, libraries@.len()) is None,
        r matches Err(e) ==> first_bad_library(libraries@, collections@, libraries@.len()) matches Some(
            i,
        ) && e == (ConfigError::Libraries { index: i as usize }),
        r is Ok <==> libraries_valid(libraries@, collections@),
{
    proof {
        lemma_libraries_valid_iff(libraries@, collections@);
    }
    let mut i: usize = 0;
    while i < libraries.len()
        invariant
            i <= libraries@.len(),
            first_bad_library(libraries@, collections@, i as nat) is None,
        decreases libraries@.len() - i,
    {
        match &libraries[i].1.collection {
            Some(c) => {
                if !collection_exists(collections, c) {
                    proof {
                        lemma_first_bad_library_stays(libraries@, collections@, (i + 1) as nat, libraries@.len());
                    }
                    return Err(ConfigError::Libraries { index: i });
                }
            },
            None => {},
        }
        i = i + 1;
    }
    Ok(())
}

proof fn lemma_no_role_issue(roles: Seq<Role>, n: nat)
    ensures
        first_role_issue(roles, n) is None <==> forall|i: int| 0 <= i < n ==> role_issue(roles, i) is None,
    decreases n,
{
    if n > 0 {
        lemma_no_role_issue(roles, (n - 1) as nat);
    }
}

proof fn lemma_no_missing_role(block: Seq<(String, String)>, roles: Seq<Role>, n: nat)
    ensures
        first_missing_role(block, roles, n) is None <==> forall|i: int| 0 <= i < n ==> has_role(roles, (#[trigger] block[i]).1@),
    decreases n,
{
    if n > 0 {
        lemma_no_missing_role(block, roles, (n - 1) as nat);
    }
}

proof fn lemma_no_collection_issue(collections: Seq<(String, CollectionConfig)>, roles: Seq<Role>, n: nat)
    ensures
        first_collection_issue(collections, roles, n) is None <==> forall|i: int| 0 <= i < n ==> collection_issue(collections, roles, i) is None,
    decreases n,
{
    if n > 0 {
        lemma_no_collection_issue(collections, roles, (n - 1) as nat);
    }
}

proof fn lemma_no_bad_library(libraries: Seq<(String, LibraryConfig)>, collections: Seq<(String, CollectionConfig)>, n: nat)
    ensures
        first_bad_library(libraries, collections, n) is None <==> forall|i: int| 0 <= i < n ==> ((#[trigger] libraries[i]).1.collection matches Some(c) ==> has_collection(collections, c@)),
    decreases n,
{
    if n > 0 {
        lemma_no_bad_library(libraries, collections, (n - 1) as nat);
    }
}

/// In a valid configuration the role ids are distinct, and at most one
/// role is the owner role, one the user role and one the guest role.
pub proof fn lemma_valid_config_roles(c: Config)
    requires
        config_error(c) is None,
    ensures
        forall|i: int, j: int|
            0 <= i < j < c.roles@.len() ==> {
                &&& (#[trigger] c.roles@[i]).id@ != (#[trigger] c.roles@[j]).id@
                &&& !(c.roles@[i].owner && c.roles@[j].owner)
                &&& !(c.roles@[i].user && c.roles@[j].user)
                &&& !(c.roles@[i].guest && c.roles@[j].guest)
            },
{
    let roles = c.roles@;
    lemma_no_role_issue(roles, roles.len());
    assert forall|i: int, j: int| 0 <= i < j < roles.len() implies {
        &&& (#[trigger] roles[i]).id@ != (#[trigger] roles[j]).id@
        &&& !(roles[i].owner && roles[j].owner)
        &&& !(roles[i].user && roles[j].user)
        &&& !(roles[i].guest && roles[j].guest)
    } by {
        assert(role_issue(roles, j) is None);
    }
}

/// In a valid configuration every rule, global or of a collection, names a
/// role that the ranking of the roles ranks, and every library that names a
/// collection names an existing one.
pub proof fn lemma_valid_config_references(c: Config)
    requires
        config_error(c) is None,
    ensures
        forall|k: int|
            0 <= k < c.permissions@.len() ==> role_keys(c.roles@).contains_key(
                (#[trigger] c.permissions@[k]).1@,
            ),
        forall|i: int, k: int|
            0 <= i < c.collections@.len() && 0 <= k < c.collections@[i].1.permissions@.len()
                ==> role_keys(c.roles@).contains_key(
                (#[trigger] c.collections@[i].1.permissions@[k]).1@,
            ),
        forall|i: int|
            0 <= i < c.libraries@.len() ==> ((#[trigger] c.libraries@[i]).1.collection matches Some(
                id,
            ) ==> has_collection(c.collections@, id@)),
{
    let roles = c.roles@;
    lemma_no_missing_role(c.permissions@, roles, c.permissions@.len());
    assert forall|k: int| 0 <= k < c.permissions@.len() implies role_keys(roles).contains_key(
        (#[trigger] c.permissions@[k]).1@,
    ) by {
        lemma_role_keys_domain(roles, c.permissions@[k].1@);
    }
    lemma_no_collection_issue(c.collections@, roles, c.collections@.len());
    assert forall|i: int, k: int|
        0 <= i < c.collections@.len() && 0 <= k < c.collections@[i].1.permissions@.len()
            implies role_keys(roles).contains_key((#[trigger] c.collections@[i].1.permissions@[k]).1@) by {
        assert(collection_issue(c.collections@, roles, i) is None);
        let block = c.collections@[i].1.permissions@;
        lemma_no_missing_role(block, roles, block.len());
        assert(has_role(roles, block[k].1@));
        lemma_role_keys_domain(roles, block[k].1@);
    }
    lemma_no_bad_library(c.libraries@, c.collections@, c.libraries@.len());
}

proof fn lemma_no_duplicate_in_collections(collections: Seq<(String, CollectionConfig)>, n: nat)
    requires
        n <= collections.len(),
    ensures
        first_duplicate_in_collections(collections, n) is None <==> forall|i: int| 0 <= i < n ==> keys_distinct(
            (#[trigger] collections[i]).1.permissions@,
        ),
    decreases n,
{
    if n > 0 {
        lemma_no_duplicate_in_collections(collections, (n - 1) as nat);
        let block = collections[n - 1].1.permissions@;
        lemma_first_duplicate_none(block, block.len());
        assert(block.take(block.len() as int) =~= block);
    }
}

/// In a valid configuration no mapping repeats a key: the rules of the
/// permissions block, the collections, the libraries and the rules of each
/// collection all have distinct keys.
pub proof fn lemma_valid_config_keys_distinct(c: Config)
    requires
        config_error(c) is None,
    ensures
        keys_distinct(c.permissions@),
        keys_distinct(c.collections@),
        keys_distinct(c.libraries@),
        forall|i: int| 0 <= i < c.collections@.len() ==> keys_distinct((#[trigger] c.collections@[i]).1.permissions@),
{
    lemma_first_duplicate_none(c.permissions@, c.permissions@.len());
    assert(c.permissions@.take(c.permissions@.len() as int) =~= c.permissions@);
    lemma_first_duplicate_none(c.collections@, c.collections@.len());
    assert(c.collections@.take(c.collections@.len() as int) =~= c.collections@);
    lemma_first_duplicate_none(c.libraries@, c.libraries@.len());
    assert(c.libraries@.take(c.libraries@.len() as int) =~= c.libraries@);
    lemma_no_duplicate_in_collections(c.collections@, c.collections@.len());
}

/// The roles block passes exactly when role ids are distinct and at most
/// one role is the owner role, one the user role and one the guest role.
pub proof fn lemma_roles_valid_iff(roles: Seq<Role>)
    ensures
        first_role_issue(roles, roles.len()) is None <==> roles_valid(roles),
{
    lemma_no_role_issue(roles, roles.len());
    if first_role_issue(roles, roles.len()) is None {
        assert forall|i: int, j: int| 0 <= i < j < roles.len() implies {
            &&& (#[trigger] roles[i]).id@ != (#[trigger] roles[j]).id@
            &&& !(roles[i].owner && roles[j].owner)
            &&& !(roles[i].user && roles[j].user)
            &&& !(roles[i].guest && roles[j].guest)
        } by {
            assert(role_issue(roles, j) is None);
        }
    }
    if roles_valid(roles) {
        assert forall|j: int| 0 <= j < roles.len() implies role_issue(roles, j) is None by {
            if exists|k: int| 0 <= k < j && (#[trigger] roles[k]).id@ == roles[j].id@ {
                let k = choose|k: int| 0 <= k < j && (#[trigger] roles[k]).id@ == roles[j].id@;
                assert(roles[k].id@ != roles[j].id@);
            }
            if roles[j].owner && exists|k: int| 0 <= k < j && (#[trigger] roles[k]).owner {
                let k = choose|k: int| 0 <= k < j && (#[trigger] roles[k]).owner;
                assert(!(roles[k].owner && roles[j].owner));
            }
            if roles[j].user && exists|k: int| 0 <= k < j && (#[trigger] roles[k]).user {
                let k = choose|k: int| 0 <= k < j && (#[trigger] roles[k]).user;
                assert(!(roles[k].user && roles[j].user));
            }
            if roles[j].guest && exists|k: int| 0 <= k < j && (#[trigger] roles[k]).guest {
                let k = choose|k: int| 0 <= k < j && (#[trigger] roles[k]).guest;
                assert(!(roles[k].guest && roles[j].guest));
            }
        }
    }
}

/// A block of rules passes exactly when every rule names one of the roles.
pub proof fn lemma_rules_name_roles_iff(block: Seq<(String, String)>, roles: Seq<Role>)
    ensures
        first_missing_role(block, roles, block.len()) is None <==> rules_name_roles(block, roles),
{
    lemma_no_missing_role(block, roles, block.len());
}

/// The collections block passes exactly when at most one collection is the
/// default one and every rule of every collection names one of the roles.
pub proof fn lemma_collections_valid_iff(collections: Seq<(String, CollectionConfig)>, roles: Seq<Role>)
    ensures
        first_collection_issue(collections, roles, collections.len()) is None <==> collections_valid(
            collections,
            roles,
        ),
{
    lemma_no_collection_issue(collections, roles, collections.len());
    assert forall|i: int| 0 <= i < collections.len() implies (collection_issue(collections, roles, i) is None
        <==> (!(collections[i].1.default && exists|j: int| 0 <= j < i && (#[trigger] collections[j]).1.default)
        && rules_name_roles(collections[i].1.permissions@, roles))) by {
        let block = collections[i].1.permissions@;
        lemma_rules_name_roles_iff(block, roles);
    }
    if first_collection_issue(collections, roles, collections.len()) is None {
        assert forall|i: int, j: int| 0 <= i < j < collections.len() implies !((#[trigger] collections[i]).1.default
            && (#[trigger] collections[j]).1.default) by {
            assert(collection_issue(collections, roles, j) is None);
        }
        assert forall|i: int| 0 <= i < collections.len() implies rules_name_roles(
            (#[trigger] collections[i]).1.permissions@,
            roles,
        ) by {
            assert(collection_issue(collections, roles, i) is None);
        }
    }
    if collections_valid(collections, roles) {
        assert forall|i: int| 0 <= i < collections.len() implies collection_issue(collections, roles, i) is None by {
            if collections[i].1.default && exists|j: int| 0 <= j < i && (#[trigger] collections[j]).1.default {
                let j = choose|j: int| 0 <= j < i && (#[trigger] collections[j]).1.default;
                assert(!(collections[j].1.default && collections[i].1.default));
            }
        }
    }
}

/// The libraries block passes exactly when every library that names a
/// collection names an existing one.
pub proof fn lemma_libraries_valid_iff(libraries: Seq<(String, LibraryConfig)>, collections: Seq<(String, CollectionConfig)>)
    ensures
        first_bad_library(libraries, collections, libraries.len()) is None <==> libraries_valid(
            libraries,
            collections,
        ),
{
    lemma_no_bad_library(libraries, collections, libraries.len());
}

/// A configuration passes validation exactly when it is valid: its mappings
/// repeat no key, role ids are distinct, at most one role is the owner role,
/// one the user role and one the guest role, every rule (global or of a
/// collection) names a role, at most one collection is the default one,
/// and every library that names a collection names an existing one.
pub proof fn lemma_config_valid_iff(c: Config)
    ensures
        config_error(c) is None <==> config_valid(c),
{
    lemma_first_duplicate_none(c.permissions@, c.permissions@.len());
    assert(c.permissions@.take(c.permissions@.len() as int) =~= c.permissions@);
    lemma_first_duplicate_none(c.collections@, c.collections@.len());
    assert(c.collections@.take(c.collections@.len() as int) =~= c.collections@);
    lemma_first_duplicate_none(c.libraries@, c.libraries@.len());
    assert(c.libraries@.take(c.libraries@.len() as int) =~= c.libraries@);
    lemma_no_duplicate_in_collections(c.collections@, c.collections@.len());
    lemma_roles_valid_iff(c.roles@);
    lemma_rules_name_roles_iff(c.permissions@, c.roles@);
    lemma_collections_valid_iff(c.collections@, c.roles@);
    lemma_libraries_valid_iff(c.libraries@, c.collections@);
}

impl Config {
    /// Check the configuration: that no mapping repeats a key, then the
    /// roles block, then the rules of the permissions block, then the
    /// collections block, then the libraries block. The existence of paths
    /// is not checked here.
    pub fn validate(&self) -> (r: Result<(), ConfigError>)
        ensures
            r matches Ok(()) ==> config_error(*self) is None,
            r matches Err(e) ==> config_error(*self) == Some(e),
            r is Ok <==> config_valid(*self),
    {
        proof {
            lemma_config_valid_iff(*self);
        }
        validate_distinct_keys(self)?;
        validate_roles(&self.roles)?;
        match validate_perms_block_roles(&self.permissions, &self.roles) {
            Ok(()) => {},
            Err(i) => {
                return Err(ConfigError::Permissions { index: i });
            },
        }
        validate_collections(&self.collections, &self.roles)?;
        validate_libraries(&self.libraries, &self.collections)?;
        Ok(())
    }
}

} // verus!
