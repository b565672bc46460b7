//! The parts of setting up the server's state that compute: ranking the
//! roles and turning the configured rules into a permission table.
use vstd::prelude::*;

use crate::auth::{Auth, RoleKey};
use crate::perms::table::{
    by_strength, empty_state, entry_accepted, entries_view, register_entries, PermissionTable, PermissionTableBuilder,
    RegisterError,
};
use crate::perms::permission::Permission;

verus! {

/// The configured rules `(key, role id)` with each role id replaced by the
/// rank `mapping` gives it.
pub open spec fn ranked_entries(permissions: Seq<(String, String)>, mapping: Map<Seq<char>, RoleKey>) -> Seq<(Seq<char>, RoleKey)> {
    Seq::new(permissions.len(), |k: int| (permissions[k].0@, mapping[permissions[k].1@]))
}

/// The configured rules with each role id replaced by its rank. Every role
/// id must be ranked.
pub fn rank_permissions(auth: &Auth, permissions: &Vec<(String, String)>) -> (r: Vec<(String, RoleKey)>)
    requires
        forall|k: int| 0 <= k < permissions@.len() ==> auth.role_mapping@.contains_key(
            (#[trigger] permissions@[k]).1@,
        ),
    ensures
        entries_view(r@) == ranked_entries(permissions@, auth.role_mapping@),
        forall|k: int| 0 <= k < r@.len() ==> (#[trigger] r@[k]).0@ == permissions@[k].0@,
{
    let mut r: Vec<(String, RoleKey)> = Vec::new();
    let mut i: usize = 0;
    while i < permissions.len()
        invariant
            i <= permissions@.len(),
            r@.len() == i,
            forall|k: int| 0 <= k < permissions@.len() ==> auth.role_mapping@.contains_key(
                (#[trigger] permissions@[k]).1@,
            ),
            forall|k: int| 0 <= k < i ==> (#[trigger] r@[k]).0@ == permissions@[k].0@ && r@[k].1
                == auth.role_mapping@[permissions@[k].1@],
        decreases permissions@.len() - i,
    {
        let key = permissions[i].0.clone();
        let role = *auth.role_mapping.get(permissions[i].1.as_str()).unwrap();
        r.push((key, role));
        i = i + 1;
    }
    assert(entries_view(r@) =~= ranked_entries(permissions@, auth.role_mapping@));
    r
}

/// The permission table of the configured global rules, whose role ids
/// must all be ranked by `auth`: every rule is registered in order, and the
/// lists are then ordered by strength. The first rejected rule key is
/// reported with its position.
pub fn permission_table(auth: &Auth, permissions: &Vec<(String, String)>) -> (r: Result<PermissionTable, RegisterError>)
    requires
        forall|k: int| 0 <= k < permissions@.len() ==> auth.role_mapping@.contains_key(
            (#[trigger] permissions@[k]).1@,
        ),
    ensures
        ({
            let (state, err) = register_entries(
                empty_state(),
                ranked_entries(permissions@, auth.role_mapping@),
                None,
            );
            &&& r matches Ok(t) ==> err is None && forall|i: int|
                0 <= i < Permission::COUNT ==> (#[trigger] t@[i]).to_multiset() == state[i].to_multiset()
            &&& r matches Err(e) ==> err == Some((e.entry as int, e.kind))
        }),
        r matches Ok(t) ==> t@.len() == Permission::COUNT,
        r matches Ok(t) ==> forall|i: int| 0 <= i < Permission::COUNT ==> by_strength(#[trigger] t@[i]),
        r is Ok <==> forall|k: int|
            0 <= k < permissions@.len() ==> entry_accepted((#[trigger] permissions@[k]).0@, None),
{
    let entries = rank_permissions(auth, permissions);
    assert(entries@.len() == permissions@.len()) by {
        assert(entries_view(entries@).len() == entries@.len());
    }
    let mut builder = PermissionTableBuilder::new();
    let res = builder.parse_and_register(&entries, None);
    proof {
        if forall|k: int| 0 <= k < permissions@.len() ==> entry_accepted((#[trigger] permissions@[k]).0@, None) {
            assert forall|k: int| 0 <= k < entries@.len() implies entry_accepted((#[trigger] entries@[k]).0@, None) by {
                assert(entry_accepted(permissions@[k].0@, None));
            }
        }
        if forall|k: int| 0 <= k < entries@.len() ==> entry_accepted((#[trigger] entries@[k]).0@, None) {
            assert forall|k: int| 0 <= k < permissions@.len() implies entry_accepted((#[trigger] permissions@[k]).0@, None) by {
                assert(entry_accepted(entries@[k].0@, None));
            }
        }
    }
    res?;
    Ok(builder.build())
}

} // verus!
