//! Users and roles.
use moka::future::Cache;
use vstd::hash_map::StringHashMap;
use vstd::prelude::*;

verus! {

#[verifier::external_type_specification]
#[verifier::external_body]
#[verifier::reject_recursive_types(K)]
#[verifier::reject_recursive_types(V)]
#[verifier::reject_recursive_types(S)]
pub struct ExCache<K, V, S>(Cache<K, V, S>);

/// The capacity limit a user cache was made with, as its
/// `policy().max_capacity()` reports it.
pub uninterp spec fn user_cache_capacity(c: Cache<UserId, User>) -> Option<u64>;

/// The entries a user cache holds, by key.
pub uninterp spec fn user_cache_entries(c: Cache<UserId, User>) -> Map<UserId, User>;

/// `moka::future::Cache::new`: an empty cache that holds at most
/// `max_capacity` entries; its policy reports `Some(max_capacity)` as the
/// limit.
#[verifier::external_body]
fn new_user_cache(max_capacity: u64) -> (c: Cache<UserId, User>)
    ensures
        user_cache_capacity(c) == Some(max_capacity),
        user_cache_entries(c).is_empty(),
{
    Cache::new(max_capacity)
}

/// A user's database primary key.
#[derive(Clone, Copy, Debug, PartialEq, Eq, PartialOrd, Ord, Hash, Structural)]
pub struct UserId(pub usize);

/// The authentication data kept for a user.
#[derive(Clone, Copy, Debug, PartialEq, Eq, Structural)]
pub struct User {
    pub id: UserId,
    pub role: RoleKey,
}

/// The rank of a role; not a primary key. `role_a > role_b` means that
/// `role_a` is the higher role.
#[derive(Clone, Copy, Debug, PartialEq, Eq, PartialOrd, Ord, Hash, Structural)]
pub struct RoleKey(pub u16);

impl RoleKey {
    /// The rank as an index.
    pub fn i(&self) -> (r: usize)
        ensures
            r == self.0,
    {
        self.0 as usize
    }
}

/// A role as configured.
#[derive(Clone, Debug)]
pub struct Role {
    pub id: String,
    pub name: String,
    /// The role given to the owner of the instance.
    pub owner: bool,
    /// The role given to registered users.
    pub user: bool,
    /// The role given to visitors who are not logged in.
    pub guest: bool,
}

/// The rank each role id gets from a list of roles ordered from the highest
/// to the lowest: the last role gets 0, the one before it 1, and so on (as
/// a `u16`, so ranks wrap after 65536 roles). An id that occurs more than
/// once gets the rank of its first occurrence.
pub open spec fn role_keys(roles: Seq<Role>) -> Map<Seq<char>, RoleKey>
    decreases roles.len(),
{
    if roles.len() == 0 {
        Map::empty()
    } else {
        role_keys(roles.drop_first()).insert(roles[0].id@, RoleKey((roles.len() - 1) as u16))
    }
}

/// Whether `p` is the first position of its role id in `roles`.
pub open spec fn first_with_id(roles: Seq<Role>, p: int) -> bool {
    0 <= p < roles.len() && forall|q: int| 0 <= q < p ==> (#[trigger] roles[q]).id@ != roles[p].id@
}

/// Every role id gets a rank, and nothing else does.
pub proof fn lemma_role_keys_domain(roles: Seq<Role>, id: Seq<char>)
    ensures
        role_keys(roles).contains_key(id) <==> exists|p: int| 0 <= p < roles.len() && (#[trigger] roles[p]).id@ == id,
    decreases roles.len(),
{
    if roles.len() > 0 {
        lemma_role_keys_domain(roles.drop_first(), id);
        if exists|p: int| 0 <= p < roles.len() && (#[trigger] roles[p]).id@ == id {
            let p = choose|p: int| 0 <= p < roles.len() && (#[trigger] roles[p]).id@ == id;
            if p > 0 {
                assert(roles.drop_first()[p - 1] == roles[p]);
            }
        }
        if exists|p: int| 0 <= p < roles.drop_first().len() && (#[trigger] roles.drop_first()[p]).id@ == id {
            let p = choose|p: int| 0 <= p < roles.drop_first().len() && (#[trigger] roles.drop_first()[p]).id@ == id;
            assert(roles[p + 1] == roles.drop_first()[p]);
        }
    }
}

/// The role at the first position `p` of its id, among `n` roles, gets
/// the rank `n - 1 - p` (as a `u16`).
pub proof fn lemma_role_key_of_first(roles: Seq<Role>, p: int)
    requires
        first_with_id(roles, p),
    ensures
        role_keys(roles).contains_key(roles[p].id@),
        role_keys(roles)[roles[p].id@] == RoleKey((roles.len() - 1 - p) as u16),
    decreases roles.len(),
{
    if p > 0 {
        let tail = roles.drop_first();
        assert forall|q: int| 0 <= q < p - 1 implies (#[trigger] tail[q]).id@ != tail[p - 1].id@ by {
            assert(tail[q] == roles[q + 1]);
        }
        assert(tail[p - 1] == roles[p]);
        lemma_role_key_of_first(tail, p - 1);
        assert(roles[0].id@ != roles[p].id@);
    }
}

/// With at most 65536 roles and distinct ids, a role listed earlier ranks
/// strictly higher than one listed later: ranks follow the order of the
/// list, highest first.
pub proof fn lemma_earlier_role_ranks_higher(roles: Seq<Role>, p: int, q: int)
    requires
        roles.len() <= 65536,
        first_with_id(roles, p),
        first_with_id(roles, q),
        p < q,
    ensures
        role_keys(roles)[roles[p].id@].0 > role_keys(roles)[roles[q].id@].0,
{
    lemma_role_key_of_first(roles, p);
    lemma_role_key_of_first(roles, q);
}

/// Roles, their ranks, and the cache of users' authentication data.
pub struct Auth {
    /// The roles from the highest to the lowest.
    pub roles: Vec<Role>,
    /// The rank of each role id.
    pub role_mapping: StringHashMap<RoleKey>,
    /// Authentication data of recently seen users.
    pub user_cache: Cache<UserId, User>,
}

impl Auth {
    /// Rank the roles, which must be ordered from the highest to the lowest,
    /// and make an empty user cache of `user_cache_size` entries.
    pub fn new(user_cache_size: u64, roles: Vec<Role>) -> (a: Self)
        ensures
            a.roles@ == roles@,
            a.role_mapping@ == role_keys(roles@),
            user_cache_capacity(a.user_cache) == Some(user_cache_size),
            user_cache_entries(a.user_cache).is_empty(),
    {
        let n = roles.len();
        let mut role_mapping: StringHashMap<RoleKey> = StringHashMap::new();
        let mut i: usize = 0;
        assert(roles@.skip(n as int) =~= Seq::<Role>::empty());
        while i < n
            invariant
                n == roles@.len(),
                i <= n,
                role_mapping@ == role_keys(roles@.skip(n - i)),
            decreases n - i,
        {
            let role = &roles[n - 1 - i];
            let key = RoleKey(i as u16);
            proof {
                let tail = roles@.skip(n - 1 - i);
                assert(tail.drop_first() =~= roles@.skip(n - i));
                assert(tail[0] == roles@[n - 1 - i]);
                assert(tail.len() - 1 == i);
            }
            role_mapping.insert(role.id.clone(), key);
            i = i + 1;
        }
        assert(roles@.skip(0) =~= roles@);
        Auth { roles, role_mapping, user_cache: new_user_cache(user_cache_size) }
    }
}

} // verus!
