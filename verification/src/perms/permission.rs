//! Permission keys: the actions that rules grant, named by dotted paths
//! such as `post.edit.tag`.
use vstd::prelude::*;

use crate::text::{chars_of, ranges_eq};

verus! {

/// The kind of resource that a permission is about; the first component of
/// its key.
#[derive(Clone, Copy, Debug, PartialEq, Eq, Structural)]
pub enum PermissionScope {
    Post,
    User,
    Tag,
}

/// Every action a rule can grant, in declaration order.
#[derive(Clone, Copy, Debug, PartialEq, Eq, PartialOrd, Ord, Hash, Structural)]
pub enum Permission {
    PostView,
    PostEditTag,
    PostDelete,
    PostMoveOut,
    PostMoveIn,
    UserInvite,
    UserEditRole,
    UserModMute,
    UserModBan,
    TagEditName,
    TagImplicationCreate,
    TagImplicationEdit,
    TagImplicationDelete,
}

/// The reasons `Permission::from_key` rejects a key.
#[derive(Clone, Copy, Debug, PartialEq, Eq, Structural)]
pub enum KeyLookupError {
    /// A key without a trailing `*` that names no permission.
    UnknownKey,
    /// A key with a trailing `*` whose prefix starts no permission's key.
    NoMatch,
}

/// All permissions in declaration order.
pub open spec fn all_permissions() -> Seq<Permission> {
    seq![
        Permission::PostView,
        Permission::PostEditTag,
        Permission::PostDelete,
        Permission::PostMoveOut,
        Permission::PostMoveIn,
        Permission::UserInvite,
        Permission::UserEditRole,
        Permission::UserModMute,
        Permission::UserModBan,
        Permission::TagEditName,
        Permission::TagImplicationCreate,
        Permission::TagImplicationEdit,
        Permission::TagImplicationDelete,
    ]
}

/// How many times `c` occurs in `s` from position `i` on.
pub open spec fn count_char_from(s: Seq<char>, c: char, i: int) -> nat
    decreases s.len() - i,
{
    if i < 0 || i >= s.len() {
        0
    } else {
        (if s[i] == c { 1nat } else { 0nat }) + count_char_from(s, c, i + 1)
    }
}

/// Whether `v` ends in the wildcard `*`.
pub open spec fn is_wildcard(v: Seq<char>) -> bool {
    v.len() > 0 && v.last() == '*'
}

/// The permissions that the key `v` covers, in declaration order: for
/// `prefix*` those whose key starts with `prefix`, otherwise those whose key
/// is `v`.
pub open spec fn keys_matching(v: Seq<char>) -> Seq<Permission> {
    if is_wildcard(v) {
        all_permissions().filter(|p: Permission| v.drop_last().is_prefix_of(p.key_text()))
    } else {
        all_permissions().filter(|p: Permission| p.key_text() == v)
    }
}

/// What `Permission::from_key` returns for the key `v`.
pub open spec fn lookup_key(v: Seq<char>) -> Result<Seq<Permission>, KeyLookupError> {
    let m = keys_matching(v);
    if m.len() > 0 {
        Ok(m)
    } else if is_wildcard(v) {
        Err(KeyLookupError::NoMatch)
    } else {
        Err(KeyLookupError::UnknownKey)
    }
}

/// The key `*` covers every permission, in declaration order.
pub proof fn lemma_star_covers_all()
    ensures
        lookup_key(seq!['*']) == Ok::<Seq<Permission>, KeyLookupError>(all_permissions()),
{
    let v = seq!['*'];
    assert(v.drop_last() =~= Seq::<char>::empty());
    let pred = |p: Permission| v.drop_last().is_prefix_of(p.key_text());
    assert forall|p: Permission| #[trigger] pred(p) by {
        assert(p.key_text().subrange(0, 0) =~= Seq::<char>::empty());
    }
    let all = all_permissions();
    assert(all.filter(pred) =~= all) by {
        all.lemma_filter_len(pred);
        reveal(Seq::filter);
        assert(forall|k: int| 0 <= k < all.len() ==> pred(#[trigger] all[k]));
        lemma_filter_all(all, pred);
    }
}

/// Filtering by a predicate that every element satisfies keeps the
/// sequence as it is.
proof fn lemma_filter_all<A>(s: Seq<A>, pred: spec_fn(A) -> bool)
    requires
        forall|k: int| 0 <= k < s.len() ==> pred(#[trigger] s[k]),
    ensures
        s.filter(pred) == s,
    decreases s.len(),
{
    reveal(Seq::filter);
    if s.len() > 0 {
        assert forall|k: int| 0 <= k < s.drop_last().len() implies pred(#[trigger] s.drop_last()[k]) by {
            assert(s.drop_last()[k] == s[k]);
        }
        lemma_filter_all(s.drop_last(), pred);
        assert(s.drop_last().push(s.last()) =~= s);
    }
}

/// The key of a permission names exactly that permission: keys are
/// distinct, so a rule written with a permission's key is exact.
pub proof fn lemma_key_names_its_permission(p: Permission)
    ensures
        lookup_key(p.key_text()) == Ok::<Seq<Permission>, KeyLookupError>(seq![p]),
{
    reveal_strlit("post.view");
    reveal_strlit("post.edit.tag");
    reveal_strlit("post.delete");
    reveal_strlit("post.move.out");
    reveal_strlit("post.move.in");
    reveal_strlit("user.invite");
    reveal_strlit("user.edit.role");
    reveal_strlit("user.mod.mute");
    reveal_strlit("user.mod.ban");
    reveal_strlit("tag.edit.name");
    reveal_strlit("tag.implication.create");
    reveal_strlit("tag.implication.edit");
    reveal_strlit("tag.implication.delete");
    let v = p.key_text();
    assert(!is_wildcard(v));
    let pred = |q: Permission| q.key_text() == v;
    assert forall|q: Permission| #[trigger] pred(q) <==> q == p by {
        if q.key_text() == v {
            assert(q.key_text().len() == v.len());
            assert(q.key_text()[0] == v[0]);
            assert(q.key_text()[5] == v[5]);
            if v.len() > 16 {
                assert(q.key_text()[16] == v[16]);
            }
        }
    }
    reveal_with_fuel(Seq::filter, 14);
    assert(all_permissions().filter(pred) =~= seq![p]);
}

/// Each permission's key is its declared dotted path, scope first, and
/// looking that path up names exactly that permission: `post.move.in` is
/// `PostMoveIn`, `post.move.out` is `PostMoveOut`, and so on.
pub proof fn lemma_permission_keys()
    ensures
        Permission::PostView.key_text() == "post.view"@,
        Permission::PostEditTag.key_text() == "post.edit.tag"@,
        Permission::PostDelete.key_text() == "post.delete"@,
        Permission::PostMoveOut.key_text() == "post.move.out"@,
        Permission::PostMoveIn.key_text() == "post.move.in"@,
        Permission::UserInvite.key_text() == "user.invite"@,
        Permission::UserEditRole.key_text() == "user.edit.role"@,
        Permission::UserModMute.key_text() == "user.mod.mute"@,
        Permission::UserModBan.key_text() == "user.mod.ban"@,
        Permission::TagEditName.key_text() == "tag.edit.name"@,
        Permission::TagImplicationCreate.key_text() == "tag.implication.create"@,
        Permission::TagImplicationEdit.key_text() == "tag.implication.edit"@,
        Permission::TagImplicationDelete.key_text() == "tag.implication.delete"@,
        lookup_key("post.view"@) == Ok::<Seq<Permission>, KeyLookupError>(seq![Permission::PostView]),
        lookup_key("post.edit.tag"@) == Ok::<Seq<Permission>, KeyLookupError>(seq![Permission::PostEditTag]),
        lookup_key("post.delete"@) == Ok::<Seq<Permission>, KeyLookupError>(seq![Permission::PostDelete]),
        lookup_key("post.move.out"@) == Ok::<Seq<Permission>, KeyLookupError>(seq![Permission::PostMoveOut]),
        lookup_key("post.move.in"@) == Ok::<Seq<Permission>, KeyLookupError>(seq![Permission::PostMoveIn]),
        lookup_key("user.invite"@) == Ok::<Seq<Permission>, KeyLookupError>(seq![Permission::UserInvite]),
        lookup_key("user.edit.role"@) == Ok::<Seq<Permission>, KeyLookupError>(seq![Permission::UserEditRole]),
        lookup_key("user.mod.mute"@) == Ok::<Seq<Permission>, KeyLookupError>(seq![Permission::UserModMute]),
        lookup_key("user.mod.ban"@) == Ok::<Seq<Permission>, KeyLookupError>(seq![Permission::UserModBan]),
        lookup_key("tag.edit.name"@) == Ok::<Seq<Permission>, KeyLookupError>(seq![Permission::TagEditName]),
        lookup_key("tag.implication.create"@) == Ok::<Seq<Permission>, KeyLookupError>(seq![Permission::TagImplicationCreate]),
        lookup_key("tag.implication.edit"@) == Ok::<Seq<Permission>, KeyLookupError>(seq![Permission::TagImplicationEdit]),
        lookup_key("tag.implication.delete"@) == Ok::<Seq<Permission>, KeyLookupError>(seq![Permission::TagImplicationDelete]),
{
    lemma_key_names_its_permission(Permission::PostView);
    lemma_key_names_its_permission(Permission::PostEditTag);
    lemma_key_names_its_permission(Permission::PostDelete);
    lemma_key_names_its_permission(Permission::PostMoveOut);
    lemma_key_names_its_permission(Permission::PostMoveIn);
    lemma_key_names_its_permission(Permission::UserInvite);
    lemma_key_names_its_permission(Permission::UserEditRole);
    lemma_key_names_its_permission(Permission::UserModMute);
    lemma_key_names_its_permission(Permission::UserModBan);
    lemma_key_names_its_permission(Permission::TagEditName);
    lemma_key_names_its_permission(Permission::TagImplicationCreate);
    lemma_key_names_its_permission(Permission::TagImplicationEdit);
    lemma_key_names_its_permission(Permission::TagImplicationDelete);
}

impl Permission {
    /// The number of permissions.
    pub const COUNT: usize = 13;

    /// All permissions in declaration order.
    pub const MEMBERS: [Permission; 13] = [
        Permission::PostView,
        Permission::PostEditTag,
        Permission::PostDelete,
        Permission::PostMoveOut,
        Permission::PostMoveIn,
        Permission::UserInvite,
        Permission::UserEditRole,
        Permission::UserModMute,
        Permission::UserModBan,
        Permission::TagEditName,
        Permission::TagImplicationCreate,
        Permission::TagImplicationEdit,
        Permission::TagImplicationDelete,
    ];

    /// The key of the permission: its scope and path, lower case, joined by
    /// dots.
    pub open spec fn key_text(self) -> Seq<char> {
        match self {
            Permission::PostView => "post.view"@,
            Permission::PostEditTag => "post.edit.tag"@,
            Permission::PostDelete => "post.delete"@,
            Permission::PostMoveOut => "post.move.out"@,
            Permission::PostMoveIn => "post.move.in"@,
            Permission::UserInvite => "user.invite"@,
            Permission::UserEditRole => "user.edit.role"@,
            Permission::UserModMute => "user.mod.mute"@,
            Permission::UserModBan => "user.mod.ban"@,
            Permission::TagEditName => "tag.edit.name"@,
            Permission::TagImplicationCreate => "tag.implication.create"@,
            Permission::TagImplicationEdit => "tag.implication.edit"@,
            Permission::TagImplicationDelete => "tag.implication.delete"@,
        }
    }

    /// The position of the permission in declaration order.
    pub open spec fn index_spec(self) -> nat {
        match self {
            Permission::PostView => 0,
            Permission::PostEditTag => 1,
            Permission::PostDelete => 2,
            Permission::PostMoveOut => 3,
            Permission::PostMoveIn => 4,
            Permission::UserInvite => 5,
            Permission::UserEditRole => 6,
            Permission::UserModMute => 7,
            Permission::UserModBan => 8,
            Permission::TagEditName => 9,
            Permission::TagImplicationCreate => 10,
            Permission::TagImplicationEdit => 11,
            Permission::TagImplicationDelete => 12,
        }
    }

    /// The scope of the permission: the first component of its key.
    pub open spec fn spec_scope(&self) -> PermissionScope {
        match self {
            Permission::PostView | Permission::PostEditTag | Permission::PostDelete
            | Permission::PostMoveOut | Permission::PostMoveIn => PermissionScope::Post,
            Permission::UserInvite | Permission::UserEditRole | Permission::UserModMute
            | Permission::UserModBan => PermissionScope::User,
            Permission::TagEditName | Permission::TagImplicationCreate
            | Permission::TagImplicationEdit | Permission::TagImplicationDelete => PermissionScope::Tag,
        }
    }

    /// The position of the permission in declaration order, which indexes
    /// permission tables.
    pub fn as_usize(self) -> (r: usize)
        ensures
            r == self.index_spec(),
            r < Self::COUNT,
    {
        match self {
            Permission::PostView => 0,
            Permission::PostEditTag => 1,
            Permission::PostDelete => 2,
            Permission::PostMoveOut => 3,
            Permission::PostMoveIn => 4,
            Permission::UserInvite => 5,
            Permission::UserEditRole => 6,
            Permission::UserModMute => 7,
            Permission::UserModBan => 8,
            Permission::TagEditName => 9,
            Permission::TagImplicationCreate => 10,
            Permission::TagImplicationEdit => 11,
            Permission::TagImplicationDelete => 12,
        }
    }

    /// The scope of the permission.
    #[verifier::when_used_as_spec(spec_scope)]
    pub fn scope(&self) -> (r: PermissionScope)
        ensures
            r == self.spec_scope(),
    {
        match self {
            Permission::PostView | Permission::PostEditTag | Permission::PostDelete
            | Permission::PostMoveOut | Permission::PostMoveIn => PermissionScope::Post,
            Permission::UserInvite | Permission::UserEditRole | Permission::UserModMute
            | Permission::UserModBan => PermissionScope::User,
            Permission::TagEditName | Permission::TagImplicationCreate
            | Permission::TagImplicationEdit | Permission::TagImplicationDelete => PermissionScope::Tag,
        }
    }

    /// The key of the permission, such as `post.edit.tag`.
    pub fn as_str(self) -> (r: &'static str)
        ensures
            r@ == self.key_text(),
    {
        match self {
            Permission::PostView => "post.view",
            Permission::PostEditTag => "post.edit.tag",
            Permission::PostDelete => "post.delete",
            Permission::PostMoveOut => "post.move.out",
            Permission::PostMoveIn => "post.move.in",
            Permission::UserInvite => "user.invite",
            Permission::UserEditRole => "user.edit.role",
            Permission::UserModMute => "user.mod.mute",
            Permission::UserModBan => "user.mod.ban",
            Permission::TagEditName => "tag.edit.name",
            Permission::TagImplicationCreate => "tag.implication.create",
            Permission::TagImplicationEdit => "tag.implication.edit",
            Permission::TagImplicationDelete => "tag.implication.delete",
        }
    }

    /// The number of dots in the permission's key.
    pub fn path_depth(self) -> (r: usize)
        ensures
            r == count_char_from(self.key_text(), '.', 0),
    {
        proof {
            reveal_with_fuel(count_char_from, 24);
        }
        match self {
            Permission::PostView => {
                proof { reveal_strlit("post.view"); }
                1
            },
            Permission::PostEditTag => {
                proof { reveal_strlit("post.edit.tag"); }
                2
            },
            Permission::PostDelete => {
                proof { reveal_strlit("post.delete"); }
                1
            },
            Permission::PostMoveOut => {
                proof { reveal_strlit("post.move.out"); }
                2
            },
            Permission::PostMoveIn => {
                proof { reveal_strlit("post.move.in"); }
                2
            },
            Permission::UserInvite => {
                proof { reveal_strlit("user.invite"); }
                1
            },
            Permission::UserEditRole => {
                proof { reveal_strlit("user.edit.role"); }
                2
            },
            Permission::UserModMute => {
                proof { reveal_strlit("user.mod.mute"); }
                2
            },
            Permission::UserModBan => {
                proof { reveal_strlit("user.mod.ban"); }
                2
            },
            Permission::TagEditName => {
                proof { reveal_strlit("tag.edit.name"); }
                2
            },
            Permission::TagImplicationCreate => {
                proof { reveal_strlit("tag.implication.create"); }
                2
            },
            Permission::TagImplicationEdit => {
                proof { reveal_strlit("tag.implication.edit"); }
                2
            },
            Permission::TagImplicationDelete => {
                proof { reveal_strlit("tag.implication.delete"); }
                2
            },
        }
    }

    /// All permissions in declaration order.
    pub fn members() -> (r: Vec<Permission>)
        ensures
            r@ == all_permissions(),
    {
        let r = vec![
            Permission::PostView,
            Permission::PostEditTag,
            Permission::PostDelete,
            Permission::PostMoveOut,
            Permission::PostMoveIn,
            Permission::UserInvite,
            Permission::UserEditRole,
            Permission::UserModMute,
            Permission::UserModBan,
            Permission::TagEditName,
            Permission::TagImplicationCreate,
            Permission::TagImplicationEdit,
            Permission::TagImplicationDelete,
        ];
        assert(r@ =~= all_permissions());
        r
    }

    /// The permissions that a key covers: `post.view` covers one, and
    /// `post.move.*` (or `*`) covers every permission whose key starts with
    /// the part before the `*`, in declaration order. The key's characters
    /// are not otherwise validated.
    pub fn from_key(value: &str) -> (r: Result<Vec<Self>, KeyLookupError>)
        ensures
            r matches Ok(v) ==> lookup_key(value@) == Ok::<Seq<Permission>, KeyLookupError>(v@),
            r matches Err(e) ==> lookup_key(value@) == Err::<Seq<Permission>, KeyLookupError>(e),
    {
        let v = chars_of(value);
        assert(v@.subrange(0, v@.len() as int) =~= value@);
        Self::from_key_chars(v.as_slice(), 0, v.len())
    }

    /// `from_key` on the key `s[lo..hi]`.
    pub fn from_key_chars(s: &[char], lo: usize, hi: usize) -> (r: Result<Vec<Self>, KeyLookupError>)
        requires
            lo <= hi <= s@.len(),
        ensures
            r matches Ok(v) ==> lookup_key(s@.subrange(lo as int, hi as int)) == Ok::<
                Seq<Permission>,
                KeyLookupError,
            >(v@),
            r matches Err(e) ==> lookup_key(s@.subrange(lo as int, hi as int)) == Err::<
                Seq<Permission>,
                KeyLookupError,
            >(e),
    {
        let ghost t = s@.subrange(lo as int, hi as int);
        let wildcard = lo < hi && s[hi - 1] == '*';
        assert(wildcard == is_wildcard(t));
        let ghost pred = if wildcard {
            |p: Permission| t.drop_last().is_prefix_of(p.key_text())
        } else {
            |p: Permission| p.key_text() == t
        };
        assert(keys_matching(t) == all_permissions().filter(pred));
        let members = Self::members();
        let mut matches: Vec<Permission> = Vec::new();
        let mut i: usize = 0;
        while i < members.len()
            invariant
                lo <= hi <= s@.len(),
                t == s@.subrange(lo as int, hi as int),
                wildcard == is_wildcard(t),
                members@ == all_permissions(),
                i <= members@.len(),
                pred == (if wildcard {
                    |p: Permission| t.drop_last().is_prefix_of(p.key_text())
                } else {
                    |p: Permission| p.key_text() == t
                }),
                matches@ == members@.take(i as int).filter(pred),
            decreases members@.len() - i,
        {
            let p = members[i];
            let key = chars_of(p.as_str());
            let hit = if wildcard {
                hi - 1 - lo <= key.len() && ranges_eq(key.as_slice(), 0, hi - 1 - lo, s, lo, hi - 1)
            } else {
                ranges_eq(key.as_slice(), 0, key.len(), s, lo, hi)
            };
            proof {
                if wildcard {
                    assert(t.drop_last() =~= s@.subrange(lo as int, hi - 1));
                }
                assert(key@.subrange(0, key@.len() as int) =~= key@);
                assert(hit == pred(p));
                assert(members@.take(i + 1) =~= members@.take(i as int).push(p));
                members@.take(i as int).lemma_filter_push(p, pred);
            }
            if hit {
                matches.push(p);
            }
            i = i + 1;
        }
        assert(members@.take(members@.len() as int) =~= members@);
        if matches.len() > 0 {
            Ok(matches)
        } else if wildcard {
            Err(KeyLookupError::NoMatch)
        } else {
            Err(KeyLookupError::UnknownKey)
        }
    }
}

} // verus!
