//! What a permission check knows about the resource it is asked about.
use vstd::prelude::*;

use crate::auth::RoleKey;
use crate::perms::permission::PermissionScope;
use crate::post::{Collection, Rating};

verus! {

/// The facts about a post that post predicates read.
#[derive(Clone, Copy, Debug, PartialEq, Eq)]
pub struct PostContext {
    pub rating: Rating,
    pub score: i64,
    pub owned: bool,
    pub collection: Collection,
}

/// The facts about a user that user predicates read.
#[derive(Clone, Copy, Debug, PartialEq, Eq, Structural)]
pub struct UserContext {
    pub user_role: RoleKey,
}

/// The facts about a tag that tag predicates read (none yet).
#[derive(Clone, Copy, Debug, PartialEq, Eq, Structural)]
pub struct TagContext {}

/// The context of a check, tagged with its scope.
#[derive(Clone, Copy, Debug, PartialEq, Eq)]
pub enum ContextData {
    Post(PostContext),
    User(UserContext),
    Tag(TagContext),
}

impl ContextData {
    /// The scope of the resource this context describes.
    pub open spec fn scope(self) -> PermissionScope {
        match self {
            ContextData::Post(_) => PermissionScope::Post,
            ContextData::User(_) => PermissionScope::User,
            ContextData::Tag(_) => PermissionScope::Tag,
        }
    }
}

/// A check judges a resource as it is: the context data of a post, a user
/// or a tag is that very value, tagged with its scope, so the predicates of
/// a rule read the post's own rating, score, ownership and collection.
pub proof fn lemma_context_data_is_the_resource(p: PostContext, u: UserContext, t: TagContext)
    ensures
        p.context_data() == ContextData::Post(p),
        u.context_data() == ContextData::User(u),
        t.context_data() == ContextData::Tag(t),
        p.context_data().scope() == PermissionScope::Post,
        u.context_data().scope() == PermissionScope::User,
        t.context_data().scope() == PermissionScope::Tag,
{
}

/// A resource that permissions can be checked against.
pub trait ResourceContext {
    /// The context data that `as_enum` returns.
    spec fn context_data(&self) -> ContextData;

    /// The context as data tagged with its scope.
    fn as_enum(&self) -> (d: ContextData)
        ensures
            d == self.context_data(),
    ;
}

impl ResourceContext for PostContext {
    open spec fn context_data(&self) -> ContextData {
        ContextData::Post(*self)
    }

    fn as_enum(&self) -> (d: ContextData) {
        ContextData::Post(*self)
    }
}

impl ResourceContext for UserContext {
    open spec fn context_data(&self) -> ContextData {
        ContextData::User(*self)
    }

    fn as_enum(&self) -> (d: ContextData) {
        ContextData::User(*self)
    }
}

impl ResourceContext for TagContext {
    open spec fn context_data(&self) -> ContextData {
        ContextData::Tag(*self)
    }

    fn as_enum(&self) -> (d: ContextData) {
        ContextData::Tag(*self)
    }
}

} // verus!
