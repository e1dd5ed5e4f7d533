//! Account linking: attaching a notification handle to the user row
//! that carries a given linking token.

use vstd::prelude::*;

use crate::models::User;
use crate::registry::{
    first_user_matching, user_for, user_with_handle, Registry, UserField,
};

verus! {

/// Why a user operation failed.
#[derive(Clone, Copy, PartialEq, Eq, Structural, Debug)]
pub enum UserError {
    /// The store rejected the operation.
    DatabaseError,
}

/// User-account operations over the store.
pub struct UsersService {}

impl UsersService {
    pub fn new() -> (r: UsersService) {
        UsersService {  }
    }

    /// Record `tg_user_id` as the notification handle of the user whose
    /// linking token is `link`, returning the updated user; an unknown
    /// token changes nothing and returns nobody.
    pub fn link_user(&self, registry: &mut Registry, link: &str, tg_user_id: &str) -> (r: Result<
        Option<User>,
        UserError,
    >)
        requires
            old(registry).wf(),
        ensures
            final(registry).wf(),
            final(registry)@.hosts == old(registry)@.hosts,
            final(registry)@.groups == old(registry)@.groups,
            final(registry)@.lease_limits == old(registry)@.lease_limits,
            first_user_matching(old(registry)@.users, UserField::Link, link@) is None ==> (r
                matches Ok(o) && o is None && final(registry)@.users == old(registry)@.users),
            first_user_matching(old(registry)@.users, UserField::Link, link@) matches Some(us)
                ==> (r matches Ok(o) && o matches Some(u2) && u2 == user_for(
                final(registry)@.users,
                us.id,
            ) && final(registry)@.users.len() == old(registry)@.users.len() && (forall|k: int|
                0 <= k < old(registry)@.users.len() && (#[trigger] old(registry)@.users[k]).id
                    != us.id ==> final(registry)@.users[k] == old(registry)@.users[k]) && (forall|
                k: int,
            |
                0 <= k < old(registry)@.users.len() && (#[trigger] old(registry)@.users[k]).id
                    == us.id ==> user_with_handle(
                    old(registry)@.users[k],
                    final(registry)@.users[k],
                    tg_user_id@,
                ))),
    {
        match registry.get_user_by_link(link) {
            None => Ok(None),
            Some(us) => {
                proof {
                    lemma_first_user_matching_in(
                        registry@.users,
                        UserField::Link,
                        link@,
                    );
                }
                registry.set_user_tg_handle(&us.id, tg_user_id);
                proof {
                    assert(crate::registry::has_user(registry@.users, us.id)) by {
                        let w = choose|w: int|
                            0 <= w < old(registry)@.users.len() && #[trigger] old(
                                registry,
                            )@.users[w] == us;
                        assert(registry@.users[w].id == us.id);
                    }
                }
                match registry.get_user_by_id(&us.id) {
                    Some(u2) => Ok(Some(u2)),
                    None => vstd::pervasive::unreached(),
                }
            },
        }
    }
}

/// A found user is one of the table's rows.
proof fn lemma_first_user_matching_in(
    users: Seq<User>,
    field: UserField,
    val: Seq<char>,
)
    ensures
        first_user_matching(users, field, val) matches Some(us) ==> exists|w: int|
            0 <= w < users.len() && #[trigger] users[w] == us,
    decreases users.len(),
{
    if users.len() > 0 {
        if crate::registry::user_field(users.first(), field) == Some(val) {
            assert(users[0] == first_user_matching(users, field, val)->0);
        } else {
            lemma_first_user_matching_in(users.drop_first(), field, val);
            if first_user_matching(users, field, val) is Some {
                let us = first_user_matching(users, field, val)->0;
                let w = choose|w: int|
                    0 <= w < users.drop_first().len() && #[trigger] users.drop_first()[w] == us;
                assert(users[w + 1] == us);
            }
        }
    }
}

} // verus!
