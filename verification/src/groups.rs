//! Listing the static host groups.

use vstd::prelude::*;

use crate::models::Group;
use crate::registry::Registry;

verus! {

/// Why a group operation failed.
#[derive(Clone, Copy, PartialEq, Eq, Structural, Debug)]
pub enum GroupError {
    /// The store rejected the operation.
    DatabaseError,
}

/// Group read operations over the store.
pub struct GroupsService {}

impl GroupsService {
    pub fn new() -> (r: GroupsService) {
        GroupsService {  }
    }

    /// Every group row, in table order.
    pub fn get_all_groups(&self, registry: &Registry) -> (r: Result<Vec<Group>, GroupError>)
        ensures
            r matches Ok(v) && v@ == registry@.groups,
    {
        Ok(registry.get_groups())
    }
}

} // verus!
