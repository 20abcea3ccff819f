//! User groups and the privilege rule for admin-adjacent operations.

use crate::error::Error;
use vstd::prelude::*;

verus! {

/// The group a user belongs to.
#[derive(Debug, Clone, Copy, PartialEq, Eq, Structural, Hash)]
pub enum UserGroup {
    Admin,
    Registered,
    Unregistered,
}

/// Admit only administrators: any other group is turned away with a
/// privilege failure naming the group required and the group held.
pub fn try_admin(current: UserGroup) -> (r: Result<(), Error>)
    ensures
        r is Ok <==> current == UserGroup::Admin,
        r is Err ==> r->Err_0 == (Error::PrivilegeFailure {
            desired: UserGroup::Admin,
            current,
        }),
{
    match current {
        UserGroup::Admin => Ok(()),
        g => Err(Error::PrivilegeFailure { desired: UserGroup::Admin, current: g }),
    }
}

} // verus!
