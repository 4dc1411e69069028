//! The check that guards the administrator's requests.

use vstd::prelude::*;
use crate::error::ContractError;
use crate::order::same;
use crate::state::Store;

verus! {

/// Succeeds if and only if `sender` is the administrator of the store.
pub fn check_is_admin(storage: &Store, sender: &str) -> (r: Result<(), ContractError>)
    ensures
        sender@ == storage@.config.admin_addr ==> r is Ok,
        sender@ != storage@.config.admin_addr ==> r == Err::<(), ContractError>(
            ContractError::Unauthorized {  },
        ),
{
    if same(sender, storage.config().admin_addr.as_str()) {
        Ok(())
    } else {
        Err(ContractError::Unauthorized {  })
    }
}

} // verus!
