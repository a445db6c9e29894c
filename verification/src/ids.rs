//! Fresh identifiers.

use uuid::Uuid;
use vstd::prelude::*;

verus! {

/// `id` carries the version and variant marks of a random UUID.
pub open spec fn is_random_uuid(id: u128) -> bool {
    &&& (id as int / 0x1000_0000_0000_0000_0000) % 16 == 4
    &&& (id as int / 0x4000_0000_0000_0000) % 4 == 2
}

/// Calls `Uuid::new_v4` and gives the number that its bytes spell. Which number
/// is left to chance; every outcome carries the version and variant marks of a
/// random UUID. The call panics should the operating system have no random
/// bytes to give.
#[verifier::external_body]
pub(crate) fn fresh_id() -> (r: u128)
    ensures
        is_random_uuid(r),
{
    Uuid::new_v4().as_u128()
}

} // verus!
