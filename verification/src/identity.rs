//! Identity tokens for graph nodes.

use vstd::prelude::*;

verus! {

/// The bits that every random (version 4) UUID has in common: the version
/// nibble is 4 and the two variant bits are `10`.
pub open spec fn is_random_uuid(id: u128) -> bool {
    id & 0x0000_0000_0000_f000_c000_0000_0000_0000u128 == 0x0000_0000_0000_4000_8000_0000_0000_0000u128
}

/// Draws a fresh identity token with `uuid::Uuid::new_v4` and hands it out
/// as the 128-bit number that `Uuid::as_u128` gives for it.
///
/// The token is random, so nothing is claimed of it but the version and
/// variant bits that `new_v4` sets on every UUID it returns. `new_v4` panics
/// if the operating system cannot supply random bytes.
#[verifier::external_body]
pub(crate) fn fresh_uuid() -> (id: u128)
    ensures
        is_random_uuid(id),
{
    uuid::Uuid::new_v4().as_u128()
}

} // verus!
