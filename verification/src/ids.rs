use vstd::prelude::*;

verus! {

/// The bits of an identifier that mark it as a random (version 4, RFC 4122
/// variant) UUID, read as a big-endian `u128`.
pub const UUID_V4_MASK: u128 = 0xF000_C000_0000_0000_0000u128;

/// The value that `UUID_V4_MASK` picks out of every random UUID.
pub const UUID_V4_BITS: u128 = 0x4000_8000_0000_0000_0000u128;

/// Calls `uuid::Uuid::new_v4` and reads the UUID as a `u128` with
/// `Uuid::as_u128`. The value is random: only its version and variant bits
/// are fixed, which is all this contract states.
#[verifier::external_body]
pub(crate) fn new_id() -> (id: u128)
    ensures
        id & UUID_V4_MASK == UUID_V4_BITS,
{
    uuid::Uuid::new_v4().as_u128()
}

} // verus!
