//! Identities of players, cards and games: the 128 bits of a random
//! (version 4) UUID.
use vstd::prelude::*;

verus! {

/// A fresh random identity.
///
/// Relies on `uuid::Uuid::new_v4` and `Uuid::as_u128`; nothing is promised of
/// the value, which is random.
#[verifier::external_body]
pub(crate) fn fresh_id() -> (r: u128) {
    uuid::Uuid::new_v4().as_u128()
}

} // verus!
