//! Fresh identifiers for catalog records and body sections. Identity of a
//! record is by its identifier, not by its file path, and identifiers are
//! regenerated on every scan.

use vstd::prelude::*;

verus! {

/// Relies on uuid::Uuid::new_v4, a freshly drawn version-4 identifier, taken
/// as its 128-bit value. The value is random, so nothing is promised of it.
#[verifier::external_body]
pub(crate) fn fresh_id() -> u128 {
    uuid::Uuid::new_v4().as_u128()
}

} // verus!
