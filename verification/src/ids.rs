//! Replica identifiers.
//!
//! A replica is named by an opaque 128-bit token, assigned once and
//! never reused.  Inside the lattice structures the token is a plain
//! `u128`; this module draws a fresh one.

use vstd::prelude::*;

verus! {

/// Relies on uuid::Uuid::new_v4, and Uuid::as_u128 for the conversion:
/// a freshly generated random version-4 identifier, returned as its
/// 128-bit value.  The result is random, so nothing is promised of it.
#[verifier::external_body]
pub(crate) fn fresh_node_id() -> u128 {
    uuid::Uuid::new_v4().as_u128()
}

} // verus!
