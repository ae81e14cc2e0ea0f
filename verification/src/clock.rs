//! The one clock read of a reconciliation cycle.

use vstd::prelude::*;

verus! {

/// Relies on chrono: `Utc::now().to_rfc3339()` renders the current UTC time
/// as an RFC 3339 string. The result depends on the clock, so nothing is
/// assumed of it here; callers validate the bytes against the store's
/// timestamp grammar before recording them.
#[verifier::external_body]
pub(crate) fn current_timestamp() -> Vec<u8> {
    chrono::Utc::now().to_rfc3339().into_bytes()
}

} // verus!
