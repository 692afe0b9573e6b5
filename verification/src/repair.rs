//! The repair protocol's final decision: after the staged recovery
//! the collaborator layer runs the store's quick integrity check and
//! hands the reported string here; only a literal `ok` clears the store.

use vstd::prelude::*;

use crate::text::str_eq;
use crate::types::DbError;

verus! {

/// The outcome of the final verification step: `Ok` exactly when the
/// integrity check answered `ok`; anything else is reported as
/// corruption carrying the checker's words.
pub fn repair_outcome(quick_check: &str) -> (r: Result<(), DbError>)
    ensures
        (r is Ok) <==> quick_check@ == "ok"@,
        r matches Err(e) ==> e matches DbError::Corruption { message } && message@
            == quick_check@,
{
    if str_eq(quick_check, "ok") {
        Ok(())
    } else {
        Err(DbError::Corruption { message: quick_check.to_owned() })
    }
}

} // verus!
