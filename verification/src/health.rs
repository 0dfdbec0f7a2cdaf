//! Health and readiness reporting.
//!
//! The probes themselves — a database round trip, a directory stat, a
//! write/read/delete cycle — are I/O and live at the process boundary.
//! What is decided here: how one check's outcome is recorded, and how the
//! three outcomes combine into the readiness verdict.

use vstd::prelude::*;

verus! {

/// The recorded outcome of one readiness check.
#[derive(Debug)]
pub struct CheckStatus {
    /// Whether the check passed.
    pub ok: bool,
    /// What went wrong, when it did.
    pub error: Option<String>,
    /// What was checked.
    pub info: Option<String>,
    /// How long the check took.
    pub duration_ms: u128,
}

/// Record one check's outcome.
pub fn build_check_status(
    ok: bool,
    error: Option<String>,
    info: Option<String>,
    duration_ms: u128,
) -> (r: CheckStatus)
    ensures
        r.ok == ok,
        r.error == error,
        r.info == info,
        r.duration_ms == duration_ms,
{
    CheckStatus { ok, error, info, duration_ms }
}

/// Combine the three checks into the readiness verdict and its HTTP
/// status: ready only when all pass.
pub fn readiness_verdict(sqlite_ok: bool, storage_dir_ok: bool, disk_io_ok: bool) -> (r: (
    bool,
    u16,
))
    ensures
        r.0 == (sqlite_ok && storage_dir_ok && disk_io_ok),
        r.1 == (if sqlite_ok && storage_dir_ok && disk_io_ok {
            200u16
        } else {
            503u16
        }),
{
    let overall = sqlite_ok && storage_dir_ok && disk_io_ok;
    if overall {
        (true, 200)
    } else {
        (false, 503)
    }
}

} // verus!
