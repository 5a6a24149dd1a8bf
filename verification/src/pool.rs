//! The worker pool's verified surface. The pool itself — the threads, the
//! shared job queue, the joining on shutdown — is concurrency its caller
//! owns; what the library fixes is the construction policy: a pool of zero
//! workers can never make progress, so a zero size is a fatal construction
//! error and is rejected before any thread is spawned, never silently
//! coerced.

use vstd::prelude::*;
use vstd::string::StringExecFns;

verus! {

/// The message reported when a pool of zero workers is requested.
pub open spec fn spec_pool_error_text() -> Seq<char> {
    "A worker pool needs at least one worker."@
}

/// Validates a requested worker-pool size: a positive size is accepted as
/// it is, and zero is rejected.
pub fn validate_pool_size(requested: usize) -> (r: Result<usize, String>)
    ensures
        requested > 0 ==> r == Ok::<usize, String>(requested),
        requested == 0 ==> (r matches Err(e) && e@ == spec_pool_error_text()),
{
    if requested == 0 {
        Err(String::from_str("A worker pool needs at least one worker."))
    } else {
        Ok(requested)
    }
}

} // verus!
