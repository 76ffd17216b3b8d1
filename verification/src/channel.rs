//! Hook for the job-queue helpers.  The worker pool itself spawns
//! threads and therefore lives with the embedding program; only this
//! entry point belongs to the library's surface.
use vstd::prelude::*;

verus! {

/// Reserved entry point of the channel helpers; it performs no work.
pub fn sender() {
}

} // verus!
