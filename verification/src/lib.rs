//! Data-structure library centred on an arena-backed graph store:
//! nodes and edges live in two growable arrays, and adjacency is kept
//! as intrusive singly-linked lists of indices threaded through the
//! elements themselves.  A persistent singly-linked list (`Chain`), an
//! error type and a plain configuration record round the crate out.
use vstd::prelude::*;

pub mod chain;
pub mod channel;
pub mod config;
pub mod error;
pub mod graph;
pub mod prelude;

pub use error::{RecolError, RecolResult};

verus! {

/// Set-up hook for callers that want a common entry point; the library
/// itself needs no initialisation.
pub fn init() -> (r: RecolResult<()>)
    ensures
        r is Ok,
{
    Ok(())
}

} // verus!
