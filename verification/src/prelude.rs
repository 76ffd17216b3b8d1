//! Re-exports the commonly used items of the crate.
pub use crate::error::{RecolError, RecolResult};
pub use crate::graph::{Direction, Edge, Net, Node};
