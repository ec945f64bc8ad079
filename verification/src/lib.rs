//! Dependency queries over the results of an information-flow analysis.
//!
//! Given a set of target writes, each a memory location together with the program
//! point at which it is written, the library determines every program point and
//! every memory location that is causally connected to each target, in a chosen
//! [`Direction`], and projects the answer onto merged source spans.

pub mod analysis;
pub mod dependencies;
pub mod direction;
pub mod program;
pub mod sets;
pub mod source_map;
pub mod span;
pub mod visitor;

pub use dependencies::{compute_dependencies, compute_dependency_spans};
pub use direction::Direction;
