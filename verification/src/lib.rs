//! A request-routing core: an ordered registry of (method, path pattern,
//! handler) routes and the resolution of a (method, path) request to the
//! first route that matches it.
//!
//! Paths are compared structurally after normalization: runs of separators
//! count as one and a trailing separator is ignored. A pattern segment that
//! is exactly `*` stands for any single segment.

pub mod error;
pub mod method;
pub mod path;
pub mod router;
pub mod text;

pub use error::RouterError;
pub use method::Method;
pub use router::{Handler, Node, Router};
