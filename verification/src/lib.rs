//! Reconstruction of a control-flow graph from a linear execution trace.
//!
//! A recorded trace is segmented into basic blocks, the blocks become the
//! vertices of a graph whose edges follow the temporal order of the trace,
//! and later-discovered block starts that fall inside an existing vertex
//! are resolved by splitting that vertex in two.  Duplicate vertices can
//! be merged on request.

pub mod base;
pub mod cfg;
pub mod parsing;
pub mod storage;
pub mod trace;

pub use base::Addressable;
