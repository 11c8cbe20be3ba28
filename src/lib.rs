//! A Doug Lea style allocator engine over a modelled address space.
//!
//! The engine hands out payload addresses carved from segments that a
//! platform provides, keeps boundary-tag bookkeeping for every chunk, splits
//! and coalesces chunks eagerly, and holds the bytes of every payload so that
//! the contents of allocations are part of what is specified.
pub mod chunk;
pub mod dummy;
pub mod engine;
pub mod laws;
pub mod layout;
pub mod sys;

pub use engine::Dlmalloc;
pub use sys::{GlobalSystem, Platform, System};
