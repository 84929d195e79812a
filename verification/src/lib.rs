//! Schedulable work units over a shared resource registry.
//!
//! A [`registry::Registry`] stores one instance per resource type, each
//! identified by a `u64` type identifier and guarded by explicit borrow
//! counters. A [`system::System`] wraps a function together with the ordered
//! list of resource accesses it declares (shared reads first, then exclusive
//! writes); it can lazily initialize those resources, acquire them under the
//! borrow discipline, and run the wrapped function against them, so that an
//! external scheduler can detect conflicts between units of work without
//! inspecting their bodies.

pub mod registry;
pub mod system;
