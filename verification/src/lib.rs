//! A parallel system scheduler: systems declare the resources they read and
//! write, are packed into conflict-free stages, and are dispatched so that no
//! two running tasks hold conflicting access to a resource.

pub mod atomic_bit_set;
pub mod builder;
pub mod collections;
pub mod event;
pub mod holding;
pub mod ids;
pub mod layout;
pub mod mappings;
pub mod or_extend;
pub mod query;
pub mod resources;
pub mod scheduler;
pub mod system;
pub mod try_default;
