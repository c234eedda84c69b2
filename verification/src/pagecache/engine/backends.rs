//! Implementations of the page engine.

pub mod custom;
pub mod flush_laws;
pub mod pool_wf;
pub mod pool;
pub mod pool_laws;
