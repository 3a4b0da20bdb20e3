//! A list of listeners for platforms without an operating system.

pub mod entries;
pub mod inner;
pub mod laws;
pub mod node;
pub mod queue;
