//! Linked lists of listeners.

pub mod list;
pub mod lock_free;
pub mod mutex;
