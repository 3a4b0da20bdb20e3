//! A linked list of listeners in slots that never move.

pub mod indexes;
pub mod inner;
pub mod link;
pub mod slots;
