//! Notify async tasks or threads.

pub mod chain;
pub mod event;
pub mod inner;
pub mod intrusive;
pub mod laws;
pub mod linked_list;
pub mod list;
pub mod listener;
pub mod no_std;
pub mod node;
pub mod notify;
pub mod put_off;
pub mod queue;
pub mod requests;
pub mod roster;
pub mod spin;
pub mod state;
pub mod table;
pub mod task;
pub mod util;
pub mod wakeups;
