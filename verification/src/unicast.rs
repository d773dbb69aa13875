//! Unicast queue: every message goes to exactly one of the readers.
pub mod block;
pub mod list;
pub mod read_guard;
pub mod spmc;
