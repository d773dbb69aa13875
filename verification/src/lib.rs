//! Unbounded multicast and unicast message queues over a linked list of
//! fixed-size blocks.
//!
//! - [`spmc`]: multicast with one producer. Every reader gets every message
//!   pushed after the reader was made, in the order of the pushes.
//! - [`mpmc`]: multicast with any number of writers. Every reader gets every
//!   message pushed after the reader was made; the messages of one writer
//!   arrive in the order of its pushes.
//! - [`unicast`]: every message goes to exactly one of the readers that
//!   compete for it.
//!
//! Every queue keeps its blocks in a [`block_list::BlockList`]: a store in
//! which each block carries a reference counter and an optional link to its
//! successor. Readers and writers are cursors that name a block of that store
//! and hold one counted reference to it, so a reader keeps the unread suffix of
//! the queue alive, and a block leaves the store as soon as its counter reaches
//! zero.
//!
//! The queues are plain values, and one call runs at a time: every call that
//! touches the blocks takes the queue it works on, and its contract says how
//! the queue, the cursor and the counters change. A handle is given up by its
//! `drop`, which takes the queue too. Module [`laws`] states what follows
//! for a run of calls.
pub mod block;
pub mod block_list;
pub mod chain;
pub mod laws;
pub mod lending_iterator;
pub mod mpmc;
pub mod reader;
pub mod spmc;
pub mod unicast;

pub use block::CacheLineAlign;
pub use lending_iterator::LendingIterator;
pub use reader::{ClonedReader, LendingReader};
