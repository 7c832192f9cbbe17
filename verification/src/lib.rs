//! A to-do list backend: an in-memory, index-addressed list of tasks with a
//! JSON snapshot format for persistence. The store and the codec are verified;
//! reading the clock and the file system are left to the embedding application.

pub mod codec;
mod clock;
pub mod store;
pub mod task;
