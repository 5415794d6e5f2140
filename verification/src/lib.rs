//! A fixed-capacity slot pool whose free slots are threaded into an
//! index-ordered, doubly linked list stored inside the slots themselves.

pub mod laws;
pub mod pool;
pub mod sorted;

pub use pool::EmptyEntry;
pub use pool::FilledEntry;
pub use pool::Pool;
pub use pool::PoolEntry;
pub use pool::PoolFreeIterator;
