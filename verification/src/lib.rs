//! A thread-safe indexed object pool with automatic return and attach/detach
//! semantics.
//!
//! The pool reuses expensive-to-allocate objects, partitioned into independent
//! named sub-pools ("indexes"), each an ordered stack of entries. Sub-pools are
//! bounded in size, the number of indexes is bounded, and entries expire a
//! configured number of milliseconds after their first construction.
//!
//! The sequential engine lives in [`store`] and carries the full functional
//! contracts; [`pool`] wraps one [`store::Store`] in a reader-writer lock and
//! offers the shared, caller-facing interface, including the [`pool::Reusable`]
//! guard that hands an object back to its pool when it goes out of scope.

pub mod entry;
pub mod order;
pub mod pool;
pub mod store;

pub use entry::Inner;
pub use pool::Pool;
pub use pool::Reusable;
pub use store::Store;
