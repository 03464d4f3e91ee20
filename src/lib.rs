//! A bump-allocation arena.
//!
//! An arena serves allocations of any size and alignment by moving a cursor
//! downward through a chunk of memory. Single allocations are never freed on
//! their own (only the most recent one can be given back); the whole arena is
//! reclaimed at once by [`Bump::reset`] or by dropping it.
//!
//! Each arena owns its memory as a list of chunks. A chunk is a contiguous
//! run of addresses in the arena's address space, backed by a byte buffer;
//! allocation hands out addresses, and the arena's `read` and `write` methods
//! reach the bytes behind them.
//!
//! - `layout`: sizes, alignments and their arithmetic.
//! - `model`: the mathematical model that the contracts speak of.
//! - `bump`: the arena, its fast and slow paths, reset and introspection.
//! - `allocator`: allocate, deallocate, grow and shrink by layout.
//! - `boxed`: an owned block in an arena.
//! - `laws`: what holds of every allocation, proved over the model.
pub mod allocator;
pub mod boxed;
pub mod bump;
pub mod error;
pub mod laws;
pub mod layout;
pub mod model;

pub use bump::Bump;
pub use error::{handle_alloc_error, AllocErr};
pub use layout::{Layout, LayoutErr, UnstableLayoutMethods};
