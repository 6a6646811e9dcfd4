//! A linked-chunk memory allocator over a contiguous byte space.
//!
//! The space begins with a table of free-list heads, followed by a gapless
//! run of chunks that ends in a minimum-sized, always-free top chunk. All
//! bookkeeping lives inside the managed bytes.
pub mod fuzz;
pub mod linked;
pub mod powers;
pub mod space;
pub mod switchable;
pub mod words;
