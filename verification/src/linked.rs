//! The linked-chunk allocator: chunk views, the bin index, the overlay that
//! composes them, and the lock-guarded allocator built on top.
pub mod allocator;
pub mod audit;
pub mod bins;
pub mod chunk;
pub mod growth;
pub mod in_space;
pub mod laws;
pub mod lists;
pub mod layout;
pub mod model;
pub mod overlay;
pub mod reshape;
pub mod service;
