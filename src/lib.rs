//! A device-memory sub-allocator: requests for byte ranges of a given size,
//! alignment and placement class are packed into a few large native
//! allocations ("blocks"), each split into chunks.
//!
//! - `align`: alignment and granularity-page arithmetic.
//! - `tlsf`: a two-level segregated-fit index over free chunks.
//! - `suballocator`: the chunks of one block, split on allocation and
//!   merged on free.
//! - `memory`: blocks, and the regions that hold the blocks of one memory
//!   type.
//! - `allocator`: the façade that picks a memory type and its region.
//! - `laws`: properties that relate several operations.

pub mod align;
pub mod allocator;
pub mod laws;
pub mod memory;
pub mod suballocator;
pub mod tlsf;
