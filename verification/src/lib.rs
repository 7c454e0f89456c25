//! A fixed-capacity bump allocator over one block of bytes, and scopes on top
//! of it that hand the block back in stack order.
//!
//! The allocator owns the block and a cursor. An allocation copies an object,
//! given as bytes, to the next aligned position behind the cursor; the position
//! is the handle to the object. A scope remembers the cursor at which it was
//! made, links the objects that need cleanup into a chain that lies in the
//! block, and, when it ends, hands out the chain in the order in which the
//! destructors are due and sets the cursor back. A scope can make a child scope
//! and is locked until the child has ended.
//!
//! - `layout`: alignment arithmetic on positions.
//! - `allocator`, `linear_allocator`: the allocator, with and without a check
//!   for room.
//! - `scope_data`: the node of a chain and its layout in the block.
//! - `scope_model`: what a scope is, and what an allocation does to it.
//! - `scoped_scratch`, `scope_scratch`: the scope.
//! - `scope_laws`, `scope_nesting`: what holds of every run of a scope, and of
//!   scopes nested in one another.

pub mod allocator;
pub mod layout;
pub mod linear_allocator;
pub mod scope_data;
pub mod scope_laws;
pub mod scope_model;
pub mod scope_nesting;
pub mod scope_scratch;
pub mod scoped_scratch;

pub use allocator::AllocationError;
pub use allocator::AllocatorInternal;
pub use allocator::LinearAllocator;
pub use linear_allocator::LinearAllocatorInternal;
pub use scope_data::ScopeData;
pub use scope_scratch::ScopeScratch;
pub use scoped_scratch::ScopedScratch;
