//! A size-classed sub-allocator for device memory.
//!
//! Backing blocks are bought from an upstream owner and sliced into equally
//! sized chunks. A [`node::ChunkedNode`] manages the chunks of one size; a
//! [`allocator::ChunkedAllocator`] routes each request to the node of the
//! smallest power-of-two size class that fits it.
//!
//! The library performs no memory operation itself. Where the upstream owner
//! has to act, a function returns what the owner is asked for and another
//! function takes what the owner answered.
pub mod memory;
pub mod node;
pub mod node_laws;
pub mod allocator;
pub mod allocator_laws;
