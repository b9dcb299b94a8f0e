//! Verified trace generation for a zkVM's memory subsystem: coalesced
//! memory-access records are folded into per-level adapter row counts, final
//! memory is equipartitioned into fixed-width chunks, and an incrementally
//! updatable Merkle tree over all address spaces produces the segment's
//! old and new memory roots as public values.

pub mod config;
pub mod access_adapters;
pub mod boundary;
pub mod counting;
pub mod equipartition;
pub mod extensions;
pub mod hash;
pub mod math;
pub mod merkle;
pub mod phantom;
pub mod subtree;
pub mod update;
