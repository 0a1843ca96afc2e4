//! Sparse, byte-addressable memory image store.
//!
//! A [`sparse_mem::SparseMem`] records the populated byte ranges of an
//! otherwise unbounded address space, as produced by reading a device's
//! memory incrementally over a slow transport. Ranges arriving adjacent to
//! already-known data are coalesced, overlapping inserts are rejected, and
//! covered ranges can be read back exactly.

pub mod sparse_mem;
