//! A verified kernel heap allocator library: a bump allocator, a first-fit
//! free-list allocator, and a fixed-size-block allocator with a free-list
//! fallback, together with the alignment arithmetic they share.
//!
//! Addresses are modelled as plain `usize` values into a fixed heap range
//! `[heap_start, heap_end)` that the caller has mapped before `init`. The
//! free lists are kept as explicit tables of `(address, size)` regions rather
//! than records threaded through raw memory, so every allocation decision is
//! verified: results are in bounds, aligned, and disjoint from every
//! outstanding allocation.

pub mod allocator;
