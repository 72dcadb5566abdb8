//! In-memory most-significant-byte radix sort for large arrays of `u64` keys.
//!
//! Two implementations of the same ascending unsigned sort are provided:
//! a naive recursive variant over growable per-bucket arrays
//! ([`radix_naive::radix_sort`]), and a scheduled variant that manages
//! fixed-size slices through a pool and walks a partially-expanded bucket
//! tree depth-first ([`scheduler::Scheduler::split`]). Both are verified to
//! produce a sorted permutation of their input.

pub mod checker;
pub mod digits;
pub mod laws;
pub mod lcg;
pub mod radix_naive;
pub mod scheduler;
pub mod sort_small;
pub mod splitters;
