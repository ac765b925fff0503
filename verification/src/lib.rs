//! A bootstrap memory allocator for early kernel bring-up, together with a
//! small open-addressing hash map used by the same bring-up code.
//!
//! The allocator manages one fixed contiguous address region and serves two
//! allocation granularities out of it: byte-granularity objects grow forward
//! from the low end, whole pages grow backward from the high end.

pub mod early;
pub mod hash_map;
