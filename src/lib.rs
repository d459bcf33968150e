//! Search-space definition for the Sequential Ordering Problem: instances,
//! partial tours, feasible-children generation and dominance keys.
pub mod bitset;
pub mod format;
pub mod sop;
pub mod soptree;
