//! A mergeable min-priority queue in the Fibonacci-heap style: amortized O(1)
//! push and peek, amortized O(log n) pop.  Two structural strategies implement
//! the same contract: a head-anchored root list and a tail-anchored root array.

pub mod consolidate;
pub mod head_heap;
pub mod laws;
pub mod order;
pub mod tail_heap;
pub mod tree;
