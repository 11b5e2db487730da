//! Approximate placement of short sequence reads on a set of reference
//! segments: an exact k-window index, a bounded-distance neighbour graph over
//! l-windows, and a vote-then-refine locator applied to batches of reads.
pub mod args;
pub mod dna_hash_table;
pub mod dna_read_graph;
pub mod map_reduce;
pub mod read_inputs;
pub mod sequence;
pub mod tally;
pub mod vote;
