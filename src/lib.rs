//! Static Huffman coding of byte streams: frequency analysis, tree
//! construction, code-table derivation, bit packing and a self-describing
//! container format.

pub mod bits;
pub mod code;
pub mod container;
pub mod freq;
pub mod round_trip;
pub mod tree;
