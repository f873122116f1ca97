//! A verified static Huffman codec: frequency analysis, prefix-code tree
//! construction, bit-level packing, and a self-describing container format,
//! with machine-checked proofs of the round-trip property.

pub mod bits;
pub mod tree;
pub mod codes;
pub mod header;
pub mod codec;
