//! HPACK (RFC 7541): prefix integers, Huffman coding, the header tables,
//! and the block decoder and encoder built on them.
pub mod decoder;
pub mod encoder;
pub mod huffman;
pub mod huffman_table;
pub mod integer;
pub mod table;
