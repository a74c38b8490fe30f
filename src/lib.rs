//! A verified core of a CRAM codec: the variable-length integers of every
//! format version, MSB-first bit streams, canonical Huffman coding, the
//! integer and byte codecs, the encoding tables of the compression header,
//! container, slice and block framing with CRC-32 and container layout, the
//! parameters, tables and stream header of the fqzcomp codec, the tokenizing
//! logic of the name-tokenizer codec, CIGAR-to-feature conversion and MD/NM
//! computation, and the decisions of a region query.

pub mod error;
pub mod version;
pub mod num;
pub mod bits;
pub mod huffman;
pub mod encoding;
pub mod compression_header;
pub mod container_header;
pub mod container;
pub mod slice_header;
pub mod codec;
pub mod fqzcomp;
pub mod block;
pub mod name_tokenizer;
pub mod query;
pub mod md_nm;
