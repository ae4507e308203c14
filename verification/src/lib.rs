//! A verified reader for the core of the 7z container format: the metadata
//! parser, the folder/coder-graph model, the stream map, and the extraction
//! of per-file byte contents, with the LZMA/LZMA2 entropy decoders treated
//! as external collaborators.
pub mod archive;
pub mod bitset;
pub mod buffer;
pub mod decode;
pub mod encoded_header;
pub mod error;
pub mod header;
pub mod nid;
pub mod read_utils;
