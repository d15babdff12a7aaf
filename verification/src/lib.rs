//! A per-file Huffman compression engine.
//!
//! The library packs a set of named byte buffers into a single archive
//! image and can losslessly restore them.  It is organised in layers:
//! bit-level helpers (`bitwise`), a bit-granular reader and writer over
//! byte buffers (`read`, `write`), the archive metadata and symbol types
//! (`structures`), the Huffman prefix tree (`tree`), the archive layout as
//! specification (`codec`), and the compression and decompression drivers
//! (`compress`, `decompress`).
//!
//! All file-system access, command-line handling and thread scheduling
//! live outside the library; callers hand in plain byte vectors and get
//! plain byte vectors back.

pub mod bitwise;
pub mod codec;
pub mod compress;
pub mod decompress;
pub mod structures;
pub mod read;
pub mod tree;
pub mod write;

