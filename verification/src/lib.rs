//! Two byte-stream codecs, each a pure function from bytes to bytes and
//! back: run-length encoding (`rle`) and a sliding-window, LZ77-style
//! encoder (`lz`).
//!
//! Each codec has a model (`rle_model`, `lz_model`) that says which stream
//! stands for which bytes, and a set of laws proved over that model
//! (`rle_laws`, `lz_laws`). The contracts of `compress` and `decompress`
//! are stated over the models.
//!
//! The two codecs differ on an empty buffer. `lz::compress` accepts it and
//! gives an empty stream. `rle::compress` rejects it as `EmptyInput`: a
//! run-length stream starts with the run of the first byte, and there is
//! none. For both, an empty compressed stream holds no record and decodes
//! to no bytes.

pub mod error;
pub mod lz;
pub mod lz_laws;
pub mod lz_model;
pub mod rle;
pub mod rle_laws;
pub mod rle_model;
