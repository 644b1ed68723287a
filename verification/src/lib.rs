//! Codec building blocks for 7z archives: the PPMd8 (PPMdI rev. 1) model with its
//! carry-less range coder, the framing of Brotli streams, and the computations
//! around the LZMA and LZMA2 encoders.

pub mod le_bytes;
mod arena;
pub mod error;
pub mod range_coding;
pub mod range_stream;
pub mod ppmd8;
mod ppmd8_coding;
pub mod encoder_8;
pub mod decoder_8;
pub mod brotli_frame;
pub mod lzma;
