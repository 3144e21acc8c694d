//! A lossless codec for fixed-width rows of tile data: each 20-byte row is
//! written as its shortest code of literals and runs, and a row seen before
//! may instead be written as a 3-byte pointer to its first code.
pub mod format;
pub mod tokens;
pub mod row;
pub mod encode;
pub mod decode;
pub mod laws;

pub use decode::decode;
pub use encode::encode;
pub use format::{CodecError, ROW_WIDTH};
pub use row::encode_row;
