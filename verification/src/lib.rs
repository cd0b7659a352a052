//! Metadata extraction for FPGA bitstream container files.
//!
//! A bitstream file starts with a short header of length-prefixed, tagged text
//! fields and continues with the configuration payload. This library decodes
//! the header, normalises its fields, hashes the payload and the whole file,
//! and renders the result as one CSV row.

pub mod decode;
pub mod digest;
pub mod discover;
pub mod error;
pub mod header;
pub mod laws;
pub mod record;
pub mod text;
