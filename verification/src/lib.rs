//! Codec for the custom-song region of a console game save image.
//!
//! A save image holds 150 song slots of 32768 bytes each and one 40-byte
//! common key. Each occupied slot carries a fixed header, a small sub-header
//! and a dictionary-coded payload, stamped with a rotating checksum pair and
//! a keyed authentication code. The same song can also live in a standalone
//! file: the header followed by the raw payload.

pub mod container;
pub mod endian;
pub mod error;
pub mod filename;
pub mod hash;
pub mod lzss;
pub mod packing;
pub mod record;
pub mod structs;
pub mod text;

pub use container::SavFile;
pub use error::CodecError;
pub use record::BdxRecord;
