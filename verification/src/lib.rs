//! Decoder for Minecraft "Anvil" region files and the NBT (Named Binary Tag)
//! trees embedded in them: a bounds-checked big-endian byte cursor, a chunk
//! locator for the region file's location table, a chunk extractor that
//! inflates the zlib-compressed payload, a recursive NBT parser, and a typed
//! accessor API over the decoded tag tree.

pub mod cursor;
pub mod error;
pub mod laws;
pub mod model;
pub mod parse;
pub mod region;
pub mod tag;
pub mod unambiguity;

pub use cursor::Cursor;
pub use error::NbtError;
pub use region::chunk_loc_to_byte_offset;
pub use region::extract_chunk;
pub use region::locate_chunks;
pub use region::locate_chunks_skipping;
pub use region::parse_chunks;
pub use tag::get_by_name;
pub use tag::Tag;
pub use tag::TagPayload;
