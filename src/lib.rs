//! Reading and writing NBT (named binary tag) documents, in the big-endian
//! edition without file framing and in the little-endian edition with its
//! eight-byte file header.
//!
//! `format` states the wire format as spec functions; `reader` and `writer`
//! are proved to follow it, and `laws` proves that decoding what was encoded
//! gives the value back.
pub mod compress;
pub mod db;
pub mod document;
pub mod format;
pub mod laws;
pub mod num;
pub mod reader;
pub mod text;
pub mod types;
pub mod value;
pub mod writer;

pub use db::{
    is_local_player_key, is_player_key, is_player_record_key, parse_player_record,
    parse_remote_players, RawZlibCompressor, ZlibCompressor,
};
pub use document::{read_from_bytes, write_to_bytes};
pub use reader::NbtReader;
pub use types::{Compression, Endian, NbtError, NbtTree, NbtValue};
pub use writer::NbtWriter;
