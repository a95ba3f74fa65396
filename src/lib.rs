//! Permanent, packed, deduplicated storage for short strings.
//!
//! Strings of at most 255 bytes are written once each into large fixed-size
//! regions, as a length byte followed by the content. Interning a string hands
//! back a one-word handle; interning equal content again hands back the same
//! handle. Nothing stored is ever moved, changed or freed.

mod chunk;
mod registry;
mod table;

pub use chunk::{record, Chunk, CHUNK_SIZE, MAX_LEN};
pub use registry::{
    byte_len, chunk_of, lex_order, offset_of, InternError, Registry, Str, CHUNK_BYTES, MAX_CHUNKS,
};
pub use table::fx_hash_of;
