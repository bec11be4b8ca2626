//! Decoder for the chunk-based GOX voxel-scene file format.
//!
//! A file is the magic `"GOX "`, a little-endian version number and a run of
//! tagged chunks. [`parse`] turns a byte buffer into a [`Goxel`] document; the
//! grammar it follows is written down as specification functions in
//! [`grammar`], and every decoder is proved to compute exactly what those
//! functions say.

pub mod chunk;
pub mod dictionary;
pub mod document;
pub mod error;
pub mod grammar;
pub mod laws;
pub mod wire;

pub use chunk::{
    bl16, block, blocks, body, camr, chunk, chunk_common, img, layer, layr, ligh, prev, sized_dict,
    Block, Chunk, ChunkKind,
};
pub use dictionary::{dict, entry, Dictionary};
pub use document::{decode, parse, Goxel};
pub use error::ParseError;
