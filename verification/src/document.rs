//! The document, and the decoder of whole files.

use crate::chunk::{chunk, Chunk};
use crate::error::ParseError;
use crate::grammar::{
    lemma_chunk_consumes, spec_chunks, spec_magic, spec_parse, ChunkView, GoxelView,
};
use crate::wire::{le_i32, le_i32_value, tag};
use vstd::prelude::*;

verus! {

/// A decoded file: its format version and its chunks, in file order.
#[derive(Debug)]
pub struct Goxel {
    version: i32,
    chunks: Vec<Chunk>,
}

/// The chunks of a list, each as mathematics.
pub open spec fn chunk_views(chunks: Seq<Chunk>) -> Seq<ChunkView> {
    Seq::new(chunks.len(), |i: int| chunks[i]@)
}

impl View for Goxel {
    type V = GoxelView;

    closed spec fn view(&self) -> GoxelView {
        GoxelView { version: self.version, chunks: chunk_views(self.chunks@) }
    }
}

impl Goxel {
    /// The format version that the file declares.
    pub fn version(&self) -> (version: i32)
        ensures
            version == self@.version,
    {
        self.version
    }

    /// The chunks of the file, in file order.
    pub fn chunks(&self) -> (chunks: &Vec<Chunk>)
        ensures
            chunk_views(chunks@) == self@.chunks,
    {
        &self.chunks
    }
}

/// Decodes a file and hands back, beside the document, the bytes behind the
/// last chunk that was recognised.
///
/// The input must begin with `"GOX "` and a four-byte version. Chunks are
/// then read until the input ends or its next four bytes are no known tag;
/// what is left from there on is no error. A chunk whose tag is known and
/// whose body is malformed fails the whole decoding.
pub fn parse(input: &[u8]) -> (r: Result<(&[u8], Goxel), ParseError>)
    ensures
        spec_parse(input@) == (match r {
            Ok((rest, found)) => Ok((rest@, found@)),
            Err(e) => Err(e),
        }),
        (r matches Err(ParseError::BadMagic)) <==> !spec_magic().is_prefix_of(input@),
{
    let magic: [u8; 4] = [0x47, 0x4f, 0x58, 0x20];
    assert(magic@ =~= spec_magic());
    let after_magic = match tag(magic.as_slice(), input) {
        Ok((after_magic, _)) => after_magic,
        Err(_) => {
            return Err(ParseError::BadMagic);
        },
    };
    let (first, version) = match le_i32(after_magic) {
        Ok(found) => found,
        Err(_) => {
            return Err(ParseError::Truncated);
        },
    };
    assert(first@ == input@.skip(8));
    let mut cur = first;
    let mut chunks: Vec<Chunk> = Vec::new();
    assert(chunk_views(chunks@) == Seq::<ChunkView>::empty());
    loop
        invariant
            spec_magic().is_prefix_of(input@),
            input@.len() >= 8,
            version == le_i32_value(input@.skip(4)),
            spec_chunks(input@.skip(8), Seq::empty()) == spec_chunks(cur@, chunk_views(chunks@)),
        decreases cur@.len(),
    {
        match chunk(cur) {
            Ok((rest, found)) => {
                proof {
                    lemma_chunk_consumes(cur@);
                    assert(chunk_views(chunks@.push(found)) == chunk_views(chunks@).push(found@));
                }
                chunks.push(found);
                cur = rest;
            },
            Err(ParseError::UnrecognizedChunkTag) => {
                return Ok((cur, Goxel { version, chunks }));
            },
            Err(e) => {
                return Err(e);
            },
        }
    }
}

/// Decodes a file into a document. Bytes behind the last recognised chunk
/// are let go.
pub fn decode(input: &[u8]) -> (r: Result<Goxel, ParseError>)
    ensures
        match r {
            Ok(found) => spec_parse(input@) matches Ok((_, document)) && document == found@,
            Err(e) => spec_parse(input@) matches Err(reason) && reason == e,
        },
        (r matches Err(ParseError::BadMagic)) <==> !spec_magic().is_prefix_of(input@),
{
    match parse(input) {
        Ok((_, found)) => Ok(found),
        Err(e) => Err(e),
    }
}

} // verus!
