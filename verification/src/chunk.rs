//! Chunks, the block records that layers hold, and their decoders.

use crate::dictionary::{dict, Dictionary};
use crate::error::ParseError;
use crate::grammar::{
    block_value, spec_block, spec_blocks, spec_body, spec_chunk, spec_chunk_common, spec_layer,
    spec_sized_dict, spec_tag, ChunkView,
};
use crate::wire::{le_i32, le_u32, le_u32_value, length_data, tag};
use vstd::prelude::*;
use vstd::slice::slice_to_vec;

verus! {

/// A voxel block placed in a layer: which block, and where on the grid.
#[derive(Debug, Clone, Copy, PartialEq, Eq, Structural)]
pub struct Block {
    pub index: i32,
    pub x: i32,
    pub y: i32,
    pub z: i32,
}

/// The six kinds of chunk, in the order in which their tags are tried.
#[derive(Debug, Clone, Copy, PartialEq, Eq, Structural)]
pub enum ChunkKind {
    Img,
    Prev,
    Bl16,
    Layr,
    Camr,
    Ligh,
}

/// One tagged section of a file.
#[derive(Debug)]
pub enum Chunk {
    /// Image metadata.
    Img { dict: Dictionary },
    /// A preview image, as the bytes of the file.
    Prev { data: Vec<u8> },
    /// The payload of one voxel block, as the bytes of the file.
    Bl16 { data: Vec<u8> },
    /// A layer: the blocks placed in it, and its metadata.
    Layr { blocks: Vec<Block>, dict: Dictionary },
    /// Camera settings.
    Camr { dict: Dictionary },
    /// Light settings.
    Ligh { dict: Dictionary },
}

impl View for Chunk {
    type V = ChunkView;

    open spec fn view(&self) -> ChunkView {
        match *self {
            Chunk::Img { dict } => ChunkView::Img { dict: dict@ },
            Chunk::Prev { data } => ChunkView::Prev { data: data@ },
            Chunk::Bl16 { data } => ChunkView::Bl16 { data: data@ },
            Chunk::Layr { blocks, dict } => ChunkView::Layr { blocks: blocks@, dict: dict@ },
            Chunk::Camr { dict } => ChunkView::Camr { dict: dict@ },
            Chunk::Ligh { dict } => ChunkView::Ligh { dict: dict@ },
        }
    }
}

impl ChunkKind {
    /// The four ASCII bytes that open a chunk of this kind.
    pub fn tag(&self) -> (name: [u8; 4])
        ensures
            name@ == spec_tag(*self),
    {
        let name: [u8; 4] = match self {
            ChunkKind::Img => [0x49, 0x4d, 0x47, 0x20],
            ChunkKind::Prev => [0x50, 0x52, 0x45, 0x56],
            ChunkKind::Bl16 => [0x42, 0x4c, 0x31, 0x36],
            ChunkKind::Layr => [0x4c, 0x41, 0x59, 0x52],
            ChunkKind::Camr => [0x43, 0x41, 0x4d, 0x52],
            ChunkKind::Ligh => [0x4c, 0x49, 0x47, 0x48],
        };
        assert(name@ =~= spec_tag(*self));
        name
    }
}

/// Reads one block record: five signed numbers, of which the last is let go.
pub fn block(input: &[u8]) -> (r: Result<(&[u8], Block), ParseError>)
    ensures
        spec_block(input@) == (match r {
            Ok((rest, found)) => Ok((rest@, found)),
            Err(e) => Err(e),
        }),
{
    let (after_index, index) = match le_i32(input) {
        Ok(found) => found,
        Err(_) => {
            return Err(ParseError::Truncated);
        },
    };
    let (after_x, x) = match le_i32(after_index) {
        Ok(found) => found,
        Err(_) => {
            return Err(ParseError::Truncated);
        },
    };
    let (after_y, y) = match le_i32(after_x) {
        Ok(found) => found,
        Err(_) => {
            return Err(ParseError::Truncated);
        },
    };
    let (after_z, z) = match le_i32(after_y) {
        Ok(found) => found,
        Err(_) => {
            return Err(ParseError::Truncated);
        },
    };
    let (rest, _) = match le_i32(after_z) {
        Ok(found) => found,
        Err(_) => {
            return Err(ParseError::Truncated);
        },
    };
    proof {
        assert(after_x@ == input@.skip(8));
        assert(after_y@ == input@.skip(12));
        assert(after_z@ == input@.skip(16));
        assert(rest@ == input@.skip(20));
    }
    Ok((rest, Block { index, x, y, z }))
}

/// Reads a count and then that many block records.
pub fn blocks(input: &[u8]) -> (r: Result<(&[u8], Vec<Block>), ParseError>)
    ensures
        spec_blocks(input@) == (match r {
            Ok((rest, found)) => Ok((rest@, found@)),
            Err(e) => Err(e),
        }),
{
    let (first, count) = match le_u32(input) {
        Ok(found) => found,
        Err(_) => {
            return Err(ParseError::Truncated);
        },
    };
    let mut cur = first;
    let mut found: Vec<Block> = Vec::new();
    let mut i: u32 = 0;
    while i < count
        invariant
            i <= count,
            count == le_u32_value(input@),
            input@.len() >= 4 + 20 * i,
            cur@ == input@.skip(4 + 20 * i),
            found@ == Seq::new(i as nat, |j: int| block_value(input@.skip(4 + 20 * j))),
        decreases count - i,
    {
        match block(cur) {
            Ok((rest, one)) => {
                proof {
                    assert(rest@ == input@.skip(4 + 20 * (i + 1)));
                    assert(found@.push(one) == Seq::new(
                        (i + 1) as nat,
                        |j: int| block_value(input@.skip(4 + 20 * j)),
                    ));
                }
                found.push(one);
                cur = rest;
            },
            Err(_) => {
                return Err(ParseError::InvalidBlockCount);
            },
        }
        i += 1;
    }
    Ok((cur, found))
}

/// Passes over the four bytes of a declared size, which nothing uses, and
/// reads the dictionary behind them.
pub fn sized_dict(input: &[u8]) -> (r: Result<(&[u8], Dictionary), ParseError>)
    ensures
        spec_sized_dict(input@) == (match r {
            Ok((rest, found)) => Ok((rest@, found@)),
            Err(e) => Err(e),
        }),
{
    match le_u32(input) {
        Ok((after_size, _)) => dict(after_size),
        Err(_) => Err(ParseError::Truncated),
    }
}

/// Reads the body of a layer: a declared size that nothing uses, the block
/// records, the dictionary.
pub fn layer(input: &[u8]) -> (r: Result<(&[u8], Chunk), ParseError>)
    ensures
        spec_layer(input@) == (match r {
            Ok((rest, found)) => Ok((rest@, found@)),
            Err(e) => Err(e),
        }),
{
    let after_size = match le_u32(input) {
        Ok((after_size, _)) => after_size,
        Err(_) => {
            return Err(ParseError::Truncated);
        },
    };
    let (after_blocks, placed) = match blocks(after_size) {
        Ok(found) => found,
        Err(e) => {
            return Err(e);
        },
    };
    match dict(after_blocks) {
        Ok((rest, found)) => Ok((rest, Chunk::Layr { blocks: placed, dict: found })),
        Err(e) => Err(e),
    }
}

/// Reads what stands between the tag and the trailing four bytes of a chunk
/// of the given kind.
pub fn body(kind: ChunkKind, input: &[u8]) -> (r: Result<(&[u8], Chunk), ParseError>)
    ensures
        spec_body(kind, input@) == (match r {
            Ok((rest, found)) => Ok((rest@, found@)),
            Err(e) => Err(e),
        }),
{
    match kind {
        ChunkKind::Img => match sized_dict(input) {
            Ok((rest, found)) => Ok((rest, Chunk::Img { dict: found })),
            Err(e) => Err(e),
        },
        ChunkKind::Prev => match length_data(input) {
            Ok((rest, data)) => Ok((rest, Chunk::Prev { data: slice_to_vec(data) })),
            Err(_) => Err(ParseError::Truncated),
        },
        ChunkKind::Bl16 => match length_data(input) {
            Ok((rest, data)) => Ok((rest, Chunk::Bl16 { data: slice_to_vec(data) })),
            Err(_) => Err(ParseError::Truncated),
        },
        ChunkKind::Layr => layer(input),
        ChunkKind::Camr => match sized_dict(input) {
            Ok((rest, found)) => Ok((rest, Chunk::Camr { dict: found })),
            Err(e) => Err(e),
        },
        ChunkKind::Ligh => match sized_dict(input) {
            Ok((rest, found)) => Ok((rest, Chunk::Ligh { dict: found })),
            Err(e) => Err(e),
        },
    }
}

/// Reads a whole chunk of the given kind: the tag, the body, and four
/// trailing bytes that are taken unexamined.
///
/// `UnrecognizedChunkTag` says that the tag is not there, so that another
/// kind may be tried; every other error is final.
pub fn chunk_common(kind: ChunkKind, input: &[u8]) -> (r: Result<(&[u8], Chunk), ParseError>)
    ensures
        spec_chunk_common(kind, input@) == (match r {
            Ok((rest, found)) => Ok((rest@, found@)),
            Err(e) => Err(e),
        }),
        (r matches Err(ParseError::UnrecognizedChunkTag)) <==> !spec_tag(kind).is_prefix_of(
            input@,
        ),
{
    let name = kind.tag();
    let after_tag = match tag(name.as_slice(), input) {
        Ok((after_tag, _)) => after_tag,
        Err(_) => {
            return Err(ParseError::UnrecognizedChunkTag);
        },
    };
    let (after_body, found) = match body(kind, after_tag) {
        Ok(found) => found,
        Err(e) => {
            return Err(e);
        },
    };
    match le_u32(after_body) {
        Ok((rest, _)) => Ok((rest, found)),
        Err(_) => Err(ParseError::Truncated),
    }
}

/// Reads an image chunk, tagged `"IMG "`.
pub fn img(input: &[u8]) -> (r: Result<(&[u8], Chunk), ParseError>)
    ensures
        spec_chunk_common(ChunkKind::Img, input@) == (match r {
            Ok((rest, found)) => Ok((rest@, found@)),
            Err(e) => Err(e),
        }),
{
    chunk_common(ChunkKind::Img, input)
}

/// Reads a preview chunk, tagged `"PREV"`.
pub fn prev(input: &[u8]) -> (r: Result<(&[u8], Chunk), ParseError>)
    ensures
        spec_chunk_common(ChunkKind::Prev, input@) == (match r {
            Ok((rest, found)) => Ok((rest@, found@)),
            Err(e) => Err(e),
        }),
{
    chunk_common(ChunkKind::Prev, input)
}

/// Reads a voxel-block chunk, tagged `"BL16"`.
pub fn bl16(input: &[u8]) -> (r: Result<(&[u8], Chunk), ParseError>)
    ensures
        spec_chunk_common(ChunkKind::Bl16, input@) == (match r {
            Ok((rest, found)) => Ok((rest@, found@)),
            Err(e) => Err(e),
        }),
{
    chunk_common(ChunkKind::Bl16, input)
}

/// Reads a layer chunk, tagged `"LAYR"`.
pub fn layr(input: &[u8]) -> (r: Result<(&[u8], Chunk), ParseError>)
    ensures
        spec_chunk_common(ChunkKind::Layr, input@) == (match r {
            Ok((rest, found)) => Ok((rest@, found@)),
            Err(e) => Err(e),
        }),
{
    chunk_common(ChunkKind::Layr, input)
}

/// Reads a camera chunk, tagged `"CAMR"`.
pub fn camr(input: &[u8]) -> (r: Result<(&[u8], Chunk), ParseError>)
    ensures
        spec_chunk_common(ChunkKind::Camr, input@) == (match r {
            Ok((rest, found)) => Ok((rest@, found@)),
            Err(e) => Err(e),
        }),
{
    chunk_common(ChunkKind::Camr, input)
}

/// Reads a light chunk, tagged `"LIGH"`.
pub fn ligh(input: &[u8]) -> (r: Result<(&[u8], Chunk), ParseError>)
    ensures
        spec_chunk_common(ChunkKind::Ligh, input@) == (match r {
            Ok((rest, found)) => Ok((rest@, found@)),
            Err(e) => Err(e),
        }),
{
    chunk_common(ChunkKind::Ligh, input)
}

/// Reads one chunk of whatever kind stands at the front of `input`, trying
/// the kinds in their fixed order and taking the first whose tag is there.
pub fn chunk(input: &[u8]) -> (r: Result<(&[u8], Chunk), ParseError>)
    ensures
        spec_chunk(input@) == (match r {
            Ok((rest, found)) => Ok((rest@, found@)),
            Err(e) => Err(e),
        }),
{
    match img(input) {
        Err(ParseError::UnrecognizedChunkTag) => {},
        other => {
            return other;
        },
    }
    match prev(input) {
        Err(ParseError::UnrecognizedChunkTag) => {},
        other => {
            return other;
        },
    }
    match bl16(input) {
        Err(ParseError::UnrecognizedChunkTag) => {},
        other => {
            return other;
        },
    }
    match layr(input) {
        Err(ParseError::UnrecognizedChunkTag) => {},
        other => {
            return other;
        },
    }
    match camr(input) {
        Err(ParseError::UnrecognizedChunkTag) => {},
        other => {
            return other;
        },
    }
    ligh(input)
}

} // verus!
