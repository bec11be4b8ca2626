//! The format, written as mathematics.
//!
//! Each function here takes the bytes that are still unread and says what a
//! decoder must make of them: the value, and the bytes that remain after it.
//! The executable decoders of this crate are proved against these functions.

use crate::chunk::{Block, ChunkKind};
use crate::error::ParseError;
use crate::wire::{key_text, le_i32_value, le_u32_value, length_prefixed};
use vstd::prelude::*;

verus! {

/// One dictionary entry: a key blob that is not empty, then a value blob.
/// Gives the bytes after the entry, the key as text and the value, or `None`
/// where no entry can be read: the key length is zero, or either blob runs
/// past the end.
pub open spec fn spec_entry(s: Seq<u8>) -> Option<(Seq<u8>, Seq<char>, Seq<u8>)> {
    match length_prefixed(s) {
        Some((after_key, key)) => if key.len() == 0 {
            None
        } else {
            match length_prefixed(after_key) {
                Some((rest, value)) => Some((rest, key_text(key), value)),
                None => None,
            }
        },
        None => None,
    }
}

/// Reads entries for as long as there is one, writing each into `acc`; a
/// later entry replaces an earlier one with the same key. Gives the bytes
/// at which no further entry could be read, untouched, and the mapping.
pub open spec fn spec_entries(s: Seq<u8>, acc: Map<Seq<char>, Seq<u8>>) -> (
    Seq<u8>,
    Map<Seq<char>, Seq<u8>>,
)
    decreases s.len(),
    via spec_entries_terminates
{
    match spec_entry(s) {
        Some((rest, key, value)) => spec_entries(rest, acc.insert(key, value)),
        None => (s, acc),
    }
}

#[via_fn]
proof fn spec_entries_terminates(s: Seq<u8>, acc: Map<Seq<char>, Seq<u8>>) {
    lemma_entry_consumes(s);
}

/// An entry takes at least nine bytes: two length fields and a key byte.
pub proof fn lemma_entry_consumes(s: Seq<u8>)
    ensures
        spec_entry(s) matches Some((rest, _, _)) ==> rest.len() + 9 <= s.len(),
{
}

/// A dictionary is one entry or more.
pub open spec fn spec_dict(s: Seq<u8>) -> Result<(Seq<u8>, Map<Seq<char>, Seq<u8>>), ParseError> {
    if spec_entry(s) is None {
        Err(ParseError::EmptyDictionary)
    } else {
        Ok(spec_entries(s, Map::empty()))
    }
}

/// Reading on never loses a key, and never reads backwards.
pub proof fn lemma_entries_grow(s: Seq<u8>, acc: Map<Seq<char>, Seq<u8>>)
    requires
        acc.dom().finite(),
    ensures
        spec_entries(s, acc).1.dom().finite(),
        spec_entries(s, acc).1.dom().len() >= acc.dom().len(),
        acc.dom().subset_of(spec_entries(s, acc).1.dom()),
        spec_entries(s, acc).0.len() <= s.len(),
        spec_entry(spec_entries(s, acc).0) is None,
    decreases s.len(),
{
    match spec_entry(s) {
        Some((rest, key, value)) => {
            lemma_entry_consumes(s);
            lemma_entries_grow(rest, acc.insert(key, value));
        },
        None => {},
    }
}

/// A dictionary that was read holds at least one key, and finitely many.
pub proof fn lemma_dict_never_empty(s: Seq<u8>)
    ensures
        spec_dict(s) matches Ok((rest, found)) ==> found.dom().finite() && found.dom().len() >= 1
            && rest.len() + 9 <= s.len() && spec_entry(rest) is None,
{
    match spec_entry(s) {
        Some((rest, key, value)) => {
            lemma_entry_consumes(s);
            let first = Map::<Seq<char>, Seq<u8>>::empty().insert(key, value);
            lemma_entries_grow(rest, first);
        },
        None => {},
    }
}

/// The record that the first sixteen bytes of `s` spell: four signed
/// numbers. The four bytes after them belong to the record and mean nothing.
pub open spec fn block_value(s: Seq<u8>) -> Block
    recommends
        s.len() >= 20,
{
    Block {
        index: le_i32_value(s) as i32,
        x: le_i32_value(s.skip(4)) as i32,
        y: le_i32_value(s.skip(8)) as i32,
        z: le_i32_value(s.skip(12)) as i32,
    }
}

/// One block record of twenty bytes.
pub open spec fn spec_block(s: Seq<u8>) -> Result<(Seq<u8>, Block), ParseError> {
    if s.len() >= 20 {
        Ok((s.skip(20), block_value(s)))
    } else {
        Err(ParseError::Truncated)
    }
}

/// A four-byte count, then that many block records, one after the other.
pub open spec fn spec_blocks(s: Seq<u8>) -> Result<(Seq<u8>, Seq<Block>), ParseError> {
    if s.len() < 4 {
        Err(ParseError::Truncated)
    } else if s.len() < 4 + 20 * le_u32_value(s) {
        Err(ParseError::InvalidBlockCount)
    } else {
        Ok(
            (
                s.skip(4 + 20 * le_u32_value(s)),
                Seq::new(le_u32_value(s) as nat, |i: int| block_value(s.skip(4 + 20 * i))),
            ),
        )
    }
}

/// What a chunk holds, as mathematics.
#[verifier::ext_equal]
pub enum ChunkView {
    Img { dict: Map<Seq<char>, Seq<u8>> },
    Prev { data: Seq<u8> },
    Bl16 { data: Seq<u8> },
    Layr { blocks: Seq<Block>, dict: Map<Seq<char>, Seq<u8>> },
    Camr { dict: Map<Seq<char>, Seq<u8>> },
    Ligh { dict: Map<Seq<char>, Seq<u8>> },
}

/// The four ASCII bytes that open a chunk of the given kind.
pub open spec fn spec_tag(kind: ChunkKind) -> Seq<u8> {
    match kind {
        ChunkKind::Img => seq![0x49u8, 0x4d, 0x47, 0x20],
        ChunkKind::Prev => seq![0x50u8, 0x52, 0x45, 0x56],
        ChunkKind::Bl16 => seq![0x42u8, 0x4c, 0x31, 0x36],
        ChunkKind::Layr => seq![0x4cu8, 0x41, 0x59, 0x52],
        ChunkKind::Camr => seq![0x43u8, 0x41, 0x4d, 0x52],
        ChunkKind::Ligh => seq![0x4cu8, 0x49, 0x47, 0x48],
    }
}

/// Four bytes that are passed over (a declared size that nothing uses),
/// then a dictionary.
pub open spec fn spec_sized_dict(s: Seq<u8>) -> Result<
    (Seq<u8>, Map<Seq<char>, Seq<u8>>),
    ParseError,
> {
    if s.len() < 4 {
        Err(ParseError::Truncated)
    } else {
        spec_dict(s.skip(4))
    }
}

/// A layer's body: four bytes that are passed over, the block records, a
/// dictionary.
pub open spec fn spec_layer(s: Seq<u8>) -> Result<(Seq<u8>, ChunkView), ParseError> {
    if s.len() < 4 {
        Err(ParseError::Truncated)
    } else {
        match spec_blocks(s.skip(4)) {
            Ok((after_blocks, blocks)) => match spec_dict(after_blocks) {
                Ok((rest, dict)) => Ok((rest, ChunkView::Layr { blocks, dict })),
                Err(e) => Err(e),
            },
            Err(e) => Err(e),
        }
    }
}

/// The body of a chunk of the given kind: what stands between the tag and
/// the trailing four bytes.
pub open spec fn spec_body(kind: ChunkKind, s: Seq<u8>) -> Result<(Seq<u8>, ChunkView), ParseError> {
    match kind {
        ChunkKind::Img => match spec_sized_dict(s) {
            Ok((rest, dict)) => Ok((rest, ChunkView::Img { dict })),
            Err(e) => Err(e),
        },
        ChunkKind::Prev => match length_prefixed(s) {
            Some((rest, data)) => Ok((rest, ChunkView::Prev { data })),
            None => Err(ParseError::Truncated),
        },
        ChunkKind::Bl16 => match length_prefixed(s) {
            Some((rest, data)) => Ok((rest, ChunkView::Bl16 { data })),
            None => Err(ParseError::Truncated),
        },
        ChunkKind::Layr => spec_layer(s),
        ChunkKind::Camr => match spec_sized_dict(s) {
            Ok((rest, dict)) => Ok((rest, ChunkView::Camr { dict })),
            Err(e) => Err(e),
        },
        ChunkKind::Ligh => match spec_sized_dict(s) {
            Ok((rest, dict)) => Ok((rest, ChunkView::Ligh { dict })),
            Err(e) => Err(e),
        },
    }
}

/// A whole chunk of the given kind: its tag, its body, and four trailing
/// bytes that are taken whatever they hold. Without the tag the answer is
/// `UnrecognizedChunkTag`, and nothing else gives that answer.
pub open spec fn spec_chunk_common(kind: ChunkKind, s: Seq<u8>) -> Result<
    (Seq<u8>, ChunkView),
    ParseError,
> {
    if !spec_tag(kind).is_prefix_of(s) {
        Err(ParseError::UnrecognizedChunkTag)
    } else {
        match spec_body(kind, s.skip(4)) {
            Ok((after_body, chunk)) => if after_body.len() < 4 {
                Err(ParseError::Truncated)
            } else {
                Ok((after_body.skip(4), chunk))
            },
            Err(e) => Err(e),
        }
    }
}

/// The kind whose tag stands at the front of `s`, the kinds taken in their
/// fixed order.
pub open spec fn spec_kind(s: Seq<u8>) -> Option<ChunkKind> {
    if spec_tag(ChunkKind::Img).is_prefix_of(s) {
        Some(ChunkKind::Img)
    } else if spec_tag(ChunkKind::Prev).is_prefix_of(s) {
        Some(ChunkKind::Prev)
    } else if spec_tag(ChunkKind::Bl16).is_prefix_of(s) {
        Some(ChunkKind::Bl16)
    } else if spec_tag(ChunkKind::Layr).is_prefix_of(s) {
        Some(ChunkKind::Layr)
    } else if spec_tag(ChunkKind::Camr).is_prefix_of(s) {
        Some(ChunkKind::Camr)
    } else if spec_tag(ChunkKind::Ligh).is_prefix_of(s) {
        Some(ChunkKind::Ligh)
    } else {
        None
    }
}

/// One chunk of whatever kind its tag names.
pub open spec fn spec_chunk(s: Seq<u8>) -> Result<(Seq<u8>, ChunkView), ParseError> {
    match spec_kind(s) {
        Some(kind) => spec_chunk_common(kind, s),
        None => Err(ParseError::UnrecognizedChunkTag),
    }
}

/// A chunk takes at least eight bytes: its tag and the trailing field.
pub proof fn lemma_chunk_consumes(s: Seq<u8>)
    ensures
        spec_chunk(s) matches Ok((rest, _)) ==> rest.len() + 8 <= s.len(),
{
    match spec_kind(s) {
        Some(kind) => {
            lemma_body_consumes(kind, s.skip(4));
        },
        None => {},
    }
}

/// A body never hands back more than it was given.
pub proof fn lemma_body_consumes(kind: ChunkKind, s: Seq<u8>)
    ensures
        spec_body(kind, s) matches Ok((rest, _)) ==> rest.len() <= s.len(),
{
    lemma_dict_never_empty(s.skip(4));
    if s.len() >= 4 {
        match spec_blocks(s.skip(4)) {
            Ok((after_blocks, _)) => {
                lemma_dict_never_empty(after_blocks);
            },
            Err(_) => {},
        }
    }
}

/// What a document holds, as mathematics.
#[verifier::ext_equal]
pub struct GoxelView {
    pub version: i32,
    pub chunks: Seq<ChunkView>,
}

/// The magic number: the ASCII bytes of `"GOX "`.
pub open spec fn spec_magic() -> Seq<u8> {
    seq![0x47u8, 0x4f, 0x58, 0x20]
}

/// Reads chunks for as long as a known tag stands at the front, adding each
/// to `acc`. Where no tag is recognised, which the end of the input is a
/// case of, the reading stops without error and hands back the bytes that
/// are left and the chunks read so far. A chunk that has its tag and is
/// malformed behind it is an error, and nothing is handed back.
pub open spec fn spec_chunks(s: Seq<u8>, acc: Seq<ChunkView>) -> Result<
    (Seq<u8>, Seq<ChunkView>),
    ParseError,
>
    decreases s.len(),
    via spec_chunks_terminates
{
    match spec_chunk(s) {
        Ok((rest, chunk)) => spec_chunks(rest, acc.push(chunk)),
        Err(ParseError::UnrecognizedChunkTag) => Ok((s, acc)),
        Err(e) => Err(e),
    }
}

#[via_fn]
proof fn spec_chunks_terminates(s: Seq<u8>, acc: Seq<ChunkView>) {
    lemma_chunk_consumes(s);
}

/// A whole file: the magic number, the version, the chunks.
pub open spec fn spec_parse(s: Seq<u8>) -> Result<(Seq<u8>, GoxelView), ParseError> {
    if !spec_magic().is_prefix_of(s) {
        Err(ParseError::BadMagic)
    } else if s.len() < 8 {
        Err(ParseError::Truncated)
    } else {
        match spec_chunks(s.skip(8), Seq::empty()) {
            Ok((rest, chunks)) => Ok(
                (rest, GoxelView { version: le_i32_value(s.skip(4)) as i32, chunks }),
            ),
            Err(e) => Err(e),
        }
    }
}

} // verus!
