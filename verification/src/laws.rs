//! What holds of the format as a whole.
//!
//! The decoders are proved against the functions of [`crate::grammar`]. The
//! theorems here are about those functions: what encoded values decode to,
//! what cut-off input decodes to, and where the reading of a document ends.

use crate::chunk::ChunkKind;
use crate::error::ParseError;
use crate::grammar::{
    lemma_dict_never_empty, spec_block, spec_blocks, spec_chunk,
    spec_chunk_common, spec_chunks, spec_dict, spec_entries, spec_entry, spec_kind, spec_magic,
    spec_parse, spec_tag, ChunkView, GoxelView,
};
use crate::wire::{le_i32_value, le_u32_value, length_prefixed};
use vstd::prelude::*;
use vstd::utf8::{encode_utf8, encode_utf8_decode_utf8, encode_utf8_valid_utf8};

verus! {

/// The four bytes that spell `n`, least significant first.
pub open spec fn le_u32_bytes(n: int) -> Seq<u8>
    recommends
        0 <= n < 0x1_0000_0000,
{
    seq![
        (n % 0x100) as u8,
        (n / 0x100 % 0x100) as u8,
        (n / 0x1_0000 % 0x100) as u8,
        (n / 0x100_0000 % 0x100) as u8,
    ]
}

/// The four bytes that spell the signed number `n` in two's complement.
pub open spec fn le_i32_bytes(n: int) -> Seq<u8>
    recommends
        -0x8000_0000 <= n < 0x8000_0000,
{
    if n < 0 {
        le_u32_bytes(n + 0x1_0000_0000)
    } else {
        le_u32_bytes(n)
    }
}

/// A blob as it stands in a file: its length, then its bytes.
pub open spec fn blob_bytes(data: Seq<u8>) -> Seq<u8>
    recommends
        data.len() < 0x1_0000_0000,
{
    le_u32_bytes(data.len() as int) + data
}

/// A dictionary entry as it stands in a file: the key in UTF-8 as a blob,
/// then the value as a blob.
pub open spec fn entry_bytes(key: Seq<char>, value: Seq<u8>) -> Seq<u8> {
    blob_bytes(encode_utf8(key)) + blob_bytes(value)
}

/// Whether an entry can be written down: the key is not empty, and key and
/// value are short enough for a four-byte length.
pub open spec fn encodable(key: Seq<char>, value: Seq<u8>) -> bool {
    &&& key.len() > 0
    &&& encode_utf8(key).len() < 0x1_0000_0000
    &&& value.len() < 0x1_0000_0000
}

/// Reading back the four bytes of a number gives the number, whatever
/// follows them.
pub proof fn lemma_le_u32_round_trip(n: int, rest: Seq<u8>)
    requires
        0 <= n < 0x1_0000_0000,
    ensures
        le_u32_value(le_u32_bytes(n) + rest) == n,
        (le_u32_bytes(n) + rest).skip(4) == rest,
{
    let s = le_u32_bytes(n) + rest;
    assert(s[0] == le_u32_bytes(n)[0]);
    assert(s[1] == le_u32_bytes(n)[1]);
    assert(s[2] == le_u32_bytes(n)[2]);
    assert(s[3] == le_u32_bytes(n)[3]);
    assert(s.skip(4) =~= rest);
}

/// Reading back the four bytes of a signed number gives the number.
pub proof fn lemma_le_i32_round_trip(n: int, rest: Seq<u8>)
    requires
        -0x8000_0000 <= n < 0x8000_0000,
    ensures
        le_i32_value(le_i32_bytes(n) + rest) == n,
        (le_i32_bytes(n) + rest).skip(4) == rest,
{
    if n < 0 {
        lemma_le_u32_round_trip(n + 0x1_0000_0000, rest);
    } else {
        lemma_le_u32_round_trip(n, rest);
    }
}

/// Reading back a blob gives its bytes and leaves what follows it.
pub proof fn lemma_blob_round_trip(data: Seq<u8>, rest: Seq<u8>)
    requires
        data.len() < 0x1_0000_0000,
    ensures
        length_prefixed(blob_bytes(data) + rest) == Some((rest, data)),
{
    let s = blob_bytes(data) + rest;
    assert(s =~= le_u32_bytes(data.len() as int) + (data + rest));
    lemma_le_u32_round_trip(data.len() as int, data + rest);
    let end = 4 + data.len() as int;
    assert(s.skip(end) =~= rest);
    assert(s.subrange(4, end) =~= data);
}

/// Reading back an entry gives its key and value and leaves what follows.
pub proof fn lemma_entry_round_trip(key: Seq<char>, value: Seq<u8>, rest: Seq<u8>)
    requires
        encodable(key, value),
    ensures
        spec_entry(entry_bytes(key, value) + rest) == Some((rest, key, value)),
{
    let s = entry_bytes(key, value) + rest;
    let k = encode_utf8(key);
    assert(k.len() > 0) by {
        assert(k == vstd::utf8::encode_scalar(key[0] as u32) + encode_utf8(key.drop_first()));
    }
    assert(s =~= blob_bytes(k) + (blob_bytes(value) + rest));
    lemma_blob_round_trip(k, blob_bytes(value) + rest);
    lemma_blob_round_trip(value, rest);
    encode_utf8_valid_utf8(key);
    encode_utf8_decode_utf8(key);
}

/// A blob that has lost bytes from its end is not read at all: neither as a
/// shorter blob nor in any other way.
pub proof fn lemma_truncated_blob_fails(s: Seq<u8>, kept: int)
    requires
        length_prefixed(s) is Some,
        0 <= kept < 4 + le_u32_value(s),
    ensures
        length_prefixed(s.take(kept)) is None,
{
    if kept >= 4 {
        assert(s.take(kept)[0] == s[0]);
        assert(s.take(kept)[1] == s[1]);
        assert(s.take(kept)[2] == s[2]);
        assert(s.take(kept)[3] == s[3]);
    }
}

/// An entry that has lost bytes from its end is not read at all. `kept`
/// counts the bytes that are left of the entry, fewer than it had.
pub proof fn lemma_truncated_entry_fails(s: Seq<u8>, kept: int)
    requires
        spec_entry(s) matches Some((rest, _, _)) && 0 <= kept < s.len() - rest.len(),
    ensures
        spec_entry(s.take(kept)) is None,
{
    let (after_key, key) = length_prefixed(s)->0;
    let key_end = 4 + le_u32_value(s);
    if kept < key_end {
        lemma_truncated_blob_fails(s, kept);
    } else {
        let cut = s.take(kept);
        assert(cut[0] == s[0]);
        assert(cut[1] == s[1]);
        assert(cut[2] == s[2]);
        assert(cut[3] == s[3]);
        assert(cut.subrange(4, key_end) =~= key);
        assert(cut.skip(key_end) =~= after_key.take(kept - key_end));
        lemma_truncated_blob_fails(after_key, kept - key_end);
    }
}

/// A layer's block list takes exactly as many records as it declares, of
/// twenty bytes each, and no byte more.
pub proof fn lemma_blocks_take_declared_count(s: Seq<u8>)
    ensures
        spec_blocks(s) matches Ok((rest, blocks)) ==> {
            &&& blocks.len() == le_u32_value(s)
            &&& rest.len() + 4 + 20 * le_u32_value(s) == s.len()
            &&& rest == s.skip(4 + 20 * le_u32_value(s))
            &&& forall|i: int|
                0 <= i < blocks.len() ==> (spec_block(s.skip(4 + 20 * i)) matches Ok((after, one))
                    && after == s.skip(4 + 20 * (i + 1)) && one == #[trigger] blocks[i])
        },
{
    if spec_blocks(s) is Ok {
        let blocks = spec_blocks(s)->Ok_0.1;
        assert forall|i: int| 0 <= i < blocks.len() implies (spec_block(s.skip(4 + 20 * i))
            matches Ok((after, one)) && after == s.skip(4 + 20 * (i + 1)) && one
            == #[trigger] blocks[i]) by {
            assert(s.skip(4 + 20 * i).skip(20) =~= s.skip(4 + 20 * (i + 1)));
        }
    }
}

/// The fifth field of a block record is taken whatever it holds: two
/// records that differ there at most are read as the same block.
pub proof fn lemma_reserved_field_ignored(s: Seq<u8>, t: Seq<u8>)
    requires
        s.len() >= 20,
        t.len() >= 20,
        s.take(16) == t.take(16),
        s.skip(20) == t.skip(20),
    ensures
        spec_block(s) is Ok,
        spec_block(s) == spec_block(t),
{
    assert forall|i: int| 0 <= i < 16 implies s[i] == t[i] by {
        assert(s.take(16)[i] == s[i]);
        assert(t.take(16)[i] == t[i]);
    }
    assert(le_u32_value(s) == le_u32_value(t));
    assert(le_u32_value(s.skip(4)) == le_u32_value(t.skip(4)));
    assert(le_u32_value(s.skip(8)) == le_u32_value(t.skip(8)));
    assert(le_u32_value(s.skip(12)) == le_u32_value(t.skip(12)));
}

/// A file that is the magic number, a version and nothing that begins with
/// a known tag decodes to a document of that version without chunks, and
/// what stood behind the version is handed back.
pub proof fn lemma_document_without_chunks(version: i32, tail: Seq<u8>)
    requires
        spec_kind(tail) is None,
    ensures
        spec_parse(spec_magic() + le_i32_bytes(version as int) + tail) matches Ok((rest, document))
            && rest == tail && document == (GoxelView { version, chunks: Seq::empty() }),
{
    let s = spec_magic() + le_i32_bytes(version as int) + tail;
    assert(spec_magic().is_prefix_of(s)) by {
        assert(s.subrange(0, 4) =~= spec_magic());
    }
    assert(s.skip(4) =~= le_i32_bytes(version as int) + tail);
    lemma_le_i32_round_trip(version as int, tail);
    assert(s.skip(8) =~= tail);
}

/// Input that does not begin with the magic number is refused as
/// `BadMagic`, and nothing else is.
pub proof fn lemma_bad_magic(s: Seq<u8>)
    ensures
        (spec_parse(s) matches Err(ParseError::BadMagic)) <==> !spec_magic().is_prefix_of(s),
{
    if spec_magic().is_prefix_of(s) && s.len() >= 8 {
        lemma_chunks_errors(s.skip(8), Seq::empty());
    }
}

/// The reading of chunks fails only with an error of a chunk's body or of
/// its trailing field.
pub proof fn lemma_chunks_errors(s: Seq<u8>, acc: Seq<ChunkView>)
    ensures
        spec_chunks(s, acc) matches Err(e) ==> e == ParseError::Truncated || e
            == ParseError::EmptyDictionary || e == ParseError::InvalidBlockCount,
        spec_chunks(s, acc) matches Ok((rest, chunks)) ==> {
            &&& spec_kind(rest) is None
            &&& rest.len() <= s.len()
            &&& acc.is_prefix_of(chunks)
        },
    decreases s.len(),
{
    match spec_chunk(s) {
        Ok((rest, chunk)) => {
            crate::grammar::lemma_chunk_consumes(s);
            lemma_chunks_errors(rest, acc.push(chunk));
            assert(acc.is_prefix_of(acc.push(chunk)));
        },
        Err(_) => {},
    }
}

/// Where the bytes at a chunk boundary are no known tag, the reading of
/// chunks ends there without error: the chunks read so far are the result,
/// and the bytes are handed back untouched.
pub proof fn lemma_unknown_tag_ends_reading(s: Seq<u8>, acc: Seq<ChunkView>)
    requires
        spec_kind(s) is None,
    ensures
        spec_chunk(s) matches Err(ParseError::UnrecognizedChunkTag),
        spec_chunks(s, acc) matches Ok((rest, chunks)) && rest == s && chunks == acc,
{
}

/// Only the absence of every known tag is reported as
/// `UnrecognizedChunkTag`; a decoded document never fails with it.
pub proof fn lemma_unknown_tag_is_no_failure(s: Seq<u8>)
    ensures
        (spec_chunk(s) matches Err(ParseError::UnrecognizedChunkTag)) <==> spec_kind(s) is None,
        !(spec_parse(s) matches Err(ParseError::UnrecognizedChunkTag)),
{
    if spec_magic().is_prefix_of(s) && s.len() >= 8 {
        lemma_chunks_errors(s.skip(8), Seq::empty());
    }
}

/// Where in a chunk of the given kind the dictionary begins, for the kinds
/// that carry one and input that reaches so far.
pub open spec fn dictionary_bytes(kind: ChunkKind, s: Seq<u8>) -> Option<Seq<u8>> {
    if !spec_tag(kind).is_prefix_of(s) || s.len() < 8 {
        None
    } else {
        match kind {
            ChunkKind::Img | ChunkKind::Camr | ChunkKind::Ligh => Some(s.skip(8)),
            ChunkKind::Layr => match spec_blocks(s.skip(8)) {
                Ok((after_blocks, _)) => Some(after_blocks),
                Err(_) => None,
            },
            ChunkKind::Prev | ChunkKind::Bl16 => None,
        }
    }
}

/// A key length of zero is no entry.
pub proof fn lemma_zero_key_length_is_no_entry(s: Seq<u8>)
    requires
        s.len() >= 4,
        le_u32_value(s) == 0,
    ensures
        spec_entry(s) is None,
{
}

/// A chunk whose dictionary has no first entry is refused as
/// `EmptyDictionary`.
pub proof fn lemma_empty_dictionary_rejected(kind: ChunkKind, s: Seq<u8>)
    requires
        dictionary_bytes(kind, s) matches Some(d) && spec_entry(d) is None,
    ensures
        spec_chunk_common(kind, s) matches Err(ParseError::EmptyDictionary),
        spec_chunk(s) matches Err(ParseError::EmptyDictionary),
{
    assert(s.skip(4).skip(4) =~= s.skip(8));
    lemma_tag_names_kind(kind, s);
}

/// The tags differ from one another, so the tag at the front names the kind.
pub proof fn lemma_tag_names_kind(kind: ChunkKind, s: Seq<u8>)
    requires
        spec_tag(kind).is_prefix_of(s),
    ensures
        spec_kind(s) == Some(kind),
{
    let t = spec_tag(kind);
    assert(t =~= s.subrange(0, 4));
    assert(s[0] == t[0] && s[1] == t[1] && s[2] == t[2] && s[3] == t[3]);
    assert forall|other: ChunkKind| other != kind implies !spec_tag(other).is_prefix_of(s) by {
        let o = spec_tag(other);
        if o.is_prefix_of(s) {
            assert(o =~= s.subrange(0, 4));
            assert(s[0] == o[0] && s[1] == o[1] && s[2] == o[2] && s[3] == o[3]);
        }
    }
}

/// The dictionary of a chunk that was read is never empty.
pub proof fn lemma_chunk_dictionary_not_empty(kind: ChunkKind, s: Seq<u8>)
    ensures
        spec_chunk_common(kind, s) matches Ok((_, chunk)) ==> match chunk {
            ChunkView::Img { dict } => dict.dom().finite() && dict.dom().len() >= 1,
            ChunkView::Layr { dict, .. } => dict.dom().finite() && dict.dom().len() >= 1,
            ChunkView::Camr { dict } => dict.dom().finite() && dict.dom().len() >= 1,
            ChunkView::Ligh { dict } => dict.dom().finite() && dict.dom().len() >= 1,
            ChunkView::Prev { .. } | ChunkView::Bl16 { .. } => true,
        },
{
    let body = s.skip(4);
    if body.len() >= 4 {
        lemma_dict_never_empty(body.skip(4));
        match spec_blocks(body.skip(4)) {
            Ok((after_blocks, _)) => {
                lemma_dict_never_empty(after_blocks);
            },
            Err(_) => {},
        }
    }
}

/// The entries of a dictionary as they stand in a file, one after the other.
pub open spec fn entries_bytes(entries: Seq<(Seq<char>, Seq<u8>)>) -> Seq<u8>
    decreases entries.len(),
{
    if entries.len() == 0 {
        Seq::empty()
    } else {
        entry_bytes(entries[0].0, entries[0].1) + entries_bytes(entries.drop_first())
    }
}

/// Every entry of the list can be written down.
pub open spec fn all_encodable(entries: Seq<(Seq<char>, Seq<u8>)>) -> bool {
    forall|i: int| 0 <= i < entries.len() ==> encodable(#[trigger] entries[i].0, entries[i].1)
}

/// No two entries of the list share a key.
pub open spec fn distinct_keys(entries: Seq<(Seq<char>, Seq<u8>)>) -> bool {
    forall|i: int, j: int|
        0 <= i < j < entries.len() ==> #[trigger] entries[i].0 != #[trigger] entries[j].0
}

/// The mapping holds the entries of the list and nothing else.
pub open spec fn holds_exactly(
    found: Map<Seq<char>, Seq<u8>>,
    entries: Seq<(Seq<char>, Seq<u8>)>,
) -> bool {
    &&& forall|i: int|
        0 <= i < entries.len() ==> found.contains_key(#[trigger] entries[i].0)
            && found[entries[i].0] == entries[i].1
    &&& forall|k: Seq<char>| #[trigger]
        found.contains_key(k) ==> exists|i: int|
            0 <= i < entries.len() && #[trigger] entries[i].0 == k
}

/// The mapping that `acc` becomes when the entries are written into it in
/// turn.
pub open spec fn written(entries: Seq<(Seq<char>, Seq<u8>)>, acc: Map<Seq<char>, Seq<u8>>) -> Map<
    Seq<char>,
    Seq<u8>,
>
    decreases entries.len(),
{
    if entries.len() == 0 {
        acc
    } else {
        written(entries.drop_first(), acc.insert(entries[0].0, entries[0].1))
    }
}

/// Encoded entries are read back one by one, up to the bytes at which no
/// entry stands.
pub proof fn lemma_entries_round_trip(
    entries: Seq<(Seq<char>, Seq<u8>)>,
    acc: Map<Seq<char>, Seq<u8>>,
    rest: Seq<u8>,
)
    requires
        all_encodable(entries),
        spec_entry(rest) is None,
    ensures
        spec_entries(entries_bytes(entries) + rest, acc) == (rest, written(entries, acc)),
    decreases entries.len(),
{
    if entries.len() == 0 {
        assert(entries_bytes(entries) + rest =~= rest);
    } else {
        let (key, value) = entries[0];
        let tail = entries.drop_first();
        let s = entries_bytes(entries) + rest;
        assert(encodable(entries[0].0, entries[0].1));
        assert(s =~= entry_bytes(key, value) + (entries_bytes(tail) + rest));
        lemma_entry_round_trip(key, value, entries_bytes(tail) + rest);
        assert(all_encodable(tail)) by {
            assert forall|i: int| 0 <= i < tail.len() implies encodable(
                #[trigger] tail[i].0,
                tail[i].1,
            ) by {
                assert(encodable(entries[i + 1].0, entries[i + 1].1));
            }
        }
        lemma_entries_round_trip(tail, acc.insert(key, value), rest);
    }
}

/// Writing entries with distinct keys leaves each of them readable, adds
/// no other key, and keeps what was there under other keys.
pub proof fn lemma_written_pairs(entries: Seq<(Seq<char>, Seq<u8>)>, acc: Map<Seq<char>, Seq<u8>>)
    requires
        distinct_keys(entries),
    ensures
        forall|i: int|
            0 <= i < entries.len() ==> written(entries, acc).contains_key(#[trigger] entries[i].0)
                && written(entries, acc)[entries[i].0] == entries[i].1,
        forall|k: Seq<char>| #[trigger]
            written(entries, acc).contains_key(k) ==> acc.contains_key(k) || exists|i: int|
                0 <= i < entries.len() && #[trigger] entries[i].0 == k,
        forall|k: Seq<char>|
            acc.contains_key(k) && (forall|i: int|
                0 <= i < entries.len() ==> #[trigger] entries[i].0 != k) ==> #[trigger] written(
                entries,
                acc,
            ).contains_key(k) && written(entries, acc)[k] == acc[k],
    decreases entries.len(),
{
    if entries.len() > 0 {
        let (key, value) = entries[0];
        let tail = entries.drop_first();
        let next = acc.insert(key, value);
        assert(distinct_keys(tail)) by {
            assert forall|i: int, j: int| 0 <= i < j < tail.len() implies #[trigger] tail[i].0
                != #[trigger] tail[j].0 by {
                assert(entries[i + 1].0 != entries[j + 1].0);
            }
        }
        lemma_written_pairs(tail, next);
        assert forall|i: int| 0 <= i < entries.len() implies written(entries, acc).contains_key(
            #[trigger] entries[i].0,
        ) && written(entries, acc)[entries[i].0] == entries[i].1 by {
            if i == 0 {
                assert forall|j: int| 0 <= j < tail.len() implies #[trigger] tail[j].0 != key by {
                    assert(entries[0].0 != entries[j + 1].0);
                }
                assert(next.contains_key(key));
                assert(written(tail, next).contains_key(key));
            } else {
                assert(tail[i - 1] == entries[i]);
                assert(written(tail, next).contains_key(tail[i - 1].0));
            }
        }
        assert forall|k: Seq<char>| #[trigger]
            written(entries, acc).contains_key(k) implies acc.contains_key(k) || exists|i: int|
            0 <= i < entries.len() && #[trigger] entries[i].0 == k by {
            assert(written(tail, next).contains_key(k));
            if next.contains_key(k) {
                if k == key {
                    assert(entries[0].0 == k);
                }
            } else {
                let i = choose|i: int| 0 <= i < tail.len() && #[trigger] tail[i].0 == k;
                assert(entries[i + 1].0 == k);
            }
        }
        assert forall|k: Seq<char>|
            acc.contains_key(k) && (forall|i: int|
                0 <= i < entries.len() ==> #[trigger] entries[i].0 != k) implies #[trigger] written(
            entries,
            acc,
        ).contains_key(k) && written(entries, acc)[k] == acc[k] by {
            assert(entries[0].0 != k);
            assert(next.contains_key(k));
            assert forall|i: int| 0 <= i < tail.len() implies #[trigger] tail[i].0 != k by {
                assert(entries[i + 1].0 != k);
            }
            assert(written(tail, next).contains_key(k));
        }
    }
}

/// Round trip of a dictionary: entries with distinct keys, written down one
/// after the other and followed by bytes at which no entry stands (a key
/// length of zero, for one), are read back as a dictionary that holds those
/// entries and no others; the bytes behind them are left unread.
pub proof fn lemma_dictionary_round_trip(entries: Seq<(Seq<char>, Seq<u8>)>, rest: Seq<u8>)
    requires
        entries.len() >= 1,
        all_encodable(entries),
        distinct_keys(entries),
        spec_entry(rest) is None,
    ensures
        spec_dict(entries_bytes(entries) + rest) matches Ok((left, found)) && left == rest
            && found == written(entries, Map::empty()) && holds_exactly(found, entries),
{
    let s = entries_bytes(entries) + rest;
    let (key, value) = entries[0];
    let tail = entries.drop_first();
    assert(encodable(entries[0].0, entries[0].1));
    assert(s =~= entry_bytes(key, value) + (entries_bytes(tail) + rest));
    lemma_entry_round_trip(key, value, entries_bytes(tail) + rest);
    lemma_entries_round_trip(entries, Map::empty(), rest);
    lemma_written_pairs(entries, Map::empty());
}

/// The order in which the entries are written down makes no difference to
/// the dictionary that is read back.
pub proof fn lemma_dictionary_order_free(
    first: Seq<(Seq<char>, Seq<u8>)>,
    second: Seq<(Seq<char>, Seq<u8>)>,
    rest: Seq<u8>,
)
    requires
        first.len() >= 1,
        all_encodable(first),
        distinct_keys(first),
        distinct_keys(second),
        forall|i: int| 0 <= i < first.len() ==> second.contains(#[trigger] first[i]),
        forall|j: int| 0 <= j < second.len() ==> first.contains(#[trigger] second[j]),
        spec_entry(rest) is None,
    ensures
        spec_dict(entries_bytes(first) + rest) is Ok,
        spec_dict(entries_bytes(first) + rest) == spec_dict(entries_bytes(second) + rest),
{
    assert(second.contains(first[0]));
    assert(all_encodable(second)) by {
        assert forall|j: int| 0 <= j < second.len() implies encodable(
            #[trigger] second[j].0,
            second[j].1,
        ) by {
            assert(first.contains(second[j]));
            let i = choose|i: int| 0 <= i < first.len() && first[i] == second[j];
            assert(encodable(first[i].0, first[i].1));
        }
    }
    lemma_dictionary_round_trip(first, rest);
    lemma_dictionary_round_trip(second, rest);
    let a = written(first, Map::empty());
    let b = written(second, Map::empty());
    assert forall|k: Seq<char>| a.contains_key(k) implies b.contains_key(k) && a[k] == b[k] by {
        let i = choose|i: int| 0 <= i < first.len() && #[trigger] first[i].0 == k;
        assert(second.contains(first[i]));
        let j = choose|j: int| 0 <= j < second.len() && second[j] == first[i];
        assert(b.contains_key(second[j].0));
    }
    assert forall|k: Seq<char>| b.contains_key(k) implies a.contains_key(k) by {
        let j = choose|j: int| 0 <= j < second.len() && #[trigger] second[j].0 == k;
        assert(first.contains(second[j]));
        let i = choose|i: int| 0 <= i < first.len() && first[i] == second[j];
        assert(a.contains_key(first[i].0));
    }
    assert(a =~= b);
}

} // verus!
