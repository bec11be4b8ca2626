use gox::{
    bl16, block, blocks, body, camr, chunk, chunk_common, img, layer, layr, ligh, prev,
    sized_dict, Block, Chunk, ChunkKind, ParseError,
};

fn le(n: u32) -> Vec<u8> {
    n.to_le_bytes().to_vec()
}

fn blob(data: &[u8]) -> Vec<u8> {
    let mut out = le(data.len() as u32);
    out.extend_from_slice(data);
    out
}

fn entry_bytes(key: &str, value: &[u8]) -> Vec<u8> {
    let mut out = blob(key.as_bytes());
    out.extend_from_slice(&blob(value));
    out
}

fn record(index: i32, x: i32, y: i32, z: i32, reserved: i32) -> Vec<u8> {
    let mut out = Vec::new();
    for n in [index, x, y, z, reserved] {
        out.extend_from_slice(&n.to_le_bytes());
    }
    out
}

fn dict_chunk(tag: &[u8], entries: &[(&str, &[u8])], crc: [u8; 4]) -> Vec<u8> {
    let mut out = tag.to_vec();
    out.extend_from_slice(&le(0));
    for (key, value) in entries {
        out.extend_from_slice(&entry_bytes(key, value));
    }
    out.extend_from_slice(&crc);
    out
}

#[test]
fn img_should_parse() {
    let input: &[u8] = &[
        // Chunk Header
        b'I', b'M', b'G', b' ', // Type
        0x9, 0x0, 0x0, 0x0, // Size
        // Dict
        0x1, 0x0, 0x0, 0x0,  // Key Length
        0x41, // Key Data
        0x0, 0x0, 0x0, 0x0, // End Dict
        0x0, 0x0, 0x0, 0x0, // CRC
    ];

    let res = img(input).expect("Couldn't get img chunk");
    let _ = res;
}

#[test]
fn img_fixture_yields_one_key_with_empty_value() {
    let input: &[u8] = &[
        b'I', b'M', b'G', b' ', 0x9, 0x0, 0x0, 0x0, 0x1, 0x0, 0x0, 0x0, 0x41, 0x0, 0x0, 0x0, 0x0,
        0x0, 0x0, 0x0, 0x0,
    ];
    let (rest, found) = img(input).expect("the fixture is a well-formed image chunk");
    assert!(rest.is_empty());
    match found {
        Chunk::Img { dict } => {
            assert_eq!(dict.len(), 1);
            assert_eq!(dict.get("A"), Some(&Vec::new()));
            assert_eq!(dict.get("B"), None);
        }
        other => panic!("expected an image chunk, got {:?}", other),
    }
}

#[test]
fn img_trailing_field_is_taken_whatever_it_holds() {
    for crc in [[0u8, 0, 0, 0], [0xde, 0xad, 0xbe, 0xef], [1, 0, 0, 0], [0xff, 0xff, 0xff, 0xff]] {
        let mut input = b"IMG ".to_vec();
        input.extend_from_slice(&le(9));
        input.extend_from_slice(&entry_bytes("A", b""));
        input.extend_from_slice(&crc);
        input.extend_from_slice(b"next");
        let (rest, found) = img(&input).expect("the checksum is not examined");
        assert_eq!(rest, b"next");
        match found {
            Chunk::Img { dict } => {
                assert_eq!(dict.len(), 1);
                assert_eq!(dict.get("A"), Some(&Vec::new()));
            }
            other => panic!("expected an image chunk, got {:?}", other),
        }
    }
}

#[test]
fn img_declared_size_is_not_used() {
    for size in [0u32, 9, 1000, u32::MAX] {
        let mut input = b"IMG ".to_vec();
        input.extend_from_slice(&le(size));
        input.extend_from_slice(&entry_bytes("k", b"v"));
        input.extend_from_slice(&[0, 0, 0, 0]);
        let (rest, found) = img(&input).expect("the size field bounds nothing");
        assert!(rest.is_empty());
        assert!(matches!(found, Chunk::Img { .. }));
    }
}

#[test]
fn each_kind_answers_to_its_own_tag_only() {
    let image = dict_chunk(b"IMG ", &[("a", b"1")], [0; 4]);
    let camera = dict_chunk(b"CAMR", &[("a", b"1")], [0; 4]);
    let light = dict_chunk(b"LIGH", &[("a", b"1")], [0; 4]);
    assert!(matches!(img(&image), Ok((_, Chunk::Img { .. }))));
    assert!(matches!(camr(&camera), Ok((_, Chunk::Camr { .. }))));
    assert!(matches!(ligh(&light), Ok((_, Chunk::Ligh { .. }))));
    assert!(matches!(img(&camera), Err(ParseError::UnrecognizedChunkTag)));
    assert!(matches!(camr(&light), Err(ParseError::UnrecognizedChunkTag)));
    assert!(matches!(ligh(&image), Err(ParseError::UnrecognizedChunkTag)));
    assert!(matches!(prev(&image), Err(ParseError::UnrecognizedChunkTag)));
    assert!(matches!(bl16(&image), Err(ParseError::UnrecognizedChunkTag)));
    assert!(matches!(layr(&image), Err(ParseError::UnrecognizedChunkTag)));
    assert!(matches!(img(b"IMG"), Err(ParseError::UnrecognizedChunkTag)));
    assert!(matches!(img(b""), Err(ParseError::UnrecognizedChunkTag)));
    assert!(matches!(img(b"img \0\0\0\0"), Err(ParseError::UnrecognizedChunkTag)));
}

#[test]
fn kind_tags_are_the_ascii_names() {
    assert_eq!(&ChunkKind::Img.tag(), b"IMG ");
    assert_eq!(&ChunkKind::Prev.tag(), b"PREV");
    assert_eq!(&ChunkKind::Bl16.tag(), b"BL16");
    assert_eq!(&ChunkKind::Layr.tag(), b"LAYR");
    assert_eq!(&ChunkKind::Camr.tag(), b"CAMR");
    assert_eq!(&ChunkKind::Ligh.tag(), b"LIGH");
}

#[test]
fn prev_holds_the_blob_as_it_stands() {
    let mut input = b"PREV".to_vec();
    input.extend_from_slice(&blob(&[1, 2, 3, 0xff, 0]));
    input.extend_from_slice(&[9, 9, 9, 9]);
    input.extend_from_slice(b"tail");
    let (rest, found) = prev(&input).expect("a well-formed preview chunk");
    assert_eq!(rest, b"tail");
    match found {
        Chunk::Prev { data } => assert_eq!(data, vec![1, 2, 3, 0xff, 0]),
        other => panic!("expected a preview chunk, got {:?}", other),
    }
}

#[test]
fn bl16_holds_the_blob_as_it_stands() {
    let mut input = b"BL16".to_vec();
    input.extend_from_slice(&blob(b"pixels"));
    input.extend_from_slice(&[0, 0, 0, 0]);
    let (rest, found) = bl16(&input).expect("a well-formed voxel-block chunk");
    assert!(rest.is_empty());
    match found {
        Chunk::Bl16 { data } => assert_eq!(data, b"pixels".to_vec()),
        other => panic!("expected a voxel-block chunk, got {:?}", other),
    }
}

#[test]
fn blob_of_length_zero_is_well_formed() {
    let mut input = b"PREV".to_vec();
    input.extend_from_slice(&blob(b""));
    input.extend_from_slice(&[0, 0, 0, 0]);
    let (rest, found) = prev(&input).expect("an empty preview is a preview");
    assert!(rest.is_empty());
    assert!(matches!(found, Chunk::Prev { data } if data.is_empty()));
}

#[test]
fn truncated_blob_is_refused_at_every_length() {
    let mut whole = b"PREV".to_vec();
    whole.extend_from_slice(&blob(b"abcdef"));
    for kept in 4..whole.len() {
        assert!(
            matches!(prev(&whole[..kept]), Err(ParseError::Truncated)),
            "kept {} bytes",
            kept
        );
    }
    // The blob is whole, the trailing field is not.
    for extra in 0..4 {
        let mut input = whole.clone();
        input.extend_from_slice(&vec![0u8; extra]);
        assert!(matches!(prev(&input), Err(ParseError::Truncated)));
    }
    whole.extend_from_slice(&[0, 0, 0, 0]);
    assert!(prev(&whole).is_ok());
}

#[test]
fn block_reads_four_little_endian_numbers() {
    let mut input = record(7, -1, 0x0102_0304, i32::MIN, 0x5555_5555);
    input.extend_from_slice(b"xy");
    let (rest, found) = block(&input).expect("twenty bytes are a record");
    assert_eq!(rest, b"xy");
    assert_eq!(found, Block { index: 7, x: -1, y: 0x0102_0304, z: i32::MIN });
}

#[test]
fn block_byte_order_is_least_significant_first() {
    let input: [u8; 20] = [
        0x00, 0x03, 0x05, 0x07, // index
        0xff, 0xff, 0xff, 0x7f, // x
        0x00, 0x00, 0x00, 0x80, // y
        0xfe, 0xff, 0xff, 0xff, // z
        0xaa, 0xbb, 0xcc, 0xdd, // reserved
    ];
    let (rest, found) = block(&input).expect("twenty bytes are a record");
    assert!(rest.is_empty());
    assert_eq!(found.index, 0x0705_0300);
    assert_eq!(found.x, i32::MAX);
    assert_eq!(found.y, i32::MIN);
    assert_eq!(found.z, -2);
}

#[test]
fn block_reserved_field_is_not_examined() {
    let plain = block(&record(1, 2, 3, 4, 0)).expect("a record").1;
    for reserved in [1, -1, i32::MAX, i32::MIN, 0x1234_5678] {
        let input = record(1, 2, 3, 4, reserved);
        let (rest, found) = block(&input).expect("a record");
        assert!(rest.is_empty());
        assert_eq!(found, plain);
    }
}

#[test]
fn block_needs_twenty_bytes() {
    let whole = record(1, 2, 3, 4, 5);
    for kept in 0..20 {
        assert!(matches!(block(&whole[..kept]), Err(ParseError::Truncated)), "kept {}", kept);
    }
}

#[test]
fn blocks_takes_exactly_the_declared_count() {
    for count in 0..4u32 {
        let mut input = le(count);
        for i in 0..5 {
            input.extend_from_slice(&record(i, 10 * i, 20 * i, 30 * i, -i));
        }
        let (rest, found) = blocks(&input).expect("five records are enough");
        assert_eq!(found.len(), count as usize);
        assert_eq!(rest.len(), (5 - count as usize) * 20);
        for (i, one) in found.iter().enumerate() {
            let i = i as i32;
            assert_eq!(*one, Block { index: i, x: 10 * i, y: 20 * i, z: 30 * i });
        }
    }
}

#[test]
fn blocks_with_too_few_records_is_an_invalid_count() {
    let mut input = le(3);
    input.extend_from_slice(&record(0, 0, 0, 0, 0));
    input.extend_from_slice(&record(1, 1, 1, 1, 1));
    input.extend_from_slice(&record(2, 2, 2, 2, 2)[..19]);
    assert!(matches!(blocks(&input), Err(ParseError::InvalidBlockCount)));
    assert!(matches!(blocks(&le(u32::MAX)), Err(ParseError::InvalidBlockCount)));
    assert!(matches!(blocks(&[3, 0, 0]), Err(ParseError::Truncated)));
    assert!(matches!(blocks(&[]), Err(ParseError::Truncated)));
}

#[test]
fn layr_holds_blocks_and_dictionary() {
    let mut input = b"LAYR".to_vec();
    input.extend_from_slice(&le(1234));
    input.extend_from_slice(&le(2));
    input.extend_from_slice(&record(5, 16, 32, 48, 0));
    input.extend_from_slice(&record(6, -16, -32, -48, 77));
    input.extend_from_slice(&entry_bytes("name", b"background"));
    input.extend_from_slice(&entry_bytes("visible", &[1]));
    input.extend_from_slice(&[0, 0, 0, 0]);
    input.extend_from_slice(b"rest");
    let (rest, found) = layr(&input).expect("a well-formed layer chunk");
    assert_eq!(rest, b"rest");
    match found {
        Chunk::Layr { blocks, dict } => {
            assert_eq!(
                blocks,
                vec![
                    Block { index: 5, x: 16, y: 32, z: 48 },
                    Block { index: 6, x: -16, y: -32, z: -48 },
                ]
            );
            assert_eq!(dict.len(), 2);
            assert_eq!(dict.get("name"), Some(&b"background".to_vec()));
            assert_eq!(dict.get("visible"), Some(&vec![1]));
        }
        other => panic!("expected a layer chunk, got {:?}", other),
    }
}

#[test]
fn layr_without_blocks_is_well_formed() {
    let mut input = b"LAYR".to_vec();
    input.extend_from_slice(&le(0));
    input.extend_from_slice(&le(0));
    input.extend_from_slice(&entry_bytes("name", b"x"));
    input.extend_from_slice(&[0, 0, 0, 0]);
    let (rest, found) = layr(&input).expect("a layer may place no block");
    assert!(rest.is_empty());
    assert!(matches!(found, Chunk::Layr { blocks, dict } if blocks.is_empty() && dict.len() == 1));
}

#[test]
fn layr_errors_name_what_is_malformed() {
    assert!(matches!(layr(b"LAYR\0\0"), Err(ParseError::Truncated)));
    assert!(matches!(layr(b"LAYR\0\0\0\0\x01\0"), Err(ParseError::Truncated)));
    let mut short = b"LAYR".to_vec();
    short.extend_from_slice(&le(0));
    short.extend_from_slice(&le(2));
    short.extend_from_slice(&record(0, 0, 0, 0, 0));
    assert!(matches!(layr(&short), Err(ParseError::InvalidBlockCount)));
    let mut bare = b"LAYR".to_vec();
    bare.extend_from_slice(&le(0));
    bare.extend_from_slice(&le(1));
    bare.extend_from_slice(&record(0, 0, 0, 0, 0));
    bare.extend_from_slice(&[0, 0, 0, 0]);
    bare.extend_from_slice(&[0, 0, 0, 0]);
    assert!(matches!(layr(&bare), Err(ParseError::EmptyDictionary)));
    assert!(matches!(layer(&bare[4..]), Err(ParseError::EmptyDictionary)));
}

#[test]
fn dictionary_chunk_with_zero_key_length_is_an_empty_dictionary() {
    for tag in [b"IMG ", b"CAMR", b"LIGH"] {
        let input = dict_chunk(tag, &[], [0; 4]);
        assert!(matches!(chunk(&input), Err(ParseError::EmptyDictionary)));
        let mut longer = input.clone();
        longer.extend_from_slice(&[0; 16]);
        assert!(matches!(chunk(&longer), Err(ParseError::EmptyDictionary)));
    }
    assert!(matches!(img(b"IMG \0\0\0\0"), Err(ParseError::EmptyDictionary)));
    assert!(matches!(sized_dict(b"\0\0\0\0\0\0\0\0"), Err(ParseError::EmptyDictionary)));
}

#[test]
fn dictionary_chunk_errors_name_what_is_malformed() {
    assert!(matches!(img(b"IMG \0\0"), Err(ParseError::Truncated)));
    assert!(matches!(sized_dict(b"\0\0\0"), Err(ParseError::Truncated)));
    // A whole dictionary, and a trailing field that is cut short.
    let whole = dict_chunk(b"CAMR", &[("a", b"1")], [0; 4]);
    for kept in (whole.len() - 4)..whole.len() {
        assert!(matches!(camr(&whole[..kept]), Err(ParseError::Truncated)), "kept {}", kept);
    }
    assert!(camr(&whole).is_ok());
}

#[test]
fn body_is_what_stands_behind_the_tag() {
    let whole = dict_chunk(b"LIGH", &[("fixed", &[1])], [7, 7, 7, 7]);
    let (rest, found) = body(ChunkKind::Ligh, &whole[4..]).expect("a light body");
    assert_eq!(rest, &[7, 7, 7, 7]);
    assert!(matches!(found, Chunk::Ligh { dict } if dict.get("fixed") == Some(&vec![1])));
    let (rest, found) = chunk_common(ChunkKind::Ligh, &whole).expect("a light chunk");
    assert!(rest.is_empty());
    assert!(matches!(found, Chunk::Ligh { .. }));
    assert!(matches!(
        chunk_common(ChunkKind::Camr, &whole),
        Err(ParseError::UnrecognizedChunkTag)
    ));
    let (_, found) = body(ChunkKind::Prev, &blob(b"p")).expect("a preview body");
    assert!(matches!(found, Chunk::Prev { data } if data == b"p"));
    let (_, found) = body(ChunkKind::Bl16, &blob(b"b")).expect("a voxel-block body");
    assert!(matches!(found, Chunk::Bl16 { data } if data == b"b"));
}

#[test]
fn chunk_takes_the_kind_that_the_tag_names() {
    let mut preview = b"PREV".to_vec();
    preview.extend_from_slice(&blob(b"png"));
    preview.extend_from_slice(&[0; 4]);
    let mut voxels = b"BL16".to_vec();
    voxels.extend_from_slice(&blob(b"png"));
    voxels.extend_from_slice(&[0; 4]);
    let mut layer_bytes = b"LAYR".to_vec();
    layer_bytes.extend_from_slice(&le(0));
    layer_bytes.extend_from_slice(&le(0));
    layer_bytes.extend_from_slice(&entry_bytes("n", b""));
    layer_bytes.extend_from_slice(&[0; 4]);
    assert!(matches!(
        chunk(&dict_chunk(b"IMG ", &[("a", b"")], [0; 4])),
        Ok((_, Chunk::Img { .. }))
    ));
    assert!(matches!(chunk(&preview), Ok((_, Chunk::Prev { .. }))));
    assert!(matches!(chunk(&voxels), Ok((_, Chunk::Bl16 { .. }))));
    assert!(matches!(chunk(&layer_bytes), Ok((_, Chunk::Layr { .. }))));
    assert!(matches!(
        chunk(&dict_chunk(b"CAMR", &[("a", b"")], [0; 4])),
        Ok((_, Chunk::Camr { .. }))
    ));
    assert!(matches!(
        chunk(&dict_chunk(b"LIGH", &[("a", b"")], [0; 4])),
        Ok((_, Chunk::Ligh { .. }))
    ));
}

#[test]
fn chunk_with_unknown_tag_is_unrecognized() {
    for input in [&b"MATE\0\0\0\0"[..], b"", b"IM", b"GOX ", b"prev\0\0\0\0\0\0\0\0"] {
        assert!(matches!(chunk(input), Err(ParseError::UnrecognizedChunkTag)));
    }
}
