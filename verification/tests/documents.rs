use gox::{decode, parse, Block, Chunk, ParseError};

fn le(n: u32) -> Vec<u8> {
    n.to_le_bytes().to_vec()
}

fn blob(data: &[u8]) -> Vec<u8> {
    let mut out = le(data.len() as u32);
    out.extend_from_slice(data);
    out
}

fn entry_bytes(key: &str, value: &[u8]) -> Vec<u8> {
    let mut out = blob(key.as_bytes());
    out.extend_from_slice(&blob(value));
    out
}

fn header(version: i32) -> Vec<u8> {
    let mut out = b"GOX ".to_vec();
    out.extend_from_slice(&version.to_le_bytes());
    out
}

fn dict_chunk(tag: &[u8], entries: &[(&str, &[u8])]) -> Vec<u8> {
    let mut out = tag.to_vec();
    out.extend_from_slice(&le(0));
    for (key, value) in entries {
        out.extend_from_slice(&entry_bytes(key, value));
    }
    out.extend_from_slice(&[0, 0, 0, 0]);
    out
}

fn blob_chunk(tag: &[u8], data: &[u8]) -> Vec<u8> {
    let mut out = tag.to_vec();
    out.extend_from_slice(&blob(data));
    out.extend_from_slice(&[0xc0, 0xff, 0xee, 0x00]);
    out
}

#[test]
fn header_alone_is_a_document_without_chunks() {
    for version in [0, 1, 2, 12, -1, i32::MAX, i32::MIN, 0x0102_0304] {
        let input = header(version);
        let found = decode(&input).expect("a header is a document");
        assert_eq!(found.version(), version);
        assert!(found.chunks().is_empty());
        let (rest, found) = parse(&input).expect("a header is a document");
        assert!(rest.is_empty());
        assert_eq!(found.version(), version);
        assert!(found.chunks().is_empty());
    }
}

#[test]
fn version_is_little_endian_and_signed() {
    let found = decode(&[b'G', b'O', b'X', b' ', 0x02, 0x00, 0x00, 0x00]).expect("a header");
    assert_eq!(found.version(), 2);
    let found = decode(&[b'G', b'O', b'X', b' ', 0x00, 0x03, 0x05, 0x07]).expect("a header");
    assert_eq!(found.version(), 0x0705_0300);
    let found = decode(&[b'G', b'O', b'X', b' ', 0xff, 0xff, 0xff, 0xff]).expect("a header");
    assert_eq!(found.version(), -1);
    let found = decode(&[b'G', b'O', b'X', b' ', 0x00, 0x00, 0x00, 0x80]).expect("a header");
    assert_eq!(found.version(), i32::MIN);
}

#[test]
fn input_without_magic_is_bad_magic() {
    let bad: [&[u8]; 9] = [
        b"",
        b"G",
        b"GOX",
        b"GOX\0\x02\0\0\0",
        b"gox \x02\0\0\0",
        b" GOX\x02\0\0\0",
        b"IMG \0\0\0\0",
        b"XOG \x02\0\0\0",
        b"\0\0\0\0\0\0\0\0",
    ];
    for input in bad {
        assert!(matches!(decode(input), Err(ParseError::BadMagic)));
        assert!(matches!(parse(input), Err(ParseError::BadMagic)));
    }
}

#[test]
fn magic_without_version_is_truncated() {
    for input in [&b"GOX "[..], b"GOX \x02", b"GOX \x02\0\0"] {
        assert!(matches!(decode(input), Err(ParseError::Truncated)));
    }
}

#[test]
fn document_holds_its_chunks_in_file_order() {
    let mut input = header(2);
    input.extend_from_slice(&dict_chunk(b"IMG ", &[("box", &[0; 24])]));
    input.extend_from_slice(&blob_chunk(b"PREV", b"\x89PNG"));
    input.extend_from_slice(&blob_chunk(b"BL16", b"block zero"));
    input.extend_from_slice(&blob_chunk(b"BL16", b"block one"));
    let mut layer = b"LAYR".to_vec();
    layer.extend_from_slice(&le(0));
    layer.extend_from_slice(&le(2));
    for (index, x) in [(0i32, 0i32), (1, 16)] {
        for n in [index, x, 0, 0, 0] {
            layer.extend_from_slice(&n.to_le_bytes());
        }
    }
    layer.extend_from_slice(&entry_bytes("name", b"ground"));
    layer.extend_from_slice(&[0, 0, 0, 0]);
    input.extend_from_slice(&layer);
    input.extend_from_slice(&dict_chunk(b"CAMR", &[("name", b"cam"), ("dist", &[0, 0, 0x80, 0x3f])]));
    input.extend_from_slice(&dict_chunk(b"LIGH", &[("fixed", &[1])]));

    let (rest, found) = parse(&input).expect("a well-formed file");
    assert!(rest.is_empty());
    assert_eq!(found.version(), 2);
    let chunks = found.chunks();
    assert_eq!(chunks.len(), 7);
    assert!(matches!(&chunks[0], Chunk::Img { dict } if dict.get("box") == Some(&vec![0; 24])));
    assert!(matches!(&chunks[1], Chunk::Prev { data } if data == b"\x89PNG"));
    assert!(matches!(&chunks[2], Chunk::Bl16 { data } if data == b"block zero"));
    assert!(matches!(&chunks[3], Chunk::Bl16 { data } if data == b"block one"));
    match &chunks[4] {
        Chunk::Layr { blocks, dict } => {
            assert_eq!(
                blocks,
                &vec![Block { index: 0, x: 0, y: 0, z: 0 }, Block { index: 1, x: 16, y: 0, z: 0 }]
            );
            assert_eq!(dict.get("name"), Some(&b"ground".to_vec()));
        }
        other => panic!("expected a layer, got {:?}", other),
    }
    match &chunks[5] {
        Chunk::Camr { dict } => {
            assert_eq!(dict.len(), 2);
            assert_eq!(dict.get("name"), Some(&b"cam".to_vec()));
            assert_eq!(dict.get("dist"), Some(&vec![0, 0, 0x80, 0x3f]));
        }
        other => panic!("expected a camera, got {:?}", other),
    }
    assert!(matches!(&chunks[6], Chunk::Ligh { dict } if dict.len() == 1));
}

#[test]
fn unknown_tag_ends_the_document_without_error() {
    let mut input = header(2);
    input.extend_from_slice(&blob_chunk(b"PREV", b"one"));
    input.extend_from_slice(&dict_chunk(b"IMG ", &[("k", b"v")]));
    let known = input.len();
    input.extend_from_slice(b"MATE");
    input.extend_from_slice(&blob(b"a material"));
    input.extend_from_slice(&blob_chunk(b"PREV", b"never reached"));

    let (rest, found) = parse(&input).expect("an unknown tag is no error");
    assert_eq!(rest, &input[known..]);
    assert_eq!(found.chunks().len(), 2);
    assert!(matches!(&found.chunks()[0], Chunk::Prev { data } if data == b"one"));
    assert!(matches!(&found.chunks()[1], Chunk::Img { .. }));

    let found = decode(&input).expect("an unknown tag is no error");
    assert_eq!(found.version(), 2);
    assert_eq!(found.chunks().len(), 2);
}

#[test]
fn unknown_tag_right_behind_the_header_gives_no_chunks() {
    for tail in [&b"MATE\0\0\0\0"[..], b"\0", b"IM", b"GOX ", b"prev"] {
        let mut input = header(7);
        input.extend_from_slice(tail);
        let (rest, found) = parse(&input).expect("an unknown tag is no error");
        assert_eq!(rest, tail);
        assert_eq!(found.version(), 7);
        assert!(found.chunks().is_empty());
    }
}

#[test]
fn malformed_body_behind_a_known_tag_fails_the_document() {
    let mut input = header(2);
    input.extend_from_slice(&blob_chunk(b"PREV", b"fine"));
    let mut cut = input.clone();
    cut.extend_from_slice(b"PREV\x10\0\0\0abc");
    assert!(matches!(decode(&cut), Err(ParseError::Truncated)));
    let mut empty = input.clone();
    empty.extend_from_slice(b"CAMR\0\0\0\0\0\0\0\0\0\0\0\0");
    assert!(matches!(decode(&empty), Err(ParseError::EmptyDictionary)));
    let mut count = input.clone();
    count.extend_from_slice(b"LAYR\0\0\0\0\x01\0\0\0");
    assert!(matches!(decode(&count), Err(ParseError::InvalidBlockCount)));
    let mut tag_only = input.clone();
    tag_only.extend_from_slice(b"BL16");
    assert!(matches!(decode(&tag_only), Err(ParseError::Truncated)));
    assert!(decode(&input).is_ok());
}

#[test]
fn declared_size_does_not_bound_a_dictionary() {
    // The image chunk declares nine bytes and holds two entries.
    let mut input = header(2);
    input.extend_from_slice(b"IMG ");
    input.extend_from_slice(&le(9));
    input.extend_from_slice(&entry_bytes("A", b""));
    input.extend_from_slice(&entry_bytes("B", b"beyond"));
    input.extend_from_slice(&[0, 0, 0, 0]);
    let found = decode(&input).expect("the size is informational");
    assert_eq!(found.chunks().len(), 1);
    assert!(matches!(&found.chunks()[0], Chunk::Img { dict } if dict.len() == 2));
}
