//! The chunked stream format.

use orc_app::bytes::{append, append_le32};
use orc_app::chunked::{
    encode_raw_frame, encode_skippable_toc_frame, frame_cid, keeps_compressed, ChunkEntry,
    ChunkedError, ChunkerParams, Toc, FORMAT_VERSION, MAX_BLOCK, MAX_TOC_BYTES, SKIPPABLE_MAGIC,
};
use orc_app::payload::decode_chunked_payload;
use orc_app::persist::stream::digest_bytes;

fn toc() -> Toc {
    let entry = |offset: u64, length: u64| ChunkEntry {
        frame_cid: [3; 32],
        frame_offset: offset,
        frame_length: length,
        raw_length: 5,
        compressed: false,
    };
    Toc {
        format_version: FORMAT_VERSION,
        chunker: ChunkerParams {
            min: 1,
            avg: 2,
            max: 3,
        },
        chunks: vec![entry(0, 10), entry(10, 7)],
    }
}

#[test]
fn a_table_of_contents_is_read_back() {
    let toc = toc();
    let bytes = toc.encode().expect("encode");
    assert_eq!(bytes.len(), 24 + 2 * 53);
    assert_eq!(Toc::decode(&bytes).expect("decode"), toc);
    assert_eq!(Toc::decode(&bytes[1..]), Err(ChunkedError::BadToc));
    assert_eq!(Toc::decode(&[]), Err(ChunkedError::BadToc));
    assert_eq!(
        Toc::decode(&vec![0; MAX_TOC_BYTES + 1]),
        Err(ChunkedError::TocTooLarge(MAX_TOC_BYTES + 1))
    );
    assert_eq!(toc.clone(), toc);
}

#[test]
fn frames_tile_their_region() {
    let good = toc();
    assert_eq!(good.validate_tiling(17), Ok(10));
    assert_eq!(good.validate_tiling(18), Err(ChunkedError::BadTiling(2)));
    let mut gap = toc();
    gap.chunks[1].frame_offset = 11;
    assert_eq!(gap.validate_tiling(18), Err(ChunkedError::BadTiling(1)));
    let mut huge = toc();
    huge.chunks[1].frame_length = u64::MAX;
    assert_eq!(huge.validate_tiling(18), Err(ChunkedError::BadTiling(1)));
}

/// A frame is one that any zstd reader decodes to its content.
#[test]
fn a_frame_is_a_zstd_frame() {
    for len in [0usize, 1, MAX_BLOCK, MAX_BLOCK + 1, 3 * MAX_BLOCK + 5] {
        let content: Vec<u8> = (0..len).map(|n| (n % 251) as u8).collect();
        let frame = encode_raw_frame(&content);
        assert_eq!(
            zstd::bulk::decompress(&frame, len.max(1)).expect("decode"),
            content
        );
        assert_eq!(frame_cid(&frame), *blake3::hash(&frame).as_bytes());
    }
    let skippable = encode_skippable_toc_frame(b"toc");
    assert_eq!(skippable[..4], SKIPPABLE_MAGIC.to_le_bytes());
    assert_eq!(skippable[4..], [3, 0, 0, 0, b't', b'o', b'c']);
}

#[test]
fn a_chunk_is_kept_compressed_where_that_saves_enough() {
    assert!(keeps_compressed(0x20_0000, 0x10_0000));
    assert!(!keeps_compressed(100, 99));
}

#[test]
fn numbers_are_written_little_endian() {
    let mut out = vec![9];
    append_le32(&mut out, 0x0102_0304);
    append(&mut out, &[7]);
    assert_eq!(out, [9, 4, 3, 2, 1, 7]);
}

/// A payload of these contents, each in a frame of its own, and then the table of contents.
fn payload(contents: &[&[u8]], frames: &[Vec<u8>], version: u32) -> (Vec<u8>, Toc) {
    let mut blob = Vec::new();
    let mut chunks = Vec::new();
    for (content, frame) in contents.iter().zip(frames) {
        chunks.push(ChunkEntry {
            frame_cid: frame_cid(frame),
            frame_offset: blob.len() as u64,
            frame_length: frame.len() as u64,
            raw_length: content.len() as u32,
            compressed: true,
        });
        blob.extend_from_slice(frame);
    }
    let toc = Toc {
        format_version: version,
        chunker: ChunkerParams { min: 1, avg: 2, max: 3 },
        chunks,
    };
    let bytes = toc.encode().expect("encode");
    blob.extend_from_slice(&encode_skippable_toc_frame(&bytes));
    (blob, toc)
}

/// The blob with another table of contents.
fn with_table(blob: &[u8], old: &Toc, new: &Toc) -> Vec<u8> {
    let table = 8 + old.encode().expect("encode").len();
    let mut out = blob[..blob.len() - table].to_vec();
    out.extend_from_slice(&encode_skippable_toc_frame(&new.encode().expect("encode")));
    out
}

fn refused(blob: &[u8]) -> String {
    decode_chunked_payload(blob, &digest_bytes(blob)).expect_err("refused").message()
}

#[test]
fn a_chunked_payload_is_read_back() {
    let long = b"hello ".repeat(50_000);
    let contents: [&[u8]; 3] = [b"first", &long, b""];
    let raw: Vec<Vec<u8>> = contents.iter().map(|content| encode_raw_frame(content)).collect();
    let packed: Vec<Vec<u8>> =
        contents.iter().map(|content| zstd::bulk::compress(content, 3).expect("zstd")).collect();
    for frames in [raw, packed] {
        let (blob, _) = payload(&contents, &frames, FORMAT_VERSION);
        let decoded = decode_chunked_payload(&blob, &digest_bytes(&blob)).expect("decode");
        assert_eq!(decoded, contents.concat());
        // What a plain decoder makes of the whole blob, the table skipped, is the same.
        assert_eq!(zstd::stream::decode_all(blob.as_slice()).expect("zstd"), decoded);
    }
    let (empty, _) = payload(&[], &[], FORMAT_VERSION);
    assert_eq!(decode_chunked_payload(&empty, &digest_bytes(&empty)), Ok(Vec::new()));
}

#[test]
fn a_chunked_payload_is_checked_before_it_is_decoded() {
    let contents: [&[u8]; 2] = [b"first", b"second"];
    let frames: Vec<Vec<u8>> = contents.iter().map(|content| encode_raw_frame(content)).collect();
    let (blob, toc) = payload(&contents, &frames, FORMAT_VERSION);
    let digest = digest_bytes(&blob);
    assert_eq!(
        decode_chunked_payload(&blob[1..], &digest).expect_err("digest").message(),
        format!("blob digest mismatch: expected {digest}, got {}", digest_bytes(&blob[1..]))
    );
    let no_table = "chunked payload has no table of contents of its frames";
    assert_eq!(refused(&frames.concat()), no_table);
    assert_eq!(refused(b""), no_table);
    let mut trailing = blob.clone();
    trailing.push(0);
    assert_eq!(refused(&trailing), no_table);
    let mut gap = toc.clone();
    gap.chunks[1].frame_offset += 1;
    assert_eq!(refused(&with_table(&blob, &toc, &gap)), no_table);

    let (future, _) = payload(&contents, &frames, 2);
    assert_eq!(
        refused(&future),
        "chunked payload: table of contents version 2 is unsupported (expected 1)"
    );
    let mut huge = toc.clone();
    huge.chunks[1].raw_length = 12_582_913;
    assert_eq!(
        refused(&with_table(&blob, &toc, &huge)),
        "chunked payload: frame declares 12582913 bytes of content, over the 12582912-byte limit"
    );
    let mut swapped = toc.clone();
    swapped.chunks[1].frame_cid = [0; 32];
    assert_eq!(
        refused(&with_table(&blob, &toc, &swapped)),
        "chunked payload frame 1 does not have its content id"
    );
    for length in [5, 7] {
        let mut lied = toc.clone();
        lied.chunks[1].raw_length = length;
        assert_eq!(
            refused(&with_table(&blob, &toc, &lied)),
            "chunked payload frame 1 does not hold the declared length"
        );
    }
    let (broken, _) = payload(&contents, &[frames[0].clone(), b"second".to_vec()], FORMAT_VERSION);
    assert_eq!(refused(&broken), "chunked payload frame 1 cannot be decoded");
}
