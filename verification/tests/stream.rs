//! Encoding sealed streams and decoding them.

use std::collections::HashSet;
use std::io::Read;
use std::sync::Arc;

use orc_app::chunked::{
    encode_raw_frame, encode_skippable_toc_frame, frame_cid, ChunkEntry, ChunkedError, Toc,
    FASTCDC_AVG, FASTCDC_MIN, FORMAT_VERSION, MAX_CHUNK_RAW, SKIPPABLE_MAGIC,
};
use orc_app::inflate::{inflate, Inflated};
use orc_app::persist::seal::{DataKey, KeyRing, SealContext, SealError, Sealer, DATA_KEY_LEN};
use orc_app::persist::stream::{
    decode_frame, decode_sealed_sequential, decode_sealed_stream, digest_bytes,
    encode_sealed_stream, seal_chunk, DecodeStep, SealedLayer, SequentialDecoder, StreamEncoder,
    StreamError, MAX_SEALED_FRAME, SEALED_FASTCDC_MAX,
};

const MIB: usize = 1024 * 1024;

fn hex(bytes: &[u8]) -> String {
    bytes.iter().map(|byte| format!("{byte:02x}")).collect()
}

fn golden_sealer() -> Sealer {
    let mut key = [0u8; DATA_KEY_LEN];
    for (index, byte) in key.iter_mut().enumerate() {
        *byte = u8::try_from(index).unwrap_or_default();
    }
    Sealer::new(&DataKey::new(key))
}

fn encode(input: &[u8], sealer: &Sealer) -> (Vec<u8>, SealedLayer) {
    encode_sealed_stream(input, sealer).ok().expect("encode")
}

fn decode_sequential(stream: &[u8], sealer: &Sealer) -> Result<Vec<u8>, StreamError> {
    let mut out = Vec::new();
    let written = decode_sealed_sequential(stream, sealer, &mut out)?;
    assert_eq!(written, out.len() as u64);
    Ok(out)
}

fn decode(wire: &[u8], layer: &SealedLayer, sealer: &Sealer) -> Result<Vec<u8>, StreamError> {
    let mut out = Vec::new();
    let written = decode_sealed_stream(wire, &layer.toc, sealer, &mut out)?;
    assert_eq!(written, out.len() as u64);
    Ok(out)
}

/// The wire bytes of a fixed key and body. The frame layout is a format: a change here makes every
/// stored restore point unreadable.
#[test]
fn the_sequential_frame_layout_is_pinned() {
    let sealer = golden_sealer();
    let (stream, layer) = encode(b"orc8r appdata sequential golden vector", &sealer);
    assert_eq!(
        hex(&stream),
        "28b52ffda045000000290200020020fad55ecdfb4b6fbf013ffc9815757c62e257a8be6f1b4783e8accaa02c9dcdc12359d84102f39eaa210c5195a98f7674a30827fc9029d2f6c9d8b949f4730b95e9c15e2a4d186c0000000201700355052eecdac127bc117d5a0b36bb8debc2d4e545190dddc2d04d78b3af43c3a711ab56d42187bc4ed997be6b3b80e3d12e965b42411d155de1f815f05b383f7ad939f83677a0107ec4a81b61e99b45ddcf9652368f5311c74610b8dd747e7d1551c8ca53fb5a725c"
    );
    assert_eq!(layer.toc.chunks.len(), 1);
    assert_eq!(
        decode_sequential(&stream, &sealer).ok().expect("decode"),
        b"orc8r appdata sequential golden vector"
    );
}

#[test]
fn the_sequential_decoder_agrees_with_the_toc_walking_one() {
    let sealer = golden_sealer();
    // Long enough to cross several frames, with a compressible and an incompressible
    // stretch so both sealed flag values appear.
    let mut body = Vec::new();
    for index in 0..1_000_000u32 {
        body.extend_from_slice(&index.to_le_bytes());
        body.extend_from_slice(b"aaaaaaaaaaaaaaaa");
    }
    let (stream, layer) = encode(&body, &sealer);
    assert!(layer.toc.chunks.len() > 3, "the body must cross frames");

    assert_eq!(decode(&stream, &layer, &sealer).ok().expect("toc"), body);
    assert_eq!(decode_sequential(&stream, &sealer).ok().expect("sequential"), body);
}

#[test]
fn an_empty_stream_still_carries_its_table_of_contents() {
    let sealer = golden_sealer();
    let (stream, layer) = encode(b"", &sealer);
    assert!(layer.toc.chunks.is_empty());
    assert!(decode_sequential(&stream, &sealer).ok().expect("decode").is_empty());
}

#[test]
fn a_stream_cut_short_of_its_table_of_contents_is_refused() {
    let sealer = golden_sealer();
    let (stream, layer) = encode(
        b"a body long enough to frame".repeat(64).as_slice(),
        &sealer,
    );
    let truncated = &stream[..usize::try_from(layer.toc_offset).expect("offset")];
    assert!(
        matches!(decode_sequential(truncated, &sealer), Err(StreamError::MissingToc)),
        "a stream without its TOC frame must not read as complete"
    );
    // Cut inside a frame instead: the frame itself is short.
    let inside = &stream[..stream.len() / 3];
    assert!(matches!(
        decode_sequential(inside, &sealer),
        Err(StreamError::TruncatedFrame { .. })
    ));
}

#[test]
fn a_tampered_frame_fails_the_aead_rather_than_decoding() {
    let sealer = golden_sealer();
    let (mut stream, _) = encode(
        b"tamper with me please, at length".repeat(8).as_slice(),
        &sealer,
    );
    // Byte 20 is inside the first frame's sealed ciphertext.
    stream[20] ^= 0x01;
    assert!(matches!(
        decode_sequential(&stream, &sealer),
        Err(StreamError::Seal(SealError::Unauthentic))
    ));
}

#[test]
fn a_table_of_contents_that_disagrees_with_the_frames_is_refused() {
    let sealer = golden_sealer();
    let (stream, layer) = encode(b"a body".repeat(2000).as_slice(), &sealer);
    let offset = usize::try_from(layer.toc_offset).expect("offset");
    // Re-seals a doctored TOC into a stream the decoder will accept as far as the
    // cross-check — a holder of the key is the only party that can forge this far.
    let rebuild = |toc: &Toc| {
        let sealed = sealer
            .seal(SealContext::Toc, &toc.encode().ok().expect("toc"), false)
            .ok().expect("seal toc");
        let mut rebuilt = stream[..offset].to_vec();
        rebuilt.extend_from_slice(&encode_skippable_toc_frame(&sealed));
        rebuilt
    };

    // Rebuild the stream with a TOC that claims one frame too few.
    let mut short = layer.toc.clone();
    short.chunks.pop();
    assert!(matches!(
        decode_sequential(&rebuild(&short), &sealer),
        Err(StreamError::TocFrameCount { .. })
    ));

    // And one that claims a different sealed length for a frame it does list.
    let mut lying = layer.toc.clone();
    lying.chunks[0].raw_length += 1;
    assert!(matches!(
        decode_sequential(&rebuild(&lying), &sealer),
        Err(StreamError::TocLengthMismatch { index: 0, .. })
    ));
}

/// A table of contents in the clear is not read: the decoder unseals that payload.
#[test]
fn a_stream_with_a_plaintext_table_of_contents_is_refused() {
    let sealer = golden_sealer();
    let (stream, layer) = encode(b"a body".repeat(2000).as_slice(), &sealer);
    let offset = usize::try_from(layer.toc_offset).expect("offset");
    let mut in_the_clear = stream[..offset].to_vec();
    in_the_clear.extend_from_slice(&encode_skippable_toc_frame(
        &layer.toc.encode().ok().expect("toc"),
    ));
    assert!(
        matches!(decode_sequential(&in_the_clear, &sealer), Err(StreamError::Seal(_))),
        "a table of contents in the clear must not be read"
    );
}

#[test]
fn bytes_after_the_table_of_contents_are_refused() {
    let sealer = golden_sealer();
    let (mut stream, _) = encode(b"a body".repeat(2000).as_slice(), &sealer);
    stream.extend_from_slice(b"spliced");
    assert!(matches!(
        decode_sequential(&stream, &sealer),
        Err(StreamError::TrailingBytes(7))
    ));
}

#[test]
fn bytes_that_are_not_this_codecs_output_are_refused() {
    let sealer = golden_sealer();
    assert!(matches!(
        decode_sequential(b"not a zstd frame at all", &sealer),
        Err(StreamError::BadFrameMagic { index: 0 })
    ));
    // A stock zstd frame is a valid zstd frame and still not our layout.
    let compressed = zstd::bulk::compress(&[0x5Au8; 4096], 3).expect("compress");
    assert!(matches!(
        decode_sequential(&compressed, &sealer),
        Err(StreamError::BadFrameLayout { index: 0 })
    ));
}

/// Narrows a wire offset for slicing in tests (the suite runs on 64-bit hosts).
fn at(offset: u64) -> usize {
    usize::try_from(offset).expect("offset fits a 64-bit usize")
}

fn sealer(seed: u8) -> Sealer {
    Sealer::new(&DataKey::new([seed; DATA_KEY_LEN]))
}

/// Deterministic pseudo-random bytes (xorshift64*), so a failure reproduces exactly.
fn pseudo_random(len: usize, seed: u64) -> Vec<u8> {
    let mut state = seed | 1;
    let mut out = Vec::with_capacity(len);
    while out.len() < len {
        state ^= state << 13;
        state ^= state >> 7;
        state ^= state << 17;
        out.extend_from_slice(&state.to_le_bytes());
    }
    out.truncate(len);
    out
}

/// Incompressible and highly compressible regions alternating, so both the compressed
/// and the plaintext seal paths run in one stream.
fn mixed_input(len: usize, seed: u64) -> Vec<u8> {
    let mut out = Vec::with_capacity(len);
    let mut round = 0u64;
    while out.len() < len {
        out.extend_from_slice(&pseudo_random(3 * MIB, seed + round));
        out.resize((out.len() + 5 * MIB).min(len.max(out.len() + 1)), b'x');
        round += 1;
    }
    out.truncate(len);
    out
}

#[test]
fn round_trips_a_mixed_multi_mib_input() {
    let sealer = sealer(11);
    let input = mixed_input(24 * MIB, 0x5eed);
    let (wire, layer) = encode(&input, &sealer);

    assert_eq!(layer.raw_total, input.len() as u64);
    assert!(layer.toc.chunks.len() > 2, "expected several chunks");
    assert_eq!(decode(&wire, &layer, &sealer).ok().expect("decode"), input);
}

#[test]
fn an_empty_input_yields_an_empty_layer() {
    let sealer = sealer(11);
    let (wire, layer) = encode(&[], &sealer);
    assert!(layer.toc.chunks.is_empty());
    assert_eq!(layer.raw_total, 0);
    assert_eq!(layer.toc_offset, 0);
    assert_eq!(wire.len() as u64, layer.toc_frame_length);
    assert!(decode(&wire, &layer, &sealer).ok().expect("decode").is_empty());
}

/// The frames tile the stream and the table of contents is its last frame, but sealed: a reader
/// without the key cannot recover it.
#[test]
fn the_table_of_contents_is_sealed_against_a_keyless_reader() {
    let sealer = sealer(4);
    let input = mixed_input(20 * MIB, 0xabc);
    let (wire, layer) = encode(&input, &sealer);

    // The frame region tiles exactly — what the registry re-checks on ingest.
    assert_eq!(
        layer.toc.validate_tiling(layer.toc_offset).ok().expect("tiling"),
        layer.total_length
    );

    // The skippable TOC frame is the final frame, and `toc_digest` covers the bytes it
    // actually carries.
    let frame = &wire[at(layer.toc_offset)..];
    assert_eq!(frame.len() as u64, layer.toc_frame_length);
    assert_eq!(
        u32::from_le_bytes(frame[..4].try_into().expect("magic")),
        SKIPPABLE_MAGIC
    );
    let declared = u32::from_le_bytes(frame[4..8].try_into().expect("length")) as usize;
    assert_eq!(declared, frame.len() - 8);
    assert_eq!(digest_bytes(&frame[8..]), layer.toc_digest);

    // And the payload is a seal, not a TOC: a reader without the key gets nothing.
    assert!(
        Toc::decode(&frame[8..]).is_err(),
        "a keyless reader must not recover the chunk-length sequence"
    );
}

#[test]
fn the_frame_region_decodes_to_the_sealed_payloads() {
    let sealer = sealer(6);
    let input = mixed_input(20 * MIB, 0xfeed);
    let (wire, layer) = encode(&input, &sealer);

    // A plain zstd reader recovers the sealed payloads and nothing else.
    let region = &wire[..at(layer.toc_offset)];
    let mut payloads = Vec::new();
    let mut decoder = zstd::stream::read::Decoder::new(region).expect("decoder");
    decoder.read_to_end(&mut payloads).expect("decode region");
    assert_eq!(payloads.len() as u64, layer.total_length);

    let mut cursor = 0usize;
    let mut plaintext = Vec::new();
    let mut compressed_chunks = 0;
    for chunk in &layer.toc.chunks {
        assert!(!chunk.compressed, "frames carry sealed bytes verbatim");
        let sealed = &payloads[cursor..cursor + chunk.raw_length as usize];
        let (payload, was_compressed) = sealer.open(SealContext::Frame, sealed).expect("open");
        if was_compressed {
            compressed_chunks += 1;
            plaintext
                .extend_from_slice(&zstd::bulk::decompress(&payload, MAX_CHUNK_RAW).expect("decompress"));
        } else {
            plaintext.extend_from_slice(&payload);
        }
        cursor += chunk.raw_length as usize;
    }
    assert_eq!(plaintext, input);
    assert!(
        compressed_chunks > 0,
        "the compressible regions must seal compressed"
    );
}

#[test]
fn the_layer_digest_is_the_sha256_of_the_wire_stream() {
    let sealer = sealer(2);
    let (wire, layer) = encode(&mixed_input(12 * MIB, 7), &sealer);
    assert_eq!(layer.layer_digest, digest_bytes(&wire));
}

#[test]
fn a_one_byte_insertion_changes_at_most_three_cids() {
    let sealer = sealer(8);
    let input = pseudo_random(24 * MIB, 0x00c0_ffee);
    let mut edited = input.clone();
    edited.insert(input.len() / 2, 0x42);

    let (_, before) = encode(&input, &sealer);
    let (_, after) = encode(&edited, &sealer);

    let known: HashSet<[u8; 32]> = before.toc.chunks.iter().map(|c| c.frame_cid).collect();
    let fresh = after
        .toc
        .chunks
        .iter()
        .filter(|chunk| !known.contains(&chunk.frame_cid))
        .count();
    assert!(
        fresh <= 3,
        "a 1-byte insertion re-uploaded {fresh} of {} chunks",
        after.toc.chunks.len()
    );
}

#[test]
fn every_frame_stays_within_the_spec_146_caps() {
    let sealer = sealer(3);
    // Incompressible input: every chunk seals to its plaintext length plus the
    // envelope, which is where the `raw_length` cap is closest.
    let (_, layer) = encode(&pseudo_random(64 * MIB, 0xdad), &sealer);
    for chunk in &layer.toc.chunks {
        assert!(
            chunk.raw_length as usize <= MAX_CHUNK_RAW,
            "raw_length {} exceeds the 12 MiB cap",
            chunk.raw_length
        );
        assert!(chunk.frame_length <= MAX_SEALED_FRAME);
        assert!(u64::from(chunk.raw_length) <= chunk.frame_length);
    }
    assert!(
        layer
            .toc
            .chunks
            .iter()
            .any(|chunk| u64::from(chunk.raw_length) > u64::from(FASTCDC_AVG)),
        "expected at least one chunk well above the average size"
    );
}

/// A stream is encoded chunk by chunk: every frame is emitted before the next chunk is taken, and
/// the stream is the one that encoding in one go gives.
#[test]
fn encoding_streams_without_buffering_the_layer() {
    let sealer = sealer(5);
    let input = pseudo_random(64 * MIB, 0x1234);
    let (wire, layer) = encode(&input, &sealer);
    let cuts: Vec<usize> = {
        let chunker = fastcdc::v2020::FastCDC::new(
            &input,
            FASTCDC_MIN,
            FASTCDC_AVG,
            SEALED_FASTCDC_MAX,
        );
        chunker.map(|chunk| chunk.length).collect()
    };

    let mut encoder = StreamEncoder::new();
    let mut frames = 0u64;
    let mut emitted = 0u64;
    let mut at = 0;
    for length in cuts {
        assert!(length as u64 <= u64::from(SEALED_FASTCDC_MAX));
        assert!(encoder.has_room());
        let frame = encoder
            .frame(&sealer, &input[at..at + length])
            .ok()
            .expect("frame");
        assert!(
            frame.len() as u64 <= MAX_SEALED_FRAME,
            "a single frame must never exceed one frame's limit"
        );
        assert_eq!(
            frame,
            wire[usize::try_from(emitted).expect("offset")..][..frame.len()]
        );
        frames += 1;
        emitted += frame.len() as u64;
        at += length;
    }
    assert_eq!(at, input.len());
    let (tail, finished) = encoder.finish(&sealer).ok().expect("tail");
    emitted += tail.len() as u64;
    assert_eq!(finished.layer_digest, layer.layer_digest);
    assert_eq!(finished.toc, layer.toc);
    assert_eq!(emitted, layer.toc_offset + layer.toc_frame_length);
    assert!(frames > 4, "expected many frames, saw {frames}");
}

#[test]
fn recipe_entries_cover_the_whole_blob() {
    let sealer = sealer(9);
    let (wire, layer) = encode(&mixed_input(16 * MIB, 0x99), &sealer);

    let entries = layer.recipe_entries();
    assert_eq!(entries.len(), layer.toc.chunks.len() + 1);
    let mut cursor = 0u64;
    for entry in &entries {
        assert_eq!(entry.frame_offset, cursor);
        assert!(!entry.compressed);
        let frame = &wire[at(cursor)..at(cursor + entry.frame_length)];
        assert_eq!(entry.frame_cid, hex(&frame_cid(frame)));
        cursor += entry.frame_length;
    }
    assert_eq!(cursor, wire.len() as u64);
    let toc_entry = entries.last().expect("toc entry");
    assert_eq!(toc_entry.raw_length, 0, "the TOC frame carries no payload");
    assert_eq!(toc_entry.frame_offset, layer.toc_offset);
    assert_eq!(
        entries.iter().map(|entry| entry.raw_length).sum::<u64>(),
        layer.total_length
    );
}

#[test]
fn the_decoder_rejects_a_swapped_frame() {
    let sealer = sealer(1);
    let (wire, layer) = encode(&mixed_input(20 * MIB, 0x77), &sealer);
    assert!(layer.toc.chunks.len() >= 2);

    // Rebuild the stream with the first two frames exchanged.
    let first = &layer.toc.chunks[0];
    let second = &layer.toc.chunks[1];
    let mut swapped = Vec::with_capacity(wire.len());
    swapped.extend_from_slice(
        &wire[at(second.frame_offset)..at(second.frame_offset + second.frame_length)],
    );
    swapped.extend_from_slice(&wire[..at(first.frame_length)]);
    swapped.extend_from_slice(&wire[at(second.frame_offset + second.frame_length)..]);

    assert!(matches!(
        decode(&swapped, &layer, &sealer),
        Err(StreamError::CidMismatch { index: 0 })
    ));
}

#[test]
fn the_decoder_rejects_a_tampered_frame() {
    let sealer = sealer(1);
    let (mut wire, layer) = encode(&mixed_input(12 * MIB, 0x21), &sealer);
    let target = at(layer.toc.chunks[0].frame_offset) + 32;
    wire[target] ^= 0x01;
    assert!(matches!(
        decode(&wire, &layer, &sealer),
        Err(StreamError::CidMismatch { index: 0 })
    ));
}

#[test]
fn the_decoder_rejects_a_truncated_stream() {
    let sealer = sealer(1);
    let (wire, layer) = encode(&mixed_input(12 * MIB, 0x22), &sealer);
    let last = layer.toc.chunks.last().expect("a chunk");
    let cut = at(last.frame_offset + last.frame_length / 2);
    let index = layer.toc.chunks.len() - 1;
    assert!(matches!(
        decode(&wire[..cut], &layer, &sealer),
        Err(StreamError::TruncatedFrame { index: got }) if got == index
    ));
}

#[test]
fn the_decoder_rejects_a_toc_that_lies_about_a_cid() {
    let sealer = sealer(1);
    let (wire, mut layer) = encode(&mixed_input(12 * MIB, 0x23), &sealer);
    layer.toc.chunks[0].frame_cid = [0u8; 32];
    assert!(matches!(
        decode(&wire, &layer, &sealer),
        Err(StreamError::CidMismatch { index: 0 })
    ));
}

#[test]
fn the_decoder_rejects_a_toc_that_lies_about_the_tiling() {
    let sealer = sealer(1);
    let (wire, mut layer) = encode(&mixed_input(12 * MIB, 0x24), &sealer);
    layer.toc.chunks[0].frame_offset += 1;
    assert!(matches!(
        decode(&wire, &layer, &sealer),
        Err(StreamError::BadTiling { index: 0 })
    ));
}

#[test]
fn the_decoder_rejects_a_toc_that_lies_about_a_raw_length() {
    let sealer = sealer(1);
    let (wire, mut layer) = encode(&mixed_input(12 * MIB, 0x25), &sealer);
    layer.toc.chunks[0].raw_length -= 1;
    assert!(matches!(
        decode(&wire, &layer, &sealer),
        Err(StreamError::SealedSizeMismatch { index: 0, .. })
    ));
}

/// A ring decodes what any of its keys sealed, and a decoding keeps to the key that opened.
#[test]
fn a_ring_decodes_what_one_of_its_keys_sealed() {
    let input = mixed_input(3 * MIB, 0x31);
    let (wire, _) = encode(&input, &sealer(2));
    let ring = |seeds: &[u8]| {
        KeyRing::new(
            seeds.iter().map(|seed| (format!("k{seed}"), Arc::new(sealer(*seed)))).collect(),
        )
    };
    for seeds in [&[2u8][..], &[1, 2], &[1, 3, 2], &[2, 1]] {
        let mut out = Vec::new();
        let written = decode_sealed_sequential(&wire, &ring(seeds), &mut out);
        assert_eq!(written.ok(), Some(input.len() as u64));
        assert_eq!(out, input);
    }
    let mut out = Vec::new();
    assert!(matches!(
        decode_sealed_sequential(&wire, &ring(&[1, 3]), &mut out),
        Err(StreamError::Seal(SealError::Unauthentic))
    ));
    assert!(out.is_empty());
}

/// A content over its declared length is reported with as many bytes as had been read of it.
#[test]
fn an_overlong_content_is_reported_as_far_as_it_was_read() {
    let content: Vec<u8> = (0..500_000u32).map(|n| (n % 251) as u8).collect();
    let frame = encode_raw_frame(&content);
    for declared in [100u32, 131_071, 131_072, 300_000, 499_999] {
        let mut read = 0u64;
        let mut decoder = zstd::stream::read::Decoder::new(frame.as_slice()).expect("decoder");
        let mut buffer = vec![0u8; 128 * 1024];
        while read <= u64::from(declared) {
            read += std::io::Read::read(&mut decoder, &mut buffer).expect("read") as u64;
        }
        let entry = ChunkEntry {
            frame_cid: frame_cid(&frame),
            frame_offset: 0,
            frame_length: frame.len() as u64,
            raw_length: declared,
            compressed: false,
        };
        let Err(StreamError::SealedSizeMismatch { index: 4, expected, actual }) =
            decode_frame(&entry, &frame, &sealer(1), 4)
        else {
            panic!("a content of {} bytes, {declared} declared", content.len())
        };
        assert_eq!((expected, actual), (u64::from(declared), read));
    }
    assert!(matches!(inflate(&frame, 500_000), Inflated::Whole(whole) if whole == content));
    assert!(matches!(inflate(&frame[..frame.len() - 1], 500_000), Inflated::Failed(_)));
}

#[test]
fn the_decoder_rejects_an_oversized_frame_declaration() {
    let sealer = sealer(1);
    let (wire, mut layer) = encode(&mixed_input(12 * MIB, 0x26), &sealer);
    layer.toc.chunks[0].frame_length = MAX_SEALED_FRAME + 1;
    assert!(matches!(
        decode(&wire, &layer, &sealer),
        Err(StreamError::FrameTooLarge { index: 0, .. })
    ));
}

#[test]
fn the_decoder_rejects_the_wrong_key() {
    let (wire, layer) = encode(&mixed_input(12 * MIB, 0x27), &sealer(1));
    assert!(matches!(
        decode(&wire, &layer, &sealer(2)),
        Err(StreamError::Seal(SealError::Unauthentic))
    ));
}

#[test]
fn the_decoder_rejects_an_unsupported_toc_version() {
    let sealer = sealer(1);
    let (wire, mut layer) = encode(b"", &sealer);
    layer.toc.format_version = FORMAT_VERSION + 1;
    assert!(matches!(
        decode(&wire, &layer, &sealer),
        Err(StreamError::Chunked(ChunkedError::UnsupportedVersion(_)))
    ));
}

/// What was opened before a frame is refused stays written.
#[test]
fn a_refused_frame_keeps_the_plaintext_before_it() {
    let sealer = golden_sealer();
    let mut body = Vec::new();
    for index in 0..1_000_000u32 {
        body.extend_from_slice(&index.to_le_bytes());
        body.extend_from_slice(b"aaaaaaaaaaaaaaaa");
    }
    let (mut wire, layer) = encode(&body, &sealer);
    assert!(layer.toc.chunks.len() > 2);
    let second = usize::try_from(layer.toc.chunks[1].frame_offset).expect("fits");
    let mut first = Vec::new();
    let whole_first = decode_sealed_stream(
        &wire,
        &Toc {
            format_version: layer.toc.format_version,
            chunker: layer.toc.chunker,
            chunks: layer.toc.chunks[..1].to_vec(),
        },
        &sealer,
        &mut first,
    );
    assert_eq!(whole_first.ok(), Some(first.len() as u64));
    assert!(!first.is_empty() && body.starts_with(&first));
    wire[second + 20] ^= 1;
    let mut out = b"before".to_vec();
    assert!(matches!(
        decode_sealed_stream(&wire, &layer.toc, &sealer, &mut out),
        Err(StreamError::CidMismatch { index: 1 })
    ));
    assert!(out[..6] == b"before"[..] && out[6..] == first[..]);
    let mut out = Vec::new();
    assert!(matches!(
        decode_sealed_sequential(&wire, &sealer, &mut out),
        Err(StreamError::Seal(SealError::Unauthentic))
    ));
    assert!(out == first);
}

/// A stream without its table of contents lacks it, and anything behind it is counted; all of the
/// plaintext has come out either way.
#[test]
fn a_stream_ends_with_its_table_and_nothing_else() {
    let sealer = golden_sealer();
    let body = b"some bytes of an app";
    let (mut wire, layer) = encode(body, &sealer);
    let cut = usize::try_from(layer.toc_offset).expect("fits");
    let mut out = Vec::new();
    assert!(matches!(
        decode_sealed_sequential(&wire[..cut], &sealer, &mut out),
        Err(StreamError::MissingToc)
    ));
    assert_eq!(out, body);
    wire.extend_from_slice(b"abc");
    let mut out = Vec::new();
    assert!(matches!(
        decode_sealed_sequential(&wire, &sealer, &mut out),
        Err(StreamError::TrailingBytes(3))
    ));
    assert_eq!(out, body);
}

/// Read a byte at a time, a stream gives the same.
#[test]
fn a_stream_is_decoded_as_it_arrives() {
    let sealer = golden_sealer();
    let body = b"some bytes of an app";
    let (wire, _) = encode(body, &sealer);
    let mut decoder = SequentialDecoder::new();
    let mut held = Vec::new();
    let mut out = Vec::new();
    let mut rest = wire.iter();
    loop {
        match decoder.step(&sealer, &held, false) {
            DecodeStep::More => held.push(*rest.next().expect("more")),
            DecodeStep::Chunk(chunk, len) => {
                out.extend_from_slice(&chunk);
                held.drain(..len);
            }
            DecodeStep::Toc(sealed, len) => {
                assert_eq!(len, held.len());
                assert!(decoder.finish(&sealer, &sealed, 0).is_ok());
                break;
            }
            DecodeStep::Refuse(err) => panic!("{}", err.message()),
        }
    }
    assert!(rest.next().is_none());
    assert_eq!(out, body);
    assert!(matches!(
        SequentialDecoder::new().step(&sealer, &wire[..3], true),
        DecodeStep::Refuse(StreamError::MissingToc)
    ));
}

/// What the compressor gave is sealed where it is shorter by enough, else the chunk is.
#[test]
fn a_chunk_is_sealed_in_its_shorter_form() {
    let sealer = golden_sealer();
    let chunk = vec![7u8; 100_000];
    let kept = seal_chunk(&sealer, &chunk, b"short").ok().expect("sealed");
    assert_eq!(
        sealer.open(SealContext::Frame, &kept).ok(),
        Some((b"short".to_vec(), true))
    );
    let left = seal_chunk(&sealer, &chunk, &chunk).ok().expect("sealed");
    assert_eq!(sealer.open(SealContext::Frame, &left).ok(), Some((chunk, false)));
}

/// Every frame that a recipe lists is named by the hash of its bytes.
#[test]
fn a_recipe_names_the_bytes_of_its_frames() {
    let body: Vec<u8> = (0..500_000u32).flat_map(u32::to_le_bytes).collect();
    let (wire, layer) = encode(&body, &golden_sealer());
    let mut payloads = 0;
    for entry in layer.recipe_entries() {
        let from = usize::try_from(entry.frame_offset).expect("offset");
        let len = usize::try_from(entry.frame_length).expect("length");
        assert_eq!(entry.frame_cid, hex(&frame_cid(&wire[from..from + len])));
        assert!(!entry.compressed);
        payloads += entry.raw_length;
    }
    assert_eq!(payloads, layer.total_length);
}
