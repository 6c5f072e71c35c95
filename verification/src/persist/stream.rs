//! The sealed chunked stream: what a layer of app data is on the wire.
//!
//! ```text
//! plaintext -- FastCDC --> chunk -- zstd? --> payload -- seal --> sealed -- raw frame --> frame
//! ```
//!
//! Boundaries are cut over the plaintext, so an edit shifts chunks only locally and
//! deduplication survives encryption. The trailing table of contents is sealed too.
//!
//! There are two decoders. [`decode_sealed_stream`] has the table of contents and checks every
//! frame's content id before it touches the frame. [`decode_sealed_sequential`] has only bytes
//! as they arrive: it parses the pinned frame layout, leans on the authentication of the seal,
//! and checks the trailing table of contents against what it read.

use crate::bytes::{append, from_le32, le32, lemma_le32, part, read_le32};
use crate::chunked::{
    block_count, block_header, encode_raw_frame, encode_skippable_toc_frame, frame_cid,
    keeps_compressed, lemma_raw_blocks_len, raw_blocks, raw_frame, skippable_frame, worth_keeping,
    ChunkEntry, ChunkedError, ChunkerParams, Toc, DEFAULT_ZSTD_LEVEL, FASTCDC_AVG, FASTCDC_MIN,
    FORMAT_VERSION, MAX_BLOCK, MAX_CHUNK_RAW, MAX_TOC_BYTES, SKIPPABLE_MAGIC, ZSTD_FRAME_MAGIC,
};
use crate::inflate::{inflate, inflated, is_raw_within, Inflated, InflatedView};
use crate::outside::{
    blake3_hash, fastcdc_chunks, fastcdc_lengths, sha256, sha256_digest, sha256_fed, sha256_finish,
    sha256_start, sha256_update, sum, zstd_compress, zstd_compressed, zstd_decompress,
    zstd_decompressed, Sha256Stream,
};
use crate::persist::seal::{
    answer_view, opened_bytes, seal_flags, seal_message, sealed_bytes, Opener, SealContext,
    SealError, Sealer, Subkeys, SEAL_OVERHEAD, SEAL_VERSION,
};
use crate::text::{cat2, cat3, cat4, cat5, decimal, decimal_of, hex, hex_of, owned};
use vstd::prelude::*;

verus! {

/// Version of the sealed stream that this codec writes and the only one it reads: the version
/// of the seal envelope.
pub const SEALED_STREAM_VERSION: u8 = SEAL_VERSION;

/// The greatest plaintext chunk of a sealed stream. It leaves a sealed chunk room under the
/// content limit of a frame.
pub const SEALED_FASTCDC_MAX: u32 = 0x00bf_f000;

/// The greatest length of one frame: a sealed payload and the headers of its raw blocks.
pub const MAX_SEALED_FRAME: u64 = 0x00c0_1000;

/// No address space of a 64-bit machine holds a longer byte string.
pub const ADDRESSABLE: u64 = 0x0100_0000_0000_0000;

/// Errors from encoding or decoding a sealed stream.
#[allow(inconsistent_fields)]
#[derive(Debug)]
pub enum StreamError {
    /// The plaintext could not be read.
    Source(String),
    /// The stream could not be read or written.
    Io(String),
    Seal(SealError),
    Chunked(ChunkedError),
    Compress { index: usize, source: String },
    SealedChunkTooLarge { index: usize, len: usize },
    FrameTooLarge { index: usize, len: u64 },
    BadTiling { index: usize },
    TruncatedFrame { index: usize },
    CidMismatch { index: usize },
    SealedSizeMismatch { index: usize, expected: u64, actual: u64 },
    Unwrap { index: usize, source: String },
    Decompress { index: usize, source: String },
    BadFrameMagic { index: usize },
    BadFrameLayout { index: usize },
    MissingToc,
    TrailingBytes(u64),
    TocFrameCount { frames: usize, declared: usize },
    TocLengthMismatch { index: usize, expected: u64, actual: u64 },
}

/// An error without the words of what caused it.
pub enum StreamFault {
    Source,
    Io,
    Seal(SealError),
    Chunked(ChunkedError),
    Compress { index: int },
    SealedChunkTooLarge { index: int, len: int },
    FrameTooLarge { index: int, len: int },
    BadTiling { index: int },
    TruncatedFrame { index: int },
    CidMismatch { index: int },
    SealedSizeMismatch { index: int, expected: int, actual: int },
    Unwrap { index: int },
    Decompress { index: int },
    BadFrameMagic { index: int },
    BadFrameLayout { index: int },
    MissingToc,
    TrailingBytes(int),
    TocFrameCount { frames: int, declared: int },
    TocLengthMismatch { index: int, expected: int, actual: int },
}

/// The message of a chunked-format error.
pub open spec fn chunked_message(e: ChunkedError) -> Seq<char> {
    match e {
        ChunkedError::UnsupportedVersion(v) => "table of contents version "@ + decimal(v as nat)
            + " is unsupported (expected 1)"@,
        ChunkedError::RawLengthTooLarge(n) => "frame declares "@ + decimal(n as nat)
            + " bytes of content, over the 12582912-byte limit"@,
        ChunkedError::TocTooLarge(n) => "table of contents of "@ + decimal(n as nat)
            + " bytes is over the 16777216-byte limit"@,
        ChunkedError::BadToc => "the bytes are not a table of contents"@,
        ChunkedError::BadTiling(i) => "table of contents entry "@ + decimal(i as nat)
            + " does not begin where the entries before it end"@,
    }
}

/// The message of a stream error.
pub open spec fn stream_message(e: StreamError) -> Seq<char> {
    match e {
        StreamError::Source(source) => "read the plaintext stream: "@ + source@,
        StreamError::Io(source) => "sealed stream I/O: "@ + source@,
        StreamError::Seal(s) => seal_message(s),
        StreamError::Chunked(c) => chunked_message(c),
        StreamError::Compress { index, source } => "compress chunk "@ + decimal(index as nat)
            + ": "@ + source@,
        StreamError::SealedChunkTooLarge { index, len } => "sealed chunk "@ + decimal(index as nat)
            + " is "@ + decimal(len as nat) + " bytes, over the 12582912-byte frame limit"@,
        StreamError::FrameTooLarge { index, len } => "frame "@ + decimal(index as nat)
            + " declares "@ + decimal(len as nat) + " bytes, over the 12587008-byte frame limit"@,
        StreamError::BadTiling { index } => "frame "@ + decimal(index as nat)
            + " does not start where the preceding frames end"@,
        StreamError::TruncatedFrame { index } => "frame "@ + decimal(index as nat)
            + " is truncated: the stream ended mid-frame"@,
        StreamError::CidMismatch { index } => "frame "@ + decimal(index as nat)
            + " content id does not match the TOC"@,
        StreamError::SealedSizeMismatch { index, expected, actual } => "frame "@ + decimal(
            index as nat,
        ) + " unwraps to "@ + decimal(actual as nat) + (" bytes, the TOC declares "@ + decimal(
            expected as nat,
        )),
        StreamError::Unwrap { index, source } => "frame "@ + decimal(index as nat)
            + ": unwrap the zstd frame: "@ + source@,
        StreamError::Decompress { index, source } => "frame "@ + decimal(index as nat)
            + ": decompress the sealed payload: "@ + source@,
        StreamError::BadFrameMagic { index } => "frame "@ + decimal(index as nat)
            + " does not start with a zstd frame magic"@,
        StreamError::BadFrameLayout { index } => "frame "@ + decimal(index as nat)
            + " is not the pinned raw-block frame this codec writes"@,
        StreamError::MissingToc => "the sealed stream ends without its table-of-contents frame"@,
        StreamError::TrailingBytes(n) => "the sealed stream carries "@ + decimal(n as nat)
            + " bytes after its table-of-contents frame"@,
        StreamError::TocFrameCount { frames, declared } => "the sealed stream carries "@ + decimal(
            frames as nat,
        ) + " frames, its table of contents declares "@ + decimal(declared as nat),
        StreamError::TocLengthMismatch { index, expected, actual } => "frame "@ + decimal(
            index as nat,
        ) + " carries "@ + decimal(actual as nat) + (
        " sealed bytes, the table of contents declares "@ + decimal(expected as nat)),
    }
}

fn text_of(n: usize) -> (r: String)
    ensures
        r@ == decimal(n as nat),
{
    decimal_of(n as u64)
}

/// The message of a chunked-format error.
pub fn chunked_error_message(e: &ChunkedError) -> (r: String)
    ensures
        r@ == chunked_message(*e),
{
    match e {
        ChunkedError::UnsupportedVersion(v) => cat3(
            "table of contents version ",
            decimal_of(*v as u64).as_str(),
            " is unsupported (expected 1)",
        ),
        ChunkedError::RawLengthTooLarge(n) => cat3(
            "frame declares ",
            decimal_of(*n as u64).as_str(),
            " bytes of content, over the 12582912-byte limit",
        ),
        ChunkedError::TocTooLarge(n) => cat3(
            "table of contents of ",
            text_of(*n).as_str(),
            " bytes is over the 16777216-byte limit",
        ),
        ChunkedError::BadToc => owned("the bytes are not a table of contents"),
        ChunkedError::BadTiling(i) => cat3(
            "table of contents entry ",
            text_of(*i).as_str(),
            " does not begin where the entries before it end",
        ),
    }
}

impl StreamError {
    /// The message of the error.
    pub fn message(&self) -> (r: String)
        ensures
            r@ == stream_message(*self),
    {
        match self {
            StreamError::Source(source) => cat2("read the plaintext stream: ", source.as_str()),
            StreamError::Io(source) => cat2("sealed stream I/O: ", source.as_str()),
            StreamError::Seal(s) => s.message(),
            StreamError::Chunked(c) => chunked_error_message(c),
            StreamError::Compress { index, source } => cat4(
                "compress chunk ",
                text_of(*index).as_str(),
                ": ",
                source.as_str(),
            ),
            StreamError::SealedChunkTooLarge { index, len } => cat5(
                "sealed chunk ",
                text_of(*index).as_str(),
                " is ",
                text_of(*len).as_str(),
                " bytes, over the 12582912-byte frame limit",
            ),
            StreamError::FrameTooLarge { index, len } => cat5(
                "frame ",
                text_of(*index).as_str(),
                " declares ",
                decimal_of(*len).as_str(),
                " bytes, over the 12587008-byte frame limit",
            ),
            StreamError::BadTiling { index } => cat3(
                "frame ",
                text_of(*index).as_str(),
                " does not start where the preceding frames end",
            ),
            StreamError::TruncatedFrame { index } => cat3(
                "frame ",
                text_of(*index).as_str(),
                " is truncated: the stream ended mid-frame",
            ),
            StreamError::CidMismatch { index } => cat3(
                "frame ",
                text_of(*index).as_str(),
                " content id does not match the TOC",
            ),
            StreamError::SealedSizeMismatch { index, expected, actual } => cat5(
                "frame ",
                text_of(*index).as_str(),
                " unwraps to ",
                decimal_of(*actual).as_str(),
                cat2(" bytes, the TOC declares ", decimal_of(*expected).as_str()).as_str(),
            ),
            StreamError::Unwrap { index, source } => cat4(
                "frame ",
                text_of(*index).as_str(),
                ": unwrap the zstd frame: ",
                source.as_str(),
            ),
            StreamError::Decompress { index, source } => cat4(
                "frame ",
                text_of(*index).as_str(),
                ": decompress the sealed payload: ",
                source.as_str(),
            ),
            StreamError::BadFrameMagic { index } => cat3(
                "frame ",
                text_of(*index).as_str(),
                " does not start with a zstd frame magic",
            ),
            StreamError::BadFrameLayout { index } => cat3(
                "frame ",
                text_of(*index).as_str(),
                " is not the pinned raw-block frame this codec writes",
            ),
            StreamError::MissingToc => owned(
                "the sealed stream ends without its table-of-contents frame",
            ),
            StreamError::TrailingBytes(n) => cat3(
                "the sealed stream carries ",
                decimal_of(*n).as_str(),
                " bytes after its table-of-contents frame",
            ),
            StreamError::TocFrameCount { frames, declared } => cat4(
                "the sealed stream carries ",
                text_of(*frames).as_str(),
                " frames, its table of contents declares ",
                text_of(*declared).as_str(),
            ),
            StreamError::TocLengthMismatch { index, expected, actual } => cat5(
                "frame ",
                text_of(*index).as_str(),
                " carries ",
                decimal_of(*actual).as_str(),
                cat2(
                    " sealed bytes, the table of contents declares ",
                    decimal_of(*expected).as_str(),
                ).as_str(),
            ),
        }
    }
}

/// What an error is, without the words of what caused it.
pub open spec fn fault_of(e: StreamError) -> StreamFault {
    match e {
        StreamError::Source(_) => StreamFault::Source,
        StreamError::Io(_) => StreamFault::Io,
        StreamError::Seal(s) => StreamFault::Seal(s),
        StreamError::Chunked(c) => StreamFault::Chunked(c),
        StreamError::Compress { index, .. } => StreamFault::Compress { index: index as int },
        StreamError::SealedChunkTooLarge { index, len } => StreamFault::SealedChunkTooLarge {
            index: index as int,
            len: len as int,
        },
        StreamError::FrameTooLarge { index, len } => StreamFault::FrameTooLarge {
            index: index as int,
            len: len as int,
        },
        StreamError::BadTiling { index } => StreamFault::BadTiling { index: index as int },
        StreamError::TruncatedFrame { index } => StreamFault::TruncatedFrame {
            index: index as int,
        },
        StreamError::CidMismatch { index } => StreamFault::CidMismatch { index: index as int },
        StreamError::SealedSizeMismatch { index, expected, actual } =>
            StreamFault::SealedSizeMismatch {
            index: index as int,
            expected: expected as int,
            actual: actual as int,
        },
        StreamError::Unwrap { index, .. } => StreamFault::Unwrap { index: index as int },
        StreamError::Decompress { index, .. } => StreamFault::Decompress { index: index as int },
        StreamError::BadFrameMagic { index } => StreamFault::BadFrameMagic { index: index as int },
        StreamError::BadFrameLayout { index } => StreamFault::BadFrameLayout {
            index: index as int,
        },
        StreamError::MissingToc => StreamFault::MissingToc,
        StreamError::TrailingBytes(n) => StreamFault::TrailingBytes(n as int),
        StreamError::TocFrameCount { frames, declared } => StreamFault::TocFrameCount {
            frames: frames as int,
            declared: declared as int,
        },
        StreamError::TocLengthMismatch { index, expected, actual } =>
            StreamFault::TocLengthMismatch {
            index: index as int,
            expected: expected as int,
            actual: actual as int,
        },
    }
}

/// An outcome by the view of its bytes and by what its error is.
pub open spec fn outcome(r: Result<Vec<u8>, StreamError>) -> Result<Seq<u8>, StreamFault> {
    match r {
        Ok(bytes) => Ok(bytes@),
        Err(e) => Err(fault_of(e)),
    }
}

// ---------------------------------------------------------------------------
// Frames off the wire
// ---------------------------------------------------------------------------

/// What reading a run of raw blocks comes to.
pub enum BlocksRead {
    /// The bytes end before the blocks do.
    Short,
    /// The blocks are not ones that this codec writes.
    Bad,
    /// The content of the blocks, and where they end.
    Blocks(Seq<u8>, int),
}

/// Reads raw blocks from index `at` on, `got` being the content read so far, until the one that
/// carries the last-block flag.
pub open spec fn read_blocks(s: Seq<u8>, at: int, declared: int, got: Seq<u8>) -> BlocksRead
    decreases s.len() - at,
{
    if s.len() < at + 3 {
        BlocksRead::Short
    } else {
        let header = s[at] + s[at + 1] * 256 + s[at + 2] * 65536;
        let size = header / 8;
        if header / 2 % 4 != 0 || size > MAX_BLOCK || got.len() + size > declared {
            BlocksRead::Bad
        } else if s.len() < at + 3 + size {
            BlocksRead::Short
        } else {
            let all = got + s.subrange(at + 3, at + 3 + size);
            if header % 2 == 1 {
                BlocksRead::Blocks(all, at + 3 + size)
            } else {
                read_blocks(s, at + 3 + size, declared, all)
            }
        }
    }
}

/// What the bytes at the head of a stream come to.
pub enum Step {
    /// More bytes are needed to tell.
    Need,
    /// A payload frame: what it carries, and its length.
    Frame(Seq<u8>, int),
    /// The frame of the table of contents: what it carries, and its length.
    Toc(Seq<u8>, int),
    /// The bytes are refused.
    Refuse(StreamFault),
}

/// What a payload frame at the head of a stream comes to.
pub open spec fn frame_step(s: Seq<u8>, index: int) -> Step {
    if s.len() < 9 {
        Step::Need
    } else if s[4] != 0xA0 {
        Step::Refuse(StreamFault::BadFrameLayout { index })
    } else {
        let declared = from_le32(s.subrange(5, 9));
        if declared > MAX_CHUNK_RAW {
            Step::Refuse(StreamFault::Chunked(ChunkedError::RawLengthTooLarge(declared)))
        } else {
            match read_blocks(s, 9, declared as int, Seq::empty()) {
                BlocksRead::Short => Step::Need,
                BlocksRead::Bad => Step::Refuse(StreamFault::BadFrameLayout { index }),
                BlocksRead::Blocks(content, end) => if content.len() != declared {
                    Step::Refuse(StreamFault::BadFrameLayout { index })
                } else if content.len() < SEAL_OVERHEAD {
                    Step::Refuse(StreamFault::Seal(SealError::Truncated))
                } else {
                    Step::Frame(content, end)
                },
            }
        }
    }
}

/// What the frame of a table of contents at the head of a stream comes to.
pub open spec fn toc_step(s: Seq<u8>) -> Step {
    if s.len() < 8 {
        Step::Need
    } else {
        let length = from_le32(s.subrange(4, 8));
        if length > MAX_TOC_BYTES + SEAL_OVERHEAD {
            Step::Refuse(StreamFault::Chunked(ChunkedError::TocTooLarge(length as usize)))
        } else if s.len() < 8 + length {
            Step::Need
        } else {
            Step::Toc(s.subrange(8, 8 + length), 8 + length)
        }
    }
}

/// What the head of a stream comes to, `index` frames having been read before it.
pub open spec fn step_of(s: Seq<u8>, index: int) -> Step {
    if s.len() < 4 {
        Step::Need
    } else {
        let magic = from_le32(s.subrange(0, 4));
        if magic == SKIPPABLE_MAGIC {
            toc_step(s)
        } else if magic != ZSTD_FRAME_MAGIC {
            Step::Refuse(StreamFault::BadFrameMagic { index })
        } else {
            frame_step(s, index)
        }
    }
}

/// What a stream that ends where more bytes are needed is refused with.
pub open spec fn short_fault(s: Seq<u8>, index: int) -> StreamFault {
    if s.len() < 4 {
        StreamFault::MissingToc
    } else if from_le32(s.subrange(0, 4)) == SKIPPABLE_MAGIC {
        StreamFault::TruncatedFrame { index: usize::MAX as int }
    } else {
        StreamFault::TruncatedFrame { index }
    }
}

/// What the bytes at the head of a stream come to.
pub enum StreamStep {
    /// More bytes are needed to tell.
    Need,
    /// A payload frame: what it carries, and its length.
    Frame(Vec<u8>, usize),
    /// The frame of the table of contents: what it carries, and its length.
    Toc(Vec<u8>, usize),
    /// The bytes are refused.
    Refuse(StreamError),
}

impl View for StreamStep {
    type V = Step;

    open spec fn view(&self) -> Step {
        match *self {
            StreamStep::Need => Step::Need,
            StreamStep::Frame(content, len) => Step::Frame(content@, len as int),
            StreamStep::Toc(content, len) => Step::Toc(content@, len as int),
            StreamStep::Refuse(e) => Step::Refuse(fault_of(e)),
        }
    }
}

/// Reads the body of one pinned frame: everything after its magic number.
fn read_raw_frame_body(s: &[u8], index: usize) -> (r: StreamStep)
    requires
        s@.len() >= 4,
    ensures
        r@ == frame_step(s@, index as int),
        r matches StreamStep::Frame(_, len) ==> len <= s@.len(),
{
    if s.len() < 9 {
        return StreamStep::Need;
    }
    if s[4] != 0xA0 {
        return StreamStep::Refuse(StreamError::BadFrameLayout { index });
    }
    let declared: u32 = read_le32(s, 5);
    if declared as usize > MAX_CHUNK_RAW {
        return StreamStep::Refuse(StreamError::Chunked(ChunkedError::RawLengthTooLarge(declared)));
    }
    let mut out: Vec<u8> = Vec::new();
    let mut at: usize = 9;
    let mut last = false;
    assert(out@ =~= Seq::<u8>::empty());
    while !last
        invariant
            9 <= at <= s@.len() == s.len(),
            out@.len() <= declared <= MAX_CHUNK_RAW,
            s@[4] == 0xA0,
            declared == from_le32(s@.subrange(5, 9)),
            !last ==> read_blocks(s@, 9, declared as int, Seq::empty()) == read_blocks(
                s@,
                at as int,
                declared as int,
                out@,
            ),
            last ==> read_blocks(s@, 9, declared as int, Seq::empty()) == BlocksRead::Blocks(
                out@,
                at as int,
            ),
        decreases s@.len() - at,
    {
        if s.len() - at < 3 {
            return StreamStep::Need;
        }
        let header: u32 = (s[at] as u32) + (s[at + 1] as u32) * 256 + (s[at + 2] as u32) * 65536;
        let size: usize = (header / 8) as usize;
        if header / 2 % 4 != 0 || size > MAX_BLOCK || out.len() + size > declared as usize {
            return StreamStep::Refuse(StreamError::BadFrameLayout { index });
        }
        if s.len() - at - 3 < size {
            return StreamStep::Need;
        }
        append(&mut out, vstd::slice::slice_subrange(s, at + 3, at + 3 + size));
        last = header % 2 == 1;
        at = at + 3 + size;
    }
    if out.len() != declared as usize {
        return StreamStep::Refuse(StreamError::BadFrameLayout { index });
    }
    if out.len() < SEAL_OVERHEAD {
        return StreamStep::Refuse(StreamError::Seal(SealError::Truncated));
    }
    StreamStep::Frame(out, at)
}

/// Reads the frame of the table of contents.
fn read_toc_frame(s: &[u8]) -> (r: StreamStep)
    requires
        s@.len() >= 4,
    ensures
        r@ == toc_step(s@),
        r matches StreamStep::Toc(_, len) ==> len <= s@.len(),
{
    if s.len() < 8 {
        return StreamStep::Need;
    }
    let length: usize = read_le32(s, 4) as usize;
    if length > MAX_TOC_BYTES + SEAL_OVERHEAD {
        return StreamStep::Refuse(StreamError::Chunked(ChunkedError::TocTooLarge(length)));
    }
    if s.len() - 8 < length {
        return StreamStep::Need;
    }
    StreamStep::Toc(part(s, 8, 8 + length), 8 + length)
}

/// What the bytes at the head of a stream come to, `index` frames having been read before them.
/// A caller that reads off a network asks again with more bytes for as long as more are needed.
pub fn next_step(s: &[u8], index: usize) -> (r: StreamStep)
    ensures
        r@ == step_of(s@, index as int),
        r matches StreamStep::Frame(_, len) ==> 4 < len <= s@.len(),
        r matches StreamStep::Toc(_, len) ==> 4 < len <= s@.len(),
{
    if s.len() < 4 {
        return StreamStep::Need;
    }
    let magic: u32 = read_le32(s, 0);
    if magic == SKIPPABLE_MAGIC {
        read_toc_frame(s)
    } else if magic != ZSTD_FRAME_MAGIC {
        StreamStep::Refuse(StreamError::BadFrameMagic { index })
    } else {
        proof {
            lemma_read_blocks_end(s@, 9, from_le32(s@.subrange(5, 9)) as int, Seq::empty());
        }
        read_raw_frame_body(s, index)
    }
}

/// What a stream that ends where more bytes are needed is refused with.
pub fn short_stream(s: &[u8], index: usize) -> (r: StreamError)
    ensures
        fault_of(r) == short_fault(s@, index as int),
{
    if s.len() < 4 {
        return StreamError::MissingToc;
    }
    if read_le32(s, 0) == SKIPPABLE_MAGIC {
        StreamError::TruncatedFrame { index: usize::MAX }
    } else {
        StreamError::TruncatedFrame { index }
    }
}

proof fn lemma_read_blocks_end(s: Seq<u8>, at: int, declared: int, got: Seq<u8>)
    requires
        0 <= at,
    ensures
        read_blocks(s, at, declared, got) matches BlocksRead::Blocks(_, end) ==> at < end
            <= s.len(),
    decreases s.len() - at,
{
    if s.len() >= at + 3 {
        let header = s[at] + s[at + 1] * 256 + s[at + 2] * 65536;
        let size = header / 8;
        if s.len() >= at + 3 + size {
            lemma_read_blocks_end(
                s,
                at + 3 + size,
                declared,
                got + s.subrange(at + 3, at + 3 + size),
            );
        }
    }
}

// ---------------------------------------------------------------------------
// Opening chunks, checking the table of contents
// ---------------------------------------------------------------------------

/// The plaintext of a chunk, from what opening its frame answered.
pub open spec fn chunk_of(answer: Result<(Seq<u8>, bool), SealError>, index: int) -> Result<
    Seq<u8>,
    StreamFault,
> {
    match answer {
        Err(e) => Err(StreamFault::Seal(e)),
        Ok((payload, false)) => Ok(payload),
        Ok((payload, true)) => match zstd_decompressed(payload, MAX_CHUNK_RAW as nat) {
            None => Err(StreamFault::Decompress { index }),
            Some(chunk) => Ok(chunk),
        },
    }
}

/// The plaintext of a chunk, from what opening its frame answered.
fn finish_chunk(answer: Result<(Vec<u8>, bool), SealError>, index: usize) -> (r: Result<
    Vec<u8>,
    StreamError,
>)
    ensures
        outcome(r) == chunk_of(answer_view(answer), index as int),
{
    match answer {
        Err(e) => Err(StreamError::Seal(e)),
        Ok((payload, compressed)) => if compressed {
            match zstd_decompress(payload.as_slice(), MAX_CHUNK_RAW) {
                Err(source) => Err(StreamError::Decompress { index, source }),
                Ok(chunk) => Ok(chunk),
            }
        } else {
            Ok(payload)
        },
    }
}

/// Opens the sealed payload of frame number `index` under a hint: the plaintext of its chunk, and
/// the hint for the next one.
pub fn open_frame<O: Opener>(opener: &O, hint: usize, sealed: &[u8], index: usize) -> (r: (
    Result<Vec<u8>, StreamError>,
    usize,
))
    ensures
        outcome(r.0) == chunk_of(opener.answer(hint, SealContext::Frame, sealed@), index as int),
        r.1 == opener.hint_after(hint, SealContext::Frame, sealed@),
{
    let (answer, next) = opener.open_with(hint, SealContext::Frame, sealed);
    (finish_chunk(answer, index), next)
}

/// The table of contents that some bytes encode.
pub open spec fn toc_of(bytes: Seq<u8>) -> Result<Toc, ChunkedError> {
    if bytes.len() > MAX_TOC_BYTES {
        Err(ChunkedError::TocTooLarge(bytes.len() as usize))
    } else if exists|toc: Toc| toc.chunks@.len() <= u32::MAX && #[trigger] toc.bytes() == bytes {
        Ok(choose|toc: Toc| toc.chunks@.len() <= u32::MAX && #[trigger] toc.bytes() == bytes)
    } else {
        Err(ChunkedError::BadToc)
    }
}

/// The first entry from `i` on that declares another length than the frame had, or the count.
pub open spec fn first_mismatch(chunks: Seq<ChunkEntry>, lengths: Seq<u64>, i: int) -> int
    decreases chunks.len() - i,
{
    if i < chunks.len() && chunks[i].raw_length as u64 == lengths[i] {
        first_mismatch(chunks, lengths, i + 1)
    } else {
        i
    }
}

/// Whether a table of contents agrees with the sealed lengths of the frames that were read.
pub open spec fn toc_check(version: u32, chunks: Seq<ChunkEntry>, lengths: Seq<u64>) -> Result<
    (),
    StreamFault,
> {
    if version != FORMAT_VERSION {
        Err(StreamFault::Chunked(ChunkedError::UnsupportedVersion(version)))
    } else if chunks.len() != lengths.len() {
        Err(
            StreamFault::TocFrameCount {
                frames: lengths.len() as int,
                declared: chunks.len() as int,
            },
        )
    } else {
        let i = first_mismatch(chunks, lengths, 0);
        if i < chunks.len() {
            Err(
                StreamFault::TocLengthMismatch {
                    index: i,
                    expected: chunks[i].raw_length as int,
                    actual: lengths[i] as int,
                },
            )
        } else {
            Ok(())
        }
    }
}

/// Cross-checks the frames that were read against what the table of contents declares.
pub fn verify_toc(toc: &Toc, sealed_lengths: &[u64]) -> (r: Result<(), StreamError>)
    ensures
        match r {
            Ok(()) => toc_check(toc.format_version, toc.chunks@, sealed_lengths@) is Ok,
            Err(e) => toc_check(toc.format_version, toc.chunks@, sealed_lengths@) == Err::<
                (),
                StreamFault,
            >(fault_of(e)),
        },
{
    if toc.format_version != FORMAT_VERSION {
        return Err(StreamError::Chunked(ChunkedError::UnsupportedVersion(toc.format_version)));
    }
    if toc.chunks.len() != sealed_lengths.len() {
        return Err(
            StreamError::TocFrameCount {
                frames: sealed_lengths.len(),
                declared: toc.chunks.len(),
            },
        );
    }
    let mut i: usize = 0;
    while i < toc.chunks.len()
        invariant
            i <= toc.chunks@.len() == sealed_lengths@.len(),
            sealed_lengths@.len() == sealed_lengths.len(),
            toc.format_version == FORMAT_VERSION,
            first_mismatch(toc.chunks@, sealed_lengths@, 0) == first_mismatch(
                toc.chunks@,
                sealed_lengths@,
                i as int,
            ),
        decreases toc.chunks@.len() - i,
    {
        let expected: u64 = toc.chunks[i].raw_length as u64;
        let actual: u64 = sealed_lengths[i];
        if expected != actual {
            return Err(StreamError::TocLengthMismatch { index: i, expected, actual });
        }
        i += 1;
    }
    Ok(())
}

/// What the end of a stream comes to: the sealed table of contents opened, decoded and checked
/// against the frames, and nothing behind it.
pub open spec fn end_of(
    answer: Result<(Seq<u8>, bool), SealError>,
    lengths: Seq<u64>,
    trailing: int,
) -> Result<(), StreamFault> {
    match answer {
        Err(e) => Err(StreamFault::Seal(e)),
        Ok((bytes, _)) => match toc_of(bytes) {
            Err(e) => Err(StreamFault::Chunked(e)),
            Ok(toc) => match toc_check(toc.format_version, toc.chunks@, lengths) {
                Err(e) => Err(e),
                Ok(()) => if trailing > 0 {
                    Err(StreamFault::TrailingBytes(trailing))
                } else {
                    Ok(())
                },
            },
        },
    }
}

/// Checks the end of a stream: the sealed table of contents against the frames that were read,
/// and that nothing follows it.
pub fn finish_stream<O: Opener>(
    opener: &O,
    hint: usize,
    sealed_toc: &[u8],
    sealed_lengths: &[u64],
    trailing: u64,
) -> (r: Result<(), StreamError>)
    ensures
        match r {
            Ok(()) => end_of(
                opener.answer(hint, SealContext::Toc, sealed_toc@),
                sealed_lengths@,
                trailing as int,
            ) is Ok,
            Err(e) => end_of(
                opener.answer(hint, SealContext::Toc, sealed_toc@),
                sealed_lengths@,
                trailing as int,
            ) == Err::<(), StreamFault>(fault_of(e)),
        },
{
    let bytes = match opener.open_with(hint, SealContext::Toc, sealed_toc).0 {
        Err(e) => {
            return Err(StreamError::Seal(e));
        },
        Ok((bytes, _)) => bytes,
    };
    let decoded = Toc::decode(bytes.as_slice());
    let toc = match decoded {
        Err(e) => {
            proof {
                if e is BadToc {
                    assert(!(exists|toc: Toc|
                        toc.chunks@.len() <= u32::MAX && #[trigger] toc.bytes() == bytes@));
                }
            }
            return Err(StreamError::Chunked(e));
        },
        Ok(toc) => toc,
    };
    proof {
        assert(toc.chunks@.len() <= u32::MAX && toc.bytes() == bytes@);
        crate::chunked::law_toc_encoding_is_injective(toc, toc_of(bytes@)->Ok_0);
    }
    match verify_toc(&toc, sealed_lengths) {
        Err(e) => {
            return Err(e);
        },
        Ok(()) => {},
    }
    if trailing > 0 {
        return Err(StreamError::TrailingBytes(trailing));
    }
    Ok(())
}

/// What a decoding comes to: the plaintext that came out, and what stopped it, if anything did.
pub struct Decoded {
    pub out: Seq<u8>,
    pub fault: Option<StreamFault>,
}

/// What decoding a stream frame by frame comes to from index `at` on, `lengths` being the sealed
/// lengths of the frames before it, `hint` what they left for the opener, and `out` what came out
/// before. The plaintext of a frame comes out as soon as it is opened, and stays out where a later
/// one is refused.
pub open spec fn sequential<O: Opener>(
    opener: O,
    hint: usize,
    s: Seq<u8>,
    at: int,
    lengths: Seq<u64>,
    out: Seq<u8>,
) -> Decoded
    decreases s.len() - at,
{
    let rest = s.skip(at);
    let index = lengths.len() as int;
    match step_of(rest, index) {
        Step::Need => Decoded { out, fault: Some(short_fault(rest, index)) },
        Step::Refuse(fault) => Decoded { out, fault: Some(fault) },
        Step::Toc(sealed, len) => Decoded {
            out,
            fault: match end_of(
                opener.answer(hint, SealContext::Toc, sealed),
                lengths,
                rest.len() - len,
            ) {
                Err(fault) => Some(fault),
                Ok(()) => None,
            },
        },
        Step::Frame(sealed, len) => match chunk_of(
            opener.answer(hint, SealContext::Frame, sealed),
            index,
        ) {
            Err(fault) => Decoded { out, fault: Some(fault) },
            Ok(chunk) => if len <= 0 || at + len > s.len() {
                Decoded { out, fault: Some(StreamFault::MissingToc) }
            } else {
                sequential(
                    opener,
                    opener.hint_after(hint, SealContext::Frame, sealed),
                    s,
                    at + len,
                    lengths.push(sealed.len() as u64),
                    out + chunk,
                )
            },
        },
    }
}

/// What is to be done with the bytes at hand.
pub enum DecodeStep {
    /// Read more bytes.
    More,
    /// Hand out the plaintext of a frame, and leave out that many bytes.
    Chunk(Vec<u8>, usize),
    /// Count what follows that many bytes, and check the sealed table of contents.
    Toc(Vec<u8>, usize),
    /// Stop.
    Refuse(StreamError),
}

/// The decoding of a sealed stream that is read a piece at a time.
pub struct SequentialDecoder {
    lengths: Vec<u64>,
    /// What the frames so far have left for the opener.
    hint: usize,
}

impl View for SequentialDecoder {
    type V = Seq<u64>;

    /// The sealed lengths of the frames so far.
    closed spec fn view(&self) -> Seq<u64> {
        self.lengths@
    }
}

impl SequentialDecoder {
    /// What the frames so far have left for the opener.
    pub closed spec fn hint(&self) -> usize {
        self.hint
    }

    /// A decoding before the first frame.
    pub fn new() -> (r: SequentialDecoder)
        ensures
            r@ == Seq::<u64>::empty(),
            r.hint() == 0,
    {
        SequentialDecoder { lengths: Vec::new(), hint: 0 }
    }

    /// What is to be done with the bytes at hand, which are all there are where the reader has
    /// `ended`. A frame is opened only once it is there whole.
    pub fn step<O: Opener>(&mut self, opener: &O, held: &[u8], ended: bool) -> (r: DecodeStep)
        ensures
            match step_of(held@, old(self)@.len() as int) {
                Step::Need => final(self)@ == old(self)@ && if ended {
                    r matches DecodeStep::Refuse(e) && fault_of(e) == short_fault(
                        held@,
                        old(self)@.len() as int,
                    )
                } else {
                    r is More
                },
                Step::Refuse(fault) => final(self)@ == old(self)@ && (
                r matches DecodeStep::Refuse(e) && fault_of(e) == fault),
                Step::Toc(sealed, len) => final(self)@ == old(self)@ && (
                r matches DecodeStep::Toc(bytes, n) && bytes@ == sealed && n == len && 4 < n
                    <= held@.len()),
                Step::Frame(sealed, len) => match chunk_of(
                    opener.answer(old(self).hint(), SealContext::Frame, sealed),
                    old(self)@.len() as int,
                ) {
                    Err(fault) => final(self)@ == old(self)@ && (
                    r matches DecodeStep::Refuse(e) && fault_of(e) == fault),
                    Ok(chunk) => final(self)@ == old(self)@.push(sealed.len() as u64) && (
                    r matches DecodeStep::Chunk(bytes, n) && bytes@ == chunk && n == len && 4 < n
                        <= held@.len()),
                },
            },
            final(self).hint() == (match step_of(held@, old(self)@.len() as int) {
                Step::Frame(sealed, _) => opener.hint_after(
                    old(self).hint(),
                    SealContext::Frame,
                    sealed,
                ),
                _ => old(self).hint(),
            }),
    {
        let index: usize = self.lengths.len();
        match next_step(held, index) {
            StreamStep::Need => if ended {
                DecodeStep::Refuse(short_stream(held, index))
            } else {
                DecodeStep::More
            },
            StreamStep::Refuse(e) => DecodeStep::Refuse(e),
            StreamStep::Toc(sealed, len) => DecodeStep::Toc(sealed, len),
            StreamStep::Frame(sealed, len) => {
                let (opened, next) = open_frame(opener, self.hint, sealed.as_slice(), index);
                self.hint = next;
                match opened {
                    Err(e) => DecodeStep::Refuse(e),
                    Ok(chunk) => {
                        self.lengths.push(sealed.len() as u64);
                        DecodeStep::Chunk(chunk, len)
                    },
                }
            },
        }
    }

    /// Checks the end of the stream, `trailing` bytes following the table of contents.
    pub fn finish<O: Opener>(self, opener: &O, sealed_toc: &[u8], trailing: u64) -> (r: Result<
        (),
        StreamError,
    >)
        ensures
            match end_of(
                opener.answer(self.hint(), SealContext::Toc, sealed_toc@),
                self@,
                trailing as int,
            ) {
                Ok(()) => r is Ok,
                Err(fault) => r matches Err(e) && fault_of(e) == fault,
            },
    {
        finish_stream(opener, self.hint, sealed_toc, self.lengths.as_slice(), trailing)
    }
}

/// Decodes a sealed stream without its table of contents at hand, frame by frame, in the order
/// of the bytes. The plaintext is written as it is opened, and its length comes back.
pub fn decode_sealed_sequential<O: Opener>(stream: &[u8], opener: &O, sink: &mut Vec<u8>) -> (r:
    Result<u64, StreamError>)
    ensures
        ({
            let decoded = sequential(*opener, 0, stream@, 0, Seq::empty(), old(sink)@);
            &&& final(sink)@ == decoded.out
            &&& match decoded.fault {
                None => r matches Ok(n) && n == decoded.out.len() - old(sink)@.len(),
                Some(fault) => r matches Err(e) && fault_of(e) == fault,
            }
        }),
{
    let mut at: usize = 0;
    let mut decoder = SequentialDecoder::new();
    let before: usize = sink.len();
    loop
        invariant
            at <= stream@.len() == stream.len(),
            before == old(sink)@.len() <= sink@.len(),
            sequential(*opener, 0, stream@, 0, Seq::empty(), old(sink)@) == sequential(
                *opener,
                decoder.hint(),
                stream@,
                at as int,
                decoder@,
                sink@,
            ),
        decreases stream@.len() - at,
    {
        let rest = vstd::slice::slice_subrange(stream, at, stream.len());
        assert(rest@ =~= stream@.skip(at as int));
        match decoder.step(opener, rest, true) {
            DecodeStep::More => {
                return Err(StreamError::MissingToc);
            },
            DecodeStep::Refuse(e) => {
                return Err(e);
            },
            DecodeStep::Toc(sealed, len) => {
                let trailing: u64 = (rest.len() - len) as u64;
                match decoder.finish(opener, sealed.as_slice(), trailing) {
                    Err(e) => {
                        return Err(e);
                    },
                    Ok(()) => {
                        return Ok((sink.len() - before) as u64);
                    },
                }
            },
            DecodeStep::Chunk(chunk, len) => {
                append(sink, chunk.as_slice());
                at = at + len;
            },
        }
    }
}

// ---------------------------------------------------------------------------
// Encoding
// ---------------------------------------------------------------------------

/// What is sealed of a chunk, and whether it is compressed: the chunk itself unless its compressed
/// form is worthwhile.
pub open spec fn payload_with(chunk: Seq<u8>, compressed: Seq<u8>) -> (Seq<u8>, bool) {
    if worth_keeping(chunk.len(), compressed.len()) {
        (compressed, true)
    } else {
        (chunk, false)
    }
}

/// A chunk, sealed, where the compressor gave that form of it.
pub open spec fn sealed_with(keys: Subkeys, chunk: Seq<u8>, compressed: Seq<u8>) -> Seq<u8> {
    let (payload, flag) = payload_with(chunk, compressed);
    sealed_bytes(keys, SealContext::Frame, seal_flags(flag), payload)
}

/// What the compressor makes of a chunk. It depends on the bytes of the chunk alone.
pub open spec fn compressed_chunk(chunk: Seq<u8>) -> Option<Seq<u8>> {
    zstd_compressed(chunk, DEFAULT_ZSTD_LEVEL as int)
}

/// A chunk, sealed.
pub open spec fn sealed_chunk(keys: Subkeys, chunk: Seq<u8>) -> Seq<u8> {
    match compressed_chunk(chunk) {
        Some(compressed) => sealed_with(keys, chunk, compressed),
        None => Seq::empty(),
    }
}

/// The first chunk from number `i` on that the compressor fails on, or the count.
pub open spec fn first_uncompressed(chunks: Seq<Seq<u8>>, i: int) -> int
    decreases chunks.len() - i,
{
    if i < chunks.len() && compressed_chunk(chunks[i]) is Some {
        first_uncompressed(chunks, i + 1)
    } else {
        i
    }
}

/// What stops the encoding of some chunks: the first one that the compressor fails on, else a
/// table of contents over its limit.
pub open spec fn encode_fault(chunks: Seq<Seq<u8>>) -> Option<StreamFault> {
    let i = first_uncompressed(chunks, 0);
    if i < chunks.len() {
        Some(StreamFault::Compress { index: i })
    } else if 24 + 53 * chunks.len() > MAX_TOC_BYTES {
        Some(StreamFault::Chunked(ChunkedError::TocTooLarge(MAX_TOC_BYTES)))
    } else {
        None
    }
}

/// The frames of some chunks, one behind the other.
pub open spec fn frames_of(keys: Subkeys, chunks: Seq<Seq<u8>>) -> Seq<u8>
    decreases chunks.len(),
{
    if chunks.len() == 0 {
        Seq::empty()
    } else {
        frames_of(keys, chunks.drop_last()) + raw_frame(sealed_chunk(keys, chunks.last()))
    }
}

/// The chunks, one behind the other.
pub open spec fn plain_of(chunks: Seq<Seq<u8>>) -> Seq<u8>
    decreases chunks.len(),
{
    if chunks.len() == 0 {
        Seq::empty()
    } else {
        plain_of(chunks.drop_last()) + chunks.last()
    }
}

/// The sealed lengths of some chunks.
pub open spec fn lengths_of(keys: Subkeys, chunks: Seq<Seq<u8>>) -> Seq<u64> {
    Seq::new(chunks.len(), |i: int| sealed_chunk(keys, chunks[i]).len() as u64)
}

/// The sum of the sealed lengths of some chunks.
pub open spec fn sealed_total(keys: Subkeys, chunks: Seq<Seq<u8>>) -> nat
    decreases chunks.len(),
{
    if chunks.len() == 0 {
        0
    } else {
        sealed_total(keys, chunks.drop_last()) + sealed_chunk(keys, chunks.last()).len()
    }
}

/// Whether an entry describes the frame of chunk number `i`.
pub open spec fn entry_fits(keys: Subkeys, chunks: Seq<Seq<u8>>, i: int, e: ChunkEntry) -> bool {
    let sealed = sealed_chunk(keys, chunks[i]);
    &&& e.frame_cid@ == blake3_hash(raw_frame(sealed))
    &&& e.frame_offset == frames_of(keys, chunks.take(i)).len()
    &&& e.frame_length == raw_frame(sealed).len()
    &&& e.raw_length == sealed.len()
    &&& !e.compressed
}

/// Whether the entries describe the frames of the chunks, each where it lies.
pub open spec fn entries_fit(
    keys: Subkeys,
    chunks: Seq<Seq<u8>>,
    entries: Seq<ChunkEntry>,
) -> bool {
    &&& entries.len() == chunks.len()
    &&& forall|i: int| 0 <= i < chunks.len() ==> entry_fits(keys, chunks, i, #[trigger] entries[i])
}

/// Whether the sealed form of a chunk is within the limits of a frame and opens to the chunk.
pub open spec fn readable(keys: Subkeys, chunk: Seq<u8>) -> bool {
    let sealed = sealed_chunk(keys, chunk);
    &&& SEAL_OVERHEAD <= sealed.len() <= MAX_CHUNK_RAW
    &&& forall|index: int| #[trigger]
        chunk_of(opened_bytes(keys, SealContext::Frame, sealed), index) == Ok::<
            Seq<u8>,
            StreamFault,
        >(chunk)
}

/// Whether all the chunks are readable.
pub open spec fn all_readable(keys: Subkeys, chunks: Seq<Seq<u8>>) -> bool {
    forall|i: int| 0 <= i < chunks.len() ==> readable(keys, #[trigger] chunks[i])
}

/// The parameters that a sealed stream's chunks are cut with.
pub open spec fn sealed_chunker() -> ChunkerParams {
    ChunkerParams { min: FASTCDC_MIN, avg: FASTCDC_AVG, max: SEALED_FASTCDC_MAX }
}

/// The chunks that a source is cut into by a list of lengths.
pub open spec fn cut(source: Seq<u8>, lengths: Seq<usize>) -> Seq<Seq<u8>> {
    Seq::new(
        lengths.len(),
        |i: int| source.subrange(sum(lengths.take(i)) as int, sum(lengths.take(i + 1)) as int),
    )
}

/// The chunks of a plaintext.
pub open spec fn chunks_of(plaintext: Seq<u8>) -> Seq<Seq<u8>> {
    cut(plaintext, fastcdc_lengths(plaintext, FASTCDC_MIN, FASTCDC_AVG, SEALED_FASTCDC_MAX))
}

/// A digest: the algorithm, and a hash in hexadecimal.
pub open spec fn digest_text(bytes: Seq<u8>) -> Seq<char> {
    "sha256:"@ + hex(sha256(bytes))
}

/// The digest of a byte string.
pub fn digest_bytes(body: &[u8]) -> (r: String)
    ensures
        r@ == digest_text(body@),
{
    let hash = sha256_digest(body);
    cat2("sha256:", hex_of(hash.as_slice()).as_str())
}

/// Seals a chunk of which the compressor gave that form: the compressed form where it is
/// worthwhile, else the chunk as it is.
pub fn seal_chunk(sealer: &Sealer, chunk: &[u8], compressed: &[u8]) -> (r: Result<
    Vec<u8>,
    SealError,
>)
    requires
        chunk@.len() <= SEALED_FASTCDC_MAX,
    ensures
        r matches Ok(sealed) && {
            &&& sealed@ == sealed_with(sealer@, chunk@, compressed@)
            &&& sealed@.len() == payload_with(chunk@, compressed@).0.len() + SEAL_OVERHEAD
            &&& sealed@.len() <= chunk@.len() + SEAL_OVERHEAD
            &&& opened_bytes(sealer@, SealContext::Frame, sealed@) == Ok::<
                (Seq<u8>, bool),
                SealError,
            >(payload_with(chunk@, compressed@))
        },
{
    if keeps_compressed(chunk.len(), compressed.len()) {
        sealer.seal(SealContext::Frame, compressed, true)
    } else {
        sealer.seal(SealContext::Frame, chunk, false)
    }
}

/// A sealed stream in the making: what its table of contents will say of the frames so far, and
/// their hash.
pub struct StreamEncoder {
    hasher: Sha256Stream,
    entries: Vec<ChunkEntry>,
    offset: u64,
    raw_total: u64,
    total_length: u64,
    chunks: Ghost<Seq<Seq<u8>>>,
}

impl StreamEncoder {
    /// The chunks that have been framed.
    pub closed spec fn chunks(&self) -> Seq<Seq<u8>> {
        self.chunks@
    }

    /// The number of bytes of the frames so far.
    pub closed spec fn offset(&self) -> u64 {
        self.offset
    }

    /// The number of plaintext bytes so far.
    pub closed spec fn raw_total(&self) -> u64 {
        self.raw_total
    }

    /// What holds of an encoder under some keys.
    pub closed spec fn wf(&self, keys: Subkeys) -> bool {
        &&& entries_fit(keys, self.chunks@, self.entries@)
        &&& all_readable(keys, self.chunks@)
        &&& sha256_fed(self.hasher) == frames_of(keys, self.chunks@)
        &&& self.offset == frames_of(keys, self.chunks@).len()
        &&& self.raw_total == plain_of(self.chunks@).len()
        &&& self.total_length == sealed_total(keys, self.chunks@)
        &&& self.total_length <= self.offset
        &&& self.entries@.len() <= self.offset
    }

    /// An encoder that has framed nothing.
    pub fn new() -> (r: StreamEncoder)
        ensures
            r.chunks() == Seq::<Seq<u8>>::empty(),
            r.offset() == 0,
            r.raw_total() == 0,
            forall|keys: Subkeys| r.wf(keys),
    {
        StreamEncoder {
            hasher: sha256_start(),
            entries: Vec::new(),
            offset: 0,
            raw_total: 0,
            total_length: 0,
            chunks: Ghost(Seq::empty()),
        }
    }

    /// Whether the counters have room for one more chunk.
    pub fn has_room(&self) -> (r: bool)
        ensures
            r == (self.offset() <= 0xffff_ffff_0000_0000 && self.raw_total()
                <= 0xffff_ffff_0000_0000),
    {
        self.offset <= 0xffff_ffff_0000_0000 && self.raw_total <= 0xffff_ffff_0000_0000
    }

    /// Compresses and seals the next chunk and returns its frame. Only a failing compressor stops
    /// it.
    pub fn frame(&mut self, sealer: &Sealer, chunk: &[u8]) -> (r: Result<Vec<u8>, StreamError>)
        requires
            old(self).wf(sealer@),
            old(self).offset() <= 0xffff_ffff_0000_0000,
            old(self).raw_total() <= 0xffff_ffff_0000_0000,
            chunk@.len() <= SEALED_FASTCDC_MAX,
        ensures
            final(self).wf(sealer@),
            r is Ok <==> compressed_chunk(chunk@) is Some,
            match r {
                Ok(frame) => frame@ == raw_frame(sealed_chunk(sealer@, chunk@))
                    && final(self).chunks() == old(self).chunks().push(chunk@)
                    && final(self).offset() == old(self).offset() + frame@.len()
                    && final(self).raw_total() == old(self).raw_total() + chunk@.len() && (
                chunk@.len() > 0 ==> frame@.len() <= 44 * chunk@.len()),
                Err(e) => *final(self) == *old(self) && fault_of(e) == (StreamFault::Compress {
                    index: old(self).chunks().len() as int,
                }),
            },
    {
        let index: usize = self.entries.len();
        let compressed = match zstd_compress(chunk, DEFAULT_ZSTD_LEVEL) {
            Err(source) => {
                return Err(StreamError::Compress { index, source });
            },
            Ok(compressed) => compressed,
        };
        let sealed = match seal_chunk(sealer, chunk, compressed.as_slice()) {
            Ok(sealed) => sealed,
            Err(e) => {
                return Err(StreamError::Seal(e));
            },
        };
        assert(sealed@ == sealed_chunk(sealer@, chunk@));
        assert(readable(sealer@, chunk@));
        let frame = encode_raw_frame(sealed.as_slice());
        proof {
            lemma_raw_blocks_len(sealed@);
            assert(frame@.len() == 9 + sealed@.len() + 3 * block_count(sealed@.len()));
            assert(block_count(sealed@.len()) <= sealed@.len());
            assert(sealed@.len() <= chunk@.len() + SEAL_OVERHEAD);
            assert(block_count(sealed@.len()) <= 97);
        }
        let entry = ChunkEntry {
            frame_cid: frame_cid(frame.as_slice()),
            frame_offset: self.offset,
            frame_length: frame.len() as u64,
            raw_length: sealed.len() as u32,
            compressed: false,
        };
        proof {
            let before = self.chunks@;
            let after = before.push(chunk@);
            assert(after.drop_last() =~= before);
            assert(after.take(before.len() as int) =~= before);
            assert forall|i: int| 0 <= i < before.len() implies after.take(i) == before.take(i) by {
                assert(after.take(i) =~= before.take(i));
            }
        }
        sha256_update(&mut self.hasher, frame.as_slice());
        self.entries.push(entry);
        self.offset = self.offset + frame.len() as u64;
        self.raw_total = self.raw_total + chunk.len() as u64;
        self.total_length = self.total_length + sealed.len() as u64;
        self.chunks = Ghost(self.chunks@.push(chunk@));
        proof {
            assert forall|i: int| 0 <= i < self.chunks@.len() implies entry_fits(
                sealer@,
                self.chunks@,
                i,
                #[trigger] self.entries@[i],
            ) by {
                if i < old(self).chunks@.len() {
                    assert(entry_fits(sealer@, old(self).chunks@, i, old(self).entries@[i]));
                }
            }
        }
        Ok(frame)
    }
}

/// Whether a table of contents is the one of some chunks.
pub open spec fn toc_fits(keys: Subkeys, chunks: Seq<Seq<u8>>, toc: Toc) -> bool {
    &&& toc.format_version == FORMAT_VERSION
    &&& toc.chunker == sealed_chunker()
    &&& entries_fit(keys, chunks, toc.chunks@)
}

/// The sealed table of contents of a stream.
pub open spec fn sealed_toc(keys: Subkeys, toc: Toc) -> Seq<u8> {
    sealed_bytes(keys, SealContext::Toc, 0, toc.bytes())
}

/// A whole stream: the frames of the chunks, then the frame of the sealed table of contents.
pub open spec fn wire_of(keys: Subkeys, chunks: Seq<Seq<u8>>, toc: Toc) -> Seq<u8> {
    frames_of(keys, chunks) + skippable_frame(sealed_toc(keys, toc))
}

/// Everything the upload needs once a stream has been encoded.
pub struct SealedLayer {
    /// The table of contents, carried sealed in the stream's last frame.
    pub toc: Toc,
    /// The digest of the whole stream.
    pub layer_digest: String,
    /// Where the frame of the table of contents begins.
    pub toc_offset: u64,
    /// The digest of what the last frame carries: the sealed table of contents.
    pub toc_digest: String,
    /// The content id of the last frame.
    pub toc_frame_cid: [u8; 32],
    /// The length of the last frame.
    pub toc_frame_length: u64,
    /// The sum of the sealed lengths of the frames.
    pub total_length: u64,
    /// The number of plaintext bytes.
    pub raw_total: u64,
}

/// Whether a layer says of a stream what is so.
pub open spec fn layer_fits(
    keys: Subkeys,
    chunks: Seq<Seq<u8>>,
    wire: Seq<u8>,
    layer: SealedLayer,
) -> bool {
    let last = skippable_frame(sealed_toc(keys, layer.toc));
    &&& toc_fits(keys, chunks, layer.toc)
    &&& wire == frames_of(keys, chunks) + last
    &&& layer.layer_digest@ == digest_text(wire)
    &&& layer.toc_offset == frames_of(keys, chunks).len()
    &&& layer.toc_digest@ == digest_text(sealed_toc(keys, layer.toc))
    &&& layer.toc_frame_cid@ == blake3_hash(last)
    &&& layer.toc_frame_length == last.len()
    &&& layer.total_length == sealed_total(keys, chunks)
    &&& layer.raw_total == plain_of(chunks).len()
}

impl StreamEncoder {
    /// Seals the table of contents: the last frame of the stream, and what the upload needs to know
    /// of the whole. A table over the limit is refused.
    pub fn finish(self, sealer: &Sealer) -> (r: Result<(Vec<u8>, SealedLayer), StreamError>)
        requires
            self.wf(sealer@),
        ensures
            match r {
                Ok((frame, layer)) => {
                    &&& frame@ == skippable_frame(sealed_toc(sealer@, layer.toc))
                    &&& layer_fits(
                        sealer@,
                        self.chunks(),
                        frames_of(sealer@, self.chunks()) + frame@,
                        layer,
                    )
                    &&& layer.toc.bytes().len() <= MAX_TOC_BYTES
                    &&& 24 + 53 * self.chunks().len() <= MAX_TOC_BYTES
                    &&& all_readable(sealer@, self.chunks())
                    &&& sealed_toc(sealer@, layer.toc).len() == layer.toc.bytes().len()
                        + SEAL_OVERHEAD
                    &&& opened_bytes(sealer@, SealContext::Toc, sealed_toc(sealer@, layer.toc))
                        == Ok::<(Seq<u8>, bool), SealError>((layer.toc.bytes(), false))
                },
                Err(e) => fault_of(e) == StreamFault::Chunked(
                    ChunkedError::TocTooLarge(MAX_TOC_BYTES),
                ) && 24 + 53 * self.chunks().len() > MAX_TOC_BYTES,
            },
    {
        let toc = Toc {
            format_version: FORMAT_VERSION,
            chunker: ChunkerParams {
                min: FASTCDC_MIN,
                avg: FASTCDC_AVG,
                max: SEALED_FASTCDC_MAX,
            },
            chunks: self.entries,
        };
        proof {
            crate::chunked::lemma_toc_len(toc);
        }
        let bytes = match toc.encode() {
            Err(e) => {
                return Err(StreamError::Chunked(e));
            },
            Ok(bytes) => bytes,
        };
        let sealed = match sealer.seal(SealContext::Toc, bytes.as_slice(), false) {
            Err(e) => {
                return Err(StreamError::Seal(e));
            },
            Ok(sealed) => sealed,
        };
        let toc_digest = digest_bytes(sealed.as_slice());
        let frame = encode_skippable_toc_frame(sealed.as_slice());
        let toc_frame_cid = frame_cid(frame.as_slice());
        let toc_frame_length: u64 = frame.len() as u64;
        let mut hasher = self.hasher;
        sha256_update(&mut hasher, frame.as_slice());
        let hash = sha256_finish(hasher);
        let layer = SealedLayer {
            toc,
            layer_digest: cat2("sha256:", hex_of(hash.as_slice()).as_str()),
            toc_offset: self.offset,
            toc_digest,
            toc_frame_cid,
            toc_frame_length,
            total_length: self.total_length,
            raw_total: self.raw_total,
        };
        Ok((frame, layer))
    }
}

/// Encodes a plaintext into a sealed stream: the bytes of the stream, and what the upload needs
/// to know of it. Only a failing compressor stops it, or so many chunks that their table of
/// contents is over its limit. Decoding the stream frame by frame under the same key gives the
/// plaintext back.
pub fn encode_sealed_stream(plaintext: &[u8], sealer: &Sealer) -> (r: Result<
    (Vec<u8>, SealedLayer),
    StreamError,
>)
    requires
        plaintext@.len() <= ADDRESSABLE,
    ensures
        match encode_fault(chunks_of(plaintext@)) {
            None => r matches Ok((wire, layer)) && {
                &&& layer_fits(sealer@, chunks_of(plaintext@), wire@, layer)
                &&& plain_of(chunks_of(plaintext@)) == plaintext@
                &&& all_readable(sealer@, chunks_of(plaintext@))
                &&& sequential(*sealer, 0, wire@, 0, Seq::empty(), Seq::empty()) == (Decoded {
                    out: plaintext@,
                    fault: None,
                })
            },
            Some(fault) => r matches Err(e) && fault_of(e) == fault,
        },
{
    let lengths = fastcdc_chunks(plaintext, FASTCDC_MIN, FASTCDC_AVG, SEALED_FASTCDC_MAX);
    let ghost chunks = chunks_of(plaintext@);
    let mut encoder = StreamEncoder::new();
    let mut wire: Vec<u8> = Vec::new();
    let mut at: usize = 0;
    proof {
        assert(chunks.take(0) =~= Seq::<Seq<u8>>::empty());
        assert(lengths@.take(0) =~= Seq::<usize>::empty());
        assert(plaintext@.take(0) =~= Seq::<u8>::empty());
    }
    for i in 0..lengths.len()
        invariant
            lengths@ == fastcdc_lengths(
                plaintext@,
                FASTCDC_MIN,
                FASTCDC_AVG,
                SEALED_FASTCDC_MAX,
            ),
            chunks == cut(plaintext@, lengths@),
            sum(lengths@) == plaintext@.len(),
            plaintext@.len() == plaintext.len(),
            plaintext@.len() <= ADDRESSABLE,
            wire@.len() <= 44 * at,
            forall|k: int| 0 <= k < lengths@.len() ==> 0 < #[trigger] lengths@[k]
                <= SEALED_FASTCDC_MAX,
            at == sum(lengths@.take(i as int)),
            encoder.wf(sealer@),
            encoder.chunks() == chunks.take(i as int),
            wire@ == frames_of(sealer@, chunks.take(i as int)),
            encoder.offset() == wire@.len(),
            encoder.raw_total() == at,
            plain_of(chunks.take(i as int)) == plaintext@.take(at as int),
            chunks == chunks_of(plaintext@),
            first_uncompressed(chunks, 0) == first_uncompressed(chunks, i as int),
    {
        let size: usize = lengths[i];
        proof {
            assert(lengths@.take(i + 1).drop_last() =~= lengths@.take(i as int));
            lemma_sum_take(lengths@, i + 1);
            assert(chunks[i as int] =~= plaintext@.subrange(at as int, at + size));
            assert(chunks.take(i + 1) =~= chunks.take(i as int).push(chunks[i as int]));
            assert(chunks.take(i + 1).drop_last() =~= chunks.take(i as int));
            assert(plaintext@.take(at + size) =~= plaintext@.take(at as int) + plaintext@.subrange(
                at as int,
                at + size,
            ));
        }
        let chunk = vstd::slice::slice_subrange(plaintext, at, at + size);
        match encoder.frame(sealer, chunk) {
            Err(e) => {
                return Err(e);
            },
            Ok(frame) => {
                append(&mut wire, frame.as_slice());
            },
        }
        at = at + size;
    }
    proof {
        assert(lengths@.take(lengths@.len() as int) =~= lengths@);
        assert(chunks.take(lengths@.len() as int) =~= chunks);
        assert(plaintext@.take(at as int) =~= plaintext@);
    }
    match encoder.finish(sealer) {
        Err(e) => Err(e),
        Ok((frame, layer)) => {
            append(&mut wire, frame.as_slice());
            proof {
                lemma_decodes_back(*sealer, chunks, layer.toc, wire@);
            }
            Ok((wire, layer))
        },
    }
}

proof fn lemma_sum_take(lengths: Seq<usize>, i: int)
    requires
        0 <= i <= lengths.len(),
    ensures
        sum(lengths.take(i)) <= sum(lengths),
    decreases lengths.len() - i,
{
    if i < lengths.len() {
        lemma_sum_take(lengths, i + 1);
        assert(lengths.take(i + 1).drop_last() =~= lengths.take(i));
    } else {
        assert(lengths.take(i) =~= lengths);
    }
}

// ---------------------------------------------------------------------------
// What the encoder writes, the sequential decoder reads back
// ---------------------------------------------------------------------------

/// A block header reads back to its flag, its type and its size.
proof fn lemma_header_reads_back(last: bool, size: nat)
    requires
        size <= MAX_BLOCK,
    ensures
        ({
            let head = block_header(last, size);
            let h = head[0] + head[1] * 256 + head[2] * 65536;
            &&& head.len() == 3
            &&& h / 8 == size
            &&& h / 2 % 4 == 0
            &&& (h % 2 == 1) == last
        }),
{
    let head = block_header(last, size);
    let bit = if last {
        1int
    } else {
        0int
    };
    let h = size * 8 + bit;
    assert(h < 16777216);
    assert(head[0] == h % 256);
    assert(head[1] == h / 256 % 256);
    assert(head[2] == h / 65536);
    assert(head[0] + head[1] * 256 + head[2] * 65536 == h);
    assert(h / 2 % 4 == 0);
}

/// One block, wherever it stands, is read as its content.
proof fn lemma_block_reads_back(
    before: Seq<u8>,
    last: bool,
    piece: Seq<u8>,
    after: Seq<u8>,
    declared: int,
    got: Seq<u8>,
)
    requires
        piece.len() <= MAX_BLOCK,
        got.len() + piece.len() <= declared,
    ensures
        ({
            let s = before + block_header(last, piece.len()) + piece + after;
            let at = before.len() as int;
            read_blocks(s, at, declared, got) == (if last {
                BlocksRead::Blocks(got + piece, at + 3 + piece.len())
            } else {
                read_blocks(s, at + 3 + piece.len(), declared, got + piece)
            })
        }),
{
    let head = block_header(last, piece.len());
    let s = before + head + piece + after;
    let at = before.len() as int;
    lemma_header_reads_back(last, piece.len());
    assert(s[at] == head[0] && s[at + 1] == head[1] && s[at + 2] == head[2]);
    assert(s.subrange(at + 3, at + 3 + piece.len()) =~= piece);
}

/// A block that is not the last, wherever it stands, is read over.
proof fn lemma_more_blocks(
    before: Seq<u8>,
    piece: Seq<u8>,
    after: Seq<u8>,
    declared: int,
    got: Seq<u8>,
    read: BlocksRead,
)
    requires
        piece.len() <= MAX_BLOCK,
        got.len() + piece.len() <= declared,
        ({
            let next = before + block_header(false, piece.len()) + piece;
            read_blocks(next + after, next.len() as int, declared, got + piece) == read
        }),
    ensures
        read_blocks(
            before + block_header(false, piece.len()) + piece + after,
            before.len() as int,
            declared,
            got,
        ) == read,
{
    lemma_block_reads_back(before, false, piece, after, declared, got);
    lemma_header_reads_back(false, piece.len());
    assert((before + block_header(false, piece.len()) + piece).len() == before.len() + 3
        + piece.len());
}

/// The blocks of a content, wherever they stand, read back to the content.
proof fn lemma_blocks_read_back(
    before: Seq<u8>,
    content: Seq<u8>,
    after: Seq<u8>,
    declared: int,
    got: Seq<u8>,
)
    requires
        got.len() + content.len() <= declared,
    ensures
        read_blocks(before + raw_blocks(content) + after, before.len() as int, declared, got)
            == BlocksRead::Blocks(
            got + content,
            (before.len() + raw_blocks(content).len()) as int,
        ),
    decreases content.len(),
{
    let s = before + raw_blocks(content) + after;
    if content.len() <= MAX_BLOCK {
        lemma_block_reads_back(before, true, content, after, declared, got);
        lemma_header_reads_back(true, content.len());
        assert(s =~= before + block_header(true, content.len()) + content + after);
    } else {
        let head = block_header(false, MAX_BLOCK as nat);
        let piece = content.take(MAX_BLOCK as int);
        let rest = content.skip(MAX_BLOCK as int);
        let next = before + head + piece;
        let read = BlocksRead::Blocks(
            got + content,
            (before.len() + raw_blocks(content).len()) as int,
        );
        lemma_blocks_read_back(next, rest, after, declared, got + piece);
        assert(raw_blocks(content) == head + piece + raw_blocks(rest));
        assert(next + raw_blocks(rest) + after =~= next + (raw_blocks(rest) + after));
        assert(got + piece + rest =~= got + content);
        lemma_more_blocks(before, piece, raw_blocks(rest) + after, declared, got, read);
        assert(s =~= next + (raw_blocks(rest) + after));
    }
}

/// A pinned frame at the head of a stream is read as what it carries.
proof fn lemma_frame_read_back(sealed: Seq<u8>, after: Seq<u8>, index: int)
    requires
        SEAL_OVERHEAD <= sealed.len() <= MAX_CHUNK_RAW,
    ensures
        step_of(raw_frame(sealed) + after, index) == Step::Frame(
            sealed,
            raw_frame(sealed).len() as int,
        ),
{
    let s = raw_frame(sealed) + after;
    let before = le32(ZSTD_FRAME_MAGIC) + seq![0xA0u8] + le32(sealed.len() as u32);
    lemma_le32(ZSTD_FRAME_MAGIC);
    lemma_le32(sealed.len() as u32);
    assert(s.subrange(0, 4) =~= le32(ZSTD_FRAME_MAGIC));
    assert(s[4] == 0xA0u8);
    assert(s.subrange(5, 9) =~= le32(sealed.len() as u32));
    lemma_blocks_read_back(before, sealed, after, sealed.len() as int, Seq::empty());
    assert(s =~= before + raw_blocks(sealed) + after);
    assert(Seq::<u8>::empty() + sealed =~= sealed);
}

/// The frame of a table of contents at the head of a stream is read as what it carries.
proof fn lemma_toc_read_back(bytes: Seq<u8>, index: int)
    requires
        bytes.len() <= MAX_TOC_BYTES + SEAL_OVERHEAD,
    ensures
        step_of(skippable_frame(bytes), index) == Step::Toc(
            bytes,
            skippable_frame(bytes).len() as int,
        ),
{
    let s = skippable_frame(bytes);
    lemma_le32(SKIPPABLE_MAGIC);
    lemma_le32(bytes.len() as u32);
    assert(s.subrange(0, 4) =~= le32(SKIPPABLE_MAGIC));
    assert(s.subrange(4, 8) =~= le32(bytes.len() as u32));
    assert(s.subrange(8, 8 + bytes.len() as int) =~= bytes);
}

/// The frames of some chunks begin with those of the first of them.
proof fn lemma_frames_split(keys: Subkeys, chunks: Seq<Seq<u8>>, i: int)
    requires
        0 <= i < chunks.len(),
    ensures
        frames_of(keys, chunks.take(i + 1)) == frames_of(keys, chunks.take(i)) + raw_frame(
            sealed_chunk(keys, chunks[i]),
        ),
        plain_of(chunks.take(i + 1)) == plain_of(chunks.take(i)) + chunks[i],
        lengths_of(keys, chunks.take(i + 1)) == lengths_of(keys, chunks.take(i)).push(
            sealed_chunk(keys, chunks[i]).len() as u64,
        ),
{
    assert(chunks.take(i + 1).drop_last() =~= chunks.take(i));
    assert(chunks.take(i + 1).last() == chunks[i]);
    assert(lengths_of(keys, chunks.take(i + 1)) =~= lengths_of(keys, chunks.take(i)).push(
        sealed_chunk(keys, chunks[i]).len() as u64,
    ));
}

/// The frames of the first chunks are at the head of the frames of all of them.
proof fn lemma_frames_prefix(keys: Subkeys, chunks: Seq<Seq<u8>>, i: int)
    requires
        0 <= i <= chunks.len(),
    ensures
        frames_of(keys, chunks.take(i)).is_prefix_of(frames_of(keys, chunks)),
    decreases chunks.len() - i,
{
    if i < chunks.len() {
        lemma_frames_prefix(keys, chunks, i + 1);
        lemma_frames_split(keys, chunks, i);
        let shorter = frames_of(keys, chunks.take(i));
        let longer = frames_of(keys, chunks.take(i + 1));
        let all = frames_of(keys, chunks);
        assert(shorter =~= all.subrange(0, shorter.len() as int)) by {
            assert(longer =~= all.subrange(0, longer.len() as int));
            assert forall|k: int| 0 <= k < shorter.len() implies shorter[k] == all[k] by {
                assert(longer[k] == all[k]);
            }
        }
    } else {
        assert(chunks.take(i) =~= chunks);
    }
}

/// What follows the frames of the first `i` chunks: the next frame, then the rest.
proof fn lemma_rest_at(keys: Subkeys, chunks: Seq<Seq<u8>>, i: int, last: Seq<u8>)
    requires
        0 <= i < chunks.len(),
    ensures
        ({
            let s = frames_of(keys, chunks) + last;
            let at = frames_of(keys, chunks.take(i)).len() as int;
            let frame = raw_frame(sealed_chunk(keys, chunks[i]));
            &&& at + frame.len() == frames_of(keys, chunks.take(i + 1)).len()
            &&& at + frame.len() <= s.len()
            &&& s.subrange(at, at + frame.len()) == frame
            &&& s.skip(at) == frame + s.skip(at + frame.len())
        }),
{
    lemma_frames_split(keys, chunks, i);
    lemma_frames_prefix(keys, chunks, i + 1);
    let s = frames_of(keys, chunks) + last;
    let frame = raw_frame(sealed_chunk(keys, chunks[i]));
    let before = frames_of(keys, chunks.take(i));
    let at = before.len() as int;
    let next = at + frame.len();
    let through = frames_of(keys, chunks.take(i + 1));
    assert(through == before + frame);
    assert(through == frames_of(keys, chunks).subrange(0, next));
    assert forall|k: int| 0 <= k < frame.len() implies s[at + k] == frame[k] by {
        assert(through[at + k] == frame[k]);
        assert(frames_of(keys, chunks).subrange(0, next)[at + k] == frames_of(keys, chunks)[at
            + k]);
    }
    assert(s.subrange(at, next) =~= frame);
    assert(s.skip(at) =~= frame + s.skip(next));
}

/// Decoding from the frame of chunk number `i` on comes to decoding from the end of the frames.
proof fn lemma_sequential_frames(sealer: Sealer, chunks: Seq<Seq<u8>>, i: int, last: Seq<u8>)
    requires
        0 <= i <= chunks.len(),
        all_readable(sealer@, chunks),
    ensures
        ({
            let s = frames_of(sealer@, chunks) + last;
            let before = chunks.take(i);
            sequential(
                sealer,
                0,
                s,
                frames_of(sealer@, before).len() as int,
                lengths_of(sealer@, before),
                plain_of(before),
            ) == sequential(
                sealer,
                0,
                s,
                frames_of(sealer@, chunks).len() as int,
                lengths_of(sealer@, chunks),
                plain_of(chunks),
            )
        }),
    decreases chunks.len() - i,
{
    let keys = sealer@;
    if i < chunks.len() {
        let s = frames_of(keys, chunks) + last;
        let sealed = sealed_chunk(keys, chunks[i]);
        let at = frames_of(keys, chunks.take(i)).len() as int;
        lemma_sequential_frames(sealer, chunks, i + 1, last);
        lemma_rest_at(keys, chunks, i, last);
        lemma_frames_split(keys, chunks, i);
        assert(readable(keys, chunks[i]));
        lemma_frame_read_back(sealed, s.skip(at + raw_frame(sealed).len()), i);
        assert(lengths_of(keys, chunks.take(i)).len() == i);
        assert(chunk_of(opened_bytes(keys, SealContext::Frame, sealed), i) == Ok::<
            Seq<u8>,
            StreamFault,
        >(chunks[i]));
    } else {
        assert(chunks.take(i) =~= chunks);
    }
}

proof fn lemma_no_mismatch(
    keys: Subkeys,
    chunks: Seq<Seq<u8>>,
    entries: Seq<ChunkEntry>,
    i: int,
)
    requires
        0 <= i <= chunks.len(),
        entries_fit(keys, chunks, entries),
    ensures
        first_mismatch(entries, lengths_of(keys, chunks), i) == chunks.len(),
    decreases chunks.len() - i,
{
    if i < chunks.len() {
        assert(entry_fits(keys, chunks, i, entries[i]));
        lemma_no_mismatch(keys, chunks, entries, i + 1);
    }
}

/// The stream of some readable chunks decodes, frame by frame, to the chunks.
proof fn lemma_decodes_back(sealer: Sealer, chunks: Seq<Seq<u8>>, toc: Toc, wire: Seq<u8>)
    requires
        wire == wire_of(sealer@, chunks, toc),
        toc_fits(sealer@, chunks, toc),
        all_readable(sealer@, chunks),
        toc.bytes().len() <= MAX_TOC_BYTES,
        sealed_toc(sealer@, toc).len() == toc.bytes().len() + SEAL_OVERHEAD,
        opened_bytes(sealer@, SealContext::Toc, sealed_toc(sealer@, toc)) == Ok::<
            (Seq<u8>, bool),
            SealError,
        >((toc.bytes(), false)),
    ensures
        sequential(sealer, 0, wire, 0, Seq::empty(), Seq::empty()) == (Decoded {
            out: plain_of(chunks),
            fault: None,
        }),
{
    let keys = sealer@;
    let last = skippable_frame(sealed_toc(keys, toc));
    lemma_sequential_frames(sealer, chunks, 0, last);
    assert(chunks.take(0) =~= Seq::<Seq<u8>>::empty());
    assert(lengths_of(keys, chunks.take(0)) =~= Seq::<u64>::empty());
    let at = frames_of(keys, chunks).len() as int;
    assert(wire.skip(at) =~= last);
    lemma_toc_read_back(sealed_toc(keys, toc), chunks.len() as int);
    crate::chunked::lemma_toc_len(toc);
    assert(toc.chunks@.len() <= u32::MAX);
    let found = toc_of(toc.bytes())->Ok_0;
    crate::chunked::law_toc_encoding_is_injective(toc, found);
    lemma_no_mismatch(keys, chunks, toc.chunks@, 0);
}

// ---------------------------------------------------------------------------
// Decoding by the table of contents
// ---------------------------------------------------------------------------

/// What unwrapping a frame's zstd envelope comes to: a content of exactly the declared length.
pub open spec fn unwrapped(frame: Seq<u8>, raw_length: u32, index: int) -> Result<
    Seq<u8>,
    StreamFault,
> {
    match inflated(frame, raw_length as int) {
        InflatedView::Failed => Err(StreamFault::Unwrap { index }),
        InflatedView::Past(reached) => Err(
            StreamFault::SealedSizeMismatch { index, expected: raw_length as int, actual: reached },
        ),
        InflatedView::Whole(content) => if content.len() != raw_length {
            Err(
                StreamFault::SealedSizeMismatch {
                    index,
                    expected: raw_length as int,
                    actual: content.len() as int,
                },
            )
        } else if content.len() < SEAL_OVERHEAD {
            Err(StreamFault::Seal(SealError::Truncated))
        } else {
            Ok(content)
        },
    }
}

/// Unwraps one frame's zstd envelope into the sealed payload, bounded by the declared length and
/// by a fixed window.
fn unwrap_frame(frame: &[u8], raw_length: u32, index: usize) -> (r: Result<Vec<u8>, StreamError>)
    ensures
        outcome(r) == unwrapped(frame@, raw_length, index as int),
        forall|sealed: Seq<u8>|
            #![trigger raw_frame(sealed)]
            frame@ == raw_frame(sealed) && sealed.len() == raw_length && SEAL_OVERHEAD
                <= sealed.len() <= MAX_CHUNK_RAW ==> outcome(r) == Ok::<Seq<u8>, StreamFault>(
                sealed,
            ),
{
    proof {
        vstd::arithmetic::power2::lemma2_to64();
        assert(vstd::arithmetic::power2::pow2(24) == 16777216);
        assert forall|sealed: Seq<u8>|
            #![trigger raw_frame(sealed)]
            frame@ == raw_frame(sealed) && sealed.len() == raw_length && SEAL_OVERHEAD
                <= sealed.len() <= MAX_CHUNK_RAW implies is_raw_within(
            frame@,
            sealed,
            raw_length as int,
        ) by {}
    }
    match inflate(frame, raw_length) {
        Inflated::Failed(source) => Err(StreamError::Unwrap { index, source }),
        Inflated::Past(actual) => Err(
            StreamError::SealedSizeMismatch { index, expected: raw_length as u64, actual },
        ),
        Inflated::Whole(content) => {
            if content.len() != raw_length as usize {
                return Err(
                    StreamError::SealedSizeMismatch {
                        index,
                        expected: raw_length as u64,
                        actual: content.len() as u64,
                    },
                );
            }
            if content.len() < SEAL_OVERHEAD {
                return Err(StreamError::Seal(SealError::Truncated));
            }
            Ok(content)
        },
    }
}

/// What a frame that was read whole comes to.
pub open spec fn frame_content(keys: Subkeys, e: ChunkEntry, frame: Seq<u8>, index: int) -> Result<
    Seq<u8>,
    StreamFault,
> {
    if blake3_hash(frame) != e.frame_cid@ {
        Err(StreamFault::CidMismatch { index })
    } else {
        match unwrapped(frame, e.raw_length, index) {
            Err(fault) => Err(fault),
            Ok(sealed) => chunk_of(opened_bytes(keys, SealContext::Frame, sealed), index),
        }
    }
}

/// What the frame of one entry comes to, the frames before it ending at `cursor`.
pub open spec fn frame_at(
    keys: Subkeys,
    e: ChunkEntry,
    s: Seq<u8>,
    cursor: int,
    index: int,
) -> Result<Seq<u8>, StreamFault> {
    if e.frame_offset != cursor || e.frame_length == 0 {
        Err(StreamFault::BadTiling { index })
    } else if e.frame_length > MAX_SEALED_FRAME {
        Err(StreamFault::FrameTooLarge { index, len: e.frame_length as int })
    } else if e.raw_length > MAX_CHUNK_RAW {
        Err(StreamFault::Chunked(ChunkedError::RawLengthTooLarge(e.raw_length)))
    } else if s.len() < cursor + e.frame_length {
        Err(StreamFault::TruncatedFrame { index })
    } else {
        frame_content(keys, e, s.subrange(cursor, cursor + e.frame_length), index)
    }
}

/// Whether an entry describes the pinned frame of a sealed payload that stands at `cursor`.
pub open spec fn describes(e: ChunkEntry, s: Seq<u8>, cursor: int, sealed: Seq<u8>) -> bool {
    let frame = raw_frame(sealed);
    &&& e.frame_cid@ == blake3_hash(frame)
    &&& e.frame_offset == cursor
    &&& e.frame_length == frame.len()
    &&& e.raw_length == sealed.len()
    &&& SEAL_OVERHEAD <= sealed.len() <= MAX_CHUNK_RAW
    &&& cursor + frame.len() <= s.len()
    &&& s.subrange(cursor, cursor + frame.len()) == frame
}

/// Checks one entry against where the frames before it ended, before any byte of its frame is
/// read: the length of the frame.
pub fn check_entry(e: &ChunkEntry, cursor: u64, index: usize) -> (r: Result<usize, StreamError>)
    ensures
        match r {
            Ok(len) => len == e.frame_length && e.frame_offset == cursor && 0 < len
                <= MAX_SEALED_FRAME && e.raw_length <= MAX_CHUNK_RAW,
            Err(e2) => fault_of(e2) == (if e.frame_offset != cursor || e.frame_length == 0 {
                StreamFault::BadTiling { index: index as int }
            } else if e.frame_length > MAX_SEALED_FRAME {
                StreamFault::FrameTooLarge { index: index as int, len: e.frame_length as int }
            } else {
                StreamFault::Chunked(ChunkedError::RawLengthTooLarge(e.raw_length))
            }) && (e.frame_offset != cursor || e.frame_length == 0 || e.frame_length
                > MAX_SEALED_FRAME || e.raw_length > MAX_CHUNK_RAW),
        },
{
    if e.frame_offset != cursor || e.frame_length == 0 {
        return Err(StreamError::BadTiling { index });
    }
    if e.frame_length > MAX_SEALED_FRAME {
        return Err(StreamError::FrameTooLarge { index, len: e.frame_length });
    }
    if e.raw_length as usize > MAX_CHUNK_RAW {
        return Err(StreamError::Chunked(ChunkedError::RawLengthTooLarge(e.raw_length)));
    }
    Ok(e.frame_length as usize)
}

/// Decodes the frame of one entry: its content id is checked before it is unwrapped, and its
/// seal before a byte comes out.
pub fn decode_frame(e: &ChunkEntry, frame: &[u8], sealer: &Sealer, index: usize) -> (r: Result<
    Vec<u8>,
    StreamError,
>)
    ensures
        outcome(r) == frame_content(sealer@, *e, frame@, index as int),
        forall|sealed: Seq<u8>|
            #![trigger raw_frame(sealed)]
            frame@ == raw_frame(sealed) && e.frame_cid@ == blake3_hash(frame@) && e.raw_length
                == sealed.len() && SEAL_OVERHEAD <= sealed.len() <= MAX_CHUNK_RAW ==> outcome(r)
                == chunk_of(opened_bytes(sealer@, SealContext::Frame, sealed), index as int),
{
    let cid = frame_cid(frame);
    if !crate::bytes::same_bytes(cid.as_slice(), e.frame_cid.as_slice()) {
        return Err(StreamError::CidMismatch { index });
    }
    match unwrap_frame(frame, e.raw_length, index) {
        Err(err) => Err(err),
        Ok(sealed) => finish_chunk(sealer.open(SealContext::Frame, sealed.as_slice()), index),
    }
}

/// What decoding the frames of a table of contents comes to from entry number `i` on, `out` being
/// what came out before.
pub open spec fn walk(
    keys: Subkeys,
    entries: Seq<ChunkEntry>,
    s: Seq<u8>,
    i: int,
    cursor: int,
    out: Seq<u8>,
) -> Decoded
    decreases entries.len() - i,
{
    if i >= entries.len() {
        Decoded { out, fault: None }
    } else {
        match frame_at(keys, entries[i], s, cursor, i) {
            Err(fault) => Decoded { out, fault: Some(fault) },
            Ok(chunk) => walk(
                keys,
                entries,
                s,
                i + 1,
                cursor + entries[i].frame_length,
                out + chunk,
            ),
        }
    }
}

/// What decoding a stream by its table of contents comes to, `out` being what came out before.
pub open spec fn walk_toc(keys: Subkeys, toc: Toc, s: Seq<u8>, out: Seq<u8>) -> Decoded {
    if toc.format_version != FORMAT_VERSION {
        Decoded {
            out,
            fault: Some(
                StreamFault::Chunked(ChunkedError::UnsupportedVersion(toc.format_version)),
            ),
        }
    } else {
        walk(keys, toc.chunks@, s, 0, 0, out)
    }
}

/// Whether a table of contents and a stream are those of some readable chunks.
pub open spec fn laid_out(keys: Subkeys, chunks: Seq<Seq<u8>>, toc: Toc, s: Seq<u8>) -> bool {
    &&& toc_fits(keys, chunks, toc)
    &&& all_readable(keys, chunks)
    &&& frames_of(keys, chunks).is_prefix_of(s)
}

/// Decodes a sealed stream by its table of contents. Every frame is checked against its content
/// id before it is decoded. The plaintext is written as it is opened, and its length comes back.
/// What [`encode_sealed_stream`] wrote under the same key comes back.
pub fn decode_sealed_stream(
    stream: &[u8],
    toc: &Toc,
    sealer: &Sealer,
    writer: &mut Vec<u8>,
) -> (r: Result<u64, StreamError>)
    ensures
        ({
            let decoded = walk_toc(sealer@, *toc, stream@, old(writer)@);
            &&& final(writer)@ == decoded.out
            &&& match decoded.fault {
                None => r matches Ok(n) && n == decoded.out.len() - old(writer)@.len(),
                Some(fault) => r matches Err(e) && fault_of(e) == fault,
            }
        }),
        forall|chunks: Seq<Seq<u8>>| #[trigger]
            laid_out(sealer@, chunks, *toc, stream@) ==> r is Ok && final(writer)@ == old(writer)@
                + plain_of(chunks),
{
    if toc.format_version != FORMAT_VERSION {
        return Err(StreamError::Chunked(ChunkedError::UnsupportedVersion(toc.format_version)));
    }
    let ghost keys = sealer@;
    let mut cursor: u64 = 0;
    let before: usize = writer.len();
    let ghost start = writer@;
    assert forall|chunks: Seq<Seq<u8>>| #[trigger]
        laid_out(keys, chunks, *toc, stream@) implies cursor == frames_of(
        keys,
        chunks.take(0),
    ).len() && writer@ == start + plain_of(chunks.take(0)) by {
        assert(chunks.take(0) =~= Seq::<Seq<u8>>::empty());
        assert(start + Seq::<u8>::empty() =~= start);
    }
    let mut i: usize = 0;
    while i < toc.chunks.len()
        invariant
            keys == sealer@,
            i <= toc.chunks@.len(),
            cursor <= stream@.len() == stream.len(),
            toc.format_version == FORMAT_VERSION,
            walk_toc(keys, *toc, stream@, start) == walk(
                keys,
                toc.chunks@,
                stream@,
                i as int,
                cursor as int,
                writer@,
            ),
            start == old(writer)@,
            before == start.len() <= writer@.len(),
            forall|chunks: Seq<Seq<u8>>| #[trigger]
                laid_out(keys, chunks, *toc, stream@) ==> cursor == frames_of(
                    keys,
                    chunks.take(i as int),
                ).len() && writer@ == start + plain_of(chunks.take(i as int)),
        decreases toc.chunks@.len() - i,
    {
        let e = toc.chunks[i];
        assert forall|chunks: Seq<Seq<u8>>| #[trigger]
            laid_out(keys, chunks, *toc, stream@) implies describes(
            e,
            stream@,
            cursor as int,
            sealed_chunk(keys, chunks[i as int]),
        ) && e.frame_length <= MAX_SEALED_FRAME && chunk_of(
            opened_bytes(keys, SealContext::Frame, sealed_chunk(keys, chunks[i as int])),
            i as int,
        ) == Ok::<Seq<u8>, StreamFault>(chunks[i as int]) by {
            lemma_describes(keys, chunks, *toc, stream@, i as int);
        }
        let len: usize = match check_entry(&e, cursor, i) {
            Err(err) => {
                return Err(err);
            },
            Ok(len) => len,
        };
        if stream.len() - (cursor as usize) < len {
            return Err(StreamError::TruncatedFrame { index: i });
        }
        let frame = vstd::slice::slice_subrange(
            stream,
            cursor as usize,
            cursor as usize + len,
        );
        match decode_frame(&e, frame, sealer, i) {
            Err(err) => {
                assert forall|chunks: Seq<Seq<u8>>| #[trigger]
                    laid_out(keys, chunks, *toc, stream@) implies false by {
                    assert(frame@ == raw_frame(sealed_chunk(keys, chunks[i as int])));
                }
                return Err(err);
            },
            Ok(chunk) => {
                assert forall|chunks: Seq<Seq<u8>>| #[trigger]
                    laid_out(keys, chunks, *toc, stream@) implies cursor + len == frames_of(
                    keys,
                    chunks.take(i + 1),
                ).len() && writer@ + chunk@ == start + plain_of(chunks.take(i + 1)) by {
                    assert(frame@ == raw_frame(sealed_chunk(keys, chunks[i as int])));
                    lemma_frames_split(keys, chunks, i as int);
                    assert(start + plain_of(chunks.take(i as int)) + chunk@ =~= start + (plain_of(
                        chunks.take(i as int),
                    ) + chunk@));
                }
                append(writer, chunk.as_slice());
            },
        }
        cursor = cursor + len as u64;
        i += 1;
    }
    assert forall|chunks: Seq<Seq<u8>>| #[trigger]
        laid_out(keys, chunks, *toc, stream@) implies writer@ == start + plain_of(chunks) by {
        assert(chunks.take(i as int) =~= chunks);
    }
    Ok((writer.len() - before) as u64)
}

proof fn lemma_describes(keys: Subkeys, chunks: Seq<Seq<u8>>, toc: Toc, s: Seq<u8>, i: int)
    requires
        laid_out(keys, chunks, toc, s),
        0 <= i < toc.chunks@.len(),
    ensures
        describes(
            toc.chunks@[i],
            s,
            frames_of(keys, chunks.take(i)).len() as int,
            sealed_chunk(keys, chunks[i]),
        ),
        toc.chunks@[i].frame_length <= MAX_SEALED_FRAME,
        chunk_of(opened_bytes(keys, SealContext::Frame, sealed_chunk(keys, chunks[i])), i) == Ok::<
            Seq<u8>,
            StreamFault,
        >(chunks[i]),
{
    let all = frames_of(keys, chunks);
    let last = s.skip(all.len() as int);
    assert(s =~= all + last);
    lemma_rest_at(keys, chunks, i, last);
    assert(entry_fits(keys, chunks, i, toc.chunks@[i]));
    assert(readable(keys, chunks[i]));
    let sealed = sealed_chunk(keys, chunks[i]);
    lemma_raw_blocks_len(sealed);
    assert(block_count(sealed.len()) <= 97);
}

// ---------------------------------------------------------------------------
// The upload recipe
// ---------------------------------------------------------------------------

/// One frame of a stream in the shape that the chunked-upload recipe takes.
#[derive(Debug, PartialEq, Eq)]
pub struct SealedRecipeEntry {
    /// The content id of the frame, in hexadecimal.
    pub frame_cid: String,
    pub frame_offset: u64,
    pub frame_length: u64,
    /// The sealed length of the frame's payload; 0 for the frame of the table of contents.
    pub raw_length: u64,
    pub compressed: bool,
}

/// Whether a recipe entry is the one of a frame.
pub open spec fn recipe_fits(r: SealedRecipeEntry, e: ChunkEntry) -> bool {
    &&& r.frame_cid@ == hex(e.frame_cid@)
    &&& r.frame_offset == e.frame_offset
    &&& r.frame_length == e.frame_length
    &&& r.raw_length == e.raw_length
    &&& r.compressed == e.compressed
}

impl SealedLayer {
    /// The recipe of the upload: one entry for each payload frame, then the frame of the table
    /// of contents.
    pub fn recipe_entries(&self) -> (r: Vec<SealedRecipeEntry>)
        ensures
            r@.len() == self.toc.chunks@.len() + 1,
            forall|i: int|
                0 <= i < self.toc.chunks@.len() ==> recipe_fits(
                    #[trigger] r@[i],
                    self.toc.chunks@[i],
                ),
            r@.last().frame_cid@ == hex(self.toc_frame_cid@),
            r@.last().frame_offset == self.toc_offset,
            r@.last().frame_length == self.toc_frame_length,
            r@.last().raw_length == 0,
            !r@.last().compressed,
    {
        let mut entries: Vec<SealedRecipeEntry> = Vec::new();
        for i in 0..self.toc.chunks.len()
            invariant
                entries@.len() == i,
                forall|k: int|
                    0 <= k < i ==> recipe_fits(#[trigger] entries@[k], self.toc.chunks@[k]),
        {
            let e = self.toc.chunks[i];
            entries.push(
                SealedRecipeEntry {
                    frame_cid: hex_of(e.frame_cid.as_slice()),
                    frame_offset: e.frame_offset,
                    frame_length: e.frame_length,
                    raw_length: e.raw_length as u64,
                    compressed: e.compressed,
                },
            );
        }
        entries.push(
            SealedRecipeEntry {
                frame_cid: hex_of(self.toc_frame_cid.as_slice()),
                frame_offset: self.toc_offset,
                frame_length: self.toc_frame_length,
                raw_length: 0,
                compressed: false,
            },
        );
        entries
    }
}

/// The sum of the lengths of the payloads that a recipe lists.
pub open spec fn recipe_total(recipe: Seq<SealedRecipeEntry>) -> int
    decreases recipe.len(),
{
    if recipe.len() == 0 {
        0
    } else {
        recipe_total(recipe.drop_last()) + recipe.last().raw_length
    }
}

proof fn lemma_recipe_total(
    keys: Subkeys,
    chunks: Seq<Seq<u8>>,
    entries: Seq<ChunkEntry>,
    recipe: Seq<SealedRecipeEntry>,
    n: int,
)
    requires
        entries_fit(keys, chunks, entries),
        0 <= n <= chunks.len() <= recipe.len(),
        forall|i: int|
            0 <= i < entries.len() ==> recipe_fits(#[trigger] recipe[i], entries[i]),
    ensures
        recipe_total(recipe.take(n)) == sealed_total(keys, chunks.take(n)),
    decreases n,
{
    if n > 0 {
        lemma_recipe_total(keys, chunks, entries, recipe, n - 1);
        assert(recipe.take(n).drop_last() =~= recipe.take(n - 1));
        assert(chunks.take(n).drop_last() =~= chunks.take(n - 1));
        assert(recipe_fits(recipe[n - 1], entries[n - 1]));
        assert(entry_fits(keys, chunks, n - 1, entries[n - 1]));
    }
}

/// The recipe of an encoded stream covers it: the frames that it lists lie one behind the other
/// from the first byte of the stream to the last, and each is named by the hash of its bytes. None
/// is compressed by itself, and the payloads add up to the layer's length.
pub proof fn law_recipe_covers_the_stream(
    keys: Subkeys,
    chunks: Seq<Seq<u8>>,
    wire: Seq<u8>,
    layer: SealedLayer,
    recipe: Seq<SealedRecipeEntry>,
)
    requires
        layer_fits(keys, chunks, wire, layer),
        recipe.len() == layer.toc.chunks@.len() + 1,
        forall|i: int|
            0 <= i < layer.toc.chunks@.len() ==> recipe_fits(
                #[trigger] recipe[i],
                layer.toc.chunks@[i],
            ),
        recipe.last().frame_cid@ == hex(layer.toc_frame_cid@),
        recipe.last().frame_offset == layer.toc_offset,
        recipe.last().frame_length == layer.toc_frame_length,
        recipe.last().raw_length == 0,
        !recipe.last().compressed,
    ensures
        recipe[0].frame_offset == 0,
        forall|i: int|
            0 <= i < recipe.len() - 1 ==> #[trigger] recipe[i].frame_offset
                + recipe[i].frame_length == recipe[i + 1].frame_offset,
        recipe.last().frame_offset + recipe.last().frame_length == wire.len(),
        forall|i: int|
            0 <= i < recipe.len() ==> !(#[trigger] recipe[i]).compressed && recipe[i].frame_cid@
                == hex(
                blake3_hash(
                    wire.subrange(
                        recipe[i].frame_offset as int,
                        recipe[i].frame_offset + recipe[i].frame_length,
                    ),
                ),
            ),
        recipe_total(recipe) == layer.total_length,
{
    let n = chunks.len() as int;
    let last = skippable_frame(sealed_toc(keys, layer.toc));
    assert forall|i: int| 0 <= i < recipe.len() implies !(#[trigger] recipe[i]).compressed
        && recipe[i].frame_cid@ == hex(
        blake3_hash(
            wire.subrange(
                recipe[i].frame_offset as int,
                recipe[i].frame_offset + recipe[i].frame_length,
            ),
        ),
    ) by {
        if i < n {
            assert(recipe_fits(recipe[i], layer.toc.chunks@[i]));
            assert(entry_fits(keys, chunks, i, layer.toc.chunks@[i]));
            lemma_rest_at(keys, chunks, i, last);
        } else {
            assert(wire.subrange(layer.toc_offset as int, wire.len() as int) =~= last);
        }
    }
    lemma_recipe_total(keys, chunks, layer.toc.chunks@, recipe, n);
    assert(recipe.drop_last() =~= recipe.take(n));
    assert(chunks.take(0) =~= Seq::<Seq<u8>>::empty());
    assert(chunks.take(n) =~= chunks);
    assert forall|i: int| 0 <= i < recipe.len() - 1 implies #[trigger] recipe[i].frame_offset
        + recipe[i].frame_length == recipe[i + 1].frame_offset by {
        lemma_frames_split(keys, chunks, i);
        assert(recipe_fits(recipe[i], layer.toc.chunks@[i]));
        assert(entry_fits(keys, chunks, i, layer.toc.chunks@[i]));
        if i + 1 < n {
            assert(recipe_fits(recipe[i + 1], layer.toc.chunks@[i + 1]));
            assert(entry_fits(keys, chunks, i + 1, layer.toc.chunks@[i + 1]));
        }
    }
    if n > 0 {
        assert(recipe_fits(recipe[0], layer.toc.chunks@[0]));
        assert(entry_fits(keys, chunks, 0, layer.toc.chunks@[0]));
    }
}

/// An encoded stream is laid out as its table of contents says, so decoding it by the table
/// gives its plaintext back.
pub proof fn law_encoded_stream_is_laid_out(
    keys: Subkeys,
    chunks: Seq<Seq<u8>>,
    wire: Seq<u8>,
    layer: SealedLayer,
)
    requires
        layer_fits(keys, chunks, wire, layer),
        all_readable(keys, chunks),
    ensures
        laid_out(keys, chunks, layer.toc, wire),
{
    let all = frames_of(keys, chunks);
    assert(wire.subrange(0, all.len() as int) =~= all);
}

/// Every frame of an encoded stream stays within the limits of the registry's recipes.
pub proof fn law_frames_stay_within_the_caps(
    keys: Subkeys,
    chunks: Seq<Seq<u8>>,
    wire: Seq<u8>,
    layer: SealedLayer,
    i: int,
)
    requires
        layer_fits(keys, chunks, wire, layer),
        all_readable(keys, chunks),
        0 <= i < layer.toc.chunks@.len(),
    ensures
        layer.toc.chunks@[i].raw_length <= MAX_CHUNK_RAW,
        layer.toc.chunks@[i].frame_length <= MAX_SEALED_FRAME,
        layer.toc.chunks@[i].raw_length <= layer.toc.chunks@[i].frame_length,
{
    law_encoded_stream_is_laid_out(keys, chunks, wire, layer);
    lemma_describes(keys, chunks, layer.toc, wire, i);
    assert(entry_fits(keys, chunks, i, layer.toc.chunks@[i]));
    assert(readable(keys, chunks[i]));
    lemma_raw_blocks_len(sealed_chunk(keys, chunks[i]));
}

/// What follows a run of blocks is not looked at.
proof fn lemma_blocks_prefix(s: Seq<u8>, more: Seq<u8>, at: int, declared: int, got: Seq<u8>)
    requires
        0 <= at,
        read_blocks(s, at, declared, got) is Blocks,
    ensures
        read_blocks(s + more, at, declared, got) == read_blocks(s, at, declared, got),
    decreases s.len() - at,
{
    let t = s + more;
    let header = s[at] + s[at + 1] * 256 + s[at + 2] * 65536;
    let size = header / 8;
    assert(t[at] == s[at] && t[at + 1] == s[at + 1] && t[at + 2] == s[at + 2]);
    assert(t.subrange(at + 3, at + 3 + size) =~= s.subrange(at + 3, at + 3 + size));
    if header % 2 != 1 {
        lemma_blocks_prefix(
            s,
            more,
            at + 3 + size,
            declared,
            got + s.subrange(at + 3, at + 3 + size),
        );
    }
}

/// What follows a frame is not looked at.
proof fn lemma_step_prefix(s: Seq<u8>, more: Seq<u8>, index: int)
    requires
        step_of(s, index) is Frame || step_of(s, index) is Toc,
    ensures
        step_of(s + more, index) == step_of(s, index),
{
    let t = s + more;
    assert(t.subrange(0, 4) =~= s.subrange(0, 4));
    if from_le32(s.subrange(0, 4)) == SKIPPABLE_MAGIC {
        assert(t.subrange(4, 8) =~= s.subrange(4, 8));
        let length = from_le32(s.subrange(4, 8));
        assert(t.subrange(8, 8 + length) =~= s.subrange(8, 8 + length));
    } else {
        assert(t.subrange(5, 9) =~= s.subrange(5, 9));
        assert(t[4] == s[4]);
        lemma_blocks_prefix(s, more, 9, from_le32(s.subrange(5, 9)) as int, Seq::empty());
    }
}

/// A stream that decodes is refused with anything behind it: all of its plaintext comes out, and
/// the bytes that follow are counted.
pub proof fn law_trailing_bytes_are_counted<O: Opener>(
    opener: O,
    hint: usize,
    s: Seq<u8>,
    more: Seq<u8>,
    at: int,
    lengths: Seq<u64>,
    out: Seq<u8>,
)
    requires
        0 <= at <= s.len(),
        sequential(opener, hint, s, at, lengths, out).fault is None,
        more.len() > 0,
    ensures
        sequential(opener, hint, s + more, at, lengths, out) == (Decoded {
            out: sequential(opener, hint, s, at, lengths, out).out,
            fault: Some(StreamFault::TrailingBytes(more.len() as int)),
        }),
    decreases s.len() - at,
{
    let rest = s.skip(at);
    let index = lengths.len() as int;
    assert((s + more).skip(at) =~= rest + more);
    lemma_step_prefix(rest, more, index);
    match step_of(rest, index) {
        Step::Frame(sealed, len) => {
            let chunk = chunk_of(opener.answer(hint, SealContext::Frame, sealed), index)->Ok_0;
            law_trailing_bytes_are_counted(
                opener,
                opener.hint_after(hint, SealContext::Frame, sealed),
                s,
                more,
                at + len,
                lengths.push(sealed.len() as u64),
                out + chunk,
            );
        },
        Step::Toc(sealed, len) => {
            let answer = opener.answer(hint, SealContext::Toc, sealed);
            assert(end_of(answer, lengths, rest.len() - len) is Ok);
            lemma_toc_step_len(rest, index);
            assert(rest.len() - len == 0);
        },
        _ => {},
    }
}

proof fn lemma_toc_step_len(s: Seq<u8>, index: int)
    ensures
        step_of(s, index) matches Step::Toc(_, len) ==> len <= s.len(),
{
}

/// A stream that is cut off before its table of contents lacks it: all of its plaintext comes out,
/// and the stream is refused for that.
pub proof fn law_a_cut_stream_lacks_its_table(
    sealer: Sealer,
    chunks: Seq<Seq<u8>>,
    wire: Seq<u8>,
    layer: SealedLayer,
)
    requires
        layer_fits(sealer@, chunks, wire, layer),
        all_readable(sealer@, chunks),
    ensures
        sequential(sealer, 0, wire.take(layer.toc_offset as int), 0, Seq::empty(), Seq::empty()) == (
        Decoded { out: plain_of(chunks), fault: Some(StreamFault::MissingToc) }),
{
    let keys = sealer@;
    let all = frames_of(keys, chunks);
    let none = Seq::<u8>::empty();
    assert(wire.take(layer.toc_offset as int) =~= all + none);
    lemma_sequential_frames(sealer, chunks, 0, none);
    assert(chunks.take(0) =~= Seq::<Seq<u8>>::empty());
    assert(lengths_of(keys, chunks.take(0)) =~= Seq::<u64>::empty());
    assert((all + none).skip(all.len() as int) =~= none);
}

/// Where the frames of a table of contents up to entry number `k` end, from entry number `i` on.
pub open spec fn cursor_at(entries: Seq<ChunkEntry>, i: int, cursor: int, k: int) -> int
    decreases k - i,
{
    if k <= i {
        cursor
    } else {
        cursor_at(entries, i + 1, cursor + entries[i].frame_length, k)
    }
}

/// Whether entry number `k` is the one that stops a decoding: the entries before it decode without
/// a fault to what came out, and its own frame is refused.
pub open spec fn stops_at(
    keys: Subkeys,
    entries: Seq<ChunkEntry>,
    s: Seq<u8>,
    i: int,
    cursor: int,
    out: Seq<u8>,
    k: int,
) -> bool {
    let decoded = walk(keys, entries, s, i, cursor, out);
    &&& i <= k < entries.len()
    &&& walk(keys, entries.take(k), s, i, cursor, out) == (Decoded {
        out: decoded.out,
        fault: None,
    })
    &&& frame_at(keys, entries[k], s, cursor_at(entries, i, cursor, k), k) matches Err(fault)
        && decoded.fault == Some(fault)
}

/// What has come out by the time that a frame is refused is exactly the plaintext of the frames
/// before it.
pub proof fn law_a_refused_frame_keeps_those_before_it(
    keys: Subkeys,
    entries: Seq<ChunkEntry>,
    s: Seq<u8>,
    i: int,
    cursor: int,
    out: Seq<u8>,
)
    requires
        0 <= i,
        walk(keys, entries, s, i, cursor, out).fault is Some,
    ensures
        exists|k: int| stops_at(keys, entries, s, i, cursor, out, k),
    decreases entries.len() - i,
{
    match frame_at(keys, entries[i], s, cursor, i) {
        Err(_) => {
            assert(walk(keys, entries.take(i), s, i, cursor, out) == (Decoded {
                out,
                fault: None,
            }));
            assert(stops_at(keys, entries, s, i, cursor, out, i));
        },
        Ok(chunk) => {
            let next = cursor + entries[i].frame_length;
            let j = i + 1;
            let more = out + chunk;
            law_a_refused_frame_keeps_those_before_it(keys, entries, s, j, next, more);
            let k = choose|k: int| stops_at(keys, entries, s, j, next, more, k);
            assert(entries.take(k)[i] == entries[i]);
            assert(walk(keys, entries.take(k), s, i, cursor, out) == walk(
                keys,
                entries.take(k),
                s,
                i + 1,
                next,
                out + chunk,
            ));
            assert(cursor_at(entries, i, cursor, k) == cursor_at(entries, i + 1, next, k));
            assert(stops_at(keys, entries, s, i, cursor, out, k));
        },
    }
}

/// The frames that a decoding without a fault has read lie one behind the other within the stream,
/// so that it stands just behind the last of them.
pub proof fn law_decoded_frames_lie_in_a_row(
    keys: Subkeys,
    entries: Seq<ChunkEntry>,
    s: Seq<u8>,
    i: int,
    cursor: int,
    out: Seq<u8>,
    k: int,
)
    requires
        0 <= i <= k < entries.len(),
        walk(keys, entries, s, i, cursor, out).fault is None,
    ensures
        entries[k].frame_offset == cursor_at(entries, i, cursor, k),
        cursor_at(entries, i, cursor, k + 1) == entries[k].frame_offset + entries[k].frame_length,
        entries[k].frame_offset + entries[k].frame_length <= s.len(),
    decreases k - i,
{
    let next = cursor + entries[i].frame_length;
    let chunk = frame_at(keys, entries[i], s, cursor, i)->Ok_0;
    if i < k {
        law_decoded_frames_lie_in_a_row(keys, entries, s, i + 1, next, out + chunk, k);
    } else {
        assert(cursor_at(entries, i + 1, next, k + 1) == next);
    }
}

/// A table is accepted if it is of the one version there is and says of every frame that was read,
/// and of no other, how long its content is.
pub proof fn law_a_table_is_held_to_the_frames(
    version: u32,
    chunks: Seq<ChunkEntry>,
    lengths: Seq<u64>,
)
    ensures
        toc_check(version, chunks, lengths) is Ok <==> {
            &&& version == 1
            &&& chunks.len() == lengths.len()
            &&& forall|i: int|
                0 <= i < chunks.len() ==> (#[trigger] chunks[i]).raw_length as u64 == lengths[i]
        },
{
    lemma_first_difference(chunks, lengths, 0);
}

proof fn lemma_first_difference(chunks: Seq<ChunkEntry>, lengths: Seq<u64>, i: int)
    requires
        0 <= i <= chunks.len(),
    ensures
        i <= first_mismatch(chunks, lengths, i) <= chunks.len(),
        first_mismatch(chunks, lengths, i) == chunks.len() <==> forall|k: int|
            i <= k < chunks.len() ==> (#[trigger] chunks[k]).raw_length as u64 == lengths[k],
    decreases chunks.len() - i,
{
    if i < chunks.len() && chunks[i].raw_length as u64 == lengths[i] {
        lemma_first_difference(chunks, lengths, i + 1);
    }
}

/// A stream ends well if its table opens, is the table of the frames that were read, and nothing
/// follows it.
pub proof fn law_a_stream_ends_with_its_table(
    answer: Result<(Seq<u8>, bool), SealError>,
    lengths: Seq<u64>,
    trailing: int,
)
    ensures
        end_of(answer, lengths, trailing) is Ok ==> {
            &&& trailing <= 0
            &&& answer matches Ok((bytes, _))
            &&& exists|toc: Toc| #[trigger]
                toc.bytes() == bytes && toc.format_version == 1 && toc.chunks@.len()
                    == lengths.len() && forall|i: int|
                    0 <= i < lengths.len() ==> (#[trigger] toc.chunks@[i]).raw_length as u64
                        == lengths[i]
        },
{
    if end_of(answer, lengths, trailing) is Ok {
        let bytes = answer->Ok_0.0;
        let toc = toc_of(bytes)->Ok_0;
        law_a_table_is_held_to_the_frames(toc.format_version, toc.chunks@, lengths);
        assert(toc.bytes() == bytes);
    }
}

/// A chunk is what was sealed, decompressed where it was compressed.
pub proof fn law_a_chunk_is_what_was_sealed(
    answer: Result<(Seq<u8>, bool), SealError>,
    index: int,
)
    ensures
        chunk_of(answer, index) matches Ok(chunk) ==> {
            &&& answer matches Ok((payload, compressed))
            &&& !compressed ==> chunk == payload
            &&& compressed ==> zstd_decompressed(payload, 12 * 1024 * 1024) == Some(chunk)
        },
        answer is Err ==> chunk_of(answer, index) is Err,
        answer matches Ok((_, compressed)) ==> (!compressed ==> chunk_of(answer, index) is Ok),
{
}

/// A frame is read only from where the frames before it end, whole, and only if its bytes have the
/// content id that the table gives and its content is what was sealed.
pub proof fn law_only_the_frame_that_is_described_is_read(
    keys: Subkeys,
    e: ChunkEntry,
    s: Seq<u8>,
    cursor: int,
    index: int,
)
    ensures
        frame_at(keys, e, s, cursor, index) matches Ok(chunk) ==> {
            let frame = s.subrange(e.frame_offset as int, e.frame_offset + e.frame_length);
            &&& e.frame_offset == cursor
            &&& 0 < e.frame_length <= 12587008
            &&& e.frame_offset + e.frame_length <= s.len()
            &&& e.raw_length <= 12 * 1024 * 1024
            &&& blake3_hash(frame) == e.frame_cid@
            &&& inflated(frame, e.raw_length as int) matches InflatedView::Whole(sealed)
            &&& sealed.len() == e.raw_length
            &&& chunk_of(opened_bytes(keys, SealContext::Frame, sealed), index) == Ok::<
                Seq<u8>,
                StreamFault,
            >(chunk)
        },
        e.frame_offset != cursor ==> frame_at(keys, e, s, cursor, index) == Err::<
            Seq<u8>,
            StreamFault,
        >(StreamFault::BadTiling { index }),
{
}

/// A chunk is sealed compressed only where that is worth it, and as it is otherwise.
pub proof fn law_a_chunk_is_sealed_as_it_is_or_compressed(chunk: Seq<u8>, compressed: Seq<u8>)
    ensures
        ({
            let (payload, flag) = payload_with(chunk, compressed);
            &&& flag ==> payload == compressed && compressed.len() + 64 * 1024 <= chunk.len()
            &&& !flag ==> payload == chunk
            &&& flag <==> compressed.len() + 64 * 1024 <= chunk.len() && 20 * (chunk.len()
                - compressed.len()) >= chunk.len()
        }),
{
}

/// A stream is told apart by its first four bytes: the magic of a zstd frame, that of a frame to
/// skip, which is the table, and nothing else.
pub proof fn law_a_stream_is_told_by_its_magic(s: Seq<u8>, index: int)
    requires
        s.len() >= 4,
    ensures
        step_of(s, index) is Toc ==> s.take(4) == seq![0x5eu8, 0x2au8, 0x4du8, 0x18u8],
        step_of(s, index) is Frame ==> s.take(4) == seq![0x28u8, 0xb5u8, 0x2fu8, 0xfdu8],
        s.take(4) != seq![0x5eu8, 0x2au8, 0x4du8, 0x18u8] && s.take(4) != seq![
            0x28u8,
            0xb5u8,
            0x2fu8,
            0xfdu8,
        ] ==> step_of(s, index) is Refuse,
        step_of(s, index) matches Step::Toc(content, len) ==> s.subrange(4, 8) == le32(
            content.len() as u32,
        ) && s.subrange(8, len) == content && len == 8 + content.len(),
{
    let head = s.subrange(0, 4);
    assert(s.take(4) =~= head);
    crate::bytes::lemma_from_le32(head);
    assert(le32(0x184d_2a5eu32) =~= seq![0x5eu8, 0x2au8, 0x4du8, 0x18u8]);
    assert(le32(0xfd2f_b528u32) =~= seq![0x28u8, 0xb5u8, 0x2fu8, 0xfdu8]);
    crate::bytes::lemma_le32(0x184d_2a5eu32);
    crate::bytes::lemma_le32(0xfd2f_b528u32);
    if s.len() >= 8 {
        crate::bytes::lemma_from_le32(s.subrange(4, 8));
    }
}

/// What is cut into pieces that cover it is these pieces, one behind the other.
pub proof fn law_pieces_are_the_whole(source: Seq<u8>, lengths: Seq<usize>)
    requires
        sum(lengths) == source.len(),
    ensures
        plain_of(cut(source, lengths)) == source,
        cut(source, lengths).len() == lengths.len(),
        forall|i: int|
            0 <= i < lengths.len() ==> (#[trigger] cut(source, lengths)[i]).len() == lengths[i],
{
    lemma_pieces_cover(source, lengths, lengths.len() as int);
    assert(lengths.take(lengths.len() as int) =~= lengths);
    assert(cut(source, lengths).take(lengths.len() as int) =~= cut(source, lengths));
    assert(source.take(source.len() as int) =~= source);
    assert forall|i: int| 0 <= i < lengths.len() implies (#[trigger] cut(source, lengths)[i]).len()
        == lengths[i] by {
        lemma_pieces_cover(source, lengths, i + 1);
        lemma_sum_grows(lengths, i + 1);
        assert(lengths.take(i + 1).drop_last() =~= lengths.take(i));
    }
}

proof fn lemma_sum_grows(lengths: Seq<usize>, n: int)
    requires
        0 <= n <= lengths.len(),
    ensures
        sum(lengths.take(n)) <= sum(lengths),
    decreases lengths.len() - n,
{
    if n < lengths.len() {
        lemma_sum_grows(lengths, n + 1);
        assert(lengths.take(n + 1).drop_last() =~= lengths.take(n));
    } else {
        assert(lengths.take(n) =~= lengths);
    }
}

proof fn lemma_pieces_cover(source: Seq<u8>, lengths: Seq<usize>, n: int)
    requires
        0 <= n <= lengths.len(),
        sum(lengths) == source.len(),
    ensures
        plain_of(cut(source, lengths).take(n)) == source.take(sum(lengths.take(n)) as int),
    decreases n,
{
    let pieces = cut(source, lengths);
    lemma_sum_grows(lengths, n);
    if n > 0 {
        lemma_pieces_cover(source, lengths, n - 1);
        lemma_sum_grows(lengths, n - 1);
        assert(pieces.take(n).drop_last() =~= pieces.take(n - 1));
        assert(lengths.take(n).drop_last() =~= lengths.take(n - 1));
        let (a, b) = (sum(lengths.take(n - 1)) as int, sum(lengths.take(n)) as int);
        assert(pieces.take(n).last() == source.subrange(a, b));
        assert(source.take(a) + source.subrange(a, b) =~= source.take(b));
    } else {
        assert(lengths.take(0) =~= Seq::<usize>::empty());
        assert(pieces.take(0) =~= Seq::<Seq<u8>>::empty());
        assert(source.take(0) =~= Seq::<u8>::empty());
    }
}

/// Content is cut where its bytes say, into pieces of 1 MiB and more, 4 MiB on average, and short
/// of 12 MiB.
pub proof fn law_content_is_cut_by_its_bytes(plaintext: Seq<u8>)
    ensures
        chunks_of(plaintext) == cut(
            plaintext,
            fastcdc_lengths(plaintext, 0x10_0000, 0x40_0000, 0xbf_f000),
        ),
        sealed_chunker().min == 1024 * 1024,
        sealed_chunker().avg == 4 * 1024 * 1024,
        sealed_chunker().max == 12 * 1024 * 1024 - 4096,
{
}

/// A stream can be encoded if each of its chunks can be compressed and its table keeps to 16 MiB.
pub proof fn law_what_can_be_encoded(chunks: Seq<Seq<u8>>)
    ensures
        encode_fault(chunks) is None <==> 24 + 53 * chunks.len() <= 16 * 1024 * 1024 && forall|i: int|
            0 <= i < chunks.len() ==> zstd_compressed(#[trigger] chunks[i], 3) is Some,
{
    lemma_first_uncompressed(chunks, 0);
}

proof fn lemma_first_uncompressed(chunks: Seq<Seq<u8>>, i: int)
    requires
        0 <= i <= chunks.len(),
    ensures
        i <= first_uncompressed(chunks, i) <= chunks.len(),
        first_uncompressed(chunks, i) == chunks.len() <==> forall|k: int|
            i <= k < chunks.len() ==> zstd_compressed(#[trigger] chunks[k], 3) is Some,
    decreases chunks.len() - i,
{
    if i < chunks.len() && compressed_chunk(chunks[i]) is Some {
        lemma_first_uncompressed(chunks, i + 1);
    }
}

/// A stream is read under its table from its first frame, if the table is of the one version there
/// is.
pub proof fn law_a_stream_is_read_from_its_first_frame(
    keys: Subkeys,
    toc: Toc,
    s: Seq<u8>,
    out: Seq<u8>,
)
    ensures
        toc.format_version == 1 ==> walk_toc(keys, toc, s, out) == walk(keys, toc.chunks@, s, 0, 0, out),
        toc.format_version != 1 ==> walk_toc(keys, toc, s, out).fault is Some && walk_toc(
            keys,
            toc,
            s,
            out,
        ).out == out,
{
}

} // verus!
