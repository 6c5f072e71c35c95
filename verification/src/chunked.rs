//! The chunked stream format: pinned raw frames, and the table of contents behind them.
//!
//! A stream is a run of zstd frames followed by one skippable frame that carries the table of
//! contents. Every payload frame is written in one fixed layout, so its bytes are a function of
//! its content alone:
//!
//! ```text
//! magic        u32 LE   0xFD2FB528
//! descriptor   u8       0xA0 (single segment, four-byte content size, no checksum)
//! size         u32 LE   content size
//! blocks       [..]     raw blocks of at most 128 KiB: a three-byte header, then the bytes
//! ```

use crate::bytes::{append, append_le32, append_le64, from_le32, from_le64, le32, le64};
use crate::bytes::{lemma_from_le32, lemma_from_le64, lemma_le32, lemma_le64, read_le32, read_le64};
use crate::outside::{blake3_digest, blake3_hash};
use vstd::prelude::*;

verus! {

/// The least length of a content-defined chunk.
pub const FASTCDC_MIN: u32 = 0x0010_0000;

/// The length that content-defined chunks average.
pub const FASTCDC_AVG: u32 = 0x0040_0000;

/// The zstd level that chunks are compressed at.
pub const DEFAULT_ZSTD_LEVEL: i32 = 3;

/// The version of the table of contents that this code writes and reads.
pub const FORMAT_VERSION: u32 = 1;

/// The greatest length of one zstd block.
pub const MAX_BLOCK: usize = 0x2_0000;

/// The greatest content size of one frame.
pub const MAX_CHUNK_RAW: usize = 0x00c0_0000;

/// The greatest length of an encoded table of contents.
pub const MAX_TOC_BYTES: usize = 0x0100_0000;

/// The magic number of a zstd frame.
pub const ZSTD_FRAME_MAGIC: u32 = 0xfd2f_b528;

/// The magic number of the skippable frame that carries a table of contents.
pub const SKIPPABLE_MAGIC: u32 = 0x184d_2a5e;

/// The window limit that frames are decoded under.
pub const WINDOW_LOG_MAX: u32 = 24;

/// The magic number of an encoded table of contents: the letters `OTOC`.
pub const TOC_MAGIC: u32 = 0x434f_544f;

/// The length of the fixed part of an encoded table of contents.
pub const TOC_HEADER_LEN: usize = 24;

/// The length of one encoded entry.
pub const TOC_ENTRY_LEN: usize = 53;

/// A compressed chunk is kept only when it saves this many bytes.
pub const KEEP_SAVED_MIN: usize = 0x1_0000;

/// Errors of the chunked format.
#[derive(Debug, Clone, Copy, PartialEq, Eq)]
pub enum ChunkedError {
    /// The table of contents has a version that this code does not read.
    UnsupportedVersion(u32),
    /// A frame declares more content than a frame may hold.
    RawLengthTooLarge(u32),
    /// The table of contents is longer than it may be.
    TocTooLarge(usize),
    /// The bytes are not a table of contents.
    BadToc,
    /// The entry does not begin where the one before it ends, or the last does not end where
    /// the frames do.
    BadTiling(usize),
}

/// The parameters that chunk boundaries were cut with.
#[derive(Debug, Clone, Copy, PartialEq, Eq)]
pub struct ChunkerParams {
    pub min: u32,
    pub avg: u32,
    pub max: u32,
}

/// One frame of a stream.
#[derive(Debug, Clone, Copy, PartialEq, Eq)]
pub struct ChunkEntry {
    /// The BLAKE3 hash of the frame's bytes.
    pub frame_cid: [u8; 32],
    /// Where the frame begins.
    pub frame_offset: u64,
    /// The length of the frame.
    pub frame_length: u64,
    /// The length of the frame's content.
    pub raw_length: u32,
    /// Whether the frame itself compresses its content.
    pub compressed: bool,
}

/// The table of contents of a stream.
#[derive(Debug, PartialEq, Eq)]
pub struct Toc {
    pub format_version: u32,
    pub chunker: ChunkerParams,
    pub chunks: Vec<ChunkEntry>,
}

impl Clone for Toc {
    fn clone(&self) -> (r: Toc)
        ensures
            r.format_version == self.format_version,
            r.chunker == self.chunker,
            r.chunks@ == self.chunks@,
    {
        let mut chunks: Vec<ChunkEntry> = Vec::new();
        for i in 0..self.chunks.len()
            invariant
                chunks@ == self.chunks@.take(i as int),
        {
            chunks.push(self.chunks[i]);
        }
        assert(self.chunks@.take(self.chunks@.len() as int) =~= self.chunks@);
        Toc { format_version: self.format_version, chunker: self.chunker, chunks }
    }
}

// ---------------------------------------------------------------------------
// Frames
// ---------------------------------------------------------------------------

/// The header of a raw block: the last-block flag, block type 0, and the size, in three bytes.
pub open spec fn block_header(last: bool, size: nat) -> Seq<u8> {
    let h = size * 8 + (if last {
        1nat
    } else {
        0nat
    });
    seq![(h % 256) as u8, (h / 256 % 256) as u8, (h / 65536 % 256) as u8]
}

/// A content in raw blocks: as many full blocks as needed, then one last block.
pub open spec fn raw_blocks(content: Seq<u8>) -> Seq<u8>
    decreases content.len(),
{
    if content.len() <= MAX_BLOCK {
        block_header(true, content.len()) + content
    } else {
        block_header(false, MAX_BLOCK as nat) + content.take(MAX_BLOCK as int) + raw_blocks(
            content.skip(MAX_BLOCK as int),
        )
    }
}

/// The pinned frame of a content.
pub open spec fn raw_frame(content: Seq<u8>) -> Seq<u8> {
    le32(ZSTD_FRAME_MAGIC) + seq![0xA0u8] + le32(content.len() as u32) + raw_blocks(content)
}

/// Whether a content of this size is within a window limit.
pub open spec fn fits_window(size: nat, window_log_max: u32) -> bool {
    10 <= window_log_max <= 30 && size <= vstd::arithmetic::power2::pow2(window_log_max as nat)
}

/// The number of raw blocks that a content takes.
pub open spec fn block_count(size: nat) -> nat {
    if size <= MAX_BLOCK {
        1
    } else {
        (1 + (size - 1) / MAX_BLOCK as int) as nat
    }
}

/// How long the blocks of a content are.
pub proof fn lemma_raw_blocks_len(content: Seq<u8>)
    ensures
        raw_blocks(content).len() == content.len() + 3 * block_count(content.len()),
    decreases content.len(),
{
    if content.len() > MAX_BLOCK {
        let rest = content.skip(MAX_BLOCK as int);
        lemma_raw_blocks_len(rest);
        assert(block_count(content.len()) == 1 + block_count(rest.len())) by {
            let n = content.len() as int;
            let b = MAX_BLOCK as int;
            if rest.len() <= b {
                assert((n - 1) / b == 1) by (nonlinear_arith)
                    requires
                        b < n <= 2 * b,
                        b > 0,
                ;
            } else {
                assert((n - 1) / b == 1 + (n - b - 1) / b) by (nonlinear_arith)
                    requires
                        b > 0,
                        n > b,
                ;
            }
        }
    }
}

/// The pinned frame of a content. Its bytes are a function of the content alone.
pub fn encode_raw_frame(content: &[u8]) -> (r: Vec<u8>)
    requires
        content@.len() <= MAX_CHUNK_RAW,
    ensures
        r@ == raw_frame(content@),
{
    let mut out: Vec<u8> = Vec::new();
    append_le32(&mut out, ZSTD_FRAME_MAGIC);
    out.push(0xA0u8);
    append_le32(&mut out, content.len() as u32);
    let ghost head = le32(ZSTD_FRAME_MAGIC) + seq![0xA0u8] + le32(content@.len() as u32);
    assert(out@ =~= head);
    assert(content@.skip(0) =~= content@);
    let mut at: usize = 0;
    loop
        invariant
            at <= content@.len() == content.len(),
            content@.len() <= MAX_CHUNK_RAW,
            head + raw_blocks(content@) == out@ + raw_blocks(content@.skip(at as int)),
            raw_frame(content@) == head + raw_blocks(content@),
        decreases content@.len() - at,
    {
        let left: usize = content.len() - at;
        let last = left <= MAX_BLOCK;
        let size: usize = if last {
            left
        } else {
            MAX_BLOCK
        };
        let header: u32 = (size as u32) * 8 + (if last {
            1
        } else {
            0
        });
        let ghost rest = content@.skip(at as int);
        let ghost before = out@;
        out.push((header % 256) as u8);
        out.push((header / 256 % 256) as u8);
        out.push((header / 65536 % 256) as u8);
        append(&mut out, vstd::slice::slice_subrange(content, at, at + size));
        proof {
            assert(content@.subrange(at as int, at + size) =~= rest.take(size as int));
            assert(out@ =~= before + block_header(last, size as nat) + rest.take(size as int));
        }
        if last {
            assert(rest.take(size as int) =~= rest);
            assert(out@ =~= before + raw_blocks(rest));
            return out;
        }
        proof {
            assert(rest.skip(size as int) =~= content@.skip(at + size));
            assert(before + raw_blocks(rest) =~= out@ + raw_blocks(content@.skip(at + size)));
        }
        at += size;
    }
}

/// The skippable frame that carries some bytes.
pub open spec fn skippable_frame(bytes: Seq<u8>) -> Seq<u8> {
    le32(SKIPPABLE_MAGIC) + le32(bytes.len() as u32) + bytes
}

/// The skippable frame that carries a table of contents, sealed or not.
pub fn encode_skippable_toc_frame(bytes: &[u8]) -> (r: Vec<u8>)
    requires
        bytes@.len() <= u32::MAX,
    ensures
        r@ == skippable_frame(bytes@),
{
    let mut out: Vec<u8> = Vec::new();
    append_le32(&mut out, SKIPPABLE_MAGIC);
    append_le32(&mut out, bytes.len() as u32);
    append(&mut out, bytes);
    assert(out@ =~= skippable_frame(bytes@));
    out
}

/// The content id of a frame: the BLAKE3 hash of its bytes.
pub fn frame_cid(frame: &[u8]) -> (r: [u8; 32])
    ensures
        r@ == blake3_hash(frame@),
{
    blake3_digest(frame)
}

/// Whether a compressed chunk is worth keeping: it saves at least 64 KiB and at least a
/// twentieth of the chunk.
pub open spec fn worth_keeping(raw: nat, compressed: nat) -> bool {
    compressed + KEEP_SAVED_MIN <= raw && (raw - compressed) * 20 >= raw
}

/// Whether a compressed chunk is worth keeping.
pub fn keeps_compressed(raw: usize, compressed: usize) -> (r: bool)
    ensures
        r == worth_keeping(raw as nat, compressed as nat),
{
    if compressed >= raw || raw - compressed < KEEP_SAVED_MIN {
        return false;
    }
    ((raw - compressed) as u128) * 20 >= raw as u128
}

// ---------------------------------------------------------------------------
// The table of contents
// ---------------------------------------------------------------------------

/// One encoded entry.
pub open spec fn entry_bytes(e: ChunkEntry) -> Seq<u8> {
    e.frame_cid@ + le64(e.frame_offset) + le64(e.frame_length) + le32(e.raw_length) + seq![
        (if e.compressed {
            1u8
        } else {
            0u8
        }),
    ]
}

/// Encoded entries, one behind the other.
pub open spec fn entries_bytes(chunks: Seq<ChunkEntry>) -> Seq<u8> {
    Seq::new(
        chunks.len() * TOC_ENTRY_LEN as nat,
        |i: int| entry_bytes(chunks[i / TOC_ENTRY_LEN as int])[i % TOC_ENTRY_LEN as int],
    )
}

/// The fixed part of an encoded table of contents.
pub open spec fn toc_header(version: u32, chunker: ChunkerParams, count: u32) -> Seq<u8> {
    le32(TOC_MAGIC) + le32(version) + le32(chunker.min) + le32(chunker.avg) + le32(chunker.max)
        + le32(count)
}

/// An encoded table of contents.
pub open spec fn toc_bytes(
    version: u32,
    chunker: ChunkerParams,
    chunks: Seq<ChunkEntry>,
) -> Seq<u8> {
    toc_header(version, chunker, chunks.len() as u32) + entries_bytes(chunks)
}

impl Toc {
    /// What the table encodes to.
    pub open spec fn bytes(self) -> Seq<u8> {
        toc_bytes(self.format_version, self.chunker, self.chunks@)
    }
}

proof fn lemma_entry_len(e: ChunkEntry)
    ensures
        entry_bytes(e).len() == TOC_ENTRY_LEN,
{
}

proof fn lemma_entries_push(chunks: Seq<ChunkEntry>, e: ChunkEntry)
    ensures
        entries_bytes(chunks.push(e)) == entries_bytes(chunks) + entry_bytes(e),
{
    lemma_entry_len(e);
    let n = chunks.len();
    let all = entries_bytes(chunks.push(e));
    let both = entries_bytes(chunks) + entry_bytes(e);
    assert(all.len() == both.len());
    assert forall|i: int| 0 <= i < all.len() implies all[i] == both[i] by {
        if i < n * 53 {
            assert(i / 53 < n);
            assert(chunks.push(e)[i / 53] == chunks[i / 53]);
        } else {
            assert(i / 53 == n);
            assert(i % 53 == i - n * 53);
        }
    }
    assert(all =~= both);
}

/// Where an entry lies among the encoded entries.
proof fn lemma_entries_at(chunks: Seq<ChunkEntry>, k: int)
    requires
        0 <= k < chunks.len(),
    ensures
        (k + 1) * 53 <= entries_bytes(chunks).len(),
        entries_bytes(chunks).subrange(k * 53, (k + 1) * 53) == entry_bytes(chunks[k]),
{
    lemma_entry_len(chunks[k]);
    let s = entries_bytes(chunks).subrange(k * 53, (k + 1) * 53);
    assert forall|i: int| 0 <= i < 53 implies s[i] == entry_bytes(chunks[k])[i] by {
        assert((k * 53 + i) / 53 == k);
        assert((k * 53 + i) % 53 == i);
    }
    assert(s =~= entry_bytes(chunks[k]));
}

/// Different entries encode differently.
proof fn lemma_entry_injective(a: ChunkEntry, b: ChunkEntry)
    requires
        entry_bytes(a) == entry_bytes(b),
    ensures
        a == b,
{
    let s = entry_bytes(a);
    let t = entry_bytes(b);
    assert(s.subrange(0, 32) =~= a.frame_cid@);
    assert(t.subrange(0, 32) =~= b.frame_cid@);
    assert(a.frame_cid =~= b.frame_cid);
    assert(s.subrange(32, 40) =~= le64(a.frame_offset));
    assert(t.subrange(32, 40) =~= le64(b.frame_offset));
    assert(s.subrange(40, 48) =~= le64(a.frame_length));
    assert(t.subrange(40, 48) =~= le64(b.frame_length));
    assert(s.subrange(48, 52) =~= le32(a.raw_length));
    assert(t.subrange(48, 52) =~= le32(b.raw_length));
    assert(s[52] == (if a.compressed {
        1u8
    } else {
        0u8
    }));
    assert(t[52] == (if b.compressed {
        1u8
    } else {
        0u8
    }));
    lemma_le64(a.frame_offset);
    lemma_le64(b.frame_offset);
    lemma_le64(a.frame_length);
    lemma_le64(b.frame_length);
    lemma_le32(a.raw_length);
    lemma_le32(b.raw_length);
}

/// The fields of the fixed part, and the entries behind it.
proof fn lemma_toc_fields(version: u32, chunker: ChunkerParams, chunks: Seq<ChunkEntry>)
    ensures
        ({
            let s = toc_bytes(version, chunker, chunks);
            &&& s.len() == 24 + 53 * chunks.len()
            &&& s.subrange(0, 4) == le32(TOC_MAGIC)
            &&& s.subrange(4, 8) == le32(version)
            &&& s.subrange(8, 12) == le32(chunker.min)
            &&& s.subrange(12, 16) == le32(chunker.avg)
            &&& s.subrange(16, 20) == le32(chunker.max)
            &&& s.subrange(20, 24) == le32(chunks.len() as u32)
            &&& s.subrange(24, s.len() as int) == entries_bytes(chunks)
        }),
{
    let s = toc_bytes(version, chunker, chunks);
    assert(s.subrange(0, 4) =~= le32(TOC_MAGIC));
    assert(s.subrange(4, 8) =~= le32(version));
    assert(s.subrange(8, 12) =~= le32(chunker.min));
    assert(s.subrange(12, 16) =~= le32(chunker.avg));
    assert(s.subrange(16, 20) =~= le32(chunker.max));
    assert(s.subrange(20, 24) =~= le32(chunks.len() as u32));
    assert(s.subrange(24, s.len() as int) =~= entries_bytes(chunks));
}

/// How long an encoded table of contents is.
pub proof fn lemma_toc_len(toc: Toc)
    ensures
        toc.bytes().len() == 24 + 53 * toc.chunks@.len(),
{
    lemma_toc_fields(toc.format_version, toc.chunker, toc.chunks@);
}

/// Different tables of contents encode differently: an encoding stands for one table.
pub proof fn law_toc_encoding_is_injective(a: Toc, b: Toc)
    requires
        a.chunks@.len() <= u32::MAX,
        b.chunks@.len() <= u32::MAX,
        a.bytes() == b.bytes(),
    ensures
        a.format_version == b.format_version,
        a.chunker == b.chunker,
        a.chunks@ == b.chunks@,
{
    lemma_toc_fields(a.format_version, a.chunker, a.chunks@);
    lemma_toc_fields(b.format_version, b.chunker, b.chunks@);
    lemma_le32(a.format_version);
    lemma_le32(b.format_version);
    lemma_le32(a.chunker.min);
    lemma_le32(b.chunker.min);
    lemma_le32(a.chunker.avg);
    lemma_le32(b.chunker.avg);
    lemma_le32(a.chunker.max);
    lemma_le32(b.chunker.max);
    assert forall|k: int| 0 <= k < a.chunks@.len() implies a.chunks@[k] == b.chunks@[k] by {
        lemma_entries_at(a.chunks@, k);
        lemma_entries_at(b.chunks@, k);
        lemma_entry_injective(a.chunks@[k], b.chunks@[k]);
    }
    assert(a.chunks@ =~= b.chunks@);
}

/// Copies 32 bytes into an array.
pub fn array32(s: &[u8], at: usize) -> (r: [u8; 32])
    requires
        at + 32 <= s@.len(),
    ensures
        r@ == s@.subrange(at as int, at + 32),
{
    let mut out: [u8; 32] = [0u8; 32];
    for i in 0..32usize
        invariant
            at + 32 <= s@.len() == s.len(),
            forall|j: int| 0 <= j < i ==> out@[j] == s@[at + j],
    {
        out[i] = s[at + i];
    }
    assert(out@ =~= s@.subrange(at as int, at + 32));
    out
}

/// An entry whose fields are the pieces of some bytes encodes to the bytes.
proof fn lemma_entry_pieces(q: Seq<u8>, e: ChunkEntry)
    requires
        q.len() == 53,
        e.frame_cid@ == q.subrange(0, 32),
        e.frame_offset == from_le64(q.subrange(32, 40)),
        e.frame_length == from_le64(q.subrange(40, 48)),
        e.raw_length == from_le32(q.subrange(48, 52)),
        q[52] == (if e.compressed {
            1u8
        } else {
            0u8
        }),
    ensures
        entry_bytes(e) == q,
{
    lemma_from_le64(q.subrange(32, 40));
    lemma_from_le64(q.subrange(40, 48));
    lemma_from_le32(q.subrange(48, 52));
    assert(q =~= q.subrange(0, 32) + q.subrange(32, 40) + q.subrange(40, 48) + q.subrange(48, 52)
        + seq![q[52]]);
}

fn read_entry(s: &[u8], at: usize) -> (r: Option<ChunkEntry>)
    requires
        at + 53 <= s@.len(),
    ensures
        match r {
            Some(e) => entry_bytes(e) == s@.subrange(at as int, at + 53),
            None => forall|e: ChunkEntry|
                #[trigger] entry_bytes(e) != s@.subrange(at as int, at + 53),
        },
{
    let ghost q = s@.subrange(at as int, at + 53);
    assert(at + 53 <= s.len());
    let flag: u8 = s[at + 52];
    assert(flag == q[52]);
    if flag > 1 {
        assert forall|e: ChunkEntry| #[trigger] entry_bytes(e) != q by {
            assert(entry_bytes(e)[52] <= 1);
        }
        return None;
    }
    let e = ChunkEntry {
        frame_cid: array32(s, at),
        frame_offset: read_le64(s, at + 32),
        frame_length: read_le64(s, at + 40),
        raw_length: read_le32(s, at + 48),
        compressed: flag == 1,
    };
    proof {
        assert(s@.subrange(at as int, at + 32) =~= q.subrange(0, 32));
        assert(s@.subrange(at + 32, at + 40) =~= q.subrange(32, 40));
        assert(s@.subrange(at + 40, at + 48) =~= q.subrange(40, 48));
        assert(s@.subrange(at + 48, at + 52) =~= q.subrange(48, 52));
        lemma_entry_pieces(q, e);
    }
    Some(e)
}

impl Toc {
    /// Encodes the table of contents; one that would be longer than the limit is refused.
    pub fn encode(&self) -> (r: Result<Vec<u8>, ChunkedError>)
        ensures
            match r {
                Ok(out) => self.bytes().len() <= MAX_TOC_BYTES && out@ == self.bytes(),
                Err(e) => self.bytes().len() > MAX_TOC_BYTES && e
                    == ChunkedError::TocTooLarge(MAX_TOC_BYTES),
            },
    {
        proof {
            lemma_toc_fields(self.format_version, self.chunker, self.chunks@);
        }
        if self.chunks.len() > (MAX_TOC_BYTES - TOC_HEADER_LEN) / TOC_ENTRY_LEN {
            return Err(ChunkedError::TocTooLarge(MAX_TOC_BYTES));
        }
        let mut out: Vec<u8> = Vec::new();
        append_le32(&mut out, TOC_MAGIC);
        append_le32(&mut out, self.format_version);
        append_le32(&mut out, self.chunker.min);
        append_le32(&mut out, self.chunker.avg);
        append_le32(&mut out, self.chunker.max);
        append_le32(&mut out, self.chunks.len() as u32);
        let ghost head = toc_header(self.format_version, self.chunker, self.chunks@.len() as u32);
        assert(out@ =~= head);
        assert(entries_bytes(self.chunks@.take(0)) =~= Seq::<u8>::empty());
        for i in 0..self.chunks.len()
            invariant
                out@ == head + entries_bytes(self.chunks@.take(i as int)),
        {
            let e = self.chunks[i];
            let ghost before = out@;
            append(&mut out, e.frame_cid.as_slice());
            append_le64(&mut out, e.frame_offset);
            append_le64(&mut out, e.frame_length);
            append_le32(&mut out, e.raw_length);
            out.push(
                if e.compressed {
                    1u8
                } else {
                    0u8
                },
            );
            proof {
                assert(out@ =~= before + entry_bytes(e));
                lemma_entries_push(self.chunks@.take(i as int), e);
                assert(self.chunks@.take(i + 1) =~= self.chunks@.take(i as int).push(e));
                assert(out@ =~= head + entries_bytes(self.chunks@.take(i + 1)));
            }
        }
        assert(self.chunks@.take(self.chunks@.len() as int) =~= self.chunks@);
        Ok(out)
    }

    /// Decodes a table of contents: the one table that encodes to these bytes, if there is one.
    pub fn decode(bytes: &[u8]) -> (r: Result<Toc, ChunkedError>)
        ensures
            match r {
                Ok(toc) => bytes@.len() <= MAX_TOC_BYTES && toc.bytes() == bytes@
                    && toc.chunks@.len() <= u32::MAX,
                Err(ChunkedError::TocTooLarge(n)) => n == bytes@.len() && n > MAX_TOC_BYTES,
                Err(e) => e == ChunkedError::BadToc && bytes@.len() <= MAX_TOC_BYTES && forall|
                    toc: Toc,
                |
                    toc.chunks@.len() <= u32::MAX ==> #[trigger] toc.bytes() != bytes@,
            },
    {
        if bytes.len() > MAX_TOC_BYTES {
            return Err(ChunkedError::TocTooLarge(bytes.len()));
        }
        if bytes.len() < TOC_HEADER_LEN {
            assert forall|toc: Toc| #[trigger] toc.bytes() != bytes@ by {
                lemma_toc_fields(toc.format_version, toc.chunker, toc.chunks@);
            }
            return Err(ChunkedError::BadToc);
        }
        let magic: u32 = read_le32(bytes, 0);
        let count: u32 = read_le32(bytes, 20);
        if magic != TOC_MAGIC || (bytes.len() - TOC_HEADER_LEN) as u64 != count as u64 * 53 {
            assert forall|toc: Toc| toc.chunks@.len() <= u32::MAX implies #[trigger] toc.bytes()
                != bytes@ by {
                lemma_toc_fields(toc.format_version, toc.chunker, toc.chunks@);
                lemma_le32(TOC_MAGIC);
                lemma_le32(toc.chunks@.len() as u32);
            }
            return Err(ChunkedError::BadToc);
        }
        let version: u32 = read_le32(bytes, 4);
        let chunker = ChunkerParams {
            min: read_le32(bytes, 8),
            avg: read_le32(bytes, 12),
            max: read_le32(bytes, 16),
        };
        let ghost head = toc_header(version, chunker, count);
        proof {
            lemma_from_le32(bytes@.subrange(0, 4));
            lemma_from_le32(bytes@.subrange(4, 8));
            lemma_from_le32(bytes@.subrange(8, 12));
            lemma_from_le32(bytes@.subrange(12, 16));
            lemma_from_le32(bytes@.subrange(16, 20));
            lemma_from_le32(bytes@.subrange(20, 24));
            assert(bytes@.take(24) =~= head);
        }
        let mut chunks: Vec<ChunkEntry> = Vec::new();
        assert(entries_bytes(chunks@) =~= Seq::<u8>::empty());
        assert(head + entries_bytes(chunks@) =~= bytes@.take(24));
        for i in 0..count
            invariant
                bytes@.len() == 24 + 53 * count,
                bytes@.len() == bytes.len(),
                bytes@.len() <= MAX_TOC_BYTES,
                chunks@.len() == i,
                head + entries_bytes(chunks@) == bytes@.take(24 + 53 * i),
        {
            let at: usize = TOC_HEADER_LEN + TOC_ENTRY_LEN * (i as usize);
            match read_entry(bytes, at) {
                Some(e) => {
                    proof {
                        lemma_entries_push(chunks@, e);
                        assert(bytes@.take(24 + 53 * (i + 1)) =~= bytes@.take(24 + 53 * i)
                            + bytes@.subrange(at as int, at + 53));
                        assert(head + entries_bytes(chunks@.push(e)) =~= bytes@.take(
                            24 + 53 * (i + 1),
                        ));
                    }
                    chunks.push(e);
                },
                None => {
                    assert forall|toc: Toc| toc.chunks@.len() <= u32::MAX implies #[trigger] toc.bytes()
                        != bytes@ by {
                        lemma_toc_fields(toc.format_version, toc.chunker, toc.chunks@);
                        if toc.bytes() == bytes@ {
                            lemma_entries_at(toc.chunks@, i as int);
                            assert(entries_bytes(toc.chunks@).subrange(
                                i as int * 53,
                                (i + 1) * 53,
                            ) =~= bytes@.subrange(at as int, at + 53));
                        }
                    }
                    return Err(ChunkedError::BadToc);
                },
            }
        }
        let toc = Toc { format_version: version, chunker, chunks };
        assert(bytes@.take(24 + 53 * count) =~= bytes@);
        Ok(toc)
    }
}

// ---------------------------------------------------------------------------
// Tiling
// ---------------------------------------------------------------------------

/// The lengths of the chunks of a table of contents, added up.
pub open spec fn raw_total(chunks: Seq<ChunkEntry>) -> int
    decreases chunks.len(),
{
    if chunks.len() == 0 {
        0
    } else {
        raw_total(chunks.drop_last()) + chunks.last().raw_length
    }
}

/// The lengths of the frames of a table of contents, added up.
pub open spec fn frame_total(chunks: Seq<ChunkEntry>) -> int
    decreases chunks.len(),
{
    if chunks.len() == 0 {
        0
    } else {
        frame_total(chunks.drop_last()) + chunks.last().frame_length
    }
}

/// Whether an entry begins where the frames before it end, with sums that fit.
pub open spec fn follows(chunks: Seq<ChunkEntry>, i: int) -> bool {
    &&& chunks[i].frame_offset == frame_total(chunks.take(i))
    &&& frame_total(chunks.take(i + 1)) <= u64::MAX
    &&& raw_total(chunks.take(i + 1)) <= u64::MAX
}

impl Toc {
    /// Checks that the frames lie end to end from the first byte to `frames_end`. The length of
    /// all their contents comes back.
    pub fn validate_tiling(&self, frames_end: u64) -> (r: Result<u64, ChunkedError>)
        ensures
            match r {
                Ok(total) => {
                    &&& forall|i: int| 0 <= i < self.chunks@.len() ==> #[trigger] follows(self.chunks@, i)
                    &&& frame_total(self.chunks@) == frames_end
                    &&& total == raw_total(self.chunks@)
                },
                Err(e) => {
                    &&& e matches ChunkedError::BadTiling(at)
                    &&& at <= self.chunks@.len()
                    &&& forall|i: int| 0 <= i < at ==> #[trigger] follows(self.chunks@, i)
                    &&& at < self.chunks@.len() ==> !follows(self.chunks@, at as int)
                    &&& at == self.chunks@.len() ==> frame_total(self.chunks@) != frames_end
                },
            },
    {
        let mut end: u64 = 0;
        let mut total: u64 = 0;
        assert(self.chunks@.take(0) =~= Seq::<ChunkEntry>::empty());
        for i in 0..self.chunks.len()
            invariant
                end == frame_total(self.chunks@.take(i as int)),
                total == raw_total(self.chunks@.take(i as int)),
                forall|j: int| 0 <= j < i ==> #[trigger] follows(self.chunks@, j),
        {
            assert(self.chunks@.take(i + 1).drop_last() =~= self.chunks@.take(i as int));
            let chunk = self.chunks[i];
            if chunk.frame_offset != end {
                assert(!follows(self.chunks@, i as int));
                return Err(ChunkedError::BadTiling(i));
            }
            match (end.checked_add(chunk.frame_length), total.checked_add(chunk.raw_length as u64)) {
                (Some(next), Some(sum)) => {
                    end = next;
                    total = sum;
                    assert(follows(self.chunks@, i as int));
                },
                _ => {
                    assert(!follows(self.chunks@, i as int));
                    return Err(ChunkedError::BadTiling(i));
                },
            }
        }
        assert(self.chunks@.take(self.chunks@.len() as int) =~= self.chunks@);
        if end != frames_end {
            return Err(ChunkedError::BadTiling(self.chunks.len()));
        }
        Ok(total)
    }
}

/// A chunk is kept compressed if that saves both 64 KiB and a twentieth of it, and as it is
/// otherwise.
pub proof fn law_compression_has_to_be_worth_it(raw: nat, compressed: nat)
    ensures
        worth_keeping(raw, compressed) <==> raw >= compressed && raw - compressed >= 64 * 1024 && 20
            * (raw - compressed) >= raw,
        compressed >= raw ==> !worth_keeping(raw, compressed),
{
}

/// A frame is the magic of zstd, one descriptor, the length of its content in four bytes, and its
/// content in blocks as it is; what fits one block is one, behind a header of three bytes that
/// tells its length and that it is the last.
pub proof fn law_a_frame_is_laid_out(content: Seq<u8>)
    requires
        content.len() <= u32::MAX,
    ensures
        raw_frame(content).take(9) == seq![0x28u8, 0xb5u8, 0x2fu8, 0xfdu8, 0xa0u8] + le32(
            content.len() as u32,
        ),
        content.len() <= 128 * 1024 ==> {
            let frame = raw_frame(content);
            &&& frame.len() == 12 + content.len()
            &&& frame[9] + 256 * frame[10] + 65536 * frame[11] == 8 * content.len() + 1
            &&& frame.skip(12) == content
        },
        content.len() > 128 * 1024 ==> {
            let frame = raw_frame(content);
            &&& frame[9] + 256 * frame[10] + 65536 * frame[11] == 8 * 128 * 1024
            &&& frame.subrange(12, 131084) == content.take(131072)
            &&& frame.skip(131084) == raw_blocks(content.skip(131072))
        },
{
    let frame = raw_frame(content);
    let head = le32(0xfd2f_b528u32);
    assert(head =~= seq![0x28u8, 0xb5u8, 0x2fu8, 0xfdu8]);
    assert(frame.take(9) =~= seq![0x28u8, 0xb5u8, 0x2fu8, 0xfdu8, 0xa0u8] + le32(
        content.len() as u32,
    ));
    if content.len() <= 128 * 1024 {
        assert(raw_blocks(content) == block_header(true, content.len()) + content);
        assert(frame.skip(12) =~= content);
    } else {
        assert(frame.subrange(12, 131084) =~= content.take(131072));
        assert(frame.skip(131084) =~= raw_blocks(content.skip(131072)));
    }
}

/// A table of contents travels in a frame that a decoder skips: the magic of such a frame, the
/// length in four bytes, and the bytes.
pub proof fn law_a_skipped_frame_is_laid_out(bytes: Seq<u8>)
    requires
        bytes.len() <= u32::MAX,
    ensures
        skippable_frame(bytes).take(8) == seq![0x5eu8, 0x2au8, 0x4du8, 0x18u8] + le32(
            bytes.len() as u32,
        ),
        skippable_frame(bytes).skip(8) == bytes,
{
    assert(le32(0x184d_2a5eu32) =~= seq![0x5eu8, 0x2au8, 0x4du8, 0x18u8]);
    let frame = skippable_frame(bytes);
    assert(frame.take(8) =~= seq![0x5eu8, 0x2au8, 0x4du8, 0x18u8] + le32(bytes.len() as u32));
    assert(frame.skip(8) =~= bytes);
}

/// A table of contents is its magic, its version, how the content was cut and how many frames there
/// are, and for each frame its content id, where it is, how long it is there and how long its
/// content is, and whether that is compressed.
pub proof fn law_a_table_is_laid_out(toc: Toc, i: int)
    requires
        0 <= i < toc.chunks@.len() <= u32::MAX,
    ensures
        ({
            let bytes = toc.bytes();
            let e = toc.chunks@[i];
            let at = 24 + 53 * i;
            &&& bytes.len() == 24 + 53 * toc.chunks@.len()
            &&& bytes.take(4) == seq![0x4fu8, 0x54u8, 0x4fu8, 0x43u8]
            &&& bytes.subrange(4, 8) == le32(toc.format_version)
            &&& bytes.subrange(8, 12) == le32(toc.chunker.min)
            &&& bytes.subrange(12, 16) == le32(toc.chunker.avg)
            &&& bytes.subrange(16, 20) == le32(toc.chunker.max)
            &&& bytes.subrange(20, 24) == le32(toc.chunks@.len() as u32)
            &&& bytes.subrange(at, at + 32) == e.frame_cid@
            &&& bytes.subrange(at + 32, at + 40) == le64(e.frame_offset)
            &&& bytes.subrange(at + 40, at + 48) == le64(e.frame_length)
            &&& bytes.subrange(at + 48, at + 52) == le32(e.raw_length)
            &&& bytes[at + 52] == (if e.compressed {
                1u8
            } else {
                0u8
            })
        }),
{
    let bytes = toc.bytes();
    let e = toc.chunks@[i];
    let at = 24 + 53 * i;
    assert(le32(0x434f_544fu32) =~= seq![0x4fu8, 0x54u8, 0x4fu8, 0x43u8]);
    assert(bytes.take(4) =~= seq![0x4fu8, 0x54u8, 0x4fu8, 0x43u8]);
    assert(bytes.subrange(4, 8) =~= le32(toc.format_version));
    assert(bytes.subrange(8, 12) =~= le32(toc.chunker.min));
    assert(bytes.subrange(12, 16) =~= le32(toc.chunker.avg));
    assert(bytes.subrange(16, 20) =~= le32(toc.chunker.max));
    assert(bytes.subrange(20, 24) =~= le32(toc.chunks@.len() as u32));
    let line = entry_bytes(e);
    assert(line.len() == 53);
    assert forall|k: int| 0 <= k < 53 implies #[trigger] bytes[at + k] == line[k] by {
        let j = 53 * i + k;
        assert(j / 53 == i && j % 53 == k) by (nonlinear_arith)
            requires
                j == 53 * i + k,
                0 <= k < 53,
        ;
        assert(bytes[24 + j] == entries_bytes(toc.chunks@)[j]);
    }
    assert(bytes.subrange(at, at + 53) =~= line);
    assert(bytes.subrange(at, at + 32) =~= line.take(32));
    assert(line.take(32) =~= e.frame_cid@);
    assert(bytes.subrange(at + 32, at + 40) =~= line.subrange(32, 40));
    assert(line.subrange(32, 40) =~= le64(e.frame_offset));
    assert(bytes.subrange(at + 40, at + 48) =~= line.subrange(40, 48));
    assert(line.subrange(40, 48) =~= le64(e.frame_length));
    assert(bytes.subrange(at + 48, at + 52) =~= line.subrange(48, 52));
    assert(line.subrange(48, 52) =~= le32(e.raw_length));
    assert(bytes[at + 52] == line[52]);
}

/// The lengths of some frames add up, those of their content and those that they have in the
/// stream.
pub proof fn law_lengths_add_up(a: Seq<ChunkEntry>, b: Seq<ChunkEntry>, e: ChunkEntry)
    ensures
        raw_total(a + b) == raw_total(a) + raw_total(b),
        frame_total(a + b) == frame_total(a) + frame_total(b),
        raw_total(seq![e]) == e.raw_length,
        frame_total(seq![e]) == e.frame_length,
    decreases b.len(),
{
    let none = Seq::<ChunkEntry>::empty();
    assert(seq![e].drop_last() =~= none);
    assert(raw_total(none) == 0 && frame_total(none) == 0);
    if b.len() == 0 {
        assert(a + b =~= a);
    } else {
        law_lengths_add_up(a, b.drop_last(), e);
        assert((a + b).drop_last() =~= a + b.drop_last());
        assert((a + b).last() == b.last());
    }
}

} // verus!
