//! Payloads that are stored in frames: the frames, one behind the other, then a table of contents
//! in a frame that decoders skip.

use crate::bytes::{le32, lemma_le32, read_le32, same_bytes};
use crate::chunked::{
    follows, frame_cid, frame_total, raw_frame, skippable_frame, ChunkEntry, ChunkedError, Toc,
    FORMAT_VERSION, MAX_CHUNK_RAW, MAX_TOC_BYTES, SKIPPABLE_MAGIC,
};
use crate::error::{operational, CliError};
use crate::inflate::{inflate, inflated, is_raw_within, Inflated, InflatedView};
use crate::outside::blake3_hash;
use crate::persist::stream::{
    chunked_error_message, chunked_message, digest_bytes, digest_text, plain_of,
};
use crate::registry::blob::{digest_mismatch, verify_digest};
use crate::text::{cat2, cat3, cat4, decimal, decimal_of, owned};
use vstd::prelude::*;

verus! {

/// What is wrong with a payload.
#[derive(Debug, Clone, Copy, PartialEq, Eq)]
pub enum PayloadFault {
    /// It does not have the digest that it was asked for by.
    Digest,
    /// It does not end in a table of contents whose frames cover what comes before it.
    NoTable,
    /// The table of contents asks for what this code does not read.
    Chunked(ChunkedError),
    /// The frame of that number is not the one of the table of contents.
    Cid(usize),
    /// The frame of that number cannot be decoded.
    Decode(usize),
    /// The frame of that number does not hold as much as the table of contents says.
    Length(usize),
}

/// The message about what is wrong with a payload.
pub open spec fn payload_message(
    fault: PayloadFault,
    blob: Seq<u8>,
    digest: Seq<char>,
) -> Seq<char> {
    match fault {
        PayloadFault::Digest => digest_mismatch(digest, digest_text(blob)),
        PayloadFault::NoTable => "chunked payload has no table of contents of its frames"@,
        PayloadFault::Chunked(e) => "chunked payload: "@ + chunked_message(e),
        PayloadFault::Cid(i) => "chunked payload frame "@ + decimal(i as nat)
            + " does not have its content id"@,
        PayloadFault::Decode(i) => "chunked payload frame "@ + decimal(i as nat)
            + " cannot be decoded"@,
        PayloadFault::Length(i) => "chunked payload frame "@ + decimal(i as nat)
            + " does not hold the declared length"@,
    }
}

impl PayloadFault {
    /// The error of a payload of which this is wrong.
    fn into_error(self, blob: &[u8], digest: &str) -> (r: CliError)
        ensures
            r@ == operational(payload_message(self, blob@, digest@)),
    {
        let message = match self {
            PayloadFault::Digest => cat4(
                "blob digest mismatch: expected ",
                digest,
                ", got ",
                digest_bytes(blob).as_str(),
            ),
            PayloadFault::NoTable => owned(
                "chunked payload has no table of contents of its frames",
            ),
            PayloadFault::Chunked(e) => cat2(
                "chunked payload: ",
                chunked_error_message(&e).as_str(),
            ),
            PayloadFault::Cid(i) => cat3(
                "chunked payload frame ",
                decimal_of(i as u64).as_str(),
                " does not have its content id",
            ),
            PayloadFault::Decode(i) => cat3(
                "chunked payload frame ",
                decimal_of(i as u64).as_str(),
                " cannot be decoded",
            ),
            PayloadFault::Length(i) => cat3(
                "chunked payload frame ",
                decimal_of(i as u64).as_str(),
                " does not hold the declared length",
            ),
        };
        CliError::Operational(message)
    }
}

// ---------------------------------------------------------------------------
// The table of contents
// ---------------------------------------------------------------------------

/// Whether the frames of a table of contents lie end to end from the first byte to `end`.
pub open spec fn tiles(chunks: Seq<ChunkEntry>, end: int) -> bool {
    &&& forall|i: int| 0 <= i < chunks.len() ==> #[trigger] follows(chunks, i)
    &&& frame_total(chunks) == end
}

/// Whether a blob ends in a table of contents that begins at `at` and covers what comes before.
pub open spec fn is_table(blob: Seq<u8>, at: int, toc: Toc) -> bool {
    &&& 0 <= at <= blob.len()
    &&& toc.chunks@.len() <= u32::MAX
    &&& toc.bytes().len() <= MAX_TOC_BYTES
    &&& blob.skip(at) == skippable_frame(toc.bytes())
    &&& tiles(toc.chunks@, at)
}

/// Whether some table of contents begins there.
pub open spec fn has_table(blob: Seq<u8>, at: int) -> bool {
    exists|toc: Toc| #[trigger] is_table(blob, at, toc)
}

/// The first place at or behind `at` where a table of contents begins, or the end of the blob.
pub open spec fn table_from(blob: Seq<u8>, at: int) -> int
    decreases blob.len() - at,
{
    if at >= blob.len() {
        blob.len() as int
    } else if has_table(blob, at) {
        at
    } else {
        table_from(blob, at + 1)
    }
}

/// Reads the table of contents that begins at a place, if one does.
fn read_table(blob: &[u8], at: usize) -> (r: Option<Toc>)
    requires
        at < blob@.len(),
    ensures
        match r {
            Some(toc) => is_table(blob@, at as int, toc),
            None => !has_table(blob@, at as int),
        },
{
    let ghost rest = blob@.skip(at as int);
    proof {
        assert forall|toc: Toc| #[trigger] is_table(blob@, at as int, toc) implies rest.len() >= 8
            && from_head(rest, 0) == SKIPPABLE_MAGIC && from_head(rest, 4) == rest.len() - 8
            && rest.skip(8) == toc.bytes() by {
            lemma_skippable(toc.bytes());
        }
    }
    if blob.len() - at < 8 {
        return None;
    }
    let magic = read_le32(blob, at);
    let len = read_le32(blob, at + 4);
    proof {
        assert(blob@.subrange(at as int, at + 4) =~= rest.subrange(0, 4));
        assert(blob@.subrange(at + 4, at + 8) =~= rest.subrange(4, 8));
    }
    if magic != SKIPPABLE_MAGIC || len as usize != blob.len() - at - 8 {
        return None;
    }
    let bytes = vstd::slice::slice_subrange(blob, at + 8, blob.len());
    assert(bytes@ =~= rest.skip(8));
    match Toc::decode(bytes) {
        Err(_) => None,
        Ok(toc) => {
            proof {
                assert forall|other: Toc| #[trigger]
                    is_table(blob@, at as int, other) implies other.chunks@ == toc.chunks@ by {
                    crate::chunked::law_toc_encoding_is_injective(other, toc);
                }
                crate::bytes::lemma_from_le32(rest.subrange(0, 4));
                crate::bytes::lemma_from_le32(rest.subrange(4, 8));
                assert(rest =~= skippable_frame(toc.bytes()));
            }
            match toc.validate_tiling(at as u64) {
                Err(_) => None,
                Ok(_) => Some(toc),
            }
        },
    }
}

/// The number that the four bytes at a place write.
spec fn from_head(s: Seq<u8>, at: int) -> u32 {
    crate::bytes::from_le32(s.subrange(at, at + 4))
}

proof fn lemma_skippable(bytes: Seq<u8>)
    requires
        bytes.len() <= u32::MAX,
    ensures
        skippable_frame(bytes).len() == bytes.len() + 8,
        from_head(skippable_frame(bytes), 0) == SKIPPABLE_MAGIC,
        from_head(skippable_frame(bytes), 4) == bytes.len(),
        skippable_frame(bytes).skip(8) == bytes,
{
    let frame = skippable_frame(bytes);
    lemma_le32(SKIPPABLE_MAGIC);
    lemma_le32(bytes.len() as u32);
    assert(frame.subrange(0, 4) =~= le32(SKIPPABLE_MAGIC));
    assert(frame.subrange(4, 8) =~= le32(bytes.len() as u32));
    assert(frame.skip(8) =~= bytes);
}

/// Finds the table of contents that a blob ends in: where it begins, and what it says.
fn find_table(blob: &[u8]) -> (r: Option<(usize, Toc)>)
    ensures
        match r {
            Some((at, toc)) => at == table_from(blob@, 0) && at < blob@.len() && is_table(
                blob@,
                at as int,
                toc,
            ),
            None => table_from(blob@, 0) == blob@.len(),
        },
{
    for at in 0..blob.len()
        invariant
            table_from(blob@, 0) == table_from(blob@, at as int),
    {
        match read_table(blob, at) {
            Some(toc) => {
                return Some((at, toc));
            },
            None => {},
        }
    }
    None
}

// ---------------------------------------------------------------------------
// The frames
// ---------------------------------------------------------------------------

/// The bytes of a frame.
pub open spec fn frame_bytes(blob: Seq<u8>, e: ChunkEntry) -> Seq<u8> {
    blob.subrange(e.frame_offset as int, e.frame_offset + e.frame_length)
}

/// What one frame comes to. Its content id is checked before it is decoded.
pub open spec fn frame_payload(frame: Seq<u8>, e: ChunkEntry, index: usize) -> Result<
    Seq<u8>,
    PayloadFault,
> {
    if e.raw_length > MAX_CHUNK_RAW {
        Err(PayloadFault::Chunked(ChunkedError::RawLengthTooLarge(e.raw_length)))
    } else if blake3_hash(frame) != e.frame_cid@ {
        Err(PayloadFault::Cid(index))
    } else {
        match inflated(frame, e.raw_length as int) {
            InflatedView::Failed => Err(PayloadFault::Decode(index)),
            InflatedView::Past(_) => Err(PayloadFault::Length(index)),
            InflatedView::Whole(content) => if content.len() == e.raw_length {
                Ok(content)
            } else {
                Err(PayloadFault::Length(index))
            },
        }
    }
}

/// What the frames from `i` on come to, behind those before them.
pub open spec fn frames_payload(
    blob: Seq<u8>,
    chunks: Seq<ChunkEntry>,
    i: int,
    out: Seq<u8>,
) -> Result<Seq<u8>, PayloadFault>
    decreases chunks.len() - i,
{
    if i >= chunks.len() {
        Ok(out)
    } else {
        match frame_payload(frame_bytes(blob, chunks[i]), chunks[i], i as usize) {
            Err(fault) => Err(fault),
            Ok(content) => frames_payload(blob, chunks, i + 1, out + content),
        }
    }
}

/// What a payload comes to under a table of contents.
pub open spec fn payload_under(blob: Seq<u8>, toc: Toc) -> Result<Seq<u8>, PayloadFault> {
    if toc.format_version != FORMAT_VERSION {
        Err(PayloadFault::Chunked(ChunkedError::UnsupportedVersion(toc.format_version)))
    } else {
        frames_payload(blob, toc.chunks@, 0, Seq::empty())
    }
}

/// What a payload comes to: its digest is checked first, then its table of contents, and each frame
/// before it is decoded.
pub open spec fn payload_of(blob: Seq<u8>, digest: Seq<char>) -> Result<Seq<u8>, PayloadFault> {
    let at = table_from(blob, 0);
    if digest_text(blob) != digest {
        Err(PayloadFault::Digest)
    } else if at >= blob.len() {
        Err(PayloadFault::NoTable)
    } else {
        payload_under(blob, choose|toc: Toc| #[trigger] is_table(blob, at, toc))
    }
}

/// The outcome of decoding, by its bytes.
pub open spec fn content_of(r: Result<Vec<u8>, PayloadFault>) -> Result<Seq<u8>, PayloadFault> {
    match r {
        Ok(content) => Ok(content@),
        Err(fault) => Err(fault),
    }
}

/// Whether the frames of a table of contents are frames of raw blocks that hold these chunks.
pub open spec fn holds_chunks(blob: Seq<u8>, toc: Toc, chunks: Seq<Seq<u8>>) -> bool {
    &&& toc.format_version == FORMAT_VERSION
    &&& toc.chunks@.len() == chunks.len()
    &&& forall|i: int|
        0 <= i < chunks.len() ==> holds_chunk(blob, #[trigger] toc.chunks@[i], chunks[i])
}

/// Whether the frame of an entry is a frame of raw blocks that holds this chunk.
pub open spec fn holds_chunk(blob: Seq<u8>, e: ChunkEntry, chunk: Seq<u8>) -> bool {
    &&& frame_bytes(blob, e) == raw_frame(chunk)
    &&& e.frame_cid@ == blake3_hash(raw_frame(chunk))
    &&& e.raw_length == chunk.len() <= MAX_CHUNK_RAW
}

/// Checks and decodes one frame.
fn decode_payload_frame(frame: &[u8], e: &ChunkEntry, index: usize) -> (r: Result<
    Vec<u8>,
    PayloadFault,
>)
    ensures
        content_of(r) == frame_payload(frame@, *e, index),
        forall|chunk: Seq<u8>|
            frame@ == #[trigger] raw_frame(chunk) && e.frame_cid@ == blake3_hash(frame@)
                && e.raw_length == chunk.len() <= MAX_CHUNK_RAW ==> content_of(r) == Ok::<
                Seq<u8>,
                PayloadFault,
            >(chunk),
{
    proof {
        vstd::arithmetic::power2::lemma2_to64();
        assert(vstd::arithmetic::power2::pow2(24) == 16777216);
        assert forall|chunk: Seq<u8>|
            frame@ == #[trigger] raw_frame(chunk) && e.raw_length == chunk.len()
                <= MAX_CHUNK_RAW implies is_raw_within(frame@, chunk, e.raw_length as int) by {}
    }
    if e.raw_length as usize > MAX_CHUNK_RAW {
        return Err(PayloadFault::Chunked(ChunkedError::RawLengthTooLarge(e.raw_length)));
    }
    let cid = frame_cid(frame);
    if !same_bytes(cid.as_slice(), e.frame_cid.as_slice()) {
        return Err(PayloadFault::Cid(index));
    }
    match inflate(frame, e.raw_length) {
        Inflated::Failed(_) => Err(PayloadFault::Decode(index)),
        Inflated::Past(_) => Err(PayloadFault::Length(index)),
        Inflated::Whole(content) => if content.len() == e.raw_length as usize {
            Ok(content)
        } else {
            Err(PayloadFault::Length(index))
        },
    }
}

/// Checks and decodes the frames of a table of contents.
fn decode_under(blob: &[u8], toc: &Toc) -> (r: Result<Vec<u8>, PayloadFault>)
    requires
        tiles(toc.chunks@, frame_total(toc.chunks@)),
        frame_total(toc.chunks@) <= blob@.len(),
    ensures
        content_of(r) == payload_under(blob@, *toc),
        forall|chunks: Seq<Seq<u8>>| #[trigger]
            holds_chunks(blob@, *toc, chunks) ==> content_of(r) == Ok::<Seq<u8>, PayloadFault>(
                plain_of(chunks),
            ),
{
    if toc.format_version != FORMAT_VERSION {
        return Err(PayloadFault::Chunked(ChunkedError::UnsupportedVersion(toc.format_version)));
    }
    let mut out: Vec<u8> = Vec::new();
    for i in 0..toc.chunks.len()
        invariant
            tiles(toc.chunks@, frame_total(toc.chunks@)),
            frame_total(toc.chunks@) <= blob@.len(),
            blob@.len() == blob.len(),
            toc.format_version == FORMAT_VERSION,
            frames_payload(blob@, toc.chunks@, i as int, out@) == frames_payload(
                blob@,
                toc.chunks@,
                0,
                Seq::empty(),
            ),
            forall|chunks: Seq<Seq<u8>>| #[trigger]
                holds_chunks(blob@, *toc, chunks) ==> out@ == plain_of(chunks.take(i as int)),
    {
        let e = toc.chunks[i];
        proof {
            assert(follows(toc.chunks@, i as int));
            lemma_frame_lies_within(toc.chunks@, i as int);
        }
        let frame = vstd::slice::slice_subrange(
            blob,
            e.frame_offset as usize,
            (e.frame_offset + e.frame_length) as usize,
        );
        assert(frame@ == frame_bytes(blob@, e));
        proof {
            assert forall|chunks: Seq<Seq<u8>>| #[trigger]
                holds_chunks(blob@, *toc, chunks) implies frame@ == raw_frame(chunks[i as int])
                && e.frame_cid@ == blake3_hash(frame@) && e.raw_length == chunks[i as int].len()
                && chunks[i as int].len() <= MAX_CHUNK_RAW by {
                assert(holds_chunk(blob@, toc.chunks@[i as int], chunks[i as int]));
            }
        }
        match decode_payload_frame(frame, &e, i) {
            Err(fault) => {
                return Err(fault);
            },
            Ok(mut content) => {
                let ghost piece = content@;
                out.append(&mut content);
                proof {
                    assert forall|chunks: Seq<Seq<u8>>| #[trigger]
                        holds_chunks(blob@, *toc, chunks) implies out@ == plain_of(
                        chunks.take(i + 1),
                    ) by {
                        assert(piece == chunks[i as int]);
                        assert(chunks.take(i + 1).drop_last() =~= chunks.take(i as int));
                        assert(chunks.take(i + 1).last() == chunks[i as int]);
                    }
                }
            },
        }
    }
    proof {
        assert forall|chunks: Seq<Seq<u8>>| #[trigger]
            holds_chunks(blob@, *toc, chunks) implies out@ == plain_of(chunks) by {
            assert(chunks.take(chunks.len() as int) =~= chunks);
        }
    }
    Ok(out)
}

/// Decodes a payload that is stored in frames. Its digest and its table of contents are checked
/// before anything is decoded. Where the frames are frames of raw blocks, the chunks that they hold
/// come back, one behind the other.
pub fn decode_chunked_payload(blob: &[u8], digest: &str) -> (r: Result<Vec<u8>, CliError>)
    ensures
        match payload_of(blob@, digest@) {
            Ok(content) => r matches Ok(v) && v@ == content,
            Err(fault) => r matches Err(e) && e@ == operational(
                payload_message(fault, blob@, digest@),
            ),
        },
        forall|toc: Toc, chunks: Seq<Seq<u8>>|
            #![trigger holds_chunks(blob@, toc, chunks)]
            digest_text(blob@) == digest@ && table_from(blob@, 0) < blob@.len() && is_table(
                blob@,
                table_from(blob@, 0),
                toc,
            ) && holds_chunks(blob@, toc, chunks) ==> (r matches Ok(content) && content@
                == plain_of(chunks)),
{
    match verify_digest(blob, digest) {
        Err(_) => {
            return Err(PayloadFault::Digest.into_error(blob, digest));
        },
        Ok(()) => {},
    }
    let (at, toc) = match find_table(blob) {
        None => {
            return Err(PayloadFault::NoTable.into_error(blob, digest));
        },
        Some(found) => found,
    };
    proof {
        assert forall|other: Toc| #[trigger] is_table(blob@, at as int, other) implies other.chunks@
            == toc.chunks@ && other.format_version == toc.format_version by {
            lemma_skippable(toc.bytes());
            lemma_skippable(other.bytes());
            crate::chunked::law_toc_encoding_is_injective(other, toc);
        }
        let chosen = choose|toc: Toc| #[trigger] is_table(blob@, at as int, toc);
        assert(is_table(blob@, at as int, chosen));
        assert(payload_under(blob@, chosen) == payload_under(blob@, toc));
        assert forall|other: Toc, chunks: Seq<Seq<u8>>|
            #![trigger holds_chunks(blob@, other, chunks)]
            is_table(blob@, at as int, other) && holds_chunks(
                blob@,
                other,
                chunks,
            ) implies holds_chunks(blob@, toc, chunks) by {
            assert forall|i: int| 0 <= i < chunks.len() implies holds_chunk(
                blob@,
                #[trigger] toc.chunks@[i],
                chunks[i],
            ) by {
                assert(holds_chunk(blob@, other.chunks@[i], chunks[i]));
            }
        }
    }
    match decode_under(blob, &toc) {
        Err(fault) => Err(fault.into_error(blob, digest)),
        Ok(content) => Ok(content),
    }
}

/// A frame of a table of contents lies before the end of the frames.
proof fn lemma_frame_lies_within(chunks: Seq<ChunkEntry>, i: int)
    requires
        0 <= i < chunks.len(),
        follows(chunks, i),
    ensures
        chunks[i].frame_offset + chunks[i].frame_length <= frame_total(chunks),
{
    assert(chunks.take(i + 1).drop_last() =~= chunks.take(i));
    lemma_frames_grow(chunks, i + 1);
}

proof fn lemma_frames_grow(chunks: Seq<ChunkEntry>, n: int)
    requires
        0 <= n <= chunks.len(),
    ensures
        frame_total(chunks.take(n)) <= frame_total(chunks),
    decreases chunks.len() - n,
{
    if n < chunks.len() {
        lemma_frames_grow(chunks, n + 1);
        assert(chunks.take(n + 1).drop_last() =~= chunks.take(n));
    } else {
        assert(chunks.take(n) =~= chunks);
    }
}

/// A frame is taken if its bytes have the content id that the table gives, decode, and hold the
/// length that the table gives, of at most 12 MiB; and what is taken is what they decode to.
pub proof fn law_a_frame_is_held_to_its_table(frame: Seq<u8>, e: ChunkEntry, index: usize)
    ensures
        frame_payload(frame, e, index) is Ok <==> {
            &&& e.raw_length <= 12 * 1024 * 1024
            &&& blake3_hash(frame) == e.frame_cid@
            &&& inflated(frame, e.raw_length as int) matches InflatedView::Whole(content)
            &&& content.len() == e.raw_length
        },
        frame_payload(frame, e, index) matches Ok(content) ==> inflated(frame, e.raw_length as int)
            == InflatedView::Whole(content),
{
}

/// A payload is what its frames hold, one behind the other, and is as long as the table says of
/// them all together. It fails where any of them does.
pub proof fn law_a_payload_is_its_frames(
    blob: Seq<u8>,
    chunks: Seq<ChunkEntry>,
    i: int,
    k: int,
    out: Seq<u8>,
)
    requires
        0 <= i <= k < chunks.len(),
    ensures
        frames_payload(blob, chunks, i, out) matches Ok(all) ==> {
            &&& out.is_prefix_of(all)
            &&& frame_payload(
                blob.subrange(
                    chunks[k].frame_offset as int,
                    chunks[k].frame_offset + chunks[k].frame_length,
                ),
                chunks[k],
                k as usize,
            ) matches Ok(content)
            &&& exists|at: int|
                out.len() <= at && at + content.len() <= all.len() && #[trigger] all.subrange(
                    at,
                    at + content.len(),
                ) == content
        },
    decreases chunks.len() - i,
{
    if frames_payload(blob, chunks, i, out) is Ok {
        let all = frames_payload(blob, chunks, i, out)->Ok_0;
        let content = frame_payload(frame_bytes(blob, chunks[i]), chunks[i], i as usize)->Ok_0;
        let more = out + content;
        lemma_more_goes_on(blob, chunks, i + 1, more);
        assert(more.is_prefix_of(all));
        assert(out =~= more.take(out.len() as int));
        assert(out =~= all.take(out.len() as int));
        if k == i {
            let at = out.len() as int;
            assert(all.subrange(at, at + content.len()) =~= more.subrange(
                at,
                at + content.len(),
            )) by {
                assert(more =~= all.take(more.len() as int));
            }
            assert(more.subrange(at, at + content.len()) =~= content);
        } else {
            law_a_payload_is_its_frames(blob, chunks, i + 1, k, more);
        }
    }
}

proof fn lemma_more_goes_on(blob: Seq<u8>, chunks: Seq<ChunkEntry>, i: int, out: Seq<u8>)
    requires
        0 <= i,
    ensures
        frames_payload(blob, chunks, i, out) matches Ok(all) ==> out.is_prefix_of(all),
    decreases chunks.len() - i,
{
    if i < chunks.len() && frames_payload(blob, chunks, i, out) is Ok {
        let content = frame_payload(frame_bytes(blob, chunks[i]), chunks[i], i as usize)->Ok_0;
        let all = frames_payload(blob, chunks, i, out)->Ok_0;
        lemma_more_goes_on(blob, chunks, i + 1, out + content);
        assert(out =~= (out + content).take(out.len() as int));
        assert(out =~= all.take(out.len() as int));
    } else {
        assert(out =~= out.take(out.len() as int));
    }
}

/// A payload of another digest than the one it was asked for by is never taken, and neither is one
/// without a table or with a table of another version.
pub proof fn law_a_payload_has_its_digest(blob: Seq<u8>, digest: Seq<char>, toc: Toc)
    ensures
        payload_of(blob, digest) is Ok ==> digest == "sha256:"@ + crate::text::hex(
            crate::outside::sha256(blob),
        ),
        payload_under(blob, toc) is Ok ==> toc.format_version == 1,
        toc.format_version == 1 ==> payload_under(blob, toc) == frames_payload(
            blob,
            toc.chunks@,
            0,
            Seq::empty(),
        ),
{
}

/// The table of a payload is the first there is in it.
pub proof fn law_the_first_table_counts(blob: Seq<u8>, at: int)
    requires
        0 <= at <= blob.len(),
    ensures
        at <= table_from(blob, at) <= blob.len(),
        table_from(blob, at) < blob.len() ==> has_table(blob, table_from(blob, at)),
        forall|k: int| at <= k < table_from(blob, at) ==> !(#[trigger] has_table(blob, k)),
    decreases blob.len() - at,
{
    if at < blob.len() && !has_table(blob, at) {
        law_the_first_table_counts(blob, at + 1);
    }
}

/// The frames of a table lie one behind the other, from the beginning of the payload to the table
/// itself.
pub proof fn law_a_table_tiles_its_payload(blob: Seq<u8>, at: int, toc: Toc, i: int)
    requires
        is_table(blob, at, toc),
        0 <= i < toc.chunks@.len(),
    ensures
        toc.chunks@[0].frame_offset == 0,
        i + 1 < toc.chunks@.len() ==> toc.chunks@[i].frame_offset + toc.chunks@[i].frame_length
            == toc.chunks@[i + 1].frame_offset,
        i + 1 == toc.chunks@.len() ==> toc.chunks@[i].frame_offset + toc.chunks@[i].frame_length
            == at,
        blob.skip(at) == skippable_frame(toc.bytes()),
{
    let chunks = toc.chunks@;
    assert(follows(chunks, 0));
    assert(chunks.take(0) =~= Seq::<ChunkEntry>::empty());
    assert(follows(chunks, i));
    assert(chunks.take(i + 1).drop_last() =~= chunks.take(i));
    assert(chunks.take(i + 1).last() == chunks[i]);
    if i + 1 < chunks.len() {
        assert(follows(chunks, i + 1));
    } else {
        assert(chunks.take(i + 1) =~= chunks);
    }
}

/// A payload holds some chunks if its table is of the one version there is and gives each of them,
/// in their order, where it is, its content id and its length.
pub proof fn law_a_payload_holds_each_chunk(
    blob: Seq<u8>,
    toc: Toc,
    chunks: Seq<Seq<u8>>,
    i: int,
)
    requires
        holds_chunks(blob, toc, chunks),
        0 <= i < chunks.len(),
    ensures
        toc.format_version == 1,
        toc.chunks@.len() == chunks.len(),
        ({
            let e = toc.chunks@[i];
            let frame = blob.subrange(e.frame_offset as int, e.frame_offset + e.frame_length);
            &&& frame == raw_frame(chunks[i])
            &&& e.frame_cid@ == blake3_hash(frame)
            &&& e.raw_length == chunks[i].len()
        }),
{
    assert(holds_chunk(blob, toc.chunks@[i], chunks[i]));
}

} // verus!
