//! Uploading a layer frame by frame: the registry is told what the layer is made of, and only what
//! it misses is sent.

use crate::chunked::{frame_cid, raw_total, ChunkEntry, Toc};
use crate::error::{operational, CliError, ErrorView};
use crate::outside::blake3_hash;
use crate::persist::stream::SealedRecipeEntry;
use crate::persist::upload::{push_record, record, Reply};
use crate::registry::status::Status;
use crate::text::{
    cat2, cat3, chars_of, decimal, decimal_of, hex, hex_of, owned, parse_number, parsed_u64, trim,
    trimmed,
};
use vstd::prelude::*;

verus! {

/// What a registry says about uploading frame by frame.
#[derive(Debug, Clone, Copy, PartialEq, Eq, Structural)]
pub struct ChunkedCapabilities {
    pub chunked_upload_version: u32,
    pub max_toc_entries: usize,
    pub max_frame_bytes: u64,
}

/// What came of storing a layer.
#[derive(Debug, Clone, Copy, PartialEq, Eq, Structural)]
pub struct ChunkedPushOutcome {
    /// Whether it was sent frame by frame.
    pub negotiated: bool,
    /// The frames that were sent.
    pub frames_uploaded: usize,
    /// The frames of the layer, that of the table of contents among them.
    pub frames_total: usize,
}

/// What came of storing a layer: sent frame by frame, or else whole.
pub fn push_outcome(uploaded: Option<usize>, total: usize) -> (r: ChunkedPushOutcome)
    ensures
        r == match uploaded {
            Some(n) => ChunkedPushOutcome {
                negotiated: true,
                frames_uploaded: n,
                frames_total: total,
            },
            None => ChunkedPushOutcome {
                negotiated: false,
                frames_uploaded: total,
                frames_total: total,
            },
        },
{
    match uploaded {
        Some(n) => ChunkedPushOutcome { negotiated: true, frames_uploaded: n, frames_total: total },
        None => ChunkedPushOutcome {
            negotiated: false,
            frames_uploaded: total,
            frames_total: total,
        },
    }
}

// ---------------------------------------------------------------------------
// Frames
// ---------------------------------------------------------------------------

/// One frame of a layer's stream.
#[derive(Debug, Clone, Copy, PartialEq, Eq)]
pub struct WireFrame {
    pub cid: [u8; 32],
    pub offset: u64,
    pub length: u64,
    pub raw_length: u32,
    pub compressed: bool,
}

/// Whether a frame is the one of an entry of the table of contents.
pub open spec fn frame_fits(f: WireFrame, e: ChunkEntry) -> bool {
    &&& f.cid@ == e.frame_cid@
    &&& f.offset == e.frame_offset
    &&& f.length == e.frame_length
    &&& f.raw_length == e.raw_length
    &&& f.compressed == e.compressed
}

/// Where the last frame of a table of contents ends.
pub open spec fn region_end(chunks: Seq<ChunkEntry>) -> int {
    if chunks.len() == 0 {
        0
    } else {
        chunks.last().frame_offset + chunks.last().frame_length
    }
}

/// What follows the last frame of a table of contents: the frame of the table itself.
pub open spec fn toc_part(blob: Seq<u8>, chunks: Seq<ChunkEntry>) -> Seq<u8> {
    if region_end(chunks) < blob.len() {
        blob.skip(region_end(chunks))
    } else {
        Seq::empty()
    }
}

/// The frames of a layer: those of the table of contents, then the one that carries it.
pub fn wire_frames(blob: &[u8], toc: &Toc) -> (r: Vec<WireFrame>)
    requires
        region_end(toc.chunks@) <= u64::MAX,
    ensures
        r@.len() == toc.chunks@.len() + 1,
        forall|i: int|
            0 <= i < toc.chunks@.len() ==> frame_fits(#[trigger] r@[i], toc.chunks@[i]),
        r@.last().cid@ == blake3_hash(toc_part(blob@, toc.chunks@)),
        r@.last().offset == region_end(toc.chunks@),
        r@.last().length == toc_part(blob@, toc.chunks@).len(),
        r@.last().raw_length == 0,
        !r@.last().compressed,
{
    let mut frames: Vec<WireFrame> = Vec::new();
    for i in 0..toc.chunks.len()
        invariant
            frames@.len() == i,
            forall|k: int| 0 <= k < i ==> frame_fits(#[trigger] frames@[k], toc.chunks@[k]),
    {
        let e = toc.chunks[i];
        frames.push(
            WireFrame {
                cid: e.frame_cid,
                offset: e.frame_offset,
                length: e.frame_length,
                raw_length: e.raw_length,
                compressed: e.compressed,
            },
        );
    }
    let region: u64 = if toc.chunks.len() == 0 {
        0
    } else {
        let last = toc.chunks[toc.chunks.len() - 1];
        last.frame_offset + last.frame_length
    };
    let start: usize = if region < blob.len() as u64 {
        region as usize
    } else {
        blob.len()
    };
    let tail = crate::bytes::part(blob, start, blob.len());
    assert(tail@ =~= toc_part(blob@, toc.chunks@));
    frames.push(
        WireFrame {
            cid: frame_cid(tail.as_slice()),
            offset: region,
            length: tail.len() as u64,
            raw_length: 0,
            compressed: false,
        },
    );
    frames
}

/// Whether the entries of a table of contents lie one behind the other from the beginning on.
pub open spec fn tiled(chunks: Seq<ChunkEntry>) -> bool {
    &&& chunks.len() > 0 ==> chunks[0].frame_offset == 0
    &&& forall|i: int|
        0 <= i < chunks.len() - 1 ==> (#[trigger] chunks[i]).frame_offset + chunks[i].frame_length
            == chunks[i + 1].frame_offset
}

/// The frames of a layer lie one behind the other, and end where it ends: put together they are
/// the layer.
pub proof fn law_the_frames_are_the_layer(blob: Seq<u8>, toc: Toc, frames: Seq<WireFrame>)
    requires
        tiled(toc.chunks@),
        region_end(toc.chunks@) <= blob.len() <= u64::MAX,
        frames.len() == toc.chunks@.len() + 1,
        forall|i: int|
            0 <= i < toc.chunks@.len() ==> frame_fits(#[trigger] frames[i], toc.chunks@[i]),
        frames.last().offset == region_end(toc.chunks@),
        frames.last().length == toc_part(blob, toc.chunks@).len(),
    ensures
        frames[0].offset == 0,
        forall|i: int|
            0 <= i < frames.len() - 1 ==> (#[trigger] frames[i]).offset + frames[i].length
                == frames[i + 1].offset,
        frames.last().offset + frames.last().length == blob.len(),
{
    let chunks = toc.chunks@;
    assert forall|i: int| 0 <= i < frames.len() - 1 implies (#[trigger] frames[i]).offset
        + frames[i].length == frames[i + 1].offset by {
        assert(frame_fits(frames[i], chunks[i]));
        if i + 1 < chunks.len() {
            assert(frame_fits(frames[i + 1], chunks[i + 1]));
            assert(chunks[i].frame_offset + chunks[i].frame_length == chunks[i + 1].frame_offset);
        }
    }
    if chunks.len() > 0 {
        assert(frame_fits(frames[0], chunks[0]));
    }
}

proof fn lemma_raw_total(chunks: Seq<ChunkEntry>, i: int)
    requires
        0 <= i <= chunks.len(),
    ensures
        0 <= raw_total(chunks.take(i)) <= raw_total(chunks),
    decreases chunks.len(),
{
    if i == chunks.len() {
        assert(chunks.take(i) =~= chunks);
        if i > 0 {
            lemma_raw_total(chunks.drop_last(), i - 1);
            assert(chunks.drop_last().take(i - 1) =~= chunks.drop_last());
        }
    } else {
        lemma_raw_total(chunks.drop_last(), i);
        assert(chunks.drop_last().take(i) =~= chunks.take(i));
    }
}

/// The number of plaintext bytes of a layer.
pub fn total_length(toc: &Toc) -> (r: u64)
    requires
        raw_total(toc.chunks@) <= u64::MAX,
    ensures
        r == raw_total(toc.chunks@),
{
    let mut total: u64 = 0;
    assert(toc.chunks@.take(0) =~= Seq::<ChunkEntry>::empty());
    for i in 0..toc.chunks.len()
        invariant
            total == raw_total(toc.chunks@.take(i as int)),
            raw_total(toc.chunks@) <= u64::MAX,
    {
        proof {
            lemma_raw_total(toc.chunks@, i + 1);
            assert(toc.chunks@.take(i + 1).drop_last() =~= toc.chunks@.take(i as int));
        }
        total = total + toc.chunks[i].raw_length as u64;
    }
    assert(toc.chunks@.take(toc.chunks@.len() as int) =~= toc.chunks@);
    total
}

// ---------------------------------------------------------------------------
// Recipes
// ---------------------------------------------------------------------------

/// One frame as a recipe lists it.
#[derive(Debug, PartialEq, Eq)]
pub struct RecipeChunk {
    pub frame_cid: String,
    pub frame_offset: u64,
    pub frame_length: u64,
    pub raw_length: u64,
    pub compressed: bool,
}

/// What a registry is told of a layer.
#[derive(Debug, PartialEq, Eq)]
pub struct Recipe {
    pub digest: String,
    pub total_length: u64,
    pub media_type: String,
    pub chunks: Vec<RecipeChunk>,
}

/// Whether a recipe lists a frame.
pub open spec fn lists_frame(c: RecipeChunk, f: WireFrame) -> bool {
    &&& c.frame_cid@ == "blake3:"@ + hex(f.cid@)
    &&& c.frame_offset == f.offset
    &&& c.frame_length == f.length
    &&& c.raw_length == f.raw_length
    &&& c.compressed == f.compressed
}

/// Whether a recipe lists a sealed frame.
pub open spec fn lists_sealed(c: RecipeChunk, e: SealedRecipeEntry) -> bool {
    &&& c.frame_cid@ == "blake3:"@ + e.frame_cid@
    &&& c.frame_offset == e.frame_offset
    &&& c.frame_length == e.frame_length
    &&& c.raw_length == e.raw_length
    &&& c.compressed == e.compressed
}

/// The recipe of an assembled layer.
pub fn chunked_recipe(
    layer_digest: &str,
    total_length: u64,
    media_type: &str,
    wire: &Vec<WireFrame>,
) -> (r: Recipe)
    ensures
        r.digest@ == layer_digest@,
        r.total_length == total_length,
        r.media_type@ == media_type@,
        r.chunks@.len() == wire@.len(),
        forall|i: int| 0 <= i < wire@.len() ==> lists_frame(#[trigger] r.chunks@[i], wire@[i]),
{
    let mut chunks: Vec<RecipeChunk> = Vec::new();
    for i in 0..wire.len()
        invariant
            chunks@.len() == i,
            forall|k: int| 0 <= k < i ==> lists_frame(#[trigger] chunks@[k], wire@[k]),
    {
        let f = wire[i];
        chunks.push(
            RecipeChunk {
                frame_cid: cat2("blake3:", hex_of(f.cid.as_slice()).as_str()),
                frame_offset: f.offset,
                frame_length: f.length,
                raw_length: f.raw_length as u64,
                compressed: f.compressed,
            },
        );
    }
    Recipe { digest: owned(layer_digest), total_length, media_type: owned(media_type), chunks }
}

/// The recipe of a sealed layer, whose frames are listed already.
pub fn sealed_recipe(
    layer_digest: &str,
    total_length: u64,
    media_type: &str,
    entries: &Vec<SealedRecipeEntry>,
) -> (r: Recipe)
    ensures
        r.digest@ == layer_digest@,
        r.total_length == total_length,
        r.media_type@ == media_type@,
        r.chunks@.len() == entries@.len(),
        forall|i: int|
            0 <= i < entries@.len() ==> lists_sealed(#[trigger] r.chunks@[i], entries@[i]),
{
    let mut chunks: Vec<RecipeChunk> = Vec::new();
    for i in 0..entries.len()
        invariant
            chunks@.len() == i,
            forall|k: int| 0 <= k < i ==> lists_sealed(#[trigger] chunks@[k], entries@[k]),
    {
        let e = &entries[i];
        chunks.push(
            RecipeChunk {
                frame_cid: cat2("blake3:", e.frame_cid.as_str()),
                frame_offset: e.frame_offset,
                frame_length: e.frame_length,
                raw_length: e.raw_length,
                compressed: e.compressed,
            },
        );
    }
    Recipe { digest: owned(layer_digest), total_length, media_type: owned(media_type), chunks }
}

// ---------------------------------------------------------------------------
// Requests
// ---------------------------------------------------------------------------

/// How many bytes one request gathers before it is sent.
pub const WIRE_BATCH_BYTES: usize = 0x200_0000;

/// Why the next request cannot be made.
pub enum WireFault {
    /// The layer has no frame of that number.
    NoFrame(u32),
    /// A frame lies outside the layer.
    OutOfBounds,
}

/// The message of a fault.
pub open spec fn wire_message(f: WireFault) -> Seq<char> {
    match f {
        WireFault::NoFrame(index) => "chunked recipe missing index "@ + decimal(index as nat)
            + " out of range"@,
        WireFault::OutOfBounds => "chunked frame slice out of bounds of the assembled blob"@,
    }
}

/// The next request, `batch` being gathered already: the records of the missing frames from number
/// `i` on, up to the size of one request; and where to go on.
pub open spec fn wire_batch_from(
    blob: Seq<u8>,
    wire: Seq<WireFrame>,
    missing: Seq<u32>,
    i: int,
    batch: Seq<u8>,
) -> Result<(Seq<u8>, int), WireFault>
    decreases missing.len() - i,
{
    if i < 0 || i >= missing.len() {
        Ok((batch, i))
    } else if missing[i] >= wire.len() {
        Err(WireFault::NoFrame(missing[i]))
    } else {
        let f = wire[missing[i] as int];
        if f.offset + f.length > blob.len() {
            Err(WireFault::OutOfBounds)
        } else {
            let more = batch + record(
                missing[i],
                blob.subrange(f.offset as int, f.offset + f.length),
            );
            if more.len() >= WIRE_BATCH_BYTES {
                Ok((more, i + 1))
            } else {
                wire_batch_from(blob, wire, missing, i + 1, more)
            }
        }
    }
}

/// The next request from missing frame number `from` on, and where to go on.
pub fn next_wire_batch(
    blob: &[u8],
    wire: &Vec<WireFrame>,
    missing: &Vec<u32>,
    from: usize,
) -> (r: Result<(Vec<u8>, usize), CliError>)
    requires
        from <= missing@.len(),
    ensures
        match wire_batch_from(blob@, wire@, missing@, from as int, Seq::empty()) {
            Ok((batch, next)) => r matches Ok((b, n)) && b@ == batch && n == next,
            Err(f) => r matches Err(e) && e@ == operational(wire_message(f)),
        },
{
    let mut batch: Vec<u8> = Vec::new();
    let mut i: usize = from;
    while i < missing.len()
        invariant
            from <= i <= missing@.len() == missing.len(),
            wire_batch_from(blob@, wire@, missing@, from as int, Seq::empty()) == wire_batch_from(
                blob@,
                wire@,
                missing@,
                i as int,
                batch@,
            ),
        decreases missing@.len() - i,
    {
        let index: u32 = missing[i];
        if index as usize >= wire.len() {
            return Err(
                CliError::Operational(
                    cat3(
                        "chunked recipe missing index ",
                        decimal_of(index as u64).as_str(),
                        " out of range",
                    ),
                ),
            );
        }
        let f = wire[index as usize];
        let size: u64 = blob.len() as u64;
        if f.offset > size || f.length > size - f.offset {
            return Err(
                CliError::Operational(
                    owned("chunked frame slice out of bounds of the assembled blob"),
                ),
            );
        }
        let frame = crate::bytes::part(blob, f.offset as usize, (f.offset + f.length) as usize);
        assert(frame@ =~= blob@.subrange(f.offset as int, f.offset + f.length));
        push_record(&mut batch, index, frame.as_slice());
        i += 1;
        if batch.len() >= WIRE_BATCH_BYTES {
            return Ok((batch, i));
        }
    }
    Ok((batch, i))
}

/// What is wrong with the status of a negotiation, the cap on sessions aside.
pub fn check_negotiated(status: &Status) -> (r: Result<(), CliError>)
    ensures
        if status.code == 200 {
            r is Ok
        } else {
            r matches Err(e) && e@ == operational(
                "chunked negotiate POST returned "@ + status.text@,
            )
        },
{
    if status.code == 200 {
        Ok(())
    } else {
        Err(
            CliError::Operational(
                cat2("chunked negotiate POST returned ", status.text.as_str()),
            ),
        )
    }
}

/// The error about a registry that holds too many sessions of this client: with their number,
/// where the registry tells it.
pub fn sessions_held(detail: &str, message: &str) -> (r: CliError)
    ensures
        r@ == operational(
            match parse_number(trim(detail@), usize::MAX as nat) {
                Some(held) => "the registry is holding "@ + decimal(held)
                    + " earlier upload sessions of this node and will not open another; retrying once one of them is finalized, abandoned, or times out"@,
                None =>
                    "the registry is holding earlier upload sessions of this node and will not open another; retrying ("@
                    + message@ + ")"@,
            },
        ),
{
    match parsed_u64(&trimmed(&chars_of(detail))) {
        Some(held) => {
            if held <= usize::MAX as u64 {
                return CliError::Operational(
                    cat3(
                        "the registry is holding ",
                        decimal_of(held).as_str(),
                        " earlier upload sessions of this node and will not open another; retrying once one of them is finalized, abandoned, or times out",
                    ),
                );
            }
        },
        None => {},
    }
    CliError::Operational(
        cat3(
            "the registry is holding earlier upload sessions of this node and will not open another; retrying (",
            message,
            ")",
        ),
    )
}

/// The view of a reply.
pub enum ReplyView {
    Acknowledged,
    Retry,
    Fatal(ErrorView),
}

impl View for Reply {
    type V = ReplyView;

    open spec fn view(&self) -> ReplyView {
        match self {
            Reply::Acknowledged => ReplyView::Acknowledged,
            Reply::Retry => ReplyView::Retry,
            Reply::Fatal(e) => ReplyView::Fatal(e@),
        }
    }
}

/// What a registry says to some frames: they are there, the session is gone, or it fails.
pub open spec fn patched(status: Status) -> ReplyView {
    if status.code == 202 || status.code == 204 {
        ReplyView::Acknowledged
    } else if status.code == 404 {
        ReplyView::Retry
    } else {
        ReplyView::Fatal(operational("chunked PATCH returned "@ + status.text@))
    }
}

/// What a registry says to the end of a layer: it is stored, the session is gone, or it fails.
pub open spec fn finalized(status: Status) -> ReplyView {
    if status.code == 201 || status.code == 200 {
        ReplyView::Acknowledged
    } else if status.code == 404 {
        ReplyView::Retry
    } else {
        ReplyView::Fatal(operational("chunked finalize PUT returned "@ + status.text@))
    }
}

/// Reads the answer to a request with frames. A session that the registry does not know is to be
/// negotiated again.
pub fn patch_reply(status: &Status) -> (r: Reply)
    ensures
        r@ == patched(*status),
{
    if status.code == 202 || status.code == 204 {
        Reply::Acknowledged
    } else if status.code == 404 {
        Reply::Retry
    } else {
        Reply::Fatal(
            CliError::Operational(cat2("chunked PATCH returned ", status.text.as_str())),
        )
    }
}

/// Reads the answer to the request that stores the layer.
pub fn finalize_reply(status: &Status) -> (r: Reply)
    ensures
        r@ == finalized(*status),
{
    if status.code == 201 || status.code == 200 {
        Reply::Acknowledged
    } else if status.code == 404 {
        Reply::Retry
    } else {
        Reply::Fatal(
            CliError::Operational(cat2("chunked finalize PUT returned ", status.text.as_str())),
        )
    }
}

// ---------------------------------------------------------------------------
// The upload of an assembled layer
// ---------------------------------------------------------------------------

/// How often an assembled layer is negotiated.
pub const WIRE_RESUME: usize = 3;

/// Where the upload of an assembled layer stands.
#[derive(Debug)]
pub enum PushStage {
    Negotiate,
    /// Send the missing frames, of which there are so many, and store the layer.
    Send(usize),
    /// The layer is stored; so many frames were sent.
    Stored(usize),
    /// The layer has to be sent whole.
    GivenUp(CliError),
}

/// The upload of an assembled layer, frame by frame.
#[derive(Debug)]
pub struct ChunkedPush {
    pub negotiations: usize,
    /// The session that is open and not used up.
    pub open: Option<String>,
    pub stage: PushStage,
}

/// The message about an upload that does not settle.
pub open spec fn unsettled_message() -> Seq<char> {
    "chunked upload did not converge after resume attempts"@
}

/// Whether the upload has been given up with this error.
pub open spec fn given_up(p: ChunkedPush, e: ErrorView) -> bool {
    p.stage matches PushStage::GivenUp(f) && f@ == e
}

impl ChunkedPush {
    /// What holds of an upload: it is negotiated at most so often, and a stored layer leaves no
    /// session behind.
    pub open spec fn wf(&self) -> bool {
        &&& self.negotiations <= WIRE_RESUME
        &&& self.stage is Negotiate ==> self.negotiations < WIRE_RESUME
        &&& self.stage is Send ==> self.open is Some
        &&& self.stage is Stored ==> self.open is None
    }

    /// An upload before it is negotiated.
    pub fn new() -> (r: ChunkedPush)
        ensures
            r.wf(),
            r.negotiations == 0,
            r.open is None,
            r.stage is Negotiate,
    {
        ChunkedPush { negotiations: 0, open: None, stage: PushStage::Negotiate }
    }

    /// The registry opened or resumed a session, and misses so many frames.
    pub fn negotiated(&mut self, session: &str, missing: usize)
        requires
            old(self).wf(),
            old(self).stage is Negotiate,
        ensures
            final(self).wf(),
            final(self).negotiations == old(self).negotiations + 1,
            final(self).open matches Some(s) && s@ == session@,
            final(self).stage == PushStage::Send(missing),
    {
        self.negotiations = self.negotiations + 1;
        self.open = Some(owned(session));
        self.stage = PushStage::Send(missing);
    }

    /// The negotiation failed.
    pub fn refused(&mut self, e: CliError)
        requires
            old(self).wf(),
            old(self).stage is Negotiate,
        ensures
            final(self).wf(),
            final(self).negotiations == old(self).negotiations,
            final(self).open == old(self).open,
            given_up(*final(self), e@),
    {
        self.stage = PushStage::GivenUp(e);
    }

    /// What came of sending the frames and storing the layer.
    pub fn sent(&mut self, reply: Reply)
        requires
            old(self).wf(),
            old(self).stage is Send,
        ensures
            final(self).wf(),
            final(self).negotiations == old(self).negotiations,
            match reply@ {
                ReplyView::Acknowledged => final(self).open is None && final(self).stage
                    == PushStage::Stored(old(self).stage->Send_0),
                ReplyView::Retry => final(self).open == old(self).open && if old(self).negotiations
                    < WIRE_RESUME {
                    final(self).stage is Negotiate
                } else {
                    given_up(*final(self), operational(unsettled_message()))
                },
                ReplyView::Fatal(e) => final(self).open == old(self).open && given_up(
                    *final(self),
                    e,
                ),
            },
    {
        match reply {
            Reply::Acknowledged => {
                let missing: usize = match &self.stage {
                    PushStage::Send(n) => *n,
                    _ => 0,
                };
                self.open = None;
                self.stage = PushStage::Stored(missing);
            },
            Reply::Retry => {
                if self.negotiations < WIRE_RESUME {
                    self.stage = PushStage::Negotiate;
                } else {
                    self.stage = PushStage::GivenUp(
                        CliError::Operational(
                            owned("chunked upload did not converge after resume attempts"),
                        ),
                    );
                }
            },
            Reply::Fatal(e) => {
                self.stage = PushStage::GivenUp(e);
            },
        }
    }
}

/// The frames that a registry may ask for, as the blob holds them.
pub open spec fn frames_in(blob: Seq<u8>, wire: Seq<WireFrame>) -> Seq<Seq<u8>> {
    Seq::new(
        wire.len(),
        |i: int| blob.subrange(wire[i].offset as int, wire[i].offset + wire[i].length),
    )
}

/// A request holds the records of the frames that are missing, in their order and from where the
/// last one ended, and is filled until it holds 32 MiB.
pub proof fn law_a_wire_request_holds_its_records(
    blob: Seq<u8>,
    wire: Seq<WireFrame>,
    missing: Seq<u32>,
    from: int,
    i: int,
    batch: Seq<u8>,
)
    requires
        0 <= from <= i <= missing.len(),
        batch == crate::persist::upload::records(
            frames_in(blob, wire),
            missing.subrange(from, i),
        ),
        batch.len() < 32 * 1024 * 1024,
        forall|k: int| 0 <= k < missing.len() ==> #[trigger] missing[k] < wire.len(),
        forall|k: int|
            0 <= k < wire.len() ==> (#[trigger] wire[k]).offset + wire[k].length <= blob.len(),
    ensures
        wire_batch_from(blob, wire, missing, i, batch) matches Ok((b, next)) && {
            &&& i <= next <= missing.len()
            &&& i < missing.len() ==> i < next
            &&& b == crate::persist::upload::records(
                frames_in(blob, wire),
                missing.subrange(from, next),
            )
            &&& next < missing.len() ==> b.len() >= 32 * 1024 * 1024
            &&& next > i ==> b.len() - record(
                missing[next - 1],
                frames_in(blob, wire)[missing[next - 1] as int],
            ).len() < 32 * 1024 * 1024
        },
    decreases missing.len() - i,
{
    if i < missing.len() {
        let frames = frames_in(blob, wire);
        let f = wire[missing[i] as int];
        let more = batch + record(missing[i], frames[missing[i] as int]);
        let upto = missing.subrange(from, i + 1);
        assert(upto.drop_last() =~= missing.subrange(from, i));
        assert(upto.last() == missing[i]);
        assert(more == crate::persist::upload::records(frames, upto));
        if more.len() < WIRE_BATCH_BYTES {
            law_a_wire_request_holds_its_records(blob, wire, missing, from, i + 1, more);
        }
    }
}

/// A frame that is not there, or that the blob does not reach, is an error and no request.
pub proof fn law_no_wire_frame_is_made_up(
    blob: Seq<u8>,
    wire: Seq<WireFrame>,
    missing: Seq<u32>,
    i: int,
    batch: Seq<u8>,
)
    requires
        0 <= i < missing.len(),
    ensures
        missing[i] >= wire.len() ==> wire_batch_from(blob, wire, missing, i, batch) == Err::<
            (Seq<u8>, int),
            WireFault,
        >(WireFault::NoFrame(missing[i])),
        missing[i] < wire.len() && wire[missing[i] as int].offset + wire[missing[i] as int].length
            > blob.len() ==> wire_batch_from(blob, wire, missing, i, batch) == Err::<
            (Seq<u8>, int),
            WireFault,
        >(WireFault::OutOfBounds),
{
}

/// A recipe lists each frame as it is: by its content id, where it is, how long it is there and how
/// long its content is.
pub proof fn law_a_recipe_lists_each_frame(
    c: RecipeChunk,
    f: WireFrame,
    e: ChunkEntry,
    s: SealedRecipeEntry,
)
    ensures
        lists_frame(c, f) && frame_fits(f, e) ==> {
            &&& c.frame_cid@ == "blake3:"@ + hex(e.frame_cid@)
            &&& c.frame_offset == e.frame_offset
            &&& c.frame_length == e.frame_length
            &&& c.raw_length == e.raw_length
            &&& c.compressed == e.compressed
        },
        lists_sealed(c, s) ==> {
            &&& c.frame_cid@ == "blake3:"@ + s.frame_cid@
            &&& c.frame_offset == s.frame_offset
            &&& c.frame_length == s.frame_length
            &&& c.raw_length == s.raw_length
            &&& c.compressed == s.compressed
        },
{
}

/// A push is negotiated three times at most.
pub proof fn law_a_push_is_negotiated_three_times_at_most(p: ChunkedPush)
    requires
        p.wf(),
    ensures
        p.negotiations <= 3,
        p.stage is Negotiate ==> p.negotiations < 3,
        p.stage is Send ==> p.open is Some,
        p.stage is Stored ==> p.open is None,
{
}

/// What a registry replied is shown as it is.
pub proof fn law_a_reply_is_shown_as_it_is(reply: Reply)
    ensures
        reply@ is Acknowledged <==> reply is Acknowledged,
        reply@ is Retry <==> reply is Retry,
        reply matches Reply::Fatal(e) ==> reply@ == ReplyView::Fatal(e@),
{
}

/// Frames are there once the registry has accepted them, and a layer once it is stored; a session
/// that is gone is begun again, and any other answer is a failure.
pub proof fn law_an_answer_decides_on_a_push(status: Status)
    ensures
        patched(status) is Acknowledged <==> status.code == 202 || status.code == 204,
        patched(status) is Retry <==> status.code == 404,
        finalized(status) is Acknowledged <==> status.code == 200 || status.code == 201,
        finalized(status) is Retry <==> status.code == 404,
        patched(status) matches ReplyView::Fatal(e) ==> e.kind is Operational,
        finalized(status) matches ReplyView::Fatal(e) ==> e.kind is Operational,
{
}

} // verus!
