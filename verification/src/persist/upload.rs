//! Uploading sealed layers and committing restore points.
//!
//! A layer is offered to the registry as a recipe of its frames. The registry answers with the
//! frames that it misses, and only those are sent. A negotiation that fails is an error: there is
//! no fallback to sending the whole layer.

use crate::bytes::{append, append_le32, le32};
use crate::error::{cli_message, operational, CliError, ErrorKind, ErrorView};
use crate::outside::{lossy_text, utf8_lossy};
use crate::persist::pack::PlannedFile;
use crate::persist::seal::Subkeys;
use crate::persist::stream::{layer_fits, SealedLayer};
use crate::persist::tree::LayerRef;
use crate::text::{
    cat2, cat3, cat4, cat5, char_views, chars_of, debug_quoted, decimal, decimal_of, owned, pieces,
    quoted, same, signed_decimal, signed_decimal_of, slice_string, split, string_of, strip_end,
    stripped_end,
};
use vstd::prelude::*;

verus! {

/// How many bytes one request gathers before it is sent.
pub const MAX_BATCH_BYTES: usize = 0x80_0000;

/// How often a layer is negotiated before its upload is given up.
pub const MAX_RESUME: usize = 3;

// ---------------------------------------------------------------------------
// Repositories
// ---------------------------------------------------------------------------

/// The last piece that is not empty.
pub open spec fn last_filled(segments: Seq<Seq<char>>) -> Option<Seq<char>>
    decreases segments.len(),
{
    if segments.len() == 0 {
        None
    } else if segments.last().len() > 0 {
        Some(segments.last())
    } else {
        last_filled(segments.drop_last())
    }
}

/// The leaf of an app id: its last segment, empty ones aside. An id without any has an empty leaf.
pub open spec fn leaf_of(app: Seq<char>) -> Seq<char> {
    match last_filled(split(app, '/')) {
        Some(segment) => segment,
        None => Seq::empty(),
    }
}

/// The leaf of an app id.
pub fn app_leaf(app: &str) -> (r: String)
    ensures
        r@ == leaf_of(app@),
{
    let segments = pieces(&chars_of(app), '/');
    let ghost all = split(app@, '/');
    let mut n: usize = segments.len();
    assert(all.take(n as int) =~= all);
    while n > 0
        invariant
            n <= segments@.len() == segments.len(),
            all == split(app@, '/'),
            all == char_views(segments@),
            last_filled(all) == last_filled(all.take(n as int)),
        decreases n,
    {
        assert(all[n - 1] == segments@[n - 1]@);
        assert(all.take(n as int).drop_last() =~= all.take(n - 1));
        if segments[n - 1].len() > 0 {
            return string_of(&segments[n - 1]);
        }
        n -= 1;
    }
    String::new()
}

/// The repository of an app: its leaf under the base.
pub open spec fn repository_of(base: Seq<char>, app: Seq<char>) -> Seq<char> {
    if leaf_of(app).len() == 0 {
        strip_end(base, '/')
    } else {
        strip_end(base, '/') + "/"@ + leaf_of(app)
    }
}

/// The repository that an app's restore points live in.
pub fn app_repository(base: &str, app: &str) -> (r: String)
    ensures
        r@ == repository_of(base@, app@),
{
    let base = string_of(&stripped_end(&chars_of(base), '/'));
    let leaf = app_leaf(app);
    if leaf.as_str().is_empty() {
        base
    } else {
        cat3(base.as_str(), "/", leaf.as_str())
    }
}

/// Two apps share a repository only if they have the same leaf.
pub proof fn law_apps_do_not_share_repositories(base: Seq<char>, a: Seq<char>, b: Seq<char>)
    ensures
        repository_of(base, a) == repository_of(base, b) <==> leaf_of(a) == leaf_of(b),
{
    reveal_strlit("/");
    let root = strip_end(base, '/');
    let x = repository_of(base, a);
    let y = repository_of(base, b);
    if x == y {
        assert(x.len() == y.len());
        if leaf_of(a).len() > 0 {
            assert(x.skip(root.len() as int + 1) =~= leaf_of(a));
            assert(y.skip(root.len() as int + 1) =~= leaf_of(b));
        } else {
            assert(leaf_of(a) =~= leaf_of(b));
        }
    }
}

/// Whether a path is made of segments none of which is empty.
pub open spec fn no_empty_segment(path: Seq<char>) -> bool {
    &&& path.len() > 0
    &&& path[0] != '/'
    &&& path.last() != '/'
    &&& forall|i: int| 0 < i < path.len() && #[trigger] path[i] == '/' ==> path[i - 1] != '/'
}

proof fn lemma_last_filled(segments: Seq<Seq<char>>)
    requires
        forall|k: int| 0 <= k < segments.len() ==> !(#[trigger] segments[k]).contains('/'),
    ensures
        last_filled(segments) matches Some(segment) ==> segment.len() > 0 && !segment.contains('/'),
    decreases segments.len(),
{
    if segments.len() > 0 {
        assert(!segments[segments.len() - 1].contains('/'));
        if segments.last().len() == 0 {
            let front = segments.drop_last();
            assert forall|k: int| 0 <= k < front.len() implies !(
            #[trigger] front[k]).contains('/') by {
                assert(front[k] == segments[k]);
            }
            lemma_last_filled(front);
        }
    }
}

/// No repository has an empty segment, whatever the app is called, as long as the base has none
/// but at its end. An app without any segment is the base itself.
pub proof fn law_a_repository_has_no_empty_segment(base: Seq<char>, app: Seq<char>)
    requires
        no_empty_segment(strip_end(base, '/')),
    ensures
        no_empty_segment(repository_of(base, app)),
        last_filled(split(app, '/')) is None ==> repository_of(base, app) == strip_end(base, '/'),
{
    let root = strip_end(base, '/');
    let leaf = leaf_of(app);
    let path = repository_of(base, app);
    crate::text::lemma_split_from(app, '/', 0);
    lemma_last_filled(split(app, '/'));
    if leaf.len() > 0 {
        reveal_strlit("/");
        assert(path == root + "/"@ + leaf);
        assert(path.last() == leaf.last());
        assert(leaf.contains(leaf.last()));
        assert forall|i: int| 0 < i < path.len() && #[trigger] path[i] == '/' implies path[i - 1]
            != '/' by {
            if i > root.len() {
                assert(path[i] == leaf[i - root.len() - 1]);
                assert(leaf.contains(path[i]));
            } else if i == root.len() {
                assert(path[i - 1] == root.last());
            } else {
                assert(root[i] == '/');
                assert(path[i - 1] == root[i - 1]);
            }
        }
    }
}

// ---------------------------------------------------------------------------
// Frames on the wire
// ---------------------------------------------------------------------------

/// The length that a record writes for a frame.
pub open spec fn written_len(n: nat) -> u32 {
    if n > u32::MAX {
        u32::MAX
    } else {
        n as u32
    }
}

/// One record of a request: the number of a frame, its length, and its bytes.
pub open spec fn record(index: u32, frame: Seq<u8>) -> Seq<u8> {
    le32(index) + le32(written_len(frame.len())) + frame
}

/// Adds the record of a frame.
pub fn push_record(batch: &mut Vec<u8>, index: u32, frame: &[u8])
    ensures
        final(batch)@ == old(batch)@ + record(index, frame@),
{
    let len: u32 = if frame.len() > u32::MAX as usize {
        u32::MAX
    } else {
        frame.len() as u32
    };
    append_le32(batch, index);
    append_le32(batch, len);
    append(batch, frame);
    assert(batch@ =~= old(batch)@ + record(index, frame@));
}

/// The views of some frames.
pub open spec fn frame_views(frames: Seq<Vec<u8>>) -> Seq<Seq<u8>> {
    Seq::new(frames.len(), |i: int| frames[i]@)
}

/// The next request, `batch` being gathered already: the records of the missing frames from
/// number `i` on, up to the size of one request; and where to go on. A frame that the layer does
/// not have is named.
pub open spec fn batch_from(
    frames: Seq<Seq<u8>>,
    missing: Seq<u32>,
    i: int,
    batch: Seq<u8>,
) -> Result<(Seq<u8>, int), u32>
    decreases missing.len() - i,
{
    if i < 0 || i >= missing.len() {
        Ok((batch, i))
    } else if missing[i] >= frames.len() {
        Err(missing[i])
    } else {
        let more = batch + record(missing[i], frames[missing[i] as int]);
        if more.len() >= MAX_BATCH_BYTES {
            Ok((more, i + 1))
        } else {
            batch_from(frames, missing, i + 1, more)
        }
    }
}

/// The message about a frame that the layer does not have.
pub open spec fn no_frame_message(index: u32) -> Seq<char> {
    "app data: the registry asked for frame "@ + decimal(index as nat)
        + ", which this layer does not have"@
}

/// The next request from missing frame number `from` on, and where to go on.
pub fn next_batch(frames: &Vec<Vec<u8>>, missing: &Vec<u32>, from: usize) -> (r: Result<
    (Vec<u8>, usize),
    CliError,
>)
    requires
        from <= missing@.len(),
    ensures
        match batch_from(frame_views(frames@), missing@, from as int, Seq::empty()) {
            Ok((batch, next)) => r matches Ok((b, n)) && b@ == batch && n == next,
            Err(index) => r matches Err(e) && e@ == operational(no_frame_message(index)),
        },
{
    let ghost all = frame_views(frames@);
    let mut batch: Vec<u8> = Vec::new();
    let mut i: usize = from;
    while i < missing.len()
        invariant
            all == frame_views(frames@),
            from <= i <= missing@.len() == missing.len(),
            batch_from(all, missing@, from as int, Seq::empty()) == batch_from(
                all,
                missing@,
                i as int,
                batch@,
            ),
        decreases missing@.len() - i,
    {
        let index: u32 = missing[i];
        if index as usize >= frames.len() {
            return Err(
                CliError::Operational(
                    cat3(
                        "app data: the registry asked for frame ",
                        decimal_of(index as u64).as_str(),
                        ", which this layer does not have",
                    ),
                ),
            );
        }
        assert(all[index as int] == frames@[index as int]@);
        push_record(&mut batch, index, frames[index as usize].as_slice());
        i += 1;
        if batch.len() >= MAX_BATCH_BYTES {
            return Ok((batch, i));
        }
    }
    Ok((batch, i))
}

/// The records of some frames, one behind the other.
pub open spec fn records(frames: Seq<Seq<u8>>, missing: Seq<u32>) -> Seq<u8>
    decreases missing.len(),
{
    if missing.len() == 0 {
        Seq::empty()
    } else {
        records(frames, missing.drop_last()) + record(
            missing.last(),
            frames[missing.last() as int],
        )
    }
}

/// A request holds exactly the records of the missing frames that it covers, in their order, and
/// covers at least one: one request after the other sends every missing frame once.
pub proof fn law_a_request_holds_its_records(
    frames: Seq<Seq<u8>>,
    missing: Seq<u32>,
    from: int,
    i: int,
    batch: Seq<u8>,
)
    requires
        0 <= from <= i <= missing.len(),
        batch == records(frames, missing.subrange(from, i)),
        forall|k: int| 0 <= k < missing.len() ==> #[trigger] missing[k] < frames.len(),
    ensures
        batch_from(frames, missing, i, batch) matches Ok((b, next)) && i <= next <= missing.len()
            && (i < missing.len() ==> i < next) && b == records(
            frames,
            missing.subrange(from, next),
        ),
    decreases missing.len() - i,
{
    if i < missing.len() {
        assert(missing.subrange(from, i + 1).drop_last() =~= missing.subrange(from, i));
        assert(missing.subrange(from, i + 1).last() == missing[i]);
        let more = batch + record(missing[i], frames[missing[i] as int]);
        assert(missing[i] < frames.len());
        if more.len() < MAX_BATCH_BYTES {
            law_a_request_holds_its_records(frames, missing, from, i + 1, more);
        }
    }
}

/// Whether the registry asked for a frame.
pub open spec fn asked(missing: Seq<u32>, i: int) -> bool {
    exists|k: int| 0 <= k < missing.len() && #[trigger] missing[k] == i
}

/// Which of the first `n` frames the registry asked for.
pub fn asked_flags(missing: &Vec<u32>, n: usize) -> (r: Vec<bool>)
    ensures
        r@.len() == n,
        forall|i: int| 0 <= i < n ==> #[trigger] r@[i] == asked(missing@, i),
{
    let mut out: Vec<bool> = Vec::new();
    for i in 0..n
        invariant
            out@.len() == i,
            forall|k: int| 0 <= k < i ==> !#[trigger] out@[k],
    {
        out.push(false);
    }
    for k in 0..missing.len()
        invariant
            out@.len() == n,
            forall|i: int|
                0 <= i < n ==> (#[trigger] out@[i] <==> exists|m: int|
                    0 <= m < k && #[trigger] missing@[m] == i),
    {
        let at: usize = missing[k] as usize;
        let ghost before = out@;
        if at < n {
            out.set(at, true);
        }
        proof {
            assert forall|i: int| 0 <= i < n implies (#[trigger] out@[i] <==> exists|m: int|
                0 <= m < k + 1 && #[trigger] missing@[m] == i) by {
                if i == at {
                    assert(missing@[k as int] == i);
                } else {
                    assert(out@[i] == before[i]);
                    if exists|m: int| 0 <= m < k + 1 && #[trigger] missing@[m] == i {
                        let m = choose|m: int| 0 <= m < k + 1 && #[trigger] missing@[m] == i;
                        assert(m < k);
                    }
                }
            }
        }
    }
    proof {
        assert forall|i: int| 0 <= i < n implies #[trigger] out@[i] == asked(missing@, i) by {
            if asked(missing@, i) {
                let m = choose|m: int| 0 <= m < missing@.len() && #[trigger] missing@[m] == i;
                assert(missing@[m] == i);
            }
        }
    }
    out
}

/// The length of a layer's frame number `i`, that of the table of contents being the last.
pub open spec fn frame_len(layer: SealedLayer, i: int) -> int {
    if i < layer.toc.chunks@.len() {
        layer.toc.chunks@[i].frame_length as int
    } else {
        layer.toc_frame_length as int
    }
}

/// The bytes of the first `n` frames that the registry did not ask for.
pub open spec fn skipped(layer: SealedLayer, missing: Seq<u32>, n: int) -> int
    decreases n,
{
    if n <= 0 {
        0
    } else {
        skipped(layer, missing, n - 1) + if asked(missing, n - 1) {
            0
        } else {
            frame_len(layer, n - 1)
        }
    }
}

proof fn lemma_skipped_grows(layer: SealedLayer, missing: Seq<u32>, a: int, b: int)
    requires
        0 <= a <= b,
    ensures
        0 <= skipped(layer, missing, a) <= skipped(layer, missing, b),
    decreases b,
{
    if a < b {
        lemma_skipped_grows(layer, missing, a, b - 1);
    } else if b > 0 {
        lemma_skipped_grows(layer, missing, a - 1, b - 1);
    }
}

/// The bytes of a layer that the registry did not ask for: it holds them, so the upload is done
/// with them.
pub fn skipped_bytes(layer: &SealedLayer, missing: &Vec<u32>) -> (r: u64)
    requires
        skipped(*layer, missing@, layer.toc.chunks@.len() as int + 1) <= u64::MAX,
        layer.toc.chunks@.len() < usize::MAX,
    ensures
        r == skipped(*layer, missing@, layer.toc.chunks@.len() as int + 1),
{
    let n: usize = layer.toc.chunks.len() + 1;
    let flags = asked_flags(missing, n);
    let mut total: u64 = 0;
    for i in 0..n
        invariant
            n == layer.toc.chunks@.len() + 1,
            n == layer.toc.chunks.len() + 1,
            flags@.len() == n,
            forall|k: int| 0 <= k < n ==> #[trigger] flags@[k] == asked(missing@, k),
            total == skipped(*layer, missing@, i as int),
            skipped(*layer, missing@, n as int) <= u64::MAX,
    {
        proof {
            lemma_skipped_grows(*layer, missing@, i + 1, n as int);
        }
        if !flags[i] {
            let len: u64 = if i < layer.toc.chunks.len() {
                layer.toc.chunks[i].frame_length
            } else {
                layer.toc_frame_length
            };
            total = total + len;
        }
    }
    total
}

/// The layer as the index and the commit name it: its digest and the size of its whole stream.
pub fn layer_ref(layer: &SealedLayer) -> (r: LayerRef)
    requires
        layer.toc_offset + layer.toc_frame_length <= u64::MAX,
    ensures
        r.digest@ == layer.layer_digest@,
        r.size == layer.toc_offset + layer.toc_frame_length,
{
    LayerRef {
        digest: layer.layer_digest.clone(),
        size: layer.toc_offset + layer.toc_frame_length,
    }
}

/// The stored size of an encoded layer is the length of its stream.
pub proof fn law_the_stored_size_is_the_stream(
    keys: Subkeys,
    chunks: Seq<Seq<u8>>,
    wire: Seq<u8>,
    layer: SealedLayer,
)
    requires
        layer_fits(keys, chunks, wire, layer),
    ensures
        layer.toc_offset + layer.toc_frame_length == wire.len(),
{
}

/// Encoding is deterministic: two encodings of the same chunks under the same key are the same
/// stream, with the same digest and frames of the same ids.
pub proof fn law_encoding_again_gives_the_same_stream(
    keys: Subkeys,
    chunks: Seq<Seq<u8>>,
    first: Seq<u8>,
    a: SealedLayer,
    second: Seq<u8>,
    b: SealedLayer,
)
    requires
        layer_fits(keys, chunks, first, a),
        layer_fits(keys, chunks, second, b),
    ensures
        first == second,
        a.layer_digest@ == b.layer_digest@,
        forall|i: int|
            0 <= i < chunks.len() ==> (#[trigger] a.toc.chunks@[i]).frame_cid@
                == b.toc.chunks@[i].frame_cid@,
{
    assert forall|i: int| 0 <= i < chunks.len() implies crate::chunked::entry_bytes(
        #[trigger] a.toc.chunks@[i],
    ) == crate::chunked::entry_bytes(b.toc.chunks@[i]) && a.toc.chunks@[i].frame_cid@
        == b.toc.chunks@[i].frame_cid@ by {
        assert(crate::persist::stream::entry_fits(keys, chunks, i, a.toc.chunks@[i]));
        assert(crate::persist::stream::entry_fits(keys, chunks, i, b.toc.chunks@[i]));
    }
    let x = crate::chunked::entries_bytes(a.toc.chunks@);
    let y = crate::chunked::entries_bytes(b.toc.chunks@);
    assert(x =~= y) by {
        assert forall|i: int| 0 <= i < x.len() implies x[i] == y[i] by {
            let k = i / 53;
            assert(0 <= k < chunks.len());
            assert(crate::chunked::entry_bytes(a.toc.chunks@[k]) == crate::chunked::entry_bytes(
                b.toc.chunks@[k],
            ));
        }
    }
    assert(a.toc.bytes() == b.toc.bytes());
}

/// What comes of the next frame: a request where it fills one, and what is gathered then.
pub open spec fn after_frame(batch: Seq<u8>, wanted: bool, index: u32, frame: Seq<u8>) -> (
    Option<Seq<u8>>,
    Seq<u8>,
) {
    let more = batch + record(index, frame);
    if !wanted {
        (None, batch)
    } else if more.len() >= MAX_BATCH_BYTES {
        (Some(more), Seq::empty())
    } else {
        (None, more)
    }
}

/// The records of the wanted ones among the first `n` frames.
pub open spec fn wanted_records(wanted: Seq<bool>, frames: Seq<Seq<u8>>, n: int) -> Seq<u8>
    decreases n,
{
    if n <= 0 {
        Seq::empty()
    } else if n - 1 < wanted.len() && wanted[n - 1] {
        wanted_records(wanted, frames, n - 1) + record((n - 1) as u32, frames[n - 1])
    } else {
        wanted_records(wanted, frames, n - 1)
    }
}

/// A second encoding sends every wanted frame once, in the order of the layer, and no other: what
/// was sent and what is gathered always are the records of the wanted frames so far.
pub proof fn law_a_second_encoding_sends_what_is_wanted(
    wanted: Seq<bool>,
    frames: Seq<Seq<u8>>,
    n: u32,
    sent: Seq<u8>,
    batch: Seq<u8>,
)
    requires
        n < frames.len(),
        sent + batch == wanted_records(wanted, frames, n as int),
    ensures
        ({
            let (request, rest) = after_frame(
                batch,
                n < wanted.len() && wanted[n as int],
                n,
                frames[n as int],
            );
            sent + (match request {
                Some(request) => request,
                None => Seq::empty(),
            }) + rest == wanted_records(wanted, frames, n + 1)
        }),
{
    let next = record(n, frames[n as int]);
    let empty = Seq::<u8>::empty();
    assert(sent + empty + batch =~= sent + batch);
    assert(sent + (batch + next) + empty =~= sent + batch + next);
    assert(sent + empty + (batch + next) =~= sent + batch + next);
}

/// Gathers the wanted frames of a second encoding into requests.
pub struct Batcher {
    pub wanted: Vec<bool>,
    pub batch: Vec<u8>,
    pub index: u32,
    /// Nobody takes any more requests.
    pub closed: bool,
}

impl Batcher {
    /// A batcher before the first frame.
    pub fn new(wanted: Vec<bool>) -> (r: Batcher)
        ensures
            r.wanted@ == wanted@,
            r.batch@ == Seq::<u8>::empty(),
            r.index == 0,
            !r.closed,
    {
        Batcher { wanted, batch: Vec::new(), index: 0, closed: false }
    }

    /// Whether the next frame is to be sent.
    pub open spec fn takes_next(&self) -> bool {
        !self.closed && self.index < self.wanted@.len() && self.wanted@[self.index as int]
    }

    /// Takes the next frame, and returns a request once one is full.
    pub fn take(&mut self, frame: &[u8]) -> (r: Option<Vec<u8>>)
        requires
            old(self).index < u32::MAX,
        ensures
            final(self).index == old(self).index + 1,
            final(self).wanted@ == old(self).wanted@,
            final(self).closed == old(self).closed,
            ({
                let (request, rest) = after_frame(
                    old(self).batch@,
                    old(self).takes_next(),
                    old(self).index,
                    frame@,
                );
                &&& match r {
                    Some(b) => request == Some(b@),
                    None => request is None,
                }
                &&& final(self).batch@ == rest
            }),
    {
        let this: u32 = self.index;
        self.index = this + 1;
        if self.closed || this as usize >= self.wanted.len() || !self.wanted[this as usize] {
            return None;
        }
        push_record(&mut self.batch, this, frame);
        if self.batch.len() >= MAX_BATCH_BYTES {
            let mut full: Vec<u8> = Vec::new();
            std::mem::swap(&mut full, &mut self.batch);
            return Some(full);
        }
        None
    }

    /// Nobody takes any more requests; the encoding runs out without sending.
    pub fn close(&mut self)
        ensures
            final(self).closed,
            final(self).index == old(self).index,
            final(self).wanted@ == old(self).wanted@,
            final(self).batch@ == old(self).batch@,
    {
        self.closed = true;
    }

    /// The last request, if anything is left to send.
    pub fn finish(self) -> (r: Option<Vec<u8>>)
        ensures
            match r {
                Some(b) => !self.closed && b@ == self.batch@ && b@.len() > 0,
                None => self.closed || self.batch@.len() == 0,
            },
    {
        if self.closed || self.batch.len() == 0 {
            None
        } else {
            Some(self.batch)
        }
    }
}

/// The message about an encoding that did not give the same layer again.
pub open spec fn diverged_message(
    source: Seq<char>,
    produced: Seq<char>,
    expected: Seq<char>,
) -> Seq<char> {
    "app data: re-encoding "@ + source + " produced "@ + produced + (" instead of "@ + expected
        + "; the sealed codec must be deterministic and this layer is abandoned"@)
}

/// Holds the digest of a second encoding against that of the first.
pub fn check_converged(source: &str, produced: &str, expected: &str) -> (r: Result<(), CliError>)
    ensures
        match r {
            Ok(()) => produced@ == expected@,
            Err(e) => produced@ != expected@ && e@ == operational(
                diverged_message(source@, produced@, expected@),
            ),
        },
{
    if same(produced, expected) {
        Ok(())
    } else {
        Err(
            CliError::Operational(
                cat5(
                    "app data: re-encoding ",
                    source,
                    " produced ",
                    produced,
                    cat3(
                        " instead of ",
                        expected,
                        "; the sealed codec must be deterministic and this layer is abandoned",
                    ).as_str(),
                ),
            ),
        )
    }
}

// ---------------------------------------------------------------------------
// The ladder
// ---------------------------------------------------------------------------

/// What an abandoned upload comes back with.
pub const ABANDONED: &'static str =
    "app data: this upload was abandoned so the frozen volume could be released";

/// The error of an abandoned upload.
pub fn abandoned() -> (r: CliError)
    ensures
        r@ == operational(ABANDONED@),
{
    CliError::Operational(owned(ABANDONED))
}

/// The message about an upload that does not settle.
pub open spec fn stuck_message(repository: Seq<char>, digest: Seq<char>) -> Seq<char> {
    "app data: uploading "@ + digest + " to "@ + repository
        + " did not converge after 3 negotiations"@
}

fn stuck(repository: &str, digest: &str) -> (r: CliError)
    ensures
        r@ == operational(stuck_message(repository@, digest@)),
{
    CliError::Operational(
        cat5(
            "app data: uploading ",
            digest,
            " to ",
            repository,
            " did not converge after 3 negotiations",
        ),
    )
}

/// The session that an upload works in, and whether a later attempt may resume it.
#[derive(Debug, PartialEq, Eq)]
pub struct OpenSession {
    /// The negotiated session, until the layer is stored.
    pub id: Option<String>,
    /// Whether the session is left open. A cut cycle or a lost token comes back with the same
    /// recipe, and the registry then resumes it.
    pub keep: bool,
}

/// How the registry answers a request.
#[derive(Debug)]
pub enum Reply {
    Acknowledged,
    /// The session went away: the layer is to be negotiated again.
    Retry,
    Fatal(CliError),
}

/// What an upload has to do next.
#[derive(Debug, Clone, Copy, PartialEq, Eq, Structural)]
pub enum Rung {
    Negotiate,
    Send,
    Finalize,
    Over,
}

/// The upload of one layer, rung by rung.
#[derive(Debug)]
pub struct Ladder {
    pub repository: String,
    pub digest: String,
    pub negotiations: usize,
    pub open: OpenSession,
    pub rung: Rung,
    pub failure: Option<CliError>,
}

/// Where an upload stands.
pub struct LadderView {
    pub repository: Seq<char>,
    pub digest: Seq<char>,
    pub negotiations: int,
    pub session: Option<Seq<char>>,
    pub keep: bool,
    pub rung: Rung,
    pub failure: Option<ErrorView>,
}

impl View for Ladder {
    type V = LadderView;

    open spec fn view(&self) -> LadderView {
        LadderView {
            repository: self.repository@,
            digest: self.digest@,
            negotiations: self.negotiations as int,
            session: match self.open.id {
                Some(id) => Some(id@),
                None => None,
            },
            keep: self.open.keep,
            rung: self.rung,
            failure: match self.failure {
                Some(e) => Some(e@),
                None => None,
            },
        }
    }
}

/// An upload that failed in a way that offering the same recipe again cannot get past: its session
/// is not kept.
pub open spec fn spent(v: LadderView, failure: ErrorView) -> LadderView {
    LadderView { keep: false, rung: Rung::Over, failure: Some(failure), ..v }
}

/// An upload that has to be negotiated again, if it may.
pub open spec fn again(v: LadderView) -> LadderView {
    if v.negotiations < MAX_RESUME {
        LadderView { rung: Rung::Negotiate, ..v }
    } else {
        spent(v, operational(stuck_message(v.repository, v.digest)))
    }
}

/// What holds of an upload: it is negotiated at most so often, and a stored layer leaves no
/// session behind.
pub open spec fn ladder_holds(v: LadderView) -> bool {
    &&& 0 <= v.negotiations <= MAX_RESUME
    &&& v.rung == Rung::Negotiate ==> v.negotiations < MAX_RESUME && v.failure is None
    &&& v.rung == Rung::Send || v.rung == Rung::Finalize ==> v.session is Some && v.keep
        && v.failure is None
    &&& v.rung == Rung::Over && v.failure is None ==> v.session is None
}

/// The session that is handed back to the registry: one that is of no more use, where there is
/// leave to.
pub open spec fn handed_back(v: LadderView, cancelled: bool) -> Option<Seq<char>> {
    if v.keep || cancelled || (v.failure matches Some(e) && e.kind == ErrorKind::Auth) {
        None
    } else {
        v.session
    }
}

impl Ladder {
    /// The upload of the layer of that digest, before anything was sent.
    pub fn new(repository: &str, digest: &str) -> (r: Ladder)
        ensures
            r@ == (LadderView {
                repository: repository@,
                digest: digest@,
                negotiations: 0,
                session: None,
                keep: false,
                rung: Rung::Negotiate,
                failure: None,
            }),
            ladder_holds(r@),
    {
        Ladder {
            repository: owned(repository),
            digest: owned(digest),
            negotiations: 0,
            open: OpenSession { id: None, keep: false },
            rung: Rung::Negotiate,
            failure: None,
        }
    }

    /// The registry opened or resumed a session.
    pub fn negotiated(&mut self, session: &str)
        requires
            ladder_holds(old(self)@),
            old(self)@.rung == Rung::Negotiate,
        ensures
            final(self)@ == (LadderView {
                negotiations: old(self)@.negotiations + 1,
                session: Some(session@),
                keep: true,
                rung: Rung::Send,
                ..old(self)@
            }),
            ladder_holds(final(self)@),
    {
        self.negotiations = self.negotiations + 1;
        self.open = OpenSession { id: Some(owned(session)), keep: true };
        self.rung = Rung::Send;
    }

    /// The negotiation failed. A session that an earlier one opened is kept.
    pub fn refused(&mut self, e: CliError)
        requires
            ladder_holds(old(self)@),
            old(self)@.rung == Rung::Negotiate,
        ensures
            final(self)@ == (LadderView { rung: Rung::Over, failure: Some(e@), ..old(self)@ }),
            ladder_holds(final(self)@),
    {
        self.rung = Rung::Over;
        self.failure = Some(e);
    }

    fn spend(&mut self, e: CliError)
        requires
            ladder_holds(old(self)@),
        ensures
            final(self)@ == spent(old(self)@, e@),
            ladder_holds(final(self)@),
    {
        self.open.keep = false;
        self.rung = Rung::Over;
        self.failure = Some(e);
    }

    fn retry(&mut self)
        requires
            ladder_holds(old(self)@),
            old(self)@.failure is None,
        ensures
            final(self)@ == again(old(self)@),
            ladder_holds(final(self)@),
    {
        if self.negotiations < MAX_RESUME {
            self.rung = Rung::Negotiate;
        } else {
            let e = stuck(self.repository.as_str(), self.digest.as_str());
            self.spend(e);
        }
    }

    /// The registry answered one request.
    pub fn sent(&mut self, reply: Reply)
        requires
            ladder_holds(old(self)@),
            old(self)@.rung == Rung::Send,
        ensures
            final(self)@ == match reply {
                Reply::Acknowledged => old(self)@,
                Reply::Retry => again(old(self)@),
                Reply::Fatal(e) => spent(old(self)@, e@),
            },
            ladder_holds(final(self)@),
    {
        match reply {
            Reply::Acknowledged => {},
            Reply::Retry => {
                self.retry();
            },
            Reply::Fatal(e) => {
                self.spend(e);
            },
        }
    }

    /// What was to be sent could not be: a frame that the layer does not have, or a second
    /// encoding that failed.
    pub fn unsendable(&mut self, e: CliError)
        requires
            ladder_holds(old(self)@),
            old(self)@.rung == Rung::Send,
        ensures
            final(self)@ == spent(old(self)@, e@),
            ladder_holds(final(self)@),
    {
        self.spend(e);
    }

    /// Every missing frame has been acknowledged.
    pub fn all_sent(&mut self)
        requires
            ladder_holds(old(self)@),
            old(self)@.rung == Rung::Send,
        ensures
            final(self)@ == (LadderView { rung: Rung::Finalize, ..old(self)@ }),
            ladder_holds(final(self)@),
    {
        self.rung = Rung::Finalize;
    }

    /// The registry answered the request to store the layer.
    pub fn finalized(&mut self, reply: Reply)
        requires
            ladder_holds(old(self)@),
            old(self)@.rung == Rung::Finalize,
        ensures
            final(self)@ == match reply {
                Reply::Acknowledged => LadderView { session: None, rung: Rung::Over, ..old(self)@ },
                Reply::Retry => again(old(self)@),
                Reply::Fatal(e) => spent(old(self)@, e@),
            },
            ladder_holds(final(self)@),
    {
        match reply {
            Reply::Acknowledged => {
                self.open.id = None;
                self.rung = Rung::Over;
            },
            Reply::Retry => {
                self.retry();
            },
            Reply::Fatal(e) => {
                self.spend(e);
            },
        }
    }

    /// The session to hand back, once the upload is over: one that no retry will resume. A cut
    /// cycle keeps its session, and so does one whose token was rejected.
    pub fn hand_back(&self, cancelled: bool) -> (r: Option<String>)
        ensures
            match r {
                Some(id) => handed_back(self@, cancelled) == Some(id@),
                None => handed_back(self@, cancelled) is None,
            },
    {
        let rejected: bool = match &self.failure {
            Some(CliError::Auth(_)) => true,
            _ => false,
        };
        if self.open.keep || cancelled || rejected {
            return None;
        }
        self.open.id.clone()
    }
}

/// Whether an attempt is repeated with a fresh token: only the first, and only where the token was
/// rejected.
pub fn retries_with_fresh_token(attempt: usize, failure: &Option<CliError>) -> (r: bool)
    ensures
        r == (attempt == 0 && (failure matches Some(CliError::Auth(_)))),
{
    match failure {
        Some(CliError::Auth(_)) => attempt == 0,
        _ => false,
    }
}

// ---------------------------------------------------------------------------
// Commits
// ---------------------------------------------------------------------------

/// Whether a point is one of the capture loop's or the last that a node takes.
#[derive(Debug, Clone, Copy, PartialEq, Eq, Structural)]
pub enum CommitKind {
    Periodic,
    Final,
}

impl Default for CommitKind {
    fn default() -> (r: CommitKind)
        ensures
            r == CommitKind::Periodic,
    {
        CommitKind::Periodic
    }
}

impl CommitKind {
    /// Whether the point is the node's last.
    pub fn is_final(self) -> (r: bool)
        ensures
            r == (self == CommitKind::Final),
    {
        match self {
            CommitKind::Final => true,
            CommitKind::Periodic => false,
        }
    }

    /// The word that a commit writes for the kind.
    pub fn word(self) -> (r: &'static str)
        ensures
            r@ == match self {
                CommitKind::Periodic => "periodic"@,
                CommitKind::Final => "final"@,
            },
    {
        match self {
            CommitKind::Periodic => "periodic",
            CommitKind::Final => "final",
        }
    }
}

/// What a commit asks the server to record.
#[derive(Debug, PartialEq, Eq)]
pub struct CommitRequest {
    pub app: String,
    pub key_id: String,
    pub created_at: i64,
    pub index: LayerRef,
    pub layers: Vec<LayerRef>,
    pub files: u64,
    pub bytes: u64,
    pub kind: CommitKind,
}

/// A committed restore point.
#[derive(Debug, PartialEq, Eq)]
pub struct CommitOutcome {
    pub id: String,
    /// Whether the point is new: else the server had it already.
    pub created: bool,
}

/// The server's answer to a commit that it did not accept.
#[derive(Debug)]
pub enum CommitError {
    /// This node is no longer the slot's occupant.
    Fenced,
    Scope(String),
    Quota { stored: u64, limit: u64 },
    UnknownBlob(String),
    SizeMismatch(String),
    UnknownApp(String),
    RateLimited { retry_after_secs: i64 },
    Store,
    Transport(CliError),
    Unexpected { status: u16, body: String },
}

/// The message of a commit error.
pub open spec fn commit_message(e: CommitError) -> Seq<char> {
    match e {
        CommitError::Fenced =>
            "app data: this node no longer occupies its pool slot; capture stops here"@,
        CommitError::Scope(repository) => "app data: the push token does not authorize "@
            + repository@,
        CommitError::Quota { stored, limit } => "app data: the pool has stored "@ + decimal(
            stored as nat,
        ) + " bytes of its "@ + decimal(limit as nat) + "-byte allowance"@,
        CommitError::UnknownBlob(digest) => "app data: the server does not hold layer "@ + digest@
            + " \u{2014} it must be uploaded first"@,
        CommitError::SizeMismatch(digest) => "app data: layer "@ + digest@
            + " is stored at a different size than the commit declares"@,
        CommitError::UnknownApp(app) => "app data: "@ + debug_quoted(app@)
            + " is not a persisting app of this pool"@,
        CommitError::RateLimited { retry_after_secs } =>
            "app data: a restore point for this app was committed moments ago; the server asks for "@
            + signed_decimal(retry_after_secs as int) + "s"@,
        CommitError::Store => "app data: the registry could not verify the layers' sizes"@,
        CommitError::Transport(e) => cli_message(e),
        CommitError::Unexpected { status, body } => "app data: commit returned "@ + decimal(
            status as nat,
        ) + ": "@ + body@,
    }
}

impl CommitError {
    /// The message of the error.
    pub fn message(&self) -> (r: String)
        ensures
            r@ == commit_message(*self),
    {
        match self {
            CommitError::Fenced => owned(
                "app data: this node no longer occupies its pool slot; capture stops here",
            ),
            CommitError::Scope(repository) => cat2(
                "app data: the push token does not authorize ",
                repository.as_str(),
            ),
            CommitError::Quota { stored, limit } => cat5(
                "app data: the pool has stored ",
                decimal_of(*stored).as_str(),
                " bytes of its ",
                decimal_of(*limit).as_str(),
                "-byte allowance",
            ),
            CommitError::UnknownBlob(digest) => cat3(
                "app data: the server does not hold layer ",
                digest.as_str(),
                " \u{2014} it must be uploaded first",
            ),
            CommitError::SizeMismatch(digest) => cat3(
                "app data: layer ",
                digest.as_str(),
                " is stored at a different size than the commit declares",
            ),
            CommitError::UnknownApp(app) => cat3(
                "app data: ",
                quoted(app.as_str()).as_str(),
                " is not a persisting app of this pool",
            ),
            CommitError::RateLimited { retry_after_secs } => cat3(
                "app data: a restore point for this app was committed moments ago; the server asks for ",
                signed_decimal_of(*retry_after_secs).as_str(),
                "s",
            ),
            CommitError::Store => owned(
                "app data: the registry could not verify the layers' sizes",
            ),
            CommitError::Transport(e) => e.message(),
            CommitError::Unexpected { status, body } => cat4(
                "app data: commit returned ",
                decimal_of(*status as u64).as_str(),
                ": ",
                body.as_str(),
            ),
        }
    }
}

/// What the body of the server's answer says; what it leaves out is empty or 0.
#[derive(Debug, PartialEq, Eq)]
pub struct CommitAnswer {
    pub id: String,
    pub error: String,
    pub digest: String,
    pub stored: u64,
    pub limit: u64,
    pub app: String,
    pub retry_after: i64,
}

/// How much of an unexpected answer is repeated.
pub const MAX_ECHO: usize = 512;

/// The beginning of a text.
pub open spec fn beginning(s: Seq<char>, n: int) -> Seq<char> {
    if s.len() <= n {
        s
    } else {
        s.take(n)
    }
}

/// Whether this is how an answer to a commit is read.
pub open spec fn reads_as(
    r: Result<CommitOutcome, CommitError>,
    status: u16,
    answer: CommitAnswer,
    body: Seq<u8>,
    repository: Seq<char>,
) -> bool {
    if status == 201 || status == 200 {
        r matches Ok(outcome) && outcome.id@ == answer.id@ && outcome.created == (status == 201)
    } else if status == 403 {
        r matches Err(CommitError::Scope(s)) && s@ == repository
    } else if status == 409 {
        r matches Err(CommitError::Fenced)
    } else if status == 413 {
        r matches Err(CommitError::Quota { stored, limit }) && stored == answer.stored && limit
            == answer.limit
    } else if status == 422 && answer.error@ == "size-mismatch"@ {
        r matches Err(CommitError::SizeMismatch(s)) && s@ == answer.digest@
    } else if status == 422 && answer.error@ == "unknown-app"@ {
        r matches Err(CommitError::UnknownApp(s)) && s@ == answer.app@
    } else if status == 422 {
        r matches Err(CommitError::UnknownBlob(s)) && s@ == answer.digest@
    } else if status == 429 {
        r matches Err(CommitError::RateLimited { retry_after_secs }) && retry_after_secs
            == answer.retry_after
    } else if status == 503 {
        r matches Err(CommitError::Store)
    } else {
        r matches Err(CommitError::Unexpected { status: s, body: b }) && s == status && b@
            == beginning(lossy_text(body), MAX_ECHO as int)
    }
}

/// Reads the server's answer to a commit: its status, what its body says, and the body itself.
pub fn commit_outcome(status: u16, answer: CommitAnswer, body: &[u8], repository: &str) -> (r: Result<
    CommitOutcome,
    CommitError,
>)
    ensures
        reads_as(r, status, answer, body@, repository@),
{
    if status == 201 {
        Ok(CommitOutcome { id: answer.id, created: true })
    } else if status == 200 {
        Ok(CommitOutcome { id: answer.id, created: false })
    } else if status == 403 {
        Err(CommitError::Scope(owned(repository)))
    } else if status == 409 {
        Err(CommitError::Fenced)
    } else if status == 413 {
        Err(CommitError::Quota { stored: answer.stored, limit: answer.limit })
    } else if status == 422 {
        if same(answer.error.as_str(), "size-mismatch") {
            Err(CommitError::SizeMismatch(answer.digest))
        } else if same(answer.error.as_str(), "unknown-app") {
            Err(CommitError::UnknownApp(answer.app))
        } else {
            Err(CommitError::UnknownBlob(answer.digest))
        }
    } else if status == 429 {
        Err(CommitError::RateLimited { retry_after_secs: answer.retry_after })
    } else if status == 503 {
        Err(CommitError::Store)
    } else {
        let text = chars_of(utf8_lossy(body).as_str());
        let shown: usize = if text.len() <= MAX_ECHO {
            text.len()
        } else {
            MAX_ECHO
        };
        let body = slice_string(&text, 0, shown);
        assert(text@.subrange(0, shown as int) =~= beginning(text@, MAX_ECHO as int));
        Err(CommitError::Unexpected { status, body })
    }
}

// ---------------------------------------------------------------------------
// Reading the files of a layer
// ---------------------------------------------------------------------------

/// What reading a run of files has to do next.
#[derive(Debug, Clone, Copy, PartialEq, Eq, Structural)]
pub enum ChainStep {
    /// Open the file at that place.
    Open(usize),
    /// Read up to so many bytes of the open file.
    Read(usize),
    /// Everything has been read.
    End,
}

/// Reads a run of files back to back, exactly the bytes that the plan claims of each.
pub struct FileChain {
    files: Vec<PlannedFile>,
    /// The next file to open.
    next: usize,
    /// How much of the open file is still to be read.
    remaining: Option<u64>,
}

/// The planned bytes of the files from number `i` on.
pub open spec fn planned_from(files: Seq<PlannedFile>, i: int) -> int
    decreases files.len() - i,
{
    if i < 0 || i >= files.len() {
        0
    } else {
        files[i].len + planned_from(files, i + 1)
    }
}

/// The message about a file that is shorter than planned.
pub open spec fn shorter_message(path: Seq<char>, remaining: nat) -> Seq<char> {
    path + " is shorter than the "@ + decimal(remaining)
        + " bytes still planned for it; the capture view changed underneath the upload"@
}

impl FileChain {
    /// The files.
    pub closed spec fn files(&self) -> Seq<PlannedFile> {
        self.files@
    }

    /// The next file to open.
    pub closed spec fn next(&self) -> int {
        self.next as int
    }

    /// How much of the open file is still to be read.
    pub closed spec fn remaining(&self) -> Option<u64> {
        self.remaining
    }

    /// What holds of a chain: there is an open file only once one was opened.
    pub closed spec fn wf(&self) -> bool {
        self.next <= self.files@.len() && (self.remaining is Some ==> self.next > 0)
    }

    /// How many bytes are still to be read.
    pub open spec fn left(&self) -> int {
        planned_from(self.files(), self.next()) + match self.remaining() {
            Some(n) => n as int,
            None => 0,
        }
    }

    /// A chain before the first file.
    pub fn new(files: Vec<PlannedFile>) -> (r: FileChain)
        ensures
            r.wf(),
            r.files() == files@,
            r.next() == 0,
            r.remaining() is None,
            r.left() == planned_from(files@, 0),
    {
        FileChain { files, next: 0, remaining: None }
    }

    /// What is to be done next to fill a buffer of so many bytes.
    pub fn step(&self, room: usize) -> (r: ChainStep)
        requires
            self.wf(),
        ensures
            match self.remaining() {
                Some(n) => n > 0 ==> r == ChainStep::Read(
                    if n > room {
                        room
                    } else {
                        n as usize
                    },
                ),
                None => true,
            },
            !(self.remaining() matches Some(n) && n > 0) ==> r == (if self.next()
                < self.files().len() {
                ChainStep::Open(self.next() as usize)
            } else {
                ChainStep::End
            }),
            r is End ==> self.left() == 0,
    {
        match self.remaining {
            Some(n) => {
                if n > 0 {
                    return if n > room as u64 {
                        ChainStep::Read(room)
                    } else {
                        ChainStep::Read(n as usize)
                    };
                }
            },
            None => {},
        }
        if self.next < self.files.len() {
            ChainStep::Open(self.next)
        } else {
            ChainStep::End
        }
    }

    /// The next file has been opened.
    pub fn opened(&mut self)
        requires
            old(self).wf(),
            old(self).next() < old(self).files().len(),
            !(old(self).remaining() matches Some(n) && n > 0),
        ensures
            final(self).wf(),
            final(self).files() == old(self).files(),
            final(self).next() == old(self).next() + 1,
            final(self).remaining() == Some(old(self).files()[old(self).next()].len),
            final(self).left() == old(self).left(),
    {
        self.remaining = Some(self.files[self.next].len);
        assert(self.next < self.files.len());
        self.next = self.next + 1;
    }

    /// So many bytes of the open file have been read. None at all mean that the file ended early,
    /// which is refused: a shortfall would move the bytes of every file behind it.
    pub fn read(&mut self, n: usize) -> (r: Result<(), String>)
        requires
            old(self).wf(),
            old(self).remaining() matches Some(left) && left > 0 && n <= left,
        ensures
            final(self).wf(),
            final(self).files() == old(self).files(),
            final(self).next() == old(self).next(),
            final(self).remaining() == Some((old(self).remaining()->0 - n) as u64),
            final(self).left() == old(self).left() - n,
            match r {
                Ok(()) => n > 0,
                Err(m) => n == 0 && old(self).next() > 0 && m@ == shorter_message(
                    old(self).files()[old(self).next() - 1].source@,
                    old(self).remaining()->0 as nat,
                ),
            },
    {
        let left: u64 = match self.remaining {
            Some(left) => left,
            None => 0,
        };
        self.remaining = Some(left - n as u64);
        if n == 0 {
            return Err(
                cat4(
                    self.files[self.next - 1].source.as_str(),
                    " is shorter than the ",
                    decimal_of(left).as_str(),
                    " bytes still planned for it; the capture view changed underneath the upload",
                ),
            );
        }
        Ok(())
    }
}

/// An app is stored under the last segment of its reference, whatever precedes that and however
/// many slashes follow it.
pub proof fn law_an_app_is_stored_under_its_last_segment(
    base: Seq<char>,
    leaf: Seq<char>,
    front: Seq<char>,
)
    requires
        leaf.len() > 0,
        !leaf.contains('/'),
    ensures
        leaf_of(leaf) == leaf,
        leaf_of(front + seq!['/'] + leaf) == leaf,
        leaf_of(front + seq!['/'] + leaf + seq!['/']) == leaf,
        base.len() > 0 && base.last() != '/' ==> repository_of(base, front + seq!['/'] + leaf)
            == base + "/"@ + leaf,
{
    let tail = leaf + seq!['/'];
    crate::text::law_a_text_is_split_at_each_separator(leaf, '/', Seq::empty());
    assert(tail =~= leaf + seq!['/'] + Seq::<char>::empty());
    assert(!Seq::<char>::empty().contains('/'));
    crate::text::law_a_text_is_split_at_each_separator(Seq::empty(), '/', Seq::empty());
    let two = seq![leaf] + seq![Seq::<char>::empty()];
    assert(split(tail, '/') == two);
    assert(two.drop_last() =~= seq![leaf]);
    assert(two.last().len() == 0);
    reveal_with_fuel(last_filled, 3);
    assert(seq![leaf].last() == leaf);
    lemma_last_of_split(front, leaf);
    lemma_last_of_split(front, tail);
    assert(front + seq!['/'] + leaf + seq!['/'] =~= front + seq!['/'] + tail);
}

proof fn lemma_last_of_split(front: Seq<char>, tail: Seq<char>)
    requires
        last_filled(split(tail, '/')) is Some,
    ensures
        last_filled(split(front + seq!['/'] + tail, '/')) == last_filled(split(tail, '/')),
    decreases front.len(),
{
    crate::text::lemma_find_from(front, '/', 0);
    let k = crate::text::find(front, '/');
    let head = front.take(k);
    let rest = front.skip(k + 1);
    if head.contains('/') {
        let j = head.index_of('/');
        assert(front[j] == '/');
    }
    let whole = front + seq!['/'] + tail;
    if k < front.len() {
        assert(whole =~= head + seq!['/'] + (rest + seq!['/'] + tail));
        crate::text::law_a_text_is_split_at_each_separator(
            head,
            '/',
            rest + seq!['/'] + tail,
        );
        lemma_last_of_split(rest, tail);
        lemma_last_filled_behind(head, split(rest + seq!['/'] + tail, '/'));
    } else {
        assert(head =~= front);
        crate::text::law_a_text_is_split_at_each_separator(head, '/', tail);
        lemma_last_filled_behind(head, split(tail, '/'));
    }
}

proof fn lemma_last_filled_behind(first: Seq<char>, rest: Seq<Seq<char>>)
    requires
        last_filled(rest) is Some,
    ensures
        last_filled(seq![first] + rest) == last_filled(rest),
    decreases rest.len(),
{
    let all = seq![first] + rest;
    assert(all.last() == rest.last());
    if rest.last().len() == 0 {
        assert(all.drop_last() =~= seq![first] + rest.drop_last());
        lemma_last_filled_behind(first, rest.drop_last());
    }
}

/// A record is the frame's number and its length, each in four bytes, and then the frame as it is.
pub proof fn law_a_record_tells_its_frame(index: u32, frame: Seq<u8>)
    requires
        frame.len() <= u32::MAX,
    ensures
        record(index, frame).len() == 8 + frame.len(),
        record(index, frame).take(4) == le32(index),
        record(index, frame).subrange(4, 8) == le32(frame.len() as u32),
        record(index, frame).skip(8) == frame,
{
    crate::bytes::lemma_le32(index);
    crate::bytes::lemma_le32(frame.len() as u32);
    let r = record(index, frame);
    assert(r.take(4) =~= le32(index));
    assert(r.subrange(4, 8) =~= le32(frame.len() as u32));
    assert(r.skip(8) =~= frame);
}

/// A request is filled until it holds 8 MiB: no record is added to one that does, and one that
/// holds less has all the records that are left.
pub proof fn law_a_request_is_filled(
    frames: Seq<Seq<u8>>,
    missing: Seq<u32>,
    i: int,
    batch: Seq<u8>,
)
    requires
        0 <= i < missing.len(),
        batch.len() < 8 * 1024 * 1024,
        forall|k: int| 0 <= k < missing.len() ==> #[trigger] missing[k] < frames.len(),
    ensures
        batch_from(frames, missing, i, batch) matches Ok((b, next)) && {
            &&& i < next <= missing.len()
            &&& next < missing.len() ==> b.len() >= 8 * 1024 * 1024
            &&& b.len() - record(
                missing[next - 1],
                frames[missing[next - 1] as int],
            ).len() < 8 * 1024 * 1024
        },
    decreases missing.len() - i,
{
    let more = batch + record(missing[i], frames[missing[i] as int]);
    if more.len() < MAX_BATCH_BYTES && i + 1 < missing.len() {
        law_a_request_is_filled(frames, missing, i + 1, more);
    } else if more.len() < MAX_BATCH_BYTES {
        assert(batch_from(frames, missing, i + 1, more) == Ok::<(Seq<u8>, int), u32>((more, i + 1)));
    }
}

/// A registry that asks for a frame there is none of gets an error, not a request.
pub proof fn law_no_frame_is_made_up(
    frames: Seq<Seq<u8>>,
    missing: Seq<u32>,
    i: int,
    batch: Seq<u8>,
)
    requires
        0 <= i < missing.len(),
        missing[i] >= frames.len(),
    ensures
        batch_from(frames, missing, i, batch) == Err::<(Seq<u8>, int), u32>(missing[i]),
{
}

/// A frame of a second encoding is sent if it is wanted and is left out if it is not, and the
/// request leaves once it holds 8 MiB.
pub proof fn law_a_frame_is_sent_if_it_is_wanted(
    batch: Seq<u8>,
    wanted: bool,
    index: u32,
    frame: Seq<u8>,
)
    ensures
        ({
            let (request, rest) = after_frame(batch, wanted, index, frame);
            let more = batch + record(index, frame);
            &&& !wanted ==> request is None && rest == batch
            &&& wanted && more.len() >= 8 * 1024 * 1024 ==> request == Some(more) && rest.len() == 0
            &&& wanted && more.len() < 8 * 1024 * 1024 ==> request is None && rest == more
        }),
{
}

/// What is not asked for is skipped: asking for one more frame skips its bytes less, and asking for
/// it again changes nothing.
pub proof fn law_what_is_not_asked_for_is_skipped(
    layer: SealedLayer,
    missing: Seq<u32>,
    i: u32,
    n: int,
)
    requires
        0 <= n,
    ensures
        skipped(layer, missing, n) - skipped(layer, missing.push(i), n) == (if i < n && !missing.contains(
            i,
        ) {
            frame_len(layer, i as int)
        } else {
            0
        }),
        i < layer.toc.chunks@.len() ==> frame_len(layer, i as int)
            == layer.toc.chunks@[i as int].frame_length,
        i == layer.toc.chunks@.len() ==> frame_len(layer, i as int) == layer.toc_frame_length,
    decreases n,
{
    let more = missing.push(i);
    if n > 0 {
        law_what_is_not_asked_for_is_skipped(layer, missing, i, n - 1);
        assert(asked(more, n - 1) <==> asked(missing, n - 1) || i == n - 1) by {
            if asked(missing, n - 1) {
                let k = choose|k: int| 0 <= k < missing.len() && #[trigger] missing[k] == n - 1;
                assert(more[k] == n - 1);
            }
            if i == n - 1 {
                assert(more[missing.len() as int] == n - 1);
            }
            if asked(more, n - 1) {
                let k = choose|k: int| 0 <= k < more.len() && #[trigger] more[k] == n - 1;
                if k < missing.len() {
                    assert(missing[k] == n - 1);
                }
            }
        }
        if i == n - 1 {
            assert(asked(missing, n - 1) <==> missing.contains(i)) by {
                if asked(missing, n - 1) {
                    let k = choose|k: int| 0 <= k < missing.len() && #[trigger] missing[k] == n - 1;
                    assert(missing[k] == i);
                }
                if missing.contains(i) {
                    let k = missing.index_of(i);
                    assert(missing[k] == n - 1);
                }
            }
        }
    }
}

/// A negotiation that has to start again does so until there have been three, and then fails. It
/// goes on with the session it has; one that has failed gives it up.
pub proof fn law_an_upload_is_negotiated_three_times_at_most(v: LadderView)
    ensures
        v.negotiations < 3 ==> {
            &&& again(v).rung == Rung::Negotiate
            &&& again(v).failure == v.failure
            &&& again(v).session == v.session
            &&& again(v).keep == v.keep
        },
        v.negotiations >= 3 ==> {
            &&& again(v).rung == Rung::Over
            &&& again(v).failure is Some
            &&& !again(v).keep
        },
        again(v).negotiations == v.negotiations,
        ladder_holds(v) ==> v.negotiations <= 3,
        ladder_holds(v) && v.rung == Rung::Negotiate ==> v.negotiations < 3,
{
}

/// What a commit is answered is told by the code: success by 200 and 201, and only by 201 that the
/// point is new; each other code that has a meaning is that error and no other one is.
pub proof fn law_a_commit_is_read_by_its_code(
    r: Result<CommitOutcome, CommitError>,
    status: u16,
    answer: CommitAnswer,
    body: Seq<u8>,
    repository: Seq<char>,
)
    requires
        reads_as(r, status, answer, body, repository),
    ensures
        r is Ok <==> status == 200 || status == 201,
        r matches Ok(outcome) ==> (outcome.created <==> status == 201) && outcome.id@ == answer.id@,
        (r matches Err(CommitError::Scope(_))) <==> status == 403,
        (r matches Err(CommitError::Fenced)) <==> status == 409,
        (r matches Err(CommitError::Quota { .. })) <==> status == 413,
        r matches Err(CommitError::Quota { stored, limit }) ==> stored == answer.stored && limit
            == answer.limit,
        (r matches Err(CommitError::RateLimited { .. })) <==> status == 429,
        r matches Err(CommitError::RateLimited { retry_after_secs }) ==> retry_after_secs
            == answer.retry_after,
        (r matches Err(CommitError::Store)) <==> status == 503,
        (r matches Err(CommitError::SizeMismatch(_))) <==> status == 422 && answer.error@
            == "size-mismatch"@,
        (r matches Err(CommitError::UnknownApp(_))) <==> status == 422 && answer.error@
            == "unknown-app"@,
        (r matches Err(CommitError::UnknownBlob(_))) <==> status == 422 && answer.error@
            != "size-mismatch"@ && answer.error@ != "unknown-app"@,
        r matches Err(CommitError::UnknownBlob(digest)) ==> digest@ == answer.digest@,
        r matches Err(CommitError::SizeMismatch(digest)) ==> digest@ == answer.digest@,
        r matches Err(CommitError::UnknownApp(app)) ==> app@ == answer.app@,
        r matches Err(CommitError::Unexpected { status: s, body: b }) ==> s == status && b@.len()
            <= 512 && b@.is_prefix_of(lossy_text(body)),
{
    reveal_strlit("size-mismatch");
    reveal_strlit("unknown-app");
    assert("size-mismatch"@.len() != "unknown-app"@.len());
}

/// The files of a chain are planned one after the other, so that all of it is their lengths
/// together.
pub proof fn law_a_chain_is_as_long_as_its_files(a: Seq<PlannedFile>, b: Seq<PlannedFile>)
    ensures
        planned_from(a + b, a.len() as int) == planned_from(b, 0),
        planned_from(a + b, 0) == planned_from(a, 0) + planned_from(b, 0),
        a.len() == 1 ==> planned_from(a, 0) == a[0].len,
{
    lemma_planned_behind(a, b, 0);
    lemma_planned_front(a, b, 0);
    reveal_with_fuel(planned_from, 3);
}

proof fn lemma_planned_behind(a: Seq<PlannedFile>, b: Seq<PlannedFile>, i: int)
    requires
        0 <= i <= b.len(),
    ensures
        planned_from(a + b, a.len() + i) == planned_from(b, i),
    decreases b.len() - i,
{
    if i < b.len() {
        lemma_planned_behind(a, b, i + 1);
        assert((a + b)[a.len() + i] == b[i]);
    }
}

proof fn lemma_planned_front(a: Seq<PlannedFile>, b: Seq<PlannedFile>, i: int)
    requires
        0 <= i <= a.len(),
    ensures
        planned_from(a + b, i) == planned_from(a, i) + planned_from(a + b, a.len() as int),
    decreases a.len() - i,
{
    if i < a.len() {
        lemma_planned_front(a, b, i + 1);
        assert((a + b)[i] == a[i]);
    }
}

/// An upload on its way is shown as it is.
pub proof fn law_a_ladder_is_shown_as_it_is(ladder: Ladder)
    ensures
        ladder@.repository == ladder.repository@,
        ladder@.digest == ladder.digest@,
        ladder@.negotiations == ladder.negotiations,
        ladder@.rung == ladder.rung,
        ladder@.keep == ladder.open.keep,
        ladder@.session is Some <==> ladder.open.id is Some,
        ladder.open.id is Some ==> ladder@.session->Some_0 == ladder.open.id->Some_0@,
        ladder@.failure is Some <==> ladder.failure is Some,
        ladder.failure is Some ==> ladder@.failure->Some_0 == ladder.failure->Some_0@,
{
}

/// The next frame is taken if it is wanted, unless nothing is sent any more.
pub proof fn law_a_wanted_frame_is_taken(b: Batcher)
    ensures
        b.closed ==> !b.takes_next(),
        !b.closed && b.index < b.wanted@.len() ==> b.takes_next() == b.wanted@[b.index as int],
        b.index >= b.wanted@.len() ==> !b.takes_next(),
{
}

/// A session is handed back once its upload has failed for good, unless the registry has refused
/// the token or the upload was called off; one that is still in use, or that could be taken up
/// again, is kept.
pub proof fn law_a_used_session_is_not_handed_back(v: LadderView, e: ErrorView, cancelled: bool)
    ensures
        handed_back(v, true) is None,
        v.keep ==> handed_back(v, cancelled) is None,
        e.kind is Auth ==> handed_back(spent(v, e), false) is None,
        !(e.kind is Auth) ==> handed_back(spent(v, e), false) == v.session,
        v.session is None ==> handed_back(v, cancelled) is None,
        spent(v, e).session == v.session,
        spent(v, e).rung is Over,
        spent(v, e).failure == Some(e),
{
}

/// Frames are only sent in a session, which is then kept, and an upload that ended without a
/// failure has none left open.
pub proof fn law_frames_are_sent_in_a_session(v: LadderView)
    requires
        ladder_holds(v),
    ensures
        v.rung is Send || v.rung is Finalize ==> v.session is Some && v.keep && v.failure is None,
        v.rung is Negotiate ==> v.failure is None,
        v.rung is Over && v.failure is None ==> v.session is None,
{
}

} // verus!
