//! Moving blobs to and from a registry.

use crate::error::{misused, operational, CliError, ErrorView};
use crate::outside::{sha256, sha256_fed, sha256_finish, sha256_start, sha256_update, Sha256Stream};
use crate::persist::stream::{digest_bytes, digest_text};
use crate::registry::address::{
    chunk_boundaries, completing_url, content_range, cuts, finalize_url, location_url, range_text,
    url_for_location, url_for_path,
};
use crate::registry::status::{
    check_resource, resource_fault, status_error, step_fault, Status,
};
use crate::text::{
    cat2, cat3, cat4, cat5, chars_of, debug_quoted, decimal, decimal_of, hex, hex_of, owned, quoted,
    same, slice_string, starts_with,
};
use vstd::prelude::*;

verus! {

/// What a registry answered a request for a document with.
#[derive(Debug, PartialEq, Eq)]
pub struct RegistryResponse {
    pub body: Vec<u8>,
    pub content_type: String,
    /// The digest of the body.
    pub digest: String,
}

impl RegistryResponse {
    /// An answer, with the digest of its body.
    pub fn of(body: Vec<u8>, content_type: String) -> (r: RegistryResponse)
        ensures
            r.body@ == body@,
            r.content_type@ == content_type@,
            r.digest@ == digest_text(body@),
    {
        let digest = digest_bytes(body.as_slice());
        RegistryResponse { body, content_type, digest }
    }
}

/// What came of storing a manifest.
#[derive(Debug, PartialEq, Eq)]
pub struct PutManifestResponse {
    pub digest: String,
    /// What the registry says the manifest refers to, if it keeps track of that itself.
    pub oci_subject: Option<String>,
}

/// Reads the headers of an answer to storing a manifest. Where the registry does not name the
/// digest, it is that of the body.
pub fn stored_manifest(body: &[u8], digest: Option<String>, subject: Option<String>) -> (r:
    PutManifestResponse)
    ensures
        r.digest@ == match digest {
            Some(d) => d@,
            None => digest_text(body@),
        },
        r.oci_subject == subject,
{
    PutManifestResponse {
        digest: match digest {
            Some(d) => d,
            None => digest_bytes(body),
        },
        oci_subject: subject,
    }
}

/// The message about bytes that do not have the digest that they were asked for by.
pub open spec fn digest_mismatch(expected: Seq<char>, actual: Seq<char>) -> Seq<char> {
    "blob digest mismatch: expected "@ + expected + ", got "@ + actual
}

/// Refuses bytes that do not have the digest that they were asked for by.
pub fn verify_digest(body: &[u8], expected: &str) -> (r: Result<(), CliError>)
    ensures
        match r {
            Ok(()) => digest_text(body@) == expected@,
            Err(e) => digest_text(body@) != expected@ && e@ == operational(
                digest_mismatch(expected@, digest_text(body@)),
            ),
        },
{
    let actual = digest_bytes(body);
    if same(actual.as_str(), expected) {
        Ok(())
    } else {
        Err(
            CliError::Operational(
                cat4("blob digest mismatch: expected ", expected, ", got ", actual.as_str()),
            ),
        )
    }
}

// ---------------------------------------------------------------------------
// Downloads
// ---------------------------------------------------------------------------

/// The path of a blob.
pub open spec fn blob_path_of(repository: Seq<char>, digest: Seq<char>) -> Seq<char> {
    "/v2/"@ + repository + "/blobs/"@ + digest
}

/// The path of a blob.
pub fn blob_path(repository: &str, digest: &str) -> (r: String)
    ensures
        r@ == blob_path_of(repository@, digest@),
{
    cat4("/v2/", repository, "/blobs/", digest)
}

/// A blob on its way to disk.
#[derive(Debug)]
pub struct Download {
    pub path: String,
    pub digest: String,
    /// The hash in hexadecimal that the bytes must have.
    pub expected: String,
    /// The number of bytes that have arrived.
    pub done: u64,
    pub hasher: Sha256Stream,
}

/// What stops a download before its first byte.
pub open spec fn download_fault(repository: Seq<char>, digest: Seq<char>, status: Status) -> Option<
    ErrorView,
> {
    let bad = resource_fault("GET"@, blob_path_of(repository, digest), status);
    if bad is Some {
        bad
    } else if !"sha256:"@.is_prefix_of(digest) {
        Some(misused("unsupported digest algorithm in "@ + debug_quoted(digest)))
    } else {
        None
    }
}

/// The message about bytes on disk that do not have the digest that they were asked for by.
pub open spec fn hashed_message(path: Seq<char>, hash: Seq<u8>, digest: Seq<char>) -> Seq<char> {
    "registry blob "@ + path + " hashed to sha256:"@ + hex(hash) + (", want "@ + digest)
}

/// The message about bytes read from a stream that do not have the hash that they must have.
pub open spec fn read_message(expected: Seq<char>, hash: Seq<u8>) -> Seq<char> {
    "registry blob digest mismatch: expected sha256:"@ + expected + ", read sha256:"@ + hex(hash)
}

impl Download {
    /// The bytes that have arrived.
    pub open spec fn taken(&self) -> Seq<u8> {
        sha256_fed(self.hasher)
    }

    /// What holds of a download: it counts the bytes that have arrived.
    pub open spec fn wf(&self) -> bool {
        self.done == self.taken().len()
    }

    /// The download of a blob, once the registry has answered.
    pub fn start(repository: &str, digest: &str, status: &Status) -> (r: Result<
        Download,
        CliError,
    >)
        ensures
            match download_fault(repository@, digest@, *status) {
                None => r matches Ok(d) && d.path@ == blob_path_of(repository@, digest@)
                    && d.digest@ == digest@ && d.expected@ == digest@.skip(7) && d.taken()
                    == Seq::<u8>::empty() && d.wf(),
                Some(f) => r matches Err(e) && e@ == f,
            },
    {
        let path = blob_path(repository, digest);
        match check_resource("GET", path.as_str(), status) {
            Err(e) => {
                return Err(e);
            },
            Ok(()) => {},
        }
        let chars = chars_of(digest);
        proof {
            reveal_strlit("sha256:");
        }
        if !starts_with(&chars, "sha256:") {
            return Err(
                CliError::Usage(
                    cat2("unsupported digest algorithm in ", quoted(digest).as_str()),
                ),
            );
        }
        let expected = slice_string(&chars, 7, chars.len());
        assert(expected@ =~= digest@.skip(7));
        Ok(Download { path, digest: owned(digest), expected, done: 0, hasher: sha256_start() })
    }

    /// Some more bytes have arrived.
    pub fn take(&mut self, chunk: &[u8])
        requires
            old(self).wf(),
            old(self).done + chunk@.len() <= u64::MAX,
        ensures
            final(self).wf(),
            final(self).taken() == old(self).taken() + chunk@,
            final(self).path == old(self).path,
            final(self).digest == old(self).digest,
            final(self).expected == old(self).expected,
    {
        sha256_update(&mut self.hasher, chunk);
        self.done = self.done + chunk.len() as u64;
    }

    /// The error of a download that has stalled for so many seconds.
    pub fn stalled(&self, seconds: u64) -> (r: CliError)
        ensures
            r@ == operational(
                "read registry blob "@ + self.path@ + ": stalled for "@ + decimal(seconds as nat)
                    + ("s at byte "@ + decimal(self.done as nat)),
            ),
    {
        CliError::Operational(
            cat5(
                "read registry blob ",
                self.path.as_str(),
                ": stalled for ",
                decimal_of(seconds).as_str(),
                cat2("s at byte ", decimal_of(self.done).as_str()).as_str(),
            ),
        )
    }

    /// The end of a download: the number of bytes that have arrived, once their hash is the one
    /// asked for.
    pub fn finish(self) -> (r: Result<u64, CliError>)
        requires
            self.wf(),
        ensures
            match r {
                Ok(n) => n == self.taken().len() && hex(sha256(self.taken())) == self.expected@,
                Err(e) => hex(sha256(self.taken())) != self.expected@ && e@ == operational(
                    hashed_message(self.path@, sha256(self.taken()), self.digest@),
                ),
            },
    {
        let hash = sha256_finish(self.hasher);
        let actual = hex_of(hash.as_slice());
        if same(actual.as_str(), self.expected.as_str()) {
            Ok(self.done)
        } else {
            Err(
                CliError::Operational(
                    cat5(
                        "registry blob ",
                        self.path.as_str(),
                        " hashed to sha256:",
                        actual.as_str(),
                        cat2(", want ", self.digest.as_str()).as_str(),
                    ),
                ),
            )
        }
    }

    /// The end of a download that is read as it arrives.
    pub fn end_of_stream(self) -> (r: Result<(), String>)
        ensures
            match r {
                Ok(()) => hex(sha256(self.taken())) == self.expected@,
                Err(m) => hex(sha256(self.taken())) != self.expected@ && m@ == read_message(
                    self.expected@,
                    sha256(self.taken()),
                ),
            },
    {
        let hash = sha256_finish(self.hasher);
        let actual = hex_of(hash.as_slice());
        if same(actual.as_str(), self.expected.as_str()) {
            Ok(())
        } else {
            Err(
                cat4(
                    "registry blob digest mismatch: expected sha256:",
                    self.expected.as_str(),
                    ", read sha256:",
                    actual.as_str(),
                ),
            )
        }
    }
}

// ---------------------------------------------------------------------------
// Uploads
// ---------------------------------------------------------------------------

/// Where an upload stands.
#[derive(Debug, Clone, Copy, PartialEq, Eq, Structural)]
pub enum UploadStage {
    Starting,
    Sending,
    Stored,
}

/// What an upload has to do next.
#[derive(Debug, PartialEq, Eq)]
pub enum UploadAction {
    /// Ask for a session.
    Start { url: String },
    /// Send a chunk of the body.
    Chunk { url: String, start: usize, end: usize, range: String },
    /// Complete the upload, with the whole body or with none of it.
    Complete { url: String, whole: bool },
    /// Nothing: the blob is stored.
    Nothing,
}

/// The upload of one blob: in one request, or in chunks where it is longer than one.
#[derive(Debug, PartialEq, Eq)]
pub struct BlobUpload {
    pub base: String,
    pub repository: String,
    pub digest: String,
    pub len: usize,
    pub chunk_size: usize,
    pub ranges: Vec<(usize, usize)>,
    pub next: usize,
    pub location: String,
    pub stage: UploadStage,
}

/// The path that a session is asked for at.
pub open spec fn start_path_of(repository: Seq<char>) -> Seq<char> {
    "/v2/"@ + repository + "/blobs/uploads/"@
}

/// The size of a chunk, which is 1 at least.
pub open spec fn floored(size: usize) -> int {
    if size == 0 {
        1
    } else {
        size as int
    }
}

impl BlobUpload {
    /// What holds of an upload.
    pub open spec fn wf(&self) -> bool {
        &&& cuts(self.ranges@, self.len as int, floored(self.chunk_size))
        &&& self.next <= self.ranges@.len()
    }

    /// Whether the whole body goes in one request.
    pub open spec fn single(&self) -> bool {
        self.len <= self.chunk_size
    }

    /// The upload of a blob of so many bytes.
    pub fn new(base: &str, repository: &str, digest: &str, len: usize, chunk_size: usize) -> (r:
        BlobUpload)
        ensures
            r.wf(),
            r.base@ == base@,
            r.repository@ == repository@,
            r.digest@ == digest@,
            r.len == len,
            r.chunk_size == chunk_size,
            r.next == 0,
            r.location@ == Seq::<char>::empty(),
            r.stage == UploadStage::Starting,
    {
        BlobUpload {
            base: owned(base),
            repository: owned(repository),
            digest: owned(digest),
            len,
            chunk_size,
            ranges: chunk_boundaries(len, chunk_size),
            next: 0,
            location: String::new(),
            stage: UploadStage::Starting,
        }
    }

    /// What is to be done next.
    pub fn action(&self) -> (r: UploadAction)
        requires
            self.wf(),
        ensures
            match self.stage {
                UploadStage::Starting => r matches UploadAction::Start { url } && url@ == self.base@
                    + start_path_of(self.repository@),
                UploadStage::Sending => if !self.single() && self.next < self.ranges@.len() {
                    r matches UploadAction::Chunk { url, start, end, range } && url@
                        == location_url(self.base@, self.location@) && (start, end)
                        == self.ranges@[self.next as int] && range@ == range_text(
                        start as int,
                        end as int,
                    )
                } else {
                    r matches UploadAction::Complete { url, whole } && url@ == completing_url(
                        self.base@,
                        self.location@,
                        self.digest@,
                    ) && whole == self.single()
                },
                UploadStage::Stored => r is Nothing,
            },
    {
        match self.stage {
            UploadStage::Starting => {
                let path = cat3("/v2/", self.repository.as_str(), "/blobs/uploads/");
                UploadAction::Start { url: url_for_path(self.base.as_str(), path.as_str()) }
            },
            UploadStage::Sending => {
                if self.len > self.chunk_size && self.next < self.ranges.len() {
                    let (start, end) = self.ranges[self.next];
                    UploadAction::Chunk {
                        url: url_for_location(self.base.as_str(), self.location.as_str()),
                        start,
                        end,
                        range: content_range(start, end),
                    }
                } else {
                    UploadAction::Complete {
                        url: finalize_url(
                            self.base.as_str(),
                            self.location.as_str(),
                            self.digest.as_str(),
                        ),
                        whole: self.len <= self.chunk_size,
                    }
                }
            },
            UploadStage::Stored => UploadAction::Nothing,
        }
    }

    /// Everything but where the upload stands.
    pub open spec fn same_blob(&self, other: BlobUpload) -> bool {
        &&& self.base@ == other.base@
        &&& self.repository@ == other.repository@
        &&& self.digest@ == other.digest@
        &&& self.len == other.len
        &&& self.chunk_size == other.chunk_size
        &&& self.ranges@ == other.ranges@
    }

    /// The registry answered the request for a session.
    pub fn started(&mut self, status: &Status, location: Option<String>) -> (r: Result<
        (),
        CliError,
    >)
        requires
            old(self).wf(),
            old(self).stage == UploadStage::Starting,
        ensures
            final(self).wf(),
            final(self).same_blob(*old(self)),
            final(self).next == old(self).next,
            if status.code != 202 {
                r matches Err(e) && e@ == step_fault(
                    "registry upload start"@,
                    start_path_of(old(self).repository@),
                    *status,
                )
            } else {
                match location {
                    None => r matches Err(e) && e@ == operational(
                        "registry upload omitted Location"@,
                    ),
                    Some(at) => r is Ok && final(self).location@ == at@ && final(self).stage
                        == UploadStage::Sending,
                }
            },
            r is Err ==> *final(self) == *old(self),
    {
        if status.code != 202 {
            let path = cat3("/v2/", self.repository.as_str(), "/blobs/uploads/");
            return Err(status_error("registry upload start", path.as_str(), status));
        }
        match location {
            None => Err(CliError::Operational(owned("registry upload omitted Location"))),
            Some(at) => {
                self.location = at;
                self.stage = UploadStage::Sending;
                Ok(())
            },
        }
    }

    /// The registry answered a chunk. It may name another location for the next one.
    pub fn chunk_sent(&mut self, status: &Status, location: Option<String>) -> (r: Result<
        usize,
        CliError,
    >)
        requires
            old(self).wf(),
            old(self).stage == UploadStage::Sending,
            old(self).next < old(self).ranges@.len(),
        ensures
            final(self).wf(),
            final(self).same_blob(*old(self)),
            final(self).stage == old(self).stage,
            match r {
                Ok(sent) => status.code == 202 && sent == old(self).ranges@[old(self).next as int].1
                    && final(self).next == old(self).next + 1 && final(self).location@ == (
                match location {
                    Some(at) => at@,
                    None => old(self).location@,
                }),
                Err(e) => status.code != 202 && *final(self) == *old(self) && e@ == step_fault(
                    "registry upload chunk"@,
                    location_url(old(self).base@, old(self).location@),
                    *status,
                ),
            },
    {
        if status.code != 202 {
            let url = url_for_location(self.base.as_str(), self.location.as_str());
            return Err(status_error("registry upload chunk", url.as_str(), status));
        }
        let (_, end) = self.ranges[self.next];
        assert(self.next < self.ranges.len());
        self.next = self.next + 1;
        match location {
            Some(at) => {
                self.location = at;
            },
            None => {},
        }
        Ok(end)
    }

    /// The registry answered the request that completes the upload.
    pub fn completed(&mut self, status: &Status) -> (r: Result<(), CliError>)
        requires
            old(self).wf(),
            old(self).stage == UploadStage::Sending,
        ensures
            final(self).wf(),
            final(self).same_blob(*old(self)),
            final(self).next == old(self).next,
            match r {
                Ok(()) => status.code == 201 && final(self).location@ == old(self).location@
                    && final(self).stage == UploadStage::Stored,
                Err(e) => status.code != 201 && *final(self) == *old(self) && e@ == step_fault(
                    "registry upload complete"@,
                    completing_url(old(self).base@, old(self).location@, old(self).digest@),
                    *status,
                ),
            },
    {
        if status.code != 201 {
            let url = finalize_url(
                self.base.as_str(),
                self.location.as_str(),
                self.digest.as_str(),
            );
            return Err(status_error("registry upload complete", url.as_str(), status));
        }
        self.stage = UploadStage::Stored;
        Ok(())
    }
}

/// The chunks of a body, one behind the other, up to number `n`.
pub open spec fn chunks_upto(body: Seq<u8>, ranges: Seq<(usize, usize)>, n: int) -> Seq<u8>
    decreases n,
{
    if n <= 0 {
        Seq::empty()
    } else {
        chunks_upto(body, ranges, n - 1) + body.subrange(
            ranges[n - 1].0 as int,
            ranges[n - 1].1 as int,
        )
    }
}

proof fn lemma_chunks_upto(body: Seq<u8>, ranges: Seq<(usize, usize)>, size: int, n: int)
    requires
        cuts(ranges, body.len() as int, size),
        0 < n <= ranges.len(),
    ensures
        ranges[n - 1].1 <= body.len(),
        chunks_upto(body, ranges, n) == body.take(ranges[n - 1].1 as int),
    decreases n,
{
    lemma_within(ranges, body.len() as int, size, n - 1);
    if n == 1 {
        assert(chunks_upto(body, ranges, 0) =~= Seq::<u8>::empty());
        assert(chunks_upto(body, ranges, 1) =~= body.take(ranges[0].1 as int));
    } else {
        lemma_chunks_upto(body, ranges, size, n - 1);
        assert(ranges[n - 2].1 == ranges[n - 1].0);
        assert(chunks_upto(body, ranges, n) =~= body.take(ranges[n - 1].1 as int));
    }
}

proof fn lemma_within(ranges: Seq<(usize, usize)>, len: int, size: int, i: int)
    requires
        cuts(ranges, len, size),
        0 <= i < ranges.len(),
    ensures
        ranges[i].1 <= len,
    decreases ranges.len() - i,
{
    if i < ranges.len() - 1 {
        lemma_within(ranges, len, size, i + 1);
        assert(ranges[i].1 == ranges[i + 1].0);
        assert(ranges[i + 1].0 < ranges[i + 1].1);
    }
}

/// The chunks of an upload are the body, each byte once and in its order.
pub proof fn law_chunks_are_the_body(body: Seq<u8>, ranges: Seq<(usize, usize)>, size: int)
    requires
        cuts(ranges, body.len() as int, size),
    ensures
        chunks_upto(body, ranges, ranges.len() as int) == body,
{
    if ranges.len() > 0 {
        lemma_chunks_upto(body, ranges, size, ranges.len() as int);
        assert(body.take(body.len() as int) =~= body);
    } else {
        assert(body =~= Seq::<u8>::empty());
    }
}

/// A download is taken exactly where its bytes have the digest that it was asked for by: a blob is
/// only asked for by a digest of the algorithm that is checked, and the hash that its bytes must
/// have is all that follows the algorithm.
pub proof fn law_a_download_has_the_digest_it_was_asked_for(
    repository: Seq<char>,
    digest: Seq<char>,
    status: Status,
    hash: Seq<u8>,
)
    ensures
        download_fault(repository, digest, status) is None <==> 200 <= status.code <= 299
            && digest.len() >= 7 && digest.take(7) == "sha256:"@,
        download_fault(repository, digest, status) is None ==> (hex(hash) == digest.skip(7)
            <==> digest == "sha256:"@ + hex(hash)),
{
    reveal_strlit("sha256:");
    if digest.len() >= 7 {
        assert(digest =~= digest.take(7) + digest.skip(7));
    }
    let named = "sha256:"@ + hex(hash);
    assert(named.skip(7) =~= hex(hash));
}

/// A blob is read with leave to pull from its repository, and an upload is begun with leave to push
/// to it.
pub proof fn law_a_blob_needs_the_scope_of_its_repository(
    repository: Seq<char>,
    digest: Seq<char>,
)
    requires
        repository.len() > 0,
        !repository.contains('?'),
        !digest.contains('?'),
        !digest.contains('/'),
    ensures
        crate::registry::address::needed_scope(
            crate::registry::address::Method::Get,
            blob_path_of(repository, digest),
        ) == Some("repository:"@ + repository + ":pull"@),
        crate::registry::address::needed_scope(
            crate::registry::address::Method::Post,
            start_path_of(repository),
        ) == Some("repository:"@ + repository + ":push"@),
{
    reveal_strlit("/blobs/");
    reveal_strlit("/manifests/");
    reveal_strlit("/tags/");
    reveal_strlit("uploads/");
    reveal_strlit("/blobs/uploads/");
    let none = Seq::<char>::empty();
    let a = "/blobs/"@ + digest;
    assert forall|k: int| 0 < k implies !(#[trigger] crate::text::stands_at(a, "/manifests/"@, k))
        && !crate::text::stands_at(a, "/blobs/"@, k) && !crate::text::stands_at(a, "/tags/"@, k) by {
        lemma_slashes_differ(a, "/manifests/"@, k, digest);
        lemma_slashes_differ(a, "/blobs/"@, k, digest);
        lemma_slashes_differ(a, "/tags/"@, k, digest);
    }
    crate::registry::address::law_a_resource_needs_the_scope_of_its_repository(
        crate::registry::address::Method::Get,
        repository,
        "/blobs/"@,
        digest,
        none,
    );
    let b = "/blobs/"@ + "uploads/"@;
    assert("/blobs/uploads/"@ =~= b);
    assert forall|k: int| 0 < k implies !(#[trigger] crate::text::stands_at(b, "/manifests/"@, k))
        && !crate::text::stands_at(b, "/blobs/"@, k) && !crate::text::stands_at(b, "/tags/"@, k) by {
        if crate::text::stands_at(b, "/manifests/"@, k) {
            assert(b.subrange(k, k + 11)[0] == b[k]);
        }
        if crate::text::stands_at(b, "/blobs/"@, k) {
            assert(b.subrange(k, k + 7)[0] == b[k]);
            assert(b.subrange(k, k + 7)[1] == b[k + 1]);
        }
        if crate::text::stands_at(b, "/tags/"@, k) {
            assert(b.subrange(k, k + 6)[0] == b[k]);
            assert(b.subrange(k, k + 6)[1] == b[k + 1]);
        }
    }
    crate::registry::address::law_a_resource_needs_the_scope_of_its_repository(
        crate::registry::address::Method::Post,
        repository,
        "/blobs/"@,
        "uploads/"@,
        none,
    );
    assert("/v2/"@ + repository + "/blobs/"@ + "uploads/"@ =~= "/v2/"@ + repository
        + "/blobs/uploads/"@);
}

proof fn lemma_slashes_differ(a: Seq<char>, p: Seq<char>, k: int, digest: Seq<char>)
    requires
        a == "/blobs/"@ + digest,
        !digest.contains('/'),
        p.len() > 2,
        p[0] == '/',
        p.last() == '/',
        0 < k,
    ensures
        !crate::text::stands_at(a, p, k),
{
    reveal_strlit("/blobs/");
    if crate::text::stands_at(a, p, k) {
        let end = k + p.len() - 1;
        let part = a.subrange(k, k + p.len());
        assert(part[0] == a[k]);
        assert(part.last() == a[end]);
        if k >= 7 {
            assert(digest[k - 7] == '/');
        }
        assert(end > 6);
        assert(digest[end - 7] == '/');
    }
}

/// A blob that fits one piece is uploaded in one.
pub proof fn law_what_fits_one_piece_is_one(u: BlobUpload)
    requires
        u.wf(),
        u.chunk_size > 0,
    ensures
        u.single() <==> u.ranges@.len() <= 1,
{
    if u.ranges@.len() == 1 {
        assert(u.ranges@[0] == u.ranges@.last());
        assert(u.ranges@[0].1 <= u.ranges@[0].0 + u.chunk_size);
    }
    if u.ranges@.len() > 1 {
        assert(u.ranges@[0].1 == u.ranges@[0].0 + u.chunk_size);
        lemma_ranges_go_on(u.ranges@, u.len as int, u.chunk_size as int, 1);
    }
}

proof fn lemma_ranges_go_on(ranges: Seq<(usize, usize)>, len: int, size: int, i: int)
    requires
        cuts(ranges, len, size),
        size > 0,
        1 <= i < ranges.len(),
    ensures
        ranges[i].0 >= size,
        ranges[i].1 > size,
        len > size,
    decreases ranges.len() - i,
{
    assert(ranges[0].1 == ranges[0].0 + size);
    assert(ranges[i].0 >= size) by {
        lemma_range_begins(ranges, len, size, i);
    }
    assert(ranges[i].0 < ranges[i].1);
    if i + 1 < ranges.len() {
        lemma_ranges_go_on(ranges, len, size, i + 1);
    } else {
        assert(ranges[i] == ranges.last());
    }
}

proof fn lemma_range_begins(ranges: Seq<(usize, usize)>, len: int, size: int, i: int)
    requires
        cuts(ranges, len, size),
        size > 0,
        1 <= i < ranges.len(),
    ensures
        ranges[i].0 >= size,
    decreases i,
{
    assert(ranges[i - 1].1 == ranges[i - 1].0 + size && ranges[i - 1].1 == ranges[i - 1 + 1].0);
    if i > 1 {
        lemma_range_begins(ranges, len, size, i - 1);
    }
}

/// An upload stays the upload of its blob.
pub proof fn law_an_upload_stays_of_its_blob(a: BlobUpload, b: BlobUpload)
    requires
        a.same_blob(b),
    ensures
        a.base@ == b.base@,
        a.repository@ == b.repository@,
        a.digest@ == b.digest@,
        a.len == b.len,
        a.chunk_size == b.chunk_size,
        a.ranges@ == b.ranges@,
{
}

} // verus!
