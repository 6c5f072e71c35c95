//! Progress of long-running transfers. The library says what happened; showing it is the caller's.

use crate::error::{cli_message, CliError};
use crate::text::owned;
use vstd::prelude::*;

verus! {

/// What an event is about.
#[derive(Debug, Clone, Copy, PartialEq, Eq, Structural)]
pub enum ProgressKind {
    /// A manifest or an index.
    Manifest,
    /// A blob.
    Blob,
    /// A file that is written to disk.
    File,
}

/// Where one item stands. The total is not known where the registry does not say it.
#[derive(Debug, PartialEq, Eq)]
pub enum ProgressPhase {
    Downloading { done: u64, total: Option<u64> },
    Uploading { done: u64, total: Option<u64> },
    /// The bytes are held against their digest.
    Verifying,
    Writing,
    /// The item was in the cache already.
    Cached,
    /// The item was on the other side already.
    Exists,
    Done,
    Failed { message: String },
}

/// One update about one item.
#[derive(Debug, PartialEq, Eq)]
pub struct ProgressEvent {
    /// What tells the item from others: a digest, a reference or a title.
    pub key: String,
    pub kind: ProgressKind,
    pub phase: ProgressPhase,
}

impl ProgressEvent {
    /// An update.
    pub fn new(key: String, kind: ProgressKind, phase: ProgressPhase) -> (r: ProgressEvent)
        ensures
            r == (ProgressEvent { key, kind, phase }),
    {
        ProgressEvent { key, kind, phase }
    }
}

/// Takes updates. It is called between chunks, so it must be quick.
pub trait ProgressReporter {
    fn report(&self, event: ProgressEvent);
}

/// The phase of an item whose transfer begins.
pub fn downloading() -> (r: ProgressPhase)
    ensures
        r == (ProgressPhase::Downloading { done: 0, total: None }),
{
    ProgressPhase::Downloading { done: 0, total: None }
}

/// The phase of an item that failed.
pub fn failed(e: &CliError) -> (r: ProgressPhase)
    ensures
        r matches ProgressPhase::Failed { message } && message@ == cli_message(*e),
{
    ProgressPhase::Failed { message: e.message() }
}

/// Whether an update is about this thing, in this phase.
pub open spec fn is_event(e: ProgressEvent, key: Seq<char>, kind: ProgressKind, phase: ProgressPhase) -> bool {
    e.key@ == key && e.kind == kind && e.phase == phase
}

/// An update about a blob.
pub fn blob_event(digest: &str, phase: ProgressPhase) -> (r: ProgressEvent)
    ensures
        is_event(r, digest@, ProgressKind::Blob, phase),
{
    ProgressEvent { key: owned(digest), kind: ProgressKind::Blob, phase }
}

/// An update about a manifest.
pub fn manifest_event(reference: &str, phase: ProgressPhase) -> (r: ProgressEvent)
    ensures
        is_event(r, reference@, ProgressKind::Manifest, phase),
{
    ProgressEvent { key: owned(reference), kind: ProgressKind::Manifest, phase }
}

/// An update about a file.
pub fn file_event(title: &str, phase: ProgressPhase) -> (r: ProgressEvent)
    ensures
        is_event(r, title@, ProgressKind::File, phase),
{
    ProgressEvent { key: owned(title), kind: ProgressKind::File, phase }
}

} // verus!
