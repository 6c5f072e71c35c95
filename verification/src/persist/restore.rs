//! Reading a restore point's index and materializing the point.
//!
//! The index arrives over the network. Every path and every symlink target in it is checked while
//! it is parsed, whatever the entry's kind, and its size is capped. A point is then materialized
//! in phases: directories, files, the files' metadata, and only then symlinks, so that nothing is
//! ever written or given a mode through a link.

use crate::error::{cli_message, CliError};
use crate::persist::seal::SealError;
use crate::persist::stream::{stream_message, StreamError};
use crate::persist::tree::{
    byte_len, in_sequence, last_path, len_in_bytes, link_target_is_safe, may_follow, mirror,
    mirrored, safe_target, tree_message, Entry, EntryRef, IndexHeader, Kind, LayerRef, TreeError,
    INDEX_VERSION, MAX_PATH_LEN,
};
use crate::text::{
    cat2, cat3, cat5, chars_of, contains_char, debug_quoted, decimal, decimal_of, less, owned,
    pieces, quoted, same_chars, split, str_less, views,
};
use vstd::prelude::*;

verus! {

/// Entries that one restore point may carry.
pub const MAX_INDEX_ENTRIES: usize = 2_000_000;

/// Bytes of path and symlink-target text that one index may hold.
pub const MAX_PATH_ARENA: usize = 0x1000_0000;

/// Bytes that one line of the index may take.
pub const MAX_INDEX_LINE: usize = 0x1_0000;

/// Errors from restoring a point.
#[derive(Debug)]
pub enum RestoreError {
    /// I/O failed; `exists` where something was already there.
    Io { message: String, exists: bool },
    Stream(StreamError),
    Index(TreeError),
    Registry(CliError),
    TooManyEntries,
    PathsTooLarge,
    LineTooLong,
    PathTooLong,
    UnsafeLinkTarget(String),
    DanglingLayer(String, u32),
    UnsafePath(String),
    Unplaced(String),
    BadParent(String),
    LayerShort { digest: String, read: u64, needed: u64 },
    LayerRange { digest: String, offset: u64, len: u64 },
    LayerUnauthentic { number: usize, total: usize, digest: String },
    Task(String),
}

/// The message of a restore error.
pub open spec fn restore_message(e: RestoreError) -> Seq<char> {
    match e {
        RestoreError::Io { message, .. } => "app data restore I/O: "@ + message@,
        RestoreError::Stream(s) => stream_message(s),
        RestoreError::Index(t) => tree_message(t),
        RestoreError::Registry(c) => cli_message(c),
        RestoreError::TooManyEntries => "app data index carries more than 2000000 entries"@,
        RestoreError::PathsTooLarge => "app data index paths exceed the 268435456-byte budget"@,
        RestoreError::LineTooLong => "app data index carries a line longer than 65536 bytes"@,
        RestoreError::PathTooLong =>
            "app data index carries a path longer than the 4096-byte limit"@,
        RestoreError::UnsafeLinkTarget(path) => "app data index entry "@ + debug_quoted(path@)
            + " is a symlink whose target cannot be restored inside the app tree"@,
        RestoreError::DanglingLayer(path, layer) => "app data index entry "@ + debug_quoted(path@)
            + " references layer "@ + decimal(layer as nat) + ", which the index does not list"@,
        RestoreError::UnsafePath(path) => "app data index entry "@ + debug_quoted(path@)
            + " is not a path that can be restored inside the app tree"@,
        RestoreError::Unplaced(path) => "app data index entry "@ + debug_quoted(path@)
            + " is a file with no location in any layer"@,
        RestoreError::BadParent(path) => "app data index entry "@ + debug_quoted(path@)
            + " has no directory to be restored into, or its parent is not one this restore created"@,
        RestoreError::LayerShort { digest, read, needed } => "app data layer "@ + digest@
            + " ends after "@ + decimal(read as nat) + (" bytes; entries reach to "@ + decimal(
            needed as nat,
        )),
        RestoreError::LayerRange { digest, offset, len } => "app data layer "@ + digest@
            + " holds an entry at offset "@ + decimal(offset as nat) + (" of length "@ + decimal(
            len as nat,
        ) + ", a range no layer can have"@),
        RestoreError::LayerUnauthentic { number, total, digest } => "app data layer "@ + decimal(
            number as nat,
        ) + " of "@ + decimal(total as nat) + (" ("@ + digest@
            + ") failed authentication: no key given opens it. This restore point has layers sealed under more than one key: pass every key the pool holds (the node page's Pull command lists them all)"@),
        RestoreError::Task(source) => "app data restore task failed: "@ + source@,
    }
}

impl RestoreError {
    /// The message of the error.
    pub fn message(&self) -> (r: String)
        ensures
            r@ == restore_message(*self),
    {
        match self {
            RestoreError::Io { message, .. } => cat2("app data restore I/O: ", message.as_str()),
            RestoreError::Stream(s) => s.message(),
            RestoreError::Index(t) => t.message(),
            RestoreError::Registry(c) => c.message(),
            RestoreError::TooManyEntries => owned(
                "app data index carries more than 2000000 entries",
            ),
            RestoreError::PathsTooLarge => owned(
                "app data index paths exceed the 268435456-byte budget",
            ),
            RestoreError::LineTooLong => owned(
                "app data index carries a line longer than 65536 bytes",
            ),
            RestoreError::PathTooLong => owned(
                "app data index carries a path longer than the 4096-byte limit",
            ),
            RestoreError::UnsafeLinkTarget(path) => cat3(
                "app data index entry ",
                quoted(path.as_str()).as_str(),
                " is a symlink whose target cannot be restored inside the app tree",
            ),
            RestoreError::DanglingLayer(path, layer) => cat5(
                "app data index entry ",
                quoted(path.as_str()).as_str(),
                " references layer ",
                decimal_of(*layer as u64).as_str(),
                ", which the index does not list",
            ),
            RestoreError::UnsafePath(path) => cat3(
                "app data index entry ",
                quoted(path.as_str()).as_str(),
                " is not a path that can be restored inside the app tree",
            ),
            RestoreError::Unplaced(path) => cat3(
                "app data index entry ",
                quoted(path.as_str()).as_str(),
                " is a file with no location in any layer",
            ),
            RestoreError::BadParent(path) => cat3(
                "app data index entry ",
                quoted(path.as_str()).as_str(),
                " has no directory to be restored into, or its parent is not one this restore created",
            ),
            RestoreError::LayerShort { digest, read, needed } => cat5(
                "app data layer ",
                digest.as_str(),
                " ends after ",
                decimal_of(*read).as_str(),
                cat2(" bytes; entries reach to ", decimal_of(*needed).as_str()).as_str(),
            ),
            RestoreError::LayerRange { digest, offset, len } => cat5(
                "app data layer ",
                digest.as_str(),
                " holds an entry at offset ",
                decimal_of(*offset).as_str(),
                cat3(
                    " of length ",
                    decimal_of(*len).as_str(),
                    ", a range no layer can have",
                ).as_str(),
            ),
            RestoreError::LayerUnauthentic { number, total, digest } => cat5(
                "app data layer ",
                decimal_of(*number as u64).as_str(),
                " of ",
                decimal_of(*total as u64).as_str(),
                cat3(
                    " (",
                    digest.as_str(),
                    ") failed authentication: no key given opens it. This restore point has layers sealed under more than one key: pass every key the pool holds (the node page's Pull command lists them all)",
                ).as_str(),
            ),
            RestoreError::Task(source) => cat2(
                "app data restore task failed: ",
                source.as_str(),
            ),
        }
    }

    /// The error as a command reports it: a registry failure keeps its kind, something that was
    /// already there is a conflict, and everything else is operational.
    pub fn into_cli(self) -> (r: CliError)
        ensures
            match self {
                RestoreError::Registry(c) => r == c,
                RestoreError::Io { message, exists: true } => r == CliError::Conflict(message),
                _ => r matches CliError::Operational(m) && m@ == restore_message(self),
            },
    {
        match self {
            RestoreError::Registry(c) => c,
            RestoreError::Io { message, exists: true } => CliError::Conflict(message),
            other => CliError::Operational(other.message()),
        }
    }
}

/// Names the layer that an authentication failure happened on. A layer that no key opens is
/// almost always a rotated pool read with fewer keys than it holds. Any other error passes
/// through untouched.
pub fn name_the_layer(err: RestoreError, number: usize, total: usize, digest: &str) -> (r:
    RestoreError)
    ensures
        match err {
            RestoreError::Stream(StreamError::Seal(SealError::Unauthentic)) => r matches RestoreError::LayerUnauthentic {
                number: n,
                total: t,
                digest: d,
            } && n == number && t == total && d@ == digest@,
            _ => r == err,
        },
{
    match err {
        RestoreError::Stream(StreamError::Seal(SealError::Unauthentic)) => {
            RestoreError::LayerUnauthentic { number, total, digest: owned(digest) }
        },
        other => other,
    }
}

/// A restore point, as the reply that offers it describes it.
#[derive(Debug, PartialEq, Eq)]
pub struct RestorePoint {
    pub app: String,
    pub id: String,
    pub key_id: String,
    pub created_at: i64,
    pub index: LayerRef,
    /// Declared by whoever wrote the point.
    pub files: u64,
    /// Declared plaintext total.
    pub bytes: u64,
}

/// What a restore put on disk.
#[derive(Debug, Clone, Copy, PartialEq, Eq, Structural)]
pub struct RestoreStats {
    pub files: u64,
    pub dirs: u64,
    pub symlinks: u64,
    pub bytes: u64,
    pub layers: usize,
}

// ---------------------------------------------------------------------------
// Paths
// ---------------------------------------------------------------------------

/// Whether a path segment cannot be restored.
pub open spec fn bad_segment(segment: Seq<char>) -> bool {
    ||| segment == ""@
    ||| segment == "."@
    ||| segment == ".."@
    ||| segment.contains('\\')
    ||| segment.contains(':')
    ||| segment.contains('\0')
}

/// Whether every segment of a path can be restored.
pub open spec fn good_segments(path: Seq<char>) -> bool {
    forall|i: int|
        0 <= i < split(path, '/').len() ==> !bad_segment(#[trigger] split(path, '/')[i])
}

/// Whether a path names something inside the tree that it is restored into.
pub open spec fn safe_path(path: Seq<char>) -> bool {
    path.len() > 0 && byte_len(path) <= MAX_PATH_LEN && good_segments(path)
}

/// Whether an error says why a path is refused: it is too long, or it is named as unsafe.
pub open spec fn path_refusal(e: RestoreError, path: Seq<char>) -> bool {
    match e {
        RestoreError::PathTooLong => path.len() > 0 && byte_len(path) > MAX_PATH_LEN,
        RestoreError::UnsafePath(p) => p@ == path && (path.len() == 0 || byte_len(path)
            <= MAX_PATH_LEN),
        _ => false,
    }
}

/// Checks that a path of an index names something inside the tree.
pub fn check_relative(relative: &str) -> (r: Result<(), RestoreError>)
    ensures
        match r {
            Ok(()) => safe_path(relative@),
            Err(e) => !safe_path(relative@) && path_refusal(e, relative@),
        },
{
    if relative.is_empty() {
        return Err(RestoreError::UnsafePath(owned(relative)));
    }
    if len_in_bytes(relative) > MAX_PATH_LEN {
        return Err(RestoreError::PathTooLong);
    }
    let chars = chars_of(relative);
    let segments = pieces(&chars, '/');
    let ghost segs = split(relative@, '/');
    for i in 0..segments.len()
        invariant
            segs == split(relative@, '/'),
            segs == crate::text::char_views(segments@),
            byte_len(relative@) <= MAX_PATH_LEN,
            relative@.len() > 0,
            forall|j: int| 0 <= j < i ==> !bad_segment(#[trigger] segs[j]),
    {
        let segment = &segments[i];
        assert(segs[i as int] == segment@);
        if same_chars(segment, &chars_of("")) || same_chars(segment, &chars_of("."))
            || same_chars(segment, &chars_of("..")) || contains_char(segment, '\\')
            || contains_char(segment, ':') || contains_char(segment, '\0') {
            assert(bad_segment(split(relative@, '/')[i as int]));
            return Err(RestoreError::UnsafePath(owned(relative)));
        }
    }
    Ok(())
}

/// A path below a root.
pub open spec fn below(root: Seq<char>, relative: Seq<char>) -> Seq<char> {
    if root.len() == 0 {
        relative
    } else if root.last() == '/' {
        root + relative
    } else {
        root + "/"@ + relative
    }
}

/// A path below a root.
pub fn join_path(root: &str, relative: &str) -> (r: String)
    ensures
        r@ == below(root@, relative@),
{
    let chars = chars_of(root);
    if chars.len() == 0 {
        owned(relative)
    } else if chars[chars.len() - 1] == '/' {
        cat2(root, relative)
    } else {
        cat3(root, "/", relative)
    }
}

/// Joins a path of an index onto a root, refusing anything that could land outside it.
pub fn safe_join(root: &str, relative: &str) -> (r: Result<String, RestoreError>)
    ensures
        match r {
            Ok(path) => safe_path(relative@) && path@ == below(root@, relative@),
            Err(e) => !safe_path(relative@) && path_refusal(e, relative@),
        },
{
    match check_relative(relative) {
        Err(e) => Err(e),
        Ok(()) => Ok(join_path(root, relative)),
    }
}

/// Checks the target of a symlink where the paths are checked.
pub fn check_link_target(link: &str, target: &str) -> (r: Result<(), RestoreError>)
    ensures
        match r {
            Ok(()) => safe_target(link@, target@),
            Err(e) => !safe_target(link@, target@) && (e matches RestoreError::UnsafeLinkTarget(p)
                && p@ == link@),
        },
{
    if link_target_is_safe(link, target) {
        Ok(())
    } else {
        Err(RestoreError::UnsafeLinkTarget(owned(link)))
    }
}

/// The mirrored roots that a caller swapping a restored tree into place has to create.
pub fn mirrored_roots(roots: &Vec<String>) -> (r: Result<Vec<String>, RestoreError>)
    ensures
        match r {
            Ok(out) => out@.len() == roots@.len() && forall|i: int|
                0 <= i < roots@.len() ==> mirrored(roots@[i]@) == Some((#[trigger] out@[i])@),
            Err(e) => exists|i: int|
                0 <= i < roots@.len() && mirrored((#[trigger] roots@[i])@) is None && (forall|j: int|
                    0 <= j < i ==> mirrored((#[trigger] roots@[j])@) is Some) && (
                e matches RestoreError::Index(TreeError::NotMirrorable(p)) && p@ == roots@[i]@),
        },
{
    let mut out: Vec<String> = Vec::new();
    for i in 0..roots.len()
        invariant
            out@.len() == i,
            forall|j: int|
                0 <= j < i ==> mirrored(roots@[j]@) == Some((#[trigger] out@[j])@),
            forall|j: int| 0 <= j < i ==> mirrored((#[trigger] roots@[j])@) is Some,
    {
        match mirror(roots[i].as_str()) {
            Ok(path) => {
                out.push(path);
            },
            Err(e) => {
                assert(mirrored(roots@[i as int]@) is None);
                return Err(RestoreError::Index(e));
            },
        }
    }
    Ok(out)
}

// ---------------------------------------------------------------------------
// Lines
// ---------------------------------------------------------------------------

/// The lines of some bytes.
pub struct Lines {
    /// The lines that a newline ends, without the empty ones.
    pub lines: Seq<Seq<u8>>,
    /// What follows the last newline.
    pub rest: Seq<u8>,
    /// Whether a line is over the limit. What follows it is not looked at.
    pub overlong: bool,
}

/// The first index at or after `i` that holds a newline, or the length.
pub open spec fn newline_from(s: Seq<u8>, i: int) -> int
    decreases s.len() - i,
{
    if i >= s.len() {
        s.len() as int
    } else if s[i] == 10u8 {
        i
    } else {
        newline_from(s, i + 1)
    }
}

/// A line, unless it is empty.
pub open spec fn unless_empty(line: Seq<u8>) -> Seq<Seq<u8>> {
    if line.len() == 0 {
        Seq::empty()
    } else {
        seq![line]
    }
}

/// Cuts bytes into lines. A line over the limit ends it, the unfinished one included.
pub open spec fn cut_lines(s: Seq<u8>) -> Lines
    decreases s.len(),
{
    let end = newline_from(s, 0);
    if end > MAX_INDEX_LINE {
        Lines { lines: Seq::empty(), rest: Seq::empty(), overlong: true }
    } else if end < 0 || end >= s.len() {
        Lines { lines: Seq::empty(), rest: s, overlong: false }
    } else {
        let more = cut_lines(s.skip(end + 1));
        Lines {
            lines: unless_empty(s.take(end)) + more.lines,
            rest: more.rest,
            overlong: more.overlong,
        }
    }
}

proof fn lemma_newline_from(s: Seq<u8>, i: int)
    requires
        0 <= i <= s.len(),
    ensures
        i <= newline_from(s, i) <= s.len(),
        newline_from(s, i) < s.len() ==> s[newline_from(s, i)] == 10u8,
        forall|j: int| i <= j < newline_from(s, i) ==> s[j] != 10u8,
    decreases s.len() - i,
{
    if i < s.len() && s[i] != 10u8 {
        lemma_newline_from(s, i + 1);
    }
}

proof fn lemma_newline_is(s: Seq<u8>, i: int, end: int)
    requires
        0 <= i <= end <= s.len(),
        forall|j: int| i <= j < end ==> s[j] != 10u8,
        end < s.len() ==> s[end] == 10u8,
    ensures
        newline_from(s, i) == end,
    decreases end - i,
{
    if i < end {
        lemma_newline_is(s, i + 1, end);
    }
}

/// How bytes arrive is immaterial: cutting them in two pieces, the unfinished line of the first
/// put before the second, gives the same lines as cutting them at once.
pub proof fn law_chunking_is_immaterial(a: Seq<u8>, b: Seq<u8>)
    ensures
        cut_lines(a).overlong ==> cut_lines(a + b).overlong && cut_lines(a + b).lines == cut_lines(
            a,
        ).lines,
        !cut_lines(a).overlong ==> cut_lines(a + b) == (Lines {
            lines: cut_lines(a).lines + cut_lines(cut_lines(a).rest + b).lines,
            rest: cut_lines(cut_lines(a).rest + b).rest,
            overlong: cut_lines(cut_lines(a).rest + b).overlong,
        }),
    decreases a.len(),
{
    let end = newline_from(a, 0);
    lemma_newline_from(a, 0);
    let s = a + b;
    if end > MAX_INDEX_LINE {
        lemma_newline_from(s, 0);
        assert(newline_from(s, 0) > MAX_INDEX_LINE) by {
            let e = newline_from(s, 0);
            if e < end {
                assert(s[e] == a[e]);
            }
        }
    } else if end >= a.len() {
        let whole = cut_lines(s);
        assert(Seq::<Seq<u8>>::empty() + whole.lines =~= whole.lines);
        assert(whole == (Lines {
            lines: whole.lines,
            rest: whole.rest,
            overlong: whole.overlong,
        }));
    } else {
        assert forall|j: int| 0 <= j < end implies s[j] != 10u8 by {
            assert(s[j] == a[j]);
        }
        lemma_newline_is(s, 0, end);
        let tail = a.skip(end + 1);
        law_chunking_is_immaterial(tail, b);
        assert(s.skip(end + 1) =~= tail + b);
        assert(s.take(end) =~= a.take(end));
        let first = unless_empty(a.take(end));
        if cut_lines(tail).overlong {
            assert(cut_lines(s).lines =~= cut_lines(a).lines);
        } else {
            let more = cut_lines(cut_lines(tail).rest + b);
            assert(first + (cut_lines(tail).lines + more.lines) =~= (first + cut_lines(tail).lines)
                + more.lines);
            assert(cut_lines(a).rest == cut_lines(tail).rest);
        }
    }
}

/// Whether some bytes are a line: some, not over the limit, and without a newline.
pub open spec fn is_line(line: Seq<u8>) -> bool {
    &&& 0 < line.len() <= MAX_INDEX_LINE
    &&& forall|j: int| 0 <= j < line.len() ==> line[j] != 10u8
}

/// A document of lines, each of them ended by a newline, as it is written line by line.
pub open spec fn document_of(lines: Seq<Seq<u8>>) -> Seq<u8>
    decreases lines.len(),
{
    if lines.len() == 0 {
        Seq::empty()
    } else {
        (document_of(lines.drop_last()) + lines.last()).push(10u8)
    }
}

/// An index is the document of its header's line and of the lines of its entries, in the order in
/// which they were accepted: it begins as the document of one line, and a line that is appended to
/// it is the last line of the document.
pub proof fn law_an_index_is_the_document_of_its_lines(lines: Seq<Seq<u8>>, line: Seq<u8>)
    ensures
        document_of(seq![line]) == line.push(10u8),
        document_of(lines.push(line)) == (document_of(lines) + line).push(10u8),
{
    assert(seq![line].drop_last() =~= Seq::<Seq<u8>>::empty());
    assert(document_of(Seq::<Seq<u8>>::empty()) =~= Seq::<u8>::empty());
    assert(Seq::<u8>::empty() + line =~= line);
    assert(lines.push(line).drop_last() =~= lines);
}

/// Lines are read back as they were written: cutting a document gives its lines, and nothing is
/// left over.
pub proof fn law_written_lines_are_read_back(lines: Seq<Seq<u8>>)
    requires
        forall|k: int| 0 <= k < lines.len() ==> is_line(#[trigger] lines[k]),
    ensures
        cut_lines(document_of(lines)).lines == lines,
        cut_lines(document_of(lines)).rest == Seq::<u8>::empty(),
        !cut_lines(document_of(lines)).overlong,
    decreases lines.len(),
{
    let empty = Seq::<u8>::empty();
    assert(cut_lines(empty).lines =~= Seq::<Seq<u8>>::empty());
    if lines.len() == 0 {
        assert(lines =~= Seq::<Seq<u8>>::empty());
    } else {
        let before = lines.drop_last();
        let line = lines.last();
        law_written_lines_are_read_back(before);
        let last = line.push(10u8);
        assert(is_line(lines[lines.len() - 1]));
        assert(last[line.len() as int] == 10u8);
        assert forall|j: int| 0 <= j < line.len() implies last[j] != 10u8 by {
            assert(last[j] == line[j]);
        }
        lemma_newline_is(last, 0, line.len() as int);
        assert(last.take(line.len() as int) =~= line);
        assert(last.skip(line.len() as int + 1) =~= empty);
        assert(cut_lines(last).lines =~= seq![line]);
        law_chunking_is_immaterial(document_of(before), last);
        assert(document_of(lines) =~= document_of(before) + last);
        assert(empty + last =~= last);
        assert(before + seq![line] =~= lines);
    }
}

/// Cuts the index document into lines as its bytes arrive, holding back the unfinished one.
pub struct LineCutter {
    pending: Vec<u8>,
    overlong: bool,
}

/// The views of a list of lines.
pub open spec fn line_views(lines: Seq<Vec<u8>>) -> Seq<Seq<u8>> {
    Seq::new(lines.len(), |i: int| lines[i]@)
}

impl LineCutter {
    /// The unfinished line.
    pub closed spec fn pending(&self) -> Seq<u8> {
        self.pending@
    }

    /// Whether a line was over the limit.
    pub closed spec fn overlong(&self) -> bool {
        self.overlong
    }

    /// A cutter at the beginning of a document.
    pub fn new() -> (r: LineCutter)
        ensures
            r.pending() == Seq::<u8>::empty(),
            !r.overlong(),
    {
        LineCutter { pending: Vec::new(), overlong: false }
    }

    /// Takes the next bytes and returns the lines that they finish, without the empty ones. Once a
    /// line is over the limit, nothing more is looked at.
    pub fn feed(&mut self, chunk: &[u8]) -> (r: Vec<Vec<u8>>)
        ensures
            old(self).overlong() ==> r@.len() == 0 && *final(self) == *old(self),
            !old(self).overlong() ==> ({
                let cut = cut_lines(old(self).pending() + chunk@);
                &&& line_views(r@) == cut.lines
                &&& final(self).overlong() == cut.overlong
                &&& !cut.overlong ==> final(self).pending() == cut.rest
            }),
    {
        let mut out: Vec<Vec<u8>> = Vec::new();
        if self.overlong {
            return out;
        }
        let mut whole: Vec<u8> = Vec::new();
        crate::bytes::append(&mut whole, self.pending.as_slice());
        crate::bytes::append(&mut whole, chunk);
        let ghost all = self.pending@ + chunk@;
        assert(whole@ =~= all);
        let mut start: usize = 0;
        assert(all.skip(0) =~= all);
        assert(line_views(out@) =~= Seq::<Seq<u8>>::empty());
        loop
            invariant
                whole@ == all,
                all == old(self).pending@ + chunk@,
                !old(self).overlong,
                start <= whole@.len(),
                !self.overlong,
                ({
                    let cut = cut_lines(all);
                    let more = cut_lines(all.skip(start as int));
                    &&& cut.lines == line_views(out@) + more.lines
                    &&& cut.rest == more.rest
                    &&& cut.overlong == more.overlong
                }),
            decreases whole@.len() - start,
        {
            let ghost tail = all.skip(start as int);
            let mut end: usize = start;
            proof {
                lemma_newline_from(tail, 0);
            }
            while end < whole.len() && whole[end] != 10u8
                invariant
                    start <= end <= whole@.len(),
                    whole@ == all,
                    tail == all.skip(start as int),
                    newline_from(tail, 0) == newline_from(tail, end - start),
                decreases whole@.len() - end,
            {
                assert(tail[end - start] == whole@[end as int]);
                end += 1;
            }
            assert(newline_from(tail, 0) == end - start) by {
                if end < whole@.len() {
                    assert(tail[end - start] == whole@[end as int]);
                }
            }
            let ghost before = out@;
            if end - start > MAX_INDEX_LINE {
                self.overlong = true;
                assert(line_views(out@) + Seq::<Seq<u8>>::empty() =~= line_views(out@));
                return out;
            }
            if end >= whole.len() {
                self.pending = crate::bytes::part(whole.as_slice(), start, whole.len());
                assert(self.pending@ =~= tail);
                assert(line_views(out@) + Seq::<Seq<u8>>::empty() =~= line_views(out@));
                return out;
            }
            let line = crate::bytes::part(whole.as_slice(), start, end);
            proof {
                assert(line@ =~= tail.take(end - start));
                assert(tail.skip(end - start + 1) =~= all.skip(end + 1));
            }
            if line.len() > 0 {
                out.push(line);
            }
            proof {
                let more = cut_lines(all.skip(end + 1));
                assert(line_views(out@) =~= line_views(before) + unless_empty(line@));
                assert(line_views(before) + (unless_empty(line@) + more.lines) =~= line_views(out@)
                    + more.lines);
            }
            start = end + 1;
        }
    }

    /// Whether a line was over the limit.
    pub fn is_overlong(&self) -> (r: bool)
        ensures
            r == self.overlong(),
    {
        self.overlong
    }

    /// What is left once the document has ended: the last line, where no newline ended it.
    pub fn finish(self) -> (r: Option<Vec<u8>>)
        ensures
            match r {
                Some(line) => !self.overlong() && line@ == self.pending() && line@.len() > 0,
                None => self.overlong() || self.pending().len() == 0,
            },
    {
        if self.overlong || self.pending.len() == 0 {
            None
        } else {
            Some(self.pending)
        }
    }
}

// ---------------------------------------------------------------------------
// The index
// ---------------------------------------------------------------------------

/// One file of a point: where its bytes are, and what metadata to restore with them.
#[derive(Debug, PartialEq, Eq)]
pub struct IndexFile {
    pub path: String,
    /// Number of the layer in the header's list.
    pub layer: u32,
    /// Where the file begins in that layer's plaintext.
    pub offset: u64,
    pub len: u64,
    /// Modification time in nanoseconds since the Unix epoch.
    pub mtime_ns: i64,
    /// Permission bits, or 0 for a point captured where there are none.
    pub mode: u32,
}

/// One directory of a point.
#[derive(Debug, PartialEq, Eq)]
pub struct IndexDir {
    pub path: String,
    pub mtime_ns: i64,
    pub mode: u32,
}

/// One symlink of a point.
#[derive(Debug, PartialEq, Eq)]
pub struct IndexSymlink {
    pub path: String,
    pub target: String,
    pub mtime_ns: i64,
}

/// Why an index is refused.
pub enum IndexFault {
    NoHeader,
    BadHeader(Seq<char>),
    UnsupportedVersion(u32),
    BadEntry(int, Seq<char>),
    LineTooLong,
    TooManyEntries,
    PathTooLong,
    UnsafePath(Seq<char>),
    OutOfOrder(Seq<char>, Seq<char>),
    PathsTooLarge,
    UnsafeLinkTarget(Seq<char>),
    Unplaced(Seq<char>),
    DanglingLayer(Seq<char>, u32),
}

/// Whether an error is the one of a fault.
pub open spec fn is_fault(e: RestoreError, f: IndexFault) -> bool {
    match f {
        IndexFault::NoHeader => e == RestoreError::Index(TreeError::NoHeader),
        IndexFault::BadHeader(m) => e matches RestoreError::Index(TreeError::BadHeader(s)) && s@
            == m,
        IndexFault::UnsupportedVersion(v) => e == RestoreError::Index(
            TreeError::UnsupportedVersion(v),
        ),
        IndexFault::BadEntry(n, m) => e matches RestoreError::Index(
            TreeError::BadEntry { line, source },
        ) && line == n && source@ == m,
        IndexFault::LineTooLong => e == RestoreError::LineTooLong,
        IndexFault::TooManyEntries => e == RestoreError::TooManyEntries,
        IndexFault::PathTooLong => e == RestoreError::PathTooLong,
        IndexFault::UnsafePath(p) => e matches RestoreError::UnsafePath(s) && s@ == p,
        IndexFault::OutOfOrder(a, b) => e matches RestoreError::Index(
            TreeError::OutOfOrder { previous, actual },
        ) && previous@ == a && actual@ == b,
        IndexFault::PathsTooLarge => e == RestoreError::PathsTooLarge,
        IndexFault::UnsafeLinkTarget(p) => e matches RestoreError::UnsafeLinkTarget(s) && s@ == p,
        IndexFault::Unplaced(p) => e matches RestoreError::Unplaced(s) && s@ == p,
        IndexFault::DanglingLayer(p, l) => e matches RestoreError::DanglingLayer(s, n) && s@ == p
            && n == l,
    }
}

/// A symlink of an index.
pub struct SymlinkView {
    pub path: Seq<char>,
    pub target: Seq<char>,
    pub mtime_ns: i64,
}

/// The symlinks of an index.
pub open spec fn symlink_views(links: Seq<IndexSymlink>) -> Seq<SymlinkView> {
    Seq::new(
        links.len(),
        |i: int|
            SymlinkView {
                path: links[i].path@,
                target: links[i].target@,
                mtime_ns: links[i].mtime_ns,
            },
    )
}

/// An index under way: what has been accepted of it.
pub struct ParseState {
    pub files: Seq<IndexFile>,
    pub dirs: Seq<IndexDir>,
    pub symlinks: Seq<SymlinkView>,
    /// The path of the last entry.
    pub previous: Option<Seq<char>>,
    /// The bytes of path and target text held so far.
    pub charged: nat,
}

/// The number of entries of every kind.
pub open spec fn entry_count(state: ParseState) -> nat {
    state.files.len() + state.dirs.len() + state.symlinks.len()
}

/// An index of which nothing has been read.
pub open spec fn no_entries() -> ParseState {
    ParseState {
        files: Seq::empty(),
        dirs: Seq::empty(),
        symlinks: Seq::empty(),
        previous: None,
        charged: 0,
    }
}

/// The target of an entry; an absent one is empty.
pub open spec fn target_of(entry: Entry) -> Seq<char> {
    match entry.t {
        Some(t) => t@,
        None => Seq::empty(),
    }
}

/// Why an entry is refused, whatever its kind.
pub open spec fn entry_fault(layers: nat, state: ParseState, entry: Entry) -> Option<IndexFault> {
    let path = entry.p@;
    let charged = state.charged + byte_len(path);
    if entry_count(state) >= MAX_INDEX_ENTRIES {
        Some(IndexFault::TooManyEntries)
    } else if path.len() > 0 && byte_len(path) > MAX_PATH_LEN {
        Some(IndexFault::PathTooLong)
    } else if !safe_path(path) {
        Some(IndexFault::UnsafePath(path))
    } else if state.previous matches Some(previous) && !less(previous, path) {
        Some(IndexFault::OutOfOrder(state.previous->0, path))
    } else if charged > MAX_PATH_ARENA {
        Some(IndexFault::PathsTooLarge)
    } else {
        match entry.k {
            Kind::Dir => None,
            Kind::Symlink => if !safe_target(path, target_of(entry)) {
                Some(IndexFault::UnsafeLinkTarget(path))
            } else if charged + byte_len(target_of(entry)) > MAX_PATH_ARENA {
                Some(IndexFault::PathsTooLarge)
            } else {
                None
            },
            Kind::File => match entry.r {
                None => Some(IndexFault::Unplaced(path)),
                Some(r) => if r.l >= layers {
                    Some(IndexFault::DanglingLayer(path, r.l))
                } else {
                    None
                },
            },
        }
    }
}

/// The index with one more entry.
pub open spec fn accepted(state: ParseState, entry: Entry) -> ParseState {
    let path = entry.p@;
    match entry.k {
        Kind::Dir => ParseState {
            dirs: state.dirs.push(
                IndexDir { path: entry.p, mtime_ns: entry.m, mode: entry.mode },
            ),
            previous: Some(path),
            charged: state.charged + byte_len(path),
            ..state
        },
        Kind::Symlink => ParseState {
            symlinks: state.symlinks.push(
                SymlinkView { path, target: target_of(entry), mtime_ns: entry.m },
            ),
            previous: Some(path),
            charged: state.charged + byte_len(path) + byte_len(target_of(entry)),
            ..state
        },
        Kind::File => ParseState {
            files: state.files.push(
                IndexFile {
                    path: entry.p,
                    layer: entry.r->0.l,
                    offset: entry.r->0.o,
                    len: entry.r->0.n,
                    mtime_ns: entry.m,
                    mode: entry.mode,
                },
            ),
            previous: Some(path),
            charged: state.charged + byte_len(path),
            ..state
        },
    }
}

/// Parses the entries of an index into the records of a point.
pub struct IndexParser {
    /// How many layers the header lists.
    pub layers: usize,
    pub files: Vec<IndexFile>,
    pub dirs: Vec<IndexDir>,
    pub symlinks: Vec<IndexSymlink>,
    /// The path of the entry before this one.
    pub previous: Option<String>,
    /// Path and symlink-target bytes held so far.
    pub charged: usize,
}

/// The text of an optional string.
pub open spec fn text_of_option(s: Option<String>) -> Option<Seq<char>> {
    match s {
        Some(s) => Some(s@),
        None => None,
    }
}

impl IndexParser {
    /// What has been accepted.
    pub open spec fn state(&self) -> ParseState {
        ParseState {
            files: self.files@,
            dirs: self.dirs@,
            symlinks: symlink_views(self.symlinks@),
            previous: text_of_option(self.previous),
            charged: self.charged as nat,
        }
    }

    /// What holds of a parser: it is within its caps.
    pub open spec fn wf(&self) -> bool {
        &&& entry_count(self.state()) <= MAX_INDEX_ENTRIES
        &&& self.charged <= MAX_PATH_ARENA
    }

    /// A parser behind a header that lists this many layers.
    pub fn new(layers: usize) -> (r: IndexParser)
        ensures
            r.layers == layers,
            r.state() == no_entries(),
            r.wf(),
    {
        let r = IndexParser {
            layers,
            files: Vec::new(),
            dirs: Vec::new(),
            symlinks: Vec::new(),
            previous: None,
            charged: 0,
        };
        assert(r.files@ =~= Seq::<IndexFile>::empty());
        assert(r.dirs@ =~= Seq::<IndexDir>::empty());
        assert(symlink_views(r.symlinks@) =~= Seq::<SymlinkView>::empty());
        r
    }

    /// Entries held so far, of every kind.
    pub fn entries(&self) -> (r: usize)
        requires
            self.wf(),
        ensures
            r == entry_count(self.state()),
    {
        self.files.len() + self.dirs.len() + self.symlinks.len()
    }

    /// Takes one entry. One that is refused leaves everything as it was.
    pub fn entry(&mut self, entry: &Entry) -> (r: Result<(), RestoreError>)
        requires
            old(self).wf(),
        ensures
            final(self).wf(),
            final(self).layers == old(self).layers,
            match r {
                Ok(()) => entry_fault(old(self).layers as nat, old(self).state(), *entry) is None
                    && final(self).state() == accepted(old(self).state(), *entry),
                Err(e) => *final(self) == *old(self) && (entry_fault(
                    old(self).layers as nat,
                    old(self).state(),
                    *entry,
                ) matches Some(f) && is_fault(e, f)),
            },
    {
        if self.entries() >= MAX_INDEX_ENTRIES {
            return Err(RestoreError::TooManyEntries);
        }
        match check_relative(entry.p.as_str()) {
            Err(e) => {
                return Err(e);
            },
            Ok(()) => {},
        }
        match &self.previous {
            Some(previous) => {
                if !str_less(previous.as_str(), entry.p.as_str()) {
                    return Err(
                        RestoreError::Index(
                            TreeError::OutOfOrder {
                                previous: previous.clone(),
                                actual: entry.p.clone(),
                            },
                        ),
                    );
                }
            },
            None => {},
        }
        let charged: usize = self.charged + len_in_bytes(entry.p.as_str());
        if charged > MAX_PATH_ARENA {
            return Err(RestoreError::PathsTooLarge);
        }
        match entry.k {
            Kind::Dir => {
                self.dirs.push(
                    IndexDir { path: entry.p.clone(), mtime_ns: entry.m, mode: entry.mode },
                );
                self.charged = charged;
            },
            Kind::Symlink => {
                let target: String = match &entry.t {
                    Some(t) => t.clone(),
                    None => String::new(),
                };
                match check_link_target(entry.p.as_str(), target.as_str()) {
                    Err(e) => {
                        return Err(e);
                    },
                    Ok(()) => {},
                }
                let charged: usize = charged + len_in_bytes(target.as_str());
                if charged > MAX_PATH_ARENA {
                    return Err(RestoreError::PathsTooLarge);
                }
                self.symlinks.push(
                    IndexSymlink { path: entry.p.clone(), target, mtime_ns: entry.m },
                );
                assert(symlink_views(self.symlinks@) =~= symlink_views(old(self).symlinks@).push(
                    SymlinkView {
                        path: entry.p@,
                        target: target_of(*entry),
                        mtime_ns: entry.m,
                    },
                ));
                self.charged = charged;
            },
            Kind::File => match &entry.r {
                None => {
                    return Err(RestoreError::Unplaced(entry.p.clone()));
                },
                Some(reference) => {
                    if reference.l as usize >= self.layers {
                        return Err(RestoreError::DanglingLayer(entry.p.clone(), reference.l));
                    }
                    self.files.push(
                        IndexFile {
                            path: entry.p.clone(),
                            layer: reference.l,
                            offset: reference.o,
                            len: reference.n,
                            mtime_ns: entry.m,
                            mode: entry.mode,
                        },
                    );
                    self.charged = charged;
                },
            },
        }
        self.previous = Some(entry.p.clone());
        Ok(())
    }
}

/// Why the next line is refused.
pub open spec fn line_fault(layers: nat, state: ParseState, line: Result<Entry, String>) -> Option<
    IndexFault,
> {
    match line {
        Err(m) => Some(IndexFault::BadEntry(entry_count(state) as int + 2, m@)),
        Ok(entry) => entry_fault(layers, state, entry),
    }
}

/// What the lines of an index come to: its entries, or what is wrong with the first that is
/// refused.
pub open spec fn parse_lines(layers: nat, lines: Seq<Result<Entry, String>>) -> Result<
    ParseState,
    IndexFault,
>
    decreases lines.len(),
{
    if lines.len() == 0 {
        Ok(no_entries())
    } else {
        match parse_lines(layers, lines.drop_last()) {
            Err(f) => Err(f),
            Ok(state) => match line_fault(layers, state, lines.last()) {
                Some(f) => Err(f),
                None => Ok(accepted(state, lines.last()->Ok_0)),
            },
        }
    }
}

/// What a whole document comes to: the first thing that is wrong, in the order of the lines, is
/// reported.
pub open spec fn parse_index(
    first: Option<Result<IndexHeader, String>>,
    lines: Seq<Result<Entry, String>>,
    overlong: bool,
) -> Result<(IndexHeader, ParseState), IndexFault> {
    match first {
        None => Err(
            if overlong {
                IndexFault::LineTooLong
            } else {
                IndexFault::NoHeader
            },
        ),
        Some(Err(m)) => Err(IndexFault::BadHeader(m@)),
        Some(Ok(header)) => if header.v != INDEX_VERSION {
            Err(IndexFault::UnsupportedVersion(header.v))
        } else {
            match parse_lines(header.layers@.len(), lines) {
                Err(f) => Err(f),
                Ok(state) => if overlong {
                    Err(IndexFault::LineTooLong)
                } else {
                    Ok((header, state))
                },
            }
        },
    }
}

/// Whether an entry may stand in a point: a path that a restore can write to, and with it a safe
/// target for a symlink and a place for a file's bytes.
pub open spec fn restorable(entry: Entry) -> bool {
    &&& byte_len(entry.p@) <= MAX_PATH_LEN
    &&& safe_path(entry.p@)
    &&& entry.k == Kind::Symlink ==> safe_target(entry.p@, target_of(entry))
    &&& entry.k == Kind::File ==> entry.r is Some
}

/// What some entries come to, one after the other.
pub open spec fn records_of(entries: Seq<Entry>) -> ParseState
    decreases entries.len(),
{
    if entries.len() == 0 {
        no_entries()
    } else {
        accepted(records_of(entries.drop_last()), entries.last())
    }
}

/// What some lines parse to.
pub open spec fn parsed<T>(lines: Seq<Seq<u8>>, parse: spec_fn(Seq<u8>) -> T) -> Seq<T> {
    Seq::new(lines.len(), |k: int| parse(lines[k]))
}

proof fn lemma_entries_are_accepted(layers: nat, entries: Seq<Entry>, whole: Seq<Entry>)
    requires
        in_sequence(layers, whole),
        entries == whole.take(entries.len() as int),
        entries.len() <= whole.len() <= MAX_INDEX_ENTRIES,
        forall|k: int| 0 <= k < whole.len() ==> restorable(#[trigger] whole[k]),
        records_of(whole).charged <= MAX_PATH_ARENA,
    ensures
        parse_lines(layers, Seq::new(entries.len(), |k: int| Ok::<Entry, String>(entries[k])))
            == Ok::<ParseState, IndexFault>(records_of(entries)),
        entry_count(records_of(entries)) == entries.len(),
        records_of(entries).previous == last_path(entries),
    decreases entries.len(),
{
    let lines = Seq::new(entries.len(), |k: int| Ok::<Entry, String>(entries[k]));
    if entries.len() > 0 {
        let before = entries.drop_last();
        let n = before.len() as int;
        assert(before =~= whole.take(n));
        lemma_entries_are_accepted(layers, before, whole);
        assert(lines.drop_last() =~= Seq::new(
            before.len(),
            |k: int| Ok::<Entry, String>(before[k]),
        ));
        assert(entries.last() == whole[n]);
        assert(may_follow(last_path(whole.take(n)), layers, whole[n]));
        assert(restorable(whole[n]));
        lemma_charges_grow(whole, n + 1);
        assert(whole.take(n + 1) =~= entries);
    }
}

proof fn lemma_charges_grow(entries: Seq<Entry>, n: int)
    requires
        0 <= n <= entries.len(),
    ensures
        records_of(entries.take(n)).charged <= records_of(entries).charged,
    decreases entries.len() - n,
{
    if n < entries.len() {
        lemma_charges_grow(entries, n + 1);
        assert(entries.take(n + 1).drop_last() =~= entries.take(n));
    } else {
        assert(entries.take(n) =~= entries);
    }
}

/// An index is read back as it was written. Of the document of a header's line and of the lines of
/// entries that follow one another, cutting gives the lines; and where parsing a line gives what it
/// was rendered from, and the entries may stand in a point, reading gives the header, and the
/// entries in their order.
pub proof fn law_a_written_index_is_read_back(
    header: IndexHeader,
    entries: Seq<Entry>,
    lines: Seq<Seq<u8>>,
    parse_header: spec_fn(Seq<u8>) -> Result<IndexHeader, String>,
    parse_entry: spec_fn(Seq<u8>) -> Result<Entry, String>,
)
    requires
        lines.len() == entries.len() + 1,
        forall|k: int| 0 <= k < lines.len() ==> is_line(#[trigger] lines[k]),
        in_sequence(header.layers@.len(), entries),
        header.v == INDEX_VERSION,
        parse_header(lines[0]) == Ok::<IndexHeader, String>(header),
        forall|k: int|
            0 < k < lines.len() ==> parse_entry(#[trigger] lines[k]) == Ok::<Entry, String>(
                entries[k - 1],
            ),
        forall|k: int| 0 <= k < entries.len() ==> restorable(#[trigger] entries[k]),
        entries.len() <= MAX_INDEX_ENTRIES,
        records_of(entries).charged <= MAX_PATH_ARENA,
    ensures
        ({
            let cut = cut_lines(document_of(lines));
            &&& cut.lines == lines
            &&& cut.rest == Seq::<u8>::empty()
            &&& !cut.overlong
            &&& parsed(cut.lines.skip(1), parse_entry) == Seq::new(
                entries.len(),
                |k: int| Ok::<Entry, String>(entries[k]),
            )
            &&& parse_index(
                Some(parse_header(cut.lines[0])),
                parsed(cut.lines.skip(1), parse_entry),
                cut.overlong,
            ) == Ok::<(IndexHeader, ParseState), IndexFault>((header, records_of(entries)))
        }),
{
    law_written_lines_are_read_back(lines);
    let oks = Seq::new(entries.len(), |k: int| Ok::<Entry, String>(entries[k]));
    assert forall|k: int| 0 <= k < entries.len() implies #[trigger] parsed(
        lines.skip(1),
        parse_entry,
    )[k] == oks[k] by {
        assert(lines.skip(1)[k] == lines[k + 1]);
    }
    assert(parsed(lines.skip(1), parse_entry) =~= oks);
    assert(entries.take(entries.len() as int) =~= entries);
    lemma_entries_are_accepted(header.layers@.len(), entries, entries);
}

/// Whether the paths of the files strictly ascend.
pub open spec fn files_ascend(files: Seq<IndexFile>) -> bool {
    forall|i: int, j: int|
        0 <= i < j < files.len() ==> less(#[trigger] files[i].path@, #[trigger] files[j].path@)
}

/// What holds of an accepted index.
pub open spec fn state_sound(layers: nat, state: ParseState) -> bool {
    &&& files_ascend(state.files)
    &&& entry_count(state) <= MAX_INDEX_ENTRIES
    &&& state.charged <= MAX_PATH_ARENA
    &&& forall|i: int|
        0 <= i < state.files.len() ==> safe_path(#[trigger] state.files[i].path@)
            && state.files[i].layer < layers && state.previous is Some && (
        state.files[i].path@ == state.previous->0 || less(
            state.files[i].path@,
            state.previous->0,
        ))
    &&& forall|i: int| 0 <= i < state.dirs.len() ==> safe_path(#[trigger] state.dirs[i].path@)
    &&& forall|i: int|
        0 <= i < state.symlinks.len() ==> safe_path((#[trigger] state.symlinks[i]).path)
            && safe_target(state.symlinks[i].path, state.symlinks[i].target)
}

proof fn lemma_accepted_sound(layers: nat, before: ParseState, entry: Entry)
    requires
        state_sound(layers, before),
        entry_fault(layers, before, entry) is None,
    ensures
        state_sound(layers, accepted(before, entry)),
{
    let after = accepted(before, entry);
    assert(after.previous == Some(entry.p@));
    let path = entry.p@;
    assert forall|i: int| 0 <= i < before.files.len() implies less(
        #[trigger] before.files[i].path@,
        path,
    ) by {
        let previous = before.previous->0;
        if before.files[i].path@ != previous {
            crate::text::lemma_less_trans(before.files[i].path@, previous, path);
        }
    }
    assert forall|i: int| 0 <= i < after.files.len() implies safe_path(
        #[trigger] after.files[i].path@,
    ) && after.files[i].layer < layers && after.previous is Some && (after.files[i].path@
        == after.previous->0 || less(after.files[i].path@, after.previous->0)) by {
        if i < before.files.len() {
            assert(after.files[i] == before.files[i]);
            assert(less(before.files[i].path@, path));
        } else {
            assert(after.files[i].path == entry.p);
        }
    }
    assert forall|i: int, j: int| 0 <= i < j < after.files.len() implies less(
        #[trigger] after.files[i].path@,
        #[trigger] after.files[j].path@,
    ) by {
        assert(after.files[i] == before.files[i]);
        if j < before.files.len() {
            assert(after.files[j] == before.files[j]);
        }
    }
    assert forall|i: int| 0 <= i < after.dirs.len() implies safe_path(
        #[trigger] after.dirs[i].path@,
    ) by {
        if i < before.dirs.len() {
            assert(after.dirs[i] == before.dirs[i]);
        }
    }
    assert forall|i: int| 0 <= i < after.symlinks.len() implies safe_path(
        (#[trigger] after.symlinks[i]).path,
    ) && safe_target(after.symlinks[i].path, after.symlinks[i].target) by {
        if i < before.symlinks.len() {
            assert(after.symlinks[i] == before.symlinks[i]);
        }
    }
    assert(entry_count(after) <= MAX_INDEX_ENTRIES);
    assert(after.charged <= MAX_PATH_ARENA);
    assert(files_ascend(after.files));
}

/// The parsed index of a point.
pub struct PointIndex {
    header: IndexHeader,
    files: Vec<IndexFile>,
    dirs: Vec<IndexDir>,
    symlinks: Vec<IndexSymlink>,
}

/// An index that is read line by line, each line as it is parsed.
pub struct IndexBuilder {
    header: Option<IndexHeader>,
    parser: IndexParser,
    failure: Option<RestoreError>,
    first: Ghost<Option<Result<IndexHeader, String>>>,
    lines: Ghost<Seq<Result<Entry, String>>>,
}

impl IndexBuilder {
    /// What the first line parsed to, where there was one.
    pub closed spec fn first(&self) -> Option<Result<IndexHeader, String>> {
        self.first@
    }

    /// What the other lines parsed to.
    pub closed spec fn lines(&self) -> Seq<Result<Entry, String>> {
        self.lines@
    }

    /// What holds of an index under way: it has come to what its lines so far come to.
    pub closed spec fn wf(&self) -> bool {
        if self.first@ is None {
            self.lines@.len() == 0 && self.failure is None && self.header is None
        } else {
            match parse_index(self.first@, self.lines@, false) {
                Ok((header, state)) => {
                    &&& self.failure is None
                    &&& self.header == Some(header)
                    &&& self.parser.wf()
                    &&& self.parser.layers == header.layers@.len()
                    &&& self.parser.state() == state
                    &&& state_sound(header.layers@.len(), state)
                },
                Err(f) => self.failure matches Some(e) && is_fault(e, f),
            }
        }
    }

    /// An index of which nothing has been read.
    pub fn new() -> (r: IndexBuilder)
        ensures
            r.wf(),
            r.first() is None,
            r.lines() == Seq::<Result<Entry, String>>::empty(),
    {
        IndexBuilder {
            header: None,
            parser: IndexParser::new(0),
            failure: None,
            first: Ghost(None),
            lines: Ghost(Seq::empty()),
        }
    }

    /// Whether a line has been refused. What follows it changes nothing any more.
    pub fn has_failed(&self) -> (r: bool)
        requires
            self.wf(),
        ensures
            r == (self.first() is Some && parse_index(self.first(), self.lines(), false) is Err),
    {
        self.failure.is_some()
    }

    /// Takes what the first line parsed to.
    pub fn take_header(&mut self, line: Result<IndexHeader, String>)
        requires
            old(self).wf(),
            old(self).first() is None,
        ensures
            final(self).wf(),
            final(self).first() == Some(line),
            final(self).lines() == old(self).lines(),
    {
        self.first = Ghost(Some(line));
        assert(self.lines@ =~= Seq::<Result<Entry, String>>::empty());
        match line {
            Err(m) => {
                self.failure = Some(RestoreError::Index(TreeError::BadHeader(m)));
            },
            Ok(header) => {
                if header.v != INDEX_VERSION {
                    self.failure =
                    Some(RestoreError::Index(TreeError::UnsupportedVersion(header.v)));
                } else {
                    self.parser = IndexParser::new(header.layers.len());
                    self.header = Some(header);
                }
            },
        }
    }

    /// Takes what the next line parsed to.
    pub fn take_entry(&mut self, line: &Result<Entry, String>)
        requires
            old(self).wf(),
            old(self).first() is Some,
        ensures
            final(self).wf(),
            final(self).first() == old(self).first(),
            final(self).lines() == old(self).lines().push(*line),
    {
        let ghost before = self.lines@;
        let ghost after = before.push(*line);
        proof {
            assert(after.drop_last() =~= before);
        }
        self.lines = Ghost(after);
        if self.failure.is_some() {
            return;
        }
        let ghost state = self.parser.state();
        match line {
            Err(m) => {
                self.failure =
                Some(
                    RestoreError::Index(
                        TreeError::BadEntry { line: self.parser.entries() + 2, source: m.clone() },
                    ),
                );
            },
            Ok(entry) => {
                match self.parser.entry(entry) {
                    Err(e) => {
                        self.failure = Some(e);
                    },
                    Ok(()) => {
                        proof {
                            lemma_accepted_sound(self.parser.layers as nat, state, *entry);
                        }
                    },
                }
            },
        }
    }

    /// The document is at its end; `overlong` says that it broke off there at a line over the
    /// limit. The first thing that was wrong, in the order of the lines, is reported.
    pub fn finish(self, overlong: bool) -> (r: Result<PointIndex, RestoreError>)
        requires
            self.wf(),
        ensures
            match parse_index(self.first(), self.lines(), overlong) {
                Ok((header, state)) => r matches Ok(index) && index.header_view() == header
                    && holds_state(index, state) && state_sound(header.layers@.len(), state),
                Err(f) => r matches Err(e) && is_fault(e, f),
            },
    {
        match self.failure {
            Some(e) => {
                return Err(e);
            },
            None => {},
        }
        if overlong {
            return Err(RestoreError::LineTooLong);
        }
        match self.header {
            None => Err(RestoreError::Index(TreeError::NoHeader)),
            Some(header) => {
                let parser = self.parser;
                let ghost state = parser.state();
                proof {
                    assert forall|i: int| 0 <= i < parser.files@.len() implies (
                    #[trigger] parser.files@[i]).layer < header.layers@.len() by {
                        assert(safe_path(state.files[i].path@));
                    }
                }
                let index = PointIndex {
                    header,
                    files: parser.files,
                    dirs: parser.dirs,
                    symlinks: parser.symlinks,
                };
                assert(holds_state(index, state));
                Ok(index)
            },
        }
    }
}

/// Whether a point's index holds what a state does.
pub open spec fn holds_state(index: PointIndex, state: ParseState) -> bool {
    &&& index.file_list() == state.files
    &&& index.dir_list() == state.dirs
    &&& symlink_views(index.symlink_list()) == state.symlinks
}

impl PointIndex {
    /// The header.
    pub closed spec fn header_view(&self) -> IndexHeader {
        self.header
    }

    /// The files, in the order of their paths.
    pub closed spec fn file_list(&self) -> Seq<IndexFile> {
        self.files@
    }

    /// The directories, in the order of their paths.
    pub closed spec fn dir_list(&self) -> Seq<IndexDir> {
        self.dirs@
    }

    /// The symlinks, in the order of their paths.
    pub closed spec fn symlink_list(&self) -> Seq<IndexSymlink> {
        self.symlinks@
    }

    #[verifier::type_invariant]
    spec fn inv(&self) -> bool {
        &&& files_ascend(self.files@)
        &&& self.files@.len() + self.dirs@.len() + self.symlinks@.len() <= MAX_INDEX_ENTRIES
        &&& forall|i: int|
            0 <= i < self.files@.len() ==> (#[trigger] self.files@[i]).layer
                < self.header.layers@.len()
    }

    /// Reads an index from what its lines parsed to: the first line as a header, where there is
    /// one, and the others as entries. `overlong` says that the document broke off behind them at
    /// a line over the limit. The first thing that is wrong, in the order of the lines, is
    /// reported.
    pub fn read(
        first: Option<Result<IndexHeader, String>>,
        lines: &Vec<Result<Entry, String>>,
        overlong: bool,
    ) -> (r: Result<PointIndex, RestoreError>)
        ensures
            match parse_index(first, lines@, overlong) {
                Ok((header, state)) => r matches Ok(index) && index.header_view() == header
                    && holds_state(index, state) && state_sound(header.layers@.len(), state),
                Err(f) => r matches Err(e) && is_fault(e, f),
            },
    {
        let mut builder = IndexBuilder::new();
        match first {
            None => {
                return builder.finish(overlong);
            },
            Some(header) => {
                builder.take_header(header);
            },
        }
        assert(lines@.take(0) =~= Seq::<Result<Entry, String>>::empty());
        for i in 0..lines.len()
            invariant
                builder.wf(),
                builder.first() == first,
                first is Some,
                builder.lines() == lines@.take(i as int),
        {
            builder.take_entry(&lines[i]);
            assert(lines@.take(i + 1) =~= lines@.take(i as int).push(lines@[i as int]));
        }
        assert(lines@.take(lines@.len() as int) =~= lines@);
        builder.finish(overlong)
    }

    /// The header.
    pub fn header(&self) -> (r: &IndexHeader)
        ensures
            *r == self.header_view(),
    {
        &self.header
    }

    /// How many files the point holds.
    pub fn file_count(&self) -> (r: usize)
        ensures
            r == self.file_list().len(),
    {
        self.files.len()
    }

    /// What the point holds, before any byte of it has been read.
    pub fn stats(&self) -> (r: RestoreStats)
        ensures
            r == (RestoreStats {
                files: self.file_list().len() as u64,
                dirs: self.dir_list().len() as u64,
                symlinks: self.symlink_list().len() as u64,
                bytes: 0,
                layers: 0,
            }),
    {
        RestoreStats {
            files: self.files.len() as u64,
            dirs: self.dirs.len() as u64,
            symlinks: self.symlinks.len() as u64,
            bytes: 0,
            layers: 0,
        }
    }

    /// Every file, in the order of their paths.
    pub fn files(&self) -> (r: &Vec<IndexFile>)
        ensures
            r@ == self.file_list(),
            r@.len() <= MAX_INDEX_ENTRIES,
            files_ascend(r@),
            forall|i: int| 0 <= i < r@.len() ==> (#[trigger] r@[i]).layer
                < self.header_view().layers@.len(),
    {
        proof {
            use_type_invariant(self);
        }
        &self.files
    }

    /// Every directory, in the order of their paths: parents before their children.
    pub fn dirs(&self) -> (r: &Vec<IndexDir>)
        ensures
            r@ == self.dir_list(),
    {
        &self.dirs
    }

    /// Every symlink, in the order of their paths.
    pub fn symlinks(&self) -> (r: &Vec<IndexSymlink>)
        ensures
            r@ == self.symlink_list(),
    {
        &self.symlinks
    }

    /// Where the bytes of a path are in this point, if it holds a file of that path.
    pub fn reference(&self, path: &str) -> (r: Option<EntryRef>)
        ensures
            match r {
                Some(reference) => exists|i: int|
                    0 <= i < self.file_list().len() && (#[trigger] self.file_list()[i]).path@
                        == path@ && reference == (EntryRef {
                        l: self.file_list()[i].layer,
                        o: self.file_list()[i].offset,
                        n: self.file_list()[i].len,
                    }),
                None => forall|i: int|
                    0 <= i < self.file_list().len() ==> (#[trigger] self.file_list()[i]).path@
                        != path@,
            },
    {
        proof {
            use_type_invariant(self);
        }
        let mut low: usize = 0;
        let mut high: usize = self.files.len();
        while low < high
            invariant
                files_ascend(self.files@),
                low <= high <= self.files@.len(),
                forall|i: int| 0 <= i < low ==> less(#[trigger] self.files@[i].path@, path@),
                forall|i: int|
                    high <= i < self.files@.len() ==> less(path@, #[trigger] self.files@[i].path@),
            decreases high - low,
        {
            let mid: usize = low + (high - low) / 2;
            let record = &self.files[mid];
            proof {
                crate::text::lemma_less_total(record.path@, path@);
            }
            if str_less(record.path.as_str(), path) {
                assert forall|i: int| 0 <= i < mid + 1 implies less(
                    #[trigger] self.files@[i].path@,
                    path@,
                ) by {
                    if low <= i < mid {
                        crate::text::lemma_less_trans(self.files@[i].path@, record.path@, path@);
                    }
                }
                low = mid + 1;
            } else if str_less(path, record.path.as_str()) {
                assert forall|i: int| mid <= i < self.files@.len() implies less(
                    path@,
                    #[trigger] self.files@[i].path@,
                ) by {
                    if mid < i < high {
                        crate::text::lemma_less_trans(path@, record.path@, self.files@[i].path@);
                    }
                }
                high = mid;
            } else {
                assert(self.file_list()[mid as int].path@ == path@);
                return Some(EntryRef { l: record.layer, o: record.offset, n: record.len });
            }
        }
        assert forall|i: int| 0 <= i < self.file_list().len() implies (
        #[trigger] self.file_list()[i]).path@ != path@ by {
            crate::text::lemma_less_total(self.files@[i].path@, path@);
        }
        None
    }
}

/// No accepted index names a path twice or out of order, and none leads out of the tree: its
/// paths strictly ascend, each is safe, and so is the target of each symlink.
pub proof fn law_accepted_index_is_safe(layers: nat, lines: Seq<Result<Entry, String>>)
    requires
        parse_lines(layers, lines) is Ok,
    ensures
        forall|i: int|
            0 <= i < lines.len() ==> (#[trigger] lines[i] matches Ok(entry) && safe_path(entry.p@)
                && (entry.k == Kind::Symlink ==> safe_target(entry.p@, target_of(entry))) && (
            entry.k == Kind::File ==> entry.r is Some && entry.r->0.l < layers)),
        forall|i: int, j: int|
            0 <= i < j < lines.len() ==> less(
                (#[trigger] lines[i])->Ok_0.p@,
                (#[trigger] lines[j])->Ok_0.p@,
            ),
        lines.len() > 0 ==> parse_lines(layers, lines)->Ok_0.previous == Some(
            lines.last()->Ok_0.p@,
        ),
        lines.len() == 0 ==> parse_lines(layers, lines)->Ok_0.previous is None,
        entry_count(parse_lines(layers, lines)->Ok_0) == lines.len(),
    decreases lines.len(),
{
    if lines.len() > 0 {
        law_accepted_index_is_safe(layers, lines.drop_last());
        let n = lines.len() - 1;
        assert forall|i: int| 0 <= i < lines.len() implies (#[trigger] lines[i] matches Ok(entry)
            && safe_path(entry.p@) && (entry.k == Kind::Symlink ==> safe_target(
            entry.p@,
            target_of(entry),
        )) && (entry.k == Kind::File ==> entry.r is Some && entry.r->0.l < layers)) by {
            if i < n {
                assert(lines.drop_last()[i] == lines[i]);
            }
        }
        assert forall|i: int, j: int| 0 <= i < j < lines.len() implies less(
            (#[trigger] lines[i])->Ok_0.p@,
            (#[trigger] lines[j])->Ok_0.p@,
        ) by {
            assert(lines.drop_last()[i] == lines[i]);
            if j < n {
                assert(lines.drop_last()[j] == lines[j]);
            } else if i < n - 1 {
                assert(lines.drop_last()[n - 1] == lines[n - 1]);
                crate::text::lemma_less_trans(
                    lines[i]->Ok_0.p@,
                    lines[n - 1]->Ok_0.p@,
                    lines[n]->Ok_0.p@,
                );
            }
        }
    }
}

/// Whether directories strictly ascend by their paths, up to a path.
pub open spec fn dirs_ascend(state: ParseState) -> bool {
    &&& forall|i: int, j: int|
        0 <= i < j < state.dirs.len() ==> less(
            #[trigger] state.dirs[i].path@,
            #[trigger] state.dirs[j].path@,
        )
    &&& forall|i: int|
        0 <= i < state.dirs.len() ==> state.previous is Some && (#[trigger] state.dirs[i].path@
            == state.previous->0 || less(state.dirs[i].path@, state.previous->0))
}

proof fn lemma_dirs_ascend(layers: nat, lines: Seq<Result<Entry, String>>)
    requires
        parse_lines(layers, lines) is Ok,
    ensures
        dirs_ascend(parse_lines(layers, lines)->Ok_0),
    decreases lines.len(),
{
    if lines.len() > 0 {
        lemma_dirs_ascend(layers, lines.drop_last());
        let before = parse_lines(layers, lines.drop_last())->Ok_0;
        let after = parse_lines(layers, lines)->Ok_0;
        let entry = lines.last()->Ok_0;
        assert forall|i: int| 0 <= i < before.dirs.len() implies less(
            #[trigger] before.dirs[i].path@,
            entry.p@,
        ) by {
            if before.dirs[i].path@ != before.previous->0 {
                crate::text::lemma_less_trans(
                    before.dirs[i].path@,
                    before.previous->0,
                    entry.p@,
                );
            }
        }
        assert forall|i: int, j: int| 0 <= i < j < after.dirs.len() implies less(
            #[trigger] after.dirs[i].path@,
            #[trigger] after.dirs[j].path@,
        ) by {
            assert(after.dirs[i] == before.dirs[i]);
            if j < before.dirs.len() {
                assert(after.dirs[j] == before.dirs[j]);
            }
        }
        assert forall|i: int| 0 <= i < after.dirs.len() implies after.previous is Some && (
        #[trigger] after.dirs[i].path@ == after.previous->0 || less(
            after.dirs[i].path@,
            after.previous->0,
        )) by {
            if i < before.dirs.len() {
                assert(after.dirs[i] == before.dirs[i]);
            }
        }
    }
}

proof fn lemma_shorter_is_less(a: Seq<char>, b: Seq<char>, i: int)
    requires
        0 <= i <= a.len() < b.len(),
        forall|k: int| i <= k < a.len() ==> a[k] == b[k],
    ensures
        crate::text::less_from(a, b, i),
    decreases a.len() - i,
{
    if i < a.len() {
        lemma_shorter_is_less(a, b, i + 1);
    }
}

/// In an accepted index a directory comes before the directories inside it, so making them in
/// its order finds every parent, and going through them backwards leaves each parent for last.
pub proof fn law_parents_come_before_children(
    layers: nat,
    lines: Seq<Result<Entry, String>>,
    i: int,
    j: int,
    below: Seq<char>,
)
    requires
        parse_lines(layers, lines) is Ok,
        0 <= i < parse_lines(layers, lines)->Ok_0.dirs.len(),
        0 <= j < parse_lines(layers, lines)->Ok_0.dirs.len(),
        parse_lines(layers, lines)->Ok_0.dirs[j].path@ == parse_lines(
            layers,
            lines,
        )->Ok_0.dirs[i].path@ + "/"@ + below,
    ensures
        i < j,
{
    reveal_strlit("/");
    let dirs = parse_lines(layers, lines)->Ok_0.dirs;
    lemma_dirs_ascend(layers, lines);
    lemma_shorter_is_less(dirs[i].path@, dirs[j].path@, 0);
    crate::text::lemma_less_total(dirs[i].path@, dirs[j].path@);
    if j < i {
        assert(less(dirs[j].path@, dirs[i].path@));
    }
}

/// A path is safe if each of its segments is: two safe paths with a slash between them are one, and
/// where either is none, neither is the whole.
pub proof fn law_a_path_is_safe_segment_by_segment(a: Seq<char>, b: Seq<char>)
    requires
        byte_len(a) <= 4096,
        byte_len(b) <= 4096,
        byte_len(a + seq!['/'] + b) <= 4096,
    ensures
        safe_path(a + seq!['/'] + b) <==> safe_path(a) && safe_path(b),
{
    crate::text::law_pieces_add_up(a, '/', b);
    let whole = a + seq!['/'] + b;
    let (x, y) = (split(a, '/'), split(b, '/'));
    if good_segments(whole) {
        assert forall|i: int| 0 <= i < x.len() implies !bad_segment(#[trigger] x[i]) by {
            assert(split(whole, '/')[i] == x[i]);
        }
        assert forall|i: int| 0 <= i < y.len() implies !bad_segment(#[trigger] y[i]) by {
            assert(split(whole, '/')[x.len() + i] == y[i]);
        }
    }
    if good_segments(a) && good_segments(b) {
        assert forall|i: int| 0 <= i < split(whole, '/').len() implies !bad_segment(
            #[trigger] split(whole, '/')[i],
        ) by {
            if i < x.len() {
                assert(split(whole, '/')[i] == x[i]);
            } else {
                assert(split(whole, '/')[i] == y[i - x.len()]);
            }
        }
    }
    reveal_strlit("");
    let none = Seq::<char>::empty();
    assert(!none.contains('/'));
    crate::text::law_a_text_is_split_at_each_separator(none, '/', none);
    if a.len() == 0 {
        assert(a =~= none);
        assert(x[0] == none);
        assert(none =~= ""@);
        assert(bad_segment(x[0]));
    }
    if b.len() == 0 {
        assert(b =~= none);
        assert(y[0] == none);
        assert(none =~= ""@);
        assert(bad_segment(y[0]));
    }
}

/// A segment is safe if it is a name: not empty, neither the directory itself nor the one above,
/// and without a backslash, a colon or a zero. So no safe path begins at a root or on a drive.
pub proof fn law_a_segment_is_safe_if_it_is_a_name(segment: Seq<char>)
    requires
        !segment.contains('/'),
    ensures
        safe_path(segment) <==> {
            &&& 0 < segment.len()
            &&& byte_len(segment) <= 4096
            &&& segment != seq!['.']
            &&& segment != seq!['.', '.']
            &&& !segment.contains('\\')
            &&& !segment.contains(':')
            &&& !segment.contains('\0')
        },
{
    reveal_strlit("");
    reveal_strlit(".");
    reveal_strlit("..");
    crate::text::law_a_text_is_split_at_each_separator(segment, '/', segment);
    assert(""@ =~= Seq::<char>::empty());
    assert("."@ =~= seq!['.']);
    assert(".."@ =~= seq!['.', '.']);
    assert(split(segment, '/')[0] == segment);
    if safe_path(segment) {
        assert(!bad_segment(split(segment, '/')[0]));
    }
    if !bad_segment(segment) {
        assert forall|i: int| 0 <= i < split(segment, '/').len() implies !bad_segment(
            #[trigger] split(segment, '/')[i],
        ) by {
            assert(i == 0);
        }
    }
    if segment.len() == 0 {
        assert(segment =~= Seq::<char>::empty());
    }
}

/// A path is restored below the root that is restored into.
pub proof fn law_a_path_is_restored_below_its_root(root: Seq<char>, relative: Seq<char>)
    ensures
        root.len() > 0 ==> root.is_prefix_of(below(root, relative)),
        relative.is_suffix_of(below(root, relative)),
        root.len() > 0 && root.last() != '/' ==> below(root, relative) == root.push('/') + relative,
        root.len() > 0 && root.last() == '/' ==> below(root, relative) == root + relative,
        root.len() == 0 ==> below(root, relative) == relative,
{
    reveal_strlit("/");
    let whole = below(root, relative);
    if root.len() > 0 {
        assert(whole.take(root.len() as int) =~= root);
    }
    assert(whole.skip(whole.len() - relative.len()) =~= relative);
    if root.len() > 0 && root.last() != '/' {
        assert(whole =~= root.push('/') + relative);
    }
}

/// An entry is taken exactly where there are fewer than two million before it, its path is safe and
/// behind the one before it, all paths and targets together keep to 256 MiB, a link leads to where
/// it can be restored, and a file is placed in a layer that the index lists.
pub proof fn law_what_an_index_may_hold(layers: nat, state: ParseState, entry: Entry)
    ensures
        entry_fault(layers, state, entry) is None <==> {
            let target = match entry.t {
                Some(t) => t@,
                None => Seq::empty(),
            };
            &&& state.files.len() + state.dirs.len() + state.symlinks.len() < 2_000_000
            &&& safe_path(entry.p@)
            &&& state.previous matches Some(previous) ==> less(previous, entry.p@)
            &&& state.charged + byte_len(entry.p@) + (if entry.k == Kind::Symlink {
                byte_len(target)
            } else {
                0
            }) <= 256 * 1024 * 1024
            &&& entry.k == Kind::Symlink ==> safe_target(entry.p@, target)
            &&& entry.k == Kind::File ==> (entry.r matches Some(r) && r.l < layers)
        },
{
}

/// What an index says of a file, a directory or a symlink is what is restored of it: its path,
/// where its bytes are, its mode, its time and its target, each as it was read and in the order it
/// was read.
pub proof fn law_an_entry_is_recorded_as_it_is_read(
    layers: nat,
    lines: Seq<Result<Entry, String>>,
    i: int,
)
    requires
        parse_lines(layers, lines) is Ok,
        0 <= i < lines.len(),
    ensures
        ({
            let state = parse_lines(layers, lines)->Ok_0;
            let entry = lines[i]->Ok_0;
            &&& lines[i] is Ok
            &&& entry.k == Kind::File ==> exists|j: int|
                0 <= j < state.files.len() && (#[trigger] state.files[j]).path@ == entry.p@
                    && state.files[j].layer == entry.r->0.l && state.files[j].offset
                    == entry.r->0.o && state.files[j].len == entry.r->0.n && state.files[j].mtime_ns
                    == entry.m && state.files[j].mode == entry.mode
            &&& entry.k == Kind::Dir ==> exists|j: int|
                0 <= j < state.dirs.len() && (#[trigger] state.dirs[j]).path@ == entry.p@
                    && state.dirs[j].mtime_ns == entry.m && state.dirs[j].mode == entry.mode
            &&& entry.k == Kind::Symlink ==> exists|j: int|
                0 <= j < state.symlinks.len() && (#[trigger] state.symlinks[j]).path == entry.p@
                    && state.symlinks[j].mtime_ns == entry.m && state.symlinks[j].target == (
                match entry.t {
                    Some(t) => t@,
                    None => Seq::empty(),
                })
            &&& state.files.len() + state.dirs.len() + state.symlinks.len() == lines.len()
        }),
    decreases lines.len(),
{
    law_accepted_index_is_safe(layers, lines);
    let front = lines.drop_last();
    let before = parse_lines(layers, front)->Ok_0;
    let state = parse_lines(layers, lines)->Ok_0;
    let entry = lines[i]->Ok_0;
    let n = lines.len() - 1;
    assert(lines.last() == lines[n]);
    if i < n {
        law_an_entry_is_recorded_as_it_is_read(layers, front, i);
        assert(front[i] == lines[i]);
        assert forall|j: int| 0 <= j < before.files.len() implies state.files[j]
            == #[trigger] before.files[j] by {}
        assert forall|j: int| 0 <= j < before.dirs.len() implies state.dirs[j]
            == #[trigger] before.dirs[j] by {}
        assert forall|j: int| 0 <= j < before.symlinks.len() implies state.symlinks[j]
            == #[trigger] before.symlinks[j] by {}
        if entry.k == Kind::File {
            let j = choose|j: int|
                0 <= j < before.files.len() && (#[trigger] before.files[j]).path@ == entry.p@
                    && before.files[j].layer == entry.r->0.l && before.files[j].offset
                    == entry.r->0.o && before.files[j].len == entry.r->0.n
                    && before.files[j].mtime_ns == entry.m && before.files[j].mode == entry.mode;
            assert(state.files[j] == before.files[j]);
        } else if entry.k == Kind::Dir {
            let j = choose|j: int|
                0 <= j < before.dirs.len() && (#[trigger] before.dirs[j]).path@ == entry.p@
                    && before.dirs[j].mtime_ns == entry.m && before.dirs[j].mode == entry.mode;
            assert(state.dirs[j] == before.dirs[j]);
        } else {
            let j = choose|j: int|
                0 <= j < before.symlinks.len() && (#[trigger] before.symlinks[j]).path == entry.p@
                    && before.symlinks[j].mtime_ns == entry.m && before.symlinks[j].target == (
                match entry.t {
                    Some(t) => t@,
                    None => Seq::empty(),
                });
            assert(state.symlinks[j] == before.symlinks[j]);
        }
    } else if entry.k == Kind::File {
        assert(state.files[before.files.len() as int].path@ == entry.p@);
    } else if entry.k == Kind::Dir {
        assert(state.dirs[before.dirs.len() as int].path@ == entry.p@);
    } else {
        assert(state.symlinks[before.symlinks.len() as int].path == entry.p@);
    }
}

/// An index is read if it has a header of the one version there is and every line behind it is
/// taken; a line that is too long fails it, and so does any line that is none.
pub proof fn law_an_index_needs_its_header(
    header: IndexHeader,
    lines: Seq<Result<Entry, String>>,
    overlong: bool,
)
    ensures
        parse_index(None, lines, overlong) is Err,
        parse_index(Some(Ok(header)), lines, overlong) is Ok <==> header.v == 1 && !overlong
            && parse_lines(header.layers@.len(), lines) is Ok,
        parse_index(Some(Ok(header)), lines, overlong) matches Ok((h, state)) ==> h == header
            && parse_lines(header.layers@.len(), lines) == Ok::<ParseState, IndexFault>(state),
        (exists|i: int| 0 <= i < lines.len() && (#[trigger] lines[i]) is Err) ==> parse_index(
            Some(Ok(header)),
            lines,
            overlong,
        ) is Err,
{
    if parse_lines(header.layers@.len(), lines) is Ok {
        law_accepted_index_is_safe(header.layers@.len(), lines);
        assert forall|i: int| 0 <= i < lines.len() implies (#[trigger] lines[i]) is Ok by {}
    }
}

/// A line may have 65536 bytes and no more.
pub proof fn law_a_line_is_bounded(line: Seq<u8>, rest: Seq<u8>)
    requires
        forall|j: int| 0 <= j < line.len() ==> line[j] != 10u8,
    ensures
        cut_lines(line).overlong <==> line.len() > 65536,
        line.len() > 65536 ==> cut_lines(line + rest).overlong,
        0 < line.len() <= 65536 ==> cut_lines(line.push(10u8)).lines == seq![line],
{
    lemma_newline_from(line, 0);
    law_chunking_is_immaterial(line, rest);
    let s = line.push(10u8);
    lemma_newline_from(s, 0);
    let end = newline_from(s, 0);
    assert(s[line.len() as int] == 10u8);
    if end < line.len() {
        assert(s[end] == line[end]);
    }
    if 0 < line.len() <= 65536 {
        assert(s.skip(end + 1) =~= Seq::<u8>::empty());
        lemma_newline_from(Seq::empty(), 0);
        assert(cut_lines(Seq::<u8>::empty()).lines =~= Seq::<Seq<u8>>::empty());
        assert(s.take(end) =~= line);
        assert(cut_lines(s).lines =~= seq![line]);
    }
}

/// A line that is no entry is named by its number in the index, where the header is the first.
pub proof fn law_a_bad_line_is_named(
    layers: nat,
    lines: Seq<Result<Entry, String>>,
    message: String,
)
    requires
        parse_lines(layers, lines) is Ok,
    ensures
        parse_lines(layers, lines.push(Err(message))) == Err::<ParseState, IndexFault>(
            IndexFault::BadEntry(lines.len() as int + 2, message@),
        ),
{
    law_accepted_index_is_safe(layers, lines);
    let more = lines.push(Err::<Entry, String>(message));
    assert(more.drop_last() =~= lines);
    assert(more.last() == Err::<Entry, String>(message));
}

/// An index that was read is what its lines say.
pub proof fn law_an_index_is_what_its_lines_say(index: PointIndex, state: ParseState, i: int)
    requires
        holds_state(index, state),
    ensures
        index.file_list() == state.files,
        index.dir_list() == state.dirs,
        index.symlink_list().len() == state.symlinks.len(),
        0 <= i < state.symlinks.len() ==> {
            &&& index.symlink_list()[i].path@ == state.symlinks[i].path
            &&& index.symlink_list()[i].target@ == state.symlinks[i].target
            &&& index.symlink_list()[i].mtime_ns == state.symlinks[i].mtime_ns
        },
{
    let views = symlink_views(index.symlink_list());
    assert(views.len() == index.symlink_list().len());
    if 0 <= i < state.symlinks.len() {
        assert(views[i] == state.symlinks[i]);
    }
}

} // verus!
