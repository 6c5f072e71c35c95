//! The app-data index: what a restore point says the app's subtree contained, and how a capture
//! decides what changed since the last one.
//!
//! The index is a flat document: a header line, then one line for each entry, in strictly
//! ascending order of paths. Paths are relative to the app's subtree on the volume and always
//! use `/`.

use crate::persist::restore::{document_of, law_an_index_is_the_document_of_its_lines};
use crate::text::{
    cat2, cat3, cat4, cat5, chars_of, contains_char, debug_quoted, decimal, decimal_of, less, owned,
    pieces, quoted, same, same_chars, slice_string, split, str_less, string_of,
    views,
};
use std::cmp::Ordering;
use vstd::prelude::*;
use vstd::utf8::encode_utf8;

verus! {

/// Index format version recorded in the header.
pub const INDEX_VERSION: u32 = 1;

/// Bytes that a path, or a symlink target, may take in an index.
pub const MAX_PATH_LEN: usize = 4096;

/// Errors from writing, reading, or walking an index.
#[derive(Debug, PartialEq, Eq)]
pub enum TreeError {
    Io(String),
    NoHeader,
    BadHeader(String),
    BadEntry { line: usize, source: String },
    UnsupportedVersion(u32),
    OutOfOrder { previous: String, actual: String },
    DanglingLayer(String, u32),
    Walk { path: String, source: String },
    NotMirrorable(String),
}

/// The message of an index error.
pub open spec fn tree_message(e: TreeError) -> Seq<char> {
    match e {
        TreeError::Io(source) => "app data index I/O: "@ + source@,
        TreeError::NoHeader => "app data index is empty (no header line)"@,
        TreeError::BadHeader(source) => "app data index header is malformed: "@ + source@,
        TreeError::BadEntry { line, source } => "app data index line "@ + decimal(line as nat)
            + " is malformed: "@ + source@,
        TreeError::UnsupportedVersion(v) => "app data index version "@ + decimal(v as nat)
            + " is unsupported (expected 1)"@,
        TreeError::OutOfOrder { previous, actual } => "app data index entry "@ + debug_quoted(
            actual@,
        ) + " does not follow "@ + debug_quoted(previous@) + " in sorted order"@,
        TreeError::DanglingLayer(path, layer) => "app data index entry "@ + debug_quoted(path@)
            + " references layer "@ + decimal(layer as nat) + ", which the header does not list"@,
        TreeError::Walk { path, source } => "walk "@ + path@ + ": "@ + source@,
        TreeError::NotMirrorable(path) => "persisted path "@ + debug_quoted(path@)
            + " is not absolute and cannot be mirrored onto the volume"@,
    }
}

impl TreeError {
    /// The message of the error.
    pub fn message(&self) -> (r: String)
        ensures
            r@ == tree_message(*self),
    {
        match self {
            TreeError::Io(source) => cat2("app data index I/O: ", source.as_str()),
            TreeError::NoHeader => owned("app data index is empty (no header line)"),
            TreeError::BadHeader(source) => cat2(
                "app data index header is malformed: ",
                source.as_str(),
            ),
            TreeError::BadEntry { line, source } => cat4(
                "app data index line ",
                decimal_of(*line as u64).as_str(),
                " is malformed: ",
                source.as_str(),
            ),
            TreeError::UnsupportedVersion(v) => cat3(
                "app data index version ",
                decimal_of(*v as u64).as_str(),
                " is unsupported (expected 1)",
            ),
            TreeError::OutOfOrder { previous, actual } => cat5(
                "app data index entry ",
                quoted(actual.as_str()).as_str(),
                " does not follow ",
                quoted(previous.as_str()).as_str(),
                " in sorted order",
            ),
            TreeError::DanglingLayer(path, layer) => cat5(
                "app data index entry ",
                quoted(path.as_str()).as_str(),
                " references layer ",
                decimal_of(*layer as u64).as_str(),
                ", which the header does not list",
            ),
            TreeError::Walk { path, source } => cat4(
                "walk ",
                path.as_str(),
                ": ",
                source.as_str(),
            ),
            TreeError::NotMirrorable(path) => cat3(
                "persisted path ",
                quoted(path.as_str()).as_str(),
                " is not absolute and cannot be mirrored onto the volume",
            ),
        }
    }
}

/// A layer of a restore point: its content digest and its stored size.
#[derive(Debug, PartialEq, Eq)]
pub struct LayerRef {
    pub digest: String,
    pub size: u64,
}

impl Clone for LayerRef {
    fn clone(&self) -> (r: LayerRef)
        ensures
            r == *self,
    {
        LayerRef { digest: self.digest.clone(), size: self.size }
    }
}

/// The index's first line.
#[derive(Debug, PartialEq, Eq)]
pub struct IndexHeader {
    pub v: u32,
    pub app: String,
    pub created_at: i64,
    /// The point's data layers, in the order in which the entries first reference them.
    pub layers: Vec<LayerRef>,
}

/// What kind of thing an entry names.
#[derive(Debug, Clone, Copy, PartialEq, Eq, Structural)]
pub enum Kind {
    File,
    Dir,
    Symlink,
}

/// Where a file's bytes are: the number of the layer, the offset in that layer's plaintext, and
/// the length.
#[derive(Debug, Clone, Copy, PartialEq, Eq, Structural)]
pub struct EntryRef {
    pub l: u32,
    pub o: u64,
    pub n: u64,
}

/// One line of the index.
#[derive(Debug, PartialEq, Eq)]
pub struct Entry {
    /// Path relative to the app's subtree.
    pub p: String,
    pub k: Kind,
    pub s: u64,
    pub m: i64,
    pub c: i64,
    pub mode: u32,
    /// The target of a symlink.
    pub t: Option<String>,
    /// Where the bytes of a file are.
    pub r: Option<EntryRef>,
}

impl Clone for Entry {
    fn clone(&self) -> (r: Entry)
        ensures
            r == *self,
    {
        Entry {
            p: self.p.clone(),
            k: self.k,
            s: self.s,
            m: self.m,
            c: self.c,
            mode: self.mode,
            t: self.t.clone(),
            r: self.r,
        }
    }
}

// ---------------------------------------------------------------------------
// Writing and reading an index
// ---------------------------------------------------------------------------

/// Whether the entries so far may be followed by an entry: it sorts strictly after the last of
/// them, and it references a layer of the header or none.
pub open spec fn may_follow(previous: Option<Seq<char>>, layers: nat, entry: Entry) -> bool {
    &&& previous matches Some(p) ==> less(p, entry.p@)
    &&& entry.r matches Some(r) ==> r.l < layers
}

/// Writes an index: the header line, then the lines of entries in sorted order.
///
/// The order is checked on every push, because a restore merges the index against a walk of the
/// same shape and one misplaced line would silently drop a file.
pub struct IndexWriter {
    out: Vec<u8>,
    previous: Option<String>,
    layers: usize,
    entries: u64,
    header: Ghost<IndexHeader>,
    lines: Ghost<Seq<Seq<u8>>>,
    accepted: Ghost<Seq<Entry>>,
}

/// The path of the last of some entries.
pub open spec fn last_path(entries: Seq<Entry>) -> Option<Seq<char>> {
    if entries.len() == 0 {
        None
    } else {
        Some(entries.last().p@)
    }
}

/// Whether some entries follow one another in an index whose header lists so many layers.
pub open spec fn in_sequence(layers: nat, entries: Seq<Entry>) -> bool {
    forall|k: int|
        0 <= k < entries.len() ==> may_follow(
            last_path(entries.take(k)),
            layers,
            #[trigger] entries[k],
        )
}

impl IndexWriter {
    /// The document so far.
    pub closed spec fn document(&self) -> Seq<u8> {
        self.out@
    }

    /// The header of the index.
    pub closed spec fn header_view(&self) -> IndexHeader {
        self.header@
    }

    /// The lines of the document: the header's, then those of the entries that were accepted.
    pub closed spec fn lines(&self) -> Seq<Seq<u8>> {
        self.lines@
    }

    /// The entries that were accepted.
    pub closed spec fn accepted(&self) -> Seq<Entry> {
        self.accepted@
    }

    /// What holds of an index under way: it is the document of its lines, one for the header and
    /// one for each entry that was accepted, and those follow one another.
    pub closed spec fn wf(&self) -> bool {
        &&& self.out@ == document_of(self.lines@)
        &&& self.lines@.len() == self.accepted@.len() + 1
        &&& self.entries == self.accepted@.len()
        &&& self.layers == self.header@.layers@.len()
        &&& (match self.previous {
            Some(p) => Some(p@),
            None => None,
        }) == last_path(self.accepted@)
        &&& in_sequence(self.layers as nat, self.accepted@)
    }

    /// An index that begins with the given rendering of its header.
    pub fn new(header: &IndexHeader, line: &[u8]) -> (r: IndexWriter)
        ensures
            r.wf(),
            r.header_view() == *header,
            r.lines() == seq![line@],
            r.accepted() == Seq::<Entry>::empty(),
    {
        let mut out: Vec<u8> = vstd::slice::slice_to_vec(line);
        out.push(10u8);
        proof {
            law_an_index_is_the_document_of_its_lines(Seq::empty(), line@);
            assert(Seq::<Seq<u8>>::empty().push(line@) =~= seq![line@]);
        }
        IndexWriter {
            out,
            previous: None,
            layers: header.layers.len(),
            entries: 0,
            header: Ghost(*header),
            lines: Ghost(Seq::<Seq<u8>>::empty().push(line@)),
            accepted: Ghost(Seq::empty()),
        }
    }

    /// Appends one entry in the given rendering. An entry that does not sort strictly after the
    /// previous one is refused, and so is one that references a layer the header does not list;
    /// the index then stays as it was.
    pub fn push(&mut self, entry: &Entry, line: &[u8]) -> (r: Result<(), TreeError>)
        requires
            old(self).wf(),
            old(self).accepted().len() < u64::MAX,
        ensures
            final(self).wf(),
            final(self).header_view() == old(self).header_view(),
            match r {
                Ok(()) => {
                    &&& may_follow(
                        last_path(old(self).accepted()),
                        old(self).header_view().layers@.len(),
                        *entry,
                    )
                    &&& final(self).lines() == old(self).lines().push(line@)
                    &&& final(self).accepted() == old(self).accepted().push(*entry)
                },
                Err(e) => {
                    &&& *final(self) == *old(self)
                    &&& match e {
                        TreeError::OutOfOrder { previous, actual } => last_path(
                            old(self).accepted(),
                        ) == Some(previous@) && actual@ == entry.p@ && !less(previous@, entry.p@),
                        TreeError::DanglingLayer(path, layer) => path@ == entry.p@ && (
                        entry.r matches Some(reference) && reference.l == layer && layer >= old(
                            self,
                        ).header_view().layers@.len()) && (last_path(
                            old(self).accepted(),
                        ) matches Some(p) ==> less(p, entry.p@)),
                        _ => false,
                    }
                },
            },
    {
        match &self.previous {
            Some(previous) => {
                if !str_less(previous.as_str(), entry.p.as_str()) {
                    return Err(
                        TreeError::OutOfOrder {
                            previous: previous.clone(),
                            actual: entry.p.clone(),
                        },
                    );
                }
            },
            None => {},
        }
        match &entry.r {
            Some(reference) => {
                if reference.l as usize >= self.layers {
                    return Err(TreeError::DanglingLayer(entry.p.clone(), reference.l));
                }
            },
            None => {},
        }
        proof {
            law_an_index_is_the_document_of_its_lines(self.lines@, line@);
            let before = self.accepted@;
            let after = before.push(*entry);
            assert forall|k: int| 0 <= k < after.len() implies may_follow(
                last_path(after.take(k)),
                self.layers as nat,
                #[trigger] after[k],
            ) by {
                if k < before.len() {
                    assert(after.take(k) =~= before.take(k));
                    assert(after[k] == before[k]);
                } else {
                    assert(after.take(k) =~= before);
                }
            }
        }
        crate::bytes::append(&mut self.out, line);
        self.out.push(10u8);
        self.previous = Some(entry.p.clone());
        self.entries = self.entries + 1;
        self.lines = Ghost(self.lines@.push(line@));
        self.accepted = Ghost(self.accepted@.push(*entry));
        Ok(())
    }

    /// The document, and the number of entries written: the header's line and one line for each
    /// entry that was accepted, in their order.
    pub fn finish(self) -> (r: (Vec<u8>, u64))
        requires
            self.wf(),
        ensures
            r.0@ == document_of(self.lines()),
            r.1 == self.accepted().len(),
            self.lines().len() == self.accepted().len() + 1,
            in_sequence(self.header_view().layers@.len(), self.accepted()),
    {
        (self.out, self.entries)
    }
}

/// Whether a line holds nothing but white space.
pub open spec fn blank(line: Seq<char>) -> bool {
    crate::text::trim(line).len() == 0
}

/// What the lines behind a header come to, with what each of them parses to: the entries, or for a
/// line that cannot be parsed its number and what is wrong with it. Blank lines come to nothing.
pub open spec fn read_out(lines: Seq<Seq<char>>, parsed: Seq<Result<Entry, String>>) -> Seq<
    Result<Entry, (int, String)>,
>
    decreases lines.len(),
{
    if lines.len() == 0 {
        Seq::empty()
    } else {
        let before = read_out(lines.drop_last(), parsed.drop_last());
        if blank(lines.last()) {
            before
        } else {
            before.push(
                match parsed.last() {
                    Ok(entry) => Ok(entry),
                    Err(source) => Err(((lines.len() + 1) as int, source)),
                },
            )
        }
    }
}

/// Where each line is the rendering of an entry, and so not blank, the entries are read in their
/// order, and nothing else.
pub proof fn law_every_entry_is_read_in_its_order(
    lines: Seq<Seq<char>>,
    parsed: Seq<Result<Entry, String>>,
    entries: Seq<Entry>,
)
    requires
        lines.len() == parsed.len() == entries.len(),
        forall|k: int| 0 <= k < lines.len() ==> !blank(#[trigger] lines[k]),
        forall|k: int|
            0 <= k < lines.len() ==> #[trigger] parsed[k] == Ok::<Entry, String>(entries[k]),
    ensures
        read_out(lines, parsed) == Seq::new(
            entries.len(),
            |k: int| Ok::<Entry, (int, String)>(entries[k]),
        ),
    decreases lines.len(),
{
    if lines.len() > 0 {
        let n = lines.len() - 1;
        assert forall|k: int| 0 <= k < n implies !blank(#[trigger] lines.drop_last()[k]) by {
            assert(lines.drop_last()[k] == lines[k]);
        }
        assert forall|k: int| 0 <= k < n implies #[trigger] parsed.drop_last()[k] == Ok::<
            Entry,
            String,
        >(entries.drop_last()[k]) by {
            assert(parsed.drop_last()[k] == parsed[k]);
        }
        law_every_entry_is_read_in_its_order(
            lines.drop_last(),
            parsed.drop_last(),
            entries.drop_last(),
        );
        assert(!blank(lines[n]) && parsed[n] == Ok::<Entry, String>(entries[n]));
    }
    assert(read_out(lines, parsed) =~= Seq::new(
        entries.len(),
        |k: int| Ok::<Entry, (int, String)>(entries[k]),
    ));
}

/// Reads an index: its header, then its lines one at a time.
pub struct IndexReader {
    header: IndexHeader,
    line: usize,
    lines: Ghost<Seq<Seq<char>>>,
    parsed: Ghost<Seq<Result<Entry, String>>>,
}

impl IndexReader {
    /// The header of the index.
    pub closed spec fn header_view(&self) -> IndexHeader {
        self.header
    }

    /// The lines that have been taken behind the header.
    pub closed spec fn lines(&self) -> Seq<Seq<char>> {
        self.lines@
    }

    /// What those lines parsed to.
    pub closed spec fn parsed(&self) -> Seq<Result<Entry, String>> {
        self.parsed@
    }

    /// What holds of a reader: it counts its lines.
    pub closed spec fn wf(&self) -> bool {
        &&& self.line == self.lines@.len() + 1
        &&& self.lines@.len() == self.parsed@.len()
    }

    /// Takes what the first line of the document parsed to: nothing where the document is empty,
    /// or what the parser refused it with. A version that this code does not know is refused.
    pub fn open(first: Option<Result<IndexHeader, String>>) -> (r: Result<IndexReader, TreeError>)
        ensures
            match first {
                None => r == Err::<IndexReader, TreeError>(TreeError::NoHeader),
                Some(Err(source)) => r == Err::<IndexReader, TreeError>(
                    TreeError::BadHeader(source),
                ),
                Some(Ok(header)) => if header.v != INDEX_VERSION {
                    r == Err::<IndexReader, TreeError>(TreeError::UnsupportedVersion(header.v))
                } else {
                    r matches Ok(reader) && reader.wf() && reader.header_view() == header
                        && reader.lines() == Seq::<Seq<char>>::empty()
                },
            },
    {
        match first {
            None => Err(TreeError::NoHeader),
            Some(Err(source)) => Err(TreeError::BadHeader(source)),
            Some(Ok(header)) => if header.v != INDEX_VERSION {
                Err(TreeError::UnsupportedVersion(header.v))
            } else {
                Ok(
                    IndexReader {
                        header,
                        line: 1,
                        lines: Ghost(Seq::empty()),
                        parsed: Ghost(Seq::empty()),
                    },
                )
            },
        }
    }

    /// Takes the next line, with what it parses to: the entry, or the error of the line. A blank
    /// line comes to nothing, whatever it parses to.
    pub fn next(&mut self, line: &str, parsed: Result<Entry, String>) -> (r: Option<
        Result<Entry, TreeError>,
    >)
        requires
            old(self).wf(),
            old(self).lines().len() < usize::MAX - 1,
        ensures
            final(self).wf(),
            final(self).header_view() == old(self).header_view(),
            final(self).lines() == old(self).lines().push(line@),
            final(self).parsed() == old(self).parsed().push(parsed),
            r == (if blank(line@) {
                None
            } else {
                Some(
                    match parsed {
                        Ok(entry) => Ok(entry),
                        Err(source) => Err(
                            TreeError::BadEntry {
                                line: (final(self).lines().len() + 1) as usize,
                                source,
                            },
                        ),
                    },
                )
            }),
            read_out(final(self).lines(), final(self).parsed()) == (match r {
                None => read_out(old(self).lines(), old(self).parsed()),
                Some(Ok(entry)) => read_out(old(self).lines(), old(self).parsed()).push(Ok(entry)),
                Some(Err(_)) => read_out(old(self).lines(), old(self).parsed()).push(
                    Err(((final(self).lines().len() + 1) as int, parsed->Err_0)),
                ),
            }),
    {
        self.line = self.line + 1;
        proof {
            assert(self.lines@.push(line@).drop_last() =~= self.lines@);
            assert(self.parsed@.push(parsed).drop_last() =~= self.parsed@);
        }
        self.lines = Ghost(self.lines@.push(line@));
        self.parsed = Ghost(self.parsed@.push(parsed));
        if crate::text::trimmed(&chars_of(line)).len() == 0 {
            None
        } else {
            match parsed {
                Ok(entry) => Some(Ok(entry)),
                Err(source) => Some(Err(TreeError::BadEntry { line: self.line, source })),
            }
        }
    }

    /// The header.
    pub fn header(&self) -> (r: &IndexHeader)
        ensures
            *r == self.header_view(),
    {
        &self.header
    }

    /// Takes the header.
    pub fn into_header(self) -> (r: IndexHeader)
        ensures
            r == self.header_view(),
    {
        self.header
    }
}

// ---------------------------------------------------------------------------
// Paths
// ---------------------------------------------------------------------------

/// The number of bytes that a text takes in UTF-8.
pub open spec fn byte_len(s: Seq<char>) -> nat {
    encode_utf8(s).len()
}

/// The number of bytes that a string takes.
pub fn len_in_bytes(s: &str) -> (r: usize)
    ensures
        r == byte_len(s@),
{
    s.as_bytes().len()
}

/// Whether a character is the letter of a drive.
pub open spec fn is_drive(c: char) -> bool {
    ('a' <= c && c <= 'z') || ('A' <= c && c <= 'Z')
}

/// The volume-relative form of an absolute path, where it has one: a path from the root, or one
/// from a drive's letter, a colon and a slash.
pub open spec fn mirrored(path: Seq<char>) -> Option<Seq<char>> {
    if path.len() > 0 && path[0] == '/' {
        Some(path.skip(1))
    } else if path.len() >= 3 && is_drive(path[0]) && path[1] == ':' && path[2] == '/' {
        Some(path.take(1) + path.skip(2))
    } else {
        None
    }
}

/// The mirrored, volume-relative form of an absolute persisted path: `/var/lib/pg` becomes
/// `var/lib/pg`, `c:/jenkins-agent` becomes `c/jenkins-agent`.
pub fn mirror(path: &str) -> (r: Result<String, TreeError>)
    ensures
        match r {
            Ok(m) => mirrored(path@) == Some(m@),
            Err(e) => mirrored(path@) is None && (e matches TreeError::NotMirrorable(p) && p@
                == path@),
        },
{
    let chars = chars_of(path);
    if chars.len() > 0 && chars[0] == '/' {
        let rest = slice_string(&chars, 1, chars.len());
        assert(rest@ =~= path@.skip(1));
        return Ok(rest);
    }
    if chars.len() >= 3 && (('a' <= chars[0] && chars[0] <= 'z') || ('A' <= chars[0] && chars[0]
        <= 'Z')) && chars[1] == ':' && chars[2] == '/' {
        let drive = slice_string(&chars, 0, 1);
        let rest = slice_string(&chars, 2, chars.len());
        assert(drive@ =~= path@.take(1));
        assert(rest@ =~= path@.skip(2));
        return Ok(cat2(drive.as_str(), rest.as_str()));
    }
    Err(TreeError::NotMirrorable(owned(path)))
}

/// How far following some path segments leads down: each name one step, each `..` one step back.
pub open spec fn net_depth(segments: Seq<Seq<char>>) -> int
    decreases segments.len(),
{
    if segments.len() == 0 {
        0
    } else {
        let last = segments.last();
        net_depth(segments.drop_last()) + (if last == ""@ || last == "."@ {
            0int
        } else if last == ".."@ {
            -1int
        } else {
            1int
        })
    }
}

/// Whether following the target of a link from where the link sits stays inside the tree.
pub open spec fn stays_inside(link: Seq<char>, target: Seq<char>) -> bool {
    let segments = split(target, '/');
    forall|i: int|
        0 <= i <= segments.len() ==> split(link, '/').len() - 1 + #[trigger] net_depth(
            segments.take(i),
        ) >= 0
}

/// Whether a symlink's target is one that a restore recreates: not empty, not too long, not
/// absolute, without a NUL, a backslash or a colon, and never leading out of the tree from where
/// the link sits.
pub open spec fn safe_target(link: Seq<char>, target: Seq<char>) -> bool {
    &&& target.len() > 0
    &&& byte_len(target) <= MAX_PATH_LEN
    &&& target[0] != '/'
    &&& !target.contains('\0')
    &&& !target.contains('\\')
    &&& !target.contains(':')
    &&& stays_inside(link, target)
}

/// Whether a symlink's target is one that a restore recreates.
///
/// This is the one definition of the rule: a walk leaves out a link that fails it, and a restore
/// refuses an index that carries one.
pub fn link_target_is_safe(link: &str, target: &str) -> (r: bool)
    ensures
        r == safe_target(link@, target@),
{
    let chars = chars_of(target);
    if chars.len() == 0 || len_in_bytes(target) > MAX_PATH_LEN {
        return false;
    }
    if chars[0] == '/' || contains_char(&chars, '\0') || contains_char(&chars, '\\')
        || contains_char(&chars, ':') {
        return false;
    }
    let link_chars = chars_of(link);
    let start: usize = pieces(&link_chars, '/').len() - 1;
    let segments = pieces(&chars, '/');
    let ghost segs = split(target@, '/');
    let mut up: usize = 0;
    let mut down: usize = 0;
    for i in 0..segments.len()
        invariant
            segs == crate::text::char_views(segments@),
            segs == split(target@, '/'),
            start == split(link@, '/').len() - 1,
            up <= i,
            down <= i,
            start + down >= up,
            net_depth(segs.take(i as int)) == down - up,
            forall|j: int| 0 <= j <= i ==> start + #[trigger] net_depth(segs.take(j)) >= 0,
    {
        proof {
            assert(segs.take(i + 1).drop_last() =~= segs.take(i as int));
            assert(segs.take(i + 1).last() == segments@[i as int]@);
        }
        let segment = &segments[i];
        if same_chars(segment, &chars_of("")) || same_chars(segment, &chars_of(".")) {
        } else if same_chars(segment, &chars_of("..")) {
            if down >= up && down - up >= 1 {
                up = up + 1;
            } else if up - down < start {
                up = up + 1;
            } else {
                assert(start + net_depth(segs.take(i + 1)) < 0) by {
                    reveal_strlit("");
                    reveal_strlit(".");
                    reveal_strlit("..");
                    assert(""@.len() != ".."@.len());
                    assert("."@.len() != ".."@.len());
                }
                return false;
            }
        } else {
            down = down + 1;
        }
        proof {
            reveal_strlit("");
            reveal_strlit(".");
            reveal_strlit("..");
            assert(""@.len() != ".."@.len());
            assert("."@.len() != ".."@.len());
        }
    }
    true
}

/// A path one step below another; a name below nothing stands alone.
pub open spec fn joined_path(prefix: Seq<char>, name: Seq<char>) -> Seq<char> {
    if prefix.len() == 0 {
        name
    } else {
        prefix + "/"@ + name
    }
}

/// A path one step below another.
pub fn join_rel(prefix: &str, name: &str) -> (r: String)
    ensures
        r@ == joined_path(prefix@, name@),
{
    if prefix.is_empty() {
        owned(name)
    } else {
        cat3(prefix, "/", name)
    }
}

/// The segments of a relative path that are not empty.
pub fn sub_path(relative: &str) -> (r: Vec<String>)
    ensures
        views(r@) == split(relative@, '/').filter(|s: Seq<char>| s.len() > 0),
{
    let chars = chars_of(relative);
    let segments = pieces(&chars, '/');
    let ghost segs = split(relative@, '/');
    let ghost kept = |s: Seq<char>| s.len() > 0;
    let mut out: Vec<String> = Vec::new();
    assert(views(out@) =~= segs.take(0).filter(kept));
    for i in 0..segments.len()
        invariant
            segs == crate::text::char_views(segments@),
            kept == (|s: Seq<char>| s.len() > 0),
            views(out@) == segs.take(i as int).filter(kept),
    {
        proof {
            assert(segs.take(i + 1) =~= segs.take(i as int).push(segs[i as int]));
            segs.take(i as int).lemma_filter_push(segs[i as int], kept);
        }
        if segments[i].len() > 0 {
            let ghost before = out@;
            out.push(string_of(&segments[i]));
            assert(views(out@) =~= views(before).push(segs[i as int]));
        }
    }
    assert(segs.take(segments@.len() as int) =~= segs);
    out
}

// ---------------------------------------------------------------------------
// Walking
// ---------------------------------------------------------------------------

/// One thing that a walk found.
#[derive(Debug, PartialEq, Eq)]
pub struct WalkEntry {
    /// Path relative to the app's subtree.
    pub path: String,
    pub kind: Kind,
    pub size: u64,
    pub mtime_ns: i64,
    pub ctime_ns: i64,
    pub mode: u32,
    pub target: Option<String>,
    /// Where to read the bytes from.
    pub source: String,
}

impl Clone for WalkEntry {
    fn clone(&self) -> (r: WalkEntry)
        ensures
            r == *self,
    {
        WalkEntry {
            path: self.path.clone(),
            kind: self.kind,
            size: self.size,
            mtime_ns: self.mtime_ns,
            ctime_ns: self.ctime_ns,
            mode: self.mode,
            target: self.target.clone(),
            source: self.source.clone(),
        }
    }
}

/// One thing that a walk found, by its texts.
pub struct FoundView {
    pub path: Seq<char>,
    pub kind: Kind,
    pub size: u64,
    pub mtime_ns: i64,
    pub ctime_ns: i64,
    pub mode: u32,
    pub target: Option<Seq<char>>,
    pub source: Seq<char>,
}

impl View for WalkEntry {
    type V = FoundView;

    open spec fn view(&self) -> FoundView {
        FoundView {
            path: self.path@,
            kind: self.kind,
            size: self.size,
            mtime_ns: self.mtime_ns,
            ctime_ns: self.ctime_ns,
            mode: self.mode,
            target: match self.target {
                Some(target) => Some(target@),
                None => None,
            },
            source: self.source@,
        }
    }
}

/// The entries of a walk by their texts.
pub open spec fn entry_views(entries: Seq<WalkEntry>) -> Seq<FoundView> {
    Seq::new(entries.len(), |i: int| entries[i]@)
}

/// What a directory listing says of one thing in it.
#[derive(Debug, PartialEq, Eq)]
pub struct Child {
    pub name: String,
    /// Nothing for what is no file, directory or symlink.
    pub kind: Option<Kind>,
    pub len: u64,
    pub mtime_ns: i64,
    pub ctime_ns: i64,
    /// The mode, with the bits that say what kind of thing it is.
    pub mode: u32,
    /// The target of a symlink, where it could be read.
    pub target: Option<String>,
    /// Where the thing is.
    pub source: String,
}

/// What a walk makes of one thing.
#[derive(Debug, PartialEq, Eq)]
pub enum Visit {
    /// It is left out.
    Skip,
    /// It is a symlink whose target a restore would refuse: it is left out and counted.
    SkipLink,
    /// It is recorded.
    Take(WalkEntry),
}

/// What a walk makes of one thing, by its texts.
pub enum VisitView {
    Skip,
    SkipLink,
    Take(FoundView),
}

impl View for Visit {
    type V = VisitView;

    open spec fn view(&self) -> VisitView {
        match self {
            Visit::Skip => VisitView::Skip,
            Visit::SkipLink => VisitView::SkipLink,
            Visit::Take(e) => VisitView::Take(e@),
        }
    }
}

/// A text with `/` for every backslash.
pub open spec fn forward_slashes(s: Seq<char>) -> Seq<char> {
    Seq::new(
        s.len(),
        |i: int|
            if s[i] == '\\' {
                '/'
            } else {
                s[i]
            },
    )
}

fn with_forward_slashes(s: &str) -> (r: String)
    ensures
        r@ == forward_slashes(s@),
{
    let chars = chars_of(s);
    let mut out = String::new();
    for i in 0..chars.len()
        invariant
            chars@ == s@,
            out@ == forward_slashes(s@).take(i as int),
    {
        if chars[i] == '\\' {
            out.push('/');
        } else {
            out.push(chars[i]);
        }
        assert(out@ =~= forward_slashes(s@).take(i + 1));
    }
    assert(out@ =~= forward_slashes(s@));
    out
}

/// The permission bits of a mode: the low twelve.
pub fn mode_of(mode: u32) -> (r: u32)
    ensures
        r == mode & 0xfff,
        forall|bit: u32|
            bit < 32 ==> (#[trigger] (r >> bit)) & 1 == (if bit < 12 {
                (mode >> bit) & 1
            } else {
                0
            }),
{
    proof {
        let low: u32 = mode & 0xfff;
        assert forall|bit: u32| bit < 32 implies (#[trigger] (low >> bit)) & 1 == (if bit < 12 {
            (mode >> bit) & 1
        } else {
            0
        }) by {
            lemma_low_twelve(mode, bit);
        }
    }
    mode & 0xfff
}

/// What is recorded of a thing under a path: a length for a file alone, and the permission bits
/// of its mode.
pub open spec fn recorded(
    path: Seq<char>,
    child: Child,
    kind: Kind,
    target: Option<Seq<char>>,
) -> FoundView {
    FoundView {
        path,
        kind,
        size: if kind == Kind::File {
            child.len
        } else {
            0
        },
        mtime_ns: child.mtime_ns,
        ctime_ns: child.ctime_ns,
        mode: child.mode & 0xfff,
        target,
        source: child.source@,
    }
}

fn entry_from(path: String, child: &Child, kind: Kind, target: Option<String>) -> (r: WalkEntry)
    ensures
        r@ == recorded(
            path@,
            *child,
            kind,
            match target {
                Some(target) => Some(target@),
                None => None,
            },
        ),
{
    WalkEntry {
        path,
        kind,
        size: if kind == Kind::File {
            child.len
        } else {
            0
        },
        mtime_ns: child.mtime_ns,
        ctime_ns: child.ctime_ns,
        mode: mode_of(child.mode),
        target,
        source: child.source.clone(),
    }
}

/// The entry of a declared root, which is recorded where it is a directory.
pub fn visit_root(mirrored: &str, child: &Child) -> (r: Option<WalkEntry>)
    ensures
        match r {
            Some(e) => child.kind == Some(Kind::Dir) && e@ == recorded(
                mirrored@,
                *child,
                Kind::Dir,
                None,
            ),
            None => child.kind != Some(Kind::Dir),
        },
{
    match child.kind {
        Some(Kind::Dir) => Some(entry_from(owned(mirrored), child, Kind::Dir, None)),
        _ => None,
    }
}

/// What a walk makes of one thing in a directory: a hole is left out, and so is what a capture
/// filter matches, what is no file, directory or symlink, and a symlink that a restore would
/// refuse, which is counted.
pub open spec fn visit_of(
    dir: Seq<char>,
    holes: Seq<Seq<char>>,
    filtered: bool,
    child: Child,
) -> VisitView {
    let path = joined_path(dir, child.name@);
    if holes.contains(path) || filtered {
        VisitView::Skip
    } else {
        match child.kind {
            None => VisitView::Skip,
            Some(Kind::Symlink) => match child.target {
                None => VisitView::SkipLink,
                Some(target) => if safe_target(path, forward_slashes(target@)) {
                    VisitView::Take(
                        recorded(path, child, Kind::Symlink, Some(forward_slashes(target@))),
                    )
                } else {
                    VisitView::SkipLink
                },
            },
            Some(kind) => VisitView::Take(recorded(path, child, kind, None)),
        }
    }
}

/// Decides on one thing in the directory `mirrored`.
pub fn visit_child(mirrored: &str, holes: &Vec<String>, filtered: bool, child: &Child) -> (r: Visit)
    ensures
        r@ == visit_of(mirrored@, views(holes@), filtered, *child),
{
    let path = join_rel(mirrored, child.name.as_str());
    if crate::text::contains_str(holes, path.as_str()) || filtered {
        return Visit::Skip;
    }
    match child.kind {
        None => Visit::Skip,
        Some(Kind::Symlink) => {
            match &child.target {
                None => Visit::SkipLink,
                Some(target) => {
                    let found = with_forward_slashes(target.as_str());
                    if link_target_is_safe(path.as_str(), found.as_str()) {
                        Visit::Take(entry_from(path, child, Kind::Symlink, Some(found)))
                    } else {
                        Visit::SkipLink
                    }
                },
            }
        },
        Some(kind) => Visit::Take(entry_from(path, child, kind, None)),
    }
}

/// What a walk found, with the count of the symlinks that it left out.
#[derive(Debug, PartialEq, Eq)]
pub struct Walked {
    /// The entries, in the order of their paths.
    pub entries: Vec<WalkEntry>,
    pub skipped_symlinks: usize,
}

/// Whether no entry comes before one that it follows.
pub open spec fn in_path_order(entries: Seq<WalkEntry>) -> bool {
    forall|i: int, j: int|
        0 <= i < j < entries.len() ==> !less(#[trigger] entries[j].path@, #[trigger] entries[i].path@)
}

fn path_order(a: &WalkEntry, b: &WalkEntry) -> (r: Ordering)
    ensures
        r == Ordering::Less <==> less(a.path@, b.path@),
        r == Ordering::Greater <==> less(b.path@, a.path@),
{
    proof {
        crate::text::lemma_less_total(a.path@, b.path@);
    }
    if str_less(a.path.as_str(), b.path.as_str()) {
        Ordering::Less
    } else if str_less(b.path.as_str(), a.path.as_str()) {
        Ordering::Greater
    } else {
        Ordering::Equal
    }
}

/// `slice::sort_unstable_by` with the order of paths: the same entries, in order.
#[verifier::external_body]
fn sort_by_path(entries: &mut Vec<WalkEntry>)
    ensures
        final(entries)@.to_multiset() == old(entries)@.to_multiset(),
        in_path_order(final(entries)@),
{
    entries.sort_unstable_by(|a, b| path_order(a, b));
}

/// The entries of a walk, in the order of their paths.
pub(crate) fn in_order(found: Vec<WalkEntry>) -> (r: Vec<WalkEntry>)
    ensures
        entry_views(r@).to_multiset() == entry_views(found@).to_multiset(),
        in_path_order(r@),
{
    let ghost before = found@;
    let mut entries = found;
    sort_by_path(&mut entries);
    proof {
        lemma_same_entries(before, entries@);
    }
    entries
}

/// Lists with the same entries have the same entries by their texts.
proof fn lemma_same_entries(a: Seq<WalkEntry>, b: Seq<WalkEntry>)
    requires
        a.to_multiset() == b.to_multiset(),
    ensures
        entry_views(a).to_multiset() == entry_views(b).to_multiset(),
    decreases a.len(),
{
    a.to_multiset_ensures();
    b.to_multiset_ensures();
    if a.len() > 0 {
        let x = a.last();
        assert(a.contains(x));
        assert(a.to_multiset().count(x) > 0);
        assert(b.contains(x));
        let j = b.index_of(x);
        let front = a.drop_last();
        let rest = b.remove(j);
        assert(a =~= front.push(x));
        front.to_multiset_ensures();
        assert(front.to_multiset() =~= a.to_multiset().remove(x));
        assert(rest.to_multiset() =~= b.to_multiset().remove(x));
        lemma_same_entries(front, rest);
        let va = entry_views(a);
        let vb = entry_views(b);
        assert(va =~= entry_views(front).push(x@));
        entry_views(front).to_multiset_ensures();
        vb.to_multiset_ensures();
        assert(vb.remove(j) =~= entry_views(rest));
        assert(vb[j] == x@);
        assert(vb.contains(vb[j]));
        assert(va.to_multiset() =~= entry_views(front).to_multiset().insert(x@));
        assert(vb.remove(j).to_multiset() =~= vb.to_multiset().remove(x@));
        assert(vb.to_multiset() =~= entry_views(rest).to_multiset().insert(x@));
    } else {
        assert(b.len() == 0) by {
            assert(a.to_multiset().len() == b.to_multiset().len());
        }
        assert(entry_views(a) =~= entry_views(b));
    }
}

/// A number within the range of 64-bit integers.
pub open spec fn clamp(x: int) -> int {
    if x > i64::MAX {
        i64::MAX as int
    } else if x < i64::MIN {
        i64::MIN as int
    } else {
        x
    }
}

/// Nanoseconds since the Unix epoch of a time that lies `nanos` nanoseconds after the epoch or
/// before it, clamped rather than wrapped.
pub fn system_time_ns(before_epoch: bool, nanos: u128) -> (r: i64)
    ensures
        !before_epoch ==> r == clamp(nanos as int),
        before_epoch && nanos <= i64::MAX ==> r == -(nanos as int),
        before_epoch && nanos > i64::MAX ==> r == i64::MIN,
{
    if !before_epoch {
        if nanos <= 0x7fff_ffff_ffff_ffff {
            nanos as i64
        } else {
            i64::MAX
        }
    } else if nanos <= 0x7fff_ffff_ffff_ffff {
        -(nanos as i64)
    } else {
        i64::MIN
    }
}

/// Nanoseconds of a change time in seconds and nanoseconds, saturating at each step.
pub fn ctime_ns(seconds: i64, nanos: i64) -> (r: i64)
    ensures
        r == clamp(clamp(seconds * 1_000_000_000) + nanos),
{
    let whole: i128 = (seconds as i128) * 1_000_000_000;
    let whole: i128 = if whole > i64::MAX as i128 {
        i64::MAX as i128
    } else if whole < i64::MIN as i128 {
        i64::MIN as i128
    } else {
        whole
    };
    let both: i128 = whole + nanos as i128;
    if both > i64::MAX as i128 {
        i64::MAX
    } else if both < i64::MIN as i128 {
        i64::MIN
    } else {
        both as i64
    }
}

// ---------------------------------------------------------------------------
// What changed
// ---------------------------------------------------------------------------

/// A still-good reference into a layer of an earlier point.
#[derive(Debug, PartialEq, Eq)]
pub struct Carried {
    pub layer: LayerRef,
    pub offset: u64,
    pub len: u64,
}

/// One entry of the capture plan: what the walk found, and where its bytes already are when
/// nothing about them changed.
#[derive(Debug, PartialEq, Eq)]
pub struct Planned {
    pub entry: WalkEntry,
    pub carried: Option<Carried>,
}

/// The first line from `pos` on whose path does not come before `path`.
pub open spec fn advance(previous: Seq<Entry>, pos: int, path: Seq<char>) -> int
    decreases previous.len() - pos,
{
    if 0 <= pos < previous.len() && less(previous[pos].p@, path) {
        advance(previous, pos + 1, path)
    } else {
        pos
    }
}

/// Where the previous index stands once entry number `i` of the walk has been matched.
pub open spec fn stand_at(previous: Seq<Entry>, current: Seq<WalkEntry>, i: int) -> int
    decreases i + 1,
{
    if i < 0 {
        0
    } else {
        advance(previous, stand_at(previous, current, i - 1), current[i].path@)
    }
}

/// Whether a line of the previous index names the same content as an entry of the walk: the same
/// file, with the same size and modification time.
pub open spec fn unchanged(line: Entry, entry: WalkEntry) -> bool {
    &&& line.p@ == entry.path@
    &&& line.k == Kind::File
    &&& entry.kind == Kind::File
    &&& line.s == entry.size
    &&& line.m == entry.mtime_ns
}

/// Why a diff stops.
pub enum DiffFault {
    /// The previous index could not be read on.
    Broken,
    /// A line references a layer that the previous header does not list.
    Dangling(Seq<char>, u32),
}

/// What matching entry number `i` comes to: where its bytes already are, if they are anywhere.
pub open spec fn match_entry(
    layers: Seq<LayerRef>,
    previous: Seq<Entry>,
    broken: bool,
    current: Seq<WalkEntry>,
    i: int,
) -> Result<Option<Carried>, DiffFault> {
    let pos = stand_at(previous, current, i);
    if pos >= previous.len() {
        if broken {
            Err(DiffFault::Broken)
        } else {
            Ok(None)
        }
    } else if unchanged(previous[pos], current[i]) {
        match previous[pos].r {
            None => Ok(None),
            Some(r) => if r.l < layers.len() {
                Ok(Some(Carried { layer: layers[r.l as int], offset: r.o, len: r.n }))
            } else {
                Err(DiffFault::Dangling(previous[pos].p@, r.l))
            },
        }
    } else {
        Ok(None)
    }
}

/// Matches a fresh walk against the previous index, marking each file whose bytes can be carried
/// forward. Both sides are in the order of their paths, so this is a merge. `broken` is what
/// reading the previous index broke off with after its last line here, if it did; it is reported
/// only if the merge gets that far.
pub fn diff(
    previous_header: &IndexHeader,
    previous: &Vec<Entry>,
    broken: Option<TreeError>,
    current: Vec<WalkEntry>,
) -> (r: Result<Vec<Planned>, TreeError>)
    ensures
        match r {
            Ok(planned) => {
                &&& planned@.len() == current@.len()
                &&& forall|i: int|
                    0 <= i < current@.len() ==> (#[trigger] planned@[i]).entry == current@[i]
                        && match_entry(
                        previous_header.layers@,
                        previous@,
                        broken is Some,
                        current@,
                        i,
                    ) == Ok::<Option<Carried>, DiffFault>(planned@[i].carried)
            },
            Err(e) => exists|i: int|
                0 <= i < current@.len() && (forall|j: int|
                    0 <= j < i ==> #[trigger] match_entry(
                        previous_header.layers@,
                        previous@,
                        broken is Some,
                        current@,
                        j,
                    ) is Ok) && match #[trigger] match_entry(
                    previous_header.layers@,
                    previous@,
                    broken is Some,
                    current@,
                    i,
                ) {
                    Ok(_) => false,
                    Err(DiffFault::Broken) => broken == Some(e),
                    Err(DiffFault::Dangling(path, layer)) => e matches TreeError::DanglingLayer(
                        p,
                        l,
                    ) && p@ == path && l == layer,
                },
        },
{
    let ghost layers = previous_header.layers@;
    let ghost cut_short = broken is Some;
    let mut planned: Vec<Planned> = Vec::new();
    let mut pos: usize = 0;
    for i in 0..current.len()
        invariant
            layers == previous_header.layers@,
            cut_short == (broken is Some),
            pos <= previous@.len(),
            pos == stand_at(previous@, current@, i - 1),
            planned@.len() == i,
            forall|j: int|
                0 <= j < i ==> (#[trigger] planned@[j]).entry == current@[j] && match_entry(
                    layers,
                    previous@,
                    cut_short,
                    current@,
                    j,
                ) == Ok::<Option<Carried>, DiffFault>(planned@[j].carried),
    {
        let entry = &current[i];
        while pos < previous.len() && str_less(previous[pos].p.as_str(), entry.path.as_str())
            invariant
                pos <= previous@.len(),
                i < current@.len(),
                *entry == current@[i as int],
                stand_at(previous@, current@, i as int) == advance(
                    previous@,
                    pos as int,
                    current@[i as int].path@,
                ),
            decreases previous@.len() - pos,
        {
            pos += 1;
        }
        assert(pos == stand_at(previous@, current@, i as int));
        assert forall|j: int| 0 <= j < i implies #[trigger] match_entry(
            layers,
            previous@,
            cut_short,
            current@,
            j,
        ) is Ok by {
            assert(planned@[j].entry == current@[j]);
        }
        let mut carried: Option<Carried> = None;
        if pos >= previous.len() {
            if broken.is_some() {
                assert(match_entry(layers, previous@, cut_short, current@, i as int) is Err);
                return Err(broken.unwrap());
            }
        } else {
            let line = &previous[pos];
            if line.k == Kind::File && entry.kind == Kind::File && line.s == entry.size && line.m
                == entry.mtime_ns && same(line.p.as_str(), entry.path.as_str()) {
                match line.r {
                    Some(reference) => {
                        if reference.l as usize >= previous_header.layers.len() {
                            assert(match_entry(
                                layers,
                                previous@,
                                cut_short,
                                current@,
                                i as int,
                            ) is Err);
                            return Err(TreeError::DanglingLayer(line.p.clone(), reference.l));
                        }
                        carried = Some(
                            Carried {
                                layer: previous_header.layers[reference.l as usize].clone(),
                                offset: reference.o,
                                len: reference.n,
                            },
                        );
                    },
                    None => {},
                }
            }
        }
        planned.push(Planned { entry: entry.clone(), carried });
    }
    Ok(planned)
}

/// Whether the paths of the lines strictly ascend.
pub open spec fn lines_ascend(previous: Seq<Entry>) -> bool {
    forall|i: int, j: int|
        0 <= i < j < previous.len() ==> less(
            #[trigger] previous[i].p@,
            #[trigger] previous[j].p@,
        )
}

/// Whether the paths of the entries strictly ascend.
pub open spec fn paths_ascend(current: Seq<WalkEntry>) -> bool {
    forall|i: int, j: int|
        0 <= i < j < current.len() ==> less(
            #[trigger] current[i].path@,
            #[trigger] current[j].path@,
        )
}

proof fn lemma_advance(previous: Seq<Entry>, pos: int, path: Seq<char>)
    requires
        0 <= pos <= previous.len(),
    ensures
        pos <= advance(previous, pos, path) <= previous.len(),
        forall|j: int|
            pos <= j < advance(previous, pos, path) ==> less(#[trigger] previous[j].p@, path),
        advance(previous, pos, path) < previous.len() ==> !less(
            previous[advance(previous, pos, path)].p@,
            path,
        ),
    decreases previous.len() - pos,
{
    if pos < previous.len() && less(previous[pos].p@, path) {
        lemma_advance(previous, pos + 1, path);
    }
}

proof fn lemma_stand(previous: Seq<Entry>, current: Seq<WalkEntry>, i: int)
    requires
        -1 <= i < current.len(),
        paths_ascend(current),
    ensures
        0 <= stand_at(previous, current, i) <= previous.len(),
        i >= 0 ==> forall|j: int|
            0 <= j < stand_at(previous, current, i) ==> less(
                #[trigger] previous[j].p@,
                current[i].path@,
            ),
        i >= 0 && stand_at(previous, current, i) < previous.len() ==> !less(
            previous[stand_at(previous, current, i)].p@,
            current[i].path@,
        ),
    decreases i + 1,
{
    if i >= 0 {
        lemma_stand(previous, current, i - 1);
        let before = stand_at(previous, current, i - 1);
        lemma_advance(previous, before, current[i].path@);
        assert forall|j: int| 0 <= j < stand_at(previous, current, i) implies less(
            #[trigger] previous[j].p@,
            current[i].path@,
        ) by {
            if j < before && i > 0 {
                crate::text::lemma_less_trans(
                    previous[j].p@,
                    current[i - 1].path@,
                    current[i].path@,
                );
            }
        }
    }
}

/// The merge finds every line: with both sides in order, the line that a walk entry is matched
/// with is the one line of the previous index with its path, if there is one. So a file is
/// carried forward exactly when the previous index holds it unchanged with a reference.
pub proof fn law_diff_matches_by_path(
    previous: Seq<Entry>,
    current: Seq<WalkEntry>,
    i: int,
    k: int,
)
    requires
        lines_ascend(previous),
        paths_ascend(current),
        0 <= i < current.len(),
        0 <= k < previous.len(),
    ensures
        previous[k].p@ == current[i].path@ <==> (stand_at(previous, current, i) == k
            && previous[k].p@ == current[i].path@),
        unchanged(previous[k], current[i]) ==> stand_at(previous, current, i) == k,
{
    let pos = stand_at(previous, current, i);
    lemma_stand(previous, current, i);
    if previous[k].p@ == current[i].path@ && pos != k {
        crate::text::lemma_less_total(previous[k].p@, current[i].path@);
        assert(!(k < pos)) by {
            if k < pos {
                assert(less(previous[k].p@, current[i].path@));
            }
        }
        assert(less(previous[pos].p@, previous[k].p@));
    }
}

/// An unchanged file keeps its place. Where a walk finds a file of the size and the time that the
/// previous index has for its path, the plan names the same bytes as that line: the layer with the
/// number of the reference, from the same offset on and of the same length. So the new point gives
/// the file the range that the previous point gave it. A line whose layer is not listed stops the
/// capture, one without a reference carries nothing, and neither does one for something else under
/// the same path, or of another size or time.
pub proof fn law_an_unchanged_file_keeps_its_place(
    layers: Seq<LayerRef>,
    previous: Seq<Entry>,
    broken: bool,
    current: Seq<WalkEntry>,
    i: int,
    k: int,
)
    requires
        forall|a: int, b: int|
            0 <= a < b < previous.len() ==> less(
                #[trigger] previous[a].p@,
                #[trigger] previous[b].p@,
            ),
        forall|a: int, b: int|
            0 <= a < b < current.len() ==> less(
                #[trigger] current[a].path@,
                #[trigger] current[b].path@,
            ),
        0 <= i < current.len(),
        0 <= k < previous.len(),
        previous[k].p@ == current[i].path@,
    ensures
        ({
            let found = match_entry(layers, previous, broken, current, i);
            let same_content = previous[k].k is File && current[i].kind is File && previous[k].s
                == current[i].size && previous[k].m == current[i].mtime_ns;
            &&& !same_content ==> found == Ok::<Option<Carried>, DiffFault>(None)
            &&& same_content && previous[k].r is None ==> found == Ok::<
                Option<Carried>,
                DiffFault,
            >(None)
            &&& same_content ==> (previous[k].r matches Some(r) ==> {
                &&& r.l < layers.len() ==> (found matches Ok(Some(carried)) && carried.layer
                    == layers[r.l as int] && carried.offset == r.o && carried.len == r.n)
                &&& r.l >= layers.len() ==> (found matches Err(DiffFault::Dangling(path, layer))
                    && path == current[i].path@ && layer == r.l)
            })
        }),
{
    law_diff_matches_by_path(previous, current, i, k);
}

/// A file that the previous index does not hold carries nothing; and where reading that index broke
/// off before its path could have come, the capture stops instead of taking the file for a new one.
pub proof fn law_a_new_file_carries_nothing(
    layers: Seq<LayerRef>,
    previous: Seq<Entry>,
    broken: bool,
    current: Seq<WalkEntry>,
    i: int,
)
    requires
        forall|a: int, b: int|
            0 <= a < b < current.len() ==> less(
                #[trigger] current[a].path@,
                #[trigger] current[b].path@,
            ),
        0 <= i < current.len(),
        forall|k: int| 0 <= k < previous.len() ==> (#[trigger] previous[k]).p@ != current[i].path@,
    ensures
        match match_entry(layers, previous, broken, current, i) {
            Ok(carried) => carried is None && (broken ==> exists|k: int|
                0 <= k < previous.len() && !less(#[trigger] previous[k].p@, current[i].path@)),
            Err(fault) => fault is Broken && broken && forall|k: int|
                0 <= k < previous.len() ==> less(#[trigger] previous[k].p@, current[i].path@),
        },
{
    lemma_stand(previous, current, i);
    let pos = stand_at(previous, current, i);
    if pos < previous.len() {
        assert(previous[pos].p@ != current[i].path@);
    }
}

/// Nothing is carried forward that the previous index does not have, in whatever order its lines
/// stand: what a plan carries for an entry is the range of a line with the entry's path, a file of
/// the same size and time.
pub proof fn law_what_is_carried_was_there(
    layers: Seq<LayerRef>,
    previous: Seq<Entry>,
    broken: bool,
    current: Seq<WalkEntry>,
    i: int,
)
    requires
        0 <= i < current.len(),
    ensures
        match_entry(layers, previous, broken, current, i) matches Ok(Some(carried)) ==> exists|
            k: int,
        |
            0 <= k < previous.len() && (#[trigger] previous[k]).p@ == current[i].path@
                && previous[k].k is File && current[i].kind is File && previous[k].s
                == current[i].size && previous[k].m == current[i].mtime_ns && (
            previous[k].r matches Some(r) && r.l < layers.len() && carried.layer
                == layers[r.l as int] && carried.offset == r.o && carried.len == r.n),
{
    let pos = stand_at(previous, current, i);
    lemma_stand_bounds(previous, current, i);
    if pos < previous.len() {
        assert(previous[pos] == previous[pos]);
    }
}

proof fn lemma_stand_bounds(previous: Seq<Entry>, current: Seq<WalkEntry>, i: int)
    requires
        -1 <= i < current.len(),
    ensures
        0 <= stand_at(previous, current, i) <= previous.len(),
    decreases i + 1,
{
    if i >= 0 {
        lemma_stand_bounds(previous, current, i - 1);
        lemma_advance(previous, stand_at(previous, current, i - 1), current[i].path@);
    }
}

proof fn lemma_low_twelve(mode: u32, bit: u32)
    requires
        bit < 32,
    ensures
        bit < 12 ==> ((mode & 0xfff) >> bit) & 1 == (mode >> bit) & 1,
        bit >= 12 ==> ((mode & 0xfff) >> bit) & 1 == 0,
{
    assert(bit < 12 ==> ((mode & 0xfff) >> bit) & 1 == (mode >> bit) & 1) by (bit_vector)
        requires
            bit < 32,
    ;
    assert(bit >= 12 ==> ((mode & 0xfff) >> bit) & 1 == 0) by (bit_vector)
        requires
            bit < 32,
    ;
}

/// Whether a thing is left out depends on its name only through the holes and the filter. A file or
/// a directory that the filter does not match and whose path is no hole is always taken, whatever
/// its name is: under the name below its directory, with its times, the permission bits of its mode
/// and the place of its bytes as they were found, and the size of a file. A hole is never taken,
/// nor is what the filter matches or what is no file, directory or symlink.
pub proof fn law_only_holes_and_filters_leave_out(
    dir: Seq<char>,
    holes: Seq<Seq<char>>,
    filtered: bool,
    child: Child,
    bit: u32,
)
    requires
        bit < 32,
    ensures
        ({
            let path = if dir.len() == 0 {
                child.name@
            } else {
                dir.push('/') + child.name@
            };
            let hole = exists|k: int| 0 <= k < holes.len() && #[trigger] holes[k] == path;
            let visit = visit_of(dir, holes, filtered, child);
            &&& hole || filtered || child.kind is None ==> visit is Skip
            &&& !hole && !filtered && (child.kind == Some(Kind::File) || child.kind == Some(
                Kind::Dir,
            )) ==> visit is Take
            &&& !hole && !filtered && child.kind == Some(Kind::Symlink) ==> !(visit is Skip)
            &&& visit matches VisitView::Take(entry) ==> {
                &&& entry.path == path
                &&& child.kind == Some(entry.kind)
                &&& entry.size == (if child.kind == Some(Kind::File) {
                    child.len
                } else {
                    0
                })
                &&& entry.mtime_ns == child.mtime_ns
                &&& entry.ctime_ns == child.ctime_ns
                &&& (entry.mode >> bit) & 1 == (if bit < 12 {
                    (child.mode >> bit) & 1
                } else {
                    0
                })
                &&& entry.source == child.source@
                &&& entry.target is Some <==> child.kind == Some(Kind::Symlink)
            }
        }),
{
    reveal_strlit("/");
    lemma_low_twelve(child.mode, bit);
    let path = if dir.len() == 0 {
        child.name@
    } else {
        dir.push('/') + child.name@
    };
    assert(joined_path(dir, child.name@) =~= path);
    if holes.contains(path) {
        let k = choose|k: int| 0 <= k < holes.len() && holes[k] == path;
        assert(holes[k] == path);
    }
}

/// A symlink is recorded with its own target, every backslash in it turned into a slash, and is
/// left out and counted exactly where that target could not be read or is none that a restore
/// takes.
pub proof fn law_a_link_is_recorded_with_its_target(
    dir: Seq<char>,
    holes: Seq<Seq<char>>,
    child: Child,
)
    requires
        child.kind == Some(Kind::Symlink),
        !holes.contains(joined_path(dir, child.name@)),
    ensures
        match visit_of(dir, holes, false, child) {
            VisitView::Skip => false,
            VisitView::SkipLink => child.target is None || exists|t: Seq<char>|
                #![trigger safe_target(joined_path(dir, child.name@), t)]
                slashed(t, child.target->0@) && !safe_target(joined_path(dir, child.name@), t),
            VisitView::Take(entry) => child.target is Some && (entry.target matches Some(t)
                && slashed(t, child.target->0@) && safe_target(joined_path(dir, child.name@), t)),
        },
{
    if child.target is Some {
        assert(slashed(forward_slashes(child.target->0@), child.target->0@));
    }
}

/// Whether a text is another with a slash for every backslash and everything else as it is.
pub open spec fn slashed(t: Seq<char>, s: Seq<char>) -> bool {
    &&& t.len() == s.len()
    &&& forall|i: int|
        0 <= i < s.len() ==> #[trigger] t[i] == (if s[i] == '\\' {
            '/'
        } else {
            s[i]
        })
}

/// A path from the root is mirrored without its slash, and one on a drive with the letter of the
/// drive as its first segment. A path that is neither has no place in a mirror.
pub proof fn law_a_path_is_mirrored(path: Seq<char>, rest: Seq<char>, drive: char)
    ensures
        mirrored(seq!['/'] + rest) == Some(rest),
        'a' <= drive <= 'z' || 'A' <= drive <= 'Z' ==> mirrored(seq![drive, ':', '/'] + rest) == Some(
            seq![drive, '/'] + rest,
        ),
        mirrored(path) is Some ==> path[0] == '/' || (path.len() >= 3 && path[1] == ':' && path[2]
            == '/' && ('a' <= path[0] <= 'z' || 'A' <= path[0] <= 'Z')),
        mirrored(Seq::empty()) is None,
{
    assert((seq!['/'] + rest).skip(1) =~= rest);
    let driven = seq![drive, ':', '/'] + rest;
    assert(driven.take(1) + driven.skip(2) =~= seq![drive, '/'] + rest);
}

/// How deep a link leads, from the directory that it is in: nothing where it leaves the top on the
/// way.
pub open spec fn led_from(depth: nat, segments: Seq<Seq<char>>) -> Option<nat>
    decreases segments.len(),
{
    if segments.len() == 0 {
        Some(depth)
    } else {
        let first = segments[0];
        let rest = segments.drop_first();
        if first.len() == 0 || first == seq!['.'] {
            led_from(depth, rest)
        } else if first == seq!['.', '.'] {
            if depth == 0 {
                None
            } else {
                led_from((depth - 1) as nat, rest)
            }
        } else {
            led_from(depth + 1, rest)
        }
    }
}

/// What a segment adds to the depth.
spec fn weight(segment: Seq<char>) -> int {
    if segment.len() == 0 || segment == seq!['.'] {
        0
    } else if segment == seq!['.', '.'] {
        -1
    } else {
        1
    }
}

proof fn lemma_depth_is_weighed(segments: Seq<Seq<char>>)
    requires
        segments.len() > 0,
    ensures
        net_depth(segments) == weight(segments[0]) + net_depth(segments.drop_first()),
    decreases segments.len(),
{
    reveal_strlit("");
    reveal_strlit(".");
    reveal_strlit("..");
    assert(""@ =~= Seq::<char>::empty());
    assert("."@ =~= seq!['.']);
    assert(".."@ =~= seq!['.', '.']);
    let rest = segments.drop_first();
    let front = segments.drop_last();
    if segments[0].len() == 0 {
        assert(segments[0] =~= ""@);
    }
    if segments.len() == 1 {
        assert(front =~= Seq::<Seq<char>>::empty());
        assert(rest =~= Seq::<Seq<char>>::empty());
    } else {
        lemma_depth_is_weighed(front);
        assert(front.drop_first() =~= rest.drop_last());
        assert(segments.last() == rest.last());
    }
}

proof fn lemma_led_stays(depth: nat, segments: Seq<Seq<char>>)
    ensures
        led_from(depth, segments) is Some <==> forall|i: int|
            0 <= i <= segments.len() ==> depth + #[trigger] net_depth(segments.take(i)) >= 0,
    decreases segments.len(),
{
    assert(segments.take(0) =~= Seq::<Seq<char>>::empty());
    if segments.len() > 0 {
        let rest = segments.drop_first();
        let next = depth + weight(segments[0]);
        assert forall|i: int| 0 < i <= segments.len() implies #[trigger] net_depth(segments.take(i))
            == weight(segments[0]) + net_depth(rest.take(i - 1)) by {
            lemma_depth_is_weighed(segments.take(i));
            assert(segments.take(i).drop_first() =~= rest.take(i - 1));
        }
        assert(rest.take(0) =~= Seq::<Seq<char>>::empty());
        assert(net_depth(segments.take(1)) == weight(segments[0]) + net_depth(rest.take(0)));
        if next >= 0 {
            lemma_led_stays(next as nat, rest);
            if forall|i: int|
                0 <= i <= segments.len() ==> depth + #[trigger] net_depth(segments.take(i)) >= 0 {
                assert forall|i: int| 0 <= i <= rest.len() implies next + #[trigger] net_depth(
                    rest.take(i),
                ) >= 0 by {
                    assert(depth + net_depth(segments.take(i + 1)) >= 0);
                }
            }
            if forall|i: int|
                0 <= i <= rest.len() ==> next + #[trigger] net_depth(rest.take(i)) >= 0 {
                assert forall|i: int| 0 <= i <= segments.len() implies depth + #[trigger] net_depth(
                    segments.take(i),
                ) >= 0 by {
                    if i > 0 {
                        assert(next + net_depth(rest.take(i - 1)) >= 0);
                    }
                }
            }
        } else {
            assert(depth + net_depth(segments.take(1)) < 0);
        }
    }
}

/// A link may lead anywhere inside the tree that it is in and nowhere else: its target is a
/// relative path that at no point goes above the top, however far down it leads in the end. It has
/// at most 4096 bytes, and no backslash, colon or zero.
pub proof fn law_a_link_leads_nowhere_outside(link: Seq<char>, target: Seq<char>)
    ensures
        safe_target(link, target) <==> {
            &&& 0 < target.len()
            &&& byte_len(target) <= 4096
            &&& target[0] != '/'
            &&& forall|i: int|
                0 <= i < target.len() ==> #[trigger] target[i] != '\\' && target[i] != ':'
                    && target[i] != '\0'
            &&& led_from((split(link, '/').len() - 1) as nat, split(target, '/')) is Some
        },
{
    crate::text::lemma_find_from(link, '/', 0);
    assert(split(link, '/').len() >= 1);
    lemma_led_stays((split(link, '/').len() - 1) as nat, split(target, '/'));
    if forall|i: int|
        0 <= i < target.len() ==> #[trigger] target[i] != '\\' && target[i] != ':' && target[i]
            != '\0' {
        assert(!target.contains('\\'));
        assert(!target.contains(':'));
        assert(!target.contains('\0'));
    } else {
        let i = choose|i: int|
            0 <= i < target.len() && !(#[trigger] target[i] != '\\' && target[i] != ':' && target[i]
                != '\0');
        assert(target.contains(target[i]));
    }
}

/// A name stands below its directory, with one slash between them, and the top has no name.
pub proof fn law_a_name_stands_below_its_directory(dir: Seq<char>, name: Seq<char>)
    ensures
        dir.len() > 0 ==> joined_path(dir, name) == dir.push('/') + name,
        dir.len() == 0 ==> joined_path(dir, name) == name,
{
    reveal_strlit("/");
    assert(dir + "/"@ + name =~= dir.push('/') + name);
}

/// A time is the nearest one that can be recorded, and itself where it can be.
pub proof fn law_a_time_is_the_nearest(x: int, other: int)
    ensures
        i64::MIN <= clamp(x) <= i64::MAX,
        i64::MIN <= x <= i64::MAX ==> clamp(x) == x,
        i64::MIN <= other <= i64::MAX && x > i64::MAX ==> other <= clamp(x),
        i64::MIN <= other <= i64::MAX && x < i64::MIN ==> clamp(x) <= other,
{
}

/// The entries of an index are in the order of their paths, none twice, and what they refer to is a
/// layer that the index lists.
pub proof fn law_an_index_is_in_order(layers: nat, entries: Seq<Entry>, i: int, j: int)
    requires
        in_sequence(layers, entries),
        0 <= i < j < entries.len(),
    ensures
        less(entries[i].p@, entries[j].p@),
        entries[i].p@ != entries[j].p@,
        entries[j].r matches Some(r) ==> r.l < layers,
        entries[i].r matches Some(r) ==> r.l < layers,
    decreases j - i,
{
    assert(may_follow(last_path(entries.take(j)), layers, entries[j]));
    assert(may_follow(last_path(entries.take(i)), layers, entries[i]));
    assert(entries.take(j).last() == entries[j - 1]);
    if i < j - 1 {
        law_an_index_is_in_order(layers, entries, i, j - 1);
        crate::text::lemma_less_trans(entries[i].p@, entries[j - 1].p@, entries[j].p@);
    }
    crate::text::lemma_less_total(entries[i].p@, entries[j].p@);
}

/// A line of white space is no entry, and a line with anything else is one.
pub proof fn law_a_blank_line_is_white(line: Seq<char>)
    ensures
        (forall|i: int| 0 <= i < line.len() ==> crate::text::is_white(#[trigger] line[i])) ==> blank(
            line,
        ),
        (exists|i: int| 0 <= i < line.len() && !crate::text::is_white(#[trigger] line[i]))
            ==> !blank(line),
{
    if forall|i: int| 0 <= i < line.len() ==> crate::text::is_white(#[trigger] line[i]) {
        let none = Seq::<char>::empty();
        crate::text::law_white_space_around_a_text_is_cut(line, none, none);
        assert(line + none + none =~= line);
    } else {
        let (before, text, after) = lemma_text_within(line);
        crate::text::law_white_space_around_a_text_is_cut(before, text, after);
    }
}

proof fn lemma_text_within(line: Seq<char>) -> (r: (Seq<char>, Seq<char>, Seq<char>))
    requires
        exists|i: int| 0 <= i < line.len() && !crate::text::is_white(#[trigger] line[i]),
    ensures
        line == r.0 + r.1 + r.2,
        r.1.len() > 0,
        !crate::text::is_white(r.1[0]),
        !crate::text::is_white(r.1.last()),
        forall|i: int| 0 <= i < r.0.len() ==> crate::text::is_white(#[trigger] r.0[i]),
        forall|i: int| 0 <= i < r.2.len() ==> crate::text::is_white(#[trigger] r.2[i]),
    decreases line.len(),
{
    let none = Seq::<char>::empty();
    let k = choose|i: int| 0 <= i < line.len() && !crate::text::is_white(#[trigger] line[i]);
    if crate::text::is_white(line[0]) {
        let rest = line.drop_first();
        assert(rest[k - 1] == line[k]);
        let (a, b, c) = lemma_text_within(rest);
        let before = seq![line[0]] + a;
        assert(rest =~= a + b + c);
        assert(line =~= seq![line[0]] + rest);
        assert(line =~= before + b + c);
        assert forall|i: int| 0 <= i < before.len() implies crate::text::is_white(
            #[trigger] before[i],
        ) by {
            if i > 0 {
                assert(before[i] == a[i - 1]);
            }
        }
        (before, b, c)
    } else if crate::text::is_white(line.last()) {
        let rest = line.drop_last();
        assert(rest[k] == line[k]);
        let (a, b, c) = lemma_text_within(rest);
        let after = c.push(line.last());
        assert(rest =~= a + b + c);
        assert(line =~= rest.push(line.last()));
        assert(line =~= a + b + after);
        assert forall|i: int| 0 <= i < after.len() implies crate::text::is_white(
            #[trigger] after[i],
        ) by {
            if i < c.len() {
                assert(after[i] == c[i]);
            }
        }
        (a, b, after)
    } else {
        assert(line =~= none + line + none);
        (none, line, none)
    }
}

/// What was found is shown as it is.
pub proof fn law_what_was_found_is_shown_as_it_is(e: WalkEntry, visit: Visit)
    ensures
        e@.path == e.path@,
        e@.kind == e.kind,
        e@.size == e.size,
        e@.mtime_ns == e.mtime_ns,
        e@.ctime_ns == e.ctime_ns,
        e@.mode == e.mode,
        e@.source == e.source@,
        e@.target is Some <==> e.target is Some,
        e.target is Some ==> e@.target->Some_0 == e.target->Some_0@,
        visit@ is Skip <==> visit is Skip,
        visit@ is SkipLink <==> visit is SkipLink,
        visit matches Visit::Take(taken) ==> visit@ == VisitView::Take(taken@),
{
}

/// What a walk found is in the order of its paths.
pub proof fn law_a_walk_is_in_order(entries: Seq<WalkEntry>, i: int, j: int)
    requires
        in_path_order(entries),
        0 <= i < j < entries.len(),
    ensures
        less(entries[i].path@, entries[j].path@) || entries[i].path@ == entries[j].path@,
{
    crate::text::lemma_less_total(entries[i].path@, entries[j].path@);
    assert(!less(entries[j].path@, entries[i].path@));
}

/// A line that is no entry is reported with its number, where the header is the first and blank
/// lines count; a blank line is passed over.
pub proof fn law_a_bad_line_is_reported_with_its_number(
    lines: Seq<Seq<char>>,
    parsed: Seq<Result<Entry, String>>,
    line: Seq<char>,
    read: Result<Entry, String>,
)
    requires
        lines.len() == parsed.len(),
    ensures
        ({
            let before = read_out(lines, parsed);
            let after = read_out(lines.push(line), parsed.push(read));
            &&& blank(line) ==> after == before
            &&& !blank(line) ==> after.len() == before.len() + 1 && after.drop_last() == before
            &&& !blank(line) ==> (read matches Ok(entry) ==> after.last() == Ok::<
                Entry,
                (int, String),
            >(entry))
            &&& !blank(line) ==> (read matches Err(message) ==> after.last() == Err::<
                Entry,
                (int, String),
            >((lines.len() as int + 2, message)))
        }),
{
    assert(lines.push(line).drop_last() =~= lines);
    assert(parsed.push(read).drop_last() =~= parsed);
    let before = read_out(lines, parsed);
    let after = read_out(lines.push(line), parsed.push(read));
    if !blank(line) {
        assert(after.drop_last() =~= before);
    }
}

} // verus!
