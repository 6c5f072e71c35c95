//! Writing one restore point as a tar archive.
//!
//! The archive is the read that a restore performs, with tar entries written where a restore
//! would have written files: directories first, then the empty files, then the files of each
//! layer in the order of their offsets, then the symlinks.

use crate::outside::{
    sha256, sha256_fed, sha256_finish, sha256_start, sha256_update, Sha256Stream,
};
use crate::persist::account::{
    bytes, bytes_before, bytes_of_pass, each, files_before, law_the_passes_add_up,
    lemma_each_counts, lemma_files_before, pass_lengths, sizes, weight_at, weight_read,
};
use crate::persist::materialize::{are_passes, empty_files, layer_passes, LayerPass};
use crate::persist::restore::{
    name_the_layer, IndexDir, IndexFile, IndexSymlink, PointIndex, RestoreError, MAX_INDEX_ENTRIES,
};
use crate::persist::seal::SealError;
use crate::persist::scatter::{ascending, end_of, in_range, is_layer_short, planned, Placed};
use crate::persist::stream::StreamError;
use crate::text::{cat4, chars_of, hex, hex_of, owned, same, slice_string, starts_with};
use vstd::prelude::*;

verus! {

/// The compression level of the archive.
pub const ARCHIVE_ZSTD_LEVEL: i32 = 3;

/// The permissions of a file whose point recorded none.
pub const DEFAULT_FILE_MODE: u32 = 0x1a4;

/// The permissions of a directory whose point recorded none.
pub const DEFAULT_DIR_MODE: u32 = 0x1ed;

/// What one archive turned out to hold.
#[derive(Debug, Clone, Copy, PartialEq, Eq, Structural)]
pub struct ArchiveStats {
    pub files: u64,
    pub dirs: u64,
    pub symlinks: u64,
    /// Plaintext bytes written into the archive.
    pub bytes: u64,
    pub layers: usize,
}

impl Default for ArchiveStats {
    fn default() -> (r: ArchiveStats)
        ensures
            r == (ArchiveStats { files: 0, dirs: 0, symlinks: 0, bytes: 0, layers: 0 }),
    {
        ArchiveStats { files: 0, dirs: 0, symlinks: 0, bytes: 0, layers: 0 }
    }
}

impl ArchiveStats {
    /// The count with one more layer.
    pub fn with_layer(self, written: u64, files: u64) -> (r: ArchiveStats)
        requires
            self.bytes + written <= u64::MAX,
            self.files + files <= u64::MAX,
            self.layers < usize::MAX,
        ensures
            r == (ArchiveStats {
                files: (self.files + files) as u64,
                bytes: (self.bytes + written) as u64,
                layers: (self.layers + 1) as usize,
                ..self
            }),
    {
        ArchiveStats {
            files: self.files + files,
            dirs: self.dirs,
            symlinks: self.symlinks,
            bytes: self.bytes + written,
            layers: self.layers + 1,
        }
    }
}

// ---------------------------------------------------------------------------
// Headers
// ---------------------------------------------------------------------------

/// What kind of thing a tar entry is.
#[derive(Debug, Clone, Copy, PartialEq, Eq, Structural)]
pub enum TarKind {
    Directory,
    Regular,
    Symlink,
}

/// What the header of a tar entry says.
#[derive(Debug, PartialEq, Eq)]
pub struct TarEntry {
    pub kind: TarKind,
    pub path: String,
    /// The target of a symlink.
    pub target: Option<String>,
    pub size: u64,
    pub mode: u32,
    /// Whole seconds since the Unix epoch.
    pub mtime: u64,
}

/// The permissions that an entry travels with: the permission bits without setuid, setgid and the
/// sticky bit, or the default where the point recorded none.
pub open spec fn mode_in_tar(mode: u32, default: u32) -> u32 {
    if mode == 0 {
        default
    } else {
        mode & 0x1ff
    }
}

/// The permissions that an entry travels with.
pub fn mode_or(mode: u32, default: u32) -> (r: u32)
    ensures
        r == mode_in_tar(mode, default),
        mode != 0 ==> r < 0x200,
{
    assert(mode & 0x1ff < 0x200) by (bit_vector);
    if mode == 0 {
        default
    } else {
        mode & 0x1ff
    }
}

/// The whole seconds of a time in nanoseconds; a time before the epoch is the epoch.
pub open spec fn seconds_in_tar(mtime_ns: i64) -> u64 {
    if mtime_ns < 0 {
        0
    } else {
        (mtime_ns as int / 1_000_000_000) as u64
    }
}

/// The whole seconds of a time in nanoseconds.
pub fn seconds(mtime_ns: i64) -> (r: u64)
    ensures
        r == seconds_in_tar(mtime_ns),
{
    if mtime_ns < 0 {
        0
    } else {
        mtime_ns as u64 / 1_000_000_000
    }
}

/// Whether this is the entry of a directory.
pub open spec fn is_dir_entry(e: TarEntry, record: IndexDir) -> bool {
    &&& e.kind == TarKind::Directory
    &&& e.path@ == record.path@
    &&& e.target is None
    &&& e.size == 0
    &&& e.mode == mode_in_tar(record.mode, DEFAULT_DIR_MODE)
    &&& e.mtime == seconds_in_tar(record.mtime_ns)
}

/// Whether this is the entry of a file.
pub open spec fn is_file_entry(e: TarEntry, record: IndexFile) -> bool {
    &&& e.kind == TarKind::Regular
    &&& e.path@ == record.path@
    &&& e.target is None
    &&& e.size == record.len
    &&& e.mode == mode_in_tar(record.mode, DEFAULT_FILE_MODE)
    &&& e.mtime == seconds_in_tar(record.mtime_ns)
}

/// Whether this is the entry of a symlink.
pub open spec fn is_link_entry(e: TarEntry, record: IndexSymlink) -> bool {
    &&& e.kind == TarKind::Symlink
    &&& e.path@ == record.path@
    &&& e.target matches Some(t) && t@ == record.target@
    &&& e.size == 0
    &&& e.mode == DEFAULT_FILE_MODE
    &&& e.mtime == seconds_in_tar(record.mtime_ns)
}

/// The entry of a file.
pub fn file_header(record: &IndexFile) -> (r: TarEntry)
    ensures
        is_file_entry(r, *record),
{
    TarEntry {
        kind: TarKind::Regular,
        path: record.path.clone(),
        target: None,
        size: record.len,
        mode: mode_or(record.mode, DEFAULT_FILE_MODE),
        mtime: seconds(record.mtime_ns),
    }
}

/// What needs no layer: the directories, then the empty files.
pub fn head_entries(index: &PointIndex) -> (r: Vec<TarEntry>)
    ensures
        ({
            let dirs = index.dir_list();
            let files = index.file_list();
            let empties = empty_files(files, files.len() as int);
            &&& r@.len() == dirs.len() + empties.len()
            &&& forall|i: int| 0 <= i < dirs.len() ==> is_dir_entry(#[trigger] r@[i], dirs[i])
            &&& forall|i: int|
                dirs.len() <= i < r@.len() ==> is_file_entry(
                    #[trigger] r@[i],
                    files[empties[i - dirs.len()] as int],
                )
        }),
{
    let dirs = index.dirs();
    let files = index.files();
    let mut out: Vec<TarEntry> = Vec::new();
    for i in 0..dirs.len()
        invariant
            out@.len() == i,
            forall|k: int| 0 <= k < i ==> is_dir_entry(#[trigger] out@[k], dirs@[k]),
    {
        let record = &dirs[i];
        out.push(
            TarEntry {
                kind: TarKind::Directory,
                path: record.path.clone(),
                target: None,
                size: 0,
                mode: mode_or(record.mode, DEFAULT_DIR_MODE),
                mtime: seconds(record.mtime_ns),
            },
        );
    }
    let ghost n = dirs@.len();
    for i in 0..files.len()
        invariant
            n == dirs@.len(),
            out@.len() == n + empty_files(files@, i as int).len(),
            forall|k: int| 0 <= k < n ==> is_dir_entry(#[trigger] out@[k], dirs@[k]),
            forall|k: int|
                n <= k < out@.len() ==> is_file_entry(
                    #[trigger] out@[k],
                    files@[empty_files(files@, i as int)[k - n] as int],
                ),
    {
        if files[i].len == 0 {
            out.push(file_header(&files[i]));
        }
    }
    out
}

/// The entries of the symlinks.
pub fn symlink_entries(index: &PointIndex) -> (r: Vec<TarEntry>)
    ensures
        r@.len() == index.symlink_list().len(),
        forall|i: int|
            0 <= i < r@.len() ==> is_link_entry(#[trigger] r@[i], index.symlink_list()[i]),
{
    let links = index.symlinks();
    let mut out: Vec<TarEntry> = Vec::new();
    for i in 0..links.len()
        invariant
            out@.len() == i,
            forall|k: int| 0 <= k < i ==> is_link_entry(#[trigger] out@[k], links@[k]),
    {
        let record = &links[i];
        out.push(
            TarEntry {
                kind: TarKind::Symlink,
                path: record.path.clone(),
                target: Some(record.target.clone()),
                size: 0,
                mode: DEFAULT_FILE_MODE,
                mtime: seconds(record.mtime_ns),
            },
        );
    }
    out
}

/// The places of a pass's files in their layer.
pub fn places_of(index: &PointIndex, pass: &LayerPass) -> (r: Vec<Placed>)
    requires
        forall|k: int|
            0 <= k < pass.positions@.len() ==> #[trigger] pass.positions@[k]
                < index.file_list().len(),
    ensures
        r@.len() == pass.positions@.len(),
        forall|k: int|
            0 <= k < r@.len() ==> #[trigger] r@[k] == (Placed {
                offset: index.file_list()[pass.positions@[k] as int].offset,
                len: index.file_list()[pass.positions@[k] as int].len,
            }),
        planned(r@) == weight_at(pass.positions@, index.file_list(), bytes()),
{
    let files = index.files();
    let mut out: Vec<Placed> = Vec::new();
    assert(pass.positions@.take(0) =~= Seq::<usize>::empty());
    for k in 0..pass.positions.len()
        invariant
            planned(out@) == weight_at(pass.positions@.take(k as int), files@, bytes()),
            files@ == index.file_list(),
            forall|m: int|
                0 <= m < pass.positions@.len() ==> #[trigger] pass.positions@[m] < files@.len(),
            out@.len() == k,
            forall|m: int|
                0 <= m < k ==> #[trigger] out@[m] == (Placed {
                    offset: files@[pass.positions@[m] as int].offset,
                    len: files@[pass.positions@[m] as int].len,
                }),
    {
        let record = &files[pass.positions[k]];
        let ghost before = out@;
        out.push(Placed { offset: record.offset, len: record.len });
        proof {
            assert(out@.drop_last() =~= before);
            assert(pass.positions@.take(k + 1).drop_last() =~= pass.positions@.take(k as int));
            assert(pass.positions@.take(k + 1).last() == pass.positions@[k as int]);
        }
    }
    assert(pass.positions@.take(pass.positions@.len() as int) =~= pass.positions@);
    out
}

// ---------------------------------------------------------------------------
// The archive as a whole
// ---------------------------------------------------------------------------

/// What is written next.
#[derive(Debug, Clone, Copy, PartialEq, Eq, Structural)]
pub enum ArchiveStep {
    /// What needs no layer.
    WriteHead,
    /// The files of one layer: the pass, and what an observer is told before it is read.
    ReadLayer { pass: usize, number: usize, total: usize, bytes: u64 },
    /// The symlinks, and the end of the archive.
    WriteLinks,
    /// Nothing: the archive is complete.
    Finished,
}

/// How far an archive has come.
#[derive(Debug, Clone, Copy, PartialEq, Eq, Structural)]
pub enum ArchiveStage {
    Head,
    Layers,
    Complete,
}

/// The writing of one archive: the head, one pass after the other, then the symlinks.
pub struct Archiver {
    passes: Vec<LayerPass>,
    /// The bytes that each pass writes.
    lens: Vec<u128>,
    head: ArchiveStats,
    links: u64,
    stage: ArchiveStage,
    stats: ArchiveStats,
    files: Ghost<Seq<IndexFile>>,
}

impl Archiver {
    /// The passes over the layers.
    pub closed spec fn passes(&self) -> Seq<LayerPass> {
        self.passes@
    }

    /// The files of the point.
    pub closed spec fn files(&self) -> Seq<IndexFile> {
        self.files@
    }

    /// How far the archive has come.
    pub closed spec fn reached(&self) -> ArchiveStage {
        self.stage
    }

    /// What the archive holds so far.
    pub closed spec fn counted(&self) -> ArchiveStats {
        self.stats
    }

    /// The number of directories of the point.
    pub closed spec fn dir_count(&self) -> u64 {
        self.head.dirs
    }

    /// The number of symlinks of the point.
    pub closed spec fn link_count(&self) -> u64 {
        self.links
    }

    /// What holds of an archive: what it counts is what its head and its passes so far have
    /// written.
    pub closed spec fn wf(&self) -> bool {
        let zero = ArchiveStats { files: 0, dirs: 0, symlinks: 0, bytes: 0, layers: 0 };
        let n = self.stats.layers as int;
        let empties = empty_files(self.files@, self.files@.len() as int).len();
        &&& self.files@.len() <= MAX_INDEX_ENTRIES
        &&& self.passes@.len() <= usize::MAX
        &&& self.head == (ArchiveStats { files: empties as u64, dirs: self.head.dirs, ..zero })
        &&& self.lens@.len() == self.passes@.len()
        &&& forall|k: int|
            0 <= k < self.lens@.len() ==> #[trigger] self.lens@[k] == bytes_of_pass(
                self.passes@,
                self.files@,
                k,
            )
        &&& weight_read(self.passes@, self.files@, each()) + empties == self.files@.len()
        &&& weight_read(self.passes@, self.files@, bytes()) == sizes(
            self.files@,
            self.files@.len() as int,
        )
        &&& n <= self.passes@.len()
        &&& self.stage == ArchiveStage::Head ==> self.stats == zero
        &&& self.stage != ArchiveStage::Head ==> {
            &&& self.stats.dirs == self.head.dirs
            &&& self.stats.files == empties + files_before(self.passes@, self.files@, n)
            &&& self.stats.bytes == bytes_before(self.passes@, self.files@, n)
        }
        &&& self.stage == ArchiveStage::Complete ==> n == self.passes@.len() && self.stats.symlinks
            == self.links
    }

    /// Starts the archive of a point.
    pub fn new(index: &PointIndex) -> (r: Archiver)
        ensures
            r.wf(),
            r.files() == index.file_list(),
            are_passes(
                r.passes(),
                index.file_list(),
                index.header_view().layers@.len() as int,
            ),
            r.dir_count() == index.dir_list().len() as u64,
            r.link_count() == index.symlink_list().len() as u64,
            r.reached() == ArchiveStage::Head,
            r.counted() == (ArchiveStats { files: 0, dirs: 0, symlinks: 0, bytes: 0, layers: 0 }),
    {
        let passes = layer_passes(index);
        let files = index.files();
        let lens = pass_lengths(files, &passes);
        let mut empties: u64 = 0;
        for i in 0..files.len()
            invariant
                empties == empty_files(files@, i as int).len(),
                empties <= i,
        {
            if files[i].len == 0 {
                empties = empties + 1;
            }
        }
        let head = ArchiveStats {
            files: empties,
            dirs: index.dirs().len() as u64,
            symlinks: 0,
            bytes: 0,
            layers: 0,
        };
        proof {
            law_the_passes_add_up(passes@, files@, index.header_view().layers@.len() as int);
            assert(passes.len() <= usize::MAX);
        }
        Archiver {
            passes,
            lens,
            head,
            links: index.symlinks().len() as u64,
            stage: ArchiveStage::Head,
            stats: ArchiveStats::default(),
            files: Ghost(index.file_list()),
        }
    }

    /// What is written next. The end of the archive is written only once every layer has been
    /// read, so an archive that fails before that ends early.
    pub fn step(&self) -> (r: ArchiveStep)
        requires
            self.wf(),
        ensures
            r is WriteLinks || r is Finished ==> self.counted().layers == self.passes().len(),
            r == (match self.reached() {
                ArchiveStage::Head => ArchiveStep::WriteHead,
                ArchiveStage::Layers => if self.counted().layers < self.passes().len() {
                    ArchiveStep::ReadLayer {
                        pass: self.counted().layers,
                        number: (self.counted().layers + 1) as usize,
                        total: self.passes().len() as usize,
                        bytes: self.counted().bytes,
                    }
                } else {
                    ArchiveStep::WriteLinks
                },
                ArchiveStage::Complete => ArchiveStep::Finished,
            }),
            r matches ArchiveStep::ReadLayer { bytes, .. } ==> bytes == bytes_before(
                self.passes(),
                self.files(),
                self.counted().layers as int,
            ),
    {
        match self.stage {
            ArchiveStage::Head => ArchiveStep::WriteHead,
            ArchiveStage::Layers => if self.stats.layers < self.passes.len() {
                ArchiveStep::ReadLayer {
                    pass: self.stats.layers,
                    number: self.stats.layers + 1,
                    total: self.passes.len(),
                    bytes: self.stats.bytes,
                }
            } else {
                ArchiveStep::WriteLinks
            },
            ArchiveStage::Complete => ArchiveStep::Finished,
        }
    }

    /// The pass of that number.
    pub fn pass(&self, number: usize) -> (r: &LayerPass)
        requires
            number < self.passes().len(),
        ensures
            *r == self.passes()[number as int],
    {
        &self.passes[number]
    }

    /// Everything but how far the archive has come.
    pub open spec fn same_point(&self, other: Archiver) -> bool {
        &&& self.passes() == other.passes()
        &&& self.files() == other.files()
        &&& self.dir_count() == other.dir_count()
        &&& self.link_count() == other.link_count()
    }

    /// The head is written: every directory, and every empty file.
    pub fn wrote_head(&mut self)
        requires
            old(self).wf(),
            old(self).reached() == ArchiveStage::Head,
        ensures
            final(self).wf(),
            final(self).same_point(*old(self)),
            final(self).reached() == ArchiveStage::Layers,
            final(self).counted() == (ArchiveStats {
                files: empty_files(
                    old(self).files(),
                    old(self).files().len() as int,
                ).len() as u64,
                dirs: old(self).dir_count(),
                symlinks: 0,
                bytes: 0,
                layers: 0,
            }),
    {
        assert(self.passes@.take(0) =~= Seq::<LayerPass>::empty());
        proof {
            lemma_files_before(self.passes@, self.files@, 0);
        }
        self.stage = ArchiveStage::Layers;
        self.stats = self.head;
    }

    /// Whether that is what the layer that is read next holds of the point's files, and can be
    /// counted.
    pub fn accepts(&self, written: u64, files: u64) -> (r: bool)
        requires
            self.wf(),
        ensures
            r == (self.reached() == ArchiveStage::Layers && self.counted().layers
                < self.passes().len() && written == bytes_of_pass(
                self.passes(),
                self.files(),
                self.counted().layers as int,
            ) && files == self.passes()[self.counted().layers as int].positions@.len()
                && self.counted().bytes + written <= u64::MAX),
    {
        let n = self.stats.layers;
        match self.stage {
            ArchiveStage::Layers => {
                if n >= self.passes.len() {
                    return false;
                }
                assert(self.lens@[n as int] == bytes_of_pass(self.passes@, self.files@, n as int));
                written as u128 == self.lens[n] && files == self.passes[n].positions.len() as u64
                    && self.stats.bytes <= u64::MAX - written
            },
            _ => false,
        }
    }

    /// A layer is read: what was written of it, which is what the pass over it writes.
    pub fn read_layer(&mut self, written: u64, files: u64)
        requires
            old(self).wf(),
            old(self).reached() == ArchiveStage::Layers,
            old(self).counted().layers < old(self).passes().len(),
            written == bytes_of_pass(
                old(self).passes(),
                old(self).files(),
                old(self).counted().layers as int,
            ),
            files == old(self).passes()[old(self).counted().layers as int].positions@.len(),
            old(self).counted().bytes + written <= u64::MAX,
        ensures
            final(self).wf(),
            final(self).same_point(*old(self)),
            final(self).reached() == ArchiveStage::Layers,
            final(self).counted() == (ArchiveStats {
                files: (old(self).counted().files + files) as u64,
                bytes: (old(self).counted().bytes + written) as u64,
                layers: (old(self).counted().layers + 1) as usize,
                ..old(self).counted()
            }),
    {
        proof {
            let n = self.stats.layers as int;
            assert(self.passes@.take(n + 1).drop_last() =~= self.passes@.take(n));
            assert(self.passes@.take(n + 1).last() == self.passes@[n]);
            lemma_each_counts(self.passes@[n].positions@, self.files@);
            lemma_files_before(self.passes@, self.files@, n + 1);
        }
        self.stats = self.stats.with_layer(written, files);
    }

    /// The error of a layer that could not be read: one that no key opens is named.
    pub fn layer_error(&self, e: RestoreError, digest: &str) -> (r: RestoreError)
        requires
            self.wf(),
            self.counted().layers < self.passes().len(),
        ensures
            match e {
                RestoreError::Stream(StreamError::Seal(SealError::Unauthentic)) => r matches RestoreError::LayerUnauthentic {
                    number,
                    total,
                    digest: d,
                } && number == self.counted().layers + 1 && total == self.passes().len() && d@
                    == digest@,
                _ => r == e,
            },
    {
        name_the_layer(e, self.stats.layers + 1, self.passes.len(), digest)
    }

    /// The symlinks and the end are written: what the archive holds. That is every file, directory
    /// and symlink of the point, the bytes of all the files, and a layer for each pass.
    pub fn wrote_links(&mut self) -> (r: ArchiveStats)
        requires
            old(self).wf(),
            old(self).reached() == ArchiveStage::Layers,
            old(self).counted().layers == old(self).passes().len(),
        ensures
            final(self).wf(),
            final(self).same_point(*old(self)),
            final(self).reached() == ArchiveStage::Complete,
            final(self).counted() == r,
            r.files == old(self).files().len(),
            r.dirs == old(self).dir_count(),
            r.symlinks == old(self).link_count(),
            r.bytes == sizes(old(self).files(), old(self).files().len() as int),
            r.layers == old(self).passes().len(),
    {
        assert(self.passes@.take(self.passes@.len() as int) =~= self.passes@);
        self.stage = ArchiveStage::Complete;
        self.stats = ArchiveStats {
            files: self.stats.files,
            dirs: self.stats.dirs,
            symlinks: self.links,
            bytes: self.stats.bytes,
            layers: self.stats.layers,
        };
        self.stats
    }
}

// ---------------------------------------------------------------------------
// Cutting a layer
// ---------------------------------------------------------------------------

/// Where the cutting of a layer stands before file `i`: behind the files before it, and behind
/// the gaps before those.
pub open spec fn taken_to(plan: Seq<Placed>, i: int) -> int
    decreases i,
{
    if i <= 0 {
        0
    } else {
        let at = taken_to(plan, i - 1);
        (if plan[i - 1].offset > at {
            plan[i - 1].offset as int
        } else {
            at
        }) + plan[i - 1].len
    }
}

/// Where the bytes of file `i` are taken from: its offset, or where the file before it ended.
pub open spec fn starts_at(plan: Seq<Placed>, i: int) -> int {
    let at = taken_to(plan, i);
    if plan[i].offset > at {
        plan[i].offset as int
    } else {
        at
    }
}

/// In a layer whose files follow one another, the bytes of each file are taken from its own
/// range, exactly as a restore takes them.
pub proof fn law_files_are_cut_from_their_ranges(plan: Seq<Placed>, i: int)
    requires
        ascending(plan),
        0 <= i < plan.len(),
    ensures
        starts_at(plan, i) == plan[i].offset,
        taken_to(plan, i + 1) == end_of(plan[i]),
    decreases i,
{
    if i > 0 {
        law_files_are_cut_from_their_ranges(plan, i - 1);
        assert(end_of(plan[i - 1]) <= plan[i].offset);
    }
}

/// What the cutting of a layer has to do next.
#[derive(Debug, Clone, Copy, PartialEq, Eq, Structural)]
pub enum CutAction {
    /// Read over so many bytes.
    Skip(u64),
    /// Append the file at that place of the plan, taking its bytes from the layer.
    Append(usize),
    /// Read the rest of the layer, so that its own verdict is known.
    Drain,
    /// Stop reading.
    Stop,
}

/// The cutting of one layer into the files of a plan.
pub struct Cutter {
    digest: String,
    plan: Vec<Placed>,
    next: usize,
    cursor: u64,
    written: u64,
    files: u64,
    failure: Option<RestoreError>,
}

/// The number up to which a layer has to reach for a file.
pub open spec fn needed_for(p: Placed) -> int {
    if in_range(p) {
        end_of(p)
    } else {
        u64::MAX as int
    }
}

impl Cutter {
    /// The files of the layer.
    pub closed spec fn plan(&self) -> Seq<Placed> {
        self.plan@
    }

    /// The layer's digest.
    pub closed spec fn digest(&self) -> Seq<char> {
        self.digest@
    }

    /// The next file.
    pub closed spec fn next(&self) -> int {
        self.next as int
    }

    /// How much of the layer has been read.
    pub closed spec fn cursor(&self) -> int {
        self.cursor as int
    }

    /// What went wrong.
    pub closed spec fn failure(&self) -> Option<RestoreError> {
        self.failure
    }

    /// What holds of a cutting: it stands behind the last file or at the beginning of the next.
    pub closed spec fn wf(&self) -> bool {
        &&& self.next <= self.plan@.len()
        &&& self.cursor == taken_to(self.plan@, self.next as int) || (self.next < self.plan@.len()
            && self.cursor == starts_at(self.plan@, self.next as int))
        &&& self.written == planned(self.plan@.take(self.next as int))
        &&& self.written <= self.cursor
        &&& self.files == self.next
    }

    /// The cutting of the layer of that digest.
    pub fn new(digest: &str, plan: Vec<Placed>) -> (r: Cutter)
        ensures
            r.wf(),
            r.plan() == plan@,
            r.digest() == digest@,
            r.next() == 0,
            r.cursor() == 0,
            r.failure() is None,
    {
        assert(plan@.take(0) =~= Seq::<Placed>::empty());
        Cutter { digest: owned(digest), plan, next: 0, cursor: 0, written: 0, files: 0, failure: None }
    }

    /// What is to be done next.
    pub open spec fn next_action(&self) -> CutAction {
        if self.failure() is Some {
            CutAction::Stop
        } else if self.next() >= self.plan().len() {
            CutAction::Drain
        } else if self.plan()[self.next()].offset > self.cursor() {
            CutAction::Skip((self.plan()[self.next()].offset - self.cursor()) as u64)
        } else {
            CutAction::Append(self.next() as usize)
        }
    }

    /// What is to be done next.
    pub fn action(&self) -> (r: CutAction)
        requires
            self.wf(),
        ensures
            r == self.next_action(),
    {
        if self.failure.is_some() {
            CutAction::Stop
        } else if self.next >= self.plan.len() {
            CutAction::Drain
        } else if self.plan[self.next].offset > self.cursor {
            CutAction::Skip(self.plan[self.next].offset - self.cursor)
        } else {
            CutAction::Append(self.next)
        }
    }

    /// So many bytes have been read over; fewer than were asked for mean that the layer ended.
    pub fn skipped(&mut self, n: u64)
        requires
            old(self).wf(),
            old(self).next_action() matches CutAction::Skip(k) && n <= k,
        ensures
            final(self).wf(),
            final(self).plan() == old(self).plan(),
            final(self).digest() == old(self).digest(),
            final(self).next() == old(self).next(),
            old(self).next_action() == CutAction::Skip(n) ==> final(self).failure() is None
                && final(self).cursor() == old(self).plan()[old(self).next()].offset,
            old(self).next_action() != CutAction::Skip(n) ==> final(self).cursor() == old(
                self,
            ).cursor() && (final(self).failure() matches Some(e) && is_layer_short(
                e,
                old(self).digest(),
                old(self).cursor() + n,
                needed_for(old(self).plan()[old(self).next()]),
            )),
    {
        let p: Placed = self.plan[self.next];
        if n == p.offset - self.cursor {
            self.cursor = p.offset;
        } else {
            self.failure = Some(
                RestoreError::LayerShort {
                    digest: self.digest.clone(),
                    read: self.cursor + n,
                    needed: p.offset.saturating_add(p.len),
                },
            );
        }
    }

    /// A file has been appended; `missing` of its bytes were not there, because the layer ended.
    pub fn appended(&mut self, missing: u64)
        requires
            old(self).wf(),
            old(self).next_action() is Append,
            missing <= old(self).plan()[old(self).next()].len,
            old(self).cursor() + old(self).plan()[old(self).next()].len - missing <= u64::MAX,
        ensures
            final(self).wf(),
            final(self).plan() == old(self).plan(),
            final(self).digest() == old(self).digest(),
            missing == 0 ==> final(self).failure() is None && final(self).next() == old(self).next()
                + 1 && final(self).cursor() == old(self).cursor() + old(self).plan()[old(
                self,
            ).next()].len,
            missing > 0 ==> final(self).next() == old(self).next() && final(self).cursor() == old(
                self,
            ).cursor() && (final(self).failure() matches Some(e) && is_layer_short(
                e,
                old(self).digest(),
                old(self).cursor() + old(self).plan()[old(self).next()].len - missing,
                needed_for(old(self).plan()[old(self).next()]),
            )),
    {
        let p: Placed = self.plan[self.next];
        if missing != 0 {
            self.failure = Some(
                RestoreError::LayerShort {
                    digest: self.digest.clone(),
                    read: self.cursor + (p.len - missing),
                    needed: p.offset.saturating_add(p.len),
                },
            );
        } else {
            assert(self.next < self.plan.len());
            proof {
                let i = self.next as int;
                assert(self.plan@.take(i + 1).drop_last() =~= self.plan@.take(i));
                assert(self.plan@.take(i + 1).last() == p);
            }
            self.cursor = self.cursor + p.len;
            self.written = self.written + p.len;
            self.files = self.files + 1;
            self.next = self.next + 1;
        }
    }

    /// Reading or writing failed.
    pub fn failed(&mut self, e: RestoreError)
        requires
            old(self).wf(),
            old(self).failure() is None,
        ensures
            final(self).wf(),
            final(self).plan() == old(self).plan(),
            final(self).digest() == old(self).digest(),
            final(self).next() == old(self).next(),
            final(self).cursor() == old(self).cursor(),
            final(self).failure() == Some(e),
    {
        self.failure = Some(e);
    }

    /// What the layer comes to: the bytes and the files that were written. `decoded` is what the
    /// decoder says of the layer, and `gave_up` that it stopped only because this side had.
    ///
    /// The decoder's failure is the one to report, since a layer that ends early usually does so
    /// because the decoder stopped; except where it only echoes that nobody read on.
    pub fn verdict(self, decoded: Option<StreamError>, gave_up: bool) -> (r: Result<
        (u64, u64),
        RestoreError,
    >)
        requires
            self.wf(),
            self.failure() is None ==> self.next() == self.plan().len(),
        ensures
            match (decoded, gave_up) {
                (Some(e), false) => r == Err::<(u64, u64), RestoreError>(RestoreError::Stream(e)),
                _ => match self.failure() {
                    Some(e) => r == Err::<(u64, u64), RestoreError>(e),
                    None => r matches Ok((written, files)) && written == planned(self.plan())
                        && files == self.plan().len(),
                },
            },
    {
        match decoded {
            Some(e) => {
                if !gave_up {
                    return Err(RestoreError::Stream(e));
                }
            },
            None => {},
        }
        match self.failure {
            Some(e) => Err(e),
            None => {
                assert(self.plan@.take(self.plan@.len() as int) =~= self.plan@);
                Ok((self.written, self.files))
            },
        }
    }
}

// ---------------------------------------------------------------------------
// Digests
// ---------------------------------------------------------------------------

/// The hexadecimal part of a digest.
pub open spec fn bare_digest(digest: Seq<char>) -> Seq<char> {
    if "sha256:"@.is_prefix_of(digest) {
        digest.skip(7)
    } else {
        digest
    }
}

/// The message about bytes that do not hash to the digest of the layer that they came for.
pub open spec fn mismatch_message(hash: Seq<u8>, expected: Seq<char>) -> Seq<char> {
    "app data layer bytes hash to sha256:"@ + hex(hash) + ", the point names sha256:"@
        + bare_digest(expected)
}

/// The bytes of a layer as they are read, to be held against the digest that it was asked for by.
pub struct LayerDigest {
    hasher: Sha256Stream,
    expected: String,
}

impl LayerDigest {
    /// The bytes that have been read.
    pub closed spec fn taken(&self) -> Seq<u8> {
        sha256_fed(self.hasher)
    }

    /// The digest that the layer was asked for by.
    pub closed spec fn expected(&self) -> Seq<char> {
        self.expected@
    }

    /// A layer of which nothing has been read.
    pub fn new(expected: &str) -> (r: LayerDigest)
        ensures
            r.taken() == Seq::<u8>::empty(),
            r.expected() == expected@,
    {
        LayerDigest { hasher: sha256_start(), expected: owned(expected) }
    }

    /// Some more bytes have been read.
    pub fn take(&mut self, bytes: &[u8])
        ensures
            final(self).taken() == old(self).taken() + bytes@,
            final(self).expected() == old(self).expected(),
    {
        sha256_update(&mut self.hasher, bytes);
    }

    /// The layer is read to its end: whether its bytes are those of the digest.
    pub fn verdict(self) -> (r: Result<(), String>)
        ensures
            match r {
                Ok(()) => hex(sha256(self.taken())) == bare_digest(self.expected()),
                Err(m) => hex(sha256(self.taken())) != bare_digest(self.expected()) && m@
                    == mismatch_message(sha256(self.taken()), self.expected()),
            },
    {
        let hash = sha256_finish(self.hasher);
        let chars = chars_of(self.expected.as_str());
        let bare: String = if starts_with(&chars, "sha256:") {
            proof {
                reveal_strlit("sha256:");
            }
            slice_string(&chars, 7, chars.len())
        } else {
            self.expected
        };
        assert(bare@ =~= bare_digest(self.expected@));
        let actual = hex_of(hash.as_slice());
        if same(actual.as_str(), bare.as_str()) {
            Ok(())
        } else {
            Err(
                cat4(
                    "app data layer bytes hash to sha256:",
                    actual.as_str(),
                    ", the point names sha256:",
                    bare.as_str(),
                ),
            )
        }
    }
}

/// An archived file is the one that is recorded: under its path, with its length, with each of its
/// nine permission bits and no other, and with its time to the second. Without a recorded mode its
/// owner reads and writes it and all others read it; a time before the epoch is the epoch.
pub proof fn law_an_archived_file_is_as_recorded(e: TarEntry, record: IndexFile, bit: u32)
    requires
        is_file_entry(e, record),
        bit < 32,
    ensures
        e.kind == TarKind::Regular,
        e.path@ == record.path@,
        e.size == record.len,
        e.target is None,
        record.mode == 0 ==> e.mode == 0o644,
        record.mode != 0 && bit < 9 ==> (e.mode >> bit) & 1 == (record.mode >> bit) & 1,
        record.mode != 0 && bit >= 9 ==> (e.mode >> bit) & 1 == 0,
        record.mtime_ns < 0 ==> e.mtime == 0,
        record.mtime_ns >= 0 ==> e.mtime * 1_000_000_000 <= record.mtime_ns < (e.mtime + 1)
            * 1_000_000_000,
{
    lemma_low_nine(record.mode, bit);
}

/// An archived directory is the one that is recorded, as a file is, and without a recorded mode all
/// may enter it and its owner may change it.
pub proof fn law_an_archived_directory_is_as_recorded(e: TarEntry, record: IndexDir, bit: u32)
    requires
        is_dir_entry(e, record),
        bit < 32,
    ensures
        e.kind == TarKind::Directory,
        e.path@ == record.path@,
        e.size == 0,
        e.target is None,
        record.mode == 0 ==> e.mode == 0o755,
        record.mode != 0 && bit < 9 ==> (e.mode >> bit) & 1 == (record.mode >> bit) & 1,
        record.mode != 0 && bit >= 9 ==> (e.mode >> bit) & 1 == 0,
        record.mtime_ns < 0 ==> e.mtime == 0,
        record.mtime_ns >= 0 ==> e.mtime * 1_000_000_000 <= record.mtime_ns < (e.mtime + 1)
            * 1_000_000_000,
{
    lemma_low_nine(record.mode, bit);
}

/// An archived symlink leads where the recorded one leads.
pub proof fn law_an_archived_link_is_as_recorded(e: TarEntry, record: IndexSymlink)
    requires
        is_link_entry(e, record),
    ensures
        e.kind == TarKind::Symlink,
        e.path@ == record.path@,
        e.target is Some,
        e.target->Some_0@ == record.target@,
        e.size == 0,
        e.mode == 0o644,
        record.mtime_ns < 0 ==> e.mtime == 0,
        record.mtime_ns >= 0 ==> e.mtime * 1_000_000_000 <= record.mtime_ns < (e.mtime + 1)
            * 1_000_000_000,
{
}

proof fn lemma_low_nine(mode: u32, bit: u32)
    requires
        bit < 32,
    ensures
        bit < 9 ==> ((mode & 0x1ff) >> bit) & 1 == (mode >> bit) & 1,
        bit >= 9 ==> ((mode & 0x1ff) >> bit) & 1 == 0,
{
    assert(bit < 9 ==> ((mode & 0x1ff) >> bit) & 1 == (mode >> bit) & 1) by (bit_vector)
        requires
            bit < 32,
    ;
    assert(bit >= 9 ==> ((mode & 0x1ff) >> bit) & 1 == 0) by (bit_vector)
        requires
            bit < 32,
    ;
}

/// The bytes of a layer are told by their hash alone, whether or not the digest that names it tells
/// the algorithm.
pub proof fn law_a_digest_is_told_with_or_without_its_algorithm(hash: Seq<u8>, digest: Seq<char>)
    ensures
        bare_digest("sha256:"@ + hex(hash)) == hex(hash),
        bare_digest("sha256:"@ + digest) == digest,
        (forall|rest: Seq<char>| digest != #[trigger] ("sha256:"@ + rest)) ==> bare_digest(digest)
            == digest,
{
    reveal_strlit("sha256:");
    assert(("sha256:"@ + hex(hash)).skip(7) =~= hex(hash));
    assert(("sha256:"@ + digest).skip(7) =~= digest);
    if "sha256:"@.is_prefix_of(digest) {
        assert(digest =~= "sha256:"@ + digest.skip(7));
    }
}

/// A layer is cut by its plan: what precedes the next file is skipped, up to where it begins, and a
/// file is taken where it begins. After the last one the rest is read through, and after a failure
/// nothing is.
pub proof fn law_a_layer_is_cut_by_its_plan(cutter: Cutter)
    ensures
        ({
            let next = cutter.next();
            let action = cutter.next_action();
            &&& cutter.failure() is Some ==> action is Stop
            &&& cutter.failure() is None && next >= cutter.plan().len() ==> action is Drain
            &&& cutter.failure() is None && 0 <= next < cutter.plan().len() ==> {
                let offset = cutter.plan()[next].offset;
                &&& cutter.cursor() == offset ==> action == CutAction::Append(next as usize)
                &&& 0 <= cutter.cursor() < offset ==> (action matches CutAction::Skip(n)
                    && cutter.cursor() + n == offset)
            }
        }),
{
}

} // verus!
