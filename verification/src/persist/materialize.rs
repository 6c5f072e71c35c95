//! The order in which a restore point is put on disk.
//!
//! Directories come first, then the files, then the files' modes and times, and only then the
//! symlinks: while anything is written or given a mode there is no link to go through. The times
//! of the directories come last, since making a link in one changes its time.

use crate::persist::restore::{IndexFile, PointIndex, RestoreError, RestoreStats};
use crate::persist::tree::{
    unchanged, Entry, EntryRef, IndexHeader, Kind, LayerRef, WalkEntry, INDEX_VERSION,
};
use crate::text::{cat2, owned};
use vstd::prelude::*;

verus! {

/// What is put behind an app's name for the directory that its point is restored into.
pub const RESTORING_SUFFIX: &'static str = ".restoring";

/// The name of the directory that an app's point is restored into.
pub fn restoring_name(app: &str) -> (r: String)
    ensures
        r@ == app@ + RESTORING_SUFFIX@,
{
    cat2(app, RESTORING_SUFFIX)
}

/// Whether something can be created in a directory: only in one that really is a directory, so
/// that nothing is ever written through a link.
pub fn check_parent(relative: &str, is_directory: bool) -> (r: Result<(), RestoreError>)
    ensures
        match r {
            Ok(()) => is_directory,
            Err(e) => !is_directory && (e matches RestoreError::BadParent(p) && p@ == relative@),
        },
{
    if is_directory {
        Ok(())
    } else {
        Err(RestoreError::BadParent(owned(relative)))
    }
}

// ---------------------------------------------------------------------------
// Metadata
// ---------------------------------------------------------------------------

/// What stands at a path that is to be given metadata.
#[derive(Debug, Clone, Copy, PartialEq, Eq, Structural)]
pub enum Found {
    Nothing,
    Symlink,
    Other,
}

/// The metadata to give to a path.
#[derive(Debug, Clone, Copy, PartialEq, Eq, Structural)]
pub struct Metadata {
    pub mode: Option<u32>,
    pub mtime_ns: Option<i64>,
}

/// The mode to restore: none where the point recorded none, and else the permission bits without
/// setuid, setgid and the sticky bit.
pub open spec fn restored_mode(mode: u32) -> Option<u32> {
    if mode == 0 {
        None
    } else {
        Some(mode & 0x1ff)
    }
}

/// The time to restore: none where the point recorded none.
pub open spec fn restored_time(mtime_ns: i64) -> Option<i64> {
    if mtime_ns == 0 {
        None
    } else {
        Some(mtime_ns)
    }
}

/// The metadata to give to a path that the index calls a file or a directory. A symlink is left
/// alone: a mode would go through it.
pub fn metadata_to_apply(found: Found, mtime_ns: i64, mode: u32) -> (r: Metadata)
    ensures
        found == Found::Other ==> r == (Metadata {
            mode: restored_mode(mode),
            mtime_ns: restored_time(mtime_ns),
        }),
        found != Found::Other ==> r == (Metadata { mode: None, mtime_ns: None }),
        r.mode matches Some(m) ==> m < 0x200,
{
    assert(mode & 0x1ff < 0x200) by (bit_vector);
    match found {
        Found::Other => Metadata {
            mode: if mode == 0 {
                None
            } else {
                Some(mode & 0x1ff)
            },
            mtime_ns: if mtime_ns == 0 {
                None
            } else {
                Some(mtime_ns)
            },
        },
        _ => Metadata { mode: None, mtime_ns: None },
    }
}

/// A time as whole seconds since the Unix epoch and the nanoseconds after them.
pub fn time_parts(mtime_ns: i64) -> (r: (i64, i64))
    ensures
        r.0 * 1_000_000_000 + r.1 == mtime_ns,
        0 <= r.1 < 1_000_000_000,
{
    if mtime_ns >= 0 {
        (mtime_ns / 1_000_000_000, mtime_ns % 1_000_000_000)
    } else {
        let back: i64 = -(mtime_ns + 1);
        let seconds: i64 = -(back / 1_000_000_000) - 1;
        (seconds, 999_999_999 - back % 1_000_000_000)
    }
}

/// A time in ticks of 100 nanoseconds since the beginning of 1601, the nanoseconds cut off
/// towards the Unix epoch.
pub fn filetime_ticks(mtime_ns: i64) -> (r: u64)
    ensures
        mtime_ns >= 0 ==> r == 116_444_736_000_000_000 + mtime_ns as int / 100,
        mtime_ns < 0 ==> r == 116_444_736_000_000_000 - (-mtime_ns) as int / 100,
{
    if mtime_ns >= 0 {
        116_444_736_000_000_000 + mtime_ns as u64 / 100
    } else {
        let back: u64 = (-(mtime_ns + 1)) as u64 + 1;
        116_444_736_000_000_000 - back / 100
    }
}

// ---------------------------------------------------------------------------
// Layer passes
// ---------------------------------------------------------------------------

/// One forward pass over a layer.
#[derive(Debug, PartialEq, Eq)]
pub struct LayerPass {
    /// Number of the layer in the header's list.
    pub layer: usize,
    /// The files that it holds, by their places in the index, in the order of their offsets.
    pub positions: Vec<usize>,
}

/// Whether a file has bytes in a layer.
pub open spec fn belongs(file: IndexFile, layer: int) -> bool {
    file.len > 0 && file.layer == layer
}

/// Whether one file is read before another of the same layer.
pub open spec fn reads_before(files: Seq<IndexFile>, a: int, b: int) -> bool {
    files[a].offset < files[b].offset || (files[a].offset == files[b].offset && a < b)
}

/// Whether a list names exactly the files that have bytes in a layer, in the order in which they
/// are read.
pub open spec fn lists(positions: Seq<usize>, files: Seq<IndexFile>, layer: int) -> bool {
    &&& forall|k: int|
        0 <= k < positions.len() ==> #[trigger] positions[k] < files.len() && belongs(
            files[positions[k] as int],
            layer,
        )
    &&& forall|i: int|
        0 <= i < files.len() && belongs(#[trigger] files[i], layer) ==> positions.contains(
            i as usize,
        )
    &&& forall|j: int, k: int|
        0 <= j < k < positions.len() ==> reads_before(
            files,
            #[trigger] positions[j] as int,
            #[trigger] positions[k] as int,
        )
}

/// Whether one place comes before another or is the same: by the offset, then by the position.
pub open spec fn place_le(a: (u64, usize), b: (u64, usize)) -> bool {
    a.0 < b.0 || (a.0 == b.0 && a.1 <= b.1)
}

/// `slice::sort_unstable` on pairs: the same pairs, in the order of their first members and, where
/// those are equal, of their second.
#[verifier::external_body]
fn sort_places(places: &mut Vec<(u64, usize)>)
    ensures
        final(places)@.to_multiset() == old(places)@.to_multiset(),
        forall|i: int, j: int|
            0 <= i < j < final(places)@.len() ==> place_le(
                #[trigger] final(places)@[i],
                #[trigger] final(places)@[j],
            ),
{
    places.sort_unstable();
}

/// The files that have bytes in a layer, in the order in which they are read.
fn layer_positions(files: &Vec<IndexFile>, layer: usize) -> (r: Vec<usize>)
    ensures
        lists(r@, files@, layer as int),
{
    let mut places: Vec<(u64, usize)> = Vec::new();
    for i in 0..files.len()
        invariant
            forall|k: int|
                0 <= k < places@.len() ==> (#[trigger] places@[k]).1 < i && belongs(
                    files@[places@[k].1 as int],
                    layer as int,
                ) && places@[k].0 == files@[places@[k].1 as int].offset,
            forall|j: int, k: int|
                0 <= j < k < places@.len() ==> (#[trigger] places@[j]).1 < (
                #[trigger] places@[k]).1,
            forall|f: int|
                0 <= f < i && belongs(#[trigger] files@[f], layer as int) ==> places@.contains(
                    (files@[f].offset, f as usize),
                ),
    {
        let ghost before = places@;
        if files[i].len > 0 && files[i].layer as usize == layer {
            places.push((files[i].offset, i));
        }
        proof {
            assert forall|f: int|
                0 <= f < i + 1 && belongs(#[trigger] files@[f], layer as int) implies places@.contains(
                (files@[f].offset, f as usize),
            ) by {
                if f < i {
                    let k = before.index_of((files@[f].offset, f as usize));
                    assert(places@[k] == before[k]);
                } else {
                    assert(places@[places@.len() - 1] == (files@[f].offset, f as usize));
                }
            }
        }
    }
    let ghost gathered = places@;
    proof {
        assert(gathered.no_duplicates());
        gathered.lemma_multiset_has_no_duplicates();
    }
    sort_places(&mut places);
    proof {
        places@.lemma_multiset_has_no_duplicates_conv();
        places@.to_multiset_ensures();
        gathered.to_multiset_ensures();
        assert forall|k: int| 0 <= k < places@.len() implies gathered.contains(
            #[trigger] places@[k],
        ) by {
            assert(places@.contains(places@[k]));
            assert(places@.to_multiset().count(places@[k]) > 0);
        }
        assert forall|p: (u64, usize)| gathered.contains(p) implies #[trigger] places@.contains(
            p,
        ) by {
            assert(gathered.to_multiset().count(p) > 0);
        }
    }
    let mut out: Vec<usize> = Vec::new();
    for k in 0..places.len()
        invariant
            out@.len() == k,
            forall|j: int| 0 <= j < k ==> #[trigger] out@[j] == places@[j].1,
    {
        out.push(places[k].1);
    }
    proof {
        assert forall|k: int| 0 <= k < out@.len() implies #[trigger] out@[k] < files@.len()
            && belongs(files@[out@[k] as int], layer as int) && places@[k].0
            == files@[out@[k] as int].offset by {
            assert(gathered.contains(places@[k]));
        }
        assert forall|i: int|
            0 <= i < files@.len() && belongs(#[trigger] files@[i], layer as int) implies out@.contains(
            i as usize,
        ) by {
            assert(gathered.contains((files@[i].offset, i as usize)));
            assert(places@.contains((files@[i].offset, i as usize)));
            let k = places@.index_of((files@[i].offset, i as usize));
            assert(out@[k] == i as usize);
        }
        assert forall|j: int, k: int| 0 <= j < k < out@.len() implies reads_before(
            files@,
            #[trigger] out@[j] as int,
            #[trigger] out@[k] as int,
        ) by {
            assert(place_le(places@[j], places@[k]));
            assert(places@[j] != places@[k]);
        }
    }
    out
}

/// Whether a layer is read in one of the passes.
pub open spec fn covers(passes: Seq<LayerPass>, layer: int) -> bool {
    exists|k: int| 0 <= k < passes.len() && (#[trigger] passes[k]).layer == layer
}

/// Whether these are the passes over a point's layers: one for each layer that a file has bytes
/// in, in the order of the header's list.
pub open spec fn are_passes(passes: Seq<LayerPass>, files: Seq<IndexFile>, layers: int) -> bool {
    &&& forall|k: int|
        0 <= k < passes.len() ==> (#[trigger] passes[k]).layer < layers
            && passes[k].positions@.len() > 0 && lists(
            passes[k].positions@,
            files,
            passes[k].layer as int,
        )
    &&& forall|j: int, k: int|
        0 <= j < k < passes.len() ==> (#[trigger] passes[j]).layer < (#[trigger] passes[k]).layer
    &&& forall|i: int|
        0 <= i < files.len() && (#[trigger] files[i]).len > 0 && files[i].layer < layers ==> covers(
            passes,
            files[i].layer as int,
        )
}

/// The passes over a point's layers. A layer that nothing references is not read.
pub fn layer_passes(index: &PointIndex) -> (r: Vec<LayerPass>)
    ensures
        are_passes(r@, index.file_list(), index.header_view().layers@.len() as int),
{
    let files = index.files();
    let layers = index.header().layers.len();
    let mut passes: Vec<LayerPass> = Vec::new();
    for number in 0..layers
        invariant
            files@ == index.file_list(),
            are_passes(passes@, files@, number as int),
    {
        let positions = layer_positions(files, number);
        let ghost before = passes@;
        let ghost listed = positions@;
        if positions.len() > 0 {
            passes.push(LayerPass { layer: number, positions });
        }
        proof {
            assert forall|i: int|
                0 <= i < files@.len() && (#[trigger] files@[i]).len > 0 && files@[i].layer < number
                    + 1 implies covers(passes@, files@[i].layer as int) by {
                if files@[i].layer < number {
                    assert(covers(before, files@[i].layer as int));
                    let k = choose|k: int|
                        0 <= k < before.len() && (#[trigger] before[k]).layer == files@[i].layer;
                    assert(passes@[k] == before[k]);
                } else {
                    assert(belongs(files@[i], number as int));
                    assert(listed.contains(i as usize));
                    assert(passes@[passes@.len() - 1].layer == number);
                }
            }
            assert forall|k: int| 0 <= k < passes@.len() implies (#[trigger] passes@[k]).layer
                < number + 1 && passes@[k].positions@.len() > 0 && lists(
                passes@[k].positions@,
                files@,
                passes@[k].layer as int,
            ) by {
                if k < before.len() {
                    assert(passes@[k] == before[k]);
                }
            }
            assert forall|j: int, k: int| 0 <= j < k < passes@.len() implies (
            #[trigger] passes@[j]).layer < (#[trigger] passes@[k]).layer by {
                assert(passes@[j] == before[j]);
                if k < before.len() {
                    assert(passes@[k] == before[k]);
                }
            }
        }
    }
    passes
}

// ---------------------------------------------------------------------------
// Steps
// ---------------------------------------------------------------------------

/// One step of a restore. The numbers are places in the index's lists, and in the list of passes.
#[derive(Debug, Clone, Copy, PartialEq, Eq, Structural)]
pub enum RestoreStep {
    MakeDir(usize),
    CreateEmpty(usize),
    ReadLayer(usize),
    FileMetadata(usize),
    MakeLink(usize),
    LinkTime(usize),
    DirMetadata(usize),
}

/// The places of the empty files among the first `n`.
pub open spec fn empty_files(files: Seq<IndexFile>, n: int) -> Seq<usize>
    decreases n,
{
    if n <= 0 {
        Seq::empty()
    } else if files[n - 1].len == 0 {
        empty_files(files, n - 1).push((n - 1) as usize)
    } else {
        empty_files(files, n - 1)
    }
}

/// The steps of a restore, phase by phase.
pub open spec fn steps_of(
    dirs: nat,
    empties: Seq<usize>,
    passes: nat,
    files: nat,
    links: nat,
) -> Seq<RestoreStep> {
    Seq::new(dirs, |i: int| RestoreStep::MakeDir(i as usize)) + Seq::new(
        empties.len(),
        |i: int| RestoreStep::CreateEmpty(empties[i]),
    ) + Seq::new(passes, |i: int| RestoreStep::ReadLayer(i as usize)) + Seq::new(
        files,
        |i: int| RestoreStep::FileMetadata(i as usize),
    ) + Seq::new(links, |i: int| RestoreStep::MakeLink(i as usize)) + Seq::new(
        links,
        |i: int| RestoreStep::LinkTime(i as usize),
    ) + Seq::new(dirs, |i: int| RestoreStep::DirMetadata((dirs - 1 - i) as usize))
}

/// Whether a step writes bytes, makes a directory, or gives a file a mode.
pub open spec fn writes(step: RestoreStep) -> bool {
    step is MakeDir || step is CreateEmpty || step is ReadLayer || step is FileMetadata
}

/// Nothing is written, and no file is given a mode, once there is a symlink; a directory gets its
/// metadata only once everything has been created, and after the directories inside it.
pub proof fn law_links_come_last(
    dirs: nat,
    empties: Seq<usize>,
    passes: nat,
    files: nat,
    links: nat,
)
    ensures
        ({
            let steps = steps_of(dirs, empties, passes, files, links);
            &&& forall|i: int, j: int|
                0 <= i < steps.len() && 0 <= j < steps.len() && #[trigger] steps[i] is MakeLink
                    && writes(#[trigger] steps[j]) ==> j < i
            &&& forall|i: int, j: int|
                0 <= i < steps.len() && 0 <= j < steps.len() && #[trigger] steps[i] is DirMetadata
                    && (writes(#[trigger] steps[j]) || steps[j] is MakeLink) ==> j < i
            &&& forall|i: int, j: int|
                0 <= i < j < steps.len() && dirs <= usize::MAX && #[trigger] steps[i] is DirMetadata
                    && #[trigger] steps[j] is DirMetadata ==> steps[i]->DirMetadata_0
                    > steps[j]->DirMetadata_0
        }),
{
    let steps = steps_of(dirs, empties, passes, files, links);
    let a = dirs + empties.len() + passes + files;
    let b = a + links;
    let c = b + links;
    assert(steps.len() == c + dirs);
    assert forall|i: int| 0 <= i < steps.len() implies (if i < a {
        writes(#[trigger] steps[i])
    } else if i < b {
        steps[i] is MakeLink
    } else if i < c {
        steps[i] is LinkTime
    } else {
        steps[i] == RestoreStep::DirMetadata((dirs - 1 - (i - c)) as usize)
    }) by {
        if i < dirs {
            assert(steps[i] == RestoreStep::MakeDir(i as usize));
        } else if i < dirs + empties.len() {
            assert(steps[i] == RestoreStep::CreateEmpty(empties[i - dirs]));
        } else if i < dirs + empties.len() + passes {
            assert(steps[i] == RestoreStep::ReadLayer((i - dirs - empties.len()) as usize));
        } else if i < a {
            assert(steps[i] == RestoreStep::FileMetadata(
                (i - dirs - empties.len() - passes) as usize,
            ));
        } else if i < b {
            assert(steps[i] == RestoreStep::MakeLink((i - a) as usize));
        } else if i < c {
            assert(steps[i] == RestoreStep::LinkTime((i - b) as usize));
        }
    }
}

/// Whether a pass reads a file.
pub open spec fn reads(pass: LayerPass, file: int) -> bool {
    exists|k: int| 0 <= k < pass.positions@.len() && #[trigger] pass.positions@[k] == file
}

/// Every file is written exactly once: an empty one is created, and any other is read in exactly
/// one pass.
pub proof fn law_every_file_is_written_once(
    passes: Seq<LayerPass>,
    files: Seq<IndexFile>,
    layers: int,
    i: int,
)
    requires
        are_passes(passes, files, layers),
        0 <= i < files.len() <= usize::MAX,
        files[i].layer < layers,
    ensures
        files[i].len == 0 <==> empty_files(files, files.len() as int).contains(i as usize),
        files[i].len > 0 ==> exists|k: int| 0 <= k < passes.len() && reads(#[trigger] passes[k], i),
        forall|k: int| 0 <= k < passes.len() && reads(#[trigger] passes[k], i) ==> files[i].len > 0,
        forall|j: int, k: int|
            0 <= j < passes.len() && 0 <= k < passes.len() && reads(#[trigger] passes[j], i)
                && reads(#[trigger] passes[k], i) ==> j == k,
{
    lemma_empty_files(files, files.len() as int, i);
    assert forall|k: int| 0 <= k < passes.len() && reads(#[trigger] passes[k], i) implies files[i].len
        > 0 && passes[k].layer == files[i].layer by {
        let m = choose|m: int|
            0 <= m < passes[k].positions@.len() && #[trigger] passes[k].positions@[m] == i;
        assert(belongs(files[passes[k].positions@[m] as int], passes[k].layer as int));
    }
    if files[i].len > 0 {
        assert(covers(passes, files[i].layer as int));
        let k = choose|k: int|
            0 <= k < passes.len() && (#[trigger] passes[k]).layer == files[i].layer;
        assert(belongs(files[i], passes[k].layer as int));
        assert(passes[k].positions@.contains(i as usize));
        let m = passes[k].positions@.index_of(i as usize);
        assert(passes[k].positions@[m] == i);
        assert(reads(passes[k], i));
    }
}

proof fn lemma_empty_files(files: Seq<IndexFile>, n: int, i: int)
    requires
        0 <= n <= files.len() <= usize::MAX,
        0 <= i < files.len(),
    ensures
        empty_files(files, n).contains(i as usize) <==> i < n && files[i].len == 0,
    decreases n,
{
    if n > 0 {
        lemma_empty_files(files, n - 1, i);
        let before = empty_files(files, n - 1);
        let after = empty_files(files, n);
        if files[n - 1].len == 0 {
            if before.contains(i as usize) {
                assert(after[before.index_of(i as usize)] == i as usize);
            }
            if i == n - 1 {
                assert(after[after.len() - 1] == i as usize);
            }
            if after.contains(i as usize) {
                let k = after.index_of(i as usize);
                if k < before.len() {
                    assert(before[k] == i as usize);
                }
            }
        }
    }
}

/// Puts restore points on disk.
pub struct Restorer;

impl Restorer {
    /// The steps of restoring a point, `passes` being the number of passes over its layers.
    pub fn steps(index: &PointIndex, passes: usize) -> (r: Vec<RestoreStep>)
        ensures
            r@ == steps_of(
                index.dir_list().len(),
                empty_files(index.file_list(), index.file_list().len() as int),
                passes as nat,
                index.file_list().len(),
                index.symlink_list().len(),
            ),
    {
        let dirs = index.dirs();
        let files = index.files();
        let links = index.symlinks();
        let ghost empties = empty_files(files@, files@.len() as int);
        let mut out: Vec<RestoreStep> = Vec::new();
        for i in 0..dirs.len()
            invariant
                out@ == Seq::new(i as nat, |k: int| RestoreStep::MakeDir(k as usize)),
        {
            out.push(RestoreStep::MakeDir(i));
            assert(out@ =~= Seq::new((i + 1) as nat, |k: int| RestoreStep::MakeDir(k as usize)));
        }
        let ghost head = out@;
        assert(head =~= head + Seq::new(0, |k: int| RestoreStep::CreateEmpty(0)));
        for i in 0..files.len()
            invariant
                out@ == head + Seq::new(
                    empty_files(files@, i as int).len(),
                    |k: int| RestoreStep::CreateEmpty(empty_files(files@, i as int)[k]),
                ),
        {
            if files[i].len == 0 {
                out.push(RestoreStep::CreateEmpty(i));
            }
            assert(out@ =~= head + Seq::new(
                empty_files(files@, i + 1).len(),
                |k: int| RestoreStep::CreateEmpty(empty_files(files@, i + 1)[k]),
            ));
        }
        let ghost head = out@;
        assert(head =~= head + Seq::new(0, |k: int| RestoreStep::ReadLayer(k as usize)));
        for i in 0..passes
            invariant
                out@ == head + Seq::new(i as nat, |k: int| RestoreStep::ReadLayer(k as usize)),
        {
            out.push(RestoreStep::ReadLayer(i));
            assert(out@ =~= head + Seq::new(
                (i + 1) as nat,
                |k: int| RestoreStep::ReadLayer(k as usize),
            ));
        }
        let ghost head = out@;
        assert(head =~= head + Seq::new(0, |k: int| RestoreStep::FileMetadata(k as usize)));
        for i in 0..files.len()
            invariant
                out@ == head + Seq::new(i as nat, |k: int| RestoreStep::FileMetadata(k as usize)),
        {
            out.push(RestoreStep::FileMetadata(i));
            assert(out@ =~= head + Seq::new(
                (i + 1) as nat,
                |k: int| RestoreStep::FileMetadata(k as usize),
            ));
        }
        let ghost head = out@;
        assert(head =~= head + Seq::new(0, |k: int| RestoreStep::MakeLink(k as usize)));
        for i in 0..links.len()
            invariant
                out@ == head + Seq::new(i as nat, |k: int| RestoreStep::MakeLink(k as usize)),
        {
            out.push(RestoreStep::MakeLink(i));
            assert(out@ =~= head + Seq::new(
                (i + 1) as nat,
                |k: int| RestoreStep::MakeLink(k as usize),
            ));
        }
        let ghost head = out@;
        assert(head =~= head + Seq::new(0, |k: int| RestoreStep::LinkTime(k as usize)));
        for i in 0..links.len()
            invariant
                out@ == head + Seq::new(i as nat, |k: int| RestoreStep::LinkTime(k as usize)),
        {
            out.push(RestoreStep::LinkTime(i));
            assert(out@ =~= head + Seq::new(
                (i + 1) as nat,
                |k: int| RestoreStep::LinkTime(k as usize),
            ));
        }
        let ghost head = out@;
        let ghost d = dirs@.len();
        assert(head =~= head + Seq::new(0, |k: int| RestoreStep::DirMetadata(k as usize)));
        for i in 0..dirs.len()
            invariant
                d == dirs@.len(),
                d == dirs.len(),
                out@ == head + Seq::new(
                    i as nat,
                    |k: int| RestoreStep::DirMetadata((d - 1 - k) as usize),
                ),
        {
            out.push(RestoreStep::DirMetadata(dirs.len() - 1 - i));
            assert(out@ =~= head + Seq::new(
                (i + 1) as nat,
                |k: int| RestoreStep::DirMetadata((d - 1 - k) as usize),
            ));
        }
        out
    }
}

/// Watches the passes over a point's layers.
pub trait LayerObserver {
    /// Called just before layer `number` of `total` is read, counting from 1 the layers that are
    /// read at all. `bytes` is what the layers before it wrote.
    fn layer(&self, number: usize, total: usize, bytes: u64);
}

// ---------------------------------------------------------------------------
// The restored point
// ---------------------------------------------------------------------------

/// A point that is on disk, still under its temporary name.
pub struct RestoredPoint {
    root: String,
    stats: RestoreStats,
    index: PointIndex,
}

/// Whether the capture index records a file of the restored tree, or anything else in it: a file
/// that the point placed keeps its place, with the size and the time of the file on disk.
pub open spec fn seeded(entry: Entry, found: WalkEntry, files: Seq<IndexFile>) -> bool {
    &&& entry.p == found.path
    &&& entry.k == found.kind
    &&& entry.s == found.size
    &&& entry.m == found.mtime_ns
    &&& entry.c == found.ctime_ns
    &&& entry.mode == found.mode
    &&& entry.t == found.target
    &&& match entry.r {
        Some(r) => found.kind == Kind::File && r.n == found.size && exists|i: int|
            0 <= i < files.len() && (#[trigger] files[i]).path@ == found.path@ && r.l
                == files[i].layer && r.o == files[i].offset,
        None => found.kind != Kind::File || forall|i: int|
            0 <= i < files.len() ==> (#[trigger] files[i]).path@ != found.path@,
    }
}

/// A capture right behind a restore finds every file that the point placed unchanged.
pub proof fn law_a_restored_file_is_unchanged(entry: Entry, found: WalkEntry, files: Seq<IndexFile>)
    requires
        seeded(entry, found, files),
        found.kind == Kind::File,
        exists|i: int| 0 <= i < files.len() && (#[trigger] files[i]).path@ == found.path@,
    ensures
        unchanged(entry, found),
        entry.r is Some,
{
}

impl RestoredPoint {
    /// Where the point is.
    pub closed spec fn root_view(&self) -> Seq<char> {
        self.root@
    }

    /// What was put there.
    pub closed spec fn stats_view(&self) -> RestoreStats {
        self.stats
    }

    /// The point's index.
    pub closed spec fn index_view(&self) -> PointIndex {
        self.index
    }

    /// A point that is on disk.
    pub fn new(root: String, stats: RestoreStats, index: PointIndex) -> (r: RestoredPoint)
        ensures
            r.root_view() == root@,
            r.stats_view() == stats,
            r.index_view() == index,
    {
        RestoredPoint { root, stats, index }
    }

    /// The directory that the point was written to.
    pub fn root(&self) -> (r: &str)
        ensures
            r@ == self.root_view(),
    {
        self.root.as_str()
    }

    /// What was put there.
    pub fn stats(&self) -> (r: RestoreStats)
        ensures
            r == self.stats_view(),
    {
        self.stats
    }

    /// The point's index.
    pub fn index(&self) -> (r: &PointIndex)
        ensures
            *r == self.index_view(),
    {
        &self.index
    }

    /// The local capture index of the restored tree, from a walk over it: what keeps the first
    /// capture after a restore incremental.
    pub fn seed_index(&self, found: &Vec<WalkEntry>) -> (r: (IndexHeader, Vec<Entry>))
        ensures
            r.0.v == INDEX_VERSION,
            r.0.app == self.index_view().header_view().app,
            r.0.created_at == self.index_view().header_view().created_at,
            r.0.layers@ == self.index_view().header_view().layers@,
            r.1@.len() == found@.len(),
            forall|i: int|
                0 <= i < found@.len() ==> seeded(
                    #[trigger] r.1@[i],
                    found@[i],
                    self.index_view().file_list(),
                ),
    {
        let header = self.index.header();
        let mut layers: Vec<LayerRef> = Vec::new();
        for i in 0..header.layers.len()
            invariant
                layers@ == header.layers@.take(i as int),
        {
            layers.push(header.layers[i].clone());
            assert(layers@ =~= header.layers@.take(i + 1));
        }
        assert(layers@ =~= header.layers@);
        let mut entries: Vec<Entry> = Vec::new();
        for i in 0..found.len()
            invariant
                entries@.len() == i,
                forall|k: int|
                    0 <= k < i ==> seeded(
                        #[trigger] entries@[k],
                        found@[k],
                        self.index.file_list(),
                    ),
        {
            let entry = &found[i];
            let reference: Option<EntryRef> = if entry.kind == Kind::File {
                match self.index.reference(entry.path.as_str()) {
                    Some(reference) => Some(
                        EntryRef { l: reference.l, o: reference.o, n: entry.size },
                    ),
                    None => None,
                }
            } else {
                None
            };
            entries.push(
                Entry {
                    p: entry.path.clone(),
                    k: entry.kind,
                    s: entry.size,
                    m: entry.mtime_ns,
                    c: entry.ctime_ns,
                    mode: entry.mode,
                    t: entry.target.clone(),
                    r: reference,
                },
            );
        }
        (
            IndexHeader {
                v: INDEX_VERSION,
                app: header.app.clone(),
                created_at: header.created_at,
                layers,
            },
            entries,
        )
    }
}

/// A recorded mode is given back. Each of the nine permission bits of the mode that a restore sets
/// is set exactly where it is set in the recorded mode, and no other bit is; so a mode without
/// setuid, setgid and the sticky bit is restored as it was. Where the point recorded no mode, none
/// is set.
pub proof fn law_a_mode_is_given_back(mode: u32, bit: u32)
    requires
        bit < 32,
    ensures
        restored_mode(mode) is None <==> mode == 0,
        restored_mode(mode) matches Some(restored) ==> {
            &&& bit < 9 ==> (restored >> bit) & 1 == (mode >> bit) & 1
            &&& bit >= 9 ==> (restored >> bit) & 1 == 0
            &&& mode < 0x200 ==> restored == mode
        },
{
    assert(bit < 9 ==> ((mode & 0x1ff) >> bit) & 1 == (mode >> bit) & 1) by (bit_vector)
        requires
            bit < 32,
    ;
    assert(bit >= 9 ==> ((mode & 0x1ff) >> bit) & 1 == 0) by (bit_vector)
        requires
            bit < 32,
    ;
    assert(mode < 0x200 ==> mode & 0x1ff == mode) by (bit_vector);
}

/// A recorded time is given back to the nanosecond, and none is set where none was recorded.
pub proof fn law_a_time_is_given_back(mtime_ns: i64)
    ensures
        restored_time(mtime_ns) is None <==> mtime_ns == 0,
        restored_time(mtime_ns) matches Some(time) ==> time == mtime_ns,
{
}

/// What a capture index records of a restored file is what a walk over the restored tree finds, and
/// its bytes are where the point had them.
pub proof fn law_a_seeded_file_keeps_its_place(
    entry: Entry,
    found: WalkEntry,
    files: Seq<IndexFile>,
    i: int,
)
    requires
        seeded(entry, found, files),
        forall|a: int, b: int|
            0 <= a < b < files.len() ==> (#[trigger] files[a]).path@ != (#[trigger] files[b]).path@,
        found.kind is File,
        0 <= i < files.len(),
        files[i].path@ == found.path@,
    ensures
        entry.p@ == found.path@,
        entry.k is File,
        entry.s == found.size,
        entry.m == found.mtime_ns,
        entry.mode == found.mode,
        entry.r matches Some(r) && r.l == files[i].layer && r.o == files[i].offset && r.n
            == found.size,
{
}

/// Everything that an index records is restored: every directory is made and given its metadata,
/// every file gets its metadata, every link is made and gets its time, each layer is read, and
/// every file that is empty is created. Directories are made in the order of the index, so that one
/// is there before what is in it.
pub proof fn law_everything_is_restored(
    dirs: nat,
    empties: Seq<usize>,
    passes: nat,
    files: nat,
    links: nat,
    i: usize,
)
    requires
        dirs <= usize::MAX,
    ensures
        ({
            let steps = steps_of(dirs, empties, passes, files, links);
            &&& i < dirs ==> steps[i as int] == RestoreStep::MakeDir(i)
            &&& i < dirs ==> steps.contains(RestoreStep::DirMetadata(i))
            &&& i < empties.len() ==> steps.contains(RestoreStep::CreateEmpty(empties[i as int]))
            &&& i < passes ==> steps.contains(RestoreStep::ReadLayer(i))
            &&& i < files ==> steps.contains(RestoreStep::FileMetadata(i))
            &&& i < links ==> steps.contains(RestoreStep::MakeLink(i))
            &&& i < links ==> steps.contains(RestoreStep::LinkTime(i))
            &&& steps.len() == 2 * dirs + empties.len() + passes + files + 2 * links
        }),
{
    let steps = steps_of(dirs, empties, passes, files, links);
    let a = dirs as int;
    let b = a + empties.len();
    let c = b + passes;
    let d = c + files;
    let e = d + links;
    let f = e + links;
    if i < dirs {
        assert(steps[f + (dirs - 1 - i)] == RestoreStep::DirMetadata(i));
    }
    if i < empties.len() {
        assert(steps[a + i] == RestoreStep::CreateEmpty(empties[i as int]));
    }
    if i < passes {
        assert(steps[b + i] == RestoreStep::ReadLayer(i));
    }
    if i < files {
        assert(steps[c + i] == RestoreStep::FileMetadata(i));
    }
    if i < links {
        assert(steps[d + i] == RestoreStep::MakeLink(i));
        assert(steps[e + i] == RestoreStep::LinkTime(i));
    }
}

/// A file is read from its own layer, and the files of a layer are read in the order that their
/// bytes have in it.
pub proof fn law_a_file_is_read_from_its_layer(
    passes: Seq<LayerPass>,
    files: Seq<IndexFile>,
    layers: int,
    k: int,
    i: int,
    j: int,
)
    requires
        are_passes(passes, files, layers),
        0 <= k < passes.len(),
        0 <= i < j < passes[k].positions@.len(),
    ensures
        ({
            let a = passes[k].positions@[i] as int;
            let b = passes[k].positions@[j] as int;
            &&& a < files.len()
            &&& b < files.len()
            &&& files[a].layer == passes[k].layer
            &&& files[b].layer == passes[k].layer
            &&& files[a].offset <= files[b].offset
            &&& a != b
        }),
{
    let positions = passes[k].positions@;
    assert(lists(positions, files, passes[k].layer as int));
    assert(belongs(files[positions[i] as int], passes[k].layer as int));
    assert(belongs(files[positions[j] as int], passes[k].layer as int));
    assert(reads_before(files, positions[i] as int, positions[j] as int));
}

/// A capture index that is made of a restored tree says of everything what was found of it, and
/// only a file has its bytes anywhere.
pub proof fn law_a_seeded_entry_says_what_was_found(
    entry: Entry,
    found: WalkEntry,
    files: Seq<IndexFile>,
)
    requires
        seeded(entry, found, files),
    ensures
        entry.p@ == found.path@,
        entry.k == found.kind,
        entry.s == found.size,
        entry.m == found.mtime_ns,
        entry.c == found.ctime_ns,
        entry.mode == found.mode,
        entry.t is Some <==> found.target is Some,
        entry.t is Some ==> entry.t->Some_0@ == found.target->Some_0@,
        !(found.kind is File) ==> entry.r is None,
        (forall|i: int| 0 <= i < files.len() ==> (#[trigger] files[i]).path@ != found.path@)
            ==> entry.r is None,
{
}

} // verus!
