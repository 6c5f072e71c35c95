//! A restore on its way: what it does next, what its observer is told, and what it has put on disk.

use crate::persist::account::{
    bytes, bytes_before, bytes_of_pass, law_the_passes_add_up, pass_lengths, sizes, weight_read,
};
use crate::persist::materialize::{
    are_passes, empty_files, layer_passes, steps_of, LayerPass, RestoreStep, Restorer,
};
use crate::persist::restore::{
    name_the_layer, IndexFile, PointIndex, RestoreError, RestoreStats, MAX_INDEX_ENTRIES,
};
use crate::persist::seal::SealError;
use crate::persist::stream::StreamError;
use vstd::prelude::*;

verus! {

/// What a restore does next. The numbers are places in the index's lists.
#[derive(Debug, Clone, Copy, PartialEq, Eq, Structural)]
pub enum RestoreAction {
    MakeDir(usize),
    CreateEmpty(usize),
    /// Read a layer: the pass, and what an observer is told before it is read. It is the layer of
    /// that number, from 1, of that many, and the layers before it wrote so many bytes.
    ReadLayer { pass: usize, number: usize, total: usize, bytes: u64 },
    FileMetadata(usize),
    MakeLink(usize),
    LinkTime(usize),
    DirMetadata(usize),
    /// Nothing: the point is on disk.
    Done,
}

/// A restore on its way.
pub struct Restoring {
    passes: Vec<LayerPass>,
    /// The bytes that each pass writes.
    lens: Vec<u128>,
    steps: Vec<RestoreStep>,
    done: usize,
    stats: RestoreStats,
    files: Ghost<Seq<IndexFile>>,
    dirs: Ghost<nat>,
    links: Ghost<nat>,
}

/// How many of the passes lie among the first `done` steps, `head` steps coming before them.
pub open spec fn passes_done(done: int, head: int, passes: int) -> int {
    if done <= head {
        0
    } else if done >= head + passes {
        passes
    } else {
        done - head
    }
}

impl Restoring {
    /// The passes over the layers.
    pub closed spec fn passes(&self) -> Seq<LayerPass> {
        self.passes@
    }

    /// All the steps.
    pub closed spec fn steps(&self) -> Seq<RestoreStep> {
        self.steps@
    }

    /// How many steps have been taken.
    pub closed spec fn done(&self) -> int {
        self.done as int
    }

    /// The files of the point.
    pub closed spec fn files(&self) -> Seq<IndexFile> {
        self.files@
    }

    /// The number of directories of the point.
    pub closed spec fn dir_count(&self) -> nat {
        self.dirs@
    }

    /// The number of symlinks of the point.
    pub closed spec fn link_count(&self) -> nat {
        self.links@
    }

    /// What the restore has put on disk.
    pub closed spec fn counted(&self) -> RestoreStats {
        self.stats
    }

    /// What holds of a restore: what it has counted is what its passes so far have written.
    pub closed spec fn wf(&self) -> bool {
        let empties = empty_files(self.files@, self.files@.len() as int);
        let head = self.dirs@ + empties.len();
        &&& self.files@.len() <= MAX_INDEX_ENTRIES
        &&& self.passes@.len() <= usize::MAX
        &&& self.steps@.len() <= usize::MAX
        &&& self.steps@ == steps_of(
            self.dirs@,
            empties,
            self.passes@.len(),
            self.files@.len(),
            self.links@,
        )
        &&& self.done <= self.steps@.len()
        &&& self.lens@.len() == self.passes@.len()
        &&& forall|k: int|
            0 <= k < self.lens@.len() ==> #[trigger] self.lens@[k] == bytes_of_pass(
                self.passes@,
                self.files@,
                k,
            )
        &&& self.stats.layers == passes_done(
            self.done as int,
            head as int,
            self.passes@.len() as int,
        )
        &&& self.stats.bytes == bytes_before(self.passes@, self.files@, self.stats.layers as int)
        &&& self.stats.files == self.files@.len() as u64
        &&& self.stats.dirs == self.dirs@ as u64
        &&& self.stats.symlinks == self.links@ as u64
        &&& weight_read(self.passes@, self.files@, bytes()) == sizes(
            self.files@,
            self.files@.len() as int,
        )
    }

    /// The restore of a point, before its first step.
    pub fn new(index: &PointIndex) -> (r: Restoring)
        ensures
            r.wf(),
            r.files() == index.file_list(),
            r.dir_count() == index.dir_list().len(),
            r.link_count() == index.symlink_list().len(),
            are_passes(
                r.passes(),
                index.file_list(),
                index.header_view().layers@.len() as int,
            ),
            r.steps() == steps_of(
                index.dir_list().len(),
                empty_files(index.file_list(), index.file_list().len() as int),
                r.passes().len(),
                index.file_list().len(),
                index.symlink_list().len(),
            ),
            r.done() == 0,
            r.counted() == (RestoreStats {
                files: index.file_list().len() as u64,
                dirs: index.dir_list().len() as u64,
                symlinks: index.symlink_list().len() as u64,
                bytes: 0,
                layers: 0,
            }),
    {
        let passes = layer_passes(index);
        let files = index.files();
        let lens = pass_lengths(files, &passes);
        let steps = Restorer::steps(index, passes.len());
        proof {
            law_the_passes_add_up(
                passes@,
                files@,
                index.header_view().layers@.len() as int,
            );
            assert(passes@.take(0) =~= Seq::<LayerPass>::empty());
            assert(passes.len() <= usize::MAX && steps.len() <= usize::MAX);
        }
        Restoring {
            passes,
            lens,
            steps,
            done: 0,
            stats: index.stats(),
            files: Ghost(index.file_list()),
            dirs: Ghost(index.dir_list().len()),
            links: Ghost(index.symlink_list().len()),
        }
    }

    /// Whether that is what a restore does next.
    pub open spec fn does_next(&self, r: RestoreAction) -> bool {
        if self.done() >= self.steps().len() {
            r is Done
        } else {
            match self.steps()[self.done()] {
                RestoreStep::MakeDir(at) => r == RestoreAction::MakeDir(at),
                RestoreStep::CreateEmpty(at) => r == RestoreAction::CreateEmpty(at),
                RestoreStep::ReadLayer(n) => r matches RestoreAction::ReadLayer {
                    pass,
                    number,
                    total,
                    bytes,
                } && pass == n && number == n + 1 && total == self.passes().len() && bytes
                    == bytes_before(self.passes(), self.files(), n as int) && n < total,
                RestoreStep::FileMetadata(at) => r == RestoreAction::FileMetadata(at),
                RestoreStep::MakeLink(at) => r == RestoreAction::MakeLink(at),
                RestoreStep::LinkTime(at) => r == RestoreAction::LinkTime(at),
                RestoreStep::DirMetadata(at) => r == RestoreAction::DirMetadata(at),
            }
        }
    }

    /// What the restore does next. The layers are read in the order of the passes, each once, and
    /// before a layer is read its observer is told its number among those that are read, how many
    /// those are, and how many bytes the layers before it wrote.
    pub fn next(&self) -> (r: RestoreAction)
        requires
            self.wf(),
        ensures
            self.does_next(r),
            r matches RestoreAction::ReadLayer { pass, number, bytes, .. } ==> pass
                == self.counted().layers && number == self.counted().layers + 1 && bytes
                == self.counted().bytes,
    {
        if self.done >= self.steps.len() {
            return RestoreAction::Done;
        }
        proof {
            lemma_step_at(
                self.dirs@,
                empty_files(self.files@, self.files@.len() as int),
                self.passes@.len(),
                self.files@.len(),
                self.links@,
                self.done as int,
            );
        }
        match self.steps[self.done] {
            RestoreStep::MakeDir(at) => RestoreAction::MakeDir(at),
            RestoreStep::CreateEmpty(at) => RestoreAction::CreateEmpty(at),
            RestoreStep::ReadLayer(pass) => RestoreAction::ReadLayer {
                pass,
                number: self.stats.layers + 1,
                total: self.passes.len(),
                bytes: self.stats.bytes,
            },
            RestoreStep::FileMetadata(at) => RestoreAction::FileMetadata(at),
            RestoreStep::MakeLink(at) => RestoreAction::MakeLink(at),
            RestoreStep::LinkTime(at) => RestoreAction::LinkTime(at),
            RestoreStep::DirMetadata(at) => RestoreAction::DirMetadata(at),
        }
    }

    /// The pass of that number.
    pub fn pass(&self, number: usize) -> (r: &LayerPass)
        requires
            number < self.passes().len(),
        ensures
            *r == self.passes()[number as int],
    {
        &self.passes[number]
    }

    /// Everything but how far the restore has come.
    pub open spec fn same_point(&self, other: Restoring) -> bool {
        &&& self.passes() == other.passes()
        &&& self.steps() == other.steps()
        &&& self.files() == other.files()
        &&& self.dir_count() == other.dir_count()
        &&& self.link_count() == other.link_count()
    }

    /// The next step is taken, which reads no layer.
    pub fn took(&mut self)
        requires
            old(self).wf(),
            old(self).done() < old(self).steps().len(),
            !(old(self).steps()[old(self).done()] is ReadLayer),
        ensures
            final(self).wf(),
            final(self).same_point(*old(self)),
            final(self).done() == old(self).done() + 1,
            final(self).counted() == old(self).counted(),
    {
        proof {
            lemma_step_at(
                self.dirs@,
                empty_files(self.files@, self.files@.len() as int),
                self.passes@.len(),
                self.files@.len(),
                self.links@,
                self.done as int,
            );
        }
        self.done = self.done + 1;
    }

    /// Whether so many bytes are what the layer that is read next holds of the point's files, and
    /// can be counted.
    pub fn accepts(&self, written: u64) -> (r: bool)
        requires
            self.wf(),
        ensures
            r == (self.done() < self.steps().len() && (
            self.steps()[self.done()] matches RestoreStep::ReadLayer(n) && written
                == bytes_of_pass(self.passes(), self.files(), n as int) && self.counted().bytes
                + written <= u64::MAX)),
    {
        if self.done >= self.steps.len() {
            return false;
        }
        proof {
            lemma_step_at(
                self.dirs@,
                empty_files(self.files@, self.files@.len() as int),
                self.passes@.len(),
                self.files@.len(),
                self.links@,
                self.done as int,
            );
        }
        match self.steps[self.done] {
            RestoreStep::ReadLayer(n) => {
                assert(self.lens@[n as int] == bytes_of_pass(self.passes@, self.files@, n as int));
                written as u128 == self.lens[n] && self.stats.bytes <= u64::MAX - written
            },
            _ => false,
        }
    }

    /// The next layer is read, and its files are written.
    pub fn layer_read(&mut self, written: u64)
        requires
            old(self).wf(),
            old(self).done() < old(self).steps().len(),
            old(self).steps()[old(self).done()] matches RestoreStep::ReadLayer(n) && written
                == bytes_of_pass(old(self).passes(), old(self).files(), n as int),
            old(self).counted().bytes + written <= u64::MAX,
        ensures
            final(self).wf(),
            final(self).same_point(*old(self)),
            final(self).done() == old(self).done() + 1,
            final(self).counted() == (RestoreStats {
                bytes: (old(self).counted().bytes + written) as u64,
                layers: (old(self).counted().layers + 1) as usize,
                ..old(self).counted()
            }),
    {
        proof {
            lemma_step_at(
                self.dirs@,
                empty_files(self.files@, self.files@.len() as int),
                self.passes@.len(),
                self.files@.len(),
                self.links@,
                self.done as int,
            );
            let n = self.stats.layers as int;
            assert(self.passes@.take(n + 1).drop_last() =~= self.passes@.take(n));
            assert(self.passes@.take(n + 1).last() == self.passes@[n]);
        }
        self.stats = RestoreStats {
            files: self.stats.files,
            dirs: self.stats.dirs,
            symlinks: self.stats.symlinks,
            bytes: self.stats.bytes + written,
            layers: self.stats.layers + 1,
        };
        self.done = self.done + 1;
    }

    /// The error of a layer that could not be read: one that no key opens is named.
    pub fn layer_error(&self, e: RestoreError, digest: &str) -> (r: RestoreError)
        requires
            self.wf(),
            self.counted().layers < self.passes().len(),
        ensures
            match e {
                RestoreError::Stream(StreamError::Seal(SealError::Unauthentic)) => r matches RestoreError::LayerUnauthentic {
                    number,
                    total,
                    digest: d,
                } && number == self.counted().layers + 1 && total == self.passes().len() && d@
                    == digest@,
                _ => r == e,
            },
    {
        name_the_layer(e, self.stats.layers + 1, self.passes.len(), digest)
    }

    /// What a restore that has taken all its steps has put on disk: what the index lists, the bytes
    /// of all the files, and a layer for each pass.
    pub fn finish(self) -> (r: RestoreStats)
        requires
            self.wf(),
            self.done() == self.steps().len(),
        ensures
            r == self.counted(),
            r.files == self.files().len() as u64,
            r.dirs == self.dir_count() as u64,
            r.symlinks == self.link_count() as u64,
            r.bytes == sizes(self.files(), self.files().len() as int),
            r.layers == self.passes().len(),
    {
        assert(self.passes@.take(self.passes@.len() as int) =~= self.passes@);
        self.stats
    }
}

/// Which of the steps read a layer, and which layer.
proof fn lemma_step_at(
    dirs: nat,
    empties: Seq<usize>,
    passes: nat,
    files: nat,
    links: nat,
    i: int,
)
    requires
        0 <= i < steps_of(dirs, empties, passes, files, links).len(),
        passes <= usize::MAX,
    ensures
        ({
            let step = steps_of(dirs, empties, passes, files, links)[i];
            let head = dirs + empties.len();
            &&& step is ReadLayer <==> head <= i < head + passes
            &&& step matches RestoreStep::ReadLayer(n) ==> n == i - head
        }),
{
    let steps = steps_of(dirs, empties, passes, files, links);
    let head = dirs + empties.len();
    let a = head + passes + files;
    let b = a + links;
    let c = b + links;
    if i < dirs {
        assert(steps[i] == RestoreStep::MakeDir(i as usize));
    } else if i < head {
        assert(steps[i] == RestoreStep::CreateEmpty(empties[i - dirs]));
    } else if i < head + passes {
        assert(steps[i] == RestoreStep::ReadLayer((i - head) as usize));
    } else if i < a {
        assert(steps[i] == RestoreStep::FileMetadata((i - head - passes) as usize));
    } else if i < b {
        assert(steps[i] == RestoreStep::MakeLink((i - a) as usize));
    } else if i < c {
        assert(steps[i] == RestoreStep::LinkTime((i - b) as usize));
    } else {
        assert(steps[i] == RestoreStep::DirMetadata((dirs - 1 - (i - c)) as usize));
    }
}

/// An observer is told the layers that are read in their order, counting from 1, each once, and
/// each time how many there are: the layer that is told as number `k` is the one that step number
/// `k - 1` of the passes reads.
pub proof fn law_the_observer_counts_the_layers(
    dirs: nat,
    empties: Seq<usize>,
    passes: nat,
    files: nat,
    links: nat,
    k: int,
)
    requires
        0 < k <= passes <= usize::MAX,
    ensures
        ({
            let steps = steps_of(dirs, empties, passes, files, links);
            let at = dirs + empties.len() + k - 1;
            &&& 0 <= at < steps.len()
            &&& steps[at] == RestoreStep::ReadLayer((k - 1) as usize)
            &&& forall|i: int|
                0 <= i < steps.len() && #[trigger] steps[i] == RestoreStep::ReadLayer(
                    (k - 1) as usize,
                ) ==> i == at
        }),
{
    let steps = steps_of(dirs, empties, passes, files, links);
    let at = dirs + empties.len() + k - 1;
    lemma_step_at(dirs, empties, passes, files, links, at);
    assert forall|i: int|
        0 <= i < steps.len() && #[trigger] steps[i] == RestoreStep::ReadLayer(
            (k - 1) as usize,
        ) implies i == at by {
        lemma_step_at(dirs, empties, passes, files, links, i);
    }
}

/// What is to be done next is the step that is reached, and nothing once all are taken.
pub proof fn law_the_next_step_is_done(restoring: Restoring, action: RestoreAction)
    requires
        restoring.does_next(action),
    ensures
        ({
            let steps = restoring.steps();
            let at = restoring.done();
            &&& at >= steps.len() <==> action is Done
            &&& at < steps.len() ==> {
                &&& steps[at] matches RestoreStep::MakeDir(i) ==> action == RestoreAction::MakeDir(i)
                &&& steps[at] matches RestoreStep::CreateEmpty(i) ==> action
                    == RestoreAction::CreateEmpty(i)
                &&& steps[at] matches RestoreStep::FileMetadata(i) ==> action
                    == RestoreAction::FileMetadata(i)
                &&& steps[at] matches RestoreStep::MakeLink(i) ==> action == RestoreAction::MakeLink(
                    i,
                )
                &&& steps[at] matches RestoreStep::LinkTime(i) ==> action == RestoreAction::LinkTime(
                    i,
                )
                &&& steps[at] matches RestoreStep::DirMetadata(i) ==> action
                    == RestoreAction::DirMetadata(i)
                &&& steps[at] matches RestoreStep::ReadLayer(i) ==> (
                action matches RestoreAction::ReadLayer { pass, number, .. } && pass == i && number
                    == i + 1)
            }
        }),
{
}

} // verus!
