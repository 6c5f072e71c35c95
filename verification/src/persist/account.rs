//! What the passes over a point's layers add up to: every file that has bytes, and every byte.

use crate::persist::materialize::{are_passes, belongs, covers, empty_files, lists, LayerPass};
use crate::persist::restore::IndexFile;
use vstd::prelude::*;

verus! {

/// What the files at some places weigh together.
pub open spec fn weight_at(
    positions: Seq<usize>,
    files: Seq<IndexFile>,
    weigh: spec_fn(IndexFile) -> int,
) -> int
    decreases positions.len(),
{
    if positions.len() == 0 {
        0
    } else {
        weight_at(positions.drop_last(), files, weigh) + weigh(files[positions.last() as int])
    }
}

/// What the files that the passes read weigh together.
pub open spec fn weight_read(
    passes: Seq<LayerPass>,
    files: Seq<IndexFile>,
    weigh: spec_fn(IndexFile) -> int,
) -> int
    decreases passes.len(),
{
    if passes.len() == 0 {
        0
    } else {
        weight_read(passes.drop_last(), files, weigh) + weight_at(
            passes.last().positions@,
            files,
            weigh,
        )
    }
}

/// What the first `n` files weigh together, without those that are empty.
pub open spec fn weight_full(
    files: Seq<IndexFile>,
    n: int,
    weigh: spec_fn(IndexFile) -> int,
) -> int
    decreases n,
{
    if n <= 0 {
        0
    } else {
        weight_full(files, n - 1, weigh) + (if files[n - 1].len > 0 {
            weigh(files[n - 1])
        } else {
            0
        })
    }
}

/// A file counts for one.
pub open spec fn each() -> spec_fn(IndexFile) -> int {
    |file: IndexFile| 1int
}

/// A file counts for its bytes.
pub open spec fn bytes() -> spec_fn(IndexFile) -> int {
    |file: IndexFile| file.len as int
}

/// The sizes of the first `n` files, added up.
pub open spec fn sizes(files: Seq<IndexFile>, n: int) -> int
    decreases n,
{
    if n <= 0 {
        0
    } else {
        sizes(files, n - 1) + files[n - 1].len
    }
}

/// The files' bytes that the first `n` passes write.
pub open spec fn bytes_before(passes: Seq<LayerPass>, files: Seq<IndexFile>, n: int) -> int {
    weight_read(passes.take(n), files, bytes())
}

/// The files' bytes that pass number `n` writes.
pub open spec fn bytes_of_pass(passes: Seq<LayerPass>, files: Seq<IndexFile>, n: int) -> int {
    weight_at(passes[n].positions@, files, bytes())
}

/// The number of files that the first `n` passes write.
pub open spec fn files_before(passes: Seq<LayerPass>, files: Seq<IndexFile>, n: int) -> int {
    weight_read(passes.take(n), files, each())
}

/// The bytes that each of the passes writes.
pub fn pass_lengths(files: &Vec<IndexFile>, passes: &Vec<LayerPass>) -> (r: Vec<u128>)
    requires
        forall|k: int, j: int|
            0 <= k < passes@.len() && 0 <= j < passes@[k].positions@.len()
                ==> #[trigger] passes@[k].positions@[j] < files@.len(),
    ensures
        r@.len() == passes@.len(),
        forall|k: int|
            0 <= k < r@.len() ==> #[trigger] r@[k] == bytes_of_pass(passes@, files@, k),
{
    let mut lens: Vec<u128> = Vec::new();
    for k in 0..passes.len()
        invariant
            forall|k: int, j: int|
                0 <= k < passes@.len() && 0 <= j < passes@[k].positions@.len()
                    ==> #[trigger] passes@[k].positions@[j] < files@.len(),
            lens@.len() == k,
            forall|j: int| 0 <= j < k ==> #[trigger] lens@[j] == bytes_of_pass(passes@, files@, j),
    {
        let positions = &passes[k].positions;
        let mut sum: u128 = 0;
        assert(positions@.take(0) =~= Seq::<usize>::empty());
        for m in 0..positions.len()
            invariant
                forall|j: int|
                    0 <= j < positions@.len() ==> #[trigger] positions@[j] < files@.len(),
                sum == weight_at(positions@.take(m as int), files@, bytes()),
                sum <= m * 0xffff_ffff_ffff_ffff,
                positions.len() <= usize::MAX,
        {
            proof {
                assert(positions@.take(m + 1).drop_last() =~= positions@.take(m as int));
                assert(positions@.take(m + 1).last() == positions@[m as int]);
                assert(m * 0xffff_ffff_ffff_ffff <= 0xffff_ffff_ffff_ffff * 0xffff_ffff_ffff_ffff)
                    by (nonlinear_arith)
                    requires
                        m <= 0xffff_ffff_ffff_ffff,
                ;
            }
            sum = sum + files[positions[m]].len as u128;
        }
        assert(positions@.take(positions@.len() as int) =~= positions@);
        lens.push(sum);
    }
    lens
}

/// Files that count for one each weigh their number.
pub proof fn lemma_each_counts(positions: Seq<usize>, files: Seq<IndexFile>)
    ensures
        weight_at(positions, files, each()) == positions.len(),
    decreases positions.len(),
{
    if positions.len() > 0 {
        lemma_each_counts(positions.drop_last(), files);
    }
}

/// The first passes write no more files than all of them.
pub proof fn lemma_files_before(passes: Seq<LayerPass>, files: Seq<IndexFile>, n: int)
    requires
        0 <= n <= passes.len(),
    ensures
        0 <= files_before(passes, files, n) <= weight_read(passes, files, each()),
    decreases passes.len() - n, n,
{
    if n < passes.len() {
        lemma_files_before(passes, files, n + 1);
        assert(passes.take(n + 1).drop_last() =~= passes.take(n));
        lemma_each_counts(passes.take(n + 1).last().positions@, files);
    } else {
        assert(passes.take(n) =~= passes);
    }
    lemma_weighs_something(passes.take(n), files);
}

proof fn lemma_weighs_something(passes: Seq<LayerPass>, files: Seq<IndexFile>)
    ensures
        weight_read(passes, files, each()) >= 0,
    decreases passes.len(),
{
    if passes.len() > 0 {
        lemma_weighs_something(passes.drop_last(), files);
        lemma_each_counts(passes.last().positions@, files);
    }
}

/// What the files of one layer weigh among the first `n`.
spec fn weight_in(
    files: Seq<IndexFile>,
    n: int,
    layer: int,
    weigh: spec_fn(IndexFile) -> int,
) -> int
    decreases n,
{
    if n <= 0 {
        0
    } else {
        weight_in(files, n - 1, layer, weigh) + (if belongs(files[n - 1], layer) {
            weigh(files[n - 1])
        } else {
            0
        })
    }
}

/// What the files of the layers of some passes weigh among the first `n`.
spec fn weight_of_layers(
    passes: Seq<LayerPass>,
    files: Seq<IndexFile>,
    n: int,
    weigh: spec_fn(IndexFile) -> int,
) -> int
    decreases passes.len(),
{
    if passes.len() == 0 {
        0
    } else {
        weight_of_layers(passes.drop_last(), files, n, weigh) + weight_in(
            files,
            n,
            passes.last().layer as int,
            weigh,
        )
    }
}

proof fn lemma_without(
    positions: Seq<usize>,
    j: int,
    files: Seq<IndexFile>,
    weigh: spec_fn(IndexFile) -> int,
)
    requires
        0 <= j < positions.len(),
    ensures
        weight_at(positions.remove(j), files, weigh) == weight_at(positions, files, weigh) - weigh(
            files[positions[j] as int],
        ),
    decreases positions.len(),
{
    if j == positions.len() - 1 {
        assert(positions.remove(j) =~= positions.drop_last());
    } else {
        lemma_without(positions.drop_last(), j, files, weigh);
        assert(positions.remove(j).drop_last() =~= positions.drop_last().remove(j));
        assert(positions.remove(j).last() == positions.last());
    }
}

proof fn lemma_listed(
    positions: Seq<usize>,
    files: Seq<IndexFile>,
    n: int,
    layer: int,
    weigh: spec_fn(IndexFile) -> int,
)
    requires
        0 <= n <= files.len() <= usize::MAX,
        positions.no_duplicates(),
        forall|k: int|
            0 <= k < positions.len() ==> #[trigger] positions[k] < n && belongs(
                files[positions[k] as int],
                layer,
            ),
        forall|i: int| 0 <= i < n && belongs(#[trigger] files[i], layer) ==> positions.contains(
            i as usize,
        ),
    ensures
        weight_at(positions, files, weigh) == weight_in(files, n, layer, weigh),
    decreases n,
{
    if n == 0 {
        if positions.len() > 0 {
            assert(positions[0] < n);
        }
    } else if belongs(files[n - 1], layer) {
        assert(positions.contains((n - 1) as usize));
        let j = positions.index_of((n - 1) as usize);
        let rest = positions.remove(j);
        lemma_without(positions, j, files, weigh);
        assert forall|k: int| 0 <= k < rest.len() implies #[trigger] rest[k] < n - 1 && belongs(
            files[rest[k] as int],
            layer,
        ) by {
            let m = if k < j {
                k
            } else {
                k + 1
            };
            assert(rest[k] == positions[m]);
            assert(positions[m] != positions[j]);
        }
        assert forall|i: int| 0 <= i < n - 1 && belongs(#[trigger] files[i], layer) implies rest.contains(
            i as usize,
        ) by {
            let m = positions.index_of(i as usize);
            let k = if m < j {
                m
            } else {
                m - 1
            };
            assert(m != j);
            assert(rest[k] == i as usize);
        }
        assert(rest.no_duplicates()) by {
            assert forall|a: int, b: int|
                0 <= a < rest.len() && 0 <= b < rest.len() && a != b implies rest[a] != rest[b] by {
                let ma = if a < j {
                    a
                } else {
                    a + 1
                };
                let mb = if b < j {
                    b
                } else {
                    b + 1
                };
                assert(positions[ma] != positions[mb]);
            }
        }
        lemma_listed(rest, files, n - 1, layer, weigh);
    } else {
        assert forall|k: int| 0 <= k < positions.len() implies #[trigger] positions[k] < n - 1 by {
            assert(positions[k] < n && belongs(files[positions[k] as int], layer));
        }
        lemma_listed(positions, files, n - 1, layer, weigh);
    }
}

proof fn lemma_one_more_file(
    passes: Seq<LayerPass>,
    files: Seq<IndexFile>,
    n: int,
    weigh: spec_fn(IndexFile) -> int,
)
    requires
        0 < n <= files.len(),
        forall|j: int, k: int|
            0 <= j < k < passes.len() ==> (#[trigger] passes[j]).layer < (
            #[trigger] passes[k]).layer,
    ensures
        weight_of_layers(passes, files, n, weigh) == weight_of_layers(passes, files, n - 1, weigh)
            + (if files[n - 1].len > 0 && covers(passes, files[n - 1].layer as int) {
            weigh(files[n - 1])
        } else {
            0
        }),
    decreases passes.len(),
{
    let layer = files[n - 1].layer as int;
    if passes.len() > 0 {
        let rest = passes.drop_last();
        assert forall|j: int, k: int| 0 <= j < k < rest.len() implies (#[trigger] rest[j]).layer < (
        #[trigger] rest[k]).layer by {
            assert(passes[j].layer < passes[k].layer);
        }
        lemma_one_more_file(rest, files, n, weigh);
        if covers(rest, layer) {
            let k = choose|k: int| 0 <= k < rest.len() && (#[trigger] rest[k]).layer == layer;
            assert(passes[k].layer == layer);
            assert(passes[k].layer < passes[passes.len() - 1].layer);
            assert(covers(passes, layer));
        } else if passes.last().layer == layer {
            assert(passes[passes.len() - 1].layer == layer);
            assert(covers(passes, layer));
        } else if covers(passes, layer) {
            let k = choose|k: int| 0 <= k < passes.len() && (#[trigger] passes[k]).layer == layer;
            assert(rest[k].layer == layer);
        }
    }
}

proof fn lemma_all_layers(
    passes: Seq<LayerPass>,
    files: Seq<IndexFile>,
    n: int,
    weigh: spec_fn(IndexFile) -> int,
)
    requires
        0 <= n <= files.len(),
        forall|j: int, k: int|
            0 <= j < k < passes.len() ==> (#[trigger] passes[j]).layer < (
            #[trigger] passes[k]).layer,
        forall|i: int|
            0 <= i < files.len() && (#[trigger] files[i]).len > 0 ==> covers(
                passes,
                files[i].layer as int,
            ),
    ensures
        weight_of_layers(passes, files, n, weigh) == weight_full(files, n, weigh),
    decreases n,
{
    if n > 0 {
        lemma_one_more_file(passes, files, n, weigh);
        lemma_all_layers(passes, files, n - 1, weigh);
    } else {
        lemma_no_files(passes, files, weigh);
    }
}

proof fn lemma_no_files(
    passes: Seq<LayerPass>,
    files: Seq<IndexFile>,
    weigh: spec_fn(IndexFile) -> int,
)
    ensures
        weight_of_layers(passes, files, 0, weigh) == 0,
    decreases passes.len(),
{
    if passes.len() > 0 {
        lemma_no_files(passes.drop_last(), files, weigh);
    }
}

proof fn lemma_read_is_layers(
    passes: Seq<LayerPass>,
    files: Seq<IndexFile>,
    weigh: spec_fn(IndexFile) -> int,
)
    requires
        files.len() <= usize::MAX,
        forall|k: int|
            0 <= k < passes.len() ==> lists(
                (#[trigger] passes[k]).positions@,
                files,
                passes[k].layer as int,
            ),
    ensures
        weight_read(passes, files, weigh) == weight_of_layers(
            passes,
            files,
            files.len() as int,
            weigh,
        ),
    decreases passes.len(),
{
    if passes.len() > 0 {
        let rest = passes.drop_last();
        let last = passes.last();
        assert forall|k: int| 0 <= k < rest.len() implies lists(
            (#[trigger] rest[k]).positions@,
            files,
            rest[k].layer as int,
        ) by {
            assert(rest[k] == passes[k]);
        }
        lemma_read_is_layers(rest, files, weigh);
        let positions = last.positions@;
        assert(lists(passes[passes.len() - 1].positions@, files, last.layer as int));
        assert(positions.no_duplicates()) by {
            assert forall|a: int, b: int|
                0 <= a < positions.len() && 0 <= b < positions.len() && a
                    != b implies positions[a] != positions[b] by {
                if a < b {
                    assert(crate::persist::materialize::reads_before(
                        files,
                        positions[a] as int,
                        positions[b] as int,
                    ));
                } else {
                    assert(crate::persist::materialize::reads_before(
                        files,
                        positions[b] as int,
                        positions[a] as int,
                    ));
                }
            }
        }
        lemma_listed(positions, files, files.len() as int, last.layer as int, weigh);
    }
}

proof fn lemma_full_counts(files: Seq<IndexFile>, n: int)
    requires
        0 <= n <= files.len(),
    ensures
        weight_full(files, n, each()) + empty_files(files, n).len() == n,
        weight_full(files, n, bytes()) == sizes(files, n),
    decreases n,
{
    if n > 0 {
        lemma_full_counts(files, n - 1);
    }
}

/// The passes read every file that has bytes once, and all of the bytes: with the empty files they
/// come to the number of files, and to the sum of their sizes.
pub proof fn law_the_passes_add_up(passes: Seq<LayerPass>, files: Seq<IndexFile>, layers: int)
    requires
        are_passes(passes, files, layers),
        files.len() <= usize::MAX,
        forall|i: int| 0 <= i < files.len() ==> (#[trigger] files[i]).layer < layers,
    ensures
        weight_read(passes, files, each()) + empty_files(files, files.len() as int).len()
            == files.len(),
        weight_read(passes, files, bytes()) == sizes(files, files.len() as int),
{
    let n = files.len() as int;
    lemma_read_is_layers(passes, files, each());
    lemma_read_is_layers(passes, files, bytes());
    lemma_all_layers(passes, files, n, each());
    lemma_all_layers(passes, files, n, bytes());
    lemma_full_counts(files, n);
}

/// What a pass writes is what its files hold: the files of two lists together hold what each holds,
/// and one file holds its length.
pub proof fn law_what_files_hold_adds_up(
    a: Seq<usize>,
    b: Seq<usize>,
    files: Seq<IndexFile>,
    i: usize,
)
    ensures
        weight_at(a + b, files, bytes()) == weight_at(a, files, bytes()) + weight_at(
            b,
            files,
            bytes(),
        ),
        weight_at(a + b, files, each()) == weight_at(a, files, each()) + weight_at(b, files, each()),
        weight_at(seq![i], files, bytes()) == files[i as int].len,
        weight_at(seq![i], files, each()) == 1,
    decreases b.len(),
{
    let none = Seq::<usize>::empty();
    assert(seq![i].drop_last() =~= none);
    assert(weight_at(none, files, bytes()) == 0 && weight_at(none, files, each()) == 0);
    if b.len() == 0 {
        assert(a + b =~= a);
    } else {
        law_what_files_hold_adds_up(a, b.drop_last(), files, i);
        assert((a + b).drop_last() =~= a + b.drop_last());
        assert((a + b).last() == b.last());
    }
}

/// The lengths of some files, added from the first on, grow by that of each.
pub proof fn law_sizes_grow_by_each_file(files: Seq<IndexFile>, n: int)
    requires
        0 <= n < files.len(),
    ensures
        sizes(files, 0) == 0,
        sizes(files, n + 1) - sizes(files, n) == files[n].len,
{
}

} // verus!
