//! Cutting a layer's plaintext into the files that it holds.
//!
//! A layer is read once, front to back, and each file is a range of it. The ranges of a layer
//! ascend and do not overlap, so the pass never seeks and never holds more than the chunk at hand.

use crate::persist::restore::RestoreError;
use crate::text::owned;
use vstd::prelude::*;

verus! {

/// Where a file is in the plaintext of a layer.
#[derive(Debug, Clone, Copy, PartialEq, Eq, Structural)]
pub struct Placed {
    pub offset: u64,
    pub len: u64,
}

/// Where a file ends in its layer.
pub open spec fn end_of(p: Placed) -> int {
    p.offset + p.len
}

/// Whether a layer can have the range at all.
pub open spec fn in_range(p: Placed) -> bool {
    end_of(p) <= u64::MAX
}

/// Whether the ranges of a layer are those of files that follow one another.
pub open spec fn ascending(plan: Seq<Placed>) -> bool {
    &&& forall|i: int| 0 <= i < plan.len() ==> (#[trigger] plan[i]).len > 0
    &&& forall|i: int, j: int|
        0 <= i < j < plan.len() ==> end_of(#[trigger] plan[i]) <= (#[trigger] plan[j]).offset
}

/// Whether the ranges of a layer ascend without overlapping.
pub fn is_ascending(plan: &Vec<Placed>) -> (r: bool)
    ensures
        r == ascending(plan@),
{
    for i in 0..plan.len()
        invariant
            forall|k: int| 0 <= k < i ==> (#[trigger] plan@[k]).len > 0,
            forall|a: int, b: int|
                0 <= a < b < i ==> end_of(#[trigger] plan@[a]) <= (#[trigger] plan@[b]).offset,
    {
        if plan[i].len == 0 {
            return false;
        }
        if i > 0 {
            match plan[i - 1].offset.checked_add(plan[i - 1].len) {
                None => {
                    assert(!(end_of(plan@[i - 1]) <= plan@[i as int].offset));
                    return false;
                },
                Some(end) => {
                    if end > plan[i].offset {
                        assert(!(end_of(plan@[i - 1]) <= plan@[i as int].offset));
                        return false;
                    }
                },
            }
            assert forall|a: int| 0 <= a < i implies end_of(#[trigger] plan@[a])
                <= plan@[i as int].offset by {
                if a < i - 1 {
                    assert(end_of(plan@[a]) <= plan@[i - 1].offset);
                }
            }
        }
    }
    true
}

/// Where a file's bytes end in its layer's plaintext, refusing a range that no layer can have.
pub fn range_end(record: &Placed, digest: &str) -> (r: Result<u64, RestoreError>)
    ensures
        match r {
            Ok(end) => in_range(*record) && end == end_of(*record),
            Err(e) => !in_range(*record) && is_layer_range(e, digest@, *record),
        },
{
    match record.offset.checked_add(record.len) {
        Some(end) => Ok(end),
        None => Err(
            RestoreError::LayerRange {
                digest: owned(digest),
                offset: record.offset,
                len: record.len,
            },
        ),
    }
}

/// Whether an error says that a range is one that no layer can have.
pub open spec fn is_layer_range(e: RestoreError, digest: Seq<char>, p: Placed) -> bool {
    e matches RestoreError::LayerRange { digest: d, offset, len } && d@ == digest && offset
        == p.offset && len == p.len
}

/// Whether an error says that a layer ended early.
pub open spec fn is_layer_short(e: RestoreError, digest: Seq<char>, got: int, wanted: int) -> bool {
    e matches RestoreError::LayerShort { digest: d, read, needed } && d@ == digest && read == got
        && needed == wanted
}

/// A position within bounds.
pub open spec fn clip(x: int, low: int, high: int) -> int {
    if x < low {
        low
    } else if x > high {
        high
    } else {
        x
    }
}

/// The number of bytes that a file has among the `n` bytes at position `at` of its layer.
pub open spec fn held(p: Placed, at: int, n: int) -> int {
    clip(end_of(p), at, at + n) - clip(p.offset as int, at, at + n)
}

/// The bytes of a chunk, which stands at position `at` of its layer, that belong to a file.
pub open spec fn placed(p: Placed, at: int, chunk: Seq<u8>) -> Seq<u8> {
    chunk.subrange(
        clip(p.offset as int, at, at + chunk.len()) - at,
        clip(end_of(p), at, at + chunk.len()) - at,
    )
}

/// How a layer's plaintext is divided into chunks is immaterial: a file gets from two chunks, one
/// behind the other, what it gets from both at once.
pub proof fn law_chunks_are_immaterial(p: Placed, at: int, a: Seq<u8>, b: Seq<u8>)
    ensures
        placed(p, at, a + b) == placed(p, at, a) + placed(p, at + a.len(), b),
{
    assert(placed(p, at, a + b) =~= placed(p, at, a) + placed(p, at + a.len(), b));
}

/// A file gets exactly its range of a layer that reaches to its end.
pub proof fn law_a_file_gets_its_range(p: Placed, layer: Seq<u8>)
    requires
        end_of(p) <= layer.len(),
    ensures
        placed(p, 0, layer) == layer.subrange(p.offset as int, end_of(p)),
{
}

/// What is to be written of a chunk to one file.
#[derive(Debug, Clone, Copy, PartialEq, Eq, Structural)]
pub struct Piece {
    /// The file, by its place in the plan.
    pub file: usize,
    /// Whether the file begins here and is to be created first.
    pub create: bool,
    /// Where the bytes begin in the chunk, and where they end.
    pub start: usize,
    pub end: usize,
}

/// What is to be written to file `i` of the `n` bytes at position `at`.
pub open spec fn piece_of(plan: Seq<Placed>, at: int, n: int, i: int) -> Piece {
    Piece {
        file: i as usize,
        create: plan[i].offset >= at,
        start: (clip(plan[i].offset as int, at, at + n) - at) as usize,
        end: (clip(end_of(plan[i]), at, at + n) - at) as usize,
    }
}

/// What is to be written of the `n` bytes at position `at`, from file `i` of the plan on: one
/// piece for each file that has bytes there.
pub open spec fn pieces_from(plan: Seq<Placed>, at: int, n: int, i: int) -> Seq<Piece>
    decreases plan.len() - i,
{
    if i < 0 || i >= plan.len() {
        Seq::empty()
    } else if in_range(plan[i]) && held(plan[i], at, n) > 0 {
        seq![piece_of(plan, at, n, i)] + pieces_from(plan, at, n, i + 1)
    } else {
        pieces_from(plan, at, n, i + 1)
    }
}

/// Each piece holds exactly the bytes that its file has in the chunk, and a file has one exactly
/// if it has bytes there.
pub proof fn law_pieces_are_what_is_placed(plan: Seq<Placed>, at: int, chunk: Seq<u8>, i: int)
    requires
        0 <= i <= plan.len(),
        plan.len() <= usize::MAX,
        chunk.len() <= usize::MAX,
    ensures
        forall|k: int|
            0 <= k < pieces_from(plan, at, chunk.len() as int, i).len() ==> ({
                let piece = #[trigger] pieces_from(plan, at, chunk.len() as int, i)[k];
                &&& i <= piece.file < plan.len()
                &&& in_range(plan[piece.file as int])
                &&& piece.start < piece.end <= chunk.len()
                &&& chunk.subrange(piece.start as int, piece.end as int) == placed(
                    plan[piece.file as int],
                    at,
                    chunk,
                )
            }),
        forall|f: int|
            i <= f < plan.len() && in_range(#[trigger] plan[f]) && held(
                plan[f],
                at,
                chunk.len() as int,
            ) > 0 ==> pieces_from(plan, at, chunk.len() as int, i).contains(
                piece_of(plan, at, chunk.len() as int, f),
            ),
    decreases plan.len() - i,
{
    let n = chunk.len() as int;
    if i < plan.len() {
        law_pieces_are_what_is_placed(plan, at, chunk, i + 1);
        let more = pieces_from(plan, at, n, i + 1);
        let all = pieces_from(plan, at, n, i);
        if in_range(plan[i]) && held(plan[i], at, n) > 0 {
            let first = piece_of(plan, at, n, i);
            assert forall|k: int| 0 <= k < all.len() implies ({
                let piece = #[trigger] all[k];
                &&& i <= piece.file < plan.len()
                &&& in_range(plan[piece.file as int])
                &&& piece.start < piece.end <= chunk.len()
                &&& chunk.subrange(piece.start as int, piece.end as int) == placed(
                    plan[piece.file as int],
                    at,
                    chunk,
                )
            }) by {
                if k > 0 {
                    assert(all[k] == more[k - 1]);
                }
            }
            assert forall|f: int|
                i <= f < plan.len() && in_range(#[trigger] plan[f]) && held(plan[f], at, n)
                    > 0 implies all.contains(piece_of(plan, at, n, f)) by {
                if f == i {
                    assert(all[0] == first);
                } else {
                    let k = choose|k: int|
                        0 <= k < more.len() && more[k] == piece_of(plan, at, n, f);
                    assert(all[k + 1] == piece_of(plan, at, n, f));
                }
            }
        }
    }
}

/// The number of bytes that the files of a plan have among the first `n` of their layer.
pub open spec fn scattered(plan: Seq<Placed>, n: int) -> int
    decreases plan.len(),
{
    if plan.len() == 0 {
        0
    } else {
        scattered(plan.drop_last(), n) + if in_range(plan.last()) {
            held(plan.last(), 0, n)
        } else {
            0
        }
    }
}

/// The sizes of the files of a plan, added up.
pub open spec fn planned(plan: Seq<Placed>) -> int
    decreases plan.len(),
{
    if plan.len() == 0 {
        0
    } else {
        planned(plan.drop_last()) + plan.last().len
    }
}

proof fn lemma_scattered_bound(plan: Seq<Placed>, n: int)
    requires
        ascending(plan),
        n >= 0,
    ensures
        0 <= scattered(plan, n) <= n,
        plan.len() > 0 ==> scattered(plan, n) <= clip(end_of(plan.last()), 0, n),
    decreases plan.len(),
{
    if plan.len() > 0 {
        let front = plan.drop_last();
        assert(ascending(front)) by {
            assert forall|i: int| 0 <= i < front.len() implies (#[trigger] front[i]).len > 0 by {
                assert(front[i] == plan[i]);
            }
            assert forall|i: int, j: int| 0 <= i < j < front.len() implies end_of(
                #[trigger] front[i],
            ) <= (#[trigger] front[j]).offset by {
                assert(front[i] == plan[i] && front[j] == plan[j]);
            }
        }
        lemma_scattered_bound(front, n);
        if front.len() > 0 {
            assert(front.last() == plan[plan.len() - 2]);
            assert(end_of(plan[plan.len() - 2]) <= plan[plan.len() - 1].offset);
        }
    }
}

proof fn lemma_scattered_whole(plan: Seq<Placed>, n: int)
    requires
        n <= u64::MAX,
        forall|i: int| 0 <= i < plan.len() ==> end_of(#[trigger] plan[i]) <= n,
    ensures
        scattered(plan, n) == planned(plan),
    decreases plan.len(),
{
    if plan.len() > 0 {
        let front = plan.drop_last();
        assert forall|i: int| 0 <= i < front.len() implies end_of(#[trigger] front[i]) <= n by {
            assert(front[i] == plan[i]);
        }
        lemma_scattered_whole(front, n);
        assert(end_of(plan[plan.len() - 1]) <= n);
    }
}

proof fn lemma_tail_grows(plan: Seq<Placed>, j: int, a: int, b: int)
    requires
        0 <= j <= plan.len(),
        0 <= a <= b,
    ensures
        scattered(plan, a) - scattered(plan.take(j), a) <= scattered(plan, b) - scattered(
            plan.take(j),
            b,
        ),
        (forall|k: int| j <= k < plan.len() ==> (#[trigger] plan[k]).offset >= b) ==> scattered(
            plan,
            b,
        ) == scattered(plan.take(j), b),
    decreases plan.len(),
{
    if j == plan.len() {
        assert(plan.take(j) =~= plan);
    } else {
        let front = plan.drop_last();
        lemma_tail_grows(front, j, a, b);
        assert(front.take(j) =~= plan.take(j));
        if forall|k: int| j <= k < plan.len() ==> (#[trigger] plan[k]).offset >= b {
            assert forall|k: int| j <= k < front.len() implies (#[trigger] front[k]).offset
                >= b by {
                assert(front[k] == plan[k]);
            }
            assert(plan[plan.len() - 1].offset >= b);
        }
    }
}

proof fn lemma_pieces_skip(plan: Seq<Placed>, at: int, n: int, i: int, j: int)
    requires
        0 <= i <= j <= plan.len(),
        n >= 0,
        forall|k: int| i <= k < j ==> held(#[trigger] plan[k], at, n) <= 0 || !in_range(plan[k]),
    ensures
        pieces_from(plan, at, n, i) == pieces_from(plan, at, n, j),
    decreases j - i,
{
    if i < j {
        assert(held(plan[i], at, n) <= 0 || !in_range(plan[i]));
        lemma_pieces_skip(plan, at, n, i + 1, j);
    }
}

/// One forward pass over a layer, scattering its plaintext to the files that it holds.
pub struct Scatter {
    digest: String,
    plan: Vec<Placed>,
    /// The first file that does not end before the cursor.
    next: usize,
    /// How much of the layer has been read.
    cursor: u64,
    /// How much of it belonged to files.
    written: u64,
}

impl Scatter {
    /// The files of the layer.
    pub closed spec fn plan(&self) -> Seq<Placed> {
        self.plan@
    }

    /// The layer's digest.
    pub closed spec fn digest(&self) -> Seq<char> {
        self.digest@
    }

    /// How much of the layer has been read.
    pub closed spec fn cursor(&self) -> int {
        self.cursor as int
    }

    /// What holds of a pass.
    pub closed spec fn wf(&self) -> bool {
        &&& ascending(self.plan@)
        &&& self.next <= self.plan@.len()
        &&& forall|i: int| 0 <= i < self.next ==> end_of(#[trigger] self.plan@[i]) <= self.cursor
        &&& forall|i: int|
            self.next <= i < self.plan@.len() ==> end_of(#[trigger] self.plan@[i]) > self.cursor
        &&& self.written == scattered(self.plan@, self.cursor as int)
    }

    /// A pass over the layer of that digest.
    pub fn new(digest: &str, plan: Vec<Placed>) -> (r: Scatter)
        requires
            ascending(plan@),
        ensures
            r.wf(),
            r.plan() == plan@,
            r.digest() == digest@,
            r.cursor() == 0,
    {
        proof {
            lemma_scattered_bound(plan@, 0);
        }
        Scatter { digest: owned(digest), plan, next: 0, cursor: 0, written: 0 }
    }

    /// Takes the next bytes of the layer, `len` of them, and says what of them goes where.
    pub fn feed(&mut self, len: usize) -> (r: Vec<Piece>)
        requires
            old(self).wf(),
            old(self).cursor() + len <= u64::MAX,
        ensures
            final(self).wf(),
            r@ == pieces_from(old(self).plan(), old(self).cursor(), len as int, 0),
            final(self).plan() == old(self).plan(),
            final(self).digest() == old(self).digest(),
            final(self).cursor() == old(self).cursor() + len,
    {
        let mut out: Vec<Piece> = Vec::new();
        if len == 0 {
            proof {
                let n = self.plan@.len() as int;
                lemma_pieces_skip(self.plan@, self.cursor as int, 0, 0, n);
            }
            return out;
        }
        let at: u64 = self.cursor;
        let stop: u64 = at + len as u64;
        let mut i: usize = self.next;
        let mut total: u64 = self.written;
        let ghost plan = self.plan@;
        let ghost mut j: int = i as int;
        let ghost goal = pieces_from(plan, at as int, len as int, 0);
        proof {
            lemma_pieces_skip(plan, at as int, len as int, 0, i as int);
            assert(out@ + pieces_from(plan, at as int, len as int, i as int) =~= goal);
            lemma_tail_grows(plan, j, at as int, at as int);
            lemma_ended(plan, i as int, at as int, stop as int);
        }
        loop
            invariant_except_break
                j == i,
                forall|k: int| i <= k < plan.len() ==> end_of(#[trigger] plan[k]) > at,
            invariant
                plan == self.plan@,
                ascending(plan),
                i <= plan.len(),
                plan.len() == self.plan.len(),
                stop == at + len,
                len > 0,
                goal == pieces_from(plan, at as int, len as int, 0),
                forall|k: int| 0 <= k < i ==> end_of(#[trigger] plan[k]) <= stop,
                0 <= j <= plan.len(),
                out@ + pieces_from(plan, at as int, len as int, j) == goal,
                total == scattered(plan.take(j), stop as int) + scattered(plan, at as int)
                    - scattered(plan.take(j), at as int),
            ensures
                forall|k: int| i <= k < plan.len() ==> end_of(#[trigger] plan[k]) > stop,
                forall|k: int| j <= k < plan.len() ==> (#[trigger] plan[k]).offset >= stop,
            decreases plan.len() - i,
        {
            if i >= self.plan.len() || self.plan[i].offset >= stop {
                proof {
                    assert forall|k: int| i <= k < plan.len() implies end_of(#[trigger] plan[k])
                        > stop && plan[k].offset >= stop by {
                        if k > i {
                            assert(end_of(plan[i as int]) <= plan[k].offset);
                        }
                        assert(plan[k].len > 0);
                    }
                }
                break;
            }
            let p: Placed = self.plan[i];
            proof {
                assert(plan.take(j + 1).drop_last() =~= plan.take(j));
                assert(plan.take(j + 1).last() == plan[j]);
                assert(p == plan[i as int]);
                lemma_tail_grows(plan, j + 1, at as int, stop as int);
                lemma_scattered_bound(plan, stop as int);
                assert forall|k: int| i < k < plan.len() implies end_of(#[trigger] plan[k])
                    > end_of(p) by {
                    assert(end_of(plan[i as int]) <= plan[k].offset);
                    assert(plan[k].len > 0);
                }
                assert(plan[i as int].len > 0);
            }
            match p.offset.checked_add(p.len) {
                None => {
                    proof {
                        j = j + 1;
                        assert forall|k: int| j <= k < plan.len() implies (
                        #[trigger] plan[k]).offset >= stop by {
                            assert(end_of(plan[i as int]) <= plan[k].offset);
                        }
                    }
                    break;
                },
                Some(end) => {
                    let piece = cut_piece(&p, end, i, at, len);
                    proof {
                        lemma_pieces_step(plan, at as int, len as int, j, out@);
                    }
                    out.push(piece);
                    total = total + (piece.end - piece.start) as u64;
                    proof {
                        j = j + 1;
                    }
                    if end > stop {
                        proof {
                            assert forall|k: int| j <= k < plan.len() implies (
                            #[trigger] plan[k]).offset >= stop by {
                                assert(end_of(plan[i as int]) <= plan[k].offset);
                            }
                        }
                        break;
                    }
                    i += 1;
                },
            }
        }
        proof {
            lemma_pieces_end(plan, at as int, len as int, j);
            assert(out@ + Seq::<Piece>::empty() =~= out@);
            lemma_tail_grows(plan, j, at as int, stop as int);
            lemma_tail_grows(plan, j, at as int, at as int);
        }
        self.next = i;
        self.cursor = stop;
        self.written = total;
        out
    }

    /// The end of the layer: how many bytes went to files, once it is clear that the layer reached
    /// to the end of the last one.
    pub fn finish(self) -> (r: Result<u64, RestoreError>)
        requires
            self.wf(),
        ensures
            match r {
                Ok(written) => written == planned(self.plan()) && (self.plan().len() > 0 ==> end_of(
                    self.plan().last(),
                ) <= self.cursor()),
                Err(e) => self.plan().len() > 0 && if in_range(self.plan().last()) {
                    end_of(self.plan().last()) > self.cursor() && is_layer_short(
                        e,
                        self.digest(),
                        self.cursor(),
                        end_of(self.plan().last()),
                    )
                } else {
                    is_layer_range(e, self.digest(), self.plan().last())
                },
            },
    {
        let ghost plan = self.plan@;
        if self.plan.len() > 0 {
            let last: Placed = self.plan[self.plan.len() - 1];
            match range_end(&last, self.digest.as_str()) {
                Err(e) => {
                    return Err(e);
                },
                Ok(needed) => {
                    if self.cursor < needed {
                        return Err(
                            RestoreError::LayerShort {
                                digest: self.digest,
                                read: self.cursor,
                                needed,
                            },
                        );
                    }
                },
            }
            proof {
                assert forall|i: int| 0 <= i < plan.len() implies end_of(#[trigger] plan[i])
                    <= self.cursor by {
                    if i < plan.len() - 1 {
                        assert(end_of(plan[i]) <= plan[plan.len() - 1].offset);
                    }
                }
            }
        }
        proof {
            lemma_scattered_whole(plan, self.cursor as int);
        }
        Ok(self.written)
    }
}

/// What is to be written of the `len` bytes at position `at` to a file that has some there.
fn cut_piece(p: &Placed, end: u64, file: usize, at: u64, len: usize) -> (r: Piece)
    requires
        end == end_of(*p),
        at + len <= u64::MAX,
        len > 0,
        p.offset < at + len,
        end > at,
        p.len > 0,
    ensures
        r.file == file,
        r.create == (p.offset >= at),
        r.start == clip(p.offset as int, at as int, at + len) - at,
        r.end == clip(end_of(*p), at as int, at + len) - at,
        r.end - r.start == held(*p, at as int, len as int),
        held(*p, at as int, len as int) == held(*p, 0, at + len) - held(*p, 0, at as int),
        held(*p, at as int, len as int) > 0,
{
    let stop: u64 = at + len as u64;
    let start: u64 = if p.offset > at {
        p.offset - at
    } else {
        0
    };
    let last: u64 = if end > stop {
        stop
    } else {
        end
    };
    Piece { file, create: p.offset >= at, start: start as usize, end: (last - at) as usize }
}

proof fn lemma_pieces_step(plan: Seq<Placed>, at: int, n: int, i: int, before: Seq<Piece>)
    requires
        0 <= i < plan.len(),
        in_range(plan[i]),
        held(plan[i], at, n) > 0,
    ensures
        before + pieces_from(plan, at, n, i) == before.push(piece_of(plan, at, n, i))
            + pieces_from(plan, at, n, i + 1),
{
    let rest = pieces_from(plan, at, n, i + 1);
    assert(before + (seq![piece_of(plan, at, n, i)] + rest) =~= before.push(
        piece_of(plan, at, n, i),
    ) + rest);
}

proof fn lemma_ended(plan: Seq<Placed>, i: int, a: int, b: int)
    requires
        0 <= i <= plan.len(),
        0 <= a <= b,
        forall|k: int| 0 <= k < i ==> end_of(#[trigger] plan[k]) <= a,
    ensures
        scattered(plan.take(i), a) == scattered(plan.take(i), b),
    decreases i,
{
    if i > 0 {
        lemma_ended(plan, i - 1, a, b);
        assert(plan.take(i).drop_last() =~= plan.take(i - 1));
        assert(plan.take(i).last() == plan[i - 1]);
    }
}

proof fn lemma_pieces_end(plan: Seq<Placed>, at: int, n: int, j: int)
    requires
        0 <= j <= plan.len(),
        0 <= n,
        forall|k: int| j <= k < plan.len() ==> (#[trigger] plan[k]).offset >= at + n,
    ensures
        pieces_from(plan, at, n, j) == Seq::<Piece>::empty(),
    decreases plan.len() - j,
{
    if j < plan.len() {
        assert(plan[j].offset >= at + n);
        lemma_pieces_end(plan, at, n, j + 1);
    }
}

/// A file is created with the piece that holds its first byte, and with no other.
pub proof fn law_a_file_is_created_with_its_first_byte(
    plan: Seq<Placed>,
    at: int,
    n: int,
    i: int,
)
    requires
        0 <= i < plan.len() <= usize::MAX,
        0 <= n <= usize::MAX,
        held(plan[i], at, n) > 0,
    ensures
        piece_of(plan, at, n, i).create <==> at <= plan[i].offset < at + n,
        piece_of(plan, at, n, i).file == i,
{
}

} // verus!
