//! Layer planning: which changed files travel together, and how the finished index points at
//! them.
//!
//! A large file gets a layer to itself. Everything smaller is concatenated, in path order, into
//! pack layers that are cut once they hold enough. The same files in the same order give the same
//! plaintext, so an unchanged run of a pack deduplicates.

use crate::persist::scatter::{law_a_file_gets_its_range, placed, Placed};
use crate::persist::tree::{may_follow, Entry, EntryRef, Kind, LayerRef, Planned, WalkEntry};
use crate::text::{cat3, cat5, debug_quoted, decimal, decimal_of, less, quoted};
use vstd::hash_map::StringHashMap;
use vstd::multiset::Multiset;
use vstd::prelude::*;

verus! {

/// A changed file at least this large is uploaded as its own layer.
pub const OWN_LAYER_MIN_BYTES: u64 = 0x0040_0000;

/// A pack layer is closed once it holds at least this much plaintext.
pub const PACK_CUT_BYTES: u64 = 0x0400_0000;

/// The most layers that one point may reference.
pub const MAX_LAYERS: usize = 65_536;

/// Errors from planning layers.
#[derive(Debug, PartialEq, Eq)]
pub enum PackError {
    Unplanned(String),
    TooManyLayers(usize, usize),
}

/// The message of a planning error.
pub open spec fn pack_message(e: PackError) -> Seq<char> {
    match e {
        PackError::Unplanned(path) => "changed file "@ + debug_quoted(path@)
            + " was planned into no layer"@,
        PackError::TooManyLayers(count, limit) => "app data index would carry "@ + decimal(
            count as nat,
        ) + " layers, over the "@ + decimal(limit as nat) + " the format allows"@,
    }
}

impl PackError {
    /// The message of the error.
    pub fn message(&self) -> (r: String)
        ensures
            r@ == pack_message(*self),
    {
        match self {
            PackError::Unplanned(path) => cat3(
                "changed file ",
                quoted(path.as_str()).as_str(),
                " was planned into no layer",
            ),
            PackError::TooManyLayers(count, limit) => cat5(
                "app data index would carry ",
                decimal_of(*count as u64).as_str(),
                " layers, over the ",
                decimal_of(*limit as u64).as_str(),
                " the format allows",
            ),
        }
    }
}

/// Whether a layer holds one big file or a run of small ones.
#[derive(Debug, Clone, Copy, PartialEq, Eq, Structural)]
pub enum LayerKind {
    Whole,
    Pack,
}

/// One file's place in a layer's plaintext.
#[derive(Debug, PartialEq, Eq)]
pub struct PlannedFile {
    pub path: String,
    /// Where to read the bytes.
    pub source: String,
    /// Where the file begins in the layer's plaintext.
    pub offset: u64,
    pub len: u64,
}

impl Clone for PlannedFile {
    fn clone(&self) -> (r: PlannedFile)
        ensures
            r == *self,
    {
        PlannedFile {
            path: self.path.clone(),
            source: self.source.clone(),
            offset: self.offset,
            len: self.len,
        }
    }
}

/// One layer to build and upload.
#[derive(Debug, PartialEq, Eq)]
pub struct LayerPlan {
    pub kind: LayerKind,
    pub files: Vec<PlannedFile>,
    /// The plaintext that the layer will carry.
    pub bytes: u64,
}

impl Clone for LayerPlan {
    fn clone(&self) -> (r: LayerPlan)
        ensures
            r.kind == self.kind,
            r.files@ == self.files@,
            r.bytes == self.bytes,
    {
        let mut files: Vec<PlannedFile> = Vec::new();
        for i in 0..self.files.len()
            invariant
                files@ == self.files@.take(i as int),
        {
            files.push(self.files[i].clone());
        }
        assert(self.files@.take(self.files@.len() as int) =~= self.files@);
        LayerPlan { kind: self.kind, files, bytes: self.bytes }
    }
}

/// A layer plan and the layer that it turned into once uploaded.
#[derive(Debug, PartialEq, Eq)]
pub struct BuiltLayer {
    pub plan: LayerPlan,
    pub layer: LayerRef,
}

// ---------------------------------------------------------------------------
// Planning
// ---------------------------------------------------------------------------

/// A planned file, by the views of its texts.
pub struct FileView {
    pub path: Seq<char>,
    pub source: Seq<char>,
    pub offset: int,
    pub len: int,
}

/// A layer plan, by the views of its files.
pub struct LayerView {
    pub kind: LayerKind,
    pub files: Seq<FileView>,
    pub bytes: int,
}

impl View for PlannedFile {
    type V = FileView;

    open spec fn view(&self) -> FileView {
        FileView {
            path: self.path@,
            source: self.source@,
            offset: self.offset as int,
            len: self.len as int,
        }
    }
}

/// The views of a list of files.
pub open spec fn file_views(files: Seq<PlannedFile>) -> Seq<FileView> {
    Seq::new(files.len(), |i: int| files[i]@)
}

impl View for LayerPlan {
    type V = LayerView;

    open spec fn view(&self) -> LayerView {
        LayerView { kind: self.kind, files: file_views(self.files@), bytes: self.bytes as int }
    }
}

/// The views of a list of plans.
pub open spec fn layer_views(layers: Seq<LayerPlan>) -> Seq<LayerView> {
    Seq::new(layers.len(), |i: int| layers[i]@)
}

/// Whether an item is a file whose bytes have to be uploaded.
pub open spec fn changed(item: Planned) -> bool {
    item.entry.kind == Kind::File && item.carried is None
}

/// Layer planning under way: the layers closed so far, and the pack that is open.
pub struct PlanState {
    pub layers: Seq<LayerView>,
    pub pack: Seq<FileView>,
    pub bytes: int,
}

/// A file of an item, at an offset.
pub open spec fn file_of(item: Planned, offset: int) -> FileView {
    FileView {
        path: item.entry.path@,
        source: item.entry.source@,
        offset,
        len: item.entry.size as int,
    }
}

/// What planning one more item does: a big file becomes a layer without disturbing the open pack;
/// a small one joins the pack, which is closed once it holds enough.
pub open spec fn plan_item(state: PlanState, item: Planned) -> PlanState {
    let len = item.entry.size as int;
    if !changed(item) {
        state
    } else if len >= OWN_LAYER_MIN_BYTES {
        PlanState {
            layers: state.layers.push(
                LayerView { kind: LayerKind::Whole, files: seq![file_of(item, 0)], bytes: len },
            ),
            ..state
        }
    } else {
        let pack = state.pack.push(file_of(item, state.bytes));
        let bytes = state.bytes + len;
        if bytes >= PACK_CUT_BYTES {
            PlanState {
                layers: state.layers.push(
                    LayerView { kind: LayerKind::Pack, files: pack, bytes },
                ),
                pack: Seq::empty(),
                bytes: 0,
            }
        } else {
            PlanState { layers: state.layers, pack, bytes }
        }
    }
}

/// Where planning some items leads.
pub open spec fn plan_state(planned: Seq<Planned>) -> PlanState
    decreases planned.len(),
{
    if planned.len() == 0 {
        PlanState { layers: Seq::empty(), pack: Seq::empty(), bytes: 0 }
    } else {
        plan_item(plan_state(planned.drop_last()), planned.last())
    }
}

/// The layers of some items: those closed while planning them, then what is left in the pack.
pub open spec fn plan_of(planned: Seq<Planned>) -> Seq<LayerView> {
    let state = plan_state(planned);
    if state.pack.len() == 0 {
        state.layers
    } else {
        state.layers.push(
            LayerView { kind: LayerKind::Pack, files: state.pack, bytes: state.bytes },
        )
    }
}

/// Groups the changed files into layers, in path order. Only regular files that were not carried
/// forward are planned.
pub fn plan_layers(planned: &Vec<Planned>) -> (r: Vec<LayerPlan>)
    ensures
        layer_views(r@) == plan_of(planned@),
{
    let mut layers: Vec<LayerPlan> = Vec::new();
    let mut pack: Vec<PlannedFile> = Vec::new();
    let mut pack_bytes: u64 = 0;
    assert(layer_views(layers@) =~= Seq::<LayerView>::empty());
    assert(file_views(pack@) =~= Seq::<FileView>::empty());
    for i in 0..planned.len()
        invariant
            pack_bytes < PACK_CUT_BYTES,
            plan_state(planned@.take(i as int)) == (PlanState {
                layers: layer_views(layers@),
                pack: file_views(pack@),
                bytes: pack_bytes as int,
            }),
    {
        let item = &planned[i];
        let ghost state = plan_state(planned@.take(i as int));
        proof {
            assert(planned@.take(i + 1).drop_last() =~= planned@.take(i as int));
            assert(planned@.take(i + 1).last() == planned@[i as int]);
        }
        if item.entry.kind == Kind::File && item.carried.is_none() {
            let len: u64 = item.entry.size;
            let ghost layers_before = layers@;
            let ghost pack_before = pack@;
            if len >= OWN_LAYER_MIN_BYTES {
                let mut files: Vec<PlannedFile> = Vec::new();
                files.push(
                    PlannedFile {
                        path: item.entry.path.clone(),
                        source: item.entry.source.clone(),
                        offset: 0,
                        len,
                    },
                );
                assert(file_views(files@) =~= seq![file_of(*item, 0)]);
                layers.push(LayerPlan { kind: LayerKind::Whole, files, bytes: len });
                assert(layer_views(layers@) =~= layer_views(layers_before).push(
                    LayerView {
                        kind: LayerKind::Whole,
                        files: seq![file_of(*item, 0)],
                        bytes: len as int,
                    },
                ));
            } else {
                pack.push(
                    PlannedFile {
                        path: item.entry.path.clone(),
                        source: item.entry.source.clone(),
                        offset: pack_bytes,
                        len,
                    },
                );
                assert(file_views(pack@) =~= file_views(pack_before).push(
                    file_of(*item, pack_bytes as int),
                ));
                pack_bytes = pack_bytes + len;
                if pack_bytes >= PACK_CUT_BYTES {
                    let ghost full = file_views(pack@);
                    layers.push(
                        LayerPlan { kind: LayerKind::Pack, files: pack, bytes: pack_bytes },
                    );
                    assert(layer_views(layers@) =~= layer_views(layers_before).push(
                        LayerView {
                            kind: LayerKind::Pack,
                            files: full,
                            bytes: pack_bytes as int,
                        },
                    ));
                    pack = Vec::new();
                    assert(file_views(pack@) =~= Seq::<FileView>::empty());
                    pack_bytes = 0;
                }
            }
        }
    }
    assert(planned@.take(planned@.len() as int) =~= planned@);
    if pack.len() > 0 {
        let ghost before = layers@;
        let ghost rest = file_views(pack@);
        layers.push(LayerPlan { kind: LayerKind::Pack, files: pack, bytes: pack_bytes });
        assert(layer_views(layers@) =~= layer_views(before).push(
            LayerView { kind: LayerKind::Pack, files: rest, bytes: pack_bytes as int },
        ));
    }
    layers
}

/// The sum of the plaintext of some layers.
pub open spec fn total_bytes(layers: Seq<LayerPlan>) -> nat
    decreases layers.len(),
{
    if layers.len() == 0 {
        0
    } else {
        total_bytes(layers.drop_last()) + layers.last().bytes as nat
    }
}

proof fn lemma_total_bytes(layers: Seq<LayerPlan>, i: int)
    requires
        0 <= i <= layers.len(),
    ensures
        total_bytes(layers.take(i)) <= total_bytes(layers),
    decreases layers.len() - i,
{
    if i < layers.len() {
        lemma_total_bytes(layers, i + 1);
        assert(layers.take(i + 1).drop_last() =~= layers.take(i));
    } else {
        assert(layers.take(i) =~= layers);
    }
}

/// The plaintext that the planned layers will carry.
pub fn planned_bytes(layers: &Vec<LayerPlan>) -> (r: u64)
    requires
        total_bytes(layers@) <= u64::MAX,
    ensures
        r == total_bytes(layers@),
{
    let mut sum: u64 = 0;
    for i in 0..layers.len()
        invariant
            total_bytes(layers@) <= u64::MAX,
            sum == total_bytes(layers@.take(i as int)),
    {
        proof {
            assert(layers@.take(i + 1).drop_last() =~= layers@.take(i as int));
            lemma_total_bytes(layers@, i + 1);
        }
        sum = sum + layers[i].bytes;
    }
    assert(layers@.take(layers@.len() as int) =~= layers@);
    sum
}

/// Whether the files of a layer lie one behind the other and make up its plaintext.
pub open spec fn tiles(files: Seq<FileView>, bytes: int) -> bool {
    &&& files.len() > 0 ==> files[0].offset == 0
    &&& forall|k: int|
        0 <= k < files.len() - 1 ==> (#[trigger] files[k]).offset + files[k].len == files[k
            + 1].offset
    &&& files.len() > 0 ==> files.last().offset + files.last().len == bytes
    &&& files.len() == 0 ==> bytes == 0
}

/// Whether a layer is one that planning makes: a big file alone, or a run of small files that is
/// short of the cut without its last one.
pub open spec fn well_cut(layer: LayerView) -> bool {
    &&& layer.files.len() > 0
    &&& tiles(layer.files, layer.bytes)
    &&& match layer.kind {
        LayerKind::Whole => layer.files.len() == 1 && layer.bytes >= OWN_LAYER_MIN_BYTES,
        LayerKind::Pack => {
            &&& forall|k: int|
                0 <= k < layer.files.len() ==> (#[trigger] layer.files[k]).len
                    < OWN_LAYER_MIN_BYTES
            &&& layer.files.last().offset < PACK_CUT_BYTES
        },
    }
}

proof fn lemma_plan_state(planned: Seq<Planned>)
    ensures
        ({
            let s = plan_state(planned);
            &&& forall|k: int|
                0 <= k < s.layers.len() ==> well_cut(#[trigger] s.layers[k]) && (s.layers[k].kind
                    == LayerKind::Pack ==> s.layers[k].bytes >= PACK_CUT_BYTES)
            &&& tiles(s.pack, s.bytes)
            &&& 0 <= s.bytes < PACK_CUT_BYTES
            &&& forall|k: int|
                0 <= k < s.pack.len() ==> 0 <= (#[trigger] s.pack[k]).len < OWN_LAYER_MIN_BYTES
            &&& s.pack.len() > 0 ==> s.pack.last().offset <= s.bytes
        }),
    decreases planned.len(),
{
    if planned.len() > 0 {
        lemma_plan_state(planned.drop_last());
        let before = plan_state(planned.drop_last());
        let item = planned.last();
        let after = plan_state(planned);
        if changed(item) && item.entry.size < OWN_LAYER_MIN_BYTES {
            let pack = before.pack.push(file_of(item, before.bytes));
            assert(tiles(pack, before.bytes + item.entry.size)) by {
                assert forall|k: int| 0 <= k < pack.len() - 1 implies (#[trigger] pack[k]).offset
                    + pack[k].len == pack[k + 1].offset by {
                    if k < before.pack.len() - 1 {
                        assert(pack[k] == before.pack[k]);
                        assert(pack[k + 1] == before.pack[k + 1]);
                    } else {
                        assert(pack[k] == before.pack.last());
                    }
                }
                if before.pack.len() > 0 {
                    assert(pack[0] == before.pack[0]);
                }
            }
        }
        assert forall|k: int| 0 <= k < after.layers.len() implies well_cut(
            #[trigger] after.layers[k],
        ) && (after.layers[k].kind == LayerKind::Pack ==> after.layers[k].bytes
            >= PACK_CUT_BYTES) by {
            if k < before.layers.len() {
                assert(after.layers[k] == before.layers[k]);
            }
        }
    }
}

/// Every planned layer is well cut: its files tile its plaintext, a big file stands alone, and a
/// pack is closed by the file that carries it over the cut. Only the last layer may be a pack that
/// is short of the cut.
pub proof fn law_layers_are_well_cut(planned: Seq<Planned>)
    ensures
        forall|k: int| 0 <= k < plan_of(planned).len() ==> well_cut(#[trigger] plan_of(planned)[k]),
        forall|k: int|
            0 <= k < plan_of(planned).len() - 1 && (#[trigger] plan_of(planned)[k]).kind
                == LayerKind::Pack ==> plan_of(planned)[k].bytes >= PACK_CUT_BYTES,
{
    lemma_plan_state(planned);
}

/// The sizes of the changed files among some items, added up.
pub open spec fn changed_bytes(planned: Seq<Planned>) -> nat
    decreases planned.len(),
{
    if planned.len() == 0 {
        0
    } else {
        changed_bytes(planned.drop_last()) + (if changed(planned.last()) {
            planned.last().entry.size as nat
        } else {
            0
        })
    }
}

/// The sum of the plaintext of some layers.
spec fn layer_bytes(layers: Seq<LayerView>) -> int
    decreases layers.len(),
{
    if layers.len() == 0 {
        0
    } else {
        layer_bytes(layers.drop_last()) + layers.last().bytes
    }
}

proof fn lemma_plan_bytes(planned: Seq<Planned>)
    ensures
        layer_bytes(plan_state(planned).layers) + plan_state(planned).bytes == changed_bytes(
            planned,
        ),
    decreases planned.len(),
{
    if planned.len() > 0 {
        lemma_plan_bytes(planned.drop_last());
        let before = plan_state(planned.drop_last()).layers;
        let after = plan_state(planned).layers;
        if after.len() > before.len() {
            assert(after.drop_last() =~= before);
        }
    }
}

proof fn lemma_layer_bytes(layers: Seq<LayerPlan>)
    ensures
        layer_bytes(layer_views(layers)) == total_bytes(layers),
    decreases layers.len(),
{
    if layers.len() > 0 {
        lemma_layer_bytes(layers.drop_last());
        assert(layer_views(layers).drop_last() =~= layer_views(layers.drop_last()));
    }
}

/// The layers that are planned carry the bytes of the changed files, and no others.
pub proof fn law_planned_bytes_are_the_changed_bytes(
    planned: Seq<Planned>,
    layers: Seq<LayerPlan>,
)
    requires
        layer_views(layers) == plan_of(planned),
    ensures
        total_bytes(layers) == changed_bytes(planned),
{
    lemma_plan_bytes(planned);
    lemma_layer_bytes(layers);
    lemma_plan_state(planned);
    let state = plan_state(planned);
    if state.pack.len() > 0 {
        assert(plan_of(planned).drop_last() =~= state.layers);
    }
}

/// Contents one behind the other: the plaintext of a layer.
pub open spec fn plaintext_of(contents: Seq<Seq<u8>>) -> Seq<u8>
    decreases contents.len(),
{
    if contents.len() == 0 {
        Seq::empty()
    } else {
        plaintext_of(contents.drop_last()) + contents.last()
    }
}

proof fn lemma_plaintext(files: Seq<FileView>, bytes: int, contents: Seq<Seq<u8>>, n: int)
    requires
        tiles(files, bytes),
        contents.len() == files.len(),
        forall|k: int| 0 <= k < files.len() ==> (#[trigger] contents[k]).len() == files[k].len,
        0 <= n <= files.len(),
    ensures
        n < files.len() ==> plaintext_of(contents.take(n)).len() == files[n].offset,
        n == files.len() ==> plaintext_of(contents.take(n)).len() == bytes,
        forall|i: int|
            0 <= i < n ==> 0 <= (#[trigger] files[i]).offset && files[i].offset + files[i].len
                <= plaintext_of(contents.take(n)).len() && plaintext_of(contents.take(n)).subrange(
                files[i].offset,
                files[i].offset + files[i].len,
            ) == contents[i],
    decreases n,
{
    if n > 0 {
        lemma_plaintext(files, bytes, contents, n - 1);
        let before = plaintext_of(contents.take(n - 1));
        let after = plaintext_of(contents.take(n));
        assert(contents.take(n).drop_last() =~= contents.take(n - 1));
        assert(contents.take(n).last() == contents[n - 1]);
        assert(after == before + contents[n - 1]);
        assert(files[n - 1].offset == before.len());
        assert(contents[n - 1].len() == files[n - 1].len);
        if n < files.len() {
            assert(files[n - 1].offset + files[n - 1].len == files[n - 1 + 1].offset);
        }
        assert forall|i: int| 0 <= i < n implies 0 <= (#[trigger] files[i]).offset
            && files[i].offset + files[i].len <= after.len() && after.subrange(
            files[i].offset,
            files[i].offset + files[i].len,
        ) == contents[i] by {
            if i < n - 1 {
                assert(after.subrange(files[i].offset, files[i].offset + files[i].len)
                    =~= before.subrange(files[i].offset, files[i].offset + files[i].len));
            } else {
                assert(after.subrange(files[i].offset, files[i].offset + files[i].len)
                    =~= contents[i]);
            }
        }
    } else {
        assert(contents.take(0) =~= Seq::<Seq<u8>>::empty());
    }
}

/// What was put into a layer is taken out of it: where the plaintext of a layer is the contents
/// of its files one behind the other, reading each file's range gives its contents back.
pub proof fn law_a_packed_file_is_read_back(layer: LayerView, contents: Seq<Seq<u8>>, i: int)
    requires
        well_cut(layer),
        contents.len() == layer.files.len(),
        forall|k: int|
            0 <= k < layer.files.len() ==> (#[trigger] contents[k]).len() == layer.files[k].len,
        0 <= i < layer.files.len(),
        layer.bytes <= u64::MAX,
    ensures
        plaintext_of(contents).len() == layer.bytes,
        placed(
            Placed { offset: layer.files[i].offset as u64, len: layer.files[i].len as u64 },
            0,
            plaintext_of(contents),
        ) == contents[i],
{
    lemma_plaintext(layer.files, layer.bytes, contents, contents.len() as int);
    assert(contents.take(contents.len() as int) =~= contents);
    assert(contents[i].len() == layer.files[i].len);
    law_a_file_gets_its_range(
        Placed { offset: layer.files[i].offset as u64, len: layer.files[i].len as u64 },
        plaintext_of(contents),
    );
}

/// The paths of the files of some layers.
pub open spec fn layer_paths(layers: Seq<LayerView>) -> Multiset<Seq<char>>
    decreases layers.len(),
{
    if layers.len() == 0 {
        Multiset::empty()
    } else {
        layer_paths(layers.drop_last()).add(file_paths(layers.last().files))
    }
}

/// The paths of some files.
pub open spec fn file_paths(files: Seq<FileView>) -> Multiset<Seq<char>>
    decreases files.len(),
{
    if files.len() == 0 {
        Multiset::empty()
    } else {
        file_paths(files.drop_last()).insert(files.last().path)
    }
}

/// The paths of the changed files among some items.
pub open spec fn changed_paths(planned: Seq<Planned>) -> Multiset<Seq<char>>
    decreases planned.len(),
{
    if planned.len() == 0 {
        Multiset::empty()
    } else if changed(planned.last()) {
        changed_paths(planned.drop_last()).insert(planned.last().entry.path@)
    } else {
        changed_paths(planned.drop_last())
    }
}

proof fn lemma_layer_paths_push(layers: Seq<LayerView>, layer: LayerView)
    ensures
        layer_paths(layers.push(layer)) == layer_paths(layers).add(file_paths(layer.files)),
{
    assert(layers.push(layer).drop_last() =~= layers);
}

proof fn lemma_file_paths_push(files: Seq<FileView>, file: FileView)
    ensures
        file_paths(files.push(file)) == file_paths(files).insert(file.path),
{
    assert(files.push(file).drop_last() =~= files);
}

proof fn lemma_plan_paths(planned: Seq<Planned>)
    ensures
        layer_paths(plan_state(planned).layers).add(file_paths(plan_state(planned).pack))
            =~= changed_paths(planned),
    decreases planned.len(),
{
    if planned.len() > 0 {
        lemma_plan_paths(planned.drop_last());
        let before = plan_state(planned.drop_last());
        let item = planned.last();
        if changed(item) {
            if item.entry.size >= OWN_LAYER_MIN_BYTES {
                let file = file_of(item, 0);
                let layer = LayerView {
                    kind: LayerKind::Whole,
                    files: seq![file],
                    bytes: item.entry.size as int,
                };
                lemma_layer_paths_push(before.layers, layer);
                assert(Seq::<FileView>::empty().push(file) =~= seq![file]);
                lemma_file_paths_push(Seq::empty(), file);
            } else {
                let file = file_of(item, before.bytes);
                lemma_file_paths_push(before.pack, file);
                let bytes = before.bytes + item.entry.size;
                lemma_layer_paths_push(
                    before.layers,
                    LayerView { kind: LayerKind::Pack, files: before.pack.push(file), bytes },
                );
            }
        }
    }
}

/// Every changed file is planned into exactly one place, and nothing else is planned.
pub proof fn law_every_changed_file_is_planned_once(planned: Seq<Planned>)
    ensures
        layer_paths(plan_of(planned)) == changed_paths(planned),
{
    lemma_plan_paths(planned);
    let state = plan_state(planned);
    if state.pack.len() > 0 {
        lemma_layer_paths_push(
            state.layers,
            LayerView { kind: LayerKind::Pack, files: state.pack, bytes: state.bytes },
        );
    }
    assert(layer_paths(plan_of(planned)) =~= changed_paths(planned));
}

// ---------------------------------------------------------------------------
// References
// ---------------------------------------------------------------------------

/// Where the bytes of a file are: the number of the built layer, the offset and the length.
pub struct Place {
    pub layer: int,
    pub offset: u64,
    pub len: u64,
}

/// The places of the files of one layer, on top of those already known: a later file of a path
/// takes the place of an earlier one.
pub open spec fn place_files(
    known: Map<Seq<char>, Place>,
    files: Seq<PlannedFile>,
    layer: int,
) -> Map<Seq<char>, Place>
    decreases files.len(),
{
    if files.len() == 0 {
        known
    } else {
        place_files(known, files.drop_last(), layer).insert(
            files.last().path@,
            Place { layer, offset: files.last().offset, len: files.last().len },
        )
    }
}

/// The places of the files of the first `n` layers.
pub open spec fn places(built: Seq<BuiltLayer>, n: int) -> Map<Seq<char>, Place>
    decreases n,
{
    if n <= 0 {
        Map::empty()
    } else {
        place_files(places(built, n - 1), built[n - 1].plan.files@, n - 1)
    }
}

/// Where the bytes of a file item are: the layer, the offset and the length. A carried file keeps
/// its place in an earlier layer; a changed one is where it was built into.
pub open spec fn source_of(item: Planned, built: Seq<BuiltLayer>) -> Option<(LayerRef, u64, u64)> {
    match item.carried {
        Some(carried) => Some((carried.layer, carried.offset, carried.len)),
        None => if places(built, built.len() as int).contains_key(item.entry.path@) {
            let place = places(built, built.len() as int)[item.entry.path@];
            Some((built[place.layer].layer, place.offset, place.len))
        } else {
            None
        },
    }
}

/// The first layer with a digest, or the count.
pub open spec fn digest_index(layers: Seq<LayerRef>, digest: Seq<char>, i: int) -> int
    decreases layers.len() - i,
{
    if 0 <= i < layers.len() && layers[i].digest@ != digest {
        digest_index(layers, digest, i + 1)
    } else {
        i
    }
}

/// Why references cannot be assigned.
pub enum RefFault {
    Unplanned(Seq<char>),
    TooManyLayers(nat),
}

/// References under way: the layers of the header so far, and the references of the entries.
pub struct RefState {
    pub layers: Seq<LayerRef>,
    pub refs: Seq<Option<EntryRef>>,
}

/// What assigning one more reference does: a layer that the header lists already is pointed at,
/// another is listed behind the rest.
pub open spec fn assign_item(state: RefState, item: Planned, built: Seq<BuiltLayer>) -> Result<
    RefState,
    RefFault,
> {
    if item.entry.kind != Kind::File {
        Ok(RefState { layers: state.layers, refs: state.refs.push(None) })
    } else {
        match source_of(item, built) {
            None => Err(RefFault::Unplanned(item.entry.path@)),
            Some((layer, offset, len)) => {
                let index = digest_index(state.layers, layer.digest@, 0);
                let reference = EntryRef { l: index as u32, o: offset, n: len };
                if index < state.layers.len() {
                    Ok(RefState { layers: state.layers, refs: state.refs.push(Some(reference)) })
                } else if state.layers.len() >= MAX_LAYERS {
                    Err(RefFault::TooManyLayers(state.layers.len() + 1))
                } else {
                    Ok(
                        RefState {
                            layers: state.layers.push(layer),
                            refs: state.refs.push(Some(reference)),
                        },
                    )
                }
            },
        }
    }
}

/// Where assigning the references of some items leads.
pub open spec fn assign_state(planned: Seq<Planned>, built: Seq<BuiltLayer>) -> Result<
    RefState,
    RefFault,
>
    decreases planned.len(),
{
    if planned.len() == 0 {
        Ok(RefState { layers: Seq::empty(), refs: Seq::empty() })
    } else {
        match assign_state(planned.drop_last(), built) {
            Err(fault) => Err(fault),
            Ok(state) => assign_item(state, planned.last(), built),
        }
    }
}

/// Whether an entry says of a walk entry what it found.
pub open spec fn indexes(e: Entry, w: WalkEntry) -> bool {
    &&& e.p@ == w.path@
    &&& e.k == w.kind
    &&& e.s == w.size
    &&& e.m == w.mtime_ns
    &&& e.c == w.ctime_ns
    &&& e.mode == w.mode
    &&& e.t == w.target
}

proof fn lemma_digest_index(layers: Seq<LayerRef>, digest: Seq<char>, i: int)
    requires
        0 <= i <= layers.len(),
    ensures
        i <= digest_index(layers, digest, i) <= layers.len(),
        digest_index(layers, digest, i) < layers.len() ==> layers[digest_index(
            layers,
            digest,
            i,
        )].digest@ == digest,
        forall|k: int|
            i <= k < digest_index(layers, digest, i) ==> #[trigger] layers[k].digest@ != digest,
    decreases layers.len() - i,
{
    if i < layers.len() && layers[i].digest@ != digest {
        lemma_digest_index(layers, digest, i + 1);
    }
}

/// Once one prefix of the items fails, all of them do.
proof fn lemma_assign_fails(planned: Seq<Planned>, built: Seq<BuiltLayer>, i: int)
    requires
        0 <= i <= planned.len(),
        assign_state(planned.take(i), built) is Err,
    ensures
        assign_state(planned, built) == assign_state(planned.take(i), built),
    decreases planned.len() - i,
{
    if i < planned.len() {
        assert(planned.take(i + 1).drop_last() =~= planned.take(i));
        lemma_assign_fails(planned, built, i + 1);
    } else {
        assert(planned.take(i) =~= planned);
    }
}

/// Turns the plan and the uploaded layers into the header's list of layers and the entries of the
/// index. The header lists layers in the order in which the entries first reference them, each
/// digest once.
pub fn assign_refs(planned: &Vec<Planned>, built: &Vec<BuiltLayer>) -> (r: Result<
    (Vec<LayerRef>, Vec<Entry>),
    PackError,
>)
    ensures
        match r {
            Ok((layers, entries)) => {
                &&& assign_state(planned@, built@) matches Ok(state) && layers@ == state.layers
                    && entries@.len() == planned@.len() == state.refs.len() && forall|i: int|
                    0 <= i < planned@.len() ==> indexes(
                        #[trigger] entries@[i],
                        planned@[i].entry,
                    ) && entries@[i].r == state.refs[i]
            },
            Err(PackError::Unplanned(path)) => assign_state(planned@, built@) == Err::<
                RefState,
                RefFault,
            >(RefFault::Unplanned(path@)),
            Err(PackError::TooManyLayers(count, limit)) => limit == MAX_LAYERS && assign_state(
                planned@,
                built@,
            ) == Err::<RefState, RefFault>(RefFault::TooManyLayers(count as nat)),
        },
{
    let mut placement: StringHashMap<(usize, u64, u64)> = StringHashMap::new();
    for i in 0..built.len()
        invariant
            placed_as(placement@, places(built@, i as int)),
            forall|p: Seq<char>| #[trigger]
                placement@.contains_key(p) ==> placement@[p].0 < i,
    {
        let files = &built[i].plan.files;
        let ghost known = places(built@, i as int);
        assert(files@.take(0) =~= Seq::<PlannedFile>::empty());
        for j in 0..files.len()
            invariant
                i < built@.len(),
                files@ == built@[i as int].plan.files@,
                known == places(built@, i as int),
                placed_as(placement@, place_files(known, files@.take(j as int), i as int)),
                forall|p: Seq<char>| #[trigger]
                    placement@.contains_key(p) ==> placement@[p].0 <= i,
        {
            proof {
                assert(files@.take(j + 1).drop_last() =~= files@.take(j as int));
            }
            placement.insert(files[j].path.clone(), (i, files[j].offset, files[j].len));
        }
        assert(files@.take(files@.len() as int) =~= files@);
    }
    let mut layers: Vec<LayerRef> = Vec::new();
    let mut indices: StringHashMap<u32> = StringHashMap::new();
    let mut entries: Vec<Entry> = Vec::new();
    for i in 0..planned.len()
        invariant
            placed_as(placement@, places(built@, built@.len() as int)),
            forall|p: Seq<char>| #[trigger]
                placement@.contains_key(p) ==> placement@[p].0 < built@.len(),
            assign_state(planned@.take(i as int), built@) matches Ok(state) && layers@
                == state.layers && state.refs.len() == i && entries@.len() == i && forall|k: int|
                0 <= k < i ==> indexes(#[trigger] entries@[k], planned@[k].entry) && entries@[k].r
                    == state.refs[k],
            layers@.len() <= MAX_LAYERS,
            forall|k: int| 0 <= k < layers@.len() ==> indices@.contains_key(
                (#[trigger] layers@[k]).digest@,
            ),
            forall|d: Seq<char>| #[trigger]
                indices@.contains_key(d) ==> indices@[d] < layers@.len()
                    && layers@[indices@[d] as int].digest@ == d && digest_index(layers@, d, 0)
                    == indices@[d],
    {
        let item = &planned[i];
        let ghost state = assign_state(planned@.take(i as int), built@)->Ok_0;
        proof {
            assert(planned@.take(i + 1).drop_last() =~= planned@.take(i as int));
            assert(planned@.take(i + 1).last() == *item);
        }
        let mut reference: Option<EntryRef> = None;
        if item.entry.kind == Kind::File {
            let (layer, offset, len) = match &item.carried {
                Some(carried) => (&carried.layer, carried.offset, carried.len),
                None => match placement.get(item.entry.path.as_str()) {
                    Some(place) => (&built[place.0].layer, place.1, place.2),
                    None => {
                        proof {
                            lemma_assign_fails(planned@, built@, i + 1);
                        }
                        return Err(PackError::Unplanned(item.entry.path.clone()));
                    },
                },
            };
            assert(source_of(*item, built@) == Some((*layer, offset, len)));
            proof {
                lemma_digest_index(layers@, layer.digest@, 0);
            }
            let index: u32 = match indices.get(layer.digest.as_str()) {
                Some(index) => *index,
                None => {
                    if layers.len() >= MAX_LAYERS {
                        proof {
                            lemma_assign_fails(planned@, built@, i + 1);
                        }
                        return Err(PackError::TooManyLayers(layers.len() + 1, MAX_LAYERS));
                    }
                    let index: u32 = layers.len() as u32;
                    let ghost before = layers@;
                    let ghost known = indices@;
                    layers.push(layer.clone());
                    indices.insert(layer.digest.clone(), index);
                    proof {
                        assert forall|d: Seq<char>| #[trigger] indices@.contains_key(d) implies indices@[d]
                            < layers@.len() && layers@[indices@[d] as int].digest@ == d
                            && digest_index(layers@, d, 0) == indices@[d] by {
                            if d != layer.digest@ {
                                assert(known.contains_key(d));
                            }
                            lemma_digest_index(before, d, 0);
                            lemma_digest_index(layers@, d, 0);
                            lemma_digest_extends(before, *layer, d, 0);
                        }
                    }
                    index
                },
            };
            reference = Some(EntryRef { l: index, o: offset, n: len });
        }
        entries.push(
            Entry {
                p: item.entry.path.clone(),
                k: item.entry.kind,
                s: item.entry.size,
                m: item.entry.mtime_ns,
                c: item.entry.ctime_ns,
                mode: item.entry.mode,
                t: item.entry.target.clone(),
                r: reference,
            },
        );
        proof {
            let after = assign_state(planned@.take(i + 1), built@)->Ok_0;
            assert(after.refs == state.refs.push(reference));
            assert forall|k: int| 0 <= k < i + 1 implies indexes(
                #[trigger] entries@[k],
                planned@[k].entry,
            ) && entries@[k].r == after.refs[k] by {
                if k < i {
                    assert(after.refs[k] == state.refs[k]);
                }
            }
        }
    }
    assert(planned@.take(planned@.len() as int) =~= planned@);
    Ok((layers, entries))
}

/// Whether a table holds the places of a map.
pub open spec fn placed_as(
    table: Map<Seq<char>, (usize, u64, u64)>,
    map: Map<Seq<char>, Place>,
) -> bool {
    &&& forall|p: Seq<char>| #[trigger] table.contains_key(p) <==> map.contains_key(p)
    &&& forall|p: Seq<char>| #[trigger]
        table.contains_key(p) ==> map[p] == (Place {
            layer: table[p].0 as int,
            offset: table[p].1,
            len: table[p].2,
        })
}

/// Listing one more layer leaves the numbers of the digests that were listed.
proof fn lemma_digest_extends(layers: Seq<LayerRef>, layer: LayerRef, digest: Seq<char>, i: int)
    requires
        0 <= i <= layers.len(),
    ensures
        digest_index(layers, digest, i) < layers.len() ==> digest_index(
            layers.push(layer),
            digest,
            i,
        ) == digest_index(layers, digest, i),
        digest_index(layers, digest, i) == layers.len() && layer.digest@ == digest
            ==> digest_index(layers.push(layer), digest, i) == layers.len(),
    decreases layers.len() - i,
{
    if i < layers.len() {
        assert(layers.push(layer)[i] == layers[i]);
        if layers[i].digest@ != digest {
            lemma_digest_extends(layers, layer, digest, i + 1);
        }
    }
}

/// Whether the digests of some layers are all different.
pub open spec fn distinct_digests(layers: Seq<LayerRef>) -> bool {
    forall|i: int, j: int|
        0 <= i < j < layers.len() ==> #[trigger] layers[i].digest@ != #[trigger] layers[j].digest@
}

/// What holds of references under way.
pub open spec fn refs_sound(state: RefState, planned: Seq<Planned>) -> bool {
    &&& state.layers.len() <= MAX_LAYERS
    &&& state.refs.len() == planned.len()
    &&& distinct_digests(state.layers)
    &&& forall|i: int|
        0 <= i < planned.len() ==> ((#[trigger] state.refs[i]) is Some <==> planned[i].entry.kind
            == Kind::File)
    &&& forall|i: int|
        0 <= i < planned.len() ==> ((#[trigger] state.refs[i]) matches Some(r) ==> r.l
            < state.layers.len())
    &&& forall|k: int| 0 <= k < state.layers.len() ==> #[trigger] referenced(state, k)
    &&& forall|i: int, k: int|
        0 <= i < state.refs.len() && 0 <= k < ref_layer(state, i) ==> #[trigger] referenced_before(
            state,
            k,
            i,
        )
}

/// Whether some entry before entry `i` references a layer.
pub open spec fn referenced_before(state: RefState, k: int, i: int) -> bool {
    exists|h: int| 0 <= h < i && #[trigger] ref_layer(state, h) == k
}

/// Whether some entry references a layer.
pub open spec fn referenced(state: RefState, k: int) -> bool {
    exists|i: int| 0 <= i < state.refs.len() && #[trigger] ref_layer(state, i) == k
}

/// The number of the layer that an entry references.
pub open spec fn ref_layer(state: RefState, i: int) -> int {
    match state.refs[i] {
        Some(r) => r.l as int,
        None => -1,
    }
}

/// The references of an index are sound: every file has one and nothing else has, each points at
/// a layer of the header, the header lists no digest twice, and it lists no layer that nothing
/// references. The layers stand in the order in which they are first referenced: before an entry
/// references a layer, each layer that is listed earlier has been referenced.
pub proof fn law_references_are_sound(planned: Seq<Planned>, built: Seq<BuiltLayer>)
    ensures
        assign_state(planned, built) matches Ok(state) ==> refs_sound(state, planned),
    decreases planned.len(),
{
    if planned.len() > 0 && assign_state(planned, built) is Ok {
        law_references_are_sound(planned.drop_last(), built);
        let before = assign_state(planned.drop_last(), built)->Ok_0;
        let after = assign_state(planned, built)->Ok_0;
        let item = planned.last();
        let n = planned.len() - 1;
        assert forall|i: int| 0 <= i < planned.len() implies ((#[trigger] after.refs[i]) is Some
            <==> planned[i].entry.kind == Kind::File) by {
            if i < n {
                assert(after.refs[i] == before.refs[i]);
                assert(planned.drop_last()[i] == planned[i]);
            }
        }
        if item.entry.kind == Kind::File {
            let (layer, _, _) = source_of(item, built)->0;
            lemma_digest_index(before.layers, layer.digest@, 0);
            assert(ref_layer(after, n) == digest_index(before.layers, layer.digest@, 0));
        }
        assert forall|i: int| 0 <= i < planned.len() implies ((#[trigger] after.refs[i]) matches Some(
            r,
        ) ==> r.l < after.layers.len()) by {
            if i < n {
                assert(after.refs[i] == before.refs[i]);
            }
        }
        assert forall|k: int| 0 <= k < after.layers.len() implies #[trigger] referenced(
            after,
            k,
        ) by {
            if k < before.layers.len() {
                assert(referenced(before, k));
                let i = choose|i: int|
                    0 <= i < before.refs.len() && #[trigger] ref_layer(before, i) == k;
                assert(after.refs[i] == before.refs[i]);
                assert(ref_layer(after, i) == k);
            } else {
                assert(ref_layer(after, n) == k);
            }
        }
        assert forall|i: int, k: int|
            0 <= i < after.refs.len() && 0 <= k < ref_layer(
                after,
                i,
            ) implies #[trigger] referenced_before(after, k, i) by {
            let h = if i < n {
                assert(after.refs[i] == before.refs[i]);
                assert(0 <= k < ref_layer(before, i));
                assert(referenced_before(before, k, i));
                choose|h: int| 0 <= h < i && #[trigger] ref_layer(before, h) == k
            } else {
                assert(referenced(before, k));
                choose|h: int| 0 <= h < before.refs.len() && #[trigger] ref_layer(before, h) == k
            };
            assert(after.refs[h] == before.refs[h]);
            assert(ref_layer(after, h) == k);
        }
    }
}

/// What references were assigned to can be written as an index: where the paths of a capture
/// strictly ascend, each entry may follow the one before it.
pub proof fn law_assigned_entries_can_be_written(
    planned: Seq<Planned>,
    built: Seq<BuiltLayer>,
    state: RefState,
    entries: Seq<Entry>,
    i: int,
)
    requires
        assign_state(planned, built) == Ok::<RefState, RefFault>(state),
        entries.len() == planned.len(),
        forall|k: int|
            0 <= k < entries.len() ==> indexes(#[trigger] entries[k], planned[k].entry)
                && entries[k].r == state.refs[k],
        forall|a: int, b: int|
            0 <= a < b < planned.len() ==> less(
                #[trigger] planned[a].entry.path@,
                #[trigger] planned[b].entry.path@,
            ),
        0 <= i < entries.len(),
    ensures
        may_follow(
            if i == 0 {
                None
            } else {
                Some(entries[i - 1].p@)
            },
            state.layers.len(),
            entries[i],
        ),
{
    law_references_are_sound(planned, built);
    assert(entries[i].r == state.refs[i]);
    if i > 0 {
        assert(indexes(entries[i - 1], planned[i - 1].entry));
        assert(less(planned[i - 1].entry.path@, planned[i].entry.path@));
    }
}

/// Whether some layer that was built holds a file of that path in that range, and is that layer.
pub open spec fn built_there(
    built: Seq<BuiltLayer>,
    path: Seq<char>,
    digest: Seq<char>,
    offset: u64,
    len: u64,
) -> bool {
    exists|k: int, j: int|
        0 <= k < built.len() && 0 <= j < built[k].plan.files@.len() && (
        #[trigger] built[k].plan.files@[j]).path@ == path && built[k].plan.files@[j].offset
            == offset && built[k].plan.files@[j].len == len && built[k].layer.digest@ == digest
}

proof fn lemma_place_files(
    known: Map<Seq<char>, Place>,
    files: Seq<PlannedFile>,
    layer: int,
    path: Seq<char>,
)
    ensures
        ({
            let after = place_files(known, files, layer);
            &&& after.contains_key(path) ==> {
                ||| known.contains_key(path) && after[path] == known[path]
                ||| after[path].layer == layer && exists|j: int|
                    0 <= j < files.len() && (#[trigger] files[j]).path@ == path && files[j].offset
                        == after[path].offset && files[j].len == after[path].len
            }
        }),
    decreases files.len(),
{
    if files.len() > 0 {
        let front = files.drop_last();
        lemma_place_files(known, front, layer, path);
        let after = place_files(known, files, layer);
        let n = files.len() - 1;
        assert(files.last() == files[n]);
        if after.contains_key(path) && files[n].path@ != path {
            let before = place_files(known, front, layer);
            assert(after[path] == before[path]);
            if !(known.contains_key(path) && after[path] == known[path]) {
                let j = choose|j: int|
                    0 <= j < front.len() && (#[trigger] front[j]).path@ == path && front[j].offset
                        == before[path].offset && front[j].len == before[path].len;
                assert(files[j] == front[j]);
            }
        }
    }
}

proof fn lemma_places(built: Seq<BuiltLayer>, n: int, path: Seq<char>)
    requires
        0 <= n <= built.len(),
        places(built, n).contains_key(path),
    ensures
        0 <= places(built, n)[path].layer < n,
        built_there(
            built,
            path,
            built[places(built, n)[path].layer].layer.digest@,
            places(built, n)[path].offset,
            places(built, n)[path].len,
        ),
    decreases n,
{
    if n > 0 {
        let before = places(built, n - 1);
        let files = built[n - 1].plan.files@;
        lemma_place_files(before, files, n - 1, path);
        if before.contains_key(path) && places(built, n)[path] == before[path] {
            lemma_places(built, n - 1, path);
        } else {
            let place = places(built, n)[path];
            let j = choose|j: int|
                0 <= j < files.len() && (#[trigger] files[j]).path@ == path && files[j].offset
                    == place.offset && files[j].len == place.len;
            assert(built[n - 1].plan.files@[j].path@ == path);
        }
    }
}

/// What an index refers to is what holds the file's bytes. A file that is carried over keeps the
/// layer, the offset and the length that it had; a file that is new is where a layer that was built
/// holds the file of its path; and nothing but a file refers to anything.
pub proof fn law_a_reference_names_the_bytes_of_its_file(
    planned: Seq<Planned>,
    built: Seq<BuiltLayer>,
    i: int,
)
    requires
        0 <= i < planned.len(),
    ensures
        assign_state(planned, built) matches Ok(state) ==> {
            &&& state.refs.len() == planned.len()
            &&& planned[i].entry.kind != Kind::File ==> state.refs[i] is None
            &&& planned[i].entry.kind == Kind::File ==> {
                &&& state.refs[i] matches Some(r)
                &&& r.l < state.layers.len()
                &&& match planned[i].carried {
                    Some(c) => {
                        &&& r.o == c.offset
                        &&& r.n == c.len
                        &&& state.layers[r.l as int].digest@ == c.layer.digest@
                    },
                    None => built_there(
                        built,
                        planned[i].entry.path@,
                        state.layers[r.l as int].digest@,
                        r.o,
                        r.n,
                    ),
                }
            }
        },
    decreases planned.len(),
{
    law_references_are_sound(planned, built);
    if assign_state(planned, built) is Ok {
        let front = planned.drop_last();
        law_references_are_sound(front, built);
        let n = planned.len() - 1;
        let before = assign_state(front, built)->Ok_0;
        let item = planned[n];
        assert(planned.last() == item);
        let state = assign_state(planned, built)->Ok_0;
        assert(state == assign_item(before, item, built)->Ok_0);
        if i < n {
            law_a_reference_names_the_bytes_of_its_file(front, built, i);
            assert(front[i] == planned[i]);
            assert(state.refs[i] == before.refs[i]);
        } else if item.entry.kind == Kind::File {
            if item.carried is None {
                lemma_places(built, built.len() as int, item.entry.path@);
            }
            let layer = source_of(item, built)->Some_0.0;
            lemma_digest_index(before.layers, layer.digest@, 0);
        }
    }
}

/// A layer that an index lists is one that a file was carried from, or one that was built.
pub proof fn law_only_layers_that_exist_are_listed(
    planned: Seq<Planned>,
    built: Seq<BuiltLayer>,
    k: int,
)
    ensures
        assign_state(planned, built) matches Ok(state) ==> (0 <= k < state.layers.len() ==> {
            ||| exists|i: int|
                0 <= i < planned.len() && ((#[trigger] planned[i]).carried matches Some(c)
                    && c.layer == state.layers[k])
            ||| exists|b: int| 0 <= b < built.len() && (#[trigger] built[b]).layer == state.layers[k]
        }),
    decreases planned.len(),
{
    if assign_state(planned, built) is Ok && planned.len() > 0 {
        let front = planned.drop_last();
        law_only_layers_that_exist_are_listed(front, built, k);
        let n = planned.len() - 1;
        let before = assign_state(front, built)->Ok_0;
        let state = assign_state(planned, built)->Ok_0;
        let item = planned[n];
        assert(planned.last() == item);
        if 0 <= k < before.layers.len() {
            assert(state.layers[k] == before.layers[k]);
            if exists|i: int|
                0 <= i < front.len() && ((#[trigger] front[i]).carried matches Some(c) && c.layer
                    == state.layers[k]) {
                let i = choose|i: int|
                    0 <= i < front.len() && ((#[trigger] front[i]).carried matches Some(c)
                        && c.layer == state.layers[k]);
                assert(planned[i] == front[i]);
            }
        } else if 0 <= k < state.layers.len() {
            if item.carried is None {
                lemma_places(built, built.len() as int, item.entry.path@);
                let place = places(built, built.len() as int)[item.entry.path@];
                assert(built[place.layer].layer == state.layers[k]);
            }
        }
    }
}

/// An index of more than 65536 layers is refused, and none of fewer is.
pub proof fn law_an_index_has_a_bounded_number_of_layers(
    planned: Seq<Planned>,
    built: Seq<BuiltLayer>,
)
    ensures
        assign_state(planned, built) matches Ok(state) ==> state.layers.len() <= 65536,
        assign_state(planned, built) matches Err(RefFault::TooManyLayers(n)) ==> n == 65537,
    decreases planned.len(),
{
    if planned.len() > 0 {
        law_an_index_has_a_bounded_number_of_layers(planned.drop_last(), built);
        law_references_are_sound(planned.drop_last(), built);
    }
}

/// Whether a plan holds the file that was found, under its path, from where it was found and whole.
pub open spec fn plans_file(layers: Seq<LayerView>, found: WalkEntry) -> bool {
    exists|k: int, j: int|
        0 <= k < layers.len() && 0 <= j < layers[k].files.len() && is_found(
            #[trigger] layers[k].files[j],
            found,
        )
}

/// Whether a planned file is the one that was found.
pub open spec fn is_found(file: FileView, found: WalkEntry) -> bool {
    &&& file.path == found.path@
    &&& file.source == found.source@
    &&& file.len == found.size
}

proof fn lemma_all_are_planned(planned: Seq<Planned>, i: int)
    requires
        0 <= i < planned.len(),
        planned[i].entry.kind == Kind::File,
        planned[i].carried is None,
    ensures
        ({
            let state = plan_state(planned);
            ||| plans_file(state.layers, planned[i].entry)
            ||| exists|j: int|
                0 <= j < state.pack.len() && is_found(#[trigger] state.pack[j], planned[i].entry)
        }),
    decreases planned.len(),
{
    let n = planned.len() - 1;
    let before = plan_state(planned.drop_last());
    let state = plan_state(planned);
    let item = planned[n];
    assert(planned.last() == item);
    let found = planned[i].entry;
    let m = before.layers.len() as int;
    if i < n {
        assert(planned.drop_last()[i] == planned[i]);
        lemma_all_are_planned(planned.drop_last(), i);
        if plans_file(before.layers, found) {
            let (k, j) = choose|k: int, j: int|
                0 <= k < before.layers.len() && 0 <= j < before.layers[k].files.len() && is_found(
                    #[trigger] before.layers[k].files[j],
                    found,
                );
            assert(state.layers[k] == before.layers[k]);
            assert(is_found(state.layers[k].files[j], found));
        } else {
            let j = choose|j: int|
                0 <= j < before.pack.len() && is_found(#[trigger] before.pack[j], found);
            if state.layers.len() > m && state.pack.len() == 0 {
                if state.layers[m].kind == LayerKind::Pack {
                    assert(state.layers[m].files[j] == before.pack[j]);
                    assert(is_found(state.layers[m].files[j], found));
                } else {
                    assert(is_found(state.pack[j], found));
                }
            } else {
                assert(state.pack[j] == before.pack[j]);
            }
        }
    } else {
        let len = item.entry.size as int;
        if len >= OWN_LAYER_MIN_BYTES {
            assert(is_found(state.layers[m].files[0], found));
        } else if state.layers.len() > m {
            assert(is_found(state.layers[m].files[before.pack.len() as int], found));
        } else {
            assert(is_found(state.pack[before.pack.len() as int], found));
        }
    }
}

/// A file that is not carried over is read whole, from where it was found, into some layer.
pub proof fn law_a_new_file_is_planned(planned: Seq<Planned>, i: int)
    requires
        0 <= i < planned.len(),
        planned[i].entry.kind == Kind::File,
        planned[i].carried is None,
    ensures
        plans_file(plan_of(planned), planned[i].entry),
{
    lemma_all_are_planned(planned, i);
    let state = plan_state(planned);
    let found = planned[i].entry;
    let layers = plan_of(planned);
    if plans_file(state.layers, found) {
        let (k, j) = choose|k: int, j: int|
            0 <= k < state.layers.len() && 0 <= j < state.layers[k].files.len() && is_found(
                #[trigger] state.layers[k].files[j],
                found,
            );
        assert(layers[k] == state.layers[k]);
        assert(is_found(layers[k].files[j], found));
    } else {
        let j = choose|j: int|
            0 <= j < state.pack.len() && is_found(#[trigger] state.pack[j], found);
        assert(is_found(layers[state.layers.len() as int].files[j], found));
    }
}

/// Whether a planned file is one that was found and is not carried over.
pub open spec fn is_new(planned: Seq<Planned>, file: FileView) -> bool {
    exists|i: int|
        0 <= i < planned.len() && (#[trigger] planned[i]).entry.kind == Kind::File
            && planned[i].carried is None && is_found(file, planned[i].entry)
}

proof fn lemma_still_new(planned: Seq<Planned>, file: FileView)
    requires
        planned.len() > 0,
        is_new(planned.drop_last(), file),
    ensures
        is_new(planned, file),
{
    let front = planned.drop_last();
    let i = choose|i: int|
        0 <= i < front.len() && (#[trigger] front[i]).entry.kind == Kind::File
            && front[i].carried is None && is_found(file, front[i].entry);
    assert(planned[i] == front[i]);
}

proof fn lemma_none_else_is_planned(planned: Seq<Planned>)
    ensures
        ({
            let state = plan_state(planned);
            &&& forall|k: int, j: int|
                0 <= k < state.layers.len() && 0 <= j < state.layers[k].files.len() ==> is_new(
                    planned,
                    #[trigger] state.layers[k].files[j],
                )
            &&& forall|j: int| 0 <= j < state.pack.len() ==> is_new(planned, #[trigger] state.pack[j])
        }),
    decreases planned.len(),
{
    if planned.len() > 0 {
        let n = planned.len() - 1;
        let front = planned.drop_last();
        lemma_none_else_is_planned(front);
        let before = plan_state(front);
        let state = plan_state(planned);
        let item = planned[n];
        assert(planned.last() == item);
        if changed(item) {
            assert forall|offset: int| is_new(planned, #[trigger] file_of(item, offset)) by {
                assert(is_found(file_of(item, offset), planned[n].entry));
            }
        }
        assert forall|j: int| 0 <= j < before.pack.len() implies is_new(
            planned,
            #[trigger] before.pack[j],
        ) by {
            lemma_still_new(planned, before.pack[j]);
        }
        let pack = before.pack.push(file_of(item, before.bytes));
        if changed(item) {
            assert forall|j: int| 0 <= j < pack.len() implies is_new(planned, #[trigger] pack[j]) by {
                if j < before.pack.len() {
                    assert(pack[j] == before.pack[j]);
                }
            }
        }
        assert forall|k: int, j: int|
            0 <= k < state.layers.len() && 0 <= j < state.layers[k].files.len() implies is_new(
            planned,
            #[trigger] state.layers[k].files[j],
        ) by {
            if k < before.layers.len() {
                assert(state.layers[k] == before.layers[k]);
                lemma_still_new(planned, before.layers[k].files[j]);
            } else if state.layers[k].kind == LayerKind::Pack {
                assert(state.layers[k].files == pack);
            } else {
                assert(state.layers[k].files[j] == file_of(item, 0));
            }
        }
    }
}

/// Nothing is read into a layer but files that were found and are not carried over.
pub proof fn law_only_new_files_are_planned(planned: Seq<Planned>, k: int, j: int)
    requires
        0 <= k < plan_of(planned).len(),
        0 <= j < plan_of(planned)[k].files.len(),
    ensures
        is_new(planned, plan_of(planned)[k].files[j]),
{
    lemma_none_else_is_planned(planned);
    let state = plan_state(planned);
    if k < state.layers.len() {
        assert(plan_of(planned)[k] == state.layers[k]);
        assert(is_new(planned, state.layers[k].files[j]));
    } else {
        assert(is_new(planned, state.pack[j]));
    }
}

/// A file of 4 MiB and more has a layer of its own, and only such a one has. The others share
/// layers, and one of these is closed by the file that takes it to 64 MiB: its files before the
/// last stay below that.
pub proof fn law_large_files_stand_alone(planned: Seq<Planned>, k: int, j: int)
    requires
        0 <= k < plan_of(planned).len(),
        0 <= j < plan_of(planned)[k].files.len(),
    ensures
        ({
            let layer = plan_of(planned)[k];
            &&& layer.kind == LayerKind::Whole <==> layer.files[j].len >= 4 * 1024 * 1024
            &&& layer.kind == LayerKind::Whole ==> layer.files.len() == 1
            &&& layer.files.last().offset < 64 * 1024 * 1024
            &&& layer.kind == LayerKind::Pack && k < plan_of(planned).len() - 1 ==> layer.bytes >= 64
                * 1024 * 1024
        }),
{
    law_layers_are_well_cut(planned);
    let layer = plan_of(planned)[k];
    assert(well_cut(layer));
}

/// A plan is shown as it is.
pub proof fn law_a_plan_is_shown_as_it_is(layer: LayerPlan, i: int)
    requires
        0 <= i < layer.files@.len(),
    ensures
        layer@.kind == layer.kind,
        layer@.bytes == layer.bytes,
        layer@.files.len() == layer.files@.len(),
        layer@.files[i].path == layer.files@[i].path@,
        layer@.files[i].source == layer.files@[i].source@,
        layer@.files[i].offset == layer.files@[i].offset,
        layer@.files[i].len == layer.files@[i].len,
{
}

/// An entry of an index says of a file what was found of it.
pub proof fn law_an_entry_says_what_was_found(e: Entry, w: WalkEntry)
    requires
        indexes(e, w),
    ensures
        e.p@ == w.path@,
        e.k == w.kind,
        e.s == w.size,
        e.m == w.mtime_ns,
        e.c == w.ctime_ns,
        e.mode == w.mode,
        e.t is Some <==> w.target is Some,
        e.t is Some ==> e.t->Some_0@ == w.target->Some_0@,
{
}

} // verus!
