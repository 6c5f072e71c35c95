//! Walking an app's tree for a capture: which directories are entered, what is recorded of what
//! stands in them, and what is left out.
//!
//! A capture walks each declared root at its mirrored place. A hole is left out, and so is what a
//! capture filter matches, which is held against the path below the root; nothing beneath either
//! is looked at. A root that is not there adds nothing.

use crate::persist::tree::{
    entry_views, in_order, in_path_order, join_rel, joined_path, mirror, mirrored,
    recorded, safe_target, visit_child, visit_of, visit_root, Child, FoundView, Kind, TreeError,
    Visit, VisitView, WalkEntry, Walked,
};
use crate::text::{contains_str, views};
use vstd::multiset::Multiset;
use vstd::prelude::*;

verus! {

/// What a walk needs to know next.
#[derive(Debug, PartialEq, Eq)]
pub enum WalkAction {
    /// What stands at a root.
    Stat(String),
    /// What stands in a directory.
    List(String),
    /// Nothing: the walk is over.
    Done,
}

/// A directory of the walk.
struct WalkDir {
    /// Its path in the app's tree.
    path: String,
    /// Its path below its root.
    within: String,
}

/// A directory of a walk, by its texts.
pub struct DirView {
    pub path: Seq<char>,
    pub within: Seq<char>,
}

/// How far a walk has come.
pub struct WalkState {
    /// The mirrored roots.
    pub roots: Seq<Seq<char>>,
    /// The mirrored holes.
    pub holes: Seq<Seq<char>>,
    /// How many roots have been looked at.
    pub stat: int,
    /// Every directory that the walk enters, in the order in which it does.
    pub dirs: Seq<DirView>,
    /// How many of them have been listed.
    pub at: int,
    /// What has been recorded.
    pub entries: Seq<FoundView>,
    /// How many symlinks have been left out because a restore would refuse their target.
    pub skipped: nat,
}

/// The walk over an app's tree.
pub struct CaptureWalk {
    roots: Vec<String>,
    holes: Vec<String>,
    stat: usize,
    dirs: Vec<WalkDir>,
    at: usize,
    entries: Vec<WalkEntry>,
    /// The paths of the symlinks that were left out.
    links: Vec<String>,
}

spec fn dir_views(dirs: Seq<WalkDir>) -> Seq<DirView> {
    Seq::new(dirs.len(), |i: int| DirView { path: dirs[i].path@, within: dirs[i].within@ })
}

impl View for CaptureWalk {
    type V = WalkState;

    closed spec fn view(&self) -> WalkState {
        WalkState {
            roots: views(self.roots@),
            holes: views(self.holes@),
            stat: self.stat as int,
            dirs: dir_views(self.dirs@),
            at: self.at as int,
            entries: entry_views(self.entries@),
            skipped: self.links@.len(),
        }
    }
}

/// Whether some paths are the mirrored forms of others.
pub open spec fn are_mirrored(paths: Seq<Seq<char>>, out: Seq<Seq<char>>) -> bool {
    &&& out.len() == paths.len()
    &&& forall|i: int| 0 <= i < paths.len() ==> mirrored(#[trigger] paths[i]) == Some(out[i])
}

/// Whether path number `i` is the first that cannot be mirrored.
pub open spec fn first_unmirrored(paths: Seq<Seq<char>>, i: int) -> bool {
    &&& 0 <= i < paths.len()
    &&& mirrored(paths[i]) is None
    &&& forall|j: int| 0 <= j < i ==> mirrored(#[trigger] paths[j]) is Some
}

fn mirror_all(paths: &Vec<String>) -> (r: Result<Vec<String>, TreeError>)
    ensures
        match r {
            Ok(out) => are_mirrored(views(paths@), views(out@)),
            Err(e) => exists|i: int| #[trigger]
                first_unmirrored(views(paths@), i) && (e matches TreeError::NotMirrorable(p) && p@
                    == views(paths@)[i]),
        },
{
    let mut out: Vec<String> = Vec::new();
    for i in 0..paths.len()
        invariant
            are_mirrored(views(paths@).take(i as int), views(out@)),
            forall|j: int| 0 <= j < i ==> mirrored(#[trigger] views(paths@)[j]) is Some,
    {
        assert(views(paths@)[i as int] == paths@[i as int]@);
        match mirror(paths[i].as_str()) {
            Err(e) => {
                assert(first_unmirrored(views(paths@), i as int));
                return Err(e);
            },
            Ok(path) => {
                let ghost before = views(out@);
                let ghost text = path@;
                out.push(path);
                proof {
                    let some = views(paths@).take(i + 1);
                    assert(views(out@) =~= before.push(text));
                    assert forall|j: int| 0 <= j < some.len() implies mirrored(
                        #[trigger] some[j],
                    ) == Some(views(out@)[j]) by {
                        if j < i {
                            assert(views(paths@).take(i as int)[j] == some[j]);
                        }
                    }
                }
            },
        }
    }
    assert(views(paths@).take(paths@.len() as int) =~= views(paths@));
    Ok(out)
}

/// Where a walk stands once it has been told what stands at the next root.
pub open spec fn after_root(s: WalkState, child: Option<Child>) -> WalkState {
    match child {
        Some(c) => if c.kind == Some(Kind::Dir) {
            WalkState {
                stat: s.stat + 1,
                dirs: s.dirs.push(DirView { path: s.roots[s.stat], within: Seq::empty() }),
                entries: s.entries.push(recorded(s.roots[s.stat], c, Kind::Dir, None)),
                ..s
            }
        } else {
            WalkState { stat: s.stat + 1, ..s }
        },
        None => WalkState { stat: s.stat + 1, ..s },
    }
}

/// A directory inside another.
pub open spec fn dir_inside(dir: DirView, name: Seq<char>) -> DirView {
    DirView { path: joined_path(dir.path, name), within: joined_path(dir.within, name) }
}

/// Where a walk stands once it has been told of one thing in the directory at hand.
pub open spec fn after_child(s: WalkState, child: Child, filtered: bool) -> WalkState {
    match visit_of(s.dirs[s.at].path, s.holes, filtered, child) {
        VisitView::Skip => s,
        VisitView::SkipLink => WalkState { skipped: s.skipped + 1, ..s },
        VisitView::Take(e) => WalkState {
            dirs: if e.kind == Kind::Dir {
                s.dirs.push(dir_inside(s.dirs[s.at], child.name@))
            } else {
                s.dirs
            },
            entries: s.entries.push(e),
            ..s
        },
    }
}

/// Where a walk stands once the directory at hand holds nothing more.
pub open spec fn after_listing(s: WalkState) -> WalkState {
    WalkState { at: s.at + 1, ..s }
}

/// Whether an entry is one that a restore can make something of: only a file has a size, and a
/// symlink alone has a target, which a restore takes.
pub open spec fn well_shaped(e: FoundView) -> bool {
    &&& e.kind != Kind::File ==> e.size == 0
    &&& e.target is Some <==> e.kind == Kind::Symlink
    &&& e.target matches Some(target) ==> safe_target(e.path, target)
}

/// Whether all entries are ones that a restore can make something of.
pub open spec fn all_well_shaped(entries: Seq<FoundView>) -> bool {
    forall|i: int| 0 <= i < entries.len() ==> well_shaped(#[trigger] entries[i])
}

impl CaptureWalk {
    /// What holds of a walk.
    pub open spec fn wf(&self) -> bool {
        &&& 0 <= self@.stat <= self@.roots.len()
        &&& 0 <= self@.at <= self@.dirs.len()
        &&& all_well_shaped(self@.entries)
    }

    /// The walk over an app's tree before its first step. The first hole that cannot be mirrored is
    /// refused, else the first such root.
    pub fn new(roots: &Vec<String>, holes: &Vec<String>) -> (r: Result<CaptureWalk, TreeError>)
        ensures
            match r {
                Ok(walk) => {
                    &&& walk.wf()
                    &&& are_mirrored(views(roots@), walk@.roots)
                    &&& are_mirrored(views(holes@), walk@.holes)
                    &&& walk@ == (WalkState {
                        roots: walk@.roots,
                        holes: walk@.holes,
                        stat: 0,
                        dirs: Seq::empty(),
                        at: 0,
                        entries: Seq::empty(),
                        skipped: 0,
                    })
                },
                Err(e) => exists|i: int| #[trigger]
                    first_unmirrored(views(holes@) + views(roots@), i) && (
                    e matches TreeError::NotMirrorable(p) && p@ == (views(holes@) + views(
                        roots@,
                    ))[i]),
            },
    {
        let ghost all = views(holes@) + views(roots@);
        let mirrored_holes = match mirror_all(holes) {
            Err(e) => {
                proof {
                    let i = choose|i: int| #[trigger]
                        first_unmirrored(views(holes@), i) && (
                        e matches TreeError::NotMirrorable(p) && p@ == views(holes@)[i]);
                    assert forall|j: int| 0 <= j < i implies mirrored(#[trigger] all[j]) is Some by {
                        assert(all[j] == views(holes@)[j]);
                    }
                    assert(first_unmirrored(all, i));
                }
                return Err(e);
            },
            Ok(out) => out,
        };
        let mirrored_roots = match mirror_all(roots) {
            Err(e) => {
                proof {
                    let n = holes@.len() as int;
                    let i = choose|i: int| #[trigger]
                        first_unmirrored(views(roots@), i) && (
                        e matches TreeError::NotMirrorable(p) && p@ == views(roots@)[i]);
                    assert forall|j: int| 0 <= j < n + i implies mirrored(
                        #[trigger] all[j],
                    ) is Some by {
                        if j < n {
                            assert(all[j] == views(holes@)[j]);
                        } else {
                            assert(all[j] == views(roots@)[j - n]);
                        }
                    }
                    assert(first_unmirrored(all, n + i));
                }
                return Err(e);
            },
            Ok(out) => out,
        };
        let walk = CaptureWalk {
            roots: mirrored_roots,
            holes: mirrored_holes,
            stat: 0,
            dirs: Vec::new(),
            at: 0,
            entries: Vec::new(),
            links: Vec::new(),
        };
        assert(walk@.dirs =~= Seq::<DirView>::empty());
        assert(walk@.entries =~= Seq::<FoundView>::empty());
        Ok(walk)
    }

    /// What the walk needs to know next: first what stands at each of the roots, then what stands
    /// in each directory.
    pub fn next(&self) -> (r: WalkAction)
        requires
            self.wf(),
        ensures
            if self@.stat < self@.roots.len() {
                r matches WalkAction::Stat(path) && path@ == self@.roots[self@.stat]
            } else if self@.at < self@.dirs.len() {
                r matches WalkAction::List(path) && path@ == self@.dirs[self@.at].path
            } else {
                r is Done
            },
    {
        if self.stat < self.roots.len() {
            WalkAction::Stat(self.roots[self.stat].clone())
        } else if self.at < self.dirs.len() {
            WalkAction::List(self.dirs[self.at].path.clone())
        } else {
            WalkAction::Done
        }
    }

    /// Takes what stands at the next root, if anything does.
    pub fn root(&mut self, child: Option<&Child>)
        requires
            old(self).wf(),
            old(self)@.stat < old(self)@.roots.len(),
        ensures
            final(self).wf(),
            final(self)@ == after_root(
                old(self)@,
                match child {
                    Some(c) => Some(*c),
                    None => None,
                },
            ),
    {
        let ghost before = self@;
        assert(self.stat < self.roots.len());
        let entry: Option<WalkEntry> = match child {
            Some(c) => visit_root(self.roots[self.stat].as_str(), c),
            None => None,
        };
        match entry {
            Some(e) => {
                let ghost view = e@;
                self.dirs.push(
                    WalkDir { path: self.roots[self.stat].clone(), within: String::new() },
                );
                self.entries.push(e);
                proof {
                    assert(self@.entries =~= before.entries.push(view));
                    assert(self@.dirs =~= before.dirs.push(
                        DirView { path: before.roots[before.stat], within: Seq::empty() },
                    ));
                }
            },
            None => {},
        }
        self.stat = self.stat + 1;
    }

    /// The path below its root of a thing in the directory at hand, which a capture filter is held
    /// against.
    pub fn within(&self, name: &str) -> (r: String)
        requires
            self.wf(),
            self@.at < self@.dirs.len(),
        ensures
            r@ == joined_path(self@.dirs[self@.at].within, name@),
    {
        join_rel(self.dirs[self.at].within.as_str(), name)
    }

    /// Whether a thing in the directory at hand is left out whatever it is: it need not be looked
    /// at.
    pub fn leaves_out(&self, name: &str, filtered: bool) -> (r: bool)
        requires
            self.wf(),
            self@.at < self@.dirs.len(),
        ensures
            r == (self@.holes.contains(joined_path(self@.dirs[self@.at].path, name@)) || filtered),
    {
        let path = join_rel(self.dirs[self.at].path.as_str(), name);
        contains_str(&self.holes, path.as_str()) || filtered
    }

    /// Takes one thing in the directory at hand. Whether it is a symlink that was left out comes
    /// back.
    pub fn found(&mut self, child: &Child, filtered: bool) -> (r: bool)
        requires
            old(self).wf(),
            old(self)@.at < old(self)@.dirs.len(),
        ensures
            final(self).wf(),
            final(self)@ == after_child(old(self)@, *child, filtered),
            r == (visit_of(
                old(self)@.dirs[old(self)@.at].path,
                old(self)@.holes,
                filtered,
                *child,
            ) is SkipLink),
    {
        let ghost before = self@;
        let visit = visit_child(self.dirs[self.at].path.as_str(), &self.holes, filtered, child);
        match visit {
            Visit::Skip => false,
            Visit::SkipLink => {
                self.links.push(join_rel(self.dirs[self.at].path.as_str(), child.name.as_str()));
                true
            },
            Visit::Take(e) => {
                let ghost view = e@;
                if e.kind == Kind::Dir {
                    let path = join_rel(self.dirs[self.at].path.as_str(), child.name.as_str());
                    let within = join_rel(self.dirs[self.at].within.as_str(), child.name.as_str());
                    self.dirs.push(WalkDir { path, within });
                    assert(self@.dirs =~= before.dirs.push(
                        dir_inside(before.dirs[before.at], child.name@),
                    ));
                }
                self.entries.push(e);
                assert(self@.entries =~= before.entries.push(view));
                false
            },
        }
    }

    /// The directory at hand holds nothing more.
    pub fn listed(&mut self)
        requires
            old(self).wf(),
            old(self)@.at < old(self)@.dirs.len(),
        ensures
            final(self).wf(),
            final(self)@ == after_listing(old(self)@),
    {
        assert(self.at < self.dirs.len());
        self.at = self.at + 1;
    }

    /// What the walk found: everything that was recorded, in the order of the paths, and how many
    /// symlinks were left out.
    pub fn finish(self) -> (r: Walked)
        requires
            self.wf(),
            is_over(self@),
        ensures
            entry_views(r.entries@).to_multiset() == self@.entries.to_multiset(),
            in_path_order(r.entries@),
            r.skipped_symlinks == self@.skipped,
            all_well_shaped(entry_views(r.entries@)),
    {
        let skipped_symlinks: usize = self.links.len();
        let ghost found = self@.entries;
        let entries = in_order(self.entries);
        proof {
            let sorted = entry_views(entries@);
            sorted.to_multiset_ensures();
            found.to_multiset_ensures();
            assert forall|i: int| 0 <= i < sorted.len() implies well_shaped(
                #[trigger] sorted[i],
            ) by {
                assert(sorted.contains(sorted[i]));
                assert(found.to_multiset().count(sorted[i]) > 0);
                assert(found.contains(sorted[i]));
                assert(well_shaped(found[found.index_of(sorted[i])]));
            }
        }
        Walked { entries, skipped_symlinks }
    }
}

// ---------------------------------------------------------------------------
// What a walk comes to
// ---------------------------------------------------------------------------

/// A thing in a tree, with what stands in it where it is a directory.
pub struct Node {
    pub child: Child,
    pub inside: Seq<Node>,
}

/// What stands at a root of a tree, if anything does.
pub struct RootNode {
    pub child: Option<Child>,
    pub inside: Seq<Node>,
}

/// What a capture holds of the things in a directory: every one that is not left out, and what it
/// holds of the things in those that are directories.
pub open spec fn captured_in(
    dir: DirView,
    nodes: Seq<Node>,
    holes: Seq<Seq<char>>,
    filter: spec_fn(Seq<char>) -> bool,
) -> Multiset<FoundView>
    decreases nodes,
{
    if nodes.len() == 0 {
        Multiset::empty()
    } else {
        let n = nodes[0];
        let rest = captured_in(dir, nodes.subrange(1, nodes.len() as int), holes, filter);
        match visit_of(dir.path, holes, filter(joined_path(dir.within, n.child.name@)), n.child) {
            VisitView::Take(e) => if e.kind == Kind::Dir {
                rest.insert(e).add(
                    captured_in(dir_inside(dir, n.child.name@), n.inside, holes, filter),
                )
            } else {
                rest.insert(e)
            },
            _ => rest,
        }
    }
}

/// How many symlinks a capture leaves out of a directory because a restore would refuse them.
pub open spec fn refused_in(
    dir: DirView,
    nodes: Seq<Node>,
    holes: Seq<Seq<char>>,
    filter: spec_fn(Seq<char>) -> bool,
) -> nat
    decreases nodes,
{
    if nodes.len() == 0 {
        0
    } else {
        let n = nodes[0];
        let rest = refused_in(dir, nodes.subrange(1, nodes.len() as int), holes, filter);
        match visit_of(dir.path, holes, filter(joined_path(dir.within, n.child.name@)), n.child) {
            VisitView::Take(e) => if e.kind == Kind::Dir {
                rest + refused_in(dir_inside(dir, n.child.name@), n.inside, holes, filter)
            } else {
                rest
            },
            VisitView::SkipLink => rest + 1,
            VisitView::Skip => rest,
        }
    }
}

/// The directory that a root is.
pub open spec fn root_dir(root: Seq<char>) -> DirView {
    DirView { path: root, within: Seq::empty() }
}

/// What a capture holds of the roots from number `i` on: each that is a directory, and what it
/// holds of the things in it.
pub open spec fn captured(
    roots: Seq<Seq<char>>,
    tree: Seq<RootNode>,
    i: int,
    holes: Seq<Seq<char>>,
    filter: spec_fn(Seq<char>) -> bool,
) -> Multiset<FoundView>
    decreases roots.len() - i,
{
    if i >= roots.len() {
        Multiset::empty()
    } else {
        let rest = captured(roots, tree, i + 1, holes, filter);
        match tree[i].child {
            Some(c) => if c.kind == Some(Kind::Dir) {
                rest.insert(recorded(roots[i], c, Kind::Dir, None)).add(
                    captured_in(root_dir(roots[i]), tree[i].inside, holes, filter),
                )
            } else {
                rest
            },
            None => rest,
        }
    }
}

/// How many symlinks a capture leaves out of the roots from number `i` on.
pub open spec fn refused(
    roots: Seq<Seq<char>>,
    tree: Seq<RootNode>,
    i: int,
    holes: Seq<Seq<char>>,
    filter: spec_fn(Seq<char>) -> bool,
) -> nat
    decreases roots.len() - i,
{
    if i >= roots.len() {
        0
    } else {
        let rest = refused(roots, tree, i + 1, holes, filter);
        match tree[i].child {
            Some(c) => if c.kind == Some(Kind::Dir) {
                rest + refused_in(root_dir(roots[i]), tree[i].inside, holes, filter)
            } else {
                rest
            },
            None => rest,
        }
    }
}

/// A tree under a walk: what stands in each directory that the walk enters, and how many things
/// of the directory at hand the walk has been told of.
pub struct Work {
    pub inside: Seq<Seq<Node>>,
    pub seen: int,
}

/// Whether a tree is the one under a walk.
pub open spec fn fits(s: WalkState, w: Work, tree: Seq<RootNode>) -> bool {
    &&& tree.len() == s.roots.len()
    &&& 0 <= s.stat <= s.roots.len()
    &&& w.inside.len() == s.dirs.len()
    &&& 0 <= s.at <= s.dirs.len()
    &&& 0 <= w.seen
    &&& s.at < s.dirs.len() ==> w.seen <= w.inside[s.at].len()
    &&& s.at == s.dirs.len() ==> w.seen == 0
}

/// Whether a walk is told the truth about a tree: what stands at the next root, or the next thing
/// in the directory at hand and whether the filter matches it, or that there is nothing more.
pub open spec fn advances(
    s: WalkState,
    w: Work,
    next: WalkState,
    more: Work,
    tree: Seq<RootNode>,
    filter: spec_fn(Seq<char>) -> bool,
) -> bool {
    if s.stat < s.roots.len() {
        let root = tree[s.stat];
        &&& next == after_root(s, root.child)
        &&& more == (Work {
            inside: if root.child is Some && root.child->0.kind == Some(Kind::Dir) {
                w.inside.push(root.inside)
            } else {
                w.inside
            },
            ..w
        })
    } else if w.seen < w.inside[s.at].len() {
        let n = w.inside[s.at][w.seen];
        let filtered = filter(joined_path(s.dirs[s.at].within, n.child.name@));
        &&& next == after_child(s, n.child, filtered)
        &&& more == (Work {
            inside: match visit_of(s.dirs[s.at].path, s.holes, filtered, n.child) {
                VisitView::Take(e) => if e.kind == Kind::Dir {
                    w.inside.push(n.inside)
                } else {
                    w.inside
                },
                _ => w.inside,
            },
            seen: w.seen + 1,
        })
    } else {
        &&& next == after_listing(s)
        &&& more == (Work { seen: 0, ..w })
    }
}

/// What a capture holds of the directories from number `k` on.
pub open spec fn captured_from(
    dirs: Seq<DirView>,
    inside: Seq<Seq<Node>>,
    k: int,
    holes: Seq<Seq<char>>,
    filter: spec_fn(Seq<char>) -> bool,
) -> Multiset<FoundView>
    decreases dirs.len() - k,
{
    if k >= dirs.len() {
        Multiset::empty()
    } else {
        captured_in(dirs[k], inside[k], holes, filter).add(
            captured_from(dirs, inside, k + 1, holes, filter),
        )
    }
}

/// How many symlinks a capture leaves out of the directories from number `k` on.
pub open spec fn refused_from(
    dirs: Seq<DirView>,
    inside: Seq<Seq<Node>>,
    k: int,
    holes: Seq<Seq<char>>,
    filter: spec_fn(Seq<char>) -> bool,
) -> nat
    decreases dirs.len() - k,
{
    if k >= dirs.len() {
        0
    } else {
        refused_in(dirs[k], inside[k], holes, filter) + refused_from(
            dirs,
            inside,
            k + 1,
            holes,
            filter,
        )
    }
}

proof fn lemma_one_more_dir(
    dirs: Seq<DirView>,
    inside: Seq<Seq<Node>>,
    dir: DirView,
    nodes: Seq<Node>,
    k: int,
    holes: Seq<Seq<char>>,
    filter: spec_fn(Seq<char>) -> bool,
)
    requires
        0 <= k <= dirs.len(),
        inside.len() == dirs.len(),
    ensures
        captured_from(dirs.push(dir), inside.push(nodes), k, holes, filter) == captured_from(
            dirs,
            inside,
            k,
            holes,
            filter,
        ).add(captured_in(dir, nodes, holes, filter)),
        refused_from(dirs.push(dir), inside.push(nodes), k, holes, filter) == refused_from(
            dirs,
            inside,
            k,
            holes,
            filter,
        ) + refused_in(dir, nodes, holes, filter),
    decreases dirs.len() - k,
{
    let d = dirs.push(dir);
    let i = inside.push(nodes);
    if k < dirs.len() {
        lemma_one_more_dir(dirs, inside, dir, nodes, k + 1, holes, filter);
        assert(d[k] == dirs[k] && i[k] == inside[k]);
        assert(captured_from(d, i, k, holes, filter) =~= captured_from(
            dirs,
            inside,
            k,
            holes,
            filter,
        ).add(captured_in(dir, nodes, holes, filter)));
    } else {
        assert(captured_from(d, i, k + 1, holes, filter) =~= Multiset::<FoundView>::empty());
        assert(refused_from(d, i, k + 1, holes, filter) == 0);
        assert(captured_from(d, i, k, holes, filter) =~= captured_in(dir, nodes, holes, filter));
        assert(captured_from(dirs, inside, k, holes, filter).add(
            captured_in(dir, nodes, holes, filter),
        ) =~= captured_in(dir, nodes, holes, filter));
    }
}

/// What of a tree the walk over it has still to record: the rest of the directory at hand, the
/// directories after it, and the roots that it has not looked at.
pub open spec fn still_captured(
    s: WalkState,
    w: Work,
    tree: Seq<RootNode>,
    filter: spec_fn(Seq<char>) -> bool,
) -> Multiset<FoundView> {
    let here = if s.at < s.dirs.len() {
        captured_in(
            s.dirs[s.at],
            w.inside[s.at].subrange(w.seen, w.inside[s.at].len() as int),
            s.holes,
            filter,
        )
    } else {
        Multiset::empty()
    };
    here.add(captured_from(s.dirs, w.inside, s.at + 1, s.holes, filter)).add(
        captured(s.roots, tree, s.stat, s.holes, filter),
    )
}

/// How many symlinks of a tree the walk over it has still to leave out.
pub open spec fn still_refused(
    s: WalkState,
    w: Work,
    tree: Seq<RootNode>,
    filter: spec_fn(Seq<char>) -> bool,
) -> nat {
    let here = if s.at < s.dirs.len() {
        refused_in(
            s.dirs[s.at],
            w.inside[s.at].subrange(w.seen, w.inside[s.at].len() as int),
            s.holes,
            filter,
        )
    } else {
        0
    };
    here + refused_from(s.dirs, w.inside, s.at + 1, s.holes, filter) + refused(
        s.roots,
        tree,
        s.stat,
        s.holes,
        filter,
    )
}

/// Whether a walk is over.
pub open spec fn is_over(s: WalkState) -> bool {
    s.stat >= s.roots.len() && s.at >= s.dirs.len()
}

/// A walk that is told the truth about a tree neither loses nor doubles anything: what it has
/// recorded and what it has still to record stays the same, and so does the number of symlinks
/// that it leaves out.
pub proof fn law_a_step_of_a_walk_loses_nothing(
    s: WalkState,
    w: Work,
    next: WalkState,
    more: Work,
    tree: Seq<RootNode>,
    filter: spec_fn(Seq<char>) -> bool,
)
    requires
        fits(s, w, tree),
        !is_over(s),
        advances(s, w, next, more, tree, filter),
    ensures
        fits(next, more, tree),
        next.roots == s.roots,
        next.holes == s.holes,
        next.entries.to_multiset().add(still_captured(next, more, tree, filter))
            == s.entries.to_multiset().add(still_captured(s, w, tree, filter)),
        next.skipped + still_refused(next, more, tree, filter) == s.skipped + still_refused(
            s,
            w,
            tree,
            filter,
        ),
{
    s.entries.to_multiset_ensures();
    let before = s.entries.to_multiset().add(still_captured(s, w, tree, filter));
    let after = next.entries.to_multiset().add(still_captured(next, more, tree, filter));
    if s.stat < s.roots.len() {
        let root = tree[s.stat];
        if root.child is Some && root.child->0.kind == Some(Kind::Dir) {
            let dir = root_dir(s.roots[s.stat]);
            if s.at < s.dirs.len() {
                lemma_one_more_dir(
                    s.dirs,
                    w.inside,
                    dir,
                    root.inside,
                    s.at + 1,
                    s.holes,
                    filter,
                );
                assert(next.dirs[s.at] == s.dirs[s.at] && more.inside[s.at] == w.inside[s.at]);
            } else {
                assert(root.inside.subrange(0, root.inside.len() as int) =~= root.inside);
            }
        }
        assert(after =~= before);
    } else if w.seen < w.inside[s.at].len() {
        let nodes = w.inside[s.at].subrange(w.seen, w.inside[s.at].len() as int);
        let n = nodes[0];
        assert(n == w.inside[s.at][w.seen]);
        assert(nodes.subrange(1, nodes.len() as int) =~= w.inside[s.at].subrange(
            w.seen + 1,
            w.inside[s.at].len() as int,
        ));
        let filtered = filter(joined_path(s.dirs[s.at].within, n.child.name@));
        match visit_of(s.dirs[s.at].path, s.holes, filtered, n.child) {
            VisitView::Take(e) => {
                if e.kind == Kind::Dir {
                    lemma_one_more_dir(
                        s.dirs,
                        w.inside,
                        dir_inside(s.dirs[s.at], n.child.name@),
                        n.inside,
                        s.at + 1,
                        s.holes,
                        filter,
                    );
                    assert(next.dirs[s.at] == s.dirs[s.at] && more.inside[s.at] == w.inside[s.at]);
                }
            },
            _ => {},
        }
        assert(after =~= before);
    } else {
        let nodes = w.inside[s.at].subrange(w.seen, w.inside[s.at].len() as int);
        assert(nodes.len() == 0);
        if next.at < next.dirs.len() {
            let inner = w.inside[next.at];
            assert(inner.subrange(0, inner.len() as int) =~= inner);
        }
        assert(after =~= before);
    }
}

/// Whether a walk goes from its first state to its last by being told the truth about a tree.
pub open spec fn walks_over(
    states: Seq<WalkState>,
    works: Seq<Work>,
    tree: Seq<RootNode>,
    filter: spec_fn(Seq<char>) -> bool,
) -> bool {
    &&& states.len() == works.len()
    &&& forall|k: int|
        0 <= k < states.len() - 1 ==> !is_over(#[trigger] states[k]) && advances(
            states[k],
            works[k],
            states[k + 1],
            works[k + 1],
            tree,
            filter,
        )
}

proof fn lemma_walked(
    states: Seq<WalkState>,
    works: Seq<Work>,
    tree: Seq<RootNode>,
    filter: spec_fn(Seq<char>) -> bool,
    k: int,
)
    requires
        walks_over(states, works, tree, filter),
        0 <= k < states.len(),
        fits(states[0], works[0], tree),
    ensures
        fits(states[k], works[k], tree),
        states[k].roots == states[0].roots,
        states[k].holes == states[0].holes,
        states[k].entries.to_multiset().add(still_captured(states[k], works[k], tree, filter))
            == states[0].entries.to_multiset().add(
            still_captured(states[0], works[0], tree, filter),
        ),
        states[k].skipped + still_refused(states[k], works[k], tree, filter) == states[0].skipped
            + still_refused(states[0], works[0], tree, filter),
    decreases k,
{
    if k > 0 {
        lemma_walked(states, works, tree, filter, k - 1);
        assert(!is_over(states[k - 1]));
        law_a_step_of_a_walk_loses_nothing(
            states[k - 1],
            works[k - 1],
            states[k],
            works[k],
            tree,
            filter,
        );
    }
}

/// A walk that was told the truth about a tree has, once it is over, recorded exactly what a
/// capture holds of the tree: each root that is a directory and everything below it, but for the
/// holes, what the filter matches, what is beneath either, what is no file, directory or symlink,
/// and the symlinks that a restore would refuse, which it has counted.
pub proof fn law_a_walk_captures_the_tree(
    states: Seq<WalkState>,
    works: Seq<Work>,
    tree: Seq<RootNode>,
    filter: spec_fn(Seq<char>) -> bool,
)
    requires
        states.len() > 0,
        walks_over(states, works, tree, filter),
        states[0].stat == 0,
        states[0].at == 0,
        states[0].dirs.len() == 0,
        states[0].entries.len() == 0,
        states[0].skipped == 0,
        tree.len() == states[0].roots.len(),
        works[0].inside.len() == 0,
        works[0].seen == 0,
        is_over(states.last()),
    ensures
        states.last().entries.to_multiset() == captured(
            states[0].roots,
            tree,
            0,
            states[0].holes,
            filter,
        ),
        states.last().skipped == refused(states[0].roots, tree, 0, states[0].holes, filter),
{
    let first = states[0];
    let last = states.last();
    lemma_walked(states, works, tree, filter, states.len() - 1);
    first.entries.to_multiset_ensures();
    assert(first.entries.to_multiset() =~= Multiset::<FoundView>::empty());
    assert(first.entries.to_multiset().add(still_captured(first, works[0], tree, filter))
        =~= captured(first.roots, tree, 0, first.holes, filter));
    assert(last.entries.to_multiset().add(still_captured(last, works.last(), tree, filter))
        =~= last.entries.to_multiset());
}

/// Where a name stands in a directory, of which the top has no name.
pub open spec fn below(dir: Seq<char>, name: Seq<char>) -> Seq<char> {
    if dir.len() == 0 {
        name
    } else {
        dir.push('/') + name
    }
}

/// Everything in a directory is captured, at any depth: a file or a directory whose path is no hole
/// and that the filter does not match, and with a directory all that is captured inside it. The
/// filter is asked for the path below the root, and the holes for the whole path.
pub proof fn law_everything_in_a_directory_is_captured(
    dir: DirView,
    nodes: Seq<Node>,
    holes: Seq<Seq<char>>,
    filter: spec_fn(Seq<char>) -> bool,
    i: int,
)
    requires
        0 <= i < nodes.len(),
        forall|k: int|
            0 <= k < holes.len() ==> #[trigger] holes[k] != below(dir.path, nodes[i].child.name@),
        !filter(below(dir.within, nodes[i].child.name@)),
        nodes[i].child.kind == Some(Kind::File) || nodes[i].child.kind == Some(Kind::Dir),
    ensures
        ({
            let child = nodes[i].child;
            let path = below(dir.path, child.name@);
            let all = captured_in(dir, nodes, holes, filter);
            &&& exists|e: FoundView| #[trigger]
                all.count(e) > 0 && e.path == path && child.kind == Some(e.kind) && e.source
                    == child.source@ && e.mtime_ns == child.mtime_ns && e.size == (if e.kind
                    == Kind::File {
                    child.len
                } else {
                    0
                })
            &&& child.kind == Some(Kind::Dir) ==> captured_in(
                DirView { path, within: below(dir.within, child.name@) },
                nodes[i].inside,
                holes,
                filter,
            ).subset_of(all)
        }),
    decreases i,
{
    broadcast use vstd::multiset::group_multiset_axioms;

    let n = nodes[0];
    let rest = nodes.subrange(1, nodes.len() as int);
    let child = nodes[i].child;
    let all = captured_in(dir, nodes, holes, filter);
    lemma_below(dir.path, child.name@);
    lemma_below(dir.within, child.name@);
    let path = below(dir.path, child.name@);
    if i == 0 {
        assert(!holes.contains(path));
        let e = visit_of(dir.path, holes, false, child)->Take_0;
        assert(all.count(e) > 0);
    } else {
        assert(rest[i - 1] == nodes[i]);
        law_everything_in_a_directory_is_captured(dir, rest, holes, filter, i - 1);
        let some = captured_in(dir, rest, holes, filter);
        assert(some.subset_of(all));
        let e = choose|e: FoundView| #[trigger]
            some.count(e) > 0 && e.path == path && child.kind == Some(e.kind) && e.source
                == child.source@ && e.mtime_ns == child.mtime_ns && e.size == (if e.kind
                == Kind::File {
                child.len
            } else {
                0
            });
        assert(all.count(e) >= some.count(e));
    }
}

proof fn lemma_below(dir: Seq<char>, name: Seq<char>)
    ensures
        joined_path(dir, name) == below(dir, name),
{
    reveal_strlit("/");
    assert(dir + "/"@ + name =~= dir.push('/') + name);
}

/// Nothing else is captured: what is captured in a directory is something that stands in it or
/// deeper, and never at a hole.
pub proof fn law_no_hole_is_captured(
    dir: DirView,
    nodes: Seq<Node>,
    holes: Seq<Seq<char>>,
    filter: spec_fn(Seq<char>) -> bool,
    e: FoundView,
)
    ensures
        captured_in(dir, nodes, holes, filter).count(e) > 0 ==> {
            &&& !holes.contains(e.path)
            &&& dir.path.len() > 0 ==> dir.path.push('/').is_prefix_of(e.path)
        },
    decreases nodes,
{
    broadcast use vstd::multiset::group_multiset_axioms;

    if nodes.len() > 0 {
        let n = nodes[0];
        let rest = nodes.subrange(1, nodes.len() as int);
        law_no_hole_is_captured(dir, rest, holes, filter, e);
        let filtered = filter(joined_path(dir.within, n.child.name@));
        let visit = visit_of(dir.path, holes, filtered, n.child);
        let path = below(dir.path, n.child.name@);
        lemma_below(dir.path, n.child.name@);
        if visit is Take && dir.path.len() > 0 {
            assert(dir.path.push('/').is_prefix_of(path));
        }
        if visit is Take && visit->Take_0.kind == Kind::Dir {
            let inner = dir_inside(dir, n.child.name@);
            law_no_hole_is_captured(inner, n.inside, holes, filter, e);
            if captured_in(inner, n.inside, holes, filter).count(e) > 0 && dir.path.len() > 0 {
                let head = dir.path.push('/');
                assert(path.push('/').is_prefix_of(e.path));
                assert(head =~= path.push('/').take(head.len() as int));
                assert(head =~= e.path.take(head.len() as int));
            }
        }
    }
}

/// A root that is a directory is captured with all that is in it, and one that is none, or is not
/// there, is left out with it.
pub proof fn law_a_root_is_captured_with_all_in_it(
    roots: Seq<Seq<char>>,
    tree: Seq<RootNode>,
    holes: Seq<Seq<char>>,
    filter: spec_fn(Seq<char>) -> bool,
    from: int,
    i: int,
)
    requires
        0 <= from <= i < roots.len(),
        tree.len() == roots.len(),
    ensures
        ({
            let all = captured(roots, tree, from, holes, filter);
            &&& tree[i].child matches Some(c) ==> (c.kind == Some(Kind::Dir) ==> {
                &&& captured_in(
                    DirView { path: roots[i], within: Seq::empty() },
                    tree[i].inside,
                    holes,
                    filter,
                ).subset_of(all)
                &&& exists|e: FoundView| #[trigger]
                    all.count(e) > 0 && e.path == roots[i] && e.kind == Kind::Dir
            })
        }),
    decreases i - from,
{
    broadcast use vstd::multiset::group_multiset_axioms;

    let all = captured(roots, tree, from, holes, filter);
    if from < i {
        law_a_root_is_captured_with_all_in_it(roots, tree, holes, filter, from + 1, i);
        let rest = captured(roots, tree, from + 1, holes, filter);
        assert(rest.subset_of(all));
        if tree[i].child is Some && tree[i].child->0.kind == Some(Kind::Dir) {
            let e = choose|e: FoundView| #[trigger]
                rest.count(e) > 0 && e.path == roots[i] && e.kind == Kind::Dir;
            assert(all.count(e) >= rest.count(e));
        }
    } else if tree[i].child is Some && tree[i].child->0.kind == Some(Kind::Dir) {
        let e = recorded(roots[i], tree[i].child->0, Kind::Dir, None);
        assert(all.count(e) > 0);
    }
}

/// A symlink that cannot be restored is counted, once, wherever it stands; nothing else is.
pub proof fn law_a_refused_link_is_counted(
    dir: DirView,
    node: Node,
    rest: Seq<Node>,
    holes: Seq<Seq<char>>,
    filter: spec_fn(Seq<char>) -> bool,
)
    ensures
        ({
            let child = node.child;
            let path = below(dir.path, child.name@);
            let left_out = holes.contains(path) || filter(below(dir.within, child.name@));
            let all = refused_in(dir, seq![node] + rest, holes, filter);
            let others = refused_in(dir, rest, holes, filter);
            &&& left_out ==> all == others
            &&& !left_out && child.kind == Some(Kind::Symlink) && child.target is None ==> all
                == others + 1
            &&& !left_out && (child.kind == Some(Kind::File) || child.kind is None) ==> all == others
            &&& !left_out && child.kind == Some(Kind::Dir) ==> all == others + refused_in(
                DirView { path, within: below(dir.within, child.name@) },
                node.inside,
                holes,
                filter,
            )
        }),
{
    let nodes = seq![node] + rest;
    assert(nodes[0] == node);
    assert(nodes.subrange(1, nodes.len() as int) =~= rest);
    lemma_below(dir.path, node.child.name@);
    lemma_below(dir.within, node.child.name@);
}

/// What is captured can be indexed: only a file has a size, and a symlink, and nothing else, has a
/// target, which leads to somewhere inside the tree.
pub proof fn law_what_is_captured_can_be_indexed(entries: Seq<FoundView>, i: int)
    requires
        all_well_shaped(entries),
        0 <= i < entries.len(),
    ensures
        !(entries[i].kind is File) ==> entries[i].size == 0,
        entries[i].kind is Symlink <==> entries[i].target is Some,
        entries[i].target matches Some(target) ==> safe_target(entries[i].path, target),
{
    assert(well_shaped(entries[i]));
}

} // verus!
