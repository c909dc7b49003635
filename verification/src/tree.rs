//! The directory-tree model: sibling nodes in ascending name order, each a
//! file or a directory with an open flag and lazily populated children, and
//! the functional rebuild operations over it.
//!
//! Every operation consumes the old tree and produces a new one; directories
//! missing their children are populated from the snapshot while visiting, and
//! a population failure leaves them unpopulated.

use vstd::prelude::*;
use crate::fs::{DirEntry, FileSystem, lookup, sort_entries, entries_view};
use crate::path::TreePath;

verus! {

pub enum NodeKind {
    File,
    Directory { open: bool, children: Option<Tree> },
}

pub struct Node {
    pub name: String,
    pub path: TreePath,
    pub kind: NodeKind,
}

pub struct Tree {
    pub nodes: Vec<Node>,
}

/// The mathematical shape of a node: its view.
#[verifier::ext_equal]
pub struct NodeV {
    pub name: Seq<char>,
    pub path: Seq<Seq<char>>,
    pub kind: KindV,
}

#[verifier::ext_equal]
pub enum KindV {
    File,
    Directory { open: bool, children: Option<Seq<NodeV>> },
}

pub open spec fn node_view(n: Node) -> NodeV
    decreases n, 0int,
{
    NodeV { name: n.name@, path: n.path@, kind: kind_view(n.kind) }
}

pub open spec fn kind_view(k: NodeKind) -> KindV
    decreases k, 0int,
{
    match k {
        NodeKind::File => KindV::File,
        NodeKind::Directory { open, children } => KindV::Directory {
            open,
            children: match children {
                Some(t) => Some(nodes_view(t.nodes@, 0)),
                None => None,
            },
        },
    }
}

pub open spec fn nodes_view(ns: Seq<Node>, i: int) -> Seq<NodeV>
    decreases ns, ns.len() - i,
{
    if i < 0 || i >= ns.len() {
        Seq::<NodeV>::empty()
    } else {
        seq![node_view(ns[i])] + nodes_view(ns, i + 1)
    }
}

impl View for Node {
    type V = NodeV;

    open spec fn view(&self) -> NodeV {
        node_view(*self)
    }
}

impl View for Tree {
    type V = Seq<NodeV>;

    open spec fn view(&self) -> Seq<NodeV> {
        nodes_view(self.nodes@, 0)
    }
}

/// `nodes_view` lists one view per node, in order.
pub proof fn lemma_nodes_view(ns: Seq<Node>, i: int)
    requires
        0 <= i <= ns.len(),
    ensures
        nodes_view(ns, i).len() == ns.len() - i,
        forall|j: int| 0 <= j < ns.len() - i ==> nodes_view(ns, i)[j] == node_view(ns[i + j]),
    decreases ns.len() - i,
{
    if i < ns.len() {
        lemma_nodes_view(ns, i + 1);
    }
}

/// Which errors tree construction can report: only a failure to read the
/// target directory itself.
#[derive(Clone, Copy, PartialEq, Eq, Structural, Debug)]
pub enum ScanError {
    Unreadable,
}

/// The node a directory entry becomes: a file, or an unopened childless
/// directory, named by the entry and addressed one component below `dir`.
pub open spec fn entry_node(dir: Seq<Seq<char>>, e: (Seq<char>, bool)) -> NodeV {
    NodeV {
        name: e.0,
        path: dir.push(e.0),
        kind: if e.1 {
            KindV::Directory { open: false, children: None }
        } else {
            KindV::File
        },
    }
}

/// One freshly scanned level: the entries of `dir`, sorted by name and
/// classified.
pub open spec fn level_nodes(dir: Seq<Seq<char>>, entries: Seq<(Seq<char>, bool)>) -> Seq<NodeV> {
    sort_entries(entries).map_values(|e: (Seq<char>, bool)| entry_node(dir, e))
}

/// What a scan of `dir` yields: `None` when the snapshot has no listing for
/// it (the directory is unreadable).
pub open spec fn level_of(
    fs: Seq<(Seq<Seq<char>>, Seq<(Seq<char>, bool)>)>,
    dir: Seq<Seq<char>>,
) -> Option<Seq<NodeV>> {
    match lookup(fs, dir) {
        Some(es) => Some(level_nodes(dir, es)),
        None => None,
    }
}

/// How a toggle transforms one directory's open flag.
#[derive(Clone, Copy, PartialEq, Eq, Structural, Debug)]
pub enum OpenChange {
    SetOpen,
    Flip,
}

pub open spec fn apply_change(change: OpenChange, open: bool) -> bool {
    match change {
        OpenChange::SetOpen => true,
        OpenChange::Flip => !open,
    }
}

/// One pass over a freshly scanned level: applies the flag change to a
/// matching directory and populates children one level down, with no further
/// descent — on a level whose directories are all closed and unpopulated
/// this is exactly what a toggle does.
pub open spec fn expand_node(
    n: NodeV,
    fs: Seq<(Seq<Seq<char>>, Seq<(Seq<char>, bool)>)>,
    path: Seq<Seq<char>>,
    change: OpenChange,
) -> NodeV {
    match n.kind {
        KindV::File => n,
        KindV::Directory { open, children } => NodeV {
            name: n.name,
            path: n.path,
            kind: KindV::Directory {
                open: if n.path == path {
                    apply_change(change, open)
                } else {
                    open
                },
                children: match children {
                    Some(c) => Some(c),
                    None => level_of(fs, n.path),
                },
            },
        },
    }
}

pub open spec fn expand_nodes(
    ns: Seq<NodeV>,
    fs: Seq<(Seq<Seq<char>>, Seq<(Seq<char>, bool)>)>,
    path: Seq<Seq<char>>,
    change: OpenChange,
) -> Seq<NodeV>
    decreases ns.len(),
{
    if ns.len() == 0 {
        Seq::<NodeV>::empty()
    } else {
        seq![expand_node(ns[0], fs, path, change)] + expand_nodes(ns.drop_first(), fs, path, change)
    }
}

/// The functional rebuild behind `toggle`: the node whose path matches has
/// `change` applied to its open flag; every directory visited that is
/// missing its children gets one population attempt, a failed one leaving
/// them absent; the walk descends only into children of directories that
/// were already open.
pub open spec fn toggle_node_spec(
    n: NodeV,
    fs: Seq<(Seq<Seq<char>>, Seq<(Seq<char>, bool)>)>,
    path: Seq<Seq<char>>,
    change: OpenChange,
) -> NodeV
    decreases n, 0int,
{
    match n.kind {
        KindV::File => n,
        KindV::Directory { open, children } => NodeV {
            name: n.name,
            path: n.path,
            kind: KindV::Directory {
                open: if n.path == path {
                    apply_change(change, open)
                } else {
                    open
                },
                children: match children {
                    Some(c) => Some(
                        if open {
                            toggle_nodes_spec(c, fs, path, change)
                        } else {
                            c
                        },
                    ),
                    None => match level_of(fs, n.path) {
                        Some(l) => Some(
                            if open {
                                expand_nodes(l, fs, path, change)
                            } else {
                                l
                            },
                        ),
                        None => None,
                    },
                },
            },
        },
    }
}

pub open spec fn toggle_nodes_spec(
    ns: Seq<NodeV>,
    fs: Seq<(Seq<Seq<char>>, Seq<(Seq<char>, bool)>)>,
    path: Seq<Seq<char>>,
    change: OpenChange,
) -> Seq<NodeV>
    decreases ns, 0int,
{
    if ns.len() == 0 {
        Seq::<NodeV>::empty()
    } else {
        seq![toggle_node_spec(ns[0], fs, path, change)] + toggle_nodes_spec(
            ns.drop_first(),
            fs,
            path,
            change,
        )
    }
}

impl Tree {
    /// Scans one level of `dir` from the snapshot: its entries classified
    /// and sorted ascending by name.  Fails exactly when the snapshot holds
    /// no listing for `dir`.
    pub fn new(fs: &FileSystem, dir: &TreePath) -> (r: Result<Tree, ScanError>)
        ensures
            match r {
                Ok(t) => level_of(fs@, dir@) == Some(t@),
                Err(e) => level_of(fs@, dir@) is None && e == ScanError::Unreadable,
            },
    {
        let listing = match fs.entries_of(dir) {
            Some(es) => es,
            None => {
                return Err(ScanError::Unreadable);
            },
        };
        let mut owned: Vec<DirEntry> = Vec::new();
        let mut i: usize = 0;
        while i < listing.len()
            invariant
                i <= listing@.len(),
                owned@.len() == i,
                forall|m: int| 0 <= m < i ==> owned@[m]@ == listing@[m]@,
            decreases listing@.len() - i,
        {
            owned.push(listing[i].clone());
            i += 1;
        }
        proof {
            assert(entries_view(owned@) =~~= entries_view(listing@));
        }
        let sorted = crate::fs::sort_entry_vec(owned);
        let ghost target = level_nodes(dir@, entries_view(listing@));
        let mut nodes: Vec<Node> = Vec::new();
        let mut j: usize = 0;
        proof {
            assert(target.len() == sort_entries(entries_view(listing@)).len());
        }
        while j < sorted.len()
            invariant
                j <= sorted@.len(),
                entries_view(sorted@) == sort_entries(entries_view(listing@)),
                target == level_nodes(dir@, entries_view(listing@)),
                target.len() == sorted@.len(),
                nodes@.len() == j,
                forall|m: int| 0 <= m < j ==> node_view(nodes@[m]) == target[m],
            decreases sorted@.len() - j,
        {
            let e = &sorted[j];
            let kind = if e.is_directory {
                NodeKind::Directory { open: false, children: None }
            } else {
                NodeKind::File
            };
            let node = Node { name: e.name.clone(), path: dir.child(&e.name), kind };
            proof {
                assert(entries_view(sorted@)[j as int] == sorted@[j as int]@);
                assert(node_view(node) =~~= entry_node(dir@, entries_view(sorted@)[j as int]));
            }
            nodes.push(node);
            j += 1;
        }
        let t = Tree { nodes };
        proof {
            lemma_nodes_view(t.nodes@, 0);
            assert(t@ =~~= target);
        }
        Ok(t)
    }

    /// Rebuilds the whole tree, applying `change` to the open flag of the
    /// directory at `path` and lazily populating missing children along the
    /// way.
    pub fn toggle(self, fs: &FileSystem, path: &TreePath, change: OpenChange) -> (r: Tree)
        ensures
            r@ == toggle_nodes_spec(self@, fs@, path@, change),
    {
        Tree { nodes: toggle_vec(self.nodes, fs, path, change) }
    }
}

fn toggle_vec(mut nodes: Vec<Node>, fs: &FileSystem, path: &TreePath, change: OpenChange) -> (r:
    Vec<Node>)
    ensures
        nodes_view(r@, 0) == toggle_nodes_spec(nodes_view(nodes@, 0), fs@, path@, change),
    decreases nodes@, 0int,
{
    let ghost ns0 = nodes@;
    proof {
        lemma_nodes_view(ns0, 0);
    }
    if nodes.len() == 0 {
        proof {
            assert(nodes_view(nodes@, 0) =~~= Seq::<NodeV>::empty());
        }
        nodes
    } else {
        let node = nodes.remove(0);
        proof {
            assert(node == ns0[0]);
            assert(nodes@ =~= ns0.drop_first());
            assert(decreases_to!(ns0 => ns0[0]));
        }
        let new_node = toggle_one(node, fs, path, change);
        let mut rest = toggle_vec(nodes, fs, path, change);
        let ghost r1 = rest@;
        rest.insert(0, new_node);
        proof {
            assert(rest@ =~= seq![new_node] + r1);
            assert(nodes_view(rest@, 0) =~~= seq![node_view(new_node)] + nodes_view(r1, 0)) by {
                lemma_nodes_view(rest@, 0);
                lemma_nodes_view(r1, 0);
            }
            assert(nodes_view(ns0, 0).drop_first() =~~= nodes_view(ns0.drop_first(), 0)) by {
                lemma_nodes_view(ns0, 0);
                lemma_nodes_view(ns0.drop_first(), 0);
            }
            assert(nodes_view(ns0, 0)[0] == node_view(ns0[0]));
            assert(nodes_view(rest@, 0) =~~= toggle_nodes_spec(
                nodes_view(ns0, 0),
                fs@,
                path@,
                change,
            ));
        }
        rest
    }
}

fn toggle_one(node: Node, fs: &FileSystem, path: &TreePath, change: OpenChange) -> (r: Node)
    ensures
        node_view(r) == toggle_node_spec(node_view(node), fs@, path@, change),
    decreases node, 1int,
{
    let ghost n0 = node_view(node);
    let Node { name, path: npath, kind } = node;
    match kind {
        NodeKind::File => {
            let r = Node { name, path: npath, kind: NodeKind::File };
            proof {
                assert(node_view(r) =~~= n0);
            }
            r
        },
        NodeKind::Directory { open, children } => {
            let is_target = npath.same_as(path);
            let new_open = if is_target {
                match change {
                    OpenChange::SetOpen => true,
                    OpenChange::Flip => !open,
                }
            } else {
                open
            };
            let new_children: Option<Tree> = match children {
                Some(t) => {
                    if open {
                        proof {
                            assert(decreases_to!(node => t.nodes@));
                        }
                        Some(Tree { nodes: toggle_vec(t.nodes, fs, path, change) })
                    } else {
                        Some(t)
                    }
                },
                None => {
                    match Tree::new(fs, &npath) {
                        Ok(t) => {
                            if open {
                                Some(expand_tree(t, fs, path, change))
                            } else {
                                Some(t)
                            }
                        },
                        Err(_) => None,
                    }
                },
            };
            let r = Node {
                name,
                path: npath,
                kind: NodeKind::Directory { open: new_open, children: new_children },
            };
            proof {
                assert(node_view(r) =~~= toggle_node_spec(n0, fs@, path@, change));
            }
            r
        },
    }
}

/// One population pass over a freshly scanned level, mirroring
/// `expand_nodes`.
fn expand_tree(t: Tree, fs: &FileSystem, path: &TreePath, change: OpenChange) -> (r: Tree)
    ensures
        r@ == expand_nodes(t@, fs@, path@, change),
{
    Tree { nodes: expand_vec(t.nodes, fs, path, change) }
}

fn expand_vec(mut nodes: Vec<Node>, fs: &FileSystem, path: &TreePath, change: OpenChange) -> (r:
    Vec<Node>)
    ensures
        nodes_view(r@, 0) == expand_nodes(nodes_view(nodes@, 0), fs@, path@, change),
    decreases nodes@.len(),
{
    let ghost ns0 = nodes@;
    proof {
        lemma_nodes_view(ns0, 0);
    }
    if nodes.len() == 0 {
        proof {
            assert(nodes_view(nodes@, 0) =~~= Seq::<NodeV>::empty());
        }
        nodes
    } else {
        let node = nodes.remove(0);
        proof {
            assert(node == ns0[0]);
            assert(nodes@ =~= ns0.drop_first());
        }
        let ghost n0 = node_view(node);
        let Node { name, path: npath, kind } = node;
        let new_node = match kind {
            NodeKind::File => Node { name, path: npath, kind: NodeKind::File },
            NodeKind::Directory { open, children } => {
                let is_target = npath.same_as(path);
                let new_open = if is_target {
                    match change {
                        OpenChange::SetOpen => true,
                        OpenChange::Flip => !open,
                    }
                } else {
                    open
                };
                let new_children: Option<Tree> = match children {
                    Some(t) => Some(t),
                    None => {
                        match Tree::new(fs, &npath) {
                            Ok(t) => Some(t),
                            Err(_) => None,
                        }
                    },
                };
                Node {
                    name,
                    path: npath,
                    kind: NodeKind::Directory { open: new_open, children: new_children },
                }
            },
        };
        proof {
            assert(node_view(new_node) =~~= expand_node(n0, fs@, path@, change));
        }
        let mut rest = expand_vec(nodes, fs, path, change);
        let ghost r1 = rest@;
        rest.insert(0, new_node);
        proof {
            assert(rest@ =~= seq![new_node] + r1);
            assert(nodes_view(rest@, 0) =~~= seq![node_view(new_node)] + nodes_view(r1, 0)) by {
                lemma_nodes_view(rest@, 0);
                lemma_nodes_view(r1, 0);
            }
            assert(nodes_view(ns0, 0).drop_first() =~~= nodes_view(ns0.drop_first(), 0)) by {
                lemma_nodes_view(ns0, 0);
                lemma_nodes_view(ns0.drop_first(), 0);
            }
            assert(nodes_view(ns0, 0)[0] == node_view(ns0[0]));
            assert(nodes_view(rest@, 0) =~~= expand_nodes(nodes_view(ns0, 0), fs@, path@, change));
        }
        rest
    }
}

} // verus!

verus! {

/// The views of a run of borrowed nodes.
pub open spec fn ref_views(s: Seq<&Node>) -> Seq<NodeV> {
    s.map_values(|n: &Node| node_view(*n))
}

/// The views of a run of owned paths.
pub open spec fn path_views(s: Seq<TreePath>) -> Seq<Seq<Seq<char>>> {
    s.map_values(|p: TreePath| p@)
}

/// The views of a run of owned lines.
pub open spec fn line_views(s: Seq<String>) -> Seq<Seq<char>> {
    s.map_values(|x: String| x@)
}

/// The visible nodes at or after position `i`, in depth-first pre-order:
/// every node of the level is visible, and a directory contributes its
/// children exactly when it is open and populated.
pub open spec fn visible_from(ns: Seq<NodeV>, i: int) -> Seq<NodeV>
    decreases ns, ns.len() - i,
{
    if i < 0 || i >= ns.len() {
        Seq::<NodeV>::empty()
    } else {
        seq![ns[i]] + (match ns[i].kind {
            KindV::Directory { open, children } => {
                if open {
                    match children {
                        Some(c) => visible_from(c, 0),
                        None => Seq::<NodeV>::empty(),
                    }
                } else {
                    Seq::<NodeV>::empty()
                }
            },
            KindV::File => Seq::<NodeV>::empty(),
        }) + visible_from(ns, i + 1)
    }
}

/// The visible-node sequence of a whole tree; a node's visible index is its
/// rank here, and binds tree position to rendered line number.
pub open spec fn visible(ns: Seq<NodeV>) -> Seq<NodeV> {
    visible_from(ns, 0)
}

/// The position of the first visible node at `path`, if any.
pub open spec fn first_visible_match(vs: Seq<NodeV>, path: Seq<Seq<char>>) -> Option<int>
    decreases vs.len(),
{
    if vs.len() == 0 {
        None
    } else if vs[0].path == path {
        Some(0int)
    } else {
        match first_visible_match(vs.drop_first(), path) {
            Some(i) => Some(i + 1),
            None => None,
        }
    }
}

/// `first_visible_match` finds exactly the first visible occurrence, and
/// `None` means no visible node carries the path.
pub proof fn lemma_first_visible_match(vs: Seq<NodeV>, path: Seq<Seq<char>>)
    ensures
        match first_visible_match(vs, path) {
            Some(i) => 0 <= i < vs.len() && vs[i].path == path && forall|m: int|
                0 <= m < i ==> vs[m].path != path,
            None => forall|m: int| 0 <= m < vs.len() ==> vs[m].path != path,
        },
    decreases vs.len(),
{
    if vs.len() > 0 && vs[0].path != path {
        let rest = vs.drop_first();
        lemma_first_visible_match(rest, path);
        match first_visible_match(rest, path) {
            Some(i) => {
                assert(vs[i + 1] == rest[i]);
                assert forall|m: int| 0 <= m < i + 1 implies vs[m].path != path by {
                    if m >= 1 {
                        assert(vs[m] == rest[m - 1]);
                    }
                }
            },
            None => {
                assert forall|m: int| 0 <= m < vs.len() implies vs[m].path != path by {
                    if m >= 1 {
                        assert(vs[m] == rest[m - 1]);
                    }
                }
            },
        }
    }
}

/// A first visible hit at position `j` is what `first_visible_match` finds.
pub proof fn lemma_first_visible_match_found(vs: Seq<NodeV>, path: Seq<Seq<char>>, j: int)
    requires
        0 <= j < vs.len(),
        vs[j].path == path,
        forall|m: int| 0 <= m < j ==> vs[m].path != path,
    ensures
        first_visible_match(vs, path) == Some(j),
    decreases vs.len(),
{
    if j > 0 {
        lemma_first_visible_match_found(vs.drop_first(), path, j - 1);
    }
}

/// The paths of the open visible directories, in visit order: the snapshot
/// that `refresh` re-opens.
pub open spec fn open_dir_paths(vs: Seq<NodeV>) -> Seq<Seq<Seq<char>>>
    decreases vs.len(),
{
    if vs.len() == 0 {
        Seq::<Seq<Seq<char>>>::empty()
    } else {
        (if vs[0].kind matches KindV::Directory { open: true, .. } {
            seq![vs[0].path]
        } else {
            Seq::<Seq<Seq<char>>>::empty()
        }) + open_dir_paths(vs.drop_first())
    }
}

fn visible_refs_from<'a>(ns: &'a Vec<Node>, i: usize) -> (r: Vec<&'a Node>)
    requires
        i <= ns@.len(),
    ensures
        ref_views(r@) == visible_from(nodes_view(ns@, 0), i as int),
    decreases ns@, ns@.len() - i,
{
    proof {
        lemma_nodes_view(ns@, 0);
    }
    if i >= ns.len() {
        let r: Vec<&'a Node> = Vec::new();
        proof {
            assert(ref_views(r@) =~~= visible_from(nodes_view(ns@, 0), i as int));
        }
        r
    } else {
        let node = &ns[i];
        let mut r: Vec<&'a Node> = Vec::new();
        r.push(node);
        let ghost head = r@;
        let mut kids: Vec<&'a Node> = match &node.kind {
            NodeKind::Directory { open, children } => {
                if *open {
                    match children {
                        Some(t) => {
                            proof {
                                assert(decreases_to!(ns@ => t.nodes@));
                            }
                            visible_refs_from(&t.nodes, 0)
                        },
                        None => Vec::new(),
                    }
                } else {
                    Vec::new()
                }
            },
            NodeKind::File => Vec::new(),
        };
        let ghost kids0 = kids@;
        r.append(&mut kids);
        let mut rest = visible_refs_from(ns, i + 1);
        let ghost rest0 = rest@;
        r.append(&mut rest);
        proof {
            assert(r@ =~= head + kids0 + rest0);
            assert(ref_views(r@) =~~= seq![node_view(*node)] + ref_views(kids0) + ref_views(
                rest0,
            ));
            assert(nodes_view(ns@, 0)[i as int] == node_view(ns@[i as int]));
            assert(ref_views(r@) =~~= visible_from(nodes_view(ns@, 0), i as int));
        }
        r
    }
}

impl Tree {
    /// The visible nodes in order, borrowed: the traversal engine behind
    /// index lookup, path lookup and the refresh snapshot.
    pub fn visible_nodes<'a>(&'a self) -> (r: Vec<&'a Node>)
        ensures
            ref_views(r@) == visible(self@),
    {
        visible_refs_from(&self.nodes, 0)
    }

    /// The node whose visible index is `index`: the line-to-node resolution
    /// used when a key is pressed on a cursor line.  `None` exactly when the
    /// index is out of range.
    pub fn get<'a>(&'a self, index: usize) -> (r: Option<&'a Node>)
        ensures
            match r {
                Some(n) => index < visible(self@).len() && node_view(*n) == visible(
                    self@,
                )[index as int],
                None => index >= visible(self@).len(),
            },
    {
        let refs = self.visible_nodes();
        if index < refs.len() {
            proof {
                assert(ref_views(refs@)[index as int] == node_view(*refs@[index as int]));
            }
            Some(refs[index])
        } else {
            None
        }
    }

    /// The visible index of the node at `path`: the inverse of `get`, used
    /// to place the cursor after a reveal.  `None` exactly when no visible
    /// node carries the path.
    pub fn find_index(&self, path: &TreePath) -> (r: Option<usize>)
        ensures
            match first_visible_match(visible(self@), path@) {
                Some(i) => r matches Some(u) && u == i,
                None => r is None,
            },
    {
        proof {
            lemma_first_visible_match(visible(self@), path@);
        }
        let refs = self.visible_nodes();
        let ghost vs = visible(self@);
        let mut j: usize = 0;
        while j < refs.len()
            invariant
                j <= refs@.len(),
                vs == ref_views(refs@),
                vs == visible(self@),
                vs.len() == refs@.len(),
                forall|m: int| 0 <= m < j ==> vs[m].path != path@,
            decreases refs@.len() - j,
        {
            proof {
                assert(vs[j as int] == node_view(*refs@[j as int]));
            }
            if refs[j].path.same_as(path) {
                proof {
                    lemma_first_visible_match_found(vs, path@, j as int);
                }
                return Some(j);
            }
            j += 1;
        }
        None
    }

    /// The paths of the currently open visible directories, in visit order.
    pub fn open_directory_paths(&self) -> (r: Vec<TreePath>)
        ensures
            path_views(r@) == open_dir_paths(visible(self@)),
    {
        let refs = self.visible_nodes();
        let ghost vs = visible(self@);
        let mut out: Vec<TreePath> = Vec::new();
        let mut j: usize = 0;
        proof {
            assert(vs.skip(0) =~~= vs);
            assert(path_views(out@) + open_dir_paths(vs) =~~= open_dir_paths(vs));
        }
        while j < refs.len()
            invariant
                j <= refs@.len(),
                vs == ref_views(refs@),
                vs == visible(self@),
                vs.len() == refs@.len(),
                open_dir_paths(vs) == path_views(out@) + open_dir_paths(vs.skip(j as int)),
            decreases refs@.len() - j,
        {
            let ghost out0 = out@;
            proof {
                assert(vs[j as int] == node_view(*refs@[j as int]));
                assert(vs.skip(j as int)[0] == vs[j as int]);
                assert(vs.skip(j as int).drop_first() =~~= vs.skip(j as int + 1));
            }
            let node = refs[j];
            match &node.kind {
                NodeKind::Directory { open: true, .. } => {
                    out.push(node.path.clone());
                    proof {
                        assert(path_views(out@) =~~= path_views(out0) + seq![
                            vs[j as int].path,
                        ]);
                        assert(open_dir_paths(vs) =~~= path_views(out@) + open_dir_paths(
                            vs.skip(j as int + 1),
                        ));
                    }
                },
                _ => {
                    proof {
                        assert(open_dir_paths(vs.skip(j as int)) =~~= open_dir_paths(
                            vs.skip(j as int + 1),
                        ));
                    }
                },
            }
            j += 1;
        }
        proof {
            assert(vs.skip(j as int).len() == 0);
            assert(open_dir_paths(vs.skip(j as int)) =~~= Seq::<Seq<Seq<char>>>::empty());
            assert(path_views(out@) =~~= open_dir_paths(vs));
        }
        out
    }
}

} // verus!

verus! {

/// Two spaces per indent level.
pub open spec fn sp_indent(indent: nat) -> Seq<char>
    decreases indent,
{
    if indent == 0 {
        Seq::<char>::empty()
    } else {
        sp_indent((indent - 1) as nat) + "  "@
    }
}

/// The indent of a nested level; the step saturates at the machine limit,
/// which no real tree reaches.
pub open spec fn next_indent(indent: nat) -> nat {
    if indent < usize::MAX {
        (indent + 1) as nat
    } else {
        indent
    }
}

/// The one text line a visible node renders to: indent, a bullet, an icon,
/// the name, and for a directory a trailing `/` and a colon marker.
pub open spec fn node_line(n: NodeV, indent: nat) -> Seq<char> {
    match n.kind {
        KindV::File => sp_indent(indent) + " - "@ + "📄"@ + "  "@ + n.name,
        KindV::Directory { open, .. } => sp_indent(indent) + " - "@ + (if open {
            "📂"@
        } else {
            "📁"@
        }) + "  "@ + n.name + "/ :"@,
    }
}

/// The rendered lines from position `i` on: one line per visible node, in
/// the same depth-first pre-order as `visible_from`, children one level
/// deeper.
pub open spec fn render_lines(ns: Seq<NodeV>, i: int, indent: nat) -> Seq<Seq<char>>
    decreases ns, ns.len() - i,
{
    if i < 0 || i >= ns.len() {
        Seq::<Seq<char>>::empty()
    } else {
        seq![node_line(ns[i], indent)] + (match ns[i].kind {
            KindV::Directory { open, children } => {
                if open {
                    match children {
                        Some(c) => render_lines(c, 0, next_indent(indent)),
                        None => Seq::<Seq<char>>::empty(),
                    }
                } else {
                    Seq::<Seq<char>>::empty()
                }
            },
            KindV::File => Seq::<Seq<char>>::empty(),
        }) + render_lines(ns, i + 1, indent)
    }
}

/// The lines joined by single newlines.
pub open spec fn join_lines(lines: Seq<Seq<char>>) -> Seq<char>
    decreases lines.len(),
{
    if lines.len() == 0 {
        Seq::<char>::empty()
    } else if lines.len() == 1 {
        lines[0]
    } else {
        lines[0] + "\n"@ + join_lines(lines.drop_first())
    }
}

/// Render order is visible-walk order: the rendering has exactly one line
/// per visible node, which keeps cursor-line arithmetic consistent with the
/// traversal.
pub proof fn lemma_render_count(ns: Seq<NodeV>, i: int, indent: nat)
    ensures
        render_lines(ns, i, indent).len() == visible_from(ns, i).len(),
    decreases ns, ns.len() - i,
{
    if 0 <= i < ns.len() {
        match ns[i].kind {
            KindV::Directory { open, children } => {
                if open {
                    match children {
                        Some(c) => {
                            lemma_render_count(c, 0, next_indent(indent));
                        },
                        None => {},
                    }
                }
            },
            KindV::File => {},
        }
        lemma_render_count(ns, i + 1, indent);
    }
}

pub proof fn lemma_join_push(s: Seq<Seq<char>>, x: Seq<char>)
    ensures
        join_lines(s.push(x)) == if s.len() == 0 {
            x
        } else {
            join_lines(s) + "\n"@ + x
        },
    decreases s.len(),
{
    let p = s.push(x);
    if s.len() == 0 {
        assert(p.len() == 1);
        assert(p[0] == x);
    } else {
        lemma_join_push(s.drop_first(), x);
        assert(p.drop_first() =~~= s.drop_first().push(x));
        assert(p[0] == s[0]);
        if s.len() == 1 {
            assert(join_lines(s) == s[0]);
        } else {
            assert(s[0] + "\n"@ + (join_lines(s.drop_first()) + "\n"@ + x) =~= (s[0] + "\n"@
                + join_lines(s.drop_first())) + "\n"@ + x);
        }
    }
}

fn render_line(n: &Node, indent: usize) -> (r: String)
    ensures
        r@ == node_line(node_view(*n), indent as nat),
{
    let mut s = String::new();
    let mut k: usize = 0;
    while k < indent
        invariant
            k <= indent,
            s@ == sp_indent(k as nat),
        decreases indent - k,
    {
        s.append("  ");
        k += 1;
    }
    s.append(" - ");
    match &n.kind {
        NodeKind::File => {
            s.append("📄");
            s.append("  ");
            s.append(n.name.as_str());
            proof {
                assert(s@ =~= node_line(node_view(*n), indent as nat));
            }
        },
        NodeKind::Directory { open, .. } => {
            if *open {
                s.append("📂");
            } else {
                s.append("📁");
            }
            s.append("  ");
            s.append(n.name.as_str());
            s.append("/ :");
            proof {
                assert(s@ =~= node_line(node_view(*n), indent as nat));
            }
        },
    }
    s
}

fn render_vec(ns: &Vec<Node>, i: usize, indent: usize) -> (r: Vec<String>)
    requires
        i <= ns@.len(),
    ensures
        line_views(r@) == render_lines(nodes_view(ns@, 0), i as int, indent as nat),
    decreases ns@, ns@.len() - i,
{
    proof {
        lemma_nodes_view(ns@, 0);
    }
    if i >= ns.len() {
        let r: Vec<String> = Vec::new();
        proof {
            assert(line_views(r@) =~~= render_lines(nodes_view(ns@, 0), i as int, indent as nat));
        }
        r
    } else {
        let node = &ns[i];
        let mut r: Vec<String> = Vec::new();
        r.push(render_line(node, indent));
        let ghost head = r@;
        let child_indent: usize = if indent < usize::MAX {
            indent + 1
        } else {
            indent
        };
        let mut kids: Vec<String> = match &node.kind {
            NodeKind::Directory { open, children } => {
                if *open {
                    match children {
                        Some(t) => {
                            proof {
                                assert(decreases_to!(ns@ => t.nodes@));
                            }
                            render_vec(&t.nodes, 0, child_indent)
                        },
                        None => Vec::new(),
                    }
                } else {
                    Vec::new()
                }
            },
            NodeKind::File => Vec::new(),
        };
        let ghost kids0 = kids@;
        r.append(&mut kids);
        let mut rest = render_vec(ns, i + 1, indent);
        let ghost rest0 = rest@;
        r.append(&mut rest);
        proof {
            assert(r@ =~= head + kids0 + rest0);
            assert(line_views(r@) =~~= seq![node_line(node_view(*node), indent as nat)]
                + line_views(kids0) + line_views(rest0));
            assert(nodes_view(ns@, 0)[i as int] == node_view(ns@[i as int]));
            assert(line_views(r@) =~~= render_lines(nodes_view(ns@, 0), i as int, indent as nat));
        }
        r
    }
}

fn join_line_vec(lines: &Vec<String>) -> (r: String)
    ensures
        r@ == join_lines(line_views(lines@)),
{
    if lines.len() == 0 {
        let r = String::new();
        proof {
            assert(line_views(lines@) =~~= Seq::<Seq<char>>::empty());
        }
        return r;
    }
    let mut r = lines[0].clone();
    let mut j: usize = 1;
    proof {
        assert(line_views(lines@).subrange(0, 1)[0] == lines@[0]@);
        assert(r@ == join_lines(line_views(lines@).subrange(0, 1)));
    }
    while j < lines.len()
        invariant
            1 <= j <= lines@.len(),
            r@ == join_lines(line_views(lines@).subrange(0, j as int)),
        decreases lines@.len() - j,
    {
        let ghost pre = line_views(lines@).subrange(0, j as int);
        r.append("\n");
        r.append(lines[j].as_str());
        proof {
            lemma_join_push(pre, lines@[j as int]@);
            assert(line_views(lines@).subrange(0, j as int + 1) =~~= pre.push(lines@[j as int]@));
        }
        j += 1;
    }
    proof {
        assert(line_views(lines@).subrange(0, lines@.len() as int) =~~= line_views(lines@));
    }
    r
}

impl Tree {
    /// Serializes the subtree to indented text, one line per visible node in
    /// document order.
    pub fn render_with_indent(&self, indent: usize) -> (r: String)
        ensures
            r@ == join_lines(render_lines(self@, 0, indent as nat)),
    {
        let lines = render_vec(&self.nodes, 0, indent);
        join_line_vec(&lines)
    }

    /// The whole tree rendered from indent level zero.
    pub fn render(&self) -> (r: String)
        ensures
            r@ == join_lines(render_lines(self@, 0, 0)),
    {
        self.render_with_indent(0)
    }
}

} // verus!

verus! {

/// The tree after force-opening every component prefix of `path`, shortest
/// first: what `reveal` builds.
pub open spec fn toggle_prefixes(
    ns: Seq<NodeV>,
    fs: Seq<(Seq<Seq<char>>, Seq<(Seq<char>, bool)>)>,
    path: Seq<Seq<char>>,
    k: int,
) -> Seq<NodeV>
    decreases k,
{
    if k <= 0 {
        ns
    } else {
        toggle_nodes_spec(
            toggle_prefixes(ns, fs, path, k - 1),
            fs,
            path.subrange(0, k),
            OpenChange::SetOpen,
        )
    }
}

pub open spec fn reveal_spec(
    ns: Seq<NodeV>,
    fs: Seq<(Seq<Seq<char>>, Seq<(Seq<char>, bool)>)>,
    path: Seq<Seq<char>>,
) -> Seq<NodeV> {
    toggle_prefixes(ns, fs, path, path.len() as int)
}

/// The tree after force-opening the first `k` collected paths in turn.
pub open spec fn toggle_each(
    ns: Seq<NodeV>,
    fs: Seq<(Seq<Seq<char>>, Seq<(Seq<char>, bool)>)>,
    paths: Seq<Seq<Seq<char>>>,
    k: int,
) -> Seq<NodeV>
    decreases k,
{
    if k <= 0 {
        ns
    } else {
        toggle_nodes_spec(toggle_each(ns, fs, paths, k - 1), fs, paths[k - 1], OpenChange::SetOpen)
    }
}

/// What `refresh` yields: a brand-new scan of the working directory with
/// every directory that was open and visible force-opened again.  Paths that
/// vanished are silently absent: force-opening them finds no node.
pub open spec fn refresh_spec(
    ns: Seq<NodeV>,
    fs: Seq<(Seq<Seq<char>>, Seq<(Seq<char>, bool)>)>,
    wd: Seq<Seq<char>>,
) -> Option<Seq<NodeV>> {
    match level_of(fs, wd) {
        Some(base) => Some(
            toggle_each(
                base,
                fs,
                open_dir_paths(visible(ns)),
                open_dir_paths(visible(ns)).len() as int,
            ),
        ),
        None => None,
    }
}

impl Tree {
    /// Force-opens every ancestor prefix of `path`, so the entry at `path`
    /// is visible afterwards whenever it exists in the snapshot, whatever
    /// the prior expansion state.
    pub fn reveal_path(self, fs: &FileSystem, path: &TreePath) -> (r: Tree)
        ensures
            r@ == reveal_spec(self@, fs@, path@),
    {
        let ghost orig = self@;
        let mut tree = self;
        let total = path.len();
        let mut k: usize = 0;
        while k < total
            invariant
                k <= total,
                total == path@.len(),
                tree@ == toggle_prefixes(orig, fs@, path@, k as int),
            decreases total - k,
        {
            let prefix = path.prefix(k + 1);
            tree = tree.toggle(fs, &prefix, OpenChange::SetOpen);
            k += 1;
        }
        tree
    }

    /// Re-derives the tree from the snapshot while preserving which visible
    /// directories were open.  Fails exactly when the working directory
    /// itself has no listing.
    pub fn refresh(&self, fs: &FileSystem, wd: &TreePath) -> (r: Result<Tree, ScanError>)
        ensures
            match r {
                Ok(t) => refresh_spec(self@, fs@, wd@) == Some(t@),
                Err(e) => refresh_spec(self@, fs@, wd@) is None && e == ScanError::Unreadable,
            },
    {
        let ghost orig = self@;
        let opened = self.open_directory_paths();
        let base = match Tree::new(fs, wd) {
            Ok(t) => t,
            Err(e) => {
                return Err(e);
            },
        };
        let ghost ps = open_dir_paths(visible(orig));
        let ghost base0 = base@;
        let mut tree = base;
        let mut k: usize = 0;
        while k < opened.len()
            invariant
                k <= opened@.len(),
                ps == open_dir_paths(visible(orig)),
                path_views(opened@) == ps,
                ps.len() == opened@.len(),
                level_of(fs@, wd@) == Some(base0),
                tree@ == toggle_each(base0, fs@, ps, k as int),
            decreases opened@.len() - k,
        {
            proof {
                assert(opened@[k as int]@ == ps[k as int]);
            }
            tree = tree.toggle(fs, &opened[k], OpenChange::SetOpen);
            k += 1;
        }
        Ok(tree)
    }
}

impl Node {
    /// Re-scans this node's populated children from the snapshot; children
    /// never populated stay absent, and a directory whose listing vanished
    /// loses its cached children.
    pub fn refresh(self, fs: &FileSystem) -> (r: Node)
        ensures
            node_view(r) == node_refresh_spec(node_view(self), fs@),
    {
        let ghost n0 = node_view(self);
        let Node { name, path, kind } = self;
        match kind {
            NodeKind::File => {
                let r = Node { name, path, kind: NodeKind::File };
                proof {
                    assert(node_view(r) =~~= n0);
                }
                r
            },
            NodeKind::Directory { open, children } => {
                let new_children: Option<Tree> = match children {
                    Some(_) => match Tree::new(fs, &path) {
                        Ok(t) => Some(t),
                        Err(_) => None,
                    },
                    None => None,
                };
                let r = Node {
                    name,
                    path,
                    kind: NodeKind::Directory { open, children: new_children },
                };
                proof {
                    assert(node_view(r) =~~= node_refresh_spec(n0, fs@));
                }
                r
            },
        }
    }
}

/// What `Node::refresh` computes.
pub open spec fn node_refresh_spec(
    n: NodeV,
    fs: Seq<(Seq<Seq<char>>, Seq<(Seq<char>, bool)>)>,
) -> NodeV {
    match n.kind {
        KindV::File => n,
        KindV::Directory { open, children } => NodeV {
            name: n.name,
            path: n.path,
            kind: KindV::Directory {
                open,
                children: match children {
                    Some(_) => level_of(fs, n.path),
                    None => None,
                },
            },
        },
    }
}

} // verus!

verus! {

/// One level is in ascending name order.
pub open spec fn level_names_sorted(ns: Seq<NodeV>) -> bool {
    forall|a: int, b: int|
        0 <= a < b < ns.len() ==> crate::lex::lex_le(ns[a].name, ns[b].name)
}

pub open spec fn node_sorted(n: NodeV) -> bool
    decreases n, 0int,
{
    match n.kind {
        KindV::File => true,
        KindV::Directory { children, .. } => match children {
            Some(c) => level_names_sorted(c) && children_sorted(c, 0),
            None => true,
        },
    }
}

/// Every node at or after position `i` has a sorted subtree.
pub open spec fn children_sorted(ns: Seq<NodeV>, i: int) -> bool
    decreases ns, ns.len() - i,
{
    if i < 0 || i >= ns.len() {
        true
    } else {
        node_sorted(ns[i]) && children_sorted(ns, i + 1)
    }
}

/// Every level of the tree, cached children of closed directories included,
/// is in ascending name order.
pub open spec fn all_sorted(ns: Seq<NodeV>) -> bool {
    level_names_sorted(ns) && children_sorted(ns, 0)
}

/// `children_sorted` from `i` is exactly `node_sorted` of each node from `i`.
pub proof fn lemma_children_sorted_index(ns: Seq<NodeV>, i: int)
    requires
        0 <= i <= ns.len(),
        children_sorted(ns, i),
    ensures
        forall|a: int| i <= a < ns.len() ==> #[trigger] node_sorted(ns[a]),
    decreases ns.len() - i,
{
    if i < ns.len() {
        lemma_children_sorted_index(ns, i + 1);
    }
}

pub proof fn lemma_children_sorted_build(ns: Seq<NodeV>, i: int)
    requires
        0 <= i <= ns.len(),
        forall|a: int| i <= a < ns.len() ==> #[trigger] node_sorted(ns[a]),
    ensures
        children_sorted(ns, i),
    decreases ns.len() - i,
{
    if i < ns.len() {
        assert(node_sorted(ns[i]));
        lemma_children_sorted_build(ns, i + 1);
    }
}

/// A freshly scanned level is sorted, and its nodes carry no subtrees.
pub proof fn lemma_level_nodes_sorted(dir: Seq<Seq<char>>, entries: Seq<(Seq<char>, bool)>)
    ensures
        all_sorted(level_nodes(dir, entries)),
{
    crate::fs::lemma_sort_entries(entries);
    let s = sort_entries(entries);
    let l = level_nodes(dir, entries);
    assert forall|a: int, b: int|
        0 <= a < b < l.len() implies crate::lex::lex_le(l[a].name, l[b].name) by {
        assert(l[a] == entry_node(dir, s[a]));
        assert(l[b] == entry_node(dir, s[b]));
    }
    assert forall|a: int| 0 <= a < l.len() implies node_sorted(l[a]) by {
        assert(l[a] == entry_node(dir, s[a]));
    }
    lemma_children_sorted_build(l, 0);
}

pub proof fn lemma_expand_elems(
    ns: Seq<NodeV>,
    fs: Seq<(Seq<Seq<char>>, Seq<(Seq<char>, bool)>)>,
    path: Seq<Seq<char>>,
    change: OpenChange,
)
    ensures
        expand_nodes(ns, fs, path, change).len() == ns.len(),
        forall|j: int|
            0 <= j < ns.len() ==> expand_nodes(ns, fs, path, change)[j] == expand_node(
                ns[j],
                fs,
                path,
                change,
            ),
    decreases ns.len(),
{
    if ns.len() > 0 {
        lemma_expand_elems(ns.drop_first(), fs, path, change);
        let r = expand_nodes(ns, fs, path, change);
        assert forall|j: int|
            0 <= j < ns.len() implies r[j] == expand_node(ns[j], fs, path, change) by {
            if j >= 1 {
                assert(r[j] == expand_nodes(ns.drop_first(), fs, path, change)[j - 1]);
                assert(ns.drop_first()[j - 1] == ns[j]);
            }
        }
    }
}

pub proof fn lemma_toggle_elems(
    ns: Seq<NodeV>,
    fs: Seq<(Seq<Seq<char>>, Seq<(Seq<char>, bool)>)>,
    path: Seq<Seq<char>>,
    change: OpenChange,
)
    ensures
        toggle_nodes_spec(ns, fs, path, change).len() == ns.len(),
        forall|j: int|
            0 <= j < ns.len() ==> toggle_nodes_spec(ns, fs, path, change)[j] == toggle_node_spec(
                ns[j],
                fs,
                path,
                change,
            ),
    decreases ns.len(),
{
    if ns.len() > 0 {
        lemma_toggle_elems(ns.drop_first(), fs, path, change);
        let r = toggle_nodes_spec(ns, fs, path, change);
        assert forall|j: int|
            0 <= j < ns.len() implies r[j] == toggle_node_spec(ns[j], fs, path, change) by {
            if j >= 1 {
                assert(r[j] == toggle_nodes_spec(ns.drop_first(), fs, path, change)[j - 1]);
                assert(ns.drop_first()[j - 1] == ns[j]);
            }
        }
    }
}

/// A population pass keeps every level sorted.
pub proof fn lemma_expand_sorted(
    ns: Seq<NodeV>,
    fs: Seq<(Seq<Seq<char>>, Seq<(Seq<char>, bool)>)>,
    path: Seq<Seq<char>>,
    change: OpenChange,
)
    requires
        all_sorted(ns),
    ensures
        all_sorted(expand_nodes(ns, fs, path, change)),
{
    lemma_expand_elems(ns, fs, path, change);
    lemma_children_sorted_index(ns, 0);
    let r = expand_nodes(ns, fs, path, change);
    assert forall|a: int, b: int|
        0 <= a < b < r.len() implies crate::lex::lex_le(r[a].name, r[b].name) by {
        assert(r[a].name == ns[a].name);
        assert(r[b].name == ns[b].name);
        assert(crate::lex::lex_le(ns[a].name, ns[b].name));
    }
    assert forall|a: int| 0 <= a < r.len() implies node_sorted(r[a]) by {
        assert(node_sorted(ns[a]));
        match ns[a].kind {
            KindV::File => {},
            KindV::Directory { open, children } => {
                match children {
                    Some(_) => {},
                    None => {
                        match lookup(fs, ns[a].path) {
                            Some(es) => {
                                lemma_level_nodes_sorted(ns[a].path, es);
                            },
                            None => {},
                        }
                    },
                }
            },
        }
    }
    lemma_children_sorted_build(r, 0);
}

/// Sorting invariant (law): a toggle keeps every level of the tree in
/// ascending name order, freshly populated levels included.
pub proof fn lemma_toggle_sorted(
    ns: Seq<NodeV>,
    fs: Seq<(Seq<Seq<char>>, Seq<(Seq<char>, bool)>)>,
    path: Seq<Seq<char>>,
    change: OpenChange,
)
    requires
        all_sorted(ns),
    ensures
        all_sorted(toggle_nodes_spec(ns, fs, path, change)),
    decreases ns, 1int,
{
    lemma_toggle_elems(ns, fs, path, change);
    lemma_children_sorted_index(ns, 0);
    let r = toggle_nodes_spec(ns, fs, path, change);
    assert forall|a: int, b: int|
        0 <= a < b < r.len() implies crate::lex::lex_le(r[a].name, r[b].name) by {
        assert(r[a] == toggle_node_spec(ns[a], fs, path, change));
        assert(r[b] == toggle_node_spec(ns[b], fs, path, change));
        assert(r[a].name == ns[a].name);
        assert(r[b].name == ns[b].name);
        assert(crate::lex::lex_le(ns[a].name, ns[b].name));
    }
    assert forall|a: int| 0 <= a < r.len() implies node_sorted(r[a]) by {
        assert(r[a] == toggle_node_spec(ns[a], fs, path, change));
        assert(node_sorted(ns[a]));
        lemma_toggle_node_sorted(ns[a], fs, path, change);
    }
    lemma_children_sorted_build(r, 0);
}

pub proof fn lemma_toggle_node_sorted(
    n: NodeV,
    fs: Seq<(Seq<Seq<char>>, Seq<(Seq<char>, bool)>)>,
    path: Seq<Seq<char>>,
    change: OpenChange,
)
    requires
        node_sorted(n),
    ensures
        node_sorted(toggle_node_spec(n, fs, path, change)),
    decreases n, 0int,
{
    match n.kind {
        KindV::File => {},
        KindV::Directory { open, children } => {
            match children {
                Some(c) => {
                    if open {
                        lemma_toggle_sorted(c, fs, path, change);
                    }
                },
                None => {
                    match lookup(fs, n.path) {
                        Some(es) => {
                            lemma_level_nodes_sorted(n.path, es);
                            if open {
                                lemma_expand_sorted(level_nodes(n.path, es), fs, path, change);
                            }
                        },
                        None => {},
                    }
                },
            }
        },
    }
}

/// Sorting invariant (law): force-opening every prefix of a path, as
/// `reveal` does, keeps every level sorted.
pub proof fn lemma_reveal_sorted(
    ns: Seq<NodeV>,
    fs: Seq<(Seq<Seq<char>>, Seq<(Seq<char>, bool)>)>,
    path: Seq<Seq<char>>,
    k: int,
)
    requires
        all_sorted(ns),
    ensures
        all_sorted(toggle_prefixes(ns, fs, path, k)),
    decreases k,
{
    if k > 0 {
        lemma_reveal_sorted(ns, fs, path, k - 1);
        lemma_toggle_sorted(
            toggle_prefixes(ns, fs, path, k - 1),
            fs,
            path.subrange(0, k),
            OpenChange::SetOpen,
        );
    }
}

/// Sorting invariant (law): a refresh yields a tree whose every level is
/// sorted, whatever the old tree was.
pub proof fn lemma_refresh_sorted(
    ns: Seq<NodeV>,
    fs: Seq<(Seq<Seq<char>>, Seq<(Seq<char>, bool)>)>,
    wd: Seq<Seq<char>>,
)
    ensures
        match refresh_spec(ns, fs, wd) {
            Some(r) => all_sorted(r),
            None => true,
        },
{
    match lookup(fs, wd) {
        Some(es) => {
            lemma_level_nodes_sorted(wd, es);
            let ps = open_dir_paths(visible(ns));
            lemma_toggle_each_sorted(level_nodes(wd, es), fs, ps, ps.len() as int);
        },
        None => {},
    }
}

pub proof fn lemma_toggle_each_sorted(
    ns: Seq<NodeV>,
    fs: Seq<(Seq<Seq<char>>, Seq<(Seq<char>, bool)>)>,
    paths: Seq<Seq<Seq<char>>>,
    k: int,
)
    requires
        all_sorted(ns),
    ensures
        all_sorted(toggle_each(ns, fs, paths, k)),
    decreases k,
{
    if k > 0 {
        lemma_toggle_each_sorted(ns, fs, paths, k - 1);
        lemma_toggle_sorted(toggle_each(ns, fs, paths, k - 1), fs, paths[k - 1], OpenChange::SetOpen);
    }
}

/// A toggle rebuilds every level onto the same siblings: the level keeps
/// its length and, position by position, its names and paths.  Together
/// with `lemma_toggle_sorted` this is the sorting invariant: the ascending
/// name order laid down at construction survives every toggle.
pub proof fn lemma_toggle_preserves_siblings(
    ns: Seq<NodeV>,
    fs: Seq<(Seq<Seq<char>>, Seq<(Seq<char>, bool)>)>,
    path: Seq<Seq<char>>,
    change: OpenChange,
)
    ensures
        toggle_nodes_spec(ns, fs, path, change).len() == ns.len(),
        forall|j: int|
            0 <= j < ns.len() ==> #[trigger] toggle_nodes_spec(ns, fs, path, change)[j].name
                == ns[j].name && toggle_nodes_spec(ns, fs, path, change)[j].path == ns[j].path,
{
    lemma_toggle_elems(ns, fs, path, change);
    let r = toggle_nodes_spec(ns, fs, path, change);
    assert forall|j: int|
        0 <= j < ns.len() implies #[trigger] r[j].name == ns[j].name && r[j].path
        == ns[j].path by {
        assert(r[j] == toggle_node_spec(ns[j], fs, path, change));
    }
}

/// Visible-index consistency (law): when `find_index` finds `i` for a path,
/// the node at visible index `i` carries that path — so `get(find_index(p))`
/// returns the node at `p`; and when no visible node carries the path, for
/// instance because it is hidden behind a closed ancestor, no index is found.
pub proof fn lemma_visible_index_consistency(vs: Seq<NodeV>, path: Seq<Seq<char>>)
    ensures
        match first_visible_match(vs, path) {
            Some(i) => 0 <= i < vs.len() && vs[i].path == path,
            None => forall|m: int| 0 <= m < vs.len() ==> vs[m].path != path,
        },
{
    lemma_first_visible_match(vs, path);
}

} // verus!
