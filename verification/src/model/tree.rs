//! Arena-backed file tree with folder grouping and collapse/expand.
//!
//! Nodes live in a flat `Vec` and refer to each other by index. `visible` is the
//! flattened, in-order list of node indices that are currently on screen given
//! the collapsed state: the tree panel and cursor navigation work on `visible`
//! alone.

use vstd::prelude::*;

use crate::model::file::{file_models, ChangedFile, FileModel};
use crate::path::{components, is_path_less, path_less, split_path};
use crate::text::{lemma_take_step, same, strings};

verus! {

#[derive(Debug)]
pub struct TreeNode {
    pub name: String,
    pub children: Vec<usize>,
    /// `Some(index into files)` for a file leaf; `None` for a folder.
    pub file: Option<usize>,
    pub collapsed: bool,
    pub depth: u16,
}

#[derive(Debug)]
pub struct FileTree {
    pub nodes: Vec<TreeNode>,
    pub root: usize,
    /// Flattened visible node indices (root itself excluded).
    pub visible: Vec<usize>,
}

/// A tree node as a mathematical value.
#[verifier::ext_equal]
pub struct NodeModel {
    pub name: Seq<char>,
    pub children: Seq<usize>,
    pub file: Option<usize>,
    pub collapsed: bool,
    pub depth: u16,
}

/// A tree as a mathematical value.
#[verifier::ext_equal]
pub struct TreeModel {
    pub nodes: Seq<NodeModel>,
    pub root: usize,
    pub visible: Seq<usize>,
}

impl View for TreeNode {
    type V = NodeModel;

    open spec fn view(&self) -> NodeModel {
        NodeModel {
            name: self.name@,
            children: self.children@,
            file: self.file,
            collapsed: self.collapsed,
            depth: self.depth,
        }
    }
}

/// The nodes of a list, as mathematical values.
pub open spec fn node_models(nodes: Seq<TreeNode>) -> Seq<NodeModel> {
    nodes.map_values(|n: TreeNode| n@)
}

impl View for FileTree {
    type V = TreeModel;

    open spec fn view(&self) -> TreeModel {
        TreeModel { nodes: node_models(self.nodes@), root: self.root, visible: self.visible@ }
    }
}

/// Nodes that form a tree: a child stands behind its parent in the arena.
pub open spec fn arena_ok(nodes: Seq<NodeModel>) -> bool {
    forall|n: int, k: int|
        0 <= n < nodes.len() && 0 <= k < nodes[n].children.len() ==> n
            < #[trigger] nodes[n].children[k] < nodes.len()
}

/// Every leaf is one of the first `n` files.
pub open spec fn leaves_below(nodes: Seq<NodeModel>, n: int) -> bool {
    forall|i: int|
        0 <= i < nodes.len() && (#[trigger] nodes[i]).file is Some ==> nodes[i].file->0 < n
}

impl TreeModel {
    pub open spec fn wf(self) -> bool {
        &&& self.root < self.nodes.len()
        &&& arena_ok(self.nodes)
        &&& forall|i: int|
            0 <= i < self.visible.len() ==> #[trigger] self.visible[i] < self.nodes.len()
    }
}

// ── what is visible ────────────────────────────────────────────────────────

/// Whether the child `c` of `idx` is shown: a file when it is kept, a folder when
/// it holds a kept file at any depth.
pub open spec fn child_shown(
    nodes: Seq<NodeModel>,
    idx: int,
    c: int,
    kept: spec_fn(int) -> bool,
) -> bool
    decreases nodes.len() - idx, 0int,
{
    if !(0 <= idx < c < nodes.len()) {
        false
    } else if nodes[c].file is Some {
        kept(c)
    } else {
        any_shown(nodes, c, nodes[c].children.len() as int, kept)
    }
}

/// Whether one of the first `k` children of `idx` is shown.
pub open spec fn any_shown(
    nodes: Seq<NodeModel>,
    idx: int,
    k: int,
    kept: spec_fn(int) -> bool,
) -> bool
    decreases nodes.len() - idx, 1int, k,
{
    if k <= 0 || !(0 <= idx < nodes.len()) {
        false
    } else {
        any_shown(nodes, idx, k - 1, kept) || child_shown(
            nodes,
            idx,
            nodes[idx].children[k - 1] as int,
            kept,
        )
    }
}

/// What the child `c` of `idx` adds to the list: itself, and what is below it
/// where it is an expanded folder.
pub open spec fn child_rows(
    nodes: Seq<NodeModel>,
    idx: int,
    c: int,
    kept: spec_fn(int) -> bool,
) -> Seq<usize>
    decreases nodes.len() - idx, 0int,
{
    if !child_shown(nodes, idx, c, kept) || !(0 <= idx < c < nodes.len()) {
        Seq::empty()
    } else if nodes[c].file is Some || nodes[c].collapsed {
        seq![c as usize]
    } else {
        seq![c as usize] + rows_below(nodes, c, nodes[c].children.len() as int, kept)
    }
}

/// What the first `k` children of `idx` add to the list, in order.
pub open spec fn rows_below(
    nodes: Seq<NodeModel>,
    idx: int,
    k: int,
    kept: spec_fn(int) -> bool,
) -> Seq<usize>
    decreases nodes.len() - idx, 1int, k,
{
    if k <= 0 || !(0 <= idx < nodes.len()) {
        Seq::empty()
    } else {
        rows_below(nodes, idx, k - 1, kept) + child_rows(
            nodes,
            idx,
            nodes[idx].children[k - 1] as int,
            kept,
        )
    }
}

/// The rows of the tree when the leaves that `kept` picks are kept.
pub open spec fn visible_rows(
    nodes: Seq<NodeModel>,
    root: int,
    kept: spec_fn(int) -> bool,
) -> Seq<usize> {
    rows_below(nodes, root, nodes[root].children.len() as int, kept)
}

/// A choice of leaves that is written down node by node.
pub open spec fn mask_of(mask: Seq<bool>) -> spec_fn(int) -> bool {
    |n: int| 0 <= n < mask.len() && mask[n]
}

/// Every leaf.
pub open spec fn keep_all() -> spec_fn(int) -> bool {
    |n: int| true
}

// ── building ───────────────────────────────────────────────────────────────

/// `nodes` with one more node, the last child of `parent`.
pub open spec fn add_child(nodes: Seq<NodeModel>, parent: int, node: NodeModel) -> Seq<NodeModel> {
    nodes.update(
        parent,
        NodeModel { children: nodes[parent].children.push(nodes.len() as usize), ..nodes[parent] },
    ).push(node)
}

/// The folder called `name` among the first `k` children of `parent`.
pub open spec fn folder_among(
    nodes: Seq<NodeModel>,
    parent: int,
    k: int,
    name: Seq<char>,
) -> Option<int>
    decreases k,
{
    if k <= 0 {
        None
    } else {
        let c = nodes[parent].children[k - 1] as int;
        if nodes[c].file is None && nodes[c].name == name {
            Some(c)
        } else {
            folder_among(nodes, parent, k - 1, name)
        }
    }
}

pub open spec fn folder_of(nodes: Seq<NodeModel>, parent: int, name: Seq<char>) -> Option<int> {
    folder_among(nodes, parent, nodes[parent].children.len() as int, name)
}

/// A new node without children, at nesting depth `depth`.
pub open spec fn fresh(name: Seq<char>, file: Option<usize>, depth: int) -> NodeModel {
    NodeModel {
        name,
        children: Seq::empty(),
        file,
        collapsed: false,
        depth: (depth % 0x1_0000) as u16,
    }
}

/// `nodes` with the file `fi` put in at components `i..` below `parent`: folders
/// that are there are used, others are made, and the last component is the leaf.
pub open spec fn put_file(
    nodes: Seq<NodeModel>,
    parent: int,
    comps: Seq<Seq<char>>,
    i: int,
    fi: usize,
) -> Seq<NodeModel>
    decreases comps.len() - i,
{
    if i >= comps.len() {
        nodes
    } else if i + 1 == comps.len() {
        add_child(nodes, parent, fresh(comps[i], Some(fi), i))
    } else {
        match folder_of(nodes, parent, comps[i]) {
            Some(c) => put_file(nodes, c, comps, i + 1, fi),
            None => put_file(
                add_child(nodes, parent, fresh(comps[i], None, i)),
                nodes.len() as int,
                comps,
                i + 1,
                fi,
            ),
        }
    }
}

pub open spec fn just_root() -> Seq<NodeModel> {
    seq![fresh(Seq::empty(), None, 0)]
}

/// The nodes after the files `order` were put in one after the other.
pub open spec fn put_files(paths: Seq<Seq<Seq<char>>>, order: Seq<usize>) -> Seq<NodeModel>
    decreases order.len(),
{
    if order.len() == 0 {
        just_root()
    } else {
        let fi = order.last();
        put_file(put_files(paths, order.drop_last()), 0, paths[fi as int], 0, fi)
    }
}

/// Where `fi` goes in the first `k` places of `order`: behind every file whose
/// path does not come after its own.
pub open spec fn sorted_place(
    paths: Seq<Seq<Seq<char>>>,
    order: Seq<usize>,
    k: int,
    fi: int,
) -> int
    decreases k,
{
    if k <= 0 {
        0
    } else if path_less(paths[fi], paths[order[k - 1] as int]) {
        sorted_place(paths, order, k - 1, fi)
    } else {
        k
    }
}

/// The first `n` files in the order of their paths; files with equal paths keep
/// the order of the list.
pub open spec fn path_order(paths: Seq<Seq<Seq<char>>>, n: int) -> Seq<usize>
    decreases n,
{
    if n <= 0 {
        Seq::empty()
    } else {
        let order = path_order(paths, n - 1);
        order.insert(sorted_place(paths, order, order.len() as int, n - 1), (n - 1) as usize)
    }
}

/// The components of the files' paths.
pub open spec fn file_components(files: Seq<FileModel>) -> Seq<Seq<Seq<char>>> {
    files.map_values(|f: FileModel| components(f.path))
}

/// The nodes of the tree of `files`.
pub open spec fn tree_nodes(files: Seq<FileModel>) -> Seq<NodeModel> {
    let paths = file_components(files);
    put_files(paths, path_order(paths, paths.len() as int))
}

/// The tree of `files`, with everything expanded and visible.
pub open spec fn tree_of(files: Seq<FileModel>) -> TreeModel {
    let nodes = tree_nodes(files);
    TreeModel { nodes, root: 0, visible: visible_rows(nodes, 0, keep_all()) }
}

proof fn lemma_place_bounds(paths: Seq<Seq<Seq<char>>>, order: Seq<usize>, k: int, fi: int)
    requires
        0 <= k,
    ensures
        0 <= sorted_place(paths, order, k, fi) <= k,
    decreases k,
{
    if k > 0 {
        lemma_place_bounds(paths, order, k - 1, fi);
    }
}

proof fn lemma_order_bounds(paths: Seq<Seq<Seq<char>>>, n: int)
    requires
        0 <= n <= usize::MAX,
    ensures
        path_order(paths, n).len() == n,
        forall|i: int| 0 <= i < n ==> #[trigger] path_order(paths, n)[i] < n,
    decreases n,
{
    if n > 0 {
        lemma_order_bounds(paths, n - 1);
        let order = path_order(paths, n - 1);
        lemma_place_bounds(paths, order, order.len() as int, n - 1);
        let at = sorted_place(paths, order, order.len() as int, n - 1);
        let next = path_order(paths, n);
        assert forall|i: int| 0 <= i < n implies #[trigger] next[i] < n by {
            if i < at {
                assert(next[i] == order[i]);
            } else if i > at {
                assert(next[i] == order[i - 1]);
            }
        }
    }
}

/// The views of a vector of paths.
pub open spec fn path_models(v: Seq<Vec<String>>) -> Seq<Seq<Seq<char>>> {
    v.map_values(|p: Vec<String>| strings(p@))
}

fn sort_paths(paths: &Vec<Vec<String>>) -> (r: Vec<usize>)
    ensures
        r@ == path_order(path_models(paths@), paths@.len() as int),
        r@.len() == paths@.len(),
        forall|i: int| 0 <= i < r@.len() ==> #[trigger] r@[i] < paths@.len(),
{
    let mut order: Vec<usize> = Vec::new();
    let n = paths.len();
    let ghost model = path_models(paths@);
    for fi in 0..n
        invariant
            n == paths@.len(),
            model == path_models(paths@),
            order@ == path_order(model, fi as int),
    {
        proof {
            lemma_order_bounds(model, fi as int);
        }
        let mut k: usize = order.len();
        assert(model[fi as int] == strings(paths@[fi as int]@));
        while k > 0 && is_path_less(&paths[fi], &paths[order[k - 1]])
            invariant
                n == paths@.len(),
                fi < n,
                model == path_models(paths@),
                order@ == path_order(model, fi as int),
                order@.len() == fi,
                forall|i: int| 0 <= i < fi ==> #[trigger] order@[i] < fi,
                model[fi as int] == strings(paths@[fi as int]@),
                k <= order@.len(),
                sorted_place(model, order@, k as int, fi as int) == sorted_place(
                    model,
                    order@,
                    order@.len() as int,
                    fi as int,
                ),
            decreases k,
        {
            assert(model[order@[k - 1] as int] == strings(paths@[order@[k - 1] as int]@));
            k -= 1;
        }
        proof {
            if k > 0 {
                assert(model[order@[k - 1] as int] == strings(paths@[order@[k - 1] as int]@));
            }
        }
        order.insert(k, fi);
    }
    proof {
        lemma_order_bounds(model, n as int);
    }
    order
}

fn new_node(name: &str, file: Option<usize>, depth: usize) -> (r: TreeNode)
    ensures
        r@ == fresh(name@, file, depth as int),
{
    let depth: u16 = (depth % 0x1_0000) as u16;
    let children: Vec<usize> = Vec::new();
    assert(children@ =~= Seq::<usize>::empty());
    TreeNode { name: name.to_owned(), children, file, collapsed: false, depth }
}

fn push_child(nodes: &mut Vec<TreeNode>, parent: usize, node: TreeNode)
    requires
        parent < old(nodes)@.len(),
        arena_ok(node_models(old(nodes)@)),
        node@.children.len() == 0,
    ensures
        node_models(final(nodes)@) == add_child(
            node_models(old(nodes)@),
            parent as int,
            node@,
        ),
        final(nodes)@.len() == old(nodes)@.len() + 1,
        arena_ok(node_models(final(nodes)@)),
        forall|n: int|
            leaves_below(node_models(old(nodes)@), n) && (node@.file is Some ==> node@.file->0 < n)
                ==> #[trigger] leaves_below(node_models(final(nodes)@), n),
{
    let ghost before = node_models(nodes@);
    let ghost view = node@;
    let idx = nodes.len();
    nodes[parent].children.push(idx);
    nodes.push(node);
    let ghost after = node_models(nodes@);
    proof {
        assert(after =~= add_child(before, parent as int, view));
        assert forall|n: int, k: int|
            0 <= n < after.len() && 0 <= k < after[n].children.len() implies n
            < #[trigger] after[n].children[k] < after.len() by {
            if n < before.len() {
                if n == parent && k == before[n].children.len() {
                } else {
                    assert(after[n].children[k] == before[n].children[k]);
                }
            }
        }
        assert forall|n: int| leaves_below(before, n) && (view.file is Some ==> view.file->0 < n) implies
            #[trigger] leaves_below(after, n) by {
            assert forall|i: int| 0 <= i < after.len() && (#[trigger] after[i]).file is Some implies
                after[i].file->0 < n by {
                if i < before.len() {
                    assert(before[i].file == after[i].file);
                }
            }
        }
    }
}

fn find_folder(nodes: &Vec<TreeNode>, parent: usize, name: &str) -> (r: Option<usize>)
    requires
        parent < nodes@.len(),
        arena_ok(node_models(nodes@)),
    ensures
        (match r {
            Some(c) => Some(c as int),
            None => None,
        }) == folder_of(node_models(nodes@), parent as int, name@),
        r is Some ==> parent < r->0 < nodes@.len(),
{
    let ghost model = node_models(nodes@);
    let children = &nodes[parent].children;
    let mut k: usize = children.len();
    while k > 0
        invariant
            parent < nodes@.len(),
            model == node_models(nodes@),
            arena_ok(model),
            children@ == model[parent as int].children,
            k <= children@.len(),
            folder_among(model, parent as int, k as int, name@) == folder_of(
                model,
                parent as int,
                name@,
            ),
        decreases k,
    {
        let c = children[k - 1];
        assert(model[parent as int].children[k - 1] == c);
        assert(model[c as int] == nodes@[c as int]@);
        if nodes[c].file.is_none() && same(nodes[c].name.as_str(), name) {
            return Some(c);
        }
        k -= 1;
    }
    None
}

fn insert_file(nodes: &mut Vec<TreeNode>, comps: &Vec<String>, fi: usize)
    requires
        old(nodes)@.len() > 0,
        arena_ok(node_models(old(nodes)@)),
    ensures
        node_models(final(nodes)@) == put_file(
            node_models(old(nodes)@),
            0,
            strings(comps@),
            0,
            fi,
        ),
        final(nodes)@.len() > 0,
        arena_ok(node_models(final(nodes)@)),
        forall|n: int|
            leaves_below(node_models(old(nodes)@), n) && fi < n ==> #[trigger] leaves_below(
                node_models(final(nodes)@),
                n,
            ),
{
    let ghost model = strings(comps@);
    let ghost before = node_models(nodes@);
    let n = comps.len();
    let mut parent: usize = 0;
    let mut i: usize = 0;
    while i < n
        invariant
            n == comps@.len(),
            model == strings(comps@),
            i <= n,
            i < n ==> parent < nodes@.len(),
            nodes@.len() > 0,
            arena_ok(node_models(nodes@)),
            forall|n: int|
                leaves_below(before, n) && fi < n ==> #[trigger] leaves_below(
                    node_models(nodes@),
                    n,
                ),
            i < n ==> put_file(before, 0, model, 0, fi) == put_file(
                node_models(nodes@),
                parent as int,
                model,
                i as int,
                fi,
            ),
            i == n ==> put_file(before, 0, model, 0, fi) == node_models(nodes@),
        decreases n - i,
    {
        assert(model[i as int] == comps@[i as int]@);
        let name = comps[i].as_str();
        if i + 1 == n {
            push_child(nodes, parent, new_node(name, Some(fi), i));
        } else {
            match find_folder(nodes, parent, name) {
                Some(c) => {
                    parent = c;
                },
                None => {
                    let idx = nodes.len();
                    push_child(nodes, parent, new_node(name, None, i));
                    parent = idx;
                },
            }
        }
        i += 1;
    }
}

impl FileTree {
    /// Build a tree from the changed-file list. Files are grouped by their path
    /// components; intermediate folders are created once and reused.
    pub fn build(files: &[ChangedFile]) -> (r: Self)
        ensures
            r@ == tree_of(file_models(files@)),
            r@.wf(),
            leaves_below(r@.nodes, files@.len() as int),
    {
        let mut paths: Vec<Vec<String>> = Vec::new();
        let n = files.len();
        let ghost model = file_components(file_models(files@));
        for i in 0..n
            invariant
                n == files@.len(),
                model == file_components(file_models(files@)),
                path_models(paths@) == model.take(i as int),
        {
            let comps = split_path(files[i].path.as_str());
            let ghost was = paths@;
            let ghost view = strings(comps@);
            paths.push(comps);
            assert(path_models(paths@) =~= path_models(was).push(view));
            assert(model[i as int] == view);
            proof {
                lemma_take_step(model, i as int);
            }
        }
        assert(model.take(n as int) =~= model);
        let order = sort_paths(&paths);
        let mut nodes: Vec<TreeNode> = Vec::new();
        nodes.push(new_node("", None, 0));
        proof {
            reveal_strlit("");
            assert(""@ =~= Seq::<char>::empty());
            assert(node_models(nodes@) =~= just_root());
        }
        for k in 0..n
            invariant
                n == paths@.len(),
                n == order@.len(),
                path_models(paths@) == model,
                forall|i: int| 0 <= i < order@.len() ==> #[trigger] order@[i] < paths@.len(),
                nodes@.len() > 0,
                arena_ok(node_models(nodes@)),
                leaves_below(node_models(nodes@), n as int),
                node_models(nodes@) == put_files(model, order@.take(k as int)),
        {
            let fi = order[k];
            assert(model[fi as int] == strings(paths@[fi as int]@));
            insert_file(&mut nodes, &paths[fi], fi);
            proof {
                lemma_take_step(order@, k as int);
            }
        }
        assert(order@.take(n as int) =~= order@);
        let mut tree = FileTree { nodes, root: 0, visible: Vec::new() };
        tree.recompute_visible();
        tree
    }

    /// Whether the node is a folder.
    pub fn is_dir(&self, node: usize) -> (r: bool)
        requires
            node < self@.nodes.len(),
        ensures
            r == (self@.nodes[node as int].file is None),
    {
        self.nodes[node].file.is_none()
    }

    /// Toggle a folder's collapsed state and rebuild the visible list.
    pub fn toggle(&mut self, node: usize)
        requires
            old(self)@.wf(),
            node < old(self)@.nodes.len(),
        ensures
            final(self)@ == toggled(old(self)@, node as int),
            final(self)@.wf(),
    {
        if self.is_dir(node) {
            let ghost before = self@.nodes;
            let collapsed = self.nodes[node].collapsed;
            self.nodes[node].collapsed = !collapsed;
            proof {
                assert(self@.nodes =~= with_collapsed(before, node as int, !collapsed));
                lemma_collapse_keeps_arena(before, node as int, !collapsed);
            }
            self.recompute_visible();
        }
    }

    /// Recompute `visible` via a pre-order walk, descending into folders only
    /// when they are expanded. Keeps every file.
    pub fn recompute_visible(&mut self)
        requires
            old(self)@.root < old(self)@.nodes.len(),
            arena_ok(old(self)@.nodes),
        ensures
            final(self)@ == (TreeModel {
                visible: visible_rows(old(self)@.nodes, old(self)@.root as int, keep_all()),
                ..old(self)@
            }),
            final(self)@.wf(),
    {
        let mut mask: Vec<bool> = Vec::new();
        let n = self.nodes.len();
        for i in 0..n
            invariant
                mask@.len() == i,
                forall|j: int| 0 <= j < i ==> mask@[j],
        {
            mask.push(true);
        }
        proof {
            lemma_rows_same_choice(
                self@.nodes,
                self@.root as int,
                self@.nodes[self@.root as int].children.len() as int,
                mask_of(mask@),
                keep_all(),
            );
        }
        self.show(&mask);
    }

    /// Recompute `visible`, keeping only file leaves for which `keep(file_idx)`
    /// is true, and folders that (transitively) contain at least one kept file.
    /// Used to drop hidden files, and the folders that become empty once their
    /// only files are hidden, from the sidebar.
    pub fn recompute_visible_with<F: Fn(usize) -> bool>(&mut self, keep: F)
        requires
            old(self)@.root < old(self)@.nodes.len(),
            arena_ok(old(self)@.nodes),
            forall|fi: usize| #[trigger] keep.requires((fi,)),
        ensures
            exists|mask: Seq<bool>|
                {
                    &&& mask.len() == old(self)@.nodes.len()
                    &&& forall|n: int|
                        0 <= n < mask.len() && old(self)@.nodes[n].file is Some ==> keep.ensures(
                            (old(self)@.nodes[n].file->0,),
                            #[trigger] mask[n],
                        )
                    &&& final(self)@ == (TreeModel {
                        visible: #[trigger] visible_rows(
                            old(self)@.nodes,
                            old(self)@.root as int,
                            mask_of(mask),
                        ),
                        ..old(self)@
                    })
                },
            final(self)@.wf(),
    {
        let mut mask: Vec<bool> = Vec::new();
        let n = self.nodes.len();
        for i in 0..n
            invariant
                n == self.nodes@.len(),
                mask@.len() == i,
                forall|fi: usize| #[trigger] keep.requires((fi,)),
                forall|j: int|
                    0 <= j < i && self@.nodes[j].file is Some ==> keep.ensures(
                        (self@.nodes[j].file->0,),
                        #[trigger] mask@[j],
                    ),
        {
            let kept = match self.nodes[i].file {
                Some(fi) => keep(fi),
                None => false,
            };
            mask.push(kept);
        }
        self.show(&mask);
    }

    /// Recompute `visible`, keeping the leaves that `mask` marks.
    pub fn show(&mut self, mask: &Vec<bool>)
        requires
            old(self)@.root < old(self)@.nodes.len(),
            arena_ok(old(self)@.nodes),
            mask@.len() == old(self)@.nodes.len(),
        ensures
            final(self)@ == (TreeModel {
                visible: visible_rows(old(self)@.nodes, old(self)@.root as int, mask_of(mask@)),
                ..old(self)@
            }),
            final(self)@.wf(),
    {
        self.visible = self.rows_with(mask);
    }

    /// The rows of the tree with the leaves that `mask` marks.
    pub fn rows_with(&self, mask: &Vec<bool>) -> (r: Vec<usize>)
        requires
            self@.root < self@.nodes.len(),
            arena_ok(self@.nodes),
            mask@.len() == self@.nodes.len(),
        ensures
            r@ == visible_rows(self@.nodes, self@.root as int, mask_of(mask@)),
            forall|i: int| 0 <= i < r@.len() ==> #[trigger] r@[i] < self@.nodes.len(),
    {
        let shown = self.shown_below(mask);
        let mut visible: Vec<usize> = Vec::new();
        let root = self.root;
        assert(self@.nodes[root as int] == self.nodes@[root as int]@);
        self.collect(root, mask, &shown, &mut visible);
        visible
    }

    /// For every node, whether one of its children is shown.
    fn shown_below(&self, mask: &Vec<bool>) -> (r: Vec<bool>)
        requires
            arena_ok(self@.nodes),
            mask@.len() == self@.nodes.len(),
        ensures
            r@.len() == self@.nodes.len(),
            forall|i: int|
                0 <= i < r@.len() ==> #[trigger] r@[i] == any_shown(
                    self@.nodes,
                    i,
                    self@.nodes[i].children.len() as int,
                    mask_of(mask@),
                ),
    {
        let n = self.nodes.len();
        let ghost nodes = self@.nodes;
        let ghost kept = mask_of(mask@);
        let mut shown: Vec<bool> = Vec::new();
        for i in 0..n
            invariant
                shown@.len() == i,
        {
            shown.push(false);
        }
        let mut i: usize = n;
        while i > 0
            invariant
                n == self.nodes@.len(),
                nodes == self@.nodes,
                arena_ok(nodes),
                mask@.len() == n,
                kept == mask_of(mask@),
                i <= n,
                shown@.len() == n,
                forall|j: int|
                    i <= j < n ==> #[trigger] shown@[j] == any_shown(
                        nodes,
                        j,
                        nodes[j].children.len() as int,
                        kept,
                    ),
            decreases i,
        {
            i -= 1;
            let children = &self.nodes[i].children;
            let m = children.len();
            let mut any = false;
            assert(children@ == nodes[i as int].children);
            for k in 0..m
                invariant
                    n == self.nodes@.len(),
                    nodes == self@.nodes,
                    arena_ok(nodes),
                    mask@.len() == n,
                    kept == mask_of(mask@),
                    i < n,
                    m == children@.len(),
                    children@ == nodes[i as int].children,
                    shown@.len() == n,
                    forall|j: int|
                        i < j < n ==> #[trigger] shown@[j] == any_shown(
                            nodes,
                            j,
                            nodes[j].children.len() as int,
                            kept,
                        ),
                    any == any_shown(nodes, i as int, k as int, kept),
            {
                let c = children[k];
                assert(nodes[i as int].children[k as int] == c);
                assert(nodes[c as int] == self.nodes@[c as int]@);
                let here = if self.nodes[c].file.is_some() {
                    mask[c]
                } else {
                    shown[c]
                };
                assert(here == child_shown(nodes, i as int, c as int, kept));
                any = any || here;
            }
            shown[i] = any;
        }
        shown
    }

    /// Appends the rows below `idx`.
    fn collect(&self, idx: usize, mask: &Vec<bool>, shown: &Vec<bool>, out: &mut Vec<usize>)
        requires
            arena_ok(self@.nodes),
            idx < self@.nodes.len(),
            mask@.len() == self@.nodes.len(),
            shown@.len() == self@.nodes.len(),
            forall|i: int|
                0 <= i < shown@.len() ==> #[trigger] shown@[i] == any_shown(
                    self@.nodes,
                    i,
                    self@.nodes[i].children.len() as int,
                    mask_of(mask@),
                ),
            forall|i: int| 0 <= i < old(out)@.len() ==> #[trigger] old(out)@[i] < self@.nodes.len(),
        ensures
            final(out)@ == old(out)@ + rows_below(
                self@.nodes,
                idx as int,
                self@.nodes[idx as int].children.len() as int,
                mask_of(mask@),
            ),
            forall|i: int|
                0 <= i < final(out)@.len() ==> #[trigger] final(out)@[i] < self@.nodes.len(),
        decreases self@.nodes.len() - idx,
    {
        let ghost nodes = self@.nodes;
        let ghost kept = mask_of(mask@);
        let ghost before = out@;
        let children = &self.nodes[idx].children;
        let m = children.len();
        assert(children@ == nodes[idx as int].children);
        assert(before + rows_below(nodes, idx as int, 0, kept) =~= before);
        for k in 0..m
            invariant
                nodes == self@.nodes,
                arena_ok(nodes),
                idx < nodes.len(),
                mask@.len() == nodes.len(),
                shown@.len() == nodes.len(),
                kept == mask_of(mask@),
                m == children@.len(),
                children@ == nodes[idx as int].children,
                forall|i: int|
                    0 <= i < shown@.len() ==> #[trigger] shown@[i] == any_shown(
                        nodes,
                        i,
                        nodes[i].children.len() as int,
                        kept,
                    ),
                forall|i: int| 0 <= i < out@.len() ==> #[trigger] out@[i] < nodes.len(),
                out@ == before + rows_below(nodes, idx as int, k as int, kept),
        {
            let c = children[k];
            assert(nodes[idx as int].children[k as int] == c);
            assert(nodes[c as int] == self.nodes@[c as int]@);
            let ghost was = out@;
            let ghost rows = child_rows(nodes, idx as int, c as int, kept);
            if self.nodes[c].file.is_some() {
                if mask[c] {
                    out.push(c);
                }
            } else if shown[c] {
                out.push(c);
                if !self.nodes[c].collapsed {
                    self.collect(c, mask, shown, out);
                }
            }
            assert(out@ =~= was + rows);
            assert(out@ =~= before + rows_below(nodes, idx as int, k + 1, kept));
        }
    }
}

/// The nodes with the collapsed state of one of them set.
pub open spec fn with_collapsed(nodes: Seq<NodeModel>, node: int, collapsed: bool) -> Seq<
    NodeModel,
> {
    nodes.update(node, NodeModel { collapsed, ..nodes[node] })
}

/// The tree after a toggle of `node`: a file is left as it is.
pub open spec fn toggled(tree: TreeModel, node: int) -> TreeModel {
    if tree.nodes[node].file is Some {
        tree
    } else {
        let nodes = with_collapsed(tree.nodes, node, !tree.nodes[node].collapsed);
        TreeModel { nodes, visible: visible_rows(nodes, tree.root as int, keep_all()), ..tree }
    }
}

proof fn lemma_collapse_keeps_arena(nodes: Seq<NodeModel>, node: int, collapsed: bool)
    requires
        arena_ok(nodes),
        0 <= node < nodes.len(),
    ensures
        arena_ok(with_collapsed(nodes, node, collapsed)),
{
    let after = with_collapsed(nodes, node, collapsed);
    assert forall|n: int, k: int|
        0 <= n < after.len() && 0 <= k < after[n].children.len() implies n
        < #[trigger] after[n].children[k] < after.len() by {
        assert(after[n].children[k] == nodes[n].children[k]);
    }
}

/// Choices that agree on the leaves of the arena show the same rows.
pub proof fn lemma_shown_same_choice(
    nodes: Seq<NodeModel>,
    idx: int,
    k: int,
    a: spec_fn(int) -> bool,
    b: spec_fn(int) -> bool,
)
    requires
        forall|n: int| 0 <= n < nodes.len() && nodes[n].file is Some ==> #[trigger] a(n) == b(n),
    ensures
        any_shown(nodes, idx, k, a) == any_shown(nodes, idx, k, b),
    decreases nodes.len() - idx, k,
{
    if k > 0 && 0 <= idx < nodes.len() {
        lemma_shown_same_choice(nodes, idx, k - 1, a, b);
        let c = nodes[idx].children[k - 1] as int;
        if idx < c < nodes.len() {
            if nodes[c].file is Some {
                assert(a(c) == b(c));
            } else {
                lemma_shown_same_choice(nodes, c, nodes[c].children.len() as int, a, b);
            }
        }
        assert(child_shown(nodes, idx, c, a) == child_shown(nodes, idx, c, b));
    }
}

pub proof fn lemma_rows_same_choice(
    nodes: Seq<NodeModel>,
    idx: int,
    k: int,
    a: spec_fn(int) -> bool,
    b: spec_fn(int) -> bool,
)
    requires
        forall|n: int| 0 <= n < nodes.len() && nodes[n].file is Some ==> #[trigger] a(n) == b(n),
    ensures
        rows_below(nodes, idx, k, a) == rows_below(nodes, idx, k, b),
    decreases nodes.len() - idx, k,
{
    if k > 0 && 0 <= idx < nodes.len() {
        lemma_rows_same_choice(nodes, idx, k - 1, a, b);
        let c = nodes[idx].children[k - 1] as int;
        if idx < c < nodes.len() {
            lemma_shown_same_choice(nodes, c, nodes[c].children.len() as int, a, b);
            lemma_rows_same_choice(nodes, c, nodes[c].children.len() as int, a, b);
            if nodes[c].file is Some {
                assert(a(c) == b(c));
            }
        }
        assert(child_shown(nodes, idx, c, a) == child_shown(nodes, idx, c, b));
        assert(child_rows(nodes, idx, c, a) == child_rows(nodes, idx, c, b));
    }
}

} // verus!
