//! The tree does not depend on the order in which the files are listed.

use vstd::prelude::*;

use crate::model::file::FileModel;
use crate::model::tree::{
    add_child, any_shown, child_rows, child_shown, file_components, folder_among,
    folder_of, fresh, just_root, keep_all, path_order, put_file, put_files, rows_below, tree_nodes,
    tree_of, NodeModel, TreeModel,
};
use crate::model::tree_laws::{children_inside, in_order, law_path_order, lemma_child_inside};
use crate::path::{components, lemma_path_total, path_less};

verus! {

// ── sorted lists ───────────────────────────────────────────────────────────

spec fn ascending(v: Seq<Seq<Seq<char>>>) -> bool {
    forall|i: int, j: int|
        0 <= i < j < v.len() ==> path_less(#[trigger] v[i], #[trigger] v[j])
}

spec fn same_members(a: Seq<Seq<Seq<char>>>, b: Seq<Seq<Seq<char>>>) -> bool {
    forall|x: Seq<Seq<char>>| #[trigger] a.contains(x) <==> b.contains(x)
}

/// The first of an ascending list is not behind any other.
proof fn lemma_first(v: Seq<Seq<Seq<char>>>, x: Seq<Seq<char>>)
    requires
        ascending(v),
        v.contains(x),
    ensures
        v[0] == x || path_less(v[0], x),
{
    let i = choose|i: int| 0 <= i < v.len() && v[i] == x;
    if i > 0 {
        assert(path_less(v[0], v[i]));
    }
}

/// Two ascending lists with the same members are the same list.
proof fn lemma_ascending_unique(a: Seq<Seq<Seq<char>>>, b: Seq<Seq<Seq<char>>>)
    requires
        ascending(a),
        ascending(b),
        same_members(a, b),
    ensures
        a == b,
    decreases a.len(),
{
    if a.len() == 0 {
        if b.len() > 0 {
            assert(b.contains(b[0]));
            assert(a.contains(b[0]));
        }
        assert(a =~= b);
    } else {
        assert(a.contains(a[0]));
        assert(b.contains(a[0]));
        assert(b.contains(b[0]));
        assert(a.contains(b[0]));
        lemma_first(a, b[0]);
        lemma_first(b, a[0]);
        lemma_path_total(a[0], b[0]);
        assert(a[0] == b[0]);
        let x = a.skip(1);
        let y = b.skip(1);
        assert forall|p: Seq<Seq<char>>| #[trigger] x.contains(p) <==> y.contains(p) by {
            if x.contains(p) {
                let i = choose|i: int| 0 <= i < x.len() && x[i] == p;
                assert(a[i + 1] == p);
                assert(path_less(a[0], a[i + 1]));
                lemma_path_total(p, p);
                assert(a.contains(p));
                assert(b.contains(p));
                let j = choose|j: int| 0 <= j < b.len() && b[j] == p;
                assert(y[j - 1] == p);
            }
            if y.contains(p) {
                let i = choose|i: int| 0 <= i < y.len() && y[i] == p;
                assert(b[i + 1] == p);
                assert(path_less(b[0], b[i + 1]));
                lemma_path_total(p, p);
                assert(b.contains(p));
                assert(a.contains(p));
                let j = choose|j: int| 0 <= j < a.len() && a[j] == p;
                assert(x[j - 1] == p);
            }
        }
        assert forall|i: int, j: int| 0 <= i < j < x.len() implies path_less(
            #[trigger] x[i],
            #[trigger] x[j],
        ) by {
            assert(path_less(a[i + 1], a[j + 1]));
        }
        assert forall|i: int, j: int| 0 <= i < j < y.len() implies path_less(
            #[trigger] y[i],
            #[trigger] y[j],
        ) by {
            assert(path_less(b[i + 1], b[j + 1]));
        }
        lemma_ascending_unique(x, y);
        assert(a =~= seq![a[0]] + x);
        assert(b =~= seq![b[0]] + y);
    }
}

// ── other numbers for the files ────────────────────────────────────────────

/// A node with another number for its file.
spec fn renamed_node(n: NodeModel, h: spec_fn(usize) -> usize) -> NodeModel {
    NodeModel {
        file: match n.file {
            Some(f) => Some(h(f)),
            None => None,
        },
        ..n
    }
}

spec fn renamed(nodes: Seq<NodeModel>, h: spec_fn(usize) -> usize) -> Seq<NodeModel> {
    nodes.map_values(|n: NodeModel| renamed_node(n, h))
}

proof fn lemma_renamed_child(
    nodes: Seq<NodeModel>,
    parent: int,
    node: NodeModel,
    h: spec_fn(usize) -> usize,
)
    requires
        0 <= parent < nodes.len(),
    ensures
        add_child(renamed(nodes, h), parent, renamed_node(node, h)) == renamed(
            add_child(nodes, parent, node),
            h,
        ),
{
    assert(add_child(renamed(nodes, h), parent, renamed_node(node, h)) =~= renamed(
        add_child(nodes, parent, node),
        h,
    ));
}

proof fn lemma_renamed_folder(
    nodes: Seq<NodeModel>,
    parent: int,
    k: int,
    name: Seq<char>,
    h: spec_fn(usize) -> usize,
)
    requires
        children_inside(nodes),
        0 <= parent < nodes.len(),
        0 <= k <= nodes[parent].children.len(),
    ensures
        folder_among(renamed(nodes, h), parent, k, name) == folder_among(nodes, parent, k, name),
        folder_among(nodes, parent, k, name) is Some ==> 0 <= folder_among(
            nodes,
            parent,
            k,
            name,
        )->0 < nodes.len(),
    decreases k,
{
    if k > 0 {
        lemma_renamed_folder(nodes, parent, k - 1, name, h);
        let c = nodes[parent].children[k - 1] as int;
        assert(nodes[parent].children[k - 1] < nodes.len());
        assert(renamed(nodes, h)[parent].children == nodes[parent].children);
        assert(renamed(nodes, h)[c] == renamed_node(nodes[c], h));
    }
}

proof fn lemma_renamed_put(
    nodes: Seq<NodeModel>,
    parent: int,
    comps: Seq<Seq<char>>,
    i: int,
    fi: usize,
    h: spec_fn(usize) -> usize,
)
    requires
        0 <= parent < nodes.len(),
        children_inside(nodes),
        0 <= i <= comps.len(),
    ensures
        put_file(renamed(nodes, h), parent, comps, i, h(fi)) == renamed(
            put_file(nodes, parent, comps, i, fi),
            h,
        ),
        children_inside(put_file(nodes, parent, comps, i, fi)),
        nodes.len() <= put_file(nodes, parent, comps, i, fi).len(),
    decreases comps.len() - i,
{
    if i + 1 == comps.len() {
        let leaf = fresh(comps[i], Some(fi), i);
        assert(renamed_node(leaf, h) == fresh(comps[i], Some(h(fi)), i));
        lemma_renamed_child(nodes, parent, leaf, h);
        lemma_child_inside(nodes, parent, leaf);
    } else if i + 1 < comps.len() {
        let all = nodes[parent].children.len() as int;
        lemma_renamed_folder(nodes, parent, all, comps[i], h);
        assert(renamed(nodes, h)[parent].children == nodes[parent].children);
        assert(folder_of(renamed(nodes, h), parent, comps[i]) == folder_of(
            nodes,
            parent,
            comps[i],
        ));
        match folder_of(nodes, parent, comps[i]) {
            Some(c) => {
                lemma_renamed_put(nodes, c, comps, i + 1, fi, h);
            },
            None => {
                let folder = fresh(comps[i], None, i);
                assert(renamed_node(folder, h) == folder);
                lemma_renamed_child(nodes, parent, folder, h);
                lemma_child_inside(nodes, parent, folder);
                let next = add_child(nodes, parent, folder);
                assert(renamed(nodes, h).len() == nodes.len());
                lemma_renamed_put(next, nodes.len() as int, comps, i + 1, fi, h);
            },
        }
    }
}

proof fn lemma_renamed_tree(
    p: Seq<Seq<Seq<char>>>,
    op: Seq<usize>,
    q: Seq<Seq<Seq<char>>>,
    oq: Seq<usize>,
    h: spec_fn(usize) -> usize,
)
    requires
        op.len() == oq.len(),
        forall|k: int|
            0 <= k < oq.len() ==> p[#[trigger] op[k] as int] == q[oq[k] as int] && op[k] == h(
                oq[k],
            ),
    ensures
        put_files(p, op) == renamed(put_files(q, oq), h),
        children_inside(put_files(q, oq)),
        put_files(q, oq).len() > 0,
    decreases oq.len(),
{
    if oq.len() == 0 {
        assert(renamed(just_root(), h) =~= just_root());
    } else {
        let a = op.drop_last();
        let b = oq.drop_last();
        assert forall|k: int| 0 <= k < b.len() implies p[#[trigger] a[k] as int] == q[b[k] as int]
            && a[k] == h(b[k]) by {
            assert(a[k] == op[k] && b[k] == oq[k]);
        }
        lemma_renamed_tree(p, a, q, b, h);
        let last = oq.len() - 1;
        assert(p[op[last] as int] == q[oq[last] as int] && op[last] == h(oq[last]));
        lemma_renamed_put(put_files(q, b), 0, q[oq.last() as int], 0, oq.last(), h);
    }
}

proof fn lemma_renamed_shown(nodes: Seq<NodeModel>, idx: int, k: int, h: spec_fn(usize) -> usize)
    requires
        0 <= idx < nodes.len() ==> k <= nodes[idx].children.len(),
    ensures
        any_shown(renamed(nodes, h), idx, k, keep_all()) == any_shown(nodes, idx, k, keep_all()),
    decreases nodes.len() - idx, k,
{
    if k > 0 && 0 <= idx < nodes.len() {
        let r = renamed(nodes, h);
        lemma_renamed_shown(nodes, idx, k - 1, h);
        let c = nodes[idx].children[k - 1] as int;
        assert(r[idx].children == nodes[idx].children);
        if idx < c < nodes.len() {
            lemma_renamed_shown(nodes, c, nodes[c].children.len() as int, h);
            assert(r[c] == renamed_node(nodes[c], h));
        }
        assert(child_shown(r, idx, c, keep_all()) == child_shown(nodes, idx, c, keep_all()));
    }
}

proof fn lemma_renamed_rows(nodes: Seq<NodeModel>, idx: int, k: int, h: spec_fn(usize) -> usize)
    requires
        0 <= idx < nodes.len() ==> k <= nodes[idx].children.len(),
    ensures
        rows_below(renamed(nodes, h), idx, k, keep_all()) == rows_below(
            nodes,
            idx,
            k,
            keep_all(),
        ),
    decreases nodes.len() - idx, k,
{
    if k > 0 && 0 <= idx < nodes.len() {
        let r = renamed(nodes, h);
        lemma_renamed_rows(nodes, idx, k - 1, h);
        let c = nodes[idx].children[k - 1] as int;
        assert(r[idx].children == nodes[idx].children);
        if idx < c < nodes.len() {
            lemma_renamed_shown(nodes, c, nodes[c].children.len() as int, h);
            lemma_renamed_rows(nodes, c, nodes[c].children.len() as int, h);
            assert(r[c] == renamed_node(nodes[c], h));
        }
        assert(child_shown(r, idx, c, keep_all()) == child_shown(nodes, idx, c, keep_all()));
        assert(child_rows(r, idx, c, keep_all()) == child_rows(nodes, idx, c, keep_all()));
    }
}

/// The rows are nodes.
proof fn lemma_rows_inside(nodes: Seq<NodeModel>, idx: int, k: int)
    requires
        0 <= idx < nodes.len() ==> k <= nodes[idx].children.len(),
    ensures
        forall|i: int|
            0 <= i < rows_below(nodes, idx, k, keep_all()).len() ==> #[trigger] rows_below(
                nodes,
                idx,
                k,
                keep_all(),
            )[i] < nodes.len(),
    decreases nodes.len() - idx, k,
{
    if k > 0 && 0 <= idx < nodes.len() {
        lemma_rows_inside(nodes, idx, k - 1);
        let c = nodes[idx].children[k - 1] as int;
        if idx < c < nodes.len() {
            lemma_rows_inside(nodes, c, nodes[c].children.len() as int);
        }
        let was = rows_below(nodes, idx, k - 1, keep_all());
        let new = child_rows(nodes, idx, c, keep_all());
        assert forall|i: int| 0 <= i < new.len() implies #[trigger] new[i] < nodes.len() by {
            if i > 0 {
                assert(new[i] == rows_below(
                    nodes,
                    c,
                    nodes[c].children.len() as int,
                    keep_all(),
                )[i - 1]);
            }
        }
        let rows = rows_below(nodes, idx, k, keep_all());
        assert(rows == was + new);
        assert forall|i: int| 0 <= i < rows.len() implies #[trigger] rows[i] < nodes.len() by {
            if i < was.len() {
                assert(rows[i] == was[i]);
            } else {
                assert(rows[i] == new[i - was.len()]);
            }
        }
    }
}

// ── the law ────────────────────────────────────────────────────────────────

/// What a row of the tree shows: its name, its depth, whether it is a folder, and the
/// path of its file.
pub open spec fn shown_row(files: Seq<FileModel>, node: NodeModel) -> (
    Seq<char>,
    u16,
    bool,
    Option<Seq<char>>,
) {
    (
        node.name,
        node.depth,
        node.file is None,
        match node.file {
            Some(f) => Some(files[f as int].path),
            None => None,
        },
    )
}

/// What the visible rows of a tree show.
pub open spec fn shown_rows(files: Seq<FileModel>, tree: TreeModel) -> Seq<
    (Seq<char>, u16, bool, Option<Seq<char>>),
> {
    tree.visible.map_values(|n: usize| shown_row(files, tree.nodes[n as int]))
}

/// No two files have the same path.
pub open spec fn paths_differ(files: Seq<FileModel>) -> bool {
    forall|i: int, j: int|
        0 <= i < j < files.len() ==> components((#[trigger] files[i]).path) != components(
            (#[trigger] files[j]).path,
        )
}

/// The paths of the files in the order of the tree.
spec fn in_tree_order(files: Seq<FileModel>) -> Seq<Seq<Seq<char>>> {
    let paths = file_components(files);
    path_order(paths, paths.len() as int).map_values(|i: usize| paths[i as int])
}

proof fn lemma_tree_order(files: Seq<FileModel>)
    requires
        paths_differ(files),
        files.len() <= usize::MAX,
    ensures
        ascending(in_tree_order(files)),
        forall|x: Seq<Seq<char>>| #[trigger]
            in_tree_order(files).contains(x) <==> file_components(files).contains(x),
{
    let paths = file_components(files);
    let n = paths.len() as int;
    let order = path_order(paths, n);
    let v = in_tree_order(files);
    law_path_order(paths, n);
    assert forall|i: int, j: int| 0 <= i < j < v.len() implies path_less(
        #[trigger] v[i],
        #[trigger] v[j],
    ) by {
        assert(in_order(paths, order[i], order[j]));
        if !path_less(paths[order[i] as int], paths[order[j] as int]) {
            assert(order[i] < n && order[j] < n);
            let x = order[i] as int;
            let y = order[j] as int;
            assert(components(files[x].path) != components(files[y].path));
        }
    }
    assert forall|x: Seq<Seq<char>>| #[trigger] v.contains(x) <==> paths.contains(x) by {
        if v.contains(x) {
            let i = choose|i: int| 0 <= i < v.len() && v[i] == x;
            assert(paths[order[i] as int] == x);
        }
        if paths.contains(x) {
            let f = choose|f: int| 0 <= f < paths.len() && paths[f] == x;
            assert(order.contains(f as usize));
            let i = choose|i: int| 0 <= i < order.len() && order[i] == f as usize;
            assert(v[i] == x);
        }
    }
}

/// `g` lists the files of `f`, each once: it is `f` in another order.
pub open spec fn reordered(f: Seq<FileModel>, g: Seq<FileModel>) -> bool {
    f.to_multiset() == g.to_multiset()
}

/// However the files are listed, the same tree is shown: the same names in the same
/// order at the same depth, for the same files.
pub proof fn law_list_order_is_free(f: Seq<FileModel>, g: Seq<FileModel>)
    requires
        reordered(f, g),
        paths_differ(f),
        f.len() <= usize::MAX,
    ensures
        shown_rows(f, tree_of(f)) == shown_rows(g, tree_of(g)),
{
    let p = file_components(f);
    let q = file_components(g);
    let n = p.len() as int;
    f.to_multiset_ensures();
    g.to_multiset_ensures();
    assert(f.len() == g.len());
    // The members are the same.
    assert forall|x: FileModel| #[trigger] f.contains(x) <==> g.contains(x) by {
        assert(f.contains(x) <==> f.to_multiset().count(x) > 0);
        assert(g.contains(x) <==> g.to_multiset().count(x) > 0);
    }
    assert(f.no_duplicates()) by {
        assert forall|i: int, j: int| 0 <= i < f.len() && 0 <= j < f.len() && i != j implies f[i]
            != f[j] by {
            if i < j {
                assert(components(f[i].path) != components(f[j].path));
            } else {
                assert(components(f[j].path) != components(f[i].path));
            }
        }
    }
    f.lemma_multiset_has_no_duplicates();
    assert(g.no_duplicates()) by {
        g.lemma_multiset_has_no_duplicates_conv();
    }
    assert(paths_differ(g)) by {
        assert forall|i: int, j: int| 0 <= i < j < g.len() implies components(
            (#[trigger] g[i]).path,
        ) != components((#[trigger] g[j]).path) by {
            assert(g.contains(g[i]) && g.contains(g[j]));
            assert(f.contains(g[i]) && f.contains(g[j]));
            let x = choose|x: int| 0 <= x < f.len() && f[x] == g[i];
            let y = choose|y: int| 0 <= y < f.len() && f[y] == g[j];
            assert(g[i] != g[j]);
            if x < y {
                assert(components(f[x].path) != components(f[y].path));
            } else {
                assert(components(f[y].path) != components(f[x].path));
            }
        }
    }
    lemma_tree_order(f);
    lemma_tree_order(g);
    let a = in_tree_order(f);
    let b = in_tree_order(g);
    assert forall|x: Seq<Seq<char>>| #[trigger] a.contains(x) <==> b.contains(x) by {
        if p.contains(x) {
            let i = choose|i: int| 0 <= i < p.len() && p[i] == x;
            assert(f.contains(f[i]));
            assert(g.contains(f[i]));
            let j = choose|j: int| 0 <= j < g.len() && g[j] == f[i];
            assert(q[j] == x);
        }
        if q.contains(x) {
            let i = choose|i: int| 0 <= i < q.len() && q[i] == x;
            assert(g.contains(g[i]));
            assert(f.contains(g[i]));
            let j = choose|j: int| 0 <= j < f.len() && f[j] == g[i];
            assert(p[j] == x);
        }
    }
    lemma_ascending_unique(a, b);
    // The number that a file of `g` has in `f`.
    let h = |x: usize| (choose|i: int| 0 <= i < f.len() && f[i] == g[x as int]) as usize;
    let op = path_order(p, n);
    let oq = path_order(q, n);
    law_path_order(p, n);
    law_path_order(q, n);
    assert forall|k: int| 0 <= k < oq.len() implies p[#[trigger] op[k] as int] == q[oq[k] as int]
        && op[k] == h(oq[k]) by {
        assert(a[k] == p[op[k] as int]);
        assert(b[k] == q[oq[k] as int]);
        let x = oq[k] as int;
        assert(g.contains(g[x]));
        assert(f.contains(g[x]));
        let i = choose|i: int| 0 <= i < f.len() && f[i] == g[x];
        assert(0 <= i < f.len() && f[i] == g[x]);
        let y = op[k] as int;
        assert(components(f[i].path) == components(f[y].path));
        if i < y {
            assert(components(f[i].path) != components(f[y].path));
        } else if y < i {
            assert(components(f[y].path) != components(f[i].path));
        }
    }
    lemma_renamed_tree(p, op, q, oq, h);
    let nodes = tree_nodes(g);
    assert(tree_nodes(f) == renamed(nodes, h));
    lemma_renamed_rows(nodes, 0, nodes[0].children.len() as int, h);
    assert(renamed(nodes, h)[0].children == nodes[0].children);
    assert(tree_of(f).visible == tree_of(g).visible);
    lemma_rows_inside(nodes, 0, nodes[0].children.len() as int);
    lemma_leaf_numbers(q, oq, n);
    let rows = tree_of(g).visible;
    assert forall|i: int| 0 <= i < rows.len() implies shown_row(f, tree_nodes(f)[rows[i] as int])
        == #[trigger] shown_row(g, nodes[rows[i] as int]) by {
        let c = rows[i] as int;
        assert(rows[i] < nodes.len());
        assert(tree_nodes(f)[c] == renamed_node(nodes[c], h));
        if nodes[c].file is Some {
            let x = nodes[c].file->0 as int;
            assert(0 <= x < g.len());
            assert(g.contains(g[x]));
            assert(f.contains(g[x]));
            let k = choose|k: int| 0 <= k < f.len() && f[k] == g[x];
            assert(0 <= k < f.len() && f[k] == g[x]);
        }
    }
    assert(shown_rows(f, tree_of(f)) =~= shown_rows(g, tree_of(g)));
}

/// Leaves have the numbers of files.
proof fn lemma_leaf_numbers(q: Seq<Seq<Seq<char>>>, oq: Seq<usize>, n: int)
    requires
        forall|k: int| 0 <= k < oq.len() ==> #[trigger] oq[k] < n,
    ensures
        crate::model::tree::leaves_below(put_files(q, oq), n),
    decreases oq.len(),
{
    if oq.len() > 0 {
        let b = oq.drop_last();
        assert forall|k: int| 0 <= k < b.len() implies #[trigger] b[k] < n by {
            assert(b[k] == oq[k]);
        }
        lemma_leaf_numbers(q, b, n);
        let same = |x: usize| x;
        assert forall|k: int| 0 <= k < b.len() implies q[#[trigger] b[k] as int] == q[b[k] as int]
            && b[k] == same(b[k]) by {}
        lemma_renamed_tree(q, b, q, b, same);
        assert(oq[oq.len() - 1] < n);
        lemma_leaf_put(put_files(q, b), 0, q[oq.last() as int], 0, oq.last(), n);
    }
}

proof fn lemma_leaf_put(
    nodes: Seq<NodeModel>,
    parent: int,
    comps: Seq<Seq<char>>,
    i: int,
    fi: usize,
    n: int,
)
    requires
        0 <= parent < nodes.len(),
        children_inside(nodes),
        0 <= i <= comps.len(),
        fi < n,
        crate::model::tree::leaves_below(nodes, n),
    ensures
        crate::model::tree::leaves_below(put_file(nodes, parent, comps, i, fi), n),
    decreases comps.len() - i,
{
    if i + 1 == comps.len() {
        lemma_leaf_child(nodes, parent, fresh(comps[i], Some(fi), i), n);
    } else if i + 1 < comps.len() {
        lemma_renamed_folder(
            nodes,
            parent,
            nodes[parent].children.len() as int,
            comps[i],
            |x: usize| x,
        );
        match folder_of(nodes, parent, comps[i]) {
            Some(c) => {
                lemma_leaf_put(nodes, c, comps, i + 1, fi, n);
            },
            None => {
                let folder = fresh(comps[i], None, i);
                lemma_leaf_child(nodes, parent, folder, n);
                lemma_child_inside(nodes, parent, folder);
                lemma_leaf_put(
                    add_child(nodes, parent, folder),
                    nodes.len() as int,
                    comps,
                    i + 1,
                    fi,
                    n,
                );
            },
        }
    }
}

proof fn lemma_leaf_child(nodes: Seq<NodeModel>, parent: int, node: NodeModel, n: int)
    requires
        0 <= parent < nodes.len(),
        crate::model::tree::leaves_below(nodes, n),
        node.file is Some ==> node.file->0 < n,
    ensures
        crate::model::tree::leaves_below(add_child(nodes, parent, node), n),
{
    let after = add_child(nodes, parent, node);
    assert forall|i: int|
        0 <= i < after.len() && (#[trigger] after[i]).file is Some implies after[i].file->0
        < n by {
        if i < nodes.len() {
            assert(after[i].file == nodes[i].file);
        }
    }
}

} // verus!
