//! What holds of every file tree.

use vstd::prelude::*;

use crate::model::file::FileModel;
use crate::model::tree::{
    add_child, arena_ok, child_rows, child_shown, file_components, folder_among, folder_of, fresh,
    just_root, keep_all, path_order, put_file, put_files, rows_below, sorted_place, toggled,
    tree_nodes, visible_rows, with_collapsed, NodeModel, TreeModel,
};
use crate::path::{component_less, lemma_path_total, lemma_path_transitive, path_less};

verus! {

// ── rows ───────────────────────────────────────────────────────────────────

/// `c` is a child of `p`.
pub open spec fn is_child(nodes: Seq<NodeModel>, p: int, c: int) -> bool {
    &&& 0 <= p < nodes.len()
    &&& 0 <= c < nodes.len()
    &&& nodes[p].children.contains(c as usize)
}

/// The children of `p` can be on screen: `p` is the root, or a folder that is
/// itself listed and expanded.
pub open spec fn opens(nodes: Seq<NodeModel>, root: int, rows: Seq<usize>, p: int) -> bool {
    ||| p == root
    ||| rows.contains(p as usize) && nodes[p].file is None && !nodes[p].collapsed
}

/// `v` got into `rows` as a shown child of a node whose children can be seen.
spec fn has_reason(
    nodes: Seq<NodeModel>,
    root: int,
    rows: Seq<usize>,
    kept: spec_fn(int) -> bool,
    v: usize,
) -> bool {
    exists|p: int|
        #[trigger] is_child(nodes, p, v as int) && child_shown(nodes, p, v as int, kept) && opens(
            nodes,
            root,
            rows,
            p,
        )
}

proof fn lemma_reason_extends(
    nodes: Seq<NodeModel>,
    root: int,
    rows: Seq<usize>,
    more: Seq<usize>,
    kept: spec_fn(int) -> bool,
    v: usize,
)
    requires
        has_reason(nodes, root, rows, kept, v),
        forall|w: usize| rows.contains(w) ==> #[trigger] more.contains(w),
    ensures
        has_reason(nodes, root, more, kept, v),
{
    let p = choose|p: int|
        #[trigger] is_child(nodes, p, v as int) && child_shown(nodes, p, v as int, kept) && opens(
            nodes,
            root,
            rows,
            p,
        );
    assert(is_child(nodes, p, v as int));
    if p != root {
        assert(more.contains(p as usize));
    }
}

proof fn lemma_rows_reasons(
    nodes: Seq<NodeModel>,
    idx: int,
    k: int,
    kept: spec_fn(int) -> bool,
)
    requires
        arena_ok(nodes),
        nodes.len() <= usize::MAX,
        0 <= idx < nodes.len(),
        0 <= k <= nodes[idx].children.len(),
    ensures
        forall|v: usize| #[trigger]
            rows_below(nodes, idx, k, kept).contains(v) ==> has_reason(
                nodes,
                idx,
                rows_below(nodes, idx, k, kept),
                kept,
                v,
            ),
    decreases nodes.len() - idx, k,
{
    let rows = rows_below(nodes, idx, k, kept);
    if k > 0 {
        lemma_rows_reasons(nodes, idx, k - 1, kept);
        let was = rows_below(nodes, idx, k - 1, kept);
        let c = nodes[idx].children[k - 1] as int;
        let new = child_rows(nodes, idx, c, kept);
        assert(rows == was + new);
        assert forall|w: usize| was.contains(w) implies #[trigger] rows.contains(w) by {
            let i = choose|i: int| 0 <= i < was.len() && was[i] == w;
            assert(rows[i] == w);
        }
        assert forall|w: usize| new.contains(w) implies #[trigger] rows.contains(w) by {
            let i = choose|i: int| 0 <= i < new.len() && new[i] == w;
            assert(rows[was.len() + i] == w);
        }
        assert forall|v: usize| #[trigger] rows.contains(v) implies has_reason(
            nodes,
            idx,
            rows,
            kept,
            v,
        ) by {
            let i = choose|i: int| 0 <= i < rows.len() && rows[i] == v;
            if i < was.len() {
                assert(was.contains(v)) by {
                    assert(was[i] == v);
                }
                lemma_reason_extends(nodes, idx, was, rows, kept, v);
            } else {
                assert(new[i - was.len()] == v);
                if i == was.len() {
                    assert(v == c);
                    assert(nodes[idx].children[k - 1] == v);
                    assert(is_child(nodes, idx, v as int));
                    assert(child_shown(nodes, idx, v as int, kept));
                } else {
                    let below = rows_below(nodes, c, nodes[c].children.len() as int, kept);
                    assert(new == seq![c as usize] + below);
                    assert(below[i - was.len() - 1] == v);
                    lemma_rows_reasons(nodes, c, nodes[c].children.len() as int, kept);
                    assert(below.contains(v));
                    let p = choose|p: int|
                        #[trigger] is_child(nodes, p, v as int) && child_shown(
                            nodes,
                            p,
                            v as int,
                            kept,
                        ) && opens(nodes, c, below, p);
                    assert(is_child(nodes, p, v as int));
                    if p == c {
                        assert(new[0] == c);
                        assert(new.contains(c as usize));
                        assert(rows.contains(p as usize));
                    } else {
                        let j = choose|j: int| 0 <= j < below.len() && below[j] == p as usize;
                        assert(new[j + 1] == p as usize);
                        assert(new.contains(p as usize));
                        assert(rows.contains(p as usize));
                    }
                }
            }
        }
    }
}

/// The rows below `idx` hold the shown ones of its first `k` children.
proof fn lemma_rows_hold_children(
    nodes: Seq<NodeModel>,
    idx: int,
    k: int,
    j: int,
    kept: spec_fn(int) -> bool,
)
    requires
        0 <= idx < nodes.len(),
        nodes.len() <= usize::MAX,
        0 <= j < k <= nodes[idx].children.len(),
        child_shown(nodes, idx, nodes[idx].children[j] as int, kept),
    ensures
        rows_below(nodes, idx, k, kept).contains(nodes[idx].children[j]),
    decreases k,
{
    let c = nodes[idx].children[j];
    let was = rows_below(nodes, idx, k - 1, kept);
    let rows = rows_below(nodes, idx, k, kept);
    if j == k - 1 {
        let new = child_rows(nodes, idx, c as int, kept);
        assert(rows == was + new);
        assert(new[0] == c);
        assert(rows[was.len() as int] == c);
    } else {
        lemma_rows_hold_children(nodes, idx, k - 1, j, kept);
        let i = choose|i: int| 0 <= i < was.len() && was[i] == c;
        assert(rows[i] == c);
    }
}

proof fn lemma_rows_closed(
    nodes: Seq<NodeModel>,
    idx: int,
    k: int,
    p: int,
    c: int,
    kept: spec_fn(int) -> bool,
)
    requires
        arena_ok(nodes),
        nodes.len() <= usize::MAX,
        0 <= idx < nodes.len(),
        0 <= k <= nodes[idx].children.len(),
        0 <= p < nodes.len(),
        rows_below(nodes, idx, k, kept).contains(p as usize),
        nodes[p].file is None,
        !nodes[p].collapsed,
        is_child(nodes, p, c),
        child_shown(nodes, p, c, kept),
    ensures
        rows_below(nodes, idx, k, kept).contains(c as usize),
    decreases nodes.len() - idx, k,
{
    let rows = rows_below(nodes, idx, k, kept);
    let i = choose|i: int| 0 <= i < rows.len() && rows[i] == p as usize;
    if k > 0 {
        let was = rows_below(nodes, idx, k - 1, kept);
        let d = nodes[idx].children[k - 1] as int;
        let new = child_rows(nodes, idx, d, kept);
        assert(rows == was + new);
        if i < was.len() {
            assert(was[i] == p as usize);
            lemma_rows_closed(nodes, idx, k - 1, p, c, kept);
            let m = choose|m: int| 0 <= m < was.len() && was[m] == c as usize;
            assert(rows[m] == c as usize);
        } else {
            let below = rows_below(nodes, d, nodes[d].children.len() as int, kept);
            assert(new[i - was.len()] == p as usize);
            if i == was.len() {
                assert(p == d);
                let j = choose|j: int|
                    0 <= j < nodes[p].children.len() && nodes[p].children[j] == c as usize;
                lemma_rows_hold_children(nodes, d, nodes[d].children.len() as int, j, kept);
            } else {
                assert(below[i - was.len() - 1] == p as usize);
                lemma_rows_closed(nodes, d, nodes[d].children.len() as int, p, c, kept);
            }
            let m = choose|m: int| 0 <= m < below.len() && below[m] == c as usize;
            assert(new[m + 1] == c as usize);
            assert(rows[was.len() + m + 1] == c as usize);
        }
    }
}

/// A node is listed exactly when it is shown (a kept file, or a folder that holds
/// one) and its parent is the root or a listed, expanded folder: a collapsed
/// folder hides what is below it, and nothing else is hidden.
pub proof fn law_visible_rows(
    nodes: Seq<NodeModel>,
    root: int,
    kept: spec_fn(int) -> bool,
    c: int,
)
    requires
        arena_ok(nodes),
        nodes.len() <= usize::MAX,
        0 <= root < nodes.len(),
        0 <= c < nodes.len(),
    ensures
        visible_rows(nodes, root, kept).contains(c as usize) <==> exists|p: int|
            #[trigger] is_child(nodes, p, c) && child_shown(nodes, p, c, kept) && opens(
                nodes,
                root,
                visible_rows(nodes, root, kept),
                p,
            ),
{
    let k = nodes[root].children.len() as int;
    let rows = visible_rows(nodes, root, kept);
    lemma_rows_reasons(nodes, root, k, kept);
    if rows.contains(c as usize) {
        assert(has_reason(nodes, root, rows, kept, c as usize));
    }
    if exists|p: int|
        #[trigger] is_child(nodes, p, c) && child_shown(nodes, p, c, kept) && opens(
            nodes,
            root,
            rows,
            p,
        ) {
        let p = choose|p: int|
            #[trigger] is_child(nodes, p, c) && child_shown(nodes, p, c, kept) && opens(
                nodes,
                root,
                rows,
                p,
            );
        if p == root {
            let j = choose|j: int|
                0 <= j < nodes[p].children.len() && nodes[p].children[j] == c as usize;
            lemma_rows_hold_children(nodes, root, k, j, kept);
        } else {
            lemma_rows_closed(nodes, root, k, p, c, kept);
        }
    }
}

/// The rows are nodes of the arena.
pub proof fn lemma_rows_in_arena(
    nodes: Seq<NodeModel>,
    idx: int,
    k: int,
    kept: spec_fn(int) -> bool,
)
    requires
        nodes.len() <= usize::MAX,
        0 <= idx < nodes.len(),
        0 <= k <= nodes[idx].children.len(),
    ensures
        forall|i: int|
            0 <= i < rows_below(nodes, idx, k, kept).len() ==> #[trigger] rows_below(
                nodes,
                idx,
                k,
                kept,
            )[i] < nodes.len(),
    decreases nodes.len() - idx, k,
{
    if k > 0 {
        lemma_rows_in_arena(nodes, idx, k - 1, kept);
        let was = rows_below(nodes, idx, k - 1, kept);
        let c = nodes[idx].children[k - 1] as int;
        let new = child_rows(nodes, idx, c, kept);
        let rows = rows_below(nodes, idx, k, kept);
        assert(rows == was + new);
        if child_shown(nodes, idx, c, kept) {
            lemma_rows_in_arena(nodes, c, nodes[c].children.len() as int, kept);
        }
        assert forall|i: int| 0 <= i < rows.len() implies #[trigger] rows[i] < nodes.len() by {
            if i < was.len() {
                assert(rows[i] == was[i]);
            } else {
                assert(rows[i] == new[i - was.len()]);
                if i > was.len() {
                    let below = rows_below(nodes, c, nodes[c].children.len() as int, kept);
                    assert(new[i - was.len()] == below[i - was.len() - 1]);
                }
            }
        }
    }
}

/// A toggled tree is well-formed.
pub proof fn lemma_toggle_wf(tree: TreeModel, node: int)
    requires
        tree.wf(),
        0 <= node < tree.nodes.len() <= usize::MAX,
    ensures
        toggled(tree, node).wf(),
{
    let after = toggled(tree, node).nodes;
    assert forall|n: int, k: int|
        0 <= n < after.len() && 0 <= k < after[n].children.len() implies n
        < #[trigger] after[n].children[k] < after.len() by {
        assert(after[n].children[k] == tree.nodes[n].children[k]);
    }
    lemma_rows_in_arena(
        after,
        tree.root as int,
        after[tree.root as int].children.len() as int,
        keep_all(),
    );
}

/// Toggling a folder twice gives back the tree it was.
pub proof fn law_toggle_twice(tree: TreeModel, node: int)
    requires
        tree.wf(),
        0 <= node < tree.nodes.len(),
        tree.visible == visible_rows(tree.nodes, tree.root as int, keep_all()),
    ensures
        toggled(toggled(tree, node), node) == tree,
{
    if tree.nodes[node].file is None {
        let once = toggled(tree, node);
        assert(with_collapsed(once.nodes, node, tree.nodes[node].collapsed) =~= tree.nodes);
    }
}

// ── order ──────────────────────────────────────────────────────────────────

/// `a` may stand before `b`: its path does not come after, and of equal paths the
/// one that is first in the list is first.
pub open spec fn in_order(paths: Seq<Seq<Seq<char>>>, a: usize, b: usize) -> bool {
    ||| path_less(paths[a as int], paths[b as int])
    ||| paths[a as int] == paths[b as int] && a < b
}

proof fn lemma_place(paths: Seq<Seq<Seq<char>>>, order: Seq<usize>, k: int, fi: int)
    requires
        0 <= k <= order.len(),
    ensures
        0 <= sorted_place(paths, order, k, fi) <= k,
        forall|i: int|
            sorted_place(paths, order, k, fi) <= i < k ==> path_less(
                paths[fi],
                paths[#[trigger] order[i] as int],
            ),
        sorted_place(paths, order, k, fi) > 0 ==> !path_less(
            paths[fi],
            paths[order[sorted_place(paths, order, k, fi) - 1] as int],
        ),
    decreases k,
{
    if k > 0 {
        lemma_place(paths, order, k - 1, fi);
    }
}

/// The order of the tree: every file once, sorted by path; files with the same
/// path in the order of the list.
pub proof fn law_path_order(paths: Seq<Seq<Seq<char>>>, n: int)
    requires
        0 <= n <= paths.len(),
        paths.len() <= usize::MAX,
    ensures
        path_order(paths, n).len() == n,
        forall|i: int| 0 <= i < n ==> #[trigger] path_order(paths, n)[i] < n,
        forall|i: int, j: int|
            0 <= i < j < n ==> in_order(
                paths,
                #[trigger] path_order(paths, n)[i],
                #[trigger] path_order(paths, n)[j],
            ),
        forall|f: usize| f < n ==> #[trigger] path_order(paths, n).contains(f),
    decreases n,
{
    if n > 0 {
        law_path_order(paths, n - 1);
        let was = path_order(paths, n - 1);
        let fi = n - 1;
        lemma_place(paths, was, was.len() as int, fi);
        let at = sorted_place(paths, was, was.len() as int, fi);
        let now = path_order(paths, n);
        assert(now == was.insert(at, fi as usize));
        assert forall|i: int| 0 <= i < n implies #[trigger] now[i] < n by {
            if i < at {
                assert(now[i] == was[i]);
            } else if i > at {
                assert(now[i] == was[i - 1]);
            }
        }
        assert forall|i: int, j: int| 0 <= i < j < n implies in_order(
            paths,
            #[trigger] now[i],
            #[trigger] now[j],
        ) by {
            let oi = if i < at { i } else { i - 1 };
            let oj = if j < at { j } else { j - 1 };
            if i != at && j != at {
                assert(now[i] == was[oi] && now[j] == was[oj]);
                assert(in_order(paths, was[oi], was[oj]));
            } else if j == at {
                // Everything before the place comes before its last one, which
                // does not come after the new file.
                assert(now[i] == was[i] && now[j] == fi as usize);
                let a = paths[was[i] as int];
                let b = paths[was[at - 1] as int];
                let c = paths[fi];
                assert(was[i] < n - 1);
                lemma_path_total(b, c);
                if i < at - 1 {
                    assert(in_order(paths, was[i], was[at - 1]));
                    if path_less(a, b) && path_less(b, c) {
                        lemma_path_transitive(a, b, c);
                    }
                }
            } else {
                assert(now[i] == fi as usize && now[j] == was[j - 1]);
                assert(path_less(paths[fi], paths[was[j - 1] as int]));
            }
        }
        assert forall|f: usize| f < n implies #[trigger] now.contains(f) by {
            if f == fi {
                assert(now[at] == f);
            } else {
                assert(was.contains(f));
                let i = choose|i: int| 0 <= i < was.len() && was[i] == f;
                if i < at {
                    assert(now[i] == f);
                } else {
                    assert(now[i + 1] == f);
                }
            }
        }
    }
}

// ── names ──────────────────────────────────────────────────────────────────

/// The names from the root down to node `n` are `names`.
pub open spec fn spells(nodes: Seq<NodeModel>, n: int, names: Seq<Seq<char>>) -> bool
    decreases names.len(),
{
    if names.len() == 0 {
        n == 0
    } else {
        exists|p: int|
            {
                &&& #[trigger] is_child(nodes, p, n)
                &&& nodes[p].file is None
                &&& nodes[n].name == names.last()
                &&& spells(nodes, p, names.drop_last())
            }
    }
}

/// No two folders below one parent have the same name.
pub open spec fn folders_differ(nodes: Seq<NodeModel>) -> bool {
    forall|p: int, a: int, b: int|
        #![trigger is_child(nodes, p, a), is_child(nodes, p, b)]
        is_child(nodes, p, a) && is_child(nodes, p, b) && a != b && nodes[a].file is None
            && nodes[b].file is None ==> nodes[a].name != nodes[b].name
}

/// Every node has at most one parent.
pub open spec fn one_parent(nodes: Seq<NodeModel>) -> bool {
    forall|p: int, q: int, c: int|
        #![trigger is_child(nodes, p, c), is_child(nodes, q, c)]
        is_child(nodes, p, c) && is_child(nodes, q, c) ==> p == q
}

/// `after` is `before` with nodes added.
spec fn grows(before: Seq<NodeModel>, after: Seq<NodeModel>) -> bool {
    &&& before.len() <= after.len() <= usize::MAX
    &&& forall|n: int|
        0 <= n < before.len() ==> {
            &&& (#[trigger] after[n]).name == before[n].name
            &&& after[n].file == before[n].file
        }
    &&& forall|p: int, c: int| is_child(before, p, c) ==> #[trigger] is_child(after, p, c)
}

proof fn lemma_spells_grows(
    before: Seq<NodeModel>,
    after: Seq<NodeModel>,
    n: int,
    names: Seq<Seq<char>>,
)
    requires
        grows(before, after),
        spells(before, n, names),
    ensures
        spells(after, n, names),
    decreases names.len(),
{
    if names.len() > 0 {
        let p = choose|p: int|
            {
                &&& #[trigger] is_child(before, p, n)
                &&& before[p].file is None
                &&& before[n].name == names.last()
                &&& spells(before, p, names.drop_last())
            };
        lemma_spells_grows(before, after, p, names.drop_last());
        assert(is_child(after, p, n));
        assert(after[p].file == before[p].file);
        assert(after[n].name == before[n].name);
    }
}

proof fn lemma_add_child(nodes: Seq<NodeModel>, parent: int, node: NodeModel)
    requires
        0 <= parent < nodes.len() < usize::MAX,
        arena_ok(nodes),
        node.children.len() == 0,
    ensures
        ({
            let after = add_child(nodes, parent, node);
            &&& grows(nodes, after)
            &&& arena_ok(after)
            &&& after.len() == nodes.len() + 1
            &&& after[nodes.len() as int] == node
            &&& forall|p: int, c: int| #[trigger]
                is_child(after, p, c) ==> is_child(nodes, p, c) || (p == parent && c
                    == nodes.len())
            &&& is_child(after, parent, nodes.len() as int)
        }),
{
    let after = add_child(nodes, parent, node);
    let new = nodes.len() as usize;
    assert forall|p: int, c: int| is_child(nodes, p, c) implies #[trigger] is_child(
        after,
        p,
        c,
    ) by {
        let k = choose|k: int| 0 <= k < nodes[p].children.len() && nodes[p].children[k] == c as usize;
        assert(after[p].children[k] == c as usize);
    }
    assert forall|p: int, c: int| #[trigger] is_child(after, p, c) implies is_child(nodes, p, c)
        || (p == parent && c == nodes.len()) by {
        let k = choose|k: int| 0 <= k < after[p].children.len() && after[p].children[k] == c as usize;
        if p == parent && k == nodes[parent].children.len() {
        } else {
            assert(nodes[p].children[k] == c as usize);
        }
    }
    assert(after[parent].children[nodes[parent].children.len() as int] == new);
    assert forall|n: int, k: int|
        0 <= n < after.len() && 0 <= k < after[n].children.len() implies n
        < #[trigger] after[n].children[k] < after.len() by {
        if n < nodes.len() && k < nodes[n].children.len() {
            assert(after[n].children[k] == nodes[n].children[k]);
        }
    }
}

proof fn lemma_add_child_one_parent(nodes: Seq<NodeModel>, parent: int, node: NodeModel)
    requires
        0 <= parent < nodes.len() < usize::MAX,
        arena_ok(nodes),
        node.children.len() == 0,
    ensures
        one_parent(nodes) ==> one_parent(add_child(nodes, parent, node)),
{
    lemma_add_child(nodes, parent, node);
    let after = add_child(nodes, parent, node);
    if one_parent(nodes) {
        assert forall|p: int, q: int, c: int|
            #![trigger is_child(after, p, c), is_child(after, q, c)]
            is_child(after, p, c) && is_child(after, q, c) implies p == q by {
            if c < nodes.len() {
                assert(is_child(nodes, p, c) && is_child(nodes, q, c));
            }
        }
    }
}

/// A node has one path.
proof fn lemma_spells_once(nodes: Seq<NodeModel>, n: int, a: Seq<Seq<char>>, b: Seq<Seq<char>>)
    requires
        arena_ok(nodes),
        one_parent(nodes),
        nodes.len() <= usize::MAX,
        spells(nodes, n, a),
        spells(nodes, n, b),
    ensures
        a == b,
    decreases n,
{
    if a.len() > 0 {
        let p = choose|p: int|
            {
                &&& #[trigger] is_child(nodes, p, n)
                &&& nodes[p].file is None
                &&& nodes[n].name == a.last()
                &&& spells(nodes, p, a.drop_last())
            };
        lemma_child_behind(nodes, p, n);
        if b.len() > 0 {
            let q = choose|q: int|
                {
                    &&& #[trigger] is_child(nodes, q, n)
                    &&& nodes[q].file is None
                    &&& nodes[n].name == b.last()
                    &&& spells(nodes, q, b.drop_last())
                };
            assert(p == q);
            lemma_spells_once(nodes, p, a.drop_last(), b.drop_last());
            assert(a =~= a.drop_last().push(a.last()));
            assert(b =~= b.drop_last().push(b.last()));
        }
    } else if b.len() > 0 {
        lemma_spells_once(nodes, n, b, a);
    }
}

proof fn lemma_child_behind(nodes: Seq<NodeModel>, p: int, c: int)
    requires
        arena_ok(nodes),
        nodes.len() <= usize::MAX,
        is_child(nodes, p, c),
    ensures
        p < c,
{
    let k = choose|k: int| 0 <= k < nodes[p].children.len() && nodes[p].children[k] == c as usize;
    assert(p < nodes[p].children[k]);
}

/// What a node that was there spells did not change.
proof fn lemma_spells_before(
    before: Seq<NodeModel>,
    after: Seq<NodeModel>,
    n: int,
    names: Seq<Seq<char>>,
)
    requires
        grows(before, after),
        arena_ok(after),
        forall|p: int, c: int| #[trigger]
            is_child(after, p, c) && c < before.len() ==> is_child(before, p, c),
        0 <= n < before.len(),
        spells(after, n, names),
    ensures
        spells(before, n, names),
    decreases names.len(),
{
    if names.len() > 0 {
        let p = choose|p: int|
            {
                &&& #[trigger] is_child(after, p, n)
                &&& after[p].file is None
                &&& after[n].name == names.last()
                &&& spells(after, p, names.drop_last())
            };
        assert(is_child(before, p, n));
        assert(after[p].file == before[p].file);
        assert(after[n].name == before[n].name);
        lemma_spells_before(before, after, p, names.drop_last());
    }
}

proof fn lemma_folder_among(nodes: Seq<NodeModel>, parent: int, k: int, name: Seq<char>)
    requires
        0 <= parent < nodes.len(),
        nodes.len() <= usize::MAX,
        arena_ok(nodes),
        0 <= k <= nodes[parent].children.len(),
    ensures
        match folder_among(nodes, parent, k, name) {
            Some(c) => is_child(nodes, parent, c) && nodes[c].file is None && nodes[c].name
                == name,
            None => forall|j: int|
                0 <= j < k ==> {
                    let c = #[trigger] nodes[parent].children[j] as int;
                    nodes[c].file is Some || nodes[c].name != name
                },
        },
    decreases k,
{
    if k > 0 {
        lemma_folder_among(nodes, parent, k - 1, name);
        let c = nodes[parent].children[k - 1];
        assert(parent < c < nodes.len());
        assert(is_child(nodes, parent, c as int));
    }
}

/// Node `n` stands on the path `comps`.
spec fn on_the_way(nodes: Seq<NodeModel>, n: int, comps: Seq<Seq<char>>) -> bool {
    exists|j: int| 0 < j <= comps.len() && #[trigger] spells(nodes, n, comps.take(j))
}

/// Every child is one of the nodes.
pub open spec fn children_inside(nodes: Seq<NodeModel>) -> bool {
    forall|n: int, k: int|
        0 <= n < nodes.len() && 0 <= k < nodes[n].children.len() ==> #[trigger]
        nodes[n].children[k] < nodes.len()
}

pub proof fn lemma_child_inside(nodes: Seq<NodeModel>, parent: int, node: NodeModel)
    requires
        0 <= parent < nodes.len(),
        children_inside(nodes),
        node.children.len() == 0,
    ensures
        children_inside(add_child(nodes, parent, node)),
        add_child(nodes, parent, node).len() == nodes.len() + 1,
{
    let after = add_child(nodes, parent, node);
    assert forall|n: int, k: int|
        0 <= n < after.len() && 0 <= k < after[n].children.len() implies #[trigger]
        after[n].children[k] < after.len() by {
        if n < nodes.len() && k < nodes[n].children.len() {
            assert(nodes[n].children[k] < nodes.len());
            assert(after[n].children[k] == nodes[n].children[k]);
        }
    }
}

proof fn lemma_folder_inside(nodes: Seq<NodeModel>, parent: int, k: int, name: Seq<char>)
    requires
        children_inside(nodes),
        0 <= parent < nodes.len(),
        k <= nodes[parent].children.len(),
    ensures
        folder_among(nodes, parent, k, name) is Some ==> 0 <= folder_among(
            nodes,
            parent,
            k,
            name,
        )->0 < nodes.len(),
    decreases k,
{
    if k > 0 {
        assert(nodes[parent].children[k - 1] < nodes.len());
        lemma_folder_inside(nodes, parent, k - 1, name);
    }
}

/// A file adds nodes and takes none away.
proof fn lemma_put_length(
    nodes: Seq<NodeModel>,
    parent: int,
    comps: Seq<Seq<char>>,
    i: int,
    fi: usize,
)
    requires
        children_inside(nodes),
        0 <= parent < nodes.len(),
        0 <= i,
    ensures
        children_inside(put_file(nodes, parent, comps, i, fi)),
        nodes.len() <= put_file(nodes, parent, comps, i, fi).len(),
        i < comps.len() ==> nodes.len() < put_file(nodes, parent, comps, i, fi).len(),
    decreases comps.len() - i,
{
    if i + 1 == comps.len() {
        lemma_child_inside(nodes, parent, fresh(comps[i], Some(fi), i));
    } else if i + 1 < comps.len() {
        lemma_folder_inside(nodes, parent, nodes[parent].children.len() as int, comps[i]);
        match folder_of(nodes, parent, comps[i]) {
            Some(c) => {
                lemma_put_length(nodes, c, comps, i + 1, fi);
            },
            None => {
                lemma_child_inside(nodes, parent, fresh(comps[i], None, i));
                lemma_put_length(
                    add_child(nodes, parent, fresh(comps[i], None, i)),
                    nodes.len() as int,
                    comps,
                    i + 1,
                    fi,
                );
            },
        }
    }
}

proof fn lemma_files_inside(paths: Seq<Seq<Seq<char>>>, order: Seq<usize>)
    ensures
        children_inside(put_files(paths, order)),
        put_files(paths, order).len() > 0,
    decreases order.len(),
{
    if order.len() > 0 {
        let was = order.drop_last();
        let fi = order.last();
        lemma_files_inside(paths, was);
        lemma_put_length(put_files(paths, was), 0, paths[fi as int], 0, fi);
    }
}

/// What one file adds to a tree, put in below a folder that spells the first
/// components of its path.
proof fn lemma_put_file(
    nodes: Seq<NodeModel>,
    parent: int,
    comps: Seq<Seq<char>>,
    i: int,
    fi: usize,
)
    requires
        0 <= parent < nodes.len(),
        put_file(nodes, parent, comps, i, fi).len() <= usize::MAX,
        arena_ok(nodes),
        folders_differ(nodes),
        0 <= i < comps.len(),
        nodes[parent].file is None,
        spells(nodes, parent, comps.take(i)),
    ensures
        ({
            let after = put_file(nodes, parent, comps, i, fi);
            &&& grows(nodes, after)
            &&& nodes.len() < after.len()
            &&& arena_ok(after)
            &&& folders_differ(after)
            &&& spells(after, after.len() - 1, comps)
            &&& after.last().file == Some(fi)
            &&& forall|n: int|
                nodes.len() <= n < after.len() - 1 ==> (#[trigger] after[n]).file is None
            &&& forall|p: int, c: int| #[trigger]
                is_child(after, p, c) && c < nodes.len() ==> is_child(nodes, p, c)
            &&& forall|n: int|
                nodes.len() <= n < after.len() ==> #[trigger] on_the_way(after, n, comps)
            &&& one_parent(nodes) ==> one_parent(after)
        }),
    decreases comps.len() - i,
{
    let after = put_file(nodes, parent, comps, i, fi);
    lemma_put_length(nodes, parent, comps, i, fi);
    if i + 1 == comps.len() {
        let leaf = fresh(comps[i], Some(fi), i);
        lemma_add_child(nodes, parent, leaf);
        lemma_spells_grows(nodes, after, parent, comps.take(i));
        assert(comps.drop_last() =~= comps.take(i));
        assert(comps.take(comps.len() as int) =~= comps);
        assert(is_child(after, parent, nodes.len() as int));
        lemma_add_child_one_parent(nodes, parent, leaf);
        assert(spells(after, nodes.len() as int, comps.take(comps.len() as int)));
        assert(on_the_way(after, nodes.len() as int, comps));
        assert forall|p: int, a: int, b: int|
            #![trigger is_child(after, p, a), is_child(after, p, b)]
            is_child(after, p, a) && is_child(after, p, b) && a != b && after[a].file is None
                && after[b].file is None implies after[a].name != after[b].name by {
            assert(is_child(nodes, p, a) && is_child(nodes, p, b));
        }
    } else {
        let k = nodes[parent].children.len() as int;
        lemma_folder_among(nodes, parent, k, comps[i]);
        assert(comps.take(i + 1).drop_last() =~= comps.take(i));
        match folder_of(nodes, parent, comps[i]) {
            Some(c) => {
                assert(is_child(nodes, parent, c));
                assert(spells(nodes, c, comps.take(i + 1)));
                lemma_put_file(nodes, c, comps, i + 1, fi);
            },
            None => {
                let dir = fresh(comps[i], None, i);
                let mid = add_child(nodes, parent, dir);
                let new = nodes.len() as int;
                lemma_add_child(nodes, parent, dir);
                lemma_spells_grows(nodes, mid, parent, comps.take(i));
                assert(is_child(mid, parent, new));
                assert(spells(mid, new, comps.take(i + 1)));
                assert forall|p: int, a: int, b: int|
                    #![trigger is_child(mid, p, a), is_child(mid, p, b)]
                    is_child(mid, p, a) && is_child(mid, p, b) && a != b && mid[a].file is None
                        && mid[b].file is None implies mid[a].name != mid[b].name by {
                    if is_child(nodes, p, a) && is_child(nodes, p, b) {
                    } else {
                        let old = if a == new { b } else { a };
                        assert(p == parent && is_child(nodes, parent, old));
                        let j = choose|j: int|
                            0 <= j < nodes[parent].children.len() && nodes[parent].children[j]
                                == old as usize;
                        assert(nodes[parent].children[j] == old);
                        assert(mid[old].name == nodes[old].name);
                        assert(mid[old].file == nodes[old].file);
                    }
                }
                lemma_add_child_one_parent(nodes, parent, dir);
                lemma_put_file(mid, new, comps, i + 1, fi);
                lemma_grows_trans(nodes, mid, after);
                lemma_spells_grows(mid, after, new, comps.take(i + 1));
                assert forall|n: int| nodes.len() <= n < after.len() implies #[trigger] on_the_way(
                    after,
                    n,
                    comps,
                ) by {
                    if n == new {
                        assert(spells(after, n, comps.take(i + 1)));
                    }
                }
                assert forall|p: int, c: int| #[trigger]
                    is_child(after, p, c) && c < nodes.len() implies is_child(nodes, p, c) by {
                    assert(is_child(mid, p, c));
                }
            },
        }
    }
}

proof fn lemma_grows_trans(a: Seq<NodeModel>, b: Seq<NodeModel>, c: Seq<NodeModel>)
    requires
        grows(a, b),
        grows(b, c),
    ensures
        grows(a, c),
{
    assert forall|n: int| 0 <= n < a.len() implies {
        &&& (#[trigger] c[n]).name == a[n].name
        &&& c[n].file == a[n].file
    } by {
        assert(b[n].name == a[n].name && b[n].file == a[n].file);
    }
    assert forall|p: int, k: int| is_child(a, p, k) implies #[trigger] is_child(c, p, k) by {
        assert(is_child(b, p, k));
    }
}

/// The leaf `n` is the one of its file: the names down to it are the components
/// of the file's path.
pub open spec fn leaf_ok(
    nodes: Seq<NodeModel>,
    paths: Seq<Seq<Seq<char>>>,
    order: Seq<usize>,
    n: int,
) -> bool {
    nodes[n].file is Some ==> order.contains(nodes[n].file->0) && spells(
        nodes,
        n,
        paths[nodes[n].file->0 as int],
    )
}

/// The file `f` has a leaf.
pub open spec fn has_leaf(
    nodes: Seq<NodeModel>,
    paths: Seq<Seq<Seq<char>>>,
    f: usize,
) -> bool {
    exists|n: int|
        0 <= n < nodes.len() && (#[trigger] nodes[n]).file == Some(f) && spells(
            nodes,
            n,
            paths[f as int],
        )
}

/// The nodes are the tree of the files in `order`: every leaf is one of a file,
/// every file with a path has a leaf, no file has two, and no folder is there
/// twice.
pub open spec fn tree_ok(
    nodes: Seq<NodeModel>,
    paths: Seq<Seq<Seq<char>>>,
    order: Seq<usize>,
) -> bool {
    &&& nodes.len() > 0
    &&& nodes[0].file is None
    &&& arena_ok(nodes)
    &&& one_parent(nodes)
    &&& folders_differ(nodes)
    &&& forall|n: int| 0 <= n < nodes.len() ==> #[trigger] leaf_ok(nodes, paths, order, n)
    &&& forall|f: usize| #[trigger]
        order.contains(f) && paths[f as int].len() > 0 ==> has_leaf(nodes, paths, f)
    &&& forall|n: int, m: int|
        0 <= n < m < nodes.len() && (#[trigger] nodes[n]).file is Some ==> nodes[n].file != (
        #[trigger] nodes[m]).file
}

proof fn lemma_put_files(paths: Seq<Seq<Seq<char>>>, order: Seq<usize>)
    requires
        put_files(paths, order).len() <= usize::MAX,
        forall|i: int, j: int| 0 <= i < j < order.len() ==> order[i] != order[j],
    ensures
        tree_ok(put_files(paths, order), paths, order),
    decreases order.len(),
{
    if order.len() > 0 {
        let was = order.drop_last();
        let fi = order.last();
        let comps = paths[fi as int];
        assert forall|i: int, j: int| 0 <= i < j < was.len() implies was[i] != was[j] by {
            assert(order[i] != order[j]);
        }
        lemma_files_inside(paths, was);
        lemma_put_length(put_files(paths, was), 0, comps, 0, fi);
        lemma_put_files(paths, was);
        let before = put_files(paths, was);
        let after = put_files(paths, order);
        assert(after == put_file(before, 0, comps, 0, fi));
        assert(!was.contains(fi)) by {
            if was.contains(fi) {
                let i = choose|i: int| 0 <= i < was.len() && was[i] == fi;
                assert(order[i] != order[order.len() - 1]);
            }
        }
        assert forall|f: usize| order.contains(f) implies f == fi || was.contains(f) by {
            let i = choose|i: int| 0 <= i < order.len() && order[i] == f;
            if i < was.len() {
                assert(was[i] == f);
            }
        }
        assert forall|f: usize| was.contains(f) implies order.contains(f) by {
            let i = choose|i: int| 0 <= i < was.len() && was[i] == f;
            assert(order[i] == f);
        }
        assert(order.contains(fi)) by {
            assert(order[order.len() - 1] == fi);
        }
        if comps.len() > 0 {
            assert(comps.take(0).len() == 0);
            lemma_put_file(before, 0, comps, 0, fi);
            assert(after[0].file == before[0].file);
            assert forall|n: int| 0 <= n < after.len() implies #[trigger] leaf_ok(
                after,
                paths,
                order,
                n,
            ) by {
                if n < before.len() {
                    assert(leaf_ok(before, paths, was, n));
                    assert(after[n].file == before[n].file);
                    if before[n].file is Some {
                        lemma_spells_grows(before, after, n, paths[before[n].file->0 as int]);
                    }
                }
            }
            assert forall|f: usize| #[trigger]
                order.contains(f) && paths[f as int].len() > 0 implies has_leaf(
                after,
                paths,
                f,
            ) by {
                if f == fi {
                    let n = after.len() - 1;
                    assert(after[n].file == Some(f));
                } else {
                    assert(was.contains(f));
                    assert(has_leaf(before, paths, f));
                    let n = choose|n: int|
                        0 <= n < before.len() && (#[trigger] before[n]).file == Some(f) && spells(
                            before,
                            n,
                            paths[f as int],
                        );
                    assert(after[n].file == Some(f));
                    lemma_spells_grows(before, after, n, paths[f as int]);
                }
            }
            assert forall|n: int, m: int|
                0 <= n < m < after.len() && (#[trigger] after[n]).file is Some implies after[n].file
                != (#[trigger] after[m]).file by {
                if n < before.len() {
                    assert(after[n].file == before[n].file);
                    assert(leaf_ok(before, paths, was, n));
                    if m < before.len() {
                        assert(after[m].file == before[m].file);
                    }
                }
            }
        } else {
            assert forall|n: int| 0 <= n < after.len() implies #[trigger] leaf_ok(
                after,
                paths,
                order,
                n,
            ) by {
                assert(leaf_ok(before, paths, was, n));
            }
        }
    } else {
        let nodes = just_root();
        assert forall|p: int, c: int| !(#[trigger] is_child(nodes, p, c)) by {}
    }
}

proof fn lemma_order_distinct(paths: Seq<Seq<Seq<char>>>, n: int)
    requires
        0 <= n <= paths.len(),
        paths.len() <= usize::MAX,
    ensures
        forall|i: int, j: int|
            0 <= i < j < n ==> path_order(paths, n)[i] != path_order(paths, n)[j],
{
    law_path_order(paths, n);
    let order = path_order(paths, n);
    assert forall|i: int, j: int| 0 <= i < j < n implies order[i] != order[j] by {
        assert(in_order(paths, order[i], order[j]));
        lemma_path_total(paths[order[i] as int], paths[order[i] as int]);
    }
}

/// The tree of a list of files: every file with a path has exactly one leaf, the
/// names down to that leaf are the components of its path, there are no other
/// leaves, and folders are made once and reused.
pub proof fn law_tree_holds_files(files: Seq<FileModel>)
    requires
        files.len() <= usize::MAX,
        tree_nodes(files).len() <= usize::MAX,
    ensures
        tree_ok(
            tree_nodes(files),
            file_components(files),
            path_order(file_components(files), files.len() as int),
        ),
{
    let paths = file_components(files);
    law_path_order(paths, paths.len() as int);
    lemma_order_distinct(paths, paths.len() as int);
    lemma_put_files(paths, path_order(paths, paths.len() as int));
}

// ── siblings ───────────────────────────────────────────────────────────────

/// The children of every node are in the order of their names.
pub open spec fn siblings_sorted(nodes: Seq<NodeModel>) -> bool {
    forall|p: int, j: int, k: int|
        #![trigger nodes[p].children[j], nodes[p].children[k]]
        0 <= p < nodes.len() && 0 <= j < k < nodes[p].children.len() ==> !component_less(
            nodes[nodes[p].children[k] as int].name,
            nodes[nodes[p].children[j] as int].name,
        )
}

/// `names` is the path of one of the files in `order`, or of a folder above it.
spec fn on_a_path(paths: Seq<Seq<Seq<char>>>, order: Seq<usize>, names: Seq<Seq<char>>) -> bool {
    exists|i: int|
        0 <= i < order.len() && names.len() <= paths[#[trigger] order[i] as int].len()
            && paths[order[i] as int].take(names.len() as int) == names
}

/// Every node stands on the path of a file.
spec fn all_on_paths(
    nodes: Seq<NodeModel>,
    paths: Seq<Seq<Seq<char>>>,
    order: Seq<usize>,
) -> bool {
    forall|n: int, names: Seq<Seq<char>>|
        0 <= n < nodes.len() && names.len() > 0 && #[trigger] spells(nodes, n, names)
            ==> on_a_path(paths, order, names)
}

/// Of two paths that agree on the first `i` components, the one that does not
/// come first does not have the smaller component behind them.
proof fn lemma_prefix_order(a: Seq<Seq<char>>, b: Seq<Seq<char>>, i: int)
    requires
        0 <= i < a.len(),
        i < b.len(),
        a.take(i) == b.take(i),
        !path_less(a, b),
    ensures
        !component_less(a[i], b[i]),
    decreases i,
{
    if i > 0 {
        assert(a[0] == a.take(i)[0]);
        assert(b[0] == b.take(i)[0]);
        assert(a.skip(1).take(i - 1) =~= a.take(i).skip(1));
        assert(b.skip(1).take(i - 1) =~= b.take(i).skip(1));
        lemma_prefix_order(a.skip(1), b.skip(1), i - 1);
    }
}

proof fn lemma_add_child_sorted(nodes: Seq<NodeModel>, parent: int, node: NodeModel)
    requires
        0 <= parent < nodes.len() < usize::MAX,
        arena_ok(nodes),
        siblings_sorted(nodes),
        node.children.len() == 0,
        forall|k: int|
            0 <= k < nodes[parent].children.len() ==> !component_less(
                node.name,
                nodes[#[trigger] nodes[parent].children[k] as int].name,
            ),
    ensures
        siblings_sorted(add_child(nodes, parent, node)),
{
    let after = add_child(nodes, parent, node);
    let new = nodes.len() as int;
    assert forall|p: int, j: int, k: int|
        #![trigger after[p].children[j], after[p].children[k]]
        0 <= p < after.len() && 0 <= j < k < after[p].children.len() implies !component_less(
        after[after[p].children[k] as int].name,
        after[after[p].children[j] as int].name,
    ) by {
        assert(p < new);
        assert(after[p].children[j] == nodes[p].children[j]);
        let a = nodes[p].children[j] as int;
        assert(p < a < new);
        assert(after[a].name == nodes[a].name);
        if p == parent && k == nodes[p].children.len() {
            assert(after[p].children[k] == new);
            assert(!component_less(node.name, nodes[nodes[parent].children[j] as int].name));
        } else {
            assert(after[p].children[k] == nodes[p].children[k]);
            let b = nodes[p].children[k] as int;
            assert(p < b < new);
            assert(after[b].name == nodes[b].name);
        }
    }
}

proof fn lemma_put_sorted(
    nodes: Seq<NodeModel>,
    parent: int,
    paths: Seq<Seq<Seq<char>>>,
    order: Seq<usize>,
    i: int,
    fi: usize,
)
    requires
        0 <= parent < nodes.len(),
        put_file(nodes, parent, paths[fi as int], i, fi).len() <= usize::MAX,
        arena_ok(nodes),
        siblings_sorted(nodes),
        0 <= i < paths[fi as int].len(),
        nodes[parent].file is None,
        spells(nodes, parent, paths[fi as int].take(i)),
        all_on_paths(nodes, paths, order) || nodes[parent].children.len() == 0,
        forall|k: int|
            0 <= k < order.len() ==> !path_less(
                paths[fi as int],
                paths[#[trigger] order[k] as int],
            ),
    ensures
        siblings_sorted(put_file(nodes, parent, paths[fi as int], i, fi)),
    decreases paths[fi as int].len() - i,
{
    let comps = paths[fi as int];
    lemma_put_length(nodes, parent, comps, i, fi);
    assert forall|k: int| 0 <= k < nodes[parent].children.len() implies !component_less(
        comps[i],
        nodes[#[trigger] nodes[parent].children[k] as int].name,
    ) by {
        let c = nodes[parent].children[k] as int;
        assert(parent < c < nodes.len());
        let names = comps.take(i).push(nodes[c].name);
        assert(names.drop_last() =~= comps.take(i));
        assert(is_child(nodes, parent, c));
        assert(spells(nodes, c, names));
        assert(on_a_path(paths, order, names));
        let m = choose|m: int|
            0 <= m < order.len() && names.len() <= paths[#[trigger] order[m] as int].len()
                && paths[order[m] as int].take(names.len() as int) == names;
        let other = paths[order[m] as int];
        assert(other.take(i) =~= other.take(i + 1).take(i));
        assert(names.take(i) =~= comps.take(i));
        assert(other[i] == other.take(i + 1)[i]);
        lemma_prefix_order(comps, other, i);
    }
    if i + 1 == comps.len() {
        lemma_add_child_sorted(nodes, parent, fresh(comps[i], Some(fi), i));
    } else {
        lemma_folder_among(nodes, parent, nodes[parent].children.len() as int, comps[i]);
        assert(comps.take(i + 1).drop_last() =~= comps.take(i));
        match folder_of(nodes, parent, comps[i]) {
            Some(c) => {
                assert(is_child(nodes, parent, c));
                assert(nodes[parent].children.len() > 0);
                lemma_put_sorted(nodes, c, paths, order, i + 1, fi);
            },
            None => {
                let dir = fresh(comps[i], None, i);
                let mid = add_child(nodes, parent, dir);
                lemma_add_child(nodes, parent, dir);
                lemma_add_child_sorted(nodes, parent, dir);
                lemma_spells_grows(nodes, mid, parent, comps.take(i));
                assert(is_child(mid, parent, nodes.len() as int));
                assert(mid[parent].file is None);
                lemma_put_sorted(mid, nodes.len() as int, paths, order, i + 1, fi);
            },
        }
    }
}

proof fn lemma_put_files_sorted(paths: Seq<Seq<Seq<char>>>, order: Seq<usize>)
    requires
        put_files(paths, order).len() <= usize::MAX,
        forall|i: int, j: int|
            0 <= i < j < order.len() ==> #[trigger] order[i] != #[trigger] order[j] && !path_less(
                paths[order[j] as int],
                paths[order[i] as int],
            ),
    ensures
        siblings_sorted(put_files(paths, order)),
        all_on_paths(put_files(paths, order), paths, order),
    decreases order.len(),
{
    lemma_put_files(paths, order);
    let after = put_files(paths, order);
    if order.len() == 0 {
        assert forall|n: int, names: Seq<Seq<char>>|
            0 <= n < after.len() && names.len() > 0 && #[trigger] spells(after, n, names) implies
            on_a_path(paths, order, names) by {
            let p = choose|p: int|
                {
                    &&& #[trigger] is_child(after, p, n)
                    &&& after[p].file is None
                    &&& after[n].name == names.last()
                    &&& spells(after, p, names.drop_last())
                };
            assert(!is_child(after, p, n));
        }
    } else {
        let was = order.drop_last();
        let fi = order.last();
        let comps = paths[fi as int];
        assert forall|i: int, j: int| 0 <= i < j < was.len() implies #[trigger] was[i]
            != #[trigger] was[j] && !path_less(paths[was[j] as int], paths[was[i] as int]) by {
            assert(order[i] != order[j]);
        }
        lemma_files_inside(paths, was);
        lemma_put_length(put_files(paths, was), 0, comps, 0, fi);
        lemma_put_files(paths, was);
        lemma_put_files_sorted(paths, was);
        let before = put_files(paths, was);
        assert forall|k: int| 0 <= k < was.len() implies !path_less(
            comps,
            paths[#[trigger] was[k] as int],
        ) by {
            assert(order[k] != order[order.len() - 1]);
        }
        if comps.len() > 0 {
            assert(comps.take(0).len() == 0);
            lemma_put_sorted(before, 0, paths, was, 0, fi);
            lemma_put_file(before, 0, comps, 0, fi);
        }
        assert forall|n: int, names: Seq<Seq<char>>|
            0 <= n < after.len() && names.len() > 0 && #[trigger] spells(after, n, names) implies
            on_a_path(paths, order, names) by {
            if n < before.len() {
                if comps.len() > 0 {
                    lemma_spells_before(before, after, n, names);
                }
                assert(on_a_path(paths, was, names));
                let m = choose|m: int|
                    0 <= m < was.len() && names.len() <= paths[#[trigger] was[m] as int].len()
                        && paths[was[m] as int].take(names.len() as int) == names;
                assert(order[m] == was[m]);
            } else {
                assert(on_the_way(after, n, comps));
                let j = choose|j: int|
                    0 < j <= comps.len() && #[trigger] spells(after, n, comps.take(j));
                lemma_spells_once(after, n, names, comps.take(j));
                assert(order[order.len() - 1] == fi);
            }
        }
    }
}

/// Below every folder, names come in order.
pub proof fn law_siblings_sorted(files: Seq<FileModel>)
    requires
        files.len() <= usize::MAX,
        tree_nodes(files).len() <= usize::MAX,
    ensures
        siblings_sorted(tree_nodes(files)),
{
    let paths = file_components(files);
    let n = paths.len() as int;
    let order = path_order(paths, n);
    law_path_order(paths, n);
    lemma_order_distinct(paths, n);
    assert forall|i: int, j: int| 0 <= i < j < order.len() implies #[trigger] order[i]
        != #[trigger] order[j] && !path_less(paths[order[j] as int], paths[order[i] as int]) by {
        assert(in_order(paths, order[i], order[j]));
        lemma_path_total(paths[order[i] as int], paths[order[j] as int]);
    }
    lemma_put_files_sorted(paths, order);
}

} // verus!
