//! What adding files to a tree and sorting it keep: the leaves, their
//! lines, the depth, and the order of names.

use vstd::prelude::*;
use vstd::seq_lib::{
    lemma_multiset_commutative, to_multiset_contains, to_multiset_insert, to_multiset_len,
    to_multiset_remove,
};

use crate::file_tree::{
    all_depth_within, first_dir, fresh, insert_desc, leaves_of, lemma_first_dir_range,
    lemma_leaves_of_concat, lemma_total_lines_concat, sort_desc, sorted_all, total_lines,
    FileView, TreeView,
};
use crate::text::{lemma_precedes_irreflexive, lemma_precedes_transitive, precedes};

verus! {

/// The leaves of a single pending node.
pub proof fn lemma_leaves_of_one(node: TreeView)
    ensures
        leaves_of(seq![node]) == node.leaves(),
{
    let one = seq![node];
    assert(one.drop_last() =~= Seq::empty());
    assert(leaves_of(Seq::<TreeView>::empty()) =~= Seq::empty());
    assert(leaves_of(one) =~= node.leaves());
}

/// A new chain of directories holds the one leaf it leads to.
pub proof fn lemma_fresh_leaves(segs: Seq<Seq<char>>, leaf: FileView)
    ensures
        fresh(segs, leaf).leaves() == seq![leaf],
    decreases segs.len(),
{
    if segs.len() > 1 {
        lemma_fresh_leaves(segs.drop_first(), leaf);
        lemma_leaves_of_one(fresh(segs.drop_first(), leaf));
    }
}

/// The leaves of siblings, taken apart at the sibling `k`.
pub proof fn lemma_leaves_of_split(children: Seq<TreeView>, k: int)
    requires
        0 <= k < children.len(),
    ensures
        leaves_of(children) == leaves_of(children.skip(k + 1)) + children[k].leaves() + leaves_of(
            children.take(k),
        ),
{
    let a = children.take(k);
    let b = children.skip(k + 1);
    assert(children =~= (a + seq![children[k]]) + b);
    lemma_leaves_of_concat(a + seq![children[k]], b);
    lemma_leaves_of_concat(a, seq![children[k]]);
    lemma_leaves_of_one(children[k]);
    assert(leaves_of(b) + (children[k].leaves() + leaves_of(a)) =~= leaves_of(b)
        + children[k].leaves() + leaves_of(a));
}

/// Adding a file puts its leaf somewhere among the leaves and leaves the
/// others as they were.
pub proof fn lemma_with_file_leaves(tree: TreeView, segs: Seq<Seq<char>>, leaf: FileView) -> (at:
    int)
    requires
        tree.with_file(segs, leaf) is Some,
    ensures
        0 <= at <= tree.leaves().len(),
        tree.with_file(segs, leaf)->0.leaves() == tree.leaves().insert(at, leaf),
    decreases segs.len(),
{
    let after = tree.with_file(segs, leaf)->0;
    match tree {
        TreeView::File(_) => 0,
        TreeView::Directory { name, children } => {
            let k = first_dir(children, segs[0]);
            lemma_first_dir_range(children, segs[0]);
            if segs.len() > 1 && k < children.len() {
                let child = children[k];
                let grown = child.with_file(segs.drop_first(), leaf)->0;
                let j = lemma_with_file_leaves(child, segs.drop_first(), leaf);
                let changed = children.update(k, grown);
                lemma_leaves_of_split(children, k);
                lemma_leaves_of_split(changed, k);
                assert(changed.skip(k + 1) =~= children.skip(k + 1));
                assert(changed.take(k) =~= children.take(k));
                let front = leaves_of(children.skip(k + 1));
                let back = leaves_of(children.take(k));
                assert(front + child.leaves().insert(j, leaf) + back =~= (front + child.leaves()
                    + back).insert(front.len() + j, leaf));
                front.len() + j
            } else {
                let added = if segs.len() <= 1 {
                    TreeView::File(leaf)
                } else {
                    fresh(segs, leaf)
                };
                lemma_fresh_leaves(segs, leaf);
                let changed = children.push(added);
                assert(changed.drop_last() =~= children);
                assert(changed.last() == added);
                assert(seq![leaf] + leaves_of(children) =~= leaves_of(children).insert(0, leaf));
                0
            }
        },
    }
}

/// Putting a node among sorted ones keeps every leaf.
pub proof fn lemma_insert_desc_leaves(sorted: Seq<TreeView>, node: TreeView)
    ensures
        leaves_of(insert_desc(sorted, node)).to_multiset() == node.leaves().to_multiset().add(
            leaves_of(sorted).to_multiset(),
        ),
    decreases sorted.len(),
{
    lemma_leaves_of_one(node);
    if sorted.len() == 0 {
        assert(leaves_of(sorted) =~= Seq::empty());
        assert(node.leaves() + leaves_of(sorted) =~= node.leaves());
        lemma_multiset_commutative(node.leaves(), leaves_of(sorted));
    } else if insert_desc(sorted, node) == seq![node] + sorted {
        lemma_leaves_of_concat(seq![node], sorted);
        lemma_multiset_commutative(leaves_of(sorted), node.leaves());
        assert(leaves_of(sorted).to_multiset().add(node.leaves().to_multiset())
            =~= node.leaves().to_multiset().add(leaves_of(sorted).to_multiset()));
    } else {
        let head = sorted[0];
        let rest = sorted.drop_first();
        lemma_insert_desc_leaves(rest, node);
        lemma_leaves_of_one(head);
        lemma_leaves_of_concat(seq![head], insert_desc(rest, node));
        assert(sorted =~= seq![head] + rest);
        lemma_leaves_of_concat(seq![head], rest);
        lemma_multiset_commutative(leaves_of(insert_desc(rest, node)), head.leaves());
        lemma_multiset_commutative(leaves_of(rest), head.leaves());
        assert(node.leaves().to_multiset().add(leaves_of(rest).to_multiset()).add(
            head.leaves().to_multiset(),
        ) =~= node.leaves().to_multiset().add(
            leaves_of(rest).to_multiset().add(head.leaves().to_multiset()),
        ));
    }
}

/// Sorting siblings keeps every leaf.
pub proof fn lemma_sort_desc_leaves(nodes: Seq<TreeView>)
    ensures
        leaves_of(sort_desc(nodes)).to_multiset() == leaves_of(nodes).to_multiset(),
    decreases nodes.len(),
{
    if nodes.len() > 0 {
        let head = nodes[0];
        let rest = nodes.drop_first();
        lemma_sort_desc_leaves(rest);
        lemma_insert_desc_leaves(sort_desc(rest), head);
        assert(nodes =~= seq![head] + rest);
        lemma_leaves_of_concat(seq![head], rest);
        lemma_leaves_of_one(head);
        lemma_multiset_commutative(leaves_of(rest), head.leaves());
        assert(head.leaves().to_multiset().add(leaves_of(rest).to_multiset()) =~= leaves_of(
            rest,
        ).to_multiset().add(head.leaves().to_multiset()));
    }
}

/// Sorting a tree keeps every leaf: the leaves of the sorted tree are those
/// of the tree in another order.
pub proof fn lemma_sorted_leaves(tree: TreeView)
    ensures
        tree.sorted().leaves().to_multiset() == tree.leaves().to_multiset(),
    decreases tree, 0nat,
{
    match tree {
        TreeView::Directory { children, .. } => {
            lemma_sorted_all_leaves(children);
            lemma_sort_desc_leaves(sorted_all(children));
        },
        TreeView::File(_) => {},
    }
}

/// Sorting each of `nodes` keeps every leaf.
pub proof fn lemma_sorted_all_leaves(nodes: Seq<TreeView>)
    ensures
        leaves_of(sorted_all(nodes)).to_multiset() == leaves_of(nodes).to_multiset(),
    decreases nodes, 1nat,
{
    if nodes.len() > 0 {
        let init = nodes.drop_last();
        lemma_sorted_all_leaves(init);
        lemma_sorted_leaves(nodes.last());
        let done = sorted_all(nodes);
        assert(done.drop_last() =~= sorted_all(init));
        assert(done.last() == nodes.last().sorted());
        lemma_multiset_commutative(nodes.last().sorted().leaves(), leaves_of(sorted_all(init)));
        lemma_multiset_commutative(nodes.last().leaves(), leaves_of(init));
    }
}

/// Taking a file out of a run takes its lines from the total.
pub proof fn lemma_total_lines_remove(files: Seq<FileView>, i: int)
    requires
        0 <= i < files.len(),
    ensures
        total_lines(files) == total_lines(files.remove(i)) + files[i].changes.len(),
{
    let a = files.take(i);
    let b = files.skip(i + 1);
    let one = seq![files[i]];
    assert(files =~= (a + one) + b);
    assert(files.remove(i) =~= a + b);
    lemma_total_lines_concat(a + one, b);
    lemma_total_lines_concat(a, one);
    lemma_total_lines_concat(a, b);
    assert(one.drop_last() =~= Seq::empty());
    assert(total_lines(Seq::<FileView>::empty()) == 0);
    assert(total_lines(one) == files[i].changes.len());
}

/// The number of lines in a run of files does not depend on their order.
pub proof fn lemma_total_lines_permutation(a: Seq<FileView>, b: Seq<FileView>)
    requires
        a.to_multiset() == b.to_multiset(),
    ensures
        total_lines(a) == total_lines(b),
        a.len() == b.len(),
    decreases a.len(),
{
    to_multiset_len(a);
    to_multiset_len(b);
    if a.len() > 0 {
        let x = a.last();
        let at = a.len() - 1;
        assert(a[at] == x);
        assert(a.contains(x));
        to_multiset_contains(a, x);
        to_multiset_contains(b, x);
        let i = choose|i: int| 0 <= i < b.len() && b[i] == x;
        to_multiset_remove(a, at);
        to_multiset_remove(b, i);
        assert(a.remove(at) =~= a.drop_last());
        lemma_total_lines_permutation(a.drop_last(), b.remove(i));
        lemma_total_lines_remove(b, i);
    }
}

/// What it is for each of `nodes` to be within `limit`.
pub proof fn lemma_all_depth_within(nodes: Seq<TreeView>, limit: nat)
    ensures
        all_depth_within(nodes, limit) <==> forall|i: int|
            0 <= i < nodes.len() ==> (#[trigger] nodes[i]).depth_within(limit),
    decreases nodes.len(),
{
    if nodes.len() > 0 {
        let init = nodes.drop_last();
        lemma_all_depth_within(init, limit);
        if all_depth_within(nodes, limit) {
            assert forall|i: int| 0 <= i < nodes.len() implies (#[trigger] nodes[i]).depth_within(
                limit,
            ) by {
                if i < init.len() {
                    assert(init[i] == nodes[i]);
                }
            }
        }
        if forall|i: int| 0 <= i < nodes.len() ==> (#[trigger] nodes[i]).depth_within(limit) {
            assert forall|i: int| 0 <= i < init.len() implies (#[trigger] init[i]).depth_within(
                limit,
            ) by {
                assert(init[i] == nodes[i]);
            }
            assert(nodes.last() == nodes[nodes.len() - 1]);
        }
    }
}

/// A tree within a limit is within every greater one.
pub proof fn lemma_depth_within_more(tree: TreeView, limit: nat, more: nat)
    requires
        tree.depth_within(limit),
        limit <= more,
    ensures
        tree.depth_within(more),
    decreases tree, 0nat,
{
    match tree {
        TreeView::Directory { children, .. } => {
            if children.len() > 0 {
                lemma_all_depth_within_more(children, (limit - 1) as nat, (more - 1) as nat);
            }
        },
        TreeView::File(_) => {},
    }
}

/// Nodes within a limit are within every greater one.
pub proof fn lemma_all_depth_within_more(nodes: Seq<TreeView>, limit: nat, more: nat)
    requires
        all_depth_within(nodes, limit),
        limit <= more,
    ensures
        all_depth_within(nodes, more),
    decreases nodes, 1nat,
{
    if nodes.len() > 0 {
        lemma_depth_within_more(nodes.last(), limit, more);
        lemma_all_depth_within_more(nodes.drop_last(), limit, more);
    }
}

/// A new chain of directories is as deep as the path is long.
pub proof fn lemma_fresh_depth(segs: Seq<Seq<char>>, leaf: FileView)
    requires
        segs.len() >= 1,
    ensures
        fresh(segs, leaf).depth_within((segs.len() - 1) as nat),
    decreases segs.len(),
{
    if segs.len() > 1 {
        lemma_fresh_depth(segs.drop_first(), leaf);
        let inner = seq![fresh(segs.drop_first(), leaf)];
        assert(inner.drop_last() =~= Seq::empty());
        assert(all_depth_within(Seq::<TreeView>::empty(), (segs.len() - 2) as nat));
        assert(all_depth_within(inner, (segs.len() - 2) as nat));
    }
}

/// Adding a file below a path takes the tree no deeper than the path is
/// long.
pub proof fn lemma_with_file_depth(
    tree: TreeView,
    segs: Seq<Seq<char>>,
    leaf: FileView,
    limit: nat,
)
    requires
        tree.with_file(segs, leaf) is Some,
        tree.depth_within(limit),
        1 <= segs.len() <= limit,
    ensures
        tree.with_file(segs, leaf)->0.depth_within(limit),
    decreases segs.len(),
{
    match tree {
        TreeView::File(_) => {},
        TreeView::Directory { name, children } => {
            let k = first_dir(children, segs[0]);
            lemma_first_dir_range(children, segs[0]);
            let below = (limit - 1) as nat;
            lemma_all_depth_within(children, below);
            if segs.len() > 1 && k < children.len() {
                let grown = children[k].with_file(segs.drop_first(), leaf)->0;
                lemma_with_file_depth(children[k], segs.drop_first(), leaf, below);
                let changed = children.update(k, grown);
                lemma_all_depth_within(changed, below);
            } else {
                let added = if segs.len() <= 1 {
                    TreeView::File(leaf)
                } else {
                    fresh(segs, leaf)
                };
                if segs.len() > 1 {
                    lemma_fresh_depth(segs, leaf);
                    lemma_depth_within_more(added, (segs.len() - 1) as nat, below);
                }
                let changed = children.push(added);
                lemma_all_depth_within(changed, below);
            }
        },
    }
}

/// Putting a node among others that are within a limit.
pub proof fn lemma_insert_desc_depth(sorted: Seq<TreeView>, node: TreeView, limit: nat)
    requires
        all_depth_within(sorted, limit),
        node.depth_within(limit),
    ensures
        all_depth_within(insert_desc(sorted, node), limit),
    decreases sorted.len(),
{
    lemma_all_depth_within(sorted, limit);
    let placed = insert_desc(sorted, node);
    if sorted.len() == 0 {
        lemma_all_depth_within(placed, limit);
    } else if placed == seq![node] + sorted {
        lemma_all_depth_within(placed, limit);
        assert forall|i: int| 0 <= i < placed.len() implies (#[trigger] placed[i]).depth_within(
            limit,
        ) by {
            if i > 0 {
                assert(placed[i] == sorted[i - 1]);
            }
        }
    } else {
        let rest = sorted.drop_first();
        lemma_all_depth_within(rest, limit);
        assert forall|i: int| 0 <= i < rest.len() implies (#[trigger] rest[i]).depth_within(
            limit,
        ) by {
            assert(rest[i] == sorted[i + 1]);
        }
        lemma_insert_desc_depth(rest, node, limit);
        let tail = insert_desc(rest, node);
        lemma_all_depth_within(tail, limit);
        lemma_all_depth_within(placed, limit);
        assert forall|i: int| 0 <= i < placed.len() implies (#[trigger] placed[i]).depth_within(
            limit,
        ) by {
            if i > 0 {
                assert(placed[i] == tail[i - 1]);
            }
        }
    }
}

/// Sorting siblings takes none of them deeper.
pub proof fn lemma_sort_desc_depth(nodes: Seq<TreeView>, limit: nat)
    requires
        all_depth_within(nodes, limit),
    ensures
        all_depth_within(sort_desc(nodes), limit),
    decreases nodes.len(),
{
    if nodes.len() > 0 {
        let rest = nodes.drop_first();
        lemma_all_depth_within(nodes, limit);
        lemma_all_depth_within(rest, limit);
        assert forall|i: int| 0 <= i < rest.len() implies (#[trigger] rest[i]).depth_within(
            limit,
        ) by {
            assert(rest[i] == nodes[i + 1]);
        }
        lemma_sort_desc_depth(rest, limit);
        lemma_insert_desc_depth(sort_desc(rest), nodes[0], limit);
    }
}

/// Sorting takes a tree no deeper.
pub proof fn lemma_sorted_depth(tree: TreeView, limit: nat)
    requires
        tree.depth_within(limit),
    ensures
        tree.sorted().depth_within(limit),
    decreases tree, 0nat,
{
    match tree {
        TreeView::Directory { children, .. } => {
            if children.len() > 0 {
                lemma_sorted_all_depth(children, (limit - 1) as nat);
                lemma_sort_desc_depth(sorted_all(children), (limit - 1) as nat);
            } else {
                assert(sorted_all(children) =~= Seq::empty());
                assert(sort_desc(sorted_all(children)) =~= Seq::empty());
            }
        },
        TreeView::File(_) => {},
    }
}

/// Sorting each of `nodes` takes none of them deeper.
pub proof fn lemma_sorted_all_depth(nodes: Seq<TreeView>, limit: nat)
    requires
        all_depth_within(nodes, limit),
    ensures
        all_depth_within(sorted_all(nodes), limit),
    decreases nodes, 1nat,
{
    if nodes.len() > 0 {
        lemma_sorted_depth(nodes.last(), limit);
        lemma_sorted_all_depth(nodes.drop_last(), limit);
        let done = sorted_all(nodes);
        assert(done.drop_last() =~= sorted_all(nodes.drop_last()));
        assert(done.last() == nodes.last().sorted());
    }
}

/// Whether the names of `nodes` never go up from one to the next.
pub open spec fn descending(nodes: Seq<TreeView>) -> bool {
    forall|i: int, j: int|
        0 <= i < j < nodes.len() ==> !precedes(
            (#[trigger] nodes[i]).name(),
            (#[trigger] nodes[j]).name(),
        )
}

/// Putting a node among sorted ones puts it at one place and moves
/// nothing else.
pub proof fn lemma_insert_desc_place(sorted: Seq<TreeView>, node: TreeView) -> (at: int)
    ensures
        0 <= at <= sorted.len(),
        insert_desc(sorted, node) == sorted.insert(at, node),
        forall|j: int| 0 <= j < at ==> !precedes((#[trigger] sorted[j]).name(), node.name()),
        at < sorted.len() ==> precedes(sorted[at].name(), node.name()),
    decreases sorted.len(),
{
    if sorted.len() == 0 {
        assert(sorted.insert(0, node) =~= seq![node]);
        0
    } else if precedes(sorted[0].name(), node.name()) {
        assert(sorted.insert(0, node) =~= seq![node] + sorted);
        0
    } else {
        let rest = sorted.drop_first();
        let at = lemma_insert_desc_place(rest, node);
        assert(sorted.insert(at + 1, node) =~= seq![sorted[0]] + rest.insert(at, node));
        assert forall|j: int| 0 <= j < at + 1 implies !precedes(
            (#[trigger] sorted[j]).name(),
            node.name(),
        ) by {
            if j > 0 {
                assert(sorted[j] == rest[j - 1]);
            }
        }
        at + 1
    }
}

/// Sorted siblings stay sorted when one more is put among them.
pub proof fn lemma_insert_desc_descending(sorted: Seq<TreeView>, node: TreeView)
    requires
        descending(sorted),
    ensures
        descending(insert_desc(sorted, node)),
{
    let at = lemma_insert_desc_place(sorted, node);
    let placed = sorted.insert(at, node);
    assert forall|i: int, j: int| 0 <= i < j < placed.len() implies !precedes(
        (#[trigger] placed[i]).name(),
        (#[trigger] placed[j]).name(),
    ) by {
        if i < at && j == at {
            assert(placed[i] == sorted[i]);
        } else if i < at && j > at {
            assert(placed[i] == sorted[i]);
            assert(placed[j] == sorted[j - 1]);
        } else if i == at {
            assert(placed[j] == sorted[j - 1]);
            if precedes(node.name(), sorted[j - 1].name()) {
                lemma_precedes_transitive(
                    sorted[at].name(),
                    node.name(),
                    sorted[j - 1].name(),
                );
                if j - 1 > at {
                    assert(!precedes(sorted[at].name(), sorted[j - 1].name()));
                } else {
                    lemma_precedes_irreflexive(sorted[at].name());
                }
            }
        } else if i > at {
            assert(placed[i] == sorted[i - 1]);
            assert(placed[j] == sorted[j - 1]);
        } else {
            assert(placed[i] == sorted[i]);
            assert(placed[j] == sorted[j]);
        }
    }
}

/// Sorting siblings puts them in descending order of their names and
/// neither adds nor loses one.
pub proof fn lemma_sort_desc_sorts(nodes: Seq<TreeView>)
    ensures
        descending(sort_desc(nodes)),
        sort_desc(nodes).to_multiset() == nodes.to_multiset(),
    decreases nodes.len(),
{
    if nodes.len() == 0 {
        assert(sort_desc(nodes) =~= nodes);
    } else {
        let rest = nodes.drop_first();
        lemma_sort_desc_sorts(rest);
        lemma_insert_desc_descending(sort_desc(rest), nodes[0]);
        let at = lemma_insert_desc_place(sort_desc(rest), nodes[0]);
        to_multiset_insert(sort_desc(rest), at, nodes[0]);
        assert(nodes =~= rest.insert(0, nodes[0]));
        to_multiset_insert(rest, 0, nodes[0]);
    }
}

/// Whether the children of every directory under `tree` stand in
/// descending order of their names.
pub open spec fn ordered(tree: TreeView) -> bool
    decreases tree, 0nat,
{
    match tree {
        TreeView::Directory { children, .. } => descending(children) && all_ordered(children),
        TreeView::File(_) => true,
    }
}

/// Whether each of `nodes` is ordered.
pub open spec fn all_ordered(nodes: Seq<TreeView>) -> bool
    decreases nodes, 1nat,
{
    nodes.len() == 0 || (ordered(nodes.last()) && all_ordered(nodes.drop_last()))
}

/// What it is for each of `nodes` to be ordered.
pub proof fn lemma_all_ordered(nodes: Seq<TreeView>)
    ensures
        all_ordered(nodes) <==> forall|i: int| 0 <= i < nodes.len() ==> ordered(#[trigger] nodes[i]),
    decreases nodes.len(),
{
    if nodes.len() > 0 {
        let init = nodes.drop_last();
        lemma_all_ordered(init);
        if all_ordered(nodes) {
            assert forall|i: int| 0 <= i < nodes.len() implies ordered(#[trigger] nodes[i]) by {
                if i < init.len() {
                    assert(init[i] == nodes[i]);
                }
            }
        }
        if forall|i: int| 0 <= i < nodes.len() ==> ordered(#[trigger] nodes[i]) {
            assert forall|i: int| 0 <= i < init.len() implies ordered(#[trigger] init[i]) by {
                assert(init[i] == nodes[i]);
            }
            assert(nodes.last() == nodes[nodes.len() - 1]);
        }
    }
}

/// A sorted tree is ordered: in every directory under it the names of the
/// children never go up from one to the next.
pub proof fn lemma_sorted_ordered(tree: TreeView)
    ensures
        ordered(tree.sorted()),
    decreases tree, 0nat,
{
    match tree {
        TreeView::Directory { children, .. } => {
            let each = sorted_all(children);
            let placed = sort_desc(each);
            lemma_sorted_all_ordered(children);
            lemma_sort_desc_sorts(each);
            lemma_all_ordered(each);
            lemma_all_ordered(placed);
            assert forall|i: int| 0 <= i < placed.len() implies ordered(#[trigger] placed[i]) by {
                assert(placed.contains(placed[i]));
                to_multiset_contains(placed, placed[i]);
                to_multiset_contains(each, placed[i]);
                let at = choose|j: int| 0 <= j < each.len() && each[j] == placed[i];
                assert(ordered(each[at]));
            }
        },
        TreeView::File(_) => {},
    }
}

/// Each of `nodes`, sorted, is ordered.
pub proof fn lemma_sorted_all_ordered(nodes: Seq<TreeView>)
    ensures
        all_ordered(sorted_all(nodes)),
    decreases nodes, 1nat,
{
    if nodes.len() > 0 {
        lemma_sorted_ordered(nodes.last());
        lemma_sorted_all_ordered(nodes.drop_last());
        let done = sorted_all(nodes);
        assert(done.drop_last() =~= sorted_all(nodes.drop_last()));
        assert(done.last() == nodes.last().sorted());
    }
}

} // verus!
