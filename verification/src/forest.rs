use crate::hierarchy::find_category;
use crate::models::{CategoryView, TreeNodeView};
use crate::ordering::{
    arranged, lemma_positions_where, lemma_stable_order, positions_where, stable_order,
};
use vstd::prelude::*;

verus! {

/// The position of the category that the category at `j` names as its parent:
/// the first one carrying that identifier. Nothing for a root, and nothing
/// where no category carries the identifier.
pub open spec fn parent_position(cats: Seq<CategoryView>, j: int) -> Option<int> {
    match cats[j].parent_id {
        Some(p) => find_category(cats, p),
        None => None,
    }
}

/// The category at `j` names no parent.
pub open spec fn is_root_at(cats: Seq<CategoryView>) -> spec_fn(int) -> bool {
    |j: int| cats[j].parent_id is None
}

/// The category at `j` is attached below the one at `i`.
pub open spec fn is_child_at(cats: Seq<CategoryView>, i: int) -> spec_fn(int) -> bool {
    |j: int| parent_position(cats, j) == Some(i)
}

/// Ranks positions by the sort key of their categories.
pub open spec fn by_sort_key(cats: Seq<CategoryView>) -> spec_fn(int, int) -> bool {
    |a: int, b: int| cats[a].sort_order < cats[b].sort_order
}

/// The positions of the roots in display order: ascending sort key, equal
/// keys in the order supplied.
pub open spec fn ordered_roots(cats: Seq<CategoryView>) -> Seq<int> {
    stable_order(positions_where(cats.len(), is_root_at(cats)), by_sort_key(cats))
}

/// The positions of the children of the category at `i` in display order.
pub open spec fn ordered_children(cats: Seq<CategoryView>, i: int) -> Seq<int> {
    stable_order(positions_where(cats.len(), is_child_at(cats, i)), by_sort_key(cats))
}

/// The node of the category at `i` with all that hangs below it, down to
/// `depth` levels.
pub open spec fn subtree(cats: Seq<CategoryView>, i: int, depth: nat) -> TreeNodeView
    decreases depth,
{
    TreeNodeView {
        category: cats[i],
        children: if depth == 0 {
            Seq::empty()
        } else {
            ordered_children(cats, i).map_values(
                |j: int| subtree(cats, j, (depth - 1) as nat),
            )
        },
    }
}

/// The forest of a collection: one tree for each category without a parent,
/// every other category below the first category that carries the identifier
/// it names as its parent. A category whose parent chain does not end in a
/// root is in no tree. No chain from a root is longer than the collection, so
/// that many levels hold every tree whole.
pub open spec fn forest(cats: Seq<CategoryView>) -> Seq<TreeNodeView> {
    ordered_roots(cats).map_values(|i: int| subtree(cats, i, cats.len()))
}

/// `node` is `tree` itself or a node anywhere below it.
pub open spec fn tree_has_node(tree: TreeNodeView, node: TreeNodeView) -> bool
    decreases tree,
{
    tree == node || exists|k: int|
        0 <= k < tree.children.len() && tree_has_node(#[trigger] tree.children[k], node)
}

/// `node` is a node of one of the trees.
pub open spec fn forest_has_node(trees: Seq<TreeNodeView>, node: TreeNodeView) -> bool {
    exists|r: int| 0 <= r < trees.len() && tree_has_node(#[trigger] trees[r], node)
}

/// The roots in display order are exactly the positions of the categories
/// without a parent, each ahead of all that follow it.
pub proof fn lemma_ordered_roots(cats: Seq<CategoryView>)
    ensures
        arranged(ordered_roots(cats), by_sort_key(cats)),
        forall|r: int|
            0 <= r < ordered_roots(cats).len() ==> {
                &&& 0 <= (#[trigger] ordered_roots(cats)[r]) < cats.len()
                &&& cats[ordered_roots(cats)[r]].parent_id is None
            },
        forall|j: int|
            0 <= j < cats.len() && cats[j].parent_id is None ==> #[trigger] ordered_roots(
                cats,
            ).contains(j),
{
    let picked = positions_where(cats.len(), is_root_at(cats));
    lemma_positions_where(cats.len(), is_root_at(cats));
    lemma_stable_order(picked, by_sort_key(cats));
    let order = ordered_roots(cats);
    assert forall|r: int| 0 <= r < order.len() implies {
        &&& 0 <= (#[trigger] order[r]) < cats.len()
        &&& cats[order[r]].parent_id is None
    } by {
        assert(order.contains(order[r]));
        let k = choose|k: int| 0 <= k < picked.len() && picked[k] == order[r];
        assert(is_root_at(cats)(picked[k]));
    }
    assert forall|j: int| 0 <= j < cats.len() && cats[j].parent_id is None implies #[trigger] order.contains(
        j,
    ) by {
        assert(is_root_at(cats)(j));
        assert(picked.contains(j));
    }
}

/// The children of the category at `i` in display order are exactly the
/// positions attached to `i`, each ahead of all that follow it.
pub proof fn lemma_ordered_children(cats: Seq<CategoryView>, i: int)
    ensures
        arranged(ordered_children(cats, i), by_sort_key(cats)),
        forall|k: int|
            0 <= k < ordered_children(cats, i).len() ==> {
                &&& 0 <= (#[trigger] ordered_children(cats, i)[k]) < cats.len()
                &&& parent_position(cats, ordered_children(cats, i)[k]) == Some(i)
            },
        forall|j: int|
            0 <= j < cats.len() && parent_position(cats, j) == Some(i)
                ==> #[trigger] ordered_children(cats, i).contains(j),
{
    let picked = positions_where(cats.len(), is_child_at(cats, i));
    lemma_positions_where(cats.len(), is_child_at(cats, i));
    lemma_stable_order(picked, by_sort_key(cats));
    let order = ordered_children(cats, i);
    assert forall|k: int| 0 <= k < order.len() implies {
        &&& 0 <= (#[trigger] order[k]) < cats.len()
        &&& parent_position(cats, order[k]) == Some(i)
    } by {
        assert(order.contains(order[k]));
        let m = choose|m: int| 0 <= m < picked.len() && picked[m] == order[k];
        assert(is_child_at(cats, i)(picked[m]));
    }
    assert forall|j: int|
        0 <= j < cats.len() && parent_position(cats, j) == Some(i) implies #[trigger] order.contains(
        j,
    ) by {
        assert(is_child_at(cats, i)(j));
        assert(picked.contains(j));
    }
}

/// Every node of a subtree is itself the subtree of some category.
pub proof fn lemma_node_is_subtree(
    cats: Seq<CategoryView>,
    i: int,
    depth: nat,
    node: TreeNodeView,
) -> (at: (int, nat))
    requires
        0 <= i < cats.len(),
        tree_has_node(subtree(cats, i, depth), node),
    ensures
        0 <= at.0 < cats.len(),
        at.1 <= depth,
        node == subtree(cats, at.0, at.1),
    decreases depth,
{
    let tree = subtree(cats, i, depth);
    if tree == node {
        (i, depth)
    } else {
        let k = choose|k: int|
            0 <= k < tree.children.len() && tree_has_node(#[trigger] tree.children[k], node);
        lemma_ordered_children(cats, i);
        let j = ordered_children(cats, i)[k];
        assert(tree.children[k] == subtree(cats, j, (depth - 1) as nat));
        lemma_node_is_subtree(cats, j, (depth - 1) as nat, node)
    }
}

/// Every node of the forest is the subtree of some category.
pub proof fn lemma_forest_node_is_subtree(cats: Seq<CategoryView>, node: TreeNodeView) -> (at: (
    int,
    nat,
))
    requires
        forest_has_node(forest(cats), node),
    ensures
        0 <= at.0 < cats.len(),
        at.1 <= cats.len(),
        node == subtree(cats, at.0, at.1),
{
    let trees = forest(cats);
    let r = choose|r: int| 0 <= r < trees.len() && tree_has_node(#[trigger] trees[r], node);
    lemma_ordered_roots(cats);
    let i = ordered_roots(cats)[r];
    assert(trees[r] == subtree(cats, i, cats.len()));
    lemma_node_is_subtree(cats, i, cats.len(), node)
}

/// A node of a node of a tree is a node of the tree.
pub proof fn lemma_tree_has_node_transitive(
    tree: TreeNodeView,
    inner: TreeNodeView,
    node: TreeNodeView,
)
    requires
        tree_has_node(tree, inner),
        tree_has_node(inner, node),
    ensures
        tree_has_node(tree, node),
    decreases tree,
{
    if tree != inner {
        let k = choose|k: int|
            0 <= k < tree.children.len() && tree_has_node(#[trigger] tree.children[k], inner);
        lemma_tree_has_node_transitive(tree.children[k], inner, node);
    }
}

} // verus!
