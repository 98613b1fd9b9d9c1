use crate::ancestry::{is_hierarchy, is_rooted, lemma_root_distance_bound, root_distance_is};
use crate::forest::{
    by_sort_key, forest, forest_has_node, lemma_forest_node_is_subtree, lemma_ordered_children,
    lemma_ordered_roots, lemma_tree_has_node_transitive, ordered_children, ordered_roots,
    parent_position, subtree, tree_has_node,
};
use crate::hierarchy::{find_category, lemma_find_category};
use crate::models::{CategoryView, TreeNodeView};
use crate::ordering::precedes;
use vstd::prelude::*;

verus! {

/// `first` was supplied ahead of `second`: the collection holds `first` at an
/// earlier position than `second`.
pub open spec fn supplied_before(
    cats: Seq<CategoryView>,
    first: CategoryView,
    second: CategoryView,
) -> bool {
    exists|p: int, q: int|
        0 <= p < q < cats.len() && #[trigger] cats[p] == first && #[trigger] cats[q] == second
}

/// A category without a parent reference is at the root of one of the trees
/// of the forest.
pub proof fn law_parentless_category_is_a_root(cats: Seq<CategoryView>, j: int)
    requires
        0 <= j < cats.len(),
        cats[j].parent_id is None,
    ensures
        exists|r: int| 0 <= r < forest(cats).len() && (#[trigger] forest(cats)[r]).category == cats[j],
{
    lemma_ordered_roots(cats);
    let order = ordered_roots(cats);
    assert(order.contains(j));
    let r = choose|r: int| 0 <= r < order.len() && order[r] == j;
    assert(forest(cats)[r].category == cats[j]);
}

/// The category of every child node names the category of the node above it
/// as its parent. So no category without a parent reference is the child of
/// any node.
pub proof fn law_child_names_its_parent(cats: Seq<CategoryView>, node: TreeNodeView, k: int)
    requires
        forest_has_node(forest(cats), node),
        0 <= k < node.children.len(),
    ensures
        node.children[k].category.parent_id == Some(node.category.id),
        forall|j: int|
            0 <= j < cats.len() && (#[trigger] cats[j]).parent_id is None
                ==> node.children[k].category != cats[j],
{
    let at = lemma_forest_node_is_subtree(cats, node);
    let i = at.0;
    lemma_ordered_children(cats, i);
    let c = ordered_children(cats, i)[k];
    assert(node.children[k] == subtree(cats, c, (at.1 - 1) as nat));
    assert(parent_position(cats, c) == Some(i));
    lemma_find_category(cats, cats[c].parent_id->0);
}

/// Siblings stand in ascending sort key, and siblings with equal keys stand
/// in the order in which their categories were supplied.
pub proof fn law_siblings_in_order(cats: Seq<CategoryView>, node: TreeNodeView, a: int, b: int)
    requires
        forest_has_node(forest(cats), node),
        0 <= a < b < node.children.len(),
    ensures
        node.children[a].category.sort_order <= node.children[b].category.sort_order,
        node.children[a].category.sort_order == node.children[b].category.sort_order
            ==> supplied_before(cats, node.children[a].category, node.children[b].category),
{
    let at = lemma_forest_node_is_subtree(cats, node);
    let i = at.0;
    lemma_ordered_children(cats, i);
    let order = ordered_children(cats, i);
    assert(node.children[a] == subtree(cats, order[a], (at.1 - 1) as nat));
    assert(node.children[b] == subtree(cats, order[b], (at.1 - 1) as nat));
    assert(precedes(by_sort_key(cats), order[a], order[b]));
    if cats[order[a]].sort_order == cats[order[b]].sort_order {
        assert(cats[order[a]] == node.children[a].category);
        assert(cats[order[b]] == node.children[b].category);
    }
}

/// The roots stand in ascending sort key, and roots with equal keys stand in
/// the order in which their categories were supplied.
pub proof fn law_roots_in_order(cats: Seq<CategoryView>, a: int, b: int)
    requires
        0 <= a < b < forest(cats).len(),
    ensures
        forest(cats)[a].category.sort_order <= forest(cats)[b].category.sort_order,
        forest(cats)[a].category.sort_order == forest(cats)[b].category.sort_order
            ==> supplied_before(cats, forest(cats)[a].category, forest(cats)[b].category),
{
    lemma_ordered_roots(cats);
    let order = ordered_roots(cats);
    assert(precedes(by_sort_key(cats), order[a], order[b]));
    if cats[order[a]].sort_order == cats[order[b]].sort_order {
        assert(cats[order[a]] == forest(cats)[a].category);
        assert(cats[order[b]] == forest(cats)[b].category);
    }
}

/// The first category that carries `id` has a node in the forest.
pub open spec fn in_forest(cats: Seq<CategoryView>, id: Seq<char>) -> bool {
    match find_category(cats, id) {
        Some(i) => exists|node: TreeNodeView| #[trigger]
            forest_has_node(forest(cats), node) && node.category == cats[i],
        None => false,
    }
}

/// A category whose chain of parent references ends at a root has its node in
/// the forest, as many levels down as the chain has references.
pub proof fn lemma_rooted_has_node(cats: Seq<CategoryView>, id: Seq<char>, steps: nat)
    requires
        root_distance_is(cats, id, steps),
    ensures
        steps < cats.len(),
        find_category(cats, id) is Some,
        forest_has_node(
            forest(cats),
            subtree(cats, find_category(cats, id)->0, (cats.len() - steps) as nat),
        ),
    decreases steps,
{
    lemma_root_distance_bound(cats, id, steps);
    lemma_find_category(cats, id);
    let i = find_category(cats, id)->0;
    let mine = subtree(cats, i, (cats.len() - steps) as nat);
    if steps == 0 {
        lemma_ordered_roots(cats);
        let order = ordered_roots(cats);
        assert(order.contains(i));
        let r = choose|r: int| 0 <= r < order.len() && order[r] == i;
        assert(forest(cats)[r] == mine);
        assert(tree_has_node(forest(cats)[r], mine));
    } else {
        let p = cats[i].parent_id->0;
        lemma_rooted_has_node(cats, p, (steps - 1) as nat);
        let ip = find_category(cats, p)->0;
        let above = subtree(cats, ip, (cats.len() - steps + 1) as nat);
        lemma_ordered_children(cats, ip);
        let order = ordered_children(cats, ip);
        assert(parent_position(cats, i) == Some(ip));
        assert(order.contains(i));
        let k = choose|k: int| 0 <= k < order.len() && order[k] == i;
        assert(above.children[k] == mine);
        assert(tree_has_node(above.children[k], mine));
        assert(tree_has_node(above, mine));
        let r = choose|r: int|
            0 <= r < forest(cats).len() && tree_has_node(#[trigger] forest(cats)[r], above);
        lemma_tree_has_node_transitive(forest(cats)[r], above, mine);
    }
}

/// A category whose chain of parent references ends at a root has a node in
/// the forest.
pub proof fn law_rooted_category_is_in_forest(cats: Seq<CategoryView>, id: Seq<char>)
    requires
        is_rooted(cats, id),
    ensures
        in_forest(cats, id),
{
    let steps = choose|steps: nat| root_distance_is(cats, id, steps);
    lemma_rooted_has_node(cats, id, steps);
    let i = find_category(cats, id)->0;
    let node = subtree(cats, i, (cats.len() - steps) as nat);
    assert(forest_has_node(forest(cats), node) && node.category == cats[i]);
}

/// In a hierarchy every category has its node in the forest.
pub proof fn law_hierarchy_is_all_in_forest(cats: Seq<CategoryView>, i: int)
    requires
        is_hierarchy(cats),
        0 <= i < cats.len(),
    ensures
        exists|node: TreeNodeView| #[trigger]
            forest_has_node(forest(cats), node) && node.category == cats[i],
{
    law_rooted_category_is_in_forest(cats, cats[i].id);
    lemma_find_category(cats, cats[i].id);
    let first = find_category(cats, cats[i].id)->0;
    assert(first == i) by {
        if first < i {
            assert(cats[first].id != cats[i].id);
        }
    }
}

} // verus!
