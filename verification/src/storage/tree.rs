use crate::forest::{
    by_sort_key, forest, is_child_at, is_root_at, ordered_children, ordered_roots,
    parent_position, subtree,
};
use crate::models::{Category, CategoryTreeNode};
use crate::ordering::{arrange, as_positions, positions_where, stable_order, Ranking};
use crate::storage::lookup::{as_position, find_index};
use vstd::prelude::*;

verus! {

/// For each category, the position of the category it is attached to.
fn parent_positions(categories: &[Category]) -> (parents: Vec<Option<usize>>)
    ensures
        parents.len() == categories.len(),
        forall|j: int|
            0 <= j < categories.len() ==> as_position(#[trigger] parents[j]) == parent_position(
                categories.deep_view(),
                j,
            ),
{
    let mut parents: Vec<Option<usize>> = Vec::new();
    let mut j: usize = 0;
    while j < categories.len()
        invariant
            j <= categories.len(),
            parents.len() == j,
            forall|m: int|
                0 <= m < j ==> as_position(#[trigger] parents[m]) == parent_position(
                    categories.deep_view(),
                    m,
                ),
        decreases categories.len() - j,
    {
        let parent = match &categories[j].parent_id {
            Some(p) => find_index(categories, p),
            None => None,
        };
        parents.push(parent);
        j += 1;
    }
    parents
}

/// The positions of the categories without a parent, ascending.
fn root_positions(categories: &[Category]) -> (roots: Vec<usize>)
    ensures
        as_positions(roots@) == positions_where(
            categories.len() as nat,
            is_root_at(categories.deep_view()),
        ),
        forall|k: int| 0 <= k < roots.len() ==> #[trigger] roots[k] < categories.len(),
{
    let ghost cats = categories.deep_view();
    let mut roots: Vec<usize> = Vec::new();
    let mut j: usize = 0;
    while j < categories.len()
        invariant
            j <= categories.len(),
            cats == categories.deep_view(),
            as_positions(roots@) == positions_where(j as nat, is_root_at(cats)),
            forall|k: int| 0 <= k < roots.len() ==> #[trigger] roots[k] < categories.len(),
        decreases categories.len() - j,
    {
        let ghost before = roots@;
        if categories[j].parent_id.is_none() {
            roots.push(j);
            assert(as_positions(roots@) =~= as_positions(before).push(j as int));
        }
        j += 1;
    }
    roots
}

/// The positions of the categories attached below the one at `i`, ascending.
fn child_positions(categories: &[Category], parents: &Vec<Option<usize>>, i: usize) -> (children:
    Vec<usize>)
    requires
        parents.len() == categories.len(),
        forall|j: int|
            0 <= j < categories.len() ==> as_position(#[trigger] parents[j]) == parent_position(
                categories.deep_view(),
                j,
            ),
    ensures
        as_positions(children@) == positions_where(
            categories.len() as nat,
            is_child_at(categories.deep_view(), i as int),
        ),
        forall|k: int| 0 <= k < children.len() ==> #[trigger] children[k] < categories.len(),
{
    let ghost cats = categories.deep_view();
    let mut children: Vec<usize> = Vec::new();
    let mut j: usize = 0;
    while j < parents.len()
        invariant
            j <= parents.len(),
            parents.len() == categories.len(),
            cats == categories.deep_view(),
            forall|m: int|
                0 <= m < categories.len() ==> as_position(#[trigger] parents[m])
                    == parent_position(cats, m),
            as_positions(children@) == positions_where(j as nat, is_child_at(cats, i as int)),
            forall|k: int| 0 <= k < children.len() ==> #[trigger] children[k] < categories.len(),
        decreases parents.len() - j,
    {
        let ghost before = children@;
        let attached = match parents[j] {
            Some(p) => p == i,
            None => false,
        };
        assert(attached == is_child_at(cats, i as int)(j as int)) by {
            assert(as_position(parents[j as int]) == parent_position(cats, j as int));
        }
        if attached {
            children.push(j);
            assert(as_positions(children@) =~= as_positions(before).push(j as int));
        }
        j += 1;
    }
    children
}

/// The ranking of the categories of a collection by sort key.
pub struct BySortKey<'a> {
    pub categories: &'a [Category],
}

impl<'a> Ranking for BySortKey<'a> {
    open spec fn size(&self) -> nat {
        self.categories@.len()
    }

    open spec fn before(&self) -> spec_fn(int, int) -> bool {
        by_sort_key(self.categories.deep_view())
    }

    fn is_before(&self, a: usize, b: usize) -> (ahead: bool) {
        self.categories[a].sort_order < self.categories[b].sort_order
    }
}

/// Arranges sibling positions for display: ascending sort key, and where the
/// keys are equal, in the order given.
fn sort_children(categories: &[Category], positions: Vec<usize>) -> (sorted: Vec<usize>)
    requires
        forall|k: int| 0 <= k < positions.len() ==> #[trigger] positions[k] < categories.len(),
    ensures
        as_positions(sorted@) == stable_order(
            as_positions(positions@),
            by_sort_key(categories.deep_view()),
        ),
        forall|k: int| 0 <= k < sorted.len() ==> #[trigger] sorted[k] < categories.len(),
{
    arrange(&BySortKey { categories }, positions)
}

/// Builds the node of the category at `i` and, below it, the nodes of all
/// categories attached to it, to at most `depth` further levels.
fn build_node(
    categories: &[Category],
    parents: &Vec<Option<usize>>,
    i: usize,
    depth: usize,
) -> (node: CategoryTreeNode)
    requires
        i < categories.len(),
        parents.len() == categories.len(),
        forall|j: int|
            0 <= j < categories.len() ==> as_position(#[trigger] parents[j]) == parent_position(
                categories.deep_view(),
                j,
            ),
    ensures
        node@ == subtree(categories.deep_view(), i as int, depth as nat),
    decreases depth,
{
    let ghost cats = categories.deep_view();
    let mut children: Vec<CategoryTreeNode> = Vec::new();
    if depth > 0 {
        let order = sort_children(categories, child_positions(categories, parents, i));
        assert(as_positions(order@) == ordered_children(cats, i as int));
        let mut k: usize = 0;
        while k < order.len()
            invariant
                k <= order.len(),
                depth > 0,
                children.len() == k,
                cats == categories.deep_view(),
                parents.len() == categories.len(),
                forall|j: int|
                    0 <= j < categories.len() ==> as_position(#[trigger] parents[j])
                        == parent_position(cats, j),
                forall|m: int| 0 <= m < order.len() ==> #[trigger] order[m] < categories.len(),
                forall|m: int|
                    0 <= m < k ==> (#[trigger] children[m])@ == subtree(
                        cats,
                        order[m] as int,
                        (depth - 1) as nat,
                    ),
            decreases order.len() - k,
        {
            let child = build_node(categories, parents, order[k], depth - 1);
            children.push(child);
            k += 1;
        }
        assert(children.len() == ordered_children(cats, i as int).len()) by {
            assert(as_positions(order@).len() == order.len());
        }
        assert forall|m: int| 0 <= m < children.len() implies (#[trigger] children[m])@ == subtree(
            cats,
            ordered_children(cats, i as int)[m],
            (depth - 1) as nat,
        ) by {
            assert(as_positions(order@)[m] == order[m] as int);
        }
    }
    let node = CategoryTreeNode { category: categories[i].clone(), children };
    proof {
        assert(node.category@ == cats[i as int]);
        assert(node@.children =~= subtree(cats, i as int, depth as nat).children);
    }
    node
}

/// Turns the flat collection into its forest: a tree for every category
/// without a parent, each category below its parent, siblings in ascending
/// sort key with equal keys in the order supplied. A category whose parent is
/// missing, or whose parent chain loops, is left out.
pub fn build_category_tree(categories: &[Category]) -> (roots: Vec<CategoryTreeNode>)
    ensures
        roots.deep_view() == forest(categories.deep_view()),
{
    let ghost cats = categories.deep_view();
    let parents = parent_positions(categories);
    let order = sort_children(categories, root_positions(categories));
    assert(as_positions(order@) == ordered_roots(cats));
    let mut roots: Vec<CategoryTreeNode> = Vec::new();
    let mut k: usize = 0;
    while k < order.len()
        invariant
            k <= order.len(),
            roots.len() == k,
            cats == categories.deep_view(),
            parents.len() == categories.len(),
            forall|j: int|
                0 <= j < categories.len() ==> as_position(#[trigger] parents[j])
                    == parent_position(cats, j),
            forall|m: int| 0 <= m < order.len() ==> #[trigger] order[m] < categories.len(),
            forall|m: int|
                0 <= m < k ==> (#[trigger] roots[m])@ == subtree(
                    cats,
                    order[m] as int,
                    cats.len(),
                ),
        decreases order.len() - k,
    {
        let root = build_node(categories, &parents, order[k], categories.len());
        roots.push(root);
        k += 1;
    }
    proof {
        assert(as_positions(order@).len() == order.len());
        assert forall|m: int| 0 <= m < roots.len() implies roots.deep_view()[m] == forest(cats)[m] by {
            assert(as_positions(order@)[m] == order[m] as int);
            assert(roots.deep_view()[m] == roots[m]@);
        }
        assert(roots.deep_view() =~= forest(cats));
    }
    roots
}

} // verus!
