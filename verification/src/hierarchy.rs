use crate::models::CategoryView;
use vstd::prelude::*;

verus! {

/// The identifiers of a collection, in the order supplied.
pub open spec fn ids(cats: Seq<CategoryView>) -> Seq<Seq<char>> {
    cats.map_values(|c: CategoryView| c.id)
}

/// No two categories of the collection share an identifier.
pub open spec fn has_unique_ids(cats: Seq<CategoryView>) -> bool {
    forall|i: int, j: int|
        0 <= i < j < cats.len() ==> (#[trigger] cats[i]).id != (#[trigger] cats[j]).id
}

/// The position of the first category that carries `id`, if any does. Where
/// several categories share an identifier, references resolve to the first.
pub open spec fn find_category(cats: Seq<CategoryView>, id: Seq<char>) -> Option<int> {
    ids(cats).index_of_first(id)
}

/// What `find_category` returns: the least position holding `id`, or nothing
/// when no category holds it.
pub proof fn lemma_find_category(cats: Seq<CategoryView>, id: Seq<char>)
    ensures
        match find_category(cats, id) {
            Some(i) => {
                &&& 0 <= i < cats.len()
                &&& cats[i].id == id
                &&& forall|j: int| 0 <= j < i ==> (#[trigger] cats[j]).id != id
            },
            None => forall|j: int| 0 <= j < cats.len() ==> (#[trigger] cats[j]).id != id,
        },
{
    let s = ids(cats);
    s.index_of_first_ensures(id);
    match s.index_of_first(id) {
        Some(i) => {
            assert(s[i] == cats[i].id);
            assert forall|j: int| 0 <= j < i implies (#[trigger] cats[j]).id != id by {
                assert(s[j] == cats[j].id);
            }
        },
        None => {
            assert forall|j: int| 0 <= j < cats.len() implies (#[trigger] cats[j]).id != id by {
                assert(s[j] == cats[j].id);
            }
        },
    }
}

/// A position that holds `id` and has no earlier position holding it is the
/// one `find_category` returns.
pub proof fn lemma_find_category_is(cats: Seq<CategoryView>, id: Seq<char>, i: int)
    requires
        0 <= i < cats.len(),
        cats[i].id == id,
        forall|j: int| 0 <= j < i ==> (#[trigger] cats[j]).id != id,
    ensures
        find_category(cats, id) == Some(i),
{
    lemma_find_category(cats, id);
}

/// `x` is `root` itself, or is reached from it by following at most `k` links
/// from a parent to one of its children.
pub open spec fn descends_within(
    cats: Seq<CategoryView>,
    root: Seq<char>,
    x: Seq<char>,
    k: nat,
) -> bool
    decreases k,
{
    x == root || (k > 0 && exists|j: int|
        0 <= j < cats.len() && (#[trigger] cats[j]).id == x && cats[j].parent_id is Some
            && descends_within(cats, root, cats[j].parent_id->0, (k - 1) as nat))
}

/// `x` belongs to the descendant closure of `root`: it is `root`, or the
/// identifier of a direct or transitive child of `root`.
pub open spec fn is_descendant(cats: Seq<CategoryView>, root: Seq<char>, x: Seq<char>) -> bool {
    exists|k: nat| descends_within(cats, root, x, k)
}

/// The descendant closure of `root` as a set of identifiers.
pub open spec fn descendant_ids(cats: Seq<CategoryView>, root: Seq<char>) -> Set<Seq<char>> {
    Set::new(|x: Seq<char>| is_descendant(cats, root, x))
}

/// Every category whose parent is `parent` has its identifier in `seen`.
pub open spec fn covers_children(
    cats: Seq<CategoryView>,
    parent: Seq<char>,
    seen: Seq<Seq<char>>,
) -> bool {
    forall|j: int|
        0 <= j < cats.len() && (#[trigger] cats[j]).parent_id == Some(parent) ==> seen.contains(
            cats[j].id,
        )
}

/// No category names `id` as its parent.
pub open spec fn is_leaf(cats: Seq<CategoryView>, id: Seq<char>) -> bool {
    forall|j: int| 0 <= j < cats.len() ==> (#[trigger] cats[j]).parent_id != Some(id)
}

/// What descends from a child of `parent` descends from `parent`.
pub proof fn lemma_descends_through_child(
    cats: Seq<CategoryView>,
    parent: Seq<char>,
    j: int,
    x: Seq<char>,
)
    requires
        0 <= j < cats.len(),
        cats[j].parent_id == Some(parent),
        is_descendant(cats, cats[j].id, x),
    ensures
        is_descendant(cats, parent, x),
{
    let k = choose|k: nat| descends_within(cats, cats[j].id, x, k);
    lemma_descends_through_child_within(cats, parent, j, x, k);
}

proof fn lemma_descends_through_child_within(
    cats: Seq<CategoryView>,
    parent: Seq<char>,
    j: int,
    x: Seq<char>,
    k: nat,
)
    requires
        0 <= j < cats.len(),
        cats[j].parent_id == Some(parent),
        descends_within(cats, cats[j].id, x, k),
    ensures
        descends_within(cats, parent, x, k + 1),
    decreases k,
{
    if x == cats[j].id {
        assert(descends_within(cats, parent, parent, 0));
        assert(descends_within(cats, parent, cats[j].parent_id->0, k));
    } else {
        let m = choose|m: int|
            0 <= m < cats.len() && (#[trigger] cats[m]).id == x && cats[m].parent_id is Some
                && descends_within(cats, cats[j].id, cats[m].parent_id->0, (k - 1) as nat);
        lemma_descends_through_child_within(cats, parent, j, cats[m].parent_id->0, (k - 1) as nat);
    }
}

/// A list that holds `root` and, with each identifier, the identifiers of
/// that identifier's children, holds the whole closure of `root`.
pub proof fn lemma_closed_list_holds_closure(
    cats: Seq<CategoryView>,
    root: Seq<char>,
    seen: Seq<Seq<char>>,
    x: Seq<char>,
)
    requires
        seen.contains(root),
        forall|i: int| 0 <= i < seen.len() ==> covers_children(cats, #[trigger] seen[i], seen),
        is_descendant(cats, root, x),
    ensures
        seen.contains(x),
{
    let k = choose|k: nat| descends_within(cats, root, x, k);
    lemma_closed_list_holds_within(cats, root, seen, x, k);
}

proof fn lemma_closed_list_holds_within(
    cats: Seq<CategoryView>,
    root: Seq<char>,
    seen: Seq<Seq<char>>,
    x: Seq<char>,
    k: nat,
)
    requires
        seen.contains(root),
        forall|i: int| 0 <= i < seen.len() ==> covers_children(cats, #[trigger] seen[i], seen),
        descends_within(cats, root, x, k),
    ensures
        seen.contains(x),
    decreases k,
{
    if x != root {
        let m = choose|m: int|
            0 <= m < cats.len() && (#[trigger] cats[m]).id == x && cats[m].parent_id is Some
                && descends_within(cats, root, cats[m].parent_id->0, (k - 1) as nat);
        let p = cats[m].parent_id->0;
        lemma_closed_list_holds_within(cats, root, seen, p, (k - 1) as nat);
        let i = choose|i: int| 0 <= i < seen.len() && seen[i] == p;
        assert(covers_children(cats, seen[i], seen));
    }
}

/// The closure of an identifier that no category names as its parent is that
/// identifier alone.
pub proof fn lemma_leaf_closure(cats: Seq<CategoryView>, id: Seq<char>, x: Seq<char>)
    requires
        is_leaf(cats, id),
        is_descendant(cats, id, x),
    ensures
        x == id,
{
    let k = choose|k: nat| descends_within(cats, id, x, k);
    lemma_leaf_closure_within(cats, id, x, k);
}

proof fn lemma_leaf_closure_within(cats: Seq<CategoryView>, id: Seq<char>, x: Seq<char>, k: nat)
    requires
        is_leaf(cats, id),
        descends_within(cats, id, x, k),
    ensures
        x == id,
    decreases k,
{
    if x != id {
        let m = choose|m: int|
            0 <= m < cats.len() && (#[trigger] cats[m]).id == x && cats[m].parent_id is Some
                && descends_within(cats, id, cats[m].parent_id->0, (k - 1) as nat);
        lemma_leaf_closure_within(cats, id, cats[m].parent_id->0, (k - 1) as nat);
    }
}

/// The identifiers of the collection that `seen` does not hold yet.
pub open spec fn unseen_ids(cats: Seq<CategoryView>, seen: Seq<Seq<char>>) -> Set<Seq<char>> {
    ids(cats).to_set().difference(seen.to_set())
}

/// Recording one more identifier of the collection leaves fewer unseen.
pub proof fn lemma_unseen_shrinks(cats: Seq<CategoryView>, seen: Seq<Seq<char>>, x: Seq<char>)
    requires
        ids(cats).contains(x),
        !seen.contains(x),
    ensures
        unseen_ids(cats, seen.push(x)).len() < unseen_ids(cats, seen).len(),
{
    broadcast use vstd::seq_lib::seq_to_set_is_finite;

    let before = unseen_ids(cats, seen);
    let after = unseen_ids(cats, seen.push(x));
    assert(before.finite());
    assert(before.contains(x));
    assert(seen.push(x).last() == x);
    assert(after =~= before.remove(x)) by {
        assert forall|y: Seq<char>| after.contains(y) <==> before.remove(x).contains(y) by {
            if seen.push(x).contains(y) {
                let i = choose|i: int| 0 <= i < seen.push(x).len() && seen.push(x)[i] == y;
                if i < seen.len() {
                    assert(seen[i] == y);
                }
            }
            if seen.contains(y) {
                let i = choose|i: int| 0 <= i < seen.len() && seen[i] == y;
                assert(seen.push(x)[i] == y);
            }
        }
    }
}

/// A longer list leaves no more unseen than its prefix did.
pub proof fn lemma_unseen_monotone(
    cats: Seq<CategoryView>,
    seen: Seq<Seq<char>>,
    more: Seq<Seq<char>>,
)
    requires
        seen.is_prefix_of(more),
    ensures
        unseen_ids(cats, more).len() <= unseen_ids(cats, seen).len(),
{
    broadcast use vstd::seq_lib::seq_to_set_is_finite;

    assert(unseen_ids(cats, more).subset_of(unseen_ids(cats, seen))) by {
        assert forall|y: Seq<char>| unseen_ids(cats, more).contains(y) implies unseen_ids(
            cats,
            seen,
        ).contains(y) by {
            if seen.contains(y) {
                let i = choose|i: int| 0 <= i < seen.len() && seen[i] == y;
                assert(more[i] == y);
            }
        }
    }
    vstd::set_lib::lemma_len_subset(unseen_ids(cats, more), unseen_ids(cats, seen));
}

/// A list without repetition whose entries, but possibly `extra`, are
/// identifiers of the collection is no longer than the collection and one.
pub proof fn lemma_distinct_ids_bound(
    cats: Seq<CategoryView>,
    seen: Seq<Seq<char>>,
    extra: Seq<char>,
)
    requires
        seen.no_duplicates(),
        forall|i: int| 0 <= i < seen.len() ==> #[trigger] seen[i] == extra || ids(cats).contains(seen[i]),
    ensures
        seen.len() <= cats.len() + 1,
        ids(cats).contains(extra) ==> seen.len() <= cats.len(),
{
    broadcast use vstd::seq_lib::seq_to_set_is_finite;

    let all = ids(cats).to_set();
    seen.unique_seq_to_set();
    ids(cats).lemma_cardinality_of_set();
    assert(seen.to_set().subset_of(all.insert(extra))) by {
        assert forall|y: Seq<char>| seen.to_set().contains(y) implies all.insert(extra).contains(
            y,
        ) by {
            let i = choose|i: int| 0 <= i < seen.len() && seen[i] == y;
            assert(seen[i] == extra || ids(cats).contains(seen[i]));
        }
    }
    vstd::set_lib::lemma_len_subset(seen.to_set(), all.insert(extra));
    if ids(cats).contains(extra) {
        assert(all.insert(extra) =~= all);
    }
}

} // verus!
