use crate::ancestry::{
    climbs_to, is_ancestor, is_hierarchy, is_rooted, lemma_rooted_chain, lemma_rooted_chain_ends,
    nth_parent, parent_of, root_distance_is, would_create_cycle,
};
use crate::handlers::category::{moved, outside_closure, with_moved};
use crate::hierarchy::{
    descends_within, find_category, has_unique_ids, ids, is_descendant, lemma_find_category,
    lemma_find_category_is,
};
use crate::laws::forest::{in_forest, law_rooted_category_is_in_forest};
use crate::models::CategoryView;
use vstd::prelude::*;

verus! {

/// Moving a category leaves alone every chain to a root that does not pass
/// through it.
proof fn lemma_move_keeps_other_chains(
    cats: Seq<CategoryView>,
    id: Seq<char>,
    new_parent: Option<Seq<char>>,
    sort_order: i32,
    now: Seq<char>,
    from: Seq<char>,
    steps: nat,
)
    requires
        root_distance_is(cats, from, steps),
        from != id,
        !is_ancestor(cats, id, from),
    ensures
        root_distance_is(with_moved(cats, id, new_parent, sort_order, now), from, steps),
    decreases steps,
{
    let after = with_moved(cats, id, new_parent, sort_order, now);
    lemma_find_category(cats, id);
    lemma_find_category(cats, from);
    assert(ids(after) =~= ids(cats));
    let i = find_category(cats, from)->0;
    assert(after[i] == cats[i]);
    match cats[i].parent_id {
        None => {},
        Some(p) => {
            assert(parent_of(cats, from) == Some(p));
            if p == id {
                assert(climbs_to(cats, from, id, 1));
            }
            if is_ancestor(cats, id, p) {
                let s = choose|s: nat| climbs_to(cats, p, id, s);
                assert(climbs_to(cats, from, id, s + 1));
            }
            lemma_move_keeps_other_chains(
                cats,
                id,
                new_parent,
                sort_order,
                now,
                p,
                (steps - 1) as nat,
            );
        },
    }
}

/// A move that the cycle guard lets pass, to a root or under a parent whose
/// own chain of parent references ends at a root, leaves the moved category
/// with a chain that ends at a root.
pub proof fn law_guarded_move_stays_rooted(
    cats: Seq<CategoryView>,
    id: Seq<char>,
    new_parent: Option<Seq<char>>,
    sort_order: i32,
    now: Seq<char>,
)
    requires
        find_category(cats, id) is Some,
        new_parent matches Some(p) ==> is_rooted(cats, p),
        !would_create_cycle(cats, id, new_parent),
    ensures
        is_rooted(with_moved(cats, id, new_parent, sort_order, now), id),
{
    let after = with_moved(cats, id, new_parent, sort_order, now);
    lemma_find_category(cats, id);
    assert(ids(after) =~= ids(cats));
    let a = find_category(cats, id)->0;
    assert(after[a] == moved(cats[a], new_parent, sort_order, now));
    match new_parent {
        None => {
            assert(root_distance_is(after, id, 0));
        },
        Some(p) => {
            let steps = choose|steps: nat| root_distance_is(cats, p, steps);
            lemma_move_keeps_other_chains(cats, id, new_parent, sort_order, now, p, steps);
            assert(root_distance_is(after, id, steps + 1));
        },
    }
}

/// After a move that leaves the moved category with a chain that ends at a
/// root, every category that had the moved one above it has such a chain too.
proof fn lemma_move_keeps_chains_through(
    cats: Seq<CategoryView>,
    id: Seq<char>,
    new_parent: Option<Seq<char>>,
    sort_order: i32,
    now: Seq<char>,
    from: Seq<char>,
    steps: nat,
)
    requires
        find_category(cats, id) is Some,
        is_rooted(with_moved(cats, id, new_parent, sort_order, now), id),
        from == id || climbs_to(cats, from, id, steps),
    ensures
        is_rooted(with_moved(cats, id, new_parent, sort_order, now), from),
    decreases steps,
{
    let after = with_moved(cats, id, new_parent, sort_order, now);
    if from != id {
        lemma_find_category(cats, id);
        lemma_find_category(cats, from);
        assert(ids(after) =~= ids(cats));
        let i = find_category(cats, from)->0;
        assert(after[i] == cats[i]);
        let p = cats[i].parent_id->0;
        assert(parent_of(cats, from) == Some(p));
        lemma_move_keeps_chains_through(
            cats,
            id,
            new_parent,
            sort_order,
            now,
            p,
            (steps - 1) as nat,
        );
        let above = choose|above: nat| root_distance_is(after, p, above);
        assert(root_distance_is(after, from, above + 1));
    }
}

/// In a hierarchy, a move that the cycle guard lets pass, to a root or under
/// a category of the collection, gives a hierarchy again.
pub proof fn law_guarded_move_keeps_hierarchy(
    cats: Seq<CategoryView>,
    id: Seq<char>,
    new_parent: Option<Seq<char>>,
    sort_order: i32,
    now: Seq<char>,
)
    requires
        is_hierarchy(cats),
        find_category(cats, id) is Some,
        new_parent matches Some(p) ==> find_category(cats, p) is Some,
        !would_create_cycle(cats, id, new_parent),
    ensures
        is_hierarchy(with_moved(cats, id, new_parent, sort_order, now)),
{
    let after = with_moved(cats, id, new_parent, sort_order, now);
    lemma_find_category(cats, id);
    assert(ids(after) =~= ids(cats));
    if new_parent is Some {
        lemma_find_category(cats, new_parent->0);
    }
    law_guarded_move_stays_rooted(cats, id, new_parent, sort_order, now);
    assert(has_unique_ids(after)) by {
        assert forall|i: int, j: int| 0 <= i < j < after.len() implies (#[trigger] after[i]).id
            != (#[trigger] after[j]).id by {
            assert(after[i].id == cats[i].id && after[j].id == cats[j].id);
        }
    }
    assert forall|i: int| 0 <= i < after.len() implies is_rooted(after, (#[trigger] after[i]).id) by {
        let x = cats[i].id;
        assert(after[i].id == x);
        assert(is_rooted(cats, x));
        if x == id {
        } else if is_ancestor(cats, id, x) {
            let s = choose|s: nat| climbs_to(cats, x, id, s);
            lemma_move_keeps_chains_through(cats, id, new_parent, sort_order, now, x, s);
        } else {
            let steps = choose|steps: nat| root_distance_is(cats, x, steps);
            lemma_move_keeps_other_chains(cats, id, new_parent, sort_order, now, x, steps);
        }
    }
}

/// If the cycle guard lets a move pass, and the new parent, where there is
/// one, has a chain of parent references that ends at a root, then in the
/// forest rebuilt after the move every category on the chain of parent
/// references that starts at the moved category has its node: the moved
/// category, its new parent, and so on up to a root.
pub proof fn law_guarded_move_keeps_chain_in_forest(
    cats: Seq<CategoryView>,
    id: Seq<char>,
    new_parent: Option<Seq<char>>,
    sort_order: i32,
    now: Seq<char>,
    m: nat,
)
    requires
        find_category(cats, id) is Some,
        new_parent matches Some(p) ==> is_rooted(cats, p),
        !would_create_cycle(cats, id, new_parent),
        nth_parent(with_moved(cats, id, new_parent, sort_order, now), id, m) is Some,
    ensures
        in_forest(
            with_moved(cats, id, new_parent, sort_order, now),
            nth_parent(with_moved(cats, id, new_parent, sort_order, now), id, m)->0,
        ),
{
    let after = with_moved(cats, id, new_parent, sort_order, now);
    law_guarded_move_stays_rooted(cats, id, new_parent, sort_order, now);
    let steps = choose|steps: nat| root_distance_is(after, id, steps);
    if m > steps {
        lemma_rooted_chain_ends(after, id, steps, m);
    }
    lemma_rooted_chain(after, id, steps, m);
    law_rooted_category_is_in_forest(after, nth_parent(after, id, m)->0);
}

/// What has `ancestor` on its chain of parent references descends from it.
proof fn lemma_climb_descends(
    cats: Seq<CategoryView>,
    ancestor: Seq<char>,
    from: Seq<char>,
    steps: nat,
)
    requires
        climbs_to(cats, from, ancestor, steps),
    ensures
        descends_within(cats, ancestor, from, steps),
    decreases steps,
{
    lemma_find_category(cats, from);
    let i = find_category(cats, from)->0;
    let p = cats[i].parent_id->0;
    if p == ancestor {
        assert(descends_within(cats, ancestor, p, (steps - 1) as nat));
    } else {
        lemma_climb_descends(cats, ancestor, p, (steps - 1) as nat);
    }
}

/// Where identifiers are unique, what descends from `root` is `root` or has
/// `root` on its chain of parent references.
proof fn lemma_descent_climbs(cats: Seq<CategoryView>, root: Seq<char>, x: Seq<char>, k: nat)
    requires
        has_unique_ids(cats),
        descends_within(cats, root, x, k),
        x != root,
    ensures
        climbs_to(cats, x, root, k),
    decreases k,
{
    let j = choose|j: int|
        0 <= j < cats.len() && (#[trigger] cats[j]).id == x && cats[j].parent_id is Some
            && descends_within(cats, root, cats[j].parent_id->0, (k - 1) as nat);
    lemma_find_category(cats, x);
    let i = find_category(cats, x)->0;
    assert(i == j) by {
        if i < j {
            assert(cats[i].id != cats[j].id);
        }
    }
    let p = cats[j].parent_id->0;
    assert(parent_of(cats, x) == Some(p));
    if p != root {
        lemma_descent_climbs(cats, root, p, (k - 1) as nat);
    }
}

/// Where identifiers are unique, the moves that the cycle guard refuses are
/// exactly the moves of a category under itself or under one of its
/// descendants.
pub proof fn law_cycle_means_new_parent_descends(
    cats: Seq<CategoryView>,
    id: Seq<char>,
    new_parent: Seq<char>,
)
    requires
        has_unique_ids(cats),
    ensures
        would_create_cycle(cats, id, Some(new_parent)) == is_descendant(cats, id, new_parent),
{
    if would_create_cycle(cats, id, Some(new_parent)) {
        if new_parent == id {
            assert(descends_within(cats, id, new_parent, 0));
        } else {
            let s = choose|s: nat| climbs_to(cats, new_parent, id, s);
            lemma_climb_descends(cats, id, new_parent, s);
        }
    }
    if is_descendant(cats, id, new_parent) && new_parent != id {
        let k = choose|k: nat| descends_within(cats, id, new_parent, k);
        lemma_descent_climbs(cats, id, new_parent, k);
    }
}

/// Keeping some of the categories of a collection with unique identifiers
/// gives a collection with unique identifiers.
proof fn lemma_kept_ids_unique(cats: Seq<CategoryView>, keep: spec_fn(CategoryView) -> bool)
    requires
        has_unique_ids(cats),
    ensures
        has_unique_ids(cats.filter(keep)),
    decreases cats.len(),
{
    reveal(Seq::filter);
    if cats.len() > 0 {
        let rest = cats.drop_last();
        lemma_kept_ids_unique(rest, keep);
        let kept = rest.filter(keep);
        let out = cats.filter(keep);
        if keep(cats.last()) {
            assert forall|i: int, j: int| 0 <= i < j < out.len() implies (#[trigger] out[i]).id != (
            #[trigger] out[j]).id by {
                if j == kept.len() {
                    assert(kept.contains(kept[i]));
                    rest.lemma_filter_contains_rev(keep, kept[i]);
                    let q = choose|q: int| 0 <= q < rest.len() && rest[q] == kept[i];
                    assert(cats[q].id != cats[cats.len() - 1].id);
                } else {
                    assert(kept[i].id != kept[j].id);
                }
            }
        }
    }
}

/// After a cascading delete, a category that stays and whose chain of parent
/// references ended at a root still has such a chain.
proof fn lemma_delete_keeps_chains(
    cats: Seq<CategoryView>,
    id: Seq<char>,
    from: Seq<char>,
    steps: nat,
)
    requires
        has_unique_ids(cats),
        root_distance_is(cats, from, steps),
        !is_descendant(cats, id, from),
    ensures
        root_distance_is(cats.filter(outside_closure(cats, id)), from, steps),
    decreases steps,
{
    let keep = outside_closure(cats, id);
    let after = cats.filter(keep);
    lemma_find_category(cats, from);
    let i = find_category(cats, from)->0;
    assert(keep(cats[i]));
    cats.lemma_filter_contains(keep, i);
    let k = choose|k: int| 0 <= k < after.len() && after[k] == cats[i];
    lemma_find_category(after, from);
    let first = find_category(after, from)->0;
    assert(after[first] == cats[i]) by {
        assert(after.contains(after[first]));
        cats.lemma_filter_contains_rev(keep, after[first]);
        let q = choose|q: int| 0 <= q < cats.len() && cats[q] == after[first];
        if q < i {
            assert(cats[q].id != cats[i].id);
        }
        if i < q {
            assert(cats[i].id != cats[q].id);
        }
    }
    match cats[i].parent_id {
        None => {},
        Some(p) => {
            if is_descendant(cats, id, p) {
                let d = choose|d: nat| descends_within(cats, id, p, d);
                assert(descends_within(cats, id, from, d + 1));
            }
            lemma_delete_keeps_chains(cats, id, p, (steps - 1) as nat);
        },
    }
}

/// A cascading delete in a hierarchy leaves a hierarchy: no reference to a
/// removed category stays behind.
pub proof fn law_delete_keeps_hierarchy(cats: Seq<CategoryView>, id: Seq<char>)
    requires
        is_hierarchy(cats),
    ensures
        is_hierarchy(cats.filter(outside_closure(cats, id))),
{
    let keep = outside_closure(cats, id);
    let after = cats.filter(keep);
    lemma_kept_ids_unique(cats, keep);
    assert forall|k: int| 0 <= k < after.len() implies is_rooted(after, (#[trigger] after[k]).id) by {
        cats.lemma_filter_pred(keep, k);
        assert(after.contains(after[k]));
        cats.lemma_filter_contains_rev(keep, after[k]);
        let q = choose|q: int| 0 <= q < cats.len() && cats[q] == after[k];
        assert(is_rooted(cats, cats[q].id));
        let steps = choose|steps: nat| root_distance_is(cats, cats[q].id, steps);
        lemma_delete_keeps_chains(cats, id, cats[q].id, steps);
    }
}

/// Adding a category leaves alone every chain to a root.
proof fn lemma_push_keeps_chains(
    cats: Seq<CategoryView>,
    added: CategoryView,
    from: Seq<char>,
    steps: nat,
)
    requires
        root_distance_is(cats, from, steps),
    ensures
        root_distance_is(cats.push(added), from, steps),
    decreases steps,
{
    let after = cats.push(added);
    lemma_find_category(cats, from);
    let i = find_category(cats, from)->0;
    assert(after[i] == cats[i]);
    assert forall|j: int| 0 <= j < i implies (#[trigger] after[j]).id != from by {
        assert(after[j] == cats[j]);
    }
    lemma_find_category_is(after, from, i);
    match cats[i].parent_id {
        None => {},
        Some(p) => {
            lemma_push_keeps_chains(cats, added, p, (steps - 1) as nat);
        },
    }
}

/// Adding to a hierarchy a category under an identifier not yet in use, as a
/// root or under a category of the collection, gives a hierarchy.
pub proof fn law_create_keeps_hierarchy(cats: Seq<CategoryView>, added: CategoryView)
    requires
        is_hierarchy(cats),
        !ids(cats).contains(added.id),
        added.parent_id matches Some(p) ==> find_category(cats, p) is Some,
    ensures
        is_hierarchy(cats.push(added)),
{
    let after = cats.push(added);
    let n = cats.len() as int;
    assert(has_unique_ids(after)) by {
        assert forall|i: int, j: int| 0 <= i < j < after.len() implies (#[trigger] after[i]).id
            != (#[trigger] after[j]).id by {
            if j == n {
                assert(ids(cats)[i] == cats[i].id);
            } else {
                assert(cats[i].id != cats[j].id);
            }
        }
    }
    assert forall|i: int| 0 <= i < after.len() implies is_rooted(after, (#[trigger] after[i]).id) by {
        if i < n {
            assert(is_rooted(cats, cats[i].id));
            let steps = choose|steps: nat| root_distance_is(cats, cats[i].id, steps);
            lemma_push_keeps_chains(cats, added, cats[i].id, steps);
        } else {
            assert forall|j: int| 0 <= j < n implies (#[trigger] after[j]).id != added.id by {
                assert(ids(cats)[j] == cats[j].id);
            }
            lemma_find_category_is(after, added.id, n);
            match added.parent_id {
                None => {
                    assert(root_distance_is(after, added.id, 0));
                },
                Some(p) => {
                    lemma_find_category(cats, p);
                    let ip = find_category(cats, p)->0;
                    assert(is_rooted(cats, cats[ip].id));
                    let steps = choose|steps: nat| root_distance_is(cats, p, steps);
                    lemma_push_keeps_chains(cats, added, p, steps);
                    assert(root_distance_is(after, added.id, steps + 1));
                },
            }
        }
    }
}

} // verus!
