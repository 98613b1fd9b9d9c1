use crate::hierarchy::{
    covers_children, descendant_ids, ids, is_descendant, is_leaf,
    lemma_closed_list_holds_closure, lemma_descends_through_child, lemma_distinct_ids_bound,
    lemma_leaf_closure, lemma_unseen_monotone, lemma_unseen_shrinks, unseen_ids,
};
use crate::models::Category;
use vstd::prelude::*;

verus! {

/// Whether `list` holds an entry with the characters of `id`.
pub fn contains_id(list: &Vec<String>, id: &String) -> (found: bool)
    ensures
        found == list.deep_view().contains(id@),
{
    let mut i: usize = 0;
    while i < list.len()
        invariant
            i <= list.len(),
            forall|k: int| 0 <= k < i ==> list.deep_view()[k] != id@,
        decreases list.len() - i,
    {
        if list[i] == *id {
            assert(list.deep_view()[i as int] == id@);
            return true;
        }
        i += 1;
    }
    false
}

/// Appends to `result`, depth first, the identifier of every category below
/// `parent_id` that `result` does not hold yet. An identifier already listed is
/// not entered again, so the walk ends on any input.
fn collect_descendant_ids(categories: &[Category], parent_id: &String, result: &mut Vec<String>)
    requires
        old(result).deep_view().no_duplicates(),
    ensures
        final(result).deep_view().no_duplicates(),
        old(result).deep_view().is_prefix_of(final(result).deep_view()),
        covers_children(categories.deep_view(), parent_id@, final(result).deep_view()),
        forall|k: int|
            old(result).len() <= k < final(result).len() ==> {
                &&& is_descendant(
                    categories.deep_view(),
                    parent_id@,
                    #[trigger] final(result).deep_view()[k],
                )
                &&& ids(categories.deep_view()).contains(final(result).deep_view()[k])
                &&& covers_children(
                    categories.deep_view(),
                    final(result).deep_view()[k],
                    final(result).deep_view(),
                )
            },
    decreases unseen_ids(categories.deep_view(), old(result).deep_view()).len(),
{
    let ghost cats = categories.deep_view();
    let ghost start = result.deep_view();
    let n = categories.len();
    let mut j: usize = 0;
    while j < n
        invariant
            j <= n,
            n == categories.len(),
            cats == categories.deep_view(),
            start == old(result).deep_view(),
            result.deep_view().no_duplicates(),
            start.is_prefix_of(result.deep_view()),
            forall|m: int|
                0 <= m < j && (#[trigger] cats[m]).parent_id == Some(parent_id@)
                    ==> result.deep_view().contains(cats[m].id),
            forall|k: int|
                start.len() <= k < result.len() ==> {
                    &&& is_descendant(cats, parent_id@, #[trigger] result.deep_view()[k])
                    &&& ids(cats).contains(result.deep_view()[k])
                    &&& covers_children(cats, result.deep_view()[k], result.deep_view())
                },
        decreases n - j,
    {
        let cat = &categories[j];
        let is_child = match &cat.parent_id {
            Some(p) => *p == *parent_id,
            None => false,
        };
        assert(is_child == (cats[j as int].parent_id == Some(parent_id@)));
        if is_child && !contains_id(result, &cat.id) {
            let ghost before = result.deep_view();
            result.push(cat.id.clone());
            let ghost pushed = result.deep_view();
            proof {
                assert(cat.id@ == cats[j as int].id);
                assert(pushed =~= before.push(cat.id@));
                assert(ids(cats)[j as int] == cat.id@);
                lemma_unseen_shrinks(cats, before, cat.id@);
                lemma_unseen_monotone(cats, start, before);
            }
            collect_descendant_ids(categories, &cat.id, result);
            proof {
                let after = result.deep_view();
                lemma_prefix_agrees(before, pushed);
                lemma_prefix_agrees(pushed, after);
                lemma_prefix_agrees(start, before);
                assert(start.is_prefix_of(after));
                assert(before.is_prefix_of(after));
                assert(is_descendant(cats, cat.id@, cat.id@)) by {
                    assert(crate::hierarchy::descends_within(cats, cat.id@, cat.id@, 0));
                }
                assert forall|k: int| start.len() <= k < after.len() implies {
                    &&& is_descendant(cats, parent_id@, #[trigger] after[k])
                    &&& ids(cats).contains(after[k])
                    &&& covers_children(cats, after[k], after)
                } by {
                    if k < before.len() {
                        assert(covers_children(cats, before[k], before));
                        lemma_covers_extends(cats, before[k], before, after);
                    } else if k == before.len() {
                        lemma_descends_through_child(cats, parent_id@, j as int, after[k]);
                    } else {
                        lemma_descends_through_child(cats, parent_id@, j as int, after[k]);
                    }
                }
                assert forall|m: int|
                    0 <= m < j + 1 && (#[trigger] cats[m]).parent_id == Some(
                        parent_id@,
                    ) implies after.contains(cats[m].id) by {
                    if m < j {
                        lemma_contains_extends(before, after, cats[m].id);
                    } else {
                        assert(after[before.len() as int] == cats[m].id);
                    }
                }
            }
        }
        j += 1;
    }
}

/// A list agrees, entry by entry, with every list that starts with it.
proof fn lemma_prefix_agrees(seen: Seq<Seq<char>>, more: Seq<Seq<char>>)
    requires
        seen.is_prefix_of(more),
    ensures
        seen.len() <= more.len(),
        forall|i: int| 0 <= i < seen.len() ==> seen[i] == #[trigger] more[i],
{
    assert forall|i: int| 0 <= i < seen.len() implies seen[i] == #[trigger] more[i] by {
        assert(more.subrange(0, seen.len() as int)[i] == more[i]);
    }
}

/// What a list holds, a longer list that starts with it holds too.
proof fn lemma_contains_extends(seen: Seq<Seq<char>>, more: Seq<Seq<char>>, x: Seq<char>)
    requires
        seen.is_prefix_of(more),
        seen.contains(x),
    ensures
        more.contains(x),
{
    lemma_prefix_agrees(seen, more);
    let i = choose|i: int| 0 <= i < seen.len() && seen[i] == x;
    assert(more[i] == x);
}

/// Children covered by a list stay covered by a longer list that starts with it.
proof fn lemma_covers_extends(
    cats: Seq<crate::models::CategoryView>,
    parent: Seq<char>,
    seen: Seq<Seq<char>>,
    more: Seq<Seq<char>>,
)
    requires
        seen.is_prefix_of(more),
        covers_children(cats, parent, seen),
    ensures
        covers_children(cats, parent, more),
{
    assert forall|j: int|
        0 <= j < cats.len() && (#[trigger] cats[j]).parent_id == Some(parent) implies more.contains(
        cats[j].id,
    ) by {
        lemma_contains_extends(seen, more, cats[j].id);
    }
}

/// The identifier `category_id` followed by the identifier of every direct or
/// transitive child of it, each once. Categories whose stored parent chains
/// loop are walked once like any other.
pub fn get_all_descendant_category_ids(categories: &[Category], category_id: &str) -> (result: Vec<
    String,
>)
    ensures
        result.deep_view().no_duplicates(),
        result.deep_view().to_set() == descendant_ids(categories.deep_view(), category_id@),
        result.len() >= 1,
        result.deep_view()[0] == category_id@,
        result.len() <= categories.len() + 1,
        ids(categories.deep_view()).contains(category_id@) ==> result.len() <= categories.len(),
        is_leaf(categories.deep_view(), category_id@) ==> result.deep_view() == seq![category_id@],
{
    let id = category_id.to_owned();
    let mut result: Vec<String> = Vec::new();
    result.push(id.clone());
    assert(result.deep_view() =~= seq![category_id@]);
    collect_descendant_ids(categories, &id, &mut result);
    proof {
        let cats = categories.deep_view();
        let root = category_id@;
        let out = result.deep_view();
        lemma_prefix_agrees(seq![root], out);
        assert(out[0] == root);
        assert(is_descendant(cats, root, root)) by {
            assert(crate::hierarchy::descends_within(cats, root, root, 0));
        }
        assert forall|x: Seq<char>| out.to_set().contains(x) <==> descendant_ids(
            cats,
            root,
        ).contains(x) by {
            if out.contains(x) {
                let i = choose|i: int| 0 <= i < out.len() && out[i] == x;
                assert(is_descendant(cats, root, out[i]));
            }
            if is_descendant(cats, root, x) {
                lemma_closed_list_holds_closure(cats, root, out, x);
            }
        }
        assert(out.to_set() =~= descendant_ids(cats, root));
        lemma_distinct_ids_bound(cats, out, root);
        if is_leaf(cats, root) {
            if out.len() > 1 {
                lemma_leaf_closure(cats, root, out[1]);
                assert(out[1] == out[0]);
            }
            assert(out =~= seq![root]);
        }
    }
    result
}

} // verus!
