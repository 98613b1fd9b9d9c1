use crate::ancestry::would_create_cycle;
use crate::forest::forest;
use crate::hierarchy::{descendant_ids, find_category, is_descendant};
use crate::models::{
    Category, CategoryTree, CategoryView, CreateCategoryRequest, MoveCategoryRequest, Rejection,
    UpdateCategoryRequest,
};
use crate::storage::create::{is_hyphenated_id, timestamp_now};
use crate::storage::cycle::has_cycle;
use crate::storage::descendants::{contains_id, get_all_descendant_category_ids};
use crate::storage::lookup::find_index;
use crate::storage::tree::build_category_tree;
use vstd::prelude::*;

verus! {

/// The mathematical value of an outcome that carries a category.
pub open spec fn outcome_view(outcome: Result<Category, Rejection>) -> Result<
    CategoryView,
    Rejection,
> {
    match outcome {
        Ok(c) => Ok(c@),
        Err(e) => Err(e),
    }
}

/// A category after an update at `now`: the new name; the new parent and the
/// new sort key where the request gives them, else the old ones.
pub open spec fn updated(
    c: CategoryView,
    name: Seq<char>,
    parent_id: Option<Seq<char>>,
    sort_order: Option<i32>,
    now: Seq<char>,
) -> CategoryView {
    CategoryView {
        id: c.id,
        name: name,
        created_at: c.created_at,
        updated_at: now,
        parent_id: if parent_id is Some {
            parent_id
        } else {
            c.parent_id
        },
        sort_order: match sort_order {
            Some(s) => s,
            None => c.sort_order,
        },
    }
}

/// A category after a move at `now` under `parent_id`, absent for a root.
pub open spec fn moved(
    c: CategoryView,
    parent_id: Option<Seq<char>>,
    sort_order: i32,
    now: Seq<char>,
) -> CategoryView {
    CategoryView {
        id: c.id,
        name: c.name,
        created_at: c.created_at,
        updated_at: now,
        parent_id: parent_id,
        sort_order: sort_order,
    }
}

/// What an update at `now` does: without a category `id` it is refused as not
/// found and nothing changes; else the first category `id` is replaced by its
/// updated value, which is also handed back.
pub open spec fn update_applied(
    before: Seq<CategoryView>,
    after: Seq<CategoryView>,
    outcome: Result<CategoryView, Rejection>,
    id: Seq<char>,
    name: Seq<char>,
    parent_id: Option<Seq<char>>,
    sort_order: Option<i32>,
    now: Seq<char>,
) -> bool {
    match find_category(before, id) {
        None => outcome == Err::<CategoryView, Rejection>(Rejection::NotFound) && after == before,
        Some(i) => {
            let c = updated(before[i], name, parent_id, sort_order, now);
            outcome == Ok::<CategoryView, Rejection>(c) && after == before.update(i, c)
        },
    }
}

/// The collection after the first category `id` was moved at `now`; the
/// collection itself where no category carries `id`.
pub open spec fn with_moved(
    cats: Seq<CategoryView>,
    id: Seq<char>,
    parent_id: Option<Seq<char>>,
    sort_order: i32,
    now: Seq<char>,
) -> Seq<CategoryView> {
    match find_category(cats, id) {
        None => cats,
        Some(i) => cats.update(i, moved(cats[i], parent_id, sort_order, now)),
    }
}

/// What a move at `now` does: where it would close a loop it is refused as a
/// cycle; else, without a category `id`, it is refused as not found; in both
/// cases nothing changes. Else the first category `id` is replaced by its
/// moved value, which is also handed back.
pub open spec fn move_applied(
    before: Seq<CategoryView>,
    after: Seq<CategoryView>,
    outcome: Result<CategoryView, Rejection>,
    id: Seq<char>,
    parent_id: Option<Seq<char>>,
    sort_order: i32,
    now: Seq<char>,
) -> bool {
    if would_create_cycle(before, id, parent_id) {
        outcome == Err::<CategoryView, Rejection>(Rejection::CycleRejected) && after == before
    } else {
        match find_category(before, id) {
            None => outcome == Err::<CategoryView, Rejection>(Rejection::NotFound) && after
                == before,
            Some(i) => {
                let c = moved(before[i], parent_id, sort_order, now);
                outcome == Ok::<CategoryView, Rejection>(c) && after == with_moved(
                    before,
                    id,
                    parent_id,
                    sort_order,
                    now,
                )
            },
        }
    }
}

/// Keeps the categories that lie outside the descendant closure of `id`.
pub open spec fn outside_closure(cats: Seq<CategoryView>, id: Seq<char>) -> spec_fn(
    CategoryView,
) -> bool {
    |c: CategoryView| !is_descendant(cats, id, c.id)
}

/// What a cascading delete does: without a category `id` it is refused as not
/// found and nothing changes; else exactly the categories outside the
/// descendant closure of `id` stay, in their order.
pub open spec fn delete_applied(
    before: Seq<CategoryView>,
    after: Seq<CategoryView>,
    outcome: Result<(), Rejection>,
    id: Seq<char>,
) -> bool {
    match find_category(before, id) {
        None => outcome == Err::<(), Rejection>(Rejection::NotFound) && after == before,
        Some(_) => outcome == Ok::<(), Rejection>(()) && after == before.filter(
            outside_closure(before, id),
        ),
    }
}

/// Keeps the categories whose parent reference is `id`.
pub open spec fn names_parent(id: Seq<char>) -> spec_fn(CategoryView) -> bool {
    |c: CategoryView| c.parent_id == Some(id)
}

/// Adds a new root-or-child category for the request to the collection, with
/// sort key zero, and hands it back.
pub fn create_category(categories: &mut Vec<Category>, req: CreateCategoryRequest) -> (created:
    Category)
    ensures
        final(categories).deep_view() == old(categories).deep_view().push(created@),
        is_hyphenated_id(created@.id),
        created@.name == req.name@,
        created@.parent_id == req.parent_id.deep_view(),
        created@.sort_order == 0,
        created@.created_at == created@.updated_at,
{
    let category = crate::storage::create::create_category(req.name, req.parent_id, 0);
    let ghost before = categories.deep_view();
    categories.push(category.clone());
    assert(categories.deep_view() =~= before.push(category@));
    category
}

/// Applies an update that takes place at `now`.
pub fn update_category_at(
    categories: &mut Vec<Category>,
    id: &str,
    req: UpdateCategoryRequest,
    now: String,
) -> (outcome: Result<Category, Rejection>)
    ensures
        update_applied(
            old(categories).deep_view(),
            final(categories).deep_view(),
            outcome_view(outcome),
            id@,
            req.name@,
            req.parent_id.deep_view(),
            req.sort_order,
            now@,
        ),
{
    let ghost before = categories.deep_view();
    let wanted = id.to_owned();
    match find_index(categories, &wanted) {
        None => Err(Rejection::NotFound),
        Some(i) => {
            let current = &categories[i];
            let parent_id = match req.parent_id {
                Some(p) => Some(p),
                None => match &current.parent_id {
                    Some(p) => Some(p.clone()),
                    None => None,
                },
            };
            let sort_order = match req.sort_order {
                Some(s) => s,
                None => current.sort_order,
            };
            let changed = Category {
                id: current.id.clone(),
                name: req.name,
                created_at: current.created_at.clone(),
                updated_at: now,
                parent_id,
                sort_order,
            };
            let result = changed.clone();
            categories.set(i, changed);
            assert(categories.deep_view() =~= before.update(i as int, result@));
            Ok(result)
        },
    }
}

/// Gives the first category `id` the name of the request and, where the
/// request holds them, its parent and sort key, and stamps it with the
/// current time. The new parent is taken as it is.
pub fn update_category(categories: &mut Vec<Category>, id: &str, req: UpdateCategoryRequest) -> (outcome:
    Result<Category, Rejection>)
    ensures
        exists|now: Seq<char>| #[trigger]
            update_applied(
                old(categories).deep_view(),
                final(categories).deep_view(),
                outcome_view(outcome),
                id@,
                req.name@,
                req.parent_id.deep_view(),
                req.sort_order,
                now,
            ),
{
    let wanted = id.to_owned();
    if find_index(categories, &wanted).is_none() {
        assert(update_applied(
            categories.deep_view(),
            categories.deep_view(),
            Err(Rejection::NotFound),
            id@,
            req.name@,
            req.parent_id.deep_view(),
            req.sort_order,
            Seq::empty(),
        ));
        return Err(Rejection::NotFound);
    }
    let now = timestamp_now();
    update_category_at(categories, id, req, now)
}

/// Removes the category `id` together with every category below it. Rules of
/// the removed categories are left as they are. Without a category `id` the
/// request is refused as not found and nothing is removed.
pub fn delete_category(categories: &mut Vec<Category>, id: &str) -> (outcome: Result<(), Rejection>)
    ensures
        delete_applied(
            old(categories).deep_view(),
            final(categories).deep_view(),
            outcome,
            id@,
        ),
{
    let ghost before = categories.deep_view();
    let ghost keep = outside_closure(before, id@);
    let wanted = id.to_owned();
    if find_index(categories, &wanted).is_none() {
        return Err(Rejection::NotFound);
    }
    let doomed = get_all_descendant_category_ids(categories, id);
    let mut kept: Vec<Category> = Vec::new();
    let mut j: usize = 0;
    assert(before.take(0).filter(keep) =~= Seq::<CategoryView>::empty()) by {
        reveal(Seq::filter);
    }
    while j < categories.len()
        invariant
            j <= categories.len(),
            before == categories.deep_view(),
            keep == outside_closure(before, id@),
            doomed.deep_view().to_set() == descendant_ids(before, id@),
            kept.deep_view() == before.take(j as int).filter(keep),
        decreases categories.len() - j,
    {
        let ghost so_far = kept.deep_view();
        proof {
            assert(before.take(j + 1) =~= before.take(j as int).push(before[j as int]));
            before.take(j as int).lemma_filter_push(before[j as int], keep);
            assert(doomed.deep_view().to_set().contains(before[j as int].id)
                == doomed.deep_view().contains(before[j as int].id));
        }
        if !contains_id(&doomed, &categories[j].id) {
            kept.push(categories[j].clone());
            assert(kept.deep_view() =~= so_far.push(before[j as int]));
        }
        j += 1;
    }
    assert(before.take(categories.len() as int) =~= before);
    *categories = kept;
    Ok(())
}

/// The forest of the collection.
pub fn get_category_tree(categories: &[Category]) -> (tree: CategoryTree)
    ensures
        tree@ == forest(categories.deep_view()),
{
    CategoryTree { roots: build_category_tree(categories) }
}

/// The categories whose parent reference is `id`, in the order stored.
pub fn get_children(categories: &[Category], id: &str) -> (children: Vec<Category>)
    ensures
        children.deep_view() == categories.deep_view().filter(names_parent(id@)),
{
    let ghost all = categories.deep_view();
    let ghost keep = names_parent(id@);
    let wanted = id.to_owned();
    let mut children: Vec<Category> = Vec::new();
    let mut j: usize = 0;
    assert(all.take(0).filter(keep) =~= Seq::<CategoryView>::empty()) by {
        reveal(Seq::filter);
    }
    while j < categories.len()
        invariant
            j <= categories.len(),
            all == categories.deep_view(),
            keep == names_parent(id@),
            wanted@ == id@,
            children.deep_view() == all.take(j as int).filter(keep),
        decreases categories.len() - j,
    {
        let ghost so_far = children.deep_view();
        proof {
            assert(all.take(j + 1) =~= all.take(j as int).push(all[j as int]));
            all.take(j as int).lemma_filter_push(all[j as int], keep);
        }
        let is_child = match &categories[j].parent_id {
            Some(p) => *p == wanted,
            None => false,
        };
        if is_child {
            children.push(categories[j].clone());
            assert(children.deep_view() =~= so_far.push(all[j as int]));
        }
        j += 1;
    }
    assert(all.take(categories.len() as int) =~= all);
    children
}

/// Applies a move that takes place at `now`.
pub fn move_category_at(
    categories: &mut Vec<Category>,
    id: &str,
    req: MoveCategoryRequest,
    now: String,
) -> (outcome: Result<Category, Rejection>)
    ensures
        move_applied(
            old(categories).deep_view(),
            final(categories).deep_view(),
            outcome_view(outcome),
            id@,
            req.parent_id.deep_view(),
            req.sort_order,
            now@,
        ),
{
    let ghost before = categories.deep_view();
    let new_parent: Option<&str> = match &req.parent_id {
        Some(p) => Some(p.as_str()),
        None => None,
    };
    assert(new_parent.deep_view() == req.parent_id.deep_view());
    if has_cycle(categories.as_slice(), id, new_parent) {
        return Err(Rejection::CycleRejected);
    }
    let wanted = id.to_owned();
    match find_index(categories, &wanted) {
        None => Err(Rejection::NotFound),
        Some(i) => {
            let current = &categories[i];
            let changed = Category {
                id: current.id.clone(),
                name: current.name.clone(),
                created_at: current.created_at.clone(),
                updated_at: now,
                parent_id: req.parent_id,
                sort_order: req.sort_order,
            };
            let result = changed.clone();
            categories.set(i, changed);
            assert(categories.deep_view() =~= before.update(i as int, result@));
            Ok(result)
        },
    }
}

/// Places the first category `id` under the parent of the request, absent to
/// make it a root, with the sort key of the request, and stamps it with the
/// current time. A move that would make the category its own parent or put it
/// below one of its descendants is refused, and nothing changes.
pub fn move_category(categories: &mut Vec<Category>, id: &str, req: MoveCategoryRequest) -> (outcome:
    Result<Category, Rejection>)
    ensures
        exists|now: Seq<char>| #[trigger]
            move_applied(
                old(categories).deep_view(),
                final(categories).deep_view(),
                outcome_view(outcome),
                id@,
                req.parent_id.deep_view(),
                req.sort_order,
                now,
            ),
{
    let new_parent: Option<&str> = match &req.parent_id {
        Some(p) => Some(p.as_str()),
        None => None,
    };
    assert(new_parent.deep_view() == req.parent_id.deep_view());
    let wanted = id.to_owned();
    if has_cycle(categories.as_slice(), id, new_parent) {
        assert(move_applied(
            categories.deep_view(),
            categories.deep_view(),
            Err(Rejection::CycleRejected),
            id@,
            req.parent_id.deep_view(),
            req.sort_order,
            Seq::empty(),
        ));
        return Err(Rejection::CycleRejected);
    }
    if find_index(categories, &wanted).is_none() {
        assert(move_applied(
            categories.deep_view(),
            categories.deep_view(),
            Err(Rejection::NotFound),
            id@,
            req.parent_id.deep_view(),
            req.sort_order,
            Seq::empty(),
        ));
        return Err(Rejection::NotFound);
    }
    let now = timestamp_now();
    move_category_at(categories, id, req, now)
}

} // verus!
