use crate::ancestry::{
    climbs_to, lemma_ancestor_within_len, parent_of, would_create_cycle,
};
use crate::models::Category;
use crate::storage::lookup::find_index;
use vstd::prelude::*;

verus! {

/// Decides whether placing the category `category_id` under `new_parent_id`
/// would close a loop of parent references. The walk up from the new parent
/// takes no more steps than there are categories, so it ends even where the
/// stored collection already holds a loop.
pub fn has_cycle(categories: &[Category], category_id: &str, new_parent_id: Option<&str>) -> (cycle:
    bool)
    ensures
        cycle == would_create_cycle(
            categories.deep_view(),
            category_id@,
            new_parent_id.deep_view(),
        ),
        new_parent_id is None ==> !cycle,
        new_parent_id.deep_view() == Some(category_id@) ==> cycle,
{
    let ghost cats = categories.deep_view();
    match new_parent_id {
        None => false,
        Some(parent_id) => {
            let id = category_id.to_owned();
            let start = parent_id.to_owned();
            proof {
                lemma_ancestor_within_len(cats, id@, start@);
            }
            if id == start {
                return true;
            }
            let mut current: &String = &start;
            let mut steps: usize = 0;
            while steps < categories.len()
                invariant
                    steps <= categories.len(),
                    cats == categories.deep_view(),
                    id@ == category_id@,
                    id@ != start@,
                    new_parent_id.deep_view() == Some(start@),
                    would_create_cycle(cats, id@, Some(start@)) == climbs_to(
                        cats,
                        start@,
                        id@,
                        cats.len(),
                    ),
                    climbs_to(cats, start@, id@, cats.len()) == climbs_to(
                        cats,
                        current@,
                        id@,
                        (cats.len() - steps) as nat,
                    ),
                decreases categories.len() - steps,
            {
                match find_index(categories, current) {
                    None => {
                        return false;
                    },
                    Some(i) => {
                        match &categories[i].parent_id {
                            None => {
                                assert(parent_of(cats, current@) is None);
                                return false;
                            },
                            Some(parent) => {
                                assert(parent_of(cats, current@) == Some(parent@));
                                if *parent == id {
                                    return true;
                                }
                                current = parent;
                            },
                        }
                    },
                }
                steps += 1;
            }
            false
        },
    }
}

} // verus!
