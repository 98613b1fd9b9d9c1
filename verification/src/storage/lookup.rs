use crate::hierarchy::{find_category, lemma_find_category, lemma_find_category_is};
use crate::models::Category;
use vstd::prelude::*;

verus! {

/// A position held by the program, as the integer it stands for.
pub open spec fn as_position(p: Option<usize>) -> Option<int> {
    match p {
        Some(i) => Some(i as int),
        None => None,
    }
}

/// The position of the first category that carries `id`.
pub fn find_index(categories: &[Category], id: &String) -> (found: Option<usize>)
    ensures
        as_position(found) == find_category(categories.deep_view(), id@),
        found matches Some(i) ==> i < categories.len() && categories[i as int].id@ == id@,
{
    let mut i: usize = 0;
    while i < categories.len()
        invariant
            i <= categories.len(),
            forall|j: int| 0 <= j < i ==> (#[trigger] categories.deep_view()[j]).id != id@,
        decreases categories.len() - i,
    {
        if categories[i].id == *id {
            proof {
                lemma_find_category_is(categories.deep_view(), id@, i as int);
            }
            return Some(i);
        }
        i += 1;
    }
    proof {
        lemma_find_category(categories.deep_view(), id@);
    }
    None
}

} // verus!
