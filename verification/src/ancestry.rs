use crate::hierarchy::{find_category, has_unique_ids, lemma_find_category};
use crate::models::CategoryView;
use vstd::prelude::*;

verus! {

/// The parent reference held by the first category that carries `id`.
pub open spec fn parent_of(cats: Seq<CategoryView>, id: Seq<char>) -> Option<Seq<char>> {
    match find_category(cats, id) {
        Some(i) => cats[i].parent_id,
        None => None,
    }
}

/// The identifier reached from `from` after following `m` parent references,
/// where the chain is that long.
pub open spec fn nth_parent(cats: Seq<CategoryView>, from: Seq<char>, m: nat) -> Option<Seq<char>>
    decreases m,
{
    if m == 0 {
        Some(from)
    } else {
        match parent_of(cats, from) {
            Some(p) => nth_parent(cats, p, (m - 1) as nat),
            None => None,
        }
    }
}

/// Following parent references from `from`, `target` is met after at least
/// one and at most `steps` of them.
pub open spec fn climbs_to(
    cats: Seq<CategoryView>,
    from: Seq<char>,
    target: Seq<char>,
    steps: nat,
) -> bool
    decreases steps,
{
    steps > 0 && match parent_of(cats, from) {
        Some(p) => p == target || climbs_to(cats, p, target, (steps - 1) as nat),
        None => false,
    }
}

/// `ancestor` lies on the chain of parent references that starts at `of`,
/// above `of` itself.
pub open spec fn is_ancestor(cats: Seq<CategoryView>, ancestor: Seq<char>, of: Seq<char>) -> bool {
    exists|steps: nat| climbs_to(cats, of, ancestor, steps)
}

/// Placing the category `id` under `new_parent` would close a loop of parent
/// references: the new parent is the category itself, or has it among its
/// ancestors. Making a category a root closes none.
pub open spec fn would_create_cycle(
    cats: Seq<CategoryView>,
    id: Seq<char>,
    new_parent: Option<Seq<char>>,
) -> bool {
    match new_parent {
        None => false,
        Some(p) => p == id || is_ancestor(cats, id, p),
    }
}

/// A climb that meets its target within some steps meets it within more.
pub proof fn lemma_climb_more(
    cats: Seq<CategoryView>,
    from: Seq<char>,
    target: Seq<char>,
    steps: nat,
    more: nat,
)
    requires
        climbs_to(cats, from, target, steps),
        steps <= more,
    ensures
        climbs_to(cats, from, target, more),
    decreases steps,
{
    let p = parent_of(cats, from)->0;
    if p != target {
        lemma_climb_more(cats, p, target, (steps - 1) as nat, (more - 1) as nat);
    }
}

/// A climb meets its target after some exact number of steps.
proof fn lemma_climb_length(
    cats: Seq<CategoryView>,
    from: Seq<char>,
    target: Seq<char>,
    steps: nat,
) -> (m: nat)
    requires
        climbs_to(cats, from, target, steps),
    ensures
        1 <= m <= steps,
        nth_parent(cats, from, m) == Some(target),
    decreases steps,
{
    let p = parent_of(cats, from)->0;
    if p == target {
        assert(nth_parent(cats, p, 0) == Some(target));
        1
    } else {
        let m = lemma_climb_length(cats, p, target, (steps - 1) as nat);
        m + 1
    }
}

/// Meeting the target after exactly `m` steps is a climb of `m` steps.
proof fn lemma_length_climbs(cats: Seq<CategoryView>, from: Seq<char>, target: Seq<char>, m: nat)
    requires
        m >= 1,
        nth_parent(cats, from, m) == Some(target),
    ensures
        climbs_to(cats, from, target, m),
    decreases m,
{
    let p = parent_of(cats, from)->0;
    if m == 1 {
        assert(nth_parent(cats, p, 0) == Some(p));
    } else {
        lemma_length_climbs(cats, p, target, (m - 1) as nat);
    }
}

/// Following `a` references and then `b` more is following `a + b`.
proof fn lemma_nth_parent_add(cats: Seq<CategoryView>, from: Seq<char>, a: nat, b: nat)
    ensures
        nth_parent(cats, from, a + b) == match nth_parent(cats, from, a) {
            Some(x) => nth_parent(cats, x, b),
            None => None,
        },
    decreases a,
{
    if a > 0 {
        match parent_of(cats, from) {
            Some(p) => {
                lemma_nth_parent_add(cats, p, (a - 1) as nat, b);
            },
            None => {},
        }
    }
}

/// The least number of steps after which the target is met.
proof fn lemma_shortest_climb(
    cats: Seq<CategoryView>,
    from: Seq<char>,
    target: Seq<char>,
    m: nat,
) -> (s: nat)
    requires
        m >= 1,
        nth_parent(cats, from, m) == Some(target),
    ensures
        1 <= s <= m,
        nth_parent(cats, from, s) == Some(target),
        forall|t: nat| 1 <= t < s ==> nth_parent(cats, from, t) != Some(target),
    decreases m,
{
    if exists|t: nat| 1 <= t < m && nth_parent(cats, from, t) == Some(target) {
        let t = choose|t: nat| 1 <= t < m && nth_parent(cats, from, t) == Some(target);
        lemma_shortest_climb(cats, from, target, t)
    } else {
        m
    }
}

/// The position of the category at which step `t` of the chain from `from`
/// looks up its parent reference.
spec fn step_position(cats: Seq<CategoryView>, from: Seq<char>, t: int) -> int {
    find_category(cats, nth_parent(cats, from, t as nat)->0)->0
}

/// Before the chain from `from` ends, every step finds a category.
proof fn lemma_step_found(cats: Seq<CategoryView>, from: Seq<char>, s: nat, t: nat)
    requires
        nth_parent(cats, from, s) is Some,
        t < s,
    ensures
        nth_parent(cats, from, t) is Some,
        find_category(cats, nth_parent(cats, from, t)->0) is Some,
        parent_of(cats, nth_parent(cats, from, t)->0) is Some,
{
    lemma_nth_parent_add(cats, from, t, (s - t) as nat);
}

/// A shortest climb looks up each category at most once, so it is no longer
/// than the collection.
proof fn lemma_shortest_climb_bound(
    cats: Seq<CategoryView>,
    from: Seq<char>,
    target: Seq<char>,
    s: nat,
)
    requires
        s >= 1,
        nth_parent(cats, from, s) == Some(target),
        forall|t: nat| 1 <= t < s ==> nth_parent(cats, from, t) != Some(target),
    ensures
        s <= cats.len(),
{
    let visited = Seq::new(s, |t: int| step_position(cats, from, t));
    assert forall|t: int| 0 <= t < s implies 0 <= #[trigger] visited[t] < cats.len() by {
        lemma_step_found(cats, from, s, t as nat);
        lemma_find_category(cats, nth_parent(cats, from, t as nat)->0);
    }
    assert forall|a: int, b: int| 0 <= a < b < s implies visited[a] != visited[b] by {
        if visited[a] == visited[b] {
            lemma_step_found(cats, from, s, a as nat);
            lemma_step_found(cats, from, s, b as nat);
            let xa = nth_parent(cats, from, a as nat)->0;
            let xb = nth_parent(cats, from, b as nat)->0;
            lemma_find_category(cats, xa);
            lemma_find_category(cats, xb);
            assert(xa == xb);
            lemma_nth_parent_add(cats, from, b as nat, (s - b) as nat);
            lemma_nth_parent_add(cats, from, a as nat, (s - b) as nat);
            let short = (a + s - b) as nat;
            assert(nth_parent(cats, from, short) == Some(target));
            assert(1 <= short < s);
        }
    }
    assert(visited.no_duplicates());
    visited.unique_seq_to_set();
    vstd::set_lib::lemma_int_range(0, cats.len() as int);
    assert(visited.to_set().subset_of(vstd::set_lib::set_int_range(0, cats.len() as int))) by {
        assert forall|y: int| visited.to_set().contains(y) implies vstd::set_lib::set_int_range(
            0,
            cats.len() as int,
        ).contains(y) by {
            let t = choose|t: int| 0 <= t < visited.len() && visited[t] == y;
            assert(0 <= visited[t] < cats.len());
        }
    }
    vstd::set_lib::lemma_len_subset(
        visited.to_set(),
        vstd::set_lib::set_int_range(0, cats.len() as int),
    );
}

/// An ancestor is met within as many steps as the collection has categories:
/// a longer walk only retraces a loop.
pub proof fn lemma_ancestor_within_len(
    cats: Seq<CategoryView>,
    ancestor: Seq<char>,
    of: Seq<char>,
)
    ensures
        is_ancestor(cats, ancestor, of) == climbs_to(cats, of, ancestor, cats.len()),
{
    if is_ancestor(cats, ancestor, of) {
        let steps = choose|steps: nat| climbs_to(cats, of, ancestor, steps);
        let m = lemma_climb_length(cats, of, ancestor, steps);
        let s = lemma_shortest_climb(cats, of, ancestor, m);
        lemma_shortest_climb_bound(cats, of, ancestor, s);
        lemma_length_climbs(cats, of, ancestor, s);
        lemma_climb_more(cats, of, ancestor, s, cats.len());
    }
}

/// The chain of parent references that starts at `id` ends at a root after
/// exactly `steps` references: every reference on the way names a category,
/// and the last category named has no parent.
pub open spec fn root_distance_is(cats: Seq<CategoryView>, id: Seq<char>, steps: nat) -> bool
    decreases steps,
{
    match find_category(cats, id) {
        None => false,
        Some(i) => match cats[i].parent_id {
            None => steps == 0,
            Some(p) => steps > 0 && root_distance_is(cats, p, (steps - 1) as nat),
        },
    }
}

/// The chain of parent references that starts at `id` ends at a root: `id`
/// names a category, no reference on the chain dangles, and the chain does
/// not loop.
pub open spec fn is_rooted(cats: Seq<CategoryView>, id: Seq<char>) -> bool {
    exists|steps: nat| root_distance_is(cats, id, steps)
}

/// The collection is a hierarchy: no two categories share an identifier, and
/// from every category the chain of parent references ends at a root, so
/// every parent reference names a category and no chain loops.
pub open spec fn is_hierarchy(cats: Seq<CategoryView>) -> bool {
    &&& has_unique_ids(cats)
    &&& forall|i: int| 0 <= i < cats.len() ==> is_rooted(cats, (#[trigger] cats[i]).id)
}

/// Along a chain that ends at a root after `steps` references, the identifier
/// reached after `t` of them ends at that root after the remaining ones.
pub proof fn lemma_rooted_chain(cats: Seq<CategoryView>, id: Seq<char>, steps: nat, t: nat)
    requires
        root_distance_is(cats, id, steps),
        t <= steps,
    ensures
        nth_parent(cats, id, t) is Some,
        root_distance_is(cats, nth_parent(cats, id, t)->0, (steps - t) as nat),
    decreases t,
{
    if t > 0 {
        let p = parent_of(cats, id)->0;
        lemma_rooted_chain(cats, p, (steps - 1) as nat, (t - 1) as nat);
    }
}

/// A chain that ends at a root after `steps` references goes no further.
pub proof fn lemma_rooted_chain_ends(cats: Seq<CategoryView>, id: Seq<char>, steps: nat, t: nat)
    requires
        root_distance_is(cats, id, steps),
        t > steps,
    ensures
        nth_parent(cats, id, t) is None,
    decreases steps,
{
    if steps > 0 {
        let p = parent_of(cats, id)->0;
        lemma_rooted_chain_ends(cats, p, (steps - 1) as nat, (t - 1) as nat);
    }
}

/// A chain that ends at a root passes each category at most once, so it has
/// fewer references than the collection has categories.
pub proof fn lemma_root_distance_bound(cats: Seq<CategoryView>, id: Seq<char>, steps: nat)
    requires
        root_distance_is(cats, id, steps),
    ensures
        steps < cats.len(),
{
    let visited = Seq::new(steps + 1, |t: int| step_position(cats, id, t));
    assert forall|t: int| 0 <= t <= steps implies 0 <= #[trigger] visited[t] < cats.len() by {
        lemma_rooted_chain(cats, id, steps, t as nat);
        lemma_find_category(cats, nth_parent(cats, id, t as nat)->0);
    }
    assert forall|a: int, b: int| 0 <= a < b <= steps implies visited[a] != visited[b] by {
        if visited[a] == visited[b] {
            lemma_rooted_chain(cats, id, steps, a as nat);
            lemma_rooted_chain(cats, id, steps, b as nat);
            let xa = nth_parent(cats, id, a as nat)->0;
            let xb = nth_parent(cats, id, b as nat)->0;
            lemma_find_category(cats, xa);
            lemma_find_category(cats, xb);
            assert(xa == xb);
            let rest = (steps + 1 - b) as nat;
            lemma_nth_parent_add(cats, id, b as nat, rest);
            lemma_nth_parent_add(cats, id, a as nat, rest);
            lemma_rooted_chain_ends(cats, id, steps, steps + 1);
            lemma_rooted_chain(cats, id, steps, (a + rest) as nat);
        }
    }
    assert(visited.no_duplicates());
    visited.unique_seq_to_set();
    vstd::set_lib::lemma_int_range(0, cats.len() as int);
    assert(visited.to_set().subset_of(vstd::set_lib::set_int_range(0, cats.len() as int))) by {
        assert forall|y: int| visited.to_set().contains(y) implies vstd::set_lib::set_int_range(
            0,
            cats.len() as int,
        ).contains(y) by {
            let t = choose|t: int| 0 <= t < visited.len() && visited[t] == y;
            assert(0 <= visited[t] < cats.len());
        }
    }
    vstd::set_lib::lemma_len_subset(
        visited.to_set(),
        vstd::set_lib::set_int_range(0, cats.len() as int),
    );
}

} // verus!
