use vstd::prelude::*;

verus! {

/// `before` ranks positions: it is transitive, and so is its negation, so
/// that positions fall into classes of equal rank that `before` orders.
pub open spec fn ranks(before: spec_fn(int, int) -> bool) -> bool {
    &&& forall|a: int, b: int, c: int|
        #[trigger] before(a, b) && #[trigger] before(b, c) ==> before(a, c)
    &&& forall|a: int, b: int, c: int|
        !#[trigger] before(a, b) && !#[trigger] before(b, c) ==> !before(a, c)
}

/// `a` stands ahead of `b` in a stable arrangement: its rank is lower, or the
/// ranks are equal and `a` was supplied first.
pub open spec fn precedes(before: spec_fn(int, int) -> bool, a: int, b: int) -> bool {
    before(a, b) || (!before(b, a) && a < b)
}

/// Every entry stands ahead of all later entries.
pub open spec fn arranged(order: Seq<int>, before: spec_fn(int, int) -> bool) -> bool {
    forall|a: int, b: int|
        0 <= a < b < order.len() ==> precedes(before, #[trigger] order[a], #[trigger] order[b])
}

/// Positions listed from the lowest to the highest, none twice.
pub open spec fn ascending(positions: Seq<int>) -> bool {
    forall|a: int, b: int|
        0 <= a < b < positions.len() ==> #[trigger] positions[a] < #[trigger] positions[b]
}

/// `order` with `x` placed behind every entry that `x` need not come before.
pub open spec fn insert_stable(order: Seq<int>, x: int, before: spec_fn(int, int) -> bool) -> Seq<
    int,
>
    decreases order.len(),
{
    if order.len() > 0 && before(x, order.last()) {
        insert_stable(order.drop_last(), x, before).push(order.last())
    } else {
        order.push(x)
    }
}

/// The stable arrangement of `positions` by `before`: entries in ascending
/// rank, those of equal rank in the order in which `positions` lists them.
pub open spec fn stable_order(positions: Seq<int>, before: spec_fn(int, int) -> bool) -> Seq<int>
    decreases positions.len(),
{
    if positions.len() == 0 {
        positions
    } else {
        insert_stable(stable_order(positions.drop_last(), before), positions.last(), before)
    }
}

/// Where `insert_stable` puts `x`: at the one place `at` such that `x` comes
/// before every entry from `at` on, and not before the entry just ahead.
pub proof fn lemma_insert_stable_at(
    order: Seq<int>,
    x: int,
    before: spec_fn(int, int) -> bool,
    at: int,
)
    requires
        0 <= at <= order.len(),
        forall|q: int| at <= q < order.len() ==> before(x, #[trigger] order[q]),
        at > 0 ==> !before(x, order[at - 1]),
    ensures
        insert_stable(order, x, before) == order.insert(at, x),
    decreases order.len(),
{
    if order.len() > 0 && before(x, order.last()) {
        let rest = order.drop_last();
        assert(at < order.len());
        lemma_insert_stable_at(rest, x, before, at);
        assert(rest.insert(at, x).push(order.last()) =~= order.insert(at, x));
    } else {
        if at < order.len() {
            assert(before(x, order[order.len() - 1]));
        }
        assert(order.push(x) =~= order.insert(at, x));
    }
}

/// Inserting a position that lies above all entries of a stable arrangement
/// gives a stable arrangement of the entries and that position.
pub proof fn lemma_insert_stable_arranged(
    order: Seq<int>,
    x: int,
    before: spec_fn(int, int) -> bool,
)
    requires
        ranks(before),
        arranged(order, before),
        forall|q: int| 0 <= q < order.len() ==> #[trigger] order[q] < x,
    ensures
        arranged(insert_stable(order, x, before), before),
        insert_stable(order, x, before).len() == order.len() + 1,
        insert_stable(order, x, before).contains(x),
        forall|y: int| #[trigger]
            insert_stable(order, x, before).contains(y) ==> y == x || order.contains(y),
        forall|y: int| #[trigger] order.contains(y) ==> insert_stable(order, x, before).contains(y),
    decreases order.len(),
{
    let out = insert_stable(order, x, before);
    if order.len() > 0 && before(x, order.last()) {
        let rest = order.drop_last();
        let last = order.last();
        lemma_insert_stable_arranged(rest, x, before);
        let inner = insert_stable(rest, x, before);
        assert forall|a: int, b: int| 0 <= a < b < out.len() implies precedes(
            before,
            #[trigger] out[a],
            #[trigger] out[b],
        ) by {
            if b < inner.len() {
                assert(out[a] == inner[a] && out[b] == inner[b]);
            } else {
                assert(out[b] == last);
                assert(out[a] == inner[a]);
                assert(inner.contains(inner[a]));
                if inner[a] != x {
                    let q = choose|q: int| 0 <= q < rest.len() && rest[q] == inner[a];
                    assert(order[q] == inner[a]);
                    assert(precedes(before, order[q], order[order.len() - 1]));
                }
            }
        }
        assert forall|y: int| #[trigger] out.contains(y) implies y == x || order.contains(y) by {
            let i = choose|i: int| 0 <= i < out.len() && out[i] == y;
            if i < inner.len() {
                assert(inner[i] == y);
                assert(inner.contains(y));
                if y != x {
                    let q = choose|q: int| 0 <= q < rest.len() && rest[q] == y;
                    assert(order[q] == y);
                }
            } else {
                assert(order[order.len() - 1] == y);
            }
        }
        assert(out.contains(x)) by {
            let i = choose|i: int| 0 <= i < inner.len() && inner[i] == x;
            assert(out[i] == x);
        }
        assert forall|y: int| #[trigger] order.contains(y) implies out.contains(y) by {
            let q = choose|q: int| 0 <= q < order.len() && order[q] == y;
            if q < rest.len() {
                assert(rest[q] == y);
                assert(rest.contains(y));
                assert(inner.contains(y));
                let i = choose|i: int| 0 <= i < inner.len() && inner[i] == y;
                assert(out[i] == y);
            } else {
                assert(out[out.len() - 1] == y);
            }
        }
    } else {
        assert forall|a: int, b: int| 0 <= a < b < out.len() implies precedes(
            before,
            #[trigger] out[a],
            #[trigger] out[b],
        ) by {
            if b < order.len() {
                assert(out[a] == order[a] && out[b] == order[b]);
            } else {
                assert(out[b] == x);
                assert(out[a] == order[a]);
                if a < order.len() - 1 {
                    assert(precedes(before, order[a], order[order.len() - 1]));
                }
            }
        }
        assert forall|y: int| #[trigger] out.contains(y) implies y == x || order.contains(y) by {
            let i = choose|i: int| 0 <= i < out.len() && out[i] == y;
            if i < order.len() {
                assert(order[i] == y);
            }
        }
        assert(out.contains(x)) by {
            assert(out[order.len() as int] == x);
        }
        assert forall|y: int| #[trigger] order.contains(y) implies out.contains(y) by {
            let q = choose|q: int| 0 <= q < order.len() && order[q] == y;
            assert(out[q] == y);
        }
    }
}

/// The stable arrangement of ascending positions lists exactly those
/// positions, each ahead of all that follow it: ranks never fall along it,
/// and entries of equal rank keep the order in which they were supplied.
pub proof fn lemma_stable_order(positions: Seq<int>, before: spec_fn(int, int) -> bool)
    requires
        ranks(before),
        ascending(positions),
    ensures
        arranged(stable_order(positions, before), before),
        stable_order(positions, before).len() == positions.len(),
        forall|y: int| #[trigger]
            stable_order(positions, before).contains(y) ==> positions.contains(y),
        forall|y: int| #[trigger]
            positions.contains(y) ==> stable_order(positions, before).contains(y),
    decreases positions.len(),
{
    if positions.len() > 0 {
        let rest = positions.drop_last();
        let x = positions.last();
        lemma_stable_order(rest, before);
        let inner = stable_order(rest, before);
        assert forall|q: int| 0 <= q < inner.len() implies #[trigger] inner[q] < x by {
            assert(inner.contains(inner[q]));
            let r = choose|r: int| 0 <= r < rest.len() && rest[r] == inner[q];
            assert(positions[r] < positions[positions.len() - 1]);
        }
        lemma_insert_stable_arranged(inner, x, before);
        let out = stable_order(positions, before);
        assert forall|y: int| #[trigger] out.contains(y) implies positions.contains(y) by {
            if y == x {
                assert(positions[positions.len() - 1] == y);
            } else {
                assert(inner.contains(y));
                let r = choose|r: int| 0 <= r < rest.len() && rest[r] == y;
                assert(positions[r] == y);
            }
        }
        assert forall|y: int| #[trigger] positions.contains(y) implies out.contains(y) by {
            let q = choose|q: int| 0 <= q < positions.len() && positions[q] == y;
            if q < rest.len() {
                assert(rest[q] == y);
                assert(rest.contains(y));
                assert(inner.contains(y));
            }
        }
    }
}

/// The positions below `n` that satisfy `keep`, from the lowest up.
pub open spec fn positions_where(n: nat, keep: spec_fn(int) -> bool) -> Seq<int>
    decreases n,
{
    if n == 0 {
        Seq::empty()
    } else {
        let rest = positions_where((n - 1) as nat, keep);
        if keep(n - 1) {
            rest.push(n - 1)
        } else {
            rest
        }
    }
}

/// `positions_where` lists, in ascending order, exactly the positions below
/// `n` that satisfy `keep`.
pub proof fn lemma_positions_where(n: nat, keep: spec_fn(int) -> bool)
    ensures
        ascending(positions_where(n, keep)),
        positions_where(n, keep).len() <= n,
        forall|k: int|
            0 <= k < positions_where(n, keep).len() ==> {
                &&& 0 <= (#[trigger] positions_where(n, keep)[k]) < n
                &&& keep(positions_where(n, keep)[k])
            },
        forall|j: int| 0 <= j < n && keep(j) ==> #[trigger] positions_where(n, keep).contains(j),
    decreases n,
{
    if n > 0 {
        let rest = positions_where((n - 1) as nat, keep);
        lemma_positions_where((n - 1) as nat, keep);
        let out = positions_where(n, keep);
        assert forall|j: int| 0 <= j < n && keep(j) implies #[trigger] out.contains(j) by {
            if j < n - 1 {
                assert(rest.contains(j));
                let k = choose|k: int| 0 <= k < rest.len() && rest[k] == j;
                assert(out[k] == j);
            } else {
                assert(out[out.len() - 1] == j);
            }
        }
    }
}

/// The positions held by a vector, as integers.
pub open spec fn as_positions(v: Seq<usize>) -> Seq<int> {
    v.map_values(|p: usize| p as int)
}

/// A ranking of the positions of some collection that a program can
/// evaluate.
pub trait Ranking {
    /// The number of positions that are ranked.
    spec fn size(&self) -> nat;

    /// The ranking: `before()(a, b)` where `a` must stand ahead of `b`.
    spec fn before(&self) -> spec_fn(int, int) -> bool;

    /// Whether position `a` must stand ahead of position `b`.
    fn is_before(&self, a: usize, b: usize) -> (ahead: bool)
        requires
            a < self.size(),
            b < self.size(),
        ensures
            ahead == (self.before())(a as int, b as int),
    ;
}

/// Arranges positions by a ranking: in ascending rank, and where ranks are
/// equal, in the order given.
pub fn arrange<R: Ranking>(ranking: &R, positions: Vec<usize>) -> (sorted: Vec<usize>)
    requires
        forall|k: int| 0 <= k < positions.len() ==> #[trigger] positions[k] < ranking.size(),
    ensures
        as_positions(sorted@) == stable_order(as_positions(positions@), ranking.before()),
        forall|k: int| 0 <= k < sorted.len() ==> #[trigger] sorted[k] < ranking.size(),
{
    let ghost before = ranking.before();
    let mut sorted: Vec<usize> = Vec::new();
    let mut k: usize = 0;
    while k < positions.len()
        invariant
            k <= positions.len(),
            before == ranking.before(),
            forall|m: int| 0 <= m < positions.len() ==> #[trigger] positions[m] < ranking.size(),
            forall|m: int| 0 <= m < sorted.len() ==> #[trigger] sorted[m] < ranking.size(),
            as_positions(sorted@) == stable_order(as_positions(positions@).take(k as int), before),
        decreases positions.len() - k,
    {
        let x = positions[k];
        let mut at: usize = sorted.len();
        while at > 0 && ranking.is_before(x, sorted[at - 1])
            invariant
                at <= sorted.len(),
                x < ranking.size(),
                before == ranking.before(),
                forall|m: int| 0 <= m < sorted.len() ==> #[trigger] sorted[m] < ranking.size(),
                forall|q: int|
                    at <= q < sorted.len() ==> before(x as int, #[trigger] as_positions(sorted@)[q]),
            decreases at,
        {
            at -= 1;
        }
        let ghost old_order = as_positions(sorted@);
        proof {
            if at > 0 {
                assert(!before(x as int, old_order[at - 1]));
            }
            lemma_insert_stable_at(old_order, x as int, before, at as int);
            let done = as_positions(positions@).take(k as int);
            let next = as_positions(positions@).take(k + 1);
            assert(next.drop_last() =~= done);
            assert(next.last() == x as int);
        }
        sorted.insert(at, x);
        assert(as_positions(sorted@) =~= old_order.insert(at as int, x as int));
        k += 1;
    }
    assert(as_positions(positions@).take(positions.len() as int) =~= as_positions(positions@));
    sorted
}

} // verus!
