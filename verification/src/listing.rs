use crate::hierarchy::is_descendant;
use crate::models::{CategoryView, RuleView};
use crate::ordering::{positions_where, ranks, stable_order};
use crate::text_order::{
    lemma_bytes_less_transitive, lemma_bytes_not_less_transitive, text_less,
};
use vstd::prelude::*;

verus! {

/// The name of the sort field that selects the violate counter; every other
/// name selects the follow counter.
pub open spec fn sorts_by_violations(sort_by: Seq<char>) -> bool {
    sort_by == "violate_count"@
}

/// The name of the direction that lists high counts first; every other name
/// lists low counts first.
pub open spec fn sorts_descending(sort_order: Seq<char>) -> bool {
    sort_order == "desc"@
}

/// The counter by which a rule is ranked.
pub open spec fn sort_count(rule: RuleView, by_violations: bool) -> u32 {
    if by_violations {
        rule.violate_count
    } else {
        rule.follow_count
    }
}

/// `a` is listed ahead of `b`: its counter comes first in the chosen
/// direction, or the counters are equal and `a` was created later, by the
/// order of the creation times as texts.
pub open spec fn rule_before(a: RuleView, b: RuleView, by_violations: bool, descending: bool) -> bool {
    let ca = sort_count(a, by_violations);
    let cb = sort_count(b, by_violations);
    if ca != cb {
        if descending {
            ca > cb
        } else {
            ca < cb
        }
    } else {
        text_less(b.created_at, a.created_at)
    }
}

/// Ranks the positions of `rules` by `rule_before`.
pub open spec fn rule_ranks(rules: Seq<RuleView>, by_violations: bool, descending: bool) -> spec_fn(
    int,
    int,
) -> bool {
    |a: int, b: int| rule_before(rules[a], rules[b], by_violations, descending)
}

/// The rule at a position counts for the category `scope`: it belongs to that
/// category or to one below it. Without a `scope` every rule counts.
pub open spec fn in_scope(
    cats: Seq<CategoryView>,
    rules: Seq<RuleView>,
    scope: Option<Seq<char>>,
) -> spec_fn(int) -> bool {
    |j: int|
        match scope {
            Some(c) => is_descendant(cats, c, rules[j].category_id),
            None => true,
        }
}

/// The positions of the rules to list, in the order of the listing.
pub open spec fn listed_positions(
    cats: Seq<CategoryView>,
    rules: Seq<RuleView>,
    scope: Option<Seq<char>>,
    by_violations: bool,
    descending: bool,
) -> Seq<int> {
    stable_order(
        positions_where(rules.len(), in_scope(cats, rules, scope)),
        rule_ranks(rules, by_violations, descending),
    )
}

/// The listing: the rules in scope, ranked by `rule_before`, rules of equal
/// rank in the order supplied.
pub open spec fn listed_rules(
    cats: Seq<CategoryView>,
    rules: Seq<RuleView>,
    scope: Option<Seq<char>>,
    by_violations: bool,
    descending: bool,
) -> Seq<RuleView> {
    listed_positions(cats, rules, scope, by_violations, descending).map_values(|j: int| rules[j])
}

/// `rule_before` ranks rules: it is transitive, and so is its negation.
pub proof fn lemma_rule_before_ranks(by_violations: bool, descending: bool)
    ensures
        forall|a: RuleView, b: RuleView, c: RuleView|
            #[trigger] rule_before(a, b, by_violations, descending) && #[trigger] rule_before(
                b,
                c,
                by_violations,
                descending,
            ) ==> rule_before(a, c, by_violations, descending),
        forall|a: RuleView, b: RuleView, c: RuleView|
            !#[trigger] rule_before(a, b, by_violations, descending) && !#[trigger] rule_before(
                b,
                c,
                by_violations,
                descending,
            ) ==> !rule_before(a, c, by_violations, descending),
{
    assert forall|a: RuleView, b: RuleView, c: RuleView|
        #[trigger] rule_before(a, b, by_violations, descending) && #[trigger] rule_before(
            b,
            c,
            by_violations,
            descending,
        ) implies rule_before(a, c, by_violations, descending) by {
        let ca = sort_count(a, by_violations);
        let cb = sort_count(b, by_violations);
        let cc = sort_count(c, by_violations);
        if ca == cb && cb == cc {
            lemma_bytes_less_transitive(
                vstd::utf8::encode_utf8(c.created_at),
                vstd::utf8::encode_utf8(b.created_at),
                vstd::utf8::encode_utf8(a.created_at),
            );
        }
    }
    assert forall|a: RuleView, b: RuleView, c: RuleView|
        !#[trigger] rule_before(a, b, by_violations, descending) && !#[trigger] rule_before(
            b,
            c,
            by_violations,
            descending,
        ) implies !rule_before(a, c, by_violations, descending) by {
        let ca = sort_count(a, by_violations);
        let cb = sort_count(b, by_violations);
        let cc = sort_count(c, by_violations);
        if ca == cb && cb == cc {
            lemma_bytes_not_less_transitive(
                vstd::utf8::encode_utf8(c.created_at),
                vstd::utf8::encode_utf8(b.created_at),
                vstd::utf8::encode_utf8(a.created_at),
            );
        }
    }
}

/// The ranking of positions that `rule_before` induces is a ranking.
pub proof fn lemma_rule_ranks(rules: Seq<RuleView>, by_violations: bool, descending: bool)
    ensures
        ranks(rule_ranks(rules, by_violations, descending)),
{
    lemma_rule_before_ranks(by_violations, descending);
    let before = rule_ranks(rules, by_violations, descending);
    assert forall|a: int, b: int, c: int| #[trigger]
        before(a, b) && #[trigger] before(b, c) implies before(a, c) by {
        assert(rule_before(rules[a], rules[b], by_violations, descending));
        assert(rule_before(rules[b], rules[c], by_violations, descending));
    }
    assert forall|a: int, b: int, c: int| !#[trigger] before(a, b) && !#[trigger] before(
        b,
        c,
    ) implies !before(a, c) by {
        assert(!rule_before(rules[a], rules[b], by_violations, descending));
        assert(!rule_before(rules[b], rules[c], by_violations, descending));
    }
}

} // verus!
