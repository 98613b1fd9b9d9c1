use crate::listing::{
    in_scope, lemma_rule_ranks, listed_positions, listed_rules, rule_before, rule_ranks,
};
use crate::models::{CategoryView, RuleView};
use crate::ordering::{lemma_positions_where, lemma_stable_order, positions_where, precedes};
use crate::text_order::lemma_bytes_less_irreflexive;
use vstd::prelude::*;

verus! {

/// Every rule in scope is listed.
pub proof fn law_rule_in_scope_is_listed(
    cats: Seq<CategoryView>,
    rules: Seq<RuleView>,
    scope: Option<Seq<char>>,
    by_violations: bool,
    descending: bool,
    j: int,
)
    requires
        0 <= j < rules.len(),
        in_scope(cats, rules, scope)(j),
    ensures
        listed_rules(cats, rules, scope, by_violations, descending).contains(rules[j]),
{
    let picked = positions_where(rules.len(), in_scope(cats, rules, scope));
    lemma_positions_where(rules.len(), in_scope(cats, rules, scope));
    lemma_rule_ranks(rules, by_violations, descending);
    lemma_stable_order(picked, rule_ranks(rules, by_violations, descending));
    let order = listed_positions(cats, rules, scope, by_violations, descending);
    assert(picked.contains(j));
    assert(order.contains(j));
    let k = choose|k: int| 0 <= k < order.len() && order[k] == j;
    assert(listed_rules(cats, rules, scope, by_violations, descending)[k] == rules[j]);
}

/// Every listed rule is one of the rules supplied, and is in scope.
pub proof fn law_listed_rule_is_in_scope(
    cats: Seq<CategoryView>,
    rules: Seq<RuleView>,
    scope: Option<Seq<char>>,
    by_violations: bool,
    descending: bool,
    k: int,
)
    requires
        0 <= k < listed_rules(cats, rules, scope, by_violations, descending).len(),
    ensures
        exists|j: int|
            0 <= j < rules.len() && in_scope(cats, rules, scope)(j) && #[trigger] rules[j]
                == listed_rules(cats, rules, scope, by_violations, descending)[k],
{
    let picked = positions_where(rules.len(), in_scope(cats, rules, scope));
    lemma_positions_where(rules.len(), in_scope(cats, rules, scope));
    lemma_rule_ranks(rules, by_violations, descending);
    lemma_stable_order(picked, rule_ranks(rules, by_violations, descending));
    let order = listed_positions(cats, rules, scope, by_violations, descending);
    assert(order.contains(order[k]));
    let m = choose|m: int| 0 <= m < picked.len() && picked[m] == order[k];
    assert(in_scope(cats, rules, scope)(picked[m]));
    assert(rules[order[k]] == listed_rules(cats, rules, scope, by_violations, descending)[k]);
}

/// No rule of the listing is ranked ahead of a rule listed before it.
pub proof fn law_listing_in_order(
    cats: Seq<CategoryView>,
    rules: Seq<RuleView>,
    scope: Option<Seq<char>>,
    by_violations: bool,
    descending: bool,
    a: int,
    b: int,
)
    requires
        0 <= a < b < listed_rules(cats, rules, scope, by_violations, descending).len(),
    ensures
        !rule_before(
            listed_rules(cats, rules, scope, by_violations, descending)[b],
            listed_rules(cats, rules, scope, by_violations, descending)[a],
            by_violations,
            descending,
        ),
{
    let picked = positions_where(rules.len(), in_scope(cats, rules, scope));
    lemma_positions_where(rules.len(), in_scope(cats, rules, scope));
    lemma_rule_ranks(rules, by_violations, descending);
    lemma_stable_order(picked, rule_ranks(rules, by_violations, descending));
    let order = listed_positions(cats, rules, scope, by_violations, descending);
    let before = rule_ranks(rules, by_violations, descending);
    assert(precedes(before, order[a], order[b]));
    if before(order[a], order[b]) && before(order[b], order[a]) {
        assert(before(order[a], order[a]));
        lemma_bytes_less_irreflexive(
            vstd::utf8::encode_utf8(rules[order[a]].created_at),
        );
    }
}

} // verus!
