use crate::listing::{
    in_scope, listed_positions, listed_rules, rule_before, rule_ranks, sorts_by_violations,
    sorts_descending,
};
use crate::models::{
    Category, CountRecord, CreateRuleRequest, Rejection, Rule, RuleView, UpdateRuleRequest,
};
use crate::storage::create::{create_record, is_hyphenated_id, timestamp_now};
use crate::ordering::{arrange, as_positions, positions_where, Ranking};
use crate::storage::descendants::{contains_id, get_all_descendant_category_ids};
use crate::text_order::text_before;
use vstd::prelude::*;

verus! {

/// How a listing of rules is narrowed and ordered: the category whose rules,
/// with those of the categories below it, are wanted, absent for all rules;
/// the name of the counter to sort by; and the name of the direction.
#[derive(Debug)]
pub struct RuleQuery {
    pub category_id: Option<String>,
    pub sort_by: String,
    pub sort_order: String,
}

/// The sort field of a query that names none.
pub fn default_sort_by() -> (name: String)
    ensures
        name@ == "follow_count"@,
{
    "follow_count".to_owned()
}

/// The direction of a query that names none.
pub fn default_sort_order() -> (name: String)
    ensures
        name@ == "desc"@,
{
    "desc".to_owned()
}

/// Whether rule `a` is listed ahead of rule `b`.
fn listed_before(a: &Rule, b: &Rule, by_violations: bool, descending: bool) -> (ahead: bool)
    ensures
        ahead == rule_before(a@, b@, by_violations, descending),
{
    let ca = if by_violations {
        a.violate_count
    } else {
        a.follow_count
    };
    let cb = if by_violations {
        b.violate_count
    } else {
        b.follow_count
    };
    if ca != cb {
        if descending {
            ca > cb
        } else {
            ca < cb
        }
    } else {
        text_before(&b.created_at, &a.created_at)
    }
}

/// The positions of the rules that count for the category `scope`, ascending.
fn positions_in_scope(rules: &[Rule], categories: &[Category], scope: &Option<String>) -> (kept:
    Vec<usize>)
    ensures
        as_positions(kept@) == positions_where(
            rules.len() as nat,
            in_scope(categories.deep_view(), rules.deep_view(), scope.deep_view()),
        ),
        forall|k: int| 0 <= k < kept.len() ==> #[trigger] kept[k] < rules.len(),
{
    let ghost keep = in_scope(categories.deep_view(), rules.deep_view(), scope.deep_view());
    let members: Option<Vec<String>> = match scope {
        Some(category_id) => Some(
            get_all_descendant_category_ids(categories, category_id.as_str()),
        ),
        None => None,
    };
    let mut kept: Vec<usize> = Vec::new();
    let mut j: usize = 0;
    while j < rules.len()
        invariant
            j <= rules.len(),
            keep == in_scope(categories.deep_view(), rules.deep_view(), scope.deep_view()),
            match (members, scope) {
                (Some(list), Some(category_id)) => list.deep_view().to_set()
                    == crate::hierarchy::descendant_ids(categories.deep_view(), category_id@),
                (None, None) => true,
                _ => false,
            },
            as_positions(kept@) == positions_where(j as nat, keep),
            forall|k: int| 0 <= k < kept.len() ==> #[trigger] kept[k] < rules.len(),
        decreases rules.len() - j,
    {
        let ghost before = kept@;
        let counts = match &members {
            Some(list) => contains_id(list, &rules[j].category_id),
            None => true,
        };
        assert(counts == keep(j as int)) by {
            assert(rules.deep_view()[j as int].category_id == rules[j as int].category_id@);
            match (members, scope) {
                (Some(list), Some(category_id)) => {
                    assert(list.deep_view().to_set().contains(rules[j as int].category_id@)
                        == list.deep_view().contains(rules[j as int].category_id@));
                },
                _ => {},
            }
        }
        if counts {
            kept.push(j);
            assert(as_positions(kept@) =~= as_positions(before).push(j as int));
        }
        j += 1;
    }
    kept
}

/// The ranking of rules for a listing.
pub struct ByCount<'a> {
    pub rules: &'a [Rule],
    pub by_violations: bool,
    pub descending: bool,
}

impl<'a> Ranking for ByCount<'a> {
    open spec fn size(&self) -> nat {
        self.rules@.len()
    }

    open spec fn before(&self) -> spec_fn(int, int) -> bool {
        rule_ranks(self.rules.deep_view(), self.by_violations, self.descending)
    }

    fn is_before(&self, a: usize, b: usize) -> (ahead: bool) {
        listed_before(&self.rules[a], &self.rules[b], self.by_violations, self.descending)
    }
}

/// Lists rules for a query. With a category in the query, only the rules of
/// that category and of the categories below it are listed. The listing is
/// ordered by the chosen counter in the chosen direction; rules with equal
/// counters come newest first, and rules equal in that too keep the order in
/// which they were supplied.
pub fn list_rules(rules: &[Rule], categories: &[Category], query: &RuleQuery) -> (listed: Vec<Rule>)
    ensures
        listed.deep_view() == listed_rules(
            categories.deep_view(),
            rules.deep_view(),
            query.category_id.deep_view(),
            sorts_by_violations(query.sort_by@),
            sorts_descending(query.sort_order@),
        ),
{
    let by_violations = query.sort_by == "violate_count".to_owned();
    let descending = query.sort_order == "desc".to_owned();
    let kept = positions_in_scope(rules, categories, &query.category_id);
    let order = arrange(&ByCount { rules, by_violations, descending }, kept);
    let ghost wanted = listed_positions(
        categories.deep_view(),
        rules.deep_view(),
        query.category_id.deep_view(),
        by_violations,
        descending,
    );
    assert(as_positions(order@) == wanted);
    let mut listed: Vec<Rule> = Vec::new();
    let mut k: usize = 0;
    while k < order.len()
        invariant
            k <= order.len(),
            listed.len() == k,
            forall|m: int| 0 <= m < order.len() ==> #[trigger] order[m] < rules.len(),
            forall|m: int| 0 <= m < k ==> (#[trigger] listed[m])@ == rules[order[m] as int]@,
        decreases order.len() - k,
    {
        listed.push(rules[order[k]].clone());
        k += 1;
    }
    proof {
        assert(wanted.len() == order.len());
        assert forall|m: int| 0 <= m < listed.len() implies listed.deep_view()[m] == listed_rules(
            categories.deep_view(),
            rules.deep_view(),
            query.category_id.deep_view(),
            by_violations,
            descending,
        )[m] by {
            assert(wanted[m] == order[m] as int);
            assert(listed.deep_view()[m] == listed[m]@);
            assert(rules.deep_view()[order[m] as int] == rules[order[m] as int]@);
        }
        assert(listed.deep_view() =~= listed_rules(
            categories.deep_view(),
            rules.deep_view(),
            query.category_id.deep_view(),
            by_violations,
            descending,
        ));
    }
    listed
}

/// The identifiers of the rules, in the order stored.
pub open spec fn rule_ids(rules: Seq<RuleView>) -> Seq<Seq<char>> {
    rules.map_values(|r: RuleView| r.id)
}

/// The position of the first rule that carries `id`, if any does.
pub open spec fn find_rule(rules: Seq<RuleView>, id: Seq<char>) -> Option<int> {
    rule_ids(rules).index_of_first(id)
}

/// What `find_rule` returns: the least position holding `id`, or nothing when
/// no rule holds it.
pub proof fn lemma_find_rule(rules: Seq<RuleView>, id: Seq<char>)
    ensures
        match find_rule(rules, id) {
            Some(i) => {
                &&& 0 <= i < rules.len()
                &&& rules[i].id == id
                &&& forall|j: int| 0 <= j < i ==> (#[trigger] rules[j]).id != id
            },
            None => forall|j: int| 0 <= j < rules.len() ==> (#[trigger] rules[j]).id != id,
        },
{
    let s = rule_ids(rules);
    s.index_of_first_ensures(id);
    match s.index_of_first(id) {
        Some(i) => {
            assert(s[i] == rules[i].id);
            assert forall|j: int| 0 <= j < i implies (#[trigger] rules[j]).id != id by {
                assert(s[j] == rules[j].id);
            }
        },
        None => {
            assert forall|j: int| 0 <= j < rules.len() implies (#[trigger] rules[j]).id != id by {
                assert(s[j] == rules[j].id);
            }
        },
    }
}

/// The position of the first rule that carries `id`.
fn find_rule_index(rules: &Vec<Rule>, id: &String) -> (found: Option<usize>)
    ensures
        match found {
            Some(i) => find_rule(rules.deep_view(), id@) == Some(i as int) && i < rules.len(),
            None => find_rule(rules.deep_view(), id@) is None,
        },
{
    let mut i: usize = 0;
    while i < rules.len()
        invariant
            i <= rules.len(),
            forall|j: int| 0 <= j < i ==> (#[trigger] rules.deep_view()[j]).id != id@,
        decreases rules.len() - i,
    {
        if rules[i].id == *id {
            proof {
                lemma_find_rule(rules.deep_view(), id@);
                assert(rules.deep_view()[i as int].id == id@);
            }
            return Some(i);
        }
        i += 1;
    }
    proof {
        lemma_find_rule(rules.deep_view(), id@);
    }
    None
}

/// The mathematical value of an outcome that carries a rule.
pub open spec fn rule_outcome_view(outcome: Result<Rule, Rejection>) -> Result<RuleView, Rejection> {
    match outcome {
        Ok(r) => Ok(r@),
        Err(e) => Err(e),
    }
}

/// Which of the two counters of a rule an event raises.
#[derive(Debug, Clone, Copy, PartialEq, Eq, Structural)]
pub enum CountKind {
    Follow,
    Violate,
}

/// A rule after its content was replaced at `now`.
pub open spec fn rewritten(r: RuleView, content: Seq<char>, now: Seq<char>) -> RuleView {
    RuleView {
        id: r.id,
        category_id: r.category_id,
        content: content,
        follow_count: r.follow_count,
        violate_count: r.violate_count,
        created_at: r.created_at,
        updated_at: now,
    }
}

/// The counter of a rule that events of `kind` raise.
pub open spec fn counter(r: RuleView, kind: CountKind) -> u32 {
    match kind {
        CountKind::Follow => r.follow_count,
        CountKind::Violate => r.violate_count,
    }
}

/// A rule after one more event of `kind` at `now`.
pub open spec fn counted(r: RuleView, kind: CountKind, now: Seq<char>) -> RuleView
    recommends
        counter(r, kind) < u32::MAX,
{
    RuleView {
        id: r.id,
        category_id: r.category_id,
        content: r.content,
        follow_count: match kind {
            CountKind::Follow => (r.follow_count + 1) as u32,
            CountKind::Violate => r.follow_count,
        },
        violate_count: match kind {
            CountKind::Follow => r.violate_count,
            CountKind::Violate => (r.violate_count + 1) as u32,
        },
        created_at: r.created_at,
        updated_at: now,
    }
}

/// What replacing the content of the first rule `id` at `now` does: without
/// a rule `id` the request is refused as not found and nothing changes; else
/// the rule is replaced by its rewritten value, which is also handed back.
pub open spec fn rewrite_applied(
    before: Seq<RuleView>,
    after: Seq<RuleView>,
    outcome: Result<RuleView, Rejection>,
    id: Seq<char>,
    content: Seq<char>,
    now: Seq<char>,
) -> bool {
    match find_rule(before, id) {
        None => outcome == Err::<RuleView, Rejection>(Rejection::NotFound) && after == before,
        Some(i) => {
            let r = rewritten(before[i], content, now);
            outcome == Ok::<RuleView, Rejection>(r) && after == before.update(i, r)
        },
    }
}

/// What counting an event of `kind` on the first rule `id` at `now` does:
/// without a rule `id` the request is refused as not found and nothing
/// changes; else the rule is replaced by its counted value, which is also
/// handed back.
pub open spec fn count_applied(
    before: Seq<RuleView>,
    after: Seq<RuleView>,
    outcome: Result<RuleView, Rejection>,
    id: Seq<char>,
    kind: CountKind,
    now: Seq<char>,
) -> bool {
    match find_rule(before, id) {
        None => outcome == Err::<RuleView, Rejection>(Rejection::NotFound) && after == before,
        Some(i) => {
            let r = counted(before[i], kind, now);
            outcome == Ok::<RuleView, Rejection>(r) && after == before.update(i, r)
        },
    }
}

/// The mathematical value of the rule in an outcome that carries a rule and
/// the history entry of its event.
pub open spec fn counted_rule(outcome: Result<(Rule, CountRecord), Rejection>) -> Result<
    RuleView,
    Rejection,
> {
    match outcome {
        Ok(pair) => Ok(pair.0@),
        Err(e) => Err(e),
    }
}

/// Keeps the rules that do not carry `id`.
pub open spec fn other_than(id: Seq<char>) -> spec_fn(RuleView) -> bool {
    |r: RuleView| r.id != id
}

/// What deleting the rules `id` does: without such a rule the request is
/// refused as not found and nothing changes; else every rule `id` is removed.
pub open spec fn rule_deleted(
    before: Seq<RuleView>,
    after: Seq<RuleView>,
    outcome: Result<(), Rejection>,
    id: Seq<char>,
) -> bool {
    match find_rule(before, id) {
        None => outcome == Err::<(), Rejection>(Rejection::NotFound) && after == before,
        Some(_) => outcome == Ok::<(), Rejection>(()) && after == before.filter(other_than(id)),
    }
}

/// The event of `kind` on the first rule `id` does not overflow its counter.
pub open spec fn can_count(rules: Seq<RuleView>, id: Seq<char>, kind: CountKind) -> bool {
    match find_rule(rules, id) {
        Some(i) => counter(rules[i], kind) < u32::MAX,
        None => true,
    }
}

/// Adds a new rule for the request to the collection and hands it back.
pub fn create_rule(rules: &mut Vec<Rule>, req: CreateRuleRequest) -> (created: Rule)
    ensures
        final(rules).deep_view() == old(rules).deep_view().push(created@),
        is_hyphenated_id(created@.id),
        created@.category_id == req.category_id@,
        created@.content == req.content@,
        created@.follow_count == 0,
        created@.violate_count == 0,
        created@.created_at == created@.updated_at,
{
    let rule = crate::storage::create::create_rule(req.category_id, req.content);
    let ghost before = rules.deep_view();
    rules.push(rule.clone());
    assert(rules.deep_view() =~= before.push(rule@));
    rule
}

/// Replaces the content of the first rule `id` at `now`.
pub fn update_rule_at(rules: &mut Vec<Rule>, id: &str, req: UpdateRuleRequest, now: String) -> (outcome:
    Result<Rule, Rejection>)
    ensures
        rewrite_applied(
            old(rules).deep_view(),
            final(rules).deep_view(),
            rule_outcome_view(outcome),
            id@,
            req.content@,
            now@,
        ),
{
    let ghost before = rules.deep_view();
    let wanted = id.to_owned();
    match find_rule_index(rules, &wanted) {
        None => Err(Rejection::NotFound),
        Some(i) => {
            let current = &rules[i];
            let changed = Rule {
                id: current.id.clone(),
                category_id: current.category_id.clone(),
                content: req.content,
                follow_count: current.follow_count,
                violate_count: current.violate_count,
                created_at: current.created_at.clone(),
                updated_at: now,
            };
            let result = changed.clone();
            rules.set(i, changed);
            assert(rules.deep_view() =~= before.update(i as int, result@));
            Ok(result)
        },
    }
}

/// Replaces the content of the first rule `id` and stamps the rule with the
/// current time.
pub fn update_rule(rules: &mut Vec<Rule>, id: &str, req: UpdateRuleRequest) -> (outcome: Result<
    Rule,
    Rejection,
>)
    ensures
        exists|now: Seq<char>| #[trigger]
            rewrite_applied(
                old(rules).deep_view(),
                final(rules).deep_view(),
                rule_outcome_view(outcome),
                id@,
                req.content@,
                now,
            ),
{
    let wanted = id.to_owned();
    if find_rule_index(rules, &wanted).is_none() {
        assert(rewrite_applied(
            rules.deep_view(),
            rules.deep_view(),
            Err(Rejection::NotFound),
            id@,
            req.content@,
            Seq::empty(),
        ));
        return Err(Rejection::NotFound);
    }
    let now = timestamp_now();
    update_rule_at(rules, id, req, now)
}

/// Removes every rule `id`. Without such a rule the request is refused as not
/// found.
pub fn delete_rule(rules: &mut Vec<Rule>, id: &str) -> (outcome: Result<(), Rejection>)
    ensures
        rule_deleted(old(rules).deep_view(), final(rules).deep_view(), outcome, id@),
{
    let ghost before = rules.deep_view();
    let ghost keep = other_than(id@);
    let wanted = id.to_owned();
    if find_rule_index(rules, &wanted).is_none() {
        return Err(Rejection::NotFound);
    }
    let mut kept: Vec<Rule> = Vec::new();
    let mut j: usize = 0;
    assert(before.take(0).filter(keep) =~= Seq::<RuleView>::empty()) by {
        reveal(Seq::filter);
    }
    while j < rules.len()
        invariant
            j <= rules.len(),
            before == rules.deep_view(),
            keep == other_than(id@),
            wanted@ == id@,
            kept.deep_view() == before.take(j as int).filter(keep),
        decreases rules.len() - j,
    {
        let ghost so_far = kept.deep_view();
        proof {
            assert(before.take(j + 1) =~= before.take(j as int).push(before[j as int]));
            before.take(j as int).lemma_filter_push(before[j as int], keep);
        }
        if !(rules[j].id == wanted) {
            kept.push(rules[j].clone());
            assert(kept.deep_view() =~= so_far.push(before[j as int]));
        }
        j += 1;
    }
    assert(before.take(rules.len() as int) =~= before);
    *rules = kept;
    Ok(())
}

/// Raises by one, at `now`, the counter of the first rule `id` that events of
/// `kind` raise.
pub fn count_rule_at(rules: &mut Vec<Rule>, id: &str, kind: CountKind, now: String) -> (outcome:
    Result<Rule, Rejection>)
    requires
        can_count(old(rules).deep_view(), id@, kind),
    ensures
        count_applied(
            old(rules).deep_view(),
            final(rules).deep_view(),
            rule_outcome_view(outcome),
            id@,
            kind,
            now@,
        ),
{
    let ghost before = rules.deep_view();
    let wanted = id.to_owned();
    match find_rule_index(rules, &wanted) {
        None => Err(Rejection::NotFound),
        Some(i) => {
            let current = &rules[i];
            assert(counter(before[i as int], kind) < u32::MAX);
            let changed = Rule {
                id: current.id.clone(),
                category_id: current.category_id.clone(),
                content: current.content.clone(),
                follow_count: match kind {
                    CountKind::Follow => current.follow_count + 1,
                    CountKind::Violate => current.follow_count,
                },
                violate_count: match kind {
                    CountKind::Follow => current.violate_count,
                    CountKind::Violate => current.violate_count + 1,
                },
                created_at: current.created_at.clone(),
                updated_at: now,
            };
            let result = changed.clone();
            rules.set(i, changed);
            assert(rules.deep_view() =~= before.update(i as int, result@));
            Ok(result)
        },
    }
}

/// The name under which the history keeps events of `kind`.
pub open spec fn kind_name(kind: CountKind) -> Seq<char> {
    match kind {
        CountKind::Follow => "follow"@,
        CountKind::Violate => "violate"@,
    }
}

/// Counts one event of `kind` on the first rule `id`, stamps the rule with
/// the current time and writes the history entry of the event, which the
/// caller appends to the history.
fn count_rule(rules: &mut Vec<Rule>, id: &str, kind: CountKind) -> (outcome: Result<
    (Rule, CountRecord),
    Rejection,
>)
    requires
        can_count(old(rules).deep_view(), id@, kind),
    ensures
        exists|now: Seq<char>| #[trigger]
            count_applied(
                old(rules).deep_view(),
                final(rules).deep_view(),
                counted_rule(outcome),
                id@,
                kind,
                now,
            ),
        outcome matches Ok(pair) ==> {
            &&& is_hyphenated_id(pair.1@.id)
            &&& pair.1@.rule_id == id@
            &&& pair.1@.record_type == kind_name(kind)
            &&& pair.1@.note == Seq::<char>::empty()
        },
{
    let wanted = id.to_owned();
    if find_rule_index(rules, &wanted).is_none() {
        assert(count_applied(
            rules.deep_view(),
            rules.deep_view(),
            Err(Rejection::NotFound),
            id@,
            kind,
            Seq::empty(),
        ));
        return Err(Rejection::NotFound);
    }
    let ghost before = rules.deep_view();
    let now = timestamp_now();
    let ghost stamp = now@;
    match count_rule_at(rules, id, kind, now) {
        Err(e) => {
            proof {
                lemma_find_rule(before, id@);
            }
            Err(e)
        },
        Ok(rule) => {
            let name = match kind {
                CountKind::Follow => "follow".to_owned(),
                CountKind::Violate => "violate".to_owned(),
            };
            let record = create_record(wanted, name, String::new());
            assert(count_applied(before, rules.deep_view(), Ok(rule@), id@, kind, stamp));
            Ok((rule, record))
        },
    }
}

/// Counts that the first rule `id` was followed: raises its follow counter,
/// stamps it with the current time, and hands back the rule with the history
/// entry of the event.
pub fn follow_rule(rules: &mut Vec<Rule>, id: &str) -> (outcome: Result<
    (Rule, CountRecord),
    Rejection,
>)
    requires
        can_count(old(rules).deep_view(), id@, CountKind::Follow),
    ensures
        exists|now: Seq<char>| #[trigger]
            count_applied(
                old(rules).deep_view(),
                final(rules).deep_view(),
                counted_rule(outcome),
                id@,
                CountKind::Follow,
                now,
            ),
        outcome matches Ok(pair) ==> {
            &&& is_hyphenated_id(pair.1@.id)
            &&& pair.1@.rule_id == id@
            &&& pair.1@.record_type == "follow"@
            &&& pair.1@.note == Seq::<char>::empty()
        },
{
    count_rule(rules, id, CountKind::Follow)
}

/// Counts that the first rule `id` was violated: raises its violate counter,
/// stamps it with the current time, and hands back the rule with the history
/// entry of the event.
pub fn violate_rule(rules: &mut Vec<Rule>, id: &str) -> (outcome: Result<
    (Rule, CountRecord),
    Rejection,
>)
    requires
        can_count(old(rules).deep_view(), id@, CountKind::Violate),
    ensures
        exists|now: Seq<char>| #[trigger]
            count_applied(
                old(rules).deep_view(),
                final(rules).deep_view(),
                counted_rule(outcome),
                id@,
                CountKind::Violate,
                now,
            ),
        outcome matches Ok(pair) ==> {
            &&& is_hyphenated_id(pair.1@.id)
            &&& pair.1@.rule_id == id@
            &&& pair.1@.record_type == "violate"@
            &&& pair.1@.note == Seq::<char>::empty()
        },
{
    count_rule(rules, id, CountKind::Violate)
}

} // verus!
