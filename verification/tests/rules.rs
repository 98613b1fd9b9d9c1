use api::handlers::rule::{
    count_rule_at, create_rule, default_sort_by, default_sort_order, delete_rule, follow_rule,
    list_rules, update_rule, update_rule_at, violate_rule, CountKind, RuleQuery,
};
use api::models::{Category, CreateRuleRequest, Rejection, Rule, UpdateRuleRequest};
use api::text_order::text_before;

fn cat(id: &str, parent: Option<&str>) -> Category {
    Category {
        id: id.to_string(),
        name: id.to_string(),
        created_at: "t".to_string(),
        updated_at: "t".to_string(),
        parent_id: parent.map(|p| p.to_string()),
        sort_order: 0,
    }
}

fn rule(id: &str, category: &str, follow: u32, violate: u32, created: &str) -> Rule {
    Rule {
        id: id.to_string(),
        category_id: category.to_string(),
        content: format!("content of {}", id),
        follow_count: follow,
        violate_count: violate,
        created_at: created.to_string(),
        updated_at: created.to_string(),
    }
}

fn query(category: Option<&str>, sort_by: &str, sort_order: &str) -> RuleQuery {
    RuleQuery {
        category_id: category.map(|c| c.to_string()),
        sort_by: sort_by.to_string(),
        sort_order: sort_order.to_string(),
    }
}

fn ids(rules: &[Rule]) -> Vec<String> {
    rules.iter().map(|r| r.id.clone()).collect()
}

#[test]
fn defaults_are_follow_count_descending() {
    assert_eq!(default_sort_by(), "follow_count");
    assert_eq!(default_sort_order(), "desc");
}

#[test]
fn filter_by_category_includes_rules_of_descendants() {
    let cats = vec![cat("X", None), cat("Y", Some("X")), cat("Z", Some("Y")), cat("W", None)];
    let rules = vec![
        rule("on_y", "Y", 0, 0, "2024-01-01"),
        rule("on_w", "W", 0, 0, "2024-01-02"),
        rule("on_x", "X", 0, 0, "2024-01-03"),
        rule("on_z", "Z", 0, 0, "2024-01-04"),
    ];
    let listed = list_rules(&rules, &cats, &query(Some("X"), "follow_count", "desc"));
    assert_eq!(ids(&listed), vec!["on_z", "on_x", "on_y"]);
    let listed = list_rules(&rules, &cats, &query(Some("Y"), "follow_count", "desc"));
    assert_eq!(ids(&listed), vec!["on_z", "on_y"]);
    let listed = list_rules(&rules, &cats, &query(Some("W"), "follow_count", "desc"));
    assert_eq!(ids(&listed), vec!["on_w"]);
}

#[test]
fn without_a_category_every_rule_is_listed() {
    let rules = vec![rule("a", "gone", 1, 0, "1"), rule("b", "other", 2, 0, "2")];
    let listed = list_rules(&rules, &[], &query(None, "follow_count", "desc"));
    assert_eq!(ids(&listed), vec!["b", "a"]);
}

#[test]
fn filter_by_unknown_category_lists_only_rules_that_name_it() {
    let cats = vec![cat("X", None)];
    let rules = vec![rule("a", "X", 0, 0, "1"), rule("b", "ghost", 0, 0, "2")];
    let listed = list_rules(&rules, &cats, &query(Some("ghost"), "follow_count", "desc"));
    assert_eq!(ids(&listed), vec!["b"]);
    let listed = list_rules(&rules, &cats, &query(Some("none"), "follow_count", "desc"));
    assert!(listed.is_empty());
}

#[test]
fn sorts_by_follow_count_in_both_directions() {
    let rules = vec![
        rule("two", "c", 2, 9, "1"),
        rule("five", "c", 5, 1, "2"),
        rule("zero", "c", 0, 4, "3"),
    ];
    let listed = list_rules(&rules, &[], &query(None, "follow_count", "desc"));
    assert_eq!(ids(&listed), vec!["five", "two", "zero"]);
    let listed = list_rules(&rules, &[], &query(None, "follow_count", "asc"));
    assert_eq!(ids(&listed), vec!["zero", "two", "five"]);
}

#[test]
fn sorts_by_violate_count_in_both_directions() {
    let rules = vec![
        rule("two", "c", 2, 9, "1"),
        rule("five", "c", 5, 1, "2"),
        rule("zero", "c", 0, 4, "3"),
    ];
    let listed = list_rules(&rules, &[], &query(None, "violate_count", "desc"));
    assert_eq!(ids(&listed), vec!["two", "zero", "five"]);
    let listed = list_rules(&rules, &[], &query(None, "violate_count", "asc"));
    assert_eq!(ids(&listed), vec!["five", "zero", "two"]);
}

#[test]
fn unknown_sort_field_means_follow_count_and_unknown_direction_means_ascending() {
    let rules = vec![rule("a", "c", 1, 5, "1"), rule("b", "c", 3, 2, "2")];
    let listed = list_rules(&rules, &[], &query(None, "content", "desc"));
    assert_eq!(ids(&listed), vec!["b", "a"]);
    let listed = list_rules(&rules, &[], &query(None, "follow_count", "DESC"));
    assert_eq!(ids(&listed), vec!["a", "b"]);
    let listed = list_rules(&rules, &[], &query(None, "", ""));
    assert_eq!(ids(&listed), vec!["a", "b"]);
}

#[test]
fn equal_counts_come_newest_first_in_either_direction() {
    let rules = vec![
        rule("old", "c", 1, 0, "2024-01-01T00:00:00+00:00"),
        rule("new", "c", 1, 0, "2024-03-01T00:00:00+00:00"),
        rule("mid", "c", 1, 0, "2024-02-01T00:00:00+00:00"),
    ];
    let listed = list_rules(&rules, &[], &query(None, "follow_count", "desc"));
    assert_eq!(ids(&listed), vec!["new", "mid", "old"]);
    let listed = list_rules(&rules, &[], &query(None, "follow_count", "asc"));
    assert_eq!(ids(&listed), vec!["new", "mid", "old"]);
}

#[test]
fn rules_equal_in_count_and_time_keep_supplied_order() {
    let rules = vec![
        rule("first", "c", 1, 0, "same"),
        rule("second", "c", 1, 0, "same"),
        rule("top", "c", 2, 0, "same"),
        rule("third", "c", 1, 0, "same"),
    ];
    let listed = list_rules(&rules, &[], &query(None, "follow_count", "desc"));
    assert_eq!(ids(&listed), vec!["top", "first", "second", "third"]);
}

#[test]
fn listing_hands_back_whole_rules_and_leaves_input_alone() {
    let rules = vec![rule("a", "c", 1, 2, "2024")];
    let listed = list_rules(&rules, &[], &query(None, "follow_count", "desc"));
    assert_eq!(listed.len(), 1);
    assert_eq!(listed[0].id, "a");
    assert_eq!(listed[0].category_id, "c");
    assert_eq!(listed[0].content, "content of a");
    assert_eq!(listed[0].follow_count, 1);
    assert_eq!(listed[0].violate_count, 2);
    assert_eq!(listed[0].created_at, "2024");
    assert_eq!(listed[0].updated_at, "2024");
    assert_eq!(rules.len(), 1);
}

#[test]
fn text_order_is_the_order_of_bytes() {
    let s = |t: &str| t.to_string();
    assert!(text_before(&s("a"), &s("b")));
    assert!(!text_before(&s("b"), &s("a")));
    assert!(!text_before(&s("a"), &s("a")));
    assert!(text_before(&s(""), &s("a")));
    assert!(!text_before(&s("a"), &s("")));
    assert!(!text_before(&s(""), &s("")));
    assert!(text_before(&s("ab"), &s("abc")));
    assert!(!text_before(&s("abc"), &s("ab")));
    assert!(text_before(&s("Z"), &s("a")));
    assert!(text_before(&s("z"), &s("é")));
    assert!(text_before(&s("é"), &s("日")));
    assert!(text_before(&s("2024-01-01T00:00:00+00:00"), &s("2024-01-01T00:00:00.5+00:00")));
    for (a, b) in [("abc", "abd"), ("x", "é"), ("", "q"), ("same", "same"), ("b", "a")] {
        assert_eq!(text_before(&s(a), &s(b)), a < b);
    }
}

#[test]
fn create_rule_adds_a_fresh_uncounted_rule() {
    let mut rules = vec![rule("a", "c", 1, 0, "1")];
    let made = create_rule(
        &mut rules,
        CreateRuleRequest { category_id: "cat".to_string(), content: "be kind".to_string() },
    );
    assert_eq!(rules.len(), 2);
    assert_eq!(rules[0].id, "a");
    assert_eq!(rules[1].id, made.id);
    assert_eq!(made.category_id, "cat");
    assert_eq!(made.content, "be kind");
    assert_eq!(made.follow_count, 0);
    assert_eq!(made.violate_count, 0);
    assert_eq!(made.created_at, made.updated_at);
    assert_eq!(rules[1].created_at, made.created_at);
    assert_eq!(made.id.len(), 36);
}

#[test]
fn update_rule_at_replaces_content_and_stamp_only() {
    let mut rules = vec![rule("a", "c", 1, 2, "1"), rule("b", "c", 3, 4, "2")];
    let out = update_rule_at(
        &mut rules,
        "b",
        UpdateRuleRequest { content: "new text".to_string() },
        "NOW".to_string(),
    )
    .unwrap();
    assert_eq!(out.content, "new text");
    assert_eq!(out.updated_at, "NOW");
    assert_eq!(out.created_at, "2");
    assert_eq!(out.follow_count, 3);
    assert_eq!(out.violate_count, 4);
    assert_eq!(out.category_id, "c");
    assert_eq!(rules[1].content, "new text");
    assert_eq!(rules[1].updated_at, "NOW");
    assert_eq!(rules[0].content, "content of a");
    assert_eq!(rules[0].updated_at, "1");
}

#[test]
fn update_rule_reports_not_found_and_changes_nothing() {
    let mut rules = vec![rule("a", "c", 1, 2, "1")];
    let out = update_rule(&mut rules, "zz", UpdateRuleRequest { content: "x".to_string() });
    assert_eq!(out.err(), Some(Rejection::NotFound));
    assert_eq!(rules[0].content, "content of a");
    let out = update_rule_at(
        &mut rules,
        "zz",
        UpdateRuleRequest { content: "x".to_string() },
        "NOW".to_string(),
    );
    assert_eq!(out.err(), Some(Rejection::NotFound));
    assert_eq!(rules[0].updated_at, "1");
}

#[test]
fn update_rule_stamps_the_current_time() {
    let mut rules = vec![rule("a", "c", 1, 2, "1")];
    let out = update_rule(&mut rules, "a", UpdateRuleRequest { content: "x".to_string() }).unwrap();
    assert_eq!(out.content, "x");
    assert!(chrono::DateTime::parse_from_rfc3339(&out.updated_at).is_ok());
    assert_eq!(rules[0].updated_at, out.updated_at);
    assert_eq!(out.created_at, "1");
}

#[test]
fn delete_rule_removes_every_rule_with_the_id() {
    let mut rules = vec![
        rule("a", "c", 0, 0, "1"),
        rule("b", "c", 0, 0, "2"),
        rule("a", "d", 0, 0, "3"),
        rule("c", "c", 0, 0, "4"),
    ];
    assert_eq!(delete_rule(&mut rules, "a"), Ok(()));
    assert_eq!(ids(&rules), vec!["b", "c"]);
}

#[test]
fn delete_rule_reports_not_found_and_changes_nothing() {
    let mut rules = vec![rule("a", "c", 0, 0, "1")];
    assert_eq!(delete_rule(&mut rules, "b"), Err(Rejection::NotFound));
    assert_eq!(ids(&rules), vec!["a"]);
    let mut none: Vec<Rule> = Vec::new();
    assert_eq!(delete_rule(&mut none, "b"), Err(Rejection::NotFound));
}

#[test]
fn count_rule_at_raises_one_counter_by_one() {
    let mut rules = vec![rule("a", "c", 7, 3, "1"), rule("b", "c", 0, 0, "2")];
    let out = count_rule_at(&mut rules, "a", CountKind::Follow, "T1".to_string()).unwrap();
    assert_eq!((out.follow_count, out.violate_count), (8, 3));
    assert_eq!(out.updated_at, "T1");
    let out = count_rule_at(&mut rules, "a", CountKind::Violate, "T2".to_string()).unwrap();
    assert_eq!((out.follow_count, out.violate_count), (8, 4));
    assert_eq!(out.updated_at, "T2");
    assert_eq!(out.created_at, "1");
    assert_eq!((rules[0].follow_count, rules[0].violate_count), (8, 4));
    assert_eq!((rules[1].follow_count, rules[1].violate_count), (0, 0));
    let out = count_rule_at(&mut rules, "zz", CountKind::Follow, "T3".to_string());
    assert_eq!(out.err(), Some(Rejection::NotFound));
}

#[test]
fn count_rule_at_reaches_the_largest_count() {
    let mut rules = vec![rule("a", "c", u32::MAX - 1, 0, "1")];
    let out = count_rule_at(&mut rules, "a", CountKind::Follow, "T".to_string()).unwrap();
    assert_eq!(out.follow_count, u32::MAX);
}

#[test]
fn follow_rule_counts_and_writes_the_history_entry() {
    let mut rules = vec![rule("a", "c", 1, 1, "1")];
    let (changed, record) = follow_rule(&mut rules, "a").unwrap();
    assert_eq!((changed.follow_count, changed.violate_count), (2, 1));
    assert_eq!(rules[0].follow_count, 2);
    assert_eq!(rules[0].updated_at, changed.updated_at);
    assert!(chrono::DateTime::parse_from_rfc3339(&changed.updated_at).is_ok());
    assert_eq!(record.rule_id, "a");
    assert_eq!(record.record_type, "follow");
    assert_eq!(record.note, "");
    assert_eq!(record.id.len(), 36);
    assert!(chrono::DateTime::parse_from_rfc3339(&record.timestamp).is_ok());
}

#[test]
fn violate_rule_counts_and_writes_the_history_entry() {
    let mut rules = vec![rule("a", "c", 1, 1, "1")];
    let (changed, record) = violate_rule(&mut rules, "a").unwrap();
    assert_eq!((changed.follow_count, changed.violate_count), (1, 2));
    assert_eq!(rules[0].violate_count, 2);
    assert_eq!(record.rule_id, "a");
    assert_eq!(record.record_type, "violate");
    assert_eq!(record.note, "");
}

#[test]
fn counting_an_unknown_rule_is_not_found() {
    let mut rules = vec![rule("a", "c", 1, 1, "1")];
    assert_eq!(follow_rule(&mut rules, "b").err(), Some(Rejection::NotFound));
    assert_eq!(violate_rule(&mut rules, "b").err(), Some(Rejection::NotFound));
    assert_eq!((rules[0].follow_count, rules[0].violate_count), (1, 1));
    assert_eq!(rules[0].updated_at, "1");
}
