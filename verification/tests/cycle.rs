use api::models::Category;
use api::storage::has_cycle;

fn cat(id: &str, parent: Option<&str>) -> Category {
    Category {
        id: id.to_string(),
        name: id.to_string(),
        created_at: "t".to_string(),
        updated_at: "t".to_string(),
        parent_id: parent.map(|p| p.to_string()),
        sort_order: 0,
    }
}

#[test]
fn moving_under_own_child_is_a_cycle() {
    let cats = vec![cat("A", None), cat("B", Some("A"))];
    assert!(has_cycle(&cats, "A", Some("B")));
}

#[test]
fn moving_under_a_deeper_descendant_is_a_cycle() {
    let cats = vec![cat("A", None), cat("B", Some("A")), cat("C", Some("B")), cat("D", Some("C"))];
    assert!(has_cycle(&cats, "A", Some("D")));
    assert!(has_cycle(&cats, "B", Some("D")));
    assert!(!has_cycle(&cats, "D", Some("A")));
    assert!(!has_cycle(&cats, "D", Some("B")));
}

#[test]
fn self_parenting_is_always_a_cycle() {
    let cats = vec![cat("A", None), cat("B", Some("A"))];
    assert!(has_cycle(&cats, "A", Some("A")));
    assert!(has_cycle(&cats, "B", Some("B")));
    assert!(has_cycle(&cats, "unknown", Some("unknown")));
    assert!(has_cycle(&[], "A", Some("A")));
}

#[test]
fn making_a_root_is_never_a_cycle() {
    let cats = vec![cat("A", None), cat("B", Some("A")), cat("X", Some("Y")), cat("Y", Some("X"))];
    assert!(!has_cycle(&cats, "A", None));
    assert!(!has_cycle(&cats, "B", None));
    assert!(!has_cycle(&cats, "X", None));
    assert!(!has_cycle(&cats, "unknown", None));
}

#[test]
fn moving_under_a_sibling_or_an_unrelated_category_is_no_cycle() {
    let cats = vec![cat("A", None), cat("B", Some("A")), cat("C", Some("A")), cat("R", None)];
    assert!(!has_cycle(&cats, "B", Some("C")));
    assert!(!has_cycle(&cats, "B", Some("R")));
    assert!(!has_cycle(&cats, "A", Some("R")));
}

#[test]
fn missing_new_parent_is_no_cycle() {
    let cats = vec![cat("A", None)];
    assert!(!has_cycle(&cats, "A", Some("nowhere")));
}

#[test]
fn dangling_reference_above_new_parent_ends_the_walk() {
    let cats = vec![cat("A", None), cat("B", Some("gone"))];
    assert!(!has_cycle(&cats, "A", Some("B")));
}

#[test]
fn walk_ends_on_a_stored_loop() {
    let cats = vec![cat("X", Some("Y")), cat("Y", Some("Z")), cat("Z", Some("X")), cat("A", None)];
    assert!(!has_cycle(&cats, "A", Some("X")));
    assert!(has_cycle(&cats, "Y", Some("X")));
    assert!(has_cycle(&cats, "Z", Some("X")));
    assert!(has_cycle(&cats, "X", Some("Y")));
}

#[test]
fn walk_ends_on_a_stored_self_reference() {
    let cats = vec![cat("S", Some("S")), cat("A", None)];
    assert!(!has_cycle(&cats, "A", Some("S")));
    assert!(has_cycle(&cats, "S", Some("S")));
}

#[test]
fn walk_follows_the_first_of_two_categories_with_one_id() {
    let cats = vec![cat("P", None), cat("P", Some("A")), cat("A", None)];
    assert!(!has_cycle(&cats, "A", Some("P")));
    let cats = vec![cat("P", Some("A")), cat("P", None), cat("A", None)];
    assert!(has_cycle(&cats, "A", Some("P")));
}

#[test]
fn ancestor_at_the_last_step_of_the_longest_walk_is_found() {
    let n = 30;
    let mut cats = vec![cat("n0", None)];
    for i in 1..n {
        cats.push(cat(&format!("n{}", i), Some(&format!("n{}", i - 1))));
    }
    assert!(has_cycle(&cats, "n0", Some(&format!("n{}", n - 1))));
    assert!(!has_cycle(&cats, &format!("n{}", n - 1), Some("n0")));
}
