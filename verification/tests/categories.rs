use api::handlers::category::{
    create_category, delete_category, get_category_tree, get_children, move_category,
    move_category_at, update_category, update_category_at,
};
use api::models::{
    Category, CreateCategoryRequest, MoveCategoryRequest, Rejection, UpdateCategoryRequest,
};
use api::storage::{build_category_tree, get_all_descendant_category_ids, has_cycle};

fn cat(id: &str, parent: Option<&str>, sort_order: i32) -> Category {
    Category {
        id: id.to_string(),
        name: format!("name of {}", id),
        created_at: "created".to_string(),
        updated_at: "updated".to_string(),
        parent_id: parent.map(|p| p.to_string()),
        sort_order,
    }
}

fn ids(cats: &[Category]) -> Vec<String> {
    cats.iter().map(|c| c.id.clone()).collect()
}

fn family() -> Vec<Category> {
    vec![
        cat("A", None, 0),
        cat("B", Some("A"), 0),
        cat("C", Some("B"), 0),
        cat("R", None, 1),
        cat("S", Some("R"), 0),
    ]
}

#[test]
fn deleting_a_category_removes_its_descendants() {
    let mut cats = vec![cat("A", None, 0), cat("B", Some("A"), 0), cat("C", Some("B"), 0)];
    assert_eq!(delete_category(&mut cats, "A"), Ok(()));
    assert!(cats.is_empty());
}

#[test]
fn deleting_keeps_what_lies_outside_the_subtree_in_order() {
    let mut cats = family();
    assert_eq!(delete_category(&mut cats, "B"), Ok(()));
    assert_eq!(ids(&cats), vec!["A", "R", "S"]);
    assert_eq!(delete_category(&mut cats, "S"), Ok(()));
    assert_eq!(ids(&cats), vec!["A", "R"]);
}

#[test]
fn deleting_an_unknown_category_is_not_found_and_removes_nothing() {
    let mut cats = family();
    assert_eq!(delete_category(&mut cats, "nope"), Err(Rejection::NotFound));
    assert_eq!(ids(&cats), vec!["A", "B", "C", "R", "S"]);
    let mut dangling = vec![cat("X", Some("gone"), 0)];
    assert_eq!(delete_category(&mut dangling, "gone"), Err(Rejection::NotFound));
    assert_eq!(ids(&dangling), vec!["X"]);
}

#[test]
fn deleting_inside_a_stored_loop_removes_the_loop() {
    let mut cats = vec![cat("X", Some("Y"), 0), cat("Y", Some("X"), 0), cat("A", None, 0)];
    assert_eq!(delete_category(&mut cats, "X"), Ok(()));
    assert_eq!(ids(&cats), vec!["A"]);
}

#[test]
fn deleting_removes_every_category_that_repeats_a_removed_id() {
    let mut cats = vec![cat("A", None, 0), cat("A", None, 1), cat("B", None, 0)];
    assert_eq!(delete_category(&mut cats, "A"), Ok(()));
    assert_eq!(ids(&cats), vec!["B"]);
}

#[test]
fn children_are_the_categories_that_name_the_parent() {
    let cats = vec![
        cat("A", None, 0),
        cat("late", Some("A"), 9),
        cat("other", Some("B"), 0),
        cat("early", Some("A"), 1),
    ];
    assert_eq!(ids(&get_children(&cats, "A")), vec!["late", "early"]);
    assert_eq!(ids(&get_children(&cats, "B")), vec!["other"]);
    assert!(get_children(&cats, "late").is_empty());
    assert!(get_children(&cats, "").is_empty());
    let kids = get_children(&cats, "A");
    assert_eq!(kids[0].name, "name of late");
    assert_eq!(kids[0].sort_order, 9);
    assert_eq!(kids[0].parent_id.as_deref(), Some("A"));
}

#[test]
fn category_tree_is_the_built_forest() {
    let cats = family();
    let tree = get_category_tree(&cats);
    let built = build_category_tree(&cats);
    assert_eq!(tree.roots.len(), 2);
    assert_eq!(tree.roots.len(), built.len());
    assert_eq!(tree.roots[0].category.id, "A");
    assert_eq!(tree.roots[0].children[0].category.id, "B");
    assert_eq!(tree.roots[0].children[0].children[0].category.id, "C");
    assert_eq!(tree.roots[1].category.id, "R");
    assert_eq!(tree.roots[1].children[0].category.id, "S");
    let copy = tree.clone();
    assert_eq!(copy.roots[1].children[0].category.id, "S");
}

#[test]
fn create_category_appends_a_category_with_sort_key_zero() {
    let mut cats = vec![cat("A", None, 3)];
    let made = create_category(
        &mut cats,
        CreateCategoryRequest { name: "fresh".to_string(), parent_id: Some("A".to_string()) },
    );
    assert_eq!(cats.len(), 2);
    assert_eq!(cats[0].id, "A");
    assert_eq!(cats[1].id, made.id);
    assert_eq!(cats[1].name, "fresh");
    assert_eq!(made.name, "fresh");
    assert_eq!(made.parent_id.as_deref(), Some("A"));
    assert_eq!(made.sort_order, 0);
    assert_eq!(made.created_at, made.updated_at);
    assert_eq!(made.id.len(), 36);
    let root = create_category(
        &mut cats,
        CreateCategoryRequest { name: "top".to_string(), parent_id: None },
    );
    assert_eq!(root.parent_id, None);
    assert_eq!(cats.len(), 3);
}

#[test]
fn update_at_changes_name_and_keeps_what_the_request_leaves_out() {
    let mut cats = family();
    let out = update_category_at(
        &mut cats,
        "B",
        UpdateCategoryRequest { name: "renamed".to_string(), parent_id: None, sort_order: None },
        "NOW".to_string(),
    )
    .unwrap();
    assert_eq!(out.id, "B");
    assert_eq!(out.name, "renamed");
    assert_eq!(out.parent_id.as_deref(), Some("A"));
    assert_eq!(out.sort_order, 0);
    assert_eq!(out.created_at, "created");
    assert_eq!(out.updated_at, "NOW");
    assert_eq!(cats[1].name, "renamed");
    assert_eq!(cats[1].updated_at, "NOW");
    assert_eq!(cats[0].name, "name of A");
    assert_eq!(cats[2].updated_at, "updated");
    assert_eq!(ids(&cats), vec!["A", "B", "C", "R", "S"]);
}

#[test]
fn update_at_takes_parent_and_sort_key_where_given() {
    let mut cats = family();
    let out = update_category_at(
        &mut cats,
        "S",
        UpdateCategoryRequest {
            name: "s".to_string(),
            parent_id: Some("A".to_string()),
            sort_order: Some(-4),
        },
        "NOW".to_string(),
    )
    .unwrap();
    assert_eq!(out.parent_id.as_deref(), Some("A"));
    assert_eq!(out.sort_order, -4);
    assert_eq!(cats[4].parent_id.as_deref(), Some("A"));
    assert_eq!(cats[4].sort_order, -4);
}

#[test]
fn update_changes_the_first_of_two_categories_with_one_id() {
    let mut cats = vec![cat("A", None, 0), cat("A", None, 1)];
    update_category_at(
        &mut cats,
        "A",
        UpdateCategoryRequest { name: "x".to_string(), parent_id: None, sort_order: None },
        "NOW".to_string(),
    )
    .unwrap();
    assert_eq!(cats[0].name, "x");
    assert_eq!(cats[1].name, "name of A");
}

#[test]
fn update_of_an_unknown_category_is_not_found() {
    let mut cats = family();
    let req = || UpdateCategoryRequest { name: "x".to_string(), parent_id: None, sort_order: Some(1) };
    assert_eq!(update_category(&mut cats, "nope", req()).err(), Some(Rejection::NotFound));
    assert_eq!(
        update_category_at(&mut cats, "nope", req(), "NOW".to_string()).err(),
        Some(Rejection::NotFound)
    );
    assert!(cats.iter().all(|c| c.updated_at == "updated" && c.name.starts_with("name of")));
}

#[test]
fn update_stamps_the_current_time() {
    let mut cats = family();
    let out = update_category(
        &mut cats,
        "A",
        UpdateCategoryRequest { name: "x".to_string(), parent_id: None, sort_order: None },
    )
    .unwrap();
    assert!(chrono::DateTime::parse_from_rfc3339(&out.updated_at).is_ok());
    assert_eq!(cats[0].updated_at, out.updated_at);
    assert_eq!(out.created_at, "created");
}

#[test]
fn move_at_sets_parent_sort_key_and_stamp() {
    let mut cats = family();
    let out = move_category_at(
        &mut cats,
        "S",
        MoveCategoryRequest { parent_id: Some("C".to_string()), sort_order: 12 },
        "NOW".to_string(),
    )
    .unwrap();
    assert_eq!(out.id, "S");
    assert_eq!(out.name, "name of S");
    assert_eq!(out.parent_id.as_deref(), Some("C"));
    assert_eq!(out.sort_order, 12);
    assert_eq!(out.created_at, "created");
    assert_eq!(out.updated_at, "NOW");
    assert_eq!(cats[4].parent_id.as_deref(), Some("C"));
    assert_eq!(cats[4].sort_order, 12);
    assert_eq!(cats[3].updated_at, "updated");
}

#[test]
fn move_to_root_clears_the_parent() {
    let mut cats = family();
    let out = move_category_at(
        &mut cats,
        "C",
        MoveCategoryRequest { parent_id: None, sort_order: 2 },
        "NOW".to_string(),
    )
    .unwrap();
    assert_eq!(out.parent_id, None);
    assert_eq!(cats[2].parent_id, None);
    let roots = build_category_tree(&cats);
    let root_ids: Vec<&str> = roots.iter().map(|r| r.category.id.as_str()).collect();
    assert_eq!(root_ids, vec!["A", "R", "C"]);
}

#[test]
fn move_under_a_descendant_is_rejected_and_changes_nothing() {
    let mut cats = family();
    let req = || MoveCategoryRequest { parent_id: Some("C".to_string()), sort_order: 5 };
    assert_eq!(move_category(&mut cats, "A", req()).err(), Some(Rejection::CycleRejected));
    assert_eq!(
        move_category_at(&mut cats, "A", req(), "NOW".to_string()).err(),
        Some(Rejection::CycleRejected)
    );
    assert_eq!(cats[0].parent_id, None);
    assert_eq!(cats[0].sort_order, 0);
    assert_eq!(cats[0].updated_at, "updated");
}

#[test]
fn move_under_itself_is_rejected_before_the_category_is_looked_up() {
    let mut cats = family();
    let own = |id: &str| MoveCategoryRequest { parent_id: Some(id.to_string()), sort_order: 0 };
    assert_eq!(move_category(&mut cats, "B", own("B")).err(), Some(Rejection::CycleRejected));
    assert_eq!(move_category(&mut cats, "nope", own("nope")).err(), Some(Rejection::CycleRejected));
    assert_eq!(cats[1].parent_id.as_deref(), Some("A"));
}

#[test]
fn move_of_an_unknown_category_is_not_found() {
    let mut cats = family();
    let out = move_category(
        &mut cats,
        "nope",
        MoveCategoryRequest { parent_id: Some("A".to_string()), sort_order: 0 },
    );
    assert_eq!(out.err(), Some(Rejection::NotFound));
    let out = move_category(&mut cats, "nope", MoveCategoryRequest { parent_id: None, sort_order: 0 });
    assert_eq!(out.err(), Some(Rejection::NotFound));
    assert!(cats.iter().all(|c| c.updated_at == "updated"));
}

#[test]
fn move_stamps_the_current_time() {
    let mut cats = family();
    let out = move_category(
        &mut cats,
        "S",
        MoveCategoryRequest { parent_id: Some("A".to_string()), sort_order: 3 },
    )
    .unwrap();
    assert!(chrono::DateTime::parse_from_rfc3339(&out.updated_at).is_ok());
    assert_eq!(cats[4].updated_at, out.updated_at);
    assert_eq!(cats[4].parent_id.as_deref(), Some("A"));
}

#[test]
fn a_move_that_the_guard_lets_pass_leaves_the_whole_chain_in_the_forest() {
    let mut cats = family();
    assert!(!has_cycle(&cats, "A", Some("S")));
    move_category_at(
        &mut cats,
        "A",
        MoveCategoryRequest { parent_id: Some("S".to_string()), sort_order: 0 },
        "NOW".to_string(),
    )
    .unwrap();
    let roots = build_category_tree(&cats);
    assert_eq!(roots.len(), 1);
    let r = &roots[0];
    assert_eq!(r.category.id, "R");
    let s = &r.children[0];
    assert_eq!(s.category.id, "S");
    let a = &s.children[0];
    assert_eq!(a.category.id, "A");
    assert_eq!(a.children[0].category.id, "B");
    assert_eq!(a.children[0].children[0].category.id, "C");
    let mut all = get_all_descendant_category_ids(&cats, "R");
    all.sort();
    assert_eq!(all, vec!["A", "B", "C", "R", "S"]);
}

#[test]
fn a_move_under_a_missing_parent_drops_the_category_from_the_forest() {
    let mut cats = vec![cat("A", None, 0)];
    assert!(!has_cycle(&cats, "A", Some("Z")));
    move_category_at(
        &mut cats,
        "A",
        MoveCategoryRequest { parent_id: Some("Z".to_string()), sort_order: 0 },
        "NOW".to_string(),
    )
    .unwrap();
    assert!(build_category_tree(&cats).is_empty());
}
