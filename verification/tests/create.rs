use api::models::{Category, CountRecord, Rule};
use api::storage::create::{category_created_at, record_created_at, rule_created_at};
use api::storage::{create_category, create_record, create_rule};

fn has_id_shape(id: &str) -> bool {
    let chars: Vec<char> = id.chars().collect();
    chars.len() == 36
        && chars.iter().enumerate().all(|(i, c)| {
            if i == 8 || i == 13 || i == 18 || i == 23 {
                *c == '-'
            } else {
                matches!(c, '0'..='9' | 'a'..='f')
            }
        })
}

#[test]
fn created_category_holds_what_was_given() {
    let c: Category = create_category("Work".to_string(), Some("parent-1".to_string()), 7);
    assert_eq!(c.name, "Work");
    assert_eq!(c.parent_id.as_deref(), Some("parent-1"));
    assert_eq!(c.sort_order, 7);
    assert_eq!(c.created_at, c.updated_at);
    assert!(has_id_shape(&c.id));
    assert!(chrono::DateTime::parse_from_rfc3339(&c.created_at).is_ok());
    let root = create_category("Top".to_string(), None, -1);
    assert_eq!(root.parent_id, None);
    assert_eq!(root.sort_order, -1);
}

#[test]
fn created_ids_have_the_hyphenated_shape_and_differ() {
    let a = create_category("a".to_string(), None, 0);
    let b = create_category("a".to_string(), None, 0);
    let r = create_rule("c".to_string(), "x".to_string());
    let h = create_record("r".to_string(), "follow".to_string(), String::new());
    for id in [&a.id, &b.id, &r.id, &h.id] {
        assert!(has_id_shape(id), "{}", id);
        assert!(uuid::Uuid::parse_str(id).is_ok());
    }
    assert_ne!(a.id, b.id);
    assert_ne!(a.id, r.id);
    assert_ne!(r.id, h.id);
    assert_eq!(uuid::Uuid::parse_str(&a.id).unwrap().get_version_num(), 4);
}

#[test]
fn created_rule_starts_uncounted() {
    let r: Rule = create_rule("cat-9".to_string(), "no phones".to_string());
    assert_eq!(r.category_id, "cat-9");
    assert_eq!(r.content, "no phones");
    assert_eq!(r.follow_count, 0);
    assert_eq!(r.violate_count, 0);
    assert_eq!(r.created_at, r.updated_at);
    assert!(chrono::DateTime::parse_from_rfc3339(&r.created_at).is_ok());
}

#[test]
fn created_record_holds_what_was_given() {
    let h: CountRecord = create_record("rule-3".to_string(), "violate".to_string(), "late".to_string());
    assert_eq!(h.rule_id, "rule-3");
    assert_eq!(h.record_type, "violate");
    assert_eq!(h.note, "late");
    assert!(chrono::DateTime::parse_from_rfc3339(&h.timestamp).is_ok());
    assert!(h.timestamp.ends_with("+00:00"));
}

#[test]
fn entries_built_from_given_id_and_time_hold_exactly_those() {
    let c = category_created_at(
        "id-1".to_string(),
        "T".to_string(),
        "n".to_string(),
        Some("p".to_string()),
        3,
    );
    assert_eq!(
        (c.id.as_str(), c.name.as_str(), c.created_at.as_str(), c.updated_at.as_str()),
        ("id-1", "n", "T", "T")
    );
    assert_eq!(c.parent_id.as_deref(), Some("p"));
    assert_eq!(c.sort_order, 3);
    let r = rule_created_at("id-2".to_string(), "T2".to_string(), "c".to_string(), "text".to_string());
    assert_eq!((r.id.as_str(), r.category_id.as_str(), r.content.as_str()), ("id-2", "c", "text"));
    assert_eq!((r.follow_count, r.violate_count), (0, 0));
    assert_eq!((r.created_at.as_str(), r.updated_at.as_str()), ("T2", "T2"));
    let h = record_created_at(
        "id-3".to_string(),
        "T3".to_string(),
        "r".to_string(),
        "follow".to_string(),
        "note".to_string(),
    );
    assert_eq!(
        (h.id.as_str(), h.rule_id.as_str(), h.record_type.as_str(), h.timestamp.as_str(), h.note.as_str()),
        ("id-3", "r", "follow", "T3", "note")
    );
}

#[test]
fn clones_equal_what_was_cloned() {
    let c = category_created_at("i".to_string(), "T".to_string(), "n".to_string(), None, 1);
    let d = c.clone();
    assert_eq!((d.id, d.name, d.created_at, d.updated_at, d.parent_id, d.sort_order),
        (c.id, c.name, c.created_at, c.updated_at, c.parent_id, c.sort_order));
    let r = rule_created_at("i".to_string(), "T".to_string(), "c".to_string(), "x".to_string());
    let s = r.clone();
    assert_eq!((s.id, s.content, s.follow_count), (r.id, r.content, r.follow_count));
    let h = record_created_at("i".to_string(), "T".to_string(), "r".to_string(), "k".to_string(), "n".to_string());
    let g = h.clone();
    assert_eq!((g.id, g.rule_id, g.record_type, g.timestamp, g.note),
        (h.id, h.rule_id, h.record_type, h.timestamp, h.note));
}
