use crate::models::{Category, CategoryView, CountRecord, CountRecordView, Rule, RuleView};
use vstd::prelude::*;

verus! {

/// One of the sixteen lower-case hexadecimal digits.
pub open spec fn is_hex_digit(c: char) -> bool {
    c == '0' || c == '1' || c == '2' || c == '3' || c == '4' || c == '5' || c == '6' || c == '7'
        || c == '8' || c == '9' || c == 'a' || c == 'b' || c == 'c' || c == 'd' || c == 'e' || c
        == 'f'
}

/// The text has the shape of a hyphenated identifier: thirty-six characters,
/// hyphens at the four places that split it into groups of eight, four, four,
/// four and twelve, and lower-case hexadecimal digits everywhere else.
pub open spec fn is_hyphenated_id(s: Seq<char>) -> bool {
    &&& s.len() == 36
    &&& forall|i: int|
        0 <= i < 36 ==> if i == 8 || i == 13 || i == 18 || i == 23 {
            #[trigger] s[i] == '-'
        } else {
            is_hex_digit(s[i])
        }
}

/// A fresh random identifier: `uuid::Uuid::new_v4`, written out by the
/// `to_string` that `Uuid`'s `Display` gives it. Not verified. Which
/// identifier comes back is left open; the contract claims only the
/// hyphenated lower-case shape in which that crate prints every `Uuid`. The
/// call fails only where the operating system can supply no random bytes.
#[verifier::external_body]
fn generate_id() -> (id: String)
    ensures
        is_hyphenated_id(id@),
{
    uuid::Uuid::new_v4().to_string()
}

/// The current time as text: `chrono::Utc::now` followed by
/// `DateTime::to_rfc3339`. Not verified; nothing is claimed of the text. The
/// call fails only where the system clock stands before 1970.
#[verifier::external_body]
pub(crate) fn timestamp_now() -> (now: String)
{
    chrono::Utc::now().to_rfc3339()
}

/// The category that has the given identifier, was created and last changed
/// at `now`, and holds the given name, parent and sort key.
pub fn category_created_at(
    id: String,
    now: String,
    name: String,
    parent_id: Option<String>,
    sort_order: i32,
) -> (category: Category)
    ensures
        category@ == (CategoryView {
            id: id@,
            name: name@,
            created_at: now@,
            updated_at: now@,
            parent_id: parent_id.deep_view(),
            sort_order: sort_order,
        }),
{
    Category { id, name, created_at: now.clone(), updated_at: now, parent_id, sort_order }
}

/// A new category under a fresh identifier, stamped with the current time.
pub fn create_category(name: String, parent_id: Option<String>, sort_order: i32) -> (category:
    Category)
    ensures
        is_hyphenated_id(category@.id),
        category@.name == name@,
        category@.parent_id == parent_id.deep_view(),
        category@.sort_order == sort_order,
        category@.created_at == category@.updated_at,
{
    let now = timestamp_now();
    category_created_at(generate_id(), now, name, parent_id, sort_order)
}

/// The rule that has the given identifier, was created and last changed at
/// `now`, belongs to the given category and has never been counted.
pub fn rule_created_at(id: String, now: String, category_id: String, content: String) -> (rule: Rule)
    ensures
        rule@ == (RuleView {
            id: id@,
            category_id: category_id@,
            content: content@,
            follow_count: 0,
            violate_count: 0,
            created_at: now@,
            updated_at: now@,
        }),
{
    Rule {
        id,
        category_id,
        content,
        follow_count: 0,
        violate_count: 0,
        created_at: now.clone(),
        updated_at: now,
    }
}

/// A new rule under a fresh identifier, stamped with the current time, both
/// counters at zero.
pub fn create_rule(category_id: String, content: String) -> (rule: Rule)
    ensures
        is_hyphenated_id(rule@.id),
        rule@.category_id == category_id@,
        rule@.content == content@,
        rule@.follow_count == 0,
        rule@.violate_count == 0,
        rule@.created_at == rule@.updated_at,
{
    let now = timestamp_now();
    rule_created_at(generate_id(), now, category_id, content)
}

/// The history entry with the given identifier and time.
pub fn record_created_at(
    id: String,
    now: String,
    rule_id: String,
    record_type: String,
    note: String,
) -> (record: CountRecord)
    ensures
        record@ == (CountRecordView {
            id: id@,
            rule_id: rule_id@,
            record_type: record_type@,
            timestamp: now@,
            note: note@,
        }),
{
    CountRecord { id, rule_id, record_type, timestamp: now, note }
}

/// A new history entry under a fresh identifier, stamped with the current
/// time.
pub fn create_record(rule_id: String, record_type: String, note: String) -> (record: CountRecord)
    ensures
        is_hyphenated_id(record@.id),
        record@.rule_id == rule_id@,
        record@.record_type == record_type@,
        record@.note == note@,
{
    let id = generate_id();
    record_created_at(id, timestamp_now(), rule_id, record_type, note)
}

} // verus!
