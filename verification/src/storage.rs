pub mod create;
pub mod cycle;
pub mod descendants;
pub mod lookup;
pub mod tree;

pub use create::{create_category, create_record, create_rule};
pub use cycle::has_cycle;
pub use descendants::get_all_descendant_category_ids;
pub use tree::build_category_tree;
