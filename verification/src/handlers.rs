pub mod category;
pub mod rule;
