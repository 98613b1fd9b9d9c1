pub mod changes;
pub mod forest;
pub mod listing;
