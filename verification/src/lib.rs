//! Categories that form a forest, and rules that belong to them.
//!
//! A collection of categories is a flat list in which each category may name
//! another as its parent. This library turns such a list into its forest,
//! decides whether a move would close a loop of parent references, computes
//! the descendants of a category, and lists, changes and counts rules. The
//! functions work on values handed to them, on every collection, whether or
//! not it is a sound hierarchy, and are verified against the model stated
//! here. Not verified are the two calls that draw a fresh identifier and read
//! the clock, in [`storage::create`].
//!
//! - [`models`]: the entries and their mathematical values.
//! - [`hierarchy`], [`ancestry`], [`forest`], [`ordering`], [`listing`],
//!   [`text_order`]: the model.
//! - [`storage`], [`handlers`]: the operations.
//! - [`laws`]: what holds of the operations taken together.

pub mod ancestry;
pub mod forest;
pub mod handlers;
pub mod hierarchy;
pub mod laws;
pub mod listing;
pub mod models;
pub mod ordering;
pub mod storage;
pub mod text_order;
