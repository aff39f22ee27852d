//! The registry's data model and the logic its HTTP routes and database
//! queries apply to server entries.

pub mod entry;
pub mod search;
pub mod validate;
pub mod patch;
pub mod store;
pub mod row;
pub mod index;
pub mod compare;
pub mod listing;
pub mod pattern;
pub mod browse;
pub mod queries;
pub mod ranking;
pub mod graph;
