//! Verified core of an MCP server registry: fuzzy name matching, version
//! ordering, search and filtering logic, and validation of published entries.

pub mod config;
pub mod semver;
pub mod text;
pub mod error;
pub mod fuzzy;
pub mod jaro;
pub mod order;
pub mod registry;
pub mod why;
