//! The library's error values and their messages.

use vstd::prelude::*;
use crate::text::cat;

verus! {

/// Errors the registry logic reports; each carries a human-readable message.
#[derive(Debug)]
pub enum McpRegError {
    Config(String),
    Registry(String),
    NotFound(String),
    Auth(String),
    Manifest(String),
    Validation(String),
}

/// The display text of an error: a kind prefix and the message.
pub open spec fn error_text(e: McpRegError) -> Seq<char> {
    match e {
        McpRegError::Config(m) => "Config error: "@ + m@,
        McpRegError::Registry(m) => "Registry error: "@ + m@,
        McpRegError::NotFound(m) => "Not found: "@ + m@,
        McpRegError::Auth(m) => "Auth error: "@ + m@,
        McpRegError::Manifest(m) => "Manifest error: "@ + m@,
        McpRegError::Validation(m) => "Validation error: "@ + m@,
    }
}

impl McpRegError {
    /// The display text: the kind of error, then its message.
    pub fn message(&self) -> (r: String)
        ensures
            r@ == error_text(*self),
    {
        match self {
            McpRegError::Config(m) => cat("Config error: ", m.as_str()),
            McpRegError::Registry(m) => cat("Registry error: ", m.as_str()),
            McpRegError::NotFound(m) => cat("Not found: ", m.as_str()),
            McpRegError::Auth(m) => cat("Auth error: ", m.as_str()),
            McpRegError::Manifest(m) => cat("Manifest error: ", m.as_str()),
            McpRegError::Validation(m) => cat("Validation error: ", m.as_str()),
        }
    }
}

} // verus!
