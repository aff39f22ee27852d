//! The query parameters and request bodies the registry's routes accept.

use vstd::prelude::*;

verus! {

/// A result limit.
pub struct LimitQuery {
    pub limit: Option<usize>,
}

/// A page of a listing.
pub struct PaginationQuery {
    pub page: Option<usize>,
    pub per_page: Option<usize>,
}

/// A category filter with a page.
pub struct CategoryQuery {
    pub category: Option<String>,
    pub page: Option<usize>,
    pub per_page: Option<usize>,
}

/// A name filter with a limit, for the tool, tag, resource and prompt
/// indexes.
pub struct ToolsQuery {
    pub q: Option<String>,
    pub limit: Option<usize>,
}

/// A name prefix to complete, with a limit.
pub struct SuggestQuery {
    pub q: Option<String>,
    pub limit: Option<usize>,
}

/// Several `owner/name` references.
pub struct BatchRequest {
    pub servers: Vec<String>,
}

/// A limit on similar or dependent servers.
pub struct SimilarQuery {
    pub limit: Option<usize>,
}

/// The version a diff starts from.
pub struct DiffQuery {
    pub from: Option<String>,
}

/// Trending servers: a limit and optional category and transport filters.
pub struct TrendingQuery {
    pub limit: Option<usize>,
    pub category: Option<String>,
    pub transport: Option<String>,
}

/// The tool-sharing graph: the least number of shared tools for an edge,
/// and a limit on edges.
pub struct GraphQuery {
    pub min_shared: Option<usize>,
    pub limit: Option<usize>,
}

/// A random server, optionally from a category.
pub struct RandomQuery {
    pub category: Option<String>,
}

/// A name filter with a limit, for the popular tools.
pub struct ToolIndexQuery {
    pub q: Option<String>,
    pub limit: Option<usize>,
}

/// A limit on changelog entries.
pub struct ChangelogQuery {
    pub limit: Option<usize>,
}

/// A limit on recently updated servers.
pub struct RecentlyUpdatedQuery {
    pub limit: Option<usize>,
}

} // verus!
