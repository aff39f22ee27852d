use mcpreg::error::McpRegError;
use mcpreg::registry::browse::{category_groups, config_snippet, page_window, popular_tools, stats_tallies, trending};
use mcpreg::registry::graph::tool_graph;
use mcpreg::registry::compare::{bundle_reason, compare_servers, compatibility, dependents, grade, recommend_bundle, server_score};
use mcpreg::registry::entry::ServerEntry;
use mcpreg::registry::listing::{clamp_limit, diff_from_version, filter_index, page_bounds, page_offset, parse_refs, split_ref};
use mcpreg::registry::patch::{apply_patch, ServerPatch};
use mcpreg::registry::pattern::search_regex;
use mcpreg::registry::search::{search_response, SearchQuery};
use mcpreg::registry::validate::{check_publishable, validate_entry};
use mcpreg::why::{parse_server_ref, why_install, InstalledServer};

fn entry(owner: &str, name: &str) -> ServerEntry {
    ServerEntry {
        id: None,
        owner: owner.into(),
        name: name.into(),
        version: "1.0.0".into(),
        description: "A test MCP server".into(),
        author: owner.into(),
        license: "MIT".into(),
        repository: "https://github.com/x/y".into(),
        command: "npx".into(),
        args: vec![],
        transport: "stdio".into(),
        tools: vec![],
        resources: vec![],
        prompts: vec![],
        tags: vec![],
        env: vec![],
        homepage: String::new(),
        deprecated: false,
        deprecated_by: None,
        downloads: 0,
        stars: 0,
        created_at: None,
        updated_at: None,
    }
}

fn with_tools(owner: &str, name: &str, tools: &[&str], downloads: i64) -> ServerEntry {
    let mut e = entry(owner, name);
    e.tools = tools.iter().map(|t| t.to_string()).collect();
    e.downloads = downloads;
    e
}

fn empty_patch() -> ServerPatch {
    ServerPatch {
        description: None,
        version: None,
        author: None,
        license: None,
        repository: None,
        tools: None,
        resources: None,
        prompts: None,
        tags: None,
        transport: None,
        env: None,
        homepage: None,
        deprecated: None,
        deprecated_by: None,
    }
}

fn no_filters() -> SearchQuery {
    SearchQuery {
        q: None,
        category: None,
        sort: None,
        limit: None,
        min_downloads: None,
        tool: None,
        transport: None,
        author: None,
        owner: None,
        tag: None,
        min_tools: None,
        has_prompts: None,
        resource: None,
        exclude_deprecated: None,
        license: None,
        min_stars: None,
    }
}

fn validation_text(e: McpRegError) -> String {
    match e {
        McpRegError::Validation(m) => m,
        _ => panic!("expected a validation error"),
    }
}

#[test]
fn publish_requires_owner_name_command_and_semver() {
    assert!(check_publishable(&entry("org", "fs")).is_ok());
    assert_eq!(validation_text(check_publishable(&entry("", "fs")).unwrap_err()), "owner and name are required");
    let mut e = entry("org", "fs");
    e.version = "1".into();
    assert_eq!(validation_text(check_publishable(&e).unwrap_err()), "version must be in semver format (e.g. 1.0.0)");
    e.version = "1.0".into();
    e.transport = "grpc".into();
    assert_eq!(
        validation_text(check_publishable(&e).unwrap_err()),
        "transport 'grpc' is not recognized (expected: stdio, sse, streamable-http)"
    );
}

#[test]
fn validation_report_lists_errors_and_warnings() {
    let mut e = entry("org", "My Server");
    e.command = String::new();
    e.env = vec![("api_key".into(), "x".into())];
    e.homepage = "ftp://x".into();
    let r = validate_entry(&e);
    assert!(!r.valid);
    assert_eq!(r.errors, vec!["command is required".to_string()]);
    assert!(!r.warnings.iter().any(|w| w.starts_with("env key")));
    assert!(r.warnings.iter().any(|w| w.starts_with("name contains non-standard characters")));
    assert!(r.warnings.iter().any(|w| w == "homepage should be a valid HTTP(S) URL"));
}

#[test]
fn patch_updates_the_given_fields() {
    let mut p = empty_patch();
    p.description = Some("new".into());
    p.tools = Some(vec![Some("a".into()), None, Some("b".into())]);
    p.deprecated_by = Some(String::new());
    let mut e = entry("org", "fs");
    e.deprecated_by = Some("org/other".into());
    let (n, changed) = apply_patch(e, p).unwrap();
    assert_eq!(n.description, "new");
    assert_eq!(n.tools, vec!["a".to_string(), "b".to_string()]);
    assert_eq!(n.deprecated_by, None);
    assert_eq!(changed, vec!["description".to_string(), "tools".to_string(), "deprecated_by".to_string()]);
}

#[test]
fn patch_refusals() {
    assert_eq!(validation_text(apply_patch(entry("o", "n"), empty_patch()).unwrap_err()), "no valid fields to update");
    let mut p = empty_patch();
    p.version = Some("one".into());
    p.transport = Some("carrier-pigeon".into());
    assert_eq!(validation_text(apply_patch(entry("o", "n"), p).unwrap_err()), "version must be in semver format");
    let mut p = empty_patch();
    p.transport = Some("carrier-pigeon".into());
    assert_eq!(validation_text(apply_patch(entry("o", "n"), p).unwrap_err()), "transport 'carrier-pigeon' is not recognized");
}

#[test]
fn compatibility_scores_conflicts() {
    let mut a = with_tools("o", "a", &["read", "write", "list", "stat", "move"], 0);
    let mut b = with_tools("o", "b", &["read", "write", "list", "stat", "move", "copy"], 0);
    a.env = vec![("TOKEN".into(), "1".into())];
    b.env = vec![("TOKEN".into(), "2".into())];
    let r = compatibility(&a, &b);
    assert_eq!(r.score, 100 - 40 - 5);
    assert!(!r.compatible);
    assert_eq!(r.issues[0], "5 conflicting tool name(s): read, write, list, stat, move");
    assert_eq!(r.issues[1], "1 shared env variable(s): TOKEN — may need different values");
    assert_eq!(r.notes, vec!["Same transport: stdio".to_string()]);
    assert_eq!(r.combined_tool_count, 6);
    let back = compatibility(&b, &a);
    assert_eq!(back.score, r.score);
}

#[test]
fn compatibility_of_unrelated_servers() {
    let a = with_tools("o", "a", &["x"], 0);
    let mut b = with_tools("o", "b", &["y"], 0);
    b.transport = "sse".into();
    let r = compatibility(&a, &b);
    assert_eq!(r.score, 100);
    assert!(r.compatible);
    assert!(r.issues.is_empty());
    assert_eq!(r.notes[0], "Different transports: stdio vs sse — both supported by most clients");
}

#[test]
fn bundle_prefers_complementary_servers() {
    let seed = with_tools("o", "seed", &["read"], 0);
    let a = with_tools("o", "a", &["Read", "write"], 0);
    let b = with_tools("o", "b", &["x", "y", "z"], 0);
    let mut dep = with_tools("o", "old", &["q"], 0);
    dep.deprecated = true;
    let all = vec![seed.clone_entry(), a, b, dep];
    let cats = vec!["Files".to_string(), "Files".to_string(), "Other".to_string(), "Files".to_string()];
    let pops = vec![0i64, 0, 2, 0];
    let r = recommend_bundle(&seed, all, &cats, "files", &pops, None);
    assert_eq!(r.len(), 2);
    assert_eq!(r[0].0.name, "b");
    assert_eq!(r[0].1, 32);
    assert_eq!(r[1].0.name, "a");
    assert_eq!(r[1].1, 10 + 5 + 15);
    assert_eq!(bundle_reason(32), "highly complementary");
    assert_eq!(bundle_reason(30), "good addition");
    assert_eq!(bundle_reason(15), "related");
}

trait CloneEntry {
    fn clone_entry(&self) -> ServerEntry;
}

impl CloneEntry for ServerEntry {
    fn clone_entry(&self) -> ServerEntry {
        ServerEntry {
            id: self.id,
            owner: self.owner.clone(),
            name: self.name.clone(),
            version: self.version.clone(),
            description: self.description.clone(),
            author: self.author.clone(),
            license: self.license.clone(),
            repository: self.repository.clone(),
            command: self.command.clone(),
            args: self.args.clone(),
            transport: self.transport.clone(),
            tools: self.tools.clone(),
            resources: self.resources.clone(),
            prompts: self.prompts.clone(),
            tags: self.tags.clone(),
            env: self.env.clone(),
            homepage: self.homepage.clone(),
            deprecated: self.deprecated,
            deprecated_by: self.deprecated_by.clone(),
            downloads: self.downloads,
            stars: self.stars,
            created_at: self.created_at.clone(),
            updated_at: self.updated_at.clone(),
        }
    }
}

#[test]
fn score_of_a_complete_entry() {
    let mut e = with_tools("o", "s", &["a", "b"], 3);
    e.homepage = "https://x".into();
    e.resources = vec!["r".into()];
    e.prompts = vec!["p".into()];
    e.tags = vec!["t".into()];
    let s = server_score(&e);
    assert_eq!(s.score, 100);
    assert_eq!(s.percentage, 100);
    assert_eq!(s.grade, "A");
    assert_eq!(s.checks.len(), 12);
    let bare = server_score(&entry("o", "s"));
    assert_eq!(bare.score, 15 + 10 + 10 + 10 + 10);
    assert_eq!(bare.grade, "F");
    assert_eq!(grade(85), "B");
    assert_eq!(grade(60), "D");
}

#[test]
fn dependents_share_tools() {
    let target = with_tools("o", "t", &["a", "b", "c"], 0);
    let all = vec![
        with_tools("o", "t", &["a", "b", "c"], 0),
        with_tools("o", "one", &["a"], 0),
        with_tools("o", "two", &["c", "b", "z"], 0),
        with_tools("o", "none", &["z"], 0),
    ];
    let r = dependents(&target, all, None);
    assert_eq!(r.len(), 2);
    assert_eq!(r[0].0.name, "two");
    assert_eq!(r[0].1, vec!["b".to_string(), "c".to_string()]);
    assert_eq!(r[1].0.name, "one");
    let none = dependents(&entry("o", "t"), vec![with_tools("o", "x", &["a"], 0)], None);
    assert!(none.is_empty());
}

#[test]
fn comparison_of_two_servers() {
    let a = with_tools("o", "a", &["x", "y", "x"], 0);
    let b = with_tools("o", "b", &["y", "z"], 0);
    let c = compare_servers(&a, &b);
    assert_eq!(c.shared_tools, vec!["y".to_string()]);
    assert_eq!(c.only_a_tools, vec!["x".to_string()]);
    assert_eq!(c.only_b_tools, vec!["z".to_string()]);
    assert!(c.same_transport);
}

#[test]
fn limits_and_pages() {
    assert_eq!(clamp_limit(None, 10, 50), 10);
    assert_eq!(clamp_limit(Some(80), 10, 50), 50);
    assert_eq!(page_bounds(Some(0), Some(500)), (1, 100));
    assert_eq!(page_bounds(None, None), (1, 20));
    assert_eq!(page_offset(3, 20), 40);
    assert_eq!(page_offset(0, 20), 0);
    assert_eq!(page_window(vec![1, 2, 3, 4, 5], Some(2), Some(2)), vec![3, 4]);
    assert_eq!(page_window(vec![1, 2, 3], Some(9), Some(2)), Vec::<i32>::new());
    assert_eq!(page_window(vec![1, 2, 3], Some(0), None), vec![1, 2, 3]);
}

#[test]
fn index_listing_filter() {
    let idx = vec![
        ("read_file".to_string(), vec!["o/a".to_string()]),
        ("Read_Dir".to_string(), vec!["o/b".to_string()]),
        ("write".to_string(), vec!["o/c".to_string()]),
    ];
    let (items, total) = filter_index(idx, &Some("READ".to_string()), Some(1));
    assert_eq!(total, 2);
    assert_eq!(items.len(), 1);
    assert_eq!(items[0].0, "read_file");
}

#[test]
fn references_split_at_the_first_slash() {
    assert_eq!(split_ref("org/name/extra"), Some(("org".to_string(), "name/extra".to_string())));
    assert_eq!(split_ref("noslash"), None);
    assert_eq!(split_ref("/x"), Some((String::new(), "x".to_string())));
    let refs: Vec<String> = (0..51).map(|i| format!("o/{i}")).collect();
    assert_eq!(validation_text(parse_refs(&refs).unwrap_err()), "Maximum 50 servers per batch request");
    let ok = parse_refs(&vec!["a/b".to_string(), "bad".to_string()]).unwrap();
    assert_eq!(ok[0], Some(("a".to_string(), "b".to_string())));
    assert_eq!(ok[1], None);
}

#[test]
fn diff_base_version() {
    let versions = vec!["1.0.0".to_string(), "1.1.0".to_string()];
    assert_eq!(diff_from_version(&Some("1.0.0".into()), &versions), "1.0.0");
    assert_eq!(diff_from_version(&Some("9.9.9".into()), &versions), "unknown");
    assert_eq!(diff_from_version(&Some(String::new()), &versions), "unknown");
    assert_eq!(diff_from_version(&None, &versions), "unknown");
}

#[test]
fn trending_sorts_filters_and_limits() {
    let mut a = with_tools("o", "a", &[], 10);
    a.transport = "SSE".into();
    let b = with_tools("o", "b", &[], 30);
    let c = with_tools("o", "c", &[], 20);
    let servers = vec![(a, "Files".to_string()), (b, "Web".to_string()), (c, "Files & VCS".to_string())];
    let r = trending(servers, &Some("files".into()), &None, None);
    assert_eq!(r.len(), 2);
    assert_eq!(r[0].0.name, "c");
    assert_eq!(r[1].0.name, "a");
}

#[test]
fn categories_grouped_by_name() {
    let servers = vec![entry("o", "a"), entry("o", "b"), entry("p", "c")];
    let cats = vec!["Web".to_string(), "Data".to_string(), "Web".to_string()];
    let g = category_groups(&servers, &cats, &None);
    assert_eq!(g.len(), 2);
    assert_eq!(g[0].0, "Data");
    assert_eq!(g[1].1, vec!["o/a".to_string(), "p/c".to_string()]);
    let f = category_groups(&servers, &cats, &Some("WE".into()));
    assert_eq!(f.len(), 1);
}

#[test]
fn registry_tallies() {
    let mut a = with_tools("o", "a", &["x", "y"], 0);
    a.deprecated = true;
    let mut b = with_tools("o", "b", &["x"], 0);
    b.license = String::new();
    b.prompts = vec!["p".into()];
    let t = stats_tallies(&vec![a, b], &vec!["Web".to_string(), "Web".to_string()]);
    assert_eq!(t.total_tools, 3);
    assert_eq!(t.total_prompts, 1);
    assert_eq!(t.deprecated, 1);
    assert_eq!(t.categories.len(), 1);
    assert_eq!(t.categories[0].1.len(), 2);
    assert_eq!(t.licenses.len(), 1);
    assert_eq!(t.licenses[0].0, "MIT");
}

#[test]
fn snippet_of_a_server() {
    let mut e = entry("org", "fs");
    e.args = vec!["-y".into(), "pkg".into()];
    let s = config_snippet("org", &e);
    assert_eq!(s.key, "org-fs");
    assert!(!s.include_transport);
    assert!(!s.include_env);
    assert_eq!(
        s.instructions,
        "Add this to your claude_desktop_config.json under \"mcpServers\":\n\n\"org-fs\":\n  command: npx\n  args: [\"-y\", \"pkg\"]"
    );
}

#[test]
fn why_explains_a_candidate() {
    let mut target = with_tools("org", "git", &["log", "diff", "blame"], 12000);
    target.description = "git".into();
    let installed = vec![
        InstalledServer { owner: "org".into(), name: "fs".into() },
        InstalledServer { owner: "org".into(), name: "gone".into() },
    ];
    let cats = vec!["Files & VCS".to_string(), "Other".to_string()];
    let entries = vec![Some(with_tools("org", "fs", &["diff", "read"], 0)), None];
    let r = why_install(&target, "org", "git", "Files & VCS", &installed, &cats, &entries);
    assert!(!r.already_installed);
    assert_eq!(
        r.reasons,
        vec![
            "Same category (Files & VCS) as your installed: org/fs".to_string(),
            "Shares 1 tool(s) with org/fs: diff".to_string(),
            "Adds 2 new tool(s) you don't have: log, blame".to_string(),
            "Popular server with 12000 downloads".to_string(),
        ]
    );
    assert_eq!(r.new_tools, vec!["log".to_string(), "blame".to_string()]);
    assert!(parse_server_ref("nobody").is_err());
}

#[test]
fn regex_search_orders_by_downloads() {
    let all = vec![
        with_tools("o", "sqlite", &[], 5),
        with_tools("o", "postgres", &["query"], 50),
        with_tools("o", "files", &[], 500),
    ];
    let r = search_regex(all, "^(sqlite|postgres)$").unwrap();
    assert_eq!(r.len(), 2);
    assert_eq!(r[0].name, "postgres");
    let err = search_regex(vec![], "(unclosed").unwrap_err();
    assert!(validation_text(err).starts_with("Invalid regex: "));
}

#[test]
fn search_response_applies_filters_and_suggests() {
    let servers = vec![with_tools("o", "a", &["read"], 1), with_tools("o", "b", &["write"], 2)];
    let cats = vec!["Files".to_string(), "Files".to_string()];
    let mut p = no_filters();
    p.tool = Some("READ".into());
    let r = search_response(servers, &cats, &p, &[], &vec![]);
    assert_eq!(r.total, 1);
    assert_eq!(r.servers[0].name, "a");
    let mut q = no_filters();
    q.q = Some("filesytem".into());
    let names = vec!["org/filesystem".to_string()];
    let none = search_response(vec![], &vec![], &q, &names, &vec![None]);
    assert_eq!(none.total, 0);
    assert_eq!(none.suggestions, Some(vec!["org/filesystem".to_string()]));
}

#[test]
fn graph_links_servers_sharing_tools() {
    let servers = vec![
        with_tools("o", "a", &["x", "y"], 0),
        with_tools("o", "b", &["y"], 0),
        with_tools("o", "c", &["x", "y", "z"], 0),
        with_tools("o", "d", &[], 0),
    ];
    let (edges, nodes) = tool_graph(&servers, None, None);
    assert_eq!(edges.len(), 3);
    assert_eq!(edges[0], ("o/a".to_string(), "o/c".to_string(), vec!["x".to_string(), "y".to_string()]));
    assert_eq!(edges[1].0, "o/a");
    assert_eq!(edges[1].1, "o/b");
    assert_eq!(edges[2].0, "o/b");
    assert_eq!(nodes, vec!["o/a".to_string(), "o/b".to_string(), "o/c".to_string()]);
    let (few, _) = tool_graph(&servers, Some(2), Some(1));
    assert_eq!(few.len(), 1);
    assert_eq!(few[0].1, "o/c");
    let (none, no_nodes) = tool_graph(&servers, None, Some(0));
    assert!(none.is_empty() && no_nodes.is_empty());
}

#[test]
fn popular_tools_rank_by_downloads() {
    let all = vec![
        with_tools("o", "a", &["read", "write"], 100),
        with_tools("o", "b", &["write"], 50),
        with_tools("o", "c", &["Grep"], 500),
    ];
    let r = popular_tools(&all, &None, None);
    assert_eq!(r.len(), 3);
    assert_eq!(r[0].0, "Grep");
    assert_eq!(r[0].1, 500);
    assert_eq!(r[1].0, "write");
    assert_eq!(r[1].1, 150);
    assert_eq!(r[1].2, vec!["o/a".to_string(), "o/b".to_string()]);
    let filtered = popular_tools(&all, &Some("GR".into()), Some(5));
    assert_eq!(filtered.len(), 1);
    assert_eq!(popular_tools(&all, &None, Some(1)).len(), 1);
}

#[test]
fn patching_twice_is_patching_once() {
    let mut p = empty_patch();
    p.version = Some("2.0.0".into());
    p.tags = Some(vec![Some("db".into())]);
    let (once, _) = apply_patch(entry("o", "n"), p).unwrap();
    let mut p2 = empty_patch();
    p2.version = Some("2.0.0".into());
    p2.tags = Some(vec![Some("db".into())]);
    let (twice, _) = apply_patch(once.clone_entry(), p2).unwrap();
    assert_eq!(once.version, twice.version);
    assert_eq!(once.tags, twice.tags);
    assert_eq!(twice.owner, "o");
}

#[test]
fn accepted_patch_keeps_an_entry_publishable() {
    let e = entry("o", "n");
    assert!(check_publishable(&e).is_ok());
    let mut p = empty_patch();
    p.version = Some("3.1".into());
    p.transport = Some("sse".into());
    p.description = Some(String::new());
    let (n, _) = apply_patch(e, p).unwrap();
    assert!(check_publishable(&n).is_ok());
}

#[test]
fn validation_and_publish_agree() {
    let good = entry("o", "n");
    assert!(validate_entry(&good).valid && check_publishable(&good).is_ok());
    let mut bad = entry("o", "n");
    bad.transport = "grpc".into();
    assert!(!validate_entry(&bad).valid && check_publishable(&bad).is_err());
    let mut no_version = entry("o", "n");
    no_version.version = String::new();
    assert!(!validate_entry(&no_version).valid && check_publishable(&no_version).is_err());
}

#[test]
fn search_by_name_is_ordered_filtered_and_limited() {
    let servers = vec![
        with_tools("o", "Zeta", &["read"], 1),
        with_tools("o", "alpha", &["read"], 2),
        with_tools("o", "beta", &["write"], 3),
        with_tools("o", "Gamma", &["read"], 4),
    ];
    let cats = vec![String::new(); 4];
    let mut p = no_filters();
    p.tool = Some("read".into());
    p.sort = Some("name".into());
    p.limit = Some(2);
    let r = search_response(servers, &cats, &p, &[], &vec![]);
    let names: Vec<String> = r.servers.iter().map(|s| s.name.clone()).collect();
    assert_eq!(names, vec!["alpha", "Gamma"]);
    assert_eq!(r.total, 2);
}

#[test]
fn search_by_update_time_is_newest_first() {
    let mut a = entry("o", "a");
    a.updated_at = Some("2024-01-01".into());
    let mut b = entry("o", "b");
    b.updated_at = Some("2025-06-01".into());
    let c = entry("o", "c");
    let mut p = no_filters();
    p.sort = Some("updated".into());
    let r = search_response(vec![a, b, c], &vec![String::new(); 3], &p, &[], &vec![]);
    let names: Vec<String> = r.servers.iter().map(|s| s.name.clone()).collect();
    assert_eq!(names, vec!["b", "a", "c"]);
}

fn starred(name: &str, downloads: i64, stars: i64) -> ServerEntry {
    let mut e = with_tools("test", name, &[], downloads);
    e.stars = stars;
    e
}

fn min_stars_total(min_stars: i64) -> (usize, Vec<String>) {
    let servers = vec![starred("popular", 1000, 50), starred("niche", 100, 2), starred("zero-stars", 50, 0)];
    let mut p = no_filters();
    p.q = Some(String::new());
    p.min_stars = Some(min_stars);
    let r = search_response(servers, &vec![String::new(); 3], &p, &[], &vec![]);
    (r.total, r.servers.iter().map(|s| s.name.clone()).collect())
}

#[test]
fn test_search_with_min_stars() {
    let (total, names) = min_stars_total(10);
    assert_eq!(total, 1, "Only popular server has >= 10 stars");
    assert_eq!(names[0], "popular");
}

#[test]
fn test_search_with_min_stars_zero() {
    assert_eq!(min_stars_total(0).0, 3, "min_stars=0 should return all");
}

#[test]
fn test_search_with_min_stars_exact_match() {
    assert_eq!(min_stars_total(2).0, 2, "popular (50) and niche (2) should match");
}

#[test]
fn test_search_min_stars_too_high() {
    assert_eq!(min_stars_total(9999).0, 0);
}
