use mcpreg::registry::entry::ServerEntry;
use mcpreg::registry::index::build_index;
use mcpreg::registry::row::{json_columns, ServerRow};
use mcpreg::registry::store::{
    escape_like, exclude_negated, migration_statements, plan_search, plan_search_any, split_terms, suggest_pattern,
    SchemaColumns, SearchPlan,
};

fn entry(owner: &str, name: &str) -> ServerEntry {
    ServerEntry {
        id: None,
        owner: owner.into(),
        name: name.into(),
        version: "1.0.0".into(),
        description: "A test MCP server".into(),
        author: owner.into(),
        license: "MIT".into(),
        repository: String::new(),
        command: "npx".into(),
        args: vec![],
        transport: "stdio".into(),
        tools: vec![],
        resources: vec![],
        prompts: vec![],
        tags: vec![],
        env: vec![],
        homepage: String::new(),
        deprecated: false,
        deprecated_by: None,
        downloads: 0,
        stars: 0,
        created_at: None,
        updated_at: None,
    }
}

fn row(owner: &str, name: &str, tools: &str) -> ServerRow {
    ServerRow {
        id: 7,
        owner: owner.into(),
        name: name.into(),
        version: "2.0.0".into(),
        description: "d".into(),
        author: "a".into(),
        license: "MIT".into(),
        repository: "r".into(),
        command: "c".into(),
        args: "[\"--x\"]".into(),
        transport: "stdio".into(),
        tools: tools.into(),
        resources: "[]".into(),
        prompts: "not json".into(),
        tags: "[\"t\"]".into(),
        env: "{\"B\":\"2\",\"A\":\"1\"}".into(),
        homepage: String::new(),
        deprecated: 1,
        deprecated_by: String::new(),
        category: "Files".into(),
        downloads: 5,
        stars: 3,
        created_at: "2024-01-01".into(),
        updated_at: "2024-02-01".into(),
    }
}

#[test]
fn test_escape_like_function() {
    assert_eq!(escape_like("hello"), "hello");
    assert_eq!(escape_like("100%"), "100\\%");
    assert_eq!(escape_like("a_b"), "a\\_b");
    assert_eq!(escape_like("a\\b"), "a\\\\b");
    assert_eq!(escape_like("%_\\"), "\\%\\_\\\\");
}

#[test]
fn escape_like_keeps_unicode() {
    assert_eq!(escape_like("über_%"), "über\\_\\%");
}

#[test]
fn empty_query_lists_the_top_fifty() {
    assert!(matches!(plan_search("   "), SearchPlan::Top { limit: 50 }));
    assert!(matches!(plan_search(""), SearchPlan::Top { limit: 50 }));
}

#[test]
fn only_excluded_terms_filter_the_top_two_hundred() {
    match plan_search("-sqlite -postgres") {
        SearchPlan::TopExcluding { limit, negated } => {
            assert_eq!(limit, 200);
            assert_eq!(negated, vec!["sqlite".to_string(), "postgres".to_string()]);
        },
        _ => panic!("expected an exclusion plan"),
    }
}

#[test]
fn search_query_numbers_its_placeholders() {
    match plan_search("file -git") {
        SearchPlan::Query { sql, params } => {
            assert_eq!(params, vec!["%file%".to_string(), "%git%".to_string(), "file".to_string(), "%file%".to_string()]);
            assert!(sql.contains("(name LIKE ?1 ESCAPE '\\' OR description LIKE ?1 ESCAPE '\\'"));
            assert!(sql.contains("NOT (name LIKE ?2 ESCAPE '\\'"));
            assert!(sql.contains("CASE WHEN LOWER(name) = LOWER(?3) THEN 300 ELSE 0 END"));
            assert!(sql.contains("CASE WHEN name LIKE ?4 ESCAPE '\\' THEN 100 ELSE 0 END"));
            assert!(sql.ends_with("ORDER BY relevance DESC, downloads DESC\n             LIMIT 50"));
        },
        _ => panic!("expected a query"),
    }
}

#[test]
fn search_query_escapes_wildcards() {
    match plan_search("100%") {
        SearchPlan::Query { params, .. } => assert_eq!(params[0], "%100\\%%"),
        _ => panic!("expected a query"),
    }
}

#[test]
fn lone_dash_is_neither_required_nor_excluded() {
    let words = vec!["-".to_string(), "x".to_string(), "-y".to_string()];
    let (pos, neg) = split_terms(&words);
    assert_eq!(pos, vec!["x".to_string()]);
    assert_eq!(neg, vec!["y".to_string()]);
}

#[test]
fn exclusion_ignores_case_and_checks_tools_and_tags() {
    let mut a = entry("org", "alpha");
    a.tools = vec!["Read_File".into()];
    let mut b = entry("org", "beta");
    b.tags = vec!["Database".into()];
    let c = entry("org", "gamma");
    let kept = exclude_negated(vec![a, b, c], &vec!["read".to_string(), "DATA".to_string()]);
    assert_eq!(kept.len(), 1);
    assert_eq!(kept[0].name, "gamma");
}

#[test]
fn search_any_splits_on_pipes() {
    let (sql, params) = plan_search_any(" postgres | |sqlite ").unwrap();
    assert_eq!(params, vec!["%postgres%".to_string(), "%sqlite%".to_string()]);
    assert!(sql.contains("(name LIKE ?1 ESCAPE '\\' OR description LIKE ?1"));
    assert!(sql.contains(") OR (name LIKE ?2"));
    assert!(plan_search_any(" | ").is_none());
}

#[test]
fn autocompletion_pattern() {
    assert!(suggest_pattern("").is_none());
    assert_eq!(suggest_pattern("mod_").unwrap(), "mod\\_%");
}

#[test]
fn migration_of_an_old_schema() {
    let cols = SchemaColumns { category: false, prompts: true, tags: true, env: false, homepage: true, deprecated: false, stars: true };
    let st = migration_statements(&cols);
    assert_eq!(st.len(), 6);
    assert_eq!(st[0], "ALTER TABLE servers ADD COLUMN category TEXT NOT NULL DEFAULT ''");
    assert_eq!(st[2], "ALTER TABLE servers ADD COLUMN env TEXT NOT NULL DEFAULT '{}'");
    assert!(st[5].starts_with("CREATE TABLE IF NOT EXISTS server_versions"));
}

#[test]
fn migration_of_a_current_schema_only_ensures_the_history_table() {
    let cols = SchemaColumns { category: true, prompts: true, tags: true, env: true, homepage: true, deprecated: true, stars: true };
    assert_eq!(migration_statements(&cols).len(), 1);
}

#[test]
fn rows_become_entries() {
    let e = row("org", "fs", "[\"read\",\"write\"]").into_entry();
    assert_eq!(e.id, Some(7));
    assert_eq!(e.args, vec!["--x".to_string()]);
    assert_eq!(e.tools, vec!["read".to_string(), "write".to_string()]);
    assert!(e.prompts.is_empty());
    assert_eq!(e.env, vec![("A".to_string(), "1".to_string()), ("B".to_string(), "2".to_string())]);
    assert!(e.deprecated);
    assert_eq!(e.deprecated_by, None);
    assert_eq!(e.created_at.as_deref(), Some("2024-01-01"));
}

#[test]
fn stored_lists_read_back() {
    let mut e = entry("org", "fs");
    e.tools = vec!["a \"quoted\" tool".into(), "back\\slash".into()];
    e.env = vec![("KEY".into(), "v".into())];
    let cols = json_columns(&e).unwrap();
    let mut r = row("org", "fs", &cols.tools);
    r.env = cols.env.clone();
    let back = r.into_entry();
    assert_eq!(back.tools, e.tools);
    assert_eq!(back.env, e.env);
    assert_eq!(cols.args, "[]");
}

#[test]
fn index_groups_and_ranks_items() {
    let rows = vec![
        ("org".to_string(), "a".to_string(), "[\"read\",\"write\"]".to_string()),
        ("org".to_string(), "b".to_string(), "[\"write\"]".to_string()),
        ("org".to_string(), "c".to_string(), "broken".to_string()),
        ("x".to_string(), "d".to_string(), "[\"alpha\",\"write\"]".to_string()),
    ];
    let idx = build_index(&rows);
    assert_eq!(idx.len(), 3);
    assert_eq!(idx[0].0, "write");
    assert_eq!(idx[0].1, vec!["org/a".to_string(), "org/b".to_string(), "x/d".to_string()]);
    assert_eq!(idx[1].0, "alpha");
    assert_eq!(idx[2].0, "read");
}

#[test]
fn index_of_nothing_is_empty() {
    assert!(build_index(&vec![]).is_empty());
}

#[test]
fn stored_env_reads_back_as_the_same_map() {
    let mut e = entry("org", "fs");
    e.env = vec![("Z_KEY".into(), "with \"quotes\"".into()), ("A_KEY".into(), "1".into())];
    let cols = json_columns(&e).unwrap();
    let mut r = row("org", "fs", "[]");
    r.env = cols.env.clone();
    let back = r.into_entry();
    assert_eq!(back.env, vec![("A_KEY".to_string(), "1".to_string()), ("Z_KEY".to_string(), "with \"quotes\"".to_string())]);
}
