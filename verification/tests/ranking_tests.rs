use mcpreg::registry::entry::ServerEntry;
use mcpreg::registry::ranking::{long_words, query_tokens, similarity_counts, similarity_table, weighted_points};

fn server(owner: &str, name: &str, description: &str, tools: &[&str]) -> ServerEntry {
    ServerEntry {
        id: None,
        owner: owner.into(),
        name: name.into(),
        version: "1.0.0".into(),
        description: description.into(),
        author: String::new(),
        license: String::new(),
        repository: String::new(),
        command: "npx".into(),
        args: vec![],
        transport: "stdio".into(),
        tools: tools.iter().map(|t| t.to_string()).collect(),
        resources: vec![],
        prompts: vec![],
        tags: vec![],
        env: vec![],
        homepage: String::new(),
        deprecated: false,
        deprecated_by: None,
        downloads: 0,
        stars: 0,
        created_at: None,
        updated_at: None,
    }
}

#[test]
fn long_words_keep_words_over_three_bytes_once() {
    let words = long_words("The Quick quick fox jumps OVER ÄÄ");
    assert_eq!(words, vec!["quick", "jumps", "over", "ää"]);
}

#[test]
fn long_words_of_empty_description() {
    assert!(long_words("").is_empty());
    assert!(long_words("a an the").is_empty());
}

#[test]
fn similarity_counts_shared_and_union() {
    let target = server("o", "t", "Reads files from disk", &["read", "write", "list"]);
    let other = server("o", "s", "Writes files to disk quickly", &["write", "list", "stat", "stat"]);
    let target_words = long_words(&target.description);
    let c = similarity_counts(&target, &target_words, "Files", &other, "Files");
    assert_eq!(c.shared_tools, 2);
    assert_eq!(c.all_tools, 4);
    assert!(c.same_category);
    // {reads, files, from, disk} and {writes, files, disk, quickly}.
    assert_eq!(c.shared_words, 2);
    assert_eq!(c.all_words, 6);
}

#[test]
fn similarity_counts_category_is_exact() {
    let target = server("o", "t", "", &[]);
    let other = server("o", "s", "", &[]);
    let c = similarity_counts(&target, &vec![], "Files", &other, "files");
    assert!(!c.same_category);
    assert_eq!(c.all_tools, 0);
    assert_eq!(c.all_words, 0);
}

#[test]
fn similarity_table_leaves_out_the_target() {
    let target = server("o", "t", "alpha", &["x"]);
    let all = vec![server("o", "a", "", &["x"]), server("o", "t", "alpha", &["x"]), server("p", "t", "", &[])];
    let cats = vec!["A".to_string(), "B".to_string(), "C".to_string()];
    let table = similarity_table(&target, "B", all, &cats);
    let names: Vec<String> = table.iter().map(|(s, _)| s.full_name()).collect();
    assert_eq!(names, vec!["o/a", "p/t"]);
    assert_eq!(table[0].1.shared_tools, 1);
    assert!(!table[0].1.same_category);
}

#[test]
fn query_tokens_lowercase_words() {
    assert_eq!(query_tokens("  Hello   WORLD "), vec!["hello", "world"]);
    assert!(query_tokens("   ").is_empty());
}

#[test]
fn weighted_points_per_field() {
    let mut s = server("mcp", "postgres", "A PostgreSQL database server", &["query"]);
    s.tags = vec!["db".into()];
    let tokens = query_tokens("postgres DB");
    // "postgres": exact name 20 + description 4; "db": tags 2.
    assert_eq!(weighted_points(&s, "Database", &tokens), 26);
}

#[test]
fn weighted_points_name_part_and_category() {
    let s = server("mcp", "sqlite-server", "", &["run_query"]);
    let tokens = query_tokens("sqlite query data");
    // "sqlite": name contains 10; "query": tools 3; "data": category 1.
    assert_eq!(weighted_points(&s, "Database", &tokens), 14);
    assert_eq!(weighted_points(&s, "Database", &vec![]), 0);
}

#[test]
fn overlap_counts_are_symmetric() {
    let a = server("o", "a", "Reads files from disk", &["read", "list", "read"]);
    let b = server("o", "b", "Lists files on disk", &["list", "stat"]);
    let ab = similarity_counts(&a, &long_words(&a.description), "X", &b, "Y");
    let ba = similarity_counts(&b, &long_words(&b.description), "Y", &a, "X");
    assert_eq!((ab.shared_tools, ab.all_tools), (ba.shared_tools, ba.all_tools));
    assert_eq!((ab.shared_words, ab.all_words), (ba.shared_words, ba.all_words));
    assert_eq!((ab.shared_tools, ab.all_tools), (1, 3));
}
