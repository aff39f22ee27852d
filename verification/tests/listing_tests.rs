use mcpreg::error::McpRegError;
use mcpreg::registry::entry::ServerEntry;
use mcpreg::registry::listing::{check_import_size, deprecated_servers, group_by_transport, import_entry_ok};

fn server(owner: &str, name: &str, deprecated: bool) -> ServerEntry {
    ServerEntry {
        id: None,
        owner: owner.into(),
        name: name.into(),
        version: "1.0.0".into(),
        description: String::new(),
        author: String::new(),
        license: String::new(),
        repository: String::new(),
        command: "npx".into(),
        args: vec![],
        transport: "stdio".into(),
        tools: vec![],
        resources: vec![],
        prompts: vec![],
        tags: vec![],
        env: vec![],
        homepage: String::new(),
        deprecated,
        deprecated_by: None,
        downloads: 0,
        stars: 0,
        created_at: None,
        updated_at: None,
    }
}

#[test]
fn deprecated_servers_keep_order() {
    let all = vec![server("a", "x", true), server("a", "y", false), server("b", "z", true)];
    let names: Vec<String> = deprecated_servers(all).iter().map(|s| s.full_name()).collect();
    assert_eq!(names, vec!["a/x", "b/z"]);
    assert!(deprecated_servers(vec![server("a", "y", false)]).is_empty());
}

#[test]
fn import_size_limit() {
    assert!(check_import_size(0).is_ok());
    assert!(check_import_size(500).is_ok());
    match check_import_size(501) {
        Err(McpRegError::Validation(m)) => assert_eq!(m, "maximum 500 servers per import"),
        _ => panic!("expected a validation error"),
    }
}

#[test]
fn import_entries_need_owner_and_name() {
    assert!(import_entry_ok(&server("a", "b", false)));
    assert!(!import_entry_ok(&server("", "b", false)));
    assert!(!import_entry_ok(&server("a", "", false)));
}

#[test]
fn servers_grouped_by_transport() {
    let mut a = server("o", "a", false);
    a.transport = "stdio".into();
    let mut b = server("o", "b", false);
    b.transport = "sse".into();
    let mut c = server("o", "c", false);
    c.transport = "stdio".into();
    let groups = group_by_transport(vec![a, b, c]);
    let view: Vec<(String, Vec<String>)> =
        groups.iter().map(|(t, v)| (t.clone(), v.iter().map(|s| s.name.clone()).collect())).collect();
    assert_eq!(view, vec![("sse".to_string(), vec!["b".to_string()]), ("stdio".to_string(), vec!["a".to_string(), "c".to_string()])]);
    assert!(group_by_transport(vec![]).is_empty());
}
