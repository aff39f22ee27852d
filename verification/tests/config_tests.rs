use mcpreg::config::Config;

#[test]
fn test_default_config() {
    let config = Config::default();
    assert_eq!(config.registry_url, "https://registry.mcpreg.dev");
    assert!(config.api_key.is_none());
    assert!(config.install_dir.is_none());
}

#[test]
fn overrides_replace_only_what_is_set() {
    let base = Config { registry_url: "http://a".into(), api_key: Some("k".into()), install_dir: None };
    let c = base.with_overrides(Some("http://test:9999".into()), None, Some("/opt/mcp".into()));
    assert_eq!(c.registry_url, "http://test:9999");
    assert_eq!(c.api_key.as_deref(), Some("k"));
    assert_eq!(c.install_dir.as_deref(), Some("/opt/mcp"));
}

#[test]
fn overrides_with_nothing_set_keep_the_config() {
    let c = Config::default().with_overrides(None, None, None);
    assert_eq!(c.registry_url, "https://registry.mcpreg.dev");
    assert!(c.api_key.is_none());
}

#[test]
fn test_config_dir_is_under_home() {
    let dir = Config::config_dir().unwrap();
    assert!(dir.to_string_lossy().contains(".mcpreg"));
}

#[test]
fn config_files_live_in_the_config_dir() {
    let dir = Config::config_dir().unwrap();
    assert_eq!(Config::config_path().unwrap(), dir.join("config.toml"));
    assert_eq!(Config::installed_servers_path().unwrap(), dir.join("installed.json"));
    assert_eq!(Config::db_path().unwrap(), dir.join("registry.db"));
}

#[test]
fn paths_from_a_given_home() {
    let home = std::path::PathBuf::from("/home/ada");
    assert_eq!(Config::config_dir_from(Some(home.clone())).unwrap(), std::path::PathBuf::from("/home/ada/.mcpreg"));
    assert_eq!(
        Config::config_file_from(Some(home), "registry.db").unwrap(),
        std::path::PathBuf::from("/home/ada/.mcpreg/registry.db")
    );
}

#[test]
fn no_home_no_paths() {
    match Config::config_dir_from(None) {
        Err(mcpreg::error::McpRegError::Config(m)) => assert_eq!(m, "Cannot find home directory"),
        _ => panic!("expected the missing-home error"),
    }
    assert!(Config::config_file_from(None, "config.toml").is_err());
}
