use llm_engine::walker::{WalkerConfig, DEFAULT_MAX_DEPTH};

#[test]
fn test_walker_config_defaults() {
    let config = WalkerConfig::default();
    assert!(!config.follow_links);
    assert!(!config.respect_gitignore);
    assert!(config.skip_hidden);
    assert_eq!(config.max_depth, Some(DEFAULT_MAX_DEPTH));
    assert!(!config.allow_github_dir);
}

#[test]
fn test_walker_config_for_file_search() {
    let config = WalkerConfig::for_file_search();
    assert!(!config.follow_links);
    assert!(!config.skip_hidden);
    assert!(config.allow_github_dir);
}

#[test]
fn test_walker_config_for_content_search() {
    let config = WalkerConfig::for_content_search();
    assert!(!config.follow_links);
    assert!(config.skip_hidden);
    assert!(!config.allow_github_dir);
}

#[test]
fn test_walker_config_for_glob() {
    let config = WalkerConfig::for_glob("/test/path");
    assert!(!config.follow_links);
    assert!(!config.skip_hidden);
    assert!(config.workspace_root.is_some());
}

#[test]
fn test_walker_config_for_list_files() {
    let config = WalkerConfig::for_list_files();
    assert!(!config.follow_links);
    assert!(config.respect_gitignore);
    assert!(config.skip_hidden);
}

#[test]
fn test_walker_config_builder_methods() {
    let config = WalkerConfig::new()
        .with_follow_links(true)
        .with_gitignore(true)
        .with_skip_hidden(false)
        .with_max_depth(Some(10))
        .with_allow_github(true)
        .with_workspace_root("/workspace")
        .with_additional_excludes(vec!["custom".to_string()]);

    assert!(config.follow_links);
    assert!(config.respect_gitignore);
    assert!(!config.skip_hidden);
    assert_eq!(config.max_depth, Some(10));
    assert!(config.allow_github_dir);
    assert_eq!(config.workspace_root, Some("/workspace".to_string()));
    assert_eq!(config.additional_excludes, vec!["custom".to_string()]);
}
