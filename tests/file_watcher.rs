use llm_engine::file_watcher::is_git_status_file;

#[test]
fn test_is_git_status_file_matches_index() {
    assert!(is_git_status_file("/repo/.git/index"));
}

#[test]
fn test_is_git_status_file_matches_head() {
    assert!(is_git_status_file("/repo/.git/HEAD"));
    assert!(is_git_status_file("/repo/.git/refs/heads/HEAD"));
}

#[test]
fn test_is_git_status_file_matches_refs_heads() {
    assert!(is_git_status_file("/repo/.git/refs/heads/main"));
    assert!(is_git_status_file("/repo/.git/refs/heads/feature/branch"));
}

#[test]
fn test_is_git_status_file_matches_refs_remotes() {
    assert!(is_git_status_file("/repo/.git/refs/remotes/origin/main"));
    assert!(is_git_status_file("/repo/.git/refs/remotes/upstream/develop"));
}

#[test]
fn test_is_git_status_file_matches_special_heads() {
    assert!(is_git_status_file("/repo/.git/MERGE_HEAD"));
    assert!(is_git_status_file("/repo/.git/REBASE_HEAD"));
    assert!(is_git_status_file("/repo/.git/CHERRY_PICK_HEAD"));
    assert!(is_git_status_file("/repo/.git/ORIG_HEAD"));
}

#[test]
fn test_is_git_status_file_ignores_lock_files() {
    assert!(!is_git_status_file("/repo/.git/index.lock"));
    assert!(!is_git_status_file("/repo/.git/refs/heads/main.lock"));
    assert!(!is_git_status_file("/repo/.git/HEAD.lock"));
}

#[test]
fn test_is_git_status_file_ignores_other_git_files() {
    assert!(!is_git_status_file("/repo/.git/config"));
    assert!(!is_git_status_file("/repo/.git/description"));
    assert!(!is_git_status_file("/repo/.git/objects/pack/pack-abc.idx"));
    assert!(!is_git_status_file("/repo/.git/COMMIT_EDITMSG"));
    assert!(!is_git_status_file("/repo/.git/logs/HEAD"));
}
