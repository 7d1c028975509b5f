use vstd::prelude::*;

verus! {

/// Where platform operations may act.
#[derive(Debug, Clone)]
pub struct PlatformContext {
    /// Every operation stays under this directory.
    pub workspace_root: String,
    pub worktree_path: Option<String>,
    /// Largest file that a read accepts, in bytes.
    pub max_file_size: usize,
    pub shell_timeout_secs: u64,
}

/// The outcome of a platform operation: data on success, a message otherwise.
#[derive(Debug, Clone)]
pub struct PlatformResult<T> {
    pub success: bool,
    pub data: Option<T>,
    pub error: Option<String>,
}

impl<T> PlatformResult<T> {
    pub fn success(data: T) -> (r: Self)
        ensures
            r.success,
            r.data == Some(data),
            r.error is None,
    {
        PlatformResult { success: true, data: Some(data), error: None }
    }

    pub fn error(message: String) -> (r: Self)
        ensures
            !r.success,
            r.data is None,
            r.error == Some(message),
    {
        PlatformResult { success: false, data: None, error: Some(message) }
    }
}

#[derive(Debug, Clone)]
pub struct FileInfo {
    pub path: String,
    pub name: String,
    pub size: u64,
    pub is_directory: bool,
    pub is_file: bool,
    pub modified_at: Option<i64>,
    pub created_at: Option<i64>,
}

#[derive(Debug, Clone)]
pub struct DirectoryEntry {
    pub path: String,
    pub name: String,
    pub is_directory: bool,
    pub is_file: bool,
}

#[derive(Debug, Clone)]
pub struct GitStatus {
    pub is_repository: bool,
    pub branch: Option<String>,
    pub ahead: i32,
    pub behind: i32,
    pub staged: Vec<GitFileStatus>,
    pub unstaged: Vec<GitFileStatus>,
    pub untracked: Vec<String>,
}

#[derive(Debug, Clone)]
pub struct GitFileStatus {
    pub path: String,
    /// "modified", "added", "deleted", "renamed" and the like.
    pub status: String,
    /// The former path of a renamed file.
    pub old_path: Option<String>,
}

#[derive(Debug, Clone)]
pub struct ShellResult {
    pub stdout: String,
    pub stderr: String,
    pub exit_code: i32,
    pub timed_out: bool,
}

#[derive(Debug, Clone, Copy)]
pub struct LspPosition {
    pub line: u32,
    pub character: u32,
}

#[derive(Debug, Clone)]
pub struct LspLocation {
    pub uri: String,
    pub range: LspRange,
}

#[derive(Debug, Clone, Copy)]
pub struct LspRange {
    pub start: LspPosition,
    pub end: LspPosition,
}

#[derive(Debug, Clone)]
pub struct LspSymbol {
    pub name: String,
    pub kind: String,
    pub location: LspLocation,
    pub container_name: Option<String>,
}

#[derive(Debug, Clone)]
pub struct SearchResult {
    pub path: String,
    pub line: usize,
    pub column: usize,
    pub text: String,
    pub context_before: Vec<String>,
    pub context_after: Vec<String>,
}

#[derive(Debug, Clone)]
pub struct WorkspaceInfo {
    pub root_path: String,
    pub worktree_path: Option<String>,
    pub repository_url: Option<String>,
    pub branch: Option<String>,
}

} // verus!
