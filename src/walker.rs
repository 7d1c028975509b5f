use vstd::prelude::*;
use vstd::string::StringExecFns;

verus! {

/// The depth a walk goes to unless told otherwise.
pub const DEFAULT_MAX_DEPTH: usize = 20;

/// Options for walking a workspace.
#[derive(Debug, Clone)]
pub struct WalkerConfig {
    /// Follow symbolic links; off, so that a link cannot lead out of the workspace.
    pub follow_links: bool,
    /// Respect .gitignore files.
    pub respect_gitignore: bool,
    /// Skip hidden files and directories.
    pub skip_hidden: bool,
    /// How deep to go; `None` for no limit.
    pub max_depth: Option<usize>,
    /// Walk into `.github`.
    pub allow_github_dir: bool,
    /// The root that canonical paths must stay under.
    pub workspace_root: Option<String>,
    /// Directories to leave out besides the default ones.
    pub additional_excludes: Vec<String>,
}

impl Default for WalkerConfig {
    fn default() -> (r: Self)
        ensures
            !r.follow_links,
            !r.respect_gitignore,
            r.skip_hidden,
            r.max_depth == Some(DEFAULT_MAX_DEPTH),
            !r.allow_github_dir,
            r.workspace_root is None,
            r.additional_excludes@.len() == 0,
    {
        WalkerConfig {
            follow_links: false,
            respect_gitignore: false,
            skip_hidden: true,
            max_depth: Some(DEFAULT_MAX_DEPTH),
            allow_github_dir: false,
            workspace_root: None,
            additional_excludes: Vec::new(),
        }
    }
}

impl WalkerConfig {
    /// The default options.
    pub fn new() -> (r: Self)
        ensures
            !r.follow_links,
            !r.respect_gitignore,
            r.skip_hidden,
            r.max_depth == Some(DEFAULT_MAX_DEPTH),
            !r.allow_github_dir,
            r.workspace_root is None,
            r.additional_excludes@.len() == 0,
    {
        WalkerConfig::default()
    }

    /// For searching file names: hidden files and `.github` included.
    pub fn for_file_search() -> (r: Self)
        ensures
            !r.follow_links,
            !r.respect_gitignore,
            !r.skip_hidden,
            r.max_depth == Some(DEFAULT_MAX_DEPTH),
            r.allow_github_dir,
            r.workspace_root is None,
            r.additional_excludes@.len() == 0,
    {
        WalkerConfig {
            follow_links: false,
            respect_gitignore: false,
            skip_hidden: false,
            max_depth: Some(DEFAULT_MAX_DEPTH),
            allow_github_dir: true,
            workspace_root: None,
            additional_excludes: Vec::new(),
        }
    }

    /// For searching file contents: hidden files skipped, .gitignore not respected.
    pub fn for_content_search() -> (r: Self)
        ensures
            !r.follow_links,
            !r.respect_gitignore,
            r.skip_hidden,
            r.max_depth == Some(DEFAULT_MAX_DEPTH),
            !r.allow_github_dir,
            r.workspace_root is None,
            r.additional_excludes@.len() == 0,
    {
        WalkerConfig {
            follow_links: false,
            respect_gitignore: false,
            skip_hidden: true,
            max_depth: Some(DEFAULT_MAX_DEPTH),
            allow_github_dir: false,
            workspace_root: None,
            additional_excludes: Vec::new(),
        }
    }

    /// For glob matching under `workspace_root`: hidden directories included.
    pub fn for_glob(workspace_root: &str) -> (r: Self)
        ensures
            !r.follow_links,
            !r.respect_gitignore,
            !r.skip_hidden,
            r.max_depth == Some(DEFAULT_MAX_DEPTH),
            !r.allow_github_dir,
            r.workspace_root matches Some(w) && w@ == workspace_root@,
            r.additional_excludes@.len() == 0,
    {
        WalkerConfig {
            follow_links: false,
            respect_gitignore: false,
            skip_hidden: false,
            max_depth: Some(DEFAULT_MAX_DEPTH),
            allow_github_dir: false,
            workspace_root: Some(String::from_str(workspace_root)),
            additional_excludes: Vec::new(),
        }
    }

    /// For listing a directory: .gitignore respected, hidden files skipped, no depth set.
    pub fn for_list_files() -> (r: Self)
        ensures
            !r.follow_links,
            r.respect_gitignore,
            r.skip_hidden,
            r.max_depth is None,
            !r.allow_github_dir,
            r.workspace_root is None,
            r.additional_excludes@.len() == 0,
    {
        WalkerConfig {
            follow_links: false,
            respect_gitignore: true,
            skip_hidden: true,
            max_depth: None,
            allow_github_dir: false,
            workspace_root: None,
            additional_excludes: Vec::new(),
        }
    }

    pub fn with_follow_links(self, follow: bool) -> (r: Self)
        ensures
            r == (WalkerConfig { follow_links: follow, ..self }),
    {
        let mut s = self;
        s.follow_links = follow;
        s
    }

    pub fn with_gitignore(self, respect: bool) -> (r: Self)
        ensures
            r == (WalkerConfig { respect_gitignore: respect, ..self }),
    {
        let mut s = self;
        s.respect_gitignore = respect;
        s
    }

    pub fn with_skip_hidden(self, skip: bool) -> (r: Self)
        ensures
            r == (WalkerConfig { skip_hidden: skip, ..self }),
    {
        let mut s = self;
        s.skip_hidden = skip;
        s
    }

    pub fn with_max_depth(self, depth: Option<usize>) -> (r: Self)
        ensures
            r == (WalkerConfig { max_depth: depth, ..self }),
    {
        let mut s = self;
        s.max_depth = depth;
        s
    }

    pub fn with_allow_github(self, allow: bool) -> (r: Self)
        ensures
            r == (WalkerConfig { allow_github_dir: allow, ..self }),
    {
        let mut s = self;
        s.allow_github_dir = allow;
        s
    }

    pub fn with_workspace_root(self, root: &str) -> (r: Self)
        ensures
            r.workspace_root matches Some(w) && w@ == root@,
            r.follow_links == self.follow_links,
            r.respect_gitignore == self.respect_gitignore,
            r.skip_hidden == self.skip_hidden,
            r.max_depth == self.max_depth,
            r.allow_github_dir == self.allow_github_dir,
            r.additional_excludes == self.additional_excludes,
    {
        let mut s = self;
        s.workspace_root = Some(String::from_str(root));
        s
    }

    pub fn with_additional_excludes(self, excludes: Vec<String>) -> (r: Self)
        ensures
            r == (WalkerConfig { additional_excludes: excludes, ..self }),
    {
        let mut s = self;
        s.additional_excludes = excludes;
        s
    }
}

} // verus!
