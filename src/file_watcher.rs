use vstd::prelude::*;
use crate::text::{contains_str, ends_with, has_sub, has_suffix};

verus! {

/// Whether a change to `path` can change what git reports: the index, HEAD, branch and
/// remote refs, and the merge, rebase, cherry-pick and original heads; never a lock file.
pub open spec fn git_status_path(path: Seq<char>) -> bool {
    if has_suffix(path, ".lock"@) {
        false
    } else {
        has_suffix(path, ".git/index"@)
            || has_sub(path, ".git/index"@)
            || has_suffix(path, ".git/HEAD"@)
            || has_sub(path, ".git/refs/heads/"@)
            || has_sub(path, ".git/refs/remotes/"@)
            || has_suffix(path, "MERGE_HEAD"@)
            || has_suffix(path, "REBASE_HEAD"@)
            || has_suffix(path, "CHERRY_PICK_HEAD"@)
            || has_suffix(path, "ORIG_HEAD"@)
    }
}

/// Whether a change to the file at `path` can change the repository's status.
pub fn is_git_status_file(path: &str) -> (r: bool)
    ensures
        r == git_status_path(path@),
{
    if ends_with(path, ".lock") {
        return false;
    }
    ends_with(path, ".git/index")
        || contains_str(path, ".git/index")
        || ends_with(path, ".git/HEAD")
        || contains_str(path, ".git/refs/heads/")
        || contains_str(path, ".git/refs/remotes/")
        || ends_with(path, "MERGE_HEAD")
        || ends_with(path, "REBASE_HEAD")
        || ends_with(path, "CHERRY_PICK_HEAD")
        || ends_with(path, "ORIG_HEAD")
}

} // verus!
