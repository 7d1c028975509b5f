use vstd::prelude::*;
use vstd::string::{StrSliceExecFns, StringExecFns};

verus! {

/// `part` (relative) placed under the directory `base`, as `Path::join` gives it.
pub open spec fn path_join(base: Seq<char>, part: Seq<char>) -> Seq<char> {
    if base.len() == 0 {
        part
    } else if base.last() == '/' {
        base + part
    } else {
        base + "/"@ + part
    }
}

/// Where the server keeps its files.
#[derive(Clone, Debug)]
pub struct ServerConfig {
    pub workspace_root: String,
    pub data_root: String,
    pub attachments_root: String,
}

impl ServerConfig {
    /// Attachments live in `attachments` under the data root.
    pub fn new(workspace_root: String, data_root: String) -> (r: ServerConfig)
        ensures
            r.workspace_root == workspace_root,
            r.data_root == data_root,
            r.attachments_root@ == path_join(data_root@, "attachments"@),
    {
        let n = data_root.as_str().unicode_len();
        let attachments_root = if n == 0 {
            String::from_str("attachments")
        } else if data_root.as_str().get_char(n - 1) == '/' {
            let mut a = data_root.clone();
            a.append("attachments");
            a
        } else {
            let mut a = data_root.clone();
            a.append("/");
            a.append("attachments");
            proof {
                assert(a@ =~= data_root@ + "/"@ + "attachments"@);
            }
            a
        };
        ServerConfig { workspace_root, data_root, attachments_root }
    }
}

} // verus!
