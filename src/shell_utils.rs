use vstd::prelude::*;
use crate::text::{contains_str, has_sub, lower_of, to_lowercase};

verus! {

/// Whether an already lower-cased shell name names PowerShell.
pub open spec fn names_powershell(lowered: Seq<char>) -> bool {
    has_sub(lowered, "powershell"@) || has_sub(lowered, "pwsh"@)
}

/// Whether a lower-cased shell name names PowerShell (`powershell` or `pwsh` in it).
pub fn is_powershell_lowered(lowered: &str) -> (r: bool)
    ensures
        r == names_powershell(lowered@),
{
    contains_str(lowered, "powershell") || contains_str(lowered, "pwsh")
}

/// Whether the shell is PowerShell, whatever the case of its name.
pub fn is_powershell(shell: &str) -> (r: bool)
    ensures
        r == names_powershell(lower_of(shell@)),
{
    let lowered = to_lowercase(shell);
    is_powershell_lowered(lowered.as_str())
}

} // verus!
