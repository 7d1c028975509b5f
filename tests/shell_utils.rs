use llm_engine::shell_utils::{is_powershell, is_powershell_lowered};

#[test]
fn test_is_powershell() {
    assert!(is_powershell("powershell"));
    assert!(is_powershell("powershell.exe"));
    assert!(is_powershell(
        "C:\\Windows\\System32\\WindowsPowerShell\\v1.0\\powershell.exe"
    ));
    assert!(is_powershell("pwsh"));
    assert!(is_powershell("pwsh.exe"));
    assert!(is_powershell("PowerShell"));
    assert!(is_powershell("POWERSHELL"));

    assert!(!is_powershell("cmd.exe"));
    assert!(!is_powershell("bash"));
    assert!(!is_powershell("zsh"));
}

#[test]
fn is_powershell_lowered_is_case_sensitive() {
    assert!(is_powershell_lowered("pwsh.exe"));
    assert!(!is_powershell_lowered("PWSH"));
}
