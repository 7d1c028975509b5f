use llm_engine::lsp::{
    decide_root_path, generate_server_id, get_rust_analyzer_download_url, parse_content_length,
    validate_root_path, RootPathFacts,
};
use llm_engine::server::ServerConfig;

#[test]
fn test_generate_server_id_different_languages() {
    let rust_id = generate_server_id("rust", 1_700_000_000_000);
    let ts_id = generate_server_id("typescript", 1_700_000_000_000);

    assert!(rust_id.starts_with("lsp_rust_"));
    assert!(ts_id.starts_with("lsp_typescript_"));
}

#[test]
fn server_id_holds_the_timestamp() {
    assert_eq!(generate_server_id("rust", 1234), "lsp_rust_1234");
    assert_eq!(generate_server_id("go", 0), "lsp_go_0");
}

#[test]
fn test_get_rust_analyzer_download_url() {
    let url = get_rust_analyzer_download_url("linux", "x86_64");
    assert!(url.is_some());
    let url = url.unwrap();
    assert!(url.starts_with("https://github.com/rust-lang/rust-analyzer/releases/"));
    assert!(url.contains("rust-analyzer"));
    assert_eq!(
        url,
        "https://github.com/rust-lang/rust-analyzer/releases/latest/download/rust-analyzer-x86_64-unknown-linux-gnu.gz"
    );
    assert_eq!(
        get_rust_analyzer_download_url("windows", "x86_64").unwrap(),
        "https://github.com/rust-lang/rust-analyzer/releases/latest/download/rust-analyzer-x86_64-pc-windows-msvc.zip"
    );
    assert!(get_rust_analyzer_download_url("windows", "aarch64").is_none());
    assert!(get_rust_analyzer_download_url("unknown", "x86_64").is_none());
}

#[test]
fn server_config_puts_attachments_under_data_root() {
    let c = ServerConfig::new("/ws".to_string(), "/data".to_string());
    assert_eq!(c.attachments_root, "/data/attachments");
    let c = ServerConfig::new("/ws".to_string(), "/data/".to_string());
    assert_eq!(c.attachments_root, "/data/attachments");
}

#[test]
fn test_parse_content_length() {
    let headers = "Content-Length: 123\r\nContent-Type: application/json\r\n";
    let result = parse_content_length(headers);
    assert_eq!(result, Some(123));

    let headers_lowercase = "content-length: 456\r\n";
    let result = parse_content_length(headers_lowercase);
    assert_eq!(result, Some(456));

    let no_content_length = "Content-Type: application/json\r\n";
    let result = parse_content_length(no_content_length);
    assert_eq!(result, None);

    let invalid_value = "Content-Length: abc\r\n";
    let result = parse_content_length(invalid_value);
    assert_eq!(result, None);
}

#[test]
fn content_length_edge_cases() {
    assert_eq!(parse_content_length("X: 1\nContent-Length:+7"), Some(7));
    assert_eq!(parse_content_length("Content-Length: 99999999999999999999999"), None);
    assert_eq!(parse_content_length("Content-Length: 5:6"), Some(5));
    assert_eq!(parse_content_length(""), None);
}

fn missing() -> RootPathFacts {
    RootPathFacts { exists: false, is_dir: false, canonical: Err("not found".to_string()) }
}

#[test]
fn test_validate_root_path_relative() {
    let result = validate_root_path("relative/path", missing());
    assert!(result.is_err());
    assert!(result.unwrap_err().contains("must be absolute"));
}

#[test]
fn root_path_decisions() {
    assert_eq!(
        decide_root_path("/nope", true, missing()),
        Err("root_path does not exist: /nope".to_string())
    );
    let file = RootPathFacts { exists: true, is_dir: false, canonical: Ok("/f".to_string()) };
    assert_eq!(
        decide_root_path("/f", true, file),
        Err("root_path is not a directory: /f".to_string())
    );
    let dir = RootPathFacts { exists: true, is_dir: true, canonical: Ok("/real/dir".to_string()) };
    assert_eq!(validate_root_path("/dir", dir), Ok("/real/dir".to_string()));
}
