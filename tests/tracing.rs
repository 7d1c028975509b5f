use llm_engine::tracing::{
    event_id_from, generate_event_id, generate_span_id, generate_trace_id, hex_text, trace_id_from,
};

#[test]
fn test_generate_trace_id_format() {
    let trace_id = generate_trace_id();
    assert_eq!(trace_id.len(), 26, "Trace ID should be 26 characters");
    let parts: Vec<&str> = trace_id.split('-').collect();
    assert_eq!(parts.len(), 2, "Trace ID should have exactly one hyphen");
    assert_eq!(parts[0].len(), 17, "Timestamp part should be 17 characters");
    assert!(
        parts[0].chars().all(|c| c.is_ascii_digit()),
        "Timestamp part should be all digits"
    );
    assert_eq!(parts[1].len(), 8, "UUID suffix should be 8 characters");
}

#[test]
fn test_generate_trace_id_uniqueness() {
    let mut ids = std::collections::HashSet::new();
    for _ in 0..1000 {
        let id = generate_trace_id();
        assert!(ids.insert(id.clone()), "Generated duplicate trace ID: {}", id);
    }
    assert_eq!(ids.len(), 1000, "Should have 1000 unique IDs");
}

#[test]
fn test_generate_span_id_format() {
    let span_id = generate_span_id();
    assert_eq!(span_id.len(), 16, "Span ID should be 16 characters");
    assert!(
        span_id.chars().all(|c| c.is_ascii_hexdigit()),
        "Span ID should be valid hexadecimal"
    );
}

#[test]
fn test_generate_span_id_uniqueness() {
    let mut ids = std::collections::HashSet::new();
    for _ in 0..1000 {
        let id = generate_span_id();
        assert!(ids.insert(id.clone()), "Generated duplicate span ID: {}", id);
    }
    assert_eq!(ids.len(), 1000, "Should have 1000 unique IDs");
}

#[test]
fn test_generate_event_id_format() {
    let event_id = generate_event_id();
    assert_eq!(event_id.len(), 16, "Event ID should be 16 characters");
    assert!(
        event_id.chars().all(|c| c.is_ascii_hexdigit()),
        "Event ID should be valid hexadecimal"
    );
}

#[test]
fn test_generate_event_id_uniqueness() {
    let mut ids = std::collections::HashSet::new();
    for _ in 0..1000 {
        let id = generate_event_id();
        assert!(ids.insert(id.clone()), "Generated duplicate event ID: {}", id);
    }
    assert_eq!(ids.len(), 1000, "Should have 1000 unique IDs");
}

#[test]
fn ids_from_given_parts() {
    assert_eq!(hex_text(&[0x00, 0x01, 0x7f, 0x80, 0xab, 0xcd, 0xef, 0xff]), "00017f80abcdefff");
    assert_eq!(
        trace_id_from("20260130123456789", "abc12345-6789-4abc-8def-0123456789ab"),
        "20260130123456789-abc12345"
    );
    assert_eq!(event_id_from("abc12345-6789-4abc-8def-0123456789ab"), "abc1234567894abc");
}
