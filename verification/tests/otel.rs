use cleargate_flow::otel::OtelProvider;
use sha2::Digest;

#[test]
fn test_deterministic_span_ids() {
    let provider = OtelProvider::new();
    let (trace1, span1) = provider.span_ids("run-1", "node-1", 1);
    let (trace2, span2) = provider.span_ids("run-1", "node-1", 1);
    assert_eq!(trace1, trace2);
    assert_eq!(span1, span2);
    let (trace3, _) = provider.span_ids("run-2", "node-1", 1);
    assert_ne!(trace1, trace3);
    let (_, span4) = provider.span_ids("run-1", "node-1", 2);
    assert_ne!(span1, span4);
}

#[test]
fn test_span_lifecycle() {
    let provider = OtelProvider::new();
    let (trace, span) = provider.span_ids("run-1", "node-1", 1);
    assert!(!trace.is_empty());
    assert!(!span.is_empty());
}

#[test]
fn ids_are_lowercase_hex_of_the_right_length() {
    let (trace, span) = OtelProvider::new().span_ids("r", "n", 7);
    assert_eq!(trace.len(), 32);
    assert_eq!(span.len(), 16);
    assert!(trace.chars().all(|c| c.is_ascii_hexdigit() && !c.is_ascii_uppercase()));
    assert!(span.chars().all(|c| c.is_ascii_hexdigit() && !c.is_ascii_uppercase()));
}

#[test]
fn trace_id_is_the_digest_prefix() {
    let (trace, span) = OtelProvider::new().span_ids("run-1", "node-1", 3);
    let d = sha2::Sha256::digest(b"run-1:");
    let expected: String = d.iter().take(16).map(|b| format!("{b:02x}")).collect();
    assert_eq!(trace, expected);
    let d = sha2::Sha256::digest(b"run-1:node-1:3:");
    let expected: String = d.iter().take(8).map(|b| format!("{b:02x}")).collect();
    assert_eq!(span, expected);
}
