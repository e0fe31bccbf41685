use agent_policy::config::{get_fast_path_map_size, MB};
use agent_policy::trace::{L7LogDynamicConfig, TraceType};

#[test]
fn parse_trace_types() {
    assert_eq!(TraceType::parse(" sw8"), TraceType::Sw8);
    assert_eq!(TraceType::parse("sw8"), TraceType::Sw8);
    assert_eq!(TraceType::parse("X-B3-TraceId"), TraceType::XB3);
    assert_eq!(TraceType::parse("uber-trace-id"), TraceType::Uber);
    assert_eq!(TraceType::parse("traceparent"), TraceType::TraceParent);
    assert_eq!(TraceType::parse("  my-id"), TraceType::Customize("my-id".to_string()));
    assert_eq!(TraceType::parse("   "), TraceType::Customize("   ".to_string()));
    assert_eq!(TraceType::parse(""), TraceType::Disabled);
}

#[test]
fn trace_type_names() {
    assert_eq!(TraceType::XB3Span.to_string(), "X-B3-SpanId");
    assert_eq!(TraceType::Sw6.to_string(), "sw6");
    assert_eq!(TraceType::Customize("abc".to_string()).to_string(), "abc");
    assert_eq!(TraceType::Disabled.to_string(), "");
    assert_eq!(TraceType::default(), TraceType::Disabled);
}

#[test]
fn check_ignores_case_only_for_b3() {
    assert!(TraceType::XB3.check("x-b3-traceid"));
    assert!(TraceType::XB3.check("X-B3-TRACEID"));
    assert!(!TraceType::Sw8.check("SW8"));
    assert!(TraceType::Sw8.check("sw8"));
    assert!(TraceType::Customize("Tag".to_string()).check("Tag"));
    assert!(!TraceType::Customize("Tag".to_string()).check("tag"));
    assert!(!TraceType::Disabled.check(""));
    assert!(TraceType::XB3Span.check_lowered("X-B3-SPANID", "x-b3-spanid"));
}

#[test]
fn trace_and_span_ids() {
    let mut c = L7LogDynamicConfig::default();
    c.trace_types = vec![TraceType::Sw8, TraceType::XB3];
    c.span_types = vec![TraceType::XB3Span];
    assert!(c.is_trace_id("sw8"));
    assert!(c.is_trace_id("X-b3-TraceID"));
    assert!(!c.is_trace_id("X-B3-SpanId"));
    assert!(c.is_span_id("x-b3-spanid"));
    assert!(!c.is_span_id("sw8"));
    assert!(!L7LogDynamicConfig::default().is_trace_id("sw8"));
}

#[test]
fn fast_path_map_size() {
    assert_eq!(get_fast_path_map_size(100, 0), 100);
    assert_eq!(get_fast_path_map_size(0, 0), 32000);
    assert_eq!(get_fast_path_map_size(0, 1024 * MB), 256000);
    assert_eq!(get_fast_path_map_size(0, u64::MAX), 1 << 20);
}
