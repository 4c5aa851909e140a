use ockam_kit::otel_context::{opentelemetry_context_parser, ErrorKind, ErrorOrigin, OpenTelemetryContext};
use std::str::FromStr;
use opentelemetry::propagation::{Extractor, Injector, TextMapPropagator};
use opentelemetry::propagation::text_map_propagator::FieldIter;
use opentelemetry::Context;

/// A propagator that carries one value, `TraceId`, in the field `traceparent`.
#[derive(Debug)]
struct OneFieldPropagator {
    fields: Vec<String>,
}

#[derive(Debug, Clone, PartialEq)]
struct TraceId(String);

impl TextMapPropagator for OneFieldPropagator {
    fn inject_context(&self, cx: &Context, injector: &mut dyn Injector) {
        if let Some(id) = cx.get::<TraceId>() {
            injector.set("traceparent", id.0.clone());
        }
    }

    fn extract_with_context(&self, cx: &Context, extractor: &dyn Extractor) -> Context {
        match extractor.get("traceparent") {
            Some(v) => cx.with_value(TraceId(v.to_string())),
            None => cx.clone(),
        }
    }

    fn fields(&self) -> FieldIter<'_> {
        FieldIter::new(&self.fields)
    }
}

fn install_propagator() {
    opentelemetry::global::set_text_map_propagator(OneFieldPropagator {
        fields: vec!["traceparent".to_string()],
    });
}

#[test]
fn set_then_get_returns_the_value() {
    let mut c = OpenTelemetryContext::empty();
    assert_eq!(c.get("traceparent"), None);
    c.set("traceparent", "00-abc-01".to_string());
    assert_eq!(c.get("traceparent"), Some("00-abc-01"));
    c.set("traceparent", "00-def-01".to_string());
    assert_eq!(c.get("traceparent"), Some("00-def-01"));
    assert_eq!(c.keys(), vec!["traceparent"]);
}

#[test]
fn keys_are_listed_once() {
    let mut c = OpenTelemetryContext::empty();
    c.set("a", "1".to_string());
    c.set("b", "2".to_string());
    c.set("a", "3".to_string());
    let mut keys = c.keys();
    keys.sort();
    assert_eq!(keys, vec!["a", "b"]);
    let m = c.as_map();
    assert_eq!(m.len(), 2);
    assert_eq!(m.get("a"), Some(&"3".to_string()));
    assert_eq!(m.get("b"), Some(&"2".to_string()));
}

#[test]
fn from_entries_keeps_the_last_value_of_a_key() {
    let c = OpenTelemetryContext::from_entries(vec![
        ("k".to_string(), "first".to_string()),
        ("j".to_string(), "x".to_string()),
        ("k".to_string(), "last".to_string()),
    ]);
    assert_eq!(c.get("k"), Some("last"));
    assert_eq!(c.get("j"), Some("x"));
    assert_eq!(c.keys().len(), 2);
}

#[test]
fn serialization_round_trips() {
    let mut c = OpenTelemetryContext::empty();
    c.set("traceparent", "00-4bf92f3577b34da6a3ce929d0e0e4736-00f067aa0ba902b7-01".to_string());
    c.set("tracestate", "vendor=\"quoted\"\n".to_string());
    let text = c.to_string();
    let parsed = opentelemetry_context_parser(&text).unwrap();
    assert_eq!(parsed, c);
    assert_eq!(parsed.as_map(), c.as_map());
}

#[test]
fn parses_a_json_object_of_strings() {
    let c = opentelemetry_context_parser(r#"{"traceparent":"00-a-b-01","tracestate":""}"#).unwrap();
    assert_eq!(c.get("traceparent"), Some("00-a-b-01"));
    assert_eq!(c.get("tracestate"), Some(""));
    let d: OpenTelemetryContext = "{}".parse().unwrap();
    assert_eq!(d, OpenTelemetryContext::empty());
}

#[test]
fn refuses_other_json() {
    for text in ["", "[]", r#"{"a":1}"#, "not json", r#"{"a":"b""#] {
        let e = opentelemetry_context_parser(text).unwrap_err();
        assert_eq!(e.input, text);
        assert!(e.message().starts_with(&format!("Invalid OpenTelemetry context: {text}. Got error: ")));
    }
}

#[test]
fn equality_ignores_insertion_order() {
    let mut a = OpenTelemetryContext::empty();
    a.set("x", "1".to_string());
    a.set("y", "2".to_string());
    let mut b = OpenTelemetryContext::empty();
    b.set("y", "2".to_string());
    b.set("x", "1".to_string());
    assert_eq!(a, b);
    let c = a.clone();
    assert_eq!(c, b);
    b.set("x", "3".to_string());
    assert_ne!(a, b);
    b.set("x", "1".to_string());
    b.set("z", "1".to_string());
    assert_ne!(a, b);
}

#[test]
fn inject_then_extract_carries_the_trace() {
    install_propagator();
    let cx = Context::new().with_value(TraceId("00-feed-01".to_string()));
    let c = OpenTelemetryContext::inject(&cx);
    assert_eq!(c.get("traceparent"), Some("00-feed-01"));
    let back = c.extract();
    assert_eq!(back.get::<TraceId>(), Some(&TraceId("00-feed-01".to_string())));
    let again = OpenTelemetryContext::inject(&back);
    assert_eq!(again, c);
}

#[test]
fn inject_of_an_empty_context_is_empty() {
    install_propagator();
    let c = OpenTelemetryContext::inject(&Context::new());
    assert!(c.keys().is_empty());
}

#[test]
fn conversions_agree_with_the_parser() {
    let text = r#"{"traceparent":"00-a-b-01"}"#;
    let parsed = opentelemetry_context_parser(text).unwrap();
    assert_eq!(OpenTelemetryContext::from_str(text).unwrap(), parsed);
    assert_eq!(OpenTelemetryContext::try_from(text).unwrap(), parsed);
    assert_eq!(OpenTelemetryContext::try_from(text.to_string()).unwrap(), parsed);
    for bad in ["", "[]", r#"{"a":1}"#] {
        assert!(OpenTelemetryContext::from_str(bad).is_err());
        assert_eq!(OpenTelemetryContext::try_from(bad).unwrap_err().input, bad);
        assert_eq!(OpenTelemetryContext::try_from(bad.to_string()).unwrap_err().input, bad);
    }
}

#[test]
fn the_context_is_a_carrier_that_keeps_keys_as_given() {
    let mut c = OpenTelemetryContext::empty();
    Injector::set(&mut c, "TraceParent", "00-abc-01".to_string());
    assert_eq!(Extractor::get(&c, "TraceParent"), Some("00-abc-01"));
    assert_eq!(Extractor::get(&c, "traceparent"), None);
    assert_eq!(Extractor::keys(&c), vec!["TraceParent"]);
    // A propagator writes into and reads from the context directly.
    let p = OneFieldPropagator { fields: vec!["traceparent".to_string()] };
    let cx = Context::new().with_value(TraceId("00-def-01".to_string()));
    let mut carrier = OpenTelemetryContext::empty();
    p.inject_context(&cx, &mut carrier);
    assert_eq!(carrier.get("traceparent"), Some("00-def-01"));
    let back = p.extract_with_context(&Context::new(), &carrier);
    assert_eq!(back.get::<TraceId>(), Some(&TraceId("00-def-01".to_string())));
}

#[test]
fn a_refused_context_is_an_api_serialization_error() {
    let e = opentelemetry_context_parser("not json").unwrap_err();
    assert_eq!(e.origin, ErrorOrigin::Api);
    assert_eq!(e.kind, ErrorKind::Serialization);
    assert_eq!(e.input, "not json");
    assert!(e.message().starts_with("Invalid OpenTelemetry context: not json. Got error: "));
}
