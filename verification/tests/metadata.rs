use opentelemetry::trace::{
    SpanContext, SpanId, TraceContextExt, TraceFlags, TraceId, TraceState, Tracer, TracerProvider,
};
use opentelemetry::Context;
use opentelemetry_sdk::propagation::TraceContextPropagator;
use telemetry::grpc::{
    inject_fields, HeadersExtractor, MetadataInjector, TraceExtractor, TraceInjector,
};
use telemetry::propagation::FieldRecorder;
use tonic::metadata::MetadataMap;

const PARENT: &str = "00-4bf92f3577b34da6a3ce929d0e0e4736-00f067aa0ba902b7-01";

fn pair(key: &str, value: &str) -> (String, String) {
    (key.to_string(), value.to_string())
}

fn text_at<'a>(metadata: &'a MetadataMap, key: &str) -> Option<&'a str> {
    metadata.get(key).map(|v| v.to_str().unwrap())
}

fn remote_context() -> Context {
    let span = SpanContext::new(
        TraceId::from_hex("4bf92f3577b34da6a3ce929d0e0e4736").unwrap(),
        SpanId::from_hex("00f067aa0ba902b7").unwrap(),
        TraceFlags::SAMPLED,
        true,
        TraceState::default(),
    );
    Context::new().with_remote_span_context(span)
}

#[test]
fn recorder_keeps_pairs_in_order() {
    let mut recorder = FieldRecorder::new();
    recorder.record("B", "2".to_string());
    recorder.record("a", "1".to_string());
    recorder.record("B", "3".to_string());
    assert_eq!(recorder.fields, vec![pair("B", "2"), pair("a", "1"), pair("B", "3")]);
}

#[test]
fn recorder_is_an_injector() {
    let mut recorder = FieldRecorder::new();
    opentelemetry::propagation::Injector::set(&mut recorder, "Key", "v".to_string());
    assert_eq!(recorder.fields, vec![pair("Key", "v")]);
}

#[test]
fn set_stores_a_valid_pair() {
    let mut metadata = MetadataMap::new();
    assert!(MetadataInjector::set(&mut metadata, "traceparent", PARENT));
    assert_eq!(text_at(&metadata, "traceparent"), Some(PARENT));
    assert_eq!(metadata.len(), 1);
}

#[test]
fn set_stores_under_the_lower_case_name() {
    let mut metadata = MetadataMap::new();
    assert!(MetadataInjector::set(&mut metadata, "TraceParent", "v"));
    assert_eq!(metadata.keys().count(), 1);
    assert_eq!(text_at(&metadata, "traceparent"), Some("v"));
}

#[test]
fn set_replaces_what_stood_under_the_name() {
    let mut metadata = MetadataMap::new();
    metadata.append("k", "one".parse().unwrap());
    metadata.append("k", "two".parse().unwrap());
    assert!(MetadataInjector::set(&mut metadata, "k", "three"));
    assert_eq!(metadata.len(), 1);
    assert_eq!(text_at(&metadata, "k"), Some("three"));
}

#[test]
fn set_drops_a_key_with_an_invalid_character() {
    let mut metadata = MetadataMap::new();
    assert!(MetadataInjector::set(&mut metadata, "good", "v"));
    assert!(!MetadataInjector::set(&mut metadata, "bad key", "v"));
    assert!(!MetadataInjector::set(&mut metadata, "bad{}key", "v"));
    assert!(!MetadataInjector::set(&mut metadata, "", "v"));
    assert_eq!(metadata.len(), 1);
    assert_eq!(text_at(&metadata, "good"), Some("v"));
}

#[test]
fn set_drops_a_binary_key() {
    let mut metadata = MetadataMap::new();
    assert!(!MetadataInjector::set(&mut metadata, "trace-bin", "v"));
    assert!(metadata.is_empty());
}

#[test]
fn set_drops_a_value_with_a_control_character() {
    let mut metadata = MetadataMap::new();
    assert!(!MetadataInjector::set(&mut metadata, "k", "a\nb"));
    assert!(!MetadataInjector::set(&mut metadata, "k", "a\u{7f}b"));
    assert!(metadata.is_empty());
}

#[test]
fn set_takes_a_tab_and_an_empty_value() {
    let mut metadata = MetadataMap::new();
    assert!(MetadataInjector::set(&mut metadata, "tabbed", "a\tb"));
    assert!(MetadataInjector::set(&mut metadata, "empty", ""));
    assert_eq!(text_at(&metadata, "tabbed"), Some("a\tb"));
    assert_eq!(text_at(&metadata, "empty"), Some(""));
}

#[test]
fn set_drops_a_value_beyond_ascii() {
    let mut metadata = MetadataMap::new();
    assert!(MetadataInjector::set(&mut metadata, "k", "plain"));
    assert!(!MetadataInjector::set(&mut metadata, "k", "caf\u{e9}"));
    assert_eq!(metadata.len(), 1);
    assert_eq!(text_at(&metadata, "k"), Some("plain"));
}

#[test]
fn set_drops_a_key_that_is_too_long() {
    let mut metadata = MetadataMap::new();
    let longest = "a".repeat(65535);
    let too_long = "a".repeat(65536);
    assert!(MetadataInjector::set(&mut metadata, &longest, "v"));
    assert!(!MetadataInjector::set(&mut metadata, &too_long, "v"));
    assert_eq!(metadata.len(), 1);
}

#[test]
fn set_takes_every_character_of_header_names() {
    let mut metadata = MetadataMap::new();
    assert!(MetadataInjector::set(&mut metadata, "!#$%&'*+-.^_`|~09azAZ", "v"));
    assert_eq!(text_at(&metadata, "!#$%&'*+-.^_`|~09azaz"), Some("v"));
    for bad in ["a\"b", "a(b", "a)b", "a,b", "a/b", "a:b", "a;b", "a<b", "a=b", "a>b", "a?b", "a@b", "a[b", "a\\b", "a]b", "a{b", "a}b", "a\u{7f}b", "caf\u{e9}"] {
        assert!(!MetadataInjector::set(&mut metadata, bad, "v"));
    }
    assert_eq!(metadata.len(), 1);
}

#[test]
fn set_twice_with_one_value_changes_nothing_more() {
    let mut metadata = MetadataMap::new();
    assert!(MetadataInjector::set(&mut metadata, "k", "one"));
    assert!(MetadataInjector::set(&mut metadata, "k", "two"));
    assert!(MetadataInjector::set(&mut metadata, "k", "two"));
    assert_eq!(metadata.get_all("k").iter().count(), 1);
    assert_eq!(text_at(&metadata, "k"), Some("two"));
}

#[test]
fn inject_fields_drops_the_invalid_pair_and_keeps_the_others() {
    let mut metadata = MetadataMap::new();
    let fields = vec![pair("traceparent", PARENT), pair("bad key", "x"), pair("tracestate", "a=b")];
    let stored = inject_fields(&mut metadata, &fields);
    assert_eq!(stored, vec![true, false, true]);
    assert_eq!(metadata.len(), 2);
    assert_eq!(text_at(&metadata, "traceparent"), Some(PARENT));
    assert_eq!(text_at(&metadata, "tracestate"), Some("a=b"));
    assert!(metadata.get("bad key").is_none());
}

#[test]
fn inject_fields_of_nothing_changes_nothing() {
    let mut metadata = MetadataMap::new();
    metadata.insert("k", "v".parse().unwrap());
    let stored = inject_fields(&mut metadata, &Vec::new());
    assert!(stored.is_empty());
    assert_eq!(metadata.len(), 1);
}

#[test]
fn injector_writes_the_active_context() {
    opentelemetry::global::set_text_map_propagator(TraceContextPropagator::new());
    let _guard = remote_context().attach();
    let mut metadata = MetadataMap::new();
    TraceInjector.inject(&mut metadata);
    assert_eq!(text_at(&metadata, "traceparent"), Some(PARENT));
    assert_eq!(text_at(&metadata, "tracestate"), Some(""));
}

#[test]
fn injector_without_an_active_span_writes_nothing() {
    opentelemetry::global::set_text_map_propagator(TraceContextPropagator::new());
    let mut metadata = MetadataMap::new();
    TraceInjector.inject(&mut metadata);
    assert!(metadata.is_empty());
}

#[test]
fn interceptor_passes_the_request_on_with_the_context() {
    opentelemetry::global::set_text_map_propagator(TraceContextPropagator::new());
    let _guard = remote_context().attach();
    let mut injector = TraceInjector;
    let request = tonic::service::Interceptor::call(&mut injector, tonic::Request::new(()));
    let request = request.expect("the call goes on");
    assert_eq!(text_at(request.metadata(), "traceparent"), Some(PARENT));
}

#[test]
fn interceptor_passes_the_request_on_without_a_context() {
    let mut injector = TraceInjector;
    let request = tonic::service::Interceptor::call(&mut injector, tonic::Request::new(()));
    assert!(request.expect("the call goes on").metadata().is_empty());
}

#[test]
fn headers_lookup_reads_the_first_value() {
    let mut headers = http::HeaderMap::new();
    headers.append("traceparent", http::HeaderValue::from_static("one"));
    headers.append("traceparent", http::HeaderValue::from_static("two"));
    let reader = HeadersExtractor(&headers);
    assert_eq!(reader.lookup("traceparent"), Some("one"));
    assert_eq!(reader.lookup("TraceParent"), Some("one"));
    assert_eq!(reader.lookup("tracestate"), None);
    assert_eq!(reader.lookup("not a name"), None);
}

#[test]
fn headers_lookup_treats_an_undecodable_value_as_absent() {
    let mut headers = http::HeaderMap::new();
    headers.insert("traceparent", http::HeaderValue::from_bytes(&[0xff, 0xfe]).unwrap());
    headers.insert("plain", http::HeaderValue::from_static("text"));
    let reader = HeadersExtractor(&headers);
    assert_eq!(reader.lookup("traceparent"), None);
    assert_eq!(reader.lookup("plain"), Some("text"));
}

#[test]
fn headers_names_list_each_name_once() {
    let mut headers = http::HeaderMap::new();
    headers.append("a", http::HeaderValue::from_static("1"));
    headers.append("a", http::HeaderValue::from_static("2"));
    headers.append("b", http::HeaderValue::from_static("3"));
    let mut names = HeadersExtractor(&headers).names();
    names.sort();
    assert_eq!(names, vec!["a", "b"]);
}

#[test]
fn extractor_reads_a_sampled_context() {
    opentelemetry::global::set_text_map_propagator(TraceContextPropagator::new());
    let mut headers = http::HeaderMap::new();
    headers.insert("traceparent", http::HeaderValue::from_static(PARENT));
    let layered = TraceExtractor::new(());
    let context = layered.context_of(&headers);
    let span = context.span();
    let found = span.span_context();
    assert!(found.is_valid());
    assert!(found.is_sampled());
    assert_eq!(found.trace_id(), TraceId::from_hex("4bf92f3577b34da6a3ce929d0e0e4736").unwrap());
    assert_eq!(found.span_id(), SpanId::from_hex("00f067aa0ba902b7").unwrap());
}

#[test]
fn extractor_finds_no_context_in_other_headers() {
    opentelemetry::global::set_text_map_propagator(TraceContextPropagator::new());
    let mut headers = http::HeaderMap::new();
    headers.insert("content-type", http::HeaderValue::from_static("application/grpc"));
    let context = TraceExtractor::new(()).context_of(&headers);
    assert!(!context.has_active_span());
    assert!(!context.span().span_context().is_valid());
}

#[test]
fn extractor_finds_no_context_in_a_garbled_header() {
    opentelemetry::global::set_text_map_propagator(TraceContextPropagator::new());
    let mut headers = http::HeaderMap::new();
    headers.insert("traceparent", http::HeaderValue::from_static("00-zz-yy-01"));
    let context = TraceExtractor::new(()).context_of(&headers);
    assert!(!context.span().span_context().is_valid());
}

#[test]
fn a_child_call_carries_the_trace_id_and_a_new_span_id() {
    opentelemetry::global::set_text_map_propagator(TraceContextPropagator::new());
    let mut headers = http::HeaderMap::new();
    headers.insert("traceparent", http::HeaderValue::from_static(PARENT));
    let inbound = TraceExtractor::new(()).context_of(&headers);

    let provider = opentelemetry_sdk::trace::SdkTracerProvider::builder().build();
    let tracer = provider.tracer("child");
    let span = tracer.start_with_context("call", &inbound);
    let _guard = inbound.with_span(span).attach();

    let mut metadata = MetadataMap::new();
    TraceInjector.inject(&mut metadata);
    let outbound = text_at(&metadata, "traceparent").expect("a trace parent was written");
    let parts: Vec<&str> = outbound.split('-').collect();
    assert_eq!(parts.len(), 4);
    assert_eq!(parts[0], "00");
    assert_eq!(parts[1], "4bf92f3577b34da6a3ce929d0e0e4736");
    assert_eq!(parts[2].len(), 16);
    assert_ne!(parts[2], "00f067aa0ba902b7");
    assert_eq!(parts[3], "01");
}

#[test]
fn nested_contexts_are_injected_each_in_its_own_scope() {
    opentelemetry::global::set_text_map_propagator(TraceContextPropagator::new());
    let other = SpanContext::new(
        TraceId::from_hex("0af7651916cd43dd8448eb211c80319c").unwrap(),
        SpanId::from_hex("b7ad6b7169203331").unwrap(),
        TraceFlags::default(),
        true,
        TraceState::default(),
    );
    let outer = remote_context().attach();
    let mut first = MetadataMap::new();
    TraceInjector.inject(&mut first);
    {
        let _inner = Context::new().with_remote_span_context(other).attach();
        let mut nested = MetadataMap::new();
        TraceInjector.inject(&mut nested);
        assert_eq!(
            text_at(&nested, "traceparent"),
            Some("00-0af7651916cd43dd8448eb211c80319c-b7ad6b7169203331-00")
        );
    }
    let mut again = MetadataMap::new();
    TraceInjector.inject(&mut again);
    assert_eq!(text_at(&first, "traceparent"), Some(PARENT));
    assert_eq!(text_at(&again, "traceparent"), Some(PARENT));
    drop(outer);
    let mut after = MetadataMap::new();
    TraceInjector.inject(&mut after);
    assert!(after.is_empty());
}

#[test]
fn headers_extractor_serves_a_propagator() {
    let mut headers = http::HeaderMap::new();
    headers.insert("traceparent", http::HeaderValue::from_static(PARENT));
    headers.insert("opaque", http::HeaderValue::from_bytes(&[0xff]).unwrap());
    let reader = HeadersExtractor(&headers);
    assert_eq!(opentelemetry::propagation::Extractor::get(&reader, "traceparent"), Some(PARENT));
    assert_eq!(opentelemetry::propagation::Extractor::get(&reader, "opaque"), None);
    let names = opentelemetry::propagation::Extractor::keys(&reader);
    assert_eq!(names, vec!["traceparent"]);
}

#[test]
fn interceptor_keeps_the_metadata_that_was_there() {
    opentelemetry::global::set_text_map_propagator(TraceContextPropagator::new());
    let _guard = remote_context().attach();
    let mut request = tonic::Request::new(());
    request.metadata_mut().insert("x-tenant", "blue".parse().unwrap());
    let passed = TraceInjector.intercept(request).expect("the call goes on");
    assert_eq!(text_at(passed.metadata(), "x-tenant"), Some("blue"));
    assert_eq!(text_at(passed.metadata(), "traceparent"), Some(PARENT));
    assert_eq!(passed.metadata().len(), 3);
}

#[test]
fn headers_names_leave_out_a_header_that_does_not_decode() {
    let mut headers = http::HeaderMap::new();
    headers.insert("a", http::HeaderValue::from_static("1"));
    headers.insert("opaque", http::HeaderValue::from_bytes(&[0xff, 0xfe]).unwrap());
    headers.insert("b", http::HeaderValue::from_static("2"));
    let reader = HeadersExtractor(&headers);
    let mut names = reader.names();
    names.sort();
    assert_eq!(names, vec!["a", "b"]);
    for name in names {
        assert!(reader.lookup(name).is_some());
    }
}

#[test]
fn what_is_written_to_metadata_is_found_in_the_headers() {
    let mut metadata = MetadataMap::new();
    assert!(MetadataInjector::set(&mut metadata, "TraceParent", PARENT));
    let headers = metadata.into_headers();
    let reader = HeadersExtractor(&headers);
    assert_eq!(reader.lookup("TraceParent"), Some(PARENT));
    assert_eq!(reader.lookup("traceparent"), Some(PARENT));
    assert_eq!(reader.names(), vec!["traceparent"]);
}

#[test]
fn every_ascii_character_is_judged_as_a_header_name_judges_it() {
    for code in 0u8..=127 {
        let c = char::from(code);
        let token = matches!(c, '!' | '#'..='\'' | '*' | '+' | '-' | '.' | '0'..='9' | 'A'..='Z' | '^'..='z' | '|' | '~');
        let mut metadata = MetadataMap::new();
        let key = format!("x{}y", c);
        assert_eq!(MetadataInjector::set(&mut metadata, &key, "v"), token);
        if token {
            assert_eq!(text_at(&metadata, &key.to_ascii_lowercase()), Some("v"));
            assert_eq!(metadata.keys().count(), 1);
        } else {
            assert!(metadata.is_empty());
        }
    }
}

#[test]
fn every_ascii_character_is_judged_as_a_value_judges_it() {
    for code in 0u8..=127 {
        let c = char::from(code);
        let printable = (32..127).contains(&code) || c == '\t';
        let mut metadata = MetadataMap::new();
        let value = format!("x{}y", c);
        assert_eq!(MetadataInjector::set(&mut metadata, "k", &value), printable);
        assert_eq!(metadata.len(), if printable { 1 } else { 0 });
    }
}

#[test]
fn set_drops_a_key_that_marks_a_binary_entry_in_any_case() {
    let mut metadata = MetadataMap::new();
    assert!(!MetadataInjector::set(&mut metadata, "-bin", "v"));
    assert!(!MetadataInjector::set(&mut metadata, "Trace-BIN", "v"));
    assert!(MetadataInjector::set(&mut metadata, "bin", "v"));
    assert!(MetadataInjector::set(&mut metadata, "trace-bin-x", "v"));
    assert_eq!(metadata.len(), 2);
}

#[test]
fn names_held_counts_the_names_of_the_metadata() {
    let mut metadata = MetadataMap::new();
    assert_eq!(MetadataInjector::names_held(&metadata), 0);
    assert!(MetadataInjector::set(&mut metadata, "traceparent", PARENT));
    assert_eq!(MetadataInjector::names_held(&metadata), 1);
    assert!(!MetadataInjector::set(&mut metadata, "bad key", "v"));
    assert_eq!(MetadataInjector::names_held(&metadata), 1);
    assert!(MetadataInjector::set(&mut metadata, "traceparent", "again"));
    assert_eq!(MetadataInjector::names_held(&metadata), 1);
    metadata.append("traceparent", "more".parse().unwrap());
    assert_eq!(MetadataInjector::names_held(&metadata), 1);
    assert!(MetadataInjector::set(&mut metadata, "tracestate", ""));
    assert_eq!(MetadataInjector::names_held(&metadata), 2);
}

#[test]
fn a_map_with_room_stores_every_valid_pair() {
    let mut metadata = MetadataMap::new();
    for i in 0..3276 {
        assert!(MetadataInjector::set(&mut metadata, &format!("k{}", i), "v"));
    }
    assert_eq!(MetadataInjector::names_held(&metadata), 3276);
    assert!(MetadataInjector::set(&mut metadata, "one-more", "v"));
    assert_eq!(text_at(&metadata, "k0"), Some("v"));
    assert_eq!(text_at(&metadata, "one-more"), Some("v"));
}

#[test]
fn a_full_map_drops_the_pair_and_keeps_what_it_holds() {
    let mut metadata = MetadataMap::new();
    let mut stored = 0;
    for i in 0..40000 {
        if MetadataInjector::set(&mut metadata, &format!("k{}", i), "v") {
            stored += 1;
        }
    }
    assert!(stored > 3276);
    assert!(stored < 40000);
    assert_eq!(MetadataInjector::names_held(&metadata), stored);
    assert_eq!(text_at(&metadata, "k0"), Some("v"));
}

#[test]
fn extractor_does_not_hand_back_the_ambient_span() {
    opentelemetry::global::set_text_map_propagator(TraceContextPropagator::new());
    let _guard = remote_context().attach();
    let headers = http::HeaderMap::new();
    let context = TraceExtractor::new(()).context_of(&headers);
    assert!(!context.span().span_context().is_valid());
}
