use insights::proxy::{
    first_ndjson_counts, is_hop_by_hop, ndjson_counts, ndjson_line_spans, openai_counts, rate_inputs, response_shape,
    upstream_url, InferenceCounts, OllamaDoneEvent, OpenAIChatResponse, OpenAIUsage,
    ResponseShape, StreamInspector, INSPECT_LIMIT,
};

fn field_u64(v: &serde_json::Value, k: &str) -> Option<u64> {
    v.get(k).and_then(|x| x.as_u64())
}

fn done_event(line: &[u8]) -> Option<OllamaDoneEvent> {
    let v: serde_json::Value = serde_json::from_slice(line).ok()?;
    Some(OllamaDoneEvent {
        model: v.get("model").and_then(|m| m.as_str()).map(String::from),
        done: v.get("done").and_then(|d| d.as_bool()),
        prompt_eval_count: field_u64(&v, "prompt_eval_count"),
        eval_count: field_u64(&v, "eval_count"),
        eval_duration: field_u64(&v, "eval_duration"),
        prompt_eval_duration: field_u64(&v, "prompt_eval_duration"),
        total_duration: field_u64(&v, "total_duration"),
    })
}

fn chat_response(buf: &[u8]) -> Option<OpenAIChatResponse> {
    let v: serde_json::Value = serde_json::from_slice(buf).ok()?;
    Some(OpenAIChatResponse {
        model: v.get("model").and_then(|m| m.as_str()).map(String::from),
        usage: v.get("usage").map(|u| OpenAIUsage {
            prompt_tokens: field_u64(u, "prompt_tokens"),
            completion_tokens: field_u64(u, "completion_tokens"),
        }),
    })
}

fn decoded_lines(buf: &[u8]) -> Vec<Option<OllamaDoneEvent>> {
    ndjson_line_spans(buf).into_iter().map(|(s, e)| done_event(&buf[s..e])).collect()
}

fn tps(count: Option<u64>, dur: Option<u64>) -> Option<f64> {
    rate_inputs(count, dur).map(|(c, d)| c as f64 / (d as f64 / 1_000_000_000.0))
}

fn extract_metric(buf: &[u8], path: &str) -> Option<(InferenceCounts, Option<f64>, Option<f64>)> {
    let counts = match response_shape(path) {
        ResponseShape::Ndjson => first_ndjson_counts(decoded_lines(buf), path),
        ResponseShape::OpenAiJson => chat_response(buf).and_then(|r| openai_counts(r, path)),
        ResponseShape::Unsupported => None,
    }?;
    let eval_tps = tps(counts.eval_count, counts.eval_duration_ns);
    let prompt_tps = tps(counts.prompt_eval_count, counts.prompt_eval_duration_ns);
    Some((counts, eval_tps, prompt_tps))
}

#[test]
fn ndjson_done_with_eval_counts() {
    let body = br#"{"model":"qwen3:30b","created_at":"2026-05-05T00:00:00Z","response":"hello","done":false}
{"model":"qwen3:30b","created_at":"2026-05-05T00:00:00Z","response":" world","done":false}
{"model":"qwen3:30b","created_at":"2026-05-05T00:00:00Z","done":true,"prompt_eval_count":12,"prompt_eval_duration":50000000,"eval_count":47,"eval_duration":1000000000,"total_duration":1080000000}
"#;
    let (m, eval_tps, prompt_tps) = extract_metric(body, "/api/chat").expect("metric");
    assert_eq!(m.model, "qwen3:30b");
    assert_eq!(m.eval_count, Some(47));
    assert_eq!(m.prompt_eval_count, Some(12));
    // 47 tokens / 1.0 s = 47 tps
    assert!((eval_tps.unwrap() - 47.0).abs() < 0.001);
    // 12 tokens / 0.05 s = 240 tps
    assert!((prompt_tps.unwrap() - 240.0).abs() < 0.01);
}

#[test]
fn openai_usage_block() {
    let body = br#"{"id":"chatcmpl-1","object":"chat.completion","model":"qwen3:30b","choices":[{"message":{"role":"assistant","content":"hi"}}],"usage":{"prompt_tokens":12,"completion_tokens":5,"total_tokens":17}}"#;
    let (m, eval_tps, _) = extract_metric(body, "/v1/chat/completions").expect("metric");
    assert_eq!(m.model, "qwen3:30b");
    assert_eq!(m.eval_count, Some(5));
    assert_eq!(m.prompt_eval_count, Some(12));
    assert!(eval_tps.is_none());
}

#[test]
fn ndjson_without_done_returns_none() {
    let body = br#"{"model":"qwen3","done":false,"response":"x"}
"#;
    assert!(extract_metric(body, "/api/chat").is_none());
}

#[test]
fn unrelated_path_returns_none() {
    assert!(extract_metric(b"{}", "/api/tags").is_none());
    assert!(response_shape("/api/tags") == ResponseShape::Unsupported);
}

#[test]
fn shapes_by_path() {
    assert!(response_shape("/api/generate") == ResponseShape::Ndjson);
    assert!(response_shape("/api/chat") == ResponseShape::Ndjson);
    assert!(response_shape("/v1/completions") == ResponseShape::OpenAiJson);
    assert!(response_shape("/v1/chat/completions") == ResponseShape::OpenAiJson);
    assert!(response_shape("/api/chat/") == ResponseShape::Unsupported);
}

#[test]
fn line_spans_last_first_without_blank_lines() {
    let buf = b"ab\n\n  \ncd \r\nxyz";
    let spans = ndjson_line_spans(buf);
    assert_eq!(spans, vec![(12, 15), (7, 9), (0, 2)]);
    assert!(ndjson_line_spans(b"").is_empty());
    assert!(ndjson_line_spans(b"\n\n").is_empty());
    assert_eq!(ndjson_line_spans(b"\nx\n"), vec![(1, 2)]);
}

#[test]
fn counts_need_done_and_eval_count() {
    let evt = |done: Option<bool>, eval: Option<u64>| OllamaDoneEvent {
        model: None,
        done,
        prompt_eval_count: None,
        eval_count: eval,
        eval_duration: Some(3),
        prompt_eval_duration: None,
        total_duration: Some(9),
    };
    assert!(ndjson_counts(evt(Some(false), Some(1)), "/api/chat").is_none());
    assert!(ndjson_counts(evt(None, Some(1)), "/api/chat").is_none());
    assert!(ndjson_counts(evt(Some(true), None), "/api/chat").is_none());
    let c = ndjson_counts(evt(Some(true), Some(1)), "/api/generate").unwrap();
    assert_eq!(c.model, "");
    assert_eq!(c.path, "/api/generate");
    assert_eq!(c.eval_duration_ns, Some(3));
    assert_eq!(c.total_duration_ns, Some(9));
}

#[test]
fn openai_counts_need_usage() {
    let r = OpenAIChatResponse { model: Some("m".to_string()), usage: None };
    assert!(openai_counts(r, "/v1/completions").is_none());
}

#[test]
fn rates_need_positive_duration() {
    assert_eq!(rate_inputs(Some(5), Some(0)), None);
    assert_eq!(rate_inputs(None, Some(10)), None);
    assert_eq!(rate_inputs(Some(5), None), None);
    assert_eq!(rate_inputs(Some(5), Some(10)), Some((5, 10)));
}

#[test]
fn hop_by_hop_headers() {
    assert!(is_hop_by_hop("connection"));
    assert!(is_hop_by_hop("Content-Length"));
    assert!(is_hop_by_hop("TE"));
    assert!(!is_hop_by_hop("content-type"));
    assert!(!is_hop_by_hop("x-host"));
}

#[test]
fn forwards_to_upstream() {
    assert_eq!(upstream_url("/api/ps?x=1"), "http://127.0.0.1:11434/api/ps?x=1");
}

#[test]
fn inspector_closes_on_found_statistics() {
    let mut i = StreamInspector::new();
    assert!(i.is_open());
    i.absorb(b"abc");
    i.absorb(b"de");
    assert_eq!(i.buffer(), b"abcde");
    i.settle(false);
    assert!(i.is_open());
    i.settle(true);
    assert!(!i.is_open());
    assert!(i.buffer().is_empty());
    i.absorb(b"more");
    assert!(i.buffer().is_empty());
}

#[test]
fn inspector_gives_up_past_the_limit() {
    let mut i = StreamInspector::new();
    let chunk = vec![b'x'; INSPECT_LIMIT];
    i.absorb(&chunk);
    i.settle(false);
    assert!(i.is_open());
    i.absorb(b"y");
    i.settle(false);
    assert!(!i.is_open());
    assert!(i.buffer().is_empty());
}

fn event(done: Option<bool>, eval_count: Option<u64>, model: &str) -> OllamaDoneEvent {
    OllamaDoneEvent {
        model: Some(model.to_string()),
        done,
        prompt_eval_count: Some(3),
        eval_count,
        eval_duration: Some(9),
        prompt_eval_duration: None,
        total_duration: Some(11),
    }
}

#[test]
fn first_final_event_is_picked() {
    let events = vec![
        None,
        Some(event(Some(false), Some(1), "a")),
        Some(event(Some(true), None, "b")),
        Some(event(Some(true), Some(47), "c")),
        Some(event(Some(true), Some(50), "d")),
    ];
    let c = first_ndjson_counts(events, "/api/generate").expect("final event");
    assert_eq!(c.model, "c");
    assert_eq!(c.path, "/api/generate");
    assert_eq!(c.eval_count, Some(47));
    assert_eq!(c.prompt_eval_count, Some(3));
    assert_eq!(c.eval_duration_ns, Some(9));
    assert_eq!(c.prompt_eval_duration_ns, None);
    assert_eq!(c.total_duration_ns, Some(11));
}

#[test]
fn no_final_event_gives_none() {
    assert!(first_ndjson_counts(vec![], "/api/chat").is_none());
    let events = vec![None, Some(event(None, Some(4), "a")), Some(event(Some(true), None, "b"))];
    assert!(first_ndjson_counts(events, "/api/chat").is_none());
}

#[test]
fn appended_unqualified_lines_change_nothing() {
    let body: &[u8] = br#"{"model":"m","done":true,"eval_count":5,"eval_duration":1000000000}"#;
    let mut longer = body.to_vec();
    longer.extend_from_slice(b"\n{\"model\":\"x\",\"done\":false}\nnot json\n{\"done\":true}");
    let a = first_ndjson_counts(decoded_lines(body), "/api/chat").unwrap();
    let b = first_ndjson_counts(decoded_lines(&longer), "/api/chat").unwrap();
    assert_eq!(a.model, b.model);
    assert_eq!(a.eval_count, b.eval_count);
    assert_eq!(a.eval_duration_ns, b.eval_duration_ns);
    let empty: &[u8] = b"{\"done\":false}";
    let mut more = empty.to_vec();
    more.extend_from_slice(b"\n{\"done\":true}\n");
    assert!(first_ndjson_counts(decoded_lines(empty), "/api/chat").is_none());
    assert!(first_ndjson_counts(decoded_lines(&more), "/api/chat").is_none());
}
