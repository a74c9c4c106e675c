use insights::ollama::{
    gin_fields_from_groups, gin_line_re, parse_gin_fields, ps_sample, split_duration, tail_step,
    DurationParts, DurationUnit, OllamaModel, PsOutcome, TailEvent, TailPhase,
};

fn duration_ms(p: &DurationParts) -> Option<f64> {
    let x: f64 = p.number.parse().ok()?;
    let ms = match p.unit {
        DurationUnit::Millis => x,
        DurationUnit::Micros => x / 1000.0,
        DurationUnit::Nanos => x / 1_000_000.0,
        DurationUnit::Seconds => x * 1000.0,
    };
    match &p.minutes {
        Some(m) => Some(m.parse::<f64>().ok()? * 60_000.0 + ms),
        None => Some(ms),
    }
}

fn parse_duration_ms(s: &str) -> Option<f64> {
    duration_ms(&split_duration(s)?)
}

#[test]
fn parses_typical_gin_post() {
    let re = gin_line_re().unwrap();
    let line = r#"[GIN] 2026/05/05 - 19:25:15 | 200 | 17.442302084s |       127.0.0.1 | POST     "/v1/chat/completions""#;
    let evt = parse_gin_fields(&re, line).unwrap();
    assert_eq!(evt.status, 200);
    assert_eq!(evt.method, "POST");
    assert_eq!(evt.path, "/v1/chat/completions");
    assert!((duration_ms(&evt.duration).unwrap() - 17442.302084).abs() < 1.0);
}

#[test]
fn parses_gin_get_ms() {
    let re = gin_line_re().unwrap();
    let line = r#"[GIN] 2026/05/05 - 19:24:54 | 200 |    9.148875ms |       127.0.0.1 | GET      "/api/tags""#;
    let evt = parse_gin_fields(&re, line).unwrap();
    assert_eq!(evt.method, "GET");
    assert!((duration_ms(&evt.duration).unwrap() - 9.148875).abs() < 0.01);
}

#[test]
fn rejects_non_gin_line() {
    let re = gin_line_re().unwrap();
    assert!(parse_gin_fields(&re, "time=2026 INFO foo").is_none());
}

#[test]
fn parses_durations() {
    assert_eq!(parse_duration_ms("100ms"), Some(100.0));
    assert_eq!(parse_duration_ms("1.5s"), Some(1500.0));
    assert_eq!(parse_duration_ms("500us"), Some(0.5));
    assert_eq!(parse_duration_ms("500µs"), Some(0.5));
    assert_eq!(parse_duration_ms("1m20.5s"), Some(80500.0));
    assert_eq!(parse_duration_ms("2m5s"), Some(125000.0));
    assert_eq!(parse_duration_ms("12h"), None);
}

#[test]
fn splits_duration_units() {
    let p = split_duration("  250ns\t").unwrap();
    assert_eq!(p.number, "250");
    assert!(p.unit == DurationUnit::Nanos);
    assert!(p.minutes.is_none());
    let p = split_duration("1m20.5s").unwrap();
    assert_eq!(p.minutes.as_deref(), Some("1"));
    assert_eq!(p.number, "20.5");
    assert!(p.unit == DurationUnit::Seconds);
    let p = split_duration("1.5s").unwrap();
    assert!(p.minutes.is_none());
    assert_eq!(p.number, "1.5");
    let p = split_duration("5ms").unwrap();
    assert!(p.minutes.is_none());
    assert_eq!(p.number, "5");
    assert!(p.unit == DurationUnit::Millis);
    let p = split_duration("ms").unwrap();
    assert_eq!(p.number, "");
    assert!(p.unit == DurationUnit::Millis);
    assert!(split_duration("12h").is_none());
    assert!(split_duration("").is_none());
    assert!(split_duration("\u{3000}").is_none());
}

#[test]
fn gin_status_must_read_as_u16() {
    let g = |s: &str| -> Vec<Option<String>> {
        vec![
            Some("whole".to_string()),
            Some(s.to_string()),
            Some("3ms".to_string()),
            Some("GET".to_string()),
            Some("/".to_string()),
        ]
    };
    assert_eq!(gin_fields_from_groups(&g("404")).unwrap().status, 404);
    assert_eq!(gin_fields_from_groups(&g("+65")).unwrap().status, 65);
    assert!(gin_fields_from_groups(&g("70000")).is_none());
    assert!(gin_fields_from_groups(&g("٢٠٠")).is_none());
    let mut missing = g("200");
    missing[3] = None;
    assert!(gin_fields_from_groups(&missing).is_none());
    assert!(gin_fields_from_groups(&vec![Some("x".to_string())]).is_none());
}

#[test]
fn gin_line_with_unknown_duration_unit_is_rejected() {
    let re = gin_line_re().unwrap();
    let line = r#"[GIN] 2026/05/05 - 19:24:54 | 200 |    3h |       127.0.0.1 | GET      "/api/tags""#;
    assert!(parse_gin_fields(&re, line).is_none());
}

fn model(name: &str) -> OllamaModel {
    OllamaModel {
        name: name.to_string(),
        model: name.to_string(),
        size: 1,
        size_vram: 0,
        expires_at: None,
    }
}

#[test]
fn ps_samples_by_outcome() {
    let s = ps_sample(PsOutcome::Unreachable, 7);
    assert!(!s.reachable && s.models.is_empty() && s.ts_ms == 7);
    let s = ps_sample(PsOutcome::Unreadable, 8);
    assert!(s.reachable && s.models.is_empty() && s.ts_ms == 8);
    let s = ps_sample(PsOutcome::Listed(vec![model("qwen3:30b")]), 9);
    assert!(s.reachable && s.ts_ms == 9);
    assert_eq!(s.models.len(), 1);
    assert_eq!(s.models[0].name, "qwen3:30b");
}

#[test]
fn log_tail_steps() {
    let s = tail_step(TailEvent::OpenFailed);
    assert!(!s.parse_line && s.sleep_ms == 5000 && s.next == TailPhase::Open);
    let s = tail_step(TailEvent::Opened);
    assert!(s.sleep_ms == 0 && s.next == TailPhase::SeekEnd);
    let s = tail_step(TailEvent::SeekFailed);
    assert!(s.sleep_ms == 2000 && s.next == TailPhase::Open);
    let s = tail_step(TailEvent::SoughtEnd);
    assert!(s.sleep_ms == 0 && s.next == TailPhase::ReadLine);
    let s = tail_step(TailEvent::EndOfFile);
    assert!(!s.parse_line && s.sleep_ms == 500 && s.next == TailPhase::ReadLine);
    let s = tail_step(TailEvent::LineRead);
    assert!(s.parse_line && s.sleep_ms == 0 && s.next == TailPhase::ReadLine);
    let s = tail_step(TailEvent::ReadFailed);
    assert!(!s.parse_line && s.sleep_ms == 2000 && s.next == TailPhase::Open);
}
