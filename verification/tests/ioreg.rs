use insights::ioreg::{extract_kv_int, parse_perf_counters};

const FIXTURE: &str = r#"
        | "PerformanceStatistics" = {"In use system memory (driver)"=0,"Alloc system memory"=41632137216,"Tiler Utilization %"=2,"recoveryCount"=0,"lastRecoveryTime"=0,"Renderer Utilization %"=3,"TiledSceneBytes"=1703936,"Device Utilization %"=42,"SplitSceneCount"=0,"Allocated PB Size"=243138560,"In use system memory"=1116782592}
    "#;

#[test]
fn parses_device_util() {
    let s = parse_perf_counters(FIXTURE);
    assert_eq!(s.device_util, Some(42));
    assert_eq!(s.device_util.map(|v| v as f32).unwrap_or(0.0), 42.0);
}

#[test]
fn parses_in_use_bytes() {
    let s = parse_perf_counters(FIXTURE);
    assert_eq!(s.in_use_bytes, 1116782592);
}

#[test]
fn empty_input_returns_zero() {
    let s = parse_perf_counters("");
    assert_eq!(s.device_util.map(|v| v as f32).unwrap_or(0.0), 0.0);
    assert_eq!(s.in_use_bytes, 0);
}

#[test]
fn key_must_be_quoted_exactly() {
    // "In use system memory (driver)" comes first but is another key
    assert_eq!(extract_kv_int(FIXTURE, "In use system memory"), Some(1116782592));
    assert_eq!(extract_kv_int(FIXTURE, "In use system memory (driver)"), Some(0));
    assert_eq!(extract_kv_int(FIXTURE, "Missing"), None);
}

#[test]
fn reads_signs_and_rejects_malformed_values() {
    assert_eq!(extract_kv_int(r#""k"=-17,"#, "k"), Some(-17));
    assert_eq!(extract_kv_int(r#""k"=12-3"#, "k"), None);
    assert_eq!(extract_kv_int(r#""k"=-"#, "k"), None);
    assert_eq!(extract_kv_int(r#""k"="#, "k"), None);
    assert_eq!(extract_kv_int(r#""k"=abc"#, "k"), None);
    assert_eq!(extract_kv_int(r#""k"=9223372036854775807}"#, "k"), Some(i64::MAX));
    assert_eq!(extract_kv_int(r#""k"=-9223372036854775808}"#, "k"), Some(i64::MIN));
    assert_eq!(extract_kv_int(r#""k"=9223372036854775808}"#, "k"), None);
    assert_eq!(extract_kv_int(r#""k"=00012µs"#, "k"), Some(12));
    // only the first occurrence counts
    assert_eq!(extract_kv_int(r#""k"=x "k"=5"#, "k"), None);
}

#[test]
fn negative_memory_wraps_like_a_cast() {
    let s = parse_perf_counters(r#""In use system memory"=-1"#);
    assert_eq!(s.in_use_bytes, u64::MAX);
}
