use insights::processes::{
    f64_image_exec, fmt_bytes, plan_for_kind, rank_by_memory, KindPlan, MemoryRow, GPU_NOTE,
};

fn float_format(b: u64) -> String {
    let mb = b as f64 / 1024.0 / 1024.0;
    if mb >= 1024.0 {
        format!("{:.2} GB", mb / 1024.0)
    } else {
        format!("{:.0} MB", mb)
    }
}

#[test]
fn fmt_bytes_small_values() {
    assert_eq!(fmt_bytes(0), "0 MB");
    assert_eq!(fmt_bytes(1048576), "1 MB");
    assert_eq!(fmt_bytes(1073741823), "1024 MB");
    assert_eq!(fmt_bytes(1073741824), "1.00 GB");
    assert_eq!(fmt_bytes(1610612736), "1.50 GB");
}

#[test]
fn fmt_bytes_rounds_ties_to_even() {
    // 0.5 MB, 1.5 MB and 2.5 MB
    assert_eq!(fmt_bytes(524288), "0 MB");
    assert_eq!(fmt_bytes(1572864), "2 MB");
    assert_eq!(fmt_bytes(2621440), "2 MB");
}

#[test]
fn fmt_bytes_matches_float_formatting() {
    let mut samples: Vec<u64> = vec![
        0,
        1,
        524287,
        524288,
        524289,
        1572864,
        2621440,
        1073217535,
        1073217536,
        1073741823,
        1073741824,
        u64::MAX,
        u64::MAX - 1,
        1 << 53,
        (1 << 53) + 1,
        (1 << 53) + 3,
        (1 << 54) - 1,
        (1 << 63) + 1025,
    ];
    // values whose GiB figure ends exactly half-way between two hundredths
    for b in (1u64 << 30)..((1u64 << 30) + 200_000_000) {
        if (b as u128 * 100) % (1u128 << 30) == (1u128 << 29) {
            samples.push(b);
        }
    }
    let mut x: u64 = 0x9E37_79B9_7F4A_7C15;
    for _ in 0..20000 {
        x ^= x << 13;
        x ^= x >> 7;
        x ^= x << 17;
        samples.push(x);
        samples.push(x >> (x % 64));
    }
    for b in samples {
        assert_eq!(fmt_bytes(b), float_format(b), "b = {}", b);
        assert_eq!(f64_image_exec(b) as f64, b as f64, "b = {}", b);
    }
}

#[test]
fn plans_for_each_kind() {
    assert!(matches!(plan_for_kind("cpu"), KindPlan::Cpu));
    assert!(matches!(plan_for_kind("ram"), KindPlan::Ram));
    match plan_for_kind("gpu") {
        KindPlan::Unavailable(note) => assert_eq!(note, GPU_NOTE),
        _ => panic!("gpu is not sampled"),
    }
    match plan_for_kind("vram") {
        KindPlan::Unavailable(note) => assert_eq!(
            note,
            "Per-process GPU metrics require sudo (powermetrics) — disabled by design."
        ),
        _ => panic!("vram is not sampled"),
    }
    match plan_for_kind("disk") {
        KindPlan::Unavailable(note) => assert_eq!(note, "Unknown kind: disk"),
        _ => panic!("disk is unknown"),
    }
    match plan_for_kind("CPU") {
        KindPlan::Unavailable(note) => assert_eq!(note, "Unknown kind: CPU"),
        _ => panic!("kinds are case-sensitive"),
    }
}

fn row(pid: u32, name: &str, bytes: u64) -> MemoryRow {
    MemoryRow { pid, name: name.to_string(), bytes }
}

#[test]
fn ranks_by_memory_descending_and_truncates() {
    let rows = vec![
        row(1, "a", 100 << 20),
        row(2, "b", 3 << 30),
        row(3, "c", 512 << 20),
        row(4, "d", 3 << 30),
        row(5, "e", 0),
    ];
    let r = rank_by_memory(rows, 3);
    let pids: Vec<u32> = r.iter().map(|p| p.pid).collect();
    assert_eq!(pids, vec![2, 4, 3]);
    assert_eq!(r[0].display, "3.00 GB");
    assert_eq!(r[2].display, "512 MB");
    assert_eq!(r[2].name, "c");
}

#[test]
fn ranking_keeps_order_of_equal_memory() {
    // these differ as integers but are the same f64
    let big = 1u64 << 60;
    let rows = vec![row(7, "x", big + 1), row(8, "y", big), row(9, "z", big + 2)];
    let r = rank_by_memory(rows, 10);
    let pids: Vec<u32> = r.iter().map(|p| p.pid).collect();
    assert_eq!(pids, vec![7, 8, 9]);
}

#[test]
fn ranking_with_limit_zero_or_empty_input() {
    assert!(rank_by_memory(vec![row(1, "a", 5)], 0).is_empty());
    assert!(rank_by_memory(Vec::new(), 10).is_empty());
}
