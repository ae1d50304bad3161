use score_sync::mem::{
    count_once,
    bg_share_note, dims_bgra, dims_rgb, fmt_bytes, gpu_bytes, memory_summary, process_memory, MemTrace,
};

#[test]
fn fmt_bytes_buckets() {
    assert_eq!(fmt_bytes(0), "0B");
    assert_eq!(fmt_bytes(800), "800B");
    assert_eq!(fmt_bytes(1536), "1.5KB");
    assert_eq!(fmt_bytes(3 * 1024 * 1024), "3.0MB");
}

fn float_label(n: u64) -> String {
    const KB: f64 = 1024.0;
    const MB: f64 = 1024.0 * 1024.0;
    const GB: f64 = 1024.0 * 1024.0 * 1024.0;
    let x = n as f64;
    if x >= GB {
        format!("{:.2}GB", x / GB)
    } else if x >= MB {
        format!("{:.1}MB", x / MB)
    } else if x >= KB {
        format!("{:.1}KB", x / KB)
    } else {
        format!("{n}B")
    }
}

#[test]
fn fmt_bytes_matches_float_formatting() {
    let mut samples: Vec<u64> = vec![
        1023,
        1024,
        1280,
        1075,
        1126,
        10 * 1024 - 1,
        1024 * 1024 - 1,
        1024 * 1024 - 51,
        1024 * 1024 + 52428,
        9 * (1 << 27),
        (1 << 30) - 1,
        1 << 30,
        (1 << 30) + (1 << 27),
        3 * (1 << 27),
        (1u64 << 53) + 1,
        (1u64 << 53) + 3,
        u64::MAX,
        u64::MAX - 1024,
        1u64 << 63,
        (1u64 << 62) + 12345,
    ];
    let mut x: u64 = 0x9E37_79B9_7F4A_7C15;
    for _ in 0..2000 {
        x ^= x << 13;
        x ^= x >> 7;
        x ^= x << 17;
        samples.push(x >> (x % 64));
    }
    for n in samples {
        assert_eq!(fmt_bytes(n), float_label(n), "n = {n}");
    }
}

#[test]
fn ties_round_to_even() {
    assert_eq!(fmt_bytes(1280), "1.2KB");
    assert_eq!(fmt_bytes(9 * (1 << 27)), "1.12GB");
    assert_eq!(fmt_bytes(11 * (1 << 27)), "1.38GB");
    assert_eq!(fmt_bytes(u64::MAX), "17179869184.00GB");
}

#[test]
fn pixel_buffer_sizes() {
    assert_eq!(dims_rgb(10, 20), 600);
    assert_eq!(dims_bgra(10, 20), 800);
    assert_eq!(dims_rgb(0, 7), 0);
    assert_eq!(gpu_bytes(10, 20), 800);
    assert_eq!(gpu_bytes(-5, 20), 0);
}

#[test]
fn process_memory_zero_on_failure() {
    let m = process_memory(None);
    assert_eq!((m.working_set, m.private), (0, 0));
    let m = process_memory(Some((5, 7)));
    assert_eq!((m.working_set, m.private), (5, 7));
}

#[test]
fn trace_writes_heartbeats_and_changes() {
    let mut t = MemTrace::new();
    assert_eq!(t.poll(false, 0, 0), None);
    assert_eq!(t.poll(false, 1024 * 1024 - 1, 256 * 1024 - 1), None);
    assert_eq!(t.poll(false, 1024 * 1024, 0), Some("poll"));
    assert_eq!(t.last_working_set, 1024 * 1024);
    assert_eq!(t.poll(false, 1024 * 1024, 0), None);
    assert_eq!(t.poll(false, 1024 * 1024, 256 * 1024), Some("poll"));
    assert_eq!(t.poll(false, 0, 256 * 1024), Some("poll"));
    assert_eq!(t.poll(true, 0, 256 * 1024), Some("heartbeat"));
    assert_eq!(t.last_accounted, 256 * 1024);
}

#[test]
fn every_fifteenth_tick_is_a_heartbeat() {
    let mut t = MemTrace::new();
    let beats: Vec<u32> = (1..=45u32).filter(|_| t.tick()).collect::<Vec<_>>();
    assert_eq!(beats.len(), 3);
    assert_eq!(t.ticks, 45);
    let mut w = MemTrace { ticks: u32::MAX, last_working_set: 0, last_accounted: 0 };
    assert!(w.tick());
    assert_eq!(w.ticks, 0);
}

#[test]
fn background_share_notes() {
    assert_eq!(bg_share_note(true, 10, 10), "SHARED");
    assert_eq!(bg_share_note(false, 10, 10), "DUP");
    assert_eq!(bg_share_note(false, 0, 10), "-");
}

#[test]
fn summary_line() {
    assert_eq!(
        memory_summary(1024, 2048, 0, 512, 512, 3 * 1024 * 1024, 0),
        "内存 ws=1.0KB 已计=2.0KB 页图=0B 底色=1.0KB 蒙版=3.0MB 视频=0B"
    );
}

#[test]
fn shared_buffers_count_once() {
    let mut seen = std::collections::HashSet::new();
    assert_eq!(count_once(&mut seen, 0x1000, 600), 600);
    assert_eq!(count_once(&mut seen, 0x1000, 600), 0);
    assert_eq!(count_once(&mut seen, 0x2000, 30), 30);
    assert_eq!(seen.len(), 2);
}
