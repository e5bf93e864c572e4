use macsweep::mem::MemStats;
use macsweep::scan::{build_entry, Category, Item};
use macsweep::ui::{
    freed_line, human_size, memory_status_line, review_line, sizes_of, summary_line, swap_title, used_title,
};

/// The formatting of sizes by floating point, for comparison.
fn float_size(bytes: u64) -> String {
    const UNITS: [&str; 5] = ["B", "KB", "MB", "GB", "TB"];
    let mut size = bytes as f64;
    let mut unit = 0;
    while size >= 1024.0 && unit < UNITS.len() - 1 {
        size /= 1024.0;
        unit += 1;
    }
    if unit == 0 {
        format!("{bytes} B")
    } else {
        format!("{size:.1} {}", UNITS[unit])
    }
}

#[test]
fn human_size_exact_values() {
    assert_eq!(human_size(0), "0 B");
    assert_eq!(human_size(512), "512 B");
    assert_eq!(human_size(1023), "1023 B");
    assert_eq!(human_size(1024), "1.0 KB");
    assert_eq!(human_size(1536), "1.5 KB");
    assert_eq!(human_size(1280), "1.2 KB");
    assert_eq!(human_size(1048575), "1024.0 KB");
    assert_eq!(human_size(1048576), "1.0 MB");
    assert_eq!(human_size(3 * 1073741824), "3.0 GB");
    assert_eq!(human_size(1099511627776), "1.0 TB");
    assert_eq!(human_size(u64::MAX), "16777216.0 TB");
}

#[test]
fn human_size_agrees_with_float_formatting() {
    let mut values: Vec<u64> = Vec::new();
    for i in 0..5000u64 {
        values.push(i);
        values.push(i * 256);
        values.push(i * 1024 + 512);
        values.push(i * 1048576 / 20);
    }
    for shift in 0..64u32 {
        let p = 1u64 << shift;
        for d in 0..40u64 {
            values.push(p.wrapping_add(d));
            values.push(p.wrapping_sub(d));
            values.push(p.wrapping_mul(3).wrapping_add(d * 977));
        }
    }
    let mut x: u64 = 0x9E37_79B9_7F4A_7C15;
    for _ in 0..200_000 {
        x ^= x << 13;
        x ^= x >> 7;
        x ^= x << 17;
        values.push(x);
        values.push(x >> (x % 64));
    }
    for v in values {
        assert_eq!(human_size(v), float_size(v), "bytes = {v}");
    }
}

#[test]
fn review_line_layout() {
    let mut entry = build_entry(
        Category::Logs,
        vec![Item { path: "/a".to_string(), size: 1536 }, Item { path: "/b".to_string(), size: 0 }],
        3,
    );
    assert_eq!(
        review_line(&entry),
        format!("\u{2611} {:<22} {:>10}  {}{}", "Logs", "1.5 KB", "2 items", "  (3 in use, skipped)")
    );
    entry.selected = false;
    entry.skipped_running = 0;
    assert_eq!(review_line(&entry), format!("\u{2610} {:<22} {:>10}  {}", "Logs", "1.5 KB", "2 items"));
}

#[test]
fn summary_texts() {
    assert_eq!(freed_line(2048), "Freed 2.0 KB");
    assert_eq!(summary_line("Trash", 10), format!("  {:<22} {}", "Trash", "10 B"));
    assert_eq!(summary_line("iOS Device Backups (stale)", 0), "  iOS Device Backups (stale) 0 B");
    assert_eq!(sizes_of(0, 1), "0 B / 1 B");
}

#[test]
fn memory_texts() {
    let stats = MemStats {
        total_bytes: 8 * 1073741824,
        used_bytes: 2 * 1073741824,
        available_bytes: 6 * 1073741824,
        swap_used_bytes: 0,
        swap_total_bytes: 1073741824,
    };
    assert_eq!(used_title(&stats), "Used (2.0 GB / 8.0 GB)");
    assert_eq!(swap_title(&stats), "Swap (0 B / 1.0 GB)");
    assert_eq!(memory_status_line(stats.available_bytes, None), "Available: 6.0 GB");
    assert_eq!(
        memory_status_line(stats.available_bytes, Some("Memory freed.")),
        "Available: 6.0 GB  \u{b7}  Memory freed."
    );
}
