use sysmon::collectors::mem::{MemCollector, MemInfo};

const MEMINFO: &str = "MemTotal:       16305208 kB\n\
MemFree:         1208828 kB\n\
MemAvailable:    9381236 kB\n\
Buffers:          556900 kB\n\
SwapTotal:       2097148 kB\n\
SwapFree:        2097148 kB\n";

#[test]
fn collect_returns_four_values() {
    let info = MemCollector::parse_meminfo(MEMINFO);
    assert_eq!(
        info,
        MemInfo { total: 16305208, available: 9381236, swap_total: 2097148, swap_free: 2097148 }
    );
}

#[test]
fn missing_keys_read_as_zero() {
    let _collector = MemCollector::new();
    let info = MemCollector::parse_meminfo("MemTotal: 100 kB\nBogus\n\n");
    assert_eq!(info, MemInfo { total: 100, available: 0, swap_total: 0, swap_free: 0 });
    let info = MemCollector::parse_meminfo("");
    assert_eq!(info, MemInfo { total: 0, available: 0, swap_total: 0, swap_free: 0 });
}

#[test]
fn later_lines_override_earlier_ones() {
    let info = MemCollector::parse_meminfo("SwapFree: 1\nSwapFree:: 7 kB\nMemAvailable: junk\n");
    assert_eq!(info.swap_free, 7);
    assert_eq!(info.available, 0);
}

#[test]
fn key_needs_a_value_on_its_line() {
    let info = MemCollector::parse_meminfo("MemTotal: 5\nMemTotal:\n");
    assert_eq!(info.total, 5);
}

#[test]
fn oversized_value_reads_as_zero() {
    let info = MemCollector::parse_meminfo("MemTotal: 18446744073709551616 kB\nSwapTotal: 18446744073709551615\n");
    assert_eq!(info.total, 0);
    assert_eq!(info.swap_total, u64::MAX);
}
