use sysmon::collectors::disk::{device_label, DiskCollector, DiskUpdate};
use std::time::Instant;

const STATS_A: &str = "   7       0 loop0 10 0 500 0 0 0 0 0 0 0 0\n\
   1       0 ram0 1 2 3 4 5 6 7 8 9 10 11\n\
   8      16 sdb 200 0 4000 0 100 0 800 0 0 0 0\n\
   8       0 sda 100 0 2048 0 50 0 4096 0 0 0 0\n\
 259       0 nvme0n1 1 2 3 4\n";

const STATS_B: &str = "   8       0 sda 120 0 3072 0 60 0 4100 0 0 0 0\n\
   8      16 sdb 200 0 3000 0 100 0 900 0 0 0 0\n\
   8      32 sdc 1 0 77 0 1 0 88 0 0 0 0\n";

fn rows(t: &sysmon::collectors::disk::DiskTable) -> Vec<(String, u64, u64)> {
    t.entries()
        .iter()
        .map(|e| (e.name.iter().collect::<String>(), e.read, e.written))
        .collect()
}

#[test]
fn parse_skips_ram_loop_and_short_lines_and_sorts_by_name() {
    let t = DiskCollector::parse_diskstats(STATS_A);
    assert_eq!(
        rows(&t),
        vec![("sda".to_string(), 2048, 4096), ("sdb".to_string(), 4000, 800)]
    );
    assert_eq!(t.len(), 2);
}

#[test]
fn parse_keeps_the_last_line_of_a_device() {
    let t = DiskCollector::parse_diskstats(
        "8 0 sdb 0 0 1 0 0 0 2 0\n8 0 sda 0 0 3 0 0 0 4 0\n8 0 sdb 0 0 5 0 0 0 6 0\n",
    );
    assert_eq!(rows(&t), vec![("sda".to_string(), 3, 4), ("sdb".to_string(), 5, 6)]);
}

#[test]
fn parse_sorts_by_character_order() {
    let t = DiskCollector::parse_diskstats(
        "1 1 b 0 0 1 0 0 0 1\n1 1 ab 0 0 2 0 0 0 2\n1 1 a 0 0 3 0 0 0 3\n1 1 B 0 0 4 0 0 0 4\n",
    );
    let names: Vec<String> = rows(&t).into_iter().map(|r| r.0).collect();
    assert_eq!(names, vec!["B", "a", "ab", "b"]);
}

#[test]
fn first_collect_returns_empty_values() {
    let mut collector = DiskCollector::new();
    let update = collector.advance(DiskCollector::parse_diskstats(STATS_A), Instant::now());
    assert!(matches!(update, DiskUpdate::Baseline));
}

#[test]
fn second_collect_gives_sectors_moved_per_device() {
    let mut collector = DiskCollector::new();
    let t0 = Instant::now();
    collector.advance(DiskCollector::parse_diskstats(STATS_A), t0);
    let update = collector.advance(DiskCollector::parse_diskstats(STATS_B), Instant::now());
    match update {
        DiskUpdate::Baseline => panic!("expected rates"),
        DiskUpdate::Rates { since, devices } => {
            assert_eq!(since, Some(t0));
            let got: Vec<(String, u64, u64)> = devices
                .iter()
                .map(|d| (d.name.iter().collect::<String>(), d.read, d.written))
                .collect();
            assert_eq!(
                got,
                vec![
                    ("sda".to_string(), 1024, 4),
                    ("sdb".to_string(), 0, 100),
                    ("sdc".to_string(), 0, 0),
                ]
            );
        },
    }
}

#[test]
fn empty_reading_does_not_end_the_baseline() {
    let mut collector = DiskCollector::new();
    let update = collector.advance(DiskCollector::parse_diskstats(""), Instant::now());
    assert!(matches!(update, DiskUpdate::Baseline));
    let update = collector.advance(DiskCollector::parse_diskstats(STATS_B), Instant::now());
    assert!(matches!(update, DiskUpdate::Baseline));
}

#[test]
fn device_label_joins_names_with_commas() {
    let mut collector = DiskCollector::new();
    collector.advance(DiskCollector::parse_diskstats(STATS_A), Instant::now());
    match collector.advance(DiskCollector::parse_diskstats(STATS_B), Instant::now()) {
        DiskUpdate::Baseline => panic!("expected rates"),
        DiskUpdate::Rates { devices, .. } => {
            let label: String = device_label(&devices).into_iter().collect();
            assert_eq!(label, "sda,sdb,sdc");
            assert!(device_label(&Vec::new()).is_empty());
        },
    }
}
