use sysmon::collectors::cpu::{CpuCollector, CpuDelta};

const STAT_A: &str = "cpu  10 20 30 40 50 60 70 80 90 100\n\
cpu0 1 2 3 4 5 6 7\n\
cpu1 4 4 4 4\n\
intr 123 4 5 6 7 8\n\
cpu2 9 9 9 9 9 9 9\n";

#[test]
fn parse_stat_reads_leading_cpu_lines() {
    assert!(CpuCollector::stat_sums_fit(STAT_A));
    let r = CpuCollector::parse_stat(STAT_A);
    // first line: seven fields 10..70, idle = 40 + 50, total = 280
    // second line: idle = 4 + 5, total = 28
    // third line has only four fields; lines after `intr` are not read
    assert_eq!(r, vec![(90, 280), (9, 28)]);
}

#[test]
fn parse_stat_of_no_cpu_line_is_empty() {
    assert_eq!(CpuCollector::parse_stat(""), vec![]);
    assert_eq!(CpuCollector::parse_stat("intr 1 2 3 4 5\ncpu 1 2 3 4 5"), vec![]);
}

#[test]
fn parse_stat_reads_non_numbers_as_zero() {
    let r = CpuCollector::parse_stat("cpu 1 x 3 +4 5 -6\n");
    assert_eq!(r, vec![(9, 13)]);
}

#[test]
fn parse_stat_handles_crlf_and_tabs() {
    let r = CpuCollector::parse_stat("cpu\t1 1 1 1 1\r\ncpu0  2 2 2 2 2\r\n");
    assert_eq!(r, vec![(2, 5), (4, 10)]);
}

#[test]
fn stat_sums_fit_detects_overflow() {
    let text = "cpu 18446744073709551615 1 0 0 0\n";
    assert!(!CpuCollector::stat_sums_fit(text));
    let text = "cpu 18446744073709551615 0 0 0 0\n";
    assert!(CpuCollector::stat_sums_fit(text));
    assert_eq!(CpuCollector::parse_stat(text), vec![(0, 18446744073709551615)]);
}

#[test]
fn first_collect_returns_zeros() {
    let mut collector = CpuCollector::new();
    let readings = CpuCollector::parse_stat(STAT_A);
    let deltas = collector.advance(&readings);

    assert!(deltas.iter().all(|d| *d == CpuDelta { idle: 0, total: 0 }));
    assert!(!deltas.is_empty());
}

#[test]
fn second_collect_returns_percentages() {
    let mut collector = CpuCollector::new();
    let mut first = String::from("cpu  100 0 100 800 0 0 0\n");
    let mut second = String::from("cpu  150 0 150 900 0 0 0\n");
    for core in 0..32 {
        first.push_str(&format!("cpu{} 10 0 10 80 0 0 0\n", core));
        second.push_str(&format!("cpu{} 20 0 20 {} 0 0 0\n", core, 80 + core));
    }
    collector.advance(&CpuCollector::parse_stat(&first));
    let deltas = collector.advance(&CpuCollector::parse_stat(&second));

    assert!(deltas.iter().all(|d| d.idle <= d.total));
    assert_eq!(deltas[0], CpuDelta { idle: 100, total: 200 });
    assert_eq!(deltas[5], CpuDelta { idle: 4, total: 24 });
    assert_eq!(deltas.len(), 33);
}

#[test]
fn advance_saturates_and_defaults_missing_processors_to_zero() {
    let mut collector = CpuCollector::new();
    collector.advance(&vec![(50, 100)]);
    let deltas = collector.advance(&vec![(40, 130), (7, 9)]);
    assert_eq!(deltas, vec![CpuDelta { idle: 0, total: 30 }, CpuDelta { idle: 7, total: 9 }]);
}

#[test]
fn identical_readings_give_zero_deltas() {
    let mut collector = CpuCollector::new();
    let r = CpuCollector::parse_stat(STAT_A);
    collector.advance(&r);
    let deltas = collector.advance(&r);
    assert_eq!(deltas, vec![CpuDelta { idle: 0, total: 0 }; 2]);
}

#[test]
fn empty_first_reading_keeps_collector_waiting_for_a_baseline() {
    let mut collector = CpuCollector::new();
    assert!(collector.advance(&vec![]).is_empty());
    let deltas = collector.advance(&vec![(5, 10)]);
    assert_eq!(deltas, vec![CpuDelta { idle: 0, total: 0 }]);
}
