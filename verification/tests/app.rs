use sysmon::app::{AppState, Page, HISTORY_SIZE};
use sysmon::collectors::cpu::CpuCollector;

fn new_app() -> AppState<f64> {
    AppState::new()
}

#[test]
fn new_appstate_starts_on_summary_page() {
    let app = new_app();
    assert_eq!(app.page, Page::Summary);
}

#[test]
fn new_appstate_starts_unpaused() {
    let app = new_app();
    assert!(!app.paused);
}

#[test]
fn toggle_pause_flips_state() {
    let mut app = new_app();
    app.toggle_pause();
    assert!(app.paused);
    app.toggle_pause();
    assert!(!app.paused);
}

#[test]
fn page_navigation_cycles_forward() {
    let mut app = new_app();
    app.next_page();
    assert_eq!(app.page, Page::Cpu);
    app.next_page();
    assert_eq!(app.page, Page::Processes);
    app.next_page();
    assert_eq!(app.page, Page::Summary);
}

#[test]
fn page_navigation_cycles_backward() {
    let mut app = new_app();
    app.prev_page();
    assert_eq!(app.page, Page::Processes);
    app.prev_page();
    assert_eq!(app.page, Page::Cpu);
    app.prev_page();
    assert_eq!(app.page, Page::Summary);
}

#[test]
fn collect_due_compares_elapsed_time_with_the_interval() {
    let mut app = new_app();
    assert_eq!(app.collect_interval, 1_000_000_000);
    assert!(!app.collect_due(999_999_999));
    assert!(app.collect_due(1_000_000_000));
    assert!(app.collect_due(5_000_000_000));
    app.toggle_pause();
    assert!(!app.collect_due(5_000_000_000));
}

#[test]
fn tick_at_stores_the_given_time_when_due() {
    let mut app = new_app();
    let t0 = std::time::Instant::now();
    assert!(app.tick_at(None, t0));
    assert_eq!(app.last_collect, Some(t0));

    let t1 = std::time::Instant::now();
    assert!(!app.tick_at(Some(999_999_999), t1));
    assert_eq!(app.last_collect, Some(t0));

    assert!(app.tick_at(Some(1_000_000_000), t1));
    assert_eq!(app.last_collect, Some(t1));

    app.toggle_pause();
    assert!(!app.tick_at(None, std::time::Instant::now()));
    assert_eq!(app.last_collect, Some(t1));
}

#[test]
fn next_and_prev_undo_each_other() {
    for p in [Page::Summary, Page::Cpu, Page::Processes] {
        assert_eq!(p.next().prev(), p);
        assert_eq!(p.prev().next(), p);
        assert_ne!(p.next(), p);
    }
}

const STAT_1: &str = "cpu 10 0 10 80 0 0 0\ncpu0 5 0 5 40 0 0 0\ncpu1 5 0 5 40 0 0 0\n";
const STAT_2: &str = "cpu 30 0 30 140 0 0 0\ncpu0 15 0 15 70 0 0 0\ncpu1 15 0 15 70 0 0 0\n";

/// One tick as the monitor runs it, with `stat` standing for `/proc/stat`.
fn tick(app: &mut AppState<f64>, collector: &mut CpuCollector, stat: &str) -> bool {
    let (due, _) = app.tick_due();
    if due {
        let deltas = collector.advance(&CpuCollector::parse_stat(stat));
        let values: Vec<f64> = deltas
            .iter()
            .map(|d| {
                if d.total == 0 {
                    0.0
                } else {
                    ((d.total - d.idle) as f64 / d.total as f64 * 100.0).clamp(0.0, 100.0)
                }
            })
            .collect();
        app.record_cpu(&values);
    }
    due
}

#[test]
fn tick_does_nothing_when_paused() {
    let mut app = new_app();
    let mut collector = CpuCollector::new();
    app.toggle_pause();
    assert!(!tick(&mut app, &mut collector, STAT_1));

    assert!(app.cpu_history.is_empty());
    assert!(app.last_collect.is_none());
}

#[test]
fn tick_respects_collect_interval() {
    let mut app = new_app();
    let mut collector = CpuCollector::new();

    // first tick collects at once
    assert!(tick(&mut app, &mut collector, STAT_1));
    let len_after_first = app.cpu_history.len();
    assert_eq!(len_after_first, 3);

    // immediate second tick: the interval has not passed
    let before = app.last_collect;
    let (due, elapsed) = app.tick_due();
    assert!(!due);
    assert!(elapsed.unwrap() < app.collect_interval);
    assert_eq!(app.last_collect, before);

    assert_eq!(app.cpu_history.len(), len_after_first);
}

#[test]
fn tick_populates_cpu_history() {
    let mut app = new_app();
    let mut collector = CpuCollector::new();

    // first tick establishes the baseline: usage reads zero
    assert!(tick(&mut app, &mut collector, STAT_1));
    // let the interval pass
    app.collect_interval = 0;
    assert!(tick(&mut app, &mut collector, STAT_2));

    assert!(!app.cpu_history.is_empty());
    let h0: Vec<f64> = app.cpu_history[0].latest(10).into_iter().copied().collect();
    assert_eq!(h0, vec![0.0, 40.0]);
    assert!(app.cpu_history.iter().all(|b| b.len() == 2 && b.capacity() == HISTORY_SIZE));
}

#[test]
fn record_pushes_value_i_onto_history_i() {
    let mut app: AppState<u32> = AppState::new();
    app.record_cpu(&vec![1, 2]);
    app.record_cpu(&vec![3, 4, 5]);
    app.record_cpu(&vec![6]);
    assert_eq!(app.cpu_history.len(), 2);
    let h0: Vec<u32> = app.cpu_history[0].latest(10).into_iter().copied().collect();
    let h1: Vec<u32> = app.cpu_history[1].latest(10).into_iter().copied().collect();
    assert_eq!(h0, vec![1, 3, 6]);
    assert_eq!(h1, vec![2, 4]);
}

#[test]
fn record_of_no_values_creates_no_history() {
    let mut app: AppState<u32> = AppState::new();
    app.record_disk(&vec![]);
    assert!(app.disk_history.is_empty());
    app.record_disk(&vec![7, 8]);
    assert_eq!(app.disk_history.len(), 2);
}

#[test]
fn record_mem_keeps_the_first_value() {
    let mut app: AppState<u32> = AppState::new();
    app.record_mem(&vec![]);
    assert!(app.mem_history.is_empty());
    app.record_mem(&vec![9, 100, 1, 2]);
    app.record_mem(&vec![10, 100, 1, 2]);
    let h: Vec<u32> = app.mem_history.latest(5).into_iter().copied().collect();
    assert_eq!(h, vec![9, 10]);
    for v in 0..100 {
        app.record_mem(&vec![v]);
    }
    assert_eq!(app.mem_history.len(), HISTORY_SIZE);
    assert_eq!(*app.mem_history.latest(1)[0], 99);
}
