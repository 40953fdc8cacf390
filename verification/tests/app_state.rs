use nxtop::app::{cpu_percent, filter_keeps, record_sample, rss_bytes, to_proc_row, App, ProcessRow, HISTORY};
use std::collections::VecDeque;
use nxtop::proc::{CpuStat, NetSample, PidStat};

fn cpu_core(user: u64, idle: u64) -> CpuStat {
    CpuStat { user, nice: 0, system: 0, idle, iowait: 0, irq: 0, softirq: 0 }
}

fn row(pid: u32, name: &str) -> ProcessRow {
    ProcessRow { pid, name: name.to_string(), state: 'S', ppid: 1, threads: 1, depth: 0 }
}

fn pstat(pid: u32, ppid: u32, utime: u64, stime: u64) -> PidStat {
    PidStat {
        pid,
        name: format!("p{}", pid),
        state: 'S',
        ppid,
        utime,
        stime,
        threads: 1,
        rss: 10,
    }
}

fn sample(name: &str, rx: u64, tx: u64) -> NetSample {
    NetSample { name: name.to_string(), rx_bytes: rx, tx_bytes: tx }
}

#[test]
fn new_app_has_idle_histories() {
    let app = App::new(vec![cpu_core(1, 1), cpu_core(2, 2)]);
    assert_eq!(app.cpu_history.len(), 2);
    assert!(app.cpu_history.iter().all(|h| h.len() == HISTORY && h.iter().all(|v| *v == 0)));
    assert_eq!(app.selected, Some(0));
    assert_eq!(app.tab, 0);
    let none = App::new(vec![]);
    assert_eq!(none.cpu_history.len(), 1);
    assert_eq!(none.core_count(), 1);
}

#[test]
fn cpu_percent_values() {
    assert_eq!(cpu_percent(&cpu_core(100, 100), &cpu_core(150, 150)), 50);
    assert_eq!(cpu_percent(&cpu_core(100, 100), &cpu_core(100, 100)), 0);
    assert_eq!(cpu_percent(&cpu_core(100, 100), &cpu_core(300, 100)), 100);
    assert_eq!(cpu_percent(&cpu_core(500, 500), &cpu_core(100, 100)), 0);
}

#[test]
fn update_cpu_shifts_history() {
    let mut app = App::new(vec![cpu_core(100, 100)]);
    app.update_cpu(vec![cpu_core(150, 150), cpu_core(7, 7)]);
    assert_eq!(app.cpu_history.len(), 2);
    assert_eq!(app.cpu_history[0].len(), HISTORY);
    assert_eq!(*app.cpu_history[0].back().unwrap(), 50);
    assert_eq!(app.cpu_history[0][0], 0);
    assert!(app.cpu_history[1].iter().all(|v| *v == 0));
    app.update_cpu(vec![cpu_core(250, 150), cpu_core(17, 7)]);
    assert_eq!(*app.cpu_history[0].back().unwrap(), 100);
    assert_eq!(*app.cpu_history[1].back().unwrap(), 100);
    assert_eq!(app.cpu_history[0][HISTORY - 2], 50);
    assert_eq!(app.core_count(), 2);
}

#[test]
fn history_never_grows_past_limit() {
    let mut app = App::new(vec![cpu_core(0, 0)]);
    for k in 1..100u64 {
        app.update_cpu(vec![cpu_core(k * 10, k * 10)]);
        assert_eq!(app.cpu_history[0].len(), HISTORY);
    }
    assert!(app.cpu_history[0].iter().all(|v| *v == 50));
}

#[test]
fn tabs_wrap_both_ways() {
    let mut app = App::new(vec![]);
    app.next_tab();
    assert_eq!(app.tab, 1);
    app.next_tab();
    app.next_tab();
    assert_eq!(app.tab, 0);
    app.prev_tab();
    assert_eq!(app.tab, 2);
    app.next_tab();
    assert_eq!(app.tab, 0);
}

#[test]
fn filter_by_name_or_pid() {
    let mut app = App::new(vec![]);
    app.processes = vec![row(100, "Firefox"), row(234, "bash"), row(1000, "python3")];
    assert_eq!(app.visible_indices(), vec![0, 1, 2]);
    app.filter = "fire".to_string();
    assert_eq!(app.visible_indices(), vec![0]);
    app.filter = "BASH".to_string();
    assert_eq!(app.visible_indices(), vec![1]);
    app.filter = "10".to_string();
    assert_eq!(app.visible_indices(), vec![0, 2]);
    app.filter = "zzz".to_string();
    assert!(app.visible_indices().is_empty());
}

#[test]
fn selection_moves_within_list() {
    let mut app = App::new(vec![]);
    app.processes = vec![row(1, "a"), row(2, "b"), row(3, "c")];
    app.next();
    assert_eq!(app.selected, Some(1));
    app.next();
    app.next();
    assert_eq!(app.selected, Some(2));
    app.previous();
    assert_eq!(app.selected, Some(1));
    app.previous();
    app.previous();
    assert_eq!(app.selected, Some(0));
    app.selected = None;
    app.next();
    assert_eq!(app.selected, Some(0));
    app.selected = None;
    app.previous();
    assert_eq!(app.selected, Some(0));
}

#[test]
fn selection_unchanged_on_empty_list() {
    let mut app = App::new(vec![]);
    app.selected = Some(5);
    app.next();
    assert_eq!(app.selected, Some(5));
}

#[test]
fn kill_target_follows_filter() {
    let mut app = App::new(vec![]);
    app.processes = vec![row(100, "Firefox"), row(234, "bash"), row(1000, "python3")];
    app.filter = "10".to_string();
    app.selected = Some(1);
    assert_eq!(app.kill_target(), Some(1000));
    app.selected = Some(2);
    assert_eq!(app.kill_target(), None);
    app.selected = None;
    assert_eq!(app.kill_target(), None);
}

#[test]
fn toggle_tree_flips() {
    let mut app = App::new(vec![]);
    app.toggle_tree();
    assert!(app.tree_mode);
    app.toggle_tree();
    assert!(!app.tree_mode);
}

#[test]
fn tick_deltas_between_samples() {
    let mut app = App::new(vec![cpu_core(100, 100), cpu_core(50, 50)]);
    let (d, total) = app.sample_ticks(&vec![pstat(1, 0, 10, 5), pstat(2, 1, 3, 3)]);
    assert_eq!(d, vec![0, 0]);
    assert_eq!(total, 300);
    assert_eq!(app.prev_total, 300);
    app.update_cpu(vec![cpu_core(200, 100), cpu_core(60, 60)]);
    let (d, total) = app.sample_ticks(&vec![pstat(2, 1, 10, 3), pstat(3, 1, 7, 7), pstat(1, 0, 9, 5)]);
    assert_eq!(d, vec![7, 0, 0]);
    assert_eq!(total, 120);
}

#[test]
fn net_rates_need_a_previous_sample() {
    let mut app = App::new(vec![]);
    let first = vec![sample("lo", 100, 200), sample("eth0", 1000, 2000)];
    let d = app.net_deltas(&first);
    assert_eq!(d, vec![None, None]);
    app.set_net(first, &vec![(0, 0), (0, 0)]);
    assert_eq!(app.net.len(), 2);
    assert_eq!(app.net[1].name, "eth0");
    assert_eq!(app.net[1].rx_total, 1000);
    let second = vec![sample("eth0", 1500, 1900), sample("wlan0", 5, 5)];
    let d = app.net_deltas(&second);
    assert_eq!(d, vec![Some((500, 0)), None]);
    app.set_net(second, &vec![(250, 0), (0, 0)]);
    assert_eq!(app.net[0].rx_bps, 250);
    assert_eq!(app.net[0].tx_total, 1900);
}

#[test]
fn net_rates_use_last_duplicate() {
    let mut app = App::new(vec![]);
    app.set_net(vec![sample("x", 10, 10), sample("x", 40, 40)], &vec![(0, 0), (0, 0)]);
    assert_eq!(app.net_deltas(&vec![sample("x", 50, 45)]), vec![Some((10, 5))]);
}

#[test]
fn flat_and_tree_layouts() {
    let mut app = App::new(vec![]);
    let stats = vec![pstat(10, 1, 0, 0), pstat(1, 0, 0, 0), pstat(5, 1, 0, 0)];
    assert_eq!(app.layout_processes(&stats), vec![(0, 0), (1, 0), (2, 0)]);
    app.tree_mode = true;
    assert_eq!(app.layout_processes(&stats), vec![(1, 0), (2, 1), (0, 1)]);
}

#[test]
fn rows_from_stats() {
    let s = pstat(42, 7, 1, 1);
    let r = to_proc_row(&s, 3);
    assert_eq!(r.pid, 42);
    assert_eq!(r.name, "p42");
    assert_eq!(r.ppid, 7);
    assert_eq!(r.depth, 3);
    assert_eq!(rss_bytes(10), 40960);
    assert_eq!(rss_bytes(-5), 0);
}

#[test]
fn samples_fill_then_roll() {
    let mut h: VecDeque<u64> = VecDeque::new();
    record_sample(&mut h, 3);
    assert_eq!(h, VecDeque::from(vec![3]));
    let mut full: VecDeque<u64> = (0..HISTORY as u64).collect();
    record_sample(&mut full, 99);
    assert_eq!(full.len(), HISTORY);
    assert_eq!(full[0], 1);
    assert_eq!(*full.back().unwrap(), 99);
}

#[test]
fn filter_keeps_by_name_or_pid() {
    assert!(filter_keeps("firefox", "fire", 100, "FIRE"));
    assert!(!filter_keeps("firefox", "FIRE", 100, "FIRE"));
    assert!(filter_keeps("bash", "xyz", 4120, "12"));
    assert!(!filter_keeps("bash", "sh ", 77, "sh "));
    assert!(filter_keeps("bash", "", 77, ""));
}

#[test]
fn longer_filter_keeps_fewer_rows() {
    let mut app = App::new(vec![]);
    app.processes = vec![row(12, "Python3"), row(120, "pyright"), row(31, "bash"), row(312, "python")];
    let mut seen: Vec<Vec<usize>> = Vec::new();
    for f in ["", "P", "Py", "Pyt", "Pyth", "Pytho", "Python", "Python3"] {
        app.filter = f.to_string();
        seen.push(app.visible_indices());
    }
    assert_eq!(seen[0], vec![0, 1, 2, 3]);
    assert_eq!(seen[1], vec![0, 1, 3]);
    assert_eq!(seen[3], vec![0, 3]);
    assert_eq!(seen[7], vec![0]);
    for w in seen.windows(2) {
        assert!(w[1].iter().all(|i| w[0].contains(i)));
    }
    app.filter = "1".to_string();
    assert_eq!(app.visible_indices(), vec![0, 1, 2, 3]);
    app.filter = "12".to_string();
    assert_eq!(app.visible_indices(), vec![0, 1, 3]);
    app.filter = "120".to_string();
    assert_eq!(app.visible_indices(), vec![1]);
}

#[test]
fn update_cpu_on_short_histories() {
    let mut app = App::new(vec![cpu_core(100, 100)]);
    app.cpu_history = vec![VecDeque::from(vec![7, 8])];
    app.update_cpu(vec![cpu_core(150, 150), cpu_core(5, 5)]);
    assert_eq!(app.cpu_history.len(), 2);
    assert_eq!(app.cpu_history[0], VecDeque::from(vec![7, 8, 50]));
    assert_eq!(app.cpu_history[1].len(), HISTORY);
    assert!(app.cpu_history[1].iter().all(|v| *v == 0));
    app.update_cpu(vec![cpu_core(250, 150)]);
    assert_eq!(app.cpu_history.len(), 2);
    assert_eq!(app.cpu_history[0], VecDeque::from(vec![7, 8, 50, 100]));
    assert!(app.cpu_history[1].iter().all(|v| *v == 0));
}

#[test]
fn tick_deltas_with_repeated_pid() {
    let mut app = App::new(vec![cpu_core(100, 100)]);
    app.sample_ticks(&vec![pstat(4, 0, 10, 0), pstat(4, 0, 30, 0)]);
    let (d, _) = app.sample_ticks(&vec![pstat(4, 0, 35, 0)]);
    assert_eq!(d, vec![5]);
}
