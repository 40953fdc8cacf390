use nxtop::proc::{
    parse_cpu_stats, parse_meminfo, parse_net_dev, parse_pid_stat, pids_from_names, read_gpus,
    read_gpus_nvidia_smi, read_gpus_sysfs, read_temps, sysfs_str_of, sysfs_u64_of, gpu_temp, CpuStat,
    DrmCard, GpuInfo, HwmonDevice, MemInfo,
};

fn stat(user: u64, nice: u64, system: u64, idle: u64, iowait: u64, irq: u64, softirq: u64) -> CpuStat {
    CpuStat { user, nice, system, idle, iowait, irq, softirq }
}

#[test]
fn cpu_total_and_active() {
    let c = stat(10, 1, 5, 100, 4, 2, 3);
    assert_eq!(c.total(), 125);
    assert_eq!(c.active(), 21);
}

#[test]
fn cpu_stats_keep_only_core_lines() {
    let text = "cpu  10 20 30 40 50 60 70 0 0 0\n\
                cpu0 1 2 3 4 5 6 7 0 0 0\n\
                cpu1 1 2 3 4\n\
                intr 5 6 7 8 9 10 11 12\n\
                cpu2 a 2 3 4 5 6 7\n\
                cpux 1 2 3 4 5 6 7\n";
    let stats = parse_cpu_stats(text);
    assert_eq!(stats.len(), 2);
    assert_eq!(stats[0].user, 1);
    assert_eq!(stats[0].softirq, 7);
    assert_eq!(stats[1].user, 0);
    assert_eq!(stats[1].nice, 2);
    assert_eq!(stats[1].softirq, 7);
}

#[test]
fn cpu_stats_of_empty_text() {
    assert!(parse_cpu_stats("").is_empty());
}

#[test]
fn cpu_stats_with_crlf_and_tabs() {
    let stats = parse_cpu_stats("cpu3\t9 8 7 6 5 4 3\r\n");
    assert_eq!(stats.len(), 1);
    assert_eq!(stats[0].user, 9);
    assert_eq!(stats[0].softirq, 3);
}

#[test]
fn meminfo_total_and_available() {
    let text = "MemTotal:       16000000 kB\nMemFree:         1000 kB\nMemAvailable:    8000000 kB\n";
    let m = parse_meminfo(text);
    assert_eq!(m.total_kb, 16000000);
    assert_eq!(m.available_kb, 8000000);
    assert_eq!(m.used_kb(), 8000000);
    assert_eq!(m.used_pct(), 50);
}

#[test]
fn meminfo_last_line_wins_and_bad_value_is_zero() {
    let m = parse_meminfo("MemTotal: 10 kB\nMemTotal: 20 kB\nMemAvailable: x\n\n");
    assert_eq!(m.total_kb, 20);
    assert_eq!(m.available_kb, 0);
}

#[test]
fn meminfo_used_saturates_and_pct_caps() {
    let m = MemInfo { total_kb: 100, available_kb: 300 };
    assert_eq!(m.used_kb(), 0);
    assert_eq!(m.used_pct(), 0);
    let z = MemInfo { total_kb: 0, available_kb: 0 };
    assert_eq!(z.used_pct(), 0);
    let q = MemInfo { total_kb: 3, available_kb: 1 };
    assert_eq!(q.used_pct(), 66);
    let d = MemInfo::default();
    assert_eq!(d.total_kb, 0);
}

#[test]
fn net_dev_interfaces() {
    let text = "Inter-|   Receive                                                |  Transmit\n \
 face |bytes    packets errs drop fifo frame compressed multicast|bytes    packets errs drop fifo colls carrier compressed\n    \
lo: 1000 10 0 0 0 0 0 0 2000 20 0 0 0 0 0 0\n  \
eth0:5000 50 0 0 0 0 0 0 7000 70 0 0 0 0 0 0\n\
 short: 1 2 3\n\
no colon here 1 2 3 4 5 6 7 8 9\n";
    let s = parse_net_dev(text);
    assert_eq!(s.len(), 2);
    assert_eq!(s[0].name, "lo");
    assert_eq!(s[0].rx_bytes, 1000);
    assert_eq!(s[0].tx_bytes, 2000);
    assert_eq!(s[1].name, "eth0");
    assert_eq!(s[1].rx_bytes, 5000);
    assert_eq!(s[1].tx_bytes, 7000);
}

#[test]
fn net_dev_too_short() {
    assert!(parse_net_dev("header only\n").is_empty());
    assert!(parse_net_dev("").is_empty());
}

#[test]
fn pid_stat_with_parentheses_in_name() {
    let text = "1234 (my (weird) proc) S 1 1234 1234 0 -1 4194560 100 0 0 0 50 25 0 0 20 0 3 0 100 1000000 250 18446744073709551615\n";
    let s = parse_pid_stat(1234, text).unwrap();
    assert_eq!(s.pid, 1234);
    assert_eq!(s.name, "my (weird) proc");
    assert_eq!(s.state, 'S');
    assert_eq!(s.ppid, 1);
    assert_eq!(s.utime, 50);
    assert_eq!(s.stime, 25);
    assert_eq!(s.threads, 3);
    assert_eq!(s.rss, 250);
}

#[test]
fn pid_stat_defaults_and_rejections() {
    let text = "7 (x) R y 0 0 0 0 0 0 0 0 0 u v 0 0 0 0 z 0 0 0 q\n";
    let s = parse_pid_stat(7, text).unwrap();
    assert_eq!(s.ppid, 0);
    assert_eq!(s.utime, 0);
    assert_eq!(s.stime, 0);
    assert_eq!(s.threads, 1);
    assert_eq!(s.rss, 0);
    assert!(parse_pid_stat(7, "7 (x) R 1 2 3").is_none());
    assert!(parse_pid_stat(7, "no parens at all").is_none());
    assert!(parse_pid_stat(7, "7 (x R 1").is_none());
}

#[test]
fn pid_stat_negative_rss() {
    let text = "9 (n) Z 2 0 0 0 0 0 0 0 0 0 1 2 0 0 0 0 -4 0 0 0 -12\n";
    let s = parse_pid_stat(9, text).unwrap();
    assert_eq!(s.threads, -4);
    assert_eq!(s.rss, -12);
    assert_eq!(s.state, 'Z');
}

#[test]
fn pids_among_names() {
    let names: Vec<String> = ["1", "self", "42", "+7", "-3", "4294967296", "007", "", "+"]
        .iter()
        .map(|s| s.to_string())
        .collect();
    assert_eq!(pids_from_names(&names), vec![1, 42, 7, 7]);
}

#[test]
fn sysfs_values() {
    assert_eq!(sysfs_u64_of(&Some(" 123\n".to_string())), Some(123));
    assert_eq!(sysfs_u64_of(&Some("12a".to_string())), None);
    assert_eq!(sysfs_u64_of(&None), None);
    let s = sysfs_str_of(&Some("  coretemp\n".to_string())).unwrap();
    assert_eq!(s.iter().collect::<String>(), "coretemp");
}

fn opt(s: &str) -> Option<String> {
    Some(s.to_string())
}

#[test]
fn temps_from_hwmon() {
    let mut core_inputs = vec![None; 32];
    let mut core_labels = vec![None; 32];
    core_inputs[0] = opt("52000\n");
    core_labels[0] = opt("Package id 0\n");
    core_inputs[1] = opt("50000\n");
    core_labels[1] = opt("Core 0\n");
    core_inputs[5] = opt("61999\n");
    core_labels[5] = opt("Package id 1\n");
    let devices = vec![
        HwmonDevice {
            dir_name: "hwmon1".to_string(),
            name: opt("nvme\n"),
            inputs: vec![opt("38850\n")],
            labels: vec![None],
        },
        HwmonDevice {
            dir_name: "hwmon0".to_string(),
            name: opt("coretemp\n"),
            inputs: core_inputs,
            labels: core_labels,
        },
        HwmonDevice {
            dir_name: "hwmon2".to_string(),
            name: opt("acpitz\n"),
            inputs: vec![opt("40000\n")],
            labels: vec![None],
        },
        HwmonDevice { dir_name: "hwmon3".to_string(), name: None, inputs: vec![], labels: vec![] },
    ];
    let t = read_temps(&devices);
    assert_eq!(t.len(), 3);
    assert_eq!(t[0].source, "cpu");
    assert_eq!(t[0].label, "Package id 0");
    assert_eq!(t[0].temp_c, 52);
    assert_eq!(t[1].label, "Package id 1");
    assert_eq!(t[1].temp_c, 61);
    assert_eq!(t[2].source, "nvme");
    assert_eq!(t[2].label, "Composite");
    assert_eq!(t[2].temp_c, 38);
}

fn card(name: &str, total: Option<&str>, temps: Vec<Option<String>>, product: Option<&str>) -> DrmCard {
    DrmCard {
        dir_name: name.to_string(),
        busy_percent: opt("37\n"),
        vram_used: opt("1073741824\n"),
        vram_total: total.map(|s| s.to_string()),
        product_name: product.map(|s| s.to_string()),
        hwmon_temps: temps,
    }
}

#[test]
fn gpus_from_sysfs() {
    let entries = vec![
        card("card2", None, vec![None, opt("71000\n")], Some("Radeon\n")),
        card("card0-DP-1", Some("8589934592"), vec![], None),
        card("card1", None, vec![], None),
        card("card0", Some("8589934592\n"), vec![opt("45500\n")], None),
        card("card10", Some("2147483648"), vec![], None),
        card("renderD128", Some("2147483648"), vec![], None),
        card("card", Some("2147483648"), vec![], None),
    ];
    let g = read_gpus_sysfs(&entries);
    assert_eq!(g.len(), 3);
    assert_eq!(g[0].name, "GPU 0");
    assert_eq!(g[0].util_pct, 37);
    assert_eq!(g[0].vram_used_mb, 1024);
    assert_eq!(g[0].vram_total_mb, 8192);
    assert_eq!(g[0].temp_c, Some(45));
    assert_eq!(g[1].name, "GPU 2");
    assert_eq!(g[1].vram_total_mb, 2048);
    assert_eq!(g[1].temp_c, None);
    assert_eq!(g[2].name, "Radeon");
    assert_eq!(g[2].vram_total_mb, 0);
    assert_eq!(g[2].temp_c, Some(71));
}

#[test]
fn gpu_utilization_truncates_to_u8() {
    let mut c = card("card0", Some("1048576"), vec![], None);
    c.busy_percent = opt("300");
    let g = read_gpus_sysfs(&vec![c]);
    assert_eq!(g[0].util_pct, 44);
    assert_eq!(g[0].vram_total_mb, 1);
}

#[test]
fn gpu_temp_first_readable() {
    assert_eq!(gpu_temp(&vec![None, opt("x"), opt("50999"), opt("60000")]), Some(50));
    assert_eq!(gpu_temp(&vec![]), None);
}

#[test]
fn gpus_from_nvidia_smi() {
    let out = "NVIDIA GeForce RTX 3080, 35, 2048, 10240, 61\n\
               bad line\n\
               Tesla T4, 5, 100, 15360, [N/A]\n\
               Short, 1, 2, 3\n\
               Big, 300, 1, 2, 3\n\
               Extra, 1, 2, 3, 4, 5\n";
    let g = read_gpus_nvidia_smi(out);
    assert_eq!(g.len(), 3);
    assert_eq!(g[0].name, "NVIDIA GeForce RTX 3080");
    assert_eq!(g[0].util_pct, 35);
    assert_eq!(g[0].vram_used_mb, 2048);
    assert_eq!(g[0].vram_total_mb, 10240);
    assert_eq!(g[0].temp_c, Some(61));
    assert_eq!(g[1].name, "Tesla T4");
    assert_eq!(g[1].temp_c, None);
    assert_eq!(g[2].name, "Extra");
    assert_eq!(g[2].vram_total_mb, 3);
    assert_eq!(g[2].temp_c, None);
}

#[test]
fn gpus_prefer_sysfs() {
    let sysfs = vec![GpuInfo {
        name: "GPU 0".to_string(),
        util_pct: 1,
        vram_used_mb: 2,
        vram_total_mb: 3,
        temp_c: None,
    }];
    let g = read_gpus(sysfs, "X, 1, 2, 3, 4\n");
    assert_eq!(g.len(), 1);
    assert_eq!(g[0].name, "GPU 0");
    let g = read_gpus(vec![], "X, 1, 2, 3, 4\n");
    assert_eq!(g.len(), 1);
    assert_eq!(g[0].name, "X");
    assert_eq!(g[0].temp_c, Some(4));
    assert!(read_gpus(vec![], "").is_empty());
}
