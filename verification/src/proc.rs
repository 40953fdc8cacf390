use vstd::prelude::*;

use crate::num::{lemma_decimal_value, lemma_u32_or_decimal, lemma_u64_or_decimal, is_digit, all_digits, decimal, decimal_chars, parse_u64_or, parse_u32_or, parse_i64_or, parse_unsigned_exec, parse_unsigned, u64_or, u32_or, i64_or};
use crate::text::{is_trimmed, is_ws, lemma_trim, starts_with, starts_with_chars, split_n, split_n_chars, chars_of, string_of, split_lines, split_whitespace, trim_chars, find_char, rfind_char, slice_of, lines, words, trim, rows, first_index, last_index, lemma_first_index, lemma_last_index};

use crate::order::{is_sort_order, key_rows, sort_order, sorted_order};

verus! {

/// Cumulative CPU time counters of one core, in clock ticks.
#[derive(Debug, Clone)]
pub struct CpuStat {
    pub user: u64,
    pub nice: u64,
    pub system: u64,
    pub idle: u64,
    pub iowait: u64,
    pub irq: u64,
    pub softirq: u64,
}

impl CpuStat {
    /// Sum of all seven counters.
    pub open spec fn spec_total(&self) -> int {
        self.user + self.nice + self.system + self.idle + self.iowait + self.irq + self.softirq
    }

    /// The counters sum to a value that fits in a `u64`.
    pub open spec fn fits(&self) -> bool {
        self.spec_total() <= u64::MAX
    }

    /// Ticks spent doing work: everything but idle and iowait.
    pub open spec fn spec_active(&self) -> int {
        self.spec_total() - (self.idle + self.iowait)
    }

    pub fn total(&self) -> (t: u64)
        requires
            self.fits(),
        ensures
            t == self.spec_total(),
    {
        self.user + self.nice + self.system + self.idle + self.iowait + self.irq + self.softirq
    }

    pub fn active(&self) -> (a: u64)
        requires
            self.fits(),
        ensures
            a == self.spec_active(),
    {
        self.total().saturating_sub(self.idle + self.iowait)
    }
}


impl Default for CpuStat {
    fn default() -> (c: CpuStat)
        ensures
            c == (CpuStat { user: 0, nice: 0, system: 0, idle: 0, iowait: 0, irq: 0, softirq: 0 }),
    {
        CpuStat { user: 0, nice: 0, system: 0, idle: 0, iowait: 0, irq: 0, softirq: 0 }
    }
}

/// Total and available memory, in kB.
#[derive(Debug, Clone)]
pub struct MemInfo {
    pub total_kb: u64,
    pub available_kb: u64,
}

impl Default for MemInfo {
    fn default() -> (m: MemInfo)
        ensures
            m == (MemInfo { total_kb: 0, available_kb: 0 }),
    {
        MemInfo { total_kb: 0, available_kb: 0 }
    }
}

impl MemInfo {
    /// Memory in use: total less available, never below zero.
    pub open spec fn spec_used_kb(&self) -> nat {
        if self.total_kb >= self.available_kb {
            (self.total_kb - self.available_kb) as nat
        } else {
            0
        }
    }

    /// Share of memory in use, in whole percent, at most 100; 0 when the
    /// total is unknown (zero).
    pub open spec fn spec_used_pct(&self) -> nat {
        if self.total_kb == 0 {
            0
        } else {
            let p = self.spec_used_kb() * 100 / self.total_kb as nat;
            if p < 100 {
                p
            } else {
                100
            }
        }
    }

    pub fn used_kb(&self) -> (u: u64)
        ensures
            u == self.spec_used_kb(),
            u <= self.total_kb,
    {
        self.total_kb.saturating_sub(self.available_kb)
    }

    pub fn used_pct(&self) -> (p: u16)
        requires
            self.spec_used_kb() * 100 <= u64::MAX,
        ensures
            p == self.spec_used_pct(),
            p <= 100,
    {
        if self.total_kb == 0 {
            return 0;
        }
        let pct = (self.used_kb() * 100) / self.total_kb;
        let capped = if pct < 100 {
            pct
        } else {
            100
        };
        capped as u16
    }
}

/// A line of `/proc/stat` that describes one core: `cpu` and a digit.
pub open spec fn is_core_line(l: Seq<char>) -> bool {
    l.len() > 4 && l[0] == 'c' && l[1] == 'p' && l[2] == 'u' && is_digit(l[3])
}

/// The counters of a core line with at least eight fields; a field that is
/// not a number counts as 0.
pub open spec fn cpu_stat_of_line(l: Seq<char>) -> Option<CpuStat> {
    let p = words(l);
    if is_core_line(l) && p.len() >= 8 {
        Some(
            CpuStat {
                user: u64_or(p[1], 0),
                nice: u64_or(p[2], 0),
                system: u64_or(p[3], 0),
                idle: u64_or(p[4], 0),
                iowait: u64_or(p[5], 0),
                irq: u64_or(p[6], 0),
                softirq: u64_or(p[7], 0),
            },
        )
    } else {
        None
    }
}

/// The per-core counters of the lines of `/proc/stat`, in order.
pub open spec fn cpu_stats_of(ls: Seq<Seq<char>>) -> Seq<CpuStat>
    decreases ls.len(),
{
    if ls.len() == 0 {
        seq![]
    } else {
        let prev = cpu_stats_of(ls.drop_last());
        match cpu_stat_of_line(ls.last()) {
            Some(c) => prev.push(c),
            None => prev,
        }
    }
}

fn cpu_stat_from_line(l: &Vec<char>) -> (r: Option<CpuStat>)
    ensures
        r == cpu_stat_of_line(l@),
{
    if !(l.len() > 4 && l[0] == 'c' && l[1] == 'p' && l[2] == 'u') {
        return None;
    }
    let n = l[3] as u32;
    if !(48 <= n && n <= 57) {
        return None;
    }
    let p = split_whitespace(l);
    if p.len() < 8 {
        return None;
    }
    proof {
        assert(forall|k: int| 0 <= k < p.len() ==> rows(p@)[k] == #[trigger] p@[k]@);
    }
    Some(
        CpuStat {
            user: parse_u64_or(&p[1], 0),
            nice: parse_u64_or(&p[2], 0),
            system: parse_u64_or(&p[3], 0),
            idle: parse_u64_or(&p[4], 0),
            iowait: parse_u64_or(&p[5], 0),
            irq: parse_u64_or(&p[6], 0),
            softirq: parse_u64_or(&p[7], 0),
        },
    )
}

/// The per-core counters in the text of `/proc/stat`: one for each line that
/// starts with `cpu` and a digit and has at least eight fields.
pub fn parse_cpu_stats(content: &str) -> (stats: Vec<CpuStat>)
    ensures
        stats@ == cpu_stats_of(lines(content@)),
{
    let text = chars_of(content);
    let ls = split_lines(&text);
    let ghost all = rows(ls@);
    let mut stats: Vec<CpuStat> = Vec::new();
    let mut i: usize = 0;
    assert(all.take(0) =~= Seq::<Seq<char>>::empty());
    while i < ls.len()
        invariant
            all == rows(ls@),
            i <= ls.len(),
            stats@ == cpu_stats_of(all.take(i as int)),
        decreases ls.len() - i,
    {
        assert(all.take(i + 1).drop_last() =~= all.take(i as int));
        assert(all.take(i + 1).last() == ls@[i as int]@);
        match cpu_stat_from_line(&ls[i]) {
            Some(c) => stats.push(c),
            None => {},
        }
        i = i + 1;
    }
    assert(all.take(ls.len() as int) =~= all);
    stats
}

/// Each counter is read from its own column of a core line: after the
/// `cpuN` label come user, nice, system, idle, iowait, irq and softirq time,
/// in that order.  A core line whose columns hold the numbers `v` gives
/// exactly those counters.
pub proof fn lemma_core_line_columns(l: Seq<char>, v: Seq<u64>)
    requires
        is_core_line(l),
        words(l).len() >= 8,
        v.len() == 7,
        forall|k: int| 0 <= k < 7 ==> words(l)[k + 1] == decimal(#[trigger] v[k] as nat),
    ensures
        cpu_stats_of(seq![l]) == seq![
            CpuStat {
                user: v[0],
                nice: v[1],
                system: v[2],
                idle: v[3],
                iowait: v[4],
                irq: v[5],
                softirq: v[6],
            },
        ],
{
    let w = words(l);
    assert forall|k: int| 0 <= k < 7 implies u64_or(w[k + 1], 0) == #[trigger] v[k] by {
        lemma_u64_or_decimal(v[k], 0);
    }
    assert(u64_or(w[1], 0) == v[0]);
    assert(u64_or(w[2], 0) == v[1]);
    assert(u64_or(w[3], 0) == v[2]);
    assert(u64_or(w[4], 0) == v[3]);
    assert(u64_or(w[5], 0) == v[4]);
    assert(u64_or(w[6], 0) == v[5]);
    assert(u64_or(w[7], 0) == v[6]);
    let c = CpuStat { user: v[0], nice: v[1], system: v[2], idle: v[3], iowait: v[4], irq: v[5], softirq: v[6] };
    assert(cpu_stat_of_line(l) == Some(c));
    let ls = seq![l];
    assert(ls.drop_last() =~= Seq::<Seq<char>>::empty());
    assert(ls.last() == l);
    assert(cpu_stats_of(ls.drop_last()) == Seq::<CpuStat>::empty());
    assert(cpu_stats_of(ls) =~= seq![c]);
}

/// The all-cores summary line, `cpu` followed by whitespace, gives no
/// counters: only the lines of single cores do.
pub proof fn lemma_summary_line_skipped(l: Seq<char>)
    requires
        l.len() >= 4,
        is_ws(l[3]),
    ensures
        cpu_stats_of(seq![l]) == Seq::<CpuStat>::empty(),
{
    let ls = seq![l];
    assert(!is_digit(l[3]));
    assert(cpu_stat_of_line(l) is None);
    assert(ls.drop_last() =~= Seq::<Seq<char>>::empty());
    assert(ls.last() == l);
    assert(cpu_stats_of(ls.drop_last()) == Seq::<CpuStat>::empty());
}

/// The counters of a text's lines are those of its first part followed by
/// those of the rest: every core line gives its counters in place, and no
/// line changes what another gives.
pub proof fn lemma_cpu_stats_concat(a: Seq<Seq<char>>, b: Seq<Seq<char>>)
    ensures
        cpu_stats_of(a + b) == cpu_stats_of(a) + cpu_stats_of(b),
    decreases b.len(),
{
    if b.len() == 0 {
        assert(a + b =~= a);
        assert(cpu_stats_of(a) + cpu_stats_of(b) =~= cpu_stats_of(a));
    } else {
        lemma_cpu_stats_concat(a, b.drop_last());
        assert((a + b).drop_last() =~= a + b.drop_last());
        assert((a + b).last() == b.last());
        match cpu_stat_of_line(b.last()) {
            Some(c) => {
                assert(cpu_stats_of(a) + cpu_stats_of(b) =~= (cpu_stats_of(a) + cpu_stats_of(b.drop_last())).push(c));
            },
            None => {},
        }
    }
}

/// The values that the `MemTotal:` and `MemAvailable:` lines of
/// `/proc/meminfo` give, the last such line winning; a missing or malformed
/// value counts as 0.
pub open spec fn meminfo_of(ls: Seq<Seq<char>>) -> MemInfo
    decreases ls.len(),
{
    if ls.len() == 0 {
        MemInfo { total_kb: 0, available_kb: 0 }
    } else {
        let m = meminfo_of(ls.drop_last());
        let w = words(ls.last());
        let key = if w.len() > 0 {
            w[0]
        } else {
            seq![]
        };
        let val = if w.len() > 1 {
            u64_or(w[1], 0)
        } else {
            0
        };
        if key == "MemTotal:"@ {
            MemInfo { total_kb: val, ..m }
        } else if key == "MemAvailable:"@ {
            MemInfo { available_kb: val, ..m }
        } else {
            m
        }
    }
}

/// Whether two character vectors hold the same characters.
pub fn chars_eq(a: &Vec<char>, b: &Vec<char>) -> (r: bool)
    ensures
        r == (a@ == b@),
{
    if a.len() != b.len() {
        return false;
    }
    let mut i: usize = 0;
    while i < a.len()
        invariant
            a.len() == b.len(),
            i <= a.len(),
            forall|j: int| 0 <= j < i ==> a@[j] == b@[j],
        decreases a.len() - i,
    {
        if a[i] != b[i] {
            return false;
        }
        i = i + 1;
    }
    assert(a@ =~= b@);
    true
}

/// Memory totals from the text of `/proc/meminfo`.
pub fn parse_meminfo(content: &str) -> (info: MemInfo)
    ensures
        info == meminfo_of(lines(content@)),
{
    let total_key = chars_of("MemTotal:");
    let avail_key = chars_of("MemAvailable:");
    let text = chars_of(content);
    let ls = split_lines(&text);
    let ghost all = rows(ls@);
    let mut info = MemInfo { total_kb: 0, available_kb: 0 };
    let mut i: usize = 0;
    assert(all.take(0) =~= Seq::<Seq<char>>::empty());
    while i < ls.len()
        invariant
            all == rows(ls@),
            i <= ls.len(),
            total_key@ == "MemTotal:"@,
            avail_key@ == "MemAvailable:"@,
            info == meminfo_of(all.take(i as int)),
        decreases ls.len() - i,
    {
        assert(all.take(i + 1).drop_last() =~= all.take(i as int));
        assert(all.take(i + 1).last() == ls@[i as int]@);
        let w = split_whitespace(&ls[i]);
        proof {
            assert(forall|k: int| 0 <= k < w.len() ==> rows(w@)[k] == #[trigger] w@[k]@);
        }
        let val: u64 = if w.len() > 1 {
            parse_u64_or(&w[1], 0)
        } else {
            0
        };
        if w.len() > 0 {
            if chars_eq(&w[0], &total_key) {
                info.total_kb = val;
            } else if chars_eq(&w[0], &avail_key) {
                info.available_kb = val;
            }
        } else {
            proof {
                lemma_empty_not_key();
            }
        }
        i = i + 1;
    }
    assert(all.take(ls.len() as int) =~= all);
    info
}

/// Lines with any key but `MemTotal:` and `MemAvailable:` do not matter:
/// putting such a line anywhere among the lines leaves the result as it was.
pub proof fn lemma_other_keys_ignored(a: Seq<Seq<char>>, l: Seq<char>, b: Seq<Seq<char>>)
    requires
        words(l).len() == 0 || (words(l)[0] != "MemTotal:"@ && words(l)[0] != "MemAvailable:"@),
    ensures
        meminfo_of(a + seq![l] + b) == meminfo_of(a + b),
    decreases b.len(),
{
    if b.len() == 0 {
        lemma_empty_not_key();
        let x = a + seq![l] + b;
        assert(x.drop_last() =~= a);
        assert(x.last() == l);
        assert(a + b =~= a);
    } else {
        lemma_other_keys_ignored(a, l, b.drop_last());
        let x = a + seq![l] + b;
        assert(x.drop_last() =~= a + seq![l] + b.drop_last());
        assert(x.last() == b.last());
        assert((a + b).drop_last() =~= a + b.drop_last());
        assert((a + b).last() == b.last());
    }
}

/// A `MemTotal:` line with the number `v` sets the total to `v` and leaves
/// the available memory as it was.
pub proof fn lemma_total_line(ls: Seq<Seq<char>>, l: Seq<char>, v: u64)
    requires
        words(l).len() >= 2,
        words(l)[0] == "MemTotal:"@,
        words(l)[1] == decimal(v as nat),
    ensures
        meminfo_of(ls.push(l)).total_kb == v,
        meminfo_of(ls.push(l)).available_kb == meminfo_of(ls).available_kb,
{
    lemma_u64_or_decimal(v, 0);
    assert(ls.push(l).drop_last() =~= ls);
}

/// A `MemAvailable:` line with the number `v` sets the available memory to
/// `v` and leaves the total as it was.
pub proof fn lemma_available_line(ls: Seq<Seq<char>>, l: Seq<char>, v: u64)
    requires
        words(l).len() >= 2,
        words(l)[0] == "MemAvailable:"@,
        words(l)[1] == decimal(v as nat),
    ensures
        meminfo_of(ls.push(l)).available_kb == v,
        meminfo_of(ls.push(l)).total_kb == meminfo_of(ls).total_kb,
{
    lemma_u64_or_decimal(v, 0);
    lemma_keys_differ();
    assert(ls.push(l).drop_last() =~= ls);
}

proof fn lemma_keys_differ()
    ensures
        "MemAvailable:"@ != "MemTotal:"@,
{
    reveal_strlit("MemTotal:");
    reveal_strlit("MemAvailable:");
    assert("MemTotal:"@.len() == 9);
    assert("MemAvailable:"@.len() == 13);
}

proof fn lemma_empty_not_key()
    ensures
        Seq::<char>::empty() != "MemTotal:"@,
        Seq::<char>::empty() != "MemAvailable:"@,
{
    reveal_strlit("MemTotal:");
    reveal_strlit("MemAvailable:");
    assert("MemTotal:"@.len() == 9);
    assert("MemAvailable:"@.len() == 13);
}


/// Byte counters of one network interface.
#[derive(Debug, Clone)]
pub struct NetSample {
    pub name: String,
    pub rx_bytes: u64,
    pub tx_bytes: u64,
}

/// A `NetSample` with its name as characters.
pub struct NetSampleView {
    pub name: Seq<char>,
    pub rx_bytes: u64,
    pub tx_bytes: u64,
}

impl View for NetSample {
    type V = NetSampleView;

    open spec fn view(&self) -> NetSampleView {
        NetSampleView { name: self.name@, rx_bytes: self.rx_bytes, tx_bytes: self.tx_bytes }
    }
}

impl Default for NetSample {
    fn default() -> (s: NetSample)
        ensures
            s.name@ == Seq::<char>::empty(),
            s.rx_bytes == 0,
            s.tx_bytes == 0,
    {
        NetSample { name: String::new(), rx_bytes: 0, tx_bytes: 0 }
    }
}

pub open spec fn sample_views(v: Seq<NetSample>) -> Seq<NetSampleView> {
    v.map_values(|s: NetSample| s@)
}

/// `ls` without its first `n` lines (`Iterator::skip`).
pub open spec fn skip_lines(ls: Seq<Seq<char>>, n: int) -> Seq<Seq<char>> {
    if ls.len() >= n {
        ls.skip(n)
    } else {
        seq![]
    }
}

/// An interface line of `/proc/net/dev`: the trimmed name before the first
/// `':'`, then at least nine counters, of which the first is the bytes
/// received and the ninth the bytes sent.
pub open spec fn net_sample_of_line(l: Seq<char>) -> Option<NetSampleView> {
    let t = trim(l);
    match first_index(t, ':') {
        Some(c) => {
            let cols = words(t.skip(c + 1));
            if cols.len() >= 9 {
                Some(
                    NetSampleView {
                        name: trim(t.take(c)),
                        rx_bytes: u64_or(cols[0], 0),
                        tx_bytes: u64_or(cols[8], 0),
                    },
                )
            } else {
                None
            }
        },
        None => None,
    }
}

/// The counters of an interface line are read from fixed columns after the
/// colon: the first is the bytes received, the ninth the bytes sent; the
/// name before the colon comes without surrounding whitespace.
pub proof fn lemma_net_line_columns(l: Seq<char>, c: int, rx: u64, tx: u64)
    requires
        first_index(trim(l), ':') == Some(c),
        words(trim(l).skip(c + 1)).len() >= 9,
        words(trim(l).skip(c + 1))[0] == decimal(rx as nat),
        words(trim(l).skip(c + 1))[8] == decimal(tx as nat),
    ensures
        net_sample_of_line(l) matches Some(s) && s.rx_bytes == rx && s.tx_bytes == tx && is_trimmed(s.name),
{
    lemma_u64_or_decimal(rx, 0);
    lemma_u64_or_decimal(tx, 0);
    lemma_trim(trim(l).take(c));
}

pub open spec fn net_samples_of(ls: Seq<Seq<char>>) -> Seq<NetSampleView>
    decreases ls.len(),
{
    if ls.len() == 0 {
        seq![]
    } else {
        let prev = net_samples_of(ls.drop_last());
        match net_sample_of_line(ls.last()) {
            Some(s) => prev.push(s),
            None => prev,
        }
    }
}

fn net_sample_from_line(l: &Vec<char>) -> (r: Option<NetSample>)
    ensures
        match r {
            Some(s) => net_sample_of_line(l@) == Some(s@),
            None => net_sample_of_line(l@) is None,
        },
{
    let t = trim_chars(l);
    match find_char(&t, ':') {
        Some(c) => {
            proof {
                lemma_first_index(t@, ':');
            }
            let head = slice_of(&t, 0, c);
            let tail = slice_of(&t, c + 1, t.len());
            assert(head@ =~= t@.take(c as int));
            assert(tail@ =~= t@.skip(c + 1));
            let cols = split_whitespace(&tail);
            if cols.len() < 9 {
                return None;
            }
            proof {
                assert(forall|k: int| 0 <= k < cols.len() ==> rows(cols@)[k] == #[trigger] cols@[k]@);
            }
            let name = trim_chars(&head);
            Some(
                NetSample {
                    name: string_of(&name),
                    rx_bytes: parse_u64_or(&cols[0], 0),
                    tx_bytes: parse_u64_or(&cols[8], 0),
                },
            )
        },
        None => None,
    }
}

/// Per-interface byte counters from the text of `/proc/net/dev`: its two
/// header lines are skipped, and of the other lines each that names an
/// interface and has at least nine counters gives one sample.
pub fn parse_net_dev(content: &str) -> (samples: Vec<NetSample>)
    ensures
        sample_views(samples@) == net_samples_of(skip_lines(lines(content@), 2)),
{
    let text = chars_of(content);
    let ls = split_lines(&text);
    let ghost all = rows(ls@);
    let ghost rest = skip_lines(all, 2);
    let mut samples: Vec<NetSample> = Vec::new();
    if ls.len() < 2 {
        assert(sample_views(samples@) =~= net_samples_of(rest));
        return samples;
    }
    let mut i: usize = 2;
    assert(rest.take(0) =~= Seq::<Seq<char>>::empty());
    while i < ls.len()
        invariant
            all == rows(ls@),
            rest == all.skip(2),
            2 <= i <= ls.len(),
            sample_views(samples@) == net_samples_of(rest.take(i - 2)),
        decreases ls.len() - i,
    {
        assert(rest.take(i - 1).drop_last() =~= rest.take(i - 2));
        assert(rest.take(i - 1).last() == ls@[i as int]@);
        match net_sample_from_line(&ls[i]) {
            Some(s) => {
                let ghost before = sample_views(samples@);
                samples.push(s);
                assert(sample_views(samples@) =~= before.push(s@));
            },
            None => {},
        }
        i = i + 1;
    }
    assert(rest.take(ls.len() - 2) =~= rest);
    samples
}

/// One line of `/proc/[pid]/stat`, as far as the monitor reads it.
#[derive(Debug, Clone)]
pub struct PidStat {
    pub pid: u32,
    pub name: String,
    pub state: char,
    pub ppid: u32,
    pub utime: u64,
    pub stime: u64,
    pub threads: i64,
    pub rss: i64,
}

/// A `PidStat` with its name as characters.
pub struct PidStatView {
    pub pid: u32,
    pub name: Seq<char>,
    pub state: char,
    pub ppid: u32,
    pub utime: u64,
    pub stime: u64,
    pub threads: i64,
    pub rss: i64,
}

impl View for PidStat {
    type V = PidStatView;

    open spec fn view(&self) -> PidStatView {
        PidStatView {
            pid: self.pid,
            name: self.name@,
            state: self.state,
            ppid: self.ppid,
            utime: self.utime,
            stime: self.stime,
            threads: self.threads,
            rss: self.rss,
        }
    }
}

/// The slicing of a stat line stays inside the text: when both a `'('` and a
/// `')'` occur, the last `')'` comes after the first `'('` and is followed by
/// a one-byte character.
pub open spec fn stat_slices_ok(t: Seq<char>) -> bool {
    match (first_index(t, '('), last_index(t, ')')) {
        (Some(o), Some(c)) => o < c && c + 1 < t.len() && (t[c + 1] as u32) < 128,
        _ => true,
    }
}

/// A stat line: the command name is what lies between the first `'('` and
/// the last `')'`; after the character that follows the `')'` come the
/// fields, of which there must be at least 22.  The state is the first
/// character of the first field; the parent pid, user and system time,
/// thread count and resident pages are fields 2, 12, 13, 18 and 22, each
/// falling back to 0 (the thread count to 1) when it does not parse.
pub open spec fn pid_stat_of(pid: u32, t: Seq<char>) -> Option<PidStatView> {
    match (first_index(t, '('), last_index(t, ')')) {
        (Some(o), Some(c)) => {
            let rest = words(t.skip(c + 2));
            if rest.len() < 22 {
                None
            } else {
                Some(
                    PidStatView {
                        pid,
                        name: t.subrange(o + 1, c),
                        state: if rest[0].len() > 0 {
                            rest[0][0]
                        } else {
                            '?'
                        },
                        ppid: u32_or(rest[1], 0),
                        utime: u64_or(rest[11], 0),
                        stime: u64_or(rest[12], 0),
                        threads: i64_or(rest[17], 1),
                        rss: i64_or(rest[21], 0),
                    },
                )
            }
        },
        _ => None,
    }
}

/// The fields of a stat line are read from fixed places after the command
/// name: the parent pid second, user time twelfth and system time
/// thirteenth; the name is what lies between the first `'('` and the last
/// `')'`.
pub proof fn lemma_pid_stat_columns(pid: u32, t: Seq<char>, o: int, c: int, ppid: u32, utime: u64, stime: u64)
    requires
        first_index(t, '(') == Some(o),
        last_index(t, ')') == Some(c),
        words(t.skip(c + 2)).len() >= 22,
        words(t.skip(c + 2))[1] == decimal(ppid as nat),
        words(t.skip(c + 2))[11] == decimal(utime as nat),
        words(t.skip(c + 2))[12] == decimal(stime as nat),
    ensures
        pid_stat_of(pid, t) matches Some(s) && s.pid == pid && s.name == t.subrange(o + 1, c) && s.ppid
            == ppid && s.utime == utime && s.stime == stime,
{
    lemma_u32_or_decimal(ppid, 0);
    lemma_u64_or_decimal(utime, 0);
    lemma_u64_or_decimal(stime, 0);
}

/// The process statistics in the text of `/proc/[pid]/stat`, when it holds
/// them; the name may contain spaces and parentheses.
pub fn parse_pid_stat(pid: u32, content: &str) -> (r: Option<PidStat>)
    requires
        stat_slices_ok(content@),
    ensures
        match r {
            Some(s) => pid_stat_of(pid, content@) == Some(s@),
            None => pid_stat_of(pid, content@) is None,
        },
{
    let t = chars_of(content);
    let open = match find_char(&t, '(') {
        Some(o) => o,
        None => return None,
    };
    let close = match rfind_char(&t, ')') {
        Some(c) => c,
        None => return None,
    };
    proof {
        lemma_first_index(t@, '(');
        lemma_last_index(t@, ')');
    }
    let name = slice_of(&t, open + 1, close);
    let tail = slice_of(&t, close + 2, t.len());
    assert(tail@ =~= t@.skip(close + 2));
    let rest = split_whitespace(&tail);
    if rest.len() < 22 {
        return None;
    }
    proof {
        assert(forall|k: int| 0 <= k < rest.len() ==> rows(rest@)[k] == #[trigger] rest@[k]@);
    }
    let state = if rest[0].len() > 0 {
        rest[0][0]
    } else {
        '?'
    };
    Some(
        PidStat {
            pid,
            name: string_of(&name),
            state,
            ppid: parse_u32_or(&rest[1], 0),
            utime: parse_u64_or(&rest[11], 0),
            stime: parse_u64_or(&rest[12], 0),
            threads: parse_i64_or(&rest[17], 1),
            rss: parse_i64_or(&rest[21], 0),
        },
    )
}

/// The entries of `/proc` whose names are process ids, in order.
pub open spec fn pids_of(names: Seq<Seq<char>>) -> Seq<u32>
    decreases names.len(),
{
    if names.len() == 0 {
        seq![]
    } else {
        let prev = pids_of(names.drop_last());
        match parse_unsigned(names.last(), u32::MAX as nat) {
            Some(p) => prev.push(p as u32),
            None => prev,
        }
    }
}

pub open spec fn string_views(v: Seq<String>) -> Seq<Seq<char>> {
    v.map_values(|s: String| s@)
}

/// The process ids among the names of the entries of `/proc`.
pub fn pids_from_names(names: &Vec<String>) -> (pids: Vec<u32>)
    ensures
        pids@ == pids_of(string_views(names@)),
{
    let ghost all = string_views(names@);
    let mut pids: Vec<u32> = Vec::new();
    let mut i: usize = 0;
    assert(all.take(0) =~= Seq::<Seq<char>>::empty());
    while i < names.len()
        invariant
            all == string_views(names@),
            i <= names.len(),
            pids@ == pids_of(all.take(i as int)),
        decreases names.len() - i,
    {
        assert(all.take(i + 1).drop_last() =~= all.take(i as int));
        assert(all.take(i + 1).last() == names@[i as int]@);
        let cs = chars_of(names[i].as_str());
        match parse_unsigned_exec(&cs, u32::MAX as u64) {
            Some(p) => pids.push(p as u32),
            None => {},
        }
        i = i + 1;
    }
    assert(all.take(names.len() as int) =~= all);
    pids
}


/// The text of a file, when it could be read, as characters.
pub open spec fn opt_view(o: Option<String>) -> Option<Seq<char>> {
    match o {
        Some(s) => Some(s@),
        None => None,
    }
}

pub open spec fn opt_views(v: Seq<Option<String>>) -> Seq<Option<Seq<char>>> {
    v.map_values(|o: Option<String>| opt_view(o))
}

/// A sysfs number: the file's text, trimmed, read as a `u64`.
pub open spec fn sysfs_u64(text: Option<Seq<char>>) -> Option<u64> {
    match text {
        Some(t) => match parse_unsigned(trim(t), u64::MAX as nat) {
            Some(v) => Some(v as u64),
            None => None,
        },
        None => None,
    }
}

/// A sysfs string: the file's text, trimmed.
pub open spec fn sysfs_str(text: Option<Seq<char>>) -> Option<Seq<char>> {
    match text {
        Some(t) => Some(trim(t)),
        None => None,
    }
}

/// The number in the text of a sysfs file.
pub fn sysfs_u64_of(text: &Option<String>) -> (r: Option<u64>)
    ensures
        r == sysfs_u64(opt_view(*text)),
{
    match text {
        Some(t) => {
            let cs = chars_of(t.as_str());
            let tr = trim_chars(&cs);
            match parse_unsigned_exec(&tr, u64::MAX) {
                Some(v) => Some(v),
                None => None,
            }
        },
        None => None,
    }
}

/// The trimmed text of a sysfs file.
pub fn sysfs_str_of(text: &Option<String>) -> (r: Option<Vec<char>>)
    ensures
        match r {
            Some(v) => sysfs_str(opt_view(*text)) == Some(v@),
            None => sysfs_str(opt_view(*text)) is None,
        },
{
    match text {
        Some(t) => {
            let cs = chars_of(t.as_str());
            Some(trim_chars(&cs))
        },
        None => None,
    }
}

/// The `i`-th file of a list, or nothing past its end.
pub open spec fn entry(v: Seq<Option<Seq<char>>>, i: int) -> Option<Seq<char>> {
    if 0 <= i < v.len() {
        v[i]
    } else {
        None
    }
}

fn entry_of(v: &Vec<Option<String>>, i: usize) -> (r: Option<String>)
    ensures
        opt_view(r) == entry(opt_views(v@), i as int),
{
    if i < v.len() {
        match &v[i] {
            Some(s) => Some(s.clone()),
            None => None,
        }
    } else {
        None
    }
}

/// A file name as the numbers of its characters, the key it sorts by.
pub open spec fn name_key(s: Seq<char>) -> Seq<u32> {
    s.map_values(|c: char| c as u32)
}

fn name_key_of(s: &String) -> (k: Vec<u32>)
    ensures
        k@ == name_key(s@),
{
    let cs = chars_of(s.as_str());
    let mut k: Vec<u32> = Vec::new();
    let mut i: usize = 0;
    while i < cs.len()
        invariant
            cs@ == s@,
            i <= cs.len(),
            k@ == name_key(cs@.take(i as int)),
        decreases cs.len() - i,
    {
        k.push(cs[i] as u32);
        i = i + 1;
        assert(k@ =~= name_key(cs@.take(i as int)));
    }
    assert(cs@.take(cs.len() as int) =~= cs@);
    k
}

/// One temperature sensor reading.
#[derive(Debug, Clone)]
pub struct TempReading {
    pub source: String,
    pub label: String,
    pub temp_c: u32,
}

pub struct TempReadingView {
    pub source: Seq<char>,
    pub label: Seq<char>,
    pub temp_c: u32,
}

impl View for TempReading {
    type V = TempReadingView;

    open spec fn view(&self) -> TempReadingView {
        TempReadingView { source: self.source@, label: self.label@, temp_c: self.temp_c }
    }
}

pub open spec fn temp_views(v: Seq<TempReading>) -> Seq<TempReadingView> {
    v.map_values(|t: TempReading| t@)
}

/// How many `temp<k>_input` files of a `coretemp` device are looked at.
pub const CORETEMP_SENSORS: usize = 32;

/// What was read from one entry of `/sys/class/hwmon`: the entry's name, the
/// text of its `name` file, and the texts of `temp<k>_input` and
/// `temp<k>_label` at index `k - 1`; `None` where a file could not be read.
pub struct HwmonDevice {
    pub dir_name: String,
    pub name: Option<String>,
    pub inputs: Vec<Option<String>>,
    pub labels: Vec<Option<String>>,
}

pub struct HwmonDeviceView {
    pub dir_name: Seq<char>,
    pub name: Option<Seq<char>>,
    pub inputs: Seq<Option<Seq<char>>>,
    pub labels: Seq<Option<Seq<char>>>,
}

impl View for HwmonDevice {
    type V = HwmonDeviceView;

    open spec fn view(&self) -> HwmonDeviceView {
        HwmonDeviceView {
            dir_name: self.dir_name@,
            name: opt_view(self.name),
            inputs: opt_views(self.inputs@),
            labels: opt_views(self.labels@),
        }
    }
}

/// A reading in millidegrees, in whole degrees (as the `u32` it is stored in).
pub open spec fn millis_to_c(mc: u64) -> u32 {
    (mc / 1000) as u32
}

/// The package sensors among the first `k` sensors of a `coretemp` device:
/// each whose input is a number and whose label starts with `Package`.
pub open spec fn coretemp_readings(d: HwmonDeviceView, k: nat) -> Seq<TempReadingView>
    decreases k,
{
    if k == 0 {
        seq![]
    } else {
        let prev = coretemp_readings(d, (k - 1) as nat);
        match sysfs_u64(entry(d.inputs, k - 1)) {
            Some(mc) => {
                let label = match sysfs_str(entry(d.labels, k - 1)) {
                    Some(l) => l,
                    None => seq![],
                };
                if starts_with(label, "Package"@) {
                    prev.push(TempReadingView { source: "cpu"@, label, temp_c: millis_to_c(mc) })
                } else {
                    prev
                }
            },
            None => prev,
        }
    }
}

/// The readings a hwmon device gives: the package sensors of a `coretemp`
/// device, the first sensor of an `nvme` device (labelled `Composite` when it
/// has no label), nothing for any other.
pub open spec fn device_readings(d: HwmonDeviceView) -> Seq<TempReadingView> {
    let name = match sysfs_str(d.name) {
        Some(n) => n,
        None => seq![],
    };
    if name == "coretemp"@ {
        coretemp_readings(d, CORETEMP_SENSORS as nat)
    } else if name == "nvme"@ {
        match sysfs_u64(entry(d.inputs, 0)) {
            Some(mc) => seq![
                TempReadingView {
                    source: "nvme"@,
                    label: match sysfs_str(entry(d.labels, 0)) {
                        Some(l) => l,
                        None => "Composite"@,
                    },
                    temp_c: millis_to_c(mc),
                },
            ],
            None => seq![],
        }
    } else {
        seq![]
    }
}

/// The readings of a list of devices, in the list's order.
pub open spec fn readings_of(ds: Seq<HwmonDeviceView>) -> Seq<TempReadingView>
    decreases ds.len(),
{
    if ds.len() == 0 {
        seq![]
    } else {
        readings_of(ds.drop_last()) + device_readings(ds.last())
    }
}

pub open spec fn device_views(v: Seq<HwmonDevice>) -> Seq<HwmonDeviceView> {
    v.map_values(|d: HwmonDevice| d@)
}

/// The sort keys of items named `names`.
pub open spec fn name_keys(names: Seq<Seq<char>>) -> Seq<Seq<u32>> {
    names.map_values(|n: Seq<char>| name_key(n))
}

/// `items` taken in the order that `order` gives.
pub open spec fn reorder<T>(items: Seq<T>, order: Seq<usize>) -> Seq<T> {
    order.map_values(|i: usize| items[i as int])
}

fn device_readings_exec(d: &HwmonDevice) -> (r: Vec<TempReading>)
    ensures
        temp_views(r@) == device_readings(d@),
{
    let mut out: Vec<TempReading> = Vec::new();
    let name = match sysfs_str_of(&d.name) {
        Some(n) => n,
        None => Vec::new(),
    };
    let coretemp = chars_of("coretemp");
    let nvme = chars_of("nvme");
    if chars_eq(&name, &coretemp) {
        let package = chars_of("Package");
        let mut k: usize = 0;
        while k < CORETEMP_SENSORS
            invariant
                k <= CORETEMP_SENSORS,
                package@ == "Package"@,
                temp_views(out@) == coretemp_readings(d@, k as nat),
            decreases CORETEMP_SENSORS - k,
        {
            let input = entry_of(&d.inputs, k);
            match sysfs_u64_of(&input) {
                Some(mc) => {
                    let lab = entry_of(&d.labels, k);
                    let label = match sysfs_str_of(&lab) {
                        Some(l) => l,
                        None => Vec::new(),
                    };
                    if starts_with_chars(&label, &package) {
                        let ghost before = temp_views(out@);
                        let t = TempReading {
                            source: string_of(&chars_of("cpu")),
                            label: string_of(&label),
                            temp_c: (mc / 1000) as u32,
                        };
                        out.push(t);
                        assert(temp_views(out@) =~= before.push(t@));
                    }
                },
                None => {},
            }
            k = k + 1;
        }
    } else if chars_eq(&name, &nvme) {
        let input = entry_of(&d.inputs, 0);
        match sysfs_u64_of(&input) {
            Some(mc) => {
                let lab = entry_of(&d.labels, 0);
                let label = match sysfs_str_of(&lab) {
                    Some(l) => l,
                    None => chars_of("Composite"),
                };
                let t = TempReading {
                    source: string_of(&chars_of("nvme")),
                    label: string_of(&label),
                    temp_c: (mc / 1000) as u32,
                };
                out.push(t);
                assert(temp_views(out@) =~= seq![t@]);
            },
            None => {},
        }
    } else {
        assert(temp_views(out@) =~= seq![]);
    }
    out
}

proof fn lemma_composite_trimmed()
    ensures
        is_trimmed("Composite"@),
{
    reveal_strlit("Composite");
    assert("Composite"@.len() == 9);
    assert("Composite"@[0] == 'C');
    assert("Composite"@[8] == 'e');
}

proof fn lemma_coretemp_labels_trimmed(d: HwmonDeviceView, k: nat)
    ensures
        forall|q: int|
            0 <= q < coretemp_readings(d, k).len() ==> is_trimmed(#[trigger] coretemp_readings(d, k)[q].label),
    decreases k,
{
    if k > 0 {
        lemma_coretemp_labels_trimmed(d, (k - 1) as nat);
        let prev = coretemp_readings(d, (k - 1) as nat);
        let cur = coretemp_readings(d, k);
        match entry(d.labels, k - 1) {
            Some(t) => lemma_trim(t),
            None => {},
        }
        assert forall|q: int| 0 <= q < cur.len() implies is_trimmed(#[trigger] cur[q].label) by {
            if q < prev.len() {
                assert(cur[q] == prev[q]);
            }
        }
    }
}

/// A `coretemp` device reports only its package sensors: each of its
/// readings comes from the CPU and has a label that starts with `Package`.
pub proof fn lemma_coretemp_packages_only(d: HwmonDeviceView, k: nat)
    ensures
        forall|q: int|
            0 <= q < coretemp_readings(d, k).len() ==> (#[trigger] coretemp_readings(d, k)[q]).source == "cpu"@
                && starts_with(coretemp_readings(d, k)[q].label, "Package"@),
    decreases k,
{
    if k > 0 {
        lemma_coretemp_packages_only(d, (k - 1) as nat);
        let prev = coretemp_readings(d, (k - 1) as nat);
        let cur = coretemp_readings(d, k);
        assert forall|q: int| 0 <= q < cur.len() implies (#[trigger] cur[q]).source == "cpu"@ && starts_with(
            cur[q].label,
            "Package"@,
        ) by {
            if q < prev.len() {
                assert(cur[q] == prev[q]);
            }
        }
    }
}

/// Every temperature reading's label neither starts nor ends with
/// whitespace: a label file's text is shown without what surrounds it, such
/// as its final newline.
pub proof fn lemma_reading_labels_trimmed(ds: Seq<HwmonDeviceView>)
    ensures
        forall|q: int| 0 <= q < readings_of(ds).len() ==> is_trimmed(#[trigger] readings_of(ds)[q].label),
    decreases ds.len(),
{
    if ds.len() > 0 {
        lemma_reading_labels_trimmed(ds.drop_last());
        let d = ds.last();
        let prev = readings_of(ds.drop_last());
        let add = device_readings(d);
        lemma_coretemp_labels_trimmed(d, CORETEMP_SENSORS as nat);
        lemma_composite_trimmed();
        match entry(d.labels, 0) {
            Some(t) => lemma_trim(t),
            None => {},
        }
        assert forall|q: int| 0 <= q < add.len() implies is_trimmed(#[trigger] add[q].label) by {}
        let all = readings_of(ds);
        assert forall|q: int| 0 <= q < all.len() implies is_trimmed(#[trigger] all[q].label) by {
            if q < prev.len() {
                assert(all[q] == prev[q]);
            } else {
                assert(all[q] == add[q - prev.len()]);
            }
        }
    }
}

/// An `nvme` device gives one reading, from its first sensor: the label is
/// the text of the label file with the whitespace around it taken off, and
/// the temperature is the input's millidegrees in whole degrees.
pub proof fn lemma_nvme_reading(d: HwmonDeviceView, name: Seq<char>, input: Seq<char>, label: Seq<char>, mc: u64)
    requires
        d.name == Some(name),
        trim(name) == "nvme"@,
        d.inputs.len() > 0,
        d.inputs[0] == Some(input),
        trim(input) == decimal(mc as nat),
        d.labels.len() > 0,
        d.labels[0] == Some(label),
    ensures
        device_readings(d) == seq![TempReadingView { source: "nvme"@, label: trim(label), temp_c: (mc / 1000) as u32 }],
{
    lemma_decimal_value(mc as nat);
    reveal_strlit("coretemp");
    reveal_strlit("nvme");
    assert("coretemp"@.len() == 8);
    assert("nvme"@.len() == 4);
    assert(sysfs_u64(entry(d.inputs, 0)) == Some(mc));
    assert(device_readings(d) =~= seq![TempReadingView { source: "nvme"@, label: trim(label), temp_c: (mc / 1000) as u32 }]);
}

/// The sort keys of hwmon devices: their entry names.
pub open spec fn hwmon_keys(devices: Seq<HwmonDevice>) -> Seq<Seq<u32>> {
    name_keys(devices.map_values(|d: HwmonDevice| d.dir_name@))
}

/// Temperature readings of the hwmon devices, taken in the order of their
/// entry names.
pub fn read_temps(devices: &Vec<HwmonDevice>) -> (temps: Vec<TempReading>)
    ensures
        temp_views(temps@) == readings_of(
            reorder(device_views(devices@), sorted_order(hwmon_keys(devices@))),
        ),
{
    let ghost names = devices@.map_values(|d: HwmonDevice| d.dir_name@);
    assert(hwmon_keys(devices@) == name_keys(names));
    let mut keys: Vec<Vec<u32>> = Vec::new();
    let mut i: usize = 0;
    while i < devices.len()
        invariant
            names == devices@.map_values(|d: HwmonDevice| d.dir_name@),
            i <= devices.len(),
            key_rows(keys@) == name_keys(names.take(i as int)),
        decreases devices.len() - i,
    {
        let k = name_key_of(&devices[i].dir_name);
        let ghost before = key_rows(keys@);
        assert(names[i as int] == devices@[i as int].dir_name@);
        keys.push(k);
        assert(key_rows(keys@) =~= before.push(k@));
        assert(names.take(i + 1) =~= names.take(i as int).push(names[i as int]));
        i = i + 1;
        assert(key_rows(keys@) =~= name_keys(names.take(i as int)));
    }
    assert(names.take(devices.len() as int) =~= names);
    let order = sort_order(&keys);
    let ghost sorted = reorder(device_views(devices@), order@);
    let mut temps: Vec<TempReading> = Vec::new();
    let mut j: usize = 0;
    while j < order.len()
        invariant
            is_sort_order(key_rows(keys@), order@),
            order.len() == devices.len(),
            sorted == reorder(device_views(devices@), order@),
            j <= order.len(),
            temp_views(temps@) == readings_of(sorted.take(j as int)),
        decreases order.len() - j,
    {
        let idx = order[j];
        let mut r = device_readings_exec(&devices[idx]);
        let ghost before = temp_views(temps@);
        let ghost add = temp_views(r@);
        temps.append(&mut r);
        assert(temp_views(temps@) =~= before + add);
        assert(sorted.take(j + 1).drop_last() =~= sorted.take(j as int));
        assert(sorted.take(j + 1).last() == devices@[idx as int]@);
        j = j + 1;
    }
    assert(sorted.take(order.len() as int) =~= sorted);
    temps
}


/// One graphics card.
#[derive(Debug, Clone)]
pub struct GpuInfo {
    pub name: String,
    pub util_pct: u8,
    pub vram_used_mb: u64,
    pub vram_total_mb: u64,
    pub temp_c: Option<u32>,
}

pub struct GpuInfoView {
    pub name: Seq<char>,
    pub util_pct: u8,
    pub vram_used_mb: u64,
    pub vram_total_mb: u64,
    pub temp_c: Option<u32>,
}

impl View for GpuInfo {
    type V = GpuInfoView;

    open spec fn view(&self) -> GpuInfoView {
        GpuInfoView {
            name: self.name@,
            util_pct: self.util_pct,
            vram_used_mb: self.vram_used_mb,
            vram_total_mb: self.vram_total_mb,
            temp_c: self.temp_c,
        }
    }
}

impl Default for GpuInfo {
    fn default() -> (g: GpuInfo)
        ensures
            g.name@ == Seq::<char>::empty(),
            g.util_pct == 0,
            g.vram_used_mb == 0,
            g.vram_total_mb == 0,
            g.temp_c is None,
    {
        GpuInfo { name: String::new(), util_pct: 0, vram_used_mb: 0, vram_total_mb: 0, temp_c: None }
    }
}

pub open spec fn gpu_views(v: Seq<GpuInfo>) -> Seq<GpuInfoView> {
    v.map_values(|g: GpuInfo| g@)
}

/// What was read for one entry of `/sys/class/drm`: the entry's name, the
/// texts of `device/gpu_busy_percent`, `device/mem_info_vram_used`,
/// `device/mem_info_vram_total` and `device/product_name`, and the texts of
/// `temp1_input` of the entries of `device/hwmon` in directory order; `None`
/// where a file could not be read.
pub struct DrmCard {
    pub dir_name: String,
    pub busy_percent: Option<String>,
    pub vram_used: Option<String>,
    pub vram_total: Option<String>,
    pub product_name: Option<String>,
    pub hwmon_temps: Vec<Option<String>>,
}

pub struct DrmCardView {
    pub dir_name: Seq<char>,
    pub busy_percent: Option<Seq<char>>,
    pub vram_used: Option<Seq<char>>,
    pub vram_total: Option<Seq<char>>,
    pub product_name: Option<Seq<char>>,
    pub hwmon_temps: Seq<Option<Seq<char>>>,
}

impl View for DrmCard {
    type V = DrmCardView;

    open spec fn view(&self) -> DrmCardView {
        DrmCardView {
            dir_name: self.dir_name@,
            busy_percent: opt_view(self.busy_percent),
            vram_used: opt_view(self.vram_used),
            vram_total: opt_view(self.vram_total),
            product_name: opt_view(self.product_name),
            hwmon_temps: opt_views(self.hwmon_temps@),
        }
    }
}

pub open spec fn card_views(v: Seq<DrmCard>) -> Seq<DrmCardView> {
    v.map_values(|c: DrmCard| c@)
}

/// The temperature of the first hwmon entry whose `temp1_input` is a number,
/// in whole degrees.
pub open spec fn gpu_temp_of(temps: Seq<Option<Seq<char>>>) -> Option<u32>
    decreases temps.len(),
{
    if temps.len() == 0 {
        None
    } else {
        match sysfs_u64(temps[0]) {
            Some(v) => Some(millis_to_c(v)),
            None => gpu_temp_of(temps.drop_first()),
        }
    }
}

/// The temperature of a card from its hwmon readings.
pub fn gpu_temp(temps: &Vec<Option<String>>) -> (t: Option<u32>)
    ensures
        t == gpu_temp_of(opt_views(temps@)),
{
    let ghost all = opt_views(temps@);
    let mut i: usize = 0;
    assert(all.skip(0) =~= all);
    while i < temps.len()
        invariant
            all == opt_views(temps@),
            i <= temps.len(),
            gpu_temp_of(all) == gpu_temp_of(all.skip(i as int)),
        decreases temps.len() - i,
    {
        assert(all.skip(i as int)[0] == opt_view(temps@[i as int]));
        match sysfs_u64_of(&temps[i]) {
            Some(v) => {
                return Some((v / 1000) as u32);
            },
            None => {},
        }
        assert(all.skip(i as int).drop_first() =~= all.skip(i + 1));
        i = i + 1;
    }
    None
}

/// An entry of `/sys/class/drm` that is a card: `card` followed by one or
/// more ASCII digits.
pub open spec fn is_card_name(n: Seq<char>) -> bool {
    n.len() > 4 && starts_with(n, "card"@) && all_digits(n.skip(4))
}

/// The cards among the entries, in the entries' order.
pub open spec fn cards_of(es: Seq<DrmCardView>) -> Seq<DrmCardView>
    decreases es.len(),
{
    if es.len() == 0 {
        seq![]
    } else {
        let prev = cards_of(es.drop_last());
        if is_card_name(es.last().dir_name) {
            prev.push(es.last())
        } else {
            prev
        }
    }
}

/// The GPU that the `idx`-th card describes, when it reports a VRAM size or
/// a temperature; it is named by its product name, else `GPU <idx>`.
pub open spec fn gpu_of_card(c: DrmCardView, idx: nat) -> Option<GpuInfoView> {
    let util = match sysfs_u64(c.busy_percent) {
        Some(v) => v,
        None => 0,
    };
    let used = match sysfs_u64(c.vram_used) {
        Some(v) => v,
        None => 0,
    };
    let total = match sysfs_u64(c.vram_total) {
        Some(v) => v,
        None => 0,
    };
    let temp = gpu_temp_of(c.hwmon_temps);
    if total == 0 && temp is None {
        None
    } else {
        Some(
            GpuInfoView {
                name: match sysfs_str(c.product_name) {
                    Some(n) => n,
                    None => "GPU "@ + decimal(idx),
                },
                util_pct: util as u8,
                vram_used_mb: used / 1_048_576,
                vram_total_mb: total / 1_048_576,
                temp_c: temp,
            },
        )
    }
}

/// The sort keys of a list of cards: their entry names.
pub open spec fn card_keys(cards: Seq<DrmCardView>) -> Seq<Seq<u32>> {
    name_keys(cards.map_values(|c: DrmCardView| c.dir_name))
}

/// The GPUs of the first `k` cards of a list.
pub open spec fn gpus_of(cards: Seq<DrmCardView>, k: nat) -> Seq<GpuInfoView>
    decreases k,
{
    if k == 0 {
        seq![]
    } else {
        let prev = gpus_of(cards, (k - 1) as nat);
        match gpu_of_card(cards[k - 1], (k - 1) as nat) {
            Some(g) => prev.push(g),
            None => prev,
        }
    }
}

fn is_card_name_exec(n: &Vec<char>) -> (b: bool)
    ensures
        b == is_card_name(n@),
{
    let card = chars_of("card");
    if !(n.len() > 4 && starts_with_chars(n, &card)) {
        return false;
    }
    let mut i: usize = 4;
    while i < n.len()
        invariant
            4 <= i <= n.len(),
            forall|j: int| 4 <= j < i ==> crate::num::is_digit(n@[j]),
        decreases n.len() - i,
    {
        let c = n[i] as u32;
        if c < 48 || c > 57 {
            assert(n@.skip(4)[i - 4] == n@[i as int]);
            return false;
        }
        i = i + 1;
    }
    assert forall|j: int| 0 <= j < n@.skip(4).len() implies crate::num::is_digit(
        #[trigger] n@.skip(4)[j],
    ) by {
        assert(n@.skip(4)[j] == n@[j + 4]);
    }
    true
}

fn gpu_from_card(c: &DrmCard, idx: usize) -> (r: Option<GpuInfo>)
    ensures
        match r {
            Some(g) => gpu_of_card(c@, idx as nat) == Some(g@),
            None => gpu_of_card(c@, idx as nat) is None,
        },
{
    let util = match sysfs_u64_of(&c.busy_percent) {
        Some(v) => v,
        None => 0,
    };
    let used = match sysfs_u64_of(&c.vram_used) {
        Some(v) => v,
        None => 0,
    };
    let total = match sysfs_u64_of(&c.vram_total) {
        Some(v) => v,
        None => 0,
    };
    let temp = gpu_temp(&c.hwmon_temps);
    if total == 0 && temp.is_none() {
        return None;
    }
    let name = match sysfs_str_of(&c.product_name) {
        Some(n) => n,
        None => {
            let mut n = chars_of("GPU ");
            let mut d = decimal_chars(idx as u64);
            n.append(&mut d);
            n
        },
    };
    Some(
        GpuInfo {
            name: string_of(&name),
            util_pct: util as u8,
            vram_used_mb: used / 1_048_576,
            vram_total_mb: total / 1_048_576,
            temp_c: temp,
        },
    )
}

/// The GPUs that `/sys/class/drm` describes: its cards, taken in the order
/// of their names, each that reports a VRAM size or a temperature.
pub fn read_gpus_sysfs(entries: &Vec<DrmCard>) -> (gpus: Vec<GpuInfo>)
    ensures
        ({
            let cards = cards_of(card_views(entries@));
            gpu_views(gpus@) == gpus_of(reorder(cards, sorted_order(card_keys(cards))), cards.len())
        }),
{
    let ghost all = card_views(entries@);
    let mut picked: Vec<usize> = Vec::new();
    let mut keys: Vec<Vec<u32>> = Vec::new();
    let mut i: usize = 0;
    assert(all.take(0) =~= Seq::<DrmCardView>::empty());
    while i < entries.len()
        invariant
            all == card_views(entries@),
            i <= entries.len(),
            picked.len() == keys.len(),
            forall|k: int| 0 <= k < picked.len() ==> picked[k] < entries.len(),
            picked@.map_values(|p: usize| all[p as int]) == cards_of(all.take(i as int)),
            key_rows(keys@) == card_keys(cards_of(all.take(i as int))),
        decreases entries.len() - i,
    {
        let ghost prev_cards = cards_of(all.take(i as int));
        assert(all.take(i + 1).drop_last() =~= all.take(i as int));
        assert(all.take(i + 1).last() == entries@[i as int]@);
        let n = chars_of(entries[i].dir_name.as_str());
        if is_card_name_exec(&n) {
            let ghost kp = picked@;
            let ghost kr = key_rows(keys@);
            let k = name_key_of(&entries[i].dir_name);
            picked.push(i);
            keys.push(k);
            assert(picked@.map_values(|p: usize| all[p as int]) =~= kp.map_values(|p: usize| all[p as int]).push(all[i as int]));
            assert(key_rows(keys@) =~= kr.push(k@));
            assert(cards_of(all.take(i + 1)) == prev_cards.push(all[i as int]));
            assert(card_keys(prev_cards.push(all[i as int])) =~= card_keys(prev_cards).push(name_key(all[i as int].dir_name)));
        }
        i = i + 1;
    }
    assert(all.take(entries.len() as int) =~= all);
    let ghost cards = cards_of(all);
    let order = sort_order(&keys);
    let ghost sorted = reorder(cards, order@);
    let mut gpus: Vec<GpuInfo> = Vec::new();
    let mut j: usize = 0;
    while j < order.len()
        invariant
            all == card_views(entries@),
            cards == cards_of(all),
            picked@.map_values(|p: usize| all[p as int]) == cards,
            forall|k: int| 0 <= k < picked.len() ==> picked[k] < entries.len(),
            is_sort_order(key_rows(keys@), order@),
            order.len() == picked.len(),
            sorted == reorder(cards, order@),
            j <= order.len(),
            gpu_views(gpus@) == gpus_of(sorted, j as nat),
        decreases order.len() - j,
    {
        let o = order[j];
        let e = picked[o];
        assert(sorted[j as int] == entries@[e as int]@);
        match gpu_from_card(&entries[e], j) {
            Some(g) => {
                let ghost before = gpu_views(gpus@);
                gpus.push(g);
                assert(gpu_views(gpus@) =~= before.push(g@));
            },
            None => {},
        }
        j = j + 1;
    }
    gpus
}

/// One line of `nvidia-smi --format=csv,noheader,nounits` output: name,
/// utilization, used and total memory, and temperature, comma-separated;
/// the first four must be present and the middle three numbers, the
/// temperature is kept only when it is a number.
pub open spec fn smi_gpu_of_line(l: Seq<char>) -> Option<GpuInfoView> {
    let p = split_n(l, ',', 5);
    if p.len() < 5 {
        None
    } else {
        match (
            parse_unsigned(trim(p[1]), 255),
            parse_unsigned(trim(p[2]), u64::MAX as nat),
            parse_unsigned(trim(p[3]), u64::MAX as nat),
        ) {
            (Some(u), Some(a), Some(b)) => Some(
                GpuInfoView {
                    name: trim(p[0]),
                    util_pct: u as u8,
                    vram_used_mb: a as u64,
                    vram_total_mb: b as u64,
                    temp_c: match parse_unsigned(trim(p[4]), u32::MAX as nat) {
                        Some(t) => Some(t as u32),
                        None => None,
                    },
                },
            ),
            _ => None,
        }
    }
}

pub open spec fn smi_gpus_of(ls: Seq<Seq<char>>) -> Seq<GpuInfoView>
    decreases ls.len(),
{
    if ls.len() == 0 {
        seq![]
    } else {
        let prev = smi_gpus_of(ls.drop_last());
        match smi_gpu_of_line(ls.last()) {
            Some(g) => prev.push(g),
            None => prev,
        }
    }
}

fn smi_gpu_from_line(l: &Vec<char>) -> (r: Option<GpuInfo>)
    ensures
        match r {
            Some(g) => smi_gpu_of_line(l@) == Some(g@),
            None => smi_gpu_of_line(l@) is None,
        },
{
    let p = split_n_chars(l, ',', 5);
    if p.len() < 5 {
        return None;
    }
    proof {
        assert(forall|k: int| 0 <= k < p.len() ==> rows(p@)[k] == #[trigger] p@[k]@);
    }
    let util = match parse_unsigned_exec(&trim_chars(&p[1]), 255) {
        Some(v) => v,
        None => return None,
    };
    let used = match parse_unsigned_exec(&trim_chars(&p[2]), u64::MAX) {
        Some(v) => v,
        None => return None,
    };
    let total = match parse_unsigned_exec(&trim_chars(&p[3]), u64::MAX) {
        Some(v) => v,
        None => return None,
    };
    let temp = match parse_unsigned_exec(&trim_chars(&p[4]), u32::MAX as u64) {
        Some(t) => Some(t as u32),
        None => None,
    };
    Some(
        GpuInfo {
            name: string_of(&trim_chars(&p[0])),
            util_pct: util as u8,
            vram_used_mb: used,
            vram_total_mb: total,
            temp_c: temp,
        },
    )
}

/// The GPUs listed in the output of `nvidia-smi`, one per line that holds a
/// complete record.
pub fn read_gpus_nvidia_smi(output: &str) -> (gpus: Vec<GpuInfo>)
    ensures
        gpu_views(gpus@) == smi_gpus_of(lines(output@)),
{
    let text = chars_of(output);
    let ls = split_lines(&text);
    let ghost all = rows(ls@);
    let mut gpus: Vec<GpuInfo> = Vec::new();
    let mut i: usize = 0;
    assert(all.take(0) =~= Seq::<Seq<char>>::empty());
    while i < ls.len()
        invariant
            all == rows(ls@),
            i <= ls.len(),
            gpu_views(gpus@) == smi_gpus_of(all.take(i as int)),
        decreases ls.len() - i,
    {
        assert(all.take(i + 1).drop_last() =~= all.take(i as int));
        assert(all.take(i + 1).last() == ls@[i as int]@);
        match smi_gpu_from_line(&ls[i]) {
            Some(g) => {
                let ghost before = gpu_views(gpus@);
                gpus.push(g);
                assert(gpu_views(gpus@) =~= before.push(g@));
            },
            None => {},
        }
        i = i + 1;
    }
    assert(all.take(ls.len() as int) =~= all);
    gpus
}

/// The GPUs that sysfs reports, or, when it reports none, those in the
/// output of `nvidia-smi`.
pub fn read_gpus(sysfs: Vec<GpuInfo>, nvidia_smi_output: &str) -> (gpus: Vec<GpuInfo>)
    ensures
        sysfs.len() > 0 ==> gpus@ == sysfs@,
        sysfs.len() == 0 ==> gpu_views(gpus@) == smi_gpus_of(lines(nvidia_smi_output@)),
{
    if !sysfs.is_empty() {
        return sysfs;
    }
    read_gpus_nvidia_smi(nvidia_smi_output)
}

} // verus!
