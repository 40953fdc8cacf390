use vstd::prelude::*;

use std::collections::{HashMap, VecDeque};

use crate::num::{decimal, decimal_chars};
use crate::proc::{CpuStat, MemInfo, NetSample, NetSampleView, PidStat, sample_views};
use crate::text::{chars_of, contains, contains_chars, occurs_at};
use crate::tree::{build_tree, is_walk_listing, tree_is_bounded, tree_rows, tree_walks};

verus! {

/// How many samples each core's history holds.
pub const HISTORY: usize = 60;

/// Bytes per memory page.
pub const PAGE_BYTES: u64 = 4096;

/// How many tabs the monitor has.
pub const TABS: usize = 3;

/// `str::to_lowercase`: the Unicode lower-case mapping of `s`.
pub uninterp spec fn lowercase(s: Seq<char>) -> Seq<char>;

/// Every character of `s` is ASCII.
pub open spec fn is_ascii_text(s: Seq<char>) -> bool {
    forall|i: int| 0 <= i < s.len() ==> (#[trigger] s[i] as u32) < 128
}

/// An ASCII upper-case letter turned lower-case; any other character as is.
pub open spec fn ascii_lower_char(c: char) -> char {
    if 65 <= (c as u32) <= 90 {
        ((c as u32) + 32) as char
    } else {
        c
    }
}

/// `s` with its ASCII upper-case letters turned lower-case.
pub open spec fn ascii_lower(s: Seq<char>) -> Seq<char> {
    s.map_values(|c: char| ascii_lower_char(c))
}

/// The lower-case form of a text: letter by letter for ASCII text, the
/// Unicode mapping otherwise.
pub open spec fn lower_text(s: Seq<char>) -> Seq<char> {
    if is_ascii_text(s) {
        ascii_lower(s)
    } else {
        lowercase(s)
    }
}

/// Calls `str::to_lowercase`. Claimed: the result's characters are
/// `lowercase` of the argument's characters, so equal texts give equal
/// results; and, as the Unicode mapping of the ASCII range is `A`-`Z` to
/// `a`-`z` and nothing else, an ASCII text comes back with just those
/// letters changed.  Nothing more is said of the mapping of other
/// characters.
#[verifier::external_body]
fn to_lowercase(s: &str) -> (r: String)
    ensures
        r@ == lowercase(s@),
        is_ascii_text(s@) ==> r@ == ascii_lower(s@),
{
    s.to_lowercase()
}

/// One interface as the network tab shows it.
#[derive(Debug, Clone)]
pub struct NetIfaceDisplay {
    pub name: String,
    pub rx_bps: u64,
    pub tx_bps: u64,
    pub rx_total: u64,
    pub tx_total: u64,
}

impl Default for NetIfaceDisplay {
    fn default() -> (d: NetIfaceDisplay)
        ensures
            d.name@ == Seq::<char>::empty(),
            d.rx_bps == 0 && d.tx_bps == 0 && d.rx_total == 0 && d.tx_total == 0,
    {
        NetIfaceDisplay { name: String::new(), rx_bps: 0, tx_bps: 0, rx_total: 0, tx_total: 0 }
    }
}

/// One process as the process tab lists it, without its CPU and memory
/// figures.
#[derive(Debug, Clone)]
pub struct ProcessRow {
    pub pid: u32,
    pub name: String,
    pub state: char,
    pub ppid: u32,
    pub threads: i64,
    pub depth: usize,
}

/// The row of a process at a given depth of the tree.
pub fn to_proc_row(s: &PidStat, depth: usize) -> (r: ProcessRow)
    ensures
        r.pid == s.pid,
        r.name@ == s.name@,
        r.state == s.state,
        r.ppid == s.ppid,
        r.threads == s.threads,
        r.depth == depth,
{
    ProcessRow {
        pid: s.pid,
        name: s.name.clone(),
        state: s.state,
        ppid: s.ppid,
        threads: s.threads,
        depth,
    }
}

/// Resident memory in bytes for a count of resident pages; a negative count
/// counts as none.
pub fn rss_bytes(rss: i64) -> (b: u64)
    requires
        rss <= 0 || rss * PAGE_BYTES <= u64::MAX,
    ensures
        b == if rss > 0 {
            rss * PAGE_BYTES
        } else {
            0
        },
{
    let pages: u64 = if rss > 0 {
        rss as u64
    } else {
        0
    };
    pages * PAGE_BYTES
}

/// `a - b`, or 0 when `b` is larger.
pub open spec fn sat_sub(a: int, b: int) -> int {
    if a >= b {
        a - b
    } else {
        0
    }
}

/// The busy share of a core between two samples, in whole percent, at most
/// 100; 0 when no time passed.
pub open spec fn cpu_pct(prev: CpuStat, curr: CpuStat) -> u64 {
    let total_d = sat_sub(curr.spec_total(), prev.spec_total());
    let active_d = sat_sub(curr.spec_active(), prev.spec_active());
    if total_d > 0 {
        let p = active_d * 100 / total_d;
        if p < 100 {
            p as u64
        } else {
            100
        }
    } else {
        0
    }
}

/// The arithmetic of `cpu_pct` stays within `u64`.
pub open spec fn cpu_pair_ok(prev: CpuStat, curr: CpuStat) -> bool {
    &&& prev.fits()
    &&& curr.fits()
    &&& sat_sub(curr.spec_active(), prev.spec_active()) * 100 <= u64::MAX
}

/// The busy share of a core between two samples.
pub fn cpu_percent(prev: &CpuStat, curr: &CpuStat) -> (p: u64)
    requires
        cpu_pair_ok(*prev, *curr),
    ensures
        p == cpu_pct(*prev, *curr),
        p <= 100,
{
    let total_d = curr.total().saturating_sub(prev.total());
    let active_d = curr.active().saturating_sub(prev.active());
    if total_d > 0 {
        let p = active_d * 100 / total_d;
        if p < 100 {
            p
        } else {
            100
        }
    } else {
        0
    }
}

/// The sum of the totals of all cores.
pub open spec fn totals_sum(cs: Seq<CpuStat>) -> int
    decreases cs.len(),
{
    if cs.len() == 0 {
        0
    } else {
        totals_sum(cs.drop_last()) + cs.last().spec_total()
    }
}

/// Every core's counters, and the sum of their totals, fit in a `u64`.
pub open spec fn totals_fit(cs: Seq<CpuStat>) -> bool {
    &&& forall|i: int| 0 <= i < cs.len() ==> (#[trigger] cs[i]).fits()
    &&& totals_sum(cs) <= u64::MAX
}

proof fn lemma_totals_sum_prefix(cs: Seq<CpuStat>, k: int)
    requires
        0 <= k <= cs.len(),
        forall|i: int| 0 <= i < cs.len() ==> (#[trigger] cs[i]).fits(),
    ensures
        totals_sum(cs.take(k)) <= totals_sum(cs),
        totals_sum(cs.take(k)) >= 0,
    decreases cs.len(),
{
    if k < cs.len() {
        lemma_totals_sum_prefix(cs.drop_last(), k);
        assert(cs.drop_last().take(k) =~= cs.take(k));
        assert(cs.last().fits());
    } else {
        assert(cs.take(k) =~= cs);
        if cs.len() > 0 {
            lemma_totals_sum_prefix(cs.drop_last(), k - 1);
            assert(cs.drop_last().take(k - 1) =~= cs.drop_last());
            assert(cs.last().fits());
        }
    }
}

/// The busy ticks of each pid in a process sample; where a pid is listed
/// twice, its last entry wins.
pub open spec fn ticks_map(stats: Seq<PidStat>) -> Map<u32, u64>
    decreases stats.len(),
{
    if stats.len() == 0 {
        Map::empty()
    } else {
        ticks_map(stats.drop_last()).insert(stats.last().pid, ticks_of(stats.last()) as u64)
    }
}

/// The sample recorded last for an interface name: the last entry wins.
pub open spec fn last_named(prev: Seq<NetSampleView>, name: Seq<char>) -> Option<NetSampleView>
    decreases prev.len(),
{
    if prev.len() == 0 {
        None
    } else if prev.last().name == name {
        Some(prev.last())
    } else {
        last_named(prev.drop_last(), name)
    }
}

/// The busy ticks of a process: user plus system time.
pub open spec fn ticks_of(s: PidStat) -> int {
    s.utime + s.stime
}

/// A process's busy ticks fit in a `u64`.
pub open spec fn ticks_fit(s: PidStat) -> bool {
    ticks_of(s) <= u64::MAX
}

/// A process's busy ticks since they were last recorded; 0 for a process
/// not recorded before.
pub open spec fn tick_delta(prev: Map<u32, u64>, s: PidStat) -> u64 {
    if prev.contains_key(s.pid) {
        sat_sub(ticks_of(s), prev[s.pid] as int) as u64
    } else {
        0
    }
}

/// The busy share counts every tick that is neither idle nor iowait: when no
/// counter went down, it is the busy part of all new ticks, in whole
/// percent (0 when no time passed); in particular a core whose new ticks are
/// all user, nice, system, irq or softirq time is at 100%.
pub proof fn lemma_cpu_pct_counts_busy(prev: CpuStat, curr: CpuStat)
    requires
        prev.fits(),
        curr.fits(),
        curr.user >= prev.user,
        curr.nice >= prev.nice,
        curr.system >= prev.system,
        curr.idle >= prev.idle,
        curr.iowait >= prev.iowait,
        curr.irq >= prev.irq,
        curr.softirq >= prev.softirq,
    ensures
        ({
            let busy = (curr.user - prev.user) + (curr.nice - prev.nice) + (curr.system - prev.system) + (
            curr.irq - prev.irq) + (curr.softirq - prev.softirq);
            let all = busy + (curr.idle - prev.idle) + (curr.iowait - prev.iowait);
            &&& cpu_pct(prev, curr) == if all == 0 {
                0
            } else {
                busy * 100 / all
            }
            &&& (all > 0 && curr.idle == prev.idle && curr.iowait == prev.iowait ==> cpu_pct(prev, curr) == 100)
        }),
{
    let busy = (curr.user - prev.user) + (curr.nice - prev.nice) + (curr.system - prev.system) + (curr.irq
        - prev.irq) + (curr.softirq - prev.softirq);
    let all = busy + (curr.idle - prev.idle) + (curr.iowait - prev.iowait);
    assert(curr.spec_total() - prev.spec_total() == all);
    assert(curr.spec_active() - prev.spec_active() == busy);
    if all > 0 {
        assert(0 <= busy <= all);
        assert(busy * 100 / all <= 100) by (nonlinear_arith)
            requires
                0 <= busy <= all,
                all > 0,
        ;
        assert(busy * 100 / all >= 0) by (nonlinear_arith)
            requires
                0 <= busy,
                all > 0,
        ;
        if busy == all {
            assert(busy * 100 / all == 100) by (nonlinear_arith)
                requires
                    busy == all,
                    all > 0,
            ;
        }
    }
}

proof fn lemma_ticks_map_last(stats: Seq<PidStat>, j: int)
    requires
        0 <= j < stats.len(),
        forall|k: int| j < k < stats.len() ==> #[trigger] stats[k].pid != stats[j].pid,
    ensures
        ticks_map(stats).contains_key(stats[j].pid),
        ticks_map(stats)[stats[j].pid] == (stats[j].utime + stats[j].stime) as u64,
    decreases stats.len(),
{
    if j < stats.len() - 1 {
        let t = stats.drop_last();
        assert forall|k: int| j < k < t.len() implies #[trigger] t[k].pid != t[j].pid by {
            assert(t[k] == stats[k]);
        }
        lemma_ticks_map_last(t, j);
        assert(stats.last().pid != stats[j].pid);
    }
}

proof fn lemma_ticks_map_absent(stats: Seq<PidStat>, pid: u32)
    requires
        forall|k: int| 0 <= k < stats.len() ==> #[trigger] stats[k].pid != pid,
    ensures
        !ticks_map(stats).contains_key(pid),
    decreases stats.len(),
{
    if stats.len() > 0 {
        let t = stats.drop_last();
        assert forall|k: int| 0 <= k < t.len() implies #[trigger] t[k].pid != pid by {
            assert(t[k] == stats[k]);
        }
        lemma_ticks_map_absent(t, pid);
        assert(stats.last().pid != pid);
    }
}

/// A process's busy ticks between two samples are the growth of its user
/// plus system time: after a sample whose last entry for the pid is
/// `stats[j]`, a new reading `s` of that pid gives `(s.utime + s.stime) -
/// (stats[j].utime + stats[j].stime)`, or 0 where that would be negative;
/// a pid the earlier sample did not list gives 0.
pub proof fn lemma_tick_delta_between_samples(stats: Seq<PidStat>, j: int, s: PidStat)
    requires
        0 <= j < stats.len(),
        stats[j].pid == s.pid,
        forall|k: int| j < k < stats.len() ==> #[trigger] stats[k].pid != s.pid,
        stats[j].utime + stats[j].stime <= u64::MAX,
        s.utime + s.stime <= u64::MAX,
    ensures
        tick_delta(ticks_map(stats), s) == if s.utime + s.stime >= stats[j].utime + stats[j].stime {
            (s.utime + s.stime) - (stats[j].utime + stats[j].stime)
        } else {
            0
        },
{
    lemma_ticks_map_last(stats, j);
}

/// A process that the earlier sample did not list has no busy ticks yet.
pub proof fn lemma_tick_delta_new_process(stats: Seq<PidStat>, s: PidStat)
    requires
        forall|k: int| 0 <= k < stats.len() ==> #[trigger] stats[k].pid != s.pid,
    ensures
        tick_delta(ticks_map(stats), s) == 0,
{
    lemma_ticks_map_absent(stats, s.pid);
}

/// The bytes an interface received and sent since it was last recorded.
pub open spec fn net_delta(prev: Seq<NetSampleView>, s: NetSampleView) -> Option<(u64, u64)> {
    match last_named(prev, s.name) {
        Some(p) => Some(
            (
                sat_sub(s.rx_bytes as int, p.rx_bytes as int) as u64,
                sat_sub(s.tx_bytes as int, p.tx_bytes as int) as u64,
            ),
        ),
        None => None,
    }
}

/// The tab after `tab`, wrapping around.
pub open spec fn spec_next_tab(tab: int) -> int {
    (tab + 1) % (TABS as int)
}

/// The tab before `tab`, wrapping around.
pub open spec fn spec_prev_tab(tab: int) -> int {
    if tab == 0 {
        (TABS - 1) as int
    } else {
        tab - 1
    }
}

/// The selection after moving down a list of `n` rows: one further, not past
/// the last row; the first row when nothing was selected; unchanged when the
/// list is empty.
pub open spec fn spec_next(sel: Option<usize>, n: nat) -> Option<usize> {
    if n == 0 {
        sel
    } else {
        match sel {
            Some(i) => Some(
                if i + 1 < n {
                    (i + 1) as usize
                } else {
                    (n - 1) as usize
                },
            ),
            None => Some(0),
        }
    }
}

/// The selection after moving up: one back, not before the first row.
pub open spec fn spec_previous(sel: Option<usize>) -> Option<usize> {
    match sel {
        Some(i) => Some(
            if i >= 1 {
                (i - 1) as usize
            } else {
                0
            },
        ),
        None => Some(0),
    }
}

/// Switching tabs forward and back (or back and forward) returns to the tab
/// one started from, and switching forward always lands on one of the tabs.
pub proof fn lemma_tab_round_trip(tab: int)
    requires
        0 <= tab < TABS,
    ensures
        spec_prev_tab(spec_next_tab(tab)) == tab,
        spec_next_tab(spec_prev_tab(tab)) == tab,
        0 <= spec_next_tab(tab) < TABS,
        0 <= spec_prev_tab(tab) < TABS,
{
}

/// Moving down never selects past the last row of a non-empty list, and
/// moving down then up returns to a row that is not the last.
pub proof fn lemma_selection_round_trip(sel: Option<usize>, n: nat)
    requires
        n <= usize::MAX,
    ensures
        n > 0 ==> (spec_next(sel, n) matches Some(j) && j < n),
        sel matches Some(i) && i + 1 < n ==> spec_previous(spec_next(sel, n)) == sel,
{
    if let Some(i) = sel {
        if i + 1 < n {
            let j = (i + 1) as usize;
            assert(spec_next(sel, n) == Some(j));
            assert(spec_previous(Some(j)) == Some((j - 1) as usize));
        }
    }
}

/// A process with this lower-cased name and this pid passes a filter, given
/// also lower-cased: the name contains the filter, or the pid, in decimal,
/// contains the filter as typed.
pub open spec fn keeps(lower_name: Seq<char>, lower_filter: Seq<char>, pid: u32, filter: Seq<char>) -> bool {
    contains(lower_name, lower_filter) || contains(decimal(pid as nat), filter)
}

/// A process matches a filter: its name contains the filter, ignoring case,
/// or its pid, in decimal, contains the filter as typed.
pub open spec fn row_matches(r: ProcessRow, filter: Seq<char>) -> bool {
    keeps(lower_text(r.name@), lower_text(filter), r.pid, filter)
}

/// Whether a filter keeps a process, from its lower-cased name, its pid,
/// and the filter both lower-cased and as typed.
pub fn filter_keeps(lower_name: &str, lower_filter: &str, pid: u32, filter: &str) -> (r: bool)
    ensures
        r == keeps(lower_name@, lower_filter@, pid, filter@),
{
    let name = chars_of(lower_name);
    let lf = chars_of(lower_filter);
    let f = chars_of(filter);
    let pid_text = decimal_chars(pid as u64);
    contains_chars(&name, &lf) || contains_chars(&pid_text, &f)
}

/// The positions among the first `k` rows that the filter keeps, in order.
pub open spec fn matching_upto(rows: Seq<ProcessRow>, filter: Seq<char>, k: nat) -> Seq<usize>
    decreases k,
{
    if k == 0 {
        seq![]
    } else {
        let prev = matching_upto(rows, filter, (k - 1) as nat);
        if row_matches(rows[k - 1], filter) {
            prev.push((k - 1) as usize)
        } else {
            prev
        }
    }
}

/// The positions of the rows on screen: all of them when there is no
/// filter, else those that match it.
pub open spec fn visible(rows: Seq<ProcessRow>, filter: Seq<char>) -> Seq<usize> {
    if filter.len() == 0 {
        Seq::new(rows.len(), |i: int| i as usize)
    } else {
        matching_upto(rows, filter, rows.len())
    }
}

/// The rows on screen are positions of listed processes, each once, in the
/// order of the list.
pub proof fn lemma_visible_in_order(rows: Seq<ProcessRow>, filter: Seq<char>)
    requires
        rows.len() <= usize::MAX,
    ensures
        forall|k: int|
            0 <= k < visible(rows, filter).len() ==> #[trigger] visible(rows, filter)[k] < rows.len(),
        forall|a: int, b: int|
            0 <= a < b < visible(rows, filter).len() ==> #[trigger] visible(rows, filter)[a]
                < #[trigger] visible(rows, filter)[b],
{
    if filter.len() > 0 {
        lemma_matching_upto(rows, filter, rows.len());
    }
}

proof fn lemma_matching_upto(rows: Seq<ProcessRow>, filter: Seq<char>, k: nat)
    requires
        k <= rows.len(),
        rows.len() <= usize::MAX,
    ensures
        forall|q: int|
            0 <= q < matching_upto(rows, filter, k).len() ==> #[trigger] matching_upto(
                rows,
                filter,
                k,
            )[q] < k,
        forall|a: int, b: int|
            0 <= a < b < matching_upto(rows, filter, k).len() ==> #[trigger] matching_upto(
                rows,
                filter,
                k,
            )[a] < #[trigger] matching_upto(rows, filter, k)[b],
    decreases k,
{
    if k > 0 {
        lemma_matching_upto(rows, filter, (k - 1) as nat);
        let prev = matching_upto(rows, filter, (k - 1) as nat);
        let cur = matching_upto(rows, filter, k);
        if row_matches(rows[k - 1], filter) {
            assert(cur == prev.push((k - 1) as usize));
            assert forall|q: int| 0 <= q < cur.len() implies #[trigger] cur[q] < k by {
                if q < prev.len() {
                    assert(cur[q] == prev[q]);
                }
            }
            assert forall|a: int, b: int| 0 <= a < b < cur.len() implies #[trigger] cur[a] < #[trigger] cur[b] by {
                assert(cur[a] == prev[a]);
                if b < prev.len() {
                    assert(cur[b] == prev[b]);
                }
            }
        }
    }
}

/// `f` picks out `x` from `y`: `x[i]` is `y[f[i]]`, and the picks go forward.
pub open spec fn picks(f: Seq<int>, x: Seq<usize>, y: Seq<usize>) -> bool {
    &&& f.len() == x.len()
    &&& forall|i: int| 0 <= i < f.len() ==> 0 <= #[trigger] f[i] < y.len() && y[f[i]] == x[i]
    &&& forall|i: int, j: int| 0 <= i < j < f.len() ==> #[trigger] f[i] < #[trigger] f[j]
}

/// `x` is `y` with some entries left out, the rest in the same order.
pub open spec fn is_subsequence(x: Seq<usize>, y: Seq<usize>) -> bool {
    exists|f: Seq<int>| picks(f, x, y)
}

proof fn lemma_contains_front(hay: Seq<char>, u: Seq<char>, v: Seq<char>)
    requires
        contains(hay, u + v),
    ensures
        contains(hay, u),
{
    let i = choose|i: int| occurs_at(hay, u + v, i);
    assert forall|j: int| 0 <= j < u.len() implies #[trigger] hay.subrange(i, i + u.len())[j] == u[j] by {
        assert(hay.subrange(i, i + (u + v).len())[j] == (u + v)[j]);
    }
    assert(hay.subrange(i, i + u.len()) =~= u);
    assert(occurs_at(hay, u, i));
}

proof fn lemma_narrower_matches(r: ProcessRow, a: Seq<char>, s: Seq<char>)
    requires
        is_ascii_text(a),
        is_ascii_text(s),
        row_matches(r, a + s),
    ensures
        row_matches(r, a),
{
    let b = a + s;
    assert(is_ascii_text(b)) by {
        assert forall|i: int| 0 <= i < b.len() implies (#[trigger] b[i] as u32) < 128 by {
            if i < a.len() {
                assert(b[i] == a[i]);
            } else {
                assert(b[i] == s[i - a.len()]);
            }
        }
    }
    assert(lower_text(b) =~= lower_text(a) + ascii_lower(s));
    if contains(lower_text(r.name@), lower_text(b)) {
        lemma_contains_front(lower_text(r.name@), lower_text(a), ascii_lower(s));
    } else {
        lemma_contains_front(decimal(r.pid as nat), a, s);
    }
}

proof fn lemma_matching_narrows(rows: Seq<ProcessRow>, a: Seq<char>, b: Seq<char>, k: nat) -> (f: Seq<int>)
    requires
        k <= rows.len(),
        forall|i: int| 0 <= i < rows.len() && row_matches(#[trigger] rows[i], b) ==> row_matches(rows[i], a),
    ensures
        picks(f, matching_upto(rows, b, k), matching_upto(rows, a, k)),
    decreases k,
{
    if k == 0 {
        seq![]
    } else {
        let f0 = lemma_matching_narrows(rows, a, b, (k - 1) as nat);
        let x = matching_upto(rows, b, (k - 1) as nat);
        let y = matching_upto(rows, a, (k - 1) as nat);
        let r = rows[k - 1];
        if row_matches(r, b) {
            assert(row_matches(r, a));
            let f = f0.push(y.len() as int);
            let x2 = x.push((k - 1) as usize);
            let y2 = y.push((k - 1) as usize);
            assert forall|i: int| 0 <= i < f.len() implies 0 <= #[trigger] f[i] < y2.len() && y2[f[i]] == x2[i] by {
                if i < f0.len() {
                    assert(f[i] == f0[i]);
                }
            }
            assert forall|i: int, j: int| 0 <= i < j < f.len() implies #[trigger] f[i] < #[trigger] f[j] by {
                assert(f[i] == f0[i]);
                if j < f0.len() {
                    assert(f[j] == f0[j]);
                }
            }
            f
        } else if row_matches(r, a) {
            let y2 = y.push((k - 1) as usize);
            assert forall|i: int| 0 <= i < f0.len() implies 0 <= #[trigger] f0[i] < y2.len() && y2[f0[i]] == x[i] by {}
            f0
        } else {
            f0
        }
    }
}

/// Narrowing the filter never adds a row: for an ASCII filter `a` and more
/// ASCII text `s`, the rows on screen under `a` followed by `s` are some of
/// the rows on screen under `a`, in the same order.
pub proof fn lemma_narrower_filter(rows: Seq<ProcessRow>, a: Seq<char>, s: Seq<char>)
    requires
        rows.len() <= usize::MAX,
        is_ascii_text(a),
        is_ascii_text(s),
    ensures
        is_subsequence(visible(rows, a + s), visible(rows, a)),
{
    let b = a + s;
    let x = visible(rows, b);
    let y = visible(rows, a);
    if b.len() == 0 {
        assert(b =~= a);
        let f = Seq::new(x.len(), |i: int| i);
        assert(picks(f, x, y));
    } else if a.len() == 0 {
        lemma_matching_upto(rows, b, rows.len());
        let f = x.map_values(|v: usize| v as int);
        assert forall|i: int| 0 <= i < f.len() implies 0 <= #[trigger] f[i] < y.len() && y[f[i]] == x[i] by {
            assert(x[i] < rows.len());
        }
        assert forall|i: int, j: int| 0 <= i < j < f.len() implies #[trigger] f[i] < #[trigger] f[j] by {
            assert(x[i] < x[j]);
        }
        assert(picks(f, x, y));
    } else {
        assert forall|i: int| 0 <= i < rows.len() && row_matches(#[trigger] rows[i], b) implies row_matches(
            rows[i],
            a,
        ) by {
            lemma_narrower_matches(rows[i], a, s);
        }
        let f = lemma_matching_narrows(rows, a, b, rows.len());
        assert(picks(f, x, y));
    }
}

/// The monitor's state, apart from the terminal.
pub struct App {
    pub tab: usize,
    pub processes: Vec<ProcessRow>,
    pub selected: Option<usize>,
    pub filter: String,
    pub filter_mode: bool,
    pub tree_mode: bool,
    pub cpu_history: Vec<VecDeque<u64>>,
    pub mem: MemInfo,
    pub net: Vec<NetIfaceDisplay>,
    pub prev_cpu: Vec<CpuStat>,
    pub prev_ticks: HashMap<u32, u64>,
    pub prev_total: u64,
    pub prev_net: Vec<NetSample>,
}

impl App {
    /// Every core's history holds `HISTORY` samples, each a percentage.
    pub open spec fn hist_ok(&self) -> bool {
        &&& forall|i: int|
            0 <= i < self.cpu_history.len() ==> (#[trigger] self.cpu_history@[i])@.len()
                == HISTORY
        &&& forall|i: int, j: int|
            #![trigger self.cpu_history@[i]@[j]]
            0 <= i < self.cpu_history.len() && 0 <= j < HISTORY ==> self.cpu_history@[i]@[j] <= 100
    }

    /// The histories are in shape (`hist_ok`), and there is one for each core
    /// of the last sample, and at least one.
    pub open spec fn wf(&self) -> bool {
        &&& self.cpu_history.len() >= 1
        &&& self.cpu_history.len() >= self.prev_cpu@.len()
        &&& self.hist_ok()
    }

    /// Everything but the CPU history and the last CPU sample is as in
    /// `other`.
    pub open spec fn same_apart_from_cpu(&self, other: App) -> bool {
        &&& self.tab == other.tab
        &&& self.processes == other.processes
        &&& self.selected == other.selected
        &&& self.filter == other.filter
        &&& self.filter_mode == other.filter_mode
        &&& self.tree_mode == other.tree_mode
        &&& self.mem == other.mem
        &&& self.net == other.net
        &&& self.prev_ticks == other.prev_ticks
        &&& self.prev_total == other.prev_total
        &&& self.prev_net == other.prev_net
    }

    /// The positions of the processes on screen.
    pub open spec fn spec_visible(&self) -> Seq<usize> {
        visible(self.processes@, self.filter@)
    }

    /// The monitor's state before its first refresh: the first tab, no
    /// processes, the first row selected, an idle history of `HISTORY` zeros
    /// for each core of `cpu` (at least one), and `cpu` as the last sample.
    pub fn new(cpu: Vec<CpuStat>) -> (app: App)
        ensures
            app.wf(),
            app.tab == 0,
            app.processes.len() == 0,
            app.selected == Some(0usize),
            app.filter@.len() == 0,
            !app.filter_mode,
            !app.tree_mode,
            app.cpu_history.len() == if cpu.len() > 1 {
                cpu.len()
            } else {
                1
            },
            forall|i: int, j: int|
                #![trigger app.cpu_history@[i]@[j]]
                0 <= i < app.cpu_history.len() && 0 <= j < HISTORY ==> app.cpu_history@[i]@[j] == 0,
            app.mem == (MemInfo { total_kb: 0, available_kb: 0 }),
            app.net.len() == 0,
            app.prev_cpu@ == cpu@,
            app.prev_ticks@ == Map::<u32, u64>::empty(),
            app.prev_total == 0,
            app.prev_net.len() == 0,
    {
        let cores = if cpu.len() > 1 {
            cpu.len()
        } else {
            1
        };
        let mut hist: Vec<VecDeque<u64>> = Vec::new();
        while hist.len() < cores
            invariant
                hist.len() <= cores,
                forall|i: int| 0 <= i < hist.len() ==> (#[trigger] hist@[i])@ == Seq::new(HISTORY as nat, |j: int| 0u64),
            decreases cores - hist.len(),
        {
            hist.push(idle_history());
        }
        let app = App {
            tab: 0,
            processes: Vec::new(),
            selected: Some(0),
            filter: String::new(),
            filter_mode: false,
            tree_mode: false,
            cpu_history: hist,
            mem: MemInfo { total_kb: 0, available_kb: 0 },
            net: Vec::new(),
            prev_cpu: cpu,
            prev_ticks: HashMap::new(),
            prev_total: 0,
            prev_net: Vec::new(),
        };
        app
    }

    /// Moves to the next tab, wrapping around.
    pub fn next_tab(&mut self)
        requires
            old(self).tab < usize::MAX,
        ensures
            final(self).tab == spec_next_tab(old(self).tab as int),
            final(self).tab < TABS,
            *final(self) == (App { tab: final(self).tab, ..*old(self) }),
            old(self).wf() ==> final(self).wf(),
    {
        self.tab = (self.tab + 1) % TABS;
    }

    /// Moves to the previous tab, wrapping around.
    pub fn prev_tab(&mut self)
        ensures
            final(self).tab == spec_prev_tab(old(self).tab as int),
            *final(self) == (App { tab: final(self).tab, ..*old(self) }),
            old(self).wf() ==> final(self).wf(),
    {
        self.tab = if self.tab == 0 {
            TABS - 1
        } else {
            self.tab - 1
        };
    }

    /// Switches between the flat list and the tree of processes.
    pub fn toggle_tree(&mut self)
        ensures
            final(self).tree_mode == !old(self).tree_mode,
            *final(self) == (App { tree_mode: final(self).tree_mode, ..*old(self) }),
            old(self).wf() ==> final(self).wf(),
    {
        self.tree_mode = !self.tree_mode;
    }

    /// The positions of the processes that the filter keeps, in order.
    pub fn visible_indices(&self) -> (v: Vec<usize>)
        ensures
            v@ == self.spec_visible(),
    {
        let n = self.processes.len();
        let filter = chars_of(self.filter.as_str());
        let mut out: Vec<usize> = Vec::new();
        if filter.len() == 0 {
            let mut i: usize = 0;
            while i < n
                invariant
                    n == self.processes.len(),
                    i <= n,
                    out@ == Seq::new(i as nat, |k: int| k as usize),
                decreases n - i,
            {
                out.push(i);
                i = i + 1;
                assert(out@ =~= Seq::new(i as nat, |k: int| k as usize));
            }
            return out;
        }
        let lower_filter = to_lowercase(self.filter.as_str());
        let mut i: usize = 0;
        while i < n
            invariant
                n == self.processes.len(),
                self.filter@.len() > 0,
                lower_filter@ == lower_text(self.filter@),
                i <= n,
                out@ == matching_upto(self.processes@, self.filter@, i as nat),
            decreases n - i,
        {
            let p = &self.processes[i];
            let lower_name = to_lowercase(p.name.as_str());
            assert(lower_name@ == lower_text(p.name@));
            if filter_keeps(lower_name.as_str(), lower_filter.as_str(), p.pid, self.filter.as_str()) {
                out.push(i);
            }
            i = i + 1;
        }
        out
    }

    /// Moves the selection one row down the visible list.
    pub fn next(&mut self)
        requires
            old(self).spec_visible().len() > 0 ==> old(self).selected != Some(usize::MAX),
        ensures
            final(self).selected == spec_next(old(self).selected, old(self).spec_visible().len()),
            *final(self) == (App { selected: final(self).selected, ..*old(self) }),
            old(self).wf() ==> final(self).wf(),
    {
        let n = self.visible_indices().len();
        if n == 0 {
            return;
        }
        let i = match self.selected {
            Some(i) => if i + 1 < n {
                i + 1
            } else {
                n - 1
            },
            None => 0,
        };
        self.selected = Some(i);
    }

    /// Moves the selection one row up.
    pub fn previous(&mut self)
        ensures
            final(self).selected == spec_previous(old(self).selected),
            *final(self) == (App { selected: final(self).selected, ..*old(self) }),
            old(self).wf() ==> final(self).wf(),
    {
        let i = match self.selected {
            Some(i) => if i >= 1 {
                i - 1
            } else {
                0
            },
            None => 0,
        };
        self.selected = Some(i);
    }

    /// The pid of the selected process, when the selection is a visible row.
    pub fn kill_target(&self) -> (pid: Option<u32>)
        ensures
            pid == match self.selected {
                Some(i) => if i < self.spec_visible().len() && self.spec_visible()[i as int]
                    < self.processes.len() {
                    Some(self.processes@[self.spec_visible()[i as int] as int].pid)
                } else {
                    None
                },
                None => None,
            },
    {
        let indices = self.visible_indices();
        match self.selected {
            Some(i) => {
                if i < indices.len() && indices[i] < self.processes.len() {
                    Some(self.processes[indices[i]].pid)
                } else {
                    None
                }
            },
            None => None,
        }
    }

    /// The history of core `i` once a sample of `new` cores has been taken:
    /// an idle one for a core not seen before, and, for a core in both the
    /// last and the new sample, the busy share between them recorded.
    pub open spec fn updated_history(&self, new: Seq<CpuStat>, i: int) -> Seq<u64> {
        let base = if i < self.cpu_history.len() {
            self.cpu_history@[i]@
        } else {
            Seq::new(HISTORY as nat, |j: int| 0u64)
        };
        if i < self.prev_cpu.len() && i < new.len() {
            recorded(base, cpu_pct(self.prev_cpu@[i], new[i]))
        } else {
            base
        }
    }

    /// Records a new CPU sample: a history is added for each new core, the
    /// busy share of each core since the last sample joins that core's
    /// history (whose oldest sample leaves once it is full), and the sample
    /// becomes the last one.
    pub fn update_cpu(&mut self, new: Vec<CpuStat>)
        requires
            forall|i: int|
                0 <= i < old(self).prev_cpu.len() && 0 <= i < new.len() ==> cpu_pair_ok(
                    #[trigger] old(self).prev_cpu@[i],
                    new@[i],
                ),
        ensures
            final(self).cpu_history.len() == if new.len() > old(self).cpu_history.len() {
                new.len()
            } else {
                old(self).cpu_history.len()
            },
            forall|i: int|
                0 <= i < final(self).cpu_history.len() ==> (#[trigger] final(self).cpu_history@[i])@
                    == old(self).updated_history(new@, i),
            final(self).prev_cpu@ == new@,
            final(self).same_apart_from_cpu(*old(self)),
            old(self).hist_ok() ==> final(self).hist_ok(),
            old(self).wf() ==> final(self).wf(),
    {
        let ghost pre = *self;
        let ghost old_hist = self.cpu_history@;
        while self.cpu_history.len() < new.len()
            invariant
                old_hist.len() <= self.cpu_history.len(),
                self.cpu_history.len() <= old_hist.len() || self.cpu_history.len() <= new.len(),
                forall|i: int| 0 <= i < old_hist.len() ==> #[trigger] self.cpu_history@[i] == old_hist[i],
                forall|i: int|
                    old_hist.len() <= i < self.cpu_history.len() ==> (#[trigger] self.cpu_history@[i])@
                        == Seq::new(HISTORY as nat, |j: int| 0u64),
                self.prev_cpu == old(self).prev_cpu,
                self.same_apart_from_cpu(*old(self)),
            decreases new.len() - self.cpu_history.len(),
        {
            self.cpu_history.push(idle_history());
        }
        let ghost grown = self.cpu_history@;
        let m = if self.prev_cpu.len() < new.len() {
            self.prev_cpu.len()
        } else {
            new.len()
        };
        let mut i: usize = 0;
        while i < m
            invariant
                m <= self.prev_cpu.len(),
                m <= new.len(),
                m <= self.cpu_history.len(),
                i <= m,
                self.cpu_history.len() == grown.len(),
                self.prev_cpu == old(self).prev_cpu,
                self.same_apart_from_cpu(*old(self)),
                forall|k: int|
                    0 <= k < old(self).prev_cpu.len() && 0 <= k < new.len() ==> cpu_pair_ok(
                        #[trigger] old(self).prev_cpu@[k],
                        new@[k],
                    ),
                forall|k: int| i <= k < grown.len() ==> #[trigger] self.cpu_history@[k] == grown[k],
                forall|k: int|
                    0 <= k < i ==> (#[trigger] self.cpu_history@[k])@ == recorded(
                        grown[k]@,
                        cpu_pct(old(self).prev_cpu@[k], new@[k]),
                    ),
            decreases m - i,
        {
            let pct = cpu_percent(&self.prev_cpu[i], &new[i]);
            let mut row = self.cpu_history[i].clone();
            assert(row@ =~= grown[i as int]@);
            record_sample(&mut row, pct);
            self.cpu_history.set(i, row);
            i = i + 1;
        }
        self.prev_cpu = new;
        proof {
            assert forall|k: int| 0 <= k < grown.len() implies (#[trigger] grown[k])@ == if k < old_hist.len() {
                old_hist[k]@
            } else {
                Seq::new(HISTORY as nat, |j: int| 0u64)
            } by {}
            assert forall|k: int| 0 <= k < self.cpu_history.len() implies (#[trigger] self.cpu_history@[k])@
                == pre.updated_history(new@, k) by {
                assert(grown[k]@ == if k < old_hist.len() {
                    old_hist[k]@
                } else {
                    Seq::new(HISTORY as nat, |j: int| 0u64)
                });
            }
            if pre.hist_ok() {
                assert forall|k: int| 0 <= k < grown.len() implies (#[trigger] grown[k])@.len() == HISTORY && (forall|j: int|
                    0 <= j < HISTORY ==> grown[k]@[j] <= 100) by {
                    if k < old_hist.len() {
                        assert(old_hist[k] == pre.cpu_history@[k]);
                        assert forall|j: int| 0 <= j < HISTORY implies grown[k]@[j] <= 100 by {
                            assert(pre.cpu_history@[k]@[j] <= 100);
                        }
                    }
                }
                assert forall|k: int| 0 <= k < self.cpu_history.len() implies (#[trigger] self.cpu_history@[k])@.len()
                    == HISTORY && (forall|j: int| 0 <= j < HISTORY ==> self.cpu_history@[k]@[j] <= 100) by {
                    if k < m {
                        lemma_recorded_ok(grown[k]@, cpu_pct(pre.prev_cpu@[k], new@[k]));
                    }
                }
                assert forall|k: int, j: int|
                    0 <= k < self.cpu_history.len() && 0 <= j < HISTORY implies #[trigger] self.cpu_history@[k]@[j]
                    <= 100 by {
                    assert(self.cpu_history@[k]@.len() == HISTORY && (forall|j: int| 0 <= j < HISTORY ==> self.cpu_history@[k]@[j] <= 100));
                }
            }
        }
    }

    /// Takes a process sample: returns, for each process, its busy ticks
    /// since the last sample (none for a process not seen before), and the
    /// ticks of all cores since the last sample; the sample's ticks and the
    /// cores' total become the last ones.
    pub fn sample_ticks(&mut self, stats: &Vec<PidStat>) -> (r: (Vec<u64>, u64))
        requires
            totals_fit(old(self).prev_cpu@),
            forall|k: int| 0 <= k < stats.len() ==> ticks_fit(#[trigger] stats@[k]),
        ensures
            r.0.len() == stats.len(),
            forall|k: int|
                0 <= k < stats.len() ==> #[trigger] r.0@[k] == tick_delta(
                    old(self).prev_ticks@,
                    stats@[k],
                ),
            r.1 == sat_sub(totals_sum(old(self).prev_cpu@), old(self).prev_total as int),
            final(self).prev_total == totals_sum(old(self).prev_cpu@),
            final(self).prev_ticks@ == ticks_map(stats@),
            *final(self) == (App {
                prev_ticks: final(self).prev_ticks,
                prev_total: final(self).prev_total,
                ..*old(self)
            }),
            old(self).wf() ==> final(self).wf(),
    {
        let mut total_now: u64 = 0;
        let mut c: usize = 0;
        while c < self.prev_cpu.len()
            invariant
                totals_fit(self.prev_cpu@),
                c <= self.prev_cpu.len(),
                total_now == totals_sum(self.prev_cpu@.take(c as int)),
            decreases self.prev_cpu.len() - c,
        {
            proof {
                lemma_totals_sum_prefix(self.prev_cpu@, c + 1);
                assert(self.prev_cpu@.take(c + 1).drop_last() =~= self.prev_cpu@.take(c as int));
                assert(self.prev_cpu@[c as int].fits());
            }
            total_now = total_now + self.prev_cpu[c].total();
            c = c + 1;
        }
        assert(self.prev_cpu@.take(self.prev_cpu.len() as int) =~= self.prev_cpu@);
        let total_d = total_now.saturating_sub(self.prev_total);
        let mut deltas: Vec<u64> = Vec::new();
        let mut seen: HashMap<u32, u64> = HashMap::new();
        let mut k: usize = 0;
        assert(stats@.take(0) =~= Seq::<PidStat>::empty());
        while k < stats.len()
            invariant
                k <= stats.len(),
                forall|q: int| 0 <= q < stats.len() ==> ticks_fit(#[trigger] stats@[q]),
                deltas.len() == k,
                forall|q: int|
                    0 <= q < k ==> #[trigger] deltas@[q] == tick_delta(self.prev_ticks@, stats@[q]),
                seen@ == ticks_map(stats@.take(k as int)),
            decreases stats.len() - k,
        {
            let st = &stats[k];
            assert(ticks_fit(stats@[k as int]));
            let ticks = st.utime + st.stime;
            let prev = match self.prev_ticks.get(&st.pid) {
                Some(p) => *p,
                None => ticks,
            };
            deltas.push(ticks.saturating_sub(prev));
            seen.insert(st.pid, ticks);
            k = k + 1;
            assert(stats@.take(k as int).drop_last() =~= stats@.take(k - 1));
        }
        assert(stats@.take(stats.len() as int) =~= stats@);
        self.prev_ticks = seen;
        self.prev_total = total_now;
        (deltas, total_d)
    }

    /// The byte counts of each interface since the last network sample, as
    /// (received, sent); none for an interface not seen before.
    pub fn net_deltas(&self, samples: &Vec<NetSample>) -> (d: Vec<Option<(u64, u64)>>)
        ensures
            d.len() == samples.len(),
            forall|k: int|
                0 <= k < samples.len() ==> #[trigger] d@[k] == net_delta(
                    sample_views(self.prev_net@),
                    samples@[k]@,
                ),
    {
        let mut d: Vec<Option<(u64, u64)>> = Vec::new();
        let mut k: usize = 0;
        while k < samples.len()
            invariant
                k <= samples.len(),
                d.len() == k,
                forall|q: int|
                    0 <= q < k ==> #[trigger] d@[q] == net_delta(
                        sample_views(self.prev_net@),
                        samples@[q]@,
                    ),
            decreases samples.len() - k,
        {
            let s = &samples[k];
            let entry = match lookup_sample(&self.prev_net, &s.name) {
                Some(p) => Some(
                    (
                        s.rx_bytes.saturating_sub(self.prev_net[p].rx_bytes),
                        s.tx_bytes.saturating_sub(self.prev_net[p].tx_bytes),
                    ),
                ),
                None => None,
            };
            d.push(entry);
            k = k + 1;
        }
        d
    }

    /// Records a network sample with the rates worked out for it: the
    /// network tab shows each interface with its rates and totals, and the
    /// sample becomes the last one.
    pub fn set_net(&mut self, samples: Vec<NetSample>, rates: &Vec<(u64, u64)>)
        requires
            rates.len() == samples.len(),
        ensures
            final(self).net.len() == samples.len(),
            forall|k: int|
                0 <= k < samples.len() ==> {
                    let n = #[trigger] final(self).net@[k];
                    &&& n.name@ == samples@[k].name@
                    &&& n.rx_bps == rates@[k].0
                    &&& n.tx_bps == rates@[k].1
                    &&& n.rx_total == samples@[k].rx_bytes
                    &&& n.tx_total == samples@[k].tx_bytes
                },
            final(self).prev_net@ == samples@,
            *final(self) == (App { net: final(self).net, prev_net: final(self).prev_net, ..*old(self) }),
            old(self).wf() ==> final(self).wf(),
    {
        let mut net: Vec<NetIfaceDisplay> = Vec::new();
        let mut k: usize = 0;
        while k < samples.len()
            invariant
                rates.len() == samples.len(),
                k <= samples.len(),
                net.len() == k,
                forall|q: int|
                    0 <= q < k ==> {
                        let n = #[trigger] net@[q];
                        &&& n.name@ == samples@[q].name@
                        &&& n.rx_bps == rates@[q].0
                        &&& n.tx_bps == rates@[q].1
                        &&& n.rx_total == samples@[q].rx_bytes
                        &&& n.tx_total == samples@[q].tx_bytes
                    },
            decreases samples.len() - k,
        {
            let s = &samples[k];
            net.push(
                NetIfaceDisplay {
                    name: s.name.clone(),
                    rx_bps: rates[k].0,
                    tx_bps: rates[k].1,
                    rx_total: s.rx_bytes,
                    tx_total: s.tx_bytes,
                },
            );
            k = k + 1;
        }
        self.net = net;
        self.prev_net = samples;
    }

    /// Where each sampled process goes on screen, as (position in `stats`,
    /// depth): in tree mode the flattened process tree, else every process
    /// in the order given, at depth 0.
    pub fn layout_processes(&self, stats: &Vec<PidStat>) -> (rows: Vec<(usize, usize)>)
        requires
            self.tree_mode ==> tree_is_bounded(stats@),
        ensures
            self.tree_mode ==> rows@ == tree_rows(stats@),
            self.tree_mode ==> is_walk_listing(stats@, tree_walks(stats@)),
            !self.tree_mode ==> rows@ == Seq::new(stats.len() as nat, |i: int| (i as usize, 0usize)),
    {
        if self.tree_mode {
            return build_tree(stats);
        }
        let mut rows: Vec<(usize, usize)> = Vec::new();
        let mut i: usize = 0;
        while i < stats.len()
            invariant
                i <= stats.len(),
                rows@ == Seq::new(i as nat, |k: int| (k as usize, 0usize)),
            decreases stats.len() - i,
        {
            rows.push((i, 0));
            i = i + 1;
            assert(rows@ =~= Seq::new(i as nat, |k: int| (k as usize, 0usize)));
        }
        rows
    }

    /// How many cores the CPU figures of processes are scaled by: those of
    /// the last sample, at least one.
    pub fn core_count(&self) -> (n: usize)
        ensures
            n == if self.prev_cpu@.len() > 1 {
                self.prev_cpu@.len()
            } else {
                1
            },
    {
        if self.prev_cpu.len() > 1 {
            self.prev_cpu.len()
        } else {
            1
        }
    }
}

/// The position of the last sample named `name`.
fn lookup_sample(prev: &Vec<NetSample>, name: &String) -> (r: Option<usize>)
    ensures
        match r {
            Some(p) => p < prev.len() && last_named(sample_views(prev@), name@) == Some(prev@[p as int]@),
            None => last_named(sample_views(prev@), name@) is None,
        },
{
    let ghost all = sample_views(prev@);
    let mut j: usize = prev.len();
    assert(all.take(j as int) =~= all);
    while j > 0
        invariant
            all == sample_views(prev@),
            j <= prev.len(),
            last_named(all, name@) == last_named(all.take(j as int), name@),
        decreases j,
    {
        if prev[j - 1].name == *name {
            assert(all.take(j as int).last() == prev@[j - 1]@);
            return Some(j - 1);
        }
        assert(all.take(j as int).drop_last() =~= all.take(j - 1));
        j = j - 1;
    }
    None
}

/// A history with a sample appended, its oldest sample dropped when it
/// already held `HISTORY`.
pub open spec fn recorded(h: Seq<u64>, sample: u64) -> Seq<u64> {
    if h.len() >= HISTORY {
        h.drop_first().push(sample)
    } else {
        h.push(sample)
    }
}

proof fn lemma_recorded_ok(h: Seq<u64>, sample: u64)
    requires
        h.len() == HISTORY,
        forall|j: int| 0 <= j < HISTORY ==> h[j] <= 100,
        sample <= 100,
    ensures
        recorded(h, sample).len() == HISTORY,
        forall|j: int| 0 <= j < HISTORY ==> recorded(h, sample)[j] <= 100,
{
    assert forall|j: int| 0 <= j < HISTORY implies recorded(h, sample)[j] <= 100 by {
        if j < HISTORY - 1 {
            assert(recorded(h, sample)[j] == h[j + 1]);
        }
    }
}

/// Appends a sample to a history, dropping the oldest sample when the
/// history already holds `HISTORY`.
pub fn record_sample(history: &mut VecDeque<u64>, sample: u64)
    ensures
        final(history)@ == recorded(old(history)@, sample),
{
    if history.len() >= HISTORY {
        history.pop_front();
    }
    history.push_back(sample);
    proof {
        if old(history)@.len() >= HISTORY {
            assert(old(history)@.subrange(1, old(history)@.len() as int) =~= old(history)@.drop_first());
        }
    }
}

/// `HISTORY` idle samples.
fn idle_history() -> (h: VecDeque<u64>)
    ensures
        h@ == Seq::new(HISTORY as nat, |j: int| 0u64),
{
    let mut h: VecDeque<u64> = VecDeque::new();
    let mut k: usize = 0;
    while k < HISTORY
        invariant
            k <= HISTORY,
            h@ == Seq::new(k as nat, |j: int| 0u64),
        decreases HISTORY - k,
    {
        h.push_back(0);
        k = k + 1;
        assert(h@ =~= Seq::new(k as nat, |j: int| 0u64));
    }
    h
}

} // verus!
